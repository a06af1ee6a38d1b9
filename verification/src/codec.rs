//! The cache snapshot format.
//!
//! A snapshot is one JSON object `{"timestamp":N,"items":[...]}` holding the
//! save time in seconds and the item list in API order.  The library writes
//! snapshots in exactly one canonical shape, and the reader accepts exactly
//! that shape: anything else is treated as a cache miss by the callers.

use vstd::prelude::*;
use vstd::string::StrSliceExecFns;
use crate::item::{Item, ItemView};
use crate::text::to_chars;

verus! {

// ---------------------------------------------------------------------------
// Specification of the encoded form.
// ---------------------------------------------------------------------------

/// How one character is written inside a quoted string: quotes and
/// backslashes get a backslash escape, everything else stands as itself.
pub open spec fn escape_char(c: char) -> Seq<char> {
    if c == '"' || c == '\\' {
        seq!['\\', c]
    } else {
        seq![c]
    }
}

/// The escaped body of a quoted string.
pub open spec fn escape_string(s: Seq<char>) -> Seq<char>
    decreases s.len(),
{
    if s.len() == 0 {
        Seq::empty()
    } else {
        escape_char(s[0]) + escape_string(s.skip(1))
    }
}

/// A string field: escaped body between double quotes.
pub open spec fn quoted(s: Seq<char>) -> Seq<char> {
    seq!['"'] + escape_string(s) + seq!['"']
}

/// The decimal digit character for `d` (`d < 10`).
pub open spec fn digit_char(d: u64) -> char
    recommends
        d < 10,
{
    ((48 + d) as u8) as char
}

/// Decimal notation of `n`, without leading zeros.
pub open spec fn encode_u64(n: u64) -> Seq<char>
    decreases n,
{
    if n < 10 {
        seq![digit_char(n)]
    } else {
        encode_u64((n / 10) as u64) + seq![digit_char(n % 10)]
    }
}

pub open spec fn snap_head() -> Seq<char> {
    "{\"timestamp\":"@
}

pub open spec fn snap_mid() -> Seq<char> {
    ",\"items\":["@
}

pub open spec fn snap_tail() -> Seq<char> {
    "]}"@
}

pub open spec fn key_content_type() -> Seq<char> {
    "{\"content_type\":"@
}

pub open spec fn key_title() -> Seq<char> {
    ",\"title\":"@
}

pub open spec fn key_summary() -> Seq<char> {
    ",\"summary\":"@
}

pub open spec fn key_link() -> Seq<char> {
    ",\"link\":"@
}

/// One item as a JSON object with the four fields in fixed order.
pub open spec fn encode_item(it: ItemView) -> Seq<char> {
    key_content_type() + quoted(it.content_type) + key_title() + quoted(it.title)
        + key_summary() + quoted(it.summary) + key_link() + quoted(it.link) + seq!['}']
}

/// The item list, comma-separated, in order.
pub open spec fn encode_items(items: Seq<ItemView>) -> Seq<char>
    decreases items.len(),
{
    if items.len() == 0 {
        Seq::empty()
    } else if items.len() == 1 {
        encode_item(items[0])
    } else {
        encode_item(items[0]) + seq![','] + encode_items(items.skip(1))
    }
}

/// The whole snapshot.
pub open spec fn encode_snapshot(timestamp: u64, items: Seq<ItemView>) -> Seq<char> {
    snap_head() + encode_u64(timestamp) + snap_mid() + encode_items(items) + snap_tail()
}

// ---------------------------------------------------------------------------
// Specification of the reader: a parser that accepts exactly the canonical
// encoded form.  Each step returns the parsed value and what remains.
// ---------------------------------------------------------------------------

/// Consumes the exact literal `lit` from the front of `s`.
pub open spec fn expect(s: Seq<char>, lit: Seq<char>) -> Option<Seq<char>> {
    if lit.is_prefix_of(s) {
        Some(s.skip(lit.len() as int))
    } else {
        None
    }
}

/// Reads an escaped string body up to and including the closing quote.
pub open spec fn parse_qbody(s: Seq<char>) -> Option<(Seq<char>, Seq<char>)>
    decreases s.len(),
{
    if s.len() == 0 {
        None
    } else if s[0] == '"' {
        Some((Seq::empty(), s.skip(1)))
    } else if s[0] == '\\' {
        if s.len() >= 2 && (s[1] == '"' || s[1] == '\\') {
            match parse_qbody(s.skip(2)) {
                Some(p) => Some((seq![s[1]] + p.0, p.1)),
                None => None,
            }
        } else {
            None
        }
    } else {
        match parse_qbody(s.skip(1)) {
            Some(p) => Some((seq![s[0]] + p.0, p.1)),
            None => None,
        }
    }
}

/// Reads a quoted string: opening quote, escaped body, closing quote.
pub open spec fn parse_qstring(s: Seq<char>) -> Option<(Seq<char>, Seq<char>)> {
    if s.len() >= 1 && s[0] == '"' {
        parse_qbody(s.skip(1))
    } else {
        None
    }
}

pub open spec fn is_digit(c: char) -> bool {
    48 <= c as u32 && c as u32 <= 57
}

/// The value of a digit character.
pub open spec fn digit_val(c: char) -> int
    recommends
        is_digit(c),
{
    c as u32 - 48
}

/// Splits `s` into its longest prefix of digits and the rest.
pub open spec fn split_digits(s: Seq<char>) -> (Seq<char>, Seq<char>)
    decreases s.len(),
{
    if s.len() == 0 || !is_digit(s[0]) {
        (Seq::empty(), s)
    } else {
        let r = split_digits(s.skip(1));
        (seq![s[0]] + r.0, r.1)
    }
}

/// The number a digit sequence denotes in decimal.
pub open spec fn digits_value(d: Seq<char>) -> int
    decreases d.len(),
{
    if d.len() == 0 {
        0
    } else {
        digits_value(d.drop_last()) * 10 + digit_val(d.last())
    }
}

/// Reads a canonical `u64`: digits without a leading zero, value in range.
pub open spec fn parse_u64v(s: Seq<char>) -> Option<(u64, Seq<char>)> {
    let d = split_digits(s).0;
    let r = split_digits(s).1;
    if d.len() == 0 {
        None
    } else if d.len() > 1 && digit_val(d[0]) == 0 {
        None
    } else if digits_value(d) > u64::MAX as int {
        None
    } else {
        Some((digits_value(d) as u64, r))
    }
}

/// Reads one item object.
pub open spec fn parse_item(s: Seq<char>) -> Option<(ItemView, Seq<char>)> {
    match expect(s, key_content_type()) {
        None => None,
        Some(s1) => match parse_qstring(s1) {
            None => None,
            Some((content_type, s2)) => match expect(s2, key_title()) {
                None => None,
                Some(s3) => match parse_qstring(s3) {
                    None => None,
                    Some((title, s4)) => match expect(s4, key_summary()) {
                        None => None,
                        Some(s5) => match parse_qstring(s5) {
                            None => None,
                            Some((summary, s6)) => match expect(s6, key_link()) {
                                None => None,
                                Some(s7) => match parse_qstring(s7) {
                                    None => None,
                                    Some((link, s8)) => match expect(s8, seq!['}']) {
                                        None => None,
                                        Some(s9) => Some(
                                            (
                                                ItemView { content_type, title, summary, link },
                                                s9,
                                            ),
                                        ),
                                    },
                                },
                            },
                        },
                    },
                },
            },
        },
    }
}

proof fn lemma_parse_qbody_consumes(s: Seq<char>)
    ensures
        parse_qbody(s) matches Some(p) ==> p.1.len() < s.len(),
    decreases s.len(),
{
    if s.len() == 0 {
    } else if s[0] == '"' {
    } else if s[0] == '\\' {
        if s.len() >= 2 && (s[1] == '"' || s[1] == '\\') {
            lemma_parse_qbody_consumes(s.skip(2));
        }
    } else {
        lemma_parse_qbody_consumes(s.skip(1));
    }
}

proof fn lemma_parse_item_consumes(s: Seq<char>)
    ensures
        parse_item(s) matches Some(p) ==> p.1.len() < s.len(),
{
    match expect(s, key_content_type()) {
        None => {},
        Some(s1) => {
            lemma_parse_qbody_consumes(s1.skip(1));
            match parse_qstring(s1) {
                None => {},
                Some((_ct, s2)) => {
                    match expect(s2, key_title()) {
                        None => {},
                        Some(s3) => {
                            lemma_parse_qbody_consumes(s3.skip(1));
                            match parse_qstring(s3) {
                                None => {},
                                Some((_t, s4)) => {
                                    match expect(s4, key_summary()) {
                                        None => {},
                                        Some(s5) => {
                                            lemma_parse_qbody_consumes(s5.skip(1));
                                            match parse_qstring(s5) {
                                                None => {},
                                                Some((_sm, s6)) => {
                                                    match expect(s6, key_link()) {
                                                        None => {},
                                                        Some(s7) => {
                                                            lemma_parse_qbody_consumes(s7.skip(1));
                                                        },
                                                    }
                                                },
                                            }
                                        },
                                    }
                                },
                            }
                        },
                    }
                },
            }
        },
    }
}

/// Reads `(',' item)* ']'` after a first item.
pub open spec fn parse_items_more(s: Seq<char>) -> Option<(Seq<ItemView>, Seq<char>)>
    decreases s.len(),
    via parse_items_more_dec
{
    if s.len() >= 1 && s[0] == ']' {
        Some((Seq::empty(), s.skip(1)))
    } else if s.len() >= 1 && s[0] == ',' {
        match parse_item(s.skip(1)) {
            None => None,
            Some((it, r)) => match parse_items_more(r) {
                None => None,
                Some((its, r2)) => Some((seq![it] + its, r2)),
            },
        }
    } else {
        None
    }
}

#[via_fn]
proof fn parse_items_more_dec(s: Seq<char>) {
    if s.len() >= 1 && s[0] == ',' {
        lemma_parse_item_consumes(s.skip(1));
    }
}

/// Reads the item list after the opening bracket, including the closing one.
pub open spec fn parse_items(s: Seq<char>) -> Option<(Seq<ItemView>, Seq<char>)> {
    if s.len() >= 1 && s[0] == ']' {
        Some((Seq::empty(), s.skip(1)))
    } else {
        match parse_item(s) {
            None => None,
            Some((it, r)) => match parse_items_more(r) {
                None => None,
                Some((its, r2)) => Some((seq![it] + its, r2)),
            },
        }
    }
}

/// Reads a whole snapshot; nothing may remain.
pub open spec fn parse_snapshot(s: Seq<char>) -> Option<(u64, Seq<ItemView>)> {
    match expect(s, snap_head()) {
        None => None,
        Some(s1) => match parse_u64v(s1) {
            None => None,
            Some((timestamp, s2)) => match expect(s2, snap_mid()) {
                None => None,
                Some(s3) => match parse_items(s3) {
                    None => None,
                    Some((items, s4)) => if s4 == seq!['}'] {
                        Some((timestamp, items))
                    } else {
                        None
                    },
                },
            },
        },
    }
}

// ---------------------------------------------------------------------------
// Unfolding the encoding from the back, for the encoder's loops.
// ---------------------------------------------------------------------------

proof fn lemma_escape_push(s: Seq<char>, c: char)
    ensures
        escape_string(s.push(c)) == escape_string(s) + escape_char(c),
    decreases s.len(),
{
    if s.len() == 0 {
        assert(s.push(c)[0] == c);
        assert(s.push(c).skip(1) =~= Seq::<char>::empty());
        assert(escape_string(s.push(c)) == escape_char(c) + escape_string(Seq::<char>::empty()));
        assert(escape_string(s.push(c)) =~= escape_string(s) + escape_char(c));
    } else {
        assert(s.push(c)[0] == s[0]);
        lemma_escape_push(s.skip(1), c);
        assert(s.push(c).skip(1) =~= s.skip(1).push(c));
        assert(escape_string(s.push(c)) =~= escape_string(s) + escape_char(c));
    }
}

proof fn lemma_encode_items_push(items: Seq<ItemView>, it: ItemView)
    ensures
        encode_items(items.push(it)) == if items.len() == 0 {
            encode_item(it)
        } else {
            (encode_items(items) + seq![','] + encode_item(it))
        },
    decreases items.len(),
{
    if items.len() == 0 {
        assert(items.push(it)[0] == it);
        assert(encode_items(items.push(it)) =~= encode_item(it));
    } else if items.len() == 1 {
        assert(items.push(it).skip(1) =~= seq![it]);
        assert(encode_items(seq![it]) == encode_item(it));
        assert(encode_items(items.push(it)) =~= encode_items(items) + seq![','] + encode_item(it));
    } else {
        lemma_encode_items_push(items.skip(1), it);
        assert(items.push(it).skip(1) =~= items.skip(1).push(it));
        assert(encode_items(items.push(it)) =~= encode_items(items) + seq![','] + encode_item(it));
    }
}

// ---------------------------------------------------------------------------
// Round trip: the parser returns exactly what the encoder wrote.
// ---------------------------------------------------------------------------

proof fn lemma_expect_roundtrip(lit: Seq<char>, rest: Seq<char>)
    ensures
        expect(lit + rest, lit) == Some(rest),
{
    assert(lit =~= (lit + rest).subrange(0, lit.len() as int));
    assert(lit.is_prefix_of(lit + rest));
    assert((lit + rest).skip(lit.len() as int) =~= rest);
}

proof fn lemma_qbody_roundtrip(s: Seq<char>, rest: Seq<char>)
    ensures
        parse_qbody(escape_string(s) + seq!['"'] + rest) == Some((s, rest)),
    decreases s.len(),
{
    let input = escape_string(s) + seq!['"'] + rest;
    if s.len() == 0 {
        assert(escape_string(s) =~= Seq::<char>::empty());
        assert(input =~= seq!['"'] + rest);
        assert(input[0] == '"');
        assert(input.skip(1) =~= rest);
    } else {
        let c = s[0];
        let t = escape_string(s.skip(1)) + seq!['"'] + rest;
        lemma_qbody_roundtrip(s.skip(1), rest);
        if c == '"' || c == '\\' {
            assert(input =~= seq!['\\', c] + t);
            assert(input[0] == '\\');
            assert(input[1] == c);
            assert(input.skip(2) =~= t);
            assert(parse_qbody(input) == Some((seq![c] + s.skip(1), rest)));
            assert(seq![c] + s.skip(1) =~= s);
        } else {
            assert(input =~= seq![c] + t);
            assert(input[0] == c);
            assert(input.skip(1) =~= t);
            assert(parse_qbody(input) == Some((seq![c] + s.skip(1), rest)));
            assert(seq![c] + s.skip(1) =~= s);
        }
    }
}

proof fn lemma_qstring_roundtrip(s: Seq<char>, rest: Seq<char>)
    ensures
        parse_qstring(quoted(s) + rest) == Some((s, rest)),
{
    let input = quoted(s) + rest;
    assert(input[0] == '"');
    assert(input.skip(1) =~= escape_string(s) + seq!['"'] + rest);
    lemma_qbody_roundtrip(s, rest);
}

pub(crate) proof fn lemma_digits_value_nonneg(d: Seq<char>)
    requires
        forall|i: int| 0 <= i < d.len() ==> is_digit(d[i]),
    ensures
        digits_value(d) >= 0,
    decreases d.len(),
{
    if d.len() > 0 {
        assert(forall|i: int| 0 <= i < d.drop_last().len() ==> d.drop_last()[i] == d[i]);
        lemma_digits_value_nonneg(d.drop_last());
    }
}

pub(crate) proof fn lemma_digits_value_prefix_le(d: Seq<char>, j: int)
    requires
        0 <= j <= d.len(),
        forall|i: int| 0 <= i < d.len() ==> is_digit(d[i]),
    ensures
        digits_value(d.take(j)) <= digits_value(d),
    decreases d.len() - j,
{
    if j == d.len() {
        assert(d.take(j) =~= d);
    } else {
        lemma_digits_value_prefix_le(d, j + 1);
        assert(d.take(j + 1).drop_last() =~= d.take(j));
        assert(d.take(j + 1).last() == d[j]);
        assert(forall|i: int| 0 <= i < j ==> d.take(j)[i] == d[i]);
        lemma_digits_value_nonneg(d.take(j));
    }
}

proof fn lemma_encode_u64_props(n: u64)
    ensures
        encode_u64(n).len() >= 1,
        forall|i: int| 0 <= i < encode_u64(n).len() ==> is_digit(encode_u64(n)[i]),
        n >= 1 ==> digit_val(encode_u64(n)[0]) >= 1,
    decreases n,
{
    if n < 10 {
        assert(digit_char(n) as u32 == 48 + n);
    } else {
        lemma_encode_u64_props(n / 10);
        assert(digit_char(n % 10) as u32 == 48 + (n % 10) as u32);
        assert(encode_u64(n)[0] == encode_u64((n / 10) as u64)[0]);
        assert(forall|i: int|
            0 <= i < encode_u64(n).len() ==> is_digit(#[trigger] encode_u64(n)[i])) by {
            assert(forall|i: int|
                0 <= i < encode_u64((n / 10) as u64).len() ==> #[trigger] encode_u64(n)[i]
                    == encode_u64((n / 10) as u64)[i]);
            assert(encode_u64(n).last() == digit_char(n % 10));
        }
    }
}

proof fn lemma_digits_value_encode(n: u64)
    ensures
        digits_value(encode_u64(n)) == n,
    decreases n,
{
    if n < 10 {
        assert(encode_u64(n) =~= seq![digit_char(n)]);
        assert(encode_u64(n).drop_last() =~= Seq::<char>::empty());
        assert(encode_u64(n).last() == digit_char(n));
        assert(digit_char(n) as u32 == 48 + n);
        assert(digits_value(encode_u64(n)) == digits_value(Seq::<char>::empty()) * 10 + digit_val(
            digit_char(n),
        ));
    } else {
        lemma_digits_value_encode(n / 10);
        assert(encode_u64(n).drop_last() =~= encode_u64((n / 10) as u64));
        assert(encode_u64(n).last() == digit_char(n % 10));
        assert(digit_char(n % 10) as u32 == 48 + (n % 10) as u32);
        assert((n as int) / 10 * 10 + (n as int) % 10 == n as int) by {
            vstd::arithmetic::div_mod::lemma_fundamental_div_mod(n as int, 10);
        }
    }
}

proof fn lemma_split_digits_exact(d: Seq<char>, rest: Seq<char>)
    requires
        forall|i: int| 0 <= i < d.len() ==> is_digit(d[i]),
        rest.len() == 0 || !is_digit(rest[0]),
    ensures
        split_digits(d + rest) == (d, rest),
    decreases d.len(),
{
    let input = d + rest;
    if d.len() == 0 {
        assert(input =~= rest);
    } else {
        assert(forall|i: int| 0 <= i < d.skip(1).len() ==> d.skip(1)[i] == d[i + 1]);
        lemma_split_digits_exact(d.skip(1), rest);
        assert(input[0] == d[0]);
        assert(input.skip(1) =~= d.skip(1) + rest);
        assert(seq![input[0]] + d.skip(1) =~= d);
    }
}

proof fn lemma_parse_u64_roundtrip(n: u64, rest: Seq<char>)
    requires
        rest.len() == 0 || !is_digit(rest[0]),
    ensures
        parse_u64v(encode_u64(n) + rest) == Some((n, rest)),
{
    lemma_encode_u64_props(n);
    lemma_split_digits_exact(encode_u64(n), rest);
    lemma_digits_value_encode(n);
    if encode_u64(n).len() > 1 {
        assert(n >= 10);
    }
}

#[verifier::rlimit(100)]
proof fn lemma_item_roundtrip(it: ItemView, rest: Seq<char>)
    ensures
        parse_item(encode_item(it) + rest) == Some((it, rest)),
{
    let x1 = quoted(it.content_type) + key_title() + quoted(it.title) + key_summary() + quoted(
        it.summary,
    ) + key_link() + quoted(it.link) + seq!['}'] + rest;
    assert(encode_item(it) + rest =~= key_content_type() + x1);
    lemma_expect_roundtrip(key_content_type(), x1);
    let x2 = key_title() + quoted(it.title) + key_summary() + quoted(it.summary) + key_link()
        + quoted(it.link) + seq!['}'] + rest;
    assert(x1 =~= quoted(it.content_type) + x2);
    lemma_qstring_roundtrip(it.content_type, x2);
    let x3 = quoted(it.title) + key_summary() + quoted(it.summary) + key_link() + quoted(it.link)
        + seq!['}'] + rest;
    assert(x2 =~= key_title() + x3);
    lemma_expect_roundtrip(key_title(), x3);
    let x4 = key_summary() + quoted(it.summary) + key_link() + quoted(it.link) + seq!['}'] + rest;
    assert(x3 =~= quoted(it.title) + x4);
    lemma_qstring_roundtrip(it.title, x4);
    let x5 = quoted(it.summary) + key_link() + quoted(it.link) + seq!['}'] + rest;
    assert(x4 =~= key_summary() + x5);
    lemma_expect_roundtrip(key_summary(), x5);
    let x6 = key_link() + quoted(it.link) + seq!['}'] + rest;
    assert(x5 =~= quoted(it.summary) + x6);
    lemma_qstring_roundtrip(it.summary, x6);
    let x7 = quoted(it.link) + seq!['}'] + rest;
    assert(x6 =~= key_link() + x7);
    lemma_expect_roundtrip(key_link(), x7);
    let x8 = seq!['}'] + rest;
    assert(x7 =~= quoted(it.link) + x8);
    lemma_qstring_roundtrip(it.link, x8);
    lemma_expect_roundtrip(seq!['}'], rest);
    assert(it == ItemView {
        content_type: it.content_type,
        title: it.title,
        summary: it.summary,
        link: it.link,
    });
}

/// The text that follows the first item of a non-empty list: each further
/// item behind a comma, then the closing bracket.
spec fn items_tail(items: Seq<ItemView>) -> Seq<char>
    decreases items.len(),
{
    if items.len() == 0 {
        seq![']']
    } else {
        seq![','] + encode_item(items[0]) + items_tail(items.skip(1))
    }
}

proof fn lemma_encode_items_tail(items: Seq<ItemView>)
    requires
        items.len() >= 1,
    ensures
        encode_items(items) + seq![']'] == encode_item(items[0]) + items_tail(items.skip(1)),
    decreases items.len(),
{
    if items.len() == 1 {
        assert(items.skip(1) =~= Seq::<ItemView>::empty());
        assert(encode_items(items) == encode_item(items[0]));
        assert(items_tail(items.skip(1)) == seq![']']);
    } else {
        lemma_encode_items_tail(items.skip(1));
        assert(items.skip(1)[0] == items[1]);
        assert(encode_items(items) == encode_item(items[0]) + seq![','] + encode_items(
            items.skip(1),
        ));
        assert(items_tail(items.skip(1)) == seq![','] + encode_item(items[1]) + items_tail(
            items.skip(1).skip(1),
        ));
        assert(encode_items(items) + seq![']'] =~= encode_item(items[0]) + (seq![','] + (
        encode_items(items.skip(1)) + seq![']'])));
        assert(encode_item(items[0]) + (seq![','] + (encode_item(items[1]) + items_tail(
            items.skip(1).skip(1),
        ))) =~= encode_item(items[0]) + items_tail(items.skip(1)));
    }
}

proof fn lemma_items_more_roundtrip(items: Seq<ItemView>, rest: Seq<char>)
    ensures
        parse_items_more(items_tail(items) + rest) == Some((items, rest)),
    decreases items.len(),
{
    let input = items_tail(items) + rest;
    if items.len() == 0 {
        assert(input =~= seq![']'] + rest);
        assert(input[0] == ']');
        assert(input.skip(1) =~= rest);
    } else {
        assert(input =~= seq![','] + (encode_item(items[0]) + (items_tail(items.skip(1))
            + rest)));
        assert(input[0] == ',');
        assert(input.skip(1) =~= encode_item(items[0]) + (items_tail(items.skip(1)) + rest));
        lemma_item_roundtrip(items[0], items_tail(items.skip(1)) + rest);
        lemma_items_more_roundtrip(items.skip(1), rest);
        assert(seq![items[0]] + items.skip(1) =~= items);
    }
}

#[verifier::rlimit(100)]
proof fn lemma_items_roundtrip(items: Seq<ItemView>, rest: Seq<char>)
    ensures
        parse_items(encode_items(items) + seq![']'] + rest) == Some((items, rest)),
{
    let input = encode_items(items) + seq![']'] + rest;
    if items.len() == 0 {
        assert(input =~= seq![']'] + rest);
        assert(input[0] == ']');
        assert(input.skip(1) =~= rest);
    } else {
        lemma_encode_items_tail(items);
        assert(input =~= encode_item(items[0]) + (items_tail(items.skip(1)) + rest));
        reveal_strlit("{\"content_type\":");
        assert(key_content_type()[0] == '{');
        assert(input[0] == '{');
        lemma_item_roundtrip(items[0], items_tail(items.skip(1)) + rest);
        lemma_items_more_roundtrip(items.skip(1), rest);
        assert(seq![items[0]] + items.skip(1) =~= items);
    }
}

/// Round trip: reading back a snapshot that was written by the encoder
/// yields exactly the timestamp and the item list that were written, in
/// order.
pub proof fn lemma_snapshot_roundtrip(timestamp: u64, items: Seq<ItemView>)
    ensures
        parse_snapshot(encode_snapshot(timestamp, items)) == Some((timestamp, items)),
{
    let x1 = encode_u64(timestamp) + (snap_mid() + (encode_items(items) + snap_tail()));
    assert(encode_snapshot(timestamp, items) =~= snap_head() + x1);
    lemma_expect_roundtrip(snap_head(), x1);
    let x2 = snap_mid() + (encode_items(items) + snap_tail());
    reveal_strlit(",\"items\":[");
    assert(snap_mid()[0] == ',');
    assert(x2[0] == ',');
    assert(!is_digit(x2[0]));
    lemma_parse_u64_roundtrip(timestamp, x2);
    let x3 = encode_items(items) + snap_tail();
    lemma_expect_roundtrip(snap_mid(), x3);
    reveal_strlit("]}");
    assert(snap_tail() =~= seq![']'] + seq!['}']);
    assert(x3 =~= encode_items(items) + seq![']'] + seq!['}']);
    lemma_items_roundtrip(items, seq!['}']);
    assert(seq!['}'] == seq!['}']);
}

// ---------------------------------------------------------------------------
// The encoder.
// ---------------------------------------------------------------------------

fn digit_to_char(d: u64) -> (c: char)
    requires
        d < 10,
    ensures
        c == digit_char(d),
{
    ((48 + d) as u8) as char
}

fn encode_u64_chars(n: u64) -> (r: Vec<char>)
    ensures
        r@ == encode_u64(n),
    decreases n,
{
    if n < 10 {
        let mut r: Vec<char> = Vec::new();
        r.push(digit_to_char(n));
        proof {
            assert(r@ =~= encode_u64(n));
        }
        r
    } else {
        let mut r = encode_u64_chars(n / 10);
        r.push(digit_to_char(n % 10));
        proof {
            assert(r@ =~= encode_u64(n));
        }
        r
    }
}

/// Appends `quoted(s@)` to `out`.
fn push_quoted(out: &mut Vec<char>, s: &str)
    ensures
        final(out)@ == old(out)@ + quoted(s@),
{
    out.push('"');
    let cs = to_chars(s);
    let n = cs.len();
    let mut i: usize = 0;
    while i < n
        invariant
            i <= n,
            n == cs.len(),
            cs@ == s@,
            out@ == old(out)@ + seq!['"'] + escape_string(cs@.take(i as int)),
        decreases n - i,
    {
        let c = cs[i];
        if c == '"' || c == '\\' {
            out.push('\\');
            out.push(c);
        } else {
            out.push(c);
        }
        proof {
            lemma_escape_push(cs@.take(i as int), cs@[i as int]);
            assert(cs@.take(i + 1) =~= cs@.take(i as int).push(cs@[i as int]));
            assert(out@ =~= old(out)@ + seq!['"'] + escape_string(cs@.take(i + 1)));
        }
        i += 1;
    }
    out.push('"');
    proof {
        assert(cs@.take(n as int) =~= cs@);
        assert(out@ =~= old(out)@ + quoted(s@));
    }
}

/// Appends the literal characters of `s` to `out`.
fn push_literal(out: &mut Vec<char>, s: &str)
    ensures
        final(out)@ == old(out)@ + s@,
{
    let mut cs = to_chars(s);
    out.append(&mut cs);
}

/// Appends `encode_item(it@)` to `out`.
fn push_item(out: &mut Vec<char>, it: &Item)
    ensures
        final(out)@ == old(out)@ + encode_item(it@),
{
    push_literal(out, "{\"content_type\":");
    push_quoted(out, it.content_type.as_str());
    push_literal(out, ",\"title\":");
    push_quoted(out, it.title.as_str());
    push_literal(out, ",\"summary\":");
    push_quoted(out, it.summary.as_str());
    push_literal(out, ",\"link\":");
    push_quoted(out, it.link.as_str());
    out.push('}');
    proof {
        assert(out@ =~= old(out)@ + encode_item(it@));
    }
}

/// Writes the snapshot for `items` taken at time `timestamp`, in the
/// canonical encoded form.
pub fn encode_snapshot_chars(timestamp: u64, items: &Vec<Item>) -> (r: Vec<char>)
    ensures
        r@ == encode_snapshot(timestamp, items.deep_view()),
{
    let ghost dv = items.deep_view();
    let mut out = to_chars("{\"timestamp\":");
    let mut num = encode_u64_chars(timestamp);
    out.append(&mut num);
    push_literal(&mut out, ",\"items\":[");
    let n = items.len();
    let mut i: usize = 0;
    proof {
        assert(dv.take(0) =~= Seq::<ItemView>::empty());
    }
    while i < n
        invariant
            i <= n,
            n == items.len(),
            dv == items.deep_view(),
            out@ == snap_head() + encode_u64(timestamp) + snap_mid() + encode_items(
                dv.take(i as int),
            ),
        decreases n - i,
    {
        if i > 0 {
            out.push(',');
        }
        push_item(&mut out, &items[i]);
        proof {
            lemma_encode_items_push(dv.take(i as int), dv[i as int]);
            assert(dv.take(i + 1) =~= dv.take(i as int).push(dv[i as int]));
            assert(out@ =~= snap_head() + encode_u64(timestamp) + snap_mid() + encode_items(
                dv.take(i + 1),
            ));
        }
        i += 1;
    }
    push_literal(&mut out, "]}");
    proof {
        assert(dv.take(n as int) =~= dv);
        assert(out@ =~= encode_snapshot(timestamp, dv));
    }
    out
}

// ---------------------------------------------------------------------------
// The reader.  Each function implements the matching parser step exactly.
// ---------------------------------------------------------------------------

fn is_digit_char(c: char) -> (r: bool)
    ensures
        r == is_digit(c),
{
    let u = c as u32;
    48 <= u && u <= 57
}

fn d_expect<'a>(s: &'a [char], lit: &str) -> (r: Option<&'a [char]>)
    ensures
        r is Some <==> expect(s@, lit@) is Some,
        r matches Some(rest) ==> expect(s@, lit@) == Some(rest@),
{
    let lc = to_chars(lit);
    let n = lc.len();
    if s.len() < n {
        proof {
            assert(!lit@.is_prefix_of(s@));
        }
        return None;
    }
    let mut i: usize = 0;
    while i < n
        invariant
            i <= n,
            n == lc.len(),
            lc@ == lit@,
            n <= s.len(),
            forall|j: int| 0 <= j < i ==> s@[j] == lit@[j],
        decreases n - i,
    {
        if s[i] != lc[i] {
            proof {
                assert(s@.subrange(0, n as int)[i as int] == s@[i as int]);
                assert(!lit@.is_prefix_of(s@));
            }
            return None;
        }
        i += 1;
    }
    let rest = &s[n..s.len()];
    proof {
        assert(lit@ =~= s@.subrange(0, n as int));
        assert(lit@.is_prefix_of(s@));
        assert(rest@ =~= s@.skip(n as int));
    }
    Some(rest)
}

fn d_qbody<'a>(s: &'a [char]) -> (r: Option<(Vec<char>, &'a [char])>)
    ensures
        r is Some <==> parse_qbody(s@) is Some,
        r matches Some(p) ==> parse_qbody(s@) == Some((p.0@, p.1@)),
    decreases s.len(),
{
    if s.len() == 0 {
        return None;
    }
    let c = s[0];
    if c == '"' {
        let rest = &s[1..s.len()];
        proof {
            assert(rest@ =~= s@.skip(1));
        }
        let content: Vec<char> = Vec::new();
        proof {
            assert(content@ =~= Seq::<char>::empty());
        }
        return Some((content, rest));
    }
    if c == '\\' {
        if s.len() >= 2 {
            let e = s[1];
            if e == '"' || e == '\\' {
                let tail = &s[2..s.len()];
                proof {
                    assert(tail@ =~= s@.skip(2));
                }
                match d_qbody(tail) {
                    Some(p) => {
                        let (inner, rest) = p;
                        let ghost pre = inner@;
                        let mut content = inner;
                        content.insert(0, e);
                        proof {
                            assert(content@ =~= seq![s@[1]] + pre);
                        }
                        return Some((content, rest));
                    },
                    None => {
                        return None;
                    },
                }
            }
        }
        return None;
    }
    let tail = &s[1..s.len()];
    proof {
        assert(tail@ =~= s@.skip(1));
    }
    match d_qbody(tail) {
        Some(p) => {
            let (inner, rest) = p;
            let ghost pre = inner@;
            let mut content = inner;
            content.insert(0, c);
            proof {
                assert(content@ =~= seq![s@[0]] + pre);
            }
            Some((content, rest))
        },
        None => None,
    }
}

fn d_qstring<'a>(s: &'a [char]) -> (r: Option<(Vec<char>, &'a [char])>)
    ensures
        r is Some <==> parse_qstring(s@) is Some,
        r matches Some(p) ==> parse_qstring(s@) == Some((p.0@, p.1@)),
{
    if s.len() >= 1 {
        let c = s[0];
        if c == '"' {
            let tail = &s[1..s.len()];
            proof {
                assert(tail@ =~= s@.skip(1));
            }
            return d_qbody(tail);
        }
    }
    None
}

pub(crate) proof fn lemma_split_digits_chars(t: Seq<char>, k: int)
    requires
        0 <= k <= t.len(),
        forall|j: int| 0 <= j < k ==> is_digit(t[j]),
        k == t.len() || !is_digit(t[k]),
    ensures
        split_digits(t) == (t.take(k), t.skip(k)),
    decreases k,
{
    if k == 0 {
        assert(t.take(0) =~= Seq::<char>::empty());
        assert(t.skip(0) =~= t);
    } else {
        assert(forall|j: int| 0 <= j < k - 1 ==> t.skip(1)[j] == t[j + 1]);
        lemma_split_digits_chars(t.skip(1), k - 1);
        assert(t.take(k) =~= seq![t[0]] + t.skip(1).take(k - 1));
        assert(t.skip(1).skip(k - 1) =~= t.skip(k));
    }
}

pub(crate) fn digit_run(s: &[char]) -> (k: usize)
    ensures
        k <= s.len(),
        forall|j: int| 0 <= j < k ==> is_digit(s@[j]),
        k < s.len() ==> !is_digit(s@[k as int]),
{
    let mut k: usize = 0;
    while k < s.len()
        invariant
            k <= s.len(),
            forall|j: int| 0 <= j < k ==> is_digit(s@[j]),
        decreases s.len() - k,
    {
        if !is_digit_char(s[k]) {
            return k;
        }
        k += 1;
    }
    k
}

fn d_number<'a>(s: &'a [char]) -> (r: Option<(u64, &'a [char])>)
    ensures
        r is Some <==> parse_u64v(s@) is Some,
        r matches Some(p) ==> parse_u64v(s@) == Some((p.0, p.1@)),
{
    let k = digit_run(s);
    proof {
        lemma_split_digits_chars(s@, k as int);
    }
    let ghost d = s@.take(k as int);
    if k == 0 {
        return None;
    }
    if k > 1 && (s[0] as u32) == 48 {
        return None;
    }
    let mut acc: u64 = 0;
    let mut j: usize = 0;
    while j < k
        invariant
            j <= k,
            0 < k <= s.len(),
            d == s@.take(k as int),
            split_digits(s@) == (d, s@.skip(k as int)),
            !(d.len() > 1 && digit_val(d[0]) == 0),
            forall|i: int| 0 <= i < k ==> is_digit(s@[i]),
            acc == digits_value(d.take(j as int)),
        decreases k - j,
    {
        proof {
            assert(forall|i: int| 0 <= i < k ==> d[i] == s@[i]);
            assert(d.take(j + 1).drop_last() =~= d.take(j as int));
            assert(d.take(j + 1).last() == d[j as int]);
        }
        proof {
            assert(forall|i: int| 0 <= i < d.len() ==> is_digit(d[i]));
            assert(digit_val(d[j as int]) >= 0);
            assert(digits_value(d.take(j + 1)) == acc * 10 + digit_val(d[j as int]));
        }
        let dv = (s[j] as u32 - 48) as u64;
        let m = match acc.checked_mul(10) {
            Some(m) => m,
            None => {
                proof {
                    assert(digits_value(d.take(j + 1)) > u64::MAX as int);
                    lemma_digits_value_prefix_le(d, j + 1);
                }
                return None;
            },
        };
        let acc2 = match m.checked_add(dv) {
            Some(a) => a,
            None => {
                proof {
                    assert(digits_value(d.take(j + 1)) > u64::MAX as int);
                    lemma_digits_value_prefix_le(d, j + 1);
                }
                return None;
            },
        };
        acc = acc2;
        j += 1;
    }
    proof {
        assert(d.take(k as int) =~= d);
    }
    let rest = &s[k..s.len()];
    proof {
        assert(rest@ =~= s@.skip(k as int));
    }
    Some((acc, rest))
}

fn d_item<'a>(s: &'a [char]) -> (r: Option<(Item, &'a [char])>)
    ensures
        r is Some <==> parse_item(s@) is Some,
        r matches Some(p) ==> parse_item(s@) == Some((p.0@, p.1@)),
{
    let s1 = match d_expect(s, "{\"content_type\":") {
        Some(x) => x,
        None => {
            return None;
        },
    };
    let (ct, s2) = match d_qstring(s1) {
        Some(x) => x,
        None => {
            return None;
        },
    };
    let s3 = match d_expect(s2, ",\"title\":") {
        Some(x) => x,
        None => {
            return None;
        },
    };
    let (title, s4) = match d_qstring(s3) {
        Some(x) => x,
        None => {
            return None;
        },
    };
    let s5 = match d_expect(s4, ",\"summary\":") {
        Some(x) => x,
        None => {
            return None;
        },
    };
    let (summary, s6) = match d_qstring(s5) {
        Some(x) => x,
        None => {
            return None;
        },
    };
    let s7 = match d_expect(s6, ",\"link\":") {
        Some(x) => x,
        None => {
            return None;
        },
    };
    let (link, s8) = match d_qstring(s7) {
        Some(x) => x,
        None => {
            return None;
        },
    };
    proof {
        reveal_strlit("}");
        assert("}"@ =~= seq!['}']);
    }
    let s9 = match d_expect(s8, "}") {
        Some(x) => x,
        None => {
            return None;
        },
    };
    let item = Item {
        content_type: crate::text::chars_to_string(&ct),
        title: crate::text::chars_to_string(&title),
        summary: crate::text::chars_to_string(&summary),
        link: crate::text::chars_to_string(&link),
    };
    proof {
        assert(item@ == ItemView { content_type: ct@, title: title@, summary: summary@, link: link@ });
    }
    Some((item, s9))
}

fn d_items_more<'a>(s: &'a [char]) -> (r: Option<(Vec<Item>, &'a [char])>)
    ensures
        r is Some <==> parse_items_more(s@) is Some,
        r matches Some(p) ==> parse_items_more(s@) == Some((p.0.deep_view(), p.1@)),
    decreases s.len(),
{
    if s.len() >= 1 {
        let c = s[0];
        if c == ']' {
            let rest = &s[1..s.len()];
            proof {
                assert(rest@ =~= s@.skip(1));
            }
            let items: Vec<Item> = Vec::new();
            proof {
                assert(items.deep_view() =~= Seq::<ItemView>::empty());
            }
            return Some((items, rest));
        }
        if c == ',' {
            let tail = &s[1..s.len()];
            proof {
                assert(tail@ =~= s@.skip(1));
            }
            match d_item(tail) {
                Some(p1) => {
                    let (it, r1) = p1;
                    proof {
                        lemma_parse_item_consumes(tail@);
                    }
                    match d_items_more(r1) {
                        Some(p2) => {
                            let (inner, r2) = p2;
                            let ghost pre = inner.deep_view();
                            let mut items = inner;
                            items.insert(0, it);
                            proof {
                                assert(items.deep_view() =~= seq![it@] + pre);
                            }
                            return Some((items, r2));
                        },
                        None => {
                            return None;
                        },
                    }
                },
                None => {
                    return None;
                },
            }
        }
        return None;
    }
    None
}

fn d_items<'a>(s: &'a [char]) -> (r: Option<(Vec<Item>, &'a [char])>)
    ensures
        r is Some <==> parse_items(s@) is Some,
        r matches Some(p) ==> parse_items(s@) == Some((p.0.deep_view(), p.1@)),
{
    if s.len() >= 1 {
        let c = s[0];
        if c == ']' {
            let rest = &s[1..s.len()];
            proof {
                assert(rest@ =~= s@.skip(1));
            }
            let items: Vec<Item> = Vec::new();
            proof {
                assert(items.deep_view() =~= Seq::<ItemView>::empty());
            }
            return Some((items, rest));
        }
    }
    match d_item(s) {
        Some(p1) => {
            let (it, r1) = p1;
            match d_items_more(r1) {
                Some(p2) => {
                    let (inner, r2) = p2;
                    let ghost pre = inner.deep_view();
                    let mut items = inner;
                    items.insert(0, it);
                    proof {
                        assert(items.deep_view() =~= seq![it@] + pre);
                    }
                    Some((items, r2))
                },
                None => None,
            }
        },
        None => None,
    }
}

/// Reads a snapshot back from its character form.  Exactly the canonical
/// encodings are accepted, and they decode to what was encoded.
pub fn decode_snapshot(text: &Vec<char>) -> (r: Option<(u64, Vec<Item>)>)
    ensures
        r is Some <==> parse_snapshot(text@) is Some,
        r matches Some(p) ==> parse_snapshot(text@) == Some((p.0, p.1.deep_view())),
{
    let s: &[char] = text.as_slice();
    let s1 = match d_expect(s, "{\"timestamp\":") {
        Some(x) => x,
        None => {
            return None;
        },
    };
    let (timestamp, s2) = match d_number(s1) {
        Some(x) => x,
        None => {
            return None;
        },
    };
    let s3 = match d_expect(s2, ",\"items\":[") {
        Some(x) => x,
        None => {
            return None;
        },
    };
    let (items, s4) = match d_items(s3) {
        Some(x) => x,
        None => {
            return None;
        },
    };
    if s4.len() == 1 {
        let c = s4[0];
        if c == '}' {
            proof {
                assert(s4@ =~= seq!['}']);
            }
            return Some((timestamp, items));
        }
    }
    proof {
        assert(s4@ != seq!['}']) by {
            if s4@ == seq!['}'] {
                assert(s4@.len() == 1);
                assert(s4@[0] == '}');
            }
        }
    }
    None
}

} // verus!
