//! The matching engine: case-insensitive multi-term search with
//! content-type filtering and stable selection.
//!
//! A search holds one or more literal terms.  A text matches when every
//! term occurs in it, in the order given, each after the end of the one
//! before, with any characters in between; comparison folds ASCII case.

use vstd::prelude::*;
use vstd::string::StrSliceExecFns;
use vstd::string::StringExecFns;
use crate::item::{Item, ItemView};
use crate::text::{chars_eq_ci, lower_code_of, seq_eq_ci, str_eq, to_chars};

verus! {

// ---------------------------------------------------------------------------
// What matching means.
// ---------------------------------------------------------------------------

/// `pat` occurs in `text` at position `i`, up to ASCII case.
pub open spec fn occurs_at(text: Seq<char>, pat: Seq<char>, i: int) -> bool {
    0 <= i && i + pat.len() <= text.len() && (forall|j: int|
        0 <= j < pat.len() ==> chars_eq_ci(text[i + j], pat[j]))
}

/// All terms occur in `text`, in order, each at or after `start` and
/// after the end of the one before.
pub open spec fn matches_from(text: Seq<char>, terms: Seq<Seq<char>>, start: int) -> bool
    decreases terms.len(),
{
    if terms.len() == 0 {
        true
    } else {
        exists|i: int|
            i >= start && occurs_at(text, terms[0], i) && matches_from(
                text,
                terms.skip(1),
                i + terms[0].len(),
            )
    }
}

/// A text matches the term list.
pub open spec fn text_matches(text: Seq<char>, terms: Seq<Seq<char>>) -> bool {
    matches_from(text, terms, 0)
}

/// The compiled search predicate: literal terms, an optional normalized
/// content-type filter, and the title-only flag.
pub struct SearchPredicate {
    pub terms: Vec<String>,
    pub content_type_filter: Option<String>,
    pub title_only: bool,
}

/// Model of a `SearchPredicate`.
pub struct PredicateView {
    pub terms: Seq<Seq<char>>,
    pub content_type_filter: Option<Seq<char>>,
    pub title_only: bool,
}

impl View for SearchPredicate {
    type V = PredicateView;

    open spec fn view(&self) -> PredicateView {
        PredicateView {
            terms: self.terms.deep_view(),
            content_type_filter: match self.content_type_filter {
                None => None,
                Some(f) => Some(f@),
            },
            title_only: self.title_only,
        }
    }
}

/// The text side of the match: title only, or title or summary.
pub open spec fn item_text_match(it: ItemView, p: PredicateView) -> bool {
    if p.title_only {
        text_matches(it.title, p.terms)
    } else {
        text_matches(it.title, p.terms) || text_matches(it.summary, p.terms)
    }
}

/// The type side of the match: no filter, or the filter equals the item's
/// content type up to ASCII case.
pub open spec fn item_type_match(it: ItemView, p: PredicateView) -> bool {
    match p.content_type_filter {
        None => true,
        Some(f) => seq_eq_ci(f, it.content_type),
    }
}

/// The selection rule for one item.
pub open spec fn selected(it: ItemView, p: PredicateView) -> bool {
    item_text_match(it, p) && item_type_match(it, p)
}

/// The selected items, in input order: a stable filter.
pub open spec fn selected_items(items: Seq<ItemView>, p: PredicateView) -> Seq<ItemView>
    decreases items.len(),
{
    if items.len() == 0 {
        Seq::empty()
    } else {
        let pre = selected_items(items.drop_last(), p);
        if selected(items.last(), p) {
            pre.push(items.last())
        } else {
            pre
        }
    }
}

// ---------------------------------------------------------------------------
// The matcher.
// ---------------------------------------------------------------------------

/// Whether `pat` occurs at position `i` of `text`.
fn occurs_at_ex(text: &Vec<char>, pat: &Vec<char>, i: usize) -> (r: bool)
    requires
        i + pat@.len() <= text@.len(),
    ensures
        r == occurs_at(text@, pat@, i as int),
{
    let n = pat.len();
    let tn = text.len();
    let mut j: usize = 0;
    while j < n
        invariant
            j <= n,
            n == pat@.len(),
            tn == text@.len(),
            i + n <= text@.len(),
            forall|q: int| 0 <= q < j ==> chars_eq_ci(text@[i + q], pat@[q]),
        decreases n - j,
    {
        if lower_code_of(text[i + j]) != lower_code_of(pat[j]) {
            return false;
        }
        j += 1;
    }
    true
}

/// The first occurrence of `pat` in `text` at or after `from`, if any.
fn find_ci(text: &Vec<char>, pat: &Vec<char>, from: usize) -> (r: Option<usize>)
    ensures
        r matches Some(i) ==> from <= i && occurs_at(text@, pat@, i as int) && (forall|q: int|
            from <= q < i ==> !occurs_at(text@, pat@, q)),
        r is None ==> (forall|q: int| q >= from ==> !occurs_at(text@, pat@, q)),
{
    if pat.len() > text.len() {
        return None;
    }
    let last = text.len() - pat.len();
    if from > last {
        return None;
    }
    let mut i: usize = from;
    while i < last
        invariant
            from <= i,
            i <= last,
            pat@.len() <= text@.len(),
            last == text@.len() - pat@.len(),
            forall|q: int| from <= q < i ==> !occurs_at(text@, pat@, q),
        decreases last - i,
    {
        if occurs_at_ex(text, pat, i) {
            return Some(i);
        }
        i += 1;
    }
    if occurs_at_ex(text, pat, last) {
        return Some(last);
    }
    proof {
        assert(forall|q: int| q > last ==> !occurs_at(text@, pat@, q));
    }
    None
}

/// A match from a later start is also a match from an earlier one.
proof fn lemma_matches_from_mono(text: Seq<char>, terms: Seq<Seq<char>>, a: int, b: int)
    requires
        b <= a,
        matches_from(text, terms, a),
    ensures
        matches_from(text, terms, b),
{
    if terms.len() > 0 {
        let i = choose|i: int|
            i >= a && occurs_at(text, terms[0], i) && matches_from(
                text,
                terms.skip(1),
                i + terms[0].len(),
            );
        assert(i >= b && occurs_at(text, terms[0], i) && matches_from(
            text,
            terms.skip(1),
            i + terms[0].len(),
        ));
    }
}

/// Whether `text` matches all the terms, by greedy leftmost search.
fn text_matches_ex(text: &Vec<char>, terms: &Vec<String>) -> (r: bool)
    ensures
        r == text_matches(text@, terms.deep_view()),
{
    let ghost ts = terms.deep_view();
    let n = terms.len();
    let tn = text.len();
    let mut pos: usize = 0;
    let mut k: usize = 0;
    proof {
        assert(ts.skip(0) =~= ts);
    }
    while k < n
        invariant
            k <= n,
            n == terms.len(),
            ts == terms.deep_view(),
            tn == text@.len(),
            pos <= text@.len(),
            text_matches(text@, ts) <==> matches_from(text@, ts.skip(k as int), pos as int),
        decreases n - k,
    {
        let pat = to_chars(terms[k].as_str());
        proof {
            assert(ts.skip(k as int)[0] == ts[k as int]);
            assert(ts[k as int] == pat@);
            assert(ts.skip(k as int).skip(1) =~= ts.skip(k + 1));
        }
        match find_ci(text, &pat, pos) {
            Some(f) => {
                proof {
                    if matches_from(text@, ts.skip(k as int), pos as int) {
                        let i = choose|i: int|
                            i >= pos && occurs_at(text@, ts.skip(k as int)[0], i) && matches_from(
                                text@,
                                ts.skip(k as int).skip(1),
                                i + ts.skip(k as int)[0].len(),
                            );
                        assert(f <= i);
                        lemma_matches_from_mono(
                            text@,
                            ts.skip(k + 1),
                            i + pat@.len(),
                            f + pat@.len(),
                        );
                    }
                    if matches_from(text@, ts.skip(k + 1), f + pat@.len()) {
                        assert(f >= pos && occurs_at(text@, ts.skip(k as int)[0], f as int)
                            && matches_from(
                            text@,
                            ts.skip(k as int).skip(1),
                            f + ts.skip(k as int)[0].len(),
                        ));
                        assert(matches_from(text@, ts.skip(k as int), pos as int));
                    }
                }
                pos = f + pat.len();
            },
            None => {
                proof {
                    if matches_from(text@, ts.skip(k as int), pos as int) {
                        let i = choose|i: int|
                            i >= pos && occurs_at(text@, ts.skip(k as int)[0], i) && matches_from(
                                text@,
                                ts.skip(k as int).skip(1),
                                i + ts.skip(k as int)[0].len(),
                            );
                        assert(!occurs_at(text@, pat@, i));
                        assert(false);
                    }
                }
                return false;
            },
        }
        k += 1;
    }
    proof {
        assert(ts.skip(n as int) =~= Seq::<Seq<char>>::empty());
    }
    true
}

/// Case-insensitive string equality.
fn str_eq_ci(a: &str, b: &str) -> (r: bool)
    ensures
        r == seq_eq_ci(a@, b@),
{
    let an = a.unicode_len();
    let bn = b.unicode_len();
    if an != bn {
        return false;
    }
    let mut i: usize = 0;
    while i < an
        invariant
            i <= an,
            an == a@.len(),
            an == b@.len(),
            forall|j: int| 0 <= j < i ==> chars_eq_ci(a@[j], b@[j]),
        decreases an - i,
    {
        if lower_code_of(a.get_char(i)) != lower_code_of(b.get_char(i)) {
            return false;
        }
        i += 1;
    }
    true
}

/// Whether one item is selected by the predicate.
pub fn item_selected(it: &Item, p: &SearchPredicate) -> (r: bool)
    ensures
        r == selected(it@, p@),
{
    let title = to_chars(it.title.as_str());
    let text_ok = if p.title_only {
        text_matches_ex(&title, &p.terms)
    } else if text_matches_ex(&title, &p.terms) {
        true
    } else {
        let summary = to_chars(it.summary.as_str());
        text_matches_ex(&summary, &p.terms)
    };
    let type_ok = match &p.content_type_filter {
        None => true,
        Some(f) => str_eq_ci(f.as_str(), it.content_type.as_str()),
    };
    text_ok && type_ok
}

/// Filters the items: exactly the selected ones, in input order.
pub fn search_items(items: &Vec<Item>, p: &SearchPredicate) -> (r: Vec<Item>)
    ensures
        r.deep_view() == selected_items(items.deep_view(), p@),
{
    let ghost dv = items.deep_view();
    let mut out: Vec<Item> = Vec::new();
    let n = items.len();
    let mut i: usize = 0;
    proof {
        assert(dv.take(0) =~= Seq::<ItemView>::empty());
        assert(out.deep_view() =~= selected_items(dv.take(0), p@));
    }
    while i < n
        invariant
            i <= n,
            n == items.len(),
            dv == items.deep_view(),
            out.deep_view() == selected_items(dv.take(i as int), p@),
        decreases n - i,
    {
        let ghost pre = out.deep_view();
        if item_selected(&items[i], p) {
            out.push(items[i].clone());
            proof {
                assert(out.deep_view() =~= pre.push(dv[i as int]));
            }
        }
        proof {
            assert(dv.take(i + 1).drop_last() =~= dv.take(i as int));
            assert(dv.take(i + 1).last() == dv[i as int]);
        }
        i += 1;
    }
    proof {
        assert(dv.take(n as int) =~= dv);
    }
    out
}

// ---------------------------------------------------------------------------
// Content-type normalization.
// ---------------------------------------------------------------------------

/// The full name behind a single-letter shorthand, if `s` is one.
pub open spec fn shorthand_of(s: Seq<char>) -> Option<Seq<char>> {
    if s == "a"@ {
        Some("article"@)
    } else if s == "b"@ {
        Some("bite"@)
    } else if s == "p"@ {
        Some("podcast"@)
    } else if s == "v"@ {
        Some("video"@)
    } else if s == "t"@ {
        Some("tip"@)
    } else {
        None
    }
}

/// Whether `s` is one of the five full content-type names.
pub open spec fn is_full_name(s: Seq<char>) -> bool {
    s == "article"@ || s == "bite"@ || s == "podcast"@ || s == "video"@ || s == "tip"@
}

/// The normalized form of a content-type filter argument: a shorthand
/// maps to its full name, a full name stands as itself, anything else is
/// invalid.
pub open spec fn normalize_spec(s: Seq<char>) -> Option<Seq<char>> {
    match shorthand_of(s) {
        Some(f) => Some(f),
        None => if is_full_name(s) {
            Some(s)
        } else {
            None
        },
    }
}

/// An invalid user input.
#[derive(Debug)]
pub enum InputError {
    /// No search term was given.
    NoSearchTerms,
    /// The content-type filter is not a known shorthand or full name.
    InvalidContentType { given: String },
}

impl InputError {
    /// The valid content-type choices, each shorthand beside its full
    /// name, for reporting an invalid filter.
    pub fn valid_options() -> (r: &'static str)
        ensures
            r@ == "a (article), b (bite), p (podcast), v (video), t (tip)"@,
    {
        "a (article), b (bite), p (podcast), v (video), t (tip)"
    }
}

/// Normalizes a content-type filter argument, or reports it invalid.
pub fn normalize_content_type(s: &str) -> (r: Result<String, InputError>)
    ensures
        r is Ok <==> normalize_spec(s@) is Some,
        r matches Ok(f) ==> normalize_spec(s@) == Some(f@),
        r matches Err(e) ==> (e matches InputError::InvalidContentType { given } && given@ == s@),
{
    proof {
        reveal_strlit("a");
        reveal_strlit("b");
        reveal_strlit("p");
        reveal_strlit("v");
        reveal_strlit("t");
        reveal_strlit("article");
        reveal_strlit("bite");
        reveal_strlit("podcast");
        reveal_strlit("video");
        reveal_strlit("tip");
    }
    if str_eq(s, "a") || str_eq(s, "article") {
        Ok(String::from_str("article"))
    } else if str_eq(s, "b") || str_eq(s, "bite") {
        Ok(String::from_str("bite"))
    } else if str_eq(s, "p") || str_eq(s, "podcast") {
        Ok(String::from_str("podcast"))
    } else if str_eq(s, "v") || str_eq(s, "video") {
        Ok(String::from_str("video"))
    } else if str_eq(s, "t") || str_eq(s, "tip") {
        Ok(String::from_str("tip"))
    } else {
        Err(InputError::InvalidContentType { given: String::from_str(s) })
    }
}

/// Compiles the raw search inputs into a predicate.  At least one term is
/// required, and a content-type filter must be a known shorthand or full
/// name; the filter is stored normalized.
pub fn compile_search(terms: Vec<String>, content_type: Option<&str>, title_only: bool) -> (r:
    Result<SearchPredicate, InputError>)
    ensures
        r is Ok <==> (terms@.len() > 0 && (match content_type {
            None => true,
            Some(c) => normalize_spec(c@) is Some,
        })),
        r matches Ok(p) ==> p@.terms == terms.deep_view() && p@.title_only == title_only
            && p@.content_type_filter == (match content_type {
            None => None,
            Some(c) => normalize_spec(c@),
        }),
        r matches Err(InputError::NoSearchTerms) <==> terms@.len() == 0,
        r matches Err(InputError::InvalidContentType { given }) ==> (terms@.len() > 0 && (
        content_type matches Some(c) && given@ == c@ && normalize_spec(c@) is None)),
{
    if terms.len() == 0 {
        return Err(InputError::NoSearchTerms);
    }
    match content_type {
        None => Ok(SearchPredicate { terms, content_type_filter: None, title_only }),
        Some(c) => match normalize_content_type(c) {
            Ok(f) => Ok(SearchPredicate { terms, content_type_filter: Some(f), title_only }),
            Err(e) => Err(e),
        },
    }
}

/// Whether results should carry their own type label: yes exactly when no
/// content-type filter was supplied, since the results may then mix types.
pub fn wants_label(p: &SearchPredicate) -> (r: bool)
    ensures
        r == (p@.content_type_filter is None),
{
    p.content_type_filter.is_none()
}

// ---------------------------------------------------------------------------
// Output form of a selected item.
// ---------------------------------------------------------------------------

/// The printed form of one result: an optional `[type] ` label before the
/// title, then the link on its own line.
pub open spec fn rendered_line(it: ItemView, with_label: bool) -> Seq<char> {
    (if with_label {
        "["@ + it.content_type + "] "@
    } else {
        Seq::<char>::empty()
    }) + it.title + "\n"@ + it.link + "\n"@
}

/// Renders one selected item for printing.
pub fn render_item(it: &Item, with_label: bool) -> (r: String)
    ensures
        r@ == rendered_line(it@, with_label),
{
    let mut r = String::new();
    if with_label {
        r.append("[");
        r.append(it.content_type.as_str());
        r.append("] ");
    }
    r.append(it.title.as_str());
    r.append("\n");
    r.append(it.link.as_str());
    r.append("\n");
    proof {
        assert(r@ =~= rendered_line(it@, with_label));
    }
    r
}

// ---------------------------------------------------------------------------
// Laws of the matcher.
// ---------------------------------------------------------------------------

proof fn lemma_occurs_ci(
    text1: Seq<char>,
    text2: Seq<char>,
    pat1: Seq<char>,
    pat2: Seq<char>,
    i: int,
)
    requires
        seq_eq_ci(text1, text2),
        seq_eq_ci(pat1, pat2),
        occurs_at(text1, pat1, i),
    ensures
        occurs_at(text2, pat2, i),
{
    assert forall|j: int| 0 <= j < pat2.len() implies chars_eq_ci(text2[i + j], pat2[j]) by {
        assert(chars_eq_ci(text1[i + j], pat1[j]));
        assert(chars_eq_ci(text1[i + j], text2[i + j]));
        assert(chars_eq_ci(pat1[j], pat2[j]));
    }
}

/// Matching is insensitive to ASCII case: a text and a term list that
/// agree with another pair up to case match in exactly the same way.
pub proof fn lemma_match_case_insensitive(
    text1: Seq<char>,
    text2: Seq<char>,
    terms1: Seq<Seq<char>>,
    terms2: Seq<Seq<char>>,
    start: int,
)
    requires
        seq_eq_ci(text1, text2),
        terms1.len() == terms2.len(),
        forall|k: int| 0 <= k < terms1.len() ==> seq_eq_ci(#[trigger] terms1[k], terms2[k]),
    ensures
        matches_from(text1, terms1, start) == matches_from(text2, terms2, start),
    decreases terms1.len(),
{
    if terms1.len() > 0 {
        assert(forall|k: int|
            0 <= k < terms1.skip(1).len() ==> seq_eq_ci(
                #[trigger] terms1.skip(1)[k],
                terms2.skip(1)[k],
            ));
        if matches_from(text1, terms1, start) {
            let i = choose|i: int|
                i >= start && occurs_at(text1, terms1[0], i) && matches_from(
                    text1,
                    terms1.skip(1),
                    i + terms1[0].len(),
                );
            lemma_occurs_ci(text1, text2, terms1[0], terms2[0], i);
            lemma_match_case_insensitive(
                text1,
                text2,
                terms1.skip(1),
                terms2.skip(1),
                i + terms1[0].len(),
            );
            assert(i >= start && occurs_at(text2, terms2[0], i) && matches_from(
                text2,
                terms2.skip(1),
                i + terms2[0].len(),
            ));
        }
        if matches_from(text2, terms2, start) {
            let i = choose|i: int|
                i >= start && occurs_at(text2, terms2[0], i) && matches_from(
                    text2,
                    terms2.skip(1),
                    i + terms2[0].len(),
                );
            lemma_occurs_ci(text2, text1, terms2[0], terms1[0], i);
            lemma_match_case_insensitive(
                text1,
                text2,
                terms1.skip(1),
                terms2.skip(1),
                i + terms2[0].len(),
            );
            assert(i >= start && occurs_at(text1, terms1[0], i) && matches_from(
                text1,
                terms1.skip(1),
                i + terms1[0].len(),
            ));
        }
    }
}

/// Title-only exclusion: an item whose terms occur in its summary but not
/// in its title is selected exactly when title-only mode is off, for any
/// filter its type passes.
pub proof fn lemma_title_only_exclusion(it: ItemView, p_on: PredicateView, p_off: PredicateView)
    requires
        !text_matches(it.title, p_on.terms),
        text_matches(it.summary, p_on.terms),
        p_off.terms == p_on.terms,
        p_off.content_type_filter == p_on.content_type_filter,
        p_on.title_only,
        !p_off.title_only,
        item_type_match(it, p_on),
    ensures
        !selected(it, p_on),
        selected(it, p_off),
{
}

/// Shorthand equivalence: a shorthand and its full name normalize to the
/// same filter, so searches with either select exactly the same items.
pub proof fn lemma_shorthand_equivalence(
    short: Seq<char>,
    full: Seq<char>,
    items: Seq<ItemView>,
    terms: Seq<Seq<char>>,
    title_only: bool,
)
    requires
        shorthand_of(short) == Some(full),
    ensures
        normalize_spec(short) == normalize_spec(full),
        selected_items(
            items,
            PredicateView { terms, content_type_filter: normalize_spec(short), title_only },
        ) == selected_items(
            items,
            PredicateView { terms, content_type_filter: normalize_spec(full), title_only },
        ),
{
    reveal_strlit("a");
    reveal_strlit("b");
    reveal_strlit("p");
    reveal_strlit("v");
    reveal_strlit("t");
    reveal_strlit("article");
    reveal_strlit("bite");
    reveal_strlit("podcast");
    reveal_strlit("video");
    reveal_strlit("tip");
    assert("article"@.len() == 7 && "bite"@.len() == 4 && "podcast"@.len() == 7 && "video"@.len()
        == 5 && "tip"@.len() == 3);
    assert("a"@.len() == 1 && "b"@.len() == 1 && "p"@.len() == 1 && "v"@.len() == 1 && "t"@.len()
        == 1);
    assert(is_full_name(full));
    assert(shorthand_of(full) is None);
}

} // verus!
