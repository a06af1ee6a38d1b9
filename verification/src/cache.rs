//! Staleness rules and the load side of the snapshot cache.
//!
//! The cache is one file whose text the surrounding program reads and
//! writes; the library decides everything about that text: whether it is a
//! readable snapshot, whether the snapshot is still fresh, and what a load
//! yields.

use vstd::prelude::*;
use crate::codec::{
    digit_run, digit_val, digits_value, is_digit, lemma_digits_value_prefix_le,
    lemma_snapshot_roundtrip, lemma_split_digits_chars, parse_snapshot, split_digits,
    encode_snapshot, decode_snapshot,
};
use crate::item::{Item, ItemView};

verus! {

/// Default snapshot lifetime: one day, in seconds.
pub const DEFAULT_CACHE_DURATION: u64 = 86400;

/// A snapshot taken at `timestamp` is fresh at `now` for lifetime `ttl`
/// exactly when its age is at most `ttl` seconds.  A timestamp in the
/// future (clock skew) counts as fresh.
pub open spec fn fresh(now: u64, timestamp: u64, ttl: u64) -> bool {
    now <= timestamp + ttl
}

/// Decides freshness, without overflow on any inputs.
pub fn is_fresh(now: u64, timestamp: u64, ttl: u64) -> (r: bool)
    ensures
        r == fresh(now, timestamp, ttl),
{
    if timestamp >= now {
        true
    } else {
        now - timestamp <= ttl
    }
}

/// Why a load did not produce items.
#[derive(Debug, Clone, Copy, PartialEq, Eq, Structural)]
pub enum CacheMiss {
    /// No cache text exists.
    Absent,
    /// The text is not a readable snapshot.
    Corrupt,
    /// The snapshot is readable but older than the lifetime allows.
    Expired,
}

/// The stored cache text, if any, as a character sequence.
pub open spec fn opt_chars_view(text: Option<&Vec<char>>) -> Option<Seq<char>> {
    match text {
        None => None,
        Some(t) => Some(t@),
    }
}

/// What loading the cache text yields at time `now` with lifetime `ttl`:
/// the snapshot's items exactly when the text is a readable snapshot that
/// is still fresh.
pub open spec fn cache_serves(text: Option<Seq<char>>, now: u64, ttl: u64) -> Option<
    Seq<ItemView>,
> {
    match text {
        None => None,
        Some(t) => match parse_snapshot(t) {
            None => None,
            Some((timestamp, items)) => if fresh(now, timestamp, ttl) {
                Some(items)
            } else {
                None
            },
        },
    }
}

/// Loads from the stored cache text: decode, then evaluate staleness.
/// Succeeds exactly when a fresh, readable snapshot is there, and then
/// returns its items verbatim, in order; each miss names its reason.
pub fn load_from_cache(text: Option<&Vec<char>>, now: u64, ttl: u64) -> (r: Result<
    Vec<Item>,
    CacheMiss,
>)
    ensures
        r is Ok <==> cache_serves(opt_chars_view(text), now, ttl) is Some,
        r matches Ok(items) ==> cache_serves(opt_chars_view(text), now, ttl) == Some(
            items.deep_view(),
        ),
        r == Err::<Vec<Item>, CacheMiss>(CacheMiss::Absent) <==> text is None,
        r == Err::<Vec<Item>, CacheMiss>(CacheMiss::Corrupt) <==> (text matches Some(t)
            && parse_snapshot(t@) is None),
        r == Err::<Vec<Item>, CacheMiss>(CacheMiss::Expired) <==> (text matches Some(t)
            && (parse_snapshot(t@) matches Some(p) && !fresh(now, p.0, ttl))),
{
    match text {
        None => Err(CacheMiss::Absent),
        Some(t) => match decode_snapshot(t) {
            None => Err(CacheMiss::Corrupt),
            Some(p) => {
                let (timestamp, items) = p;
                if is_fresh(now, timestamp, ttl) {
                    Ok(items)
                } else {
                    Err(CacheMiss::Expired)
                }
            },
        },
    }
}

/// Cache freshness: a load of a readable snapshot succeeds exactly when
/// its age is at most the lifetime.  In particular it still succeeds at
/// age exactly `ttl`, and misses at age `ttl + 1`.
pub proof fn lemma_cache_freshness(
    text: Seq<char>,
    timestamp: u64,
    items: Seq<ItemView>,
    now: u64,
    ttl: u64,
)
    requires
        parse_snapshot(text) == Some((timestamp, items)),
    ensures
        cache_serves(Some(text), now, ttl) is Some <==> now <= timestamp + ttl,
{
}

/// Save-then-load round trip: a snapshot saved at `saved_at` and loaded
/// at any `now` within its lifetime returns the saved item list, equal
/// including order.
pub proof fn lemma_save_then_load(items: Seq<ItemView>, saved_at: u64, now: u64, ttl: u64)
    requires
        now <= saved_at + ttl,
    ensures
        cache_serves(Some(encode_snapshot(saved_at, items)), now, ttl) == Some(items),
{
    lemma_snapshot_roundtrip(saved_at, items);
}

/// The number a lifetime setting denotes, if any: an optional leading
/// plus sign, then decimal digits whose value fits in a `u64`.
pub open spec fn parse_u64_setting(s: Seq<char>) -> Option<u64> {
    let body = if s.len() >= 1 && s[0] == '+' {
        s.skip(1)
    } else {
        s
    };
    if split_digits(body).0.len() >= 1 && split_digits(body).1.len() == 0 && digits_value(
        split_digits(body).0,
    ) <= u64::MAX as int {
        Some(digits_value(split_digits(body).0) as u64)
    } else {
        None
    }
}

/// The cache lifetime for a configured setting: the setting's value where
/// one is given and readable as a number, the default otherwise.
pub open spec fn ttl_of_setting(setting: Option<Seq<char>>) -> u64 {
    match setting {
        None => DEFAULT_CACHE_DURATION,
        Some(s) => match parse_u64_setting(s) {
            Some(v) => v,
            None => DEFAULT_CACHE_DURATION,
        },
    }
}

/// Resolves the cache lifetime from the configured setting's characters.
pub fn resolve_cache_ttl(setting: Option<&Vec<char>>) -> (r: u64)
    ensures
        r == ttl_of_setting(opt_chars_view(setting)),
{
    let s = match setting {
        None => {
            return DEFAULT_CACHE_DURATION;
        },
        Some(s) => s,
    };
    let whole: &[char] = s.as_slice();
    let has_sign = if s.len() >= 1 {
        let c0 = s[0];
        c0 == '+'
    } else {
        false
    };
    let body: &[char] = if has_sign {
        &whole[1..whole.len()]
    } else {
        whole
    };
    proof {
        if has_sign {
            assert(body@ =~= s@.skip(1));
        } else {
            assert(body@ =~= s@);
        }
    }
    let k = digit_run(body);
    proof {
        lemma_split_digits_chars(body@, k as int);
    }
    let ghost d = body@.take(k as int);
    if k == 0 || k < body.len() {
        return DEFAULT_CACHE_DURATION;
    }
    proof {
        assert(d =~= body@);
    }
    let mut acc: u64 = 0;
    let mut j: usize = 0;
    while j < k
        invariant
            j <= k,
            k == body@.len(),
            d == body@,
            opt_chars_view(setting) == Some(s@),
            body@ == (if s@.len() >= 1 && s@[0] == '+' {
                s@.skip(1)
            } else {
                s@
            }),
            split_digits(body@) == (d, body@.skip(k as int)),
            forall|i: int| 0 <= i < k ==> is_digit(body@[i]),
            acc == digits_value(d.take(j as int)),
        decreases k - j,
    {
        proof {
            assert(forall|i: int| 0 <= i < d.len() ==> d[i] == body@[i]);
            assert(d.take(j + 1).drop_last() =~= d.take(j as int));
            assert(d.take(j + 1).last() == d[j as int]);
            assert(digit_val(d[j as int]) >= 0);
            assert(digits_value(d.take(j + 1)) == acc * 10 + digit_val(d[j as int]));
        }
        let dv = (body[j] as u32 - 48) as u64;
        let m = match acc.checked_mul(10) {
            Some(m) => m,
            None => {
                proof {
                    assert(digits_value(d.take(j + 1)) > u64::MAX as int);
                    lemma_digits_value_prefix_le(d, j + 1);
                }
                return DEFAULT_CACHE_DURATION;
            },
        };
        let acc2 = match m.checked_add(dv) {
            Some(a) => a,
            None => {
                proof {
                    assert(digits_value(d.take(j + 1)) > u64::MAX as int);
                    lemma_digits_value_prefix_le(d, j + 1);
                }
                return DEFAULT_CACHE_DURATION;
            },
        };
        acc = acc2;
        j += 1;
    }
    proof {
        assert(d.take(k as int) =~= d);
        assert(body@.skip(k as int).len() == 0);
    }
    acc
}

} // verus!
