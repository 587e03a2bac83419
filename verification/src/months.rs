//! The month-name resolver: a case-insensitive prefix string resolves to a
//! month number 1..=12 exactly when it is a prefix of exactly one canonical
//! English month name.

use crate::text::{is_prefix, is_prefix_lower, lemma_lower_seq_idempotent, lower_seq};
use vstd::prelude::*;

verus! {

/// The canonical (lower-case) English name of month `m`.
pub open spec fn month_name(m: int) -> Seq<char> {
    if m == 1 {
        "january"@
    } else if m == 2 {
        "february"@
    } else if m == 3 {
        "march"@
    } else if m == 4 {
        "april"@
    } else if m == 5 {
        "may"@
    } else if m == 6 {
        "june"@
    } else if m == 7 {
        "july"@
    } else if m == 8 {
        "august"@
    } else if m == 9 {
        "september"@
    } else if m == 10 {
        "october"@
    } else if m == 11 {
        "november"@
    } else if m == 12 {
        "december"@
    } else {
        Seq::empty()
    }
}

/// Runtime table of [`month_name`].
pub fn month_name_str(m: u8) -> (r: &'static str)
    requires
        1 <= m <= 12,
    ensures
        r@ == month_name(m as int),
{
    match m {
        1 => "january",
        2 => "february",
        3 => "march",
        4 => "april",
        5 => "may",
        6 => "june",
        7 => "july",
        8 => "august",
        9 => "september",
        10 => "october",
        11 => "november",
        _ => "december",
    }
}

/// `s`, lower-cased, is a prefix of the name of month `m`.
pub open spec fn month_matches(s: Seq<char>, m: int) -> bool {
    is_prefix(lower_seq(s), month_name(m))
}

/// Exactly one month name has `s`, lower-cased, as a prefix.
pub open spec fn unique_month_match(s: Seq<char>) -> bool {
    exists|m: int|
        1 <= m <= 12 && month_matches(s, m) && (forall|k: int|
            1 <= k <= 12 && k != m ==> !month_matches(s, k))
}

/// The month number `s` resolves to: the single month whose name has `s` as
/// a case-insensitive prefix, if there is exactly one such month.
pub open spec fn resolve_month(s: Seq<char>) -> Option<int> {
    if unique_month_match(s) {
        Some(
            choose|m: int|
                1 <= m <= 12 && month_matches(s, m) && (forall|k: int|
                    1 <= k <= 12 && k != m ==> !month_matches(s, k)),
        )
    } else {
        None
    }
}

/// Resolves a month name prefix, as [`resolve_month`] says: `Some` exactly
/// when one canonical name matches, `None` when zero or several match.
pub fn parse_month(s: &str) -> (r: Option<u8>)
    ensures
        r matches Some(m) ==> 1 <= m <= 12 && resolve_month(s@) == Some(m as int),
        r is None ==> resolve_month(s@) is None,
{
    let mut count: u8 = 0;
    let mut found: u8 = 0;
    let ghost mut w1: int = 0;
    let ghost mut w2: int = 0;
    let mut m: u8 = 1;
    while m <= 12
        invariant
            1 <= m <= 13,
            count == 0 ==> forall|k: int| 1 <= k < m ==> !month_matches(s@, k),
            count == 1 ==> 1 <= found < m && month_matches(s@, found as int) && (forall|k: int|
                1 <= k < m && k != found ==> !month_matches(s@, k)),
            count >= 2 ==> 1 <= w1 < w2 < m && month_matches(s@, w1) && month_matches(s@, w2),
        decreases 13 - m,
    {
        if is_prefix_lower(s, month_name_str(m)) {
            if count == 1 {
                proof {
                    w1 = found as int;
                    w2 = m as int;
                }
            }
            if count < 2 {
                count = count + 1;
            }
            found = m;
        }
        m = m + 1;
    }
    if count == 1 {
        proof {
            assert(unique_month_match(s@));
            let c = choose|c: int|
                1 <= c <= 12 && month_matches(s@, c) && (forall|k: int|
                    1 <= k <= 12 && k != c ==> !month_matches(s@, k));
            assert(c == found as int);
        }
        Some(found)
    } else if count == 0 {
        None
    } else {
        proof {
            assert forall|c: int|
                !(1 <= c <= 12 && month_matches(s@, c) && (forall|k: int|
                    1 <= k <= 12 && k != c ==> !month_matches(s@, k))) by {
                if 1 <= c <= 12 && month_matches(s@, c) {
                    if c != w1 {
                        assert(month_matches(s@, w1));
                    } else {
                        assert(month_matches(s@, w2));
                    }
                }
            }
        }
        None
    }
}

/// Month resolution is case-insensitive: lower-casing the prefix first does
/// not change what it resolves to.
pub proof fn lemma_month_resolution_case_insensitive(s: Seq<char>)
    ensures
        resolve_month(lower_seq(s)) == resolve_month(s),
{
    lemma_lower_seq_idempotent(s);
    assert forall|m: int| month_matches(lower_seq(s), m) == month_matches(s, m) by {
        assert(lower_seq(lower_seq(s)) == lower_seq(s));
    }
    if unique_month_match(s) {
        let c1 = choose|m: int|
            1 <= m <= 12 && month_matches(s, m) && (forall|k: int|
                1 <= k <= 12 && k != m ==> !month_matches(s, k));
        assert(month_matches(lower_seq(s), c1));
        assert forall|k: int| 1 <= k <= 12 && k != c1 implies !month_matches(lower_seq(s), k) by {
            assert(!month_matches(s, k));
        }
        assert(unique_month_match(lower_seq(s)));
        let c2 = choose|m: int|
            1 <= m <= 12 && month_matches(lower_seq(s), m) && (forall|k: int|
                1 <= k <= 12 && k != m ==> !month_matches(lower_seq(s), k));
        assert(month_matches(s, c2));
        assert(c1 == c2);
    } else {
        if unique_month_match(lower_seq(s)) {
            let c2 = choose|m: int|
                1 <= m <= 12 && month_matches(lower_seq(s), m) && (forall|k: int|
                    1 <= k <= 12 && k != m ==> !month_matches(lower_seq(s), k));
            assert(1 <= c2 <= 12 && month_matches(s, c2) && (forall|k: int|
                1 <= k <= 12 && k != c2 ==> !month_matches(s, k)));
            assert(false);
        }
    }
}

} // verus!
