//! Calendar-line records: `<expression>,<description>`, split at the first
//! comma after the expression; the description may itself contain commas.

use vstd::prelude::*;

verus! {

/// Positions `i` and `c` split `s` as a calendar line: `i` is the first
/// index that is not a comma, and `c` the first comma after it.
pub open spec fn calendar_split_at(s: Seq<char>, i: int, c: int) -> bool {
    &&& 0 <= i < c < s.len()
    &&& forall|k: int| 0 <= k < i ==> s[k] == ','
    &&& forall|k: int| i <= k < c ==> s[k] != ','
    &&& s[c] == ','
}

/// Splits a calendar line into its expression and its description: the
/// expression is the first comma-free run, the description everything after
/// the comma that ends it. A line with no such split is rejected.
pub fn parse_calendar_line(line: &str) -> (r: Option<(String, String)>)
    ensures
        match r {
            Some(p) => exists|i: int, c: int|
                {
                    &&& #[trigger] calendar_split_at(line@, i, c)
                    &&& p.0@ == line@.subrange(i, c)
                    &&& p.1@ == line@.subrange(c + 1, line@.len() as int)
                },
            None => forall|i: int, c: int| !calendar_split_at(line@, i, c),
        },
{
    let n = line.unicode_len();
    let mut i: usize = 0;
    while i < n && line.get_char(i) == ','
        invariant
            i <= n,
            n == line@.len(),
            forall|k: int| 0 <= k < i ==> line@[k] == ',',
        decreases n - i,
    {
        i = i + 1;
    }
    if i == n {
        proof {
            assert forall|i2: int, c2: int| !calendar_split_at(line@, i2, c2) by {
                if calendar_split_at(line@, i2, c2) {
                    assert(line@[i2] == ',');
                }
            }
        }
        return None;
    }
    let mut c: usize = i + 1;
    while c < n && line.get_char(c) != ','
        invariant
            i < c <= n,
            n == line@.len(),
            forall|k: int| i < k < c ==> line@[k] != ',',
        decreases n - c,
    {
        c = c + 1;
    }
    if c == n {
        proof {
            assert forall|i2: int, c2: int| !calendar_split_at(line@, i2, c2) by {
                if calendar_split_at(line@, i2, c2) {
                    if i2 < i {
                        assert(line@[i2] == ',');
                    } else if i2 > i {
                        assert(line@[i as int] == ',');
                    } else {
                        assert(line@[c2] != ',');
                    }
                }
            }
        }
        return None;
    }
    let expr = String::from_str(line.substring_char(i, c));
    let descr = String::from_str(line.substring_char(c + 1, n));
    proof {
        assert(calendar_split_at(line@, i as int, c as int));
    }
    Some((expr, descr))
}

} // verus!
