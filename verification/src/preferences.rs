//! Preferences-file lines: `key = value` pairs, split at the last `=` that
//! has text on both sides, with both sides trimmed.

use crate::text::{is_space, is_space_char, trim_spec, trim_str};
use std::collections::HashMap;
use vstd::prelude::*;

verus! {

/// Position `q` can split `s` as a preference pair: it holds an `=` with
/// some non-whitespace character before it and some after it.
pub open spec fn is_split_eq(s: Seq<char>, q: int) -> bool {
    &&& 0 <= q < s.len()
    &&& s[q] == '='
    &&& exists|a: int| 0 <= a < q && !is_space_char(s[a])
    &&& exists|b: int| q < b < s.len() && !is_space_char(s[b])
}

/// Parses one preferences line. The split is at the last `=` that has
/// non-whitespace text on both sides; key and value are the two sides,
/// trimmed. A line with no such `=` is rejected.
pub fn parse_line(line: &str) -> (r: Result<(String, String), String>)
    ensures
        match r {
            Ok(kv) => exists|q: int|
                {
                    &&& #[trigger] is_split_eq(line@, q)
                    &&& forall|p: int| q < p < line@.len() ==> !is_split_eq(line@, p)
                    &&& kv.0@ == trim_spec(line@.subrange(0, q))
                    &&& kv.1@ == trim_spec(line@.subrange(q + 1, line@.len() as int))
                },
            Err(e) => (forall|q: int| !is_split_eq(line@, q)) && e@ == "mismatch"@,
        },
{
    let n = line.unicode_len();
    let mut i: usize = n;
    let mut seen: bool = false;
    while i > 0
        invariant
            i <= n,
            n == line@.len(),
            seen == exists|b: int| i <= b < n && !is_space_char(line@[b]),
            forall|p: int| i <= p < n ==> !is_split_eq(line@, p),
        decreases i,
    {
        let c = line.get_char(i - 1);
        if c == '=' && seen {
            let q = i - 1;
            let mut a: usize = 0;
            while a < q && is_space(line.get_char(a))
                invariant
                    a <= q,
                    q < n == line@.len(),
                    forall|k: int| 0 <= k < a ==> is_space_char(line@[k]),
                decreases q - a,
            {
                a = a + 1;
            }
            if a == q {
                proof {
                    assert forall|p: int| !is_split_eq(line@, p) by {
                        if p <= q && is_split_eq(line@, p) {
                            let w = choose|w: int| 0 <= w < p && !is_space_char(line@[w]);
                            assert(is_space_char(line@[w]));
                        }
                    }
                }
                return Err(String::from_str("mismatch"));
            }
            let key = trim_str(line.substring_char(0, q));
            let value = trim_str(line.substring_char(q + 1, n));
            proof {
                assert(!is_space_char(line@[a as int]));
                assert(is_split_eq(line@, q as int));
            }
            return Ok((key, value));
        }
        seen = seen || !is_space(c);
        proof {
            if line@[i - 1] == '=' && is_split_eq(line@, i - 1) {
                let b = choose|b: int| i - 1 < b < n && !is_space_char(line@[b]);
                assert(!is_space_char(line@[b]));
            }
        }
        i = i - 1;
    }
    proof {
        assert forall|q: int| !is_split_eq(line@, q) by {}
    }
    Err(String::from_str("mismatch"))
}

/// Reads preference lines into a key/value map: each line that parses as
/// `key = value` puts its pair in, a later line overriding an earlier one
/// with the same key; lines that do not parse are skipped. The map's
/// contents are not modelled further: the verifier has no model for maps
/// keyed by `String`.
pub fn parse_lines(lines: Vec<&str>) -> HashMap<String, String> {
    let mut hm: HashMap<String, String> = HashMap::new();
    let mut i: usize = 0;
    while i < lines.len()
        decreases lines@.len() - i,
    {
        match parse_line(lines[i]) {
            Ok(kv) => {
                hm.insert(kv.0, kv.1);
            },
            Err(_) => {},
        }
        i = i + 1;
    }
    hm
}

} // verus!
