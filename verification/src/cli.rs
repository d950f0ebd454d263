//! Splitting a command-line value such as `5.5km` into its number text and
//! its unit suffix.

use crate::calculation::token::{chars_to_string, is_digit};
use vstd::prelude::*;

verus! {

/// The index where the unit suffix begins: scanning down from `j`, the
/// suffix extends over every trailing non-digit character.
pub open spec fn unit_start(s: Seq<char>, j: int) -> int
    decreases j,
{
    if 0 < j <= s.len() && !is_digit(s[j - 1]) {
        unit_start(s, j - 1)
    } else {
        j
    }
}

/// Splits a value argument into the numeric text and the trailing unit
/// name: the unit is the longest suffix holding no decimal digit, the
/// number text is everything before it.
pub fn split_value_text(s: &str) -> (r: (String, String))
    ensures
        r.0@ == s@.subrange(0, unit_start(s@, s@.len() as int)),
        r.1@ == s@.subrange(unit_start(s@, s@.len() as int), s@.len() as int),
{
    let mut chars: Vec<char> = Vec::new();
    for c in it: s.chars()
        invariant
            it.seq() == s@,
            chars@ == it.seq().subrange(0, it.index()),
    {
        proof {
            assert(it.seq().subrange(0, it.index()).push(it.seq()[it.index()]) =~= it.seq(
            ).subrange(0, it.index() + 1));
        }
        chars.push(c);
    }
    proof {
        assert(s@.subrange(0, s@.len() as int) =~= s@);
    }
    let n = chars.len();
    let mut k: usize = n;
    while k > 0 && !('0' <= chars[k - 1] && chars[k - 1] <= '9')
        invariant
            0 <= k <= n,
            n == chars@.len(),
            chars@ == s@,
            unit_start(s@, s@.len() as int) == unit_start(s@, k as int),
        decreases k,
    {
        k -= 1;
    }
    proof {
        assert(unit_start(s@, k as int) == k as int);
    }
    let mut number: Vec<char> = Vec::new();
    let mut i: usize = 0;
    while i < k
        invariant
            0 <= i <= k <= n,
            n == chars@.len(),
            chars@ == s@,
            number@ == s@.subrange(0, i as int),
        decreases k - i,
    {
        proof {
            assert(s@.subrange(0, i as int).push(s@[i as int]) =~= s@.subrange(0, i + 1));
        }
        number.push(chars[i]);
        i += 1;
    }
    let mut unit: Vec<char> = Vec::new();
    let mut j: usize = k;
    while j < n
        invariant
            k <= j <= n,
            n == chars@.len(),
            chars@ == s@,
            unit@ == s@.subrange(k as int, j as int),
        decreases n - j,
    {
        proof {
            assert(s@.subrange(k as int, j as int).push(s@[j as int]) =~= s@.subrange(
                k as int,
                j + 1,
            ));
        }
        unit.push(chars[j]);
        j += 1;
    }
    (chars_to_string(&number), chars_to_string(&unit))
}

} // verus!
