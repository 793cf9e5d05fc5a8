//! Which struct an instance is: the name a claim is attributed to.

use vstd::prelude::*;

verus! {

/// The start of the last `::` in `s` that begins before `k`, or -1.
pub open spec fn last_separator(s: Seq<char>, k: int) -> int
    decreases k,
{
    if k <= 0 {
        -1
    } else if k < s.len() && s[k - 1] == ':' && s[k] == ':' {
        k - 1
    } else {
        last_separator(s, k - 1)
    }
}

/// A type's name without its path: what follows the last `::`, or the whole
/// name where it has none.
pub open spec fn short_name_of(full: Seq<char>) -> Seq<char> {
    let k = last_separator(full, full.len() as int);
    if k < 0 { full } else { full.subrange(k + 2, full.len() as int) }
}

/// A type's name without its path.
pub fn short_type_name(full: &str) -> (r: &str)
    ensures
        r@ == short_name_of(full@),
{
    let n = full.unicode_len();
    let mut k = n;
    while k > 0
        invariant
            k <= n,
            n == full@.len(),
            last_separator(full@, k as int) == last_separator(full@, n as int),
        decreases k,
    {
        if k < n && full.get_char(k - 1) == ':' && full.get_char(k) == ':' {
            return full.substring_char(k + 1, n);
        }
        k = k - 1;
    }
    full.substring_char(0, n)
}

} // verus!
