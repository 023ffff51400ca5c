//! Rounding a quotient, or the square root of a quotient, to the nearest integer.
use vstd::prelude::*;
use crate::natural::Natural;

verus! {

/// The largest result that the rounding functions hand back.
pub const LIMIT: u128 = 0x10_0000_0000_0000_0000_0000_0000;

/// Whether `r + 1/2` lies above `num / den` (or above its square root, with `root`).
pub open spec fn above_half(r: int, num: int, den: int, root: bool) -> bool {
    if root {
        4 * num < (2 * r + 1) * (2 * r + 1) * den
    } else {
        2 * num < (2 * r + 1) * den
    }
}

/// Whether `r` is the integer nearest to `num / den` (or to its square root, with
/// `root`), halves rounded up.
pub open spec fn is_nearest(r: int, num: int, den: int, root: bool) -> bool {
    &&& r >= 0
    &&& above_half(r, num, den, root)
    &&& (r == 0 || !above_half(r - 1, num, den, root))
}

/// The integer nearest to `num / den`, or to its square root, halves rounded up.
pub open spec fn nearest(num: int, den: int, root: bool) -> int {
    choose|r: int| is_nearest(r, num, den, root)
}

pub proof fn lemma_above_half_monotone(a: int, b: int, num: int, den: int, root: bool)
    requires
        0 <= a <= b,
        den > 0,
        above_half(a, num, den, root),
    ensures
        above_half(b, num, den, root),
{
    if root {
        assert((2 * a + 1) * (2 * a + 1) * den <= (2 * b + 1) * (2 * b + 1) * den)
            by (nonlinear_arith)
            requires 0 <= a <= b, den > 0;
    } else {
        assert((2 * a + 1) * den <= (2 * b + 1) * den) by (nonlinear_arith)
            requires 0 <= a <= b, den > 0;
    }
}

/// There is one nearest integer at most.
pub proof fn lemma_nearest_unique(r: int, num: int, den: int, root: bool)
    requires
        den > 0,
        is_nearest(r, num, den, root),
    ensures
        nearest(num, den, root) == r,
{
    let c = nearest(num, den, root);
    assert(is_nearest(c, num, den, root));
    if c < r {
        lemma_above_half_monotone(c, r - 1, num, den, root);
    } else if r < c {
        lemma_above_half_monotone(r, c - 1, num, den, root);
    }
}

fn exceeds(r: u128, num: &Natural, den: &Natural, root: bool) -> (b: bool)
    requires
        r <= LIMIT,
    ensures
        b == above_half(r as int, num@ as int, den@ as int, root),
{
    let odd = Natural::from_u128(2 * r + 1);
    let scale: u128 = if root { 4 } else { 2 };
    let lhs = Natural::from_u128(scale).mul(num);
    let rhs = if root { odd.mul(&odd).mul(den) } else { odd.mul(den) };
    !lhs.ge(&rhs)
}

/// The integer nearest to `num / den`, or to its square root with `root`, where it
/// is at most `LIMIT`.
pub fn nearest_integer(num: &Natural, den: &Natural, root: bool) -> (r: Option<u128>)
    requires
        den@ > 0,
    ensures
        match r {
            Some(v) => v == nearest(num@ as int, den@ as int, root) && v <= LIMIT
                && above_half(LIMIT as int, num@ as int, den@ as int, root),
            None => !above_half(LIMIT as int, num@ as int, den@ as int, root),
        },
{
    if !exceeds(LIMIT, num, den, root) {
        return None;
    }
    let mut lo: u128 = 0;
    let mut hi: u128 = LIMIT;
    while lo < hi
        invariant
            lo <= hi <= LIMIT,
            above_half(LIMIT as int, num@ as int, den@ as int, root),
            above_half(hi as int, num@ as int, den@ as int, root),
            lo == 0 || !above_half(lo - 1, num@ as int, den@ as int, root),
        decreases hi - lo,
    {
        let mid = lo + (hi - lo) / 2;
        if exceeds(mid, num, den, root) {
            hi = mid;
        } else {
            lo = mid + 1;
        }
    }
    proof {
        lemma_nearest_unique(lo as int, num@ as int, den@ as int, root);
    }
    Some(lo)
}

} // verus!
