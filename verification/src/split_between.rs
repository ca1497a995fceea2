use vstd::prelude::*;

verus! {

/// The value halfway between `lo` and `hi`, rounded down.
pub open spec fn halfway(lo: int, hi: int) -> int {
    lo + (hi - lo) / 2
}

/// A threshold between two feature values `lo < hi`: the value halfway,
/// rounded down, which is `lo` where the two are neighbours. Held against
/// it, `lo` goes left and `hi` goes right.
pub fn split_between(lo: i64, hi: i64) -> (v: i64)
    requires
        lo < hi,
    ensures
        v == halfway(lo as int, hi as int),
        lo <= v < hi,
        hi - lo == 1 ==> v == lo,
{
    let wide = lo as i128 + (hi as i128 - lo as i128) / 2;
    wide as i64
}

} // verus!
