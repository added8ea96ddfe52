use vstd::prelude::*;

verus! {

/// Scale of the search domain: the brightness or saturation factor one is
/// written as `SCALE_ONE` units, so a bracket endpoint is a dyadic
/// fraction with twenty binary places.
pub const SCALE_ONE: u32 = 1048576;

/// Two bracket endpoints closer than this many scale units count as
/// equal; this realizes the search tolerance of about one part in a
/// thousand of the unit scale.
pub const SEARCH_TOLERANCE: u32 = 1049;

/// Outcome of a tolerance comparison.
#[derive(Clone, Copy, Debug, PartialEq, Eq, Structural)]
pub enum Ordering {
    Less,
    Equal,
    Greater,
}

/// Absolute difference of two endpoints.
pub open spec fn spec_distance(a: u32, b: u32) -> int {
    if a >= b {
        a - b
    } else {
        b - a
    }
}

/// Compares two scale values under the search tolerance: values within
/// the tolerance count as equal.
pub fn close_enough(a: u32, b: u32) -> (r: Ordering)
    ensures
        (r == Ordering::Equal) <==> spec_distance(a, b) < SEARCH_TOLERANCE,
        (r == Ordering::Less) <==> (b - a >= SEARCH_TOLERANCE),
        (r == Ordering::Greater) <==> (a - b >= SEARCH_TOLERANCE),
{
    if a >= b {
        if a - b < SEARCH_TOLERANCE {
            Ordering::Equal
        } else {
            Ordering::Greater
        }
    } else {
        if b - a < SEARCH_TOLERANCE {
            Ordering::Equal
        } else {
            Ordering::Less
        }
    }
}

/// Where a bracketing search ended.
#[derive(Clone, Copy, Debug, PartialEq, Eq, Structural)]
pub struct SearchOutcome {
    /// Lower end of the final bracket.
    pub lo: u32,
    /// Upper end of the final bracket.
    pub hi: u32,
    /// The midpoint probe the search settled on.
    pub mid: u32,
    /// The comparator reported the probe itself as within tolerance of
    /// the target; otherwise the bracket collapsed below the tolerance.
    pub matched: bool,
}

/// Bisects `[min, max]` for a probe the comparator accepts.  The
/// comparator reports whether the quantity at a probe is below, within
/// tolerance of, or above the target; `Less` moves the bracket up,
/// `Greater` moves it down.  The search returns the midpoint of the final
/// bracket, either because the comparator matched there or because the
/// bracket collapsed below the search tolerance.  The final bracket is
/// comparator-certified: each end either is the original end or was
/// itself probed and reported on the low (for `lo`) or high (for `hi`)
/// side of the target.
pub fn binary_search<G: Fn(u32) -> Ordering>(min: u32, max: u32, comparator: G) -> (res:
    SearchOutcome)
    requires
        min <= max,
        forall|x: u32| min <= x <= max ==> call_requires(comparator, (x,)),
    ensures
        min <= res.lo <= res.mid <= res.hi <= max,
        res.mid == res.lo + (res.hi - res.lo) / 2,
        res.lo == min || call_ensures(comparator, (res.lo,), Ordering::Less),
        res.hi == max || call_ensures(comparator, (res.hi,), Ordering::Greater),
        res.matched ==> call_ensures(comparator, (res.mid,), Ordering::Equal),
        !res.matched ==> res.hi - res.lo < SEARCH_TOLERANCE,
{
    let mut lo = min;
    let mut hi = max;
    loop
        invariant
            min <= lo <= hi <= max,
            forall|x: u32| min <= x <= max ==> call_requires(comparator, (x,)),
            lo == min || call_ensures(comparator, (lo,), Ordering::Less),
            hi == max || call_ensures(comparator, (hi,), Ordering::Greater),
        decreases hi - lo,
    {
        let mid = lo + (hi - lo) / 2;
        if hi - lo < SEARCH_TOLERANCE {
            return SearchOutcome { lo, hi, mid, matched: false };
        }
        let c = comparator(mid);
        match c {
            Ordering::Less => {
                lo = mid;
            },
            Ordering::Greater => {
                hi = mid;
            },
            Ordering::Equal => {
                return SearchOutcome { lo, hi, mid, matched: true };
            },
        }
    }
}

} // verus!
