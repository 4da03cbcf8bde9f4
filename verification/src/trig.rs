//! Integer arithmetic the renderer needs and the core has no floats for.
use vstd::prelude::*;

verus! {

/// The largest square root an `i32` can have.
pub const ROOT_MAX: i32 = 46_340;

/// The largest `s` no greater than `top` whose square is at most `v`, or
/// zero when there is none.
pub open spec fn root_below(v: int, top: int) -> int
    decreases top,
{
    if top <= 0 {
        0
    } else if top * top <= v {
        top
    } else {
        root_below(v, top - 1)
    }
}

/// The integer square root of `v`: the largest `s` whose square is at most
/// `v`, and zero for a negative `v`.
pub open spec fn spec_isqrt(v: int) -> int {
    root_below(v, ROOT_MAX as int)
}

/// Searching down from `top`, every candidate above the root is skipped.
proof fn lemma_root_below(v: int, top: int, s: int)
    requires
        0 <= s <= top,
        s > 0 ==> s * s <= v,
        forall|k: int| s < k <= top ==> #[trigger] (k * k) > v,
    ensures
        root_below(v, top) == s,
    decreases top,
{
    if top > s {
        assert(top * top > v);
        lemma_root_below(v, top - 1, s);
    } else if top > 0 {
        assert(top * top <= v);
    }
}

/// The integer square root of `v`, and zero for a negative `v`.
pub fn isqrt(v: i32) -> (s: i32)
    ensures
        s == spec_isqrt(v as int),
        0 <= s <= ROOT_MAX,
        v >= 0 ==> s * s <= v < (s + 1) * (s + 1),
{
    if v <= 0 {
        proof {
            assert forall|k: int| 0 < k <= ROOT_MAX implies #[trigger] (k * k) > v by {
                assert(k * k > 0) by (nonlinear_arith)
                    requires
                        k > 0,
                ;
            }
            lemma_root_below(v as int, ROOT_MAX as int, 0);
        }
        return 0;
    }
    // lo * lo <= v < hi * hi throughout.
    let vv = v as i64;
    let mut lo: i64 = 0;
    let mut hi: i64 = ROOT_MAX as i64 + 1;
    assert(hi * hi > i32::MAX) by (nonlinear_arith)
        requires
            hi == 46341,
    ;
    while hi - lo > 1
        invariant
            0 <= lo < hi <= ROOT_MAX + 1,
            lo * lo <= vv,
            vv < hi * hi,
            vv == v,
        decreases hi - lo,
    {
        let mid = lo + (hi - lo) / 2;
        assert(mid * mid <= 2147488281) by (nonlinear_arith)
            requires
                0 <= mid <= 46341,
        ;
        if mid * mid <= vv {
            lo = mid;
        } else {
            hi = mid;
        }
    }
    proof {
        assert forall|k: int| lo < k <= ROOT_MAX implies #[trigger] (k * k) > vv by {
            assert(k * k >= hi * hi) by (nonlinear_arith)
                requires
                    k >= hi,
                    hi >= 0,
            ;
        }
        lemma_root_below(vv as int, ROOT_MAX as int, lo as int);
    }
    lo as i32
}

} // verus!
