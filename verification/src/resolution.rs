use vstd::prelude::*;

use vstd::arithmetic::div_mod::{lemma_div_is_ordered_by_denominator, lemma_div_multiples_vanish};

verus! {

/// Largest extent a bounding box can have along one axis: both faces lie
/// within `crate::mesh::COORD_LIMIT` of the origin.
pub const MAX_EXTENT: u64 = 0x2000_0000;

/// `b^m` for the small exponents used by the resolution heuristic (1, 2, 3).
pub open spec fn pow_small(b: int, m: int) -> int {
    if m <= 1 {
        b
    } else if m == 2 {
        b * b
    } else {
        b * b * b
    }
}

/// `r` is the integer m-th root of `x`: the largest integer whose m-th power
/// does not exceed `x`.
pub open spec fn is_iroot(x: int, m: int, r: int) -> bool {
    0 <= r && pow_small(r, m) <= x && x < pow_small(r + 1, m)
}

/// The integer m-th root of a nonnegative value.
pub open spec fn spec_iroot(x: int, m: int) -> int {
    choose|r: int| is_iroot(x, m, r)
}

pub proof fn lemma_pow_small_monotone(a: int, b: int, m: int)
    requires
        1 <= m <= 3,
        0 <= a <= b,
    ensures
        pow_small(a, m) <= pow_small(b, m),
{
    if m == 2 {
        assert(a * a <= b * b) by (nonlinear_arith)
            requires
                0 <= a <= b,
        ;
    } else if m == 3 {
        assert(a * a * a <= b * b * b) by (nonlinear_arith)
            requires
                0 <= a <= b,
        ;
    }
}

/// A value has at most one integer m-th root.
pub proof fn lemma_iroot_unique(x: int, m: int, r1: int, r2: int)
    requires
        1 <= m <= 3,
        is_iroot(x, m, r1),
        is_iroot(x, m, r2),
    ensures
        r1 == r2,
{
    if r1 < r2 {
        lemma_pow_small_monotone(r1 + 1, r2, m);
        assert(false);
    } else if r2 < r1 {
        lemma_pow_small_monotone(r2 + 1, r1, m);
        assert(false);
    }
}

/// Integer m-th root by binary search, for the exponents the heuristic uses.
pub fn iroot(x: u128, m: u32) -> (r: u64)
    requires
        1 <= m <= 3,
        m == 1 ==> x <= u64::MAX,
        m >= 2 ==> (x as int) < pow_small(0x1_0000_0000, m as int),
    ensures
        is_iroot(x as int, m as int, r as int),
        r as int == spec_iroot(x as int, m as int),
{
    if m == 1 {
        let r = x as u64;
        proof {
            assert(is_iroot(x as int, m as int, r as int));
            lemma_iroot_unique(x as int, m as int, r as int, spec_iroot(x as int, m as int));
        }
        return r;
    }
    let mut lo: u64 = 0;
    let mut hi: u64 = 0x1_0000_0000;
    while lo + 1 < hi
        invariant
            0 <= lo < hi <= 0x1_0000_0000,
            pow_small(lo as int, m as int) <= x as int,
            (x as int) < pow_small(hi as int, m as int),
        decreases hi - lo,
    {
        let mid = lo + (hi - lo) / 2;
        let mm = mid as u128;
        proof {
            assert((mm as int) * (mm as int) <= 0x1_0000_0000_0000_0000int) by (nonlinear_arith)
                requires
                    mm <= 0x1_0000_0000u128,
            ;
            assert((mm as int) * (mm as int) * (mm as int) <= 0x1_0000_0000_0000_0000_0000_0000int)
                by (nonlinear_arith)
                requires
                    mm <= 0x1_0000_0000u128,
            ;
        }
        let mp: u128 = if m == 2 {
            mm * mm
        } else {
            mm * mm * mm
        };
        assert(mp as int == pow_small(mid as int, m as int));
        if mp <= x {
            lo = mid;
        } else {
            hi = mid;
        }
    }
    proof {
        assert(hi == lo + 1);
        assert(is_iroot(x as int, m as int, lo as int));
        lemma_iroot_unique(x as int, m as int, lo as int, spec_iroot(x as int, m as int));
    }
    lo
}

/// Number of axes along which the bounding box has positive extent.
pub open spec fn positive_axes(e0: int, e1: int, e2: int) -> int {
    (if e0 > 0 {
        1int
    } else {
        0int
    }) + (if e1 > 0 {
        1int
    } else {
        0int
    }) + (if e2 > 0 {
        1int
    } else {
        0int
    })
}

/// Product of the positive extents (1 when every axis is degenerate).
pub open spec fn positive_volume(e0: int, e1: int, e2: int) -> int {
    (if e0 > 0 {
        e0
    } else {
        1int
    }) * (if e1 > 0 {
        e1
    } else {
        1int
    }) * (if e2 > 0 {
        e2
    } else {
        1int
    })
}

/// Extent along one axis.
pub open spec fn ext_axis(e0: int, e1: int, e2: int, axis: int) -> int {
    if axis == 0 {
        e0
    } else if axis == 1 {
        e1
    } else {
        e2
    }
}

/// The heuristic's radicand for `axis`.  With `m` positive axes and positive
/// volume `V`, the real scale factor `k` solves `k^m == 5n / V`, and the
/// ideal cell count along the axis is `e*k == (e^m * 5n / V)^(1/m)`; taking
/// the floor inside the division first does not change the rooted floor.
pub open spec fn res_target(e0: int, e1: int, e2: int, n: int, axis: int) -> int {
    pow_small(ext_axis(e0, e1, e2, axis), positive_axes(e0, e1, e2)) * (5 * n) / positive_volume(
        e0,
        e1,
        e2,
    )
}

/// Cell count chosen by the density heuristic along `axis`: the floor of the
/// ideal count, clamped to at least one cell; a degenerate axis gets one cell.
pub open spec fn spec_res_axis(e0: int, e1: int, e2: int, n: int, axis: int) -> int {
    if ext_axis(e0, e1, e2, axis) == 0 {
        1
    } else {
        vstd::math::max(
            1,
            spec_iroot(res_target(e0, e1, e2, n, axis), positive_axes(e0, e1, e2)),
        )
    }
}

/// Unclamped cell count along one positive axis, as a machine integer.
fn axis_cells(
    e: u64,
    m: u32,
    pv: u128,
    n: u64,
    Ghost(e0g): Ghost<int>,
    Ghost(e1g): Ghost<int>,
    Ghost(e2g): Ghost<int>,
    Ghost(axis): Ghost<int>,
) -> (r: u64)
    requires
        0 <= axis < 3,
        e as int == ext_axis(e0g, e1g, e2g, axis),
        e > 0,
        m as int == positive_axes(e0g, e1g, e2g),
        pv as int == positive_volume(e0g, e1g, e2g),
        1 <= n <= u32::MAX,
        0 <= e0g <= MAX_EXTENT as int,
        0 <= e1g <= MAX_EXTENT as int,
        0 <= e2g <= MAX_EXTENT as int,
    ensures
        r as int == spec_res_axis(e0g, e1g, e2g, n as int, axis),
{
    let ghost f0: int = if e0g > 0 {
        e0g
    } else {
        1int
    };
    let ghost f1: int = if e1g > 0 {
        e1g
    } else {
        1int
    };
    let ghost f2: int = if e2g > 0 {
        e2g
    } else {
        1int
    };
    let ghost ei: int = e as int;
    proof {
        assert(1 <= m <= 3);
        assert(pv as int == f0 * f1 * f2);
        assert(1 <= f0 <= 0x2000_0000 && 1 <= f1 <= 0x2000_0000 && 1 <= f2 <= 0x2000_0000);
        assert(1 <= f0 * f1 * f2 && f0 <= f0 * f1 * f2 && f1 <= f0 * f1 * f2 && f2 <= f0 * f1
            * f2) by (nonlinear_arith)
            requires
                1 <= f0,
                1 <= f1,
                1 <= f2,
        ;
        if axis == 0 {
            assert(f0 == ei);
        } else if axis == 1 {
            assert(f1 == ei);
        } else {
            assert(f2 == ei);
        }
        assert(ei <= pv as int);
    }
    let ee = e as u128;
    proof {
        assert((ee as int) * (ee as int) <= 0x4000_0000_0000_0000int) by (nonlinear_arith)
            requires
                ee <= 0x2000_0000u128,
        ;
        assert((ee as int) * (ee as int) * (ee as int) <= 0x80_0000_0000_0000_0000_0000int)
            by (nonlinear_arith)
            requires
                ee <= 0x2000_0000u128,
        ;
    }
    let p: u128 = if m == 1 {
        ee
    } else if m == 2 {
        ee * ee
    } else {
        ee * ee * ee
    };
    proof {
        assert(p as int == pow_small(ei, m as int));
        assert(p as int <= 0x80_0000_0000_0000_0000_0000int);
    }
    let five_n: u128 = 5 * (n as u128);
    let ghost nn: int = 5 * (n as int);
    proof {
        assert(five_n as int == nn);
        assert(0 <= nn <= 0x4_FFFF_FFFBint);
        assert((p as int) * nn < 0x1_0000_0000_0000_0000_0000_0000_0000_0000int)
            by (nonlinear_arith)
            requires
                0 <= p as int <= 0x80_0000_0000_0000_0000_0000int,
                0 <= nn <= 0x4_FFFF_FFFBint,
        ;
    }
    let num: u128 = p * five_n;
    let x: u128 = num / pv;
    proof {
        // The divisor has this axis's extent as a factor, so dividing by the
        // extent alone can only give a larger quotient.
        lemma_div_is_ordered_by_denominator(num as int, ei, pv as int);
        if m == 1 {
            // Only this axis has positive extent, so the volume is the extent.
            if axis == 0 {
                assert(e1g == 0 && e2g == 0);
                assert(f0 * f1 * f2 == f0) by (nonlinear_arith)
                    requires
                        f1 == 1,
                        f2 == 1,
                ;
            } else if axis == 1 {
                assert(e0g == 0 && e2g == 0);
                assert(f0 * f1 * f2 == f1) by (nonlinear_arith)
                    requires
                        f0 == 1,
                        f2 == 1,
                ;
            } else {
                assert(e0g == 0 && e1g == 0);
                assert(f0 * f1 * f2 == f2) by (nonlinear_arith)
                    requires
                        f0 == 1,
                        f1 == 1,
                ;
            }
            assert(pv as int == ei);
            assert(num as int == ei * nn);
            lemma_div_multiples_vanish(nn, ei);
            assert(x as int == nn);
        } else if m == 2 {
            assert(num as int == (ei * ei) * nn);
            assert(ei * (ei * nn) == (ei * ei) * nn) by (nonlinear_arith);
            lemma_div_multiples_vanish(ei * nn, ei);
            assert((num as int) / ei == ei * nn);
            assert(ei * nn < 0x1_0000_0000_0000_0000int) by (nonlinear_arith)
                requires
                    0 < ei <= 0x2000_0000int,
                    0 <= nn <= 0x4_FFFF_FFFBint,
            ;
            assert((x as int) < 0x1_0000_0000_0000_0000int);
            assert(pow_small(0x1_0000_0000int, 2) == 0x1_0000_0000_0000_0000int);
        } else {
            assert(num as int == ((ei * ei) * ei) * nn);
            assert(ei * ((ei * ei) * nn) == ((ei * ei) * ei) * nn) by (nonlinear_arith);
            lemma_div_multiples_vanish((ei * ei) * nn, ei);
            assert((num as int) / ei == (ei * ei) * nn);
            assert((ei * ei) * nn < 0x1_0000_0000_0000_0000_0000_0000int) by (nonlinear_arith)
                requires
                    0 < ei <= 0x2000_0000int,
                    0 <= nn <= 0x4_FFFF_FFFBint,
            ;
            assert((x as int) < 0x1_0000_0000_0000_0000_0000_0000int);
            assert(pow_small(0x1_0000_0000int, 3) == 0x1_0000_0000_0000_0000_0000_0000int);
        }
    }
    let root = iroot(x, m);
    let r = if root < 1 {
        1u64
    } else {
        root
    };
    proof {
        assert(x as int == res_target(e0g, e1g, e2g, n as int, axis));
        assert(r as int == spec_res_axis(e0g, e1g, e2g, n as int, axis));
    }
    r
}

/// Grid resolution chosen for a box with the given axis extents and triangle
/// count: an average density of five triangles per cell, at least one cell
/// per axis even when the box is flat.  `None` when a cell count would not
/// fit in the 32-bit resolution field.
pub fn calc_grid_resolution(extents: [u64; 3], triangle_count: u64) -> (r: Option<[u32; 3]>)
    requires
        1 <= triangle_count <= u32::MAX,
        forall|a: int| 0 <= a < 3 ==> extents@[a] <= MAX_EXTENT,
    ensures
        r is Some <==> (forall|axis: int|
            0 <= axis < 3 ==> spec_res_axis(
                extents@[0] as int,
                extents@[1] as int,
                extents@[2] as int,
                triangle_count as int,
                axis,
            ) <= u32::MAX),
        r matches Some(res) ==> forall|axis: int|
            0 <= axis < 3 ==> res@[axis] as int == spec_res_axis(
                extents@[0] as int,
                extents@[1] as int,
                extents@[2] as int,
                triangle_count as int,
                axis,
            ) && res@[axis] >= 1,
{
    let ghost e0g: int = extents@[0] as int;
    let ghost e1g: int = extents@[1] as int;
    let ghost e2g: int = extents@[2] as int;
    let e0 = extents[0];
    let e1 = extents[1];
    let e2 = extents[2];
    let m: u32 = (if e0 > 0 {
        1u32
    } else {
        0u32
    }) + (if e1 > 0 {
        1u32
    } else {
        0u32
    }) + (if e2 > 0 {
        1u32
    } else {
        0u32
    });
    let g0: u128 = if e0 > 0 {
        e0 as u128
    } else {
        1u128
    };
    let g1: u128 = if e1 > 0 {
        e1 as u128
    } else {
        1u128
    };
    let g2: u128 = if e2 > 0 {
        e2 as u128
    } else {
        1u128
    };
    proof {
        assert((g0 as int) * (g1 as int) <= 0x4000_0000_0000_0000int) by (nonlinear_arith)
            requires
                0 < g0 <= 0x2000_0000u128,
                0 < g1 <= 0x2000_0000u128,
        ;
        assert((g0 as int) * (g1 as int) * (g2 as int) <= 0x80_0000_0000_0000_0000_0000int)
            by (nonlinear_arith)
            requires
                0 < g0 <= 0x2000_0000u128,
                0 < g1 <= 0x2000_0000u128,
                0 < g2 <= 0x2000_0000u128,
        ;
    }
    let pv: u128 = g0 * g1 * g2;
    proof {
        assert(m as int == positive_axes(e0g, e1g, e2g));
        assert(pv as int == positive_volume(e0g, e1g, e2g));
    }
    let c0 = if e0 == 0 {
        1u64
    } else {
        axis_cells(e0, m, pv, triangle_count, Ghost(e0g), Ghost(e1g), Ghost(e2g), Ghost(0int))
    };
    let c1 = if e1 == 0 {
        1u64
    } else {
        axis_cells(e1, m, pv, triangle_count, Ghost(e0g), Ghost(e1g), Ghost(e2g), Ghost(1int))
    };
    let c2 = if e2 == 0 {
        1u64
    } else {
        axis_cells(e2, m, pv, triangle_count, Ghost(e0g), Ghost(e1g), Ghost(e2g), Ghost(2int))
    };
    if c0 > 0xFFFF_FFFFu64 || c1 > 0xFFFF_FFFFu64 || c2 > 0xFFFF_FFFFu64 {
        proof {
            if c0 > 0xFFFF_FFFFu64 {
                assert(spec_res_axis(e0g, e1g, e2g, triangle_count as int, 0) > u32::MAX);
            } else if c1 > 0xFFFF_FFFFu64 {
                assert(spec_res_axis(e0g, e1g, e2g, triangle_count as int, 1) > u32::MAX);
            } else {
                assert(spec_res_axis(e0g, e1g, e2g, triangle_count as int, 2) > u32::MAX);
            }
        }
        None
    } else {
        let res = [c0 as u32, c1 as u32, c2 as u32];
        proof {
            assert forall|axis: int| 0 <= axis < 3 implies res@[axis] as int == spec_res_axis(
                e0g,
                e1g,
                e2g,
                triangle_count as int,
                axis,
            ) && res@[axis] >= 1 by {
                if axis == 0 {
                } else if axis == 1 {
                } else {
                }
            }
        }
        Some(res)
    }
}

} // verus!
