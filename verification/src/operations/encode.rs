//! Quantisation levels of encoded samples.
//!
//! A sample is scaled from its dynamic range onto the range of an integer
//! type and rounded; the rounded level `y` is then brought into the integer
//! range `[lo, hi)` (`lo` the type's least value, `hi` one past its greatest)
//! either by wrapping or by saturating.
use vstd::prelude::*;

verus! {

/// What becomes of a level outside the integer range.
#[derive(Clone, Copy, Debug, PartialEq, Eq, Structural)]
pub enum EncodeOverflow {
    /// It is replaced by the nearest end of the range.
    Saturate,
    /// It is folded back into the range.
    Wrap,
}

/// Where a sample lies against the middle of its dynamic range.
#[derive(Clone, Copy, Debug, PartialEq, Eq, Structural)]
pub enum MidSide {
    /// Above the middle.
    Above,
    /// Below the middle.
    Below,
    /// At the middle, or not comparable with it.
    Neither,
}

/// Remainder of `y` by `m > 0`, rounded towards zero: it has the sign of `y`.
pub open spec fn trunc_rem(y: int, m: int) -> int {
    if y >= 0 { y % m } else { -((-y) % m) }
}

/// Half of `v`, rounded towards zero.
pub open spec fn trunc_half(v: int) -> int {
    if v >= 0 { v / 2 } else { -((-v) / 2) }
}

/// The wrapping modulus: the larger of `hi` and `-2 lo`.
pub open spec fn wrap_modulus(lo: int, hi: int) -> int {
    if hi < -2 * lo { -2 * lo } else { hi }
}

/// The level `y` folded into `[lo, hi)`: first reduced by the wrapping
/// modulus, then brought below `hi` by steps of `hi`, then brought up to `lo`
/// by steps of `-lo`.
pub open spec fn wrap_level(y: int, lo: int, hi: int) -> int {
    let z = trunc_rem(y, wrap_modulus(lo, hi));
    let z = if z >= hi { z % hi } else { z };
    if z < lo { lo + (z - lo) % (-lo) } else { z }
}

/// The level that stands for a sample out of range, by its side of the middle.
pub open spec fn saturated_level(side: MidSide, lo: int, hi: int) -> int {
    match side {
        MidSide::Above => hi - 1,
        MidSide::Below => lo,
        MidSide::Neither => trunc_half(hi - 1 + lo),
    }
}

/// The encoded value of the rounded level `y` of a sample on `side` of the
/// middle of its dynamic range.
pub open spec fn encode_level_spec(y: int, overflow: EncodeOverflow, side: MidSide, lo: int, hi: int) -> int {
    let z = match overflow {
        EncodeOverflow::Wrap => wrap_level(y, lo, hi),
        EncodeOverflow::Saturate => y,
    };
    if lo <= z < hi { z } else { saturated_level(side, lo, hi) }
}

/// Whether folding terminates: a range with no negative values cannot take a
/// negative remainder back up to its least value.
pub open spec fn wrap_terminates(y: int, lo: int, hi: int) -> bool {
    lo < 0 || trunc_rem(y, wrap_modulus(lo, hi)) >= 0
}

/// The encoded value of the rounded level `y`, in the range `[lo, hi)` of an
/// integer type of at most 64 bits.
pub fn encode_level(y: i128, overflow: EncodeOverflow, side: MidSide, lo: i128, hi: i128) -> (e: i128)
    requires
        -0x8000_0000_0000_0000 <= lo <= 0 < hi <= 0x1_0000_0000_0000_0000,
        i128::MIN < y,
        overflow == EncodeOverflow::Wrap ==> wrap_terminates(y as int, lo as int, hi as int),
    ensures
        e == encode_level_spec(y as int, overflow, side, lo as int, hi as int),
        lo <= e < hi,
{
    let z: i128 = match overflow {
        EncodeOverflow::Saturate => y,
        EncodeOverflow::Wrap => {
            let m: i128 = if hi < (0 - lo) * 2 { (0 - lo) * 2 } else { hi };
            let mut z: i128 = if y >= 0 { y % m } else { -((-y) % m) };
            if z >= hi {
                z = z % hi;
            }
            if z < lo {
                let d: i128 = lo - z;
                let q: i128 = d % (0 - lo);
                proof {
                    let l: int = 0 - lo;
                    let dq: int = (d as int) / l;
                    vstd::arithmetic::div_mod::lemma_fundamental_div_mod(d as int, l);
                    vstd::arithmetic::div_mod::lemma_mod_bound(d as int, l);
                    assert(((z - lo) as int) == (-dq) * l + 0 || q != 0) by (nonlinear_arith)
                        requires d == l * dq + q, (z - lo) as int == -(d as int);
                    assert(((z - lo) as int) == (-dq - 1) * l + (l - q)) by (nonlinear_arith)
                        requires d == l * dq + q, (z - lo) as int == -(d as int);
                    if q == 0 {
                        vstd::arithmetic::div_mod::lemma_fundamental_div_mod_converse(
                            (z - lo) as int, l, -dq, 0);
                    } else {
                        vstd::arithmetic::div_mod::lemma_fundamental_div_mod_converse(
                            (z - lo) as int, l, -dq - 1, l - q);
                    }
                }
                z = if q == 0 { lo } else { 0 - q };
            }
            z
        },
    };
    proof {
        if overflow == EncodeOverflow::Wrap {
            let m = wrap_modulus(lo as int, hi as int);
            let t = trunc_rem(y as int, m);
            assert(-m < t < m) by (nonlinear_arith)
                requires
                    m > 0,
                    t == (if y >= 0 { (y as int) % m } else { -((-(y as int)) % m) }),
            ;
        }
    }
    if lo <= z && z < hi {
        z
    } else {
        match side {
            MidSide::Above => hi - 1,
            MidSide::Below => lo,
            MidSide::Neither => {
                let v: i128 = hi - 1 + lo;
                if v >= 0 { v / 2 } else { -((-v) / 2) }
            },
        }
    }
}

} // verus!
