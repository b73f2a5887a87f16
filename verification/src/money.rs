//! Fixed-point amounts. Cash and prices share one unit, a thousandth, so a
//! fill of `qty` at price key `price` moves exactly `qty * price` of cash.
//! Balances saturate at the ends of their machine range.
use vstd::prelude::*;

verus! {

/// Price keys per whole unit of price.
pub const SCALE: i64 = 1000;

/// An integer brought into the range of `i128`.
pub open spec fn clamp_i128(x: int) -> i128 {
    if x < i128::MIN {
        i128::MIN
    } else if x > i128::MAX {
        i128::MAX
    } else {
        x as i128
    }
}

/// An integer brought into the range of `i64`.
pub open spec fn clamp_i64(x: int) -> i64 {
    if x < i64::MIN {
        i64::MIN
    } else if x > i64::MAX {
        i64::MAX
    } else {
        x as i64
    }
}

/// An integer brought into the range of `u64`.
pub open spec fn clamp_u64(x: int) -> u64 {
    if x < 0 {
        0
    } else if x > u64::MAX {
        u64::MAX
    } else {
        x as u64
    }
}

/// The size of a signed quantity, whose sign only tells the side.
pub open spec fn magnitude(x: i64) -> u64 {
    if x < 0 {
        (-x) as u64
    } else {
        x as u64
    }
}

pub fn abs_qty(x: i64) -> (m: u64)
    ensures
        m == magnitude(x),
{
    if x >= 0 {
        x as u64
    } else if x == i64::MIN {
        0x8000_0000_0000_0000u64
    } else {
        (-x) as u64
    }
}

/// What `qty` units cost at price key `price`, in thousandths.
pub fn notional(qty: u64, price: i64) -> (cost: i128)
    ensures
        cost == qty * price,
{
    proof {
        assert(-0x8000_0000_0000_0000 * 0xffff_ffff_ffff_ffff <= qty * price
            <= 0x7fff_ffff_ffff_ffff * 0xffff_ffff_ffff_ffff) by (nonlinear_arith)
            requires
                0 <= qty <= 0xffff_ffff_ffff_ffff,
                -0x8000_0000_0000_0000 <= price <= 0x7fff_ffff_ffff_ffff,
        ;
    }
    (qty as i128) * (price as i128)
}

/// What a signed quantity costs at price key `price`, in thousandths.
pub fn signed_notional(price: i64, qty: i64) -> (cost: i128)
    ensures
        cost == price * qty,
{
    proof {
        assert(-0x8000_0000_0000_0000 * 0x8000_0000_0000_0000 <= price * qty
            <= 0x8000_0000_0000_0000 * 0x8000_0000_0000_0000) by (nonlinear_arith)
            requires
                -0x8000_0000_0000_0000 <= qty <= 0x7fff_ffff_ffff_ffff,
                -0x8000_0000_0000_0000 <= price <= 0x7fff_ffff_ffff_ffff,
        ;
    }
    (price as i128) * (qty as i128)
}

/// `cash + delta`, saturating.
pub fn cash_plus(cash: i128, delta: i128) -> (r: i128)
    ensures
        r == clamp_i128(cash + delta),
{
    match cash.checked_add(delta) {
        Some(v) => v,
        None => if delta < 0 {
            i128::MIN
        } else {
            i128::MAX
        },
    }
}

/// `cash - delta`, saturating.
pub fn cash_minus(cash: i128, delta: i128) -> (r: i128)
    ensures
        r == clamp_i128(cash - delta),
{
    match cash.checked_sub(delta) {
        Some(v) => v,
        None => if delta < 0 {
            i128::MAX
        } else {
            i128::MIN
        },
    }
}

/// `units + qty`, saturating.
pub fn units_plus(units: i64, qty: u64) -> (r: i64)
    ensures
        r == clamp_i64(units + qty),
{
    let wide: i128 = (units as i128) + (qty as i128);
    if wide > (i64::MAX as i128) {
        i64::MAX
    } else {
        wide as i64
    }
}

/// `units - qty`, saturating.
pub fn units_minus(units: i64, qty: u64) -> (r: i64)
    ensures
        r == clamp_i64(units - qty),
{
    let wide: i128 = (units as i128) - (qty as i128);
    if wide < (i64::MIN as i128) {
        i64::MIN
    } else {
        wide as i64
    }
}

/// `n + step` for a small step, saturating.
pub fn count_plus(n: i64, step: i64) -> (r: i64)
    requires
        -1 <= step <= 1,
    ensures
        r == clamp_i64(n + step),
{
    if step == 1 && n == i64::MAX {
        i64::MAX
    } else if step == -1 && n == i64::MIN {
        i64::MIN
    } else {
        n + step
    }
}

} // verus!
