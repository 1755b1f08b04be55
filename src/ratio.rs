use vstd::prelude::*;

use crate::bom::UNITS_PER_ITEM;

verus! {

/// A fraction `numer / denom` of items.
#[derive(Clone, Copy, Debug, PartialEq, Eq)]
pub struct Fraction {
    pub numer: i128,
    pub denom: u128,
}

pub open spec fn abs(v: int) -> int {
    if v < 0 {
        -v
    } else {
        v
    }
}

/// `numer / denom` lies within a thousandth of `v` units.
pub open spec fn within_a_thousandth(numer: int, denom: int, v: int) -> bool {
    denom > 0 && abs(numer * UNITS_PER_ITEM - v * denom) * 1000 < UNITS_PER_ITEM * denom
}

/// `h / k` lies within a thousandth of `a` units.
pub open spec fn close_to(h: int, k: int, a: int) -> bool {
    k > 0 && abs(h * UNITS_PER_ITEM - a * k) * 1000 < UNITS_PER_ITEM * k
}

/// The products that `close_to` compares fit in a `u128`.
pub open spec fn close_fits(h: int, k: int, a: int) -> bool {
    &&& h * UNITS_PER_ITEM <= u128::MAX
    &&& a * k <= u128::MAX
    &&& abs(h * UNITS_PER_ITEM - a * k) * 1000 <= u128::MAX
    &&& k * UNITS_PER_ITEM <= u128::MAX
}

/// Walks the continued fraction of `p / q`, where the last two convergents of `a`
/// units are `h1 / k1` and `h2 / k2`: each step takes the integer part `t` of `p / q`,
/// forms the next convergent `(t * h1 + h2) / (t * k1 + k2)` and stops at the first
/// one within a thousandth of `a` units. None when the fraction ends first, or when a
/// convergent or the products that compare it leave the `u128` range.
pub open spec fn first_close(p: nat, q: nat, h1: nat, h2: nat, k1: nat, k2: nat, a: nat) -> Option<(nat, nat)>
    decreases q,
{
    if q == 0 {
        None
    } else {
        let t = p / q;
        let h = (t * h1 + h2) as nat;
        let k = (t * k1 + k2) as nat;
        if h > u128::MAX || k > u128::MAX || !close_fits(h as int, k as int, a as int) {
            None
        } else if close_to(h as int, k as int, a as int) {
            Some((h, k))
        } else {
            first_close(q, p % q, h, h1, k, k1, a)
        }
    }
}

/// Whether `h / k` is within a thousandth of `a` units; none when a product that the
/// comparison needs leaves the `u128` range.
fn close(h: u128, k: u128, a: u128) -> (r: Option<bool>)
    ensures
        match r {
            Some(b) => close_fits(h as int, k as int, a as int) && b == close_to(h as int, k as int, a as int),
            None => !close_fits(h as int, k as int, a as int),
        },
{
    let hu = match h.checked_mul(UNITS_PER_ITEM as u128) {
        Some(v) => v,
        None => {
            return None;
        },
    };
    let ak = match a.checked_mul(k) {
        Some(v) => v,
        None => {
            return None;
        },
    };
    let diff = if hu >= ak {
        hu - ak
    } else {
        ak - hu
    };
    let lhs = match diff.checked_mul(1000) {
        Some(v) => v,
        None => {
            return None;
        },
    };
    let rhs = match k.checked_mul(UNITS_PER_ITEM as u128) {
        Some(v) => v,
        None => {
            return None;
        },
    };
    Some(k > 0 && lhs < rhs)
}

/// Approximates `value` units by the first convergent of the continued fraction of
/// `|value| / UNITS_PER_ITEM` that lies within a thousandth of an item, with the sign
/// of `value`; `value / UNITS_PER_ITEM` itself where the walk finds none, or finds one
/// beyond the `i128` range.
pub fn ratio_approximate(value: i128) -> (r: Fraction)
    requires
        value > i128::MIN,
    ensures
        within_a_thousandth(r.numer as int, r.denom as int, value as int),
        ({
            let a = abs(value as int) as nat;
            match first_close(a, UNITS_PER_ITEM as nat, 1, 0, 0, 1, a) {
                Some((h, k)) => if h <= i128::MAX {
                    r.numer == (if value < 0 { -h } else { h as int }) && r.denom == k
                } else {
                    r.numer == value && r.denom == UNITS_PER_ITEM
                },
                None => r.numer == value && r.denom == UNITS_PER_ITEM,
            }
        }),
{
    let negative = value < 0;
    let a: u128 = if negative {
        (-value) as u128
    } else {
        value as u128
    };
    let units: u128 = UNITS_PER_ITEM as u128;
    let ghost an = a as nat;
    let mut p: u128 = a;
    let mut q: u128 = units;
    let mut h1: u128 = 1;
    let mut h2: u128 = 0;
    let mut k1: u128 = 0;
    let mut k2: u128 = 1;
    let mut found: Option<(u128, u128)> = None;
    let ghost walk = first_close(an, UNITS_PER_ITEM as nat, 1, 0, 0, 1, an);
    while q != 0
        invariant_except_break
            found is None,
            walk == first_close(
                p as nat,
                q as nat,
                h1 as nat,
                h2 as nat,
                k1 as nat,
                k2 as nat,
                an,
            ),
        invariant
            a as int == abs(value as int),
            an == a as nat,
            walk == first_close(an, UNITS_PER_ITEM as nat, 1, 0, 0, 1, an),
        ensures
            found matches Some((h, k)) ==> walk == Some((h as nat, k as nat)) && close_to(h as int, k as int, a as int),
            found is None ==> walk is None,
        decreases q,
    {
        let t = p / q;
        let rem = p % q;
        let h = match t.checked_mul(h1) {
            Some(v) => v.checked_add(h2),
            None => None,
        };
        let k = match t.checked_mul(k1) {
            Some(v) => v.checked_add(k2),
            None => None,
        };
        proof {
            assert(t * h1 <= t * h1 + h2);
            assert(t * k1 <= t * k1 + k2);
        }
        match (h, k) {
            (Some(h), Some(k)) => {
                match close(h, k, a) {
                    Some(true) => {
                        found = Some((h, k));
                        break;
                    },
                    Some(false) => {},
                    None => {
                        break;
                    },
                }
                h2 = h1;
                h1 = h;
                k2 = k1;
                k1 = k;
            },
            _ => {
                break;
            },
        }
        p = q;
        q = rem;
    }
    match found {
        Some((h, k)) => {
            if h > i128::MAX as u128 {
                return Fraction { numer: value, denom: units };
            }
            let numer: i128 = if negative {
                -(h as i128)
            } else {
                h as i128
            };
            proof {
                if negative {
                    assert(numer * UNITS_PER_ITEM - value * k == -(h * UNITS_PER_ITEM - a * k)) by (nonlinear_arith)
                        requires
                            numer == -h,
                            value == -a,
                    ;
                } else {
                    assert(numer * UNITS_PER_ITEM - value * k == h * UNITS_PER_ITEM - a * k) by (nonlinear_arith)
                        requires
                            numer == h,
                            value == a,
                    ;
                }
            }
            Fraction { numer, denom: k }
        },
        None => {
            assert(abs(value * UNITS_PER_ITEM - value * UNITS_PER_ITEM) == 0);
            Fraction { numer: value, denom: units }
        },
    }
}

} // verus!
