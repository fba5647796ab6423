//! The redemption engine: given the previous senior/junior token quantities,
//! four fair-value samples (old and new values of the LP share and of the
//! underlying asset) and three configuration decimals, it computes the new
//! quantity owed to each class plus a rounding-residual fee.
//!
//! The engine is a pure function of its arguments. Every decimal operation
//! it performs is mirrored by a spec-level chain over the named results of
//! the decimal substrate, so `execute_plugin`'s postcondition pins its
//! result exactly; on top of that chain the conservation law is proved:
//! the old quantities always equal the new quantities plus a fee of at most
//! one token unit.

use crate::decimal::{
    add_of, deser_mant, div_of, lemma_deserialized_props, lemma_p10_pos, lemma_p10_split,
    lemma_val_sign, mul_of, p10, raw_mant, raw_nonneg, raw_scale, spec_deserialized, spec_max,
    spec_min, sqrt_of, sub_of, Dec,
};
use vstd::arithmetic::div_mod::{
    lemma_div_is_ordered, lemma_div_multiples_vanish, lemma_div_pos_is_pos,
    lemma_fundamental_div_mod, lemma_mod_bound,
};
use vstd::prelude::*;

verus! {

broadcast use vstd::array::lemma_array_index;

/// The engine's error taxonomy: invalid inputs are rejected at the
/// boundary, undefined or non-representable arithmetic aborts a call.
#[derive(Clone, Copy, Debug, PartialEq, Eq, Structural)]
pub enum RedeemLogicErrors {
    InvalidInput,
    MathError,
}

/// The wire-format input of a redemption call: the two class balances and
/// ten serialized decimal fair values per sample (the engine itself reads
/// the first two of each).
#[derive(Clone, Copy, Debug)]
pub struct RedeemLogicExecuteInput {
    pub old_quantity: [u64; 2],
    pub old_reserve_fair_value: [[u8; 16]; 10],
    pub new_reserve_fair_value: [[u8; 16]; 10],
}

/// The engine's output: the new senior and junior quantities and the
/// rounding-residual fee.
#[derive(Clone, Copy, Debug)]
pub struct RedeemLogicExecuteResult {
    pub new_quantity: [u64; 2],
    pub fee_quantity: u64,
}

/// The configuration record read by the engine: the yield split in `[0, 1]`
/// and the low/high caps on the underlying's price ratio.
#[derive(Clone, Copy, Debug)]
pub struct RedeemLogicConfig {
    pub interest_split: Dec,
    pub cap_low: Dec,
    pub cap_high: Dec,
    pub owner: [u8; 32],
}

/// All twenty serialized fair values of an input are non-negative.
pub open spec fn input_valid(input: RedeemLogicExecuteInput) -> bool {
    (forall|i: int| 0 <= i < 10 ==> #[trigger] raw_nonneg(input.old_reserve_fair_value[i]))
        && (forall|i: int| 0 <= i < 10 ==> #[trigger] raw_nonneg(input.new_reserve_fair_value[i]))
}

fn raw_is_nonneg(b: &[u8; 16]) -> (r: bool)
    ensures
        r == raw_nonneg(*b),
{
    if b[3] < 128 {
        return true;
    }
    // The sign bit is set: the value is non-negative only if the mantissa
    // deserializes to zero — identically zero for a kept scale up to 28,
    // and anything the rounded division sends to zero for 29 to 31.
    let high_zero = b[5] == 0 && b[6] == 0 && b[7] == 0 && b[8] == 0 && b[9] == 0 && b[10] == 0
        && b[11] == 0 && b[12] == 0 && b[13] == 0 && b[14] == 0 && b[15] == 0;
    let r = if b[2] % 32 <= 28 {
        high_zero && b[4] == 0
    } else {
        high_zero && b[4] <= 4
    };
    proof {
        lemma_raw_nonneg_bytes(*b);
    }
    r
}

/// With the sign bit set, a serialization is non-negative exactly when its
/// mantissa is at most four and only its lowest byte carries it: four is
/// the largest mantissa the scale-29-to-31 rounding division sends to
/// zero, and a kept scale up to 28 keeps the mantissa as it is.
proof fn lemma_raw_nonneg_bytes(b: [u8; 16])
    ensures
        raw_scale(b) <= 28 ==> ((deser_mant(b) == 0) == (raw_mant(b) == 0)),
        raw_scale(b) > 28 ==> ((deser_mant(b) == 0) == (raw_mant(b) <= 4)),
        (raw_mant(b) == 0) == (b[4] == 0 && b[5] == 0 && b[6] == 0 && b[7] == 0 && b[8] == 0
            && b[9] == 0 && b[10] == 0 && b[11] == 0 && b[12] == 0 && b[13] == 0 && b[14] == 0
            && b[15] == 0),
        (raw_mant(b) <= 4) == (b[4] <= 4 && b[5] == 0 && b[6] == 0 && b[7] == 0 && b[8] == 0
            && b[9] == 0 && b[10] == 0 && b[11] == 0 && b[12] == 0 && b[13] == 0 && b[14] == 0
            && b[15] == 0),
{
    let m = raw_mant(b);
    if raw_scale(b) > 28 {
        let p: int = if raw_scale(b) == 29 {
            10
        } else if raw_scale(b) == 30 {
            100
        } else {
            1000
        };
        lemma_fundamental_div_mod(m as int, p);
        lemma_mod_bound(m as int, p);
        lemma_div_pos_is_pos(m as int, p);
        if m <= 4 {
            assert(m as int / p == 0) by (nonlinear_arith)
                requires
                    m as int == p * (m as int / p) + m as int % p,
                    0 <= m as int % p < p,
                    m as int / p >= 0,
                    m <= 4,
                    p >= 10,
            ;
            assert(m as int % p == m);
        } else {
            if m as int % p >= 5 {
            } else {
                assert(m as int / p >= 1) by (nonlinear_arith)
                    requires
                        m as int == p * (m as int / p) + m as int % p,
                        m as int % p < 5,
                        m as int / p >= 0,
                        m >= 5,
                        p >= 10,
                ;
            }
        }
    }
}

impl RedeemLogicExecuteInput {
    /// Rejects an input in which any serialized fair value is negative.
    pub fn is_valid(&self) -> (r: Result<(), RedeemLogicErrors>)
        ensures
            (r is Ok) == input_valid(*self),
            r is Err ==> r == Err::<(), RedeemLogicErrors>(RedeemLogicErrors::InvalidInput),
    {
        let mut i: usize = 0;
        while i < 10
            invariant
                0 <= i <= 10,
                forall|t: int| 0 <= t < i ==> #[trigger] raw_nonneg(self.old_reserve_fair_value[t]),
                forall|t: int| 0 <= t < i ==> #[trigger] raw_nonneg(self.new_reserve_fair_value[t]),
            decreases 10 - i,
        {
            let ok_old = raw_is_nonneg(&self.old_reserve_fair_value[i]);
            let ok_new = raw_is_nonneg(&self.new_reserve_fair_value[i]);
            if !ok_old || !ok_new {
                return Err(RedeemLogicErrors::InvalidInput);
            }
            i = i + 1;
        }
        Ok(())
    }
}

impl RedeemLogicConfig {
    /// The record's invariant: a well-formed split lying in `[0, 1]` and
    /// well-formed caps.
    pub open spec fn wf(self) -> bool {
        self.interest_split.wf() && 0 <= self.interest_split.val() <= p10(28)
            && self.cap_low.wf() && self.cap_high.wf()
    }

    /// Builds a configuration record, rejecting a split outside `[0, 1]`.
    pub fn new(interest_split: Dec, cap_low: Dec, cap_high: Dec, owner: [u8; 32]) -> (r: Result<
        RedeemLogicConfig,
        RedeemLogicErrors,
    >)
        requires
            interest_split.wf(),
            cap_low.wf(),
            cap_high.wf(),
        ensures
            (r is Ok) == (0 <= interest_split.val() <= p10(28)),
            r matches Ok(c) ==> c == (RedeemLogicConfig { interest_split, cap_low, cap_high, owner })
                && c.wf(),
            r is Err ==> r == Err::<RedeemLogicConfig, RedeemLogicErrors>(
                RedeemLogicErrors::InvalidInput,
            ),
    {
        let one = Dec::new(1, 0);
        proof {
            lemma_p10_pos(28);
        }
        if interest_split.is_neg() || !interest_split.le(&one) {
            return Err(RedeemLogicErrors::InvalidInput);
        }
        Ok(RedeemLogicConfig { interest_split, cap_low, cap_high, owner })
    }

    /// Replaces the three parameters, rejecting a split outside `[0, 1]`;
    /// the record is unchanged on rejection and the owner is kept.
    pub fn update(&mut self, interest_split: Dec, cap_low: Dec, cap_high: Dec) -> (r: Result<
        (),
        RedeemLogicErrors,
    >)
        requires
            interest_split.wf(),
            cap_low.wf(),
            cap_high.wf(),
        ensures
            (r is Ok) == (0 <= interest_split.val() <= p10(28)),
            r is Ok ==> *final(self) == (RedeemLogicConfig {
                interest_split,
                cap_low,
                cap_high,
                owner: old(self).owner,
            }) && final(self).wf(),
            r is Err ==> *final(self) == *old(self) && r == Err::<(), RedeemLogicErrors>(
                RedeemLogicErrors::InvalidInput,
            ),
    {
        let one = Dec::new(1, 0);
        proof {
            lemma_p10_pos(28);
        }
        if interest_split.is_neg() || !interest_split.le(&one) {
            return Err(RedeemLogicErrors::InvalidInput);
        }
        self.interest_split = interest_split;
        self.cap_low = cap_low;
        self.cap_high = cap_high;
        Ok(())
    }
}

/// The decimal one half, as the engine builds it.
pub open spec fn spec_half() -> Dec {
    Dec::of_u64_scaled(5, 1)
}

/// The decimal two.
pub open spec fn spec_two() -> Dec {
    Dec::of_u64_scaled(2, 0)
}

/// The decimal one.
pub open spec fn spec_one() -> Dec {
    Dec::of_u64_scaled(1, 0)
}

/// The decimal zero.
pub open spec fn spec_zero() -> Dec {
    Dec::of_u64_scaled(0, 0)
}

/// One leg of the constant-product impermanent-loss formula:
/// `base * (2 * sqrt(oul * x) - oul - x)`.
pub open spec fn spec_il_leg(base: Dec, oul: Dec, x: Dec) -> Option<Dec> {
    match mul_of(oul, x) {
        None => None,
        Some(prod) => match sqrt_of(prod) {
            None => None,
            Some(root) => match mul_of(spec_two(), root) {
                None => None,
                Some(twice) => match sub_of(twice, oul) {
                    None => None,
                    Some(t1) => match sub_of(t1, x) {
                        None => None,
                        Some(t2) => mul_of(base, t2),
                    },
                },
            },
        },
    }
}

/// The underlying's fair value at the capped price ratio:
/// `oul * clamp(nul / oul, cl, ch)`.
pub open spec fn spec_capped_ul(oul: Dec, nul: Dec, cl: Dec, ch: Dec) -> Option<Dec> {
    match div_of(nul, oul) {
        None => None,
        Some(ratio) => mul_of(oul, spec_max(cl, spec_min(ch, ratio))),
    }
}

/// The senior-relevant net value:
/// `olp + lp_delta + lp_il - cap_lp_il + adjusted accrual`, where a
/// negative accrual is absorbed in full and a positive one is shared by
/// `1 - interest_split`.
pub open spec fn spec_net_value(olp: Dec, oul: Dec, nlp: Dec, nul: Dec, split: Dec, cl: Dec, ch: Dec) -> Option<Dec> {
    match spec_capped_ul(oul, nul, cl, ch) {
        None => None,
        Some(cap_nul) => match div_of(olp, oul) {
            None => None,
            Some(q) => match mul_of(q, spec_half()) {
                None => None,
                Some(base) => match sub_of(nul, oul) {
                    None => None,
                    Some(dul) => match mul_of(base, dul) {
                        None => None,
                        Some(lp_delta) => match spec_il_leg(base, oul, nul) {
                            None => None,
                            Some(lp_il) => match spec_il_leg(base, oul, cap_nul) {
                                None => None,
                                Some(cap_lp_il) => match add_of(olp, lp_delta) {
                                    None => None,
                                    Some(h1) => match add_of(h1, lp_il) {
                                        None => None,
                                        Some(lp_no_accrued) => match sub_of(nlp, lp_no_accrued) {
                                            None => None,
                                            Some(accrued) => match (if accrued.val() < 0 {
                                                Some(accrued)
                                            } else {
                                                match sub_of(spec_one(), split) {
                                                    None => None,
                                                    Some(om) => mul_of(accrued, om),
                                                }
                                            }) {
                                                None => None,
                                                Some(adj) => match sub_of(lp_no_accrued, cap_lp_il) {
                                                    None => None,
                                                    Some(n1) => add_of(n1, adj),
                                                },
                                            },
                                        },
                                    },
                                },
                            },
                        },
                    },
                },
            },
        },
    }
}

/// Flooring to an integer and converting to `u64`, as the decimal
/// substrate's `floor` followed by `to_u64` behaves.
pub open spec fn spec_quantize(d: Dec) -> Option<u64> {
    let f = d.val() / p10(28);
    if d.neg {
        if f == 0 {
            Some(0u64)
        } else {
            None
        }
    } else if f < 0x1_0000_0000_0000_0000 {
        Some(f as u64)
    } else {
        None
    }
}

/// The whole redemption computation: `None` stands for a computation
/// error, `Some((senior, junior, fee))` for a successful call.
pub open spec fn spec_redeem(
    oq0: u64,
    oq1: u64,
    olp: Dec,
    oul: Dec,
    nlp: Dec,
    nul: Dec,
    split: Dec,
    cl: Dec,
    ch: Dec,
) -> Option<(u64, u64, u64)> {
    if oq0 == 0 || oq1 == 0 {
        Some((oq0, oq1, 0u64))
    } else if olp.val() == 0 || oul.val() == 0 || nlp.val() == 0 || nul.val() == 0 {
        Some((((oq0 + oq1) as u64), 0u64, 0u64))
    } else {
        let total = Dec::of_u64_scaled((oq0 + oq1) as u64, 0);
        match spec_net_value(olp, oul, nlp, nul, split, cl, ch) {
            None => None,
            Some(net) => match mul_of(Dec::of_u64_scaled(oq0, 0), net) {
                None => None,
                Some(num) => match div_of(num, nlp) {
                    None => None,
                    Some(sx) => {
                        let s_raw = spec_min(total, sx);
                        match sub_of(total, s_raw) {
                            None => None,
                            Some(jd) => {
                                let j_raw = spec_max(spec_zero(), jd);
                                match spec_quantize(s_raw) {
                                    None => None,
                                    Some(s_u) => match spec_quantize(j_raw) {
                                        None => None,
                                        Some(j_u) => Some(
                                            (s_u, j_u, ((oq0 + oq1 - s_u - j_u) as u64)),
                                        ),
                                    },
                                }
                            },
                        }
                    },
                },
            },
        }
    }
}

/// The executable result matches the spec-level outcome.
pub open spec fn result_matches(
    r: Result<RedeemLogicExecuteResult, RedeemLogicErrors>,
    s: Option<(u64, u64, u64)>,
) -> bool {
    match s {
        Some(t) => r matches Ok(v) && v.new_quantity[0] == t.0 && v.new_quantity[1] == t.1
            && v.fee_quantity == t.2,
        None => r == Err::<RedeemLogicExecuteResult, RedeemLogicErrors>(
            RedeemLogicErrors::MathError,
        ),
    }
}

/// Flooring to a whole number of units and converting to `u64`.
fn quantize(d: Dec) -> (r: Option<u64>)
    requires
        d.wf(),
    ensures
        r == spec_quantize(d),
        r matches Some(n) ==> n == d.val() / p10(28) && d.val() >= 0,
{
    let f = d.floor();
    let r = f.to_u64();
    proof {
        let e28 = p10(28);
        lemma_p10_pos(28);
        lemma_val_sign(f);
        lemma_val_sign(d);
        let q = d.val() / e28;
        assert(f.ulp() == e28);
        assert(f.val() == f.signed_mant() * e28);
        assert(f.val() == e28 * q);
        assert(f.signed_mant() == q) by (nonlinear_arith)
            requires
                f.signed_mant() * e28 == e28 * q,
                e28 >= 1,
        ;
        lemma_fundamental_div_mod(d.val(), e28);
        lemma_mod_bound(d.val(), e28);
        if q >= 0 {
            assert(d.val() >= 0) by (nonlinear_arith)
                requires
                    d.val() == e28 * q + d.val() % e28,
                    q >= 0,
                    e28 >= 1,
                    0 <= d.val() % e28,
            ;
        } else {
            assert(d.val() < 0) by (nonlinear_arith)
                requires
                    d.val() == e28 * q + d.val() % e28,
                    q <= -1,
                    e28 >= 1,
                    d.val() % e28 < e28,
            ;
        }
    }
    r
}

/// The two floored quantities stay within one unit of the whole:
/// `tq - 1 <= su + ju <= tq`. Here `svv` is the senior raw value, `jdv`
/// the junior raw value before clipping at zero (a faithful rounding of
/// `tq * 10^28 - svv`, representable as `m` units of `10^k`), and `su`,
/// `ju` the floors of the two raw values in whole units.
proof fn lemma_fee_unit(tq: int, svv: int, jdv: int, m: int, k: nat, su: int, ju: int)
    requires
        k <= 28,
        0 <= svv,
        svv <= tq * p10(28),
        jdv == m * p10(k),
        jdv - (tq * p10(28) - svv) < p10(k),
        (tq * p10(28) - svv) - jdv < p10(k),
        su == svv / p10(28),
        ju == (if jdv > 0 {
            jdv
        } else {
            0
        }) / p10(28),
    ensures
        0 <= su,
        0 <= ju,
        su + ju <= tq,
        tq - 1 <= su + ju,
{
    let e28 = p10(28);
    let u = p10(k);
    let w = p10((28 - k) as nat);
    lemma_p10_split(k, 28);
    let jpos: int = if jdv > 0 {
        jdv
    } else {
        0
    };
    lemma_div_pos_is_pos(svv, e28);
    lemma_fundamental_div_mod(svv, e28);
    lemma_mod_bound(svv, e28);
    lemma_div_pos_is_pos(jpos, e28);
    lemma_fundamental_div_mod(jpos, e28);
    lemma_mod_bound(jpos, e28);
    assert(tq >= 0) by (nonlinear_arith)
        requires
            tq * e28 >= 0,
            e28 >= 1,
    ;
    // Upper bound: the two raw values together stay under (tq + 1) units.
    assert(jpos < tq * e28 - svv + u);
    assert(e28 * su + e28 * ju <= svv + jpos);
    assert(e28 * (su + ju) < tq * e28 + e28) by (nonlinear_arith)
        requires
            e28 * su + e28 * ju <= svv + jpos,
            svv + jpos < tq * e28 + u,
            u <= e28,
    ;
    assert(su + ju <= tq) by (nonlinear_arith)
        requires
            e28 * (su + ju) < tq * e28 + e28,
            e28 >= 1,
    ;
    // Lower bound.
    if jdv <= 0 {
        assert(jpos == 0);
        assert(ju == 0) by {
            lemma_div_multiples_vanish(0, e28);
        };
        assert(svv > tq * e28 - u);
        assert((tq - 1) * e28 <= tq * e28 - u) by (nonlinear_arith)
            requires
                u <= e28,
        ;
        if tq - 1 >= 0 {
            lemma_div_is_ordered((tq - 1) * e28, svv, e28);
            lemma_div_multiples_vanish(tq - 1, e28);
            assert(e28 * (tq - 1) == (tq - 1) * e28) by (nonlinear_arith);
            assert(su >= tq - 1);
        }
    } else {
        let c = tq - su - 1;
        if c > 0 {
            assert(svv < e28 * (su + 1)) by (nonlinear_arith)
                requires
                    svv == e28 * su + svv % e28,
                    svv % e28 < e28,
            ;
            assert(jdv > c * e28 - u) by (nonlinear_arith)
                requires
                    jdv > tq * e28 - svv - u,
                    svv < e28 * (su + 1),
                    c == tq - su - 1,
            ;
            assert(c * e28 == (c * w) * u) by (nonlinear_arith)
                requires
                    e28 == u * w,
            ;
            assert(m >= c * w) by (nonlinear_arith)
                requires
                    m * u > (c * w) * u - u,
                    u >= 1,
            ;
            assert(jdv >= c * e28) by (nonlinear_arith)
                requires
                    m >= c * w,
                    jdv == m * u,
                    c * e28 == (c * w) * u,
                    u >= 1,
            ;
            lemma_div_is_ordered(c * e28, jdv, e28);
            lemma_div_multiples_vanish(c, e28);
            assert(e28 * c == c * e28) by (nonlinear_arith);
            assert(ju >= c);
        }
    }
}

/// One leg of the impermanent-loss computation, as `spec_il_leg` states it.
fn il_leg(base: Dec, oul: Dec, x: Dec) -> (r: Result<Dec, RedeemLogicErrors>)
    requires
        base.wf(),
        oul.wf(),
        x.wf(),
    ensures
        match spec_il_leg(base, oul, x) {
            Some(v) => r == Ok::<Dec, RedeemLogicErrors>(v) && v.wf(),
            None => r == Err::<Dec, RedeemLogicErrors>(RedeemLogicErrors::MathError),
        },
{
    let two = Dec::new(2, 0);
    let prod = match oul.checked_mul(&x) {
        Some(v) => v,
        None => return Err(RedeemLogicErrors::MathError),
    };
    let root = match prod.sqrt() {
        Some(v) => v,
        None => return Err(RedeemLogicErrors::MathError),
    };
    let twice = match two.checked_mul(&root) {
        Some(v) => v,
        None => return Err(RedeemLogicErrors::MathError),
    };
    let t1 = match twice.checked_sub(&oul) {
        Some(v) => v,
        None => return Err(RedeemLogicErrors::MathError),
    };
    let t2 = match t1.checked_sub(&x) {
        Some(v) => v,
        None => return Err(RedeemLogicErrors::MathError),
    };
    match base.checked_mul(&t2) {
        Some(v) => Ok(v),
        None => Err(RedeemLogicErrors::MathError),
    }
}

/// Re-divides the two class balances after a fair-value move.
///
/// The result is pinned by `spec_redeem`; on top of that, every successful
/// call conserves the total quantity up to a fee of at most one unit, an
/// empty class returns the balances unchanged, and a zero fair value
/// collapses all value to the senior class.
pub fn execute_plugin(
    old_quantity: [u64; 2],
    old_lp_fair_value: Dec,
    old_ul_fair_value: Dec,
    new_lp_fair_value: Dec,
    new_ul_fair_value: Dec,
    interest_split: Dec,
    cap_low: Dec,
    cap_high: Dec,
) -> (result: Result<RedeemLogicExecuteResult, RedeemLogicErrors>)
    requires
        old_quantity[0] + old_quantity[1] <= u64::MAX,
        old_lp_fair_value.wf(),
        old_lp_fair_value.val() >= 0,
        old_ul_fair_value.wf(),
        old_ul_fair_value.val() >= 0,
        new_lp_fair_value.wf(),
        new_lp_fair_value.val() >= 0,
        new_ul_fair_value.wf(),
        new_ul_fair_value.val() >= 0,
        interest_split.wf(),
        0 <= interest_split.val() <= p10(28),
        cap_low.wf(),
        cap_high.wf(),
    ensures
        result_matches(
            result,
            spec_redeem(
                old_quantity[0],
                old_quantity[1],
                old_lp_fair_value,
                old_ul_fair_value,
                new_lp_fair_value,
                new_ul_fair_value,
                interest_split,
                cap_low,
                cap_high,
            ),
        ),
        result matches Ok(v) ==> (v.new_quantity[0] + v.new_quantity[1] + v.fee_quantity
            == old_quantity[0] + old_quantity[1] && v.fee_quantity <= 1),
        old_quantity[0] == 0 || old_quantity[1] == 0 ==> (result matches Ok(v)
            && v.new_quantity[0] == old_quantity[0] && v.new_quantity[1] == old_quantity[1]
            && v.fee_quantity == 0),
        old_quantity[0] != 0 && old_quantity[1] != 0 && (old_lp_fair_value.val() == 0
            || old_ul_fair_value.val() == 0 || new_lp_fair_value.val() == 0
            || new_ul_fair_value.val() == 0) ==> (result matches Ok(v) && v.new_quantity[0]
            == old_quantity[0] + old_quantity[1] && v.new_quantity[1] == 0 && v.fee_quantity == 0),
{
    let oq0 = old_quantity[0];
    let oq1 = old_quantity[1];

    // One side only: no redemption math is meaningful when a class is empty.
    if oq0 == 0 || oq1 == 0 {
        return Ok(RedeemLogicExecuteResult { new_quantity: old_quantity, fee_quantity: 0 });
    }
    // Unusable pricing: all value collapses to the senior class.
    if old_lp_fair_value.is_zero() || old_ul_fair_value.is_zero() || new_lp_fair_value.is_zero()
        || new_ul_fair_value.is_zero() {
        let t = oq0 + oq1;
        return Ok(RedeemLogicExecuteResult { new_quantity: [t, 0], fee_quantity: 0 });
    }
    let tsum = oq0 + oq1;
    let total = Dec::new(tsum, 0);
    let half = Dec::new(5, 1);
    let one = Dec::new(1, 0);
    let zero = Dec::new(0, 0);

    // Capped underlying price ratio.
    let ratio = match new_ul_fair_value.checked_div(&old_ul_fair_value) {
        Some(v) => v,
        None => return Err(RedeemLogicErrors::MathError),
    };
    let capped = cap_low.max(cap_high.min(ratio));
    let cap_new_ul_fair_value = match old_ul_fair_value.checked_mul(&capped) {
        Some(v) => v,
        None => return Err(RedeemLogicErrors::MathError),
    };

    // Half of the LP share is exposed to the underlying asset.
    let lp_over_ul = match old_lp_fair_value.checked_div(&old_ul_fair_value) {
        Some(v) => v,
        None => return Err(RedeemLogicErrors::MathError),
    };
    let base_in_lp = match lp_over_ul.checked_mul(&half) {
        Some(v) => v,
        None => return Err(RedeemLogicErrors::MathError),
    };
    let delta_ul = match new_ul_fair_value.checked_sub(&old_ul_fair_value) {
        Some(v) => v,
        None => return Err(RedeemLogicErrors::MathError),
    };
    let lp_delta = match base_in_lp.checked_mul(&delta_ul) {
        Some(v) => v,
        None => return Err(RedeemLogicErrors::MathError),
    };

    // Impermanent loss at the actual and at the capped price ratio.
    let lp_il = match il_leg(base_in_lp, old_ul_fair_value, new_ul_fair_value) {
        Ok(v) => v,
        Err(e) => return Err(e),
    };
    let cap_lp_il = match il_leg(base_in_lp, old_ul_fair_value, cap_new_ul_fair_value) {
        Ok(v) => v,
        Err(e) => return Err(e),
    };

    // Modeled value with no yield accrual, and the accrual itself.
    let h1 = match old_lp_fair_value.checked_add(&lp_delta) {
        Some(v) => v,
        None => return Err(RedeemLogicErrors::MathError),
    };
    let lp_no_accrued = match h1.checked_add(&lp_il) {
        Some(v) => v,
        None => return Err(RedeemLogicErrors::MathError),
    };
    let accrued = match new_lp_fair_value.checked_sub(&lp_no_accrued) {
        Some(v) => v,
        None => return Err(RedeemLogicErrors::MathError),
    };

    // Senior absorbs negative accrual in full, shares positive accrual by
    // one minus the interest split.
    let adj = if accrued.is_neg() {
        accrued
    } else {
        let om = match one.checked_sub(&interest_split) {
            Some(v) => v,
            None => return Err(RedeemLogicErrors::MathError),
        };
        match accrued.checked_mul(&om) {
            Some(v) => v,
            None => return Err(RedeemLogicErrors::MathError),
        }
    };
    let n1 = match lp_no_accrued.checked_sub(&cap_lp_il) {
        Some(v) => v,
        None => return Err(RedeemLogicErrors::MathError),
    };
    let net_value = match n1.checked_add(&adj) {
        Some(v) => v,
        None => return Err(RedeemLogicErrors::MathError),
    };

    // Senior economic quantity, bounded above by the total.
    let oq0_dec = Dec::new(oq0, 0);
    let num = match oq0_dec.checked_mul(&net_value) {
        Some(v) => v,
        None => return Err(RedeemLogicErrors::MathError),
    };
    let sx = match num.checked_div(&new_lp_fair_value) {
        Some(v) => v,
        None => return Err(RedeemLogicErrors::MathError),
    };
    let senior_raw = total.min(sx);
    let jd = match total.checked_sub(&senior_raw) {
        Some(v) => v,
        None => return Err(RedeemLogicErrors::MathError),
    };
    let junior_raw = zero.max(jd);

    // Quantization.
    let s_u = match quantize(senior_raw) {
        Some(v) => v,
        None => return Err(RedeemLogicErrors::MathError),
    };
    let j_u = match quantize(junior_raw) {
        Some(v) => v,
        None => return Err(RedeemLogicErrors::MathError),
    };
    proof {
        lemma_p10_pos(28);
        lemma_val_sign(jd);
        lemma_fee_unit(
            tsum as int,
            senior_raw.val(),
            jd.val(),
            jd.signed_mant(),
            (28 - jd.scale) as nat,
            s_u as int,
            j_u as int,
        );
    }
    let fee_quantity = tsum - s_u - j_u;
    Ok(RedeemLogicExecuteResult { new_quantity: [s_u, j_u], fee_quantity })
}

/// The whole redemption instruction on wire-format data: the input is
/// validated, the first two fair values of each sample are deserialized,
/// and the engine is run against the configuration record.
///
/// An invalid input is rejected exactly when a serialized fair value is
/// negative; every valid one flows to `execute_plugin`, whose outcome on
/// the deserialized values is pinned by `spec_redeem`.
pub fn execute(input: &RedeemLogicExecuteInput, config: &RedeemLogicConfig) -> (result: Result<
    RedeemLogicExecuteResult,
    RedeemLogicErrors,
>)
    requires
        config.wf(),
        input.old_quantity[0] + input.old_quantity[1] <= u64::MAX,
    ensures
        (result == Err::<RedeemLogicExecuteResult, RedeemLogicErrors>(
            RedeemLogicErrors::InvalidInput,
        )) == !input_valid(*input),
        input_valid(*input) ==> result_matches(
            result,
            spec_redeem(
                input.old_quantity[0],
                input.old_quantity[1],
                spec_deserialized(input.old_reserve_fair_value[0]),
                spec_deserialized(input.old_reserve_fair_value[1]),
                spec_deserialized(input.new_reserve_fair_value[0]),
                spec_deserialized(input.new_reserve_fair_value[1]),
                config.interest_split,
                config.cap_low,
                config.cap_high,
            ),
        ),
        result matches Ok(v) ==> (v.new_quantity[0] + v.new_quantity[1] + v.fee_quantity
            == input.old_quantity[0] + input.old_quantity[1] && v.fee_quantity <= 1),
        input_valid(*input) && (input.old_quantity[0] == 0 || input.old_quantity[1] == 0) ==> (
        result matches Ok(v) && v.new_quantity[0] == input.old_quantity[0] && v.new_quantity[1]
            == input.old_quantity[1] && v.fee_quantity == 0),
{
    if let Err(e) = input.is_valid() {
        return Err(e);
    }
    proof {
        lemma_deserialized_props(input.old_reserve_fair_value[0]);
        lemma_deserialized_props(input.old_reserve_fair_value[1]);
        lemma_deserialized_props(input.new_reserve_fair_value[0]);
        lemma_deserialized_props(input.new_reserve_fair_value[1]);
    }
    let old_lp_fair_value = Dec::from_bytes(&input.old_reserve_fair_value[0]);
    let old_ul_fair_value = Dec::from_bytes(&input.old_reserve_fair_value[1]);
    let new_lp_fair_value = Dec::from_bytes(&input.new_reserve_fair_value[0]);
    let new_ul_fair_value = Dec::from_bytes(&input.new_reserve_fair_value[1]);
    let result = execute_plugin(
        input.old_quantity,
        old_lp_fair_value,
        old_ul_fair_value,
        new_lp_fair_value,
        new_ul_fair_value,
        config.interest_split,
        config.cap_low,
        config.cap_high,
    );
    proof {
        assert(!(result == Err::<RedeemLogicExecuteResult, RedeemLogicErrors>(
            RedeemLogicErrors::InvalidInput,
        )));
    }
    result
}

/// The eight little-endian bytes of a 64-bit quantity.
pub open spec fn spec_le64(x: u64) -> Seq<u8> {
    seq![
        (x as int % 256) as u8,
        (x as int / 0x100 % 256) as u8,
        (x as int / 0x1_0000 % 256) as u8,
        (x as int / 0x100_0000 % 256) as u8,
        (x as int / 0x1_0000_0000 % 256) as u8,
        (x as int / 0x100_0000_0000 % 256) as u8,
        (x as int / 0x1_0000_0000_0000 % 256) as u8,
        (x as int / 0x100_0000_0000_0000 % 256) as u8,
    ]
}

/// The serialized result record as the settlement layer posts it: the two
/// new quantities and the fee, each as eight little-endian bytes.
pub open spec fn spec_result_bytes(r: RedeemLogicExecuteResult) -> Seq<u8> {
    spec_le64(r.new_quantity[0]) + spec_le64(r.new_quantity[1]) + spec_le64(r.fee_quantity)
}

fn push_le64(out: &mut Vec<u8>, x: u64)
    ensures
        final(out)@ == old(out)@ + spec_le64(x),
{
    out.push((x % 256) as u8);
    out.push((x / 0x100 % 256) as u8);
    out.push((x / 0x1_0000 % 256) as u8);
    out.push((x / 0x100_0000 % 256) as u8);
    out.push((x / 0x1_0000_0000 % 256) as u8);
    out.push((x / 0x100_0000_0000 % 256) as u8);
    out.push((x / 0x1_0000_0000_0000 % 256) as u8);
    out.push((x / 0x100_0000_0000_0000 % 256) as u8);
    proof {
        assert(out@ =~= old(out)@ + spec_le64(x));
    }
}

/// Serializes a result record: each of the three quantities as eight
/// little-endian bytes, the layout the original return data carries.
pub fn serialize_result(result: &RedeemLogicExecuteResult) -> (out: Vec<u8>)
    ensures
        out@ == spec_result_bytes(*result),
{
    let mut out: Vec<u8> = Vec::new();
    push_le64(&mut out, result.new_quantity[0]);
    push_le64(&mut out, result.new_quantity[1]);
    push_le64(&mut out, result.fee_quantity);
    proof {
        assert(out@ =~= spec_result_bytes(*result));
    }
    out
}

} // verus!
