//! The fee schedule: the rate charged on a swap and its split between the
//! pool and the beneficiary.
use vstd::prelude::*;
use crate::curve::max_u128;

verus! {

/// Fee rate `(pool_numerator + beneficiary_numerator) / denominator`.
#[derive(Clone, Copy, Debug)]
pub struct FeeParams {
    pub denominator: u128,
    pub pool_numerator: u128,
    pub beneficiary_numerator: u128,
}

impl FeeParams {
    pub fn new(denominator: u128, pool_numerator: u128, beneficiary_numerator: u128) -> (r: Self)
        ensures
            r.denominator == denominator,
            r.pool_numerator == pool_numerator,
            r.beneficiary_numerator == beneficiary_numerator,
    {
        FeeParams { denominator, pool_numerator, beneficiary_numerator }
    }

    /// Sum of the two numerators.
    pub open spec fn numerator(&self) -> int {
        self.pool_numerator + self.beneficiary_numerator
    }

    /// A positive denominator that the numerators' sum does not exceed.
    pub open spec fn wf(&self) -> bool {
        self.denominator > 0 && self.numerator() <= self.denominator
    }

    /// Whether the parameters describe a rate of at most one.
    pub fn is_valid(&self) -> (r: bool)
        ensures
            r == self.wf(),
    {
        self.denominator > 0 && self.pool_numerator <= self.denominator
            && self.beneficiary_numerator <= self.denominator - self.pool_numerator
    }

    /// The fee on a gross amount, rounded down.
    pub open spec fn fee_spec(&self, gross: int) -> Option<int> {
        if gross * self.numerator() <= max_u128() {
            Some(gross * self.numerator() / self.denominator as int)
        } else {
            None
        }
    }

    /// The fee on `gross`, `gross * numerator / denominator` rounded down;
    /// `None` where the product leaves `u128`.
    pub fn fee_on(&self, gross: u128) -> (r: Option<u128>)
        requires
            self.wf(),
        ensures
            r matches Some(f) ==> self.fee_spec(gross as int) == Some(f as int) && f <= gross,
            r is None <==> self.fee_spec(gross as int) is None,
    {
        let num = self.pool_numerator + self.beneficiary_numerator;
        match gross.checked_mul(num) {
            Some(p) => {
                let f = p / self.denominator;
                proof {
                    let g = gross as int;
                    let nn = num as int;
                    let dd = self.denominator as int;
                    assert(g * nn <= g * dd) by (nonlinear_arith)
                        requires
                            nn <= dd,
                            g >= 0,
                    ;
                    assert((g * nn) / dd <= g) by (nonlinear_arith)
                        requires
                            g * nn <= g * dd,
                            dd > 0,
                            g >= 0,
                    ;
                }
                Some(f)
            },
            None => None,
        }
    }

    /// The gross amount whose fee leaves `net`: `net * d / (d - numerator)`
    /// rounded up, so the fee is never under-charged.
    pub open spec fn gross_spec(&self, net: int) -> Option<int> {
        let q = self.denominator - self.numerator();
        let nd = net * self.denominator;
        if q > 0 && nd <= max_u128() && nd + q - 1 <= max_u128() {
            Some((nd + q - 1) / q)
        } else {
            None
        }
    }

    /// The gross amount that must leave the pool so that `net` reaches the
    /// trader after the fee; `None` for a rate of one or where it leaves `u128`.
    pub fn gross_up(&self, net: u128) -> (r: Option<u128>)
        requires
            self.wf(),
        ensures
            r matches Some(g) ==> self.gross_spec(net as int) == Some(g as int) && g >= net && (g
                - net) * self.denominator >= g * self.numerator(),
            r is None <==> self.gross_spec(net as int) is None,
    {
        let num = self.pool_numerator + self.beneficiary_numerator;
        let q = self.denominator - num;
        if q == 0 {
            return None;
        }
        let nd = match net.checked_mul(self.denominator) {
            Some(v) => v,
            None => return None,
        };
        let top = match nd.checked_add(q - 1) {
            Some(v) => v,
            None => return None,
        };
        let g = top / q;
        proof {
            let n = net as int;
            let dd = self.denominator as int;
            let qq = q as int;
            let gg = g as int;
            let t = top as int;
            assert(gg * qq >= n * dd) by (nonlinear_arith)
                requires
                    t == n * dd + qq - 1,
                    gg == t / qq,
                    qq > 0,
            ;
            assert(gg >= n) by (nonlinear_arith)
                requires
                    gg * qq >= n * dd,
                    qq <= dd,
                    qq > 0,
                    n >= 0,
                    gg >= 0,
            ;
            assert((gg - n) * dd >= gg * (dd - qq)) by (nonlinear_arith)
                requires
                    gg * qq >= n * dd,
            ;
        }
        Some(g)
    }

    /// The share of a fee that the pool keeps; the beneficiary has the rest.
    pub open spec fn pool_share_spec(&self, fee: int) -> Option<int> {
        if self.numerator() == 0 {
            Some(0)
        } else if fee * self.pool_numerator <= max_u128() {
            Some(fee * self.pool_numerator / self.numerator())
        } else {
            None
        }
    }

    /// Splits `fee` into the pool's share, `fee * pool_numerator / numerator`
    /// rounded down, and the beneficiary's share, the remainder; `None` where
    /// the product leaves `u128`.
    pub fn split_fee(&self, fee: u128) -> (r: Option<(u128, u128)>)
        requires
            self.wf(),
        ensures
            r matches Some((p, b)) ==> self.pool_share_spec(fee as int) == Some(p as int) && b
                == fee - p,
            r is None <==> self.pool_share_spec(fee as int) is None,
    {
        let num = self.pool_numerator + self.beneficiary_numerator;
        if num == 0 {
            return Some((0, fee));
        }
        match fee.checked_mul(self.pool_numerator) {
            Some(p) => {
                let share = p / num;
                proof {
                    let f = fee as int;
                    let pn = self.pool_numerator as int;
                    let nn = num as int;
                    assert(f * pn <= f * nn) by (nonlinear_arith)
                        requires
                            pn <= nn,
                            f >= 0,
                    ;
                    assert((f * pn) / nn <= f) by (nonlinear_arith)
                        requires
                            f * pn <= f * nn,
                            nn > 0,
                            f >= 0,
                    ;
                }
                Some((share, fee - share))
            },
            None => None,
        }
    }
}

/// For valid parameters, the two shares that `split_fee` gives for a fee add
/// up to that fee exactly, and neither exceeds it.
pub proof fn lemma_fee_split_exact(params: FeeParams, fee: u128)
    requires
        params.wf(),
        params.pool_share_spec(fee as int) is Some,
    ensures
        ({
            let pool = params.pool_share_spec(fee as int).unwrap();
            let beneficiary = fee - pool;
            0 <= pool <= fee && 0 <= beneficiary <= fee && pool + beneficiary == fee
        }),
{
    if params.numerator() > 0 {
        let f = fee as int;
        let pn = params.pool_numerator as int;
        let nn = params.numerator();
        assert(f * pn <= f * nn) by (nonlinear_arith)
            requires
                pn <= nn,
                f >= 0,
        ;
        assert((f * pn) / nn <= f) by (nonlinear_arith)
            requires
                f * pn <= f * nn,
                nn > 0,
                f >= 0,
        ;
        assert((f * pn) / nn >= 0) by (nonlinear_arith)
            requires
                f * pn >= 0,
                nn > 0,
        ;
    }
}

} // verus!
