//! Unsigned 256-bit intermediates, as two `u128` limbs, for the products that
//! the invariant solver forms before dividing back down.
use vstd::prelude::*;
use vstd::arithmetic::div_mod::lemma_fundamental_div_mod;

verus! {

/// `2^64`.
pub open spec fn half() -> int {
    0x1_0000_0000_0000_0000
}

/// `2^128`.
pub open spec fn limb() -> int {
    u128::MAX + 1
}

proof fn lemma_expand(x1: int, x0: int, y1: int, y0: int, b: int)
    ensures
        (b * x1 + x0) * (b * y1 + y0) == (x1 * y1) * (b * b) + (x0 * y1 + x1 * y0) * b + x0 * y0,
{
    vstd::arithmetic::mul::lemma_mul_is_distributive_add(b * x1 + x0, b * y1, y0);
    vstd::arithmetic::mul::lemma_mul_is_distributive_add_other_way(b * y1, b * x1, x0);
    vstd::arithmetic::mul::lemma_mul_is_distributive_add_other_way(y0, b * x1, x0);
    assert((b * x1) * (b * y1) == (x1 * y1) * (b * b)) by (nonlinear_arith);
    assert(x0 * (b * y1) == (x0 * y1) * b) by (nonlinear_arith);
    assert((b * x1) * y0 == (x1 * y0) * b) by (nonlinear_arith);
    assert((x0 * y1 + x1 * y0) * b == (x0 * y1) * b + (x1 * y0) * b) by (nonlinear_arith);
    assert(x0 * y0 == y0 * x0) by (nonlinear_arith);
}

/// `hi * 2^128 + lo`.
#[derive(Clone, Copy, Debug)]
pub struct Wide {
    pub hi: u128,
    pub lo: u128,
}

impl Wide {
    pub open spec fn value(&self) -> int {
        self.hi * limb() + self.lo
    }

    /// The full product of two `u128` values.
    pub fn mul(a: u128, b: u128) -> (r: Wide)
        ensures
            r.value() == a * b,
    {
        let h: u128 = 0x1_0000_0000_0000_0000;
        let a1 = a / h;
        let a0 = a % h;
        let b1 = b / h;
        let b0 = b % h;
        let ghost bb: int = half();
        let ghost (ai, bi, a1i, a0i, b1i, b0i) = (
            a as int,
            b as int,
            a1 as int,
            a0 as int,
            b1 as int,
            b0 as int,
        );
        proof {
            lemma_fundamental_div_mod(ai, bb);
            lemma_fundamental_div_mod(bi, bb);
            assert(a1i < bb && b1i < bb) by (nonlinear_arith)
                requires
                    ai == bb * a1i + a0i,
                    bi == bb * b1i + b0i,
                    0 <= a0i,
                    0 <= b0i,
                    ai < bb * bb,
                    bi < bb * bb,
                    bb > 0,
            ;
            assert(a1i * b1i < bb * bb && a0i * b0i < bb * bb && a0i * b1i < bb * bb && a1i * b0i
                < bb * bb) by (nonlinear_arith)
                requires
                    0 <= a1i < bb,
                    0 <= b1i < bb,
                    0 <= a0i < bb,
                    0 <= b0i < bb,
            ;
        }
        let p00 = a0 * b0;
        let p01 = a0 * b1;
        let p10 = a1 * b0;
        let p11 = a1 * b1;
        let m = p01 % h + p10 % h + p00 / h;
        let lo = p00 % h + (m % h) * h;
        let ghost (q00, q01, q10, q11, mi, loi) = (
            p00 as int,
            p01 as int,
            p10 as int,
            p11 as int,
            m as int,
            lo as int,
        );
        let ghost hi_i = q11 + q01 / bb + q10 / bb + mi / bb;
        proof {
            lemma_fundamental_div_mod(q00, bb);
            lemma_fundamental_div_mod(q01, bb);
            lemma_fundamental_div_mod(q10, bb);
            lemma_fundamental_div_mod(mi, bb);
            assert(ai == bb * a1i + a0i);
            assert(bi == bb * b1i + b0i);
            assert(ai * bi == (bb * a1i + a0i) * (bb * b1i + b0i)) by (nonlinear_arith)
                requires
                    ai == bb * a1i + a0i,
                    bi == bb * b1i + b0i,
            ;
            lemma_expand(a1i, a0i, b1i, b0i, bb);
            assert(ai * bi == q11 * (bb * bb) + (q01 + q10) * bb + q00);
            let d01 = q01 / bb;
            let r01 = q01 % bb;
            let d10 = q10 / bb;
            let r10 = q10 % bb;
            let d00 = q00 / bb;
            let r00 = q00 % bb;
            let dm = mi / bb;
            let rm = mi % bb;
            let bsq = bb * bb;
            assert(q01 * bb == d01 * bsq + r01 * bb) by (nonlinear_arith)
                requires
                    q01 == bb * d01 + r01,
                    bsq == bb * bb,
            ;
            assert(q10 * bb == d10 * bsq + r10 * bb) by (nonlinear_arith)
                requires
                    q10 == bb * d10 + r10,
                    bsq == bb * bb,
            ;
            assert(mi * bb == dm * bsq + rm * bb) by (nonlinear_arith)
                requires
                    mi == bb * dm + rm,
                    bsq == bb * bb,
            ;
            assert(mi * bb == r01 * bb + r10 * bb + d00 * bb) by (nonlinear_arith)
                requires
                    mi == r01 + r10 + d00,
            ;
            assert(hi_i * bsq == q11 * bsq + d01 * bsq + d10 * bsq + dm * bsq) by (nonlinear_arith)
                requires
                    hi_i == q11 + d01 + d10 + dm,
            ;
            assert((q01 + q10) * bb == q01 * bb + q10 * bb) by (nonlinear_arith);
            assert(loi == r00 + rm * bb);
            assert(q00 == d00 * bb + r00) by (nonlinear_arith)
                requires
                    q00 == bb * d00 + r00,
            ;
            assert(hi_i * bsq + loi == ai * bi);
            assert(hi_i < bb * bb) by (nonlinear_arith)
                requires
                    hi_i * (bb * bb) + loi == ai * bi,
                    loi >= 0,
                    0 <= ai < bb * bb,
                    0 <= bi < bb * bb,
                    bb > 0,
            ;
        }
        let hi = p11 + p01 / h + p10 / h + m / h;
        Wide { hi, lo }
    }

    /// The sum, or `None` at or beyond `2^256`.
    pub fn add(&self, o: &Wide) -> (r: Option<Wide>)
        ensures
            match r {
                Some(w) => w.value() == self.value() + o.value(),
                None => self.value() + o.value() >= limb() * limb(),
            },
    {
        let (lo, carry) = match self.lo.checked_add(o.lo) {
            Some(v) => (v, 0u128),
            None => (self.lo - (u128::MAX - o.lo) - 1, 1u128),
        };
        let hi = match self.hi.checked_add(o.hi) {
            Some(v) => match v.checked_add(carry) {
                Some(w) => w,
                None => {
                    assert(self.value() + o.value() >= limb() * limb()) by (nonlinear_arith)
                        requires
                            self.hi + o.hi + carry >= limb(),
                            self.lo + o.lo + 0 >= carry * limb(),
                            self.lo >= 0,
                            o.lo >= 0,
                            self.value() == self.hi * limb() + self.lo,
                            o.value() == o.hi * limb() + o.lo,
                    ;
                    return None;
                },
            },
            None => {
                assert(self.value() + o.value() >= limb() * limb()) by (nonlinear_arith)
                    requires
                        self.hi + o.hi >= limb(),
                        self.lo >= 0,
                        o.lo >= 0,
                        self.value() == self.hi * limb() + self.lo,
                        o.value() == o.hi * limb() + o.lo,
                ;
                return None;
            },
        };
        assert(hi * limb() + lo == self.value() + o.value()) by (nonlinear_arith)
            requires
                hi == self.hi + o.hi + carry,
                lo + carry * limb() == self.lo + o.lo,
                self.value() == self.hi * limb() + self.lo,
                o.value() == o.hi * limb() + o.lo,
        ;
        Some(Wide { hi, lo })
    }

    /// The product with a `u128`, or `None` at or beyond `2^256`.
    pub fn mul_small(&self, b: u128) -> (r: Option<Wide>)
        ensures
            match r {
                Some(w) => w.value() == self.value() * b,
                None => self.value() * b >= limb() * limb(),
            },
    {
        let low = Wide::mul(self.lo, b);
        let top = match self.hi.checked_mul(b) {
            Some(v) => v,
            None => {
                assert(self.value() * b >= limb() * limb()) by (nonlinear_arith)
                    requires
                        self.hi * b >= limb(),
                        self.lo * b >= 0,
                        self.value() == self.hi * limb() + self.lo,
                ;
                return None;
            },
        };
        let r = low.add(&Wide { hi: top, lo: 0 });
        assert(self.value() * b == low.value() + top * limb()) by (nonlinear_arith)
            requires
                self.value() == self.hi * limb() + self.lo,
                low.value() == self.lo * b,
                top == self.hi * b,
        ;
        r
    }

    /// The value as a `u128`, or `None` where it does not fit.
    pub fn to_u128(&self) -> (r: Option<u128>)
        ensures
            match r {
                Some(v) => v == self.value(),
                None => self.value() > u128::MAX,
            },
    {
        if self.hi == 0 {
            Some(self.lo)
        } else {
            assert(self.value() > u128::MAX) by (nonlinear_arith)
                requires
                    self.hi >= 1,
                    self.lo >= 0,
                    self.value() == self.hi * limb() + self.lo,
            ;
            None
        }
    }

    /// The quotient by a positive `u128`, rounded down.
    pub fn div(&self, d: u128) -> (r: Wide)
        requires
            d > 0,
        ensures
            r.value() == self.value() / d as int,
    {
        let qh = self.hi / d;
        let mut rem = self.hi % d;
        let mut q: u128 = 0;
        let mut rest: u128 = self.lo;
        let mut mask: u128 = 0x8000_0000_0000_0000_0000_0000_0000_0000;
        let mut m: u32 = 128;
        let ghost x: int = rem * limb() + self.lo;
        let ghost p: int = limb();
        proof {
            assert(x < d * limb()) by (nonlinear_arith)
                requires
                    x == rem * limb() + self.lo,
                    rem < d,
                    self.lo < limb(),
            ;
            vstd::arithmetic::power2::lemma2_to64();
            vstd::arithmetic::power2::lemma_pow2_adds(64, 64);
        }
        while m > 0
            invariant
                0 <= m <= 128,
                d > 0,
                p == vstd::arithmetic::power2::pow2(m as nat),
                m > 0 ==> mask * 2 == p,
                rem < d,
                rest < p,
                x == (q * d + rem) * p + rest,
                x < d * limb(),
            decreases m,
        {
            proof {
                vstd::arithmetic::power2::lemma_pow2_unfold(m as nat);
                vstd::arithmetic::power2::lemma_pow2_pos((m - 1) as nat);
            }
            let ghost hp: int = p / 2;
            let ghost old_rest = rest as int;
            let bit: u128 = if rest >= mask { 1 } else { 0 };
            rest = rest - bit * mask;
            let ghost q0 = q as int;
            let ghost r0 = rem as int;
            let ghost qn: int;
            let carry: bool = rem >= 0x8000_0000_0000_0000_0000_0000_0000_0000 || rem + rem + bit >= d;
            if rem >= 0x8000_0000_0000_0000_0000_0000_0000_0000 || rem + rem + bit >= d {
                rem = if rem >= d - rem {
                    rem - (d - rem) + bit
                } else {
                    rem + rem + bit - d
                };
                proof {
                    qn = 2 * q0 + 1;
                }
            } else {
                rem = rem + rem + bit;
                proof {
                    qn = 2 * q0;
                }
            }
            proof {
                assert(qn * d + rem == 2 * q0 * d + 2 * r0 + bit) by (nonlinear_arith)
                    requires
                        qn == 2 * q0 + 1 || qn == 2 * q0,
                        qn == 2 * q0 + 1 ==> rem == 2 * r0 + bit - d,
                        qn == 2 * q0 ==> rem == 2 * r0 + bit,
                ;
                assert(x == (qn * d + rem) * hp + rest) by (nonlinear_arith)
                    requires
                        x == (q0 * d + r0) * (2 * hp) + old_rest,
                        old_rest == rest + bit * hp,
                        qn * d + rem == 2 * q0 * d + 2 * r0 + bit,
                ;
                assert(qn * d * hp <= x) by (nonlinear_arith)
                    requires
                        x == (qn * d + rem) * hp + rest,
                        rem >= 0,
                        rest >= 0,
                        hp >= 0,
                ;
                assert(qn * hp < limb()) by (nonlinear_arith)
                    requires
                        qn * d * hp <= x,
                        x < d * limb(),
                        d > 0,
                ;
                assert(qn < limb()) by (nonlinear_arith)
                    requires
                        qn * hp < limb(),
                        hp >= 1,
                        qn >= 0,
                ;
            }
            q = if carry {
                2 * q + 1
            } else {
                2 * q
            };
            m = m - 1;
            proof {
                p = hp;
                if m > 0 {
                    vstd::arithmetic::power2::lemma_pow2_unfold(m as nat);
                }
            }
            if m > 0 {
                mask = mask / 2;
            }
        }
        proof {
            assert(p == 1) by {
                vstd::arithmetic::power2::lemma2_to64();
            }
            assert(rest == 0);
            assert(x == q * d + rem) by (nonlinear_arith)
                requires
                    x == (q * d + rem) * p + rest,
                    p == 1,
                    rest == 0,
            ;
            lemma_fundamental_div_mod(self.hi as int, d as int);
            assert((self.hi * limb() + self.lo) / d as int == qh * limb() + q) by (nonlinear_arith)
                requires
                    self.hi == d * qh + (self.hi % d),
                    x == (self.hi % d) * limb() + self.lo,
                    x == q * d + rem,
                    rem < d,
                    d > 0,
                    rem >= 0,
            ;
        }
        Wide { hi: qh, lo: q }
    }
}

} // verus!
