//! The stable-swap invariant `D` and the balance `y` that keeps it, both by
//! Newton iteration over `u128` with every intermediate checked for overflow.
use vstd::prelude::*;
use crate::wide::{limb, Wide};

verus! {

/// Largest number of Newton steps either solver takes.
pub const MAX_ITERATIONS: u64 = 255;

pub open spec fn max_u128() -> int {
    u128::MAX as int
}

/// `b^e`, or `None` when a partial power leaves `u128`.
pub open spec fn checked_pow(b: int, e: nat) -> Option<int>
    decreases e,
{
    if e == 0 {
        Some(1)
    } else {
        match checked_pow(b, (e - 1) as nat) {
            Some(p) => if p * b <= max_u128() {
                Some(p * b)
            } else {
                None
            },
            None => None,
        }
    }
}

/// Sum of the balances.
pub open spec fn sum_of(xs: Seq<u128>) -> int
    decreases xs.len(),
{
    if xs.len() == 0 {
        0
    } else {
        sum_of(xs.drop_last()) + xs.last()
    }
}

/// Every balance is non-zero.
pub open spec fn all_positive(xs: Seq<u128>) -> bool {
    forall|k: int| 0 <= k < xs.len() ==> xs[k] > 0
}

/// `D^(m+1) / (n^m * prod x)` over the first `m` balances, divided step by step
/// as `dp <- dp * D / (x_k * n)`, each product formed in 256 bits.
pub open spec fn d_prod(xs: Seq<u128>, d: int, n: int) -> Option<int>
    decreases xs.len(),
{
    if xs.len() == 0 {
        Some(d)
    } else {
        match d_prod(xs.drop_last(), d, n) {
            Some(p) => if xs.last() * n <= max_u128() && xs.last() * n > 0 && p * d / (xs.last()
                * n) <= max_u128() {
                Some(p * d / (xs.last() * n))
            } else {
                None
            },
            None => None,
        }
    }
}

/// One Newton step for `D`, with `ann = A * n^n * ap` and `ap` the amplification
/// scale: `D' = (ann*S/ap + n*dp) * D / (ann*D/ap + (n+1)*dp - D)`, products in
/// 256 bits and every other value in `u128`.
pub open spec fn d_next(xs: Seq<u128>, ann: int, ap: int, d: int) -> Option<int> {
    let n = xs.len() as int;
    let s = sum_of(xs);
    match d_prod(xs, d, n) {
        Some(dp) => {
            let t1 = ann * s / ap;
            let t2 = dp * n;
            let a = t1 + t2;
            let num = a * d;
            let u1 = ann * d / ap;
            let u2 = dp * (n + 1);
            let b = u1 + u2;
            if t1 <= max_u128() && t2 <= max_u128() && a <= max_u128() && u1 <= max_u128() && u2
                <= max_u128() && b <= max_u128() && b > d && num / (b - d) <= max_u128() {
                Some(num / (b - d))
            } else {
                None
            }
        },
        None => None,
    }
}

pub open spec fn close(a: int, b: int) -> bool {
    -1 <= a - b <= 1
}

/// Newton iteration for `D` from `d`, with `fuel` steps left.
pub open spec fn d_iter(xs: Seq<u128>, ann: int, ap: int, d: int, fuel: nat) -> Option<int>
    decreases fuel,
{
    if fuel == 0 {
        None
    } else {
        match d_next(xs, ann, ap, d) {
            Some(d2) => if close(d2, d) {
                Some(d2)
            } else {
                d_iter(xs, ann, ap, d2, (fuel - 1) as nat)
            },
            None => None,
        }
    }
}

/// The invariant `D` of the balances, started from their sum; `None` when the
/// iteration overflows or does not settle within `MAX_ITERATIONS` steps.
pub open spec fn invariant_d(xs: Seq<u128>, ann: int, ap: int) -> Option<int> {
    if sum_of(xs) > max_u128() {
        None
    } else {
        d_iter(xs, ann, ap, sum_of(xs), MAX_ITERATIONS as nat)
    }
}

/// `b^e` in `u128`, or `None` on overflow.
pub fn pow_checked(b: u128, e: u32) -> (r: Option<u128>)
    ensures
        r matches Some(v) ==> checked_pow(b as int, e as nat) == Some(v as int),
        r is None <==> checked_pow(b as int, e as nat) is None,
{
    let mut acc: u128 = 1;
    let mut i: u32 = 0;
    while i < e
        invariant
            i <= e,
            checked_pow(b as int, i as nat) == Some(acc as int),
        decreases e - i,
    {
        match acc.checked_mul(b) {
            Some(v) => {
                acc = v;
                i = i + 1;
            },
            None => {
                proof {
                    lemma_pow_none_stays(b as int, (i + 1) as nat, e as nat);
                }
                return None;
            },
        }
    }
    Some(acc)
}

proof fn lemma_pow_none_stays(b: int, i: nat, e: nat)
    requires
        checked_pow(b, i) is None,
        i <= e,
    ensures
        checked_pow(b, e) is None,
    decreases e - i,
{
    if i < e {
        lemma_pow_none_stays(b, i, (e - 1) as nat);
    }
}

proof fn lemma_sum_bound(xs: Seq<u128>, k: int)
    requires
        0 <= k <= xs.len(),
    ensures
        sum_of(xs.take(k)) <= sum_of(xs),
    decreases xs.len() - k,
{
    if k < xs.len() {
        lemma_sum_bound(xs, k + 1);
        assert(xs.take(k + 1).drop_last() =~= xs.take(k));
    } else {
        assert(xs.take(k) =~= xs);
    }
}

/// Sum of the balances, or `None` when it leaves `u128`.
pub fn checked_sum(xs: &Vec<u128>) -> (r: Option<u128>)
    ensures
        r matches Some(v) ==> v == sum_of(xs@),
        r is None <==> sum_of(xs@) > max_u128(),
{
    let mut acc: u128 = 0;
    let mut k: usize = 0;
    while k < xs.len()
        invariant
            k <= xs.len(),
            acc == sum_of(xs@.take(k as int)),
        decreases xs.len() - k,
    {
        assert(xs@.take(k + 1).drop_last() =~= xs@.take(k as int));
        match acc.checked_add(xs[k]) {
            Some(v) => {
                acc = v;
                k = k + 1;
            },
            None => {
                proof {
                    lemma_sum_bound(xs@, k + 1);
                }
                return None;
            },
        }
    }
    assert(xs@.take(k as int) =~= xs@);
    Some(acc)
}

/// `r` is `Some(v)` exactly when `o` is `Some(v)` as an integer.
pub open spec fn same_opt(r: Option<u128>, o: Option<int>) -> bool {
    match r {
        Some(v) => o == Some(v as int),
        None => o is None,
    }
}

fn d_prod_exec(xs: &Vec<u128>, d: u128, n: u128) -> (r: Option<u128>)
    requires
        n == xs@.len(),
    ensures
        same_opt(r, d_prod(xs@, d as int, n as int)),
{
    let mut dp: u128 = d;
    let mut k: usize = 0;
    while k < xs.len()
        invariant
            k <= xs.len(),
            n == xs@.len(),
            d_prod(xs@.take(k as int), d as int, n as int) == Some(dp as int),
        decreases xs.len() - k,
    {
        assert(xs@.take(k + 1).drop_last() =~= xs@.take(k as int));
        assert(xs@.take(k + 1).last() == xs@[k as int]);
        let next = match xs[k].checked_mul(n) {
            Some(den) if den > 0 => Wide::mul(dp, d).div(den).to_u128(),
            _ => None,
        };
        match next {
            Some(v) => {
                dp = v;
                k = k + 1;
            },
            None => {
                proof {
                    lemma_d_prod_none_stays(xs@, d as int, n as int, k + 1);
                }
                return None;
            },
        }
    }
    assert(xs@.take(k as int) =~= xs@);
    Some(dp)
}

proof fn lemma_d_prod_none_stays(xs: Seq<u128>, d: int, n: int, k: int)
    requires
        0 <= k <= xs.len(),
        d_prod(xs.take(k), d, n) is None,
    ensures
        d_prod(xs, d, n) is None,
    decreases xs.len() - k,
{
    if k < xs.len() {
        assert(xs.take(k + 1).drop_last() =~= xs.take(k));
        lemma_d_prod_none_stays(xs, d, n, k + 1);
    } else {
        assert(xs.take(k) =~= xs);
    }
}

fn d_next_exec(xs: &Vec<u128>, s: u128, ann: u128, ap: u128, d: u128) -> (r: Option<u128>)
    requires
        ap > 0,
        s == sum_of(xs@),
        xs@.len() <= 256,
    ensures
        same_opt(r, d_next(xs@, ann as int, ap as int, d as int)),
{
    let n = xs.len() as u128;
    let dp = match d_prod_exec(xs, d, n) {
        Some(v) => v,
        None => return None,
    };
    let t1 = match Wide::mul(ann, s).div(ap).to_u128() {
        Some(v) => v,
        None => return None,
    };
    let t2 = match dp.checked_mul(n) {
        Some(v) => v,
        None => return None,
    };
    let a = match t1.checked_add(t2) {
        Some(v) => v,
        None => return None,
    };
    let u1 = match Wide::mul(ann, d).div(ap).to_u128() {
        Some(v) => v,
        None => return None,
    };
    let u2 = match dp.checked_mul(n + 1) {
        Some(v) => v,
        None => return None,
    };
    let b = match u1.checked_add(u2) {
        Some(v) => v,
        None => return None,
    };
    if b <= d {
        return None;
    }
    Wide::mul(a, d).div(b - d).to_u128()
}

/// The invariant `D` of the normalized balances `xs`, where `ann = A * n^n * ap`
/// and `ap` is the scale of `A`.
pub fn compute_d(xs: &Vec<u128>, ann: u128, ap: u128) -> (r: Option<u128>)
    requires
        ap > 0,
        xs@.len() <= 256,
    ensures
        same_opt(r, invariant_d(xs@, ann as int, ap as int)),
{
    let s = match checked_sum(xs) {
        Some(v) => v,
        None => return None,
    };
    let mut d: u128 = s;
    let mut i: u64 = 0;
    while i < MAX_ITERATIONS
        invariant
            i <= MAX_ITERATIONS,
            ap > 0,
            s == sum_of(xs@),
            xs@.len() <= 256,
            invariant_d(xs@, ann as int, ap as int) == d_iter(
                xs@,
                ann as int,
                ap as int,
                d as int,
                (MAX_ITERATIONS - i) as nat,
            ),
        decreases MAX_ITERATIONS - i,
    {
        let next = match d_next_exec(xs, s, ann, ap, d) {
            Some(v) => v,
            None => return None,
        };
        if (next >= d && next - d <= 1) || (next < d && d - next <= 1) {
            return Some(next);
        }
        d = next;
        i = i + 1;
    }
    None
}

/// Sum of the balances other than slot `j`.
pub open spec fn sum_except(xs: Seq<u128>, j: int) -> int
    decreases xs.len(),
{
    if xs.len() == 0 {
        0
    } else {
        sum_except(xs.drop_last(), j) + if xs.len() - 1 == j {
            0
        } else {
            xs.last() as int
        }
    }
}

/// `D^(m+1) / (n^m * prod x)` over the balances other than slot `j`, divided
/// step by step as in `d_prod`.
pub open spec fn y_prod(xs: Seq<u128>, j: int, d: int, n: int) -> Option<int>
    decreases xs.len(),
{
    if xs.len() == 0 {
        Some(d)
    } else {
        match y_prod(xs.drop_last(), j, d, n) {
            Some(c) => if xs.len() - 1 == j {
                Some(c)
            } else if xs.last() * n <= max_u128() && xs.last() * n > 0 && c * d / (xs.last() * n)
                <= max_u128() {
                Some(c * d / (xs.last() * n))
            } else {
                None
            },
            None => None,
        }
    }
}

/// One Newton step for `y`: `y' = (y*y + c) / (2*y + b - D)`, the numerator in
/// 256 bits.
pub open spec fn y_next(c: int, b: int, d: int, y: int) -> Option<int> {
    let num = y * y + c;
    let den = 2 * y + b;
    if num < limb() * limb() && den <= max_u128() && den > d && num / (den - d) <= max_u128() {
        Some(num / (den - d))
    } else {
        None
    }
}

/// Newton iteration for `y` from `y`, with `fuel` steps left.
pub open spec fn y_iter(c: int, b: int, d: int, y: int, fuel: nat) -> Option<int>
    decreases fuel,
{
    if fuel == 0 {
        None
    } else {
        match y_next(c, b, d, y) {
            Some(y2) => if close(y2, y) {
                Some(y2)
            } else {
                y_iter(c, b, d, y2, (fuel - 1) as nat)
            },
            None => None,
        }
    }
}

/// The balance of slot `j` that keeps the invariant at `d`, the other slots
/// standing as in `xs`: with `c = D^(n+1) * ap / (n^n * prod_{k != j} x_k * ann)`
/// (kept in 256 bits) and `b = S' + D * ap / ann`, it solves
/// `y^2 + (b - D) y = c` from `y = D`.
pub open spec fn solve_y(xs: Seq<u128>, j: int, d: int, ann: int, ap: int) -> Option<int> {
    let n = xs.len() as int;
    let s = sum_except(xs, j);
    match y_prod(xs, j, d, n) {
        Some(c0) => {
            let cda = c0 * d * ap;
            let an = ann * n;
            let b = s + d * ap / ann;
            if s <= max_u128() && cda < limb() * limb() && an <= max_u128() && an > 0 && b
                <= max_u128() {
                y_iter(cda / an, b, d, d, MAX_ITERATIONS as nat)
            } else {
                None
            }
        },
        None => None,
    }
}

proof fn lemma_sum_except_bound(xs: Seq<u128>, j: int, k: int)
    requires
        0 <= k <= xs.len(),
    ensures
        sum_except(xs.take(k), j) <= sum_except(xs, j),
    decreases xs.len() - k,
{
    if k < xs.len() {
        assert(xs.take(k + 1).drop_last() =~= xs.take(k));
        lemma_sum_except_bound(xs, j, k + 1);
    } else {
        assert(xs.take(k) =~= xs);
    }
}

proof fn lemma_y_prod_none_stays(xs: Seq<u128>, j: int, d: int, n: int, k: int)
    requires
        0 <= k <= xs.len(),
        y_prod(xs.take(k), j, d, n) is None,
    ensures
        y_prod(xs, j, d, n) is None,
    decreases xs.len() - k,
{
    if k < xs.len() {
        assert(xs.take(k + 1).drop_last() =~= xs.take(k));
        lemma_y_prod_none_stays(xs, j, d, n, k + 1);
    } else {
        assert(xs.take(k) =~= xs);
    }
}

fn sum_except_exec(xs: &Vec<u128>, j: usize) -> (r: Option<u128>)
    ensures
        same_opt(r, if sum_except(xs@, j as int) <= max_u128() {
            Some(sum_except(xs@, j as int))
        } else {
            None
        }),
{
    let mut acc: u128 = 0;
    let mut k: usize = 0;
    while k < xs.len()
        invariant
            k <= xs.len(),
            acc == sum_except(xs@.take(k as int), j as int),
        decreases xs.len() - k,
    {
        assert(xs@.take(k + 1).drop_last() =~= xs@.take(k as int));
        if k != j {
            match acc.checked_add(xs[k]) {
                Some(v) => acc = v,
                None => {
                    proof {
                        lemma_sum_except_bound(xs@, j as int, k + 1);
                    }
                    return None;
                },
            }
        }
        k = k + 1;
    }
    assert(xs@.take(k as int) =~= xs@);
    Some(acc)
}

fn y_prod_exec(xs: &Vec<u128>, j: usize, d: u128, n: u128) -> (r: Option<u128>)
    ensures
        same_opt(r, y_prod(xs@, j as int, d as int, n as int)),
{
    let mut c: u128 = d;
    let mut k: usize = 0;
    while k < xs.len()
        invariant
            k <= xs.len(),
            y_prod(xs@.take(k as int), j as int, d as int, n as int) == Some(c as int),
        decreases xs.len() - k,
    {
        assert(xs@.take(k + 1).drop_last() =~= xs@.take(k as int));
        assert(xs@.take(k + 1).last() == xs@[k as int]);
        if k != j {
            let next = match xs[k].checked_mul(n) {
                Some(den) if den > 0 => Wide::mul(c, d).div(den).to_u128(),
                _ => None,
            };
            match next {
                Some(v) => {
                    c = v;
                },
                None => {
                    proof {
                        lemma_y_prod_none_stays(xs@, j as int, d as int, n as int, k + 1);
                    }
                    return None;
                },
            }
        }
        k = k + 1;
    }
    assert(xs@.take(k as int) =~= xs@);
    Some(c)
}

fn y_next_exec(c: &Wide, b: u128, d: u128, y: u128) -> (r: Option<u128>)
    ensures
        same_opt(r, y_next(c.value(), b as int, d as int, y as int)),
{
    let num = match Wide::mul(y, y).add(c) {
        Some(v) => v,
        None => return None,
    };
    let y2 = match y.checked_mul(2) {
        Some(v) => v,
        None => return None,
    };
    let den = match y2.checked_add(b) {
        Some(v) => v,
        None => return None,
    };
    if den <= d {
        return None;
    }
    num.div(den - d).to_u128()
}

/// The balance of slot `j` that keeps the invariant at `d` (see `solve_y`).
pub fn compute_y(xs: &Vec<u128>, j: usize, d: u128, ann: u128, ap: u128) -> (r: Option<u128>)
    requires
        ann > 0,
        xs@.len() <= 256,
    ensures
        same_opt(r, solve_y(xs@, j as int, d as int, ann as int, ap as int)),
{
    let n = xs.len() as u128;
    let s = sum_except_exec(xs, j);
    let c0 = y_prod_exec(xs, j, d, n);
    let (s, c0) = match (s, c0) {
        (Some(s), Some(c0)) => (s, c0),
        _ => return None,
    };
    let cda = match Wide::mul(c0, d).mul_small(ap) {
        Some(v) => v,
        None => {
            assert(c0 * d * ap == (c0 * d) * ap);
            return None;
        },
    };
    let an = match ann.checked_mul(n) {
        Some(v) => v,
        None => return None,
    };
    if an == 0 {
        return None;
    }
    let b = match Wide::mul(d, ap).div(ann).to_u128() {
        Some(q) => match s.checked_add(q) {
            Some(v) => v,
            None => return None,
        },
        None => return None,
    };
    let c = cda.div(an);
    let mut y: u128 = d;
    let mut i: u64 = 0;
    while i < MAX_ITERATIONS
        invariant
            i <= MAX_ITERATIONS,
            solve_y(xs@, j as int, d as int, ann as int, ap as int) == y_iter(
                c.value(),
                b as int,
                d as int,
                y as int,
                (MAX_ITERATIONS - i) as nat,
            ),
        decreases MAX_ITERATIONS - i,
    {
        let next = match y_next_exec(&c, b, d, y) {
            Some(v) => v,
            None => return None,
        };
        if (next >= y && next - y <= 1) || (next < y && y - next <= 1) {
            return Some(next);
        }
        y = next;
        i = i + 1;
    }
    None
}

proof fn lemma_d_iter_settled(xs: Seq<u128>, ann: int, ap: int, d: int, fuel: nat)
    requires
        d_iter(xs, ann, ap, d, fuel) is Some,
    ensures
        exists|p: int|
            d_next(xs, ann, ap, p) == d_iter(xs, ann, ap, d, fuel) && close(
                d_iter(xs, ann, ap, d, fuel).unwrap(),
                p,
            ),
    decreases fuel,
{
    let d2 = d_next(xs, ann, ap, d).unwrap();
    if !close(d2, d) {
        lemma_d_iter_settled(xs, ann, ap, d2, (fuel - 1) as nat);
    }
}

/// The invariant that the solver returns is settled: one Newton step from some
/// iterate gives it, and it lies within one unit of that iterate.
pub proof fn lemma_invariant_d_settled(xs: Seq<u128>, ann: int, ap: int)
    requires
        invariant_d(xs, ann, ap) is Some,
    ensures
        exists|p: int|
            d_next(xs, ann, ap, p) == invariant_d(xs, ann, ap) && close(
                invariant_d(xs, ann, ap).unwrap(),
                p,
            ),
{
    lemma_d_iter_settled(xs, ann, ap, sum_of(xs), MAX_ITERATIONS as nat);
}

proof fn lemma_y_iter_settled(c: int, b: int, d: int, y: int, fuel: nat)
    requires
        y_iter(c, b, d, y, fuel) is Some,
    ensures
        exists|p: int|
            y_next(c, b, d, p) == y_iter(c, b, d, y, fuel) && close(
                y_iter(c, b, d, y, fuel).unwrap(),
                p,
            ),
    decreases fuel,
{
    let y2 = y_next(c, b, d, y).unwrap();
    if !close(y2, y) {
        lemma_y_iter_settled(c, b, d, y2, (fuel - 1) as nat);
    }
}

/// The balance that the solver returns is settled: one Newton step of the
/// reduced equation from some iterate gives it, and it lies within one unit of
/// that iterate.
pub proof fn lemma_solve_y_settled(xs: Seq<u128>, j: int, d: int, ann: int, ap: int)
    requires
        solve_y(xs, j, d, ann, ap) is Some,
    ensures
        exists|c: int, b: int, p: int|
            y_next(c, b, d, p) == solve_y(xs, j, d, ann, ap) && close(
                solve_y(xs, j, d, ann, ap).unwrap(),
                p,
            ),
{
    let n = xs.len() as int;
    let c0 = y_prod(xs, j, d, n).unwrap();
    let c = c0 * d * ap / (ann * n);
    let b = sum_except(xs, j) + d * ap / ann;
    lemma_y_iter_settled(c, b, d, d, MAX_ITERATIONS as nat);
}

} // verus!
