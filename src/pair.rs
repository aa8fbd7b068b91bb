//! The pool: its tokens, the index from identifier to slot, the curve and fee
//! parameters, and the quotes priced against them.
use vstd::prelude::*;
use crate::curve::{
    all_positive, checked_pow, compute_d, compute_y, invariant_d, max_u128, pow_checked, solve_y,
};
use crate::fee::FeeParams;
use crate::token_id::{bytes_eq, parse_token_id, token_id_of};

verus! {

/// Precision and raw balance of one token of the pool.
#[derive(Clone, Copy, Debug)]
pub struct TokenDataInput {
    pub decimals: u8,
    pub balance: u128,
}

impl TokenDataInput {
    pub fn new(decimals: u8, balance: u128) -> (r: Self)
        ensures
            r.decimals == decimals,
            r.balance == balance,
    {
        TokenDataInput { decimals, balance }
    }
}

/// The amplification `A = value / 10^precision`.
#[derive(Clone, Copy, Debug)]
pub struct AmplificationCoefficient {
    pub value: u128,
    pub precision: u8,
}

impl AmplificationCoefficient {
    pub fn new(value: u128, precision: u8) -> (r: Self)
        ensures
            r.value == value,
            r.precision == precision,
    {
        AmplificationCoefficient { value, precision }
    }
}

/// What a quote returns: the amount received (or to spend) and the fee charged,
/// both in the token's raw units.
#[derive(Clone, Copy, Debug, PartialEq, Eq, Structural)]
pub struct SwapResult {
    pub amount: u128,
    pub fee: u128,
}

/// Why a pool could not be built.
#[derive(Clone, Copy, Debug, PartialEq, Eq, Structural)]
pub enum ConstructionError {
    InvalidTokenId,
    InvalidTokenIndex,
    InvalidFeeParams,
    InvalidAmplification,
}

/// Why a quote could not be priced. Overflow of a `u128` intermediate counts
/// as `InvariantDidNotConverge`.
#[derive(Clone, Copy, Debug, PartialEq, Eq, Structural)]
pub enum QuoteError {
    UnknownToken,
    ZeroBalance,
    InvariantDidNotConverge,
    InsufficientLiquidity,
}

/// A balance update whose length is not the number of tokens.
#[derive(Clone, Copy, Debug, PartialEq, Eq, Structural)]
pub struct BalanceCountMismatch {
    pub expected: usize,
    pub got: usize,
}

/// The pool as values.
pub struct PoolView {
    pub decimals: Seq<u8>,
    pub balances: Seq<u128>,
    pub ids: Seq<Seq<u8>>,
    pub slots: Seq<u8>,
    pub amp: AmplificationCoefficient,
    pub fee: FeeParams,
    pub lp_supply: u128,
}

/// Each identifier has its own slot, and the slots are exactly `0..n`, for
/// `2 <= n <= 256` tokens.
pub open spec fn index_valid(ids: Seq<Seq<u8>>, slots: Seq<u8>, n: int) -> bool {
    &&& 2 <= n <= 256
    &&& ids.len() == n
    &&& slots.len() == n
    &&& forall|k: int| 0 <= k < n ==> slots[k] < n
    &&& forall|a: int, b: int| 0 <= a < n && 0 <= b < n && a != b ==> slots[a] != slots[b]
    &&& forall|a: int, b: int| 0 <= a < n && 0 <= b < n && a != b ==> ids[a] != ids[b]
}

impl PoolView {
    pub open spec fn n(&self) -> int {
        self.balances.len() as int
    }

    pub open spec fn wf(&self) -> bool {
        &&& self.decimals.len() == self.balances.len()
        &&& index_valid(self.ids, self.slots, self.n())
        &&& self.fee.wf()
        &&& self.amp.value > 0
    }
}

/// Every key of the index is the text of a 32-byte identifier.
pub open spec fn ids_readable(index: Seq<(String, u8)>) -> bool {
    forall|k: int| 0 <= k < index.len() ==> (#[trigger] token_id_of(index[k].0@)) is Some
}

pub open spec fn decoded_ids(index: Seq<(String, u8)>) -> Seq<Seq<u8>> {
    Seq::new(index.len(), |k: int| token_id_of(index[k].0@).unwrap())
}

pub open spec fn index_slots(index: Seq<(String, u8)>) -> Seq<u8> {
    Seq::new(index.len(), |k: int| index[k].1)
}

/// The outcome of building a pool: the first check that fails, in the order
/// identifiers, index, fee parameters, amplification.
pub open spec fn construction_outcome(
    tokens: Seq<TokenDataInput>,
    index: Seq<(String, u8)>,
    amp: AmplificationCoefficient,
    fee: FeeParams,
) -> Result<(), ConstructionError> {
    if !ids_readable(index) {
        Err(ConstructionError::InvalidTokenId)
    } else if !index_valid(decoded_ids(index), index_slots(index), tokens.len() as int) {
        Err(ConstructionError::InvalidTokenIndex)
    } else if !fee.wf() {
        Err(ConstructionError::InvalidFeeParams)
    } else if amp.value == 0 {
        Err(ConstructionError::InvalidAmplification)
    } else {
        Ok(())
    }
}

/// The slot of an identifier, if the index holds it.
pub open spec fn slot_of(v: PoolView, id: Seq<u8>) -> Option<int> {
    if exists|k: int| 0 <= k < v.n() && v.ids[k] == id {
        Some(v.slots[choose|k: int| 0 <= k < v.n() && v.ids[k] == id] as int)
    } else {
        None
    }
}

/// The slot of an identifier given as hexadecimal text.
pub open spec fn token_slot(v: PoolView, s: Seq<char>) -> Option<int> {
    match token_id_of(s) {
        Some(id) => slot_of(v, id),
        None => None,
    }
}

/// The largest precision among the tokens: the common precision of the
/// normalized balances.
pub open spec fn max_decimals(ds: Seq<u8>) -> int
    decreases ds.len(),
{
    if ds.len() == 0 {
        0
    } else {
        let m = max_decimals(ds.drop_last());
        if ds.last() > m {
            ds.last() as int
        } else {
            m
        }
    }
}

/// `10^(P - decimals_k)`, the factor that brings slot `k` to the common
/// precision `P`.
pub open spec fn scale(v: PoolView, k: int) -> Option<int> {
    checked_pow(10, (max_decimals(v.decimals) - v.decimals[k]) as nat)
}

/// Every scale factor and every scaled balance fits in `u128`.
pub open spec fn scaled_ok(v: PoolView) -> bool {
    forall|k: int|
        0 <= k < v.n() ==> (#[trigger] scale(v, k)) is Some && v.balances[k] * scale(v, k).unwrap()
            <= max_u128()
}

/// The normalized balances.
pub open spec fn scaled(v: PoolView) -> Seq<u128> {
    Seq::new(v.n() as nat, |k: int| (v.balances[k] * scale(v, k).unwrap()) as u128)
}

/// `(value * n^n, 10^precision)`: the amplification with `n^n` folded in, and
/// its scale.
pub open spec fn amp_terms(v: PoolView) -> Option<(int, int)> {
    match (checked_pow(v.n(), v.n() as nat), checked_pow(10, v.amp.precision as nat)) {
        (Some(nn), Some(ap)) => if v.amp.value * nn <= max_u128() {
            Some((v.amp.value * nn, ap))
        } else {
            None
        },
        _ => None,
    }
}

pub open spec fn swap(amount: int, fee: int) -> SwapResult {
    SwapResult { amount: amount as u128, fee: fee as u128 }
}

/// The forward quote once both slots are known, the amount is positive and no
/// balance is zero.
pub open spec fn exchange_math(v: PoolView, amount: int, i: int, j: int) -> Result<SwapResult, QuoteError> {
    if !scaled_ok(v) || amp_terms(v) is None {
        Err(QuoteError::InvariantDidNotConverge)
    } else {
        let xp = scaled(v);
        let (ann, ap) = amp_terms(v).unwrap();
        match invariant_d(xp, ann, ap) {
            None => Err(QuoteError::InvariantDidNotConverge),
            Some(d) => {
                let dx = amount * scale(v, i).unwrap();
                let x = xp[i] + dx;
                if x > max_u128() {
                    Err(QuoteError::InvariantDidNotConverge)
                } else {
                    match solve_y(xp.update(i, x as u128), j, d, ann, ap) {
                        None => Err(QuoteError::InvariantDidNotConverge),
                        Some(y) => {
                            let dy = if y < xp[j] {
                                xp[j] - y
                            } else {
                                0
                            };
                            let gross = dy / scale(v, j).unwrap();
                            if gross >= v.balances[j] {
                                Err(QuoteError::InsufficientLiquidity)
                            } else {
                                match v.fee.fee_spec(gross) {
                                    None => Err(QuoteError::InvariantDidNotConverge),
                                    Some(f) => Ok(swap(gross - f, f)),
                                }
                            }
                        },
                    }
                }
            },
        }
    }
}

/// What `amount` of the spent token buys of the received one: the output that
/// keeps the invariant, less the fee on it.
pub open spec fn exchange_outcome(v: PoolView, amount: u128, spent: Seq<char>, receive: Seq<char>) -> Result<SwapResult, QuoteError> {
    match (token_slot(v, spent), token_slot(v, receive)) {
        (Some(i), Some(j)) => if i == j {
            Err(QuoteError::UnknownToken)
        } else if amount == 0 {
            Ok(swap(0, 0))
        } else if !all_positive(v.balances) {
            Err(QuoteError::ZeroBalance)
        } else {
            exchange_math(v, amount as int, i, j)
        },
        _ => Err(QuoteError::UnknownToken),
    }
}

/// `a / s` rounded up.
pub open spec fn div_up(a: int, s: int) -> int {
    if a % s == 0 {
        a / s
    } else {
        a / s + 1
    }
}

/// The reverse quote once both slots are known, the amount is positive, no
/// balance is zero and the gross amount is below the received token's balance.
pub open spec fn spend_math(v: PoolView, gross: int, i: int, j: int) -> Result<SwapResult, QuoteError> {
    if !scaled_ok(v) || amp_terms(v) is None {
        Err(QuoteError::InvariantDidNotConverge)
    } else {
        let xp = scaled(v);
        let (ann, ap) = amp_terms(v).unwrap();
        match invariant_d(xp, ann, ap) {
            None => Err(QuoteError::InvariantDidNotConverge),
            Some(d) => {
                let yj = xp[j] - gross * scale(v, j).unwrap();
                match solve_y(xp.update(j, yj as u128), i, d, ann, ap) {
                    None => Err(QuoteError::InvariantDidNotConverge),
                    Some(x) => {
                        let dx = if x > xp[i] {
                            x - xp[i]
                        } else {
                            0
                        };
                        Ok(swap(div_up(dx, scale(v, i).unwrap()), 0))
                    },
                }
            },
        }
    }
}

/// What must be spent to receive `receive_amount`: the fee is charged on the
/// gross amount that leaves the pool, and the spend is what keeps the invariant.
pub open spec fn spend_outcome(v: PoolView, receive_amount: u128, receive: Seq<char>, spent: Seq<char>) -> Result<SwapResult, QuoteError> {
    match (token_slot(v, receive), token_slot(v, spent)) {
        (Some(j), Some(i)) => if i == j {
            Err(QuoteError::UnknownToken)
        } else if receive_amount == 0 {
            Ok(swap(0, 0))
        } else if !all_positive(v.balances) {
            Err(QuoteError::ZeroBalance)
        } else if v.fee.numerator() == v.fee.denominator {
            Err(QuoteError::InsufficientLiquidity)
        } else {
            match v.fee.gross_spec(receive_amount as int) {
                None => Err(QuoteError::InvariantDidNotConverge),
                Some(g) => if g >= v.balances[j] {
                    Err(QuoteError::InsufficientLiquidity)
                } else {
                    match spend_math(v, g, i, j) {
                        Ok(r) => Ok(swap(r.amount as int, g - receive_amount)),
                        Err(e) => Err(e),
                    }
                },
            }
        },
        _ => Err(QuoteError::UnknownToken),
    }
}

/// A stable-swap pool over `n` tokens.
pub struct StablePair {
    decimals: Vec<u8>,
    balances: Vec<u128>,
    ids: Vec<Vec<u8>>,
    slots: Vec<u8>,
    amp: AmplificationCoefficient,
    fee: FeeParams,
    lp_supply: u128,
}

impl View for StablePair {
    type V = PoolView;

    closed spec fn view(&self) -> PoolView {
        PoolView {
            decimals: self.decimals@,
            balances: self.balances@,
            ids: self.ids@.map_values(|v: Vec<u8>| v@),
            slots: self.slots@,
            amp: self.amp,
            fee: self.fee,
            lp_supply: self.lp_supply,
        }
    }
}

fn ids_distinct(ids: &Vec<Vec<u8>>) -> (r: bool)
    ensures
        r == forall|a: int, b: int|
            0 <= a < ids@.len() && 0 <= b < ids@.len() && a != b ==> ids@[a]@ != ids@[b]@,
{
    let mut k: usize = 0;
    while k < ids.len()
        invariant
            k <= ids.len(),
            forall|a: int, b: int| 0 <= a < k && 0 <= b < k && a != b ==> ids@[a]@ != ids@[b]@,
        decreases ids.len() - k,
    {
        let mut t: usize = 0;
        while t < k
            invariant
                t <= k < ids.len(),
                forall|a: int, b: int|
                    0 <= a < k && 0 <= b < k && a != b ==> ids@[a]@ != ids@[b]@,
                forall|a: int| 0 <= a < t ==> ids@[a]@ != ids@[k as int]@,
            decreases k - t,
        {
            if bytes_eq(&ids[t], &ids[k]) {
                return false;
            }
            t = t + 1;
        }
        k = k + 1;
    }
    true
}

fn slots_cover(slots: &Vec<u8>, n: usize) -> (r: bool)
    ensures
        r == ((forall|k: int| 0 <= k < slots@.len() ==> slots@[k] < n) && forall|a: int, b: int|
            0 <= a < slots@.len() && 0 <= b < slots@.len() && a != b ==> slots@[a] != slots@[b]),
{
    let mut k: usize = 0;
    while k < slots.len()
        invariant
            k <= slots.len(),
            forall|a: int| 0 <= a < k ==> slots@[a] < n,
            forall|a: int, b: int| 0 <= a < k && 0 <= b < k && a != b ==> slots@[a] != slots@[b],
        decreases slots.len() - k,
    {
        if slots[k] as usize >= n {
            return false;
        }
        let mut t: usize = 0;
        while t < k
            invariant
                t <= k < slots.len(),
                forall|a: int, b: int|
                    0 <= a < k && 0 <= b < k && a != b ==> slots@[a] != slots@[b],
                forall|a: int| 0 <= a < t ==> slots@[a] != slots@[k as int],
            decreases k - t,
        {
            if slots[t] == slots[k] {
                return false;
            }
            t = t + 1;
        }
        k = k + 1;
    }
    true
}

impl StablePair {
    /// The pool's invariant: its view is well formed.
    #[verifier::type_invariant]
    spec fn inv(&self) -> bool {
        self@.wf()
    }

    /// Builds a pool from its tokens, its index from 64-digit hexadecimal
    /// identifier to slot, its amplification, fee parameters and LP supply.
    pub fn new(
        token_data: Vec<TokenDataInput>,
        token_index: Vec<(String, u8)>,
        a: AmplificationCoefficient,
        fee_params: FeeParams,
        lp_supply: u128,
    ) -> (r: Result<StablePair, ConstructionError>)
        ensures
            match construction_outcome(token_data@, token_index@, a, fee_params) {
                Err(e) => r == Err::<StablePair, ConstructionError>(e),
                Ok(_) => r matches Ok(p) && p@ == (PoolView {
                    decimals: token_data@.map_values(|t: TokenDataInput| t.decimals),
                    balances: token_data@.map_values(|t: TokenDataInput| t.balance),
                    ids: decoded_ids(token_index@),
                    slots: index_slots(token_index@),
                    amp: a,
                    fee: fee_params,
                    lp_supply,
                }),
            },
    {
        let mut ids: Vec<Vec<u8>> = Vec::new();
        let mut slots: Vec<u8> = Vec::new();
        let mut k: usize = 0;
        while k < token_index.len()
            invariant
                k <= token_index.len(),
                ids@.len() == k,
                slots@.len() == k,
                forall|t: int| 0 <= t < k ==> (#[trigger] token_id_of(token_index@[t].0@)) is Some,
                forall|t: int| 0 <= t < k ==> ids@[t]@ == token_id_of(token_index@[t].0@).unwrap(),
                forall|t: int| 0 <= t < k ==> slots@[t] == token_index@[t].1,
            decreases token_index.len() - k,
        {
            match parse_token_id(token_index[k].0.as_str()) {
                Some(id) => {
                    ids.push(id);
                    slots.push(token_index[k].1);
                },
                None => return Err(ConstructionError::InvalidTokenId),
            }
            k = k + 1;
        }
        let ghost ids_view = ids@.map_values(|v: Vec<u8>| v@);
        assert(ids_view =~= decoded_ids(token_index@));
        assert(slots@ =~= index_slots(token_index@));
        assert(forall|t: int|
            0 <= t < ids@.len() ==> decoded_ids(token_index@)[t] == #[trigger] ids@[t]@);
        let n = token_data.len();
        if n < 2 || n > 256 || token_index.len() != n || !slots_cover(&slots, n) || !ids_distinct(
            &ids,
        ) {
            return Err(ConstructionError::InvalidTokenIndex);
        }
        if !fee_params.is_valid() {
            return Err(ConstructionError::InvalidFeeParams);
        }
        if a.value == 0 {
            return Err(ConstructionError::InvalidAmplification);
        }
        let mut decimals: Vec<u8> = Vec::new();
        let mut balances: Vec<u128> = Vec::new();
        let mut k: usize = 0;
        while k < n
            invariant
                k <= n,
                n == token_data@.len(),
                decimals@ =~= token_data@.take(k as int).map_values(|t: TokenDataInput| t.decimals),
                balances@ =~= token_data@.take(k as int).map_values(|t: TokenDataInput| t.balance),
            decreases n - k,
        {
            decimals.push(token_data[k].decimals);
            balances.push(token_data[k].balance);
            k = k + 1;
            assert(decimals@ =~= token_data@.take(k as int).map_values(|t: TokenDataInput| t.decimals));
            assert(balances@ =~= token_data@.take(k as int).map_values(|t: TokenDataInput| t.balance));
        }
        assert(token_data@.take(n as int) =~= token_data@);
        Ok(StablePair { decimals, balances, ids, slots, amp: a, fee: fee_params, lp_supply })
    }
}

proof fn lemma_max_decimals_ge(ds: Seq<u8>, k: int)
    requires
        0 <= k < ds.len(),
    ensures
        max_decimals(ds) >= ds[k],
        max_decimals(ds) <= 255,
    decreases ds.len(),
{
    if k < ds.len() - 1 {
        lemma_max_decimals_ge(ds.drop_last(), k);
    } else if ds.len() > 1 {
        lemma_max_decimals_ge(ds.drop_last(), 0);
    }
}

proof fn lemma_pow_positive(b: int, e: nat)
    requires
        b >= 1,
        checked_pow(b, e) is Some,
    ensures
        checked_pow(b, e).unwrap() >= 1,
    decreases e,
{
    if e > 0 {
        lemma_pow_positive(b, (e - 1) as nat);
        let p = checked_pow(b, (e - 1) as nat).unwrap();
        assert(p * b >= 1) by (nonlinear_arith)
            requires
                p >= 1,
                b >= 1,
        ;
    }
}

/// A forward quote for a zero amount between two distinct tokens of the pool
/// gives nothing and charges nothing.
pub proof fn lemma_exchange_zero_amount(v: PoolView, spent: Seq<char>, receive: Seq<char>)
    requires
        token_slot(v, spent) is Some,
        token_slot(v, receive) is Some,
        token_slot(v, spent) != token_slot(v, receive),
    ensures
        exchange_outcome(v, 0, spent, receive) == Ok::<SwapResult, QuoteError>(
            SwapResult { amount: 0, fee: 0 },
        ),
{
}

/// An index that names a slot outside `0..n` for `n` tokens is refused as an
/// invalid index, whatever the other parameters.
pub proof fn lemma_index_slot_out_of_range(
    tokens: Seq<TokenDataInput>,
    index: Seq<(String, u8)>,
    amp: AmplificationCoefficient,
    fee: FeeParams,
    k: int,
)
    requires
        ids_readable(index),
        0 <= k < index.len(),
        index[k].1 >= tokens.len(),
    ensures
        construction_outcome(tokens, index, amp, fee) == Err::<(), ConstructionError>(
            ConstructionError::InvalidTokenIndex,
        ),
{
    assert(index_slots(index)[k] == index[k].1);
}

impl StablePair {
    /// The precision that balances are normalized to.
    fn target_precision(&self) -> (r: u8)
        ensures
            r == max_decimals(self@.decimals),
    {
        let mut m: u8 = 0;
        let mut k: usize = 0;
        while k < self.decimals.len()
            invariant
                k <= self.decimals.len(),
                m == max_decimals(self.decimals@.take(k as int)),
            decreases self.decimals.len() - k,
        {
            assert(self.decimals@.take(k + 1).drop_last() =~= self.decimals@.take(k as int));
            if self.decimals[k] > m {
                m = self.decimals[k];
            }
            k = k + 1;
        }
        assert(self.decimals@.take(k as int) =~= self.decimals@);
        m
    }

    /// The scale factors and the normalized balances, or `None` where one leaves
    /// `u128`.
    fn scaled_balances(&self) -> (r: Option<(Vec<u128>, Vec<u128>)>)
        ensures
            match r {
                Some((sc, xp)) => scaled_ok(self@) && xp@ == scaled(self@) && sc@.len() == self@.n()
                    && forall|k: int| 0 <= k < self@.n() ==> scale(self@, k) == Some(sc@[k] as int),
                None => !scaled_ok(self@),
            },
    {
        proof {
            use_type_invariant(self);
        }
        let p = self.target_precision();
        let mut sc: Vec<u128> = Vec::new();
        let mut xp: Vec<u128> = Vec::new();
        let mut k: usize = 0;
        while k < self.balances.len()
            invariant
                k <= self.balances.len(),
                self@.wf(),
                p == max_decimals(self@.decimals),
                sc@.len() == k,
                xp@.len() == k,
                forall|t: int| 0 <= t < k ==> scale(self@, t) == Some(sc@[t] as int),
                forall|t: int| 0 <= t < k ==> #[trigger] xp@[t] == scaled(self@)[t],
                forall|t: int|
                    0 <= t < k ==> (#[trigger] scale(self@, t)) is Some && self@.balances[t] * scale(
                        self@,
                        t,
                    ).unwrap() <= max_u128(),
            decreases self.balances.len() - k,
        {
            proof {
                lemma_max_decimals_ge(self@.decimals, k as int);
            }
            let e = (p - self.decimals[k]) as u32;
            assert(scale(self@, k as int) == checked_pow(10, e as nat));
            let f = match pow_checked(10, e) {
                Some(f) => f,
                None => {
                    assert(!(scale(self@, k as int) is Some));
                    return None;
                },
            };
            let x = match self.balances[k].checked_mul(f) {
                Some(x) => x,
                None => {
                    assert(!(self@.balances[k as int] * scale(self@, k as int).unwrap()
                        <= max_u128()));
                    return None;
                },
            };
            sc.push(f);
            xp.push(x);
            k = k + 1;
        }
        assert(xp@ =~= scaled(self@));
        Some((sc, xp))
    }

    /// The amplification terms, or `None` where one leaves `u128`.
    fn amp_terms(&self) -> (r: Option<(u128, u128)>)
        ensures
            match r {
                Some((ann, ap)) => amp_terms(self@) == Some((ann as int, ap as int)) && ann > 0
                    && ap > 0,
                None => amp_terms(self@) is None,
            },
    {
        proof {
            use_type_invariant(self);
        }
        let n = self.balances.len() as u128;
        let nn = pow_checked(n, n as u32);
        let ap = pow_checked(10, self.amp.precision as u32);
        match (nn, ap) {
            (Some(nn), Some(ap)) => match self.amp.value.checked_mul(nn) {
                Some(ann) => {
                    proof {
                        lemma_pow_positive(n as int, n as nat);
                        lemma_pow_positive(10, self.amp.precision as nat);
                        assert(self.amp.value * nn >= 1) by (nonlinear_arith)
                            requires
                                self.amp.value >= 1,
                                nn >= 1,
                        ;
                    }
                    Some((ann, ap))
                },
                None => None,
            },
            _ => None,
        }
    }

    /// Whether some token's balance is zero.
    fn has_zero_balance(&self) -> (r: bool)
        ensures
            r == !all_positive(self@.balances),
    {
        let mut k: usize = 0;
        while k < self.balances.len()
            invariant
                k <= self.balances.len(),
                forall|t: int| 0 <= t < k ==> self@.balances[t] > 0,
            decreases self.balances.len() - k,
        {
            if self.balances[k] == 0 {
                return true;
            }
            k = k + 1;
        }
        false
    }

    /// The slot of the token whose identifier `s` spells in hexadecimal.
    fn find_slot(&self, s: &str) -> (r: Option<usize>)
        ensures
            match r {
                Some(k) => token_slot(self@, s@) == Some(k as int) && k < self@.n(),
                None => token_slot(self@, s@) is None,
            },
    {
        proof {
            use_type_invariant(self);
        }
        let id = match parse_token_id(s) {
            Some(id) => id,
            None => return None,
        };
        let ghost v = self@;
        let mut k: usize = 0;
        while k < self.ids.len()
            invariant
                k <= self.ids.len(),
                v == self@,
                v.wf(),
                token_id_of(s@) == Some(id@),
                forall|t: int| 0 <= t < k ==> v.ids[t] != id@,
            decreases self.ids.len() - k,
        {
            assert(v.ids[k as int] == self.ids@[k as int]@);
            if bytes_eq(&self.ids[k], &id) {
                proof {
                    assert(0 <= k < v.n() && v.ids[k as int] == id@);
                    assert(exists|c: int| 0 <= c < v.n() && v.ids[c] == id@);
                    let c = choose|c: int| 0 <= c < v.n() && v.ids[c] == id@;
                    assert(0 <= c < v.n() && v.ids[c] == id@);
                    assert(index_valid(v.ids, v.slots, v.n()));
                    assert(c == k) by {
                        if c != k {
                            assert(v.ids[c] != v.ids[k as int]);
                        }
                    }
                    assert(token_id_of(s@) == Some(id@));
                    assert(slot_of(v, id@) == Some(v.slots[k as int] as int));
                }
                return Some(self.slots[k] as usize);
            }
            k = k + 1;
        }
        None
    }

    /// Forward quote: what `amount` of `spent_token` buys of `receive_token`,
    /// both given as 64-digit hexadecimal identifiers. The pool is not changed.
    pub fn expected_exchange(&self, amount: u128, spent_token: &str, receive_token: &str) -> (r:
        Result<SwapResult, QuoteError>)
        ensures
            r == exchange_outcome(self@, amount, spent_token@, receive_token@),
    {
        proof {
            use_type_invariant(self);
        }
        let (i, j) = match (self.find_slot(spent_token), self.find_slot(receive_token)) {
            (Some(i), Some(j)) => (i, j),
            _ => return Err(QuoteError::UnknownToken),
        };
        if i == j {
            return Err(QuoteError::UnknownToken);
        }
        if amount == 0 {
            return Ok(SwapResult { amount: 0, fee: 0 });
        }
        if self.has_zero_balance() {
            return Err(QuoteError::ZeroBalance);
        }
        let (sc, xp) = match self.scaled_balances() {
            Some(t) => t,
            None => return Err(QuoteError::InvariantDidNotConverge),
        };
        let (ann, ap) = match self.amp_terms() {
            Some(t) => t,
            None => return Err(QuoteError::InvariantDidNotConverge),
        };
        let d = match compute_d(&xp, ann, ap) {
            Some(d) => d,
            None => return Err(QuoteError::InvariantDidNotConverge),
        };
        let dx = match amount.checked_mul(sc[i]) {
            Some(v) => v,
            None => return Err(QuoteError::InvariantDidNotConverge),
        };
        let x = match xp[i].checked_add(dx) {
            Some(v) => v,
            None => return Err(QuoteError::InvariantDidNotConverge),
        };
        let mut xs = xp.clone();
        xs.set(i, x);
        let y = match compute_y(&xs, j, d, ann, ap) {
            Some(y) => y,
            None => return Err(QuoteError::InvariantDidNotConverge),
        };
        let dy = if y < xp[j] {
            xp[j] - y
        } else {
            0
        };
        proof {
            lemma_pow_positive(10, (max_decimals(self@.decimals) - self@.decimals[j as int]) as nat);
        }
        let gross = dy / sc[j];
        if gross >= self.balances[j] {
            return Err(QuoteError::InsufficientLiquidity);
        }
        let f = match self.fee.fee_on(gross) {
            Some(f) => f,
            None => return Err(QuoteError::InvariantDidNotConverge),
        };
        Ok(SwapResult { amount: gross - f, fee: f })
    }

    /// Reverse quote: how much of `spent_token` buys `receive_amount` of
    /// `receive_token` after the fee, and that fee. The pool is not changed.
    pub fn expected_spend_amount(
        &self,
        receive_amount: u128,
        receive_token_root: &str,
        spent_token_root: &str,
    ) -> (r: Result<SwapResult, QuoteError>)
        ensures
            r == spend_outcome(self@, receive_amount, receive_token_root@, spent_token_root@),
    {
        proof {
            use_type_invariant(self);
        }
        let (j, i) = match (self.find_slot(receive_token_root), self.find_slot(spent_token_root)) {
            (Some(j), Some(i)) => (j, i),
            _ => return Err(QuoteError::UnknownToken),
        };
        if i == j {
            return Err(QuoteError::UnknownToken);
        }
        if receive_amount == 0 {
            return Ok(SwapResult { amount: 0, fee: 0 });
        }
        if self.has_zero_balance() {
            return Err(QuoteError::ZeroBalance);
        }
        if self.fee.pool_numerator + self.fee.beneficiary_numerator == self.fee.denominator {
            return Err(QuoteError::InsufficientLiquidity);
        }
        let g = match self.fee.gross_up(receive_amount) {
            Some(g) => g,
            None => return Err(QuoteError::InvariantDidNotConverge),
        };
        if g >= self.balances[j] {
            return Err(QuoteError::InsufficientLiquidity);
        }
        let (sc, xp) = match self.scaled_balances() {
            Some(t) => t,
            None => return Err(QuoteError::InvariantDidNotConverge),
        };
        let (ann, ap) = match self.amp_terms() {
            Some(t) => t,
            None => return Err(QuoteError::InvariantDidNotConverge),
        };
        let d = match compute_d(&xp, ann, ap) {
            Some(d) => d,
            None => return Err(QuoteError::InvariantDidNotConverge),
        };
        proof {
            let b = self@.balances[j as int] as int;
            let f = sc@[j as int] as int;
            let gg = g as int;
            assert(xp@[j as int] == b * f);
            assert(gg * f <= b * f) by (nonlinear_arith)
                requires
                    gg < b,
                    f >= 0,
            ;
        }
        let yj = xp[j] - g * sc[j];
        let mut xs = xp.clone();
        xs.set(j, yj);
        let x = match compute_y(&xs, i, d, ann, ap) {
            Some(x) => x,
            None => return Err(QuoteError::InvariantDidNotConverge),
        };
        let dx = if x > xp[i] {
            x - xp[i]
        } else {
            0
        };
        proof {
            lemma_pow_positive(10, (max_decimals(self@.decimals) - self@.decimals[i as int]) as nat);
        }
        let s = sc[i];
        let spend = if dx % s == 0 {
            dx / s
        } else {
            proof {
                let a = dx as int;
                let ss = s as int;
                assert(ss >= 2) by {
                    if ss == 1 {
                        assert(a % 1 == 0);
                    }
                }
                assert(a / ss + 1 <= max_u128()) by (nonlinear_arith)
                    requires
                        ss >= 2,
                        0 <= a <= max_u128(),
                ;
            }
            dx / s + 1
        };
        Ok(SwapResult { amount: spend, fee: g - receive_amount })
    }

    /// Replaces the balances and the LP supply at once; a list whose length is
    /// not the number of tokens is refused and the pool left as it was.
    pub fn update_balances(&mut self, balances: Vec<u128>, lp_supply: u128) -> (r: Result<
        (),
        BalanceCountMismatch,
    >)
        ensures
            balances@.len() == old(self)@.n() ==> r is Ok && final(self)@ == (PoolView {
                balances: balances@,
                lp_supply,
                ..old(self)@
            }),
            balances@.len() != old(self)@.n() ==> r == Err::<(), BalanceCountMismatch>(
                BalanceCountMismatch { expected: old(self)@.n() as usize, got: balances@.len() as usize },
            ) && final(self)@ == old(self)@,
    {
        proof {
            use_type_invariant(&*self);
        }
        if balances.len() != self.balances.len() {
            return Err(BalanceCountMismatch { expected: self.balances.len(), got: balances.len() });
        }
        self.balances = balances;
        self.lp_supply = lp_supply;
        Ok(())
    }

    /// The raw balances, by slot.
    pub fn balances(&self) -> (r: Vec<u128>)
        ensures
            r@ == self@.balances,
    {
        self.balances.clone()
    }

    /// The LP supply.
    pub fn lp_supply(&self) -> (r: u128)
        ensures
            r == self@.lp_supply,
    {
        self.lp_supply
    }
}

} // verus!
