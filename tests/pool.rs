use flatqube_pair_py::curve::{compute_d, compute_y};
use flatqube_pair_py::token_id::parse_token_id;
use flatqube_pair_py::{
    AmplificationCoefficient, BalanceCountMismatch, ConstructionError, FeeParams, QuoteError,
    StablePair, SwapResult, TokenDataInput,
};

fn id(byte: &str) -> String {
    byte.repeat(32)
}

fn index(n: u8) -> Vec<(String, u8)> {
    let names = ["11", "22", "33", "44"];
    (0..n).map(|k| (id(names[k as usize]), k)).collect()
}

fn pool(decimals: [u8; 2], balances: [u128; 2]) -> StablePair {
    StablePair::new(
        vec![
            TokenDataInput::new(decimals[0], balances[0]),
            TokenDataInput::new(decimals[1], balances[1]),
        ],
        index(2),
        AmplificationCoefficient::new(100, 0),
        FeeParams::new(10_000, 25, 5),
        1_000,
    )
    .unwrap()
}

fn balanced() -> StablePair {
    pool([6, 6], [1_000_000_000, 1_000_000_000])
}

#[test]
fn balanced_pool_exchange_close_to_one_to_one() {
    let p = balanced();
    let r = p.expected_exchange(1_000_000, &id("11"), &id("22")).unwrap();
    let gross = r.amount + r.fee;
    assert!(gross > 999_000 && gross <= 1_000_000, "gross {}", gross);
    assert_eq!(r.fee, gross * 30 / 10_000);
    assert!(r.amount < 1_000_000 - 2_900);
}

#[test]
fn exchange_of_zero_is_free() {
    let p = balanced();
    let r = p.expected_exchange(0, &id("11"), &id("22")).unwrap();
    assert_eq!(r, SwapResult { amount: 0, fee: 0 });
}

#[test]
fn round_trip_does_not_profit() {
    let p = balanced();
    let amount_in = 1_000_000u128;
    let out = p.expected_exchange(amount_in, &id("11"), &id("22")).unwrap();
    let back = p.expected_spend_amount(out.amount, &id("22"), &id("11")).unwrap();
    assert!(back.amount + 2 >= amount_in, "spend {} for {}", back.amount, amount_in);
    assert!(back.fee >= out.fee);
}

#[test]
fn invariant_kept_across_fee_free_swap() {
    let xp = vec![1_000_000_000u128, 1_000_000_000u128];
    let d0 = compute_d(&xp, 400, 1).unwrap();
    let x = xp[0] + 1_000_000;
    let y = compute_y(&vec![x, xp[1]], 1, d0, 400, 1).unwrap();
    let d1 = compute_d(&vec![x, y], 400, 1).unwrap();
    assert!(d1.abs_diff(d0) <= 2, "{} vs {}", d0, d1);
    assert!(d0.abs_diff(2_000_000_000) <= 1);
}

#[test]
fn spend_amount_covers_fee() {
    let p = balanced();
    let r = p.expected_spend_amount(997_000, &id("22"), &id("11")).unwrap();
    let gross = r.fee + 997_000;
    assert_eq!(gross, (997_000u128 * 10_000 + 9_970 - 1) / 9_970);
    assert!(r.fee * 10_000 >= gross * 30);
    assert!(r.amount >= 999_000 && r.amount <= 1_001_000, "spend {}", r.amount);
}

#[test]
fn spend_of_zero_is_free() {
    let p = balanced();
    assert_eq!(
        p.expected_spend_amount(0, &id("22"), &id("11")),
        Ok(SwapResult { amount: 0, fee: 0 })
    );
}

#[test]
fn unknown_tokens_are_refused() {
    let p = balanced();
    assert_eq!(p.expected_exchange(5, &id("33"), &id("22")), Err(QuoteError::UnknownToken));
    assert_eq!(p.expected_exchange(5, "zz", &id("22")), Err(QuoteError::UnknownToken));
    assert_eq!(p.expected_exchange(5, &id("11"), &id("11")), Err(QuoteError::UnknownToken));
    assert_eq!(p.expected_spend_amount(5, &id("22"), &id("44")), Err(QuoteError::UnknownToken));
}

#[test]
fn uppercase_identifiers_are_found() {
    let p = balanced();
    let lower = p.expected_exchange(1_000, &id("11"), &id("22"));
    let p2 = StablePair::new(
        vec![TokenDataInput::new(6, 1_000_000_000), TokenDataInput::new(6, 1_000_000_000)],
        vec![(id("aa"), 0), (id("bb"), 1)],
        AmplificationCoefficient::new(100, 0),
        FeeParams::new(10_000, 25, 5),
        1_000,
    )
    .unwrap();
    assert_eq!(p2.expected_exchange(1_000, &id("AA"), &id("Bb")), lower);
}

#[test]
fn zero_balance_is_refused() {
    let p = pool([6, 6], [0, 1_000_000_000]);
    assert_eq!(p.expected_exchange(5, &id("11"), &id("22")), Err(QuoteError::ZeroBalance));
    assert_eq!(p.expected_spend_amount(5, &id("22"), &id("11")), Err(QuoteError::ZeroBalance));
}

#[test]
fn draining_the_pool_is_refused() {
    let p = balanced();
    assert_eq!(
        p.expected_spend_amount(1_000_000_000, &id("22"), &id("11")),
        Err(QuoteError::InsufficientLiquidity)
    );
}

#[test]
fn overflowing_balances_are_a_computation_error() {
    let p = pool([6, 6], [u128::MAX, u128::MAX]);
    assert_eq!(
        p.expected_exchange(5, &id("11"), &id("22")),
        Err(QuoteError::InvariantDidNotConverge)
    );
}

#[test]
fn mixed_decimals_are_normalized() {
    let p = pool([6, 18], [1_000_000_000, 1_000_000_000_000_000_000_000]);
    let r = p.expected_exchange(1_000_000, &id("11"), &id("22")).unwrap();
    let gross = r.amount + r.fee;
    assert!(gross > 999_000_000_000_000_000 && gross <= 1_000_000_000_000_000_000);
    assert_eq!(r.fee, gross * 30 / 10_000);
    let back = p.expected_exchange(1_000_000_000_000_000_000, &id("22"), &id("11")).unwrap();
    assert!(back.amount + back.fee > 999_000 && back.amount + back.fee <= 1_000_000);
}

#[test]
fn missing_slot_is_an_invalid_index() {
    let r = StablePair::new(
        vec![
            TokenDataInput::new(6, 1),
            TokenDataInput::new(6, 1),
            TokenDataInput::new(6, 1),
        ],
        vec![(id("11"), 0), (id("22"), 1), (id("33"), 3)],
        AmplificationCoefficient::new(100, 0),
        FeeParams::new(10_000, 25, 5),
        0,
    );
    assert_eq!(r.err(), Some(ConstructionError::InvalidTokenIndex));
}

#[test]
fn construction_errors() {
    let tokens = || vec![TokenDataInput::new(6, 1), TokenDataInput::new(6, 1)];
    let amp = AmplificationCoefficient::new(100, 0);
    let fee = FeeParams::new(10_000, 25, 5);
    let short = vec![("1111".to_string(), 0u8), (id("22"), 1)];
    assert_eq!(
        StablePair::new(tokens(), short, amp, fee, 0).err(),
        Some(ConstructionError::InvalidTokenId)
    );
    let not_hex = vec![("g".repeat(64), 0u8), (id("22"), 1)];
    assert_eq!(
        StablePair::new(tokens(), not_hex, amp, fee, 0).err(),
        Some(ConstructionError::InvalidTokenId)
    );
    let twice = vec![(id("11"), 0u8), (id("22"), 0)];
    assert_eq!(
        StablePair::new(tokens(), twice, amp, fee, 0).err(),
        Some(ConstructionError::InvalidTokenIndex)
    );
    let same_id = vec![(id("ab"), 0u8), (id("AB"), 1)];
    assert_eq!(
        StablePair::new(tokens(), same_id, amp, fee, 0).err(),
        Some(ConstructionError::InvalidTokenIndex)
    );
    assert_eq!(
        StablePair::new(vec![TokenDataInput::new(6, 1)], index(1), amp, fee, 0).err(),
        Some(ConstructionError::InvalidTokenIndex)
    );
    assert_eq!(
        StablePair::new(tokens(), index(2), amp, FeeParams::new(10, 6, 5), 0).err(),
        Some(ConstructionError::InvalidFeeParams)
    );
    assert_eq!(
        StablePair::new(tokens(), index(2), amp, FeeParams::new(0, 0, 0), 0).err(),
        Some(ConstructionError::InvalidFeeParams)
    );
    assert_eq!(
        StablePair::new(tokens(), index(2), AmplificationCoefficient::new(0, 2), fee, 0).err(),
        Some(ConstructionError::InvalidAmplification)
    );
}

#[test]
fn update_balances_length_mismatch_keeps_state() {
    let mut p = balanced();
    let r = p.update_balances(vec![1, 2, 3], 7);
    assert_eq!(r, Err(BalanceCountMismatch { expected: 2, got: 3 }));
    assert_eq!(p.balances(), vec![1_000_000_000, 1_000_000_000]);
    assert_eq!(p.lp_supply(), 1_000);
}

#[test]
fn update_balances_replaces_state() {
    let mut p = balanced();
    assert_eq!(p.update_balances(vec![5, 6], 7), Ok(()));
    assert_eq!(p.balances(), vec![5, 6]);
    assert_eq!(p.lp_supply(), 7);
}

#[test]
fn fee_split_sums_to_fee() {
    let f = FeeParams::new(10_000, 25, 5);
    assert_eq!(f.split_fee(100), Some((83, 17)));
    assert_eq!(f.split_fee(0), Some((0, 0)));
    let (a, b) = f.split_fee(2_999).unwrap();
    assert_eq!(a + b, 2_999);
    assert_eq!(FeeParams::new(10, 0, 0).split_fee(9), Some((0, 9)));
}

#[test]
fn fee_amounts() {
    let f = FeeParams::new(10_000, 25, 5);
    assert_eq!(f.fee_on(999_999), Some(2_999));
    assert_eq!(f.gross_up(997_000), Some(1_000_000));
    assert_eq!(f.gross_up(1), Some(2));
    assert_eq!(FeeParams::new(10, 5, 5).gross_up(1), None);
}

#[test]
fn token_id_decoding() {
    assert_eq!(parse_token_id(&"aB".repeat(32)), Some(vec![0xab; 32]));
    assert_eq!(parse_token_id(&"0f".repeat(32)), Some(vec![0x0f; 32]));
    assert_eq!(parse_token_id(&"00".repeat(31)), None);
    assert_eq!(parse_token_id("abc"), None);
}

#[test]
fn amplification_precision_scales_value() {
    let p = balanced();
    let q = StablePair::new(
        vec![TokenDataInput::new(6, 1_000_000_000), TokenDataInput::new(6, 1_000_000_000)],
        index(2),
        AmplificationCoefficient::new(10_000, 2),
        FeeParams::new(10_000, 25, 5),
        1_000,
    )
    .unwrap();
    assert_eq!(
        q.expected_exchange(1_000_000, &id("11"), &id("22")),
        p.expected_exchange(1_000_000, &id("11"), &id("22"))
    );
}

#[test]
fn three_token_pool_quotes() {
    let p = StablePair::new(
        vec![
            TokenDataInput::new(6, 1_000_000_000),
            TokenDataInput::new(6, 1_000_000_000),
            TokenDataInput::new(6, 1_000_000_000),
        ],
        index(3),
        AmplificationCoefficient::new(100, 0),
        FeeParams::new(10_000, 25, 5),
        1_000,
    )
    .unwrap();
    let r = p.expected_exchange(1_000_000, &id("11"), &id("33")).unwrap();
    let gross = r.amount + r.fee;
    assert!(gross > 999_000 && gross <= 1_000_000, "gross {}", gross);
    assert_eq!(r.fee, gross * 30 / 10_000);
    let s = p.expected_spend_amount(r.amount, &id("33"), &id("11")).unwrap();
    assert!(s.amount + 2 >= 1_000_000, "spend {}", s.amount);
}
