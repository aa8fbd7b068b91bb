//! Pricing engine for a multi-asset stable-swap pool: forward and reverse
//! quotes against the stable-swap invariant, a fee split between the pool and
//! a beneficiary, and a pool snapshot that callers keep up to date.
use vstd::prelude::*;

pub mod curve;
pub mod wide;
pub mod fee;
pub mod token_id;
pub mod pair;

pub use fee::FeeParams;
pub use pair::{
    AmplificationCoefficient, BalanceCountMismatch, ConstructionError, QuoteError, StablePair,
    SwapResult, TokenDataInput,
};

verus! {

} // verus!
