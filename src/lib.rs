//! A constant-product liquidity pool: two reserves, proportional ownership
//! shares, and fee-bearing swaps, with all amount arithmetic done exactly.
pub mod ledger;
pub mod pool;
pub mod wide;
