//! A fixed-point liquidity pool: staked tokens are swapped for base tokens at a
//! fixed price, with a fee that rises as the base-token reserve runs low, and
//! pool shares are minted and redeemed in proportion to the value contributed.
pub mod fixed_dec_u64;
pub mod lp_pool;
pub mod percentage;
