//! The pool: reserves of base and staked tokens, outstanding shares, and the
//! operations that move them.
//!
//! Each operation computes every derived amount first and writes the reserves
//! only once all of them have succeeded, so a failed call leaves the pool as it
//! was. Redeemed shares are burned: `remove_liquidity` takes them off the
//! outstanding count, so the same shares cannot be redeemed twice.
use vstd::prelude::*;

use crate::fixed_dec_u64::{multiply, multiply_spec, proportional, proportional_spec};
use crate::percentage::{lemma_from_raw, Percentage, PERCENTAGE_MAX};

verus! {

/// An amount of the base token.
#[derive(Clone, Copy, Debug)]
pub struct TokenAmount(pub u64);

/// An amount of the staked token.
#[derive(Clone, Copy, Debug)]
pub struct StakedTokenAmount(pub u64);

/// An amount of pool shares.
#[derive(Clone, Copy, Debug)]
pub struct LpTokenAmount(pub u64);

/// Base tokens paid for one staked token.
#[derive(Clone, Copy, Debug)]
pub struct Price(pub u64);

/// What can go wrong in the pool and its arithmetic.
#[derive(Debug, PartialEq, Eq, Structural)]
pub enum LpPoolError {
    FeeMaxLowerThanFeeMin { max: Percentage, min: Percentage },
    ExchangePriceIsZero,
    CalculationError,
    ValueTooLarge { val: u64, max: u64 },
}

/// The pool as plain numbers, all in the fixed scale.
pub struct PoolState {
    pub price: u64,
    pub token: u64,
    pub staked: u64,
    pub shares: u64,
    pub liquidity_target: u64,
    pub fee_min: u64,
    pub fee_max: u64,
}

impl PoolState {
    /// What every pool satisfies: a non-zero price and ordered fee bounds
    /// within the percentage range.
    pub open spec fn inv(self) -> bool {
        &&& self.price > 0
        &&& self.fee_min <= self.fee_max <= PERCENTAGE_MAX
    }
}

/// `a + b` when it fits in 64 bits, else `CalculationError`.
pub open spec fn checked_add_spec(a: u64, b: u64) -> Result<u64, LpPoolError> {
    if a + b <= u64::MAX {
        Ok((a + b) as u64)
    } else {
        Err(LpPoolError::CalculationError)
    }
}

/// The pool's value in base tokens: the base reserve plus the staked reserve at
/// the pool's price.
pub open spec fn pool_value(s: PoolState) -> Result<u64, LpPoolError> {
    match multiply_spec(s.staked, s.price) {
        Ok(v) => checked_add_spec(s.token, v),
        Err(e) => Err(e),
    }
}

/// Shares minted for a deposit of `t` when the pool is worth `value`: one for
/// one into a worthless pool, else in proportion to the value added.
pub open spec fn minted_shares(s: PoolState, value: u64, t: u64) -> Result<u64, LpPoolError> {
    if value == 0 {
        Ok(t)
    } else {
        proportional_spec(s.shares, t, value)
    }
}

/// The pool after a deposit of `t` base tokens, and the shares minted for it.
pub open spec fn add_liquidity_outcome(s: PoolState, t: u64) -> Result<(PoolState, u64), LpPoolError> {
    match pool_value(s) {
        Err(e) => Err(e),
        Ok(value) => match minted_shares(s, value, t) {
            Err(e) => Err(e),
            Ok(m) => if s.token + t <= u64::MAX && s.shares + m <= u64::MAX {
                Ok((PoolState { token: (s.token + t) as u64, shares: (s.shares + m) as u64, ..s }, m))
            } else {
                Err(LpPoolError::CalculationError)
            },
        },
    }
}

/// The fee rate when `remaining` base tokens are left in the pool: the minimum
/// above the liquidity target, and below it a straight line that reaches the
/// maximum at zero.
pub open spec fn fee_rate(s: PoolState, remaining: int) -> int {
    if remaining > s.liquidity_target {
        s.fee_min as int
    } else if s.liquidity_target == 0 {
        s.fee_min as int
    } else {
        s.fee_max - (s.fee_max - s.fee_min) * remaining / (s.liquidity_target as int)
    }
}

/// The fee rate for taking `taken` base tokens out, or `CalculationError` when
/// the reserve holds fewer.
pub open spec fn fee_outcome(s: PoolState, taken: u64) -> Result<u64, LpPoolError> {
    if taken > s.token {
        Err(LpPoolError::CalculationError)
    } else {
        Ok(fee_rate(s, s.token - taken) as u64)
    }
}

/// The pool after `x` staked tokens are swapped in, and the base tokens paid
/// out for them net of the fee.
pub open spec fn swap_outcome(s: PoolState, x: u64) -> Result<(PoolState, u64), LpPoolError> {
    match multiply_spec(x, s.price) {
        Err(e) => Err(e),
        Ok(gross) => match fee_outcome(s, gross) {
            Err(e) => Err(e),
            Ok(rate) => match multiply_spec(rate, gross) {
                Err(e) => Err(e),
                Ok(fee_tokens) => if fee_tokens <= gross && gross - fee_tokens <= s.token
                    && s.staked + x <= u64::MAX {
                    let net = (gross - fee_tokens) as u64;
                    Ok((PoolState { token: (s.token - net) as u64, staked: (s.staked + x) as u64, ..s }, net))
                } else {
                    Err(LpPoolError::CalculationError)
                },
            },
        },
    }
}

/// The pool after `n` shares are redeemed, and the staked and base tokens paid
/// out for them.
pub open spec fn remove_liquidity_outcome(s: PoolState, n: u64) -> Result<(PoolState, u64, u64), LpPoolError> {
    if n > s.shares {
        Err(LpPoolError::ValueTooLarge { val: n, max: s.shares })
    } else {
        match proportional_spec(s.staked, n, s.shares) {
            Err(e) => Err(e),
            Ok(staked_out) => match proportional_spec(s.token, n, s.shares) {
                Err(e) => Err(e),
                Ok(token_out) => if token_out <= s.token && staked_out <= s.staked {
                    Ok((PoolState {
                        token: (s.token - token_out) as u64,
                        staked: (s.staked - staked_out) as u64,
                        shares: (s.shares - n) as u64,
                        ..s
                    }, staked_out, token_out))
                } else {
                    Err(LpPoolError::CalculationError)
                },
            },
        }
    }
}

/// A liquidity pool with a fixed exchange price and a fee that depends on how
/// much of the base reserve a swap would leave.
#[derive(Debug)]
pub struct LpPool {
    price: Price,
    token_amount: TokenAmount,
    st_token_amount: StakedTokenAmount,
    lp_token_amount: LpTokenAmount,
    liquidity_target: TokenAmount,
    fee_min: Percentage,
    fee_max: Percentage,
}

impl View for LpPool {
    type V = PoolState;

    closed spec fn view(&self) -> PoolState {
        PoolState {
            price: self.price.0,
            token: self.token_amount.0,
            staked: self.st_token_amount.0,
            shares: self.lp_token_amount.0,
            liquidity_target: self.liquidity_target.0,
            fee_min: self.fee_min@,
            fee_max: self.fee_max@,
        }
    }
}

proof fn lemma_scaled_down(a: int, b: int, c: int)
    requires
        0 <= a,
        0 <= b <= c,
        0 < c,
    ensures
        0 <= a * b / c <= a,
{
    assert(0 <= a * b / c <= a) by (nonlinear_arith)
        requires
            0 <= a,
            0 <= b <= c,
            0 < c,
    {
        assert(a * b <= a * c);
        assert(a * c / c == a);
    }
}

impl LpPool {
    #[verifier::type_invariant]
    spec fn well_formed(self) -> bool {
        self@.inv()
    }

    /// A pool with empty reserves, or an error when the fee bounds are out of
    /// order or the price is zero.
    pub fn init(price: Price, fee_min: Percentage, fee_max: Percentage, liquidity_target: TokenAmount) -> (r: Result<Self, LpPoolError>)
        ensures
            match r {
                Ok(pool) => {
                    &&& fee_min@ <= fee_max@
                    &&& price.0 != 0
                    &&& pool@ == (PoolState {
                        price: price.0,
                        token: 0,
                        staked: 0,
                        shares: 0,
                        liquidity_target: liquidity_target.0,
                        fee_min: fee_min@,
                        fee_max: fee_max@,
                    })
                },
                Err(e) => if fee_max@ < fee_min@ {
                    e == (LpPoolError::FeeMaxLowerThanFeeMin { max: fee_max, min: fee_min })
                } else {
                    price.0 == 0 && e == LpPoolError::ExchangePriceIsZero
                },
            },
    {
        let max_bits = fee_max.bits();
        let min_bits = fee_min.bits();
        if max_bits < min_bits {
            return Err(LpPoolError::FeeMaxLowerThanFeeMin { max: fee_max, min: fee_min });
        }
        if price.0 == 0 {
            return Err(LpPoolError::ExchangePriceIsZero);
        }
        Ok(LpPool {
            price,
            token_amount: TokenAmount(0),
            st_token_amount: StakedTokenAmount(0),
            lp_token_amount: LpTokenAmount(0),
            liquidity_target,
            fee_min,
            fee_max,
        })
    }

    /// The pool's value in base tokens.
    fn current_liquidity(&self) -> (r: Result<TokenAmount, LpPoolError>)
        ensures
            match r {
                Ok(v) => pool_value(self@) == Ok::<u64, LpPoolError>(v.0),
                Err(e) => pool_value(self@) == Err::<u64, LpPoolError>(e),
            },
    {
        let staked_value = match multiply(self.st_token_amount.0, self.price.0) {
            Ok(v) => v,
            Err(e) => return Err(e),
        };
        if self.token_amount.0 > u64::MAX - staked_value {
            return Err(LpPoolError::CalculationError);
        }
        Ok(TokenAmount(self.token_amount.0 + staked_value))
    }

    /// Deposits `token_amount` base tokens and returns the shares minted for them.
    pub fn add_liquidity(&mut self, token_amount: TokenAmount) -> (r: Result<LpTokenAmount, LpPoolError>)
        ensures
            match add_liquidity_outcome(old(self)@, token_amount.0) {
                Ok((s, m)) => r matches Ok(minted) && minted.0 == m && final(self)@ == s,
                Err(e) => r == Err::<LpTokenAmount, LpPoolError>(e) && final(self)@ == old(self)@,
            },
    {
        proof {
            use_type_invariant(&*self);
        }
        let value = match self.current_liquidity() {
            Ok(v) => v,
            Err(e) => return Err(e),
        };
        let minted = if value.0 == 0 {
            token_amount.0
        } else {
            match proportional(self.lp_token_amount.0, token_amount.0, value.0) {
                Ok(m) => m,
                Err(e) => return Err(e),
            }
        };
        if self.token_amount.0 > u64::MAX - token_amount.0 {
            return Err(LpPoolError::CalculationError);
        }
        if self.lp_token_amount.0 > u64::MAX - minted {
            return Err(LpPoolError::CalculationError);
        }
        self.token_amount = TokenAmount(self.token_amount.0 + token_amount.0);
        self.lp_token_amount = LpTokenAmount(self.lp_token_amount.0 + minted);
        Ok(LpTokenAmount(minted))
    }

    /// Swaps `st_token_amount` staked tokens in and returns the base tokens paid
    /// out: their value at the pool's price, less the fee.
    pub fn swap(&mut self, st_token_amount: StakedTokenAmount) -> (r: Result<TokenAmount, LpPoolError>)
        ensures
            match swap_outcome(old(self)@, st_token_amount.0) {
                Ok((s, net)) => r matches Ok(paid) && paid.0 == net && final(self)@ == s,
                Err(e) => r == Err::<TokenAmount, LpPoolError>(e) && final(self)@ == old(self)@,
            },
    {
        proof {
            use_type_invariant(&*self);
        }
        let gross = match multiply(st_token_amount.0, self.price.0) {
            Ok(v) => v,
            Err(e) => return Err(e),
        };
        let rate = match self.fee(TokenAmount(gross)) {
            Ok(p) => p,
            Err(e) => return Err(e),
        };
        let fee_tokens = match multiply(rate.bits(), gross) {
            Ok(v) => v,
            Err(e) => return Err(e),
        };
        if fee_tokens > gross {
            return Err(LpPoolError::CalculationError);
        }
        let net = gross - fee_tokens;
        // The base reserve must cover the payout.
        if net > self.token_amount.0 {
            return Err(LpPoolError::CalculationError);
        }
        if self.st_token_amount.0 > u64::MAX - st_token_amount.0 {
            return Err(LpPoolError::CalculationError);
        }
        self.token_amount = TokenAmount(self.token_amount.0 - net);
        self.st_token_amount = StakedTokenAmount(self.st_token_amount.0 + st_token_amount.0);
        Ok(TokenAmount(net))
    }

    /// Redeems `lp_token_amount` shares for their part of both reserves, and
    /// burns them.
    pub fn remove_liquidity(&mut self, lp_token_amount: LpTokenAmount) -> (r: Result<(StakedTokenAmount, TokenAmount), LpPoolError>)
        ensures
            match remove_liquidity_outcome(old(self)@, lp_token_amount.0) {
                Ok((s, staked_out, token_out)) => r matches Ok((st, tok)) && st.0 == staked_out
                    && tok.0 == token_out && final(self)@ == s,
                Err(e) => r == Err::<(StakedTokenAmount, TokenAmount), LpPoolError>(e)
                    && final(self)@ == old(self)@,
            },
    {
        proof {
            use_type_invariant(&*self);
        }
        let n = lp_token_amount.0;
        if n > self.lp_token_amount.0 {
            return Err(LpPoolError::ValueTooLarge { val: n, max: self.lp_token_amount.0 });
        }
        let staked_out = match proportional(self.st_token_amount.0, n, self.lp_token_amount.0) {
            Ok(v) => v,
            Err(e) => return Err(e),
        };
        let token_out = match proportional(self.token_amount.0, n, self.lp_token_amount.0) {
            Ok(v) => v,
            Err(e) => return Err(e),
        };
        if token_out > self.token_amount.0 || staked_out > self.st_token_amount.0 {
            return Err(LpPoolError::CalculationError);
        }
        self.token_amount = TokenAmount(self.token_amount.0 - token_out);
        self.st_token_amount = StakedTokenAmount(self.st_token_amount.0 - staked_out);
        self.lp_token_amount = LpTokenAmount(self.lp_token_amount.0 - n);
        Ok((StakedTokenAmount(staked_out), TokenAmount(token_out)))
    }

    /// The fee rate for a swap that takes `taken_token_amount` base tokens out
    /// of the pool, judged by what it would leave in the reserve.
    pub fn fee(&self, taken_token_amount: TokenAmount) -> (r: Result<Percentage, LpPoolError>)
        ensures
            match fee_outcome(self@, taken_token_amount.0) {
                Ok(f) => r matches Ok(p) && p@ == f,
                Err(e) => r == Err::<Percentage, LpPoolError>(e),
            },
    {
        proof {
            use_type_invariant(self);
        }
        if taken_token_amount.0 > self.token_amount.0 {
            return Err(LpPoolError::CalculationError);
        }
        let remaining = self.token_amount.0 - taken_token_amount.0;
        if self.liquidity_target.0 < remaining {
            return Ok(self.fee_min);
        }
        let delta = match self.fee_delta() {
            Ok(d) => d,
            Err(e) => return Err(e),
        };
        let target = self.liquidity_target.0;
        proof {
            if target > 0 {
                lemma_scaled_down(delta@ as int, remaining as int, target as int);
            }
        }
        let reduction = match proportional(delta.bits(), remaining, target) {
            Ok(v) => v,
            Err(e) => return Err(e),
        };
        let fee = self.fee_max.bits() - reduction;
        proof {
            lemma_from_raw(fee);
        }
        Percentage::try_from(fee)
    }

    /// The width of the fee range, `fee_max - fee_min`.
    fn fee_delta(&self) -> (r: Result<Percentage, LpPoolError>)
        ensures
            r matches Ok(p) && p@ == self@.fee_max - self@.fee_min,
    {
        proof {
            use_type_invariant(self);
        }
        let delta = self.fee_max.bits() - self.fee_min.bits();
        proof {
            lemma_from_raw(delta);
        }
        Percentage::try_from(delta)
    }

    /// The exchange price.
    pub fn price(&self) -> (r: Price)
        ensures
            r.0 == self@.price,
    {
        self.price
    }

    /// The base-token reserve.
    pub fn token_amount(&self) -> (r: TokenAmount)
        ensures
            r.0 == self@.token,
    {
        self.token_amount
    }

    /// The staked-token reserve.
    pub fn st_token_amount(&self) -> (r: StakedTokenAmount)
        ensures
            r.0 == self@.staked,
    {
        self.st_token_amount
    }

    /// The outstanding shares.
    pub fn lp_token_amount(&self) -> (r: LpTokenAmount)
        ensures
            r.0 == self@.shares,
    {
        self.lp_token_amount
    }

    /// The base reserve above which swaps pay the minimum fee.
    pub fn liquidity_target(&self) -> (r: TokenAmount)
        ensures
            r.0 == self@.liquidity_target,
    {
        self.liquidity_target
    }

    /// The lowest fee rate.
    pub fn fee_min(&self) -> (r: Percentage)
        ensures
            r@ == self@.fee_min,
    {
        self.fee_min
    }

    /// The highest fee rate.
    pub fn fee_max(&self) -> (r: Percentage)
        ensures
            r@ == self@.fee_max,
    {
        self.fee_max
    }
}

/// A deposit into an empty pool mints exactly as many shares as tokens
/// deposited.
pub proof fn lemma_bootstrap_mint(s: PoolState, t: u64)
    requires
        s.inv(),
        s.token == 0,
        s.staked == 0,
        s.shares == 0,
    ensures
        add_liquidity_outcome(s, t) matches Ok((after, minted)) && minted == t && after.shares == t
            && after.token == t,
{
}

/// Into a pool worth `V > 0` base tokens with `S` shares outstanding, a deposit
/// of `T > 0` mints `⌊S·T/V⌋` shares, as long as the new reserve and share count
/// fit in 64 bits.
pub proof fn lemma_proportional_mint(s: PoolState, t: u64, v: u64)
    requires
        s.inv(),
        pool_value(s) == Ok::<u64, LpPoolError>(v),
        v > 0,
        t > 0,
        s.token + t <= u64::MAX,
        s.shares + s.shares * t / v as int <= u64::MAX,
    ensures
        add_liquidity_outcome(s, t) matches Ok((after, minted)) && minted == s.shares * t / v as int,
{
    assert(0 <= s.shares * t / v as int) by (nonlinear_arith)
        requires
            v > 0,
    ;
}

/// The fee for a swap that the reserve can cover lies between the minimum and
/// the maximum, and is the minimum whenever at least the liquidity target
/// would remain.
pub proof fn lemma_fee_bounds(s: PoolState, taken: u64)
    requires
        s.inv(),
        taken <= s.token,
    ensures
        fee_outcome(s, taken) matches Ok(f) && s.fee_min <= f <= s.fee_max && (s.token - taken
            >= s.liquidity_target ==> f == s.fee_min),
{
    let remaining = s.token - taken;
    let target = s.liquidity_target as int;
    let delta = s.fee_max - s.fee_min;
    if remaining <= target && target > 0 {
        lemma_scaled_down(delta, remaining, target);
        if remaining == target {
            vstd::arithmetic::div_mod::lemma_div_multiples_vanish(delta, target);
            assert(delta * target == target * delta) by (nonlinear_arith);
        }
    }
}

/// The fee never falls as the reserve that a swap would leave shrinks.
pub proof fn lemma_fee_monotone(s: PoolState, remaining_low: int, remaining_high: int)
    requires
        s.inv(),
        0 <= remaining_low <= remaining_high,
    ensures
        fee_rate(s, remaining_high) <= fee_rate(s, remaining_low),
{
    let target = s.liquidity_target as int;
    let delta = s.fee_max - s.fee_min;
    if target > 0 && remaining_low <= target {
        lemma_scaled_down(delta, remaining_low, target);
        if remaining_high <= target {
            assert(delta * remaining_low <= delta * remaining_high) by (nonlinear_arith)
                requires
                    0 <= delta,
                    remaining_low <= remaining_high,
            ;
            vstd::arithmetic::div_mod::lemma_div_is_ordered(
                delta * remaining_low,
                delta * remaining_high,
                target,
            );
        }
    }
}

/// Redeeming more shares than are outstanding fails with `ValueTooLarge`,
/// naming the request and the outstanding count.
pub proof fn lemma_over_redemption(s: PoolState, n: u64)
    requires
        n > s.shares,
    ensures
        remove_liquidity_outcome(s, n) == Err::<(PoolState, u64, u64), LpPoolError>(
            LpPoolError::ValueTooLarge { val: n, max: s.shares },
        ),
{
}

} // verus!
