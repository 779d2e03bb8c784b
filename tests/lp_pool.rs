use liquidity_pool::fixed_dec_u64::{fixed_u64_from_str_radix_10, multiply, proportional};
use liquidity_pool::lp_pool::{
    LpPool, LpPoolError, LpTokenAmount, Price, StakedTokenAmount, TokenAmount,
};
use liquidity_pool::percentage::{Percentage, PERCENTAGE_MAX};

fn seeded_pool() -> LpPool {
    let price = Price(fixed_u64_from_str_radix_10("1.5").unwrap());
    let fee_min = Percentage::try_from(fixed_u64_from_str_radix_10("0.001").unwrap()).unwrap();
    let fee_max = Percentage::try_from(fixed_u64_from_str_radix_10("0.09").unwrap()).unwrap();
    let token_amount = TokenAmount(fixed_u64_from_str_radix_10("90.").unwrap());
    LpPool::init(price, fee_min, fee_max, token_amount).unwrap()
}

#[test]
fn works() {
    let mut lp_pool = seeded_pool();
    let first_lp_tokens = lp_pool.add_liquidity(TokenAmount(fixed_u64_from_str_radix_10("100.").unwrap())).unwrap();
    assert_eq!(first_lp_tokens.0, fixed_u64_from_str_radix_10("100.").unwrap());
    let first_tokens = lp_pool.swap(StakedTokenAmount(fixed_u64_from_str_radix_10("6.").unwrap())).unwrap();
    assert_eq!(first_tokens.0, fixed_u64_from_str_radix_10("8.991").unwrap());
    let second_lp_tokens = lp_pool.add_liquidity(TokenAmount(fixed_u64_from_str_radix_10("10.").unwrap())).unwrap();
    assert_eq!(second_lp_tokens.0, fixed_u64_from_str_radix_10("9.9991").unwrap());
    let second_tokens = lp_pool.swap(StakedTokenAmount(fixed_u64_from_str_radix_10("30.").unwrap())).unwrap();
    assert_eq!(second_tokens.0, fixed_u64_from_str_radix_10("43.44237").unwrap());
    let (first_staked_tokens, third_tokens) = lp_pool
        .remove_liquidity(LpTokenAmount(fixed_u64_from_str_radix_10("109.9991").unwrap()))
        .unwrap();
    assert_eq!(third_tokens.0, fixed_u64_from_str_radix_10("57.56663").unwrap());
    assert_eq!(first_staked_tokens.0, fixed_u64_from_str_radix_10("36.").unwrap());
}

#[test]
fn init_works() {
    let price = Price(fixed_u64_from_str_radix_10("1.5").unwrap());
    let fee_min = Percentage::try_from(fixed_u64_from_str_radix_10("0.001").unwrap()).unwrap();
    let fee_max = Percentage::try_from(fixed_u64_from_str_radix_10("0.09").unwrap()).unwrap();
    let token_amount = TokenAmount(fixed_u64_from_str_radix_10("90.").unwrap());
    let _ = LpPool::init(price, fee_min, fee_max, token_amount).unwrap();
}

#[test]
fn init_fails_with_incorrect_fee() {
    let price = Price(fixed_u64_from_str_radix_10("1.5").unwrap());
    let fee_min = Percentage::try_from(fixed_u64_from_str_radix_10("0.091").unwrap()).unwrap();
    let fee_max = Percentage::try_from(fixed_u64_from_str_radix_10("0.090").unwrap()).unwrap();
    let token_amount = TokenAmount(fixed_u64_from_str_radix_10("90.").unwrap());
    let lp_pool = LpPool::init(price, fee_min, fee_max, token_amount);
    assert_eq!(lp_pool.unwrap_err(), LpPoolError::FeeMaxLowerThanFeeMin { max: fee_max, min: fee_min })
}

#[test]
fn init_fails_with_incorrect_price() {
    let price = Price(fixed_u64_from_str_radix_10("0.").unwrap());
    let fee_min = Percentage::try_from(fixed_u64_from_str_radix_10("0.090").unwrap()).unwrap();
    let fee_max = Percentage::try_from(fixed_u64_from_str_radix_10("0.091").unwrap()).unwrap();
    let token_amount = TokenAmount(fixed_u64_from_str_radix_10("90.").unwrap());
    let lp_pool = LpPool::init(price, fee_min, fee_max, token_amount);
    assert_eq!(lp_pool.unwrap_err(), LpPoolError::ExchangePriceIsZero)
}

#[test]
fn add_lqiuidity_works() {
    let mut lp_pool = seeded_pool();
    let token_amount = fixed_u64_from_str_radix_10("100.").unwrap();
    let additional_tokens = fixed_u64_from_str_radix_10("10.").unwrap();
    assert_eq!(lp_pool.add_liquidity(TokenAmount(token_amount)).unwrap().0, token_amount);
    let result = proportional(token_amount, additional_tokens, token_amount).unwrap();
    assert_eq!(lp_pool.add_liquidity(TokenAmount(additional_tokens)).unwrap().0, result);
}

#[test]
fn add_lqiuidity_fails() {
    let mut lp_pool = seeded_pool();
    let token_amount = u64::MAX;
    let additional_tokens = fixed_u64_from_str_radix_10("10.").unwrap();
    assert_eq!(lp_pool.add_liquidity(TokenAmount(token_amount)).unwrap().0, token_amount);
    assert_eq!(lp_pool.add_liquidity(TokenAmount(additional_tokens)).unwrap_err(), LpPoolError::CalculationError);
}

#[test]
fn swap_works() {
    let mut lp_pool = seeded_pool();
    let token_amount = fixed_u64_from_str_radix_10("90.").unwrap();
    lp_pool.add_liquidity(TokenAmount(token_amount)).unwrap();

    let st_token_amount = fixed_u64_from_str_radix_10("30.").unwrap();
    let fee = fixed_u64_from_str_radix_10("0.0455").unwrap();
    let st_token_amount_taken_by_fee = multiply(fee, st_token_amount).unwrap();
    let expected_token_amount = multiply(st_token_amount - st_token_amount_taken_by_fee, lp_pool.price().0).unwrap();
    assert_eq!(lp_pool.swap(StakedTokenAmount(st_token_amount)).unwrap().0, expected_token_amount);
}

#[test]
fn swap_fails() {
    let mut pool = seeded_pool();
    assert_eq!(pool.swap(StakedTokenAmount(1)).unwrap_err(), LpPoolError::CalculationError);
}

#[test]
fn remove_liquidity_works() {
    let mut lp_pool = seeded_pool();
    let token_amount = fixed_u64_from_str_radix_10("90.").unwrap();
    lp_pool.add_liquidity(TokenAmount(token_amount)).unwrap();

    let st_token_amount = fixed_u64_from_str_radix_10("30.").unwrap();
    let fee = fixed_u64_from_str_radix_10("0.0455").unwrap();
    let st_token_amount_taken_by_fee = multiply(fee, st_token_amount).unwrap();
    let expected_token_amount = multiply(st_token_amount - st_token_amount_taken_by_fee, lp_pool.price().0).unwrap();
    lp_pool.swap(StakedTokenAmount(st_token_amount)).unwrap();
    let (removed_st_token_amount, removed_token_amount) =
        lp_pool.remove_liquidity(LpTokenAmount(fixed_u64_from_str_radix_10("90.").unwrap())).unwrap();
    assert_eq!(removed_token_amount.0, token_amount - expected_token_amount);
    assert_eq!(removed_st_token_amount.0, st_token_amount);
}

#[test]
fn remove_liquidity_fails() {
    let mut lp_pool = seeded_pool();
    let token_amount = fixed_u64_from_str_radix_10("90.").unwrap();
    lp_pool.add_liquidity(TokenAmount(token_amount)).unwrap();

    let st_token_amount = fixed_u64_from_str_radix_10("30.").unwrap();
    lp_pool.swap(StakedTokenAmount(st_token_amount)).unwrap();
    let removed_lp_tokens = fixed_u64_from_str_radix_10("91.").unwrap();
    assert_eq!(
        lp_pool.remove_liquidity(LpTokenAmount(removed_lp_tokens)).unwrap_err(),
        LpPoolError::ValueTooLarge { val: removed_lp_tokens, max: token_amount }
    );
}

#[test]
fn fee_works() {
    let mut lp_pool = seeded_pool();
    let token_amount = fixed_u64_from_str_radix_10("90.").unwrap();
    let half_token_amount = token_amount / 2;
    assert_eq!(lp_pool.add_liquidity(TokenAmount(token_amount)).unwrap().0, token_amount);
    assert_eq!(lp_pool.fee(TokenAmount(0)).unwrap().bits(), fixed_u64_from_str_radix_10("0.001").unwrap());
    assert_eq!(lp_pool.fee(TokenAmount(half_token_amount)).unwrap().bits(), fixed_u64_from_str_radix_10("0.0455").unwrap());
    assert_eq!(lp_pool.fee(TokenAmount(token_amount)).unwrap().bits(), fixed_u64_from_str_radix_10("0.09").unwrap());
}

#[test]
fn fee_stays_between_bounds() {
    let mut lp_pool = seeded_pool();
    let reserve = fixed_u64_from_str_radix_10("200.").unwrap();
    lp_pool.add_liquidity(TokenAmount(reserve)).unwrap();
    let min = lp_pool.fee_min().bits();
    let max = lp_pool.fee_max().bits();
    let mut previous = 0;
    for taken in (0..=reserve).step_by(7_000_000) {
        let fee = lp_pool.fee(TokenAmount(taken)).unwrap().bits();
        assert!(min <= fee && fee <= max);
        assert!(fee >= previous);
        previous = fee;
        if reserve - taken >= lp_pool.liquidity_target().0 {
            assert_eq!(fee, min);
        }
    }
    assert_eq!(lp_pool.fee(TokenAmount(reserve)).unwrap().bits(), max);
    assert_eq!(lp_pool.fee(TokenAmount(reserve + 1)).unwrap_err(), LpPoolError::CalculationError);
}

#[test]
fn fee_with_zero_target_is_the_minimum() {
    let fee_min = Percentage::try_from(1_000).unwrap();
    let fee_max = Percentage::try_from(90_000).unwrap();
    let mut lp_pool = LpPool::init(Price(2_000_000), fee_min, fee_max, TokenAmount(0)).unwrap();
    lp_pool.add_liquidity(TokenAmount(5_000_000)).unwrap();
    assert_eq!(lp_pool.fee(TokenAmount(5_000_000)).unwrap().bits(), 1_000);
    assert_eq!(lp_pool.fee(TokenAmount(1)).unwrap().bits(), 1_000);
}

#[test]
fn bootstrap_and_proportional_mint() {
    let mut lp_pool = seeded_pool();
    assert_eq!(lp_pool.add_liquidity(TokenAmount(12_345)).unwrap().0, 12_345);
    assert_eq!(lp_pool.swap(StakedTokenAmount(2_000)).unwrap().0, 2_731);
    let value = lp_pool.token_amount().0 + multiply(lp_pool.st_token_amount().0, lp_pool.price().0).unwrap();
    let shares = lp_pool.lp_token_amount().0;
    let minted = lp_pool.add_liquidity(TokenAmount(7_777)).unwrap().0;
    assert_eq!(minted, shares * 7_777 / value);
    assert_eq!(lp_pool.lp_token_amount().0, shares + minted);
    assert_eq!(lp_pool.token_amount().0, 12_345 - 2_731 + 7_777);
}

#[test]
fn zero_deposit_into_empty_pool_mints_nothing() {
    let mut lp_pool = seeded_pool();
    assert_eq!(lp_pool.add_liquidity(TokenAmount(0)).unwrap().0, 0);
    assert_eq!(lp_pool.lp_token_amount().0, 0);
}

#[test]
fn failed_operations_leave_the_pool_unchanged() {
    let mut lp_pool = seeded_pool();
    lp_pool.add_liquidity(TokenAmount(90_000_000)).unwrap();
    let before = (lp_pool.token_amount().0, lp_pool.st_token_amount().0, lp_pool.lp_token_amount().0);
    lp_pool.swap(StakedTokenAmount(61_000_000)).unwrap_err();
    lp_pool.remove_liquidity(LpTokenAmount(90_000_001)).unwrap_err();
    lp_pool.add_liquidity(TokenAmount(u64::MAX)).unwrap_err();
    let after = (lp_pool.token_amount().0, lp_pool.st_token_amount().0, lp_pool.lp_token_amount().0);
    assert_eq!(before, after);
}

#[test]
fn redeemed_shares_are_burned() {
    let mut lp_pool = seeded_pool();
    lp_pool.add_liquidity(TokenAmount(100_000_000)).unwrap();
    let (staked, tokens) = lp_pool.remove_liquidity(LpTokenAmount(40_000_000)).unwrap();
    assert_eq!((staked.0, tokens.0), (0, 40_000_000));
    assert_eq!(lp_pool.lp_token_amount().0, 60_000_000);
    assert_eq!(lp_pool.token_amount().0, 60_000_000);
    assert_eq!(
        lp_pool.remove_liquidity(LpTokenAmount(60_000_001)).unwrap_err(),
        LpPoolError::ValueTooLarge { val: 60_000_001, max: 60_000_000 }
    );
}

#[test]
fn getters_report_the_parameters() {
    let lp_pool = seeded_pool();
    assert_eq!(lp_pool.price().0, 1_500_000);
    assert_eq!(lp_pool.liquidity_target().0, 90_000_000);
    assert_eq!(lp_pool.fee_min().bits(), 1_000);
    assert_eq!(lp_pool.fee_max().bits(), 90_000);
    assert_eq!(lp_pool.st_token_amount().0, 0);
}

#[test]
fn percentage_bound_is_inclusive() {
    // The bound is `PERCENTAGE_MAX` itself.
    assert_eq!(Percentage::try_from(PERCENTAGE_MAX).unwrap().bits(), PERCENTAGE_MAX);
    assert_eq!(
        Percentage::try_from(PERCENTAGE_MAX + 1).unwrap_err(),
        LpPoolError::ValueTooLarge { val: PERCENTAGE_MAX + 1, max: PERCENTAGE_MAX }
    );
    assert_eq!(
        Percentage::try_from(PERCENTAGE_MAX * 100).unwrap_err(),
        LpPoolError::ValueTooLarge { val: PERCENTAGE_MAX * 100, max: PERCENTAGE_MAX }
    );
    let p = Percentage::try_from(42).unwrap();
    assert_eq!(p.check().unwrap().bits(), 42);
}

#[test]
fn swap_fee_larger_than_payout_fails() {
    let fee = Percentage::try_from(2_000_000).unwrap();
    let mut lp_pool = LpPool::init(Price(1_000_000), fee, fee, TokenAmount(0)).unwrap();
    lp_pool.add_liquidity(TokenAmount(50_000_000)).unwrap();
    assert_eq!(lp_pool.swap(StakedTokenAmount(1_000_000)).unwrap_err(), LpPoolError::CalculationError);
}
