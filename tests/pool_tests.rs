use amm_pool::ledger::{add_to_collection, ShareLedger};
use amm_pool::pool::{Contract, PoolError};
use amm_pool::wide::{mul_div, mul_div_rem};

const ONE_NEAR: u128 = 1_000_000_000_000_000_000_000_000;

fn bob() -> String {
    "bob".to_string()
}

fn funded_pool() -> Contract {
    let mut contract = Contract::new(bob(), 3).unwrap();
    contract
        .ft_on_transfer(&bob(), &bob(), 10 * ONE_NEAR, &"liquidity".to_owned(), 5 * ONE_NEAR)
        .unwrap();
    contract
}

#[test]
fn test_init_liquidity() {
    let one_near = 10u128.pow(24);
    let mut contract = Contract::new(bob(), 3).unwrap();
    contract
        .ft_on_transfer(&bob(), &bob(), 10 * one_near, &"liquidity".to_owned(), 5 * one_near)
        .unwrap();
    let shares_amount: u128 = contract.shares_balance(&bob());
    assert_eq!(shares_amount, 5 * one_near);
}

#[test]
fn test_swap() {
    let one_near = 10u128.pow(24);
    let mut contract = Contract::new(bob(), 3).unwrap();
    contract
        .ft_on_transfer(&bob(), &bob(), 10 * one_near, &"liquidity".to_owned(), 5 * one_near)
        .unwrap();

    let near_to_token = contract.get_near_to_token_price(one_near).unwrap();
    assert_eq!(near_to_token, 557227237267357628440878);
    let token_to_near = contract.get_token_to_near_price(one_near).unwrap();
    assert_eq!(token_to_near, 2507522567703109327983951);

    let input_price = contract
        .get_input_price(3 * one_near, contract.near_amount, contract.lp_token_amount)
        .unwrap();
    // (5 + 3) * (10 - b) = 5 * 10, so b = 3.75 before the fee.
    let expected_input_price = one_near / 100 * 375;
    let expected_input_price_with_fee =
        expected_input_price * (1000 - contract.fee as u128) / 1000;
    assert_eq!(input_price, expected_input_price_with_fee);

    let result = contract.swap_near_to_token(3 * one_near, 1).unwrap();
    assert_eq!(contract.near_amount, 8 * one_near);
    assert_eq!(contract.lp_token_amount, 10 * one_near - result);
}

#[test]
fn test_remove_liquidity() {
    let one_near = 10u128.pow(24);
    let mut contract = Contract::new(bob(), 3).unwrap();
    contract
        .ft_on_transfer(&bob(), &bob(), 10 * one_near, &"liquidity".to_owned(), 5 * one_near)
        .unwrap();
    let shares_amount: u128 = contract.shares_balance(&bob());
    contract.remove_liquidity(&bob(), shares_amount, 1, 1).unwrap();
    assert_eq!(contract.near_amount, 0);
    assert_eq!(contract.lp_token_amount, 0);
}

#[test]
fn first_deposit_sets_reserves_and_shares() {
    let mut contract = Contract::new(bob(), 3).unwrap();
    let taken = contract.add_liquidity(&bob(), 5, 10).unwrap();
    assert_eq!(taken, 10);
    assert_eq!(contract.shares_balance(&bob()), 5);
    assert_eq!(contract.shares_total_supply, 5);
    assert_eq!(contract.near_amount, 5);
    assert_eq!(contract.lp_token_amount, 10);
}

#[test]
fn full_scenario_returns_pool_to_empty() {
    let mut contract = funded_pool();
    assert_eq!(
        contract.get_output_price(ONE_NEAR, 5 * ONE_NEAR, 10 * ONE_NEAR),
        Ok(557227237267357628440878)
    );
    let quote = contract
        .get_input_price(3 * ONE_NEAR, 5 * ONE_NEAR, 10 * ONE_NEAR)
        .unwrap();
    let result = contract.swap_near_to_token(3 * ONE_NEAR, 0).unwrap();
    assert_eq!(result, quote);
    assert_eq!(contract.near_amount, 8 * ONE_NEAR);
    assert_eq!(contract.lp_token_amount, 10 * ONE_NEAR - result);
    let shares = contract.shares_balance(&bob());
    let (near_out, token_out) = contract.remove_liquidity(&bob(), shares, 0, 0).unwrap();
    assert_eq!(near_out, 8 * ONE_NEAR);
    assert_eq!(token_out, 10 * ONE_NEAR - result);
    assert_eq!(contract.near_amount, 0);
    assert_eq!(contract.lp_token_amount, 0);
    assert_eq!(contract.shares_total_supply, 0);
    assert_eq!(contract.shares_balance(&bob()), 0);
}

#[test]
fn second_deposit_is_proportional() {
    let mut contract = Contract::new(bob(), 3).unwrap();
    contract.add_liquidity(&bob(), 5, 10).unwrap();
    let alice = "alice".to_string();
    let taken = contract.add_liquidity(&alice, 3, 100).unwrap();
    assert_eq!(taken, 6);
    assert_eq!(contract.shares_balance(&alice), 3);
    assert_eq!(contract.shares_total_supply, 8);
    assert_eq!(contract.near_amount, 8);
    assert_eq!(contract.lp_token_amount, 16);
}

#[test]
fn round_trip_never_pays_more_than_deposited() {
    let mut contract = Contract::new(bob(), 3).unwrap();
    contract.add_liquidity(&bob(), 7, 11).unwrap();
    contract.swap_near_to_token(5, 0).unwrap();
    let alice = "alice".to_string();
    let taken = contract.add_liquidity(&alice, 4, 1000).unwrap();
    let minted = contract.shares_balance(&alice);
    assert!(minted > 0);
    let (near_out, token_out) = contract.remove_liquidity(&alice, minted, 0, 0).unwrap();
    assert!(near_out <= 4);
    assert!(token_out <= taken);
    assert_eq!(contract.shares_balance(&alice), 0);
}

#[test]
fn fee_lowers_swap_output() {
    let low = Contract::new(bob(), 0).unwrap();
    let high = Contract::new(bob(), 999).unwrap();
    let mid = Contract::new(bob(), 3).unwrap();
    let no_fee = low.get_input_price(1000, 5000, 7000).unwrap();
    let with_fee = mid.get_input_price(1000, 5000, 7000).unwrap();
    let max_fee = high.get_input_price(1000, 5000, 7000).unwrap();
    assert_eq!(no_fee, 1166);
    assert_eq!(with_fee, 1163);
    assert_eq!(max_fee, 1);
    assert!(no_fee <= 1000 * 7000 / 5000);
}

#[test]
fn swap_below_minimum_leaves_state() {
    let mut contract = funded_pool();
    let quote = contract
        .get_input_price(ONE_NEAR, contract.near_amount, contract.lp_token_amount)
        .unwrap();
    assert_eq!(
        contract.swap_near_to_token(ONE_NEAR, quote + 1),
        Err(PoolError::BelowMinimumTokensBought)
    );
    assert_eq!(contract.near_amount, 5 * ONE_NEAR);
    assert_eq!(contract.lp_token_amount, 10 * ONE_NEAR);
    let back = contract
        .get_input_price(ONE_NEAR, contract.lp_token_amount, contract.near_amount)
        .unwrap();
    assert_eq!(
        contract.swap_token_to_near(ONE_NEAR, back + 1),
        Err(PoolError::BelowMinimumNativeBought)
    );
    assert_eq!(contract.near_amount, 5 * ONE_NEAR);
    assert_eq!(contract.lp_token_amount, 10 * ONE_NEAR);
}

#[test]
fn swap_token_to_near_moves_reserves() {
    let mut contract = funded_pool();
    let bought = contract.swap_token_to_near(10 * ONE_NEAR, 1).unwrap();
    // 10 * 997 * 5 / (20 * 1000) = 2.4925
    assert_eq!(bought, 2_492_500_000_000_000_000_000_000);
    assert_eq!(contract.near_amount, 5 * ONE_NEAR - bought);
    assert_eq!(contract.lp_token_amount, 20 * ONE_NEAR);
}

#[test]
fn withdraw_below_minimum_leaves_state() {
    let mut contract = funded_pool();
    assert_eq!(
        contract.remove_liquidity(&bob(), ONE_NEAR, 2 * ONE_NEAR, 0),
        Err(PoolError::BelowMinimumAmount)
    );
    assert_eq!(contract.shares_balance(&bob()), 5 * ONE_NEAR);
    assert_eq!(contract.near_amount, 5 * ONE_NEAR);
}

#[test]
fn partial_withdraw_keeps_entry() {
    let mut contract = funded_pool();
    let out = contract.remove_liquidity(&bob(), ONE_NEAR, 0, 0).unwrap();
    assert_eq!(out, (ONE_NEAR, 2 * ONE_NEAR));
    assert_eq!(contract.shares_balance(&bob()), 4 * ONE_NEAR);
    assert_eq!(contract.shares_total_supply, 4 * ONE_NEAR);
}

#[test]
fn error_cases() {
    assert!(matches!(Contract::new(bob(), 1000), Err(PoolError::FeeTooLarge)));
    let mut empty = Contract::new(bob(), 3).unwrap();
    assert_eq!(empty.add_liquidity(&bob(), 0, 10), Err(PoolError::EmptyDeposit));
    assert_eq!(empty.swap_near_to_token(10, 0), Err(PoolError::EmptyReserve));
    assert_eq!(empty.swap_token_to_near(10, 0), Err(PoolError::EmptyReserve));
    assert_eq!(empty.get_output_price(1, 5, 1), Err(PoolError::EmptyReserve));
    assert_eq!(empty.get_output_price(1, 0, 5), Err(PoolError::EmptyReserve));
    assert_eq!(empty.get_input_price(1, 0, 5), Err(PoolError::EmptyReserve));
    assert_eq!(empty.remove_liquidity(&bob(), 1, 0, 0), Err(PoolError::EmptyShares));

    let mut contract = funded_pool();
    assert_eq!(
        contract.add_liquidity(&bob(), ONE_NEAR, ONE_NEAR),
        Err(PoolError::NotEnoughDeclaredToken)
    );
    assert_eq!(contract.remove_liquidity(&bob(), 0, 0, 0), Err(PoolError::EmptyShares));
    assert_eq!(
        contract.remove_liquidity(&"carol".to_string(), 1, 0, 0),
        Err(PoolError::InsufficientShareBalance)
    );
    assert_eq!(
        contract.ft_on_transfer(&"carol".to_string(), &bob(), 1, &"liquidity".to_owned(), 1),
        Err(PoolError::WrongTokenSource)
    );
    assert_eq!(
        contract.ft_on_transfer(&bob(), &bob(), 42, &"other".to_owned(), 1),
        Ok(42)
    );
    assert_eq!(contract.near_amount, 5 * ONE_NEAR);
    assert_eq!(contract.swap_near_to_token(u128::MAX, 0), Err(PoolError::Overflow));
    assert_eq!(contract.get_output_price(u128::MAX - 1, u128::MAX, u128::MAX), Err(PoolError::Overflow));
}

#[test]
fn output_price_exact_value() {
    let contract = Contract::new(bob(), 3).unwrap();
    // 5 * 2 * 1000 / (8 * 997) = 1.25...
    assert_eq!(contract.get_output_price(2, 5, 10), Ok(1));
    assert_eq!(contract.get_output_price(9, 1000, 10), Ok(9027));
}

#[test]
fn wide_division_is_exact() {
    assert_eq!(mul_div(u128::MAX, u128::MAX, u128::MAX), Some(u128::MAX));
    assert_eq!(mul_div(u128::MAX, 2, 1), None);
    assert_eq!(mul_div(u128::MAX, 2, 2), Some(u128::MAX));
    assert_eq!(mul_div_rem(10, 10, 7), Some((14, 2)));
    assert_eq!(mul_div(1u128 << 127, 4, 8), Some(1u128 << 126));
    assert_eq!(
        mul_div_rem(u128::MAX, u128::MAX - 1, u128::MAX),
        Some((u128::MAX - 1, 0))
    );
}

#[test]
fn ledger_credit_and_debit() {
    let mut ledger = ShareLedger::new();
    let alice = "alice".to_string();
    assert_eq!(ledger.get(&alice), 0);
    add_to_collection(&mut ledger, &alice, 0);
    assert_eq!(ledger.get(&alice), 0);
    add_to_collection(&mut ledger, &alice, 7);
    add_to_collection(&mut ledger, &bob(), 2);
    add_to_collection(&mut ledger, &alice, 3);
    assert_eq!(ledger.get(&alice), 10);
    assert_eq!(ledger.get(&bob()), 2);
    ledger.debit(&alice, 4);
    assert_eq!(ledger.get(&alice), 6);
    ledger.debit(&alice, 6);
    assert_eq!(ledger.get(&alice), 0);
    assert_eq!(ledger.get(&bob()), 2);
}

#[test]
fn first_deposit_without_tokens_leaves_token_side_empty() {
    let mut contract = Contract::new(bob(), 3).unwrap();
    assert_eq!(contract.add_liquidity(&bob(), 5, 0), Ok(0));
    assert_eq!(contract.shares_total_supply, 5);
    assert_eq!(contract.lp_token_amount, 0);
    assert_eq!(contract.swap_near_to_token(1, 0), Err(PoolError::EmptyReserve));
}

#[test]
fn input_quote_when_sum_exceeds_a_word() {
    let contract = Contract::new(bob(), 3).unwrap();
    assert_eq!(contract.get_input_price(u128::MAX, 1, 1), Ok(0));
    let no_fee = Contract::new(bob(), 0).unwrap();
    let needed = no_fee.get_output_price(1, u128::MAX - 1, 2).unwrap();
    assert_eq!(needed, u128::MAX - 1);
    assert_eq!(no_fee.get_input_price(needed + 1, u128::MAX - 1, 2), Ok(1));
    // 2^127 * 997 * 2^127 / ((2^128 - 1 + 2^127) * 1000)
    assert_eq!(
        contract.get_input_price(1u128 << 127, u128::MAX, 1u128 << 127),
        Ok(56543586636695941345497413934912151137)
    );
}

#[test]
fn swap_slippage_is_checked_before_reserve_overflow() {
    let mut contract = Contract::new(bob(), 3).unwrap();
    contract.add_liquidity(&bob(), 1, 1).unwrap();
    assert_eq!(
        contract.swap_near_to_token(u128::MAX, 1),
        Err(PoolError::BelowMinimumTokensBought)
    );
    assert_eq!(
        contract.swap_token_to_near(u128::MAX, 1),
        Err(PoolError::BelowMinimumNativeBought)
    );
    assert_eq!(contract.swap_near_to_token(u128::MAX, 0), Err(PoolError::Overflow));
    assert_eq!(contract.near_amount, 1);
    assert_eq!(contract.lp_token_amount, 1);
}

#[test]
fn oversized_withdrawal_reports_minimum_then_balance() {
    let mut contract = Contract::new(bob(), 3).unwrap();
    contract.add_liquidity(&bob(), 2, 1).unwrap();
    assert_eq!(contract.swap_near_to_token(2, 0), Ok(0));
    assert_eq!(contract.near_amount, 4);
    assert_eq!(contract.shares_total_supply, 2);
    assert_eq!(
        contract.remove_liquidity(&bob(), u128::MAX, 1, u128::MAX),
        Err(PoolError::BelowMinimumAmount)
    );
    assert_eq!(
        contract.remove_liquidity(&bob(), u128::MAX, 1, 0),
        Err(PoolError::InsufficientShareBalance)
    );
    assert_eq!(contract.shares_balance(&bob()), 2);
}
