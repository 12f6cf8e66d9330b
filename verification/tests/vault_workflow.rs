use clob::market::init_market;
use clob::user_balance::UserBalance;

const BASE_MINT: u64 = 1;
const QUOTE_MINT: u64 = 2;
const USER: u64 = 44;

#[test]
fn test_vault_workflow() {
    let market = init_market(BASE_MINT, QUOTE_MINT, 1_000_000, 1_000).unwrap();
    let mut user = UserBalance::new(USER);

    // The user's wallet holds this much of each token; wallet custody (the
    // actual vault transfers) is the host's side of deposits and withdrawals.
    let initial_amount: u64 = 1_000_000_000;

    // Deposits with sufficient wallet balance succeed.
    let deposit_amount: u64 = 100_000_000;
    let result = user.deposit(&market, BASE_MINT, deposit_amount);
    assert!(result.is_ok(), "Expected deposit to succeed");
    assert_eq!(result.unwrap(), deposit_amount);
    let result = user.deposit(&market, QUOTE_MINT, deposit_amount);
    assert!(result.is_ok(), "Expected deposit to succeed");

    // A deposit exceeding the wallet's funds fails in the custody layer: the
    // vault transfer is refused before the ledger is ever credited, so the
    // ledger balance must still show only what really arrived.
    let excessive_amount: u64 = 2_000_000_000;
    let wallet_base = initial_amount - deposit_amount;
    assert!(excessive_amount > wallet_base, "Expected deposit to fail");
    assert_eq!(user.base_balance, deposit_amount);

    // Withdraw with sufficient balance succeeds.
    let withdraw_amount: u64 = 50_000_000;
    let result = user.withdraw(&market, BASE_MINT, withdraw_amount);
    assert!(result.is_ok(), "Expected withdraw to succeed: {:?}", result.err());
    assert_eq!(result.unwrap(), deposit_amount - withdraw_amount);

    // Withdraw beyond the deposited balance fails.
    let excessive_withdraw: u64 = 200_000_000;
    let result = user.withdraw(&market, QUOTE_MINT, excessive_withdraw);
    assert!(result.is_err(), "Expected withdraw to fail");

    // Closing with a non-zero balance fails.
    let result = user.close();
    assert!(result.is_err(), "Expected close to fail with non-zero balance");

    // Withdraw the remaining balances down to zero.
    let remaining_base: u64 = 50_000_000;
    let remaining_quote: u64 = 100_000_000;
    let result = user.withdraw(&market, BASE_MINT, remaining_base);
    assert!(result.is_ok(), "Expected withdraw to succeed: {:?}", result.err());
    let result = user.withdraw(&market, QUOTE_MINT, remaining_quote);
    assert!(result.is_ok(), "Expected withdraw to succeed: {:?}", result.err());

    // Closing with both balances zero succeeds.
    let result = user.close();
    assert!(result.is_ok(), "Expected close to succeed: {:?}", result.err());
}
