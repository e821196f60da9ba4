use orderbook::account::{Account, AccountError, AccountHolding, AccountId};

#[test]
fn account_test_new_normal() {
    let account_id: AccountId = 12;
    let account_name: String = "John Doe".to_string();
    let account_balance: u128 = 33000;
    let account_holdings: Vec<(String, AccountHolding)> = Vec::new();

    let expected_account: Account = Account {
        id: account_id,
        name: account_name.clone(),
        balance: account_balance,
        holdings: account_holdings.clone(),
    };

    let actual_account: Account =
        Account::new(account_id, account_name, account_balance, account_holdings);

    assert_eq!(actual_account, expected_account);
}

#[test]
fn account_accessors() {
    let mut holdings: Vec<(String, AccountHolding)> = Vec::new();
    holdings.push(("VOC".to_string(), 7));
    let account = Account::new(3, "John Doe".to_string(), 150, holdings);
    assert_eq!(account.id(), 3);
    assert_eq!(account.name(), "John Doe".to_string());
    assert_eq!(account.balance(), 150);
    assert_eq!(account.holding("VOC".to_string()), Some(7));
    assert_eq!(account.holding("MSFT".to_string()), None);
}

#[test]
fn account_set_balance_and_set_holding() {
    let mut account = Account::new(4, "Jane Doe".to_string(), 10, Vec::new());
    account.set_balance(99);
    assert_eq!(account.balance(), 99);
    // a fresh symbol is recorded
    account.set_holding("VOC".to_string(), 11);
    assert_eq!(account.holding("VOC".to_string()), Some(11));
    // an existing symbol is left as it is
    account.set_holding("VOC".to_string(), 50);
    assert_eq!(account.holding("VOC".to_string()), Some(11));
}

#[test]
fn account_add_balance_ok_and_overflow() {
    let mut account = Account::new(5, "Jane Doe".to_string(), 40, Vec::new());
    assert!(account.add_balance(2).is_ok());
    assert_eq!(account.balance(), 42);

    let mut rich = Account::new(6, "John Doe".to_string(), u128::MAX, Vec::new());
    assert_eq!(rich.add_balance(1), Err(AccountError::BalanceOutOfBounds));
    assert_eq!(rich.balance(), u128::MAX);
}

#[test]
fn account_take_balance_ok_and_insufficient() {
    let mut account = Account::new(7, "Jane Doe".to_string(), 40, Vec::new());
    assert!(account.take_balance(15).is_ok());
    assert_eq!(account.balance(), 25);
    assert_eq!(account.take_balance(26), Err(AccountError::BalanceOutOfBounds));
    assert_eq!(account.balance(), 25);
}

#[test]
fn account_add_holding_inserts_increments_and_overflows() {
    let mut account = Account::new(8, "Jane Doe".to_string(), 0, Vec::new());
    assert!(account.add_holding("VOC".to_string(), 5).is_ok());
    assert_eq!(account.holding("VOC".to_string()), Some(5));
    assert!(account.add_holding("VOC".to_string(), 3).is_ok());
    assert_eq!(account.holding("VOC".to_string()), Some(8));
    assert_eq!(
        account.add_holding("VOC".to_string(), u128::MAX),
        Err(AccountError::HoldingOutOfBounds)
    );
    assert_eq!(account.holding("VOC".to_string()), Some(8));
}

#[test]
fn account_take_holding_errors_and_keeps_zero_entries() {
    let mut holdings: Vec<(String, AccountHolding)> = Vec::new();
    holdings.push(("VOC".to_string(), 8));
    let mut account = Account::new(9, "Jane Doe".to_string(), 0, holdings);
    assert_eq!(
        account.take_holding("MSFT".to_string(), 1),
        Err(AccountError::AssetNotFound)
    );
    assert_eq!(
        account.take_holding("VOC".to_string(), 9),
        Err(AccountError::HoldingOutOfBounds)
    );
    assert!(account.take_holding("VOC".to_string(), 8).is_ok());
    // the symbol stays recorded with quantity zero
    assert_eq!(account.holding("VOC".to_string()), Some(0));
}

#[test]
fn account_error_messages() {
    assert_eq!(
        AccountError::InsufficientFunds.message(),
        "Insufficient Funds".to_string()
    );
    assert_eq!(
        AccountError::AssetNotFound.message(),
        "No such asset in portfolio".to_string()
    );
    assert_eq!(
        AccountError::BalanceOutOfBounds.message(),
        "Balance (or difference in) too large or too small".to_string()
    );
}
