use exchange::risk_engine::{Account, AccountOpp, AccountStatus, Holdings};
use exchange::types::{AssetId, Price, Quantity, Side};

#[test]
fn test_holdings_get_available_and_reserved_quantity() {
    let mut holdings = Holdings::default();
    let asset_btc = 1;
    let asset_eth = 2;

    assert_eq!(holdings.get_available_quantity(asset_btc), None);
    assert_eq!(holdings.get_reserved_quantity(asset_btc), None);

    holdings.available.insert(asset_btc, 50);
    holdings.reserved.insert(asset_btc, 20);

    assert_eq!(holdings.get_available_quantity(asset_btc), Some(50));
    assert_eq!(holdings.get_reserved_quantity(asset_btc), Some(20));
    assert_eq!(holdings.get_available_quantity(asset_eth), None);
    assert_eq!(holdings.get_reserved_quantity(asset_eth), None);
}

#[test]
fn test_holdings_can_reserve_asset() {
    let mut holdings = Holdings::default();
    let asset_id = 1;

    assert!(!holdings.can_reserve_asset(asset_id, 10));

    holdings.available.insert(asset_id, 50);
    assert!(!holdings.can_reserve_asset(asset_id, 10));

    holdings.reserved.insert(asset_id, 0);
    assert!(holdings.can_reserve_asset(asset_id, 10));
    assert!(holdings.can_reserve_asset(asset_id, 50));
    assert!(!holdings.can_reserve_asset(asset_id, 51));
}

#[test]
fn test_holdings_reserve_asset() {
    let mut holdings = Holdings::default();
    let asset_id = 1;

    assert!(!holdings.reserve_asset(asset_id, 10));

    holdings.available.insert(asset_id, 50);
    assert!(!holdings.reserve_asset(asset_id, 60));
    assert_eq!(holdings.get_available_quantity(asset_id), Some(50));

    assert!(!holdings.reserve_asset(asset_id, 10));

    holdings.available.insert(asset_id, 50);
    holdings.reserved.insert(asset_id, 10);
    assert!(holdings.reserve_asset(asset_id, 20));
    assert_eq!(holdings.get_available_quantity(asset_id), Some(30));
    assert_eq!(holdings.get_reserved_quantity(asset_id), Some(30));

    assert!(holdings.reserve_asset(asset_id, 30));
    assert_eq!(holdings.get_available_quantity(asset_id), Some(0));
    assert_eq!(holdings.get_reserved_quantity(asset_id), Some(60));
}

#[test]
fn test_holdings_can_release_asset() {
    let mut holdings = Holdings::default();
    let asset_id = 1;

    assert!(!holdings.can_release_asset(asset_id, 10));

    holdings.reserved.insert(asset_id, 25);
    assert!(!holdings.can_release_asset(asset_id, 26));
    assert!(holdings.can_release_asset(asset_id, 25));
    assert!(holdings.can_release_asset(asset_id, 10));
    assert!(holdings.can_release_asset(asset_id, 0));
}

#[test]
fn test_holdings_release_asset() {
    let mut holdings = Holdings::default();
    let asset_id = 1;

    assert!(!holdings.release_asset(asset_id, 10));

    holdings.reserved.insert(asset_id, 25);
    assert!(!holdings.release_asset(asset_id, 30));
    assert_eq!(holdings.get_reserved_quantity(asset_id), Some(25));

    assert!(holdings.release_asset(asset_id, 10));
    assert_eq!(holdings.get_reserved_quantity(asset_id), Some(15));

    assert!(holdings.release_asset(asset_id, 15));
    assert_eq!(holdings.get_reserved_quantity(asset_id), Some(0));
}

#[test]
fn test_holdings_get_all_assets() {
    let mut holdings = Holdings::default();
    let empty_assets = holdings.get_all_assets();
    assert!(empty_assets.is_empty());

    holdings.available.insert(1, 100);
    holdings.available.insert(2, 200);
    let mut assets = holdings.get_all_assets();
    assets.sort_unstable();
    assert_eq!(assets, vec![1, 2]);
}

#[test]
fn holdings_all_assets_merges_both_tables_in_order() {
    let mut holdings = Holdings::default();
    holdings.available.insert(9, 1);
    holdings.available.insert(3, 1);
    holdings.reserved.insert(3, 0);
    holdings.reserved.insert(5, 4);
    assert_eq!(holdings.get_all_assets(), vec![3, 5, 9]);
}

fn account(available_balance: u64, reserved: u64, status: AccountStatus) -> Account {
    Account {
        user_internal_id: 1,
        available_balance,
        reserved,
        status,
        holdings: Holdings::default(),
    }
}

#[test]
fn test_account_get_balances() {
    let account = account(1000, 250, AccountStatus::Active);

    assert_eq!(account.get_available_balance(), Some(1000));
    assert_eq!(account.get_reserved_balance(), Some(250));
}

#[test]
fn test_account_can_reserve() {
    let mut account = account(500, 100, AccountStatus::Active);

    assert!(!account.can_reserve(0));
    assert!(account.can_reserve(500));
    assert!(account.can_reserve(200));
    assert!(!account.can_reserve(501));

    account.status = AccountStatus::Frozen;
    assert!(!account.can_reserve(100));

    account.status = AccountStatus::Closed;
    assert!(!account.can_reserve(100));

    account.status = AccountStatus::ReduceOnly;
    assert!(!account.can_reserve(100));
}

#[test]
fn test_account_reserve() {
    let mut account = account(500, 100, AccountStatus::Active);

    assert!(!account.reserve(0));
    assert_eq!(account.available_balance, 500);
    assert_eq!(account.reserved, 100);

    assert!(!account.reserve(600));
    assert_eq!(account.available_balance, 500);
    assert_eq!(account.reserved, 100);

    account.status = AccountStatus::Frozen;
    assert!(!account.reserve(100));
    account.status = AccountStatus::Closed;
    assert!(!account.reserve(100));
    account.status = AccountStatus::ReduceOnly;
    assert!(!account.reserve(100));

    account.status = AccountStatus::Active;
    assert!(account.reserve(200));
    assert_eq!(account.available_balance, 300);
    assert_eq!(account.reserved, 300);
}

#[test]
fn test_account_can_release_reserve() {
    let mut account = account(300, 200, AccountStatus::Active);

    assert!(!account.can_release_reserve(0));
    assert!(account.can_release_reserve(200));
    assert!(account.can_release_reserve(100));
    assert!(!account.can_release_reserve(201));

    account.status = AccountStatus::Frozen;
    assert!(account.can_release_reserve(100));

    account.status = AccountStatus::ReduceOnly;
    assert!(account.can_release_reserve(100));

    account.status = AccountStatus::Closed;
    assert!(!account.can_release_reserve(100));
}

#[test]
fn test_account_release_reserve() {
    let mut account = account(300, 200, AccountStatus::Active);

    assert!(!account.release_reserve(0));

    assert!(!account.release_reserve(250));

    account.status = AccountStatus::Closed;
    assert!(!account.release_reserve(50));

    account.status = AccountStatus::Frozen;
    assert!(account.release_reserve(50));
    assert_eq!(account.reserved, 150);
    assert_eq!(account.available_balance, 350);

    account.status = AccountStatus::ReduceOnly;
    assert!(account.release_reserve(50));
    assert_eq!(account.reserved, 100);
    assert_eq!(account.available_balance, 400);

    account.status = AccountStatus::Active;
    assert!(account.release_reserve(100));
    assert_eq!(account.reserved, 0);
    assert_eq!(account.available_balance, 500);
}

#[test]
fn test_account_can_withdraw() {
    let mut account = account(400, 100, AccountStatus::Active);

    assert!(account.can_withdraw(400));
    assert!(account.can_withdraw(100));
    assert!(!account.can_withdraw(401));

    account.status = AccountStatus::Closed;
    assert!(account.can_withdraw(100));

    account.status = AccountStatus::ReduceOnly;
    assert!(account.can_withdraw(100));

    account.status = AccountStatus::Frozen;
    assert!(!account.can_withdraw(100));
}

#[test]
fn test_account_withdraw() {
    let mut account = account(400, 100, AccountStatus::Active);

    assert!(!account.withdraw(500));
    assert_eq!(account.available_balance, 400);

    account.status = AccountStatus::Frozen;
    assert!(!account.withdraw(100));
    assert_eq!(account.available_balance, 400);

    account.status = AccountStatus::Closed;
    assert!(account.withdraw(100));
    assert_eq!(account.available_balance, 300);

    account.status = AccountStatus::ReduceOnly;
    assert!(account.withdraw(100));
    assert_eq!(account.available_balance, 200);

    account.status = AccountStatus::Active;
    assert!(account.withdraw(200));
    assert_eq!(account.available_balance, 0);
}

#[test]
fn test_account_withdraw_reserve() {
    let mut account = account(500, 300, AccountStatus::Frozen);

    assert!(!account.withdraw_reserve(350));
    assert_eq!(account.reserved, 300);

    assert!(account.withdraw_reserve(100));
    assert_eq!(account.reserved, 200);

    assert!(account.withdraw_reserve(200));
    assert_eq!(account.reserved, 0);
}

#[test]
fn test_account_withdraw_reserve_asset() {
    let mut account = Account::default();
    let asset_id = 1;

    assert!(!account.withdraw_reserve_asset(asset_id, 10));

    account.holdings.reserved.insert(asset_id, 50);

    assert!(!account.withdraw_reserve_asset(asset_id, 60));
    assert_eq!(account.holdings.get_reserved_quantity(asset_id), Some(50));

    assert!(account.withdraw_reserve_asset(asset_id, 20));
    assert_eq!(account.holdings.get_reserved_quantity(asset_id), Some(30));
}

#[test]
fn test_account_can_deposit() {
    let mut account = account(100, 0, AccountStatus::Active);

    assert!(account.can_deposit());

    account.status = AccountStatus::Frozen;
    assert!(!account.can_deposit());

    account.status = AccountStatus::Closed;
    assert!(!account.can_deposit());

    account.status = AccountStatus::ReduceOnly;
    assert!(!account.can_deposit());
}

#[test]
fn test_account_deposit() {
    let mut account = account(100, 0, AccountStatus::Active);

    assert!(account.deposit(200));
    assert_eq!(account.available_balance, 300);

    account.status = AccountStatus::Frozen;
    assert!(!account.deposit(50));
    assert_eq!(account.available_balance, 300);

    account.status = AccountStatus::Closed;
    assert!(!account.deposit(50));
    assert_eq!(account.available_balance, 300);

    account.status = AccountStatus::ReduceOnly;
    assert!(!account.deposit(50));
    assert_eq!(account.available_balance, 300);
}

#[test]
fn account_deposit_refuses_overflow() {
    let mut account = account(u64::MAX - 1, 0, AccountStatus::Active);
    assert!(!account.deposit(2));
    assert_eq!(account.available_balance, u64::MAX - 1);
    assert!(account.deposit(1));
    assert_eq!(account.available_balance, u64::MAX);
}

#[test]
fn test_account_can_settle_buy() {
    let mut account = account(500, 200, AccountStatus::Active);

    let price: Price = 10;
    let quantity: Quantity = 20;

    assert!(account.can_settle(price, 1, quantity, Side::Buy));

    assert!(!account.can_settle(price, 1, quantity + 1, Side::Buy));

    assert!(!account.can_settle(0, 1, quantity, Side::Buy));
    assert!(!account.can_settle(price, 1, 0, Side::Buy));

    account.status = AccountStatus::ReduceOnly;
    assert!(account.can_settle(price, 1, quantity, Side::Buy));

    account.status = AccountStatus::Frozen;
    assert!(!account.can_settle(price, 1, quantity, Side::Buy));

    account.status = AccountStatus::Closed;
    assert!(!account.can_settle(price, 1, quantity, Side::Buy));
}

#[test]
fn test_account_settle_buy() {
    let mut account = account(500, 300, AccountStatus::Active);

    let price: Price = 10;
    let quantity: Quantity = 20;

    account.status = AccountStatus::Frozen;
    assert!(!account.settle(price, 1, quantity, Side::Buy));
    assert_eq!(account.reserved, 300);

    account.status = AccountStatus::Closed;
    assert!(!account.settle(price, 1, quantity, Side::Buy));
    assert_eq!(account.reserved, 300);

    account.status = AccountStatus::ReduceOnly;
    assert!(account.settle(price, 1, 10, Side::Buy));
    assert_eq!(account.reserved, 200);

    account.status = AccountStatus::Active;
    assert!(account.settle(price, 1, 20, Side::Buy));
    assert_eq!(account.reserved, 0);

    assert!(!account.settle(price, 1, 5, Side::Buy));
}

#[test]
fn account_settle_buy_refuses_overflowing_cost() {
    let mut account = account(0, u64::MAX, AccountStatus::Active);
    assert!(!account.can_settle(u64::MAX, 1, 2, Side::Buy));
    assert!(!account.settle(u64::MAX, 1, 2, Side::Buy));
    assert_eq!(account.reserved, u64::MAX);
}

#[test]
fn test_account_can_settle_sell() {
    let mut account = account(500, 300, AccountStatus::Active);

    let asset_id: AssetId = 5;
    let quantity: Quantity = 10;

    assert!(!account.can_settle(100, asset_id, quantity, Side::Sell));

    account.holdings.reserved.insert(asset_id, 10);

    assert!(account.can_settle(100, asset_id, quantity, Side::Sell));

    assert!(!account.can_settle(100, asset_id, quantity + 1, Side::Sell));

    account.status = AccountStatus::ReduceOnly;
    assert!(account.can_settle(100, asset_id, quantity, Side::Sell));

    account.status = AccountStatus::Frozen;
    assert!(!account.can_settle(100, asset_id, quantity, Side::Sell));

    account.status = AccountStatus::Closed;
    assert!(!account.can_settle(100, asset_id, quantity, Side::Sell));
}

#[test]
fn test_account_settle_sell() {
    let mut account = account(500, 300, AccountStatus::Active);

    let asset_id: AssetId = 5;
    account.holdings.reserved.insert(asset_id, 25);

    account.status = AccountStatus::Frozen;
    assert!(!account.settle(100, asset_id, 5, Side::Sell));
    assert_eq!(account.holdings.get_reserved_quantity(asset_id), Some(25));

    account.status = AccountStatus::Closed;
    assert!(!account.settle(100, asset_id, 5, Side::Sell));
    assert_eq!(account.holdings.get_reserved_quantity(asset_id), Some(25));

    account.status = AccountStatus::ReduceOnly;
    assert!(account.settle(100, asset_id, 10, Side::Sell));
    assert_eq!(account.holdings.get_reserved_quantity(asset_id), Some(15));

    account.status = AccountStatus::Active;
    assert!(account.settle(100, asset_id, 15, Side::Sell));
    assert_eq!(account.holdings.get_reserved_quantity(asset_id), Some(0));

    assert!(!account.settle(100, asset_id, 1, Side::Sell));
}

#[test]
fn account_status_rules() {
    assert!(AccountStatus::Active.allows(AccountOpp::Deposit));
    assert!(AccountStatus::Closed.allows(AccountOpp::Withdraw));
    assert!(!AccountStatus::Closed.allows(AccountOpp::Release));
    assert!(AccountStatus::Frozen.allows(AccountOpp::Release));
    assert!(!AccountStatus::Frozen.allows(AccountOpp::Withdraw));
    assert!(AccountStatus::ReduceOnly.allows(AccountOpp::Settle));
    assert!(!AccountStatus::ReduceOnly.allows(AccountOpp::Reserve));
    assert_eq!(AccountStatus::ReduceOnly.as_str(), "reduce-only");
    assert_eq!(AccountStatus::default(), AccountStatus::Active);
}
