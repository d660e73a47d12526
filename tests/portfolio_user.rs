use portfolio::account::{Account, AccountType};
use portfolio::asset::{Asset, AssetClass};
use portfolio::error::PortfolioError;
use portfolio::user::User;

fn holding(class: AssetClass, value: i64, kind: AccountType) -> Account {
    let mut account = Account::new(kind);
    account.add_asset(Asset::new(class, value));
    account
}

#[test]
fn new_user_is_empty() {
    let user = User::new("Ada", "Lovelace");
    assert_eq!(user.fname, "Ada");
    assert_eq!(user.lname, "Lovelace");
    assert!(user.accounts.is_empty());
    assert_eq!(user.get_total_value(), 0);
    assert_eq!(user.get_asset_share(&AssetClass::Domestic), 0);
    assert_eq!(user.target.classification, AccountType::Allocation);
    assert_eq!(user.allocation.get_total_value(), 0);
}

#[test]
fn allocation_is_recomputed_on_every_account() {
    let mut user = User::new("A", "B");
    user.add_account(holding(AssetClass::Domestic, 60000, AccountType::Taxable));
    assert_eq!(user.allocation.get_asset_value(AssetClass::Domestic), 10000);
    user.add_account(holding(AssetClass::Bond, 40000, AccountType::Roth));
    assert_eq!(user.get_total_value(), 100000);
    assert_eq!(user.get_asset_value(&AssetClass::Bond), 40000);
    assert_eq!(user.allocation.classification, AccountType::Allocation);
    assert_eq!(user.allocation.get_asset_value(AssetClass::Domestic), 6000);
    assert_eq!(user.allocation.get_asset_value(AssetClass::Bond), 4000);
    assert_eq!(user.allocation.get_asset_value(AssetClass::International), 0);
}

#[test]
fn allocation_shares_round_down() {
    let mut user = User::new("A", "B");
    let mut account = Account::new(AccountType::Taxable);
    account.add_asset(Asset::new(AssetClass::Domestic, 1));
    account.add_asset(Asset::new(AssetClass::Bond, 2));
    user.add_account(account);
    assert_eq!(user.get_asset_share(&AssetClass::Domestic), 3333);
    assert_eq!(user.get_asset_share(&AssetClass::Bond), 6666);
    assert_eq!(user.allocation.get_total_value(), 9999);
    let mut third = Account::new(AccountType::Roth);
    third.add_asset(Asset::new(AssetClass::International, 1));
    third.add_asset(Asset::new(AssetClass::RealEstate, 3));
    user.add_account(third);
    assert_eq!(user.allocation.get_asset_value(AssetClass::Domestic), 1428);
    assert_eq!(user.allocation.get_asset_value(AssetClass::International), 1428);
    assert_eq!(user.allocation.get_asset_value(AssetClass::Bond), 2857);
    assert_eq!(user.allocation.get_asset_value(AssetClass::RealEstate), 4285);
    assert_eq!(user.allocation.get_total_value(), 9998);
}

#[test]
fn target_must_total_one_hundred() {
    let mut user = User::new("A", "B");
    let mut short = Account::new(AccountType::Allocation);
    short.add_asset(Asset::new(AssetClass::Domestic, 9900));
    assert_eq!(
        user.target_allocation(short),
        Err(PortfolioError::InvalidAllocation { total: 9900 })
    );
    assert_eq!(user.target.get_total_value(), 0);

    let mut full = Account::new(AccountType::Allocation);
    full.add_asset(Asset::new(AssetClass::Domestic, 7000));
    full.add_asset(Asset::new(AssetClass::Bond, 3000));
    assert_eq!(user.target_allocation(full), Ok(()));
    assert_eq!(user.target.get_asset_value(AssetClass::Domestic), 7000);
}

#[test]
fn allocation_diff_in_percent_and_money() {
    let mut user = User::new("A", "B");
    user.add_account(holding(AssetClass::Domestic, 80000, AccountType::Taxable));
    user.add_account(holding(AssetClass::Bond, 20000, AccountType::Traditional));
    let mut target = Account::new(AccountType::Allocation);
    target.add_asset(Asset::new(AssetClass::Domestic, 6000));
    target.add_asset(Asset::new(AssetClass::Bond, 4000));
    user.target_allocation(target).unwrap();

    let pct = user.allocation_diff(false);
    assert_eq!(pct.classification, AccountType::Allocation);
    assert_eq!(pct.get_asset_value(AssetClass::Domestic), 2000);
    assert_eq!(pct.get_asset_value(AssetClass::Bond), -2000);
    assert_eq!(pct.get_asset_value(AssetClass::RealEstate), 0);

    let money = user.allocation_diff(true);
    assert_eq!(money.classification, AccountType::Taxable);
    assert_eq!(money.get_asset_value(AssetClass::Domestic), 20000);
    assert_eq!(money.get_asset_value(AssetClass::Bond), -20000);
}

#[test]
fn allocation_by_account_type() {
    let mut user = User::new("A", "B");
    user.add_account(holding(AssetClass::Domestic, 30000, AccountType::Taxable));
    user.add_account(holding(AssetClass::Bond, 10000, AccountType::Taxable));
    user.add_account(holding(AssetClass::Bond, 60000, AccountType::Roth));
    assert_eq!(user.account_type_allocation(AccountType::Taxable), (40000, 4000));
    assert_eq!(user.account_type_allocation(AccountType::Roth), (60000, 6000));
    assert_eq!(user.account_type_allocation(AccountType::Traditional), (0, 0));
    let empty = User::new("C", "D");
    assert_eq!(empty.account_type_allocation(AccountType::Taxable), (0, 0));
}
