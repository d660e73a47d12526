use portfolio::account::{Account, AccountType, AllocationProgress};
use portfolio::asset::{Asset, AssetClass};
use portfolio::error::PortfolioError;

fn classes() -> Vec<AssetClass> {
    vec![AssetClass::Domestic, AssetClass::International, AssetClass::Bond, AssetClass::RealEstate]
}

#[test]
fn get_total_account_value() {
    let mut account = Account::new(AccountType::Taxable);
    let domestic = Asset { class: AssetClass::Domestic, value: 5000 };
    let intl = Asset { class: AssetClass::International, value: 5000 };
    account.add_asset(domestic);
    account.add_asset(intl);
    assert_eq!(100.00, account.get_total_value() as f64 / 100.0);
}

#[test]
fn get_asset_allocation_by_asset_type() {
    let mut account = Account::new(AccountType::Taxable);
    let domestic = Asset { class: AssetClass::Domestic, value: 60000 };
    let intl = Asset { class: AssetClass::International, value: 40000 };
    account.add_asset(domestic);
    account.add_asset(intl);
    let total = account.get_total_value() as f64;
    assert_eq!(0.6, account.get_asset_value(AssetClass::Domestic) as f64 / total);
    assert_eq!(0.4, account.get_asset_value(AssetClass::International) as f64 / total);
}

#[test]
fn checks_account_is_empty() {
    let account = Account::new(AccountType::Taxable);
    assert_eq!(account.get_total_value(), 0);
}

#[test]
fn check_account_is_not_empty() {
    let mut account = Account::new(AccountType::Taxable);
    let domestic = Asset { class: AssetClass::Domestic, value: 5000 };
    account.add_asset(domestic);
    assert!(account.get_total_value() != 0);
}

#[test]
fn new_account_is_seeded_with_four_zero_slots() {
    let account = Account::new(AccountType::Taxable);
    assert_eq!(account.classification, AccountType::Taxable);
    assert_eq!(account.assets.len(), 4);
    for (asset, class) in account.assets.iter().zip(classes()) {
        assert_eq!(asset.class, class);
        assert_eq!(asset.value, 0);
    }
    assert_eq!(account.get_total_value(), 0);
    assert_eq!(account.get_asset_value(AssetClass::Domestic), 0);
}

#[test]
fn total_tracks_every_add_and_remove() {
    let mut account = Account::new(AccountType::Roth);
    account.add_asset(Asset::new(AssetClass::Bond, 1200));
    account.add_asset(Asset::new(AssetClass::RealEstate, 300));
    account.add_asset(Asset::new(AssetClass::Bond, -200));
    assert_eq!(account.get_total_value(), 1300);
    account.remove_asset(&Asset::new(AssetClass::RealEstate, 100)).unwrap();
    assert_eq!(account.get_total_value(), 1200);
    let sum: i64 = account.assets.iter().map(|a| a.value).sum();
    assert_eq!(account.get_total_value(), sum);
}

#[test]
fn adding_twice_equals_adding_the_sum() {
    let mut twice = Account::new(AccountType::Taxable);
    twice.add_asset(Asset::new(AssetClass::Domestic, 5000));
    twice.add_asset(Asset::new(AssetClass::Domestic, 5000));
    let mut once = Account::new(AccountType::Taxable);
    once.add_asset(Asset::new(AssetClass::Domestic, 10000));
    assert_eq!(twice.assets, once.assets);

    let mut bare = Account { classification: AccountType::Taxable, assets: vec![] };
    bare.add_asset(Asset::new(AssetClass::Bond, 5000));
    bare.add_asset(Asset::new(AssetClass::Bond, 5000));
    assert_eq!(bare.assets, vec![Asset::new(AssetClass::Bond, 10000)]);
}

#[test]
fn adding_in_either_order_gives_same_values() {
    let mut a = Account::new(AccountType::Taxable);
    a.add_asset(Asset::new(AssetClass::Domestic, 700));
    a.add_asset(Asset::new(AssetClass::Bond, 300));
    let mut b = Account::new(AccountType::Taxable);
    b.add_asset(Asset::new(AssetClass::Bond, 300));
    b.add_asset(Asset::new(AssetClass::Domestic, 700));
    for class in classes() {
        assert_eq!(a.get_asset_value(class), b.get_asset_value(class));
    }
}

#[test]
fn remove_undoes_add() {
    let mut account = Account::new(AccountType::Traditional);
    account.add_asset(Asset::new(AssetClass::International, 2500));
    let before = account.assets.clone();
    let asset = Asset::new(AssetClass::International, 1234);
    account.add_asset(asset);
    assert_eq!(account.remove_asset(&asset), Ok(()));
    assert_eq!(account.assets, before);
}

#[test]
fn remove_more_than_held_is_refused() {
    let mut account = Account::new(AccountType::Taxable);
    account.add_asset(Asset::new(AssetClass::Bond, 3000));
    let result = account.remove_asset(&Asset::new(AssetClass::Bond, 5000));
    assert_eq!(
        result,
        Err(PortfolioError::InsufficientFunds {
            class: AssetClass::Bond,
            available: 3000,
            requested: 5000
        })
    );
    assert_eq!(account.get_asset_value(AssetClass::Bond), 3000);
}

#[test]
fn remove_from_missing_class_is_refused() {
    let mut account = Account {
        classification: AccountType::Taxable,
        assets: vec![Asset::new(AssetClass::Domestic, 100)],
    };
    let result = account.remove_asset(&Asset::new(AssetClass::Bond, 1));
    assert_eq!(result, Err(PortfolioError::ClassNotFound { class: AssetClass::Bond }));
    assert_eq!(account.assets, vec![Asset::new(AssetClass::Domestic, 100)]);
}

#[test]
fn move_conserves_money() {
    let mut a = Account::new(AccountType::Taxable);
    let mut b = Account::new(AccountType::Roth);
    a.add_asset(Asset::new(AssetClass::Domestic, 10000));
    b.add_asset(Asset::new(AssetClass::Domestic, 500));
    let before = a.get_total_value() + b.get_total_value();
    assert_eq!(a.move_asset(&mut b, Asset::new(AssetClass::Domestic, 4000)), Ok(()));
    assert_eq!(a.get_asset_value(AssetClass::Domestic), 6000);
    assert_eq!(b.get_asset_value(AssetClass::Domestic), 4500);
    assert_eq!(a.get_total_value() + b.get_total_value(), before);
}

#[test]
fn failed_move_changes_nothing() {
    let mut a = Account::new(AccountType::Taxable);
    let mut b = Account::new(AccountType::Roth);
    a.add_asset(Asset::new(AssetClass::Domestic, 100));
    let result = a.move_asset(&mut b, Asset::new(AssetClass::Domestic, 4000));
    assert_eq!(
        result,
        Err(PortfolioError::InsufficientFunds {
            class: AssetClass::Domestic,
            available: 100,
            requested: 4000
        })
    );
    assert_eq!(a.get_asset_value(AssetClass::Domestic), 100);
    assert_eq!(b.get_total_value(), 0);
}

#[test]
fn move_whole_class() {
    let mut a = Account::new(AccountType::Taxable);
    let mut b = Account::new(AccountType::Roth);
    a.add_asset(Asset::new(AssetClass::RealEstate, 777));
    b.add_asset(Asset::new(AssetClass::RealEstate, 23));
    assert_eq!(a.move_asset_class_to(&mut b, &AssetClass::RealEstate), Ok(()));
    assert_eq!(a.get_asset_value(AssetClass::RealEstate), 0);
    assert_eq!(b.get_asset_value(AssetClass::RealEstate), 800);

    let mut bare = Account { classification: AccountType::Taxable, assets: vec![] };
    assert_eq!(
        bare.move_asset_class_to(&mut b, &AssetClass::Bond),
        Err(PortfolioError::ClassNotFound { class: AssetClass::Bond })
    );
    assert_eq!(b.get_total_value(), 800);
}

#[test]
fn swap_reclassifies_money() {
    let mut account = Account::new(AccountType::Taxable);
    account.add_asset(Asset::new(AssetClass::Domestic, 1000));
    assert_eq!(account.swap_asset(AssetClass::Domestic, AssetClass::Bond, 400), Ok(()));
    assert_eq!(account.get_asset_value(AssetClass::Domestic), 600);
    assert_eq!(account.get_asset_value(AssetClass::Bond), 400);
    assert_eq!(account.get_total_value(), 1000);
    let result = account.swap_asset(AssetClass::Domestic, AssetClass::Bond, 601);
    assert_eq!(
        result,
        Err(PortfolioError::InsufficientFunds {
            class: AssetClass::Domestic,
            available: 600,
            requested: 601
        })
    );
    assert_eq!(account.get_asset_value(AssetClass::Bond), 400);
}

#[test]
fn add_to_limit_fills_up_and_returns_leftover() {
    let mut account = Account::new(AccountType::Roth);
    account.add_asset(Asset::new(AssetClass::Domestic, 400000));
    assert_eq!(account.add_to_limit(Asset::new(AssetClass::Bond, 100000), 650000), None);
    assert_eq!(account.get_total_value(), 500000);
    let leftover = account.add_to_limit(Asset::new(AssetClass::Bond, 200000), 650000);
    assert_eq!(leftover, Some(Asset::new(AssetClass::Bond, 50000)));
    assert_eq!(account.get_total_value(), 650000);
    assert_eq!(account.get_asset_value(AssetClass::Bond), 250000);
}

#[test]
fn diff_with_itself_is_zero() {
    let mut account = Account::new(AccountType::Taxable);
    account.add_asset(Asset::new(AssetClass::Domestic, 1234));
    account.add_asset(Asset::new(AssetClass::Bond, -55));
    let diff = account.diff(&account);
    assert_eq!(diff.classification, AccountType::Taxable);
    for class in classes() {
        assert_eq!(diff.get_asset_value(class), 0);
    }
}

#[test]
fn diff_subtracts_class_by_class() {
    let mut a = Account::new(AccountType::Allocation);
    a.add_asset(Asset::new(AssetClass::Domestic, 6000));
    a.add_asset(Asset::new(AssetClass::Bond, 4000));
    let mut b = Account::new(AccountType::Taxable);
    b.add_asset(Asset::new(AssetClass::Domestic, 5000));
    b.add_asset(Asset::new(AssetClass::International, 5000));
    let d = a.diff(&b);
    assert_eq!(d.classification, AccountType::Allocation);
    assert_eq!(d.get_asset_value(AssetClass::Domestic), 1000);
    assert_eq!(d.get_asset_value(AssetClass::International), -5000);
    assert_eq!(d.get_asset_value(AssetClass::Bond), 4000);
    assert_eq!(d.get_asset_value(AssetClass::RealEstate), 0);
}

#[test]
fn multiply_by_one_keeps_values() {
    let mut account = Account::new(AccountType::Traditional);
    account.add_asset(Asset::new(AssetClass::International, 98765));
    account.add_asset(Asset::new(AssetClass::RealEstate, -4321));
    let same = account.multiply(1, 1);
    assert_eq!(same.classification, AccountType::Traditional);
    for class in classes() {
        assert_eq!(same.get_asset_value(class), account.get_asset_value(class));
    }
}

#[test]
fn multiply_scales_and_rounds_toward_zero() {
    let mut account = Account::new(AccountType::Allocation);
    account.add_asset(Asset::new(AssetClass::Domestic, 1000));
    account.add_asset(Asset::new(AssetClass::Bond, -333));
    let scaled = account.multiply(2000000, 10000);
    assert_eq!(scaled.get_asset_value(AssetClass::Domestic), 200000);
    assert_eq!(scaled.get_asset_value(AssetClass::Bond), -66600);
    let thirds = account.multiply(1, 3);
    assert_eq!(thirds.get_asset_value(AssetClass::Domestic), 333);
    assert_eq!(thirds.get_asset_value(AssetClass::Bond), -111);
    let halves = account.multiply(1, 2);
    assert_eq!(halves.get_asset_value(AssetClass::Bond), -166);
}

#[test]
fn relabel_keeps_assets() {
    let mut account = Account::new(AccountType::Allocation);
    account.add_asset(Asset::new(AssetClass::Bond, 10));
    account.change_account_classification(AccountType::Taxable);
    assert_eq!(account.classification, AccountType::Taxable);
    assert_eq!(account.get_asset_value(AssetClass::Bond), 10);
    assert!(account.same_classification(&Account::new(AccountType::Taxable)));
    assert!(!account.same_classification(&Account::new(AccountType::Roth)));
    let a = Account::new(AccountType::Allocation);
    assert!(a.same_classification(&Account::new(AccountType::Allocation)));
}

#[test]
fn asset_subtract_needs_same_class() {
    let asset = Asset::new(AssetClass::Domestic, 5000);
    let other = Asset::new(AssetClass::Domestic, 1000);
    assert_eq!(asset.subtract_asset(&other), Some(Asset::new(AssetClass::Domestic, 4000)));
    assert_eq!(asset.subtract_asset(&Asset::new(AssetClass::Bond, 1000)), None);
    assert!(asset.same_class(&other));
}

#[test]
fn building_an_allocation_step_by_step() {
    let mut target = Account::new(AccountType::Allocation);
    assert_eq!(
        target.add_to_allocation(Asset::new(AssetClass::Domestic, 6000)),
        AllocationProgress::Incomplete
    );
    assert_eq!(
        target.add_to_allocation(Asset::new(AssetClass::Bond, 5000)),
        AllocationProgress::Overshot
    );
    assert_eq!(target.get_total_value(), 0);
    assert_eq!(target.assets.len(), 4);
    target.add_to_allocation(Asset::new(AssetClass::Domestic, 6000));
    assert_eq!(
        target.add_to_allocation(Asset::new(AssetClass::Bond, 4000)),
        AllocationProgress::Complete
    );
    assert_eq!(target.get_total_value(), 10000);
}

#[test]
fn menu_choices() {
    assert_eq!(AssetClass::from_menu(1), Some(AssetClass::Domestic));
    assert_eq!(AssetClass::from_menu(4), Some(AssetClass::RealEstate));
    assert_eq!(AssetClass::from_menu(0), None);
    assert_eq!(AssetClass::from_menu(5), None);
    assert_eq!(AccountType::from_menu(1), Some(AccountType::Taxable));
    assert_eq!(AccountType::from_menu(2), Some(AccountType::Traditional));
    assert_eq!(AccountType::from_menu(3), Some(AccountType::Roth));
    assert_eq!(AccountType::from_menu(4), None);
    assert_eq!(AssetClass::Bond.name(), "Bonds");
    assert_eq!(AccountType::Taxable.name(), "Brokerage Account");
    assert!(AccountType::Allocation.is_percentage());
    assert!(!AccountType::Roth.is_percentage());
}
