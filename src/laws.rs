//! Laws relating the account operations to one another.
use vstd::prelude::*;

use crate::account::{
    added, class_sum, diff_value, has_class, in_i64, lemma_added, lemma_class_sum_unique,
    lemma_slot_is, lemma_total_split, lemma_withdrawn, removal_outcome, scaled, seq_total, slot,
    withdrawn, Account,
};
use crate::account::FULL_ALLOCATION;
use crate::asset::{Asset, AssetClass};
use crate::user::{lemma_portfolio_total_split, portfolio_class, portfolio_total, User};

verus! {

/// An account's total is the sum of what it holds in each class.
pub proof fn lemma_total_is_sum_of_classes(a: Account)
    ensures
        a.total() == a.value_of(AssetClass::Domestic) + a.value_of(AssetClass::International)
            + a.value_of(AssetClass::Bond) + a.value_of(AssetClass::RealEstate),
{
    lemma_total_split(a.assets@);
}

/// Adding two assets of one class, one after the other, leaves the account
/// exactly as adding a single asset worth their sum.
pub proof fn lemma_add_twice_is_add_sum(a: Account, x: Asset, y: Asset)
    requires
        a.wf(),
        x.class == y.class,
        in_i64(x.value + y.value),
        in_i64(a.value_of(x.class) + x.value),
        in_i64(a.value_of(x.class) + x.value + y.value),
    ensures
        added(added(a.assets@, x), y) == added(
            a.assets@,
            Asset { class: x.class, value: (x.value + y.value) as i64 },
        ),
{
    let s = a.assets@;
    let z = Asset { class: x.class, value: (x.value + y.value) as i64 };
    lemma_added(s, x);
    lemma_class_sum_unique(s, x.class);
    let t = added(s, x);
    if has_class(s, x.class) {
        let i = slot(s, x.class);
        lemma_slot_is(t, i, x.class);
        assert(added(t, y) =~= added(s, z));
    } else {
        let n = s.len() as int;
        assert(t[n].class == x.class);
        lemma_slot_is(t, n, x.class);
        assert(added(t, y) =~= added(s, z));
    }
}

/// The order in which two assets are added does not change what the account
/// holds in any class.
pub proof fn lemma_add_commutes(a: Account, x: Asset, y: Asset)
    requires
        a.wf(),
        in_i64(a.value_of(x.class) + x.value),
        in_i64(a.value_of(y.class) + y.value),
        in_i64(
            a.value_of(x.class) + x.value + (if x.class == y.class {
                y.value as int
            } else {
                0
            }),
        ),
    ensures
        forall|c: AssetClass| #[trigger]
            class_sum(added(added(a.assets@, x), y), c) == class_sum(
                added(added(a.assets@, y), x),
                c,
            ),
{
    let s = a.assets@;
    lemma_added(s, x);
    lemma_added(s, y);
    lemma_added(added(s, x), y);
    lemma_added(added(s, y), x);
}

/// Adding an asset and then removing it restores the account, for an account
/// that has an entry for the class and does not hold a negative amount in it:
/// the removal succeeds and undoes the addition.
pub proof fn lemma_remove_undoes_add(a: Account, x: Asset)
    requires
        a.wf(),
        a.holds(x.class),
        a.value_of(x.class) >= 0,
        in_i64(a.value_of(x.class) + x.value),
    ensures
        has_class(added(a.assets@, x), x.class),
        class_sum(added(a.assets@, x), x.class) >= x.value,
        withdrawn(added(a.assets@, x), x) == a.assets@,
{
    let s = a.assets@;
    lemma_added(s, x);
    lemma_class_sum_unique(s, x.class);
    let i = slot(s, x.class);
    let t = added(s, x);
    lemma_slot_is(t, i, x.class);
    assert(withdrawn(t, x) =~= s);
}

/// A successful move leaves the sum of the two accounts' totals unchanged.
pub proof fn lemma_move_conserves_total(a: Account, b: Account, x: Asset)
    requires
        a.wf(),
        b.wf(),
        removal_outcome(a, x) is Ok,
        a.value_of(x.class) - x.value <= i64::MAX,
        in_i64(b.value_of(x.class) + x.value),
    ensures
        seq_total(withdrawn(a.assets@, x)) + seq_total(added(b.assets@, x)) == a.total()
            + b.total(),
{
    lemma_withdrawn(a.assets@, x);
    lemma_added(b.assets@, x);
}

/// An account diffed against itself is zero in every class.
pub proof fn lemma_diff_self_is_zero(a: Account)
    ensures
        forall|c: AssetClass| #[trigger] diff_value(a, a, c) == 0,
{
}

/// Multiplying by one keeps every class value.
pub proof fn lemma_multiply_by_one(a: Account)
    ensures
        forall|c: AssetClass| #[trigger] scaled(a.value_of(c), 1, 1) == a.value_of(c),
{
}

/// For a portfolio worth more than zero, the allocation adds up to 100.00 %
/// less at most 0.03 %: each of the four class shares is rounded down by
/// less than 0.01 %.
pub proof fn lemma_allocation_sums_to_full(u: User)
    requires
        u.wf(),
        portfolio_total(u.accounts@) > 0,
    ensures
        FULL_ALLOCATION - 3 <= u.allocation.total() <= FULL_ALLOCATION,
{
    let t = portfolio_total(u.accounts@);
    let a = portfolio_class(u.accounts@, AssetClass::Domestic);
    let b = portfolio_class(u.accounts@, AssetClass::International);
    let c = portfolio_class(u.accounts@, AssetClass::Bond);
    let d = portfolio_class(u.accounts@, AssetClass::RealEstate);
    lemma_portfolio_total_split(u.accounts@);
    lemma_total_split(u.allocation.assets@);
    assert(u.allocation.value_of(AssetClass::Domestic) == 10000 * a / t);
    assert(u.allocation.value_of(AssetClass::International) == 10000 * b / t);
    assert(u.allocation.value_of(AssetClass::Bond) == 10000 * c / t);
    assert(u.allocation.value_of(AssetClass::RealEstate) == 10000 * d / t);
    lemma_share_floor(10000 * a, t);
    lemma_share_floor(10000 * b, t);
    lemma_share_floor(10000 * c, t);
    lemma_share_floor(10000 * d, t);
    let qa = 10000 * a / t;
    let qb = 10000 * b / t;
    let qc = 10000 * c / t;
    let qd = 10000 * d / t;
    assert(t * (qa + qb + qc + qd) <= 10000 * t < t * (qa + qb + qc + qd + 4)) by (nonlinear_arith)
        requires
            t == a + b + c + d,
            t * qa <= 10000 * a < t * qa + t,
            t * qb <= 10000 * b < t * qb + t,
            t * qc <= 10000 * c < t * qc + t,
            t * qd <= 10000 * d < t * qd + t,
    ;
    assert(9997 <= qa + qb + qc + qd <= 10000) by (nonlinear_arith)
        requires
            t > 0,
            t * (qa + qb + qc + qd) <= 10000 * t,
            10000 * t < t * (qa + qb + qc + qd + 4),
    ;
}

proof fn lemma_share_floor(x: int, t: int)
    requires
        t > 0,
    ensures
        t * (x / t) <= x < t * (x / t) + t,
{
    assert(t * (x / t) <= x < t * (x / t) + t) by (nonlinear_arith)
        requires
            t > 0,
    ;
}

} // verus!
