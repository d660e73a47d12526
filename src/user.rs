use vstd::prelude::*;

use crate::account::{
    diff_value, in_i64, lemma_total_split, FULL_ALLOCATION, lemma_nonnegative_sums, scaled, standard_layout, Account, AccountType,
};
use crate::asset::{Asset, AssetClass};
use crate::error::PortfolioError;

verus! {

/// The sum over `accs` of the amounts held in class `c`.
pub open spec fn portfolio_class(accs: Seq<Account>, c: AssetClass) -> int
    decreases accs.len(),
{
    if accs.len() == 0 {
        0
    } else {
        portfolio_class(accs.drop_last(), c) + accs.last().value_of(c)
    }
}

/// The sum over `accs` of the accounts' totals.
pub open spec fn portfolio_total(accs: Seq<Account>) -> int
    decreases accs.len(),
{
    if accs.len() == 0 {
        0
    } else {
        portfolio_total(accs.drop_last()) + accs.last().total()
    }
}

/// The sum of the totals of the accounts in `accs` classified as `t`.
pub open spec fn type_total(accs: Seq<Account>, t: AccountType) -> int
    decreases accs.len(),
{
    if accs.len() == 0 {
        0
    } else {
        type_total(accs.drop_last(), t) + (if accs.last().classification == t {
            accs.last().total()
        } else {
            0
        })
    }
}

/// `part` as a share of `whole`, in hundredths of a percentage point,
/// rounded down; zero when `whole` is zero.
pub open spec fn share(part: int, whole: int) -> int {
    if whole == 0 {
        0
    } else {
        FULL_ALLOCATION * part / whole
    }
}

/// Every account of `accs` is a holding.
pub open spec fn all_holdings(accs: Seq<Account>) -> bool {
    forall|k: int| 0 <= k < accs.len() ==> (#[trigger] accs[k]).is_holding()
}

proof fn lemma_holdings_drop_last(accs: Seq<Account>)
    requires
        accs.len() > 0,
        all_holdings(accs),
    ensures
        all_holdings(accs.drop_last()),
        accs.last().is_holding(),
{
    let p = accs.drop_last();
    assert forall|k: int| 0 <= k < p.len() implies (#[trigger] p[k]).is_holding() by {
        assert(p[k] == accs[k]);
    }
}

/// Over holdings, every partial sum lies between zero and the whole: each
/// class sum and each type sum is at most the portfolio total.
pub proof fn lemma_portfolio_bounds(accs: Seq<Account>, c: AssetClass, t: AccountType)
    requires
        all_holdings(accs),
    ensures
        0 <= portfolio_class(accs, c) <= portfolio_total(accs),
        0 <= type_total(accs, t) <= portfolio_total(accs),
    decreases accs.len(),
{
    if accs.len() > 0 {
        lemma_holdings_drop_last(accs);
        lemma_portfolio_bounds(accs.drop_last(), c, t);
        lemma_nonnegative_sums(accs.last().assets@, c);
    }
}

/// The portfolio total is the sum of its four class sums.
pub proof fn lemma_portfolio_total_split(accs: Seq<Account>)
    ensures
        portfolio_total(accs) == portfolio_class(accs, AssetClass::Domestic) + portfolio_class(
            accs,
            AssetClass::International,
        ) + portfolio_class(accs, AssetClass::Bond) + portfolio_class(accs, AssetClass::RealEstate),
    decreases accs.len(),
{
    if accs.len() > 0 {
        lemma_portfolio_total_split(accs.drop_last());
        lemma_total_split(accs.last().assets@);
    }
}

/// Over holdings, the sums over a prefix are at most the sums over the whole.
pub proof fn lemma_prefix_bounds(accs: Seq<Account>, k: int, c: AssetClass, t: AccountType)
    requires
        all_holdings(accs),
        0 <= k <= accs.len(),
    ensures
        all_holdings(accs.take(k)),
        portfolio_total(accs.take(k)) <= portfolio_total(accs),
        portfolio_class(accs.take(k), c) <= portfolio_class(accs, c),
        type_total(accs.take(k), t) <= type_total(accs, t),
    decreases accs.len(),
{
    let q = accs.take(k);
    assert forall|j: int| 0 <= j < q.len() implies (#[trigger] q[j]).is_holding() by {
        assert(q[j] == accs[j]);
    }
    if k == accs.len() {
        assert(q =~= accs);
    } else {
        let p = accs.drop_last();
        lemma_holdings_drop_last(accs);
        lemma_prefix_bounds(p, k, c, t);
        assert(p.take(k) =~= q);
        lemma_nonnegative_sums(accs.last().assets@, c);
    }
}

/// A person's accounts, with the allocation they add up to and the
/// allocation the person aims for.
///
/// `allocation` and `target` are classified `Allocation` and hold
/// percentages in hundredths of a percentage point. `allocation` is derived
/// from `accounts` and recomputed whenever the accounts change.
pub struct User {
    pub fname: String,
    pub lname: String,
    pub accounts: Vec<Account>,
    pub allocation: Account,
    pub target: Account,
}

impl User {
    /// The accounts are holdings and their sum fits the amount type.
    pub open spec fn holdings_ok(&self) -> bool {
        all_holdings(self.accounts@) && in_i64(portfolio_total(self.accounts@))
    }

    /// The cached allocation is the one that the accounts add up to.
    pub open spec fn allocation_current(&self) -> bool {
        &&& self.allocation.wf()
        &&& self.allocation.classification == AccountType::Allocation
        &&& standard_layout(self.allocation.assets@)
        &&& forall|c: AssetClass| #[trigger]
            self.allocation.value_of(c) == share(
                portfolio_class(self.accounts@, c),
                portfolio_total(self.accounts@),
            )
    }

    /// The user's invariant.
    pub open spec fn wf(&self) -> bool {
        &&& self.holdings_ok()
        &&& self.target.wf()
        &&& self.allocation_current()
    }

    /// A user with no accounts and an empty target allocation.
    pub fn new(fname: &str, lname: &str) -> (r: User)
        ensures
            r.wf(),
            r.fname@ == fname@,
            r.lname@ == lname@,
            r.accounts@.len() == 0,
            r.target.classification == AccountType::Allocation,
            standard_layout(r.target.assets@),
            forall|c: AssetClass| #[trigger] r.target.value_of(c) == 0,
    {
        User {
            fname: fname.to_owned(),
            lname: lname.to_owned(),
            accounts: Vec::new(),
            allocation: Account::new(AccountType::Allocation),
            target: Account::new(AccountType::Allocation),
        }
    }

    /// The sum of the accounts' totals.
    pub fn get_total_value(&self) -> (r: i64)
        requires
            self.holdings_ok(),
        ensures
            r == portfolio_total(self.accounts@),
    {
        let mut total: i64 = 0;
        let mut k: usize = 0;
        while k < self.accounts.len()
            invariant
                self.holdings_ok(),
                k <= self.accounts@.len(),
                total == portfolio_total(self.accounts@.take(k as int)),
            decreases self.accounts@.len() - k,
        {
            proof {
                let accs = self.accounts@;
                assert(accs.take(k + 1).drop_last() =~= accs.take(k as int));
                lemma_prefix_bounds(accs, k + 1, AssetClass::Domestic, AccountType::Taxable);
                lemma_portfolio_bounds(accs.take(k as int), AssetClass::Domestic, AccountType::Taxable);
                assert(accs[k as int].is_holding());
                lemma_nonnegative_sums(accs[k as int].assets@, AssetClass::Domestic);
            }
            total = total + self.accounts[k].get_total_value();
            k += 1;
        }
        proof {
            assert(self.accounts@.take(k as int) =~= self.accounts@);
        }
        total
    }

    /// The sum over all accounts of the amounts held in `class`.
    pub fn get_asset_value(&self, class: &AssetClass) -> (r: i64)
        requires
            self.holdings_ok(),
        ensures
            r == portfolio_class(self.accounts@, *class),
    {
        let mut value: i64 = 0;
        let mut k: usize = 0;
        while k < self.accounts.len()
            invariant
                self.holdings_ok(),
                k <= self.accounts@.len(),
                value == portfolio_class(self.accounts@.take(k as int), *class),
            decreases self.accounts@.len() - k,
        {
            proof {
                let accs = self.accounts@;
                assert(accs.take(k + 1).drop_last() =~= accs.take(k as int));
                lemma_prefix_bounds(accs, k + 1, *class, AccountType::Taxable);
                lemma_portfolio_bounds(accs.take(k + 1), *class, AccountType::Taxable);
                lemma_portfolio_bounds(accs.take(k as int), *class, AccountType::Taxable);
                lemma_portfolio_bounds(accs, *class, AccountType::Taxable);
                assert(accs[k as int].is_holding());
                lemma_nonnegative_sums(accs[k as int].assets@, *class);
            }
            value = value + self.accounts[k].get_asset_value(*class);
            k += 1;
        }
        proof {
            assert(self.accounts@.take(k as int) =~= self.accounts@);
        }
        value
    }

    /// The share of the portfolio held in `class`, in hundredths of a
    /// percentage point; zero for an empty portfolio.
    pub fn get_asset_share(&self, class: &AssetClass) -> (r: i64)
        requires
            self.holdings_ok(),
        ensures
            r == share(portfolio_class(self.accounts@, *class), portfolio_total(self.accounts@)),
            0 <= r <= FULL_ALLOCATION,
    {
        let total = self.get_total_value();
        let part = self.get_asset_value(class);
        proof {
            lemma_portfolio_bounds(self.accounts@, *class, AccountType::Taxable);
        }
        if total == 0 {
            0
        } else {
            proof {
                assert(0 <= (10000 * part as int) / (total as int) <= 10000) by (nonlinear_arith)
                    requires
                        0 <= part <= total,
                        total > 0,
                ;
            }
            (10000 * (part as i128) / (total as i128)) as i64
        }
    }

    /// Recomputes the cached allocation from the accounts.
    pub fn current_allocation(&mut self)
        requires
            old(self).holdings_ok(),
            old(self).target.wf(),
        ensures
            final(self).wf(),
            final(self).accounts == old(self).accounts,
            final(self).target == old(self).target,
            final(self).fname == old(self).fname,
            final(self).lname == old(self).lname,
    {
        let dom = Asset::new(AssetClass::Domestic, self.get_asset_share(&AssetClass::Domestic));
        let intl = Asset::new(
            AssetClass::International,
            self.get_asset_share(&AssetClass::International),
        );
        let bnd = Asset::new(AssetClass::Bond, self.get_asset_share(&AssetClass::Bond));
        let rle = Asset::new(AssetClass::RealEstate, self.get_asset_share(&AssetClass::RealEstate));
        let mut cur = Account::new(AccountType::Allocation);
        cur.add_asset(dom);
        cur.add_asset(intl);
        cur.add_asset(bnd);
        cur.add_asset(rle);
        self.allocation = cur;
    }

    /// Adds an account to the portfolio and recomputes the allocation.
    pub fn add_account(&mut self, account: Account)
        requires
            old(self).wf(),
            account.is_holding(),
            in_i64(portfolio_total(old(self).accounts@) + account.total()),
        ensures
            final(self).wf(),
            final(self).accounts@ == old(self).accounts@.push(account),
            portfolio_total(final(self).accounts@) == portfolio_total(old(self).accounts@)
                + account.total(),
            forall|c: AssetClass| #[trigger]
                portfolio_class(final(self).accounts@, c) == portfolio_class(old(self).accounts@, c)
                    + account.value_of(c),
            final(self).target == old(self).target,
            final(self).fname == old(self).fname,
            final(self).lname == old(self).lname,
    {
        proof {
            let accs = self.accounts@.push(account);
            assert(accs.drop_last() =~= self.accounts@);
            assert forall|k: int| 0 <= k < accs.len() implies (#[trigger] accs[k]).is_holding() by {
                if k < self.accounts@.len() {
                    assert(accs[k] == self.accounts@[k]);
                }
            }
        }
        self.accounts.push(account);
        self.current_allocation();
    }

    /// Sets the target allocation, provided its percentages add up to
    /// exactly 100.00; otherwise the user is left as it was.
    pub fn target_allocation(&mut self, allocation: Account) -> (r: Result<(), PortfolioError>)
        requires
            allocation.wf(),
            in_i64(allocation.total()),
        ensures
            allocation.total() == FULL_ALLOCATION ==> r is Ok && final(self).target == allocation
                && final(self).accounts == old(self).accounts && final(self).allocation == old(
                self,
            ).allocation && final(self).fname == old(self).fname && final(self).lname == old(
                self,
            ).lname,
            allocation.total() != FULL_ALLOCATION ==> r == Err::<(), PortfolioError>(
                PortfolioError::InvalidAllocation { total: allocation.total() as i64 },
            ) && *final(self) == *old(self),
            old(self).wf() ==> final(self).wf(),
    {
        let total = allocation.get_total_value();
        if total == FULL_ALLOCATION {
            self.target = allocation;
            Ok(())
        } else {
            Err(PortfolioError::InvalidAllocation { total })
        }
    }

    /// How far the current allocation is from the target, class by class:
    /// positive where the portfolio holds too much, negative where too
    /// little. In percentage points (an `Allocation` account), or, when
    /// `in_currency` is set, converted to money at the portfolio's total
    /// value (a `Taxable` account).
    pub fn allocation_diff(&self, in_currency: bool) -> (r: Account)
        requires
            self.wf(),
            forall|c: AssetClass|
                in_i64(#[trigger] self.allocation.value_of(c) - self.target.value_of(c)),
            in_currency ==> forall|c: AssetClass|
                in_i64(
                    scaled(
                        #[trigger] diff_value(self.allocation, self.target, c),
                        portfolio_total(self.accounts@),
                        FULL_ALLOCATION as int,
                    ),
                ),
        ensures
            r.wf(),
            standard_layout(r.assets@),
            !in_currency ==> r.classification == AccountType::Allocation,
            !in_currency ==> forall|c: AssetClass| #[trigger]
                r.value_of(c) == diff_value(self.allocation, self.target, c),
            in_currency ==> r.classification == AccountType::Taxable,
            in_currency ==> forall|c: AssetClass| #[trigger]
                r.value_of(c) == scaled(
                    diff_value(self.allocation, self.target, c),
                    portfolio_total(self.accounts@),
                    FULL_ALLOCATION as int,
                ),
    {
        let mut diff = self.allocation.diff(&self.target);
        if in_currency {
            let ghost d0 = diff;
            diff.change_account_classification(AccountType::Taxable);
            let total = self.get_total_value();
            proof {
                assert forall|c: AssetClass| #[trigger]
                    diff.value_of(c) == diff_value(self.allocation, self.target, c) by {
                    assert(d0.value_of(c) == diff_value(self.allocation, self.target, c));
                }
            }
            diff.multiply(total, FULL_ALLOCATION)
        } else {
            diff
        }
    }

    /// The amount held in accounts classified `t`, and its share of the
    /// portfolio in hundredths of a percentage point (zero for an empty
    /// portfolio).
    pub fn account_type_allocation(&self, t: AccountType) -> (r: (i64, i64))
        requires
            self.holdings_ok(),
        ensures
            r.0 == type_total(self.accounts@, t),
            r.1 == share(type_total(self.accounts@, t), portfolio_total(self.accounts@)),
            0 <= r.1 <= FULL_ALLOCATION,
    {
        let mut amount: i64 = 0;
        let mut k: usize = 0;
        while k < self.accounts.len()
            invariant
                self.holdings_ok(),
                k <= self.accounts@.len(),
                amount == type_total(self.accounts@.take(k as int), t),
            decreases self.accounts@.len() - k,
        {
            proof {
                let accs = self.accounts@;
                assert(accs.take(k + 1).drop_last() =~= accs.take(k as int));
                lemma_prefix_bounds(accs, k + 1, AssetClass::Domestic, t);
                lemma_portfolio_bounds(accs.take(k + 1), AssetClass::Domestic, t);
                lemma_portfolio_bounds(accs.take(k as int), AssetClass::Domestic, t);
                lemma_portfolio_bounds(accs, AssetClass::Domestic, t);
                assert(accs[k as int].is_holding());
                lemma_nonnegative_sums(accs[k as int].assets@, AssetClass::Domestic);
            }
            let account = &self.accounts[k];
            if account.classification == t {
                amount = amount + account.get_total_value();
            }
            k += 1;
        }
        proof {
            assert(self.accounts@.take(k as int) =~= self.accounts@);
            lemma_portfolio_bounds(self.accounts@, AssetClass::Domestic, t);
        }
        let total = self.get_total_value();
        if total == 0 {
            (amount, 0)
        } else {
            proof {
                assert(0 <= (10000 * amount as int) / (total as int) <= 10000) by (nonlinear_arith)
                    requires
                        0 <= amount <= total,
                        total > 0,
                ;
            }
            (amount, (10000 * (amount as i128) / (total as i128)) as i64)
        }
    }
}

} // verus!
