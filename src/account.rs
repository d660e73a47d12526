use vstd::prelude::*;

use crate::asset::{Asset, AssetClass};
use crate::error::PortfolioError;

verus! {

/// How an account is taxed, or `Allocation` for a derived account that holds
/// percentages instead of money.
///
/// Two values are equal exactly when they are the same variant; in particular
/// `Allocation` equals `Allocation`.
#[derive(Clone, Copy, Debug, PartialEq, Eq, Structural)]
pub enum AccountType {
    Traditional,
    Taxable,
    Roth,
    Allocation,
}

impl AccountType {
    /// The label under which the classification is shown.
    pub fn name(&self) -> (r: &'static str)
        ensures
            r@ == self.spec_name(),
    {
        match self {
            AccountType::Traditional => "IRA / 401(k)",
            AccountType::Roth => "Roth IRA / Roth 401(k)",
            AccountType::Taxable => "Brokerage Account",
            AccountType::Allocation => "Allocation",
        }
    }

    pub open spec fn spec_name(&self) -> Seq<char> {
        match self {
            AccountType::Traditional => "IRA / 401(k)"@,
            AccountType::Roth => "Roth IRA / Roth 401(k)"@,
            AccountType::Taxable => "Brokerage Account"@,
            AccountType::Allocation => "Allocation"@,
        }
    }

    /// The account type picked from the menu `1. Taxable  2. Traditional
    /// 3. Roth`.
    pub fn from_menu(choice: u8) -> (r: Option<AccountType>)
        ensures
            choice == 1 ==> r == Some(AccountType::Taxable),
            choice == 2 ==> r == Some(AccountType::Traditional),
            choice == 3 ==> r == Some(AccountType::Roth),
            !(1 <= choice <= 3) ==> r is None,
    {
        match choice {
            1 => Some(AccountType::Taxable),
            2 => Some(AccountType::Traditional),
            3 => Some(AccountType::Roth),
            _ => None,
        }
    }

    /// Whether amounts under this classification are percentages (`%`)
    /// rather than money (`$`).
    pub fn is_percentage(&self) -> (r: bool)
        ensures
            r == (*self == AccountType::Allocation),
    {
        match self {
            AccountType::Allocation => true,
            _ => false,
        }
    }
}

/// A pool of assets under one classification.
///
/// Well-formed accounts (`wf`) hold at most one asset per class: the class is
/// the key under which money is filed.
pub struct Account {
    pub classification: AccountType,
    pub assets: Vec<Asset>,
}

/// The total, in hundredths of a percentage point, of a complete allocation:
/// 100.00 %.
pub const FULL_ALLOCATION: i64 = 10000;

/// `x` is representable as an `i64`.
pub open spec fn in_i64(x: int) -> bool {
    i64::MIN <= x <= i64::MAX
}

/// The sum of the values filed under `c` in `s`.
pub open spec fn class_sum(s: Seq<Asset>, c: AssetClass) -> int
    decreases s.len(),
{
    if s.len() == 0 {
        0
    } else {
        class_sum(s.drop_last(), c) + (if s.last().class == c {
            s.last().value as int
        } else {
            0
        })
    }
}

/// The sum of all values in `s`.
pub open spec fn seq_total(s: Seq<Asset>) -> int
    decreases s.len(),
{
    if s.len() == 0 {
        0
    } else {
        seq_total(s.drop_last()) + s.last().value
    }
}

/// `s` has an entry for class `c`.
pub open spec fn has_class(s: Seq<Asset>, c: AssetClass) -> bool {
    exists|i: int| 0 <= i < s.len() && s[i].class == c
}

/// No two entries of `s` share a class.
pub open spec fn unique_classes(s: Seq<Asset>) -> bool {
    forall|i: int, j: int|
        #![trigger s[i], s[j]]
        0 <= i < s.len() && 0 <= j < s.len() && s[i].class == s[j].class ==> i == j
}

/// The position of the entry for `c` (meaningful when `has_class(s, c)`).
pub open spec fn slot(s: Seq<Asset>, c: AssetClass) -> int {
    choose|i: int| 0 <= i < s.len() && s[i].class == c
}

/// The entries after `a` is merged in: added into the entry of its class, or
/// appended when there is none.
pub open spec fn added(s: Seq<Asset>, a: Asset) -> Seq<Asset> {
    if has_class(s, a.class) {
        let i = slot(s, a.class);
        s.update(i, Asset { class: a.class, value: (s[i].value + a.value) as i64 })
    } else {
        s.push(a)
    }
}

/// The entries after `a.value` is taken out of the entry of `a.class`.
pub open spec fn withdrawn(s: Seq<Asset>, a: Asset) -> Seq<Asset> {
    let i = slot(s, a.class);
    s.update(i, Asset { class: a.class, value: (s[i].value - a.value) as i64 })
}

/// One entry per class, in the order Domestic, International, Bond, RealEstate.
pub open spec fn standard_layout(s: Seq<Asset>) -> bool {
    &&& s.len() == 4
    &&& s[0].class == AssetClass::Domestic
    &&& s[1].class == AssetClass::International
    &&& s[2].class == AssetClass::Bond
    &&& s[3].class == AssetClass::RealEstate
}

/// With one entry per class, the entry at `i` is the slot of its class.
pub(crate) proof fn lemma_slot_is(s: Seq<Asset>, i: int, c: AssetClass)
    requires
        unique_classes(s),
        0 <= i < s.len(),
        s[i].class == c,
    ensures
        has_class(s, c),
        slot(s, c) == i,
{
    assert(has_class(s, c));
    let j = slot(s, c);
    assert(s[j].class == s[i].class);
}

proof fn lemma_sums_update(s: Seq<Asset>, i: int, x: Asset, c: AssetClass)
    requires
        0 <= i < s.len(),
    ensures
        class_sum(s.update(i, x), c) == class_sum(s, c) - (if s[i].class == c {
            s[i].value as int
        } else {
            0
        }) + (if x.class == c {
            x.value as int
        } else {
            0
        }),
        seq_total(s.update(i, x)) == seq_total(s) - s[i].value + x.value,
    decreases s.len(),
{
    let t = s.update(i, x);
    if i == s.len() - 1 {
        assert(t.drop_last() =~= s.drop_last());
    } else {
        lemma_sums_update(s.drop_last(), i, x, c);
        assert(t.drop_last() =~= s.drop_last().update(i, x));
    }
}

proof fn lemma_sums_push(s: Seq<Asset>, a: Asset, c: AssetClass)
    ensures
        class_sum(s.push(a), c) == class_sum(s, c) + (if a.class == c {
            a.value as int
        } else {
            0
        }),
        seq_total(s.push(a)) == seq_total(s) + a.value,
{
    assert(s.push(a).drop_last() =~= s);
}

/// In a sequence with one entry per class, the sum for a class is the value
/// of its entry.
pub proof fn lemma_class_sum_unique(s: Seq<Asset>, c: AssetClass)
    requires
        unique_classes(s),
    ensures
        class_sum(s, c) == (if has_class(s, c) {
            s[slot(s, c)].value as int
        } else {
            0
        }),
    decreases s.len(),
{
    if s.len() > 0 {
        let p = s.drop_last();
        let n = s.len() - 1;
        assert(unique_classes(p)) by {
            assert forall|i: int, j: int|
                0 <= i < p.len() && 0 <= j < p.len() && p[i].class == p[j].class implies i == j by {
                assert(p[i] == s[i] && p[j] == s[j]);
            }
        }
        lemma_class_sum_unique(p, c);
        if s[n].class == c {
            lemma_slot_is(s, n, c);
            if has_class(p, c) {
                let k = slot(p, c);
                assert(s[k] == p[k]);
            }
        } else {
            if has_class(s, c) {
                let k = slot(s, c);
                assert(k < n);
                assert(p[k] == s[k]);
                lemma_slot_is(p, k, c);
            } else {
                if has_class(p, c) {
                    let k = slot(p, c);
                    assert(s[k] == p[k]);
                }
            }
        }
    }
}

/// The total of a sequence is the sum of its four class sums.
pub proof fn lemma_total_split(s: Seq<Asset>)
    ensures
        seq_total(s) == class_sum(s, AssetClass::Domestic) + class_sum(s, AssetClass::International)
            + class_sum(s, AssetClass::Bond) + class_sum(s, AssetClass::RealEstate),
    decreases s.len(),
{
    if s.len() > 0 {
        lemma_total_split(s.drop_last());
    }
}

/// What merging `a` into `s` does to the entries and their sums.
pub proof fn lemma_added(s: Seq<Asset>, a: Asset)
    requires
        unique_classes(s),
        in_i64(class_sum(s, a.class) + a.value),
    ensures
        unique_classes(added(s, a)),
        has_class(added(s, a), a.class),
        forall|c: AssetClass| #[trigger]
            has_class(added(s, a), c) == (has_class(s, c) || c == a.class),
        forall|c: AssetClass| #[trigger]
            class_sum(added(s, a), c) == class_sum(s, c) + (if c == a.class {
                a.value as int
            } else {
                0
            }),
        seq_total(added(s, a)) == seq_total(s) + a.value,
        standard_layout(s) ==> standard_layout(added(s, a)),
{
    lemma_class_sum_unique(s, a.class);
    let t = added(s, a);
    if has_class(s, a.class) {
        let i = slot(s, a.class);
        let x = Asset { class: a.class, value: (s[i].value + a.value) as i64 };
        assert forall|c: AssetClass| #[trigger]
            class_sum(t, c) == class_sum(s, c) + (if c == a.class {
                a.value as int
            } else {
                0
            }) by {
            lemma_sums_update(s, i, x, c);
        }
        lemma_sums_update(s, i, x, a.class);
        assert forall|c: AssetClass| #[trigger] has_class(t, c) == (has_class(s, c) || c == a.class) by {
            if has_class(s, c) {
                let k = slot(s, c);
                assert(t[k].class == c);
            }
            if has_class(t, c) {
                let k = choose|k: int| 0 <= k < t.len() && t[k].class == c;
                assert(s[k].class == c);
            }
        }
        assert(t[i].class == a.class);
    } else {
        assert forall|c: AssetClass| #[trigger]
            class_sum(t, c) == class_sum(s, c) + (if c == a.class {
                a.value as int
            } else {
                0
            }) by {
            lemma_sums_push(s, a, c);
        }
        lemma_sums_push(s, a, a.class);
        assert forall|c: AssetClass| #[trigger] has_class(t, c) == (has_class(s, c) || c == a.class) by {
            if has_class(s, c) {
                let k = slot(s, c);
                assert(t[k].class == c);
            }
            if has_class(t, c) && c != a.class {
                let k = choose|k: int| 0 <= k < t.len() && t[k].class == c;
                assert(k < s.len());
                assert(s[k].class == c);
            }
        }
        assert(t[s.len() as int].class == a.class);
    }
}

/// What taking `a.value` out of the entry of `a.class` does to the entries
/// and their sums.
pub proof fn lemma_withdrawn(s: Seq<Asset>, a: Asset)
    requires
        unique_classes(s),
        has_class(s, a.class),
        in_i64(class_sum(s, a.class) - a.value),
    ensures
        unique_classes(withdrawn(s, a)),
        forall|c: AssetClass| #[trigger] has_class(withdrawn(s, a), c) == has_class(s, c),
        forall|c: AssetClass| #[trigger]
            class_sum(withdrawn(s, a), c) == class_sum(s, c) - (if c == a.class {
                a.value as int
            } else {
                0
            }),
        seq_total(withdrawn(s, a)) == seq_total(s) - a.value,
        standard_layout(s) ==> standard_layout(withdrawn(s, a)),
{
    lemma_class_sum_unique(s, a.class);
    let t = withdrawn(s, a);
    let i = slot(s, a.class);
    let x = Asset { class: a.class, value: (s[i].value - a.value) as i64 };
    assert forall|c: AssetClass| #[trigger]
        class_sum(t, c) == class_sum(s, c) - (if c == a.class {
            a.value as int
        } else {
            0
        }) by {
        lemma_sums_update(s, i, x, c);
    }
    lemma_sums_update(s, i, x, a.class);
    assert forall|c: AssetClass| #[trigger] has_class(t, c) == has_class(s, c) by {
        if has_class(s, c) {
            let k = slot(s, c);
            assert(t[k].class == c);
        }
        if has_class(t, c) {
            let k = choose|k: int| 0 <= k < t.len() && t[k].class == c;
            assert(s[k].class == c);
        }
    }
}

/// No entry of `s` is negative.
pub open spec fn nonnegative(s: Seq<Asset>) -> bool {
    forall|i: int| 0 <= i < s.len() ==> #[trigger] s[i].value >= 0
}

/// With no negative entries, every class sum lies between zero and the total.
pub proof fn lemma_nonnegative_sums(s: Seq<Asset>, c: AssetClass)
    requires
        nonnegative(s),
    ensures
        0 <= class_sum(s, c) <= seq_total(s),
    decreases s.len(),
{
    if s.len() > 0 {
        let p = s.drop_last();
        assert forall|i: int| 0 <= i < p.len() implies #[trigger] p[i].value >= 0 by {
            assert(p[i] == s[i]);
        }
        assert(s.last().value >= 0);
        lemma_nonnegative_sums(p, c);
    }
}

/// A sequence in the standard layout has one entry for every class.
pub proof fn lemma_standard_layout(s: Seq<Asset>)
    requires
        standard_layout(s),
    ensures
        unique_classes(s),
        forall|c: AssetClass| #[trigger] has_class(s, c),
{
    assert forall|c: AssetClass| #[trigger] has_class(s, c) by {
        match c {
            AssetClass::Domestic => assert(s[0].class == c),
            AssetClass::International => assert(s[1].class == c),
            AssetClass::Bond => assert(s[2].class == c),
            AssetClass::RealEstate => assert(s[3].class == c),
        }
    }
}

/// Whether `s` has an entry for `c` among its first `i + 1` entries.
proof fn lemma_has_class_take(s: Seq<Asset>, i: int, c: AssetClass)
    requires
        0 <= i < s.len(),
    ensures
        has_class(s.take(i + 1), c) == (has_class(s.take(i), c) || s[i].class == c),
        unique_classes(s) ==> !has_class(s.take(i), s[i].class),
{
    let t = s.take(i + 1);
    let u = s.take(i);
    if has_class(t, c) {
        let k = choose|k: int| 0 <= k < t.len() && t[k].class == c;
        if k < i {
            assert(u[k].class == c);
        }
    }
    if has_class(u, c) {
        let k = choose|k: int| 0 <= k < u.len() && u[k].class == c;
        assert(t[k].class == c);
    }
    assert(t[i].class == s[i].class);
    if unique_classes(s) && has_class(u, s[i].class) {
        let k = choose|k: int| 0 <= k < u.len() && u[k].class == s[i].class;
        assert(s[k].class == s[i].class);
    }
}

/// `v * numerator / denominator`, rounded toward zero.
pub open spec fn scaled(v: int, numerator: int, denominator: int) -> int {
    let p = v * numerator;
    if p >= 0 {
        p / denominator
    } else {
        -((-p) / denominator)
    }
}

/// The class value of `a - b`: the difference where both accounts hold the
/// class, zero otherwise.
pub open spec fn diff_value(a: Account, b: Account, c: AssetClass) -> int {
    if a.holds(c) && b.holds(c) {
        a.value_of(c) - b.value_of(c)
    } else {
        0
    }
}

/// Where a target allocation under construction stands after a step.
#[derive(Clone, Copy, Debug, PartialEq, Eq, Structural)]
pub enum AllocationProgress {
    /// Under 100.00 %: more is needed.
    Incomplete,
    /// Over 100.00 %: the allocation was cleared to start again.
    Overshot,
    /// Exactly 100.00 %.
    Complete,
}

/// What withdrawing `a` from `acc` reports.
pub open spec fn removal_outcome(acc: Account, a: Asset) -> Result<(), PortfolioError> {
    if !acc.holds(a.class) {
        Err(PortfolioError::ClassNotFound { class: a.class })
    } else if acc.value_of(a.class) >= a.value {
        Ok(())
    } else {
        Err(
            PortfolioError::InsufficientFunds {
                class: a.class,
                available: acc.value_of(a.class) as i64,
                requested: a.value,
            },
        )
    }
}

/// Scales `v` by `numerator / denominator`, rounding toward zero.
fn scale_value(v: i64, numerator: i64, denominator: i64) -> (r: i64)
    requires
        denominator > 0,
        in_i64(scaled(v as int, numerator as int, denominator as int)),
    ensures
        r == scaled(v as int, numerator as int, denominator as int),
{
    proof {
        assert(-0x4000_0000_0000_0000_0000_0000_0000_0000 <= v * numerator <= 0x4000_0000_0000_0000_0000_0000_0000_0000)
            by (nonlinear_arith)
            requires
                i64::MIN <= v <= i64::MAX,
                i64::MIN <= numerator <= i64::MAX,
        ;
    }
    let p: i128 = v as i128 * numerator as i128;
    if p >= 0 {
        (p / denominator as i128) as i64
    } else {
        let q: i128 = (-p) / denominator as i128;
        (-q) as i64
    }
}

impl Account {
    /// The account's invariant: one entry per class at most.
    pub open spec fn wf(&self) -> bool {
        unique_classes(self.assets@)
    }

    /// The amount held in class `c`.
    pub open spec fn value_of(&self, c: AssetClass) -> int {
        class_sum(self.assets@, c)
    }

    /// The amount held over all classes.
    pub open spec fn total(&self) -> int {
        seq_total(self.assets@)
    }

    /// A well-formed account with no negative balance: what a portfolio holds.
    pub open spec fn is_holding(&self) -> bool {
        self.wf() && nonnegative(self.assets@)
    }

    /// The account has an entry for class `c`.
    pub open spec fn holds(&self, c: AssetClass) -> bool {
        has_class(self.assets@, c)
    }

    /// A new account of the given classification with a zero entry for each
    /// class.
    pub fn new(classification: AccountType) -> (r: Account)
        ensures
            r.wf(),
            r.classification == classification,
            standard_layout(r.assets@),
            forall|c: AssetClass| #[trigger] r.value_of(c) == 0,
            forall|c: AssetClass| #[trigger] r.holds(c),
            r.total() == 0,
            r.is_holding(),
    {
        let r = Account {
            classification,
            assets: vec![
                Asset::new(AssetClass::Domestic, 0),
                Asset::new(AssetClass::International, 0),
                Asset::new(AssetClass::Bond, 0),
                Asset::new(AssetClass::RealEstate, 0),
            ],
        };
        proof {
            lemma_standard_layout(r.assets@);
            assert forall|c: AssetClass| #[trigger] r.value_of(c) == 0 by {
                lemma_class_sum_unique(r.assets@, c);
            }
            lemma_total_split(r.assets@);
            assert(r.value_of(AssetClass::Domestic) == 0);
            assert(r.value_of(AssetClass::International) == 0);
            assert(r.value_of(AssetClass::Bond) == 0);
            assert(r.value_of(AssetClass::RealEstate) == 0);
        }
        r
    }

    /// Relabels the account.
    pub fn change_account_classification(&mut self, classification: AccountType)
        ensures
            final(self).classification == classification,
            final(self).assets@ == old(self).assets@,
    {
        self.classification = classification;
    }

    /// The position of the entry for `class`, if there is one.
    fn slot_of(&self, class: AssetClass) -> (r: Option<usize>)
        ensures
            match r {
                Some(i) => i < self.assets@.len() && self.assets@[i as int].class == class,
                None => !self.holds(class),
            },
            self.wf() && r is Some ==> r->0 == slot(self.assets@, class),
    {
        let mut i: usize = 0;
        while i < self.assets.len()
            invariant
                i <= self.assets@.len(),
                forall|k: int| 0 <= k < i ==> self.assets@[k].class != class,
            decreases self.assets@.len() - i,
        {
            if self.assets[i].class == class {
                proof {
                    if self.wf() {
                        lemma_slot_is(self.assets@, i as int, class);
                    }
                }
                return Some(i);
            }
            i += 1;
        }
        None
    }

    /// The amount held in `class` (summed over every entry of that class).
    pub fn get_asset_value(&self, class: AssetClass) -> (r: i64)
        requires
            in_i64(self.value_of(class)),
        ensures
            r == self.value_of(class),
    {
        let mut value: i128 = 0;
        let mut i: usize = 0;
        while i < self.assets.len()
            invariant
                i <= self.assets@.len(),
                value == class_sum(self.assets@.take(i as int), class),
                -(i as int) * 0x8000_0000_0000_0000 <= value <= (i as int) * 0x8000_0000_0000_0000,
            decreases self.assets@.len() - i,
        {
            proof {
                assert(self.assets@.take(i + 1).drop_last() =~= self.assets@.take(i as int));
            }
            if self.assets[i].class == class {
                value = value + self.assets[i].value as i128;
            }
            i += 1;
        }
        proof {
            assert(self.assets@.take(i as int) =~= self.assets@);
        }
        value as i64
    }

    /// The amount held over all classes.
    pub fn get_total_value(&self) -> (r: i64)
        requires
            in_i64(self.total()),
        ensures
            r == self.total(),
    {
        let mut x: i128 = 0;
        let mut i: usize = 0;
        while i < self.assets.len()
            invariant
                i <= self.assets@.len(),
                x == seq_total(self.assets@.take(i as int)),
                -(i as int) * 0x8000_0000_0000_0000 <= x <= (i as int) * 0x8000_0000_0000_0000,
            decreases self.assets@.len() - i,
        {
            proof {
                assert(self.assets@.take(i + 1).drop_last() =~= self.assets@.take(i as int));
            }
            x = x + self.assets[i].value as i128;
            i += 1;
        }
        proof {
            assert(self.assets@.take(i as int) =~= self.assets@);
        }
        x as i64
    }

    /// Adds `new_asset` into the entry of its class, or appends it when the
    /// account has no such entry.
    pub fn add_asset(&mut self, new_asset: Asset)
        requires
            old(self).wf(),
            in_i64(old(self).value_of(new_asset.class) + new_asset.value),
        ensures
            final(self).wf(),
            final(self).classification == old(self).classification,
            final(self).assets@ == added(old(self).assets@, new_asset),
            standard_layout(old(self).assets@) ==> standard_layout(final(self).assets@),
            old(self).is_holding() && new_asset.value >= 0 ==> final(self).is_holding(),
            final(self).total() == old(self).total() + new_asset.value,
            forall|c: AssetClass| #[trigger]
                final(self).value_of(c) == old(self).value_of(c) + (if c == new_asset.class {
                    new_asset.value as int
                } else {
                    0
                }),
    {
        proof {
            lemma_added(self.assets@, new_asset);
            lemma_class_sum_unique(self.assets@, new_asset.class);
        }
        match self.slot_of(new_asset.class) {
            Some(i) => {
                let mut asset = self.assets[i];
                asset.value = asset.value + new_asset.value;
                self.assets.set(i, asset);
            },
            None => {
                self.assets.push(new_asset);
            },
        }
    }

    /// Takes `unwanted_asset.value` out of the entry of its class, provided the
    /// entry exists and holds at least that much; otherwise the account is
    /// left as it was.
    pub fn remove_asset(&mut self, unwanted_asset: &Asset) -> (r: Result<(), PortfolioError>)
        requires
            old(self).wf(),
            old(self).value_of(unwanted_asset.class) >= unwanted_asset.value ==> old(self).value_of(
                unwanted_asset.class,
            ) - unwanted_asset.value <= i64::MAX,
        ensures
            final(self).wf(),
            r == removal_outcome(*old(self), *unwanted_asset),
            r is Ok ==> final(self).classification == old(self).classification,
            r is Ok ==> final(self).assets@ == withdrawn(old(self).assets@, *unwanted_asset),
            r is Ok ==> standard_layout(old(self).assets@) ==> standard_layout(final(self).assets@),
            r is Ok ==> final(self).total() == old(self).total() - unwanted_asset.value,
            r is Ok ==> forall|c: AssetClass| #[trigger]
                final(self).value_of(c) == old(self).value_of(c) - (if c == unwanted_asset.class {
                    unwanted_asset.value as int
                } else {
                    0
                }),
            r is Err ==> *final(self) == *old(self),
            old(self).is_holding() ==> final(self).is_holding(),
    {
        match self.slot_of(unwanted_asset.class) {
            Some(i) => {
                proof {
                    lemma_class_sum_unique(self.assets@, unwanted_asset.class);
                }
                let mut asset = self.assets[i];
                if asset.value >= unwanted_asset.value {
                    proof {
                        lemma_withdrawn(self.assets@, *unwanted_asset);
                    }
                    asset.value = asset.value - unwanted_asset.value;
                    self.assets.set(i, asset);
                    Ok(())
                } else {
                    Err(
                        PortfolioError::InsufficientFunds {
                            class: asset.class,
                            available: asset.value,
                            requested: unwanted_asset.value,
                        },
                    )
                }
            },
            None => Err(PortfolioError::ClassNotFound { class: unwanted_asset.class }),
        }
    }

    /// Moves `asset` from this account into `other`: withdrawn here, then
    /// added there. When the withdrawal fails neither account changes.
    pub fn move_asset(&mut self, other: &mut Account, asset: Asset) -> (r: Result<(), PortfolioError>)
        requires
            old(self).wf(),
            old(other).wf(),
            old(self).value_of(asset.class) >= asset.value ==> old(self).value_of(asset.class)
                - asset.value <= i64::MAX,
            removal_outcome(*old(self), asset) is Ok ==> in_i64(
                old(other).value_of(asset.class) + asset.value,
            ),
        ensures
            final(self).wf(),
            final(other).wf(),
            r == removal_outcome(*old(self), asset),
            r is Ok ==> final(self).classification == old(self).classification,
            r is Ok ==> final(self).assets@ == withdrawn(old(self).assets@, asset),
            r is Ok ==> final(other).classification == old(other).classification,
            r is Ok ==> final(other).assets@ == added(old(other).assets@, asset),
            r is Ok ==> final(self).total() + final(other).total() == old(self).total() + old(
                other,
            ).total(),
            r is Err ==> *final(self) == *old(self) && *final(other) == *old(other),
    {
        let res = self.remove_asset(&asset);
        if res.is_ok() {
            other.add_asset(asset);
        }
        res
    }

    /// Moves the whole balance of `class` from this account into `other`.
    pub fn move_asset_class_to(
        &mut self,
        other: &mut Account,
        class: &AssetClass,
    ) -> (r: Result<(), PortfolioError>)
        requires
            old(self).wf(),
            old(other).wf(),
            in_i64(old(other).value_of(*class) + old(self).value_of(*class)),
        ensures
            final(self).wf(),
            final(other).wf(),
            r == (if old(self).holds(*class) {
                Ok(())
            } else {
                Err(PortfolioError::ClassNotFound { class: *class })
            }),
            r is Ok ==> final(self).classification == old(self).classification,
            r is Ok ==> final(self).assets@ == withdrawn(
                old(self).assets@,
                Asset { class: *class, value: old(self).value_of(*class) as i64 },
            ),
            r is Ok ==> final(other).classification == old(other).classification,
            r is Ok ==> final(other).assets@ == added(
                old(other).assets@,
                Asset { class: *class, value: old(self).value_of(*class) as i64 },
            ),
            r is Ok ==> final(self).value_of(*class) == 0,
            r is Ok ==> final(other).value_of(*class) == old(other).value_of(*class) + old(
                self,
            ).value_of(*class),
            r is Err ==> *final(self) == *old(self) && *final(other) == *old(other),
    {
        let ghost s0 = self.assets@;
        let ghost o0 = other.assets@;
        proof {
            lemma_class_sum_unique(self.assets@, *class);
        }
        let asset = Asset::new(*class, self.get_asset_value(*class));
        let r = self.move_asset(other, asset);
        proof {
            if r is Ok {
                lemma_withdrawn(s0, asset);
                lemma_added(o0, asset);
            }
        }
        r
    }

    /// Takes `amount` out of `src` and files it under `dst` in the same
    /// account. When the withdrawal fails nothing changes.
    pub fn swap_asset(
        &mut self,
        src: AssetClass,
        dst: AssetClass,
        amount: i64,
    ) -> (r: Result<(), PortfolioError>)
        requires
            old(self).wf(),
            old(self).value_of(src) >= amount ==> old(self).value_of(src) - amount <= i64::MAX,
            old(self).value_of(src) >= amount && src != dst ==> in_i64(
                old(self).value_of(dst) + amount,
            ),
        ensures
            final(self).wf(),
            r == removal_outcome(*old(self), Asset { class: src, value: amount }),
            r is Ok ==> final(self).classification == old(self).classification,
            r is Ok ==> final(self).assets@ == added(
                withdrawn(old(self).assets@, Asset { class: src, value: amount }),
                Asset { class: dst, value: amount },
            ),
            r is Ok ==> final(self).total() == old(self).total(),
            r is Err ==> *final(self) == *old(self),
    {
        proof {
            lemma_class_sum_unique(self.assets@, dst);
            lemma_class_sum_unique(self.assets@, src);
        }
        let old_asset = Asset::new(src, amount);
        let res = self.remove_asset(&old_asset);
        let new_asset = Asset::new(dst, amount);
        if res.is_ok() {
            self.add_asset(new_asset);
        }
        res
    }

    /// Whether adding `asset` keeps the total at or under `limit`.
    fn fits(&self, asset: &Asset, limit: i64) -> (r: bool)
        requires
            in_i64(self.total()),
            in_i64(limit - self.total()),
        ensures
            r == (asset.value <= limit - self.total()),
    {
        asset.value <= limit - self.get_total_value()
    }

    /// Adds as much of `asset` as fits under `limit` and returns what is left
    /// over, if anything. When the whole asset does not fit, the account is
    /// filled to exactly `limit`.
    pub fn add_to_limit(&mut self, asset: Asset, limit: i64) -> (r: Option<Asset>)
        requires
            old(self).wf(),
            in_i64(old(self).total()),
            in_i64(limit - old(self).total()),
            asset.value <= limit - old(self).total() ==> in_i64(
                old(self).value_of(asset.class) + asset.value,
            ),
            asset.value > limit - old(self).total() ==> in_i64(
                old(self).value_of(asset.class) + limit - old(self).total(),
            ),
            asset.value > limit - old(self).total() ==> in_i64(
                asset.value - (limit - old(self).total()),
            ),
        ensures
            final(self).wf(),
            final(self).classification == old(self).classification,
            asset.value <= limit - old(self).total() ==> r is None && final(self).assets@ == added(
                old(self).assets@,
                asset,
            ),
            asset.value > limit - old(self).total() ==> r == Some(
                Asset {
                    class: asset.class,
                    value: (asset.value - (limit - old(self).total())) as i64,
                },
            ) && final(self).assets@ == added(
                old(self).assets@,
                Asset { class: asset.class, value: (limit - old(self).total()) as i64 },
            ) && final(self).total() == limit,
    {
        if self.fits(&asset, limit) {
            self.add_asset(asset);
            None
        } else {
            let space_filler = Asset::new(asset.class, limit - self.get_total_value());
            let leftover = asset.subtract_asset(&space_filler).unwrap();
            self.add_asset(space_filler);
            Some(leftover)
        }
    }

    /// Class by class, this account's value less `other`'s, for the classes
    /// both hold; the result has this account's classification.
    pub fn diff(&self, other: &Account) -> (r: Account)
        requires
            self.wf(),
            other.wf(),
            forall|c: AssetClass|
                self.holds(c) && other.holds(c) ==> in_i64(
                    #[trigger] self.value_of(c) - other.value_of(c),
                ),
        ensures
            r.wf(),
            r.classification == self.classification,
            standard_layout(r.assets@),
            forall|c: AssetClass| #[trigger] r.value_of(c) == diff_value(*self, *other, c),
    {
        let mut diff = Account::new(self.classification);
        let mut i: usize = 0;
        while i < self.assets.len()
            invariant
                i <= self.assets@.len(),
                self.wf(),
                other.wf(),
                forall|c: AssetClass|
                    self.holds(c) && other.holds(c) ==> in_i64(
                        #[trigger] self.value_of(c) - other.value_of(c),
                    ),
                diff.wf(),
                diff.classification == self.classification,
                standard_layout(diff.assets@),
                forall|c: AssetClass| #[trigger]
                    diff.value_of(c) == (if has_class(self.assets@.take(i as int), c) && other.holds(
                        c,
                    ) {
                        self.value_of(c) - other.value_of(c)
                    } else {
                        0
                    }),
            decreases self.assets@.len() - i,
        {
            let a = self.assets[i];
            proof {
                lemma_slot_is(self.assets@, i as int, a.class);
                lemma_class_sum_unique(self.assets@, a.class);
                lemma_class_sum_unique(other.assets@, a.class);
                assert forall|c: AssetClass| #[trigger]
                    has_class(self.assets@.take(i + 1), c) == (has_class(
                        self.assets@.take(i as int),
                        c,
                    ) || a.class == c) by {
                    lemma_has_class_take(self.assets@, i as int, c);
                }
                lemma_has_class_take(self.assets@, i as int, a.class);
            }
            match other.slot_of(a.class) {
                Some(j) => {
                    proof {
                        assert(has_class(other.assets@, a.class));
                        assert(in_i64(self.value_of(a.class) - other.value_of(a.class)));
                    }
                    diff.add_asset(Asset::new(a.class, a.value - other.assets[j].value));
                },
                None => {},
            }
            i += 1;
        }
        proof {
            assert(self.assets@.take(i as int) =~= self.assets@);
        }
        diff
    }

    /// Every value scaled by `numerator / denominator`, rounded toward zero;
    /// the result has this account's classification.
    pub fn multiply(&self, numerator: i64, denominator: i64) -> (r: Account)
        requires
            self.wf(),
            denominator > 0,
            forall|c: AssetClass|
                in_i64(
                    scaled(#[trigger] self.value_of(c), numerator as int, denominator as int),
                ),
        ensures
            r.wf(),
            r.classification == self.classification,
            standard_layout(r.assets@),
            forall|c: AssetClass| #[trigger]
                r.value_of(c) == scaled(self.value_of(c), numerator as int, denominator as int),
    {
        let mut mult = Account::new(self.classification);
        let mut i: usize = 0;
        while i < self.assets.len()
            invariant
                i <= self.assets@.len(),
                self.wf(),
                denominator > 0,
                forall|c: AssetClass|
                    in_i64(
                        scaled(#[trigger] self.value_of(c), numerator as int, denominator as int),
                    ),
                mult.wf(),
                mult.classification == self.classification,
                standard_layout(mult.assets@),
                forall|c: AssetClass| #[trigger]
                    mult.value_of(c) == (if has_class(self.assets@.take(i as int), c) {
                        scaled(self.value_of(c), numerator as int, denominator as int)
                    } else {
                        0
                    }),
            decreases self.assets@.len() - i,
        {
            let a = self.assets[i];
            proof {
                lemma_slot_is(self.assets@, i as int, a.class);
                lemma_class_sum_unique(self.assets@, a.class);
                assert forall|c: AssetClass| #[trigger]
                    has_class(self.assets@.take(i + 1), c) == (has_class(
                        self.assets@.take(i as int),
                        c,
                    ) || a.class == c) by {
                    lemma_has_class_take(self.assets@, i as int, c);
                }
                lemma_has_class_take(self.assets@, i as int, a.class);
                assert(in_i64(scaled(self.value_of(a.class), numerator as int, denominator as int)));
            }
            let v = scale_value(a.value, numerator, denominator);
            mult.add_asset(Asset::new(a.class, v));
            i += 1;
        }
        proof {
            assert(self.assets@.take(i as int) =~= self.assets@);
            assert forall|c: AssetClass| #[trigger]
                mult.value_of(c) == scaled(self.value_of(c), numerator as int, denominator as int) by {
                if !self.holds(c) {
                    lemma_class_sum_unique(self.assets@, c);
                }
            }
        }
        mult
    }

    /// Whether both accounts have the same classification (their assets
    /// aside).
    pub fn same_classification(&self, other: &Account) -> (r: bool)
        ensures
            r == (self.classification == other.classification),
    {
        self.classification == other.classification
    }

    /// One step of building a target allocation: adds the percentage
    /// `asset`, then reports whether the allocation is complete. When the
    /// total passes 100.00 % the allocation is cleared to start again.
    pub fn add_to_allocation(&mut self, asset: Asset) -> (r: AllocationProgress)
        requires
            old(self).wf(),
            in_i64(old(self).value_of(asset.class) + asset.value),
            in_i64(old(self).total() + asset.value),
        ensures
            final(self).wf(),
            final(self).classification == old(self).classification,
            old(self).total() + asset.value < FULL_ALLOCATION ==> r == AllocationProgress::Incomplete
                && final(self).assets@ == added(old(self).assets@, asset),
            old(self).total() + asset.value == FULL_ALLOCATION ==> r == AllocationProgress::Complete
                && final(self).assets@ == added(old(self).assets@, asset),
            old(self).total() + asset.value > FULL_ALLOCATION ==> r == AllocationProgress::Overshot
                && standard_layout(final(self).assets@) && final(self).total() == 0,
            old(self).total() + asset.value > FULL_ALLOCATION ==> forall|c: AssetClass| #[trigger]
                final(self).value_of(c) == 0,
    {
        self.add_asset(asset);
        let total = self.get_total_value();
        if total < FULL_ALLOCATION {
            AllocationProgress::Incomplete
        } else if total > FULL_ALLOCATION {
            *self = Account::new(self.classification);
            AllocationProgress::Overshot
        } else {
            AllocationProgress::Complete
        }
    }
}

} // verus!
