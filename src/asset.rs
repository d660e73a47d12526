use vstd::prelude::*;

verus! {

/// The category of an investment.
#[derive(Clone, Copy, Debug, PartialEq, Eq, Structural)]
pub enum AssetClass {
    Domestic,
    International,
    Bond,
    RealEstate,
}

/// An amount of money (or of percentage points) held in one asset class.
///
/// `value` counts hundredths of the unit: cents in a holdings account,
/// hundredths of a percentage point in an allocation account.
#[derive(Clone, Copy, Debug, PartialEq, Eq, Structural)]
pub struct Asset {
    pub class: AssetClass,
    pub value: i64,
}

impl AssetClass {
    /// The label under which the class is shown.
    pub fn name(&self) -> (r: &'static str)
        ensures
            r@ == self.spec_name(),
    {
        match self {
            AssetClass::Domestic => "U.S.A.",
            AssetClass::International => "International",
            AssetClass::Bond => "Bonds",
            AssetClass::RealEstate => "Real Estate",
        }
    }

    /// The class picked from the menu `1. Domestic  2. International
    /// 3. Bonds  4. Real Estate`.
    pub fn from_menu(choice: u8) -> (r: Option<AssetClass>)
        ensures
            choice == 1 ==> r == Some(AssetClass::Domestic),
            choice == 2 ==> r == Some(AssetClass::International),
            choice == 3 ==> r == Some(AssetClass::Bond),
            choice == 4 ==> r == Some(AssetClass::RealEstate),
            !(1 <= choice <= 4) ==> r is None,
    {
        match choice {
            1 => Some(AssetClass::Domestic),
            2 => Some(AssetClass::International),
            3 => Some(AssetClass::Bond),
            4 => Some(AssetClass::RealEstate),
            _ => None,
        }
    }

    pub open spec fn spec_name(&self) -> Seq<char> {
        match self {
            AssetClass::Domestic => "U.S.A."@,
            AssetClass::International => "International"@,
            AssetClass::Bond => "Bonds"@,
            AssetClass::RealEstate => "Real Estate"@,
        }
    }
}

impl Asset {
    /// Creates an asset of `class` worth `value` hundredths.
    pub fn new(class: AssetClass, value: i64) -> (r: Asset)
        ensures
            r.class == class,
            r.value == value,
    {
        Asset { class, value }
    }

    /// The key under which an account files this asset.
    pub open spec fn key(self) -> AssetClass {
        self.class
    }

    /// Whether two assets belong to the same class (their values aside).
    pub fn same_class(&self, other: &Asset) -> (r: bool)
        ensures
            r == (self.key() == other.key()),
    {
        self.class == other.class
    }

    /// Subtracts `other` from this asset when both share a class.
    pub fn subtract_asset(&self, other: &Asset) -> (r: Option<Asset>)
        requires
            self.class == other.class ==> i64::MIN <= self.value - other.value <= i64::MAX,
        ensures
            self.class == other.class ==> r == Some(
                Asset { class: self.class, value: (self.value - other.value) as i64 },
            ),
            self.class != other.class ==> r is None,
    {
        if self.same_class(other) {
            Some(Asset::new(self.class, self.value - other.value))
        } else {
            None
        }
    }
}

} // verus!
