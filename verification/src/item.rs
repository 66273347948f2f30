//! The closed set of lootable items.
use vstd::prelude::*;

verus! {

/// An item that can appear in the target container, plus the sentinel for
/// an empty slot.  Equality is by tag only.
#[derive(Debug, Copy, Clone, PartialEq, Eq, Structural)]
pub enum Item {
    HeartOfTheSea,
    IronIngot,
    GoldIngot,
    TNT,
    Emerald,
    Diamond,
    PrismarineCrystals,
    LeatherChestplate,
    IronSword,
    CookedCod,
    CookedSalmon,
    Empty,
}

impl Item {
    /// Whether two items carry the same tag.
    pub fn equals(&self, other: &Self) -> (r: bool)
        ensures
            r == (*self == *other),
    {
        *self == *other
    }
}

} // verus!
