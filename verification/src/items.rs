//! Resource kinds, item identifiers and item stacks.

use vstd::prelude::*;

verus! {

/// Kinds of gatherable resource nodes.
#[derive(Clone, Copy, PartialEq, Eq, Structural, Debug)]
pub enum ResourceKind {
    Copper,
    Tin,
    Wood,
}

/// Identifiers of items an inventory can hold.
#[derive(Clone, Copy, PartialEq, Eq, Structural, Debug)]
pub enum ItemId {
    CopperOre,
    TinOre,
    Logs,
}

/// The item a resource kind yields.
pub open spec fn item_of_kind(k: ResourceKind) -> ItemId {
    match k {
        ResourceKind::Copper => ItemId::CopperOre,
        ResourceKind::Tin => ItemId::TinOre,
        ResourceKind::Wood => ItemId::Logs,
    }
}

impl ResourceKind {
    /// Display name of the node in the world.
    pub fn display_name(&self) -> (r: &'static str)
        ensures
            *self == ResourceKind::Copper ==> r@ == "Copper rock"@,
            *self == ResourceKind::Tin ==> r@ == "Tin rock"@,
            *self == ResourceKind::Wood ==> r@ == "Tree"@,
    {
        match self {
            ResourceKind::Copper => "Copper rock",
            ResourceKind::Tin => "Tin rock",
            ResourceKind::Wood => "Tree",
        }
    }

    /// The skill that gathers this resource.
    pub fn required_skill(&self) -> (r: &'static str)
        ensures
            (*self == ResourceKind::Copper || *self == ResourceKind::Tin) ==> r@ == "Mining"@,
            *self == ResourceKind::Wood ==> r@ == "Woodcutting"@,
    {
        match self {
            ResourceKind::Copper | ResourceKind::Tin => "Mining",
            ResourceKind::Wood => "Woodcutting",
        }
    }

    /// The skill level required to gather this resource.
    pub fn required_level(&self) -> (r: u8)
        ensures
            r == 1,
    {
        match self {
            ResourceKind::Copper => 1,
            ResourceKind::Tin => 1,
            ResourceKind::Wood => 1,
        }
    }

    /// Experience gained per gathered item, in tenths of a point.
    pub fn experience_per_item(&self) -> (r: u32)
        ensures
            (*self == ResourceKind::Copper || *self == ResourceKind::Tin) ==> r == 175,
            *self == ResourceKind::Wood ==> r == 250,
    {
        match self {
            ResourceKind::Copper => 175,
            ResourceKind::Tin => 175,
            ResourceKind::Wood => 250,
        }
    }

    /// Base gather rate, in milli-items per second.
    pub fn base_gather_rate(&self) -> (r: u32)
        ensures
            (*self == ResourceKind::Copper || *self == ResourceKind::Tin) ==> r == 1000,
            *self == ResourceKind::Wood ==> r == 1200,
            1 <= r <= 1_000_000,
    {
        match self {
            ResourceKind::Copper => 1000,
            ResourceKind::Tin => 1000,
            ResourceKind::Wood => 1200,
        }
    }
}

impl ItemId {
    /// Display name of the item.
    pub fn display_name(&self) -> (r: &'static str)
        ensures
            *self == ItemId::CopperOre ==> r@ == "Copper ore"@,
            *self == ItemId::TinOre ==> r@ == "Tin ore"@,
            *self == ItemId::Logs ==> r@ == "Logs"@,
    {
        match self {
            ItemId::CopperOre => "Copper ore",
            ItemId::TinOre => "Tin ore",
            ItemId::Logs => "Logs",
        }
    }

    /// Maximum stack size for the item: one per slot, no stacking.
    pub fn max_stack_size(&self) -> (r: u16)
        ensures
            r == 1,
    {
        match self {
            ItemId::CopperOre => 1,
            ItemId::TinOre => 1,
            ItemId::Logs => 1,
        }
    }

    /// The item a resource kind yields.
    pub fn from_kind(k: ResourceKind) -> (r: ItemId)
        ensures
            r == item_of_kind(k),
    {
        match k {
            ResourceKind::Copper => ItemId::CopperOre,
            ResourceKind::Tin => ItemId::TinOre,
            ResourceKind::Wood => ItemId::Logs,
        }
    }
}

impl core::convert::From<ResourceKind> for ItemId {
    /// The item a resource kind yields, as the standard conversion.
    fn from(k: ResourceKind) -> (r: ItemId)
        ensures
            r == item_of_kind(k),
    {
        ItemId::from_kind(k)
    }
}

impl vstd::std_specs::convert::FromSpecImpl<ResourceKind> for ItemId {
    open spec fn obeys_from_spec() -> bool {
        true
    }

    open spec fn from_spec(k: ResourceKind) -> ItemId {
        item_of_kind(k)
    }
}

/// A stack of identical items in one inventory slot.
#[derive(Clone, Copy, PartialEq, Eq, Structural, Debug)]
pub struct ItemStack {
    pub id: ItemId,
    pub qty: u16,
}

impl ItemStack {
    /// Builds a stack.
    pub fn new(id: ItemId, qty: u16) -> (r: ItemStack)
        ensures
            r.id == id,
            r.qty == qty,
    {
        ItemStack { id, qty }
    }
}

} // verus!
