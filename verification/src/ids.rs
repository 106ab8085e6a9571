use vstd::prelude::*;

verus! {

/// The frame a record lives in: the map being played is the world carrier,
/// and every nested map rides a carrier of its own, numbered from 1.
#[derive(Clone, Copy, Debug, PartialEq, Eq, Structural, Hash)]
pub struct CarrierId(pub u16);

impl CarrierId {
    /// The root map's carrier.
    pub fn world() -> (c: CarrierId)
        ensures
            c.spec_is_world(),
    {
        CarrierId(0)
    }

    pub open spec fn spec_is_world(self) -> bool {
        self.0 == 0
    }

    pub fn is_world(&self) -> (r: bool)
        ensures
            r == self.spec_is_world(),
    {
        self.0 == 0
    }
}

/// A map switch, by its position in the map's switch table.
#[derive(Clone, Copy, Debug, PartialEq, Eq, Structural, Hash)]
pub struct SwitchId(pub u16);

/// A field a switch drives, by its position in the map's field list.
#[derive(Clone, Copy, Debug, PartialEq, Eq, Structural, Hash)]
pub struct FieldId(pub u16);

/// A player of the session.
#[derive(Clone, Copy, Debug, PartialEq, Eq, Structural, Hash)]
pub struct PlayerId(pub u32);

/// A barrier kind, by its position in the barrier kind table.
#[derive(Clone, Copy, Debug, PartialEq, Eq, Structural, Hash)]
pub struct BarrierKindId(pub u16);

/// A light-bridge kind, by its position in the bridge kind table.
#[derive(Clone, Copy, Debug, PartialEq, Eq, Structural, Hash)]
pub struct BridgeKindId(pub u16);

/// What a placed item is: an entry of the item catalog, or a key that opens
/// one barrier kind. Items order catalog entries first, by index, then keys,
/// by kind.
#[derive(Clone, Copy, Debug, PartialEq, Eq, Structural, Hash)]
pub enum ItemType {
    Catalog(u16),
    Key(BarrierKindId),
}

/// The position of an item in the item order.
pub open spec fn item_rank(item: ItemType) -> int {
    match item {
        ItemType::Catalog(index) => index as int,
        ItemType::Key(kind) => 0x1_0000 + kind.0 as int,
    }
}

pub proof fn lemma_item_rank_injective(a: ItemType, b: ItemType)
    ensures
        item_rank(a) == item_rank(b) <==> a == b,
{
}

/// Executable form of `item_rank`.
pub fn item_rank_of(item: ItemType) -> (r: u32)
    ensures
        r as int == item_rank(item),
{
    match item {
        ItemType::Catalog(index) => index as u32,
        ItemType::Key(kind) => 0x1_0000u32 + kind.0 as u32,
    }
}

} // verus!
