use vstd::prelude::*;

verus! {

/// A drink item held by a slot: identifier, display name, price in credits.
#[derive(Debug, Clone, PartialEq)]
pub struct Item {
    pub id: u64,
    pub name: String,
    pub price: u64,
}

/// The mathematical shape of an `Item`: its name as a sequence of characters.
pub ghost struct ItemV {
    pub id: u64,
    pub name: Seq<char>,
    pub price: u64,
}

impl View for Item {
    type V = ItemV;

    open spec fn view(&self) -> ItemV {
        ItemV { id: self.id, name: self.name@, price: self.price }
    }
}

/// A dispensing position of a machine: its number, state flags, an optional
/// remaining count, the owning machine id, and the item it holds.
#[derive(Debug, Clone, PartialEq)]
pub struct Slot {
    pub active: bool,
    pub count: Option<u64>,
    pub empty: bool,
    pub item: Item,
    pub machine: u64,
    pub number: u8,
}

/// The mathematical shape of a `Slot`.
pub ghost struct SlotV {
    pub active: bool,
    pub count: Option<u64>,
    pub empty: bool,
    pub item: ItemV,
    pub machine: u64,
    pub number: u8,
}

impl View for Slot {
    type V = SlotV;

    open spec fn view(&self) -> SlotV {
        SlotV {
            active: self.active,
            count: self.count,
            empty: self.empty,
            item: self.item@,
            machine: self.machine,
            number: self.number,
        }
    }
}

/// A vending machine: identifier, names, online flag, and its slots in order.
#[derive(Debug, Clone, PartialEq)]
pub struct Machine {
    pub display_name: String,
    pub id: u64,
    pub is_online: bool,
    pub name: String,
    pub slots: Vec<Slot>,
}

/// The mathematical shape of a `Machine`.
pub ghost struct MachineV {
    pub display_name: Seq<char>,
    pub id: u64,
    pub is_online: bool,
    pub name: Seq<char>,
    pub slots: Seq<SlotV>,
}

impl View for Machine {
    type V = MachineV;

    open spec fn view(&self) -> MachineV {
        MachineV {
            display_name: self.display_name@,
            id: self.id,
            is_online: self.is_online,
            name: self.name@,
            slots: Seq::new(self.slots@.len(), |i: int| self.slots@[i]@),
        }
    }
}

/// A full machine listing: every machine plus the service's message string.
#[derive(Debug, Clone, PartialEq)]
pub struct DrinkList {
    pub machines: Vec<Machine>,
    pub message: String,
}

/// The mathematical shape of a `DrinkList`.
pub ghost struct DrinkListV {
    pub machines: Seq<MachineV>,
    pub message: Seq<char>,
}

impl View for DrinkList {
    type V = DrinkListV;

    open spec fn view(&self) -> DrinkListV {
        DrinkListV {
            machines: Seq::new(self.machines@.len(), |i: int| self.machines@[i]@),
            message: self.message@,
        }
    }
}

} // verus!
