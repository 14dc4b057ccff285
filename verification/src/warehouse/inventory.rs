use vstd::prelude::*;
use crate::estate::def::WholeNumber;
use crate::estate::residential::{Residential, ResidentialView};

verus! {

/// What one place of the slot table holds.
pub enum Slot<Item> {
    /// An item.
    Taken(Item),
    /// Nothing yet, but the address is promised.
    Reserved,
    /// Nothing.
    Empty,
}

/// A slot table as plain values.
pub struct InventoryView<Item> {
    /// The book of the addresses handed out.
    pub estate: ResidentialView,
    /// The slots, by address.
    pub slots: Seq<Slot<Item>>,
}

impl<Item> InventoryView<Item> {
    /// The state of a new table.
    pub open spec fn fresh() -> InventoryView<Item> {
        InventoryView { estate: ResidentialView::fresh(1), slots: Seq::empty() }
    }

    /// What holds of every table whose addresses go up to `limit`: the book
    /// is in order, its slots have size one, and every address handed out has
    /// a slot.
    pub open spec fn wf(self, limit: nat) -> bool {
        &&& self.estate.wf(limit)
        &&& self.estate.size == 1
        &&& self.estate.pointer <= self.slots.len()
    }

    /// True if the next address that the book hands out can take a value:
    /// the book has an address to hand out, and the slot of that address, if
    /// there is one already, holds no item.
    pub open spec fn can_occupy(self, limit: nat) -> bool {
        &&& self.estate.can_allot(limit)
        &&& self.estate.allotted() < self.slots.len() ==> !(self.slots[self.estate.allotted() as int] is Taken)
    }

    /// The state after the next address of the book was handed out and its
    /// slot set to `slot`.
    pub open spec fn occupy(self, slot: Slot<Item>) -> InventoryView<Item> {
        let address = self.estate.allotted();
        InventoryView {
            estate: self.estate.allot(),
            slots: if address >= self.slots.len() {
                self.slots.push(slot)
            } else {
                self.slots.update(address as int, slot)
            },
        }
    }

    /// True if `address` has a slot that holds an item or is reserved.
    pub open spec fn can_replace(self, address: nat) -> bool {
        address < self.slots.len() && !(self.slots[address as int] is Empty)
    }

    /// The state after the slot of `address` was set to hold `item`.
    pub open spec fn replace(self, address: nat, item: Item) -> InventoryView<Item> {
        InventoryView { slots: self.slots.update(address as int, Slot::Taken(item)), ..self }
    }

    /// True if `address` has a slot and is live in the book.
    pub open spec fn can_remove(self, address: nat) -> bool {
        address < self.slots.len() && self.estate.is_live(address)
    }

    /// The state after the slot of `address` was emptied and the address
    /// retained.
    pub open spec fn remove(self, address: nat) -> InventoryView<Item> {
        InventoryView {
            estate: self.estate.retain(address),
            slots: self.slots.update(address as int, Slot::Empty),
        }
    }

    /// The item in the slot of `address`, if the slot holds one.
    pub open spec fn item(self, address: nat) -> Option<Item> {
        if address < self.slots.len() {
            match self.slots[address as int] {
                Slot::Taken(item) => Some(item),
                _ => None,
            }
        } else {
            None
        }
    }

    /// True if `address` can be reserved by name: it has an empty slot, or it
    /// lies past the slots and the book can hand out an address for each
    /// slot up to and including its own.
    pub open spec fn can_reserve_at(self, address: nat, limit: nat) -> bool {
        if address < self.slots.len() {
            self.slots[address as int] is Empty
        } else {
            self.estate.allot_many((address - self.slots.len() + 1) as nat).pointer <= limit
        }
    }

    /// True if the table is filled without a gap and has `count` more
    /// addresses to hand out: no address waits to be handed out again,
    /// every slot has its address, and `count` more addresses are within
    /// `limit`. Each of the next `count` items is then placed at the end.
    pub open spec fn has_room_for(self, count: nat, limit: nat) -> bool {
        &&& self.estate.retained.len() == 0
        &&& self.estate.pointer == self.slots.len()
        &&& self.estate.pointer + count <= limit
    }

    /// A table with room for some items can take one, and has room for the
    /// others then.
    pub proof fn lemma_room_for_one(self, count: nat, slot: Slot<Item>, limit: nat)
        requires
            self.wf(limit),
            self.has_room_for(count, limit),
            count > 0,
        ensures
            self.can_occupy(limit),
            self.occupy(slot).wf(limit),
            self.occupy(slot).has_room_for((count - 1) as nat, limit),
    {
        self.estate.lemma_allot_is_fresh(limit);
        assert((self.estate.pointer + 1) * self.estate.size == self.estate.pointer + 1)
            by (nonlinear_arith)
            requires
                self.estate.size == 1,
        ;
    }

    /// The state after `address` was reserved by name: its slot is reserved;
    /// where it lay past the slots, empty slots were added up to it and the
    /// book handed out an address for each new slot.
    pub open spec fn reserve_at(self, address: nat) -> InventoryView<Item> {
        if address < self.slots.len() {
            InventoryView { slots: self.slots.update(address as int, Slot::Reserved), ..self }
        } else {
            InventoryView {
                estate: self.estate.allot_many((address - self.slots.len() + 1) as nat),
                slots: Seq::new(
                    address + 1,
                    |i: int|
                        if i < self.slots.len() {
                            self.slots[i]
                        } else if i == address {
                            Slot::Reserved
                        } else {
                            Slot::Empty
                        },
                ),
            }
        }
    }
}

/// A table of slots in memory, each found by its address.
pub struct Inventory<Address, Item> where Address: WholeNumber {
    estate: Residential<Address>,
    storage: Vec<Slot<Item>>,
}

impl<Address: WholeNumber, Item> View for Inventory<Address, Item> {
    type V = InventoryView<Item>;

    closed spec fn view(&self) -> InventoryView<Item> {
        InventoryView { estate: self.estate@, slots: self.storage@ }
    }
}

impl<Address: WholeNumber, Item> Inventory<Address, Item> {
    /// What holds of every table that `new` made and the methods changed.
    pub closed spec fn wf(&self) -> bool {
        &&& self.estate.wf()
        &&& self@.wf(Address::limit())
    }

    /// The view of a table in order is in order.
    pub proof fn lemma_view_wf(&self)
        requires
            self.wf(),
        ensures
            self@.wf(Address::limit()),
            Address::limit() <= usize::MAX,
    {
        self.estate.lemma_view_wf();
    }

    /// A new table. The address type must not hold more than a `usize`
    /// does.
    pub fn new() -> (inventory: Self)
        requires
            Address::limit() <= usize::MAX,
        ensures
            inventory.wf(),
            inventory@ == InventoryView::<Item>::fresh(),
    {
        let inventory = Self { estate: Residential::new(1), storage: Vec::new() };
        proof {
            inventory.estate.lemma_view_wf();
        }
        inventory
    }

    /// True if `place` and `reserve(None)` can give out an address.
    pub fn can_occupy(&self) -> (can: bool)
        requires
            self.wf(),
        ensures
            can == self@.can_occupy(Address::limit()),
    {
        proof {
            self.lemma_view_wf();
        }
        if !self.estate.can_allot() {
            false
        } else {
            let address = self.estate.peek();
            proof {
                address.lemma_index_within_limit();
            }
            let address_as_usize = address.to_usize();
            if address_as_usize < self.storage.len() {
                match &self.storage[address_as_usize] {
                    Slot::Taken(_) => false,
                    _ => true,
                }
            } else {
                true
            }
        }
    }

    /// True if `replace` can set the slot of `address`.
    pub fn can_replace(&self, address: Address) -> (can: bool)
        requires
            self.wf(),
        ensures
            can == self@.can_replace(address.index()),
    {
        proof {
            self.lemma_view_wf();
            address.lemma_index_within_limit();
        }
        let address_as_usize = address.to_usize();
        if address_as_usize >= self.storage.len() {
            false
        } else {
            match &self.storage[address_as_usize] {
                Slot::Empty => false,
                _ => true,
            }
        }
    }

    /// True if `remove` and `take` can empty the slot of `address`.
    pub fn can_remove(&self, address: Address) -> (can: bool)
        requires
            self.wf(),
        ensures
            can == self@.can_remove(address.index()),
    {
        proof {
            self.lemma_view_wf();
            address.lemma_index_within_limit();
        }
        address.to_usize() < self.storage.len() && self.estate.get_location(address).is_some()
    }

    /// True if `reserve` can reserve what is asked for.
    pub fn can_reserve(&self, o_specific_address: Option<Address>) -> (can: bool)
        requires
            self.wf(),
        ensures
            can == (match o_specific_address {
                Some(specific) => specific.index() < usize::MAX && self@.can_reserve_at(
                    specific.index(),
                    Address::limit(),
                ),
                None => self@.can_occupy(Address::limit()),
            }),
    {
        match o_specific_address {
            None => self.can_occupy(),
            Some(specific) => {
                proof {
                    self.lemma_view_wf();
                    specific.lemma_index_within_limit();
                }
                let len = self.storage.len();
                let specific_as_usize = specific.to_usize();
                if specific_as_usize == usize::MAX {
                    false
                } else if specific_as_usize < len {
                    match &self.storage[specific_as_usize] {
                        Slot::Empty => true,
                        _ => false,
                    }
                } else {
                    proof {
                        let times = (specific_as_usize - len + 1) as nat;
                        let then = self@.estate.allot_many(times);
                        assert(then.pointer * self@.estate.size == then.pointer)
                            by (nonlinear_arith)
                            requires
                                self@.estate.size == 1,
                        ;
                    }
                    self.estate.can_allot_many(specific_as_usize - len + 1)
                }
            },
        }
    }

    /// True if the table is filled without a gap and has `count` more
    /// addresses to hand out.
    pub fn has_room_for(&self, count: usize) -> (has: bool)
        requires
            self.wf(),
        ensures
            has == self@.has_room_for(count as nat, Address::limit()),
    {
        proof {
            self.lemma_view_wf();
        }
        if !self.estate.has_retained() {
            let pointer = self.estate.peek();
            proof {
                pointer.lemma_index_within_limit();
            }
            let max = Address::get_max().to_usize();
            pointer.to_usize() == self.storage.len() && count <= max - pointer.to_usize()
        } else {
            false
        }
    }

    /// Hands out the next address of the book and sets its slot to `slot`.
    fn occupy(&mut self, slot: Slot<Item>) -> (address: Address)
        requires
            old(self).wf(),
            old(self)@.can_occupy(Address::limit()),
        ensures
            final(self).wf(),
            final(self)@ == old(self)@.occupy(slot),
            address.index() == old(self)@.estate.allotted(),
    {
        proof {
            self.lemma_view_wf();
            self@.estate.lemma_allot_is_fresh(Address::limit());
        }
        let address = self.estate.allot();
        proof {
            address.lemma_index_within_limit();
            self.estate.lemma_view_wf();
        }
        let len = self.storage.len();
        let address_as_usize = address.to_usize();

        if address_as_usize == len {
            self.storage.push(slot);
        } else {
            self.storage[address_as_usize] = slot;
        }
        address
    }

    /// Puts `item` into the slot of the next address and hands the address
    /// out.
    pub fn place(&mut self, item: Item) -> (address: Address)
        requires
            old(self).wf(),
            old(self)@.can_occupy(Address::limit()),
        ensures
            final(self).wf(),
            final(self)@ == old(self)@.occupy(Slot::Taken(item)),
            address.index() == old(self)@.estate.allotted(),
            final(self)@.item(address.index()) == Some(item),
    {
        self.occupy(Slot::Taken(item))
    }

    /// Sets the slot of `address`, which is not empty, to hold `item`.
    pub fn replace(&mut self, address: Address, item: Item)
        requires
            old(self).wf(),
            old(self)@.can_replace(address.index()),
        ensures
            final(self).wf(),
            final(self)@ == old(self)@.replace(address.index(), item),
            final(self)@.item(address.index()) == Some(item),
    {
        proof {
            self.lemma_view_wf();
            address.lemma_index_within_limit();
        }
        let address_as_usize = address.to_usize();
        self.storage[address_as_usize] = Slot::Taken(item);
    }

    /// Empties the slot of `address` and takes the address back.
    pub fn remove(&mut self, address: Address)
        requires
            old(self).wf(),
            old(self)@.can_remove(address.index()),
        ensures
            final(self).wf(),
            final(self)@ == old(self)@.remove(address.index()),
            final(self)@.item(address.index()) is None,
    {
        proof {
            self.lemma_view_wf();
            self@.estate.lemma_retain_frees(address.index(), Address::limit());
        }
        let address_as_usize = address.to_usize();
        self.estate.retain(address);
        proof {
            self.estate.lemma_view_wf();
        }
        self.storage[address_as_usize] = Slot::Empty;
    }

    /// The item in the slot of `address`, if the slot holds one.
    pub fn get(&self, address: Address) -> (item: Option<&Item>)
        requires
            self.wf(),
        ensures
            match item {
                Some(found) => self@.item(address.index()) == Some(*found),
                None => self@.item(address.index()) is None,
            },
    {
        proof {
            self.lemma_view_wf();
            address.lemma_index_within_limit();
        }
        let len = self.storage.len();
        let address_as_usize = address.to_usize();

        if address_as_usize >= len {
            return None;
        }
        match &self.storage[address_as_usize] {
            Slot::Taken(item) => Some(item),
            _ => None,
        }
    }

    /// Empties the slot of `address`, takes the address back, and hands over
    /// the item that the slot held, if it held one.
    pub fn take(&mut self, address: Address) -> (item: Option<Item>)
        requires
            old(self).wf(),
            old(self)@.can_remove(address.index()),
        ensures
            final(self).wf(),
            final(self)@ == old(self)@.remove(address.index()),
            item == old(self)@.item(address.index()),
    {
        proof {
            self.lemma_view_wf();
            self@.estate.lemma_retain_frees(address.index(), Address::limit());
        }
        let address_as_usize = address.to_usize();
        self.estate.retain(address);
        proof {
            self.estate.lemma_view_wf();
        }
        let mut replace_state = Slot::Empty;
        std::mem::swap(&mut self.storage[address_as_usize], &mut replace_state);

        match replace_state {
            Slot::Taken(item) => Some(item),
            _ => None,
        }
    }

    /// Reserves an address. With `None` the next address of the book is
    /// handed out and its slot reserved. With an address by name, the slot
    /// of that address is reserved; if the address lies past the slots,
    /// empty slots are added up to it first, and the book hands out an
    /// address for each of them. The latter serves to mirror records that
    /// were numbered elsewhere.
    pub fn reserve(&mut self, o_specific_address: Option<Address>) -> (address: Address)
        requires
            old(self).wf(),
            match o_specific_address {
                Some(specific) => specific.index() < usize::MAX && old(self)@.can_reserve_at(
                    specific.index(),
                    Address::limit(),
                ),
                None => old(self)@.can_occupy(Address::limit()),
            },
        ensures
            final(self).wf(),
            match o_specific_address {
                Some(specific) => address == specific && final(self)@ == old(self)@.reserve_at(
                    specific.index(),
                ),
                None => address.index() == old(self)@.estate.allotted() && final(self)@ == old(
                    self,
                )@.occupy(Slot::Reserved),
            },
    {
        let len = self.storage.len();

        if let Some(specific_address) = o_specific_address {
            proof {
                self.lemma_view_wf();
            }
            let specific_address_as_usize = specific_address.to_usize();

            if specific_address_as_usize < len {
                self.storage[specific_address_as_usize] = Slot::Reserved;
                specific_address
            } else {
                let ghost times = (specific_address_as_usize - len + 1) as nat;
                let mut index: usize = len;
                proof {
                    old(self)@.estate.lemma_allot_many_step(0);
                }
                while index <= specific_address_as_usize
                    invariant
                        self.estate.wf(),
                        old(self).wf(),
                        old(self)@.slots.len() == len,
                        len <= index <= specific_address_as_usize + 1,
                        specific_address_as_usize < usize::MAX,
                        times == specific_address_as_usize - len + 1,
                        old(self)@.estate.allot_many(times).pointer <= Address::limit(),
                        self.estate@ == old(self)@.estate.allot_many((index - len) as nat),
                        self.storage@.len() == index,
                        forall|i: int| 0 <= i < len ==> self.storage@[i] == old(self)@.slots[i],
                        forall|i: int| len <= i < index ==> self.storage@[i] is Empty,
                    decreases specific_address_as_usize + 1 - index,
                {
                    proof {
                        old(self).lemma_view_wf();
                        old(self)@.estate.lemma_allot_many_step((index - len) as nat);
                        self.estate.lemma_view_wf();
                        let now = self.estate@;
                        let then = old(self)@.estate.allot_many((index - len + 1) as nat);
                        assert(then.pointer <= old(self)@.estate.allot_many(times).pointer);
                        assert(now.can_allot(Address::limit())) by {
                            if now.retained.len() == 0 {
                                assert(then.pointer == now.pointer + 1);
                                assert((now.pointer + 1) * now.size == now.pointer + 1)
                                    by (nonlinear_arith)
                                    requires
                                        now.size == 1,
                                ;
                            }
                        }
                    }
                    self.estate.allot();
                    self.storage.push(Slot::Empty);
                    index += 1;
                }

                self.storage[specific_address_as_usize] = Slot::Reserved;
                proof {
                    self.estate.lemma_view_wf();
                    old(self).lemma_view_wf();
                    assert(self@.slots =~= old(self)@.reserve_at(specific_address.index()).slots);
                }
                specific_address
            }
        } else {
            self.occupy(Slot::Reserved)
        }
    }
}

} // verus!
