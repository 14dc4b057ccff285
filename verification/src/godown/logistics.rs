use vstd::prelude::*;
use crate::godown::def::{items_view, Item, ItemView};

verus! {

type Poiner = usize;

/// What a scan is for: to rebuild the store from the disk, or only to read
/// every record.
#[derive(Debug, Clone, Copy, PartialEq, Eq, Structural)]
pub enum Mode {
    Initialize,
    Uninitialize,
}

/// A scan cursor as plain values.
pub struct LogisticsView {
    pub mode: Mode,
    /// Byte position at which the next window starts.
    pub pointer: nat,
    /// Block at which the next record starts, in a scan that rebuilds.
    pub block_number: nat,
    /// The items gathered since the last unloading.
    pub items: Seq<ItemView>,
    /// True once the end of the records was seen.
    pub has_done: bool,
}

impl LogisticsView {
    /// The cursor with which a scan in `mode` starts.
    pub open spec fn fresh(mode: Mode) -> LogisticsView {
        LogisticsView { mode, pointer: 0, block_number: 0, items: Seq::empty(), has_done: false }
    }
}

/// The cursor of a scan over the disk: where the scan stands, what it has
/// gathered, and whether it has seen the end.
pub struct Logistics {
    mode: Mode,
    pointer: Poiner,
    block_number: usize,
    items: Vec<Item>,
    has_done: bool,
}

impl View for Logistics {
    type V = LogisticsView;

    closed spec fn view(&self) -> LogisticsView {
        LogisticsView {
            mode: self.mode,
            pointer: self.pointer as nat,
            block_number: self.block_number as nat,
            items: items_view(self.items@),
            has_done: self.has_done,
        }
    }
}

impl Logistics {
    pub fn new(mode: Mode) -> (logistics: Self)
        ensures
            logistics@ == LogisticsView::fresh(mode),
    {
        let logistics = Self {
            mode,
            pointer: 0,
            block_number: 0,
            items: Vec::new(),
            has_done: false,
        };
        assert(logistics@.items =~= Seq::empty());
        logistics
    }

    pub fn set_has_done(&mut self)
        ensures
            final(self)@ == (LogisticsView { has_done: true, ..old(self)@ }),
    {
        self.has_done = true;
    }

    pub fn get_has_done(&self) -> (has_done: bool)
        ensures
            has_done == self@.has_done,
    {
        self.has_done
    }

    pub fn get_mode(&self) -> (mode: Mode)
        ensures
            mode == self@.mode,
    {
        self.mode
    }

    pub fn set_block_number(&mut self, block_number: usize)
        ensures
            final(self)@ == (LogisticsView { block_number: block_number as nat, ..old(self)@ }),
    {
        self.block_number = block_number;
    }

    pub fn get_block_number(&self) -> (block_number: usize)
        ensures
            block_number == self@.block_number,
    {
        self.block_number
    }

    pub fn get_pointer(&self) -> (pointer: Poiner)
        ensures
            pointer == self@.pointer,
    {
        self.pointer
    }

    pub fn set_pointer(&mut self, pointer: Poiner)
        ensures
            final(self)@ == (LogisticsView { pointer: pointer as nat, ..old(self)@ }),
    {
        self.pointer = pointer;
    }

    /// Adds `item` to what was gathered.
    pub fn load_item(&mut self, item: Item)
        ensures
            final(self)@ == (LogisticsView { items: old(self)@.items.push(item@), ..old(self)@ }),
    {
        self.items.push(item);
        assert(self@.items =~= old(self)@.items.push(item@));
    }

    /// Hands over what was gathered, in the order of gathering, and starts
    /// gathering anew.
    pub fn unload(&mut self) -> (items: Vec<Item>)
        ensures
            items_view(items@) == old(self)@.items,
            final(self)@ == (LogisticsView { items: Seq::empty(), ..old(self)@ }),
    {
        let mut items: Vec<Item> = Vec::new();
        std::mem::swap(&mut items, &mut self.items);
        assert(self@.items =~= Seq::empty());
        items
    }
}

} // verus!
