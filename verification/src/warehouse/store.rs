use vstd::prelude::*;
use crate::estate::def::WholeNumber;
use crate::estate::farming::FarmingView;
use crate::fumble::Fumble;
use crate::godown::assembly_line::{
    body_in_bounds,
    dismantle_spec,
    package_blocks,
    AssemblyLine,
};
use crate::godown::def::{
    items_view,
    Good,
    Address as GodownAddress,
    Item as LogisticsItem,
    ItemView,
    BLOCK_SIZE,
    GOOD_MAX_SIZE,
};
use crate::godown::disk::{shipments_view, Shipment};
use crate::godown::scan::{lemma_scan_gathers_its_kind, suits, transfer_spec};
use crate::godown::logistics::{Logistics, LogisticsView, Mode as SessionMode};
use crate::godown::store::{cursor_after, placeable, placement, removal, scan_start, Godown};
use crate::primitive::{gives_good, gives_item, Merchandise};
use crate::warehouse::inventory::{Inventory, InventoryView, Slot};

verus! {

/// Where a warehouse keeps its items: on disk only, on disk and in memory,
/// or in memory only. The name is that of the file on disk.
#[derive(PartialEq)]
pub enum Mode {
    Godown(String),
    Both(String),
    Inventory,
}

/// What a session hands over for one record: the item, and in a session
/// that rebuilds the warehouse also its token.
pub enum SessionItem<Token, Item> {
    WithToken(Token, Item),
    WithoutToken(Item),
}

/// The handle of an item in a warehouse: its address on disk, its address in
/// memory, or both. It is to be given back unchanged to read, update or
/// remove the item.
pub enum Token<Size> {
    Godown(GodownAddress),
    Inventory(Size),
    Both(GodownAddress, Size),
}

impl<Size: WholeNumber> Token<Size> {
    /// True if this token names the address `disk` in the disk store and the
    /// address `memory` in the slot table, each where it is given, and no
    /// other.
    pub open spec fn names(self, disk: Option<GodownAddress>, memory: Option<nat>) -> bool {
        match self {
            Token::Both(address, slot) => disk == Some(address) && memory == Some(slot.index()),
            Token::Godown(address) => disk == Some(address) && memory is None,
            Token::Inventory(slot) => disk is None && memory == Some(slot.index()),
        }
    }

    /// The address in the disk store that this token names, if it names one.
    pub open spec fn disk_address(self) -> Option<GodownAddress> {
        match self {
            Token::Both(address, _) => Some(address),
            Token::Godown(address) => Some(address),
            Token::Inventory(_) => None,
        }
    }

    /// The address in the slot table that this token names, if it names one.
    pub open spec fn memory_address(self) -> Option<nat> {
        match self {
            Token::Both(_, slot) => Some(slot.index()),
            Token::Godown(_) => None,
            Token::Inventory(slot) => Some(slot.index()),
        }
    }
}

/// What one call of `session_items` hands over.
pub struct SessionStep<Size, Item> {
    /// The items found, in the order in which they lie on disk.
    pub items: Vec<SessionItem<Token<Size>, Item>>,
    /// The orders for the disk, to be carried out before the next call.
    pub orders: Vec<Shipment>,
    /// True if no item was found and the scan is not done: the window
    /// held only records without an item to hand over, and the caller is to
    /// call again with the next window. Without items and with `again`
    /// false, the session has seen every record.
    pub again: bool,
}

/// One line of what a session reports: the item, and where it is kept.
pub struct Row<Item> {
    pub disk: Option<GodownAddress>,
    pub memory: Option<nat>,
    pub item: Item,
}

/// A warehouse as plain values.
pub struct WarehouseView<Item> {
    /// The book of the disk store, if the warehouse has one.
    pub godown: Option<FarmingView>,
    /// The slot table, if the warehouse has one.
    pub inventory: Option<InventoryView<Item>>,
    /// The cursor of the open session, if one is open.
    pub logistics: Option<LogisticsView>,
}

impl<Item> WarehouseView<Item> {
    /// True if an item whose bytes are `good_len` long can be added to a
    /// warehouse whose addresses in memory go up to `limit`: the disk store,
    /// if there is one and the bytes are within its size limit, has room
    /// for them; and the slot table, if there is one and nothing keeps the
    /// item from the disk, has an address to hand out.
    pub open spec fn can_add(self, good_len: nat, limit: nat) -> bool {
        let fits = good_len <= GOOD_MAX_SIZE;
        &&& self.godown is Some && fits ==> placeable(self.godown->0, good_len)
        &&& self.inventory is Some && (self.godown is None || fits)
            ==> self.inventory->0.can_occupy(limit)
    }

    /// True if an item whose bytes are `good_len` long can be put in the
    /// place of what `token` names: the parts that the token names are
    /// there, the record on disk is live and its successor has room, and the
    /// slot in memory is not empty.
    pub open spec fn can_update<Size: WholeNumber>(
        self,
        token: Token<Size>,
        good_len: nat,
    ) -> bool {
        let fits = good_len <= GOOD_MAX_SIZE;
        &&& token.disk_address() is Some ==> {
            &&& self.godown is Some
            &&& self.godown->0.is_live(token.disk_address()->0 as nat)
            &&& fits ==> placeable(self.godown->0, good_len)
        }
        &&& token is Inventory ==> self.inventory is Some
        &&& token.memory_address() is Some && self.inventory is Some && (token is Inventory
            || fits) ==> self.inventory->0.can_replace(token.memory_address()->0)
    }

    /// True if what `token` names can be taken out: in each part that the
    /// token names and the warehouse has, the address is live.
    pub open spec fn can_remove<Size: WholeNumber>(self, token: Token<Size>) -> bool {
        &&& token.disk_address() is Some && self.godown is Some ==> self.godown->0.is_live(
            token.disk_address()->0 as nat,
        )
        &&& token.memory_address() is Some && self.inventory is Some
            ==> self.inventory->0.can_remove(token.memory_address()->0)
    }

    /// True if what `token` names can be handed out: a token that names a
    /// slot in memory names one that holds an item, if the warehouse has a
    /// slot table; a token that names a record on disk only names a live
    /// one, and `package` is a consistent package of its length, if the
    /// warehouse has a disk store.
    pub open spec fn can_get<Size: WholeNumber>(
        self,
        token: Token<Size>,
        package: Seq<u8>,
    ) -> bool {
        &&& token.memory_address() is Some && self.inventory is Some ==> self.inventory->0.item(
            token.memory_address()->0,
        ) is Some
        &&& token is Godown && self.godown is Some ==> {
            &&& self.godown->0.is_live(token->Godown_0 as nat)
            &&& package.len() == self.godown->0.span(token->Godown_0 as nat) * BLOCK_SIZE
            &&& body_in_bounds(package)
            &&& dismantle_spec(package) is Some
        }
    }

    /// True if the slot table, if there is one, is filled without a gap and
    /// has an address left for each block of a window of `chunk_len` bytes,
    /// where its addresses go up to `limit`. A warehouse without a slot table
    /// mirrors nothing, and can always.
    pub open spec fn can_mirror(self, chunk_len: nat, limit: nat) -> bool {
        match self.inventory {
            Some(table) => table.has_room_for(chunk_len / (BLOCK_SIZE as nat), limit),
            None => true,
        }
    }

    /// True if the open session can take a window of `chunk_len` bytes: the
    /// positions that the scan reaches fit a `usize`, and in a session that
    /// rebuilds, the cursor stands where the free land of the disk store
    /// begins.
    pub open spec fn can_scan(self, chunk_len: nat) -> bool {
        &&& self.godown is Some
        &&& self.logistics is Some
        &&& self.logistics->0.pointer + chunk_len <= usize::MAX
        &&& self.logistics->0.mode is Initialize ==> {
            &&& self.logistics->0.block_number == self.godown->0.frontier()
            &&& self.logistics->0.block_number * BLOCK_SIZE + chunk_len <= usize::MAX
        }
    }
}

/// One store for items, kept on disk, in memory, or mirrored in both.
pub struct Warehouse<Size, Item> where Size: WholeNumber, Item: Merchandise {
    o_godown: Option<Godown>,
    o_inventory: Option<Inventory<Size, Item>>,
    o_logistics: Option<Logistics>,
}

impl<Size: WholeNumber, Item: Merchandise> View for Warehouse<Size, Item> {
    type V = WarehouseView<Item>;

    closed spec fn view(&self) -> WarehouseView<Item> {
        WarehouseView {
            godown: match self.o_godown {
                Some(godown) => Some(godown@),
                None => None,
            },
            inventory: match self.o_inventory {
                Some(inventory) => Some(inventory@),
                None => None,
            },
            logistics: match self.o_logistics {
                Some(logistics) => Some(logistics@),
                None => None,
            },
        }
    }
}

impl<Size: WholeNumber, Item: Merchandise> Warehouse<Size, Item> {
    /// What holds of every warehouse that `new` made and the methods
    /// changed.
    pub closed spec fn wf(&self) -> bool {
        &&& self.o_godown is Some || self.o_inventory is Some
        &&& self.o_godown is Some ==> self.o_godown->0.wf()
        &&& self.o_inventory is Some ==> self.o_inventory->0.wf()
        &&& self.o_logistics is Some ==> self.o_logistics->0@.items.len() == 0
    }

    /// Between two calls the cursor of an open session holds no items.
    pub proof fn lemma_session_is_unloaded(&self)
        requires
            self.wf(),
            self@.logistics is Some,
        ensures
            self@.logistics->0.items.len() == 0,
    {
    }

    /// A new warehouse without items. The files are not touched here. An
    /// address of either kind must fit a `usize`.
    pub fn new(mode: Mode) -> (warehouse: Self)
        requires
            GodownAddress::limit() <= usize::MAX,
            Size::limit() <= usize::MAX,
        ensures
            warehouse.wf(),
            warehouse@.logistics is None,
            warehouse@.godown == (if mode is Inventory {
                None
            } else {
                Some(FarmingView::fresh())
            }),
            warehouse@.inventory == (if mode is Godown {
                None
            } else {
                Some(InventoryView::<Item>::fresh())
            }),
    {
        let mut o_godown: Option<Godown> = None;
        let mut o_inventory: Option<Inventory<Size, Item>> = None;

        match mode {
            Mode::Godown(_) => {
                o_godown = Some(Godown::new());
            },
            Mode::Both(_) => {
                o_godown = Some(Godown::new());
                o_inventory = Some(Inventory::new());
            },
            Mode::Inventory => {
                o_inventory = Some(Inventory::new());
            },
        }

        Self { o_godown, o_inventory, o_logistics: None }
    }

    /// Opens a session in `mode`. The warehouse must keep items on disk, and
    /// no session may be open.
    pub fn start_session(&mut self, mode: SessionMode)
        requires
            old(self).wf(),
            old(self)@.godown is Some,
            old(self)@.logistics is None,
        ensures
            final(self).wf(),
            final(self)@ == (WarehouseView {
                logistics: Some(LogisticsView::fresh(mode)),
                ..old(self)@
            }),
    {
        self.o_logistics = Some(Logistics::new(mode));
    }

    /// Closes the open session.
    pub fn stop_session(&mut self)
        requires
            old(self).wf(),
            old(self)@.logistics is Some,
        ensures
            final(self).wf(),
            final(self)@ == (WarehouseView { logistics: None, ..old(self)@ }),
    {
        self.o_logistics = None;
    }

    /// True if the warehouse keeps items on disk.
    pub fn has_godown(&self) -> (has: bool)
        ensures
            has == (self@.godown is Some),
    {
        self.o_godown.is_some()
    }

    /// True if the warehouse keeps items in memory.
    pub fn has_inventory(&self) -> (has: bool)
        ensures
            has == (self@.inventory is Some),
    {
        self.o_inventory.is_some()
    }

    /// True if a session is open.
    pub fn has_session(&self) -> (has: bool)
        ensures
            has == (self@.logistics is Some),
    {
        self.o_logistics.is_some()
    }

    /// True if an item whose bytes are `good_len` long can be added.
    pub fn can_add(&self, good_len: usize) -> (can: bool)
        requires
            self.wf(),
        ensures
            can == self@.can_add(good_len as nat, Size::limit()),
    {
        let fits = good_len <= GOOD_MAX_SIZE;
        let on_disk = match self.o_godown.as_ref() {
            Some(godown) => !fits || godown.can_place(good_len),
            None => true,
        };
        let in_memory = match self.o_inventory.as_ref() {
            Some(inventory) => !(self.o_godown.is_none() || fits) || inventory.can_occupy(),
            None => true,
        };
        on_disk && in_memory
    }

    /// True if an item whose bytes are `good_len` long can be put in the
    /// place of what `token` names.
    pub fn can_update(&self, token: &Token<Size>, good_len: usize) -> (can: bool)
        requires
            self.wf(),
        ensures
            can == self@.can_update(*token, good_len as nat),
    {
        let fits = good_len <= GOOD_MAX_SIZE;
        match token {
            Token::Both(godown_address, inventory_address) => {
                match self.o_godown.as_ref() {
                    Some(godown) => {
                        godown.holds(*godown_address) && (!fits || godown.can_place(good_len))
                            && match self.o_inventory.as_ref() {
                            Some(inventory) => !fits || inventory.can_replace(*inventory_address),
                            None => true,
                        }
                    },
                    None => false,
                }
            },
            Token::Godown(godown_address) => {
                match self.o_godown.as_ref() {
                    Some(godown) => godown.holds(*godown_address) && (!fits || godown.can_place(
                        good_len,
                    )),
                    None => false,
                }
            },
            Token::Inventory(inventory_address) => {
                match self.o_inventory.as_ref() {
                    Some(inventory) => inventory.can_replace(*inventory_address),
                    None => false,
                }
            },
        }
    }

    /// True if what `token` names can be taken out.
    pub fn can_remove(&self, token: &Token<Size>) -> (can: bool)
        requires
            self.wf(),
        ensures
            can == self@.can_remove(*token),
    {
        let on_disk = match (token, self.o_godown.as_ref()) {
            (Token::Both(godown_address, _), Some(godown)) => godown.holds(*godown_address),
            (Token::Godown(godown_address), Some(godown)) => godown.holds(*godown_address),
            _ => true,
        };
        let in_memory = match (token, self.o_inventory.as_ref()) {
            (Token::Both(_, inventory_address), Some(inventory)) => inventory.can_remove(
                *inventory_address,
            ),
            (Token::Inventory(inventory_address), Some(inventory)) => inventory.can_remove(
                *inventory_address,
            ),
            _ => true,
        };
        on_disk && in_memory
    }

    /// True if what `token` names can be handed out, with `package` for what
    /// the disk holds where `locate` says.
    pub fn can_get(&self, token: &Token<Size>, package: &[u8]) -> (can: bool)
        requires
            self.wf(),
        ensures
            can == self@.can_get(*token, package@),
    {
        match token {
            Token::Both(_, inventory_address) => {
                match self.o_inventory.as_ref() {
                    Some(inventory) => inventory.get(*inventory_address).is_some(),
                    None => true,
                }
            },
            Token::Inventory(inventory_address) => {
                match self.o_inventory.as_ref() {
                    Some(inventory) => inventory.get(*inventory_address).is_some(),
                    None => true,
                }
            },
            Token::Godown(godown_address) => {
                match self.o_godown.as_ref() {
                    Some(godown) => {
                        match godown.locate(*godown_address) {
                            Some((_, len)) => package.len() == len && AssemblyLine::is_consistent(
                                package,
                            ),
                            None => false,
                        }
                    },
                    None => true,
                }
            },
        }
    }

    /// True if the warehouse `before` has become `after` by adding `item`,
    /// whose bytes are `good`, with the answer `result`.
    ///
    /// The item is stored in every part that the warehouse has, and the
    /// answer holds its token and the order for the disk, if there is a disk
    /// store. Bytes beyond the size limit of the disk store are refused, and
    /// nothing changes.
    pub open spec fn added(
        before: WarehouseView<Item>,
        item: Item,
        good: Seq<u8>,
        result: Result<(Token<Size>, Option<Shipment>), Fumble>,
        after: WarehouseView<Item>,
    ) -> bool {
        let blocks = package_blocks(good.len());
        &&& after.logistics == before.logistics
        &&& result is Err <==> before.godown is Some && good.len() > GOOD_MAX_SIZE
        &&& match result {
            Err(fumble) => fumble is ScalarsCombinedSize && after == before,
            Ok((token, shipment)) => {
                &&& after.godown == (match before.godown {
                    Some(book) => Some(book.allot(blocks)),
                    None => None,
                })
                &&& after.inventory == (match before.inventory {
                    Some(table) => Some(table.occupy(Slot::Taken(item))),
                    None => None,
                })
                &&& token.names(
                    match before.godown {
                        Some(book) => Some(book.allotted(blocks) as GodownAddress),
                        None => None,
                    },
                    match before.inventory {
                        Some(table) => Some(table.estate.allotted()),
                        None => None,
                    },
                )
                &&& match before.godown {
                    Some(book) => shipment is Some && shipment->0@ == placement(
                        book.allot(blocks),
                        book.allotted(blocks),
                        good,
                    ),
                    None => shipment is None,
                }
            },
        }
    }

    /// Stores `item`, whose bytes are `good`. See `added`.
    pub fn add_good(&mut self, item: Item, good: Good) -> (result: Result<
        (Token<Size>, Option<Shipment>),
        Fumble,
    >)
        requires
            old(self).wf(),
            old(self)@.can_add(good@.len(), Size::limit()),
        ensures
            final(self).wf(),
            Self::added(old(self)@, item, good@, result, final(self)@),
    {
        let mut o_godown_address: Option<GodownAddress> = None;
        let mut o_inventory_address: Option<Size> = None;
        let mut o_shipment: Option<Shipment> = None;

        if let Some(godown) = self.o_godown.as_mut() {
            let place_result = godown.place(good);

            match place_result {
                Err(fumble) => {
                    return Err(fumble);
                },
                Ok((address, shipment)) => {
                    o_godown_address = Some(address);
                    o_shipment = Some(shipment);
                },
            }
        }
        if let Some(inventory) = self.o_inventory.as_mut() {
            o_inventory_address = Some(inventory.place(item));
        }
        match (o_godown_address, o_inventory_address) {
            (Some(godown_address), Some(inventory_address)) => Ok(
                (Token::Both(godown_address, inventory_address), o_shipment),
            ),
            (Some(godown_address), None) => Ok((Token::Godown(godown_address), o_shipment)),
            (None, Some(inventory_address)) => Ok(
                (Token::Inventory(inventory_address), o_shipment),
            ),
            (None, None) => unreached(),
        }
    }

    /// Stores `item` with the bytes that its `to_good` gives. See `added`.
    pub fn add(&mut self, item: Item) -> (result: Result<(Token<Size>, Option<Shipment>), Fumble>)
        requires
            old(self).wf(),
            forall|good: Seq<u8>| #[trigger]
                gives_good(item, good) ==> old(self)@.can_add(good.len(), Size::limit()),
        ensures
            final(self).wf(),
            exists|good: Seq<u8>| #[trigger]
                gives_good(item, good) && Self::added(
                    old(self)@,
                    item,
                    good,
                    result,
                    final(self)@,
                ),
    {
        let good = item.to_good();
        assert(gives_good(item, good@));
        self.add_good(item, good)
    }

    /// True if the warehouse `before` has become `after` by putting `item`,
    /// whose bytes are `good`, in the place of what `token` names, with the
    /// answer `result`.
    ///
    /// The answer holds the token that names the item from now on. On disk
    /// the item gets a new record and the old one a tombstone: the two
    /// orders are to be carried out in the order given. In memory the item
    /// takes the slot of the old one. Bytes beyond the size limit of the
    /// disk store are refused, and nothing changes.
    pub open spec fn updated(
        before: WarehouseView<Item>,
        token: Token<Size>,
        item: Item,
        good: Seq<u8>,
        result: Result<(Token<Size>, Option<(Shipment, Shipment)>), Fumble>,
        after: WarehouseView<Item>,
    ) -> bool {
        let blocks = package_blocks(good.len());
        &&& after.logistics == before.logistics
        &&& result is Err <==> token.disk_address() is Some && good.len() > GOOD_MAX_SIZE
        &&& match result {
            Err(fumble) => fumble is ScalarsCombinedSize && after == before,
            Ok((renamed, shipments)) => {
                &&& match token.disk_address() {
                    Some(address) => {
                        let book = before.godown->0;
                        let placed = book.allot(blocks);
                        &&& after.godown == Some(placed.retain(address as nat))
                        &&& renamed.disk_address() == Some(book.allotted(blocks) as GodownAddress)
                        &&& shipments matches Some((first, second)) && first@ == placement(
                            placed,
                            book.allotted(blocks),
                            good,
                        ) && second@ == removal(placed, address as nat)
                    },
                    None => {
                        &&& after.godown == before.godown
                        &&& renamed.disk_address() is None
                        &&& shipments is None
                    },
                }
                &&& renamed.memory_address() == token.memory_address()
                &&& after.inventory == (match (before.inventory, token.memory_address()) {
                    (Some(table), Some(slot)) => Some(table.replace(slot, item)),
                    _ => before.inventory,
                })
            },
        }
    }

    /// Puts `item`, whose bytes are `good`, in the place of what `token`
    /// names. See `updated`.
    pub fn update_good(&mut self, token: &Token<Size>, item: Item, good: Good) -> (result: Result<
        (Token<Size>, Option<(Shipment, Shipment)>),
        Fumble,
    >)
        requires
            old(self).wf(),
            old(self)@.can_update(*token, good@.len()),
        ensures
            final(self).wf(),
            Self::updated(old(self)@, *token, item, good@, result, final(self)@),
    {
        match token {
            Token::Both(old_godown_address, old_inventory_address) => {
                let inventory_address = *old_inventory_address;
                let (godown_address, first, second) = match self.o_godown.as_mut() {
                    Some(godown) => {
                        let replace_result = godown.replace(*old_godown_address, good);
                        match replace_result {
                            Err(fumble) => {
                                return Err(fumble);
                            },
                            Ok(replaced) => replaced,
                        }
                    },
                    None => unreached(),
                };
                if let Some(inventory) = self.o_inventory.as_mut() {
                    inventory.replace(inventory_address, item);
                }
                Ok((Token::Both(godown_address, inventory_address), Some((first, second))))
            },
            Token::Godown(old_godown_address) => {
                match self.o_godown.as_mut() {
                    Some(godown) => {
                        let replace_result = godown.replace(*old_godown_address, good);
                        match replace_result {
                            Err(fumble) => Err(fumble),
                            Ok((godown_address, first, second)) => Ok(
                                (Token::Godown(godown_address), Some((first, second))),
                            ),
                        }
                    },
                    None => unreached(),
                }
            },
            Token::Inventory(inventory_address) => {
                match self.o_inventory.as_mut() {
                    Some(inventory) => {
                        inventory.replace(*inventory_address, item);
                        Ok((Token::Inventory(*inventory_address), None))
                    },
                    None => unreached(),
                }
            },
        }
    }

    /// Puts `item`, with the bytes that its `to_good` gives, in the place of
    /// what `token` names. See `updated`.
    pub fn update(&mut self, token: &Token<Size>, item: Item) -> (result: Result<
        (Token<Size>, Option<(Shipment, Shipment)>),
        Fumble,
    >)
        requires
            old(self).wf(),
            forall|good: Seq<u8>| #[trigger]
                gives_good(item, good) ==> old(self)@.can_update(*token, good.len()),
        ensures
            final(self).wf(),
            exists|good: Seq<u8>| #[trigger]
                gives_good(item, good) && Self::updated(
                    old(self)@,
                    *token,
                    item,
                    good,
                    result,
                    final(self)@,
                ),
    {
        let good = item.to_good();
        assert(gives_good(item, good@));
        self.update_good(token, item, good)
    }

    /// Takes out what `token` names, in each part that the token names and
    /// the warehouse has, and hands out the tombstone order for the disk, if
    /// a record was removed there.
    pub fn remove(&mut self, token: Token<Size>) -> (shipment: Option<Shipment>)
        requires
            old(self).wf(),
            old(self)@.can_remove(token),
        ensures
            final(self).wf(),
            final(self)@.logistics == old(self)@.logistics,
            final(self)@.godown == (match (old(self)@.godown, token.disk_address()) {
                (Some(book), Some(address)) => Some(book.retain(address as nat)),
                _ => old(self)@.godown,
            }),
            final(self)@.inventory == (match (old(self)@.inventory, token.memory_address()) {
                (Some(table), Some(slot)) => Some(table.remove(slot)),
                _ => old(self)@.inventory,
            }),
            match (old(self)@.godown, token.disk_address()) {
                (Some(book), Some(address)) => shipment is Some && shipment->0@ == removal(
                    book,
                    address as nat,
                ),
                _ => shipment is None,
            },
    {
        let mut o_shipment: Option<Shipment> = None;
        match token {
            Token::Both(godown_address, inventory_address) => {
                if let Some(godown) = self.o_godown.as_mut() {
                    o_shipment = Some(godown.remove(godown_address));
                }
                if let Some(inventory) = self.o_inventory.as_mut() {
                    inventory.remove(inventory_address);
                }
            },
            Token::Godown(godown_address) => {
                if let Some(godown) = self.o_godown.as_mut() {
                    o_shipment = Some(godown.remove(godown_address));
                }
            },
            Token::Inventory(inventory_address) => {
                if let Some(inventory) = self.o_inventory.as_mut() {
                    inventory.remove(inventory_address);
                }
            },
        }
        o_shipment
    }

    /// Where on disk the record lies that `get` needs for `token`: the byte
    /// position and the length, if the token names a record on disk only,
    /// the warehouse has a disk store, and the record is live there.
    pub fn locate(&self, token: &Token<Size>) -> (span: Option<(usize, usize)>)
        requires
            self.wf(),
        ensures
            match span {
                Some((pointer, len)) => {
                    &&& token is Godown
                    &&& self@.godown is Some
                    &&& self@.godown->0.is_live(token->Godown_0 as nat)
                    &&& pointer == self@.godown->0.edges[token->Godown_0 as int] * BLOCK_SIZE
                    &&& len == self@.godown->0.span(token->Godown_0 as nat) * BLOCK_SIZE
                },
                None => !(token is Godown && self@.godown is Some && self@.godown->0.is_live(
                    token->Godown_0 as nat,
                )),
            },
    {
        match token {
            Token::Godown(godown_address) => {
                match self.o_godown.as_ref() {
                    Some(godown) => godown.locate(*godown_address),
                    None => None,
                }
            },
            _ => None,
        }
    }

    /// The item that `token` names. A token that names a slot in memory is
    /// served from there, with a clone of the item. A token that names a
    /// record on disk only is served from `package`, which is what the disk
    /// holds where `locate` says: the item is what `from_good` makes of the
    /// payload. Where the warehouse has not the part that
    /// the token needs, nothing is handed out. The warehouse does not
    /// change.
    pub fn get(&mut self, token: &Token<Size>, package: &[u8]) -> (item: Option<Item>)
        requires
            old(self).wf(),
            old(self)@.can_get(*token, package@),
        ensures
            final(self).wf(),
            final(self)@ == old(self)@,
            match token.memory_address() {
                Some(slot) => match old(self)@.inventory {
                    Some(table) => item is Some && cloned::<Item>(table.item(slot)->0, item->0),
                    None => item is None,
                },
                None => match old(self)@.godown {
                    Some(book) => item is Some && gives_item(
                        dismantle_spec(package@)->0,
                        item->0,
                    ),
                    None => item is None,
                },
            },
    {
        match token {
            Token::Both(_, inventory_address) => {
                match self.o_inventory.as_ref() {
                    Some(inventory) => Some(inventory.get(*inventory_address).unwrap().clone()),
                    None => None,
                }
            },
            Token::Godown(godown_address) => {
                match self.o_godown.as_ref() {
                    Some(godown) => Some(Item::from_good(godown.get(*godown_address, package))),
                    None => None,
                }
            },
            Token::Inventory(inventory_address) => {
                match self.o_inventory.as_ref() {
                    Some(inventory) => Some(inventory.get(*inventory_address).unwrap().clone()),
                    None => None,
                }
            },
        }
    }

    /// The payload that a session in `mode` takes from an item of a scan:
    /// a session that only reads takes the items without address, a session
    /// that rebuilds those with one.
    pub open spec fn payload(mode: SessionMode, item: ItemView) -> Option<Seq<u8>> {
        match (mode, item) {
            (SessionMode::Uninitialize, ItemView::WithoutAddress(good)) => Some(good),
            (SessionMode::Initialize, ItemView::WithAddress(_, good)) => Some(good),
            _ => None,
        }
    }

    /// True if `made` and `copies` can be what a session in `mode` makes of
    /// the items `items` of a scan: `made[i]` is what `from_good` makes of
    /// the payload of `items[i]`, and `copies[i]` is a clone of it, for each
    /// item that the session takes.
    pub open spec fn is_made(
        mode: SessionMode,
        items: Seq<ItemView>,
        made: Seq<Item>,
        copies: Seq<Item>,
    ) -> bool {
        &&& made.len() == items.len()
        &&& copies.len() == items.len()
        &&& forall|i: int|
            0 <= i < items.len() && Self::payload(mode, items[i]) is Some ==> gives_item(
                Self::payload(mode, items[i])->0,
                #[trigger] made[i],
            ) && cloned::<Item>(made[i], copies[i])
    }

    /// What a session in `mode` reports for the items `items` of a scan,
    /// and the slot table after it, where `made[i]` is the item made of
    /// `items[i]` and `copies[i]` its clone: a session that only reads
    /// reports each item; a session that rebuilds reports each item with its
    /// address on disk, and where there is a slot table also puts the clone
    /// there and reports its address in memory.
    pub open spec fn gather(
        mode: SessionMode,
        items: Seq<ItemView>,
        made: Seq<Item>,
        copies: Seq<Item>,
        table: Option<InventoryView<Item>>,
    ) -> (Seq<Row<Item>>, Option<InventoryView<Item>>)
        decreases items.len(),
    {
        if items.len() == 0 {
            (Seq::empty(), table)
        } else {
            let (rows, so_far) = Self::gather(mode, items.drop_last(), made, copies, table);
            let item = made[items.len() - 1];
            match (mode, items.last()) {
                (SessionMode::Uninitialize, ItemView::WithoutAddress(_)) => (
                    rows.push(Row { disk: None, memory: None, item }),
                    so_far,
                ),
                (SessionMode::Initialize, ItemView::WithAddress(address, _)) => match so_far {
                    Some(slots) => (
                        rows.push(
                            Row {
                                disk: Some(address),
                                memory: Some(slots.estate.allotted()),
                                item,
                            },
                        ),
                        Some(slots.occupy(Slot::Taken(copies[items.len() - 1]))),
                    ),
                    None => (rows.push(Row { disk: Some(address), memory: None, item }), None),
                },
                _ => (rows, so_far),
            }
        }
    }

    /// True if the slot table has room for each clone that `gather` puts
    /// there.
    pub open spec fn can_gather(
        mode: SessionMode,
        items: Seq<ItemView>,
        made: Seq<Item>,
        copies: Seq<Item>,
        table: Option<InventoryView<Item>>,
    ) -> bool
        decreases items.len(),
    {
        items.len() == 0 || {
            let so_far = Self::gather(mode, items.drop_last(), made, copies, table).1;
            &&& Self::can_gather(mode, items.drop_last(), made, copies, table)
            &&& mode is Initialize && items.last() is WithAddress && so_far is Some
                ==> so_far->0.can_occupy(Size::limit())
        }
    }

    /// True if `entry` says what `row` says.
    pub open spec fn reports_row(entry: SessionItem<Token<Size>, Item>, row: Row<Item>) -> bool {
        match entry {
            SessionItem::WithToken(token, item) => {
                &&& item == row.item
                &&& row.disk is Some
                &&& token.names(row.disk, row.memory)
            },
            SessionItem::WithoutToken(item) => {
                &&& item == row.item
                &&& row.disk is None
                &&& row.memory is None
            },
        }
    }

    /// True if `entries` says, line by line, what `rows` says.
    pub open spec fn reports(
        entries: Seq<SessionItem<Token<Size>, Item>>,
        rows: Seq<Row<Item>>,
    ) -> bool {
        &&& entries.len() == rows.len()
        &&& forall|k: int| 0 <= k < rows.len() ==> Self::reports_row(#[trigger] entries[k], rows[k])
    }

    /// Of items that are all of the kind of the session, each one is
    /// reported.
    pub proof fn lemma_gather_reports_all(
        mode: SessionMode,
        items: Seq<ItemView>,
        made: Seq<Item>,
        copies: Seq<Item>,
        table: Option<InventoryView<Item>>,
    )
        requires
            forall|i: int| 0 <= i < items.len() ==> suits(mode, #[trigger] items[i]),
        ensures
            Self::gather(mode, items, made, copies, table).0.len() == items.len(),
        decreases items.len(),
    {
        if items.len() > 0 {
            Self::lemma_gather_reports_all(mode, items.drop_last(), made, copies, table);
            assert(suits(mode, items[items.len() - 1]));
        }
    }

    /// What is gathered from the first items does not depend on what is
    /// made of the later ones.
    pub proof fn lemma_gather_prefix(
        mode: SessionMode,
        items: Seq<ItemView>,
        made: (Seq<Item>, Seq<Item>),
        copies: (Seq<Item>, Seq<Item>),
        table: Option<InventoryView<Item>>,
    )
        requires
            forall|i: int| 0 <= i < items.len() ==> made.0[i] == made.1[i],
            forall|i: int| 0 <= i < items.len() ==> copies.0[i] == copies.1[i],
        ensures
            Self::gather(mode, items, made.0, copies.0, table) == Self::gather(
                mode,
                items,
                made.1,
                copies.1,
                table,
            ),
            Self::can_gather(mode, items, made.0, copies.0, table) == Self::can_gather(
                mode,
                items,
                made.1,
                copies.1,
                table,
            ),
        decreases items.len(),
    {
        if items.len() > 0 {
            Self::lemma_gather_prefix(mode, items.drop_last(), made, copies, table);
        }
    }

    /// Where there is room for the clones of all items, there is room for
    /// those of the first `count`.
    pub proof fn lemma_can_gather_prefix(
        mode: SessionMode,
        items: Seq<ItemView>,
        made: Seq<Item>,
        copies: Seq<Item>,
        table: Option<InventoryView<Item>>,
        count: int,
    )
        requires
            0 <= count <= items.len(),
            Self::can_gather(mode, items, made, copies, table),
        ensures
            Self::can_gather(mode, items.take(count), made, copies, table),
        decreases items.len(),
    {
        if count < items.len() {
            Self::lemma_can_gather_prefix(mode, items.drop_last(), made, copies, table, count);
            assert(items.drop_last().take(count) =~= items.take(count));
        } else {
            assert(items.take(count) =~= items);
        }
    }

    /// A slot table that is filled without a gap and has as many addresses
    /// left as there are items has room for each clone that `gather` puts
    /// there.
    pub proof fn lemma_room_for_gather(
        mode: SessionMode,
        items: Seq<ItemView>,
        made: Seq<Item>,
        copies: Seq<Item>,
        table: Option<InventoryView<Item>>,
        count: nat,
    )
        requires
            items.len() <= count,
            table is Some ==> table->0.wf(Size::limit()) && table->0.has_room_for(
                count,
                Size::limit(),
            ),
        ensures
            Self::can_gather(mode, items, made, copies, table),
            ({
                let after = Self::gather(mode, items, made, copies, table).1;
                &&& after is Some == table is Some
                &&& after is Some ==> after->0.wf(Size::limit()) && after->0.has_room_for(
                    (count - items.len()) as nat,
                    Size::limit(),
                )
            }),
        decreases items.len(),
    {
        if items.len() > 0 {
            let front = items.drop_last();
            Self::lemma_room_for_gather(mode, front, made, copies, table, count);
            let so_far = Self::gather(mode, front, made, copies, table).1;
            if so_far is Some {
                so_far->0.lemma_room_for_one(
                    (count - front.len()) as nat,
                    Slot::Taken(copies[items.len() - 1]),
                    Size::limit(),
                );
            }
        }
    }

    /// True if the slot table, if there is one, has room for the clones of
    /// all the items that a window of `chunk_len` bytes can hold: it is
    /// filled without a gap and has an address left for each block of the
    /// window. This is enough for `session_items`, whatever the window
    /// holds; it is more than is needed where the window holds fewer
    /// records.
    pub fn can_mirror(&self, chunk_len: usize) -> (can: bool)
        requires
            self.wf(),
            self@.godown is Some,
            self@.logistics is Some,
        ensures
            can == self@.can_mirror(chunk_len as nat, Size::limit()),
            can ==> forall|chunk: Seq<u8>, made: Seq<Item>, copies: Seq<Item>|
                chunk.len() == chunk_len ==> #[trigger] Self::can_gather(
                    self@.logistics->0.mode,
                    transfer_spec(
                        self@.logistics->0.mode,
                        chunk,
                        scan_start(self@.godown->0, self@.logistics->0),
                    ).items,
                    made,
                    copies,
                    self@.inventory,
                ),
    {
        let count = chunk_len / BLOCK_SIZE;
        let can = match self.o_inventory.as_ref() {
            Some(inventory) => inventory.has_room_for(count),
            None => true,
        };
        proof {
            if can {
                let cursor = self@.logistics->0;
                let start = scan_start(self@.godown->0, cursor);
                if self@.inventory is Some {
                    self.o_inventory->0.lemma_view_wf();
                }
                assert forall|chunk: Seq<u8>, made: Seq<Item>, copies: Seq<Item>|
                    chunk.len() == chunk_len implies #[trigger] Self::can_gather(
                    cursor.mode,
                    transfer_spec(cursor.mode, chunk, start).items,
                    made,
                    copies,
                    self@.inventory,
                ) by {
                    crate::godown::scan::lemma_scan_gathers_by_block(cursor.mode, chunk, start);
                    Self::lemma_room_for_gather(
                        cursor.mode,
                        transfer_spec(cursor.mode, chunk, start).items,
                        made,
                        copies,
                        self@.inventory,
                        count as nat,
                    );
                }
            }
        }
        can
    }

    /// Where the window begins that the next call of `session_items`
    /// needs.
    pub fn session_pointer(&self) -> (pointer: usize)
        requires
            self.wf(),
            self@.logistics is Some,
        ensures
            pointer == self@.logistics->0.pointer,
    {
        match self.o_logistics.as_ref() {
            Some(logistics) => logistics.get_pointer(),
            None => unreached(),
        }
    }

    /// True if the open session can take a window of `chunk_len` bytes.
    pub fn can_scan(&self, chunk_len: usize) -> (ready: bool)
        requires
            self.wf(),
        ensures
            ready == self@.can_scan(chunk_len as nat),
    {
        match (self.o_godown.as_ref(), self.o_logistics.as_ref()) {
            (Some(godown), Some(logistics)) => godown.can_transfer(logistics, chunk_len),
            _ => false,
        }
    }

    /// The items that the open session finds in `chunk`, the window that the
    /// disk holds where `session_pointer` says.
    ///
    /// The disk store goes through the window and the cursor moves on. From
    /// what was found, a session that only reads hands over each item; a
    /// session that rebuilds hands over each item with its token, after it
    /// put a clone of the item into the slot table, if there is one. Where
    /// nothing was found and the scan is not done, `again` is set: the
    /// caller carries out the orders and calls again with the next window.
    pub fn session_items(&mut self, chunk: &[u8]) -> (step: SessionStep<Size, Item>)
        requires
            old(self).wf(),
            old(self)@.can_scan(chunk@.len()),
            ({
                let cursor = old(self)@.logistics->0;
                let scan = transfer_spec(
                    cursor.mode,
                    chunk@,
                    scan_start(old(self)@.godown->0, cursor),
                );
                forall|made: Seq<Item>, copies: Seq<Item>| #[trigger]
                    Self::can_gather(cursor.mode, scan.items, made, copies, old(self)@.inventory)
            }),
        ensures
            final(self).wf(),
            ({
                let cursor = old(self)@.logistics->0;
                let scan = transfer_spec(
                    cursor.mode,
                    chunk@,
                    scan_start(old(self)@.godown->0, cursor),
                );
                &&& final(self)@.godown == Some(scan.estate)
                &&& final(self)@.logistics == Some(
                    LogisticsView { items: Seq::empty(), ..cursor_after(cursor, scan) },
                )
                &&& shipments_view(step.orders@) == scan.orders
                &&& step.items@.len() == scan.items.len()
                &&& step.again == (scan.items.len() == 0 && !scan.has_done)
                &&& exists|made: Seq<Item>, copies: Seq<Item>|
                    {
                        &&& #[trigger] Self::is_made(cursor.mode, scan.items, made, copies)
                        &&& final(self)@.inventory == Self::gather(
                            cursor.mode,
                            scan.items,
                            made,
                            copies,
                            old(self)@.inventory,
                        ).1
                        &&& Self::reports(
                            step.items@,
                            Self::gather(
                                cursor.mode,
                                scan.items,
                                made,
                                copies,
                                old(self)@.inventory,
                            ).0,
                        )
                    }
            }),
    {
        let mut session_items: Vec<SessionItem<Token<Size>, Item>> = Vec::new();
        let ghost table = self@.inventory;
        let ghost cursor = self@.logistics->0;
        let ghost scan = transfer_spec(cursor.mode, chunk@, scan_start(self@.godown->0, cursor));

        let (orders, logistics_items, done, mode) = match (
            self.o_godown.as_mut(),
            self.o_logistics.as_mut(),
        ) {
            (Some(godown), Some(logistics)) => {
                let orders = godown.transfer_chunk(logistics, chunk);
                let logistics_items = logistics.unload();
                (orders, logistics_items, logistics.get_has_done(), logistics.get_mode())
            },
            _ => unreached(),
        };
        let ghost batch = items_view(logistics_items@);
        let ghost mut made: Seq<Item> = Seq::new(batch.len(), |i: int| arbitrary());
        let ghost mut copies: Seq<Item> = Seq::new(batch.len(), |i: int| arbitrary());
        let count = logistics_items.len();
        let ghost book = self@.godown;
        let ghost moved = self@.logistics;
        assert(batch == scan.items);
        proof {
            lemma_scan_gathers_its_kind(mode, chunk@, scan_start(old(self)@.godown->0, cursor));
        }

        if count == 0 {
            proof {
                assert(Self::gather(mode, batch, made, copies, table) == (
                    Seq::<Row<Item>>::empty(),
                    table,
                ));
                assert(Self::reports(
                    session_items@,
                    Self::gather(mode, scan.items, made, copies, table).0,
                ));
                assert(scan.items.len() == 0);
                assert(Self::is_made(mode, scan.items, made, copies));
            }
            return SessionStep { items: session_items, orders, again: !done };
        }
        assert(Self::gather(mode, batch.take(0), made, copies, table) == (
            Seq::<Row<Item>>::empty(),
            table,
        ));

        for logistics_item in iter: logistics_items.into_iter()
            invariant
                self.wf(),
                batch == items_view(iter.seq()),
                made.len() == batch.len(),
                copies.len() == batch.len(),
                self@.godown == book,
                self@.logistics == moved,
                forall|any: Seq<Item>, other: Seq<Item>| #[trigger]
                    Self::can_gather(mode, batch, any, other, table),
                forall|i: int|
                    0 <= i < iter.index() && Self::payload(mode, batch[i]) is Some ==> gives_item(
                        Self::payload(mode, batch[i])->0,
                        #[trigger] made[i],
                    ) && cloned::<Item>(made[i], copies[i]),
                self@.inventory == Self::gather(
                    mode,
                    batch.take(iter.index() as int),
                    made,
                    copies,
                    table,
                ).1,
                Self::reports(
                    session_items@,
                    Self::gather(mode, batch.take(iter.index() as int), made, copies, table).0,
                ),
        {
            let ghost index = iter.index() as int;
            let ghost before = (made, copies);
            assert(batch[index] == logistics_item@);
            assert(batch.take(index + 1).drop_last() =~= batch.take(index));
            assert(batch.take(index + 1).last() == batch[index]);
            match mode {
                SessionMode::Uninitialize => {
                    match logistics_item {
                        LogisticsItem::WithoutAddress(good) => {
                            let item = Item::from_good(good);
                            proof {
                                made = made.update(index, item);
                                copies = copies.update(index, item);
                                Self::lemma_gather_prefix(
                                    mode,
                                    batch.take(index),
                                    (before.0, made),
                                    (before.1, copies),
                                    table,
                                );
                            }
                            session_items.push(SessionItem::WithoutToken(item));
                        },
                        _ => {},
                    }
                },
                SessionMode::Initialize => {
                    match logistics_item {
                        LogisticsItem::WithAddress(address, good) => {
                            let item = Item::from_good(good);

                            if let Some(inventory) = self.o_inventory.as_mut() {
                                let inventory_item = item.clone();
                                proof {
                                    made = made.update(index, item);
                                    copies = copies.update(index, inventory_item);
                                    Self::lemma_gather_prefix(
                                        mode,
                                        batch.take(index),
                                        (before.0, made),
                                        (before.1, copies),
                                        table,
                                    );
                                    Self::lemma_can_gather_prefix(
                                        mode,
                                        batch,
                                        made,
                                        copies,
                                        table,
                                        index + 1,
                                    );
                                }
                                let inventory_address = inventory.place(inventory_item);

                                session_items.push(
                                    SessionItem::WithToken(
                                        Token::Both(address, inventory_address),
                                        item,
                                    ),
                                );
                            } else {
                                proof {
                                    made = made.update(index, item);
                                    copies = copies.update(index, item);
                                    Self::lemma_gather_prefix(
                                        mode,
                                        batch.take(index),
                                        (before.0, made),
                                        (before.1, copies),
                                        table,
                                    );
                                }
                                session_items.push(
                                    SessionItem::WithToken(Token::Godown(address), item),
                                );
                            }
                        },
                        _ => {},
                    }
                },
            }
        }
        proof {
            assert(batch.take(batch.len() as int) =~= batch);
            assert(Self::reports(
                session_items@,
                Self::gather(mode, scan.items, made, copies, table).0,
            ));
            assert(Self::is_made(mode, scan.items, made, copies));
            Self::lemma_gather_reports_all(mode, scan.items, made, copies, table);
        }

        SessionStep { items: session_items, orders, again: false }
    }
}

} // verus!
