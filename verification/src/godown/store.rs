use vstd::prelude::*;
use crate::estate::farming::{Farming, FarmingView};
use crate::estate::def::WholeNumber;
use crate::fumble::Fumble;
use crate::godown::assembly_line::{
    assemble_spec,
    body_in_bounds,
    dismantle_spec,
    package_blocks,
    zeros,
    AssemblyLine,
    BLOCK_COUNT_MAX,
};
use crate::godown::block::Block;
use crate::godown::def::{Address, Good, Item, Package, BLOCK_SIZE, GOOD_MAX_SIZE};
use crate::godown::disk::{shipments_view, Shipment, ShipmentView};
use crate::godown::flag::FlagType;
use crate::godown::assembly_line::Integrity;
use crate::godown::labeller::{header_bytes, LabelInfo, Labeller, HEADER_SIZE};
use crate::godown::logistics::{Logistics, LogisticsView, Mode};
use crate::godown::scan::{scan_run, sight, take_in, transfer_spec, ScanView, Sight};

verus! {

/// True if every estate of `estate` can be a record on disk: the byte
/// position where the free land begins fits a `usize`, and no estate spans
/// more blocks than a header can declare.
pub open spec fn storable(estate: FarmingView) -> bool {
    &&& estate.frontier() * BLOCK_SIZE <= usize::MAX
    &&& forall|address: nat| address < estate.count() ==> #[trigger] estate.span(address)
        <= BLOCK_COUNT_MAX
}

/// True if a payload of `good_len` bytes can be placed: it is not empty, and
/// its package, laid where the free land begins, ends at a byte position
/// that fits a `usize`.
pub open spec fn placeable(estate: FarmingView, good_len: nat) -> bool {
    good_len > 0 && (estate.frontier() + package_blocks(good_len)) * BLOCK_SIZE <= usize::MAX
}

/// A book that can be stored can be stored still after an estate of no
/// more blocks than a header can declare was registered where the free land
/// began, if the estate ends at a byte position that fits a `usize`; and
/// also after the new address was retained.
pub proof fn lemma_registered_is_storable(estate: FarmingView, blocks: nat)
    requires
        estate.wf(Address::limit()),
        storable(estate),
        0 < blocks <= BLOCK_COUNT_MAX,
        (estate.frontier() + blocks) * BLOCK_SIZE <= usize::MAX,
    ensures
        estate.can_allot(blocks, Address::limit()),
        estate.extend(blocks).wf(Address::limit()),
        storable(estate.extend(blocks)),
        storable(estate.extend(blocks).retain(estate.count())),
{
    let grown = estate.extend(blocks);
    estate.lemma_extend(blocks, Address::limit());
    assert forall|other: nat| other < grown.count() implies #[trigger] grown.span(other)
        <= BLOCK_COUNT_MAX by {
        if other < estate.count() {
            assert(estate.span(other) <= BLOCK_COUNT_MAX);
        }
    }
    let gone = grown.retain(estate.count());
    assert forall|other: nat| other < gone.count() implies #[trigger] gone.span(other)
        <= BLOCK_COUNT_MAX by {
        assert(grown.span(other) <= BLOCK_COUNT_MAX);
    }
}

/// The package that marks a record of `blocks` blocks as removed: a header
/// with the flag `Delete` and no payload, and zeros.
pub open spec fn tombstone_spec(blocks: nat) -> Seq<u8> {
    header_bytes(LabelInfo { block_count: blocks as u16, flag_type: FlagType::Delete, good_len: 0 })
        + zeros((blocks * BLOCK_SIZE - HEADER_SIZE) as nat)
}

/// The order that writes the package of `good` where the estate of
/// `address` lies.
pub open spec fn placement(estate: FarmingView, address: nat, good: Seq<u8>) -> ShipmentView {
    ShipmentView {
        pointer: estate.edges[address as int] * (BLOCK_SIZE as nat),
        package: assemble_spec(good),
    }
}

/// The order that overwrites the record of `address` with a tombstone of the
/// same span.
pub open spec fn removal(estate: FarmingView, address: nat) -> ShipmentView {
    ShipmentView {
        pointer: estate.edges[address as int] * (BLOCK_SIZE as nat),
        package: tombstone_spec(estate.span(address)),
    }
}

/// True if a window of `chunk_len` bytes can be scanned with the book
/// `estate` and the cursor `cursor`: the positions that the scan reaches fit
/// a `usize`, and in a scan that rebuilds, the cursor stands where the free
/// land begins.
pub open spec fn transferable(estate: FarmingView, cursor: LogisticsView, chunk_len: nat) -> bool {
    &&& cursor.pointer + chunk_len <= usize::MAX
    &&& cursor.mode is Initialize ==> {
        &&& cursor.block_number == estate.frontier()
        &&& cursor.block_number * BLOCK_SIZE + chunk_len <= usize::MAX
    }
}

/// The scan of a window that begins with the book `estate` and the cursor
/// `cursor`.
pub open spec fn scan_start(estate: FarmingView, cursor: LogisticsView) -> ScanView {
    ScanView {
        estate,
        block_number: cursor.block_number,
        counter: 0,
        items: cursor.items,
        orders: Seq::empty(),
        has_done: cursor.has_done,
    }
}

/// The scan that stands at byte `counter` of a window, with the book
/// `estate`, the next record at block `block_number`, the gatherings of
/// `cursor` and the orders `orders`.
pub open spec fn scan_at(
    estate: FarmingView,
    block_number: nat,
    counter: nat,
    cursor: LogisticsView,
    orders: Seq<Shipment>,
) -> ScanView {
    ScanView {
        estate,
        block_number,
        counter,
        items: cursor.items,
        orders: shipments_view(orders),
        has_done: cursor.has_done,
    }
}

/// The cursor `cursor` after a window whose scan ended as `end`.
pub open spec fn cursor_after(cursor: LogisticsView, end: ScanView) -> LogisticsView {
    LogisticsView {
        mode: cursor.mode,
        pointer: cursor.pointer + end.counter,
        block_number: end.block_number,
        items: end.items,
        has_done: end.has_done,
    }
}

/// The store of records on disk. It keeps the book of which blocks belong
/// to which address, and answers every change with the orders that bring
/// the disk in line with the book.
pub struct Godown {
    estate: Farming<Address>,
}

impl View for Godown {
    type V = FarmingView;

    closed spec fn view(&self) -> FarmingView {
        self.estate@
    }
}

impl Godown {
    /// What holds of every store that `new` made and the methods changed.
    pub closed spec fn wf(&self) -> bool {
        &&& self.estate.wf()
        &&& storable(self@)
    }

    /// A store without records. An address must fit a `usize`.
    pub fn new() -> (godown: Self)
        requires
            Address::limit() <= usize::MAX,
        ensures
            godown.wf(),
            godown@ == FarmingView::fresh(),
    {
        Self { estate: Farming::new() }
    }

    /// The view of a store in order is an estate in order that can be
    /// stored.
    pub proof fn lemma_view_wf(&self)
        requires
            self.wf(),
        ensures
            self@.wf(Address::limit()),
            storable(self@),
            Address::limit() <= usize::MAX,
    {
        self.estate.lemma_view_wf();
    }

    /// The block at which the free land begins: the number of blocks that
    /// the records take on disk.
    pub fn frontier(&self) -> (block: usize)
        requires
            self.wf(),
        ensures
            block == self@.frontier(),
    {
        self.estate.frontier()
    }

    /// True if `place` has room for a payload of `good_len` bytes.
    pub fn can_place(&self, good_len: usize) -> (can: bool)
        requires
            self.wf(),
        ensures
            can == placeable(self@, good_len as nat),
    {
        proof {
            self.lemma_view_wf();
        }
        if good_len == 0 || good_len > usize::MAX - BLOCK_SIZE - Labeller::get_header_size() {
            false
        } else {
            let blocks = Block::get_count(Labeller::get_header_size() + good_len + 1);
            let frontier = self.estate.frontier();
            frontier <= usize::MAX / BLOCK_SIZE && blocks <= usize::MAX / BLOCK_SIZE - frontier
        }
    }

    /// True if `transfer_chunk` can take a window of `chunk_len` bytes with
    /// the cursor `logistics`: the positions that the scan reaches fit a
    /// `usize`, and in a scan that rebuilds, the cursor stands where the free
    /// land begins.
    pub fn can_transfer(&self, logistics: &Logistics, chunk_len: usize) -> (can: bool)
        requires
            self.wf(),
        ensures
            can == transferable(self@, logistics@, chunk_len as nat),
    {
        if logistics.get_pointer() > usize::MAX - chunk_len {
            false
        } else {
            match logistics.get_mode() {
                Mode::Uninitialize => true,
                Mode::Initialize => {
                    let block_number = logistics.get_block_number();
                    block_number == self.estate.frontier() && block_number <= (usize::MAX
                        - chunk_len) / BLOCK_SIZE
                },
            }
        }
    }

    /// Books room for `good` and orders its package to be written there.
    /// A payload over the size limit is refused, and nothing changes.
    pub fn place(&mut self, good: Good) -> (result: Result<(Address, Shipment), Fumble>)
        requires
            old(self).wf(),
            good@.len() <= GOOD_MAX_SIZE ==> placeable(old(self)@, good@.len()),
        ensures
            final(self).wf(),
            match result {
                Ok((address, shipment)) => {
                    &&& good@.len() <= GOOD_MAX_SIZE
                    &&& final(self)@ == old(self)@.allot(package_blocks(good@.len()))
                    &&& address == old(self)@.allotted(package_blocks(good@.len()))
                    &&& !old(self)@.is_live(address as nat)
                    &&& final(self)@.is_live(address as nat)
                    &&& shipment@ == placement(final(self)@, address as nat, good@)
                },
                Err(fumble) => {
                    &&& good@.len() > GOOD_MAX_SIZE
                    &&& fumble is ScalarsCombinedSize
                    &&& final(self)@ == old(self)@
                },
            },
    {
        if good.len() > GOOD_MAX_SIZE {
            Err(Fumble::ScalarsCombinedSize)
        } else {
            proof {
                self.lemma_view_wf();
                crate::godown::assembly_line::lemma_assemble_dismantle(good@);
                old(self)@.lemma_allot_is_fresh(package_blocks(good@.len()), Address::limit());
            }
            let ghost blocks = package_blocks(good@.len());
            let package = AssemblyLine::assemble(good);
            let label_info = Labeller::read(package.as_slice());
            let address = self.estate.allot(label_info.block_count as usize);
            let location = self.estate.get_location(address).unwrap();
            proof {
                self.estate.lemma_view_wf();
                assert(self@.edges[address as int] <= self@.frontier());
                assert(self@.frontier() <= old(self)@.frontier() + blocks);
                assert(forall|other: nat|
                    other < self@.count() ==> #[trigger] self@.span(other) == (if other
                        == address as nat {
                        blocks
                    } else {
                        old(self)@.span(other)
                    }));
                let end = old(self)@.frontier() + blocks;
                let frontier = self@.frontier();
                assert(location * BLOCK_SIZE <= usize::MAX && frontier * BLOCK_SIZE
                    <= usize::MAX) by (nonlinear_arith)
                    requires
                        location <= frontier <= end,
                        end * BLOCK_SIZE <= usize::MAX,
                ;
            }
            let pointer = Block::get_pointer(location);
            Ok((address, Shipment { pointer, package }))
        }
    }

    /// True if `address` belongs to a record that was placed and not removed
    /// since.
    pub fn holds(&self, address: Address) -> (live: bool)
        requires
            self.wf(),
        ensures
            live == self@.is_live(address as nat),
    {
        self.estate.get_location(address).is_some()
    }

    /// Takes the record of `address` out of the book, and orders a tombstone
    /// of the same span to be written over it. The blocks are not given back
    /// to the disk: the address waits for a record of the same span.
    pub fn remove(&mut self, address: Address) -> (shipment: Shipment)
        requires
            old(self).wf(),
            old(self)@.is_live(address as nat),
        ensures
            final(self).wf(),
            final(self)@ == old(self)@.retain(address as nat),
            !final(self)@.is_live(address as nat),
            shipment@ == removal(old(self)@, address as nat),
    {
        proof {
            self.lemma_view_wf();
            old(self)@.lemma_retain_frees(address as nat, Address::limit());
            assert(self@.edges[address as int] < self@.edges[address + 1]);
            assert(self@.edges[address + 1] <= self@.frontier());
            assert(self@.span(address as nat) <= BLOCK_COUNT_MAX);
        }
        let location = self.estate.get_location(address).unwrap();
        proof {
            let frontier = self@.frontier();
            assert(location * BLOCK_SIZE <= usize::MAX) by (nonlinear_arith)
                requires
                    location <= frontier,
                    frontier * BLOCK_SIZE <= usize::MAX,
            ;
        }
        let pointer = Block::get_pointer(location);
        let block_count = self.estate.get_size(address).unwrap();
        let package_len = Block::get_total_bytes(block_count);

        let mut package: Package = Vec::new();
        package.resize(package_len, 0);
        let ghost blank = package@;

        let label_info = LabelInfo {
            block_count: block_count as u16,
            flag_type: FlagType::Delete,
            good_len: 0,
        };
        Labeller::label(package.as_mut_slice(), label_info);
        proof {
            assert forall|i: int| 0 <= i < package_len implies blank[i] == 0u8 by {
                assert(cloned::<u8>(0u8, blank[i]));
            }
            assert(package@ =~= tombstone_spec(block_count as nat));
        }

        self.estate.retain(address);
        proof {
            assert(self@.edges == old(self)@.edges);
            assert forall|other: nat| other < self@.count() implies #[trigger] self@.span(other)
                <= BLOCK_COUNT_MAX by {
                assert(old(self)@.span(other) <= BLOCK_COUNT_MAX);
            }
        }
        Shipment { pointer, package }
    }

    /// Places `good` at a new address and, if that went well, removes the
    /// record of `address`. The orders are to be carried out in the order
    /// given: first the new record, then the tombstone. A payload over the
    /// size limit is refused, and nothing changes.
    pub fn replace(&mut self, address: Address, good: Good) -> (result: Result<
        (Address, Shipment, Shipment),
        Fumble,
    >)
        requires
            old(self).wf(),
            old(self)@.is_live(address as nat),
            good@.len() <= GOOD_MAX_SIZE ==> placeable(old(self)@, good@.len()),
        ensures
            final(self).wf(),
            match result {
                Ok((replaced_address, first, second)) => {
                    let placed = old(self)@.allot(package_blocks(good@.len()));
                    &&& good@.len() <= GOOD_MAX_SIZE
                    &&& final(self)@ == placed.retain(address as nat)
                    &&& replaced_address == old(self)@.allotted(package_blocks(good@.len()))
                    &&& replaced_address != address
                    &&& final(self)@.is_live(replaced_address as nat)
                    &&& !final(self)@.is_live(address as nat)
                    &&& first@ == placement(placed, replaced_address as nat, good@)
                    &&& second@ == removal(placed, address as nat)
                },
                Err(fumble) => {
                    &&& good@.len() > GOOD_MAX_SIZE
                    &&& fumble is ScalarsCombinedSize
                    &&& final(self)@ == old(self)@
                },
            },
    {
        proof {
            self.lemma_view_wf();
            if good@.len() <= GOOD_MAX_SIZE {
                old(self)@.lemma_allot_is_fresh(package_blocks(good@.len()), Address::limit());
            }
        }
        let place_result = self.place(good);

        match place_result {
            Err(fumble) => Err(fumble),
            Ok((replaced_address, first)) => {
                proof {
                    self.lemma_view_wf();
                    self@.lemma_retain_frees(address as nat, Address::limit());
                }
                let second = self.remove(address);
                Ok((replaced_address, first, second))
            },
        }
    }

    /// Where the record of `address` lies on disk: the byte position at
    /// which it starts and its length in bytes, if the address is live.
    pub fn locate(&self, address: Address) -> (span: Option<(usize, usize)>)
        requires
            self.wf(),
        ensures
            match span {
                Some((pointer, len)) => {
                    &&& self@.is_live(address as nat)
                    &&& pointer == self@.edges[address as int] * BLOCK_SIZE
                    &&& len == self@.span(address as nat) * BLOCK_SIZE
                },
                None => !self@.is_live(address as nat),
            },
    {
        proof {
            self.lemma_view_wf();
        }
        match self.estate.get_location(address) {
            None => None,
            Some(location) => {
                proof {
                    assert(self@.edges[address as int] < self@.edges[address + 1]);
                    assert(self@.edges[address + 1] <= self@.frontier());
                    assert(self@.span(address as nat) <= BLOCK_COUNT_MAX);
                    let frontier = self@.frontier();
                    assert(location * BLOCK_SIZE <= usize::MAX) by (nonlinear_arith)
                        requires
                            location <= frontier,
                            frontier * BLOCK_SIZE <= usize::MAX,
                    ;
                }
                let pointer = Block::get_pointer(location);
                let size = self.estate.get_size(address).unwrap();
                let len = Block::get_total_bytes(size);
                Some((pointer, len))
            },
        }
    }

    /// The payload of the record of `address`, out of `package`, which is
    /// what the disk holds where the record lies.
    pub fn get(&self, address: Address, package: &[u8]) -> (good: Good)
        requires
            self.wf(),
            self@.is_live(address as nat),
            package@.len() == self@.span(address as nat) * BLOCK_SIZE,
            body_in_bounds(package@),
            dismantle_spec(package@) is Some,
        ensures
            dismantle_spec(package@) == Some(good@),
    {
        proof {
            self.lemma_view_wf();
            assert(self@.edges[address as int] < self@.edges[address + 1]);
        }
        AssemblyLine::dismantle(package).unwrap()
    }

    /// Goes through `chunk`, the window that the disk holds where the cursor
    /// `logistics` points, record by record, and moves the cursor past the
    /// records dealt with. A scan that only reads gathers the payloads of
    /// the consistent records. A scan that rebuilds also enters every record
    /// in the book, and answers with a tombstone order for every record that
    /// is neither flagged as removed nor consistent. The scan is done when
    /// the window is empty or a header declares no blocks.
    pub fn transfer_chunk(&mut self, logistics: &mut Logistics, chunk: &[u8]) -> (orders: Vec<
        Shipment,
    >)
        requires
            old(self).wf(),
            transferable(old(self)@, old(logistics)@, chunk@.len()),
        ensures
            final(self).wf(),
            ({
                let start = scan_start(old(self)@, old(logistics)@);
                let end = transfer_spec(old(logistics)@.mode, chunk@, start);
                &&& final(self)@ == end.estate
                &&& final(logistics)@ == cursor_after(old(logistics)@, end)
                &&& shipments_view(orders@) == end.orders
            }),
    {
        let mut orders: Vec<Shipment> = Vec::new();
        let mut counter: usize = 0;
        let header_size = Labeller::get_header_size();
        let pointer: usize = logistics.get_pointer();
        let mut block_number = logistics.get_block_number();
        let chunk_len = chunk.len();
        let mode = logistics.get_mode();
        let ghost start = scan_start(old(self)@, old(logistics)@);
        assert(shipments_view(orders@) =~= Seq::empty());

        if chunk_len == 0 {
            logistics.set_has_done();
            return orders;
        }

        while header_size < chunk_len - counter
            invariant_except_break
                scan_run(
                    mode,
                    chunk@,
                    scan_at(self@, block_number as nat, counter as nat, logistics@, orders@),
                ) == scan_run(mode, chunk@, start),
            invariant
                self.wf(),
                chunk_len == chunk@.len(),
                header_size == HEADER_SIZE,
                counter <= chunk_len,
                logistics@.mode == mode,
                logistics@.pointer == pointer,
                logistics@.block_number == old(logistics)@.block_number,
                pointer + chunk_len <= usize::MAX,
                mode is Initialize ==> block_number == self@.frontier() && block_number * BLOCK_SIZE
                    + (chunk_len - counter) <= usize::MAX,
            ensures
                scan_at(self@, block_number as nat, counter as nat, logistics@, orders@)
                    == scan_run(mode, chunk@, start),
            decreases chunk_len - counter,
        {
            let ghost current = scan_at(
                self@,
                block_number as nat,
                counter as nat,
                logistics@,
                orders@,
            );
            let label_info = Labeller::read(vstd::slice::slice_subrange(chunk, counter, chunk_len));
            let block_count = label_info.block_count;

            if block_count == 0 {
                logistics.set_has_done();
                assert(sight(chunk@, counter as nat) is End);
                break;
            }
            let package_len = Block::get_total_bytes(block_count as usize);

            if package_len < chunk_len - counter {
                assert(sight(chunk@, counter as nat) == Sight::Parcel(label_info));
                let package = vstd::slice::slice_subrange(chunk, counter, counter + package_len);
                let ghost next = take_in(mode, chunk@, label_info, current);

                match mode {
                    Mode::Uninitialize => {
                        if AssemblyLine::can_dismantle(package) {
                            let integrity = AssemblyLine::dismantle(package);
                            match integrity {
                                Integrity::Consistent(good) => {
                                    logistics.load_item(Item::WithoutAddress(good));
                                },
                                Integrity::Inconsistent => {},
                            }
                        }
                    },
                    Mode::Initialize => {
                        let block_count_as_usize = block_count as usize;
                        proof {
                            self.lemma_view_wf();
                            lemma_registered_is_storable(self@, block_count as nat);
                        }
                        let address: Address = self.estate.register(
                            block_number,
                            block_count_as_usize,
                        );

                        if label_info.flag_type == FlagType::Delete {
                            self.estate.retain(address);
                        } else {
                            let integrity = if AssemblyLine::can_dismantle(package) {
                                AssemblyLine::dismantle(package)
                            } else {
                                Integrity::Inconsistent
                            };
                            match integrity {
                                Integrity::Consistent(good) => {
                                    logistics.load_item(Item::WithAddress(address, good));
                                },
                                Integrity::Inconsistent => {
                                    let shipment = self.remove(address);
                                    orders.push(shipment);
                                    assert(shipments_view(orders@) =~= current.orders.push(
                                        shipment@,
                                    ));
                                },
                            }
                        }

                        block_number += block_count_as_usize;
                    },
                }

                counter += package_len;
                proof {
                    assert(next == scan_at(
                        self@,
                        block_number as nat,
                        counter as nat,
                        logistics@,
                        orders@,
                    ));
                }
            } else {
                assert(sight(chunk@, counter as nat) is Cut);
                break;
            }
        }

        logistics.set_pointer(pointer + counter);
        logistics.set_block_number(block_number);
        orders
    }
}

} // verus!
