use vstd::prelude::*;
use crate::estate::farming::FarmingView;
use crate::godown::assembly_line::{body_in_bounds, dismantle_spec};
use crate::godown::def::{Address, ItemView, BLOCK_SIZE};
use crate::godown::disk::ShipmentView;
use crate::godown::flag::FlagType;
use crate::godown::labeller::{parse_header, LabelInfo, HEADER_SIZE};
use crate::godown::logistics::Mode;
use crate::godown::store::tombstone_spec;

verus! {

/// Where a scan of one window stands.
pub struct ScanView {
    /// The book of the store.
    pub estate: FarmingView,
    /// Block at which the next record starts, in a scan that rebuilds.
    pub block_number: nat,
    /// Number of bytes of the window that were dealt with.
    pub counter: nat,
    /// The items gathered.
    pub items: Seq<ItemView>,
    /// The orders to the disk that the scan has given.
    pub orders: Seq<ShipmentView>,
    /// True once the end of the records was seen.
    pub has_done: bool,
}

/// What a scan meets at one place of a window.
pub enum Sight {
    /// A header that declares no blocks: the records end here.
    End,
    /// The window has no room here for a header and a byte more, or the
    /// record that begins here does not end before the window does.
    Cut,
    /// A record that lies wholly within the window, with its header.
    Parcel(LabelInfo),
}

/// What a scan meets at byte `counter` of the window `chunk`.
pub open spec fn sight(chunk: Seq<u8>, counter: nat) -> Sight {
    if counter + HEADER_SIZE >= chunk.len() {
        Sight::Cut
    } else {
        let label = parse_header(chunk.subrange(counter as int, chunk.len() as int));
        if label.block_count == 0 {
            Sight::End
        } else if counter + label.block_count * BLOCK_SIZE >= chunk.len() {
            Sight::Cut
        } else {
            Sight::Parcel(label)
        }
    }
}

/// The payload of `package`, if the package is consistent. A package whose
/// header declares more payload than the package has room for is not.
pub open spec fn contents(package: Seq<u8>) -> Option<Seq<u8>> {
    if body_in_bounds(package) {
        dismantle_spec(package)
    } else {
        None
    }
}

/// The scan after it dealt with the record with header `label` that begins
/// where the scan stands.
///
/// A scan that only reads gathers the payload of a consistent record and
/// passes over any other. A scan that rebuilds registers every record at the
/// next address; it retains the address at once if the record is flagged as
/// removed, gathers the payload with the address if the record is
/// consistent, and else removes the record: the address is retained and a
/// tombstone is ordered.
pub open spec fn take_in(mode: Mode, chunk: Seq<u8>, label: LabelInfo, scan: ScanView) -> ScanView {
    let blocks = label.block_count as nat;
    let end = scan.counter + blocks * (BLOCK_SIZE as nat);
    let package = chunk.subrange(scan.counter as int, end as int);
    match mode {
        Mode::Uninitialize => match contents(package) {
            Some(good) => ScanView {
                counter: end,
                items: scan.items.push(ItemView::WithoutAddress(good)),
                ..scan
            },
            None => ScanView { counter: end, ..scan },
        },
        Mode::Initialize => {
            let address = scan.estate.count();
            let grown = scan.estate.extend(blocks);
            let moved = ScanView {
                counter: end,
                block_number: scan.block_number + blocks,
                ..scan
            };
            if label.flag_type == FlagType::Delete {
                ScanView { estate: grown.retain(address), ..moved }
            } else {
                match contents(package) {
                    Some(good) => ScanView {
                        estate: grown,
                        items: scan.items.push(ItemView::WithAddress(address as Address, good)),
                        ..moved
                    },
                    None => ScanView {
                        estate: grown.retain(address),
                        orders: scan.orders.push(
                            ShipmentView {
                                pointer: scan.block_number * (BLOCK_SIZE as nat),
                                package: tombstone_spec(blocks),
                            },
                        ),
                        ..moved
                    },
                }
            }
        },
    }
}

/// The scan after it went through the window `chunk` from where it stands:
/// record by record, until the records end or the window is cut.
pub open spec fn scan_run(mode: Mode, chunk: Seq<u8>, scan: ScanView) -> ScanView
    decreases chunk.len() - scan.counter,
{
    match sight(chunk, scan.counter) {
        Sight::Cut => scan,
        Sight::End => ScanView { has_done: true, ..scan },
        Sight::Parcel(label) => scan_run(mode, chunk, take_in(mode, chunk, label, scan)),
    }
}

/// The scan after one window: an empty window ends the scan, any other is
/// gone through.
pub open spec fn transfer_spec(mode: Mode, chunk: Seq<u8>, scan: ScanView) -> ScanView {
    if chunk.len() == 0 {
        ScanView { has_done: true, ..scan }
    } else {
        scan_run(mode, chunk, scan)
    }
}

/// A scan gathers no more items from a window than the window has blocks
/// left.
pub proof fn lemma_scan_gathers_by_block(mode: Mode, chunk: Seq<u8>, scan: ScanView)
    requires
        scan.counter <= chunk.len(),
    ensures
        scan_run(mode, chunk, scan).items.len() <= scan.items.len() + (chunk.len()
            - scan.counter) / (BLOCK_SIZE as int),
        transfer_spec(mode, chunk, scan).items.len() <= scan.items.len() + (chunk.len()
            - scan.counter) / (BLOCK_SIZE as int),
    decreases chunk.len() - scan.counter,
{
    match sight(chunk, scan.counter) {
        Sight::Parcel(label) => {
            let next = take_in(mode, chunk, label, scan);
            lemma_scan_gathers_by_block(mode, chunk, next);
            assert(next.items.len() <= scan.items.len() + 1);
            let left = chunk.len() - scan.counter;
            let then = chunk.len() - next.counter;
            assert(then / (BLOCK_SIZE as int) + 1 <= left / (BLOCK_SIZE as int)) by {
                assert(left >= then + BLOCK_SIZE);
            }
        },
        _ => {},
    }
}

/// True if an item is of the kind that a scan in `mode` gathers: a scan that
/// only reads gathers items without an address, a scan that rebuilds items
/// with one.
pub open spec fn suits(mode: Mode, item: ItemView) -> bool {
    match (mode, item) {
        (Mode::Uninitialize, ItemView::WithoutAddress(_)) => true,
        (Mode::Initialize, ItemView::WithAddress(_, _)) => true,
        _ => false,
    }
}

/// A scan gathers items of its own kind only.
pub proof fn lemma_scan_gathers_its_kind(mode: Mode, chunk: Seq<u8>, scan: ScanView)
    requires
        forall|i: int| 0 <= i < scan.items.len() ==> suits(mode, #[trigger] scan.items[i]),
    ensures
        forall|i: int|
            0 <= i < scan_run(mode, chunk, scan).items.len() ==> suits(
                mode,
                #[trigger] scan_run(mode, chunk, scan).items[i],
            ),
        forall|i: int|
            0 <= i < transfer_spec(mode, chunk, scan).items.len() ==> suits(
                mode,
                #[trigger] transfer_spec(mode, chunk, scan).items[i],
            ),
    decreases chunk.len() - scan.counter,
{
    let end = scan_run(mode, chunk, scan);
    match sight(chunk, scan.counter) {
        Sight::Parcel(label) => {
            let next = take_in(mode, chunk, label, scan);
            assert forall|i: int| 0 <= i < next.items.len() implies suits(
                mode,
                #[trigger] next.items[i],
            ) by {
                if i < scan.items.len() {
                    assert(next.items[i] == scan.items[i]);
                }
            }
            lemma_scan_gathers_its_kind(mode, chunk, next);
            assert(end == scan_run(mode, chunk, next));
        },
        _ => {
            assert(end.items == scan.items);
        },
    }
    assert forall|i: int| 0 <= i < end.items.len() implies suits(mode, #[trigger] end.items[i]) by {}
    let after = transfer_spec(mode, chunk, scan);
    assert(after.items == end.items || after.items == scan.items);
    assert forall|i: int| 0 <= i < after.items.len() implies suits(
        mode,
        #[trigger] after.items[i],
    ) by {
        if after.items == scan.items {
            assert(suits(mode, scan.items[i]));
        } else {
            assert(suits(mode, end.items[i]));
        }
    }
}

} // verus!
