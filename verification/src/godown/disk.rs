use vstd::prelude::*;
use crate::godown::def::Package;

verus! {

/// An order to the disk: `package` is to be written at byte `pointer`. The
/// store decides what is written and where; whoever holds the file carries
/// the order out.
pub struct Shipment {
    pub pointer: usize,
    pub package: Package,
}

/// A shipment as plain values.
pub struct ShipmentView {
    pub pointer: nat,
    pub package: Seq<u8>,
}

impl View for Shipment {
    type V = ShipmentView;

    open spec fn view(&self) -> ShipmentView {
        ShipmentView { pointer: self.pointer as nat, package: self.package@ }
    }
}

/// The shipments of `shipments` as plain values.
pub open spec fn shipments_view(shipments: Seq<Shipment>) -> Seq<ShipmentView> {
    shipments.map_values(|shipment: Shipment| shipment@)
}

/// The disk after `data` was written at byte `pointer`: the bytes of `data`
/// lie there, the other bytes are as before, and a gap between the old end
/// and `pointer` reads as zeros.
pub open spec fn written(disk: Seq<u8>, pointer: nat, data: Seq<u8>) -> Seq<u8> {
    Seq::new(
        if disk.len() >= pointer + data.len() {
            disk.len()
        } else {
            pointer + data.len()
        },
        |i: int|
            if pointer <= i < pointer + data.len() {
                data[i - pointer]
            } else if i < disk.len() {
                disk[i]
            } else {
                0u8
            },
    )
}

/// The disk after `shipment` was carried out.
pub open spec fn delivered(disk: Seq<u8>, shipment: ShipmentView) -> Seq<u8> {
    written(disk, shipment.pointer, shipment.package)
}

/// What a read of `len` bytes at byte `pointer` gives: nothing where the disk
/// ends at or before `pointer`, and else `len` bytes, of which those past the
/// end of the disk are zeros.
pub open spec fn fetched(disk: Seq<u8>, pointer: nat, len: nat) -> Seq<u8> {
    if pointer >= disk.len() {
        Seq::empty()
    } else {
        Seq::new(
            len,
            |i: int|
                if pointer + i < disk.len() {
                    disk[pointer + i]
                } else {
                    0u8
                },
        )
    }
}

/// What was written is what a read of the same span gives.
pub proof fn lemma_fetch_what_was_written(disk: Seq<u8>, pointer: nat, data: Seq<u8>)
    requires
        data.len() > 0,
    ensures
        fetched(written(disk, pointer, data), pointer, data.len()) == data,
{
    assert(fetched(written(disk, pointer, data), pointer, data.len()) =~= data);
}

/// A write leaves every span that lies wholly before or wholly after it as
/// it was, as far as the disk reached.
pub proof fn lemma_write_keeps_other_spans(
    disk: Seq<u8>,
    pointer: nat,
    data: Seq<u8>,
    at: nat,
    len: nat,
)
    requires
        at + len <= pointer || pointer + data.len() <= at,
        at + len <= disk.len(),
    ensures
        written(disk, pointer, data).subrange(at as int, (at + len) as int) == disk.subrange(
            at as int,
            (at + len) as int,
        ),
{
    assert(written(disk, pointer, data).subrange(at as int, (at + len) as int)
        =~= disk.subrange(at as int, (at + len) as int));
}

} // verus!
