use vstd::prelude::*;
use crate::estate::farming::FarmingView;
use crate::godown::assembly_line::{
    assemble_spec,
    body_in_bounds,
    dismantle_spec,
    lemma_assemble_dismantle,
    package_blocks,
};
use crate::godown::def::{BLOCK_SIZE, GOOD_MAX_SIZE};
use crate::godown::disk::{delivered, fetched, written};
use crate::godown::ledger::{
    all_sound,
    blocks_of,
    book_of,
    image,
    lemma_book_of,
    lemma_image_len,
    lemma_push_keeps_offsets,
    lemma_record_in_image,
    lemma_update_keeps_offsets,
    lemma_update_overwrites,
    offset,
    Record,
};
use crate::godown::store::{placement, removal};

verus! {

/// True if the book `estate` and the disk of `records` speak of the same
/// records: each address of the book stands for the record of the same
/// number, with the blocks where the record lies, and is live exactly if the
/// record is.
pub open spec fn in_line(estate: FarmingView, records: Seq<Record>) -> bool {
    &&& all_sound(records)
    &&& estate.occupied.len() == records.len()
    &&& estate.edges.len() == records.len() + 1
    &&& forall|address: int|
        0 <= address <= records.len() ==> #[trigger] estate.edges[address] == blocks_of(
            records.take(address),
        )
    &&& forall|address: int|
        0 <= address < records.len() ==> #[trigger] estate.occupied[address]
            == (records[address] is Live)
}

/// A new book and an empty disk are in line.
pub proof fn lemma_fresh_in_line()
    ensures
        in_line(FarmingView::fresh(), Seq::empty()),
        image(Seq::empty()) == Seq::<u8>::empty(),
{
    assert(Seq::<Record>::empty().take(0) =~= Seq::<Record>::empty());
}

/// The book of sound records and the disk of these records are in line.
pub proof fn lemma_book_in_line(records: Seq<Record>)
    requires
        all_sound(records),
    ensures
        in_line(book_of(records), records),
        book_of(records).wf(blocks_of(records)),
{
    lemma_book_of(records, blocks_of(records));
}

/// Where book and disk are in line, the free land begins where the disk
/// ends.
pub proof fn lemma_in_line_frontier(estate: FarmingView, records: Seq<Record>)
    requires
        in_line(estate, records),
    ensures
        estate.frontier() == blocks_of(records),
        estate.frontier() * BLOCK_SIZE == image(records).len(),
{
    let total = records.len() as int;
    assert(records.take(total) =~= records);
    assert(estate.edges[total] == blocks_of(records.take(total)));
    lemma_image_len(records);
}

/// Where book and disk are in line, each estate is as large as its record
/// and begins where the record does.
pub proof fn lemma_in_line(estate: FarmingView, records: Seq<Record>, address: int)
    requires
        in_line(estate, records),
        0 <= address < records.len(),
    ensures
        estate.span(address as nat) == records[address].blocks(),
        estate.edges[address] * BLOCK_SIZE == offset(records, address),
        estate.is_live(address as nat) == (records[address] is Live),
{
    assert(records.take(address + 1).drop_last() =~= records.take(address));
    assert(estate.edges[address] == blocks_of(records.take(address)));
    assert(estate.edges[address + 1] == blocks_of(records.take(address + 1)));
    assert(estate.occupied[address] == (records[address] is Live));
}

/// The records after `good` was placed with the book `estate`: the new
/// record stands where the book says, in the place of a dead record of the
/// same span or at the end.
pub open spec fn placed(estate: FarmingView, records: Seq<Record>, good: Seq<u8>) -> Seq<Record> {
    let address = estate.allotted(package_blocks(good.len()));
    if address < records.len() {
        records.update(address as int, Record::Live(good))
    } else {
        records.push(Record::Live(good))
    }
}

/// The records after the record of `address` was removed with the book
/// `estate`: a tombstone of the same span stands in its place.
pub open spec fn removed(estate: FarmingView, records: Seq<Record>, address: nat) -> Seq<Record> {
    records.update(address as int, Record::Dead(estate.span(address)))
}

/// Placing keeps book and disk in line: once the order of `place` is
/// carried out, the disk holds the records as they were, but for the new
/// one, which lies where the book says.
pub proof fn lemma_place_keeps_in_line(
    estate: FarmingView,
    records: Seq<Record>,
    good: Seq<u8>,
    limit: nat,
)
    requires
        estate.wf(limit),
        in_line(estate, records),
        0 < good.len() <= GOOD_MAX_SIZE,
        estate.can_allot(package_blocks(good.len()), limit),
    ensures
        ({
            let blocks = package_blocks(good.len());
            let next = estate.allot(blocks);
            &&& in_line(next, placed(estate, records, good))
            &&& delivered(image(records), placement(next, estate.allotted(blocks), good))
                == image(placed(estate, records, good))
        }),
{
    reveal(Record::pack);
    let blocks = package_blocks(good.len());
    let address = estate.allotted(blocks);
    let next = estate.allot(blocks);
    let record = Record::Live(good);
    let after = placed(estate, records, good);
    let total = records.len() as int;
    record.lemma_pack();
    lemma_in_line_frontier(estate, records);
    if estate.retained.contains_key(blocks) {
        estate.lemma_reuse(blocks, limit);
        lemma_in_line(estate, records, address as int);
        lemma_update_overwrites(records, address as int, record);
        assert forall|other: int| 0 <= other <= after.len() implies #[trigger] next.edges[other]
            == blocks_of(after.take(other)) by {
            lemma_update_keeps_offsets(records, address as int, record, other);
        }
    } else {
        lemma_push_keeps_offsets(records, record, total);
        assert(after.take(total + 1) =~= after);
        assert forall|other: int| 0 <= other <= after.len() implies #[trigger] next.edges[other]
            == blocks_of(after.take(other)) by {
            if other <= total {
                lemma_push_keeps_offsets(records, record, other);
            }
        }
        assert forall|i: int| 0 <= i < after.len() implies (#[trigger] after[i]).is_sound() by {
            if i < total {
                assert(records[i].is_sound());
            }
        }
        assert(written(image(records), image(records).len(), record.pack()) =~= image(records)
            + record.pack());
    }
}

/// Removing keeps book and disk in line: once the order of `remove` is
/// carried out, the disk holds the records as they were, but for a
/// tombstone in the place of the record removed.
pub proof fn lemma_remove_keeps_in_line(
    estate: FarmingView,
    records: Seq<Record>,
    address: nat,
    limit: nat,
)
    requires
        estate.wf(limit),
        in_line(estate, records),
        estate.is_live(address),
    ensures
        in_line(estate.retain(address), removed(estate, records, address)),
        delivered(image(records), removal(estate, address)) == image(
            removed(estate, records, address),
        ),
{
    reveal(Record::pack);
    let record = Record::Dead(estate.span(address));
    let after = removed(estate, records, address);
    let next = estate.retain(address);
    lemma_in_line(estate, records, address as int);
    records[address as int].lemma_pack();
    lemma_update_overwrites(records, address as int, record);
    assert forall|other: int| 0 <= other <= after.len() implies #[trigger] next.edges[other]
        == blocks_of(after.take(other)) by {
        lemma_update_keeps_offsets(records, address as int, record, other);
    }
}

/// Where book and disk are in line, the bytes read where the book says the
/// record of a live address lies are the package of the payload placed
/// there, and taking them apart gives the payload.
pub proof fn lemma_get_reads_record(estate: FarmingView, records: Seq<Record>, address: nat)
    requires
        in_line(estate, records),
        estate.is_live(address),
    ensures
        records[address as int] is Live,
        ({
            let read = fetched(
                image(records),
                estate.edges[address as int] * (BLOCK_SIZE as nat),
                estate.span(address) * (BLOCK_SIZE as nat),
            );
            &&& read == assemble_spec(records[address as int]->Live_0)
            &&& body_in_bounds(read)
            &&& dismantle_spec(read) == Some(records[address as int]->Live_0)
        }),
{
    reveal(Record::pack);
    let record = records[address as int];
    lemma_in_line(estate, records, address as int);
    record.lemma_pack();
    lemma_record_in_image(records, address as int);
    lemma_assemble_dismantle(record->Live_0);
    let read = fetched(
        image(records),
        estate.edges[address as int] * (BLOCK_SIZE as nat),
        estate.span(address) * (BLOCK_SIZE as nat),
    );
    assert(read =~= image(records).subrange(
        offset(records, address as int) as int,
        offset(records, address as int + 1) as int,
    ));
}

/// Place, then get. Whatever the disk held: once the order of `place` is
/// carried out, the bytes read where the book says the new record lies are
/// a consistent package, and taking it apart gives the payload placed,
/// unchanged.
pub proof fn lemma_place_then_get(estate: FarmingView, disk: Seq<u8>, good: Seq<u8>, limit: nat)
    requires
        estate.wf(limit),
        0 < good.len() <= GOOD_MAX_SIZE,
        estate.can_allot(package_blocks(good.len()), limit),
    ensures
        ({
            let blocks = package_blocks(good.len());
            let address = estate.allotted(blocks);
            let next = estate.allot(blocks);
            let read = fetched(
                delivered(disk, placement(next, address, good)),
                next.edges[address as int] * (BLOCK_SIZE as nat),
                next.span(address) * (BLOCK_SIZE as nat),
            );
            &&& next.is_live(address)
            &&& read == assemble_spec(good)
            &&& body_in_bounds(read)
            &&& dismantle_spec(read) == Some(good)
        }),
{
    let blocks = package_blocks(good.len());
    let address = estate.allotted(blocks);
    let next = estate.allot(blocks);
    estate.lemma_allot_is_fresh(blocks, limit);
    lemma_assemble_dismantle(good);
    crate::godown::disk::lemma_fetch_what_was_written(
        disk,
        next.edges[address as int] * (BLOCK_SIZE as nat),
        assemble_spec(good),
    );
}

/// Delete, then reuse. Once a record is removed, its address has no
/// location; and the next payload whose package spans as many blocks is
/// placed at that address, where the record lay.
pub proof fn lemma_remove_then_place_reuses(
    estate: FarmingView,
    address: nat,
    good: Seq<u8>,
    limit: nat,
)
    requires
        estate.wf(limit),
        estate.is_live(address),
        package_blocks(good.len()) == estate.span(address),
    ensures
        ({
            let gone = estate.retain(address);
            let back = gone.allot(estate.span(address));
            &&& gone.wf(limit)
            &&& gone.location(address) is None
            &&& gone.allotted(estate.span(address)) == address
            &&& back.wf(limit)
            &&& back.location(address) == estate.location(address)
            &&& back.size(address) == estate.size(address)
            &&& placement(back, address, good).pointer == removal(estate, address).pointer
        }),
{
    let gone = estate.retain(address);
    estate.lemma_retain_frees(address, limit);
    gone.lemma_reuse(estate.span(address), limit);
}

} // verus!
