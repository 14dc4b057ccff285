use vstd::prelude::*;
use crate::godown::assembly_line::{
    assemble_spec,
    body_in_bounds,
    label_of,
    lemma_assemble_dismantle,
    lemma_package_blocks,
    package_blocks,
    zeros,
};
use crate::estate::farming::FarmingView;
use crate::godown::def::{Address, ItemView, BLOCK_SIZE, GOOD_MAX_SIZE};
use crate::godown::disk::written;
use crate::godown::flag::FlagType;
use crate::godown::labeller::{
    header_bytes,
    lemma_header_round_trip,
    parse_header,
    LabelInfo,
    HEADER_SIZE,
};
use crate::godown::scan::contents;
use crate::godown::store::tombstone_spec;

verus! {

/// Largest number of blocks that the record of a payload within the size
/// limit spans.
pub const RECORD_BLOCKS_MAX: usize = 129;

/// One record of the disk: a payload that was placed, or the tombstone of a
/// record of so many blocks that was removed.
pub enum Record {
    Live(Seq<u8>),
    Dead(nat),
}

impl Record {
    /// True if the store can have written this record: a payload is not empty
    /// and within the size limit, and a tombstone spans at least one block and
    /// no more than a payload's record can.
    pub open spec fn is_sound(self) -> bool {
        match self {
            Record::Live(good) => 0 < good.len() <= GOOD_MAX_SIZE,
            Record::Dead(blocks) => 0 < blocks <= RECORD_BLOCKS_MAX,
        }
    }

    /// Number of blocks that this record spans.
    pub open spec fn blocks(self) -> nat {
        match self {
            Record::Live(good) => package_blocks(good.len()),
            Record::Dead(blocks) => blocks,
        }
    }

    /// The bytes of this record on disk.
    #[verifier::opaque]
    pub open spec fn pack(self) -> Seq<u8> {
        match self {
            Record::Live(good) => assemble_spec(good),
            Record::Dead(blocks) => tombstone_spec(blocks),
        }
    }

    /// The header of this record.
    pub open spec fn label(self) -> LabelInfo {
        match self {
            Record::Live(good) => label_of(good.len()),
            Record::Dead(blocks) => LabelInfo {
                block_count: blocks as u16,
                flag_type: FlagType::Delete,
                good_len: 0,
            },
        }
    }

    /// A sound record fills its blocks, begins with its header, and holds its
    /// payload if it is live and none if it is dead.
    pub proof fn lemma_pack(self)
        requires
            self.is_sound(),
        ensures
            0 < self.blocks() <= RECORD_BLOCKS_MAX,
            self.pack().len() == self.blocks() * BLOCK_SIZE,
            parse_header(self.pack()) == self.label(),
            self.label().block_count == self.blocks(),
            contents(self.pack()) == (match self {
                Record::Live(good) => Some(good),
                Record::Dead(_) => None,
            }),
    {
        reveal(Record::pack);
        match self {
            Record::Live(good) => {
                lemma_package_blocks(good.len());
                lemma_assemble_dismantle(good);
            },
            Record::Dead(blocks) => {
                lemma_tombstone(blocks);
            },
        }
    }
}

/// A tombstone fills its blocks, begins with a header that declares them
/// and the flag of a removed record, and holds no payload.
pub proof fn lemma_tombstone(blocks: nat)
    requires
        0 < blocks <= RECORD_BLOCKS_MAX,
    ensures
        tombstone_spec(blocks).len() == blocks * BLOCK_SIZE,
        parse_header(tombstone_spec(blocks)) == (LabelInfo {
            block_count: blocks as u16,
            flag_type: FlagType::Delete,
            good_len: 0,
        }),
        contents(tombstone_spec(blocks)) is None,
{
    let info = LabelInfo { block_count: blocks as u16, flag_type: FlagType::Delete, good_len: 0 };
    let rest = zeros((blocks * BLOCK_SIZE - HEADER_SIZE) as nat);
    lemma_header_round_trip(info, rest);
    let package = tombstone_spec(blocks);
    assert(package == header_bytes(info) + rest);
    assert(package.len() == blocks * BLOCK_SIZE);
    assert(parse_header(package).good_len == 0);
    assert(body_in_bounds(package));
    assert(crate::godown::assembly_line::declared_body(package).len() == 0);
}

/// True if every record of `records` is sound.
pub open spec fn all_sound(records: Seq<Record>) -> bool {
    forall|i: int| 0 <= i < records.len() ==> (#[trigger] records[i]).is_sound()
}

/// The disk that holds `records` one after the other, and nothing else.
pub open spec fn image(records: Seq<Record>) -> Seq<u8>
    decreases records.len(),
{
    if records.len() == 0 {
        Seq::empty()
    } else {
        image(records.drop_last()) + records.last().pack()
    }
}

/// Number of blocks that `records` take together.
pub open spec fn blocks_of(records: Seq<Record>) -> nat
    decreases records.len(),
{
    if records.len() == 0 {
        0
    } else {
        blocks_of(records.drop_last()) + records.last().blocks()
    }
}

/// The payloads of the live records of `records`, in their order, each as
/// an item without an address.
pub open spec fn goods(records: Seq<Record>) -> Seq<ItemView>
    decreases records.len(),
{
    if records.len() == 0 {
        Seq::empty()
    } else {
        match records.last() {
            Record::Live(good) => goods(records.drop_last()).push(ItemView::WithoutAddress(good)),
            Record::Dead(_) => goods(records.drop_last()),
        }
    }
}

/// The byte at which record `index` begins on the disk of `records`.
pub open spec fn offset(records: Seq<Record>, index: int) -> nat {
    blocks_of(records.take(index)) * (BLOCK_SIZE as nat)
}

/// The disk of sound records is as long as their blocks are.
pub proof fn lemma_image_len(records: Seq<Record>)
    requires
        all_sound(records),
    ensures
        image(records).len() == blocks_of(records) * BLOCK_SIZE,
    decreases records.len(),
{
    if records.len() > 0 {
        lemma_image_len(records.drop_last());
        records.last().lemma_pack();
        assert((blocks_of(records.drop_last()) + records.last().blocks()) * BLOCK_SIZE
            == blocks_of(records.drop_last()) * BLOCK_SIZE + records.last().blocks() * BLOCK_SIZE)
            by (nonlinear_arith);
    }
}

/// The records up to `index` take no more blocks than those up to a later
/// index, and more if a record lies between.
pub proof fn lemma_offsets_grow(records: Seq<Record>, index: int, later: int)
    requires
        all_sound(records),
        0 <= index <= later <= records.len(),
    ensures
        blocks_of(records.take(index)) <= blocks_of(records.take(later)),
        index < later ==> blocks_of(records.take(index)) + records[index].blocks() <= blocks_of(
            records.take(later),
        ),
        offset(records, index) <= offset(records, later),
    decreases later - index,
{
    if index < later {
        assert(records.take(later).drop_last() =~= records.take(later - 1));
        records[later - 1].lemma_pack();
        lemma_offsets_grow(records, index, later - 1);
        let low = blocks_of(records.take(index));
        let high = blocks_of(records.take(later));
        assert(low * BLOCK_SIZE <= high * BLOCK_SIZE) by (nonlinear_arith)
            requires
                low <= high,
        ;
    }
}

/// On the disk of sound records, each record lies at its offset.
pub proof fn lemma_record_in_image(records: Seq<Record>, index: int)
    requires
        all_sound(records),
        0 <= index < records.len(),
    ensures
        offset(records, index) + records[index].pack().len() == offset(records, index + 1),
        offset(records, index + 1) <= image(records).len(),
        image(records).subrange(
            offset(records, index) as int,
            offset(records, index + 1) as int,
        ) == records[index].pack(),
    decreases records.len(),
{
    let last = records.len() - 1;
    let front = records.drop_last();
    lemma_image_len(front);
    lemma_image_len(records);
    records[last].lemma_pack();
    records[index].lemma_pack();
    assert(records.take(index + 1).drop_last() =~= records.take(index));
    assert((blocks_of(records.take(index)) + records[index].blocks()) * BLOCK_SIZE == blocks_of(
        records.take(index),
    ) * BLOCK_SIZE + records[index].blocks() * BLOCK_SIZE) by (nonlinear_arith);
    if index == last {
        assert(records.take(index) =~= front);
        assert(records.take(index + 1) =~= records);
        assert(image(records).subrange(
            offset(records, index) as int,
            offset(records, index + 1) as int,
        ) =~= records[index].pack());
    } else {
        assert(all_sound(front));
        lemma_record_in_image(front, index);
        assert(front.take(index) =~= records.take(index));
        assert(front.take(index + 1) =~= records.take(index + 1));
        assert(image(records).subrange(
            offset(records, index) as int,
            offset(records, index + 1) as int,
        ) =~= image(front).subrange(
            offset(front, index) as int,
            offset(front, index + 1) as int,
        ));
    }
}

/// A record added at the end does not move the records before it.
pub proof fn lemma_push_keeps_offsets(records: Seq<Record>, record: Record, index: int)
    requires
        0 <= index <= records.len(),
    ensures
        blocks_of(records.push(record).take(index)) == blocks_of(records.take(index)),
        blocks_of(records.push(record)) == blocks_of(records) + record.blocks(),
        image(records.push(record)) == image(records) + record.pack(),
{
    assert(records.push(record).take(index) =~= records.take(index));
    assert(records.push(record).drop_last() =~= records);
}

/// A record put in the place of one with as many blocks does not move any
/// record.
pub proof fn lemma_update_keeps_offsets(
    records: Seq<Record>,
    at: int,
    record: Record,
    index: int,
)
    requires
        0 <= at < records.len(),
        record.blocks() == records[at].blocks(),
        0 <= index <= records.len(),
    ensures
        blocks_of(records.update(at, record).take(index)) == blocks_of(records.take(index)),
    decreases index,
{
    let changed = records.update(at, record);
    if index > 0 {
        lemma_update_keeps_offsets(records, at, record, index - 1);
        assert(changed.take(index).drop_last() =~= changed.take(index - 1));
        assert(records.take(index).drop_last() =~= records.take(index - 1));
    }
}

/// The disk after a record was put in the place of one with as many blocks
/// is the disk before, overwritten with the new record where the old one
/// lay.
pub proof fn lemma_update_overwrites(records: Seq<Record>, at: int, record: Record)
    requires
        all_sound(records),
        0 <= at < records.len(),
        record.is_sound(),
        record.blocks() == records[at].blocks(),
    ensures
        all_sound(records.update(at, record)),
        image(records.update(at, record)) == written(
            image(records),
            offset(records, at),
            record.pack(),
        ),
    decreases records.len(),
{
    let changed = records.update(at, record);
    let last = records.len() - 1;
    let front = records.drop_last();
    record.lemma_pack();
    records[at].lemma_pack();
    records[last].lemma_pack();
    lemma_image_len(front);
    lemma_image_len(records);
    lemma_record_in_image(records, at);
    assert(all_sound(changed)) by {
        assert forall|i: int| 0 <= i < changed.len() implies (#[trigger] changed[i]).is_sound() by {
            if i != at {
                assert(records[i].is_sound());
            }
        }
    }
    if at == last {
        assert(changed.drop_last() =~= front);
        assert(records.take(at) =~= front);
        assert(image(changed) =~= written(image(records), offset(records, at), record.pack()));
    } else {
        assert(all_sound(front));
        lemma_update_overwrites(front, at, record);
        assert(changed.drop_last() =~= front.update(at, record));
        assert(front.take(at) =~= records.take(at));
        assert(front.take(at + 1) =~= records.take(at + 1));
        lemma_record_in_image(front, at);
        assert(image(changed) =~= written(image(records), offset(records, at), record.pack()));
    }
}

/// The payloads of the live records of `records`, in their order, each as
/// an item with the number of its record as address.
pub open spec fn addressed_goods(records: Seq<Record>) -> Seq<ItemView>
    decreases records.len(),
{
    if records.len() == 0 {
        Seq::empty()
    } else {
        match records.last() {
            Record::Live(good) => addressed_goods(records.drop_last()).push(
                ItemView::WithAddress((records.len() - 1) as Address, good),
            ),
            Record::Dead(_) => addressed_goods(records.drop_last()),
        }
    }
}

/// The book that speaks of `records`: each record has the address of its
/// number and the blocks where it lies, and the address of every dead
/// record is retained, in the order of the records.
pub open spec fn book_of(records: Seq<Record>) -> FarmingView
    decreases records.len(),
{
    if records.len() == 0 {
        FarmingView::fresh()
    } else {
        let grown = book_of(records.drop_last()).extend(records.last().blocks());
        match records.last() {
            Record::Live(_) => grown,
            Record::Dead(_) => grown.retain((records.len() - 1) as nat),
        }
    }
}

/// The book of sound records that end within `limit` is in order, has an
/// address for each record, and its free land begins where the records end.
pub proof fn lemma_book_of(records: Seq<Record>, limit: nat)
    requires
        all_sound(records),
        blocks_of(records) <= limit,
    ensures
        book_of(records).wf(limit),
        book_of(records).count() == records.len(),
        book_of(records).edges.len() == records.len() + 1,
        book_of(records).frontier() == blocks_of(records),
        forall|address: int|
            0 <= address <= records.len() ==> #[trigger] book_of(records).edges[address]
                == blocks_of(records.take(address)),
        forall|address: int|
            0 <= address < records.len() ==> #[trigger] book_of(records).occupied[address]
                == (records[address] is Live),
    decreases records.len(),
{
    let book = book_of(records);
    if records.len() == 0 {
        assert(records.take(0) =~= records);
    } else {
        let front = records.drop_last();
        let last = records.len() - 1;
        let before = book_of(front);
        let blocks = records.last().blocks();
        records.last().lemma_pack();
        assert(all_sound(front));
        lemma_book_of(front, limit);
        before.lemma_extend(blocks, limit);
        let grown = before.extend(blocks);
        if records.last() is Dead {
            grown.lemma_retain_frees(last as nat, limit);
        }
        assert(book.edges == grown.edges);
        assert(records.take(records.len() as int) =~= records);
        assert forall|address: int| 0 <= address <= records.len() implies #[trigger] book.edges[address]
            == blocks_of(records.take(address)) by {
            if address <= last {
                assert(front.take(address) =~= records.take(address));
                assert(before.edges[address] == blocks_of(front.take(address)));
            }
        }
        assert forall|address: int| 0 <= address < records.len() implies #[trigger] book.occupied[address]
            == (records[address] is Live) by {
            if address < last {
                assert(before.occupied[address] == (front[address] is Live));
            }
        }
    }
}

} // verus!
