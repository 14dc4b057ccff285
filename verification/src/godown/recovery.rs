use vstd::prelude::*;
use crate::estate::farming::FarmingView;
use crate::godown::def::{ItemView, BLOCK_SIZE, CHUNK_SIZE};
use crate::godown::disk::{delivered, fetched, ShipmentView};
use crate::godown::labeller::{lemma_header_is_seven_bytes, parse_header, HEADER_SIZE};
use crate::godown::ledger::{
    addressed_goods,
    all_sound,
    blocks_of,
    book_of,
    goods,
    lemma_book_of,
    image,
    lemma_image_len,
    lemma_offsets_grow,
    lemma_record_in_image,
    offset,
    Record,
};
use crate::godown::logistics::{LogisticsView, Mode};
use crate::godown::scan::{scan_run, sight, take_in, transfer_spec, ScanView, Sight};
use crate::godown::store::{cursor_after, scan_start};

verus! {

/// The window that a scan whose cursor stands at byte `pointer` is given.
pub open spec fn window(disk: Seq<u8>, pointer: nat) -> Seq<u8> {
    fetched(disk, pointer, CHUNK_SIZE as nat)
}

/// The scan of the window that the disk holds where `cursor` stands.
pub open spec fn round(disk: Seq<u8>, estate: FarmingView, cursor: LogisticsView) -> ScanView {
    transfer_spec(cursor.mode, window(disk, cursor.pointer), scan_start(estate, cursor))
}

/// The disk after `orders` were carried out, one after the other.
pub open spec fn carried_out(disk: Seq<u8>, orders: Seq<ShipmentView>) -> Seq<u8>
    decreases orders.len(),
{
    if orders.len() == 0 {
        disk
    } else {
        delivered(carried_out(disk, orders.drop_last()), orders.last())
    }
}

/// Where a session stands: what the disk holds, what the book says, and
/// the cursor.
pub struct Session {
    pub disk: Seq<u8>,
    pub estate: FarmingView,
    pub cursor: LogisticsView,
}

/// The session after a run of windows: window after window is scanned,
/// each where the cursor stands after the one before, and the orders of
/// each scan are carried out before the next, until the scan is done, and
/// for no more than `rounds` windows. The cursor keeps what it gathers.
pub open spec fn survey(session: Session, rounds: nat) -> Session
    decreases rounds,
{
    if rounds == 0 || session.cursor.has_done {
        session
    } else {
        let end = round(session.disk, session.estate, session.cursor);
        survey(
            Session {
                disk: carried_out(session.disk, end.orders),
                estate: end.estate,
                cursor: cursor_after(session.cursor, end),
            },
            (rounds - 1) as nat,
        )
    }
}

/// The bytes of a window are those of the disk from the pointer on, and
/// zeros where the disk has ended.
proof fn lemma_window(disk: Seq<u8>, pointer: nat)
    requires
        pointer < disk.len(),
    ensures
        window(disk, pointer).len() == CHUNK_SIZE,
        forall|t: int|
            0 <= t < CHUNK_SIZE ==> #[trigger] window(disk, pointer)[t] == (if pointer + t
                < disk.len() {
                disk[pointer + t]
            } else {
                0u8
            }),
{
}

/// Where the records of a disk lie: record `from` begins before the disk
/// ends, record `at` begins where the records before it end, and the disk
/// ends where the last record does.
proof fn lemma_layout(records: Seq<Record>, from: int, at: int)
    requires
        all_sound(records),
        0 <= from <= at <= records.len(),
        from < records.len(),
    ensures
        offset(records, from) < image(records).len(),
        offset(records, from) <= offset(records, at) <= image(records).len(),
        at == records.len() ==> offset(records, at) == image(records).len(),
        at < records.len() ==> {
            &&& 0 < records[at].blocks() <= crate::godown::ledger::RECORD_BLOCKS_MAX
            &&& records[at].pack().len() == records[at].blocks() * BLOCK_SIZE
            &&& offset(records, at) + records[at].pack().len() == offset(records, at + 1)
            &&& offset(records, at + 1) <= image(records).len()
            &&& image(records).subrange(
                offset(records, at) as int,
                offset(records, at + 1) as int,
            ) == records[at].pack()
        },
{
    let total = records.len() as int;
    lemma_image_len(records);
    lemma_offsets_grow(records, from, at);
    lemma_offsets_grow(records, at, total);
    lemma_record_in_image(records, from);
    records[from].lemma_pack();
    assert(records.take(total) =~= records);
    if at < total {
        records[at].lemma_pack();
        lemma_record_in_image(records, at);
    }
}

/// What a scan meets in the window that begins at record `from`, where
/// record `at` begins or the records end: the end of the records, or the
/// record with its header and all its bytes if it ends before the window
/// does.
proof fn lemma_sight(records: Seq<Record>, from: int, at: int, counter: nat)
    requires
        all_sound(records),
        0 <= from <= at <= records.len(),
        from < records.len(),
        counter == offset(records, at) - offset(records, from),
        counter + BLOCK_SIZE <= CHUNK_SIZE,
    ensures
        ({
            let chunk = window(image(records), offset(records, from));
            if at == records.len() {
                sight(chunk, counter) is End
            } else {
                let len = records[at].blocks() * (BLOCK_SIZE as nat);
                if counter + len >= CHUNK_SIZE {
                    sight(chunk, counter) is Cut
                } else {
                    &&& sight(chunk, counter) == Sight::Parcel(records[at].label())
                    &&& chunk.subrange(counter as int, (counter + len) as int)
                        == records[at].pack()
                }
            }
        }),
{
    let disk = image(records);
    let start = offset(records, from);
    let here = offset(records, at);
    let chunk = window(disk, start);
    lemma_layout(records, from, at);
    lemma_window(disk, start);
    let seen = chunk.subrange(counter as int, chunk.len() as int);
    if at == records.len() {
        assert forall|t: int| 0 <= t < HEADER_SIZE implies seen[t] == 0u8 by {
            assert(seen[t] == chunk[counter + t]);
        }
        assert(parse_header(seen).block_count == 0);
    } else {
        let record = records[at];
        record.lemma_pack();
        let pack = record.pack();
        let lies = disk.subrange(here as int, offset(records, at + 1) as int);
        assert(lies == pack);
        assert forall|t: int| 0 <= t < pack.len() && counter + t < CHUNK_SIZE implies chunk[counter
            + t] == pack[t] by {
            assert(lies[t] == disk[here + t]);
        }
        assert forall|t: int| 0 <= t < HEADER_SIZE implies seen[t] == pack[t] by {
            assert(seen[t] == chunk[counter + t]);
        }
        lemma_header_is_seven_bytes(seen, pack);
        if counter + pack.len() < CHUNK_SIZE {
            let package = chunk.subrange(counter as int, (counter + pack.len()) as int);
            assert(package =~= pack);
        }
    }
}

/// A scan that only reads, within the window that begins at record `from`
/// and standing at record `at`, goes on to some record `to`: it gathers the
/// payloads of the live records between, and is done if `to` is the end of
/// the records. From the start of a window it gets past one record at
/// least.
proof fn lemma_walk(
    records: Seq<Record>,
    from: int,
    at: int,
    base: Seq<ItemView>,
    scan: ScanView,
) -> (to: int)
    requires
        all_sound(records),
        0 <= from <= at <= records.len(),
        from < records.len(),
        scan.counter == offset(records, at) - offset(records, from),
        scan.counter + BLOCK_SIZE <= CHUNK_SIZE,
        scan.items == base + goods(records.take(at)),
    ensures
        at <= to <= records.len(),
        at == from ==> to > from,
        scan_run(
            Mode::Uninitialize,
            window(image(records), offset(records, from)),
            scan,
        ) == (ScanView {
            counter: (offset(records, to) - offset(records, from)) as nat,
            items: base + goods(records.take(to)),
            has_done: scan.has_done || to == records.len(),
            ..scan
        }),
    decreases records.len() - at,
{
    let chunk = window(image(records), offset(records, from));
    let total = records.len() as int;
    lemma_sight(records, from, at, scan.counter);
    if at == total {
        at
    } else {
        let record = records[at];
        record.lemma_pack();
        let len = record.blocks() * (BLOCK_SIZE as nat);
        if scan.counter + len >= CHUNK_SIZE {
            at
        } else {
            let next = take_in(Mode::Uninitialize, chunk, record.label(), scan);
            assert(records.take(at + 1).drop_last() =~= records.take(at));
            assert(records.take(at + 1).last() == record);
            assert(next.items =~= base + goods(records.take(at + 1)));
            lemma_offsets_grow(records, from, at);
            lemma_offsets_grow(records, from, at + 1);
            let gone = blocks_of(records.take(at + 1)) - blocks_of(records.take(from));
            assert(next.counter == gone * BLOCK_SIZE) by (nonlinear_arith)
                requires
                    next.counter == scan.counter + record.blocks() * BLOCK_SIZE,
                    scan.counter == blocks_of(records.take(at)) * BLOCK_SIZE - blocks_of(
                        records.take(from),
                    ) * BLOCK_SIZE,
                    blocks_of(records.take(at + 1)) == blocks_of(records.take(at))
                        + record.blocks(),
                    gone == blocks_of(records.take(at + 1)) - blocks_of(records.take(from)),
            ;
            assert(next.counter == blocks_of(records.take(at + 1)) * BLOCK_SIZE - blocks_of(
                records.take(from),
            ) * BLOCK_SIZE) by (nonlinear_arith)
                requires
                    next.counter == gone * BLOCK_SIZE,
                    gone == blocks_of(records.take(at + 1)) - blocks_of(records.take(from)),
            ;
            lemma_walk(records, from, at + 1, base, next)
        }
    }
}

/// A session that only reads and stands at record `from`, not done, is done
/// after as many windows as there are records left and one more, and has
/// then gathered the payloads of all live records from `from` on.
proof fn lemma_rounds(
    records: Seq<Record>,
    estate: FarmingView,
    from: int,
    base: Seq<ItemView>,
    cursor: LogisticsView,
    rounds: nat,
)
    requires
        all_sound(records),
        0 <= from <= records.len(),
        cursor.mode is Uninitialize,
        !cursor.has_done,
        cursor.pointer == offset(records, from),
        cursor.items == base + goods(records.take(from)),
        rounds > records.len() - from,
    ensures
        survey(Session { disk: image(records), estate, cursor }, rounds) == (Session {
            disk: image(records),
            estate,
            cursor: LogisticsView {
                pointer: image(records).len(),
                items: base + goods(records),
                has_done: true,
                ..cursor
            },
        }),
    decreases records.len() - from,
{
    let disk = image(records);
    let total = records.len() as int;
    let start = scan_start(estate, cursor);
    let end = round(disk, estate, cursor);
    let next = Session {
        disk: carried_out(disk, end.orders),
        estate: end.estate,
        cursor: cursor_after(cursor, end),
    };
    assert(records.take(total) =~= records);
    if from == total {
        lemma_image_len(records);
        assert(window(disk, cursor.pointer).len() == 0);
        assert(survey(next, (rounds - 1) as nat) == next);
    } else {
        lemma_layout(records, from, from);
        lemma_window(disk, cursor.pointer);
        let to = lemma_walk(records, from, from, base, start);
        lemma_layout(records, from, to);
        if to == total {
            assert(survey(next, (rounds - 1) as nat) == next);
        } else {
            lemma_rounds(records, estate, to, base, next.cursor, (rounds - 1) as nat);
        }
    }
}

/// Chunked scan completeness. On a disk that holds sound records and
/// nothing else, a session that only reads is done after at most one window
/// more than there are records, whatever the sizes of the records, and has
/// then gathered the payload of every live record, once, unchanged, in the
/// order of the disk. The disk and the book of the store are as they were.
pub proof fn lemma_survey_finds_every_good(
    records: Seq<Record>,
    estate: FarmingView,
    rounds: nat,
)
    requires
        all_sound(records),
        rounds > records.len(),
    ensures
        survey(
            Session {
                disk: image(records),
                estate,
                cursor: LogisticsView::fresh(Mode::Uninitialize),
            },
            rounds,
        ) == (Session {
            disk: image(records),
            estate,
            cursor: LogisticsView {
                pointer: image(records).len(),
                items: goods(records),
                has_done: true,
                ..LogisticsView::fresh(Mode::Uninitialize)
            },
        }),
{
    let cursor = LogisticsView::fresh(Mode::Uninitialize);
    let base = Seq::<ItemView>::empty();
    assert(records.take(0) =~= Seq::<Record>::empty());
    assert(base + goods(records.take(0)) =~= cursor.items);
    assert(base + goods(records) =~= goods(records));
    lemma_rounds(records, estate, 0, base, cursor, rounds);
}

/// A scan that rebuilds, within the window that begins at record `from` and
/// standing at record `at` with the book of the records before, goes on to
/// some record `to`: it has then the book of the records before `to`, has
/// gathered the payloads of the live records between with their addresses,
/// has given no order, and is done if `to` is the end of the records. From
/// the start of a window it gets past one record at least.
proof fn lemma_walk_rebuild(
    records: Seq<Record>,
    from: int,
    at: int,
    base: Seq<ItemView>,
    scan: ScanView,
) -> (to: int)
    requires
        all_sound(records),
        0 <= from <= at <= records.len(),
        from < records.len(),
        scan.counter == offset(records, at) - offset(records, from),
        scan.counter + BLOCK_SIZE <= CHUNK_SIZE,
        scan.items == base + addressed_goods(records.take(at)),
        scan.estate == book_of(records.take(at)),
        scan.block_number == blocks_of(records.take(at)),
    ensures
        at <= to <= records.len(),
        at == from ==> to > from,
        scan_run(
            Mode::Initialize,
            window(image(records), offset(records, from)),
            scan,
        ) == (ScanView {
            estate: book_of(records.take(to)),
            block_number: blocks_of(records.take(to)),
            counter: (offset(records, to) - offset(records, from)) as nat,
            items: base + addressed_goods(records.take(to)),
            has_done: scan.has_done || to == records.len(),
            ..scan
        }),
    decreases records.len() - at,
{
    let chunk = window(image(records), offset(records, from));
    let total = records.len() as int;
    lemma_sight(records, from, at, scan.counter);
    if at == total {
        at
    } else {
        let record = records[at];
        record.lemma_pack();
        let len = record.blocks() * (BLOCK_SIZE as nat);
        if scan.counter + len >= CHUNK_SIZE {
            at
        } else {
            let next = take_in(Mode::Initialize, chunk, record.label(), scan);
            let before = records.take(at);
            assert(records.take(at + 1).drop_last() =~= before);
            assert(records.take(at + 1).last() == record);
            assert(all_sound(before));
            lemma_book_of(before, blocks_of(before));
            assert(scan.estate.count() == at);
            assert(next.estate == book_of(records.take(at + 1)));
            assert(next.items =~= base + addressed_goods(records.take(at + 1)));
            assert(next.orders == scan.orders);
            lemma_offsets_grow(records, from, at);
            lemma_offsets_grow(records, from, at + 1);
            let gone = blocks_of(records.take(at + 1)) - blocks_of(records.take(from));
            assert(next.counter == gone * BLOCK_SIZE) by (nonlinear_arith)
                requires
                    next.counter == scan.counter + record.blocks() * BLOCK_SIZE,
                    scan.counter == blocks_of(records.take(at)) * BLOCK_SIZE - blocks_of(
                        records.take(from),
                    ) * BLOCK_SIZE,
                    blocks_of(records.take(at + 1)) == blocks_of(records.take(at))
                        + record.blocks(),
                    gone == blocks_of(records.take(at + 1)) - blocks_of(records.take(from)),
            ;
            assert(next.counter == blocks_of(records.take(at + 1)) * BLOCK_SIZE - blocks_of(
                records.take(from),
            ) * BLOCK_SIZE) by (nonlinear_arith)
                requires
                    next.counter == gone * BLOCK_SIZE,
                    gone == blocks_of(records.take(at + 1)) - blocks_of(records.take(from)),
            ;
            lemma_walk_rebuild(records, from, at + 1, base, next)
        }
    }
}

/// A session that rebuilds and stands at record `from`, not done, with the
/// book of the records before, is done after as many windows as there are
/// records left and one more, and has then the book of all records and the
/// payloads of all live records from `from` on.
proof fn lemma_rounds_rebuild(
    records: Seq<Record>,
    from: int,
    base: Seq<ItemView>,
    cursor: LogisticsView,
    rounds: nat,
)
    requires
        all_sound(records),
        0 <= from <= records.len(),
        cursor.mode is Initialize,
        !cursor.has_done,
        cursor.pointer == offset(records, from),
        cursor.block_number == blocks_of(records.take(from)),
        cursor.items == base + addressed_goods(records.take(from)),
        rounds > records.len() - from,
    ensures
        survey(
            Session { disk: image(records), estate: book_of(records.take(from)), cursor },
            rounds,
        ) == (Session {
            disk: image(records),
            estate: book_of(records),
            cursor: LogisticsView {
                pointer: image(records).len(),
                block_number: blocks_of(records),
                items: base + addressed_goods(records),
                has_done: true,
                ..cursor
            },
        }),
    decreases records.len() - from,
{
    let disk = image(records);
    let estate = book_of(records.take(from));
    let total = records.len() as int;
    let start = scan_start(estate, cursor);
    let end = round(disk, estate, cursor);
    let next = Session {
        disk: carried_out(disk, end.orders),
        estate: end.estate,
        cursor: cursor_after(cursor, end),
    };
    assert(records.take(total) =~= records);
    if from == total {
        lemma_image_len(records);
        assert(window(disk, cursor.pointer).len() == 0);
        assert(survey(next, (rounds - 1) as nat) == next);
    } else {
        lemma_layout(records, from, from);
        lemma_window(disk, cursor.pointer);
        let to = lemma_walk_rebuild(records, from, from, base, start);
        lemma_layout(records, from, to);
        if to == total {
            assert(survey(next, (rounds - 1) as nat) == next);
        } else {
            lemma_rounds_rebuild(records, to, base, next.cursor, (rounds - 1) as nat);
        }
    }
}

/// Recovery. On a disk that holds sound records and nothing else, a session
/// that rebuilds a new store is done after at most one window more than
/// there are records. It has then the book that speaks of these records,
/// and has gathered the payload of every live record, once, unchanged, in
/// the order of the disk, each with the address that the book has for it.
/// It has given no order: the disk is as it was.
pub proof fn lemma_survey_rebuilds_the_book(records: Seq<Record>, rounds: nat)
    requires
        all_sound(records),
        rounds > records.len(),
    ensures
        survey(
            Session {
                disk: image(records),
                estate: FarmingView::fresh(),
                cursor: LogisticsView::fresh(Mode::Initialize),
            },
            rounds,
        ) == (Session {
            disk: image(records),
            estate: book_of(records),
            cursor: LogisticsView {
                pointer: image(records).len(),
                block_number: blocks_of(records),
                items: addressed_goods(records),
                has_done: true,
                ..LogisticsView::fresh(Mode::Initialize)
            },
        }),
{
    let cursor = LogisticsView::fresh(Mode::Initialize);
    let base = Seq::<ItemView>::empty();
    assert(records.take(0) =~= Seq::<Record>::empty());
    assert(base + addressed_goods(records.take(0)) =~= cursor.items);
    assert(base + addressed_goods(records) =~= addressed_goods(records));
    lemma_rounds_rebuild(records, 0, base, cursor, rounds);
}

} // verus!
