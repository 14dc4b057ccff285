use rand::Rng;
use warehouse::fumble::Fumble;
use warehouse::godown::{
    AssemblyLine, FlagType, Godown, Good, Integrity, Item, Labeller, Logistics, LogisticsMode,
    Shipment, BLOCK_SIZE, CHUNK_SIZE, GOOD_MAX_SIZE,
};

/// A disk in memory that writes and reads as a file does.
struct Disk(Vec<u8>);

impl Disk {
    fn put(&mut self, pos: usize, data: &[u8]) {
        if self.0.len() < pos + data.len() {
            self.0.resize(pos + data.len(), 0);
        }
        self.0[pos..pos + data.len()].copy_from_slice(data);
    }

    fn deliver(&mut self, shipment: &Shipment) {
        self.put(shipment.pointer, &shipment.package);
    }

    fn read(&self, pos: usize, len: usize) -> Vec<u8> {
        if pos >= self.0.len() {
            return vec![];
        }
        let mut buffer = vec![0u8; len];
        let end = usize::min(self.0.len(), pos + len);
        buffer[..end - pos].copy_from_slice(&self.0[pos..end]);
        buffer
    }
}

fn place(godown: &mut Godown, disk: &mut Disk, good: &Good) -> u64 {
    assert!(godown.can_place(good.len()));
    let (address, shipment) = godown.place(good.clone()).ok().unwrap();
    disk.deliver(&shipment);
    address
}

fn remove(godown: &mut Godown, disk: &mut Disk, address: u64) {
    assert!(godown.holds(address));
    let shipment = godown.remove(address);
    disk.deliver(&shipment);
}

fn get(godown: &Godown, disk: &Disk, address: u64) -> Good {
    let (pointer, len) = godown.locate(address).unwrap();
    let package = disk.read(pointer, len);
    assert!(AssemblyLine::can_dismantle(&package));
    godown.get(address, &package)
}

/// Scans the whole disk and hands back every item, in order.
fn scan(godown: &mut Godown, disk: &mut Disk, mode: LogisticsMode) -> (Vec<Item>, usize) {
    let mut logistics = Logistics::new(mode);
    let mut items: Vec<Item> = Vec::new();
    let mut rounds = 0;
    while !logistics.get_has_done() {
        let chunk = disk.read(logistics.get_pointer(), CHUNK_SIZE);
        assert!(godown.can_transfer(&logistics, chunk.len()));
        let orders = godown.transfer_chunk(&mut logistics, &chunk);
        for order in &orders {
            disk.deliver(order);
        }
        items.extend(logistics.unload());
        rounds += 1;
        assert!(rounds < 100_000);
    }
    (items, rounds)
}

fn goods_of(items: &[Item]) -> Vec<Good> {
    items
        .iter()
        .map(|item| match item {
            Item::WithAddress(_, good) => good.clone(),
            Item::WithoutAddress(good) => good.clone(),
        })
        .collect()
}

fn random_good(min: usize, max: usize) -> Good {
    let mut rng = rand::thread_rng();
    let len = rng.gen_range(min..=max);
    (0..len).map(|_| rng.gen_range(0..=255)).collect()
}

#[test]
fn lib_successful() {
    let mut disk = Disk(Vec::new());
    let mut godown = Godown::new();
    let good_number = rand::thread_rng().gen_range(10..=100);
    let mut goods: Vec<Good> = Vec::new();
    let mut addresses: Vec<u64> = Vec::new();

    for _ in 0..good_number {
        let good = random_good(10, 5000);
        let address = place(&mut godown, &mut disk, &good);
        goods.push(good);
        addresses.push(address);
    }

    let mut new_godown = Godown::new();
    let (items, _) = scan(&mut new_godown, &mut disk, LogisticsMode::Initialize);

    assert_eq!(goods.len(), items.len());

    for index in 0..goods.len() {
        match &items[index] {
            Item::WithAddress(address, good) => {
                assert_eq!(*address, addresses[index]);
                assert_eq!(good, &goods[index]);
            }
            Item::WithoutAddress(_) => assert!(false),
        }
    }
}

#[test]
fn place_then_get() {
    let mut disk = Disk(Vec::new());
    let mut godown = Godown::new();
    let good = random_good(1000, 5000);

    let address = place(&mut godown, &mut disk, &good);
    let read_good = get(&godown, &disk, address);

    assert_eq!(good, read_good)
}

#[test]
fn place_writes_records_one_after_the_other() {
    let mut godown = Godown::new();

    let (first, shipment) = godown.place(vec![1u8; 10]).ok().unwrap();
    assert_eq!(first, 0);
    assert_eq!(shipment.pointer, 0);
    assert_eq!(shipment.package, AssemblyLine::assemble(vec![1u8; 10]));
    assert_eq!(godown.locate(first), Some((0, 256)));

    // 600 bytes and header and marker take three blocks
    let (second, shipment) = godown.place(vec![2u8; 600]).ok().unwrap();
    assert_eq!(second, 1);
    assert_eq!(shipment.pointer, 256);
    assert_eq!(shipment.package.len(), 768);
    assert_eq!(godown.locate(second), Some((256, 768)));

    let (third, shipment) = godown.place(vec![3u8; 1]).ok().unwrap();
    assert_eq!(third, 2);
    assert_eq!(shipment.pointer, 1024);
    assert_eq!(godown.frontier(), 5);
    assert_eq!(godown.locate(3), None);
}

#[test]
fn place_beyond_the_size_limit_fails_and_books_nothing() {
    let mut godown = Godown::new();

    let result = godown.place(vec![0u8; GOOD_MAX_SIZE + 1]);

    assert!(matches!(result, Err(Fumble::ScalarsCombinedSize)));
    assert_eq!(godown.frontier(), 0);
    assert!(!godown.holds(0));
    assert_eq!(godown.locate(0), None);

    let (address, shipment) = godown.place(vec![0u8; GOOD_MAX_SIZE]).ok().unwrap();
    assert_eq!(address, 0);
    assert_eq!(shipment.pointer, 0);
    assert_eq!(shipment.package.len(), 129 * BLOCK_SIZE);
    assert_eq!(godown.frontier(), 129);
}

#[test]
fn remove_writes_a_tombstone_of_the_same_span() {
    let mut disk = Disk(Vec::new());
    let mut godown = Godown::new();
    place(&mut godown, &mut disk, &vec![1u8; 10]);
    let address = place(&mut godown, &mut disk, &vec![2u8; 600]);
    place(&mut godown, &mut disk, &vec![3u8; 10]);

    let shipment = godown.remove(address);

    assert_eq!(shipment.pointer, 256);
    assert_eq!(shipment.package.len(), 768);
    let label = Labeller::read(&shipment.package);
    assert_eq!(label.block_count, 3);
    assert_eq!(label.flag_type, FlagType::Delete);
    assert_eq!(label.good_len, 0);
    assert!(shipment.package[7..].iter().all(|byte| *byte == 0));
    assert!(!godown.holds(address));
    assert_eq!(godown.locate(address), None);
    assert_eq!(godown.frontier(), 5);
}

#[test]
fn removed_address_is_reused_for_the_same_span() {
    let mut disk = Disk(Vec::new());
    let mut godown = Godown::new();
    let first = place(&mut godown, &mut disk, &vec![1u8; 300]);
    let second = place(&mut godown, &mut disk, &vec![2u8; 10]);
    let (pointer, len) = godown.locate(first).unwrap();

    remove(&mut godown, &mut disk, first);
    assert_eq!(godown.locate(first), None);

    // one block: not the span of the removed record
    let third = place(&mut godown, &mut disk, &vec![3u8; 20]);
    assert_eq!(third, 2);

    // two blocks: the span of the removed record
    let good = vec![4u8; 400];
    let fourth = place(&mut godown, &mut disk, &good);
    assert_eq!(fourth, first);
    assert_eq!(godown.locate(fourth), Some((pointer, len)));
    assert_eq!(get(&godown, &disk, fourth), good);
    assert_eq!(get(&godown, &disk, second), vec![2u8; 10]);
    assert_eq!(get(&godown, &disk, third), vec![3u8; 20]);
}

#[test]
fn replace_places_first_and_removes_then() {
    let mut disk = Disk(Vec::new());
    let mut godown = Godown::new();
    let old = place(&mut godown, &mut disk, &vec![1u8; 10]);

    let (new, first, second) = godown.replace(old, vec![2u8; 10]).ok().unwrap();
    disk.deliver(&first);
    disk.deliver(&second);

    assert_eq!(new, 1);
    assert_eq!(first.pointer, 256);
    assert_eq!(second.pointer, 0);
    assert_eq!(Labeller::read(&second.package).flag_type, FlagType::Delete);
    assert!(!godown.holds(old));
    assert_eq!(get(&godown, &disk, new), vec![2u8; 10]);
}

#[test]
fn replace_beyond_the_size_limit_leaves_the_record() {
    let mut disk = Disk(Vec::new());
    let mut godown = Godown::new();
    let old = place(&mut godown, &mut disk, &vec![1u8; 10]);

    let result = godown.replace(old, vec![0u8; GOOD_MAX_SIZE + 1]);

    assert!(matches!(result, Err(Fumble::ScalarsCombinedSize)));
    assert!(godown.holds(old));
    assert_eq!(godown.frontier(), 1);
    assert_eq!(get(&godown, &disk, old), vec![1u8; 10]);
}

#[test]
fn scan_of_an_empty_disk_is_done_at_once() {
    let mut disk = Disk(Vec::new());
    let mut godown = Godown::new();

    let (items, rounds) = scan(&mut godown, &mut disk, LogisticsMode::Uninitialize);

    assert_eq!(items.len(), 0);
    assert_eq!(rounds, 1);
}

#[test]
fn scan_finds_every_good_across_windows() {
    let mut disk = Disk(Vec::new());
    let mut godown = Godown::new();
    let mut goods: Vec<Good> = Vec::new();

    // records of up to 129 blocks: few fit one window of 256 blocks
    for _ in 0..40 {
        let good = random_good(1, GOOD_MAX_SIZE);
        place(&mut godown, &mut disk, &good);
        goods.push(good);
    }
    let frontier = godown.frontier();

    let (items, rounds) = scan(&mut godown, &mut disk, LogisticsMode::Uninitialize);

    assert!(rounds > 1);
    assert!(rounds <= goods.len() + 1);
    assert!(items.iter().all(|item| matches!(item, Item::WithoutAddress(_))));
    assert_eq!(goods_of(&items), goods);
    // a scan that only reads leaves the book alone
    assert_eq!(godown.frontier(), frontier);
}

#[test]
fn scan_of_records_that_fill_windows_exactly() {
    let mut disk = Disk(Vec::new());
    let mut godown = Godown::new();
    let mut goods: Vec<Good> = Vec::new();

    // each record takes 128 blocks: two of them fill a window to the last byte
    for index in 0..5u8 {
        let good = vec![index; 128 * BLOCK_SIZE - 8];
        place(&mut godown, &mut disk, &good);
        goods.push(good);
    }
    assert_eq!(disk.0.len(), 5 * 128 * BLOCK_SIZE);

    let (items, rounds) = scan(&mut godown, &mut disk, LogisticsMode::Uninitialize);

    assert_eq!(goods_of(&items), goods);
    // the record that ends with the window is left for the next one:
    // each window yields one record, and the last sees the end of the disk
    assert_eq!(rounds, 5);
}

#[test]
fn scan_passes_over_removed_records() {
    let mut disk = Disk(Vec::new());
    let mut godown = Godown::new();
    let mut expected: Vec<Good> = Vec::new();

    for index in 0..300u32 {
        let good = random_good(1, 2000);
        let address = place(&mut godown, &mut disk, &good);
        if index % 3 == 0 {
            remove(&mut godown, &mut disk, address);
        } else if (address as usize) < expected.len() {
            expected[address as usize] = good;
        } else {
            while expected.len() < address as usize {
                expected.push(vec![]);
            }
            expected.push(good);
        }
    }
    // what is expected, in the order of the disk
    let mut in_order: Vec<(usize, Good)> = Vec::new();
    for address in 0..expected.len() {
        if godown.holds(address as u64) {
            let (pointer, _) = godown.locate(address as u64).unwrap();
            in_order.push((pointer, expected[address].clone()));
        }
    }
    in_order.sort();
    let expected: Vec<Good> = in_order.into_iter().map(|(_, good)| good).collect();

    let (items, _) = scan(&mut godown, &mut disk, LogisticsMode::Uninitialize);

    assert_eq!(goods_of(&items), expected);
}

#[test]
fn windows_of_tombstones_yield_nothing_but_are_not_the_end() {
    let mut disk = Disk(Vec::new());
    let mut godown = Godown::new();
    let mut addresses: Vec<u64> = Vec::new();
    for _ in 0..600 {
        addresses.push(place(&mut godown, &mut disk, &vec![5u8; 100]));
    }
    let last = place(&mut godown, &mut disk, &vec![6u8; 100]);
    for address in addresses {
        remove(&mut godown, &mut disk, address);
    }

    let mut logistics = Logistics::new(LogisticsMode::Uninitialize);
    let chunk = disk.read(logistics.get_pointer(), CHUNK_SIZE);
    let orders = godown.transfer_chunk(&mut logistics, &chunk);

    assert_eq!(orders.len(), 0);
    assert_eq!(logistics.unload().len(), 0);
    assert!(!logistics.get_has_done());
    assert_eq!(logistics.get_pointer(), 255 * BLOCK_SIZE);

    let (items, rounds) = scan(&mut godown, &mut disk, LogisticsMode::Uninitialize);
    assert_eq!(goods_of(&items), vec![vec![6u8; 100]]);
    assert!(rounds >= 3);
    assert!(godown.holds(last));
}

#[test]
fn rebuilding_scan_restores_the_book() {
    let mut disk = Disk(Vec::new());
    let mut godown = Godown::new();
    let first = place(&mut godown, &mut disk, &vec![1u8; 300]);
    let second = place(&mut godown, &mut disk, &vec![2u8; 10]);
    let third = place(&mut godown, &mut disk, &vec![3u8; 700]);
    remove(&mut godown, &mut disk, second);
    let before = disk.0.clone();

    let mut rebuilt = Godown::new();
    let (items, _) = scan(&mut rebuilt, &mut disk, LogisticsMode::Initialize);

    assert_eq!(disk.0, before);
    assert_eq!(items.len(), 2);
    assert!(matches!(&items[0], Item::WithAddress(0, good) if good == &vec![1u8; 300]));
    assert!(matches!(&items[1], Item::WithAddress(2, good) if good == &vec![3u8; 700]));
    assert_eq!(rebuilt.frontier(), godown.frontier());
    for address in [first, second, third, 3] {
        assert_eq!(rebuilt.locate(address), godown.locate(address));
    }
    assert_eq!(get(&rebuilt, &disk, first), vec![1u8; 300]);
    assert_eq!(get(&rebuilt, &disk, third), vec![3u8; 700]);

    // the address of the removed record waits for a record of one block
    let good = vec![4u8; 50];
    assert_eq!(place(&mut rebuilt, &mut disk, &good), second);
    assert_eq!(get(&rebuilt, &disk, second), good);
}

#[test]
fn rebuilding_scan_removes_a_torn_record() {
    let mut disk = Disk(Vec::new());
    let mut godown = Godown::new();
    place(&mut godown, &mut disk, &vec![1u8; 10]);
    let torn = place(&mut godown, &mut disk, &vec![2u8; 10]);
    place(&mut godown, &mut disk, &vec![3u8; 10]);
    // the marker of the second record was never written
    let (pointer, _) = godown.locate(torn).unwrap();
    disk.0[pointer + 7 + 10] = 0;

    let mut rebuilt = Godown::new();
    let mut logistics = Logistics::new(LogisticsMode::Initialize);
    let chunk = disk.read(0, CHUNK_SIZE);
    let orders = rebuilt.transfer_chunk(&mut logistics, &chunk);

    assert!(logistics.get_has_done());
    assert_eq!(logistics.get_pointer(), 3 * BLOCK_SIZE);
    assert_eq!(logistics.get_block_number(), 3);
    assert_eq!(orders.len(), 1);
    assert_eq!(orders[0].pointer, pointer);
    assert_eq!(Labeller::read(&orders[0].package).flag_type, FlagType::Delete);
    assert_eq!(Labeller::read(&orders[0].package).block_count, 1);
    let items = logistics.unload();
    assert_eq!(items.len(), 2);
    assert!(matches!(&items[0], Item::WithAddress(0, _)));
    assert!(matches!(&items[1], Item::WithAddress(2, _)));
    assert!(rebuilt.holds(0));
    assert!(!rebuilt.holds(torn));
    assert!(rebuilt.holds(2));

    // a scan that only reads passes over the torn record and orders nothing
    let mut reader = Logistics::new(LogisticsMode::Uninitialize);
    let orders = rebuilt.transfer_chunk(&mut reader, &chunk);
    assert_eq!(orders.len(), 0);
    assert_eq!(goods_of(&reader.unload()), vec![vec![1u8; 10], vec![3u8; 10]]);
}

#[test]
fn scan_stops_at_a_record_that_the_window_cuts() {
    let mut godown = Godown::new();
    let mut chunk: Vec<u8> = Vec::new();
    chunk.extend(AssemblyLine::assemble(vec![1u8; 10]));
    chunk.extend(AssemblyLine::assemble(vec![2u8; 600]));
    // the window ends with the second record: it is left for the next window
    let mut logistics = Logistics::new(LogisticsMode::Uninitialize);

    godown.transfer_chunk(&mut logistics, &chunk);

    assert!(!logistics.get_has_done());
    assert_eq!(logistics.get_pointer(), 256);
    assert_eq!(goods_of(&logistics.unload()), vec![vec![1u8; 10]]);

    // with one byte more the second record lies within, and a window too
    // short for a header at its end is cut there
    chunk.push(0);
    let mut logistics = Logistics::new(LogisticsMode::Uninitialize);
    godown.transfer_chunk(&mut logistics, &chunk);
    assert!(!logistics.get_has_done());
    assert_eq!(logistics.get_pointer(), 1024);
    assert_eq!(logistics.unload().len(), 2);
}

#[test]
fn logistics_keeps_what_it_is_given() {
    let mut logistics = Logistics::new(LogisticsMode::Initialize);
    assert_eq!(logistics.get_mode(), LogisticsMode::Initialize);
    assert_eq!(logistics.get_pointer(), 0);
    assert_eq!(logistics.get_block_number(), 0);
    assert!(!logistics.get_has_done());
    assert_eq!(logistics.unload().len(), 0);

    logistics.set_pointer(512);
    logistics.set_block_number(2);
    logistics.load_item(Item::WithAddress(4, vec![1]));
    logistics.load_item(Item::WithoutAddress(vec![2]));
    logistics.set_has_done();

    assert_eq!(logistics.get_pointer(), 512);
    assert_eq!(logistics.get_block_number(), 2);
    assert!(logistics.get_has_done());
    let items = logistics.unload();
    assert_eq!(items.len(), 2);
    assert!(matches!(&items[0], Item::WithAddress(4, good) if good == &vec![1u8]));
    assert!(matches!(&items[1], Item::WithoutAddress(good) if good == &vec![2u8]));
    assert_eq!(logistics.unload().len(), 0);
    assert_eq!(Logistics::new(LogisticsMode::Uninitialize).get_mode(), LogisticsMode::Uninitialize);
}

#[test]
fn integrity_unwraps_to_the_good() {
    assert_eq!(Integrity::Consistent(vec![1, 2, 3]).unwrap(), vec![1, 2, 3]);
}

#[test]
fn fumble_lines() {
    assert_eq!(
        Fumble::FieldName.unwrap(),
        "-Field name should only contain alphanumeric and underscore. First character shouldn't be capital"
    );
    assert_eq!(Fumble::FieldSize.unwrap(), "-Field name is too long");
    assert_eq!(
        Fumble::ScalarType.unwrap(),
        "-Wrong. Only String, integer, decimal and boolean data types expected"
    );
    assert_eq!(Fumble::ScalarString.unwrap(), "-Cannot parse string value");
    assert_eq!(Fumble::ScalarBoolean.unwrap(), "-Cannot parse boolean value");
    assert_eq!(Fumble::ScalarDecimal.unwrap(), "-Cannot parse decimal value");
    assert_eq!(Fumble::ScalarInteger.unwrap(), "-Cannot parse integer value");
    assert_eq!(Fumble::ScalarsCombinedSize.unwrap(), "-Data size limit exceeds");
    assert_eq!(Fumble::Operator.unwrap(), "-Unrecognized operator");
    assert_eq!(
        Fumble::Start.unwrap(),
        "-Query should either start with 'create' or 'match'"
    );
    assert_eq!(
        Fumble::Action.unwrap(),
        "-'match' should be followed by 'return', 'set' or 'delete'"
    );
    assert_eq!(Fumble::Identifier.unwrap(), "-Cannot set _id");
}

#[test]
fn a_rebuilding_scan_must_start_where_the_book_ends() {
    let mut disk = Disk(Vec::new());
    let mut godown = Godown::new();
    place(&mut godown, &mut disk, &vec![1u8; 10]);

    // the book speaks of one record already: a cursor at the start is wrong
    let logistics = Logistics::new(LogisticsMode::Initialize);
    assert!(!godown.can_transfer(&logistics, CHUNK_SIZE));
    assert!(Godown::new().can_transfer(&logistics, CHUNK_SIZE));

    let mut reader = Logistics::new(LogisticsMode::Uninitialize);
    assert!(godown.can_transfer(&reader, CHUNK_SIZE));
    reader.set_pointer(usize::MAX - 10);
    assert!(!godown.can_transfer(&reader, CHUNK_SIZE));
}

#[test]
fn place_has_room_until_positions_overflow() {
    let godown = Godown::new();
    assert!(!godown.can_place(0));
    assert!(godown.can_place(1));
    assert!(godown.can_place(GOOD_MAX_SIZE));
    assert!(!godown.can_place(usize::MAX));
}
