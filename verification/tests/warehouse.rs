use warehouse::fumble::Fumble;
use warehouse::godown::{Shipment, CHUNK_SIZE, GOOD_MAX_SIZE};
use warehouse::godown::LogisticsMode as SessionMode;
use warehouse::primitive::Merchandise;
use warehouse::warehouse::{Inventory, Mode, SessionItem, Token, Warehouse};

/// A note that is stored as its bytes.
#[derive(Clone, Debug, PartialEq)]
struct Note(Vec<u8>);

impl Merchandise for Note {
    fn to_good(&self) -> Vec<u8> {
        self.0.clone()
    }

    fn from_good(good: Vec<u8>) -> Self {
        Note(good)
    }
}

/// A disk in memory that writes and reads as a file does.
struct Disk(Vec<u8>);

impl Disk {
    fn deliver(&mut self, shipment: &Shipment) {
        let end = shipment.pointer + shipment.package.len();
        if self.0.len() < end {
            self.0.resize(end, 0);
        }
        self.0[shipment.pointer..end].copy_from_slice(&shipment.package);
    }

    fn read(&self, pos: usize, len: usize) -> Vec<u8> {
        if pos >= self.0.len() {
            return vec![];
        }
        let mut buffer = vec![0u8; len];
        let end = usize::min(self.0.len(), pos + len);
        buffer[..end - pos].copy_from_slice(&self.0[pos..end]);
        buffer
    }
}

fn add(warehouse: &mut Warehouse<u32, Note>, disk: &mut Disk, note: &Note) -> Token<u32> {
    assert!(warehouse.can_add(note.0.len()));
    let (token, shipment) = warehouse.add(note.clone()).ok().unwrap();
    if let Some(shipment) = shipment {
        disk.deliver(&shipment);
    }
    token
}

fn get(warehouse: &mut Warehouse<u32, Note>, disk: &Disk, token: &Token<u32>) -> Option<Note> {
    let package = match warehouse.locate(token) {
        Some((pointer, len)) => disk.read(pointer, len),
        None => vec![],
    };
    assert!(warehouse.can_get(token, &package));
    warehouse.get(token, &package)
}

/// Everything that the open session hands over until it is done.
fn session(
    warehouse: &mut Warehouse<u32, Note>,
    disk: &mut Disk,
) -> Vec<SessionItem<Token<u32>, Note>> {
    let mut all = Vec::new();
    loop {
        let chunk = disk.read(warehouse.session_pointer(), CHUNK_SIZE);
        assert!(warehouse.can_scan(chunk.len()));
        assert!(warehouse.can_mirror(chunk.len()));
        let step = warehouse.session_items(&chunk);
        for order in &step.orders {
            disk.deliver(order);
        }
        if step.items.is_empty() && !step.again {
            return all;
        }
        all.extend(step.items);
    }
}

#[test]
fn inventory_places_and_gets() {
    let mut inventory: Inventory<u8, u32> = Inventory::new();
    assert!(inventory.can_occupy());

    let first = inventory.place(10);
    let second = inventory.place(20);

    assert_eq!((first, second), (0, 1));
    assert_eq!(inventory.get(first), Some(&10));
    assert_eq!(inventory.get(second), Some(&20));
    assert_eq!(inventory.get(2), None);
}

#[test]
fn inventory_replace_remove_take() {
    let mut inventory: Inventory<u8, u32> = Inventory::new();
    let first = inventory.place(10);
    let second = inventory.place(20);
    let third = inventory.place(30);

    inventory.replace(second, 21);
    assert_eq!(inventory.get(second), Some(&21));

    inventory.remove(first);
    assert_eq!(inventory.get(first), None);

    assert_eq!(inventory.take(third), Some(30));
    assert_eq!(inventory.get(third), None);

    // the addresses that were given back go out again, the last first
    assert_eq!(inventory.place(40), third);
    assert_eq!(inventory.place(50), first);
    assert_eq!(inventory.place(60), 3);
    assert_eq!(inventory.get(third), Some(&40));
    assert_eq!(inventory.get(first), Some(&50));
}

#[test]
fn inventory_reserves_the_next_address() {
    let mut inventory: Inventory<u8, u32> = Inventory::new();
    inventory.place(10);

    let reserved = inventory.reserve(None);

    assert_eq!(reserved, 1);
    assert_eq!(inventory.get(reserved), None);
    inventory.replace(reserved, 11);
    assert_eq!(inventory.get(reserved), Some(&11));
    assert_eq!(inventory.place(12), 2);
}

#[test]
fn inventory_reserves_an_address_by_name() {
    let mut inventory: Inventory<u8, u32> = Inventory::new();
    inventory.place(10);

    // past the slots: slots are added up to the address
    assert_eq!(inventory.reserve(Some(4)), 4);
    assert_eq!(inventory.get(4), None);
    inventory.replace(4, 44);
    assert_eq!(inventory.get(4), Some(&44));
    for between in 1..4 {
        assert_eq!(inventory.get(between), None);
    }
    // the book handed out an address for each new slot
    assert_eq!(inventory.place(50), 5);

    // within the slots: the slot must be empty
    inventory.remove(0);
    assert_eq!(inventory.reserve(Some(0)), 0);
    inventory.replace(0, 1);
    assert_eq!(inventory.get(0), Some(&1));
}

#[test]
fn inventory_knows_what_it_can_do() {
    let mut inventory: Inventory<u8, u32> = Inventory::new();
    assert!(!inventory.can_replace(0));
    assert!(!inventory.can_remove(0));

    let address = inventory.place(10);
    assert!(inventory.can_replace(address));
    assert!(inventory.can_remove(address));

    inventory.remove(address);
    assert!(!inventory.can_replace(address));
    assert!(!inventory.can_remove(address));

    let reserved = inventory.reserve(None);
    assert!(inventory.can_replace(reserved));
}

#[test]
fn inventory_can_be_asked_before_reserving() {
    let mut inventory: Inventory<u8, u32> = Inventory::new();
    assert!(inventory.can_reserve(None));
    assert!(inventory.can_reserve(Some(0)));
    assert!(inventory.can_reserve(Some(254)));
    // slots up to 255 need 256 addresses, one more than there are
    assert!(!inventory.can_reserve(Some(255)));

    inventory.place(10);
    // the slot holds an item
    assert!(!inventory.can_reserve(Some(0)));
    inventory.remove(0);
    assert!(inventory.can_reserve(Some(0)));
    // the address that waits serves for one of the new slots
    assert!(inventory.can_reserve(Some(255)));
    assert_eq!(inventory.reserve(Some(255)), 255);
    assert!(!inventory.can_reserve(None));
}

#[test]
fn inventory_has_room_while_it_is_filled_without_a_gap() {
    let mut inventory: Inventory<u8, u32> = Inventory::new();
    assert!(inventory.has_room_for(0));
    assert!(inventory.has_room_for(255));
    assert!(!inventory.has_room_for(256));

    inventory.place(1);
    inventory.place(2);
    assert!(inventory.has_room_for(253));
    assert!(!inventory.has_room_for(254));

    // an address waits to be handed out again
    inventory.remove(0);
    assert!(!inventory.has_room_for(1));
    inventory.place(3);
    assert!(inventory.has_room_for(1));

    // slots were added past the addresses handed out
    inventory.remove(1);
    inventory.reserve(Some(5));
    assert!(!inventory.has_room_for(1));
}

#[test]
fn inventory_is_full_at_the_limit_of_the_address_type() {
    let mut inventory: Inventory<u8, u32> = Inventory::new();
    for index in 0..255u32 {
        assert!(inventory.can_occupy());
        assert_eq!(inventory.place(index), index as u8);
    }
    assert!(!inventory.can_occupy());

    inventory.remove(7);
    assert!(inventory.can_occupy());
    assert_eq!(inventory.place(1000), 7);
    assert!(!inventory.can_occupy());
}

#[test]
fn warehouse_in_memory_only() {
    let mut disk = Disk(Vec::new());
    let mut warehouse: Warehouse<u32, Note> = Warehouse::new(Mode::Inventory);
    let note = Note(vec![1, 2, 3]);

    let (token, shipment) = warehouse.add(note.clone()).ok().unwrap();

    assert!(matches!(token, Token::Inventory(0)));
    assert!(shipment.is_none());
    assert_eq!(warehouse.locate(&token), None);
    assert_eq!(get(&mut warehouse, &disk, &token), Some(note));

    // no size limit without a disk store
    let large = Note(vec![7; GOOD_MAX_SIZE + 1]);
    let second = add(&mut warehouse, &mut disk, &large);
    assert!(matches!(second, Token::Inventory(1)));
    assert_eq!(get(&mut warehouse, &disk, &second), Some(large));

    // a token of the disk finds nothing here
    assert_eq!(get(&mut warehouse, &disk, &Token::Godown(0)), None);

    let (updated, shipments) = warehouse.update(&token, Note(vec![9])).ok().unwrap();
    assert!(matches!(updated, Token::Inventory(0)));
    assert!(shipments.is_none());
    assert_eq!(get(&mut warehouse, &disk, &updated), Some(Note(vec![9])));

    assert!(warehouse.remove(updated).is_none());
    assert!(matches!(add(&mut warehouse, &mut disk, &Note(vec![4])), Token::Inventory(0)));
    assert!(disk.0.is_empty());
}

#[test]
fn warehouse_on_disk_only() {
    let mut disk = Disk(Vec::new());
    let mut warehouse: Warehouse<u32, Note> = Warehouse::new(Mode::Godown("data".to_owned()));
    let note = Note(vec![1, 2, 3]);

    let (token, shipment) = warehouse.add(note.clone()).ok().unwrap();
    let shipment = shipment.unwrap();
    disk.deliver(&shipment);

    assert!(matches!(token, Token::Godown(0)));
    assert_eq!(shipment.pointer, 0);
    assert_eq!(warehouse.locate(&token), Some((0, 256)));
    assert_eq!(get(&mut warehouse, &disk, &token), Some(note));
    // a token of the memory finds nothing here
    assert_eq!(get(&mut warehouse, &disk, &Token::Inventory(0)), None);

    let (updated, shipments) = warehouse.update(&token, Note(vec![9; 300])).ok().unwrap();
    let (first, second) = shipments.unwrap();
    disk.deliver(&first);
    disk.deliver(&second);
    assert!(matches!(updated, Token::Godown(1)));
    assert_eq!(first.pointer, 256);
    assert_eq!(second.pointer, 0);
    assert_eq!(warehouse.locate(&token), None);
    assert_eq!(get(&mut warehouse, &disk, &updated), Some(Note(vec![9; 300])));

    let tombstone = warehouse.remove(updated).unwrap();
    assert_eq!(tombstone.pointer, 256);
    assert_eq!(tombstone.package.len(), 512);
    assert_eq!(warehouse.locate(&Token::Godown(1)), None);
}

#[test]
fn warehouse_refuses_an_item_beyond_the_size_limit() {
    let mut disk = Disk(Vec::new());
    let mut warehouse: Warehouse<u32, Note> = Warehouse::new(Mode::Both("data".to_owned()));

    let result = warehouse.add(Note(vec![0; GOOD_MAX_SIZE + 1]));
    assert!(matches!(result, Err(Fumble::ScalarsCombinedSize)));

    // nothing was booked, on disk or in memory
    let token = add(&mut warehouse, &mut disk, &Note(vec![1]));
    assert!(matches!(token, Token::Both(0, 0)));

    let result = warehouse.update(&token, Note(vec![0; GOOD_MAX_SIZE + 1]));
    assert!(matches!(result, Err(Fumble::ScalarsCombinedSize)));
    assert_eq!(get(&mut warehouse, &disk, &token), Some(Note(vec![1])));
    assert!(matches!(add(&mut warehouse, &mut disk, &Note(vec![2])), Token::Both(1, 1)));
}

#[test]
fn warehouse_mirrors_disk_and_memory() {
    let mut disk = Disk(Vec::new());
    let mut warehouse: Warehouse<u32, Note> = Warehouse::new(Mode::Both("data".to_owned()));

    let first = add(&mut warehouse, &mut disk, &Note(vec![1; 10]));
    let second = add(&mut warehouse, &mut disk, &Note(vec![2; 10]));
    assert!(matches!(first, Token::Both(0, 0)));
    assert!(matches!(second, Token::Both(1, 1)));
    assert_eq!(disk.0.len(), 512);
    // served from memory: no read of the disk is asked for
    assert_eq!(warehouse.locate(&first), None);
    assert_eq!(get(&mut warehouse, &disk, &first), Some(Note(vec![1; 10])));

    let (updated, shipments) = warehouse.update(&first, Note(vec![3; 10])).ok().unwrap();
    let (placed, tombstone) = shipments.unwrap();
    disk.deliver(&placed);
    disk.deliver(&tombstone);
    // a new record on disk, the same slot in memory
    assert!(matches!(updated, Token::Both(2, 0)));
    assert_eq!(get(&mut warehouse, &disk, &updated), Some(Note(vec![3; 10])));

    let tombstone = warehouse.remove(second).unwrap();
    disk.deliver(&tombstone);
    assert_eq!(tombstone.pointer, 256);
    // both addresses of the removed item go out again
    assert!(matches!(add(&mut warehouse, &mut disk, &Note(vec![4; 10])), Token::Both(1, 1)));
}

#[test]
fn session_reads_every_item() {
    let mut disk = Disk(Vec::new());
    let mut warehouse: Warehouse<u32, Note> = Warehouse::new(Mode::Godown("data".to_owned()));
    let mut notes: Vec<Note> = Vec::new();
    for index in 0..600u32 {
        let note = Note(vec![(index % 256) as u8; 1 + (index as usize % 700)]);
        add(&mut warehouse, &mut disk, &note);
        notes.push(note);
    }
    assert!(!warehouse.can_scan(CHUNK_SIZE));

    warehouse.start_session(SessionMode::Uninitialize);
    let items = session(&mut warehouse, &mut disk);
    warehouse.stop_session();

    assert_eq!(items.len(), notes.len());
    for (item, note) in items.iter().zip(notes.iter()) {
        assert!(matches!(item, SessionItem::WithoutToken(found) if found == note));
    }

    // a second session starts from the beginning
    warehouse.start_session(SessionMode::Uninitialize);
    assert_eq!(warehouse.session_pointer(), 0);
    assert_eq!(session(&mut warehouse, &mut disk).len(), notes.len());
    warehouse.stop_session();
}

#[test]
fn session_skips_windows_of_tombstones() {
    let mut disk = Disk(Vec::new());
    let mut warehouse: Warehouse<u32, Note> = Warehouse::new(Mode::Godown("data".to_owned()));
    let mut tokens = Vec::new();
    for _ in 0..600 {
        tokens.push(add(&mut warehouse, &mut disk, &Note(vec![5; 100])));
    }
    add(&mut warehouse, &mut disk, &Note(vec![6; 100]));
    for token in tokens {
        let tombstone = warehouse.remove(token).unwrap();
        disk.deliver(&tombstone);
    }

    warehouse.start_session(SessionMode::Uninitialize);
    let chunk = disk.read(warehouse.session_pointer(), CHUNK_SIZE);
    let step = warehouse.session_items(&chunk);
    assert!(step.items.is_empty());
    assert!(step.orders.is_empty());
    assert!(step.again);

    let items = session(&mut warehouse, &mut disk);
    assert_eq!(items.len(), 1);
    assert!(matches!(&items[0], SessionItem::WithoutToken(note) if note == &Note(vec![6; 100])));
    warehouse.stop_session();
}

#[test]
fn session_rebuilds_disk_and_memory() {
    let mut disk = Disk(Vec::new());
    let mut warehouse: Warehouse<u32, Note> = Warehouse::new(Mode::Both("data".to_owned()));
    let first = add(&mut warehouse, &mut disk, &Note(vec![1; 10]));
    let second = add(&mut warehouse, &mut disk, &Note(vec![2; 300]));
    add(&mut warehouse, &mut disk, &Note(vec![3; 10]));
    let tombstone = warehouse.remove(first).unwrap();
    disk.deliver(&tombstone);
    let _ = second;

    let mut restarted: Warehouse<u32, Note> = Warehouse::new(Mode::Both("data".to_owned()));
    restarted.start_session(SessionMode::Initialize);
    assert!(restarted.can_scan(CHUNK_SIZE));
    let items = session(&mut restarted, &mut disk);
    restarted.stop_session();

    // the addresses on disk are those of the records, the slots in memory
    // are handed out anew
    assert_eq!(items.len(), 2);
    match &items[0] {
        SessionItem::WithToken(token, note) => {
            assert!(matches!(token, Token::Both(1, 0)));
            assert_eq!(note, &Note(vec![2; 300]));
            assert_eq!(get(&mut restarted, &disk, token), Some(Note(vec![2; 300])));
        }
        SessionItem::WithoutToken(_) => assert!(false),
    }
    match &items[1] {
        SessionItem::WithToken(token, note) => {
            assert!(matches!(token, Token::Both(2, 1)));
            assert_eq!(note, &Note(vec![3; 10]));
            assert_eq!(get(&mut restarted, &disk, token), Some(Note(vec![3; 10])));
        }
        SessionItem::WithoutToken(_) => assert!(false),
    }

    // the address of the removed record is free for a record of one block
    let token = add(&mut restarted, &mut disk, &Note(vec![4; 20]));
    assert!(matches!(token, Token::Both(0, 2)));
}

#[test]
fn session_rebuilds_a_store_without_memory() {
    let mut disk = Disk(Vec::new());
    let mut warehouse: Warehouse<u32, Note> = Warehouse::new(Mode::Godown("data".to_owned()));
    add(&mut warehouse, &mut disk, &Note(vec![1; 10]));
    add(&mut warehouse, &mut disk, &Note(vec![2; 10]));

    let mut restarted: Warehouse<u32, Note> = Warehouse::new(Mode::Godown("data".to_owned()));
    restarted.start_session(SessionMode::Initialize);
    let items = session(&mut restarted, &mut disk);
    restarted.stop_session();

    assert_eq!(items.len(), 2);
    assert!(matches!(&items[0], SessionItem::WithToken(Token::Godown(0), note) if note == &Note(vec![1; 10])));
    assert!(matches!(&items[1], SessionItem::WithToken(Token::Godown(1), note) if note == &Note(vec![2; 10])));
    assert_eq!(get(&mut restarted, &disk, &Token::Godown(1)), Some(Note(vec![2; 10])));
}

#[test]
fn warehouse_knows_what_it_can_do() {
    let mut disk = Disk(Vec::new());
    let mut warehouse: Warehouse<u32, Note> = Warehouse::new(Mode::Both("data".to_owned()));
    assert!(warehouse.has_godown());
    assert!(warehouse.has_inventory());
    assert!(!warehouse.has_session());
    assert!(warehouse.can_add(1));
    assert!(warehouse.can_add(GOOD_MAX_SIZE));
    // beyond the limit the item is refused, which is an answer
    assert!(warehouse.can_add(GOOD_MAX_SIZE + 1));
    // an empty payload cannot be framed
    assert!(!warehouse.can_add(0));

    let token = add(&mut warehouse, &mut disk, &Note(vec![1; 10]));
    assert!(warehouse.can_update(&token, 10));
    assert!(warehouse.can_remove(&token));
    assert!(!warehouse.can_update(&Token::Both(1, 0), 10));
    assert!(!warehouse.can_update(&Token::Both(0, 1), 10));
    assert!(!warehouse.can_remove(&Token::Both(0, 1)));
    assert!(!warehouse.can_remove(&Token::Godown(1)));
    assert!(!warehouse.can_get(&Token::Inventory(1), &[]));

    let tombstone = warehouse.remove(token).unwrap();
    disk.deliver(&tombstone);
    assert!(!warehouse.can_remove(&Token::Both(0, 0)));
    assert!(!warehouse.can_get(&Token::Inventory(0), &[]));

    let memory: Warehouse<u32, Note> = Warehouse::new(Mode::Inventory);
    assert!(!memory.has_godown());
    assert!(memory.can_add(0));
    assert!(memory.can_add(GOOD_MAX_SIZE + 1));
    assert!(!memory.can_update(&Token::Godown(0), 1));
    assert!(!memory.can_scan(CHUNK_SIZE));
}

#[test]
fn warehouse_checks_a_package_before_it_gets() {
    let mut disk = Disk(Vec::new());
    let mut warehouse: Warehouse<u32, Note> = Warehouse::new(Mode::Godown("data".to_owned()));
    let token = add(&mut warehouse, &mut disk, &Note(vec![1; 10]));
    let (pointer, len) = warehouse.locate(&token).unwrap();
    let package = disk.read(pointer, len);

    assert!(warehouse.can_get(&token, &package));
    assert!(!warehouse.can_get(&token, &package[..100]));
    let mut torn = package.clone();
    torn[7 + 10] = 0;
    assert!(!warehouse.can_get(&token, &torn));
}

#[test]
fn mirroring_needs_room_in_memory() {
    let mut disk = Disk(Vec::new());
    let mut small: Warehouse<u8, Note> = Warehouse::new(Mode::Both("data".to_owned()));
    small.start_session(SessionMode::Initialize);
    // a window of 256 blocks may hold more records than a u8 has addresses
    assert!(!small.can_mirror(CHUNK_SIZE));
    assert!(small.can_mirror(255 * 256));
    small.stop_session();

    let mut warehouse: Warehouse<u32, Note> = Warehouse::new(Mode::Both("data".to_owned()));
    let first = add(&mut warehouse, &mut disk, &Note(vec![1]));
    add(&mut warehouse, &mut disk, &Note(vec![2]));
    warehouse.start_session(SessionMode::Uninitialize);
    assert!(warehouse.can_mirror(CHUNK_SIZE));
    warehouse.stop_session();

    // an address in memory waits to be handed out again
    let tombstone = warehouse.remove(first).unwrap();
    disk.deliver(&tombstone);
    warehouse.start_session(SessionMode::Uninitialize);
    assert!(!warehouse.can_mirror(CHUNK_SIZE));
    assert!(!warehouse.can_mirror(0));
    warehouse.stop_session();

    let mut on_disk: Warehouse<u8, Note> = Warehouse::new(Mode::Godown("data".to_owned()));
    on_disk.start_session(SessionMode::Initialize);
    assert!(on_disk.can_mirror(CHUNK_SIZE));
}
