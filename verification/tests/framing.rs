use rand::Rng;
use warehouse::godown::labeller::HEADER_SIZE;
use warehouse::godown::{
    AssemblyLine, Block, Flag, FlagType, Integrity, LabelInfo, Labeller, BLOCK_SIZE, CHUNK_SIZE,
    GOOD_MAX_SIZE,
};

#[test]
fn get_count_less_than_block_size() {
    let bytes = BLOCK_SIZE - 1;

    let count = Block::get_count(bytes);

    assert_eq!(count, 1)
}

#[test]
fn get_count_equal_block_size() {
    let bytes = BLOCK_SIZE;

    let count = Block::get_count(bytes);

    assert_eq!(count, 1)
}

#[test]
fn get_count_more_than_block_size() {
    let bytes = BLOCK_SIZE + 1;

    let count = Block::get_count(bytes);

    assert_eq!(count, 2)
}

#[test]
fn label_read() {
    let label_info = LabelInfo { block_count: 1, flag_type: FlagType::Insert, good_len: 1 };

    let mut package: Vec<u8> = Vec::new();

    package.resize(Labeller::get_header_size(), 0);

    Labeller::label(&mut package, label_info);

    let read_label = Labeller::read(&package);

    assert_eq!(label_info.block_count, read_label.block_count);
    assert_eq!(label_info.flag_type, read_label.flag_type);
    assert_eq!(label_info.good_len, read_label.good_len);
}

#[test]
fn inconsistent() {
    let random_len = rand::thread_rng().gen_range(1..1000) as usize;
    let mut good: Vec<u8> = Vec::new();

    good.resize(random_len, 0);

    let mut package = AssemblyLine::assemble(good);

    // remove the consistent byte
    for index in Labeller::get_header_size()..package.len() {
        package[index] = 0;
    }

    let integrity = AssemblyLine::dismantle(&package);

    assert_eq!(integrity, Integrity::Inconsistent)
}

#[test]
fn consistent() {
    let random_len = rand::thread_rng().gen_range(1..1000) as usize;
    let mut good: Vec<u8> = Vec::new();

    good.resize(random_len, 0);

    let package = AssemblyLine::assemble(good.clone());

    let integrity = AssemblyLine::dismantle(&package);

    if let Integrity::Consistent(dismantled_good) = integrity {
        assert_eq!(dismantled_good, good);
    } else {
        assert!(false)
    }
}

#[test]
fn constants_have_their_sizes() {
    assert_eq!(BLOCK_SIZE, 256);
    assert_eq!(GOOD_MAX_SIZE, 32768);
    assert_eq!(CHUNK_SIZE, 65536);
    assert_eq!(HEADER_SIZE, 7);
    assert_eq!(Labeller::get_header_size(), 7);
}

#[test]
fn block_arithmetic() {
    assert_eq!(Block::get_count(1), 1);
    assert_eq!(Block::get_count(256), 1);
    assert_eq!(Block::get_count(257), 2);
    assert_eq!(Block::get_count(512), 2);
    assert_eq!(Block::get_count(513), 3);
    assert_eq!(Block::get_pointer(0), 0);
    assert_eq!(Block::get_pointer(3), 768);
    assert_eq!(Block::get_total_bytes(1), 256);
    assert_eq!(Block::get_total_bytes(129), 33024);
}

#[test]
fn flag_codes() {
    assert_eq!(Flag::get_value(FlagType::Delete), 0);
    assert_eq!(Flag::get_value(FlagType::Insert), 1);
    assert_eq!(Flag::get_value(FlagType::Update), 2);
    assert_eq!(Flag::get_type(0), FlagType::Delete);
    assert_eq!(Flag::get_type(1), FlagType::Insert);
    assert_eq!(Flag::get_type(2), FlagType::Update);
    assert_eq!(Flag::get_type(3), FlagType::Insert);
    assert_eq!(Flag::get_type(255), FlagType::Insert);
}

#[test]
fn header_layout_is_little_endian() {
    let mut package: Vec<u8> = vec![9; 10];
    let label_info =
        LabelInfo { block_count: 0x0102, flag_type: FlagType::Update, good_len: 0x0A0B0C0D };

    Labeller::label(&mut package, label_info);

    assert_eq!(package, vec![0x02, 0x01, 2, 0x0D, 0x0C, 0x0B, 0x0A, 9, 9, 9]);

    let read_label = Labeller::read(&package);
    assert_eq!(read_label.block_count, 0x0102);
    assert_eq!(read_label.flag_type, FlagType::Update);
    assert_eq!(read_label.good_len, 0x0A0B0C0D);
}

#[test]
fn assembled_package_layout() {
    let good: Vec<u8> = vec![10, 20, 30];

    let package = AssemblyLine::assemble(good);

    assert_eq!(package.len(), 256);
    assert_eq!(&package[0..11], &[1, 0, 1, 4, 0, 0, 0, 10, 20, 30, 0xFF]);
    assert!(package[11..].iter().all(|byte| *byte == 0));
}

#[test]
fn assembled_package_fills_whole_blocks() {
    // header, payload and marker fill one block to the last byte
    let package = AssemblyLine::assemble(vec![7u8; 248]);
    assert_eq!(package.len(), 256);
    assert_eq!(package[255], 0xFF);

    // one byte more takes a second block
    let package = AssemblyLine::assemble(vec![7u8; 249]);
    assert_eq!(package.len(), 512);
    assert_eq!(Labeller::read(&package).block_count, 2);
    assert_eq!(Labeller::read(&package).good_len, 250);

    let package = AssemblyLine::assemble(vec![7u8; GOOD_MAX_SIZE]);
    assert_eq!(package.len(), 129 * 256);
    assert_eq!(package.len() % BLOCK_SIZE, 0);
}

#[test]
fn round_trip_of_largest_good() {
    let mut good: Vec<u8> = Vec::new();
    for index in 0..GOOD_MAX_SIZE {
        good.push((index % 251) as u8);
    }

    let package = AssemblyLine::assemble(good.clone());

    assert!(AssemblyLine::can_dismantle(&package));
    assert_eq!(AssemblyLine::dismantle(&package), Integrity::Consistent(good));
}

#[test]
fn torn_marker_is_detected() {
    let good: Vec<u8> = vec![1, 2, 3, 4, 5];
    let mut package = AssemblyLine::assemble(good.clone());
    let marker = Labeller::get_header_size() + good.len();
    assert_eq!(package[marker], 0xFF);

    package[marker] = 0xFE;

    assert_eq!(AssemblyLine::dismantle(&package), Integrity::Inconsistent);
}

#[test]
fn payload_ending_in_marker_byte_round_trips() {
    let good: Vec<u8> = vec![0xFF, 0xFF];
    let package = AssemblyLine::assemble(good.clone());
    assert_eq!(AssemblyLine::dismantle(&package).unwrap(), good);
}

#[test]
fn package_without_payload_is_inconsistent() {
    let mut package: Vec<u8> = vec![0; 256];
    Labeller::label(
        &mut package,
        LabelInfo { block_count: 1, flag_type: FlagType::Delete, good_len: 0 },
    );
    assert!(AssemblyLine::can_dismantle(&package));
    assert_eq!(AssemblyLine::dismantle(&package), Integrity::Inconsistent);
}

#[test]
fn overlong_declaration_cannot_be_dismantled() {
    let mut package: Vec<u8> = vec![0xFF; 256];
    Labeller::label(
        &mut package,
        LabelInfo { block_count: 1, flag_type: FlagType::Insert, good_len: 250 },
    );
    assert!(!AssemblyLine::can_dismantle(&package));
    assert!(!AssemblyLine::can_dismantle(&[1, 0, 1]));

    Labeller::label(
        &mut package,
        LabelInfo { block_count: 1, flag_type: FlagType::Insert, good_len: 249 },
    );
    assert!(AssemblyLine::can_dismantle(&package));
    assert_eq!(AssemblyLine::dismantle(&package), Integrity::Consistent(vec![0xFF; 248]));
}

#[test]
fn consistency_can_be_asked_before_dismantling() {
    let package = AssemblyLine::assemble(vec![1, 2, 3]);
    assert!(AssemblyLine::is_consistent(&package));
    assert!(!AssemblyLine::is_consistent(&package[..6]));

    let mut torn = package.clone();
    torn[10] = 0;
    assert!(!AssemblyLine::is_consistent(&torn));

    assert!(!AssemblyLine::is_consistent(&vec![0u8; 256]));
}

#[test]
fn framing_has_limits() {
    assert!(!AssemblyLine::can_assemble(0));
    assert!(AssemblyLine::can_assemble(1));
    assert!(AssemblyLine::can_assemble(GOOD_MAX_SIZE));
    assert!(AssemblyLine::can_assemble(65535 * 256 - 8));
    assert!(!AssemblyLine::can_assemble(65535 * 256 - 7));
}
