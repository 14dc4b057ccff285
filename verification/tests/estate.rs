use rand::Rng;
use warehouse::estate::{Farming, Residential, WholeNumber};

fn random_slot() -> usize {
    rand::thread_rng().gen_range(1..=30) as usize
}

fn random_size() -> usize {
    rand::thread_rng().gen_range(1..=50) as usize
}

#[test]
fn residential_alloted_normally() {
    let mut residential: Residential<u32> = Residential::new(random_slot());
    let max = 100;

    for index in 0..=max {
        let address = residential.allot();
        assert_eq!(address, index)
    }
}

#[test]
fn residential_wrong_address() {
    let mut residential: Residential<u8> = Residential::new(random_slot());

    let address = residential.allot();

    let location = residential.get_location(address + 1);

    assert_eq!(location, None)
}

#[test]
fn residential_retained_address() {
    let mut residential: Residential<u8> = Residential::new(random_slot());

    residential.allot();
    let address = residential.allot();
    residential.allot();

    residential.retain(address);

    let location = residential.get_location(address);

    assert_eq!(location, None)
}

#[test]
fn residential_successful() {
    let random = random_slot();
    let mut residential: Residential<u8> = Residential::new(random);

    residential.register(0);
    residential.retain(0);
    residential.register(random);
}

#[test]
fn residential_locations_are_multiples_of_the_slot() {
    let mut residential: Residential<u16> = Residential::new(12);

    let first = residential.allot();
    let second = residential.allot();
    let third = residential.allot();

    assert_eq!((first, second, third), (0, 1, 2));
    assert_eq!(residential.get_location(first), Some(0));
    assert_eq!(residential.get_location(second), Some(12));
    assert_eq!(residential.get_location(third), Some(24));
    assert_eq!(residential.get_location(3), None);
}

#[test]
fn residential_reuses_the_address_retained_last() {
    let mut residential: Residential<u8> = Residential::new(4);
    for _ in 0..5 {
        residential.allot();
    }

    residential.retain(1);
    residential.retain(3);
    assert_eq!(residential.get_location(1), None);
    assert_eq!(residential.get_location(3), None);
    assert_eq!(residential.peek(), 3);

    assert_eq!(residential.allot(), 3);
    assert_eq!(residential.get_location(3), Some(12));
    assert_eq!(residential.allot(), 1);
    assert_eq!(residential.allot(), 5);
    assert_eq!(residential.get_location(5), Some(20));
}

#[test]
fn residential_never_hands_out_a_live_address() {
    let mut residential: Residential<u16> = Residential::new(3);
    let mut live: Vec<u16> = Vec::new();
    let mut rng = rand::thread_rng();

    for _ in 0..500 {
        if !live.is_empty() && rng.gen_range(0..3) == 0 {
            let index = rng.gen_range(0..live.len());
            let address = live.swap_remove(index);
            residential.retain(address);
            assert_eq!(residential.get_location(address), None);
        } else {
            let address = residential.allot();
            assert!(!live.contains(&address));
            assert_eq!(residential.get_location(address), Some(address as u64 * 3));
            live.push(address);
        }
    }
}

#[test]
fn residential_room_ends_with_the_address_type() {
    // slots of 100: locations 0 and 100 fit a u8, 200 plus 100 does not
    let mut residential: Residential<u8> = Residential::new(100);
    assert!(residential.can_allot());
    residential.allot();
    assert!(residential.can_allot());
    residential.allot();
    assert!(!residential.can_allot());

    residential.retain(0);
    assert!(residential.can_allot());
    assert_eq!(residential.allot(), 0);
    assert!(!residential.can_allot());
}

#[test]
fn residential_register_replays_slots_in_order() {
    let mut residential: Residential<u16> = Residential::new(8);

    assert_eq!(residential.register(0), 0);
    assert_eq!(residential.register(8), 1);
    assert_eq!(residential.register(16), 2);
    assert_eq!(residential.get_location(2), Some(16));
    assert_eq!(residential.allot(), 3);
}

#[test]
fn farming_alloted_normally() {
    let mut farming: Farming<u32> = Farming::new();
    let max = 100;

    for index in 0..=max {
        let address = farming.allot(random_size());
        assert_eq!(address, index)
    }
}

#[test]
fn farming_wrong_address() {
    // location of an address that was never handed out
    let mut farming: Farming<u8> = Farming::new();

    let address = farming.allot(1);

    let location = farming.get_location(address + 1);

    assert_eq!(location, None);

    // size of an address that was never handed out
    let mut farming: Farming<u8> = Farming::new();

    let address = farming.allot(1);

    let size = farming.get_size(address + 1);

    assert_eq!(size, None)
}

#[test]
fn farming_retained_address() {
    // location of a retained address
    let mut farming: Farming<u8> = Farming::new();

    let size1 = random_size();
    let size2 = random_size();
    let size3 = random_size();

    farming.allot(size1);
    let address = farming.allot(size2);
    farming.allot(size3);

    farming.retain(address);

    let location = farming.get_location(address);

    assert_eq!(location, None);

    // size of a retained address
    let mut farming: Farming<u8> = Farming::new();

    let size1 = random_size();
    let size2 = random_size();
    let size3 = random_size();

    farming.allot(size1);
    let address = farming.allot(size2);
    farming.allot(size3);

    farming.retain(address);

    let size = farming.get_size(address);

    assert_eq!(size, None)
}

#[test]
fn farming_successful() {
    let mut farming: Farming<u8> = Farming::new();

    farming.register(0, 3);
    farming.retain(0);
    farming.register(3, 2);
}

#[test]
fn farming_estates_lie_one_after_the_other() {
    let mut farming: Farming<u16> = Farming::new();

    let first = farming.allot(3);
    let second = farming.allot(5);
    let third = farming.allot(1);

    assert_eq!((first, second, third), (0, 1, 2));
    assert_eq!(farming.get_location(first), Some(0));
    assert_eq!(farming.get_location(second), Some(3));
    assert_eq!(farming.get_location(third), Some(8));
    assert_eq!(farming.get_size(first), Some(3));
    assert_eq!(farming.get_size(second), Some(5));
    assert_eq!(farming.get_size(third), Some(1));
    assert_eq!(farming.frontier(), 9);
    assert_eq!(farming.get_location(3), None);
    assert_eq!(farming.get_size(3), None);
}

#[test]
fn farming_reuses_an_address_of_the_same_size_only() {
    let mut farming: Farming<u16> = Farming::new();
    let small = farming.allot(2);
    let large = farming.allot(7);
    let other = farming.allot(2);
    farming.allot(4);

    farming.retain(small);
    farming.retain(large);
    farming.retain(other);

    // no estate of size 3 waits: fresh land
    assert_eq!(farming.allot(3), 4);
    assert_eq!(farming.get_location(4), Some(15));

    // of the two of size 2, the one retained last goes first
    assert_eq!(farming.allot(2), other);
    assert_eq!(farming.get_location(other), Some(9));
    assert_eq!(farming.allot(2), small);
    assert_eq!(farming.get_location(small), Some(0));
    assert_eq!(farming.allot(2), 5);

    assert_eq!(farming.allot(7), large);
    assert_eq!(farming.get_location(large), Some(2));
    assert_eq!(farming.get_size(large), Some(7));
}

#[test]
fn farming_never_hands_out_a_live_address() {
    let mut farming: Farming<u32> = Farming::new();
    let mut live: Vec<(u32, usize)> = Vec::new();
    let mut rng = rand::thread_rng();

    for _ in 0..500 {
        if !live.is_empty() && rng.gen_range(0..3) == 0 {
            let index = rng.gen_range(0..live.len());
            let (address, _) = live.swap_remove(index);
            farming.retain(address);
            assert_eq!(farming.get_location(address), None);
            assert_eq!(farming.get_size(address), None);
        } else {
            let size = rng.gen_range(1..=4) as usize;
            let address = farming.allot(size);
            assert!(live.iter().all(|(other, _)| *other != address));
            assert_eq!(farming.get_size(address), Some(size));
            live.push((address, size));
        }
    }

    // the estates of the live addresses do not overlap
    let mut spans: Vec<(usize, usize)> = live
        .iter()
        .map(|(address, size)| (farming.get_location(*address).unwrap(), *size))
        .collect();
    spans.sort();
    for pair in spans.windows(2) {
        assert!(pair[0].0 + pair[0].1 <= pair[1].0);
    }
}

#[test]
fn farming_room_ends_with_the_address_type() {
    let mut farming: Farming<u8> = Farming::new();
    assert!(!farming.can_allot(0));
    assert!(farming.can_allot(255));
    assert!(!farming.can_allot(256));

    farming.allot(250);
    assert!(farming.can_allot(5));
    assert!(!farming.can_allot(6));

    // a retained estate does not make room past the limit
    farming.retain(0);
    assert!(!farming.can_allot(250));
}

#[test]
fn farming_register_never_reuses() {
    let mut farming: Farming<u8> = Farming::new();
    let first = farming.allot(3);
    farming.retain(first);

    let registered = farming.register(3, 3);

    assert_eq!(registered, 1);
    assert_eq!(farming.get_location(registered), Some(3));
    assert_eq!(farming.get_location(first), None);
    assert_eq!(farming.allot(3), first);
}

#[test]
fn whole_numbers_convert() {
    assert_eq!(u8::get_max(), 255);
    assert_eq!(u16::get_max(), 65535);
    assert_eq!(u32::get_max(), u32::MAX);
    assert_eq!(u64::get_max(), u64::MAX);
    assert_eq!(7u8.to_usize(), 7);
    assert_eq!(u16::from_usize(300), 300);
    assert_eq!(u32::from_usize(70000), 70000);
    assert_eq!(u64::from_usize(5), 5);
    assert_eq!(5u8.add_int(3), 8);
    assert_eq!(5u8.add_int(-5), 0);
    assert_eq!(250u8.add_int(5), 255);
    assert_eq!(1000u16.add_int(-1), 999);
    assert_eq!(u32::MAX.add_int(-1), u32::MAX - 1);
    assert_eq!((u32::MAX - 1).add_int(1), u32::MAX);
    assert_eq!(u64::MAX.add_int(-1), u64::MAX - 1);
    assert_eq!(0u64.add_int(i32::MAX), i32::MAX as u64);
    assert_eq!((1u64 << 40).add_int(i32::MIN), (1u64 << 40) - (1u64 << 31));
}

#[test]
fn register_can_be_asked_first() {
    let mut residential: Residential<u8> = Residential::new(100);
    assert!(residential.can_register(0));
    assert!(!residential.can_register(100));
    residential.register(0);
    assert!(residential.can_register(100));
    residential.register(100);
    assert!(!residential.can_register(200));

    let mut farming: Farming<u8> = Farming::new();
    assert!(farming.can_register(0, 255));
    assert!(!farming.can_register(0, 0));
    assert!(!farming.can_register(0, 256));
    assert!(!farming.can_register(1, 1));
    farming.register(0, 200);
    assert!(farming.can_register(200, 55));
    assert!(!farming.can_register(200, 56));
}

#[test]
fn residential_counts_the_room_for_many() {
    let mut residential: Residential<u8> = Residential::new(50);
    assert!(!residential.has_retained());
    assert!(residential.can_allot_many(0));
    assert!(residential.can_allot_many(5));
    assert!(!residential.can_allot_many(6));

    for _ in 0..5 {
        residential.allot();
    }
    assert!(residential.can_allot_many(0));
    assert!(!residential.can_allot_many(1));

    residential.retain(2);
    residential.retain(4);
    assert!(residential.has_retained());
    assert!(residential.can_allot_many(2));
    assert!(!residential.can_allot_many(3));
}
