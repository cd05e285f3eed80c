use compacts_bits::bit_vec::iter::{Inner, Iter};
use compacts_bits::bit_vec::BitVec;

fn walk(map: &BitVec) -> Vec<u32> {
    let mut it = Iter::new(map);
    let mut out = Vec::new();
    while let Some(v) = it.next() {
        out.push(v);
    }
    // a walk that has ended stays ended
    assert_eq!(it.next(), None);
    assert_eq!(it.next(), None);
    out
}

#[test]
fn a_walk_gives_the_values_in_increasing_order() {
    let sets: Vec<Vec<u32>> = vec![
        vec![],
        vec![0],
        vec![u32::MAX],
        vec![0, 65535, 65536, 131071, 131072, u32::MAX],
        (0..70000u32).collect(),
        (0..300000u32).filter(|v| v % 5 == 1).collect(),
        vec![9, 1 << 16, 1 << 20, 1 << 26, 1 << 30],
    ];
    for values in sets {
        let map = BitVec::from_values(&values);
        let got = walk(&map);
        assert_eq!(got, values);
        assert_eq!(got, map.bits());
        // a fresh walk starts again
        assert_eq!(walk(&map), values);
    }
}

#[test]
fn a_walk_gives_select_of_its_ordinal() {
    let map = BitVec::from_values(&vec![7, 70000, 70001, 1 << 25]);
    let mut it = Iter::new(&map);
    for c in 0..6u32 {
        assert_eq!(it.next(), map.select1(c));
    }
}

#[test]
fn the_states_of_a_walk() {
    let map = BitVec::from_values(&vec![5, 6, 65536 * 3 + 1]);
    let mut at = Inner::new(&map);
    assert!(matches!(at, Inner::Seek { entry: 0, key: 0, bit: 0 }));
    // inside an entry, moving on changes nothing
    at.move_next(&map);
    assert!(matches!(at, Inner::Seek { entry: 0, key: 0, bit: 0 }));
    assert_eq!(at.seek_next(&map), Some(5));
    assert!(matches!(at, Inner::Seek { entry: 0, key: 0, bit: 1 }));
    assert_eq!(at.seek_next(&map), Some(6));
    assert!(matches!(at, Inner::Seek { entry: 0, key: 0, bit: 2 }));
    // the entry is used up
    assert_eq!(at.seek_next(&map), None);
    assert!(matches!(at, Inner::Move { entry: 1 }));
    // between entries, seeking gives nothing
    assert_eq!(at.seek_next(&map), None);
    assert!(matches!(at, Inner::Move { entry: 1 }));
    at.move_next(&map);
    assert!(matches!(at, Inner::Seek { entry: 1, key: 3, bit: 0 }));
    assert_eq!(at.seek_next(&map), Some(65536 * 3 + 1));
    assert_eq!(at.seek_next(&map), None);
    assert!(matches!(at, Inner::Move { entry: 2 }));
    // behind the last entry, moving on changes nothing
    at.move_next(&map);
    assert!(matches!(at, Inner::Move { entry: 2 }));
    let empty = BitVec::new();
    let mut at = Inner::new(&empty);
    assert!(matches!(at, Inner::Move { entry: 0 }));
    at.move_next(&empty);
    assert!(matches!(at, Inner::Move { entry: 0 }));
    assert_eq!(at.seek_next(&empty), None);
}

#[test]
fn a_copy_of_a_map_holds_the_same_values() {
    let values: Vec<u32> = (0..5000u32).map(|v| v * 37).collect();
    let map = BitVec::from_values(&values);
    let mut copy = map.clone();
    assert_eq!(copy.bits(), values);
    assert_eq!(copy.count_ones(), map.count_ones());
    // the copy is a map of its own
    assert!(copy.insert(1));
    assert!(copy.contains(1));
    assert!(!map.contains(1));
    assert_eq!(map.bits(), values);
}

#[test]
fn a_fresh_walk_stands_before_the_first_entry() {
    let map = BitVec::from_values(&vec![5, 6, 65536 * 3 + 1]);
    let mut it = Iter::new(&map);
    assert!(matches!(it.state(), Inner::Move { entry: 0 }));
    assert_eq!(it.next(), Some(5));
    assert!(matches!(it.state(), Inner::Seek { entry: 0, key: 0, bit: 1 }));
    // a second walk over the same map starts again
    let again = Iter::new(&map);
    assert!(matches!(again.state(), Inner::Move { entry: 0 }));
    let empty = BitVec::new();
    let mut it = Iter::new(&empty);
    assert!(matches!(it.state(), Inner::Move { entry: 0 }));
    assert_eq!(it.next(), None);
    assert!(matches!(it.state(), Inner::Move { entry: 0 }));
}
