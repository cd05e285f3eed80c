use compacts_bits::bit_vec::BitVec;
use compacts_bits::block::Encoding;
use compacts_bits::ops::Op;
use std::collections::BTreeSet;

struct Rng(u64);

impl Rng {
    fn next(&mut self) -> u64 {
        self.0 ^= self.0 << 13;
        self.0 ^= self.0 >> 7;
        self.0 ^= self.0 << 17;
        self.0
    }
}

fn random_values(seed: u64, n: usize, keys: u32) -> Vec<u32> {
    let mut rng = Rng(seed);
    (0..n)
        .map(|i| {
            let key = (rng.next() as u32) % keys;
            let lo = if i % 4 == 0 { (rng.next() as u32) % 200 } else { (rng.next() as u32) & 0xFFFF };
            key * 65536 * 3 + lo
        })
        .collect()
}

fn sorted(values: &Vec<u32>) -> Vec<u32> {
    let s: BTreeSet<u32> = values.iter().copied().collect();
    s.into_iter().collect()
}

#[test]
fn and() {
    let b1 = {
        let mut vec = BitVec::new();
        vec.insert(1 << 16);
        vec.insert(1 << 20);
        vec
    };
    let b2 = {
        let mut vec = BitVec::new();
        vec.insert(1 << 10);
        vec.insert(1 << 11);
        vec.insert(1 << 20);
        vec
    };

    let bits = b1.and(&b2).bits().into_iter().collect::<Vec<u32>>();
    assert_eq!(bits.len(), 1);
}

#[test]
fn or() {
    let b1 = {
        let mut vec = BitVec::new();
        vec.insert(1 << 16);
        vec.insert(1 << 20);
        vec
    };

    let b2 = {
        let mut vec = BitVec::new();
        vec.insert(1 << 10);
        vec.insert(1 << 11);
        vec.insert(1 << 20);
        vec
    };

    let bits = b1.or(&b2).bits().into_iter().collect::<Vec<u32>>();
    assert_eq!(bits.len(), 4);
}

#[test]
fn and_not() {
    let b1 = {
        let mut vec = BitVec::new();
        vec.insert(1 << 10);
        vec.insert(1 << 11);
        vec.insert(1 << 12);
        vec.insert(1 << 16);
        vec.insert(1 << 20);
        vec
    };
    let b2 = {
        let mut vec = BitVec::new();
        vec.insert(1 << 10);
        vec.insert(1 << 11);
        vec.insert(1 << 20);
        vec
    };

    let bits = b1.and_not(&b2).bits().into_iter().collect::<Vec<u32>>();
    assert_eq!(bits.len(), 2);
}

#[test]
fn xor() {
    let b1 = {
        let mut vec = BitVec::new();
        vec.insert(1 << 10); // 1024
        vec.insert(1 << 11); // 2048
        vec.insert(1 << 12); // 4096
        vec.insert(1 << 16); // 65536
        vec.insert(1 << 20); // 1048576
        vec
    };
    let b2 = {
        let mut vec = BitVec::new();
        vec.insert(1 << 10); // 1024
        vec.insert(1 << 11); // 2048
        vec.insert(1 << 20); // 1048576
        vec.insert(1 << 26); // 67108864
        vec.insert(1 << 30); // 1073741824
        vec
    };

    for b in b1.bits() {
        println!("b1 {:?}", b);
    }
    for b in b2.bits() {
        println!("b2 {:?}", b);
    }

    // 10 11 12 16 20
    // 10 11       20 26 30
    let bits = b1.xor(&b2).bits().into_iter().collect::<Vec<u32>>();
    assert_eq!(bits.len(), 4);
}

#[test]
fn scenario_of_two_small_maps() {
    let a = BitVec::from_values(&vec![65536, 1048576]);
    let b = BitVec::from_values(&vec![1024, 2048, 1048576]);
    assert_eq!(a.and(&b).bits(), vec![1048576]);
    assert_eq!(a.or(&b).bits(), vec![1024, 2048, 65536, 1048576]);
    assert_eq!(a.and_not(&b).bits(), vec![65536]);
    let c = BitVec::from_values(&vec![1024, 2048, 4096, 65536, 1048576]);
    let d = BitVec::from_values(&vec![1024, 2048, 1048576, 67108864, 1073741824]);
    assert_eq!(c.xor(&d).bits(), vec![4096, 65536, 67108864, 1073741824]);
    assert_eq!(c.xor(&d).count_ones(), 4);
    assert_eq!(c.and_not(&d).bits(), vec![4096, 65536]);
}

#[test]
fn new_map_is_empty() {
    let m = BitVec::new();
    assert!(m.is_empty());
    assert_eq!(m.count_ones(), 0);
    assert_eq!(m.count_zeros(), 1 << 32);
    assert_eq!(m.bits(), Vec::<u32>::new());
    assert_eq!(m.rank1(u32::MAX), 0);
    assert_eq!(m.rank0(u32::MAX), u32::MAX);
    assert_eq!(m.select1(0), None);
    assert_eq!(m.select0(0), Some(0));
    assert_eq!(m.select0(u32::MAX), Some(u32::MAX));
    assert!(!m.contains(0));
}

#[test]
fn insert_remove_contains() {
    let mut m = BitVec::new();
    let mut model = BTreeSet::new();
    let mut rng = Rng(0xABCD_EF01_2345_6789);
    for _ in 0..6000 {
        let v = ((rng.next() % 5) as u32) * 65536 + ((rng.next() % 400) as u32);
        if rng.next() % 3 == 0 {
            assert_eq!(m.remove(v), model.remove(&v));
        } else {
            assert_eq!(m.insert(v), model.insert(v));
        }
        assert_eq!(m.contains(v), model.contains(&v));
        assert_eq!(m.count_ones(), model.len() as u64);
    }
    assert_eq!(m.bits(), model.iter().copied().collect::<Vec<u32>>());
    for v in m.bits() {
        assert!(m.remove(v));
    }
    assert!(m.is_empty());
    assert_eq!(m.bits(), Vec::<u32>::new());
}

#[test]
fn insert_at_and_remove_at() {
    let mut m = BitVec::new();
    assert!(m.insert_at(2, 7));
    assert!(!m.insert_at(2, 7));
    assert!(m.insert_at(0, 65535));
    assert!(m.insert_at(65535, 65535));
    assert_eq!(m.bits(), vec![65535, 2 * 65536 + 7, u32::MAX]);
    assert!(m.contains(131079));
    assert!(m.remove_at(2, 7));
    assert!(!m.remove_at(2, 7));
    assert!(!m.remove_at(3, 7));
    assert_eq!(m.bits(), vec![65535, u32::MAX]);
}

#[test]
fn an_entry_leaves_with_its_last_value() {
    let mut m = BitVec::new();
    m.insert(70000);
    m.insert(70001);
    assert!(m.remove(70000));
    assert!(!m.is_empty());
    assert!(m.remove(70001));
    assert!(m.is_empty());
    assert_eq!(m.count_ones(), 0);
    assert_eq!(m.select1(0), None);
    assert_eq!(m.rank1(u32::MAX), 0);
}

#[test]
fn idempotence_on_a_map() {
    let values = vec![5, 65536, 65537, 1 << 30];
    let mut m = BitVec::from_values(&values);
    assert!(!m.insert(65537));
    assert_eq!(m.count_ones(), 4);
    assert_eq!(m.bits(), values);
    assert!(!m.remove(6));
    assert!(!m.remove(1 << 29));
    assert_eq!(m.count_ones(), 4);
    assert_eq!(m.bits(), values);
}

#[test]
fn prop_map32_rank0_rank1() {
    for seed in 1..6u64 {
        let values = random_values(seed * 7919, 3000, 9);
        let m = BitVec::from_values(&values);
        let s = sorted(&values);
        let mut rng = Rng(seed);
        let mut probes: Vec<u32> = vec![0, 1, 65535, 65536, 65537, u32::MAX];
        probes.extend(s.iter().take(50));
        for _ in 0..200 {
            probes.push(rng.next() as u32 % (30 * 65536));
        }
        for i in probes {
            let want = s.iter().filter(|&&v| v < i).count() as u32;
            assert_eq!(m.rank1(i), want);
            assert_eq!(m.rank0(i), i - want);
            assert_eq!(m.rank1(i) + m.rank0(i), i);
        }
    }
}

#[test]
fn prop_map32_rank1_select1() {
    for seed in 1..6u64 {
        let values = random_values(seed * 104729, 3000, 9);
        let m = BitVec::from_values(&values);
        let s = sorted(&values);
        assert_eq!(m.count_ones(), s.len() as u64);
        for c in (0..s.len() as u32 + 5).step_by(7) {
            match m.select1(c) {
                Some(p) => {
                    assert_eq!(p, s[c as usize]);
                    assert_eq!(m.rank1(p), c);
                }
                None => assert!(c as usize >= s.len()),
            }
        }
        assert_eq!(m.select1(s.len() as u32), None);
        assert_eq!(m.select1(s.len() as u32 - 1), s.last().copied());
    }
}

#[test]
fn prop_map32_rank0_select0() {
    let values: Vec<u32> = (0..70000u32).chain(200000..200010).chain([u32::MAX - 1]).collect();
    let m = BitVec::from_values(&values);
    assert_eq!(m.select0(0), Some(70000));
    assert_eq!(m.select0(129999), Some(199999));
    assert_eq!(m.select0(130000), Some(200010));
    assert_eq!(m.select0(u32::MAX), None);
    let zeros = m.count_zeros();
    assert_eq!(zeros, (1u64 << 32) - 70011);
    assert_eq!(m.select0((zeros - 1) as u32), Some(u32::MAX));
    assert_eq!(m.select0((zeros - 2) as u32), Some(u32::MAX - 2));
    assert_eq!(m.select0(zeros as u32), None);
    let mut rng = Rng(77);
    for _ in 0..300 {
        let c = rng.next() as u32;
        match m.select0(c) {
            Some(p) => {
                assert!(!m.contains(p));
                assert_eq!(m.rank0(p), c);
            }
            None => assert!(c as u64 >= zeros),
        }
    }
    let full_block = BitVec::from_values(&(0..65536u32).collect());
    assert_eq!(full_block.select0(0), Some(65536));
    assert_eq!(full_block.rank1(65536), 65536);
}

#[test]
fn bits_come_in_increasing_order_and_rebuild_the_map() {
    for seed in 1..5u64 {
        let values = random_values(seed * 31, 5000, 20);
        let m = BitVec::from_values(&values);
        let bits = m.bits();
        assert_eq!(bits, sorted(&values));
        assert!(bits.windows(2).all(|w| w[0] < w[1]));
        assert_eq!(bits.len() as u64, m.count_ones());
        // asking again gives the same sequence
        assert_eq!(m.bits(), bits);
        let again = BitVec::from_values(&bits);
        assert_eq!(again.bits(), bits);
        assert_eq!(again.count_ones(), m.count_ones());
        for i in [0u32, 1000, 65536, 400000, u32::MAX] {
            assert_eq!(again.rank1(i), m.rank1(i));
        }
        for c in [0u32, 1, 100, 4000, 6000] {
            assert_eq!(again.select1(c), m.select1(c));
            assert_eq!(again.select0(c), m.select0(c));
        }
    }
}

fn naive(op: Op, a: &Vec<u32>, b: &Vec<u32>) -> Vec<u32> {
    let sa: BTreeSet<u32> = a.iter().copied().collect();
    let sb: BTreeSet<u32> = b.iter().copied().collect();
    let r: Vec<u32> = match op {
        Op::And => sa.intersection(&sb).copied().collect(),
        Op::Or => sa.union(&sb).copied().collect(),
        Op::AndNot => sa.difference(&sb).copied().collect(),
        Op::Xor => sa.symmetric_difference(&sb).copied().collect(),
    };
    r
}

fn operands() -> Vec<Vec<u32>> {
    vec![
        vec![],
        vec![7],
        random_values(11, 2000, 6),
        random_values(13, 2000, 6),
        random_values(17, 9000, 3),
        (0..70000u32).collect(),
        (60000..140000u32).filter(|v| v % 3 != 0).collect(),
        (0..200000u32).filter(|v| v % 2 == 0).collect(),
        vec![65535, 65536, 131071, 131072, u32::MAX],
    ]
}

#[test]
fn map_algebra_against_sets() {
    let ops = operands();
    for x in &ops {
        for y in &ops {
            let a = BitVec::from_values(x);
            let b = BitVec::from_values(y);
            for op in [Op::And, Op::Or, Op::AndNot, Op::Xor] {
                let want = naive(op, x, y);
                let r = a.combine(&b, op);
                assert_eq!(r.bits(), want);
                assert_eq!(r.count_ones(), want.len() as u64);
                assert_eq!(r.is_empty(), want.is_empty());
            }
            assert_eq!(a.and(&b).bits(), naive(Op::And, x, y));
            assert_eq!(a.or(&b).bits(), naive(Op::Or, x, y));
            assert_eq!(a.and_not(&b).bits(), naive(Op::AndNot, x, y));
            assert_eq!(a.xor(&b).bits(), naive(Op::Xor, x, y));
        }
    }
}

#[test]
fn map_algebra_in_place() {
    let x = random_values(101, 3000, 5);
    let y = random_values(103, 3000, 7);
    let b = BitVec::from_values(&y);
    let mut a = BitVec::from_values(&x);
    a.intersection_with(&b);
    assert_eq!(a.bits(), naive(Op::And, &x, &y));
    let mut a = BitVec::from_values(&x);
    a.union_with(&b);
    assert_eq!(a.bits(), naive(Op::Or, &x, &y));
    let mut a = BitVec::from_values(&x);
    a.difference_with(&b);
    assert_eq!(a.bits(), naive(Op::AndNot, &x, &y));
    let mut a = BitVec::from_values(&x);
    a.symmetric_difference_with(&b);
    assert_eq!(a.bits(), naive(Op::Xor, &x, &y));
    // the other map is left as it was
    assert_eq!(b.bits(), sorted(&y));
}

#[test]
fn keys_of_one_map_only() {
    let a = BitVec::from_values(&vec![1, 65536 + 1, 5 * 65536 + 1]);
    let b = BitVec::from_values(&vec![65536 + 1, 65536 + 2, 9 * 65536]);
    // a key that the other map lacks leaves an intersection
    assert_eq!(a.and(&b).bits(), vec![65537]);
    // and is copied into a union and a symmetric difference
    assert_eq!(a.or(&b).bits(), vec![1, 65537, 65538, 5 * 65536 + 1, 9 * 65536]);
    assert_eq!(a.xor(&b).bits(), vec![1, 65538, 5 * 65536 + 1, 9 * 65536]);
    // a key of the second map only gives nothing to a difference
    assert_eq!(a.and_not(&b).bits(), vec![1, 5 * 65536 + 1]);
    // a block that becomes empty leaves the map
    let c = BitVec::from_values(&vec![65537]);
    let d = c.and_not(&b);
    assert!(d.is_empty());
    assert_eq!(d.count_ones(), 0);
    assert!(c.xor(&c).is_empty());
}

#[test]
fn prop_associativity() {
    let ops = operands();
    for x in &ops[1..5] {
        for y in &ops[2..7] {
            for z in &ops[4..9] {
                let a = BitVec::from_values(x);
                let b = BitVec::from_values(y);
                let c = BitVec::from_values(z);
                assert_eq!(a.and(&b).and(&c).bits(), a.and(&b.and(&c)).bits());
                assert_eq!(a.or(&b).or(&c).bits(), a.or(&b.or(&c)).bits());
                assert_eq!(a.xor(&b).xor(&c).bits(), a.xor(&b.xor(&c)).bits());
                assert_eq!(a.or(&b).or(&c).count_ones(), a.or(&b.or(&c)).count_ones());
            }
        }
    }
}

#[test]
fn prop_commutativity() {
    let ops = operands();
    for x in &ops {
        for y in &ops {
            let a = BitVec::from_values(x);
            let b = BitVec::from_values(y);
            assert_eq!(a.and(&b).bits(), b.and(&a).bits());
            assert_eq!(a.or(&b).bits(), b.or(&a).bits());
            assert_eq!(a.xor(&b).bits(), b.xor(&a).bits());
            assert_eq!(a.and(&b).count_ones(), b.and(&a).count_ones());
        }
    }
}

#[test]
fn prop_difference_and_symmetric_difference() {
    let ops = operands();
    for x in &ops {
        for y in &ops {
            let a = BitVec::from_values(x);
            let b = BitVec::from_values(y);
            // (a - b) | (a & b) == a
            assert_eq!(a.and_not(&b).or(&a.and(&b)).bits(), a.bits());
            assert_eq!(a.and_not(&b).count_ones() + a.and(&b).count_ones(), a.count_ones());
            // a ^ b == (a | b) - (a & b)
            assert_eq!(a.xor(&b).bits(), a.or(&b).and_not(&a.and(&b)).bits());
            assert_eq!(a.xor(&b).count_ones(), a.or(&b).count_ones() - a.and(&b).count_ones());
        }
    }
}

fn three_kinds() -> (BitVec, BitVec) {
    // under key 0 a run, under key 1 a few scattered values
    let a: Vec<u32> = (0..1000u32).chain([65536 + 3, 65536 + 900, 65536 + 40000]).collect();
    // under key 1 one value, under key 2 every second value
    let b: Vec<u32> = [65536 + 3].into_iter().chain((0..20000u32).map(|v| 2 * 65536 + 2 * v)).collect();
    (BitVec::from_values(&a), BitVec::from_values(&b))
}

#[test]
fn the_encoding_under_a_key() {
    let (a, b) = three_kinds();
    assert_eq!(a.kind_at(0), Some(Encoding::Rle16));
    assert_eq!(a.kind_at(1), Some(Encoding::Seq16));
    assert_eq!(a.kind_at(2), None);
    assert_eq!(b.kind_at(0), None);
    assert_eq!(b.kind_at(1), Some(Encoding::Seq16));
    assert_eq!(b.kind_at(2), Some(Encoding::Seq64));
    assert_eq!(BitVec::new().kind_at(0), None);
}

#[test]
fn a_block_of_one_map_only_is_copied_as_it_is() {
    let (a, b) = three_kinds();
    let u = a.or(&b);
    assert_eq!(u.kind_at(0), Some(Encoding::Rle16));
    assert_eq!(u.kind_at(2), Some(Encoding::Seq64));
    let d = a.and_not(&b);
    assert_eq!(d.kind_at(0), Some(Encoding::Rle16));
    assert_eq!(d.kind_at(1), Some(Encoding::Seq16));
    assert_eq!(d.kind_at(2), None);
    let x = a.xor(&b);
    assert_eq!(x.kind_at(0), Some(Encoding::Rle16));
    assert_eq!(x.kind_at(2), Some(Encoding::Seq64));
    let i = a.and(&b);
    assert_eq!(i.kind_at(0), None);
    assert_eq!(i.kind_at(1), Some(Encoding::Seq16));
    assert_eq!(i.kind_at(2), None);
    let mut m = a.clone();
    m.union_with(&b);
    assert_eq!(m.kind_at(0), Some(Encoding::Rle16));
    assert_eq!(m.kind_at(2), Some(Encoding::Seq64));
    let mut m = a.clone();
    m.difference_with(&b);
    assert_eq!(m.kind_at(0), Some(Encoding::Rle16));
    let mut m = a.clone();
    m.symmetric_difference_with(&b);
    assert_eq!(m.kind_at(0), Some(Encoding::Rle16));
    assert_eq!(m.kind_at(2), Some(Encoding::Seq64));
}

#[test]
fn insert_and_remove_leave_the_block_in_its_preferred_encoding() {
    let mut m = BitVec::new();
    assert!(m.insert_at(9, 500));
    for lo in 0..34u16 {
        m.insert_at(5, lo);
    }
    // 34 values in one run: the run-length encoding saves 64 bytes, which is not enough
    assert_eq!(m.kind_at(5), Some(Encoding::Seq16));
    m.insert_at(5, 34);
    assert_eq!(m.kind_at(5), Some(Encoding::Rle16));
    // the block under the other key is not touched
    assert_eq!(m.kind_at(9), Some(Encoding::Seq16));
    m.remove_at(5, 34);
    assert_eq!(m.kind_at(5), Some(Encoding::Rle16));
    for lo in 0..34u16 {
        m.remove_at(5, lo);
    }
    assert_eq!(m.kind_at(5), None);
    assert_eq!(m.kind_at(9), Some(Encoding::Seq16));
    assert_eq!(m.bits(), vec![9 * 65536 + 500]);
}
