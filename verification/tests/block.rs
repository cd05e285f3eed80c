use compacts_bits::block::{choose_encoding, footprint_of, Block, DomainError, Encoding, HYSTERESIS};
use compacts_bits::inner::{Rle16, Seq16, Seq64, CAP32, CAPACITY, UNIT};
use compacts_bits::ops::Op;

struct Rng(u64);

impl Rng {
    fn next(&mut self) -> u64 {
        self.0 ^= self.0 << 13;
        self.0 ^= self.0 >> 7;
        self.0 ^= self.0 << 17;
        self.0
    }
}

fn sample_sets() -> Vec<Vec<u16>> {
    let mut sets: Vec<Vec<u16>> = vec![
        vec![],
        vec![0],
        vec![65535],
        vec![0, 65535],
        vec![1, 2, 3, 4, 5],
        vec![63, 64, 65, 127, 128, 129],
        (0..=65535u16).collect(),
        (0..5000u16).collect(),
        (100..200u16).chain(300..400).chain(65000..=65535).collect(),
        (0..=65535u16).filter(|v| v % 2 == 0).collect(),
        (0..=65535u16).filter(|v| v % 7 != 3).collect(),
        (0..=65535u16).filter(|v| v % 1000 < 3).collect(),
    ];
    let mut rng = Rng(0x2545_F491_4F6C_DD1D);
    for n in [1usize, 10, 100, 1000, 5000, 20000] {
        let mut v: Vec<u16> = (0..n).map(|_| rng.next() as u16).collect();
        v.sort();
        v.dedup();
        sets.push(v);
    }
    sets
}

fn all_kind_block(vec: &Vec<u16>) -> (Block, Block, Block) {
    let b1 = Block::Seq16(Seq16::from_values(vec));
    let b2 = Block::Seq64(Seq64::from_values(vec));
    let b3 = Block::Rle16(Rle16::from_values(vec));
    (b1, b2, b3)
}

fn positions() -> Vec<u16> {
    let mut p: Vec<u16> = vec![0, 1, 2, 62, 63, 64, 65, 127, 128, 4095, 4096, 4097, 32767, 32768, 65534, 65535];
    let mut rng = Rng(0x1234_5678_9ABC_DEF1);
    for _ in 0..60 {
        p.push(rng.next() as u16);
    }
    p
}

fn naive_rank1(vec: &Vec<u16>, i: u16) -> u32 {
    vec.iter().filter(|&&v| v < i).count() as u32
}

fn naive_select0(vec: &Vec<u16>, c: u16) -> Option<u16> {
    let mut seen: u32 = 0;
    let mut k = 0usize;
    for p in 0..=65535u32 {
        if k < vec.len() && vec[k] as u32 == p {
            k += 1;
            continue;
        }
        if seen == c as u32 {
            return Some(p as u16);
        }
        seen += 1;
    }
    None
}

#[test]
fn new_block_is_empty_and_sparse() {
    let b = Block::new();
    assert_eq!(b.count_ones(), 0);
    assert_eq!(b.count_zeros(), 65536);
    assert!(b.is_empty());
    assert_eq!(b.kind(), Encoding::Seq16);
    assert_eq!(b.values(), Vec::<u16>::new());
    assert_eq!(b.select1(0), None);
    assert_eq!(b.select0(0), Some(0));
    assert_eq!(b.select0(65535), Some(65535));
    assert_eq!(b.rank1(65535), 0);
    assert_eq!(b.rank0(65535), 65535);
}

#[test]
fn prop_block_all_count1() {
    for vec in sample_sets() {
        let (b1, b2, b3) = all_kind_block(&vec);
        assert_eq!(b1.count_ones(), vec.len() as u32);
        assert!(b1.count_ones() == b2.count_ones() && b2.count_ones() == b3.count_ones());
    }
}

#[test]
fn prop_block_all_count0() {
    for vec in sample_sets() {
        let (b1, b2, b3) = all_kind_block(&vec);
        assert_eq!(b1.count_zeros(), 65536 - vec.len() as u32);
        assert!(b1.count_zeros() == b2.count_zeros() && b2.count_zeros() == b3.count_zeros());
    }
}

#[test]
fn prop_block_all_rank() {
    for vec in sample_sets() {
        let (b1, b2, b3) = all_kind_block(&vec);
        for i in positions() {
            let want = naive_rank1(&vec, i);
            assert_eq!(b1.rank1(i), want);
            assert_eq!(b2.rank1(i), want);
            assert_eq!(b3.rank1(i), want);
            assert_eq!(b1.rank0(i), i as u32 - want);
            assert_eq!(b2.rank0(i), i as u32 - want);
            assert_eq!(b3.rank0(i), i as u32 - want);
        }
    }
}

#[test]
fn prop_block_all_select1() {
    for vec in sample_sets() {
        let (b1, b2, b3) = all_kind_block(&vec);
        for c in positions() {
            let want = vec.get(c as usize).copied();
            assert_eq!(b1.select1(c), want);
            assert_eq!(b2.select1(c), want);
            assert_eq!(b3.select1(c), want);
        }
    }
}

#[test]
fn prop_block_all_select0() {
    for vec in sample_sets() {
        let (b1, b2, b3) = all_kind_block(&vec);
        for c in [0u16, 1, 2, 63, 64, 100, 999, 30000, 60000, 65534, 65535] {
            let want = naive_select0(&vec, c);
            assert_eq!(b1.select0(c), want);
            assert_eq!(b2.select0(c), want);
            assert_eq!(b3.select0(c), want);
        }
    }
}

#[test]
fn prop_block_rank0_rank1_add_up() {
    for vec in sample_sets() {
        let (b1, b2, b3) = all_kind_block(&vec);
        for b in [&b1, &b2, &b3] {
            for i in positions() {
                assert_eq!(b.rank1(i) + b.rank0(i), i as u32);
            }
        }
    }
}

#[test]
fn prop_block_rank1_select1() {
    for vec in sample_sets() {
        let (b1, b2, b3) = all_kind_block(&vec);
        for b in [&b1, &b2, &b3] {
            for c in positions() {
                match b.select1(c) {
                    Some(p) => {
                        assert!((c as u32) < b.count_ones());
                        assert_eq!(b.rank1(p), c as u32);
                        assert!(b.contains(p));
                    }
                    None => assert!(c as u32 >= b.count_ones()),
                }
            }
        }
    }
}

#[test]
fn prop_block_rank0_select0() {
    for vec in sample_sets() {
        let (b1, b2, b3) = all_kind_block(&vec);
        for b in [&b1, &b2, &b3] {
            for c in positions() {
                match b.select0(c) {
                    Some(p) => {
                        assert!((c as u32) < b.count_zeros());
                        assert_eq!(b.rank0(p), c as u32);
                        assert!(!b.contains(p));
                    }
                    None => assert!(c as u32 >= b.count_zeros()),
                }
            }
        }
    }
}

#[test]
fn conversions_keep_the_values_and_the_weight() {
    let kinds = [Encoding::Seq16, Encoding::Seq64, Encoding::Rle16];
    for vec in sample_sets() {
        for from in kinds {
            let a = Block::from_values(&vec).to_encoding(from);
            assert_eq!(a.kind(), from);
            assert_eq!(a.values(), vec);
            for via in kinds {
                let b = a.to_encoding(via);
                assert_eq!(b.kind(), via);
                assert_eq!(b.values(), vec);
                assert_eq!(b.count_ones(), vec.len() as u32);
                let c = b.to_encoding(from);
                assert_eq!(c.kind(), from);
                assert_eq!(c.values(), vec);
                assert_eq!(c.count_ones(), a.count_ones());
            }
        }
    }
}

#[test]
fn values_come_in_increasing_order() {
    for vec in sample_sets() {
        let (b1, b2, b3) = all_kind_block(&vec);
        for b in [&b1, &b2, &b3] {
            let v = b.values();
            assert!(v.windows(2).all(|w| w[0] < w[1]));
            assert_eq!(v, vec);
            // asking again gives the same sequence
            assert_eq!(b.values(), v);
        }
    }
}

#[test]
fn from_values_takes_any_order_and_repeats() {
    let vec: Vec<u16> = vec![9, 3, 3, 65535, 0, 9, 7, 8];
    let want: Vec<u16> = vec![0, 3, 7, 8, 9, 65535];
    assert_eq!(Seq16::from_values(&vec).values(), want);
    assert_eq!(Seq64::from_values(&vec).values(), want);
    assert_eq!(Rle16::from_values(&vec).values(), want);
    assert_eq!(Block::from_values(&vec).values(), want);
    assert_eq!(Rle16::from_values(&vec).len(), 4);
    assert_eq!(Seq16::from_sorted(want.clone()).values(), want);
}

#[test]
fn insert_and_remove_in_every_encoding() {
    let mut rng = Rng(0xDEAD_BEEF_CAFE_F00D);
    for kind in [Encoding::Seq16, Encoding::Seq64, Encoding::Rle16] {
        let mut b = Block::new().to_encoding(kind);
        let mut model = std::collections::BTreeSet::new();
        for step in 0..4000 {
            let v = if step % 3 == 0 { (rng.next() % 300) as u16 } else { rng.next() as u16 };
            if rng.next() % 3 == 0 {
                assert_eq!(b.remove(v), model.remove(&v));
            } else {
                assert_eq!(b.insert(v), model.insert(v));
            }
            assert_eq!(b.kind(), kind);
            assert_eq!(b.count_ones(), model.len() as u32);
            assert_eq!(b.contains(v), model.contains(&v));
        }
        assert_eq!(b.values(), model.iter().copied().collect::<Vec<u16>>());
        assert_eq!(b.count_runs(), count_runs(&b.values()));
    }
}

fn count_runs(v: &Vec<u16>) -> u32 {
    let mut n = 0;
    for i in 0..v.len() {
        if i == 0 || v[i - 1] + 1 != v[i] {
            n += 1;
        }
    }
    n
}

#[test]
fn runs_merge_and_split() {
    let mut r = Rle16::new();
    assert!(r.insert(10));
    assert!(r.insert(12));
    assert_eq!(r.len(), 2);
    // the value between two runs joins them
    assert!(r.insert(11));
    assert_eq!(r.len(), 1);
    assert_eq!(r.count_ones(), 3);
    assert!(r.insert(9));
    assert!(r.insert(13));
    assert_eq!(r.len(), 1);
    assert_eq!(r.values(), vec![9, 10, 11, 12, 13]);
    // a value taken out of the inside splits the run
    assert!(r.remove(11));
    assert_eq!(r.len(), 2);
    assert_eq!(r.values(), vec![9, 10, 12, 13]);
    assert!(r.remove(9));
    assert!(r.remove(13));
    assert_eq!(r.len(), 2);
    assert!(r.remove(10));
    assert_eq!(r.len(), 1);
    assert!(r.remove(12));
    assert!(r.is_empty());
    assert!(!r.remove(12));
    // the two ends of the domain
    assert!(r.insert(65535));
    assert!(r.insert(0));
    assert!(r.insert(65534));
    assert!(r.insert(1));
    assert_eq!(r.len(), 2);
    assert_eq!(r.values(), vec![0, 1, 65534, 65535]);
}

#[test]
fn idempotence_of_insert_and_remove() {
    for kind in [Encoding::Seq16, Encoding::Seq64, Encoding::Rle16] {
        let vec: Vec<u16> = vec![5, 6, 7, 100, 40000];
        let mut b = Block::from_values(&vec).to_encoding(kind);
        assert!(!b.insert(6));
        assert_eq!(b.count_ones(), 5);
        assert_eq!(b.values(), vec);
        assert!(!b.remove(8));
        assert_eq!(b.count_ones(), 5);
        assert_eq!(b.values(), vec);
        assert!(b.insert(8));
        assert!(!b.insert(8));
        assert_eq!(b.count_ones(), 6);
        assert!(b.remove(8));
        assert!(!b.remove(8));
        assert_eq!(b.values(), vec);
    }
}

#[test]
fn values_out_of_the_domain_are_refused() {
    let mut b = Block::from_values(&vec![1, 2, 3]);
    assert_eq!(b.try_insert(65536), Err(DomainError::OutOfDomain));
    assert_eq!(b.try_insert(u32::MAX), Err(DomainError::OutOfDomain));
    assert_eq!(b.try_remove(65536), Err(DomainError::OutOfDomain));
    assert_eq!(b.try_contains(70000), Err(DomainError::OutOfDomain));
    assert_eq!(b.try_rank1(65536), Err(DomainError::OutOfDomain));
    assert_eq!(b.try_rank0(65536), Err(DomainError::OutOfDomain));
    assert_eq!(b.values(), vec![1, 2, 3]);
    assert_eq!(b.try_insert(65535), Ok(true));
    assert_eq!(b.try_insert(65535), Ok(false));
    assert_eq!(b.try_contains(65535), Ok(true));
    assert_eq!(b.try_rank1(65535), Ok(3));
    assert_eq!(b.try_rank0(65535), Ok(65532));
    assert_eq!(b.try_remove(2), Ok(true));
    assert_eq!(b.try_remove(2), Ok(false));
    assert_eq!(b.values(), vec![1, 3, 65535]);
}

#[test]
fn sizes_in_bytes() {
    assert_eq!(Seq16::size_in_bytes(0), 4);
    assert_eq!(Seq16::size_in_bytes(1), 6);
    assert_eq!(Seq16::size_in_bytes(4096), 8196);
    assert_eq!(Seq64::size_in_bytes(1024), 8196);
    assert_eq!(Seq64::size_in_bytes(1), 12);
    assert_eq!(Rle16::size_in_bytes(0), 4);
    assert_eq!(Rle16::size_in_bytes(10), 44);
    assert_eq!(UNIT, 1024);
    assert_eq!(CAPACITY, 65536);
    assert_eq!(CAP32, 65536);
    let vec: Vec<u16> = (10..20).chain(30..40).collect();
    assert_eq!(Seq16::from_values(&vec).mem_size(), 44);
    assert_eq!(Seq64::from_values(&vec).mem_size(), 8196);
    assert_eq!(Rle16::from_values(&vec).mem_size(), 12);
    let (b1, b2, b3) = all_kind_block(&vec);
    assert_eq!(b1.mem_size(), 44);
    assert_eq!(b2.mem_size(), 8196);
    assert_eq!(b3.mem_size(), 12);
    assert_eq!(footprint_of(Encoding::Seq16, 20, 2), 44);
    assert_eq!(footprint_of(Encoding::Seq64, 20, 2), 8196);
    assert_eq!(footprint_of(Encoding::Rle16, 20, 2), 12);
}

#[test]
fn generic_accessors() {
    let vec: Vec<u16> = (10..20).chain(30..40).collect();
    let mut s = Seq16::from_values(&vec);
    assert_eq!(s.len(), 20);
    assert!(!s.is_empty());
    assert_eq!(s.count_ones(), 20);
    assert_eq!(s.count_zeros(), 65516);
    s.shrink_to_fit();
    assert_eq!(s.values(), vec);
    assert_eq!(s.count_ones(), 20);
    let mut d = Seq64::from_values(&vec);
    assert_eq!(d.len(), 1024);
    assert!(!d.is_empty());
    assert_eq!(d.count_ones(), 20);
    assert_eq!(d.count_zeros(), 65516);
    d.shrink_to_fit();
    assert_eq!(d.values(), vec);
    let mut r = Rle16::from_values(&vec);
    assert_eq!(r.len(), 2);
    assert!(!r.is_empty());
    assert_eq!(r.count_ones(), 20);
    assert_eq!(r.count_zeros(), 65516);
    r.shrink_to_fit();
    assert_eq!(r.values(), vec);
    // a block is empty where its weight is zero, in every encoding
    assert!(Seq16::new().is_empty());
    assert!(Rle16::new().is_empty());
    assert!(Seq64::new().is_empty());
    assert_eq!(Seq64::new().count_ones(), 0);
    let mut one = Seq64::new();
    one.insert(9);
    assert!(!one.is_empty());
    one.remove(9);
    assert!(one.is_empty());
}

#[test]
fn the_cheapest_encoding_is_chosen_beyond_the_margin() {
    assert_eq!(HYSTERESIS, 64);
    // 100 values in 1 run: sparse costs 204, runs cost 8
    assert_eq!(choose_encoding(Encoding::Seq16, 100, 1), Encoding::Rle16);
    assert_eq!(choose_encoding(Encoding::Seq64, 100, 1), Encoding::Rle16);
    assert_eq!(choose_encoding(Encoding::Rle16, 100, 1), Encoding::Rle16);
    // 34 values in 1 run: sparse costs 72, runs cost 8, the saving is 64: no change
    assert_eq!(choose_encoding(Encoding::Seq16, 34, 1), Encoding::Seq16);
    // 35 values in 1 run: the saving is 66
    assert_eq!(choose_encoding(Encoding::Seq16, 35, 1), Encoding::Rle16);
    // 4096 scattered values: sparse and dense cost 8196 both
    assert_eq!(choose_encoding(Encoding::Seq16, 4096, 4096), Encoding::Seq16);
    assert_eq!(choose_encoding(Encoding::Seq64, 4096, 4096), Encoding::Seq64);
    // 4128 scattered values: sparse costs 8260, which is 64 more than dense
    assert_eq!(choose_encoding(Encoding::Seq16, 4128, 4128), Encoding::Seq16);
    assert_eq!(choose_encoding(Encoding::Seq16, 4129, 4129), Encoding::Seq64);
    // 4064 scattered values: sparse costs 8132, which is 64 less than dense
    assert_eq!(choose_encoding(Encoding::Seq64, 4064, 4064), Encoding::Seq64);
    assert_eq!(choose_encoding(Encoding::Seq64, 4063, 4063), Encoding::Seq16);
    // an empty block: sparse and runs cost 4 both, sparse goes first
    assert_eq!(choose_encoding(Encoding::Seq64, 0, 0), Encoding::Seq16);
    assert_eq!(choose_encoding(Encoding::Rle16, 0, 0), Encoding::Rle16);
    // runs that cost more than the others
    assert_eq!(choose_encoding(Encoding::Rle16, 30000, 10000), Encoding::Seq64);
    assert_eq!(choose_encoding(Encoding::Rle16, 1000, 1000), Encoding::Seq16);
}

#[test]
fn optimize_keeps_the_values() {
    for vec in sample_sets() {
        for kind in [Encoding::Seq16, Encoding::Seq64, Encoding::Rle16] {
            let mut b = Block::from_values(&vec).to_encoding(kind);
            let want = choose_encoding(kind, b.count_ones(), b.count_runs());
            b.optimize();
            assert_eq!(b.kind(), want);
            assert_eq!(b.values(), vec);
            assert_eq!(b.count_ones(), vec.len() as u32);
            // a second time changes nothing
            let size = b.mem_size();
            b.optimize();
            assert_eq!(b.kind(), want);
            assert_eq!(b.mem_size(), size);
        }
    }
    let full: Vec<u16> = (0..=65535u16).collect();
    assert_eq!(Block::from_values(&full).kind(), Encoding::Rle16);
    let even: Vec<u16> = (0..=65535u16).filter(|v| v % 2 == 0).collect();
    assert_eq!(Block::from_values(&even).kind(), Encoding::Seq64);
    assert_eq!(Block::from_values(&vec![1, 5, 9]).kind(), Encoding::Seq16);
}

fn naive(op: Op, a: &Vec<u16>, b: &Vec<u16>) -> Vec<u16> {
    let sa: std::collections::BTreeSet<u16> = a.iter().copied().collect();
    let sb: std::collections::BTreeSet<u16> = b.iter().copied().collect();
    let r: Vec<u16> = match op {
        Op::And => sa.intersection(&sb).copied().collect(),
        Op::Or => sa.union(&sb).copied().collect(),
        Op::AndNot => sa.difference(&sb).copied().collect(),
        Op::Xor => sa.symmetric_difference(&sb).copied().collect(),
    };
    r
}

#[test]
fn block_algebra_in_every_pair_of_encodings() {
    let sets = sample_sets();
    let kinds = [Encoding::Seq16, Encoding::Seq64, Encoding::Rle16];
    let picks = [(4usize, 5usize), (7, 8), (8, 9), (9, 10), (13, 14), (15, 16), (6, 11), (0, 8), (3, 6), (16, 17)];
    for (x, y) in picks {
        let va = &sets[x];
        let vb = &sets[y];
        for op in [Op::And, Op::Or, Op::AndNot, Op::Xor] {
            let want = naive(op, va, vb);
            for ka in kinds {
                for kb in kinds {
                    let a = Block::from_values(va).to_encoding(ka);
                    let b = Block::from_values(vb).to_encoding(kb);
                    let r = a.combine(&b, op);
                    assert_eq!(r.values(), want);
                    assert_eq!(r.count_ones(), want.len() as u32);
                    let best = choose_encoding(r.kind(), r.count_ones(), r.count_runs());
                    assert_eq!(r.kind(), best);
                }
            }
        }
    }
}

#[test]
fn block_algebra_in_place() {
    let va: Vec<u16> = vec![1, 2, 3, 10, 11, 500];
    let vb: Vec<u16> = vec![2, 3, 4, 11, 12, 600];
    let b = Block::from_values(&vb);
    let mut a = Block::from_values(&va);
    a.intersection_with(&b);
    assert_eq!(a.values(), vec![2, 3, 11]);
    let mut a = Block::from_values(&va);
    a.union_with(&b);
    assert_eq!(a.values(), vec![1, 2, 3, 4, 10, 11, 12, 500, 600]);
    let mut a = Block::from_values(&va);
    a.difference_with(&b);
    assert_eq!(a.values(), vec![1, 10, 500]);
    let mut a = Block::from_values(&va);
    a.symmetric_difference_with(&b);
    assert_eq!(a.values(), vec![1, 4, 10, 12, 500, 600]);
}

#[test]
fn a_copy_holds_the_same_values() {
    for vec in sample_sets() {
        let (b1, b2, b3) = all_kind_block(&vec);
        for b in [&b1, &b2, &b3] {
            let c = b.clone();
            assert_eq!(c.kind(), b.kind());
            assert_eq!(c.values(), vec);
            assert_eq!(c.count_ones(), b.count_ones());
        }
    }
}

#[test]
fn op_keeps() {
    assert!(Op::And.keeps(true, true));
    assert!(!Op::And.keeps(true, false));
    assert!(!Op::And.keeps(false, true));
    assert!(Op::Or.keeps(true, false));
    assert!(Op::Or.keeps(false, true));
    assert!(!Op::Or.keeps(false, false));
    assert!(Op::AndNot.keeps(true, false));
    assert!(!Op::AndNot.keeps(true, true));
    assert!(!Op::AndNot.keeps(false, true));
    assert!(Op::Xor.keeps(true, false));
    assert!(Op::Xor.keeps(false, true));
    assert!(!Op::Xor.keeps(true, true));
    assert!(!Op::Xor.keeps(false, false));
}
