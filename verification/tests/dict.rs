use compacts_bits::bit_vec::BitVec;
use compacts_bits::block::{Block, Encoding};
use compacts_bits::dict::{Dict, Rank};
use compacts_bits::ops::Op;
use compacts_bits::rank_select::probe;
use compacts_bits::select::{Select0, Select1};
use compacts_bits::thunk::Thunk;

#[test]
fn select_on_a_word_for_every_width_of_ordinal() {
    let x: u64 = 0b1011_0100;
    assert_eq!(Select1::<u8>::select1(&x, 1u8), Some(4u8));
    assert_eq!(Select1::<u16>::select1(&x, 1u16), Some(4u16));
    assert_eq!(Select1::<u32>::select1(&x, 1u32), Some(4u32));
    assert_eq!(Select1::<u64>::select1(&x, 1u64), Some(4u64));
    assert_eq!(Select1::<usize>::select1(&x, 1usize), Some(4usize));
    assert_eq!(Select0::<u8>::select0(&x, 2u8), Some(3u8));
    assert_eq!(Select0::<u16>::select0(&x, 2u16), Some(3u16));
    assert_eq!(Select0::<u32>::select0(&x, 2u32), Some(3u32));
    assert_eq!(Select0::<u64>::select0(&x, 2u64), Some(3u64));
    assert_eq!(Select0::<usize>::select0(&x, 2usize), Some(3usize));
    assert_eq!(Select1::<u8>::select1(&x, 4u8), None);
    assert_eq!(Select1::<u8>::select1(&x, 255u8), None);
    assert_eq!(Select1::<u64>::select1(&u64::MAX, 63u64), Some(63));
    assert_eq!(Select1::<u64>::select1(&u64::MAX, 64u64), None);
    assert_eq!(Select1::<u64>::select1(&u64::MAX, u64::MAX), None);
    assert_eq!(Select0::<u64>::select0(&0u64, (1u64 << 32) + 1), None);
    assert_eq!(Select1::<usize>::select1(&u64::MAX, usize::MAX), None);
    assert_eq!(Select0::<usize>::select0(&0u64, 63usize), Some(63));
}

#[test]
fn a_block_is_a_dictionary_of_bits() {
    let b = Block::from_values(&vec![3, 4, 5, 100]);
    assert_eq!(Rank::rank1(&b, 5), 2);
    assert_eq!(Rank::rank0(&b, 5), 3);
    assert_eq!(Select1::select1(&b, 3), Some(100));
    assert_eq!(Select1::select1(&b, 4), None);
    assert_eq!(Select0::select0(&b, 3), Some(6));
    assert_eq!(probe(&b, 4u16), (3, 1, Some(7), None));
    assert_eq!(probe(&b, 2u16), (2, 0, Some(2), Some(5)));
    assert_eq!(Dict::rank(&b, &true, 101), 4);
    assert_eq!(Dict::rank(&b, &false, 101), 97);
    assert_eq!(Dict::select(&b, &true, 0), Some(3));
    assert_eq!(Dict::select(&b, &false, 0), Some(0));
    assert_eq!(Dict::select(&b, &true, 4), None);
    assert_eq!(Dict::select(&b, &true, 65536), None);
    assert_eq!(Dict::select(&b, &false, 65535), None);
    assert_eq!(Dict::select(&b, &false, 65531), Some(65535));
    assert_eq!(Dict::select(&b, &false, 70000), None);
}

#[test]
fn a_map_is_a_dictionary_of_bits() {
    let m = BitVec::from_values(&vec![3, 65536, 65537, 1 << 31]);
    assert_eq!(Rank::rank1(&m, 65537), 2);
    assert_eq!(Rank::rank0(&m, 65537), 65535);
    assert_eq!(Select1::select1(&m, 3), Some(1 << 31));
    assert_eq!(Select1::select1(&m, 4), None);
    assert_eq!(Select0::select0(&m, 3), Some(4));
    assert_eq!(Select0::select0(&m, 65535), Some(65538));
    assert_eq!(probe(&m, 2u32), (2, 0, Some(2), Some(65537)));
    assert_eq!(Dict::rank(&m, &true, u32::MAX), 4);
    assert_eq!(Dict::rank(&m, &false, u32::MAX), u32::MAX - 4);
    assert_eq!(Dict::select(&m, &true, 1), Some(65536));
    assert_eq!(Dict::select(&m, &false, 3), Some(4));
}

#[test]
fn a_thunk_is_computed_once_it_is_asked_for() {
    let a = Block::from_values(&vec![1, 2, 3, 4]);
    let b = Block::from_values(&vec![3, 4, 5]);
    let mut t = Thunk::defer(a.clone(), b.clone(), Op::And);
    assert!(!t.is_evaluated());
    t.force();
    assert!(t.is_evaluated());
    assert_eq!(t.get().values(), vec![3, 4]);
    // forcing again keeps the block
    t.force();
    assert!(t.is_evaluated());
    assert_eq!(t.get().values(), vec![3, 4]);
    assert_eq!(t.into_block().values(), vec![3, 4]);
    assert_eq!(Thunk::defer(a.clone(), b.clone(), Op::Or).into_block().values(), vec![1, 2, 3, 4, 5]);
    assert_eq!(Thunk::defer(a.clone(), b.clone(), Op::AndNot).into_block().values(), vec![1, 2]);
    assert_eq!(Thunk::defer(a.clone(), b.clone(), Op::Xor).into_block().values(), vec![1, 2, 5]);
    let r = Thunk::ready(a.to_encoding(Encoding::Seq64));
    assert!(r.is_evaluated());
    assert_eq!(r.get().kind(), Encoding::Seq64);
    assert_eq!(r.into_block().values(), vec![1, 2, 3, 4]);
}
