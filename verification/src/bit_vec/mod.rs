//! A set of 32-bit values: an ordered map from the upper 16 bits of a
//! value to the block that holds the lower 16 bits of the values with
//! those upper bits.

use vstd::prelude::*;
use crate::block::{preferred, Block, Encoding};
use crate::counting::{
    lemma_count_empty, count, count_absent, is_select0, is_select1, lemma_count_absent_strict, lemma_count_bounds,
    lemma_count_insert, lemma_count_strict,
    lemma_count_members32, lemma_count_none, lemma_count_remove, lemma_count_window,
    lemma_count_zero, lemma_members16_take, lemma_members32_push, lemma_members32_take, members16,
    members32, runs, sorted16, sorted32, within,
};

pub mod pairwise;
pub mod iter;

verus! {

/// Number of values that a map covers: 2 to the power 32.
pub const UNIVERSE: u64 = 0x1_0000_0000;

/// One entry of the map: a key and the block of the values under it.
pub struct Entry {
    /// The upper 16 bits of the values in `block`.
    pub key: u16,
    /// The lower 16 bits of the values.
    pub block: Block,
}

/// A set of 32-bit values.
pub struct BitVec {
    pub(crate) blocks: Vec<Entry>,
}

/// The values that the entries `e` hold: `v` is held where an entry has
/// the key `v / 65536` and its block holds `v % 65536`.
pub open spec fn map_members(e: Seq<Entry>) -> Set<int> {
    Set::new(
        |v: int|
            0 <= v && exists|i: int|
                0 <= i < e.len() && (#[trigger] e[i]).key == v / 65536 && e[i].block@.contains(v % 65536),
    )
}

/// The keys increase, and every block is well formed, not empty, and in
/// the encoding that is preferred for it.
pub open spec fn entries_ok(e: Seq<Entry>) -> bool {
    &&& forall|i: int, j: int| 0 <= i < j < e.len() ==> (#[trigger] e[i]).key < (#[trigger] e[j]).key
    &&& forall|i: int| 0 <= i < e.len() ==> (#[trigger] e[i]).block.wf()
    &&& forall|i: int| 0 <= i < e.len() ==> count((#[trigger] e[i]).block@, 65536) > 0
    &&& forall|i: int| 0 <= i < e.len() ==> (#[trigger] e[i]).block.settled()
}

/// Number of values in the first `k` entries.
pub open spec fn weight_before(e: Seq<Entry>, k: int) -> int
    decreases k,
{
    if k <= 0 {
        0
    } else {
        weight_before(e, k - 1) + count(e[k - 1].block@, 65536)
    }
}

/// Under the key of entry `i`, the map holds what the block of that entry holds.
pub proof fn lemma_lookup(e: Seq<Entry>, i: int, v: int)
    requires
        entries_ok(e),
        0 <= i < e.len(),
        0 <= v,
        v / 65536 == e[i].key,
    ensures
        map_members(e).contains(v) <==> e[i].block@.contains(v % 65536),
{
    if map_members(e).contains(v) {
        let j = choose|j: int| 0 <= j < e.len() && (#[trigger] e[j]).key == v / 65536 && e[j].block@.contains(v % 65536);
        if j < i {
            assert(e[j].key < e[i].key);
        } else if j > i {
            assert(e[i].key < e[j].key);
        }
    }
}

/// Under a key that lies between the keys of entries `k - 1` and `k`, the
/// map holds nothing.
pub proof fn lemma_absent_key(e: Seq<Entry>, k: int, v: int)
    requires
        entries_ok(e),
        0 <= k <= e.len(),
        k > 0 ==> e[k - 1].key < v / 65536,
        k < e.len() ==> v / 65536 < e[k].key,
    ensures
        !map_members(e).contains(v),
{
    if map_members(e).contains(v) {
        let j = choose|j: int| 0 <= j < e.len() && (#[trigger] e[j]).key == v / 65536 && e[j].block@.contains(v % 65536);
        if j < k - 1 {
            assert(e[j].key < e[k - 1].key);
        } else if j > k {
            assert(e[k].key < e[j].key);
        }
    }
}

/// Below the first value of a key that lies between the keys of entries
/// `k - 1` and `k`, or is the key of entry `k`, the map holds the values
/// of its first `k` entries.
pub proof fn lemma_map_count(e: Seq<Entry>, k: int, key: int)
    requires
        entries_ok(e),
        0 <= k <= e.len(),
        0 <= key,
        k > 0 ==> e[k - 1].key < key,
        k < e.len() ==> key <= e[k].key,
    ensures
        count(map_members(e), 65536 * key) == weight_before(e, k),
    decreases k,
{
    let s = map_members(e);
    if k == 0 {
        assert forall|y: int| 0 <= y < 65536 * key implies !s.contains(y) by {
            lemma_absent_key(e, 0, y);
        }
        lemma_count_none(s, 0, 65536 * key);
    } else {
        let kk = e[k - 1].key as int;
        let b = e[k - 1].block@;
        if k > 1 {
            assert(e[k - 2].key < e[k - 1].key);
        }
        lemma_map_count(e, k - 1, kk);
        assert forall|j: int| 65536 * kk <= j < 65536 * kk + 65536 implies (#[trigger] s.contains(j) <==> b.contains(
            j - 65536 * kk + 0,
        )) by {
            assert(j / 65536 == kk);
            assert(j % 65536 == j - 65536 * kk);
            lemma_lookup(e, k - 1, j);
        }
        lemma_count_window(s, b, 65536 * kk, 0, 65536);
        assert forall|y: int| 65536 * kk + 65536 <= y < 65536 * key implies !s.contains(y) by {
            lemma_absent_key(e, k, y);
        }
        lemma_count_none(s, 65536 * kk + 65536, 65536 * key);
    }
}

/// Below a value under the key of entry `k`, the map holds the values of
/// its first `k` entries and the values of block `k` below the lower 16
/// bits of that value.
pub proof fn lemma_map_count_inside(e: Seq<Entry>, k: int, lo: int)
    requires
        entries_ok(e),
        0 <= k < e.len(),
        0 <= lo <= 65536,
    ensures
        count(map_members(e), 65536 * e[k].key + lo) == weight_before(e, k) + count(e[k].block@, lo),
{
    let s = map_members(e);
    let kk = e[k].key as int;
    let b = e[k].block@;
    if k > 0 {
        assert(e[k - 1].key < e[k].key);
    }
    lemma_map_count(e, k, kk);
    assert forall|j: int| 65536 * kk <= j < 65536 * kk + lo implies (#[trigger] s.contains(j) <==> b.contains(
        j - 65536 * kk + 0,
    )) by {
        assert(j / 65536 == kk);
        assert(j % 65536 == j - 65536 * kk);
        lemma_lookup(e, k, j);
    }
    lemma_count_window(s, b, 65536 * kk, 0, lo);
}

/// The number of values in the first `k` entries does not decrease with
/// `k`, and is at most 65536 for each entry.
pub proof fn lemma_weight_before(e: Seq<Entry>, k: int)
    requires
        0 <= k,
    ensures
        0 <= weight_before(e, k) <= 65536 * k,
    decreases k,
{
    if k > 0 {
        lemma_weight_before(e, k - 1);
        lemma_count_bounds(e[k - 1].block@, 65536);
    }
}

/// The key of entry `i` is at least `i`, so there are at most 65536 entries.
pub proof fn lemma_key_index(e: Seq<Entry>, i: int)
    requires
        entries_ok(e),
        0 <= i < e.len(),
    ensures
        i <= e[i].key,
        e.len() <= 65536,
    decreases e.len() - i,
{
    if i > 0 {
        lemma_key_at_least(e, i);
    }
    if i + 1 < e.len() {
        lemma_key_index(e, i + 1);
    } else {
        lemma_key_at_least(e, i);
    }
}

/// The key of entry `i` is at least `i`.
proof fn lemma_key_at_least(e: Seq<Entry>, i: int)
    requires
        entries_ok(e),
        0 <= i < e.len(),
    ensures
        i <= e[i].key,
    decreases i,
{
    if i > 0 {
        lemma_key_at_least(e, i - 1);
        assert(e[i - 1].key < e[i].key);
    }
}

/// Whether an entry of `e` has the key `key`.
pub open spec fn has_key(e: Seq<Entry>, key: u16) -> bool {
    exists|i: int| 0 <= i < e.len() && (#[trigger] e[i]).key == key
}

/// The encoding of the block under `key`, or nothing where no entry has
/// that key.
pub open spec fn encoding_under(e: Seq<Entry>, key: u16) -> Option<Encoding> {
    if has_key(e, key) {
        let i = choose|i: int| 0 <= i < e.len() && (#[trigger] e[i]).key == key;
        Some(e[i].block.encoding())
    } else {
        None
    }
}

/// The lower 16 bits of the values of `s` whose upper 16 bits are `key`.
pub open spec fn values_under(s: Set<int>, key: u16) -> Set<int> {
    Set::new(|lo: int| 0 <= lo < 65536 && s.contains(65536 * key + lo))
}

/// Whether the entry `x` is one of the entries `e`.
pub open spec fn occurs(e: Seq<Entry>, x: Entry) -> bool {
    exists|j: int| 0 <= j < e.len() && #[trigger] e[j] == x
}

/// The key of entry `i` is found, and what is found under it is the
/// block of entry `i`.
pub proof fn lemma_entry_found(e: Seq<Entry>, i: int)
    requires
        entries_ok(e),
        0 <= i < e.len(),
    ensures
        has_key(e, e[i].key),
        encoding_under(e, e[i].key) == Some(e[i].block.encoding()),
        values_under(map_members(e), e[i].key) == e[i].block@,
{
    let key = e[i].key;
    assert(has_key(e, key));
    let j = choose|j: int| 0 <= j < e.len() && (#[trigger] e[j]).key == key;
    if j < i {
        assert(e[j].key < e[i].key);
    } else if j > i {
        assert(e[i].key < e[j].key);
    }
    e[i].block.lemma_wf();
    assert forall|lo: int| values_under(map_members(e), key).contains(lo) <==> e[i].block@.contains(lo) by {
        if 0 <= lo < 65536 {
            let v = 65536 * key + lo;
            assert(v / 65536 == key && v % 65536 == lo);
            lemma_lookup(e, i, v);
        }
    }
    assert(values_under(map_members(e), key) =~= e[i].block@);
}

/// A key that lies between the keys of entries `k - 1` and `k` is not
/// found, and the map holds nothing under it.
pub proof fn lemma_key_missing(e: Seq<Entry>, k: int, key: u16)
    requires
        entries_ok(e),
        0 <= k <= e.len(),
        k > 0 ==> e[k - 1].key < key,
        k < e.len() ==> key < e[k].key,
    ensures
        !has_key(e, key),
        encoding_under(e, key) is None,
        values_under(map_members(e), key) == Set::<int>::empty(),
{
    if has_key(e, key) {
        let j = choose|j: int| 0 <= j < e.len() && (#[trigger] e[j]).key == key;
        if j < k - 1 {
            assert(e[j].key < e[k - 1].key);
        } else if j > k {
            assert(e[k].key < e[j].key);
        }
    }
    assert forall|lo: int| !values_under(map_members(e), key).contains(lo) by {
        if 0 <= lo < 65536 {
            let v = 65536 * key + lo;
            assert(v / 65536 == key);
            lemma_absent_key(e, k, v);
        }
    }
    assert(values_under(map_members(e), key) =~= Set::<int>::empty());
}

/// Two maps that have the same entries, but for the one under `key`, have
/// the same encodings under every other key.
pub proof fn lemma_elsewhere(e: Seq<Entry>, w: Seq<Entry>, key: u16)
    requires
        entries_ok(e),
        entries_ok(w),
        forall|i: int| 0 <= i < e.len() && (#[trigger] e[i]).key != key ==> occurs(w, e[i]),
        forall|j: int| 0 <= j < w.len() && (#[trigger] w[j]).key != key ==> occurs(e, w[j]),
    ensures
        forall|k: u16| k != key ==> #[trigger] encoding_under(w, k) == encoding_under(e, k),
{
    assert forall|k: u16| k != key implies #[trigger] encoding_under(w, k) == encoding_under(e, k) by {
        if has_key(e, k) {
            let i = choose|i: int| 0 <= i < e.len() && (#[trigger] e[i]).key == k;
            assert(occurs(w, e[i]));
            let j = choose|j: int| 0 <= j < w.len() && #[trigger] w[j] == e[i];
            lemma_entry_found(e, i);
            lemma_entry_found(w, j);
        } else if has_key(w, k) {
            let j = choose|j: int| 0 <= j < w.len() && (#[trigger] w[j]).key == k;
            assert(occurs(e, w[j]));
            let i = choose|i: int| 0 <= i < e.len() && #[trigger] e[i] == w[j];
            assert(e[i].key == k);
        }
    }
}

/// Replacing the block of entry `i` leaves the encodings under the other keys.
proof fn lemma_elsewhere_update(e: Seq<Entry>, i: int, x: Entry)
    requires
        entries_ok(e),
        entries_ok(e.update(i, x)),
        0 <= i < e.len(),
        x.key == e[i].key,
    ensures
        forall|k: u16| k != x.key ==> #[trigger] encoding_under(e.update(i, x), k) == encoding_under(e, k),
        encoding_under(e.update(i, x), x.key) == Some(x.block.encoding()),
{
    let w = e.update(i, x);
    assert forall|a: int| 0 <= a < e.len() && (#[trigger] e[a]).key != x.key implies occurs(w, e[a]) by {
        assert(w[a] == e[a]);
    }
    assert forall|a: int| 0 <= a < w.len() && (#[trigger] w[a]).key != x.key implies occurs(e, w[a]) by {
        assert(e[a] == w[a]);
    }
    lemma_elsewhere(e, w, x.key);
    lemma_entry_found(w, i);
}

/// Putting in a new entry leaves the encodings under the other keys.
proof fn lemma_elsewhere_insert(e: Seq<Entry>, k: int, x: Entry)
    requires
        entries_ok(e),
        entries_ok(e.insert(k, x)),
        0 <= k <= e.len(),
    ensures
        forall|q: u16| q != x.key ==> #[trigger] encoding_under(e.insert(k, x), q) == encoding_under(e, q),
        encoding_under(e.insert(k, x), x.key) == Some(x.block.encoding()),
{
    let w = e.insert(k, x);
    assert forall|a: int| 0 <= a < e.len() && (#[trigger] e[a]).key != x.key implies occurs(w, e[a]) by {
        if a < k {
            assert(w[a] == e[a]);
        } else {
            assert(w[a + 1] == e[a]);
        }
    }
    assert forall|a: int| 0 <= a < w.len() && (#[trigger] w[a]).key != x.key implies occurs(e, w[a]) by {
        if a < k {
            assert(e[a] == w[a]);
        } else {
            assert(a > k);
            assert(e[a - 1] == w[a]);
        }
    }
    lemma_elsewhere(e, w, x.key);
    lemma_entry_found(w, k);
}

/// Taking entry `i` away leaves the encodings under the other keys, and
/// nothing under its own.
proof fn lemma_elsewhere_remove(e: Seq<Entry>, i: int)
    requires
        entries_ok(e),
        entries_ok(e.remove(i)),
        0 <= i < e.len(),
    ensures
        forall|q: u16| q != e[i].key ==> #[trigger] encoding_under(e.remove(i), q) == encoding_under(e, q),
        encoding_under(e.remove(i), e[i].key) is None,
{
    let w = e.remove(i);
    let key = e[i].key;
    assert forall|a: int| 0 <= a < e.len() && (#[trigger] e[a]).key != key implies occurs(w, e[a]) by {
        if a < i {
            assert(w[a] == e[a]);
        } else {
            assert(a > i);
            assert(w[a - 1] == e[a]);
        }
    }
    assert forall|a: int| 0 <= a < w.len() && (#[trigger] w[a]).key != key implies occurs(e, w[a]) by {
        if a < i {
            assert(e[a] == w[a]);
        } else {
            assert(e[a + 1] == w[a]);
        }
    }
    lemma_elsewhere(e, w, key);
    if has_key(w, key) {
        let j = choose|j: int| 0 <= j < w.len() && (#[trigger] w[j]).key == key;
        let j0 = if j < i { j } else { j + 1 };
        assert(e[j0].key == key);
        if j0 < i {
            assert(e[j0].key < e[i].key);
        } else {
            assert(e[i].key < e[j0].key);
        }
    }
}

/// What the map holds under the key `key` is `b`, and elsewhere what `m` holds.
pub open spec fn with_block(m: Set<int>, key: int, b: Set<int>) -> Set<int> {
    Set::new(|v: int| if 0 <= v && v / 65536 == key { b.contains(v % 65536) } else { m.contains(v) })
}

/// The block of entry `i` replaced by another one that is not empty.
proof fn lemma_entry_update(e: Seq<Entry>, i: int, x: Entry)
    requires
        entries_ok(e),
        0 <= i < e.len(),
        x.key == e[i].key,
        x.block.wf(),
        x.block.settled(),
        count(x.block@, 65536) > 0,
    ensures
        entries_ok(e.update(i, x)),
        map_members(e.update(i, x)) == with_block(map_members(e), x.key as int, x.block@),
{
    let w = e.update(i, x);
    assert forall|a: int, b: int| 0 <= a < b < w.len() implies (#[trigger] w[a]).key < (#[trigger] w[b]).key by {
        assert(e[a].key < e[b].key);
    }
    assert forall|a: int| 0 <= a < w.len() implies (#[trigger] w[a]).block.wf() && count(w[a].block@, 65536) > 0
        && w[a].block.settled() by {
        if a != i {
            assert(e[a].block.wf());
        }
    }
    let expected = with_block(map_members(e), x.key as int, x.block@);
    assert forall|v: int| map_members(w).contains(v) <==> expected.contains(v) by {
        if 0 <= v {
            if v / 65536 == x.key {
                lemma_lookup(w, i, v);
            } else {
                if map_members(w).contains(v) {
                    let j = choose|j: int|
                        0 <= j < w.len() && (#[trigger] w[j]).key == v / 65536 && w[j].block@.contains(v % 65536);
                    assert(e[j].key == v / 65536);
                }
                if map_members(e).contains(v) {
                    let j = choose|j: int|
                        0 <= j < e.len() && (#[trigger] e[j]).key == v / 65536 && e[j].block@.contains(v % 65536);
                    assert(w[j].key == v / 65536);
                }
            }
        }
    }
    assert(map_members(w) =~= expected);
}

/// A new entry put between the entries `k - 1` and `k`.
proof fn lemma_entry_insert(e: Seq<Entry>, k: int, x: Entry)
    requires
        entries_ok(e),
        0 <= k <= e.len(),
        k > 0 ==> e[k - 1].key < x.key,
        k < e.len() ==> x.key < e[k].key,
        x.block.wf(),
        x.block.settled(),
        count(x.block@, 65536) > 0,
    ensures
        entries_ok(e.insert(k, x)),
        map_members(e.insert(k, x)) == with_block(map_members(e), x.key as int, x.block@),
{
    let w = e.insert(k, x);
    assert forall|a: int, b: int| 0 <= a < b < w.len() implies (#[trigger] w[a]).key < (#[trigger] w[b]).key by {
        let a0 = if a < k { a } else { a - 1 };
        let b0 = if b < k { b } else { b - 1 };
        if a == k {
            if b0 > k {
                assert(e[k].key < e[b0].key);
            }
        } else if b == k {
            if a0 < k - 1 {
                assert(e[a0].key < e[k - 1].key);
            }
        } else {
            assert(e[a0].key < e[b0].key);
        }
    }
    assert forall|a: int| 0 <= a < w.len() implies (#[trigger] w[a]).block.wf() && count(w[a].block@, 65536) > 0
        && w[a].block.settled() by {
        if a < k {
            assert(e[a].block.wf());
        } else if a > k {
            assert(e[a - 1].block.wf());
        }
    }
    let expected = with_block(map_members(e), x.key as int, x.block@);
    assert forall|v: int| map_members(w).contains(v) <==> expected.contains(v) by {
        if 0 <= v {
            if v / 65536 == x.key {
                lemma_lookup(w, k, v);
            } else {
                if map_members(w).contains(v) {
                    let j = choose|j: int|
                        0 <= j < w.len() && (#[trigger] w[j]).key == v / 65536 && w[j].block@.contains(v % 65536);
                    let j0 = if j < k { j } else { j - 1 };
                    assert(e[j0].key == v / 65536);
                }
                if map_members(e).contains(v) {
                    let j = choose|j: int|
                        0 <= j < e.len() && (#[trigger] e[j]).key == v / 65536 && e[j].block@.contains(v % 65536);
                    let j1 = if j < k { j } else { j + 1 };
                    assert(w[j1].key == v / 65536);
                }
            }
        }
    }
    assert(map_members(w) =~= expected);
}

/// Entry `i` taken away.
proof fn lemma_entry_remove(e: Seq<Entry>, i: int)
    requires
        entries_ok(e),
        0 <= i < e.len(),
    ensures
        entries_ok(e.remove(i)),
        map_members(e.remove(i)) == with_block(map_members(e), e[i].key as int, Set::<int>::empty()),
{
    let w = e.remove(i);
    assert forall|a: int, b: int| 0 <= a < b < w.len() implies (#[trigger] w[a]).key < (#[trigger] w[b]).key by {
        let a0 = if a < i { a } else { a + 1 };
        let b0 = if b < i { b } else { b + 1 };
        assert(e[a0].key < e[b0].key);
    }
    assert forall|a: int| 0 <= a < w.len() implies (#[trigger] w[a]).block.wf() && count(w[a].block@, 65536) > 0
        && w[a].block.settled() by {
        let a0 = if a < i { a } else { a + 1 };
        assert(e[a0].block.wf());
    }
    let expected = with_block(map_members(e), e[i].key as int, Set::<int>::empty());
    assert forall|v: int| map_members(w).contains(v) <==> expected.contains(v) by {
        if 0 <= v {
            if map_members(w).contains(v) {
                let j = choose|j: int|
                    0 <= j < w.len() && (#[trigger] w[j]).key == v / 65536 && w[j].block@.contains(v % 65536);
                let j0 = if j < i { j } else { j + 1 };
                assert(e[j0].key == v / 65536);
                if j0 < i {
                    assert(e[j0].key < e[i].key);
                } else {
                    assert(e[i].key < e[j0].key);
                }
            }
            if expected.contains(v) {
                let j = choose|j: int|
                    0 <= j < e.len() && (#[trigger] e[j]).key == v / 65536 && e[j].block@.contains(v % 65536);
                let j1 = if j < i { j } else { j - 1 };
                assert(w[j1].key == v / 65536);
            }
        }
    }
    assert(map_members(w) =~= expected);
}

/// A value of the map, put together from its key and its lower 16 bits.
pub open spec fn join(key: u16, lo: u16) -> int {
    65536 * key + lo
}

/// Putting a value into the block under its key puts it into the map.
proof fn lemma_with_block_insert(m: Set<int>, key: u16, lo: u16, before: Set<int>, after: Set<int>)
    requires
        forall|v: int| 0 <= v && v / 65536 == key ==> (m.contains(v) <==> before.contains(v % 65536)),
        after == before.insert(lo as int),
    ensures
        with_block(m, key as int, after) == m.insert(join(key, lo)),
{
    let v0 = join(key, lo);
    assert(v0 / 65536 == key && v0 % 65536 == lo);
    assert forall|v: int| with_block(m, key as int, after).contains(v) <==> m.insert(v0).contains(v) by {
        if 0 <= v && v / 65536 == key {
            assert(v == v0 <==> v % 65536 == lo);
        }
    }
    assert(with_block(m, key as int, after) =~= m.insert(v0));
}

/// Taking a value out of the block under its key takes it out of the map.
proof fn lemma_with_block_remove(m: Set<int>, key: u16, lo: u16, before: Set<int>, after: Set<int>)
    requires
        forall|v: int| 0 <= v && v / 65536 == key ==> (m.contains(v) <==> before.contains(v % 65536)),
        forall|x: int| 0 <= x < 65536 ==> (after.contains(x) <==> before.remove(lo as int).contains(x)),
    ensures
        with_block(m, key as int, after) == m.remove(join(key, lo)),
{
    let v0 = join(key, lo);
    assert(v0 / 65536 == key && v0 % 65536 == lo);
    assert forall|v: int| with_block(m, key as int, after).contains(v) <==> m.remove(v0).contains(v) by {
        if 0 <= v && v / 65536 == key {
            assert(v == v0 <==> v % 65536 == lo);
            assert(0 <= v % 65536 < 65536);
        }
    }
    assert(with_block(m, key as int, after) =~= m.remove(v0));
}

impl View for BitVec {
    type V = Set<int>;

    /// The values in the set.
    open spec fn view(&self) -> Set<int> {
        map_members(self.entries())
    }
}

impl BitVec {
    /// The entries of the map, in the order of their keys.
    pub closed spec fn entries(&self) -> Seq<Entry> {
        self.blocks@
    }

    /// The keys increase, and every block is well formed, not empty, and
    /// in the encoding that is preferred for it.
    pub open spec fn wf(&self) -> bool {
        entries_ok(self.entries())
    }

    /// Whether the map has a block under `key`.
    pub open spec fn holds_key(&self, key: u16) -> bool {
        has_key(self.entries(), key)
    }

    /// The encoding of the block under `key`, or nothing where the map
    /// has no block under that key.
    pub open spec fn encoding_at(&self, key: u16) -> Option<Encoding> {
        encoding_under(self.entries(), key)
    }

    /// Under every key that `from` has and `other` lacks, this map has a
    /// block in the encoding that the block of `from` has.
    pub open spec fn keeps_blocks(&self, from: BitVec, other: BitVec) -> bool {
        forall|k: u16| from.holds_key(k) && !other.holds_key(k) ==> #[trigger] self.encoding_at(k) == from.encoding_at(k)
    }

    /// What a well-formed map holds: values below 2 to the power 32.
    pub proof fn lemma_wf(&self)
        requires
            self.wf(),
        ensures
            within(self@, 0x1_0000_0000),
            count(self@, 0x1_0000_0000) == weight_before(self.entries(), self.entries().len() as int),
            self.entries().len() <= 65536,
    {
        let e = self.entries();
        if e.len() > 0 {
            lemma_key_index(e, 0);
        }
        assert forall|v: int| self@.contains(v) implies 0 <= v < 0x1_0000_0000 by {
            let j = choose|j: int|
                0 <= j < e.len() && (#[trigger] e[j]).key == v / 65536 && e[j].block@.contains(v % 65536);
            assert(v / 65536 <= 65535);
        }
        lemma_map_count(e, e.len() as int, 65536);
    }

    /// An empty set.
    pub fn new() -> (r: Self)
        ensures
            r.wf(),
            r@ == Set::<int>::empty(),
    {
        let r = BitVec { blocks: Vec::new() };
        assert(r@ =~= Set::<int>::empty());
        r
    }

    /// Number of entries whose key is smaller than `key`, found by bisection.
    fn find(&self, key: u16) -> (k: usize)
        requires
            self.wf(),
        ensures
            k <= self.entries().len(),
            forall|j: int| 0 <= j < k ==> (#[trigger] self.entries()[j]).key < key,
            forall|j: int| k <= j < self.entries().len() ==> key <= (#[trigger] self.entries()[j]).key,
    {
        let mut lo: usize = 0;
        let mut hi: usize = self.blocks.len();
        while lo < hi
            invariant
                self.wf(),
                lo <= hi <= self.blocks.len(),
                forall|j: int| 0 <= j < lo ==> (#[trigger] self.entries()[j]).key < key,
                forall|j: int| hi <= j < self.entries().len() ==> key <= (#[trigger] self.entries()[j]).key,
            decreases hi - lo,
        {
            let mid: usize = lo + (hi - lo) / 2;
            proof {
                assert forall|j: int| 0 <= j < mid implies (#[trigger] self.entries()[j]).key < self.entries()[mid as int].key by {}
                assert forall|j: int| mid < j < self.entries().len() implies self.entries()[mid as int].key < (
                #[trigger] self.entries()[j]).key by {}
            }
            if self.blocks[mid].key < key {
                lo = mid + 1;
            } else {
                hi = mid;
            }
        }
        lo
    }

    /// The encoding of the block under `key`, or nothing where the map
    /// has no block under that key.
    pub fn kind_at(&self, key: u16) -> (r: Option<Encoding>)
        requires
            self.wf(),
        ensures
            r == self.encoding_at(key),
            r is Some <==> self.holds_key(key),
    {
        let k = self.find(key);
        if k < self.blocks.len() && self.blocks[k].key == key {
            proof {
                lemma_entry_found(self.entries(), k as int);
            }
            Some(self.blocks[k].block.kind())
        } else {
            proof {
                lemma_key_missing(self.entries(), k as int, key);
            }
            None
        }
    }

    /// Whether the set holds no value.
    pub fn is_empty(&self) -> (r: bool)
        requires
            self.wf(),
        ensures
            r == (self@ == Set::<int>::empty()),
    {
        let r = self.blocks.len() == 0;
        proof {
            if r {
                assert(self@ =~= Set::<int>::empty());
            } else {
                let b = self.entries()[0].block;
                b.lemma_wf();
                if forall|v: int| 0 <= v < 65536 ==> !b@.contains(v) {
                    lemma_count_none(b@, 0, 65536);
                }
                let lo = choose|v: int| 0 <= v < 65536 && b@.contains(v);
                let v = 65536 * self.entries()[0].key + lo;
                assert(v / 65536 == self.entries()[0].key && v % 65536 == lo);
                assert(self@.contains(v));
            }
        }
        r
    }

    /// Whether `value` is in the set.
    pub fn contains(&self, value: u32) -> (r: bool)
        requires
            self.wf(),
        ensures
            r == self@.contains(value as int),
    {
        let key: u16 = (value / 65536) as u16;
        let lo: u16 = (value % 65536) as u16;
        let k = self.find(key);
        if k < self.blocks.len() && self.blocks[k].key == key {
            proof {
                lemma_lookup(self.entries(), k as int, value as int);
            }
            self.blocks[k].block.contains(lo)
        } else {
            proof {
                lemma_absent_key(self.entries(), k as int, value as int);
            }
            false
        }
    }

    /// Number of values in the set.
    pub fn count_ones(&self) -> (r: u64)
        requires
            self.wf(),
        ensures
            r == count(self@, 0x1_0000_0000),
    {
        let mut acc: u64 = 0;
        let mut j: usize = 0;
        proof {
            self.lemma_wf();
        }
        while j < self.blocks.len()
            invariant
                self.wf(),
                j <= self.blocks.len(),
                acc == weight_before(self.entries(), j as int),
                acc <= 65536 * j,
                self.blocks.len() <= 65536,
            decreases self.blocks.len() - j,
        {
            acc = acc + self.blocks[j].block.count_ones() as u64;
            j += 1;
        }
        acc
    }

    /// Number of 32-bit values that the set lacks.
    pub fn count_zeros(&self) -> (r: u64)
        requires
            self.wf(),
        ensures
            r == count_absent(self@, 0x1_0000_0000),
    {
        proof {
            lemma_count_bounds(self@, 0x1_0000_0000);
        }
        UNIVERSE - self.count_ones()
    }

    /// Puts the value with the upper bits `key` and the lower bits `lo`
    /// into the set: into the block under `key`, which is made if there is
    /// none, and which is then put into its cheapest encoding. Returns
    /// whether the value was missing before.
    pub fn insert_at(&mut self, key: u16, lo: u16) -> (r: bool)
        requires
            old(self).wf(),
        ensures
            final(self).wf(),
            final(self)@ == old(self)@.insert(join(key, lo)),
            r == !old(self)@.contains(join(key, lo)),
            final(self).encoding_at(key) == Some(
                preferred(
                    match old(self).encoding_at(key) {
                        Some(e) => e,
                        None => Encoding::Seq16,
                    },
                    count(values_under(final(self)@, key), 65536),
                    runs(values_under(final(self)@, key), 65536),
                ),
            ),
            forall|q: u16| q != key ==> #[trigger] final(self).encoding_at(q) == old(self).encoding_at(q),
    {
        let k = self.find(key);
        let ghost v0 = join(key, lo);
        let ghost e = self.entries();
        proof {
            assert(v0 / 65536 == key && v0 % 65536 == lo);
        }
        if k < self.blocks.len() && self.blocks[k].key == key {
            let ghost before = e[k as int].block@;
            let r = self.blocks[k].block.insert(lo);
            self.blocks[k].block.optimize();
            proof {
                let x = self.entries()[k as int];
                assert(self.entries() =~= e.update(k as int, x));
                lemma_count_insert(before, lo as int, 65536);
                lemma_entry_update(e, k as int, x);
                assert forall|v: int| 0 <= v && v / 65536 == key implies (map_members(e).contains(v)
                    <==> before.contains(v % 65536)) by {
                    lemma_lookup(e, k as int, v);
                }
                lemma_with_block_insert(map_members(e), key, lo, before, x.block@);
                lemma_elsewhere_update(e, k as int, x);
                lemma_entry_found(e, k as int);
                lemma_entry_found(self.entries(), k as int);
            }
            r
        } else {
            let mut block = Block::new();
            block.insert(lo);
            block.optimize();
            let x = Entry { key, block };
            proof {
                lemma_count_insert(Set::<int>::empty(), lo as int, 65536);
                lemma_entry_insert(e, k as int, x);
                assert forall|v: int| 0 <= v && v / 65536 == key implies (map_members(e).contains(v)
                    <==> Set::<int>::empty().contains(v % 65536)) by {
                    lemma_absent_key(e, k as int, v);
                }
                lemma_with_block_insert(map_members(e), key, lo, Set::<int>::empty(), x.block@);
                lemma_absent_key(e, k as int, v0);
                lemma_elsewhere_insert(e, k as int, x);
                lemma_key_missing(e, k as int, key);
                lemma_entry_found(e.insert(k as int, x), k as int);
            }
            self.blocks.insert(k, x);
            true
        }
    }

    /// Takes the value with the upper bits `key` and the lower bits `lo`
    /// out of the set. Where its block becomes empty, the entry leaves the
    /// map; else the block is put into its cheapest encoding. Returns
    /// whether the value was there before.
    pub fn remove_at(&mut self, key: u16, lo: u16) -> (r: bool)
        requires
            old(self).wf(),
        ensures
            final(self).wf(),
            final(self)@ == old(self)@.remove(join(key, lo)),
            r == old(self)@.contains(join(key, lo)),
            final(self).encoding_at(key) == if count(values_under(final(self)@, key), 65536) == 0 {
                None
            } else {
                Some(
                    preferred(
                        match old(self).encoding_at(key) {
                            Some(e) => e,
                            None => Encoding::Seq16,
                        },
                        count(values_under(final(self)@, key), 65536),
                        runs(values_under(final(self)@, key), 65536),
                    ),
                )
            },
            forall|q: u16| q != key ==> #[trigger] final(self).encoding_at(q) == old(self).encoding_at(q),
    {
        let k = self.find(key);
        let ghost v0 = join(key, lo);
        let ghost e = self.entries();
        proof {
            assert(v0 / 65536 == key && v0 % 65536 == lo);
        }
        if k < self.blocks.len() && self.blocks[k].key == key {
            let ghost before = e[k as int].block@;
            proof {
                lemma_lookup(e, k as int, v0);
                lemma_count_remove(before, lo as int, 65536);
                assert forall|v: int| 0 <= v && v / 65536 == key implies (map_members(e).contains(v)
                    <==> before.contains(v % 65536)) by {
                    lemma_lookup(e, k as int, v);
                }
            }
            if self.blocks[k].block.count_ones() == 1 && self.blocks[k].block.contains(lo) {
                proof {
                    lemma_entry_remove(e, k as int);
                    assert forall|x: int| 0 <= x < 65536 implies (Set::<int>::empty().contains(x) <==> before.remove(
                        lo as int,
                    ).contains(x)) by {
                        lemma_count_zero(before.remove(lo as int), 65536, x);
                    }
                    lemma_with_block_remove(map_members(e), key, lo, before, Set::<int>::empty());
                    lemma_elsewhere_remove(e, k as int);
                    let w = e.remove(k as int);
                    if k < w.len() {
                        assert(e[k as int].key < e[k + 1].key);
                    }
                    if k > 0 {
                        assert(e[k - 1].key < e[k as int].key);
                    }
                    lemma_key_missing(w, k as int, key);
                    lemma_count_empty(65536);
                }
                self.blocks.remove(k);
                true
            } else {
                let r = self.blocks[k].block.remove(lo);
                self.blocks[k].block.optimize();
                proof {
                    let x = self.entries()[k as int];
                    assert(self.entries() =~= e.update(k as int, x));
                    lemma_entry_update(e, k as int, x);
                    lemma_with_block_remove(map_members(e), key, lo, before, x.block@);
                    lemma_elsewhere_update(e, k as int, x);
                    lemma_entry_found(e, k as int);
                    lemma_entry_found(self.entries(), k as int);
                }
                r
            }
        } else {
            proof {
                lemma_absent_key(e, k as int, v0);
                assert(self@.remove(v0) =~= self@);
                lemma_key_missing(e, k as int, key);
                lemma_count_empty(65536);
            }
            false
        }
    }

    /// Puts `value` into the set. Returns whether it was missing before.
    pub fn insert(&mut self, value: u32) -> (r: bool)
        requires
            old(self).wf(),
        ensures
            final(self).wf(),
            final(self)@ == old(self)@.insert(value as int),
            r == !old(self)@.contains(value as int),
            count(final(self)@, 0x1_0000_0000) == count(old(self)@, 0x1_0000_0000) + if r { 1nat } else { 0nat },
            !r ==> final(self)@ == old(self)@,
    {
        proof {
            lemma_count_insert(self@, value as int, 0x1_0000_0000);
            if self@.contains(value as int) {
                assert(self@.insert(value as int) =~= self@);
            }
        }
        self.insert_at((value / 65536) as u16, (value % 65536) as u16)
    }

    /// Takes `value` out of the set. Returns whether it was there before.
    pub fn remove(&mut self, value: u32) -> (r: bool)
        requires
            old(self).wf(),
        ensures
            final(self).wf(),
            final(self)@ == old(self)@.remove(value as int),
            r == old(self)@.contains(value as int),
            count(final(self)@, 0x1_0000_0000) == count(old(self)@, 0x1_0000_0000) - if r { 1nat } else { 0nat },
            !r ==> final(self)@ == old(self)@,
    {
        proof {
            lemma_count_remove(self@, value as int, 0x1_0000_0000);
            if !self@.contains(value as int) {
                assert(self@.remove(value as int) =~= self@);
            }
        }
        self.remove_at((value / 65536) as u16, (value % 65536) as u16)
    }

    /// Number of values in the set that are smaller than `i`: the weights
    /// of the blocks under the keys below the key of `i`, and the rank of
    /// the lower 16 bits of `i` in the block under its key.
    pub fn rank1(&self, i: u32) -> (r: u32)
        requires
            self.wf(),
        ensures
            r == count(self@, i as int),
    {
        let key: u16 = (i / 65536) as u16;
        let lo: u16 = (i % 65536) as u16;
        let mut acc: u32 = 0;
        let mut j: usize = 0;
        while j < self.blocks.len() && self.blocks[j].key < key
            invariant
                self.wf(),
                j <= self.blocks.len(),
                acc == weight_before(self.entries(), j as int),
                j > 0 ==> self.entries()[j - 1].key < key,
            decreases self.blocks.len() - j,
        {
            proof {
                lemma_map_count_inside(self.entries(), j as int, 65536);
                lemma_count_bounds(self@, 65536 * self.entries()[j as int].key + 65536);
            }
            acc = acc + self.blocks[j].block.count_ones();
            j += 1;
        }
        if j < self.blocks.len() && self.blocks[j].key == key {
            proof {
                lemma_map_count_inside(self.entries(), j as int, lo as int);
                lemma_count_bounds(self@, i as int);
            }
            acc + self.blocks[j].block.rank1(lo)
        } else {
            proof {
                lemma_map_count(self.entries(), j as int, key as int);
                assert forall|y: int| 65536 * key <= y < i implies !self@.contains(y) by {
                    assert(y / 65536 == key);
                    lemma_absent_key(self.entries(), j as int, y);
                }
                lemma_count_none(self@, 65536 * key, i as int);
            }
            acc
        }
    }

    /// Number of values below `i` that the set lacks.
    pub fn rank0(&self, i: u32) -> (r: u32)
        requires
            self.wf(),
        ensures
            r == count_absent(self@, i as int),
    {
        proof {
            lemma_count_bounds(self@, i as int);
        }
        i - self.rank1(i)
    }

    /// The value of the set that has exactly `c` values of the set below
    /// it, or nothing where the set has no more than `c` values.
    pub fn select1(&self, c: u32) -> (r: Option<u32>)
        requires
            self.wf(),
        ensures
            r is Some <==> c < count(self@, 0x1_0000_0000),
            match r {
                Some(p) => is_select1(self@, c as int, p as int),
                None => c >= count(self@, 0x1_0000_0000),
            },
    {
        let r = self.find_select1(c);
        proof {
            if let Some(p) = r {
                lemma_count_strict(self@, p as int, 0x1_0000_0000);
            }
        }
        r
    }

    /// Walks the entries and adds up their weights, until the entry that
    /// holds the value with the ordinal `c` is found.
    fn find_select1(&self, c: u32) -> (r: Option<u32>)
        requires
            self.wf(),
        ensures
            match r {
                Some(p) => is_select1(self@, c as int, p as int),
                None => c >= count(self@, 0x1_0000_0000),
            },
    {
        let mut acc: u64 = 0;
        let mut j: usize = 0;
        proof {
            self.lemma_wf();
        }
        while j < self.blocks.len()
            invariant
                self.wf(),
                j <= self.blocks.len(),
                acc == weight_before(self.entries(), j as int),
                acc <= c,
            decreases self.blocks.len() - j,
        {
            let w = self.blocks[j].block.count_ones() as u64;
            if acc + w > c as u64 {
                let found = self.blocks[j].block.select1((c as u64 - acc) as u16);
                match found {
                    Some(p) => {
                        let key = self.blocks[j].key;
                        proof {
                            let v = join(key, p);
                            assert(v / 65536 == key && v % 65536 == p);
                            lemma_lookup(self.entries(), j as int, v);
                            lemma_map_count_inside(self.entries(), j as int, p as int);
                        }
                        return Some(key as u32 * 65536 + p as u32);
                    },
                    None => {
                        proof {
                            assert(false);
                        }
                        return None;
                    },
                }
            }
            acc = acc + w;
            j += 1;
        }
        None
    }

    /// The value missing from the set that has exactly `c` missing values
    /// below it, or nothing where the set lacks no more than `c` values.
    pub fn select0(&self, c: u32) -> (r: Option<u32>)
        requires
            self.wf(),
        ensures
            r is Some <==> c < count_absent(self@, 0x1_0000_0000),
            match r {
                Some(p) => is_select0(self@, c as int, p as int),
                None => c >= count_absent(self@, 0x1_0000_0000),
            },
    {
        let r = self.find_select0(c);
        proof {
            if let Some(p) = r {
                lemma_count_absent_strict(self@, p as int, 0x1_0000_0000);
            }
        }
        r
    }

    /// Walks the entries and the gaps between them and adds up what they
    /// lack, until the missing value with the ordinal `c` is found.
    fn find_select0(&self, c: u32) -> (r: Option<u32>)
        requires
            self.wf(),
        ensures
            match r {
                Some(p) => is_select0(self@, c as int, p as int),
                None => c >= count_absent(self@, 0x1_0000_0000),
            },
    {
        let mut acc: u64 = 0;
        let mut j: usize = 0;
        proof {
            self.lemma_wf();
        }
        while j < self.blocks.len()
            invariant
                self.wf(),
                j <= self.blocks.len() <= 65536,
                acc == weight_before(self.entries(), j as int),
                j > 0 ==> 65536 * self.entries()[j - 1].key + 65536 - acc <= c,
            decreases self.blocks.len() - j,
        {
            let key = self.blocks[j].key;
            let base: u64 = key as u64 * 65536;
            let w = self.blocks[j].block.count_ones() as u64;
            proof {
                lemma_map_count_inside(self.entries(), j as int, 0);
                lemma_map_count_inside(self.entries(), j as int, 65536);
                lemma_count_bounds(self@, base as int);
                lemma_weight_before(self.entries(), j as int);
                if j > 0 {
                    assert(self.entries()[j - 1].key < self.entries()[j as int].key);
                }
            }
            let before: u64 = base - acc;
            if (c as u64) < before {
                // the answer lies below this block, behind the one before it
                let p: u64 = c as u64 + acc;
                proof {
                    lemma_map_count(self.entries(), j as int, key as int);
                    assert forall|y: int| p <= y < base implies !self@.contains(y) by {
                        if j > 0 {
                            assert(65536 * self.entries()[j - 1].key + 65536 <= p);
                        }
                        lemma_absent_key(self.entries(), j as int, y);
                    }
                    lemma_count_none(self@, p as int, base as int);
                }
                return Some(p as u32);
            }
            if (c as u64) < before + (65536 - w) {
                let found = self.blocks[j].block.select0((c as u64 - before) as u16);
                match found {
                    Some(p) => {
                        proof {
                            let v = join(key, p);
                            assert(v / 65536 == key && v % 65536 == p);
                            lemma_lookup(self.entries(), j as int, v);
                            lemma_map_count_inside(self.entries(), j as int, p as int);
                        }
                        return Some(key as u32 * 65536 + p as u32);
                    },
                    None => {
                        proof {
                            assert(false);
                        }
                        return None;
                    },
                }
            }
            acc = acc + w;
            j += 1;
        }
        proof {
            lemma_weight_before(self.entries(), j as int);
        }
        let p: u64 = c as u64 + acc;
        if p < UNIVERSE {
            proof {
                let n = self.entries().len() as int;
                let from: int = if n == 0 { 0 } else { 65536 * self.entries()[n - 1].key + 65536 };
                lemma_map_count(self.entries(), n, 65536);
                assert forall|y: int| from <= y < 0x1_0000_0000 implies !self@.contains(y) by {
                    lemma_absent_key(self.entries(), n, y);
                }
                if n == 0 {
                    lemma_count_none(self@, 0, p as int);
                } else {
                    lemma_map_count_inside(self.entries(), n - 1, 65536);
                    lemma_count_none(self@, from, p as int);
                }
            }
            Some(p as u32)
        } else {
            None
        }
    }

    /// The values of the set, in increasing order.
    pub fn bits(&self) -> (r: Vec<u32>)
        requires
            self.wf(),
        ensures
            sorted32(r@),
            members32(r@) == self@,
            r@.len() == count(self@, 0x1_0000_0000),
    {
        let mut out: Vec<u32> = Vec::new();
        let mut j: usize = 0;
        let ghost e = self.entries();
        proof {
            assert(members32(out@) =~= Set::<int>::empty());
        }
        while j < self.blocks.len()
            invariant
                self.wf(),
                e == self.entries(),
                j <= self.blocks.len(),
                sorted32(out@),
                forall|i: int| 0 <= i < out.len() && j < e.len() ==> out[i] < 65536 * e[j as int].key,
                forall|y: int|
                    members32(out@).contains(y) <==> (self@.contains(y) && (j < e.len() ==> y < 65536 * e[j as int].key)),
            decreases self.blocks.len() - j,
        {
            let key = self.blocks[j].key;
            let base: u32 = key as u32 * 65536;
            let vals = self.blocks[j].block.values();
            let ghost b = e[j as int].block@;
            let mut t: usize = 0;
            proof {
                assert(members16(vals@.take(0)) =~= Set::<int>::empty());
            }
            while t < vals.len()
                invariant
                    self.wf(),
                    e == self.entries(),
                    j < e.len(),
                    key == e[j as int].key,
                    base == 65536 * key,
                    b == e[j as int].block@,
                    sorted16(vals@),
                    members16(vals@) == b,
                    t <= vals.len(),
                    sorted32(out@),
                    forall|i: int| 0 <= i < out.len() && t < vals.len() ==> out[i] < base + vals[t as int],
                    forall|i: int| 0 <= i < out.len() ==> out[i] < base + 65536,
                    forall|y: int|
                        members32(out@).contains(y) <==> (self@.contains(y) && (y < base || (y / 65536 == key
                            && members16(vals@.take(t as int)).contains(y % 65536)))),
                decreases vals.len() - t,
            {
                let v: u32 = base + vals[t] as u32;
                proof {
                    lemma_members32_push(out@, v);
                    lemma_members16_take(vals@, t as int);
                    let grown = out@.push(v);
                    assert(sorted32(grown)) by {
                        assert forall|p: int, q: int| 0 <= p < q < grown.len() implies grown[p] < grown[q] by {
                            if q < out.len() {
                                assert(out[p] < out[q]);
                            }
                        }
                    }
                    assert(v / 65536 == key && v % 65536 == vals[t as int]);
                    assert(b.contains(vals[t as int] as int));
                    lemma_lookup(e, j as int, v as int);
                    if t + 1 < vals.len() {
                        assert(vals[t as int] < vals[t + 1]);
                    }
                    assert forall|y: int|
                        members32(grown).contains(y) <==> (self@.contains(y) && (y < base || (y / 65536 == key
                            && members16(vals@.take(t + 1)).contains(y % 65536)))) by {
                        if 0 <= y && y / 65536 == key {
                            assert(y == v <==> y % 65536 == vals[t as int]);
                            lemma_lookup(e, j as int, y);
                        }
                    }
                }
                out.push(v);
                t += 1;
            }
            proof {
                assert(vals@.take(vals.len() as int) =~= vals@);
                if j + 1 < e.len() {
                    assert(e[j as int].key < e[j + 1].key);
                }
                assert forall|y: int|
                    members32(out@).contains(y) <==> (self@.contains(y) && (j + 1 < e.len() ==> y < 65536 * e[j
                        + 1].key)) by {
                    if self@.contains(y) {
                        if y / 65536 == key {
                            lemma_lookup(e, j as int, y);
                        } else if y / 65536 > key {
                            if j + 1 < e.len() {
                                if y < 65536 * e[j + 1].key {
                                    lemma_absent_key(e, j + 1, y);
                                }
                            } else {
                                lemma_absent_key(e, j + 1, y);
                            }
                        }
                    }
                }
            }
            j += 1;
        }
        proof {
            assert(members32(out@) =~= self@);
            lemma_count_members32(out@, out@.len() as int, 0x1_0000_0000);
        }
        out
    }

    /// The set that holds the given values, which may come in any order
    /// and more than once.
    pub fn from_values(values: &Vec<u32>) -> (r: Self)
        ensures
            r.wf(),
            r@ == members32(values@),
    {
        let mut r = Self::new();
        let mut i: usize = 0;
        proof {
            assert(members32(values@.take(0)) =~= Set::<int>::empty());
        }
        while i < values.len()
            invariant
                i <= values.len(),
                r.wf(),
                r@ == members32(values@.take(i as int)),
            decreases values.len() - i,
        {
            proof {
                lemma_members32_take(values@, i as int);
            }
            r.insert(values[i]);
            i += 1;
        }
        proof {
            assert(values@.take(values.len() as int) =~= values@);
        }
        r
    }
}

/// Two sequences of entries with the same keys and the same values under
/// each key hold the same values.
proof fn lemma_same_entries(e: Seq<Entry>, w: Seq<Entry>)
    requires
        e.len() == w.len(),
        forall|i: int| 0 <= i < e.len() ==> (#[trigger] e[i]).key == w[i].key && e[i].block@ == w[i].block@,
    ensures
        map_members(e) == map_members(w),
{
    assert forall|v: int| map_members(e).contains(v) <==> map_members(w).contains(v) by {
        if map_members(e).contains(v) {
            let j = choose|j: int| 0 <= j < e.len() && (#[trigger] e[j]).key == v / 65536 && e[j].block@.contains(v % 65536);
            assert(w[j].key == v / 65536 && w[j].block@.contains(v % 65536));
        }
        if map_members(w).contains(v) {
            let j = choose|j: int| 0 <= j < w.len() && (#[trigger] w[j]).key == v / 65536 && w[j].block@.contains(v % 65536);
            assert(e[j].key == v / 65536 && e[j].block@.contains(v % 65536));
        }
    }
    assert(map_members(e) =~= map_members(w));
}

impl Clone for BitVec {
    /// A copy with the same values, block by block in the same encoding.
    fn clone(&self) -> (r: Self)
        ensures
            r@ == self@,
            self.wf() ==> r.wf(),
    {
        let mut blocks: Vec<Entry> = Vec::with_capacity(self.blocks.len());
        let mut i: usize = 0;
        while i < self.blocks.len()
            invariant
                i <= self.blocks.len(),
                blocks.len() == i,
                forall|k: int|
                    0 <= k < i ==> (#[trigger] blocks[k]).key == self.entries()[k].key && blocks[k].block@
                        == self.entries()[k].block@ && blocks[k].block.wf() == self.entries()[k].block.wf()
                        && blocks[k].block.encoding() == self.entries()[k].block.encoding(),
            decreases self.blocks.len() - i,
        {
            let x = Entry { key: self.blocks[i].key, block: self.blocks[i].block.clone() };
            blocks.push(x);
            i += 1;
        }
        let r = BitVec { blocks };
        proof {
            lemma_same_entries(r.entries(), self.entries());
            if self.wf() {
                let e = self.entries();
                let w = r.entries();
                assert forall|a: int, b: int| 0 <= a < b < w.len() implies (#[trigger] w[a]).key < (
                #[trigger] w[b]).key by {
                    assert(e[a].key < e[b].key);
                }
                assert forall|a: int| 0 <= a < w.len() implies (#[trigger] w[a]).block.wf() && count(w[a].block@, 65536)
                    > 0 && w[a].block.settled() by {
                    assert(e[a].block.wf());
                }
            }
        }
        r
    }
}

} // verus!
