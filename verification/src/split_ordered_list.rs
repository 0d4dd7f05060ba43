//! A map from integer keys to values, arranged in split order.
//!
//! The map keeps every entry in one list sorted by the bit-reversed image
//! of its key.  Bucket `i` is marked by a permanent sentinel node whose
//! ordering key is `rev64(i)`; the entry for key `k` carries the ordering
//! key `rev64(k) + 1` and therefore follows the sentinel of bucket
//! `k % size` for every power-of-two `size`.  Doubling the bucket count
//! consequently never moves a node; new sentinels are spliced in lazily,
//! each one found from its parent bucket `i - top_bit(i)`.

use vstd::prelude::*;
use vstd::arithmetic::power2::{
    pow2, lemma_pow2_pos, lemma_pow2_unfold, lemma_pow2_strictly_increases, lemma2_to64,
    lemma2_to64_rest,
};
use vstd::arithmetic::div_mod::{
    lemma_basic_div, lemma_mod_division_less_than_divisor, lemma_fundamental_div_mod_converse,
};
use crate::bits::{
    rev_spec, rev64, bit_reverse, get_top_bit, lemma_rev_bound, lemma_rev64_is_rev_spec,
    lemma_rev_parity, lemma_rev_injective, lemma_rev_mod_prefix,
};

verus! {

/// One node of the shared list: a sentinel (no value) or an entry.
#[derive(Debug)]
struct ListNode<V> {
    okey: u64,
    value: Option<V>,
}

/// A key is usable if its leading bit is clear; that bit distinguishes
/// entries from sentinels after reversal.
pub open spec fn valid_key(k: u64) -> bool {
    k < 0x8000000000000000
}

/// The ordering key of the entry for `k`.
pub open spec fn data_okey(k: u64) -> u64 {
    (rev64(k) + 1) as u64
}

/// The ordering key of the sentinel of bucket `i`.
pub open spec fn sentinel_okey(i: int) -> u64 {
    rev64(i as u64)
}

spec fn okey_at<V>(s: Seq<ListNode<V>>, j: int) -> u64 {
    s[j].okey
}

spec fn sorted_okeys<V>(s: Seq<ListNode<V>>) -> bool {
    forall|i: int, j: int| 0 <= i < j < s.len() ==> okey_at(s, i) < okey_at(s, j)
}

spec fn has_okey<V>(s: Seq<ListNode<V>>, o: u64) -> bool {
    exists|j: int| 0 <= j < s.len() && okey_at(s, j) == o
}

spec fn okey_index<V>(s: Seq<ListNode<V>>, o: u64) -> int {
    choose|j: int| 0 <= j < s.len() && okey_at(s, j) == o
}

spec fn data_count<V>(s: Seq<ListNode<V>>) -> nat
    decreases s.len(),
{
    if s.len() == 0 {
        0
    } else {
        data_count(s.drop_last()) + if s.last().okey % 2 == 1 {
            1nat
        } else {
            0nat
        }
    }
}

/// The abstract contents: each valid key whose entry node is present,
/// mapped to the entry's value.
spec fn map_of<V>(s: Seq<ListNode<V>>) -> Map<u64, V> {
    Map::new(
        |k: u64| valid_key(k) && has_okey(s, data_okey(k)),
        |k: u64| s[okey_index(s, data_okey(k))].value.unwrap(),
    )
}

/// A map from keys with a clear leading bit to values, backed by one
/// list in split order together with lazily published bucket sentinels.
pub struct SplitOrderedList<V> {
    nodes: Vec<ListNode<V>>,
    buckets: Vec<bool>,
    size: usize,
    count: usize,
    log_size: Ghost<nat>,
}

impl<V> View for SplitOrderedList<V> {
    type V = Map<u64, V>;

    closed spec fn view(&self) -> Map<u64, V> {
        map_of(self.nodes@)
    }
}

impl<V> SplitOrderedList<V> {
    /// `size` is doubled when `count` exceeds `size * LOAD_FACTOR`.
    pub const LOAD_FACTOR: usize = 2;

    /// The current bucket count.
    pub closed spec fn spec_size(&self) -> usize {
        self.size
    }

    /// The current entry count.
    pub closed spec fn spec_count(&self) -> usize {
        self.count
    }

    /// Structural soundness: the list is strictly sorted by ordering key,
    /// sentinels and entries are told apart by the low bit, every
    /// published bucket has its sentinel in the list and every sentinel
    /// belongs to a published bucket, the bucket count is a power of two,
    /// and `count` counts the entries.
    pub closed spec fn wf(&self) -> bool {
        &&& sorted_okeys(self.nodes@)
        &&& self.size == pow2(self.log_size@)
        &&& self.log_size@ >= 1
        &&& forall|j: int|
            0 <= j < self.nodes@.len() ==> (okey_at(self.nodes@, j) % 2 == 1 <==> self.nodes@[j].value
                is Some)
        &&& forall|i: int|
            0 <= i < self.buckets@.len() && self.buckets@[i] ==> i < self.size && has_okey(
                self.nodes@,
                sentinel_okey(i),
            )
        &&& forall|j: int|
            0 <= j < self.nodes@.len() && okey_at(self.nodes@, j) % 2 == 0 ==> exists|i: int|
                0 <= i < self.buckets@.len() && self.buckets@[i] && sentinel_okey(i) == okey_at(
                    self.nodes@,
                    j,
                )
        &&& self.count == data_count(self.nodes@)
    }

    /// Creates an empty map with two buckets.
    pub fn new() -> (r: Self)
        ensures
            r.wf(),
            r@ == Map::<u64, V>::empty(),
            r.spec_size() == 2,
            r.spec_count() == 0,
    {
        let r = SplitOrderedList {
            nodes: Vec::new(),
            buckets: Vec::new(),
            size: 2usize,
            count: 0usize,
            log_size: Ghost(1nat),
        };
        proof {
            lemma2_to64();
            assert(r.nodes@.len() == 0);
            assert(r@ =~= Map::<u64, V>::empty());
        }
        r
    }
}

impl<V> Default for SplitOrderedList<V> {
    fn default() -> (r: Self)
        ensures
            r.wf(),
            r@ == Map::<u64, V>::empty(),
            r.spec_size() == 2,
            r.spec_count() == 0,
    {
        Self::new()
    }
}

proof fn lemma_okey_unique<V>(s: Seq<ListNode<V>>, i: int, j: int)
    requires
        sorted_okeys(s),
        0 <= i < s.len(),
        0 <= j < s.len(),
        okey_at(s, i) == okey_at(s, j),
    ensures
        i == j,
{
    if i < j {
        assert(okey_at(s, i) < okey_at(s, j));
    } else if j < i {
        assert(okey_at(s, j) < okey_at(s, i));
    }
}

proof fn lemma_okey_index_works<V>(s: Seq<ListNode<V>>, o: u64)
    requires
        sorted_okeys(s),
        has_okey(s, o),
    ensures
        0 <= okey_index(s, o) < s.len(),
        okey_at(s, okey_index(s, o)) == o,
        forall|j: int| 0 <= j < s.len() && okey_at(s, j) == o ==> j == okey_index(s, o),
{
    let w = choose|j: int| 0 <= j < s.len() && okey_at(s, j) == o;
    assert(0 <= w < s.len() && okey_at(s, w) == o);
    assert forall|j: int| 0 <= j < s.len() && okey_at(s, j) == o implies j == okey_index(s, o) by {
        lemma_okey_unique(s, j, okey_index(s, o));
    }
}

proof fn lemma_has_okey_insert<V>(s: Seq<ListNode<V>>, pos: int, nd: ListNode<V>)
    requires
        0 <= pos <= s.len(),
    ensures
        forall|o: u64|
            has_okey(#[trigger] s.insert(pos, nd), o) <==> (has_okey(s, o) || nd.okey == o),
{
    let s2 = s.insert(pos, nd);
    s.insert_ensures(pos, nd);
    assert forall|o: u64| has_okey(s2, o) implies (has_okey(s, o) || nd.okey == o) by {
        let j = choose|j: int| 0 <= j < s2.len() && okey_at(s2, j) == o;
        if j < pos {
            assert(okey_at(s, j) == o);
        } else if j == pos {
            assert(nd.okey == o);
        } else {
            assert(s2[j] == s[j - 1]);
            assert(okey_at(s, j - 1) == o);
        }
    }
    assert forall|o: u64| (has_okey(s, o) || nd.okey == o) implies has_okey(s2, o) by {
        if nd.okey == o {
            assert(okey_at(s2, pos) == o);
        } else {
            let j = choose|j: int| 0 <= j < s.len() && okey_at(s, j) == o;
            if j < pos {
                assert(okey_at(s2, j) == o);
            } else {
                assert(s2[j + 1] == s[j]);
                assert(okey_at(s2, j + 1) == o);
            }
        }
    }
}

proof fn lemma_has_okey_remove<V>(s: Seq<ListNode<V>>, pos: int)
    requires
        sorted_okeys(s),
        0 <= pos < s.len(),
    ensures
        forall|o: u64|
            has_okey(#[trigger] s.remove(pos), o) <==> (has_okey(s, o) && okey_at(s, pos) != o),
        sorted_okeys(s.remove(pos)),
{
    let s2 = s.remove(pos);
    s.remove_ensures(pos);
    assert forall|o: u64| has_okey(s2, o) implies (has_okey(s, o) && okey_at(s, pos) != o) by {
        let j = choose|j: int| 0 <= j < s2.len() && okey_at(s2, j) == o;
        if j < pos {
            assert(okey_at(s, j) == o);
            lemma_okey_unique(s, j, j);
            assert(j != pos);
            if okey_at(s, pos) == o {
                lemma_okey_unique(s, j, pos);
            }
        } else {
            assert(s2[j] == s[j + 1]);
            assert(okey_at(s, j + 1) == o);
            if okey_at(s, pos) == o {
                lemma_okey_unique(s, j + 1, pos);
            }
        }
    }
    assert forall|o: u64| (has_okey(s, o) && okey_at(s, pos) != o) implies has_okey(s2, o) by {
        let j = choose|j: int| 0 <= j < s.len() && okey_at(s, j) == o;
        if j < pos {
            assert(okey_at(s2, j) == o);
        } else {
            assert(j != pos);
            assert(s2[j - 1] == s[j]);
            assert(okey_at(s2, j - 1) == o);
        }
    }
    assert forall|i: int, j: int| 0 <= i < j < s2.len() implies okey_at(s2, i) < okey_at(
        s2,
        j,
    ) by {
        let i0: int = if i < pos {
            i
        } else {
            i + 1
        };
        let j0: int = if j < pos {
            j
        } else {
            j + 1
        };
        assert(s2[i] == s[i0]);
        assert(s2[j] == s[j0]);
        assert(okey_at(s, i0) < okey_at(s, j0));
    }
}

proof fn lemma_data_count_le_len<V>(s: Seq<ListNode<V>>)
    ensures
        data_count(s) <= s.len(),
    decreases s.len(),
{
    if s.len() > 0 {
        lemma_data_count_le_len(s.drop_last());
    }
}

proof fn lemma_data_count_insert<V>(s: Seq<ListNode<V>>, pos: int, nd: ListNode<V>)
    requires
        0 <= pos <= s.len(),
    ensures
        data_count(s.insert(pos, nd)) == data_count(s) + if nd.okey % 2 == 1 {
            1nat
        } else {
            0nat
        },
    decreases s.len(),
{
    let s2 = s.insert(pos, nd);
    s.insert_ensures(pos, nd);
    if pos == s.len() {
        assert(s2.drop_last() =~= s);
        assert(s2.last() == nd);
    } else {
        assert(s2.last() == s.last());
        assert(s2.drop_last() =~= s.drop_last().insert(pos, nd)) by {
            s.drop_last().insert_ensures(pos, nd);
        }
        lemma_data_count_insert(s.drop_last(), pos, nd);
        assert(s.drop_last().push(s.last()) =~= s);
    }
}

proof fn lemma_data_count_remove<V>(s: Seq<ListNode<V>>, pos: int)
    requires
        0 <= pos < s.len(),
    ensures
        data_count(s) == data_count(s.remove(pos)) + if okey_at(s, pos) % 2 == 1 {
            1nat
        } else {
            0nat
        },
{
    let s2 = s.remove(pos);
    s.remove_ensures(pos);
    assert(s2.insert(pos, s[pos]) =~= s) by {
        s2.insert_ensures(pos, s[pos]);
    }
    lemma_data_count_insert(s2, pos, s[pos]);
}

proof fn lemma_rev64_even(k: u64)
    requires
        (k as nat) < pow2(63),
    ensures
        rev64(k) % 2 == 0,
        rev64(k) < 0xffffffffffffffff,
{
    lemma_rev64_is_rev_spec(k);
    lemma_rev_parity(k as nat, 64);
    lemma_pow2_pos(63);
    lemma_basic_div(k as int, pow2(63) as int);
    lemma_rev_bound(k as nat, 64);
    lemma2_to64_rest();
    assert(pow2(64) == 0x10000000000000000);
}

/// For a valid key the entry's ordering key is odd and sits one past the
/// reversal; for a bucket index the sentinel's ordering key is even.
proof fn lemma_okey_parity(k: u64, i: int)
    requires
        valid_key(k),
        0 <= i < pow2(63),
    ensures
        rev64(k) % 2 == 0,
        data_okey(k) == rev64(k) + 1,
        data_okey(k) % 2 == 1,
        sentinel_okey(i) % 2 == 0,
{
    lemma2_to64_rest();
    assert(pow2(63) == 0x8000000000000000);
    lemma_rev64_even(k);
    lemma_rev64_even(i as u64);
}

proof fn lemma_data_okey_injective(k1: u64, k2: u64)
    requires
        valid_key(k1),
        valid_key(k2),
        data_okey(k1) == data_okey(k2),
    ensures
        k1 == k2,
{
    lemma2_to64_rest();
    assert(pow2(63) == 0x8000000000000000);
    lemma_rev64_even(k1);
    lemma_rev64_even(k2);
    lemma_rev64_is_rev_spec(k1);
    lemma_rev64_is_rev_spec(k2);
    assert(pow2(64) == 0x10000000000000000);
    lemma_rev_injective(k1 as nat, k2 as nat, 64);
}

proof fn lemma_sentinel_injective(i1: int, i2: int)
    requires
        0 <= i1 < pow2(64),
        0 <= i2 < pow2(64),
        sentinel_okey(i1) == sentinel_okey(i2),
    ensures
        i1 == i2,
{
    lemma2_to64_rest();
    assert(pow2(64) == 0x10000000000000000);
    lemma_rev64_is_rev_spec(i1 as u64);
    lemma_rev64_is_rev_spec(i2 as u64);
    lemma_rev_injective(i1 as nat, i2 as nat, 64);
}

/// The sentinel of a key's bucket precedes the key's entry in split
/// order, at every power-of-two bucket count.
pub proof fn lemma_sentinel_before_data(k: u64, e: nat)
    requires
        valid_key(k),
        e <= 63,
    ensures
        sentinel_okey(((k as nat) % pow2(e)) as int) < data_okey(k),
{
    let i = (k as nat) % pow2(e);
    lemma_pow2_pos(e);
    lemma_mod_division_less_than_divisor(k as int, pow2(e) as int);
    lemma2_to64_rest();
    assert(pow2(63) == 0x8000000000000000);
    assert(pow2(64) == 0x10000000000000000);
    if e < 63 {
        lemma_pow2_strictly_increases(e, 63);
    }
    assert(i < pow2(63));
    lemma_rev64_even(k);
    lemma_rev64_is_rev_spec(k);
    lemma_rev64_is_rev_spec(i as u64);
    lemma_rev_mod_prefix(k as nat, e, 64);
    assert(rev64(i as u64) <= rev64(k));
}

/// The parent of bucket `i` (its index with the top bit cleared) has a
/// smaller sentinel ordering key.
proof fn lemma_parent_before_child(i: int, p: int, t: nat)
    requires
        0 < i < pow2(63),
        p == i - pow2(t),
        pow2(t) <= i < 2 * pow2(t),
    ensures
        0 <= p < pow2(t),
        sentinel_okey(p) < sentinel_okey(i),
{
    lemma_pow2_pos(t);
    assert(0 <= p < pow2(t));
    // p is the residue of i modulo pow2(t)
    lemma_fundamental_div_mod_converse(i, pow2(t) as int, 1, p);
    assert((i as nat) % pow2(t) == p);
    lemma2_to64_rest();
    assert(pow2(63) == 0x8000000000000000);
    assert(pow2(64) == 0x10000000000000000);
    assert(t <= 63) by {
        if t > 63 {
            lemma_pow2_strictly_increases(63, t);
        }
    }
    lemma_rev64_is_rev_spec(i as u64);
    lemma_rev64_is_rev_spec(p as u64);
    lemma_rev_mod_prefix(i as nat, t, 64);
    assert(rev64(p as u64) <= rev64(i as u64));
    if sentinel_okey(p) == sentinel_okey(i) {
        lemma_sentinel_injective(p, i);
        assert(false);
    }
}

proof fn lemma_sorted_insert<V>(s: Seq<ListNode<V>>, pos: int, nd: ListNode<V>)
    requires
        sorted_okeys(s),
        0 <= pos <= s.len(),
        forall|j: int| 0 <= j < pos ==> okey_at(s, j) < nd.okey,
        forall|j: int| pos <= j < s.len() ==> okey_at(s, j) > nd.okey,
    ensures
        sorted_okeys(s.insert(pos, nd)),
        forall|o: u64|
            has_okey(#[trigger] s.insert(pos, nd), o) <==> (has_okey(s, o) || nd.okey == o),
{
    let s2 = s.insert(pos, nd);
    s.insert_ensures(pos, nd);
    lemma_has_okey_insert(s, pos, nd);
    assert forall|i: int, j: int| 0 <= i < j < s2.len() implies okey_at(s2, i) < okey_at(
        s2,
        j,
    ) by {
        if i < pos {
            assert(s2[i] == s[i]);
            assert(okey_at(s2, i) == okey_at(s, i) && okey_at(s, i) < nd.okey);
        } else if i == pos {
            assert(okey_at(s2, i) == nd.okey);
        } else {
            assert(s2[i] == s[i - 1]);
            assert(okey_at(s2, i) == okey_at(s, i - 1) && okey_at(s, i - 1) > nd.okey);
        }
        if j < pos {
            assert(s2[j] == s[j]);
            assert(okey_at(s2, j) == okey_at(s, j) && okey_at(s, j) < nd.okey);
        } else if j == pos {
            assert(okey_at(s2, j) == nd.okey);
        } else {
            assert(s2[j] == s[j - 1]);
            assert(okey_at(s2, j) == okey_at(s, j - 1) && okey_at(s, j - 1) > nd.okey);
        }
        if i < pos && j < pos {
            assert(okey_at(s, i) < okey_at(s, j));
        }
        if pos < i && pos < j {
            assert(okey_at(s, i - 1) < okey_at(s, j - 1));
        }
        if i < pos && pos < j {
            assert(okey_at(s, i) < nd.okey && nd.okey < okey_at(s, j - 1));
        }
    }
}

proof fn lemma_map_insert_sentinel<V>(s: Seq<ListNode<V>>, pos: int, nd: ListNode<V>)
    requires
        sorted_okeys(s),
        0 <= pos <= s.len(),
        nd.okey % 2 == 0,
        forall|j: int| 0 <= j < pos ==> okey_at(s, j) < nd.okey,
        forall|j: int| pos <= j < s.len() ==> okey_at(s, j) > nd.okey,
    ensures
        sorted_okeys(s.insert(pos, nd)),
        map_of(s.insert(pos, nd)) == map_of(s),
{
    let s2 = s.insert(pos, nd);
    s.insert_ensures(pos, nd);
    lemma_sorted_insert(s, pos, nd);
    lemma2_to64_rest();
    assert(pow2(63) == 0x8000000000000000);
    assert forall|k: u64| valid_key(k) implies (has_okey(s2, data_okey(k)) <==> has_okey(
        s,
        data_okey(k),
    )) by {
        lemma_rev64_even(k);
        assert(data_okey(k) % 2 == 1);
    }
    assert forall|k: u64| valid_key(k) && has_okey(s, data_okey(k)) implies s2[okey_index(
        s2,
        data_okey(k),
    )].value == s[okey_index(s, data_okey(k))].value by {
        let o = data_okey(k);
        lemma_okey_index_works(s, o);
        lemma_okey_index_works(s2, o);
        let j1 = okey_index(s, o);
        let jm: int = if j1 < pos {
            j1
        } else {
            j1 + 1
        };
        assert(s2[jm] == s[j1]);
        assert(okey_at(s2, jm) == o);
        assert(okey_index(s2, o) == jm);
    }
    assert(map_of(s2) =~= map_of(s));
}

proof fn lemma_map_insert_data<V>(s: Seq<ListNode<V>>, pos: int, k0: u64, v: V)
    requires
        sorted_okeys(s),
        0 <= pos <= s.len(),
        valid_key(k0),
        forall|j: int| 0 <= j < pos ==> okey_at(s, j) < data_okey(k0),
        forall|j: int| pos <= j < s.len() ==> okey_at(s, j) > data_okey(k0),
    ensures
        sorted_okeys(s.insert(pos, ListNode { okey: data_okey(k0), value: Some(v) })),
        map_of(s.insert(pos, ListNode { okey: data_okey(k0), value: Some(v) })) == map_of(
            s,
        ).insert(k0, v),
{
    let nd = ListNode { okey: data_okey(k0), value: Some(v) };
    let s2 = s.insert(pos, nd);
    s.insert_ensures(pos, nd);
    lemma_sorted_insert(s, pos, nd);
    lemma2_to64_rest();
    assert(pow2(63) == 0x8000000000000000);
    assert forall|k: u64| valid_key(k) && k != k0 implies (has_okey(s2, data_okey(k))
        <==> has_okey(s, data_okey(k))) by {
        if data_okey(k) == data_okey(k0) {
            lemma_data_okey_injective(k, k0);
        }
    }
    assert forall|k: u64| valid_key(k) && k != k0 && has_okey(s, data_okey(k)) implies s2[
        okey_index(s2, data_okey(k))].value == s[okey_index(s, data_okey(k))].value by {
        let o = data_okey(k);
        if o == data_okey(k0) {
            lemma_data_okey_injective(k, k0);
        }
        lemma_okey_index_works(s, o);
        lemma_okey_index_works(s2, o);
        let j1 = okey_index(s, o);
        let jm: int = if j1 < pos {
            j1
        } else {
            j1 + 1
        };
        assert(s2[jm] == s[j1]);
        assert(okey_at(s2, jm) == o);
        assert(okey_index(s2, o) == jm);
    }
    assert(okey_at(s2, pos) == data_okey(k0));
    lemma_okey_index_works(s2, data_okey(k0));
    assert(okey_index(s2, data_okey(k0)) == pos);
    assert(s2[pos].value == Some(v));
    assert(map_of(s2) =~= map_of(s).insert(k0, v));
}

proof fn lemma_map_remove_data<V>(s: Seq<ListNode<V>>, pos: int, k0: u64)
    requires
        sorted_okeys(s),
        0 <= pos < s.len(),
        valid_key(k0),
        okey_at(s, pos) == data_okey(k0),
    ensures
        sorted_okeys(s.remove(pos)),
        map_of(s.remove(pos)) == map_of(s).remove(k0),
        map_of(s).dom().contains(k0),
        map_of(s)[k0] == s[pos].value.unwrap(),
{
    let s2 = s.remove(pos);
    s.remove_ensures(pos);
    lemma_has_okey_remove(s, pos);
    lemma2_to64_rest();
    assert(pow2(63) == 0x8000000000000000);
    lemma_okey_index_works(s, data_okey(k0));
    assert(okey_index(s, data_okey(k0)) == pos);
    assert forall|k: u64| valid_key(k) && k != k0 implies (has_okey(s2, data_okey(k))
        <==> has_okey(s, data_okey(k))) by {
        if data_okey(k) == data_okey(k0) {
            lemma_data_okey_injective(k, k0);
        }
    }
    assert forall|k: u64| valid_key(k) && k != k0 && has_okey(s, data_okey(k)) implies s2[
        okey_index(s2, data_okey(k))].value == s[okey_index(s, data_okey(k))].value by {
        let o = data_okey(k);
        if o == data_okey(k0) {
            lemma_data_okey_injective(k, k0);
        }
        lemma_okey_index_works(s, o);
        lemma_okey_index_works(s2, o);
        let j1 = okey_index(s, o);
        assert(j1 != pos);
        let jm: int = if j1 < pos {
            j1
        } else {
            j1 - 1
        };
        assert(s2[jm] == s[j1]);
        assert(okey_at(s2, jm) == o);
        assert(okey_index(s2, o) == jm);
    }
    assert(!has_okey(s.remove(pos), data_okey(k0)));
    assert(map_of(s2) =~= map_of(s).remove(k0));
}

#[verifier::rlimit(50)]
proof fn lemma_wf_after_sentinel_insert<V>(
    s: Seq<ListNode<V>>,
    bks: Seq<bool>,
    pos: int,
    index: int,
    size: usize,
)
    requires
        sorted_okeys(s),
        forall|j: int| 0 <= j < s.len() ==> (okey_at(s, j) % 2 == 1 <==> s[j].value is Some),
        forall|i: int|
            0 <= i < bks.len() && bks[i] ==> i < size && has_okey(s, sentinel_okey(i)),
        forall|j: int|
            0 <= j < s.len() && okey_at(s, j) % 2 == 0 ==> exists|i: int|
                0 <= i < bks.len() && bks[i] && sentinel_okey(i) == okey_at(s, j),
        0 <= pos <= s.len(),
        0 <= index < size,
        index < bks.len(),
        index < pow2(63),
        forall|j: int| 0 <= j < pos ==> okey_at(s, j) < sentinel_okey(index),
        forall|j: int| pos <= j < s.len() ==> okey_at(s, j) > sentinel_okey(index),
    ensures
        sorted_okeys(s.insert(pos, ListNode { okey: sentinel_okey(index), value: None })),
        map_of(s.insert(pos, ListNode { okey: sentinel_okey(index), value: None })) == map_of(s),
        data_count(s.insert(pos, ListNode { okey: sentinel_okey(index), value: None }))
            == data_count(s),
        okey_at(s.insert(pos, ListNode { okey: sentinel_okey(index), value: None }), pos)
            == sentinel_okey(index),
        forall|j: int|
            0 <= j < s.insert(pos, ListNode { okey: sentinel_okey(index), value: None }).len()
                ==> (okey_at(s.insert(pos, ListNode { okey: sentinel_okey(index), value: None }), j)
                % 2 == 1 <==> s.insert(
                pos,
                ListNode { okey: sentinel_okey(index), value: None },
            )[j].value is Some),
        forall|i: int|
            0 <= i < bks.update(index, true).len() && bks.update(index, true)[i] ==> i < size
                && has_okey(
                s.insert(pos, ListNode { okey: sentinel_okey(index), value: None }),
                sentinel_okey(i),
            ),
        forall|j: int|
            0 <= j < s.insert(pos, ListNode { okey: sentinel_okey(index), value: None }).len()
                && okey_at(s.insert(pos, ListNode { okey: sentinel_okey(index), value: None }), j)
                % 2 == 0 ==> exists|i: int|
                0 <= i < bks.update(index, true).len() && bks.update(index, true)[i]
                    && sentinel_okey(i) == okey_at(
                    s.insert(pos, ListNode { okey: sentinel_okey(index), value: None }),
                    j,
                ),
{
    let okey = sentinel_okey(index);
    let nd = (ListNode { okey: okey, value: None::<V> });
    let s2 = s.insert(pos, nd);
    let bks2 = bks.update(index, true);
    s.insert_ensures(pos, nd);
    lemma_has_okey_insert(s, pos, nd);
    lemma_okey_parity(0, index);
    assert(okey % 2 == 0);
    lemma_map_insert_sentinel(s, pos, nd);
    lemma_data_count_insert(s, pos, nd);
    assert(okey_at(s2, pos) == okey);
    assert forall|j: int| 0 <= j < s2.len() implies (okey_at(s2, j) % 2 == 1 <==> s2[j].value
        is Some) by {
        if j != pos {
            let j0: int = if j < pos {
                j
            } else {
                j - 1
            };
            assert(s2[j] == s[j0]);
            assert(okey_at(s, j0) % 2 == 1 <==> s[j0].value is Some);
        }
    }
    assert forall|i: int| 0 <= i < bks2.len() && bks2[i] implies i < size && has_okey(
        s2,
        sentinel_okey(i),
    ) by {
        if i == index {
            assert(has_okey(s2, okey));
        } else {
            assert(bks[i]);
            assert(has_okey(s, sentinel_okey(i)));
        }
    }
    assert forall|j: int| 0 <= j < s2.len() && okey_at(s2, j) % 2 == 0 implies exists|i: int|
        0 <= i < bks2.len() && bks2[i] && sentinel_okey(i) == okey_at(s2, j) by {
        if j == pos {
            assert(bks2[index] && sentinel_okey(index) == okey_at(s2, j));
        } else {
            let j0: int = if j < pos {
                j
            } else {
                j - 1
            };
            assert(s2[j] == s[j0]);
            assert(okey_at(s, j0) % 2 == 0);
            let i0 = choose|i: int|
                0 <= i < bks.len() && bks[i] && sentinel_okey(i) == okey_at(s, j0);
            assert(bks2[i0] && sentinel_okey(i0) == okey_at(s2, j));
        }
    }
}

proof fn lemma_position_found<V>(s: Seq<ListNode<V>>, pos: int, o: u64)
    requires
        sorted_okeys(s),
        0 <= pos <= s.len(),
        forall|j: int| 0 <= j < pos ==> okey_at(s, j) < o,
        pos < s.len() ==> okey_at(s, pos) >= o,
    ensures
        has_okey(s, o) <==> (pos < s.len() && okey_at(s, pos) == o),
        !has_okey(s, o) ==> forall|j: int| pos <= j < s.len() ==> okey_at(s, j) > o,
{
    if pos < s.len() && okey_at(s, pos) == o {
        assert(has_okey(s, o));
    }
    if has_okey(s, o) {
        let j = choose|j: int| 0 <= j < s.len() && okey_at(s, j) == o;
        assert(j >= pos);
        if j > pos {
            assert(okey_at(s, pos) < okey_at(s, j));
        }
        assert(j == pos);
    } else {
        assert forall|j: int| pos <= j < s.len() implies okey_at(s, j) > o by {
            if j == pos {
                assert(okey_at(s, pos) != o);
            } else {
                assert(okey_at(s, pos) < okey_at(s, j));
                assert(okey_at(s, pos) >= o);
            }
        }
    }
}

impl<V> SplitOrderedList<V> {
    proof fn lemma_size_bound(&self)
        requires
            self.wf(),
        ensures
            self.log_size@ <= 63,
            self.spec_size() <= pow2(63),
            self.spec_size() >= 2,
            pow2(63) == 0x8000000000000000,
            pow2(64) == 0x10000000000000000,
    {
        lemma2_to64();
        lemma2_to64_rest();
        if self.log_size@ > 64 {
            lemma_pow2_strictly_increases(64, self.log_size@);
        }
        if self.log_size@ == 64 || self.log_size@ > 64 {
            assert(pow2(self.log_size@) >= 0x10000000000000000);
            assert(self.size <= usize::MAX);
            assert(usize::MAX <= 0xffffffffffffffff);
            assert(false);
        }
        if self.log_size@ > 1 {
            lemma_pow2_strictly_increases(1, self.log_size@);
        }
        if self.log_size@ < 63 {
            lemma_pow2_strictly_increases(self.log_size@, 63);
        }
    }

    proof fn lemma_absent_sentinel(&self, index: usize)
        requires
            self.wf(),
            index < self.spec_size(),
            index < self.buckets@.len(),
            !self.buckets@[index as int],
        ensures
            !has_okey(self.nodes@, sentinel_okey(index as int)),
    {
        self.lemma_size_bound();
        let o = sentinel_okey(index as int);
        lemma_rev64_even(index as u64);
        if has_okey(self.nodes@, o) {
            let j = choose|j: int| 0 <= j < self.nodes@.len() && okey_at(self.nodes@, j) == o;
            assert(okey_at(self.nodes@, j) % 2 == 0);
            let i = choose|i: int|
                0 <= i < self.buckets@.len() && self.buckets@[i] && sentinel_okey(i) == okey_at(
                    self.nodes@,
                    j,
                );
            assert(i < self.size);
            lemma_sentinel_injective(i, index as int);
            assert(false);
        }
    }

    /// Scans forward from `start` for the first node whose ordering key
    /// is at least `okey`; every node before `start` must order below
    /// `okey`, so the result is the global lower bound.
    fn position(&self, start: usize, okey: u64) -> (pos: usize)
        requires
            sorted_okeys(self.nodes@),
            start <= self.nodes@.len(),
            forall|j: int| 0 <= j < start ==> okey_at(self.nodes@, j) < okey,
        ensures
            start <= pos <= self.nodes@.len(),
            forall|j: int| 0 <= j < pos ==> okey_at(self.nodes@, j) < okey,
            pos < self.nodes@.len() ==> okey_at(self.nodes@, pos as int) >= okey,
    {
        let mut pos: usize = start;
        while pos < self.nodes.len() && self.nodes[pos].okey < okey
            invariant
                sorted_okeys(self.nodes@),
                start <= pos <= self.nodes@.len(),
                forall|j: int| 0 <= j < pos ==> okey_at(self.nodes@, j) < okey,
            decreases self.nodes@.len() - pos,
        {
            pos = pos + 1;
        }
        pos
    }

    /// Publishes the sentinel of `index` if it is not yet in the list,
    /// after recursively publishing the parent bucket, and returns the
    /// sentinel's position.  Mirrors the lazy bucket initialization of
    /// the split-ordered scheme.
    fn lookup_bucket(&mut self, index: usize) -> (pos: usize)
        requires
            old(self).wf(),
            index < old(self).spec_size(),
        ensures
            final(self).wf(),
            final(self)@ == old(self)@,
            final(self).spec_size() == old(self).spec_size(),
            final(self).spec_count() == old(self).spec_count(),
            final(self).log_size == old(self).log_size,
            final(self).buckets@.len() > index,
            final(self).buckets@.len() >= old(self).buckets@.len(),
            pos < final(self).nodes@.len(),
            okey_at(final(self).nodes@, pos as int) == sentinel_okey(index as int),
        decreases index,
    {
        proof {
            self.lemma_size_bound();
        }
        let okey = bit_reverse(index as u64);
        proof {
            assert(okey == sentinel_okey(index as int));
        }
        while self.buckets.len() <= index
            invariant
                self.wf(),
                index < self.spec_size(),
                self.nodes == old(self).nodes,
                self.size == old(self).size,
                self.count == old(self).count,
                self.log_size == old(self).log_size,
                self.buckets@.len() >= old(self).buckets@.len(),
                forall|i: int|
                    0 <= i < old(self).buckets@.len() ==> self.buckets@[i] == old(
                        self,
                    ).buckets@[i],
            decreases index + 1 - self.buckets@.len(),
        {
            self.buckets.push(false);
        }
        if self.buckets[index] {
            let pos = self.position(0, okey);
            proof {
                assert(has_okey(self.nodes@, okey));
                lemma_position_found(self.nodes@, pos as int, okey);
            }
            pos
        } else {
            let start: usize = if index == 0 {
                0
            } else {
                let top = get_top_bit(index);
                let parent = index - top;
                proof {
                    let t = choose|e: nat| top == pow2(e);
                    self.lemma_size_bound();
                    assert(index < pow2(63));
                    lemma_parent_before_child(index as int, parent as int, t);
                    assert(parent < top <= index);
                }
                self.lookup_bucket(parent)
            };
            proof {
                if index > 0 {
                    assert(okey_at(self.nodes@, start as int) < okey);
                    assert forall|j: int| 0 <= j < start implies okey_at(self.nodes@, j)
                        < okey by {
                        assert(okey_at(self.nodes@, j) < okey_at(self.nodes@, start as int));
                    }
                }
            }
            if self.buckets[index] {
                let pos = self.position(0, okey);
                proof {
                    assert(has_okey(self.nodes@, okey));
                    lemma_position_found(self.nodes@, pos as int, okey);
                }
                pos
            } else {
                let pos = self.position(start, okey);
                proof {
                    self.lemma_size_bound();
                    self.lemma_absent_sentinel(index);
                    lemma_position_found(self.nodes@, pos as int, okey);
                    assert(!has_okey(self.nodes@, okey));
                }
                let ghost s = self.nodes@;
                let ghost bks = self.buckets@;
                proof {
                    self.lemma_size_bound();
                    assert(sorted_okeys(s));
                    assert(forall|j: int|
                        0 <= j < s.len() ==> (okey_at(s, j) % 2 == 1 <==> s[j].value is Some));
                    assert(forall|i: int|
                        0 <= i < bks.len() && bks[i] ==> i < self.size && has_okey(
                            s,
                            sentinel_okey(i),
                        ));
                    assert(forall|j: int|
                        0 <= j < s.len() && okey_at(s, j) % 2 == 0 ==> exists|i: int|
                            0 <= i < bks.len() && bks[i] && sentinel_okey(i) == okey_at(s, j));
                    lemma_wf_after_sentinel_insert(s, bks, pos as int, index as int, self.size);
                }
                self.nodes.insert(pos, ListNode { okey, value: None });
                self.buckets[index] = true;
                proof {
                    assert(self.nodes@ == s.insert(
                        pos as int,
                        ListNode { okey: sentinel_okey(index as int), value: None },
                    ));
                    assert(self.buckets@ == bks.update(index as int, true));
                    assert(self.wf());
                    assert(self@ == old(self)@);
                }
                pos
            }
        }
    }
}

#[verifier::rlimit(50)]
proof fn lemma_wf_after_data_insert<V>(
    s: Seq<ListNode<V>>,
    bks: Seq<bool>,
    pos: int,
    key: u64,
    v: V,
    size: usize,
)
    requires
        sorted_okeys(s),
        forall|j: int| 0 <= j < s.len() ==> (okey_at(s, j) % 2 == 1 <==> s[j].value is Some),
        forall|i: int|
            0 <= i < bks.len() && bks[i] ==> i < size && has_okey(s, sentinel_okey(i)),
        forall|j: int|
            0 <= j < s.len() && okey_at(s, j) % 2 == 0 ==> exists|i: int|
                0 <= i < bks.len() && bks[i] && sentinel_okey(i) == okey_at(s, j),
        valid_key(key),
        0 <= pos <= s.len(),
        forall|j: int| 0 <= j < pos ==> okey_at(s, j) < data_okey(key),
        forall|j: int| pos <= j < s.len() ==> okey_at(s, j) > data_okey(key),
    ensures
        sorted_okeys(s.insert(pos, ListNode { okey: data_okey(key), value: Some(v) })),
        map_of(s.insert(pos, ListNode { okey: data_okey(key), value: Some(v) })) == map_of(
            s,
        ).insert(key, v),
        data_count(s.insert(pos, ListNode { okey: data_okey(key), value: Some(v) }))
            == data_count(s) + 1,
        forall|j: int|
            0 <= j < s.insert(pos, ListNode { okey: data_okey(key), value: Some(v) }).len() ==> (
            okey_at(s.insert(pos, ListNode { okey: data_okey(key), value: Some(v) }), j) % 2 == 1
                <==> s.insert(pos, ListNode { okey: data_okey(key), value: Some(v) })[j].value
                is Some),
        forall|i: int|
            0 <= i < bks.len() && bks[i] ==> i < size && has_okey(
                s.insert(pos, ListNode { okey: data_okey(key), value: Some(v) }),
                sentinel_okey(i),
            ),
        forall|j: int|
            0 <= j < s.insert(pos, ListNode { okey: data_okey(key), value: Some(v) }).len()
                && okey_at(s.insert(pos, ListNode { okey: data_okey(key), value: Some(v) }), j) % 2
                == 0 ==> exists|i: int|
                0 <= i < bks.len() && bks[i] && sentinel_okey(i) == okey_at(
                    s.insert(pos, ListNode { okey: data_okey(key), value: Some(v) }),
                    j,
                ),
{
    let okey = data_okey(key);
    let nd = (ListNode { okey: okey, value: Some(v) });
    let s2 = s.insert(pos, nd);
    s.insert_ensures(pos, nd);
    lemma_has_okey_insert(s, pos, nd);
    lemma_pow2_pos(63);
    lemma_okey_parity(key, 0);
    assert(okey % 2 == 1);
    lemma_map_insert_data(s, pos, key, v);
    lemma_data_count_insert(s, pos, nd);
    assert(okey_at(s2, pos) == okey);
    assert forall|j: int| 0 <= j < s2.len() implies (okey_at(s2, j) % 2 == 1 <==> s2[j].value
        is Some) by {
        if j != pos {
            let j0: int = if j < pos {
                j
            } else {
                j - 1
            };
            assert(s2[j] == s[j0]);
            assert(okey_at(s, j0) % 2 == 1 <==> s[j0].value is Some);
        }
    }
    assert forall|i: int| 0 <= i < bks.len() && bks[i] implies i < size && has_okey(
        s2,
        sentinel_okey(i),
    ) by {
        assert(has_okey(s, sentinel_okey(i)));
    }
    assert forall|j: int| 0 <= j < s2.len() && okey_at(s2, j) % 2 == 0 implies exists|i: int|
        0 <= i < bks.len() && bks[i] && sentinel_okey(i) == okey_at(s2, j) by {
        if j != pos {
            let j0: int = if j < pos {
                j
            } else {
                j - 1
            };
            assert(s2[j] == s[j0]);
            assert(okey_at(s, j0) % 2 == 0);
            let i0 = choose|i: int|
                0 <= i < bks.len() && bks[i] && sentinel_okey(i) == okey_at(s, j0);
            assert(bks[i0] && sentinel_okey(i0) == okey_at(s2, j));
        }
    }
}

impl<V> SplitOrderedList<V> {
    /// Reads the bucket count, materializes the key's bucket and scans
    /// from its sentinel; yields `(size, found, position)`.
    fn find(&mut self, key: u64) -> (r: (usize, bool, usize))
        requires
            old(self).wf(),
            valid_key(key),
        ensures
            final(self).wf(),
            final(self)@ == old(self)@,
            final(self).spec_size() == old(self).spec_size(),
            final(self).spec_count() == old(self).spec_count(),
            final(self).log_size == old(self).log_size,
            r.0 == old(self).spec_size(),
            r.1 <==> old(self)@.contains_key(key),
            r.1 ==> r.2 < final(self).nodes@.len() && okey_at(final(self).nodes@, r.2 as int)
                == data_okey(key),
            !r.1 ==> r.2 <= final(self).nodes@.len() && (forall|j: int|
                0 <= j < r.2 ==> okey_at(final(self).nodes@, j) < data_okey(key)) && (forall|j: int|
                r.2 <= j < final(self).nodes@.len() ==> okey_at(final(self).nodes@, j) > data_okey(
                    key,
                )),
    {
        let ghost e = self.log_size@;
        proof {
            self.lemma_size_bound();
        }
        let size = self.size;
        let index_u: u64 = key % (size as u64);
        let index: usize = index_u as usize;
        proof {
            assert(index_u < size as u64);
            assert(index < size);
            assert((index as nat) == (key as nat) % pow2(e));
        }
        let spos = self.lookup_bucket(index);
        let rk = bit_reverse(key);
        proof {
            lemma_pow2_pos(63);
            lemma_okey_parity(key, 0);
        }
        let okey = rk + 1;
        proof {
            lemma_sentinel_before_data(key, e);
            assert(sentinel_okey(index as int) < okey);
            assert forall|j: int| 0 <= j < spos implies okey_at(self.nodes@, j) < okey by {
                assert(okey_at(self.nodes@, j) < okey_at(self.nodes@, spos as int));
            }
        }
        let pos = self.position(spos, okey);
        let found: bool = if pos < self.nodes.len() {
            self.nodes[pos].okey == okey
        } else {
            false
        };
        proof {
            lemma_position_found(self.nodes@, pos as int, okey);
            assert(okey == data_okey(key));
            assert(found <==> has_okey(self.nodes@, data_okey(key)));
            assert(self@.contains_key(key) <==> (valid_key(key) && has_okey(
                self.nodes@,
                data_okey(key),
            )));
        }
        (size, found, pos)
    }
}

#[verifier::rlimit(50)]
proof fn lemma_wf_after_data_remove<V>(
    s: Seq<ListNode<V>>,
    bks: Seq<bool>,
    pos: int,
    key: u64,
    size: usize,
)
    requires
        sorted_okeys(s),
        forall|j: int| 0 <= j < s.len() ==> (okey_at(s, j) % 2 == 1 <==> s[j].value is Some),
        forall|i: int|
            0 <= i < bks.len() && bks[i] ==> i < size && has_okey(s, sentinel_okey(i)),
        forall|j: int|
            0 <= j < s.len() && okey_at(s, j) % 2 == 0 ==> exists|i: int|
                0 <= i < bks.len() && bks[i] && sentinel_okey(i) == okey_at(s, j),
        valid_key(key),
        size as nat <= pow2(63),
        0 <= pos < s.len(),
        okey_at(s, pos) == data_okey(key),
    ensures
        sorted_okeys(s.remove(pos)),
        map_of(s.remove(pos)) == map_of(s).remove(key),
        map_of(s).dom().contains(key),
        s[pos].value is Some,
        map_of(s)[key] == s[pos].value.unwrap(),
        data_count(s) == data_count(s.remove(pos)) + 1,
        forall|j: int|
            0 <= j < s.remove(pos).len() ==> (okey_at(s.remove(pos), j) % 2 == 1 <==> s.remove(
                pos,
            )[j].value is Some),
        forall|i: int|
            0 <= i < bks.len() && bks[i] ==> i < size && has_okey(
                s.remove(pos),
                sentinel_okey(i),
            ),
        forall|j: int|
            0 <= j < s.remove(pos).len() && okey_at(s.remove(pos), j) % 2 == 0 ==> exists|i: int|
                0 <= i < bks.len() && bks[i] && sentinel_okey(i) == okey_at(s.remove(pos), j),
{
    let okey = data_okey(key);
    let s2 = s.remove(pos);
    s.remove_ensures(pos);
    lemma_has_okey_remove(s, pos);
    lemma_pow2_pos(63);
    lemma_okey_parity(key, 0);
    assert(okey % 2 == 1);
    lemma_map_remove_data(s, pos, key);
    lemma_data_count_remove(s, pos);
    assert(has_okey(s, okey));
    assert forall|j: int| 0 <= j < s2.len() implies (okey_at(s2, j) % 2 == 1 <==> s2[j].value
        is Some) by {
        let j0: int = if j < pos {
            j
        } else {
            j + 1
        };
        assert(s2[j] == s[j0]);
        assert(okey_at(s, j0) % 2 == 1 <==> s[j0].value is Some);
    }
    assert forall|i: int| 0 <= i < bks.len() && bks[i] implies i < size && has_okey(
        s2,
        sentinel_okey(i),
    ) by {
        assert(has_okey(s, sentinel_okey(i)));
        assert(i < size);
        lemma_rev64_even(i as u64);
        assert(sentinel_okey(i) % 2 == 0);
        assert(okey_at(s, pos) != sentinel_okey(i));
    }
    assert forall|j: int| 0 <= j < s2.len() && okey_at(s2, j) % 2 == 0 implies exists|i: int|
        0 <= i < bks.len() && bks[i] && sentinel_okey(i) == okey_at(s2, j) by {
        let j0: int = if j < pos {
            j
        } else {
            j + 1
        };
        assert(s2[j] == s[j0]);
        assert(okey_at(s, j0) % 2 == 0);
        let i0 = choose|i: int|
            0 <= i < bks.len() && bks[i] && sentinel_okey(i) == okey_at(s, j0);
        assert(bks[i0] && sentinel_okey(i0) == okey_at(s2, j));
    }
}

impl<V> SplitOrderedList<V> {
    /// Inserts `key` with `value`; a key already present is rejected and
    /// the value handed back.  A successful insertion that pushes the
    /// entry count past `LOAD_FACTOR` entries per bucket doubles the
    /// bucket count.
    pub fn insert(&mut self, key: u64, value: V) -> (r: Result<(), V>)
        requires
            old(self).wf(),
            valid_key(key),
        ensures
            final(self).wf(),
            final(self).spec_size() >= old(self).spec_size(),
            r is Err <==> old(self)@.contains_key(key),
            r is Err ==> r == Err::<(), V>(value) && final(self)@ == old(self)@
                && final(self).spec_size() == old(self).spec_size()
                && final(self).spec_count() == old(self).spec_count(),
            r is Ok ==> final(self)@ == old(self)@.insert(key, value) && final(self).spec_count()
                == old(self).spec_count() + 1 && final(self).spec_size() == (
            if old(self).spec_count() + 1 > 2 * old(self).spec_size() {
                2 * old(self).spec_size()
            } else {
                old(self).spec_size() as int
            }),
    {
        let (size, found, pos) = self.find(key);
        if found {
            return Err(value);
        }
        let rk = bit_reverse(key);
        proof {
            lemma_pow2_pos(63);
            lemma_okey_parity(key, 0);
        }
        let okey = rk + 1;
        let ghost s = self.nodes@;
        let ghost bks = self.buckets@;
        proof {
            assert(sorted_okeys(s));
            assert(forall|j: int|
                0 <= j < s.len() ==> (okey_at(s, j) % 2 == 1 <==> s[j].value is Some));
            assert(forall|i: int|
                0 <= i < bks.len() && bks[i] ==> i < self.size && has_okey(s, sentinel_okey(i)));
            assert(forall|j: int|
                0 <= j < s.len() && okey_at(s, j) % 2 == 0 ==> exists|i: int|
                    0 <= i < bks.len() && bks[i] && sentinel_okey(i) == okey_at(s, j));
            lemma_wf_after_data_insert(s, bks, pos as int, key, value, self.size);
            lemma_data_count_le_len(s);
        }
        self.nodes.insert(pos, ListNode { okey, value: Some(value) });
        let prev_count = self.count;
        let total = self.nodes.len();
        proof {
            assert(self.nodes@ == s.insert(
                pos as int,
                ListNode { okey: data_okey(key), value: Some(value) },
            ));
            assert(prev_count == data_count(s));
            assert(total == s.len() + 1);
            assert(prev_count < total);
            assert(prev_count + 1 <= usize::MAX);
        }
        self.count = prev_count + 1;
        if (prev_count as u128) + 1 > (size as u128) * (Self::LOAD_FACTOR as u128) {
            proof {
                assert(prev_count + 1 > 2 * size);
                assert(2 * size < prev_count + 1 <= usize::MAX);
            }
            let ghost e2 = (self.log_size@ + 1) as nat;
            self.size = size * 2;
            self.log_size = Ghost(e2);
            proof {
                lemma_pow2_unfold(e2);
            }
        }
        Ok(())
    }

    /// Removes `key` and returns its value; an absent key is reported.
    pub fn delete(&mut self, key: u64) -> (r: Result<V, ()>)
        requires
            old(self).wf(),
            valid_key(key),
        ensures
            final(self).wf(),
            final(self).spec_size() == old(self).spec_size(),
            r is Ok <==> old(self)@.contains_key(key),
            r is Ok ==> r == Ok::<V, ()>(old(self)@[key]) && final(self)@ == old(self)@.remove(key)
                && final(self).spec_count() + 1 == old(self).spec_count(),
            r is Err ==> final(self)@ == old(self)@
                && final(self).spec_count() == old(self).spec_count(),
    {
        let (_, found, pos) = self.find(key);
        if found {
            let ghost s = self.nodes@;
            let ghost bks = self.buckets@;
            proof {
                assert(sorted_okeys(s));
                assert(forall|j: int|
                    0 <= j < s.len() ==> (okey_at(s, j) % 2 == 1 <==> s[j].value is Some));
                assert(forall|i: int|
                    0 <= i < bks.len() && bks[i] ==> i < self.size && has_okey(
                        s,
                        sentinel_okey(i),
                    ));
                assert(forall|j: int|
                    0 <= j < s.len() && okey_at(s, j) % 2 == 0 ==> exists|i: int|
                        0 <= i < bks.len() && bks[i] && sentinel_okey(i) == okey_at(s, j));
                self.lemma_size_bound();
                lemma_wf_after_data_remove(s, bks, pos as int, key, self.size);
            }
            let prev_count = self.count;
            proof {
                assert(prev_count == data_count(s));
                assert(data_count(s) >= 1);
            }
            self.count = prev_count - 1;
            let nd = self.nodes.remove(pos);
            proof {
                assert(nd == s[pos as int]);
                assert(self.nodes@ == s.remove(pos as int));
            }
            match nd.value {
                Some(v) => Ok(v),
                None => Err(()),
            }
        } else {
            Err(())
        }
    }

    /// Borrows the value of `key`, or reports it absent.
    pub fn lookup(&mut self, key: u64) -> (r: Option<&V>)
        requires
            old(self).wf(),
            valid_key(key),
        ensures
            final(self).wf(),
            final(self)@ == old(self)@,
            final(self).spec_size() == old(self).spec_size(),
            final(self).spec_count() == old(self).spec_count(),
            r is Some <==> old(self)@.contains_key(key),
            r matches Some(v) ==> *v == old(self)@[key],
    {
        let (_, found, pos) = self.find(key);
        if found {
            proof {
                lemma_okey_index_works(self.nodes@, data_okey(key));
                assert(okey_index(self.nodes@, data_okey(key)) == pos as int);
                lemma_pow2_pos(63);
                lemma_okey_parity(key, 0);
                assert(self.nodes@[pos as int].value is Some);
            }
            match &self.nodes[pos].value {
                Some(v) => Some(v),
                None => None,
            }
        } else {
            None
        }
    }

    /// Whether a word may be used as a key: its leading bit must be
    /// clear, since that bit is reserved to tell entries from sentinels.
    pub fn is_valid_key(key: u64) -> (r: bool)
        ensures
            r == valid_key(key),
    {
        key < 0x8000000000000000
    }

    /// The current bucket count.
    pub fn size(&self) -> (r: usize)
        ensures
            r == self.spec_size(),
    {
        self.size
    }

    /// The current entry count.
    pub fn count(&self) -> (r: usize)
        ensures
            r == self.spec_count(),
    {
        self.count
    }
}

/// The split-ordering law: the entry for key `k` carries ordering key
/// `rev64(k) | 1` and the sentinel of bucket `i` carries `rev64(i)`
/// (the body of `sentinel_okey`); at every power-of-two bucket count
/// `pow2(e)` the sentinel of `k`'s bucket orders strictly before `k`'s
/// entry, so in the sorted list a bucket's sentinel precedes all of the
/// bucket's items.
pub proof fn lemma_split_ordering(k: u64, e: nat)
    requires
        valid_key(k),
        e <= 63,
    ensures
        data_okey(k) == (rev64(k) | 1),
        sentinel_okey(((k as nat) % pow2(e)) as int) < data_okey(k),
{
    lemma_pow2_pos(63);
    lemma_okey_parity(k, 0);
    let x = rev64(k);
    assert((x | 1) == x + 1) by (bit_vector)
        requires
            x % 2 == 0,
    ;
    lemma_sentinel_before_data(k, e);
}

/// A stored entry outlives operations on other keys: after an insertion
/// of `k`, inserting or removing any other key leaves the entry for `k`
/// in place with its value, so a later lookup returns it.
pub proof fn lemma_insert_then_lookup<V>(m: Map<u64, V>, k: u64, v: V, k2: u64, v2: V)
    requires
        k2 != k,
    ensures
        m.insert(k, v).contains_key(k) && m.insert(k, v)[k] == v,
        m.insert(k, v).insert(k2, v2).contains_key(k) && m.insert(k, v).insert(k2, v2)[k] == v,
        m.insert(k, v).remove(k2).contains_key(k) && m.insert(k, v).remove(k2)[k] == v,
{
}

/// The bucket count of a sound map is a power of two and at least 2;
/// each operation's contract keeps it from ever shrinking.
pub proof fn lemma_size_power_of_two<V>(m: &SplitOrderedList<V>)
    requires
        m.wf(),
    ensures
        exists|e: nat| m.spec_size() == pow2(e),
        m.spec_size() >= 2,
{
    m.lemma_size_bound();
    assert(m.spec_size() == pow2(m.log_size@));
}

} // verus!
