//! An ordered set of words kept as a sorted singly-linked list.
//!
//! Membership, insertion and removal all walk the links from the head,
//! stopping at the first node whose element is not below the key — the
//! position at which the key lives or would be spliced in.  Iteration
//! yields the elements in ascending order.

use vstd::prelude::*;

verus! {

#[derive(Debug)]
struct Node {
    data: u64,
    next: Option<Box<Node>>,
}

/// The elements along the links, in list order.
spec fn seq_of(n: &Option<Box<Node>>) -> Seq<u64>
    decreases n,
{
    match n {
        None => Seq::empty(),
        Some(b) => seq![b.data] + seq_of(&b.next),
    }
}

/// Strictly ascending: each element is below the next.
pub open spec fn sorted(s: Seq<u64>) -> bool {
    forall|i: int, j: int| 0 <= i < j < s.len() ==> s[i] < s[j]
}

/// The sequence that results from splicing `key` into sorted `s` at its
/// ordered position.
pub open spec fn insert_sorted(s: Seq<u64>, key: u64) -> Seq<u64>
    decreases s.len(),
{
    if s.len() == 0 {
        seq![key]
    } else if s[0] < key {
        seq![s[0]] + insert_sorted(s.drop_first(), key)
    } else {
        seq![key] + s
    }
}

/// The sequence that results from dropping the first occurrence of
/// `key` from `s`.
pub open spec fn remove_sorted(s: Seq<u64>, key: u64) -> Seq<u64>
    decreases s.len(),
{
    if s.len() == 0 {
        s
    } else if s[0] == key {
        s.drop_first()
    } else {
        seq![s[0]] + remove_sorted(s.drop_first(), key)
    }
}

/// A sorted set of words behind one head link.
#[derive(Debug)]
pub struct OrderedListSet {
    head: Option<Box<Node>>,
}

impl View for OrderedListSet {
    type V = Seq<u64>;

    closed spec fn view(&self) -> Seq<u64> {
        seq_of(&self.head)
    }
}

fn node_contains(n: &Option<Box<Node>>, key: u64) -> (r: bool)
    requires
        sorted(seq_of(n)),
    ensures
        r == seq_of(n).contains(key),
    decreases n,
{
    match n {
        None => {
            proof {
                assert(!seq_of(n).contains(key));
            }
            false
        },
        Some(b) => {
            let ghost s = seq_of(n);
            proof {
                assert(s[0] == b.data);
                assert forall|i: int, j: int|
                    0 <= i < j < seq_of(&b.next).len() implies seq_of(&b.next)[i] < seq_of(
                    &b.next,
                )[j] by {
                    assert(s[i + 1] == seq_of(&b.next)[i]);
                    assert(s[j + 1] == seq_of(&b.next)[j]);
                }
            }
            if b.data == key {
                proof {
                    assert(s.contains(key));
                }
                true
            } else if b.data > key {
                proof {
                    if s.contains(key) {
                        let i = choose|i: int| 0 <= i < s.len() && s[i] == key;
                        if i > 0 {
                            assert(s[0] < s[i]);
                        }
                        assert(false);
                    }
                }
                false
            } else {
                let r = node_contains(&b.next, key);
                proof {
                    if seq_of(&b.next).contains(key) {
                        let i = choose|i: int|
                            0 <= i < seq_of(&b.next).len() && seq_of(&b.next)[i] == key;
                        assert(s[i + 1] == key);
                        assert(s.contains(key));
                    }
                    if s.contains(key) {
                        let i = choose|i: int| 0 <= i < s.len() && s[i] == key;
                        assert(i != 0);
                        assert(seq_of(&b.next)[i - 1] == key);
                        assert(seq_of(&b.next).contains(key));
                    }
                }
                r
            }
        },
    }
}

fn node_insert(n: &mut Option<Box<Node>>, key: u64) -> (r: Result<(), u64>)
    requires
        sorted(seq_of(old(n))),
    ensures
        r is Ok ==> !seq_of(old(n)).contains(key) && seq_of(final(n)) == insert_sorted(
            seq_of(old(n)),
            key,
        ),
        r is Err ==> r == Err::<(), u64>(key) && seq_of(old(n)).contains(key) && seq_of(final(n))
            == seq_of(old(n)),
    decreases seq_of(old(n)).len(),
{
    let ghost s = seq_of(old(n));
    let cur = n.take();
    match cur {
        None => {
            *n = Some(Box::new(Node { data: key, next: None }));
            proof {
                assert(seq_of(final(n)) =~= seq![key]);
                assert(!s.contains(key));
            }
            Ok(())
        },
        Some(mut b) => {
            proof {
                assert(s[0] == b.data);
                assert forall|i: int, j: int|
                    0 <= i < j < seq_of(&b.next).len() implies seq_of(&b.next)[i] < seq_of(
                    &b.next,
                )[j] by {
                    assert(s[i + 1] == seq_of(&b.next)[i]);
                    assert(s[j + 1] == seq_of(&b.next)[j]);
                }
            }
            if b.data == key {
                *n = Some(b);
                proof {
                    assert(seq_of(final(n)) =~= s);
                    assert(s.contains(key));
                }
                Err(key)
            } else if b.data > key {
                *n = Some(Box::new(Node { data: key, next: Some(b) }));
                proof {
                    assert(seq_of(final(n)) =~= seq![key] + s);
                    assert(insert_sorted(s, key) == seq![key] + s);
                    if s.contains(key) {
                        let i = choose|i: int| 0 <= i < s.len() && s[i] == key;
                        if i > 0 {
                            assert(s[0] < s[i]);
                        }
                        assert(false);
                    }
                }
                Ok(())
            } else {
                let ghost tail = seq_of(&b.next);
                let r = node_insert(&mut b.next, key);
                let ghost tail2 = seq_of(&b.next);
                *n = Some(b);
                proof {
                    assert(seq_of(final(n)) =~= seq![s[0]] + tail2);
                    assert(s.drop_first() =~= tail);
                    if tail.contains(key) {
                        let i = choose|i: int| 0 <= i < tail.len() && tail[i] == key;
                        assert(s[i + 1] == key);
                        assert(s.contains(key));
                    }
                    if s.contains(key) {
                        let i = choose|i: int| 0 <= i < s.len() && s[i] == key;
                        assert(i != 0);
                        assert(tail[i - 1] == key);
                        assert(tail.contains(key));
                    }
                    if r is Ok {
                        assert(insert_sorted(s, key) == seq![s[0]] + insert_sorted(tail, key));
                    }
                }
                r
            }
        },
    }
}

fn node_remove(n: &mut Option<Box<Node>>, key: u64) -> (r: Result<u64, ()>)
    requires
        sorted(seq_of(old(n))),
    ensures
        r is Ok ==> r == Ok::<u64, ()>(key) && seq_of(old(n)).contains(key) && seq_of(final(n))
            == remove_sorted(seq_of(old(n)), key),
        r is Err ==> !seq_of(old(n)).contains(key) && seq_of(final(n)) == seq_of(old(n)),
    decreases seq_of(old(n)).len(),
{
    let ghost s = seq_of(old(n));
    let cur = n.take();
    match cur {
        None => {
            proof {
                assert(seq_of(final(n)) =~= s);
                assert(!s.contains(key));
            }
            Err(())
        },
        Some(mut b) => {
            proof {
                assert(s[0] == b.data);
                assert forall|i: int, j: int|
                    0 <= i < j < seq_of(&b.next).len() implies seq_of(&b.next)[i] < seq_of(
                    &b.next,
                )[j] by {
                    assert(s[i + 1] == seq_of(&b.next)[i]);
                    assert(s[j + 1] == seq_of(&b.next)[j]);
                }
            }
            if b.data == key {
                let bx = *b;
                *n = bx.next;
                proof {
                    assert(seq_of(final(n)) =~= s.drop_first());
                    assert(remove_sorted(s, key) == s.drop_first());
                    assert(s.contains(key));
                }
                Ok(bx.data)
            } else if b.data > key {
                *n = Some(b);
                proof {
                    assert(seq_of(final(n)) =~= s);
                    if s.contains(key) {
                        let i = choose|i: int| 0 <= i < s.len() && s[i] == key;
                        if i > 0 {
                            assert(s[0] < s[i]);
                        }
                        assert(false);
                    }
                }
                Err(())
            } else {
                let ghost tail = seq_of(&b.next);
                let r = node_remove(&mut b.next, key);
                let ghost tail2 = seq_of(&b.next);
                *n = Some(b);
                proof {
                    assert(seq_of(final(n)) =~= seq![s[0]] + tail2);
                    assert(s.drop_first() =~= tail);
                    if tail.contains(key) {
                        let i = choose|i: int| 0 <= i < tail.len() && tail[i] == key;
                        assert(s[i + 1] == key);
                        assert(s.contains(key));
                    }
                    if s.contains(key) {
                        let i = choose|i: int| 0 <= i < s.len() && s[i] == key;
                        assert(i != 0);
                        assert(tail[i - 1] == key);
                        assert(tail.contains(key));
                    }
                    if r is Ok {
                        assert(remove_sorted(s, key) == seq![s[0]] + remove_sorted(tail, key));
                        assert(seq_of(final(n)) =~= remove_sorted(s, key));
                    } else {
                        assert(seq_of(final(n)) =~= s);
                    }
                }
                r
            }
        },
    }
}

fn node_collect(n: &Option<Box<Node>>, out: &mut Vec<u64>)
    ensures
        final(out)@ == old(out)@ + seq_of(n),
    decreases n,
{
    match n {
        None => {
            proof {
                assert(old(out)@ + seq_of(n) =~= old(out)@);
            }
        },
        Some(b) => {
            out.push(b.data);
            node_collect(&b.next, out);
            proof {
                assert(old(out)@.push(b.data) + seq_of(&b.next) =~= old(out)@ + seq_of(n));
            }
        },
    }
}

impl OrderedListSet {
    /// Ascending order is the set's structural invariant.
    pub open spec fn wf(&self) -> bool {
        sorted(self@)
    }

    /// Creates an empty set.
    pub fn new() -> (r: Self)
        ensures
            r.wf(),
            r@ == Seq::<u64>::empty(),
    {
        let r = OrderedListSet { head: None };
        proof {
            assert(r@ =~= Seq::<u64>::empty());
        }
        r
    }

    /// Returns whether the set holds `key`.
    pub fn contains(&self, key: u64) -> (r: bool)
        requires
            self.wf(),
        ensures
            r == self@.contains(key),
    {
        node_contains(&self.head, key)
    }

    /// Adds `key`; a key already present is handed back as the error.
    pub fn insert(&mut self, key: u64) -> (r: Result<(), u64>)
        requires
            old(self).wf(),
        ensures
            final(self).wf(),
            r is Ok <==> !old(self)@.contains(key),
            r is Ok ==> final(self)@ == insert_sorted(old(self)@, key),
            r is Err ==> r == Err::<(), u64>(key) && final(self)@ == old(self)@,
    {
        let r = node_insert(&mut self.head, key);
        proof {
            if r is Ok {
                lemma_insert_sorted(old(self)@, key);
            }
        }
        r
    }

    /// Removes `key` and returns it; an absent key is reported.
    pub fn remove(&mut self, key: u64) -> (r: Result<u64, ()>)
        requires
            old(self).wf(),
        ensures
            final(self).wf(),
            r is Ok <==> old(self)@.contains(key),
            r is Ok ==> r == Ok::<u64, ()>(key) && final(self)@ == remove_sorted(old(self)@, key),
            r is Err ==> final(self)@ == old(self)@,
    {
        let r = node_remove(&mut self.head, key);
        proof {
            if r is Ok {
                lemma_remove_sorted(old(self)@, key);
            }
        }
        r
    }

    /// A snapshot iterator over the elements, in ascending order.
    pub fn iter(&self) -> (it: Iter)
        requires
            self.wf(),
        ensures
            it@ == self@,
            it.wf(),
    {
        let mut items: Vec<u64> = Vec::new();
        node_collect(&self.head, &mut items);
        proof {
            assert(items@ =~= self@);
        }
        Iter { items, pos: 0 }
    }
}

impl Drop for OrderedListSet {
    /// Releases the nodes one by one, detaching each from its successor
    /// first, so the call depth does not grow with the list's length.
    fn drop(&mut self)
        opens_invariants none
        no_unwind
    {
        let mut cur: Option<Box<Node>> = None;
        core::mem::swap(&mut cur, &mut self.head);
        loop
            decreases seq_of(&cur).len(),
        {
            match cur {
                Some(mut b) => {
                    let ghost before = seq_of(&Some(b));
                    let mut next: Option<Box<Node>> = None;
                    core::mem::swap(&mut next, &mut b.next);
                    proof {
                        assert(seq_of(&next).len() < before.len());
                    }
                    cur = next;
                },
                None => {
                    break;
                },
            }
        }
    }
}

impl Default for OrderedListSet {
    fn default() -> (r: Self)
        ensures
            r.wf(),
            r@ == Seq::<u64>::empty(),
    {
        Self::new()
    }
}

/// A snapshot of a set's elements, yielded front to back.
#[derive(Debug)]
pub struct Iter {
    items: Vec<u64>,
    pos: usize,
}

impl View for Iter {
    type V = Seq<u64>;

    closed spec fn view(&self) -> Seq<u64> {
        self.items@.skip(self.pos as int)
    }
}

impl Iter {
    /// The cursor never passes the end of the snapshot.
    pub closed spec fn wf(&self) -> bool {
        self.pos <= self.items@.len()
    }

    /// Yields the next element, or nothing once exhausted.
    pub fn next(&mut self) -> (r: Option<u64>)
        requires
            old(self).wf(),
        ensures
            final(self).wf(),
            old(self)@.len() == 0 ==> r is None && final(self)@ == old(self)@,
            old(self)@.len() > 0 ==> r == Some(old(self)@[0]) && final(self)@ == old(
                self,
            )@.drop_first(),
    {
        if self.pos < self.items.len() {
            let v = self.items[self.pos];
            self.pos = self.pos + 1;
            proof {
                assert(self.items == old(self).items);
                assert(v == old(self).items@[old(self).pos as int]);
                assert(old(self)@ == old(self).items@.skip(old(self).pos as int));
                assert(old(self)@[0] == old(self).items@[old(self).pos as int]);
                assert(self@ =~= old(self)@.drop_first());
            }
            Some(v)
        } else {
            None
        }
    }
}

/// Splicing `key` into a sorted sequence keeps it sorted, adds `key`,
/// and keeps every other element.
pub proof fn lemma_insert_sorted(s: Seq<u64>, key: u64)
    requires
        sorted(s),
        !s.contains(key),
    ensures
        sorted(insert_sorted(s, key)),
        insert_sorted(s, key).contains(key),
        forall|x: u64| insert_sorted(s, key).contains(x) <==> (s.contains(x) || x == key),
        insert_sorted(s, key).len() == s.len() + 1,
    decreases s.len(),
{
    let s2 = insert_sorted(s, key);
    if s.len() == 0 {
        assert(s2 =~= seq![key]);
        assert(s2[0] == key);
        assert forall|x: u64| s2.contains(x) implies (s.contains(x) || x == key) by {
            let i = choose|i: int| 0 <= i < s2.len() && s2[i] == x;
            assert(i == 0);
        }
    } else if s[0] < key {
        let t = s.drop_first();
        assert forall|i: int, j: int| 0 <= i < j < t.len() implies t[i] < t[j] by {
            assert(s[i + 1] == t[i]);
            assert(s[j + 1] == t[j]);
        }
        lemma_insert_sorted(t, key);
        let t2 = insert_sorted(t, key);
        assert(s2 == seq![s[0]] + t2);
        assert forall|i: int, j: int| 0 <= i < j < s2.len() implies s2[i] < s2[j] by {
            if i == 0 {
                assert(s2[j] == t2[j - 1]);
                assert(t2.contains(t2[j - 1]));
                if t2[j - 1] == key {
                    assert(s[0] < key);
                } else {
                    assert(t.contains(t2[j - 1]));
                    let w = choose|w: int| 0 <= w < t.len() && t[w] == t2[j - 1];
                    assert(s[w + 1] == t[w]);
                    assert(s[0] < s[w + 1]);
                }
            } else {
                assert(s2[i] == t2[i - 1]);
                assert(s2[j] == t2[j - 1]);
            }
        }
        assert(t2.contains(key));
        let w = choose|w: int| 0 <= w < t2.len() && t2[w] == key;
        assert(s2[w + 1] == key);
        assert(s2.contains(key));
        assert forall|x: u64| s2.contains(x) implies (s.contains(x) || x == key) by {
            let i = choose|i: int| 0 <= i < s2.len() && s2[i] == x;
            if i == 0 {
                assert(s[0] == x);
                assert(s.contains(x));
            } else {
                assert(t2[i - 1] == x);
                assert(t2.contains(x));
                if x != key {
                    assert(t.contains(x));
                    let w2 = choose|w2: int| 0 <= w2 < t.len() && t[w2] == x;
                    assert(s[w2 + 1] == x);
                    assert(s.contains(x));
                }
            }
        }
        assert forall|x: u64| (s.contains(x) || x == key) implies s2.contains(x) by {
            if x == key {
                assert(s2.contains(key));
            } else {
                let i = choose|i: int| 0 <= i < s.len() && s[i] == x;
                if i == 0 {
                    assert(s2[0] == x);
                } else {
                    assert(t[i - 1] == x);
                    assert(t.contains(x));
                    assert(t2.contains(x));
                    let w2 = choose|w2: int| 0 <= w2 < t2.len() && t2[w2] == x;
                    assert(s2[w2 + 1] == x);
                }
            }
        }
    } else {
        assert(s2 == seq![key] + s);
        assert(s.contains(s[0])) by {
            assert(s[0] == s[0]);
        }
        assert(key < s[0]);
        assert forall|i: int, j: int| 0 <= i < j < s2.len() implies s2[i] < s2[j] by {
            if i == 0 {
                assert(s2[0] == key);
                assert(s2[j] == s[j - 1]);
                if j - 1 > 0 {
                    assert(s[0] < s[j - 1]);
                }
            } else {
                assert(s2[i] == s[i - 1]);
                assert(s2[j] == s[j - 1]);
            }
        }
        assert(s2[0] == key);
        assert forall|x: u64| s2.contains(x) implies (s.contains(x) || x == key) by {
            let i = choose|i: int| 0 <= i < s2.len() && s2[i] == x;
            if i > 0 {
                assert(s[i - 1] == x);
                assert(s.contains(x));
            }
        }
        assert forall|x: u64| (s.contains(x) || x == key) implies s2.contains(x) by {
            if x != key {
                let i = choose|i: int| 0 <= i < s.len() && s[i] == x;
                assert(s2[i + 1] == x);
            }
        }
    }
}

/// Dropping `key` from a sorted sequence keeps it sorted, removes
/// `key`, and keeps every other element.
pub proof fn lemma_remove_sorted(s: Seq<u64>, key: u64)
    requires
        sorted(s),
        s.contains(key),
    ensures
        sorted(remove_sorted(s, key)),
        !remove_sorted(s, key).contains(key),
        forall|x: u64|
            remove_sorted(s, key).contains(x) <==> (s.contains(x) && x != key),
        remove_sorted(s, key).len() == s.len() - 1,
    decreases s.len(),
{
    let s2 = remove_sorted(s, key);
    let t = s.drop_first();
    assert forall|i: int, j: int| 0 <= i < j < t.len() implies t[i] < t[j] by {
        assert(s[i + 1] == t[i]);
        assert(s[j + 1] == t[j]);
    }
    if s[0] == key {
        assert(s2 == t);
        assert forall|x: u64| s2.contains(x) implies (s.contains(x) && x != key) by {
            let i = choose|i: int| 0 <= i < t.len() && t[i] == x;
            assert(s[i + 1] == x);
            assert(s.contains(x));
            assert(s[0] < s[i + 1]);
        }
        assert forall|x: u64| (s.contains(x) && x != key) implies s2.contains(x) by {
            let i = choose|i: int| 0 <= i < s.len() && s[i] == x;
            assert(i != 0);
            assert(t[i - 1] == x);
        }
        if s2.contains(key) {
            let i = choose|i: int| 0 <= i < t.len() && t[i] == key;
            assert(s[i + 1] == key);
            assert(s[0] < s[i + 1]);
            assert(false);
        }
    } else {
        assert(t.contains(key)) by {
            let i = choose|i: int| 0 <= i < s.len() && s[i] == key;
            assert(i != 0);
            assert(t[i - 1] == key);
        }
        lemma_remove_sorted(t, key);
        let t2 = remove_sorted(t, key);
        assert(s2 == seq![s[0]] + t2);
        assert forall|i: int, j: int| 0 <= i < j < s2.len() implies s2[i] < s2[j] by {
            if i == 0 {
                assert(s2[0] == s[0]);
                assert(s2[j] == t2[j - 1]);
                let y = t2[j - 1];
                assert(t2.contains(y)) by {
                    assert(t2[j - 1] == y);
                }
                assert(t.contains(y) && y != key);
                let w = choose|w: int| 0 <= w < t.len() && t[w] == y;
                assert(s[w + 1] == t[w]);
                assert(s[0] < s[w + 1]);
            } else {
                assert(s2[i] == t2[i - 1]);
                assert(s2[j] == t2[j - 1]);
            }
        }
        assert forall|x: u64| s2.contains(x) implies (s.contains(x) && x != key) by {
            let i = choose|i: int| 0 <= i < s2.len() && s2[i] == x;
            if i == 0 {
                assert(s[0] == x);
                assert(s.contains(x));
            } else {
                assert(t2[i - 1] == x);
                assert(t2.contains(x));
                assert(t.contains(x));
                let w = choose|w: int| 0 <= w < t.len() && t[w] == x;
                assert(s[w + 1] == x);
                assert(s.contains(x));
            }
        }
        assert forall|x: u64| (s.contains(x) && x != key) implies s2.contains(x) by {
            if x == s[0] {
                assert(s2[0] == x);
            } else {
                let i = choose|i: int| 0 <= i < s.len() && s[i] == x;
                assert(i != 0);
                assert(t[i - 1] == x);
                assert(t.contains(x));
                assert(t2.contains(x));
                let w = choose|w: int| 0 <= w < t2.len() && t2[w] == x;
                assert(s2[w + 1] == x);
            }
        }
        if s2.contains(key) {
            let i = choose|i: int| 0 <= i < s2.len() && s2[i] == key;
            assert(i != 0);
            assert(t2[i - 1] == key);
        }
    }
}

/// Iteration ascends: a sound set's sequence is strictly ascending, and
/// `iter` yields exactly that sequence.
pub proof fn lemma_iteration_ascending(s: &OrderedListSet)
    requires
        s.wf(),
    ensures
        sorted(s@),
{
}

} // verus!
