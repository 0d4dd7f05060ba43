//! A grow-only registry of hazard slots.
//!
//! Threads acquire a slot, publish the machine word they are about to
//! dereference, and release the slot when done.  Slots are never
//! destroyed: releasing only deactivates, and a later acquisition
//! recycles an inactive slot before a new one is appended.  A snapshot
//! of the registry therefore contains every hazard published by a live
//! shield.

use vstd::prelude::*;
use std::collections::HashSet;

verus! {

broadcast use vstd::std_specs::hash::group_hash_axioms;

/// One protection slot: whether a shield owns it, and the published
/// hazard word (`0` meaning none).
#[derive(Debug)]
pub struct HazardSlot {
    pub active: bool,
    pub hazard: usize,
}

/// The grow-only collection of every slot ever created.
#[derive(Debug)]
pub struct HazardBag {
    slots: Vec<HazardSlot>,
}

/// The hazards currently published: the words held by active slots.
pub open spec fn published(slots: Seq<HazardSlot>) -> Set<usize> {
    Set::new(|h: usize| exists|i: int| 0 <= i < slots.len() && slots[i].active && slots[i].hazard == h)
}

impl View for HazardBag {
    type V = Seq<HazardSlot>;

    closed spec fn view(&self) -> Seq<HazardSlot> {
        self.slots@
    }
}

impl HazardBag {
    /// Creates an empty registry.
    pub fn new() -> (r: Self)
        ensures
            r@ == Seq::<HazardSlot>::empty(),
    {
        let r = HazardBag { slots: Vec::new() };
        proof {
            assert(r.slots@ =~= Seq::<HazardSlot>::empty());
        }
        r
    }

    /// Walks the existing slots and activates the first inactive one.
    /// The recycled slot keeps its previous hazard word; callers must
    /// publish before relying on it.
    fn try_acquire_inactive(&mut self) -> (r: Option<usize>)
        ensures
            final(self)@.len() == old(self)@.len(),
            match r {
                Some(i) => {
                    &&& i < old(self)@.len()
                    &&& !old(self)@[i as int].active
                    &&& final(self)@ == old(self)@.update(
                        i as int,
                        HazardSlot { active: true, hazard: old(self)@[i as int].hazard },
                    )
                },
                None => {
                    &&& final(self)@ == old(self)@
                    &&& forall|i: int| 0 <= i < old(self)@.len() ==> old(self)@[i].active
                },
            },
    {
        let n = self.slots.len();
        let mut j: usize = 0;
        while j < n
            invariant
                n == self.slots@.len(),
                j <= n,
                self.slots@ == old(self).slots@,
                forall|i: int| 0 <= i < j ==> self.slots@[i].active,
            decreases n - j,
        {
            if !self.slots[j].active {
                let hz = self.slots[j].hazard;
                self.slots[j] = HazardSlot { active: true, hazard: hz };
                proof {
                    assert(self.slots@ =~= old(self).slots@.update(
                        j as int,
                        HazardSlot { active: true, hazard: old(self).slots@[j as int].hazard },
                    ));
                }
                return Some(j);
            }
            j = j + 1;
        }
        None
    }

    /// Acquires a slot: recycles an inactive one if any exists, and only
    /// otherwise appends a fresh slot.  The index of the acquired slot
    /// is returned; its `active` flag is set.
    fn acquire_slot(&mut self) -> (i: usize)
        ensures
            i < final(self)@.len(),
            final(self)@[i as int].active,
            i < old(self)@.len() ==> !old(self)@[i as int].active,
            (exists|j: int| 0 <= j < old(self)@.len() && !old(self)@[j].active)
                ==> final(self)@.len() == old(self)@.len(),
            forall|j: int|
                0 <= j < old(self)@.len() && j != i ==> final(self)@[j] == old(self)@[j],
            final(self)@.len() == old(self)@.len() || (final(self)@.len() == old(self)@.len() + 1
                && i == old(self)@.len() && final(self)@[i as int].hazard == 0),
    {
        let r = self.try_acquire_inactive();
        match r {
            Some(i) => i,
            None => {
                let i = self.slots.len();
                self.slots.push(HazardSlot { active: true, hazard: 0 });
                i
            },
        }
    }

    /// Snapshots every hazard currently published by an active slot.
    pub fn all_hazards(&self) -> (r: HashSet<usize>)
        ensures
            r@ == published(self@),
    {
        let mut r: HashSet<usize> = HashSet::new();
        let n = self.slots.len();
        let mut j: usize = 0;
        proof {
            assert(r@ =~= published(self.slots@.take(0)));
        }
        while j < n
            invariant
                n == self.slots@.len(),
                j <= n,
                r@ == published(self.slots@.take(j as int)),
                vstd::std_specs::hash::obeys_key_model::<usize>(),
            decreases n - j,
        {
            let ghost prefix = self.slots@.take(j as int);
            let ghost next = self.slots@.take(j as int + 1);
            proof {
                assert(next.drop_last() =~= prefix);
                assert(next.last() == self.slots@[j as int]);
            }
            if self.slots[j].active {
                let hz = self.slots[j].hazard;
                r.insert(hz);
                proof {
                    assert forall|h: usize| published(next).contains(h) implies r@.contains(h) by {
                        let i = choose|i: int|
                            0 <= i < next.len() && next[i].active && next[i].hazard == h;
                        if i < j {
                            assert(prefix[i] == next[i]);
                            assert(published(prefix).contains(h));
                        }
                    }
                    assert forall|h: usize| r@.contains(h) implies published(next).contains(h) by {
                        if h == hz {
                            assert(next[j as int].active && next[j as int].hazard == h);
                        } else {
                            let i = choose|i: int|
                                0 <= i < prefix.len() && prefix[i].active && prefix[i].hazard == h;
                            assert(next[i] == prefix[i]);
                        }
                    }
                    assert(r@ =~= published(next));
                }
            } else {
                proof {
                    assert forall|h: usize| published(next).contains(h) implies published(
                        prefix,
                    ).contains(h) by {
                        let i = choose|i: int|
                            0 <= i < next.len() && next[i].active && next[i].hazard == h;
                        assert(i < j);
                        assert(prefix[i] == next[i]);
                    }
                    assert forall|h: usize| published(prefix).contains(h) implies published(
                        next,
                    ).contains(h) by {
                        let i = choose|i: int|
                            0 <= i < prefix.len() && prefix[i].active && prefix[i].hazard == h;
                        assert(next[i] == prefix[i]);
                    }
                    assert(r@ =~= published(next));
                }
            }
            j = j + 1;
        }
        proof {
            assert(self.slots@.take(n as int) =~= self.slots@);
        }
        r
    }
}

impl Default for HazardBag {
    fn default() -> (r: Self)
        ensures
            r@ == Seq::<HazardSlot>::empty(),
    {
        Self::new()
    }
}

/// Ownership of one hazard slot of a registry.
#[derive(Debug)]
pub struct Shield {
    slot: usize,
}

impl Shield {
    /// The slot this shield owns.
    pub closed spec fn spec_slot(&self) -> usize {
        self.slot
    }

    /// A shield is bound to a registry when its slot exists and is held.
    pub open spec fn wf(&self, bag: &HazardBag) -> bool {
        &&& self.spec_slot() < bag@.len()
        &&& bag@[self.spec_slot() as int].active
    }

    /// Acquires a slot of `bag`.  When an inactive slot exists it is
    /// recycled and the registry does not grow.
    pub fn new(bag: &mut HazardBag) -> (s: Shield)
        ensures
            s.wf(final(bag)),
            s.spec_slot() < old(bag)@.len() ==> !old(bag)@[s.spec_slot() as int].active,
            (exists|j: int| 0 <= j < old(bag)@.len() && !old(bag)@[j].active)
                ==> final(bag)@.len() == old(bag)@.len(),
            final(bag)@.len() == old(bag)@.len() || final(bag)@.len() == old(bag)@.len() + 1,
            s.spec_slot() < final(bag)@.len(),
            forall|j: int|
                0 <= j < old(bag)@.len() && j != s.spec_slot() ==> final(bag)@[j] == old(bag)@[j],
    {
        let slot = bag.acquire_slot();
        Shield { slot }
    }

    /// The index of the owned slot; slot identity witnesses recycling.
    pub fn slot_index(&self) -> (i: usize)
        ensures
            i == self.spec_slot(),
    {
        self.slot
    }

    /// Publishes `*pointer` in the slot, then validates it against
    /// `*src`.  On success the hazard stays published; on failure
    /// `*pointer` is refreshed from `*src` and the slot is cleared.
    pub fn try_protect(&self, bag: &mut HazardBag, pointer: &mut usize, src: &usize) -> (ok: bool)
        requires
            self.wf(old(bag)),
        ensures
            self.wf(final(bag)),
            final(bag)@.len() == old(bag)@.len(),
            forall|j: int|
                0 <= j < old(bag)@.len() && j != self.spec_slot()
                    ==> final(bag)@[j] == old(bag)@[j],
            ok <==> *src == *old(pointer),
            ok ==> *final(pointer) == *old(pointer) && final(bag)@[self.spec_slot() as int]
                == (HazardSlot { active: true, hazard: *old(pointer) }),
            !ok ==> *final(pointer) == *src && final(bag)@[self.spec_slot() as int] == (HazardSlot {
                active: true,
                hazard: 0,
            }),
    {
        let p = *pointer;
        bag.set_hazard(self.slot, p);
        let loaded = *src;
        if loaded == p {
            true
        } else {
            *pointer = loaded;
            bag.set_hazard(self.slot, 0);
            false
        }
    }

    /// Publishes and validates a pointer read from `src`, retrying until
    /// the validation succeeds; returns the protected value.
    pub fn protect(&self, bag: &mut HazardBag, src: &usize) -> (p: usize)
        requires
            self.wf(old(bag)),
        ensures
            self.wf(final(bag)),
            final(bag)@.len() == old(bag)@.len(),
            forall|j: int|
                0 <= j < old(bag)@.len() && j != self.spec_slot()
                    ==> final(bag)@[j] == old(bag)@[j],
            p == *src,
            final(bag)@[self.spec_slot() as int] == (HazardSlot { active: true, hazard: *src }),
    {
        let mut pointer: usize = *src;
        let ok = self.try_protect(bag, &mut pointer, src);
        proof {
            assert(ok);
        }
        pointer
    }

    /// Clears the slot's hazard and deactivates it, returning it to the
    /// pool; the shield is consumed.
    pub fn release(self, bag: &mut HazardBag)
        requires
            self.wf(old(bag)),
        ensures
            final(bag)@ == old(bag)@.update(
                self.spec_slot() as int,
                HazardSlot { active: false, hazard: 0 },
            ),
    {
        bag.clear_slot(self.slot);
    }
}

impl HazardBag {
    /// Stores a hazard word in an owned slot.
    fn set_hazard(&mut self, i: usize, h: usize)
        requires
            i < old(self)@.len(),
            old(self)@[i as int].active,
        ensures
            final(self)@ == old(self)@.update(i as int, HazardSlot { active: true, hazard: h }),
    {
        self.slots[i] = HazardSlot { active: true, hazard: h };
        proof {
            assert(self.slots@ =~= old(self).slots@.update(
                i as int,
                HazardSlot { active: true, hazard: h },
            ));
        }
    }

    /// Clears and deactivates a slot.
    fn clear_slot(&mut self, i: usize)
        requires
            i < old(self)@.len(),
        ensures
            final(self)@ == old(self)@.update(i as int, HazardSlot { active: false, hazard: 0 }),
    {
        self.slots[i] = HazardSlot { active: false, hazard: 0 };
        proof {
            assert(self.slots@ =~= old(self).slots@.update(
                i as int,
                HazardSlot { active: false, hazard: 0 },
            ));
        }
    }
}

/// A published hazard is in every snapshot: any slot sequence in which
/// some active slot holds `h` yields a snapshot containing `h`.
pub proof fn lemma_published_in_snapshot(slots: Seq<HazardSlot>, i: int, h: usize)
    requires
        0 <= i < slots.len(),
        slots[i].active,
        slots[i].hazard == h,
    ensures
        published(slots).contains(h),
{
}

/// After every shield holding `v` has been released, a snapshot no
/// longer contains `v`: if no active slot holds `v`, `v` is not
/// published.
pub proof fn lemma_released_not_published(slots: Seq<HazardSlot>, v: usize)
    requires
        forall|i: int| 0 <= i < slots.len() && slots[i].active ==> slots[i].hazard != v,
    ensures
        !published(slots).contains(v),
{
}

} // verus!
