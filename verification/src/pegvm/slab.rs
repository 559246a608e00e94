//! Minimal slab allocator: stable `u32` indices, LIFO free-list,
//! `Vec`-backed contiguous storage.
use vstd::prelude::*;

verus! {

/// One storage cell: a live value, or a link in the free list.
pub enum Slot<T> {
    Occupied(T),
    Vacant { next_free: u32 },
}

/// Free-list terminator; also the one index a slab never hands out.
pub const NO_FREE: u32 = 0xFFFF_FFFF;

/// Slab of `T` values addressed by `u32` indices. Freed indices are
/// reused most-recently-freed first.
/// Number of occupied slots.
pub open spec fn live_count<T>(slots: Seq<Slot<T>>) -> nat
    decreases slots.len(),
{
    if slots.len() == 0 {
        0
    } else {
        live_count(slots.drop_last()) + if slots.last() is Occupied { 1nat } else { 0nat }
    }
}

proof fn lemma_live_count_bound<T>(slots: Seq<Slot<T>>)
    ensures
        live_count(slots) <= slots.len(),
    decreases slots.len(),
{
    if slots.len() > 0 {
        lemma_live_count_bound(slots.drop_last());
    }
}

proof fn lemma_live_count_update<T>(slots: Seq<Slot<T>>, i: int, s: Slot<T>)
    requires
        0 <= i < slots.len(),
    ensures
        live_count(slots.update(i, s)) + (if slots[i] is Occupied { 1nat } else { 0nat })
            == live_count(slots) + (if s is Occupied { 1nat } else { 0nat }),
    decreases slots.len(),
{
    let u = slots.update(i, s);
    if i == slots.len() - 1 {
        assert(u.drop_last() == slots.drop_last());
    } else {
        assert(u.drop_last() == slots.drop_last().update(i, s));
        lemma_live_count_update(slots.drop_last(), i, s);
    }
}

proof fn lemma_live_count_map<T>(slots: Seq<Slot<T>>, m: Map<u32, T>)
    requires
        slots.len() < NO_FREE,
        forall|i: u32| #[trigger] m.contains_key(i) <==> ((i as int) < slots.len() && slots[i as int] is Occupied),
    ensures
        m.dom().finite(),
        m.len() == live_count(slots),
    decreases slots.len(),
{
    if slots.len() == 0 {
        assert(m.dom() =~= Set::<u32>::empty());
    } else {
        let n = (slots.len() - 1) as u32;
        let prefix = slots.drop_last();
        let m2 = m.remove(n);
        assert forall|i: u32| #[trigger] m2.contains_key(i) <==> ((i as int) < prefix.len()
            && prefix[i as int] is Occupied) by {
            if (i as int) < prefix.len() {
                assert(prefix[i as int] == slots[i as int]);
            }
        }
        lemma_live_count_map(prefix, m2);
        if slots.last() is Occupied {
            assert(m.dom() =~= m2.dom().insert(n));
        } else {
            assert(m.dom() =~= m2.dom());
        }
    }
}

pub struct Slab<T> {
    slots: Vec<Slot<T>>,
    free_head: u32,
    len: u32,
    free: Ghost<Seq<u32>>,
}

impl<T> Slab<T> {
    /// The live entries, keyed by index.
    pub closed spec fn view(&self) -> Map<u32, T> {
        Map::new(
            |i: u32| (i as int) < self.slots@.len() && self.slots@[i as int] is Occupied,
            |i: u32| self.slots@[i as int]->Occupied_0,
        )
    }

    /// The free list, most recently freed first.
    pub closed spec fn free_list(&self) -> Seq<u32> {
        self.free@
    }

    /// Number of slots ever allocated (live or vacant).
    pub closed spec fn capacity_used(&self) -> nat {
        self.slots@.len()
    }

    /// The index the next `insert` hands out.
    pub open spec fn next_index(&self) -> u32 {
        if self.free_list().len() > 0 {
            self.free_list()[0]
        } else {
            self.capacity_used() as u32
        }
    }

    /// Structural invariant: the free list threads exactly the vacant
    /// slots, without repetition, and `len` counts the live ones.
    pub closed spec fn wf(&self) -> bool {
        let free = self.free@;
        &&& self.slots@.len() < NO_FREE
        &&& self.free_head == (if free.len() > 0 { free[0] } else { NO_FREE })
        &&& forall|k: int|
            0 <= k < free.len() ==> {
                &&& (#[trigger] free[k] as int) < self.slots@.len()
                &&& self.slots@[free[k] as int] == Slot::<T>::Vacant {
                    next_free: if k + 1 < free.len() { free[k + 1] } else { NO_FREE },
                }
            }
        &&& forall|i: int|
            0 <= i < self.slots@.len() && self.slots@[i] is Vacant ==> free.contains(
                i as u32,
            )
        &&& forall|a: int, b: int| 0 <= a < b < free.len() ==> free[a] != free[b]
        &&& self.len as int == live_count(self.slots@)
    }

    /// Empty slab.
    pub fn new() -> (s: Self)
        ensures
            s.wf(),
            s.view() == Map::<u32, T>::empty(),
            s.next_index() == 0,
            s.free_list() == Seq::<u32>::empty(),
            s.capacity_used() == 0,
    {
        let s = Slab { slots: Vec::new(), free_head: NO_FREE, len: 0, free: Ghost(Seq::empty()) };
        proof {
            assert(s.view() =~= Map::<u32, T>::empty());
        }
        s
    }

    /// Live entry count.
    pub fn len(&self) -> (n: usize)
        requires
            self.wf(),
        ensures
            n == self.view().len(),
    {
        proof {
            self.lemma_len();
        }
        self.len as usize
    }

    proof fn lemma_len(&self)
        requires
            self.wf(),
        ensures
            self.view().len() == self.len,
            self.view().dom().finite(),
            self.len < NO_FREE,
    {
        lemma_live_count_map(self.slots@, self.view());
        lemma_live_count_bound(self.slots@);
    }

    /// Store `value`, returning its index: the most recently freed index
    /// if there is one, else a fresh one.
    pub fn insert(&mut self, value: T) -> (idx: u32)
        requires
            old(self).wf(),
            old(self).free_list().len() > 0 || old(self).capacity_used() + 1 < NO_FREE,
        ensures
            final(self).wf(),
            idx == old(self).next_index(),
            !old(self).view().contains_key(idx),
            final(self).view() == old(self).view().insert(idx, value),
            final(self).view().len() == old(self).view().len() + 1,
            if old(self).free_list().len() > 0 {
                &&& final(self).free_list() == old(self).free_list().drop_first()
                &&& final(self).capacity_used() == old(self).capacity_used()
            } else {
                &&& final(self).free_list() == old(self).free_list()
                &&& final(self).capacity_used() == old(self).capacity_used() + 1
            },
    {
        if self.free_head != NO_FREE {
            let idx = self.free_head;
            let next = match &self.slots[idx as usize] {
                Slot::Vacant { next_free } => *next_free,
                Slot::Occupied(_) => NO_FREE,
            };
            let ghost old_self = *self;
            proof {
                old_self.lemma_len();
                lemma_live_count_update(old_self.slots@, idx as int, Slot::Occupied(value));
            }
            self.slots.set(idx as usize, Slot::Occupied(value));
            self.free_head = next;
            self.len = self.len + 1;
            self.free = Ghost(old_self.free@.drop_first());
            proof {
                assert(old_self.free@[0] == idx);
                let free = self.free@;
                assert forall|k: int| 0 <= k < free.len() implies {
                    &&& (#[trigger] free[k] as int) < self.slots@.len()
                    &&& self.slots@[free[k] as int] == Slot::<T>::Vacant {
                        next_free: if k + 1 < free.len() { free[k + 1] } else { NO_FREE },
                    }
                } by {
                    assert(free[k] == old_self.free@[k + 1]);
                    assert(old_self.free@[0] != old_self.free@[k + 1]);
                }
                assert forall|i: int|
                    0 <= i < self.slots@.len() && self.slots@[i] is Vacant implies free.contains(
                    i as u32,
                ) by {
                    assert(old_self.free@.contains(i as u32));
                    let k = choose|k: int| 0 <= k < old_self.free@.len() && old_self.free@[k] == i as u32;
                    assert(k != 0);
                    assert(free[k - 1] == i as u32);
                }
                assert forall|a: int, b: int| 0 <= a < b < free.len() implies free[a] != free[b] by {
                    assert(free[a] == old_self.free@[a + 1]);
                    assert(free[b] == old_self.free@[b + 1]);
                }
                assert(self.view() =~= old_self.view().insert(idx, value));
                self.lemma_len();
            }
            idx
        } else {
            let idx = self.slots.len() as u32;
            let ghost old_self = *self;
            proof {
                old_self.lemma_len();
                lemma_live_count_bound(old_self.slots@);
            }
            self.slots.push(Slot::Occupied(value));
            proof {
                assert(self.slots@.drop_last() == old_self.slots@);
            }
            self.len = self.len + 1;
            proof {
                let free = self.free@;
                assert(free.len() == 0);
                assert forall|i: int|
                    0 <= i < self.slots@.len() && self.slots@[i] is Vacant implies free.contains(
                    i as u32,
                ) by {
                    assert(i < old_self.slots@.len());
                    assert(old_self.slots@[i] == self.slots@[i]);
                }
                assert(self.view() =~= old_self.view().insert(idx, value));
                self.lemma_len();
            }
            idx
        }
    }

    /// Remove and return the value at `idx`; `idx` heads the free list.
    pub fn remove(&mut self, idx: u32) -> (v: T)
        requires
            old(self).wf(),
            old(self).view().contains_key(idx),
        ensures
            final(self).wf(),
            v == old(self).view()[idx],
            final(self).view() == old(self).view().remove(idx),
            final(self).next_index() == idx,
            final(self).free_list() == seq![idx] + old(self).free_list(),
            final(self).capacity_used() == old(self).capacity_used(),
            final(self).view().len() + 1 == old(self).view().len(),
    {
        let ghost old_self = *self;
        proof {
            lemma_live_count_update(
                old_self.slots@,
                idx as int,
                Slot::<T>::Vacant { next_free: old_self.free_head },
            );
        }
        let mut slot = Slot::Vacant { next_free: self.free_head };
        std::mem::swap(&mut slot, &mut self.slots[idx as usize]);
        let v = match slot {
            Slot::Occupied(v) => v,
            Slot::Vacant { .. } => {
                vstd::pervasive::unreached()
            },
        };
        self.free_head = idx;
        self.len = self.len - 1;
        self.free = Ghost(seq![idx] + old_self.free@);
        proof {
            let free = self.free@;
            let of = old_self.free@;
            assert(!of.contains(idx)) by {
                if of.contains(idx) {
                    let k = choose|k: int| 0 <= k < of.len() && of[k] == idx;
                    assert(old_self.slots@[of[k] as int] is Vacant);
                }
            }
            assert forall|k: int| 0 <= k < free.len() implies {
                &&& (#[trigger] free[k] as int) < self.slots@.len()
                &&& self.slots@[free[k] as int] == Slot::<T>::Vacant {
                    next_free: if k + 1 < free.len() { free[k + 1] } else { NO_FREE },
                }
            } by {
                if k > 0 {
                    assert(free[k] == of[k - 1]);
                    assert(of[k - 1] != idx);
                }
            }
            assert forall|i: int|
                0 <= i < self.slots@.len() && self.slots@[i] is Vacant implies free.contains(
                i as u32,
            ) by {
                if i == idx as int {
                    assert(free[0] == idx);
                } else {
                    assert(old_self.slots@[i] == self.slots@[i]);
                    let k = choose|k: int| 0 <= k < of.len() && of[k] == i as u32;
                    assert(free[k + 1] == i as u32);
                }
            }
            assert forall|a: int, b: int| 0 <= a < b < free.len() implies free[a] != free[b] by {
                if a == 0 {
                    assert(free[b] == of[b - 1]);
                } else {
                    assert(free[a] == of[a - 1] && free[b] == of[b - 1]);
                }
            }
            assert(self.view() =~= old_self.view().remove(idx));
            old_self.lemma_len();
            self.lemma_len();
        }
        v
    }

    /// Borrow the value at `idx`.
    pub fn get(&self, idx: u32) -> (v: &T)
        requires
            self.wf(),
            self.view().contains_key(idx),
        ensures
            *v == self.view()[idx],
    {
        match &self.slots[idx as usize] {
            Slot::Occupied(v) => v,
            Slot::Vacant { .. } => {
                vstd::pervasive::unreached()
            },
        }
    }

    /// Mutably borrow the value at `idx`.
    pub fn get_mut(&mut self, idx: u32) -> (v: &mut T)
        requires
            old(self).wf(),
            old(self).view().contains_key(idx),
        ensures
            *v == old(self).view()[idx],
            final(self).wf(),
            final(self).view() == old(self).view().insert(idx, *final(v)),
            final(self).free_list() == old(self).free_list(),
            final(self).capacity_used() == old(self).capacity_used(),
    {
        proof {
            let sl = self.slots@;
            assert forall|x: T| #[trigger] live_count(sl.update(idx as int, Slot::Occupied(x))) == live_count(sl) by {
                lemma_live_count_update(sl, idx as int, Slot::Occupied(x));
            }
            let free = self.free@;
            assert forall|k: int| 0 <= k < free.len() implies #[trigger] free[k] != idx by {
                assert(sl[free[k] as int] is Vacant);
            }
        }
        match &mut self.slots[idx as usize] {
            Slot::Occupied(v) => v,
            Slot::Vacant { .. } => vstd::pervasive::unreached(),
        }
    }
}

} // verus!
