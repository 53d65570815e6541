use crate::slots::key_form;
use crate::slots::SlotIndex;
use crate::slots::SlotStore;
use crate::slots::MAX_SLOTS;
use vstd::prelude::*;

verus! {

/// The objects of a grid, each under the key that it got when it came in.
///
/// A key is never given twice while it is live, and a key that has left
/// names nothing. The objects lie side by side in a vector; a slot map keeps
/// the place of each key.
pub struct ObjectMap<V, SL: SlotStore = SlotIndex> {
    slots: SL,
    ids: Vec<u64>,
    vals: Vec<V>,
}

/// The map that gives each key of `entries` the value at its place in `vals`.
pub open spec fn object_view<V>(entries: Map<u64, usize>, vals: Seq<V>) -> Map<u64, V> {
    Map::new(|k: u64| entries.contains_key(k), |k: u64| vals[entries[k] as int])
}

/// Whether a number has the shape of a key.
pub fn is_key(id: u64) -> (ok: bool)
    ensures
        ok == key_form(id),
{
    (id / 0x1_0000_0000) % 2 == 1
}

impl<V, SL: SlotStore> ObjectMap<V, SL> {
    pub closed spec fn wf(&self) -> bool {
        &&& self.ids.len() == self.vals.len()
        &&& self.slots.entries().dom().finite()
        &&& forall|i: int|
            0 <= i < self.ids.len() ==> key_form(#[trigger] self.ids[i]) && self.slots.entries().contains_key(self.ids[i]) && self.slots.entries()[self.ids[i]] == i
        &&& forall|k: u64| #[trigger]
            self.slots.entries().contains_key(k) ==> self.slots.entries()[k]
                < self.ids.len() && self.ids[self.slots.entries()[k] as int] == k
    }

    /// The objects, by their keys.
    pub closed spec fn view(&self) -> Map<u64, V> {
        object_view(self.slots.entries(), self.vals@)
    }

    /// The keys, in the order in which `key_at` and `keys` give them.
    pub closed spec fn order(&self) -> Seq<u64> {
        self.ids@
    }

    /// The order names every key once, and the key at a place names the
    /// object at that place.
    pub proof fn lemma_order(&self)
        requires
            self.wf(),
        ensures
            self.order().no_duplicates(),
            self.order().to_set() == self@.dom(),
            self@.dom().finite(),
            self@.len() == self.order().len(),
            forall|k: u64| #[trigger] self@.contains_key(k) ==> key_form(k),
    {
        let e = self.slots.entries();
        assert(self.ids@.to_set() =~= e.dom()) by {
            assert forall|k: u64| e.dom().contains(k) implies self.ids@.to_set().contains(k) by {
                assert(self.ids@[e[k] as int] == k);
            }
        }
        assert(self@.dom() =~= e.dom());
        self.ids@.unique_seq_to_set();
    }

    pub fn new() -> (m: Self)
        ensures
            m.wf(),
            m@ == Map::<u64, V>::empty(),
            m.order() == Seq::<u64>::empty(),
    {
        let m = ObjectMap { slots: SL::empty(), ids: Vec::new(), vals: Vec::new() };
        assert(m@ =~= Map::<u64, V>::empty());
        m
    }

    /// The number of objects.
    pub fn len(&self) -> (n: usize)
        requires
            self.wf(),
        ensures
            n == self@.len(),
            n == self.order().len(),
    {
        proof {
            self.lemma_order();
        }
        self.ids.len()
    }

    pub fn is_empty(&self) -> (e: bool)
        requires
            self.wf(),
        ensures
            e == (self@.len() == 0),
    {
        proof {
            self.lemma_order();
        }
        self.ids.len() == 0
    }

    pub fn contains_key(&self, k: u64) -> (c: bool)
        requires
            self.wf(),
        ensures
            c == self@.contains_key(k),
    {
        if !is_key(k) {
            proof {
                self.lemma_order();
            }
            return false;
        }
        self.slots.place(k).is_some()
    }

    /// Takes an object in and returns its key, which no live object has.
    pub fn insert(&mut self, v: V) -> (k: u64)
        requires
            old(self).wf(),
            old(self)@.len() < MAX_SLOTS,
        ensures
            final(self).wf(),
            !old(self)@.contains_key(k),
            final(self)@ == old(self)@.insert(k, v),
            final(self).order() == old(self).order().push(k),
    {
        proof {
            self.lemma_order();
            assert(self@.dom() =~= self.slots.entries().dom());
        }
        let k = self.slots.put(self.ids.len());
        self.ids.push(k);
        self.vals.push(v);
        assert(self@ =~= old(self)@.insert(k, v));
        k
    }

    pub fn get(&self, k: u64) -> (r: Option<&V>)
        requires
            self.wf(),
        ensures
            match r {
                Some(v) => self@.contains_key(k) && *v == self@[k],
                None => !self@.contains_key(k),
            },
    {
        if !is_key(k) {
            proof {
                self.lemma_order();
            }
            return None;
        }
        match self.slots.place(k) {
            Some(i) => Some(&self.vals[i]),
            None => None,
        }
    }

    /// The object under a key, to be changed in place.
    pub fn get_mut(&mut self, k: u64) -> (r: Option<&mut V>)
        requires
            old(self).wf(),
        ensures
            final(self).wf(),
            final(self).order() == old(self).order(),
            match r {
                Some(v) => old(self)@.contains_key(k) && *v == old(self)@[k] && final(self)@
                    == old(self)@.insert(k, *final(v)),
                None => !old(self)@.contains_key(k) && final(self)@ == old(self)@,
            },
    {
        if !is_key(k) {
            proof {
                self.lemma_order();
            }
            return None;
        }
        match self.slots.place(k) {
            Some(i) => {
                proof {
                    let e = self.slots.entries();
                    let s = self.vals@;
                    assert forall|v: V| object_view(e, #[trigger] s.update(i as int, v))
                        == object_view(e, s).insert(k, v) by {
                        assert(object_view(e, s.update(i as int, v)) =~= object_view(
                            e,
                            s,
                        ).insert(k, v));
                    }
                }
                Some(&mut self.vals[i])
            },
            None => None,
        }
    }

    /// Takes the object under a key out and returns it.
    pub fn remove(&mut self, k: u64) -> (r: Option<V>)
        requires
            old(self).wf(),
        ensures
            final(self).wf(),
            final(self)@ == old(self)@.remove(k),
            r == (if old(self)@.contains_key(k) {
                Some(old(self)@[k])
            } else {
                None::<V>
            }),
    {
        if !is_key(k) {
            proof {
                self.lemma_order();
                assert(self@ =~= self@.remove(k));
            }
            return None;
        }
        match self.slots.take(k) {
            Some(i) => {
                let last = self.ids.len() - 1;
                let v = self.vals.swap_remove(i);
                self.ids.swap_remove(i);
                if i != last {
                    let moved = self.ids[i];
                    match self.slots.place_mut(moved) {
                        Some(place) => {
                            *place = i;
                        },
                        None => {},
                    }
                }
                assert(self@ =~= old(self)@.remove(k));
                Some(v)
            },
            None => {
                assert(self@ =~= old(self)@.remove(k));
                None
            },
        }
    }

    /// The key at a place of the order.
    pub fn key_at(&self, i: usize) -> (k: u64)
        requires
            self.wf(),
            i < self.order().len(),
        ensures
            k == self.order()[i as int],
            self@.contains_key(k),
    {
        self.ids[i]
    }

    /// The object at a place of the order.
    pub fn value_at(&self, i: usize) -> (v: &V)
        requires
            self.wf(),
            i < self.order().len(),
        ensures
            self@.contains_key(self.order()[i as int]),
            *v == self@[self.order()[i as int]],
    {
        &self.vals[i]
    }

    /// The object at a place of the order, to be changed in place.
    pub fn value_at_mut(&mut self, i: usize) -> (v: &mut V)
        requires
            old(self).wf(),
            i < old(self).order().len(),
        ensures
            final(self).wf(),
            final(self).order() == old(self).order(),
            old(self)@.contains_key(old(self).order()[i as int]),
            *v == old(self)@[old(self).order()[i as int]],
            final(self)@ == old(self)@.insert(old(self).order()[i as int], *final(v)),
    {
        proof {
            let e = self.slots.entries();
            let s = self.vals@;
            let k = self.ids[i as int];
            assert forall|v: V| object_view(e, #[trigger] s.update(i as int, v)) == object_view(
                e,
                s,
            ).insert(k, v) by {
                assert(object_view(e, s.update(i as int, v)) =~= object_view(e, s).insert(k, v));
            }
        }
        &mut self.vals[i]
    }

    /// Every key, in order.
    pub fn keys(&self) -> (ks: Vec<u64>)
        requires
            self.wf(),
        ensures
            ks@ == self.order(),
    {
        let mut ks: Vec<u64> = Vec::new();
        let mut i: usize = 0;
        while i < self.ids.len()
            invariant
                i <= self.ids.len(),
                ks@ == self.ids@.take(i as int),
            decreases self.ids.len() - i,
        {
            ks.push(self.ids[i]);
            i += 1;
            assert(ks@ =~= self.ids@.take(i as int));
        }
        assert(ks@ =~= self.ids@);
        ks
    }
}

} // verus!
