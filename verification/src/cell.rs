use crate::grid::GridHandle;
use crate::grid::ObjectState;
use crate::grid::StoreObject;
use crate::objects::ObjectMap;
use crate::shape::Point;
use crate::shapegrid::ShapeGridHandle;
use vstd::prelude::*;

verus! {

pub type CellObject = (GridHandle, Point);

/// A single cell of the grid, can be empty
#[derive(Clone)]
pub struct GridCell {
    pub objs: Vec<CellObject>,
    pub dirty: bool,
}

impl Default for GridCell {
    fn default() -> (c: Self)
        ensures
            c.objs@.len() == 0,
            !c.dirty,
    {
        GridCell { objs: Vec::new(), dirty: false }
    }
}

/// A cell of a grid of shapes: the handles of the objects that touch the
/// cell, each with a flag that says whether the object touches no other
/// cell.
#[derive(Clone)]
pub struct ShapeGridCell {
    pub objs: Vec<(ShapeGridHandle, bool)>,
}

impl Default for ShapeGridCell {
    fn default() -> (c: Self)
        ensures
            c.objs@.len() == 0,
    {
        ShapeGridCell { objs: Vec::new() }
    }
}

/// What a sweep over the entries of a cell leaves: the entries that stay,
/// the entries that go to another cell, and the objects.
pub struct Swept<O: Copy, Idx: Copy> {
    pub kept: Seq<CellObject>,
    pub moved: Seq<CellObject>,
    pub objects: Map<u64, StoreObject<O, Idx>>,
}

/// The sweep of one entry. An unchanged object keeps its entry. An object
/// with a new position in the cell keeps its entry, with that position. An
/// object on its way to another cell loses its entry here, and an entry with
/// its position goes to the entries that move. A removed object is deleted
/// with its entry. In the first three cases the object is unchanged
/// afterwards. An entry of no object is dropped.
pub open spec fn sweep_step<O: Copy, Idx: Copy>(s: Swept<O, Idx>, e: CellObject) -> Swept<O, Idx> {
    if !s.objects.contains_key(e.0@) {
        s
    } else {
        let rec = s.objects[e.0@];
        let settled = StoreObject { state: ObjectState::Unchanged, ..rec };
        match rec.state {
            ObjectState::Unchanged => Swept { kept: s.kept.push(e), ..s },
            ObjectState::NewPos => Swept {
                kept: s.kept.push((e.0, rec.pos)),
                objects: s.objects.insert(e.0@, settled),
                ..s
            },
            ObjectState::Relocate => Swept {
                moved: s.moved.push((e.0, rec.pos)),
                objects: s.objects.insert(e.0@, settled),
                ..s
            },
            ObjectState::Removed => Swept { objects: s.objects.remove(e.0@), ..s },
        }
    }
}

/// The sweep of the entries of a cell, from the first to the last.
pub open spec fn sweep<O: Copy, Idx: Copy>(
    entries: Seq<CellObject>,
    objects: Map<u64, StoreObject<O, Idx>>,
) -> Swept<O, Idx>
    decreases entries.len(),
{
    if entries.len() == 0 {
        Swept { kept: Seq::empty(), moved: Seq::empty(), objects }
    } else {
        sweep_step(sweep(entries.drop_last(), objects), entries.last())
    }
}

/// Whether a list of entries holds an entry of the object under key `k`.
pub open spec fn has_entry(es: Seq<CellObject>, k: u64) -> bool {
    exists|i: int| 0 <= i < es.len() && (#[trigger] es[i]).0@ == k
}

/// Whether no two entries of a list are entries of one object.
pub open spec fn keys_distinct(es: Seq<CellObject>) -> bool {
    forall|i: int, j: int| 0 <= i < j < es.len() ==> (#[trigger] es[i]).0@ != (#[trigger] es[j]).0@
}

/// Whether the object of an entry keeps an entry in the cell when the cell
/// is swept.
pub open spec fn stays(s: ObjectState) -> bool {
    s == ObjectState::Unchanged || s == ObjectState::NewPos
}

/// Whether `e` is what the entry of an object that stays in the cell becomes:
/// the entry itself, or the handle with the position of the object where
/// that was new.
pub open spec fn kept_from<O: Copy, Idx: Copy>(
    es: Seq<CellObject>,
    m: Map<u64, StoreObject<O, Idx>>,
    e: CellObject,
) -> bool {
    exists|i: int|
        0 <= i < es.len() && (#[trigger] es[i]).0 == e.0 && stays(m[es[i].0@].state) && e.1 == (
        if m[es[i].0@].state == ObjectState::NewPos {
            m[es[i].0@].pos
        } else {
            es[i].1
        })
}

/// Whether `e` is what the entry of an object that goes to another cell
/// becomes: the handle with the position of the object.
pub open spec fn moved_from<O: Copy, Idx: Copy>(
    es: Seq<CellObject>,
    m: Map<u64, StoreObject<O, Idx>>,
    e: CellObject,
) -> bool {
    exists|i: int|
        0 <= i < es.len() && (#[trigger] es[i]).0 == e.0 && m[es[i].0@].state
            == ObjectState::Relocate && e.1 == m[es[i].0@].pos
}

/// What a sweep does, object by object, to a list in which every entry is
/// the one entry of a live object: it deletes the removed objects of the
/// list and leaves the other objects of the list unchanged; the objects
/// that stay keep their entries in order, with the position of the object
/// where that was new; the objects that go to another cell have their
/// entries, with the position of the object, among the entries that move.
pub proof fn lemma_sweep<O: Copy, Idx: Copy>(
    es: Seq<CellObject>,
    m: Map<u64, StoreObject<O, Idx>>,
)
    requires
        keys_distinct(es),
        forall|i: int| 0 <= i < es.len() ==> m.contains_key((#[trigger] es[i]).0@),
    ensures
        ({
            let s = sweep(es, m);
            &&& forall|k: u64| #[trigger]
                s.objects.contains_key(k) <==> m.contains_key(k) && !(has_entry(es, k)
                    && m[k].state == ObjectState::Removed)
            &&& forall|k: u64| #[trigger]
                s.objects.contains_key(k) ==> s.objects[k] == (if has_entry(es, k) {
                    StoreObject { state: ObjectState::Unchanged, ..m[k] }
                } else {
                    m[k]
                })
            &&& keys_distinct(s.kept)
            &&& keys_distinct(s.moved)
            &&& forall|j: int| 0 <= j < s.kept.len() ==> kept_from(es, m, #[trigger] s.kept[j])
            &&& forall|i: int|
                0 <= i < es.len() && stays(m[(#[trigger] es[i]).0@].state) ==> has_entry(
                    s.kept,
                    es[i].0@,
                )
            &&& forall|j: int| 0 <= j < s.moved.len() ==> moved_from(es, m, #[trigger] s.moved[j])
            &&& forall|i: int|
                0 <= i < es.len() && m[(#[trigger] es[i]).0@].state == ObjectState::Relocate
                    ==> has_entry(s.moved, es[i].0@)
        }),
    decreases es.len(),
{
    if es.len() > 0 {
        let front = es.drop_last();
        let e = es.last();
        let k = e.0@;
        let n = front.len() as int;
        lemma_sweep(front, m);
        let p = sweep(front, m);
        let s = sweep(es, m);
        assert(s == sweep_step(p, e));
        assert(es[n] == e);
        assert(!has_entry(front, k)) by {
            if has_entry(front, k) {
                let i = choose|i: int| 0 <= i < front.len() && (#[trigger] front[i]).0@ == k;
                assert(es[i].0@ == es[n].0@);
            }
        }
        assert(p.objects.contains_key(k));
        assert(p.objects[k] == m[k]);
        assert forall|kk: u64| has_entry(es, kk) <==> (has_entry(front, kk) || kk == k) by {
            if has_entry(front, kk) {
                let i = choose|i: int| 0 <= i < front.len() && (#[trigger] front[i]).0@ == kk;
                assert(es[i].0@ == kk);
            }
            if has_entry(es, kk) && kk != k {
                let i = choose|i: int| 0 <= i < es.len() && (#[trigger] es[i]).0@ == kk;
                assert(front[i].0@ == kk);
            }
        }
        assert forall|kk: u64| #[trigger]
            s.objects.contains_key(kk) <==> m.contains_key(kk) && !(has_entry(es, kk)
                && m[kk].state == ObjectState::Removed) by {
            if kk != k {
                assert(s.objects.contains_key(kk) == p.objects.contains_key(kk));
            }
        }
        assert forall|kk: u64| #[trigger] s.objects.contains_key(kk) implies s.objects[kk] == (
        if has_entry(es, kk) {
            StoreObject { state: ObjectState::Unchanged, ..m[kk] }
        } else {
            m[kk]
        }) by {
            if kk != k {
                assert(p.objects.contains_key(kk));
                assert(s.objects[kk] == p.objects[kk]);
            }
        }
        // the entries that stay
        assert forall|j: int| 0 <= j < p.kept.len() implies (#[trigger] p.kept[j]).0@ != k by {
            assert(kept_from(front, m, p.kept[j]));
            let i = choose|i: int|
                0 <= i < front.len() && (#[trigger] front[i]).0 == p.kept[j].0;
            assert(es[i].0@ != es[n].0@);
        }
        assert forall|j: int| 0 <= j < p.moved.len() implies (#[trigger] p.moved[j]).0@ != k by {
            assert(moved_from(front, m, p.moved[j]));
            let i = choose|i: int|
                0 <= i < front.len() && (#[trigger] front[i]).0 == p.moved[j].0;
            assert(es[i].0@ != es[n].0@);
        }
        assert(keys_distinct(s.kept));
        assert(keys_distinct(s.moved));
        assert forall|j: int| 0 <= j < s.kept.len() implies kept_from(
            es,
            m,
            #[trigger] s.kept[j],
        ) by {
            if j < p.kept.len() {
                assert(kept_from(front, m, p.kept[j]));
                let i = choose|i: int|
                    0 <= i < front.len() && (#[trigger] front[i]).0 == p.kept[j].0 && stays(
                        m[front[i].0@].state,
                    ) && p.kept[j].1 == (if m[front[i].0@].state == ObjectState::NewPos {
                        m[front[i].0@].pos
                    } else {
                        front[i].1
                    });
                assert(es[i] == front[i]);
                assert(s.kept[j] == p.kept[j]);
            } else {
                assert(es[n].0 == s.kept[j].0);
            }
        }
        assert forall|i: int|
            0 <= i < es.len() && stays(m[(#[trigger] es[i]).0@].state) implies has_entry(
            s.kept,
            es[i].0@,
        ) by {
            if i < n {
                assert(front[i] == es[i]);
                assert(has_entry(p.kept, es[i].0@));
                let j = choose|j: int| 0 <= j < p.kept.len() && (#[trigger] p.kept[j]).0@ == es[i].0@;
                assert(s.kept[j].0@ == es[i].0@);
            } else {
                assert(s.kept[s.kept.len() - 1].0@ == k);
            }
        }
        assert forall|j: int| 0 <= j < s.moved.len() implies moved_from(
            es,
            m,
            #[trigger] s.moved[j],
        ) by {
            if j < p.moved.len() {
                assert(moved_from(front, m, p.moved[j]));
                let i = choose|i: int|
                    0 <= i < front.len() && (#[trigger] front[i]).0 == p.moved[j].0
                        && m[front[i].0@].state == ObjectState::Relocate && p.moved[j].1
                        == m[front[i].0@].pos;
                assert(es[i] == front[i]);
                assert(s.moved[j] == p.moved[j]);
            } else {
                assert(es[n].0 == s.moved[j].0);
            }
        }
        assert forall|i: int|
            0 <= i < es.len() && m[(#[trigger] es[i]).0@].state
                == ObjectState::Relocate implies has_entry(s.moved, es[i].0@) by {
            if i < n {
                assert(front[i] == es[i]);
                assert(has_entry(p.moved, es[i].0@));
                let j = choose|j: int|
                    0 <= j < p.moved.len() && (#[trigger] p.moved[j]).0@ == es[i].0@;
                assert(s.moved[j].0@ == es[i].0@);
            } else {
                assert(s.moved[s.moved.len() - 1].0@ == k);
            }
        }
    }
}

/// What a filter keeps of a list of entries: the entries of the list that
/// meet the condition, and no object twice where the list held none twice.
pub proof fn lemma_filter_entries(es: Seq<CellObject>, pred: spec_fn(CellObject) -> bool)
    ensures
        forall|e: CellObject| #[trigger] es.filter(pred).contains(e) <==> es.contains(e) && pred(e),
        keys_distinct(es) ==> keys_distinct(es.filter(pred)),
    decreases es.len(),
{
    reveal(Seq::filter);
    let out = es.filter(pred);
    if es.len() > 0 {
        let front = es.drop_last();
        let last = es.last();
        let sub = front.filter(pred);
        lemma_filter_entries(front, pred);
        assert forall|e: CellObject| #[trigger] out.contains(e) <==> es.contains(e) && pred(e) by {
            if out.contains(e) {
                let j = choose|j: int| 0 <= j < out.len() && out[j] == e;
                if j < sub.len() {
                    assert(sub[j] == e);
                    assert(sub.contains(e));
                    let i = choose|i: int| 0 <= i < front.len() && front[i] == e;
                    assert(es[i] == e);
                } else {
                    assert(es[es.len() - 1] == e);
                }
            }
            if es.contains(e) && pred(e) {
                let i = choose|i: int| 0 <= i < es.len() && es[i] == e;
                if i < front.len() {
                    assert(front[i] == e);
                    assert(sub.contains(e));
                    let j = choose|j: int| 0 <= j < sub.len() && sub[j] == e;
                    assert(out[j] == e);
                } else {
                    assert(out[out.len() - 1] == e);
                }
            }
        }
        if keys_distinct(es) {
            assert(keys_distinct(front)) by {
                assert forall|i: int, j: int| 0 <= i < j < front.len() implies (
                #[trigger] front[i]).0@ != (#[trigger] front[j]).0@ by {
                    assert(es[i].0@ != es[j].0@);
                }
            }
            assert forall|i: int, j: int| 0 <= i < j < out.len() implies (#[trigger] out[i]).0@ != (
            #[trigger] out[j]).0@ by {
                if j < sub.len() {
                    assert(sub[i].0@ != sub[j].0@);
                } else {
                    assert(sub[i] == out[i]);
                    assert(sub.contains(sub[i]));
                    let a = choose|a: int| 0 <= a < front.len() && front[a] == sub[i];
                    assert(es[a].0@ != es[es.len() - 1].0@);
                }
            }
        }
    } else {
        assert forall|e: CellObject| #[trigger] out.contains(e) <==> es.contains(e) && pred(e) by {}
    }
}

impl GridCell {
    /// Brings the entries of a dirty cell in line with the objects; a cell
    /// that is not dirty is left as it is. The entries are swept in order,
    /// each once, and those that stay keep their order.
    pub fn maintain<O: Copy, Idx: Copy>(
        &mut self,
        objects: &mut ObjectMap<StoreObject<O, Idx>>,
        to_relocate: &mut Vec<CellObject>,
    )
        requires
            old(objects).wf(),
        ensures
            final(objects).wf(),
            !old(self).dirty ==> *final(self) == *old(self) && final(objects)@ == old(objects)@
                && final(to_relocate)@ == old(to_relocate)@,
            old(self).dirty ==> {
                let s = sweep(old(self).objs@, old(objects)@);
                &&& final(self).objs@ == s.kept
                &&& !final(self).dirty
                &&& final(objects)@ == s.objects
                &&& final(to_relocate)@ == old(to_relocate)@ + s.moved
            },
    {
        if !self.dirty {
            return ;
        }
        self.dirty = false;
        let n = self.objs.len();
        let mut i: usize = 0;
        let mut w: usize = 0;
        let ghost entries = self.objs@;
        let ghost before = objects@;
        let ghost queue = to_relocate@;
        while i < n
            invariant
                objects.wf(),
                !self.dirty,
                w <= i <= n,
                n == entries.len(),
                self.objs.len() == n,
                forall|j: int| i <= j < n ==> self.objs[j] == entries[j],
                self.objs@.take(w as int) == sweep(entries.take(i as int), before).kept,
                objects@ == sweep(entries.take(i as int), before).objects,
                to_relocate@ == queue + sweep(entries.take(i as int), before).moved,
            decreases n - i,
        {
            let entry = self.objs[i];
            let h = entry.0;
            let ghost prev = sweep(entries.take(i as int), before);
            proof {
                assert(entries.take(i + 1).drop_last() == entries.take(i as int));
                assert(entries.take(i + 1).last() == entry);
            }
            let mut keep: Option<CellObject> = None;
            let mut free = false;
            match objects.get_mut(h.key()) {
                Some(store_obj) => {
                    match store_obj.state {
                        ObjectState::NewPos => {
                            store_obj.state = ObjectState::Unchanged;
                            keep = Some((h, store_obj.pos));
                        },
                        ObjectState::Relocate => {
                            store_obj.state = ObjectState::Unchanged;
                            to_relocate.push((h, store_obj.pos));
                        },
                        ObjectState::Removed => {
                            free = true;
                        },
                        ObjectState::Unchanged => {
                            keep = Some(entry);
                        },
                    }
                },
                None => {},
            }
            if free {
                objects.remove(h.key());
            }
            match keep {
                Some(e) => {
                    self.objs.set(w, e);
                    w += 1;
                },
                None => {},
            }
            i += 1;
            proof {
                let next = sweep(entries.take(i as int), before);
                assert(next == sweep_step(prev, entry));
                assert(objects@ =~= next.objects);
                assert(self.objs@.take(w as int) =~= next.kept);
                assert(to_relocate@ =~= queue + next.moved);
            }
        }
        self.objs.truncate(w);
        proof {
            assert(entries.take(n as int) == entries);
            assert(self.objs@ =~= sweep(entries, before).kept);
        }
    }
}

} // verus!
