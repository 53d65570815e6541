use crate::cell::ShapeGridCell;
use crate::error::GridError;
use crate::objects::ObjectMap;
use crate::shape::Circle;
use crate::shape::Intersect;
use crate::shape::Point;
use crate::shape::Shape;
use crate::shape::AABB;
use crate::slots::SlotIndex;
use crate::slots::SlotStore;
use crate::slots::MAX_SLOTS;
use crate::storage::in_rect;
use crate::storage::lemma_rect_at;
use crate::storage::lemma_rect_at_injective;
use crate::storage::rect_at;
use crate::storage::rect_len;
use crate::storage::CellIter;
use crate::storage::Envelope;
use crate::storage::SparseStorage;
use crate::storage::Storage;
use std::collections::HashSet;
use vstd::prelude::*;

verus! {

/// This handle is used to modify the associated object or to update its position.
/// It is returned by the _insert_ method of a ShapeGrid.
#[derive(Clone, Copy, PartialEq, Eq, PartialOrd, Ord, Hash, Debug, Structural)]
pub struct ShapeGridHandle {
    id: u64,
}

impl ShapeGridHandle {
    /// The key of the object that the handle names.
    pub closed spec fn view(self) -> u64 {
        self.id
    }

    /// Two handles with one key are one handle.
    pub proof fn lemma_view_injective(a: ShapeGridHandle, b: ShapeGridHandle)
        ensures
            (a@ == b@) == (a == b),
    {
    }

    pub(crate) fn from_key(id: u64) -> (h: ShapeGridHandle)
        ensures
            h@ == id,
    {
        ShapeGridHandle { id }
    }

    /// The key of the object that the handle names.
    pub fn key(&self) -> (id: u64)
        ensures
            id == self@,
    {
        self.id
    }
}

/// An entry of a cell: a handle, and whether the object touches no other
/// cell.
pub type ShapeEntry = (ShapeGridHandle, bool);

/// The actual object stored in the store
#[derive(Clone, Copy)]
pub struct StoreObject<O: Copy, S: Shape> {
    /// User-defined object to be associated with a value
    pub obj: O,
    pub shape: S,
}

/// Whether a list of entries holds an entry of the object under key `k`.
pub open spec fn has_key(es: Seq<ShapeEntry>, k: u64) -> bool {
    exists|i: int| 0 <= i < es.len() && (#[trigger] es[i]).0@ == k
}

/// Whether one of the first `n` entries of a list is an entry of the object
/// under key `k`.
pub open spec fn has_key_before(es: Seq<ShapeEntry>, n: int, k: u64) -> bool {
    exists|i: int| 0 <= i < n && (#[trigger] es[i]).0@ == k
}

proof fn lemma_has_key_before(es: Seq<ShapeEntry>, n: int, k: u64)
    requires
        0 <= n < es.len(),
    ensures
        has_key_before(es, n + 1, k) <==> has_key_before(es, n, k) || es[n].0@ == k,
        has_key_before(es, es.len() as int, k) <==> has_key(es, k),
        !has_key_before(es, 0, k),
{
    if has_key_before(es, n + 1, k) {
        let i = choose|i: int| 0 <= i < n + 1 && (#[trigger] es[i]).0@ == k;
        if i < n {
            assert(0 <= i < n && es[i].0@ == k);
        }
    }
    if has_key_before(es, n, k) {
        let i = choose|i: int| 0 <= i < n && (#[trigger] es[i]).0@ == k;
        assert(0 <= i < n + 1 && es[i].0@ == k);
    }
    if es[n].0@ == k {
        assert(0 <= n < n + 1 && es[n].0@ == k);
    }
}

/// Whether no two entries of a list are entries of one object.
pub open spec fn distinct(es: Seq<ShapeEntry>) -> bool {
    forall|i: int, j: int| 0 <= i < j < es.len() ==> (#[trigger] es[i]).0@ != (#[trigger] es[j]).0@
}

/// The first place of a list at which an entry of the object under key `k`
/// stands.
pub open spec fn first_of(es: Seq<ShapeEntry>, k: u64) -> int {
    choose|i: int|
        0 <= i < es.len() && (#[trigger] es[i]).0@ == k && forall|j: int|
            0 <= j < i ==> (#[trigger] es[j]).0@ != k
}

/// A list without the first entry of the object under key `k`: the last
/// entry takes its place.
pub open spec fn without(es: Seq<ShapeEntry>, k: u64) -> Seq<ShapeEntry> {
    if has_key(es, k) {
        es.update(first_of(es, k), es.last()).drop_last()
    } else {
        es
    }
}

/// A list without entries of one object has none left when one leaves, and
/// keeps the others.
pub proof fn lemma_without(es: Seq<ShapeEntry>, k: u64)
    requires
        distinct(es),
    ensures
        distinct(without(es, k)),
        !has_key(without(es, k), k),
        forall|kk: u64| kk != k ==> (has_key(without(es, k), kk) <==> has_key(es, kk)),
        forall|e: ShapeEntry| #[trigger]
            without(es, k).contains(e) <==> es.contains(e) && e.0@ != k,
{
    let w = without(es, k);
    if has_key(es, k) {
        let a = choose|i: int| 0 <= i < es.len() && (#[trigger] es[i]).0@ == k;
        // the first place exists
        assert(0 <= a < es.len() && es[a].0@ == k && forall|j: int|
            0 <= j < a ==> (#[trigger] es[j]).0@ != k) by {
            assert forall|j: int| 0 <= j < a implies (#[trigger] es[j]).0@ != k by {
                assert(es[j].0@ != es[a].0@);
            }
        }
        let f = first_of(es, k);
        let n = es.len() as int;
        assert forall|i: int| 0 <= i < w.len() implies #[trigger] w[i] == (if i == f {
            es[n - 1]
        } else {
            es[i]
        }) by {}
        assert forall|i: int| 0 <= i < w.len() implies (#[trigger] w[i]).0@ != k by {
            if i == f {
                assert(es[f].0@ != es[n - 1].0@);
            } else if i < f {
                assert(es[i].0@ != es[f].0@);
            } else {
                assert(es[f].0@ != es[i].0@);
            }
        }
        assert forall|i: int, j: int| 0 <= i < j < w.len() implies (#[trigger] w[i]).0@ != (
        #[trigger] w[j]).0@ by {
            if i == f {
                assert(es[j].0@ != es[n - 1].0@);
            } else if j == f {
                assert(es[i].0@ != es[n - 1].0@);
            } else {
                assert(es[i].0@ != es[j].0@);
            }
        }
        assert forall|e: ShapeEntry| #[trigger] w.contains(e) <==> es.contains(e) && e.0@ != k by {
            if w.contains(e) {
                let i = choose|i: int| 0 <= i < w.len() && w[i] == e;
                assert(w[i].0@ != k);
                if i == f {
                    assert(es[n - 1] == e);
                } else {
                    assert(es[i] == e);
                }
            }
            if es.contains(e) && e.0@ != k {
                let i = choose|i: int| 0 <= i < es.len() && es[i] == e;
                if i == n - 1 {
                    assert(w[f] == e);
                } else {
                    assert(w[i] == e);
                }
            }
        }
        assert forall|kk: u64| kk != k implies (has_key(w, kk) <==> has_key(es, kk)) by {
            if has_key(w, kk) {
                let i = choose|i: int| 0 <= i < w.len() && (#[trigger] w[i]).0@ == kk;
                assert(w.contains(w[i]));
                let j = choose|j: int| 0 <= j < es.len() && es[j] == w[i];
                assert(es[j].0@ == kk);
            }
            if has_key(es, kk) {
                let i = choose|i: int| 0 <= i < es.len() && (#[trigger] es[i]).0@ == kk;
                assert(es.contains(es[i]));
                assert(w.contains(es[i]));
                let j = choose|j: int| 0 <= j < w.len() && w[j] == es[i];
                assert(w[j].0@ == kk);
            }
        }
    } else {
        assert forall|e: ShapeEntry| #[trigger] w.contains(e) <==> es.contains(e) && e.0@ != k by {
            if es.contains(e) {
                let i = choose|i: int| 0 <= i < es.len() && es[i] == e;
                assert(es[i].0@ != k);
            }
        }
    }
}

/// The cells that a shape touches: the cells between the cell of the lower
/// left corner and the cell of the upper right corner of its box whose box
/// the shape meets.
pub open spec fn cells_of<S: Shape>(env: Envelope, s: S) -> Set<(int, int)> {
    Set::new(
        |c: (int, int)|
            in_rect(env.cell_of(s.spec_bbox().ll), env.cell_of(s.spec_bbox().ur), c)
                && s.spec_intersects(env.cell_box(c)),
    )
}

/// Whether the box of a shape lies in one cell.
pub open spec fn single<S: Shape>(env: Envelope, s: S) -> bool {
    env.cell_of(s.spec_bbox().ll) == env.cell_of(s.spec_bbox().ur)
}

/// The cells that a query with a shape looks at: as the cells that the
/// shape touches, but between the nearest cells that the storage can hold.
pub open spec fn query_cells<S: Shape>(env: Envelope, s: S) -> Set<(int, int)> {
    Set::new(
        |c: (int, int)|
            !env.is_empty() && in_rect(
                env.nearest(env.cell_of(s.spec_bbox().ll)),
                env.nearest(env.cell_of(s.spec_bbox().ur)),
                c,
            ) && s.spec_intersects(env.cell_box(c)),
    )
}

/// A set of keys that remembers which objects a query has given already.
pub trait HandleSet {
    spec fn keys(&self) -> Set<u64>;

    /// Puts a key into the set and says whether it was new.
    fn take(&mut self, k: u64) -> (fresh: bool)
        ensures
            final(self).keys() == old(self).keys().insert(k),
            fresh == !old(self).keys().contains(k),
    ;
}

/// A set of keys in a hash set of the standard library.
pub struct Seen {
    set: HashSet<u64>,
}

impl Seen {
    pub fn new() -> (s: Seen)
        ensures
            s.keys() == Set::<u64>::empty(),
    {
        Seen { set: HashSet::with_capacity(5) }
    }
}

impl HandleSet for Seen {
    closed spec fn keys(&self) -> Set<u64> {
        self.set@
    }

    fn take(&mut self, k: u64) -> (fresh: bool) {
        self.set.insert(k)
    }
}

/// Whether a shape meets another shape.
pub open spec fn meets<T, QS: Intersect<T>>(qs: QS, s: T) -> bool {
    qs.spec_intersects(s)
}

fn shapes_meet<T, QS: Intersect<T>>(qs: &QS, s: T) -> (r: bool)
    ensures
        r == meets(*qs, s),
{
    qs.intersects(s)
}

/// Whether a list of handles holds the handle of the object under key `k`.
pub open spec fn gives(hs: Seq<ShapeGridHandle>, k: u64) -> bool {
    exists|i: int| 0 <= i < hs.len() && (#[trigger] hs[i])@ == k
}

/// Whether no two handles of a list are handles of one object.
pub open spec fn unique(hs: Seq<ShapeGridHandle>) -> bool {
    forall|i: int, j: int| 0 <= i < j < hs.len() ==> (#[trigger] hs[i])@ != (#[trigger] hs[j])@
}

/// ShapeGrid is a generic shape-based spatial partitioning structure that uses a generic storage of cells which acts as a
/// grid instead of a tree.
///
/// ## Fast queries
/// In theory, ShapeGrid should be faster than a quadtree/r-tree because it has no log costs
/// (calculating the cells around a point is trivial).
/// However, it only works if the cell size is adapted to the problem, much like how a tree has to
/// be balanced to be efficient.
///
/// ## Dynamicity
/// ShapeGrid's allows eager removals and position updates, however for big shapes (spanning many cells)
/// this can be expensive, so beware.
///
/// Use this grid for mostly static objects with the occasional removal/position update if needed.
///
/// A slot map gives the objects their keys; `SL` says which one.
pub struct ShapeGrid<
    O: Copy,
    S: Shape,
    ST: Storage<ShapeGridCell> = SparseStorage<ShapeGridCell>,
    SL: SlotStore = SlotIndex,
> {
    storage: ST,
    objects: ObjectMap<StoreObject<O, S>, SL>,
}

impl<O: Copy, S: Shape, ST: Storage<ShapeGridCell>, SL: SlotStore> ShapeGrid<O, S, ST, SL> {
    /// The objects, by the keys of their handles.
    pub closed spec fn records(&self) -> Map<u64, StoreObject<O, S>> {
        self.objects@
    }

    /// The cells that exist, by their coordinates.
    pub closed spec fn cell_map(&self) -> Map<(int, int), ShapeGridCell> {
        self.storage.cell_map()
    }

    pub closed spec fn envelope(&self) -> Envelope {
        self.storage.envelope()
    }

    /// The entries of the cell at `c`; none where no cell exists.
    pub open spec fn entries_at(&self, c: (int, int)) -> Seq<ShapeEntry> {
        if self.cell_map().contains_key(c) {
            self.cell_map()[c].objs@
        } else {
            Seq::empty()
        }
    }

    /// Whether the box of a shape is valid and the storage can hold the
    /// cells of its corners.
    pub open spec fn placed(&self, s: S) -> bool {
        &&& s.spec_bbox().valid()
        &&& self.envelope().covers(s.spec_bbox().ll)
        &&& self.envelope().covers(s.spec_bbox().ur)
    }

    /// How the lists hang together with the objects, apart from the object
    /// under key `skip`: an entry in a cell is the entry of an object that
    /// touches the cell, and its flag says whether the box of the object
    /// lies in one cell; no list holds two entries of one object; every
    /// object has an entry in every cell that it touches; and the storage
    /// can hold the cells of every object.
    pub open spec fn linked(&self, skip: Option<u64>) -> bool {
        &&& forall|c: (int, int), i: int|
            0 <= i < self.entries_at(c).len() ==> {
                let e = #[trigger] self.entries_at(c)[i];
                &&& self.records().contains_key(e.0@)
                &&& Some(e.0@) != skip
                &&& cells_of(self.envelope(), self.records()[e.0@].shape).contains(c)
                &&& e.1 == single(self.envelope(), self.records()[e.0@].shape)
            }
        &&& forall|c: (int, int)| distinct(#[trigger] self.entries_at(c))
        &&& forall|k: u64, c: (int, int)|
            self.records().contains_key(k) && Some(k) != skip && #[trigger] cells_of(
                self.envelope(),
                self.records()[k].shape,
            ).contains(c) ==> has_key(self.entries_at(c), k)
        &&& forall|k: u64| #[trigger]
            self.records().contains_key(k) && Some(k) != skip ==> self.placed(
                self.records()[k].shape,
            )
    }

    pub closed spec fn wf(&self) -> bool {
        &&& self.storage.wf()
        &&& self.objects.wf()
        &&& self.linked(None)
    }

    /// What holds of every grid.
    pub proof fn lemma_wf(&self)
        requires
            self.wf(),
        ensures
            self.linked(None),
            self.envelope().wf(),
            self.envelope().bounded == !ST::is_sparse(),
            self.records().dom().finite(),
            forall|c: (int, int)| #[trigger]
                self.cell_map().contains_key(c) ==> self.envelope().holds(c),
    {
        self.storage.lemma_wf();
        self.objects.lemma_order();
    }

    /// Creates an empty grid.
    /// The cell size should be about the same magnitude as your queries size.
    pub fn new(cell_size: i32) -> (r: Result<Self, GridError>)
        ensures
            cell_size <= 0 ==> r == Err::<Self, GridError>(GridError::CellSizeInvalid),
            cell_size > 0 ==> r is Ok,
            r matches Ok(g) ==> g.wf() && g.envelope().cell_size == cell_size && g.records()
                == Map::<u64, StoreObject<O, S>>::empty() && g.cell_map() == Map::<
                (int, int),
                ShapeGridCell,
            >::empty(),
    {
        match ST::new(cell_size) {
            Ok(st) => Ok(Self::with_storage(st)),
            Err(e) => Err(e),
        }
    }

    /// Creates an empty grid on a storage whose cells hold nothing.
    pub fn with_storage(st: ST) -> (g: Self)
        requires
            st.wf(),
            forall|c: (int, int)| #[trigger]
                st.cell_map().contains_key(c) ==> st.cell_map()[c].objs@.len() == 0,
        ensures
            g.wf(),
            g.envelope() == st.envelope(),
            g.cell_map() == st.cell_map(),
            g.records() == Map::<u64, StoreObject<O, S>>::empty(),
    {
        ShapeGrid { storage: st, objects: ObjectMap::new() }
    }

    /// Returns the number of objects currently available
    pub fn len(&self) -> (n: usize)
        requires
            self.wf(),
        ensures
            n == self.records().len(),
    {
        self.objects.len()
    }

    /// Checks if the grid contains objects or not
    pub fn is_empty(&self) -> (e: bool)
        requires
            self.wf(),
        ensures
            e == (self.records().len() == 0),
    {
        self.objects.is_empty()
    }

    /// The underlying storage
    pub fn storage(&self) -> (st: &ST)
        requires
            self.wf(),
        ensures
            st.wf(),
            st.cell_map() == self.cell_map(),
            st.envelope() == self.envelope(),
    {
        &self.storage
    }

    /// Returns a reference to the associated object and its position, using the handle.
    pub fn get(&self, id: ShapeGridHandle) -> (r: Option<(&S, &O)>)
        requires
            self.wf(),
        ensures
            match r {
                Some((shape, obj)) => self.records().contains_key(id@) && *shape
                    == self.records()[id@].shape && *obj == self.records()[id@].obj,
                None => !self.records().contains_key(id@),
            },
    {
        match self.objects.get(id.key()) {
            Some(x) => Some((&x.shape, &x.obj)),
            None => None,
        }
    }

    /// Returns a mutable reference to the associated object and its position, using the handle.
    ///
    /// Whatever is written through the reference, the object keeps its
    /// shape, and the lists stay as they are.
    pub fn get_mut(&mut self, id: ShapeGridHandle) -> (r: Option<(&S, &mut O)>)
        requires
            old(self).wf(),
        ensures
            final(self).wf(),
            final(self).envelope() == old(self).envelope(),
            final(self).cell_map() == old(self).cell_map(),
            match r {
                Some((shape, obj)) => old(self).records().contains_key(id@) && *shape == old(self).records()[id@].shape && *obj == old(self).records()[id@].obj && final(self).records() == old(self).records().insert(
                    id@,
                    StoreObject { obj: *final(obj), shape: *shape },
                ),
                None => !old(self).records().contains_key(id@) && final(self).records() == old(self).records(),
            },
    {
        proof {
            assert forall|g: Self|
                g.storage == self.storage && g.objects.wf() && (forall|k: u64| #[trigger]
                    g.objects@.contains_key(k) <==> self.objects@.contains_key(k))
                    && (forall|k: u64| #[trigger]
                    g.objects@.contains_key(k) ==> g.objects@[k].shape
                        == self.objects@[k].shape) implies #[trigger] g.wf() by {
                let env = g.envelope();
                assert forall|c: (int, int)| #[trigger] g.entries_at(c) == self.entries_at(c) by {}
                assert forall|c: (int, int), i: int| 0 <= i < g.entries_at(c).len() implies {
                    let e = #[trigger] g.entries_at(c)[i];
                    &&& g.records().contains_key(e.0@)
                    &&& cells_of(env, g.records()[e.0@].shape).contains(c)
                    &&& e.1 == single(env, g.records()[e.0@].shape)
                } by {
                    let e = self.entries_at(c)[i];
                    assert(self.records().contains_key(e.0@));
                }
                assert forall|c: (int, int)| distinct(#[trigger] g.entries_at(c)) by {
                    assert(distinct(self.entries_at(c)));
                }
                assert forall|k: u64, c: (int, int)|
                    g.records().contains_key(k) && #[trigger] cells_of(
                        env,
                        g.records()[k].shape,
                    ).contains(c) implies has_key(g.entries_at(c), k) by {
                    assert(self.records().contains_key(k));
                    assert(cells_of(env, self.records()[k].shape).contains(c));
                    assert(has_key(self.entries_at(c), k));
                }
                assert forall|k: u64| #[trigger] g.records().contains_key(k) implies g.placed(
                    g.records()[k].shape,
                ) by {
                    assert(self.records().contains_key(k));
                    assert(self.placed(self.records()[k].shape));
                }
            }
        }
        match self.objects.get_mut(id.key()) {
            Some(x) => Some((&x.shape, &mut x.obj)),
            None => None,
        }
    }

    /// The range of cells between the corners of a box, as the storage
    /// walks it.
    fn range_of(&self, b: AABB) -> (it: ST::IdxIter)
        requires
            self.storage.wf(),
        ensures
            it.wf(),
            ({
                let env = self.envelope();
                let c1 = env.nearest(env.cell_of(b.ll));
                let c2 = env.nearest(env.cell_of(b.ur));
                if env.is_empty() {
                    it.remaining().len() == 0
                } else {
                    &&& it.remaining().len() == rect_len(c1, c2)
                    &&& forall|j: int|
                        0 <= j < it.remaining().len() ==> ST::valid(
                            env,
                            #[trigger] it.remaining()[j],
                        ) && ST::coord(env, it.remaining()[j]) == rect_at(c1, c2, j)
                }
            }),
    {
        let ll_id = self.storage.cell_id(b.ll);
        let ur_id = self.storage.cell_id(b.ur);
        proof {
            let env = self.storage.envelope();
            self.storage.lemma_wf();
            crate::math::lemma_cell_coord_range(b.ll.x as int, env.cell_size);
            crate::math::lemma_cell_coord_range(b.ll.y as int, env.cell_size);
            crate::math::lemma_cell_coord_range(b.ur.x as int, env.cell_size);
            crate::math::lemma_cell_coord_range(b.ur.y as int, env.cell_size);
            if !env.is_empty() {
                ST::lemma_index(env, env.nearest(env.cell_of(b.ll)));
                ST::lemma_index(env, env.nearest(env.cell_of(b.ur)));
            }
        }
        self.storage.cell_range(ll_id, ur_id)
    }

    /// Gives the object under the handle an entry in every cell that the
    /// shape touches.
    fn add_entries(&mut self, handle: ShapeGridHandle, shape: S)
        requires
            old(self).storage.wf(),
            old(self).placed(shape),
        ensures
            final(self).storage.wf(),
            final(self).envelope() == old(self).envelope(),
            final(self).objects == old(self).objects,
            forall|c: (int, int)|
                #[trigger] final(self).entries_at(c) == (if cells_of(
                    old(self).envelope(),
                    shape,
                ).contains(c) {
                    old(self).entries_at(c).push((handle, single(old(self).envelope(), shape)))
                } else {
                    old(self).entries_at(c)
                }),
    {
        let bbox = shape.bbox();
        let ll_id = self.storage.cell_id(bbox.ll);
        let ur_id = self.storage.cell_id(bbox.ur);
        let sing_cell = ST::idx_eq(ll_id, ur_id);
        let ghost env = self.storage.envelope();
        let ghost c1 = env.cell_of(bbox.ll);
        let ghost c2 = env.cell_of(bbox.ur);
        proof {
            self.storage.lemma_wf();
            ST::lemma_index(env, c1);
            ST::lemma_index(env, c2);
        }
        let mut it = self.range_of(bbox);
        let ghost total = it.remaining();
        let ghost mut k: int = 0;
        proof {
            lemma_rect_at(c1, c2);
        }
        loop
            invariant
                self.storage.wf(),
                self.objects == old(self).objects,
                env == self.storage.envelope(),
                env == old(self).envelope(),
                env.wf(),
                env.bounded == !ST::is_sparse(),
                bbox == shape.spec_bbox(),
                c1 == env.cell_of(bbox.ll),
                c2 == env.cell_of(bbox.ur),
                sing_cell == single(env, shape),
                it.wf(),
                0 <= k <= total.len(),
                it.remaining() == total.skip(k),
                total.len() == rect_len(c1, c2),
                forall|j: int|
                    0 <= j < total.len() ==> ST::valid(env, #[trigger] total[j]) && ST::coord(
                        env,
                        total[j],
                    ) == rect_at(c1, c2, j),
                forall|c: (int, int)|
                    #[trigger] self.entries_at(c) == (if cells_of(env, shape).contains(c) && (
                    exists|j: int| 0 <= j < k && #[trigger] rect_at(c1, c2, j) == c) {
                        old(self).entries_at(c).push((handle, sing_cell))
                    } else {
                        old(self).entries_at(c)
                    }),
            ensures
                k == total.len(),
            decreases total.len() - k,
        {
            let ghost prev = *self;
            match it.next() {
                Some(id) => {
                    proof {
                        assert(id == total[k]);
                    }
                    let ghost c = rect_at(c1, c2, k);
                    proof {
                        lemma_rect_at(c1, c2);
                        assert(in_rect(c1, c2, c));
                        assert(ST::coord(env, id) == c);
                    }
                    if shape.intersects(self.storage.cell_aabb(id)) {
                        let cell = self.storage.cell_mut_unchecked(id);
                        cell.objs.push((handle, sing_cell));
                    }
                    proof {
                        assert forall|cc: (int, int)|
                            #[trigger] self.entries_at(cc) == (if cells_of(env, shape).contains(cc)
                                && (exists|j: int|
                                0 <= j < k + 1 && #[trigger] rect_at(c1, c2, j) == cc) {
                                old(self).entries_at(cc).push((handle, sing_cell))
                            } else {
                                old(self).entries_at(cc)
                            }) by {
                            if cc == c {
                                assert(rect_at(c1, c2, k) == cc);
                                if exists|j: int| 0 <= j < k && #[trigger] rect_at(c1, c2, j) == cc {
                                    let j = choose|j: int|
                                        0 <= j < k && #[trigger] rect_at(c1, c2, j) == cc;
                                    lemma_rect_at_injective(c1, c2, j, k);
                                }
                                assert(self.entries_at(cc) =~= (if cells_of(env, shape).contains(
                                    cc,
                                ) {
                                    prev.entries_at(cc).push((handle, sing_cell))
                                } else {
                                    prev.entries_at(cc)
                                }));
                            } else {
                                assert(self.entries_at(cc) == prev.entries_at(cc));
                                if exists|j: int|
                                    0 <= j < k + 1 && #[trigger] rect_at(c1, c2, j) == cc {
                                    let j = choose|j: int|
                                        0 <= j < k + 1 && #[trigger] rect_at(c1, c2, j) == cc;
                                    assert(0 <= j < k && rect_at(c1, c2, j) == cc);
                                }
                            }
                        }
                        k = k + 1;
                    }
                },
                None => {
                    break ;
                },
            }
        }
        proof {
            assert forall|c: (int, int)|
                #[trigger] self.entries_at(c) == (if cells_of(env, shape).contains(c) {
                    old(self).entries_at(c).push((handle, sing_cell))
                } else {
                    old(self).entries_at(c)
                }) by {
                if cells_of(env, shape).contains(c) {
                    let j = (c.1 - c1.1) * (c2.0 - c1.0 + 1) + (c.0 - c1.0);
                    assert(in_rect(c1, c2, c));
                    assert(0 <= j < k && rect_at(c1, c2, j) == c);
                }
            }
        }
    }

    /// Takes the entry of the object under the handle out of every cell
    /// that the shape touches.
    fn drop_entries(&mut self, handle: ShapeGridHandle, shape: S)
        requires
            old(self).storage.wf(),
            old(self).placed(shape),
        ensures
            final(self).storage.wf(),
            final(self).envelope() == old(self).envelope(),
            final(self).objects == old(self).objects,
            forall|c: (int, int)|
                #[trigger] final(self).entries_at(c) == (if cells_of(
                    old(self).envelope(),
                    shape,
                ).contains(c) {
                    without(old(self).entries_at(c), handle@)
                } else {
                    old(self).entries_at(c)
                }),
    {
        let bbox = shape.bbox();
        let ghost env = self.storage.envelope();
        let ghost c1 = env.cell_of(bbox.ll);
        let ghost c2 = env.cell_of(bbox.ur);
        proof {
            self.storage.lemma_wf();
        }
        let mut it = self.range_of(bbox);
        let ghost total = it.remaining();
        let ghost mut k: int = 0;
        loop
            invariant
                self.storage.wf(),
                self.objects == old(self).objects,
                env == self.storage.envelope(),
                env == old(self).envelope(),
                env.wf(),
                env.bounded == !ST::is_sparse(),
                bbox == shape.spec_bbox(),
                c1 == env.cell_of(bbox.ll),
                c2 == env.cell_of(bbox.ur),
                it.wf(),
                0 <= k <= total.len(),
                it.remaining() == total.skip(k),
                total.len() == rect_len(c1, c2),
                forall|j: int|
                    0 <= j < total.len() ==> ST::valid(env, #[trigger] total[j]) && ST::coord(
                        env,
                        total[j],
                    ) == rect_at(c1, c2, j),
                forall|c: (int, int)|
                    #[trigger] self.entries_at(c) == (if cells_of(env, shape).contains(c) && (
                    exists|j: int| 0 <= j < k && #[trigger] rect_at(c1, c2, j) == c) {
                        without(old(self).entries_at(c), handle@)
                    } else {
                        old(self).entries_at(c)
                    }),
            ensures
                k == total.len(),
            decreases total.len() - k,
        {
            let ghost prev = *self;
            match it.next() {
                Some(id) => {
                    proof {
                        assert(id == total[k]);
                    }
                    let ghost c = rect_at(c1, c2, k);
                    proof {
                        lemma_rect_at(c1, c2);
                        assert(in_rect(c1, c2, c));
                        assert(ST::coord(env, id) == c);
                    }
                    if shape.intersects(self.storage.cell_aabb(id)) {
                        let cell = self.storage.cell_mut_unchecked(id);
                        let ghost es = cell.objs@;
                        let n = cell.objs.len();
                        let mut p: usize = 0;
                        let mut found = false;
                        while p < n && !found
                            invariant
                                n == es.len(),
                                cell.objs@ == es,
                                p <= n,
                                found ==> p < n && es[p as int].0@ == handle@,
                                forall|j: int| 0 <= j < p ==> (#[trigger] es[j]).0@ != handle@,
                            decreases n - p + (if found {
                                0int
                            } else {
                                1int
                            }),
                        {
                            if cell.objs[p].0.key() == handle.key() {
                                found = true;
                            } else {
                                p += 1;
                            }
                        }
                        if found {
                            cell.objs.swap_remove(p);
                            proof {
                                assert(has_key(es, handle@));
                                let f = first_of(es, handle@);
                                if f < p {
                                    assert(es[f].0@ != handle@);
                                }
                                assert(f == p);
                                assert(cell.objs@ =~= without(es, handle@));
                            }
                        } else {
                            proof {
                                if has_key(es, handle@) {
                                    let i = choose|i: int|
                                        0 <= i < es.len() && (#[trigger] es[i]).0@ == handle@;
                                    assert(es[i].0@ != handle@);
                                }
                                assert(cell.objs@ == without(es, handle@));
                            }
                        }
                    }
                    proof {
                        assert forall|cc: (int, int)|
                            #[trigger] self.entries_at(cc) == (if cells_of(env, shape).contains(cc)
                                && (exists|j: int|
                                0 <= j < k + 1 && #[trigger] rect_at(c1, c2, j) == cc) {
                                without(old(self).entries_at(cc), handle@)
                            } else {
                                old(self).entries_at(cc)
                            }) by {
                            if cc == c {
                                assert(rect_at(c1, c2, k) == cc);
                                if exists|j: int| 0 <= j < k && #[trigger] rect_at(c1, c2, j) == cc {
                                    let j = choose|j: int|
                                        0 <= j < k && #[trigger] rect_at(c1, c2, j) == cc;
                                    lemma_rect_at_injective(c1, c2, j, k);
                                }
                                assert(prev.entries_at(cc) == old(self).entries_at(cc));
                                assert(self.entries_at(cc) =~= (if cells_of(env, shape).contains(
                                    cc,
                                ) {
                                    without(prev.entries_at(cc), handle@)
                                } else {
                                    prev.entries_at(cc)
                                }));
                            } else {
                                assert(self.entries_at(cc) == prev.entries_at(cc));
                                if exists|j: int|
                                    0 <= j < k + 1 && #[trigger] rect_at(c1, c2, j) == cc {
                                    let j = choose|j: int|
                                        0 <= j < k + 1 && #[trigger] rect_at(c1, c2, j) == cc;
                                    assert(0 <= j < k && rect_at(c1, c2, j) == cc);
                                }
                            }
                        }
                        k = k + 1;
                    }
                },
                None => {
                    break ;
                },
            }
        }
        proof {
            lemma_rect_at(c1, c2);
            assert forall|c: (int, int)|
                #[trigger] self.entries_at(c) == (if cells_of(env, shape).contains(c) {
                    without(old(self).entries_at(c), handle@)
                } else {
                    old(self).entries_at(c)
                }) by {
                if cells_of(env, shape).contains(c) {
                    let j = (c.1 - c1.1) * (c2.0 - c1.0 + 1) + (c.0 - c1.0);
                    assert(in_rect(c1, c2, c));
                    assert(0 <= j < k && rect_at(c1, c2, j) == c);
                }
            }
        }
    }

    /// Whether the grid holds the objects of `other`.
    pub open spec fn same_as(&self, other: &Self) -> bool {
        &&& self.records() == other.records()
        &&& self.envelope().cell_size == other.envelope().cell_size
    }

    /// The envelope of a storage that had envelope `env` and has made room
    /// for the cells of both corners of a box.
    pub open spec fn grown(env: Envelope, b: AABB) -> Envelope {
        ST::grown(ST::grown(env, env.cell_of(b.ll)), env.cell_of(b.ur))
    }

    /// Whether the storage can make room for the cells of both corners of
    /// a box.
    pub open spec fn can_cover(&self, b: AABB) -> bool {
        let env = self.envelope();
        ST::room(env, env.cell_of(b.ll)) && ST::room(
            ST::grown(env, env.cell_of(b.ll)),
            env.cell_of(b.ur),
        )
    }

    /// Makes room for the cells of both corners of a box.
    fn make_room(&mut self, b: AABB) -> (r: Result<(), GridError>)
        requires
            old(self).wf(),
        ensures
            final(self).wf(),
            final(self).same_as(old(self)),
            match r {
                Ok(_) => old(self).can_cover(b) && final(self).envelope().covers(b.ll) && final(self).envelope().covers(b.ur) && final(self).envelope() == Self::grown(
                    old(self).envelope(),
                    b,
                ),
                Err(e) => e == GridError::PositionInvalid && !old(self).can_cover(b),
            },
    {
        proof {
            self.storage.lemma_wf();
        }
        let ghost first = *self;
        match self.storage.cell_mut(b.ll) {
            Ok(_) => {},
            Err(e) => {
                proof {
                    self.lemma_grown(old(self));
                }
                return Err(e);
            },
        }
        let ghost mid = *self;
        proof {
            self.storage.lemma_wf();
            self.lemma_grown(old(self));
        }
        match self.storage.cell_mut(b.ur) {
            Ok(_) => {
                proof {
                    self.storage.lemma_wf();
                    self.lemma_grown(&mid);
                }
                Ok(())
            },
            Err(e) => {
                proof {
                    self.lemma_grown(&mid);
                }
                Err(e)
            },
        }
    }

    /// After the storage has made room, the grid is linked as it was.
    proof fn lemma_grown(&self, before: &Self)
        requires
            before.storage.wf(),
            self.storage.wf(),
            before.linked(None),
            self.objects == before.objects,
            self.storage.envelope().cell_size == before.storage.envelope().cell_size,
            self.storage.envelope().bounded == before.storage.envelope().bounded,
            forall|c: (int, int)| #[trigger]
                before.storage.envelope().holds(c) ==> self.storage.envelope().holds(c),
            forall|c: (int, int)| #[trigger]
                before.storage.cell_map().contains_key(c) ==> self.storage.cell_map().contains_key(
                    c,
                ) && self.storage.cell_map()[c] == before.storage.cell_map()[c],
            forall|c: (int, int)| #[trigger]
                self.storage.cell_map().contains_key(c) && !before.storage.cell_map().contains_key(
                    c,
                ) ==> call_ensures(ShapeGridCell::default, (), self.storage.cell_map()[c]),
        ensures
            self.linked(None),
            forall|c: (int, int)| #[trigger] self.entries_at(c) == before.entries_at(c),
    {
        assert forall|c: (int, int)| #[trigger] self.entries_at(c) == before.entries_at(c) by {
            if self.storage.cell_map().contains_key(c) && !before.storage.cell_map().contains_key(
                c,
            ) {
                assert(self.entries_at(c) =~= before.entries_at(c));
            }
        }
        let env = self.envelope();
        let old_env = before.envelope();
        assert forall|s: S| cells_of(env, s) == cells_of(old_env, s) by {
            assert forall|c: (int, int)| env.cell_box(c) == old_env.cell_box(c) by {}
            assert(cells_of(env, s) =~= cells_of(old_env, s));
        }
        assert forall|c: (int, int), i: int| 0 <= i < self.entries_at(c).len() implies {
            let e = #[trigger] self.entries_at(c)[i];
            &&& self.records().contains_key(e.0@)
            &&& cells_of(env, self.records()[e.0@].shape).contains(c)
            &&& e.1 == single(env, self.records()[e.0@].shape)
        } by {
            let e = before.entries_at(c)[i];
            assert(before.records().contains_key(e.0@));
        }
        assert forall|c: (int, int)| distinct(#[trigger] self.entries_at(c)) by {
            assert(distinct(before.entries_at(c)));
        }
        assert forall|k: u64, c: (int, int)|
            self.records().contains_key(k) && #[trigger] cells_of(
                env,
                self.records()[k].shape,
            ).contains(c) implies has_key(self.entries_at(c), k) by {
            assert(cells_of(old_env, before.records()[k].shape).contains(c));
            assert(has_key(before.entries_at(c), k));
        }
        assert forall|k: u64| #[trigger] self.records().contains_key(k) implies self.placed(
            self.records()[k].shape,
        ) by {
            assert(before.placed(before.records()[k].shape));
        }
    }

    /// Inserts a new object with a position and an associated object
    /// Returns the unique and stable handle to be used with get_obj
    ///
    /// The object gets an entry in every cell that its shape touches.
    /// Refuses a shape whose box is not valid, and one for whose cells the
    /// storage cannot make room.
    pub fn insert(&mut self, shape: S, obj: O) -> (r: Result<ShapeGridHandle, GridError>)
        requires
            old(self).wf(),
            old(self).records().len() < MAX_SLOTS,
        ensures
            final(self).wf(),
            final(self).envelope().cell_size == old(self).envelope().cell_size,
            !shape.spec_bbox().valid() ==> r == Err::<ShapeGridHandle, GridError>(
                GridError::AABBInvalid,
            ),
            shape.spec_bbox().valid() && !old(self).can_cover(shape.spec_bbox()) ==> r == Err::<
                ShapeGridHandle,
                GridError,
            >(GridError::PositionInvalid),
            shape.spec_bbox().valid() && old(self).can_cover(shape.spec_bbox()) ==> r is Ok,
            match r {
                Ok(h) => !old(self).records().contains_key(h@) && final(self).records() == old(self).records().insert(h@, StoreObject { obj, shape }) && final(self).records().len()
                    == old(self).records().len() + 1 && final(self).envelope() == Self::grown(
                    old(self).envelope(),
                    shape.spec_bbox(),
                ),
                Err(_) => final(self).records() == old(self).records(),
            },
    {
        let bbox = shape.bbox();
        if !bbox.is_valid() {
            return Err(GridError::AABBInvalid);
        }
        match self.make_room(bbox) {
            Ok(_) => {},
            Err(e) => {
                return Err(e);
            },
        }
        let ghost mid = *self;
        proof {
            self.objects.lemma_order();
        }
        let k = self.objects.insert(StoreObject { obj, shape });
        let h = ShapeGridHandle::from_key(k);
        self.add_entries(h, shape);
        proof {
            self.objects.lemma_order();
            let env = self.envelope();
            assert forall|c: (int, int), i: int| 0 <= i < self.entries_at(c).len() implies {
                let e = #[trigger] self.entries_at(c)[i];
                &&& self.records().contains_key(e.0@)
                &&& cells_of(env, self.records()[e.0@].shape).contains(c)
                &&& e.1 == single(env, self.records()[e.0@].shape)
            } by {
                if i < mid.entries_at(c).len() {
                    let e = mid.entries_at(c)[i];
                    assert(mid.records().contains_key(e.0@));
                }
            }
            assert forall|c: (int, int)| distinct(#[trigger] self.entries_at(c)) by {
                assert(distinct(mid.entries_at(c)));
                assert forall|i: int, j: int|
                    0 <= i < j < self.entries_at(c).len() implies (#[trigger] self.entries_at(
                    c,
                )[i]).0@ != (#[trigger] self.entries_at(c)[j]).0@ by {
                    let e = mid.entries_at(c)[i];
                    assert(mid.records().contains_key(e.0@));
                    if j < mid.entries_at(c).len() {
                        assert(mid.entries_at(c)[i].0@ != mid.entries_at(c)[j].0@);
                    }
                }
            }
            assert forall|kk: u64, c: (int, int)|
                self.records().contains_key(kk) && #[trigger] cells_of(
                    env,
                    self.records()[kk].shape,
                ).contains(c) implies has_key(self.entries_at(c), kk) by {
                if kk == k {
                    let es = self.entries_at(c);
                    assert(es[es.len() - 1].0@ == k);
                } else {
                    assert(mid.records().contains_key(kk));
                    assert(cells_of(env, mid.records()[kk].shape).contains(c));
                    let es = mid.entries_at(c);
                    assert(has_key(es, kk));
                    let i = choose|i: int| 0 <= i < es.len() && (#[trigger] es[i]).0@ == kk;
                    assert(self.entries_at(c)[i] == es[i]);
                }
            }
            assert forall|kk: u64| #[trigger] self.records().contains_key(kk) implies self.placed(
                self.records()[kk].shape,
            ) by {
                if kk != k {
                    assert(mid.records().contains_key(kk));
                    assert(mid.placed(mid.records()[kk].shape));
                }
            }
            assert(self.linked(None));
        }
        Ok(h)
    }

    /// Removes an object from the grid, with its entries, and returns what
    /// was associated with it. Refuses a handle of no object.
    pub fn remove(&mut self, handle: ShapeGridHandle) -> (r: Result<O, GridError>)
        requires
            old(self).wf(),
        ensures
            final(self).wf(),
            final(self).envelope() == old(self).envelope(),
            final(self).records() == old(self).records().remove(handle@),
            r is Ok ==> final(self).records().len() == old(self).records().len() - 1,
            match r {
                Ok(obj) => old(self).records().contains_key(handle@) && obj == old(self).records()[handle@].obj,
                Err(e) => e == GridError::HandleInvalid && !old(self).records().contains_key(
                    handle@,
                ),
            },
    {
        let ghost env = self.envelope();
        proof {
            self.objects.lemma_order();
        }
        let st = match self.objects.remove(handle.key()) {
            Some(st) => st,
            None => {
                proof {
                    assert(self.records() =~= old(self).records());
                    self.lemma_same(old(self));
                }
                return Err(GridError::HandleInvalid);
            },
        };
        let ghost k = handle@;
        proof {
            assert(old(self).records().contains_key(k));
            assert(old(self).placed(old(self).records()[k].shape));
        }
        self.drop_entries(handle, st.shape);
        proof {
            let touched = cells_of(env, st.shape);
            assert forall|c: (int, int)| distinct(#[trigger] self.entries_at(c)) && !has_key(
                self.entries_at(c),
                k,
            ) && (forall|kk: u64|
                kk != k ==> (has_key(self.entries_at(c), kk) <==> has_key(
                    old(self).entries_at(c),
                    kk,
                ))) && (forall|e: ShapeEntry| #[trigger]
                self.entries_at(c).contains(e) ==> old(self).entries_at(c).contains(e)) by {
                assert(distinct(old(self).entries_at(c)));
                lemma_without(old(self).entries_at(c), k);
                if !touched.contains(c) {
                    if has_key(old(self).entries_at(c), k) {
                        let i = choose|i: int|
                            0 <= i < old(self).entries_at(c).len() && (#[trigger] old(self).entries_at(c)[i]).0@ == k;
                        assert(cells_of(env, old(self).records()[k].shape).contains(c));
                    }
                }
            }
            assert forall|c: (int, int), i: int| 0 <= i < self.entries_at(c).len() implies {
                let e = #[trigger] self.entries_at(c)[i];
                &&& self.records().contains_key(e.0@)
                &&& cells_of(env, self.records()[e.0@].shape).contains(c)
                &&& e.1 == single(env, self.records()[e.0@].shape)
            } by {
                let e = self.entries_at(c)[i];
                assert(self.entries_at(c).contains(e));
                assert(old(self).entries_at(c).contains(e));
                let j = choose|j: int| 0 <= j < old(self).entries_at(c).len() && old(self).entries_at(c)[j] == e;
                assert(old(self).records().contains_key(old(self).entries_at(c)[j].0@));
                assert(has_key(self.entries_at(c), e.0@));
            }
            assert forall|kk: u64, c: (int, int)|
                self.records().contains_key(kk) && #[trigger] cells_of(
                    env,
                    self.records()[kk].shape,
                ).contains(c) implies has_key(self.entries_at(c), kk) by {
                assert(old(self).records().contains_key(kk));
                assert(cells_of(env, old(self).records()[kk].shape).contains(c));
                assert(has_key(old(self).entries_at(c), kk));
            }
            assert forall|kk: u64| #[trigger] self.records().contains_key(kk) implies self.placed(
                self.records()[kk].shape,
            ) by {
                assert(old(self).records().contains_key(kk));
                assert(old(self).placed(old(self).records()[kk].shape));
            }
            assert(self.linked(None));
        }
        Ok(st.obj)
    }

    /// A grid with the objects and the lists of a linked grid is linked.
    proof fn lemma_same(&self, before: &Self)
        requires
            before.linked(None),
            self.records() == before.records(),
            self.envelope() == before.envelope(),
            forall|c: (int, int)| #[trigger] self.entries_at(c) == before.entries_at(c),
        ensures
            self.linked(None),
    {
        let env = self.envelope();
        assert forall|c: (int, int), i: int| 0 <= i < self.entries_at(c).len() implies {
            let e = #[trigger] self.entries_at(c)[i];
            &&& self.records().contains_key(e.0@)
            &&& cells_of(env, self.records()[e.0@].shape).contains(c)
            &&& e.1 == single(env, self.records()[e.0@].shape)
        } by {
            let e = before.entries_at(c)[i];
            assert(before.records().contains_key(e.0@));
        }
        assert forall|c: (int, int)| distinct(#[trigger] self.entries_at(c)) by {
            assert(distinct(before.entries_at(c)));
        }
        assert forall|k: u64, c: (int, int)|
            self.records().contains_key(k) && #[trigger] cells_of(
                env,
                self.records()[k].shape,
            ).contains(c) implies has_key(self.entries_at(c), k) by {
            assert(has_key(before.entries_at(c), k));
        }
        assert forall|k: u64| #[trigger] self.records().contains_key(k) implies self.placed(
            self.records()[k].shape,
        ) by {
            assert(before.placed(before.records()[k].shape));
        }
    }

    /// Updates the shape of an object: its entries leave the cells that
    /// the old shape touches and come to the cells that the new shape
    /// touches. Refuses a handle of no object, a shape whose box is not
    /// valid, and one for whose cells the storage cannot make room.
    pub fn set_shape(&mut self, handle: ShapeGridHandle, shape: S) -> (r: Result<(), GridError>)
        requires
            old(self).wf(),
        ensures
            final(self).wf(),
            final(self).envelope().cell_size == old(self).envelope().cell_size,
            !old(self).records().contains_key(handle@) ==> r == Err::<(), GridError>(
                GridError::HandleInvalid,
            ),
            old(self).records().contains_key(handle@) && !shape.spec_bbox().valid() ==> r == Err::<
                (),
                GridError,
            >(GridError::AABBInvalid),
            old(self).records().contains_key(handle@) && shape.spec_bbox().valid() && !old(self).can_cover(shape.spec_bbox()) ==> r == Err::<(), GridError>(
                GridError::PositionInvalid,
            ),
            old(self).records().contains_key(handle@) && shape.spec_bbox().valid() && old(self).can_cover(shape.spec_bbox()) ==> r is Ok,
            match r {
                Ok(_) => final(self).records() == old(self).records().insert(
                    handle@,
                    StoreObject { obj: old(self).records()[handle@].obj, shape },
                ) && final(self).envelope() == Self::grown(old(self).envelope(), shape.spec_bbox()),
                Err(_) => final(self).records() == old(self).records(),
            },
    {
        let old_shape = match self.objects.get(handle.key()) {
            Some(rec) => rec.shape,
            None => {
                return Err(GridError::HandleInvalid);
            },
        };
        let bbox = shape.bbox();
        if !bbox.is_valid() {
            return Err(GridError::AABBInvalid);
        }
        match self.make_room(bbox) {
            Ok(_) => {},
            Err(e) => {
                return Err(e);
            },
        }
        let ghost mid = *self;
        let ghost env = self.envelope();
        let ghost k = handle@;
        proof {
            assert(mid.records().contains_key(k));
            assert(mid.placed(old_shape));
        }
        self.drop_entries(handle, old_shape);
        let ghost bare = *self;
        self.add_entries(handle, shape);
        let ghost added = *self;
        match self.objects.get_mut(handle.key()) {
            Some(rec) => {
                rec.shape = shape;
            },
            None => {},
        }
        proof {
            assert forall|c: (int, int)| #[trigger] self.entries_at(c) == added.entries_at(c) by {}
            assert(env == self.envelope());
            assert forall|c: (int, int)| distinct(#[trigger] bare.entries_at(c)) && !has_key(
                bare.entries_at(c),
                k,
            ) && (forall|kk: u64|
                kk != k ==> (has_key(bare.entries_at(c), kk) <==> has_key(
                    mid.entries_at(c),
                    kk,
                ))) && (forall|e: ShapeEntry| #[trigger]
                bare.entries_at(c).contains(e) ==> mid.entries_at(c).contains(e)) by {
                assert(distinct(mid.entries_at(c)));
                lemma_without(mid.entries_at(c), k);
                if !cells_of(env, old_shape).contains(c) {
                    if has_key(mid.entries_at(c), k) {
                        let i = choose|i: int|
                            0 <= i < mid.entries_at(c).len() && (#[trigger] mid.entries_at(
                                c,
                            )[i]).0@ == k;
                        assert(cells_of(env, mid.records()[k].shape).contains(c));
                    }
                }
            }
            assert forall|c: (int, int), i: int| 0 <= i < self.entries_at(c).len() implies {
                let e = #[trigger] self.entries_at(c)[i];
                &&& self.records().contains_key(e.0@)
                &&& cells_of(env, self.records()[e.0@].shape).contains(c)
                &&& e.1 == single(env, self.records()[e.0@].shape)
            } by {
                let e = self.entries_at(c)[i];
                if i < bare.entries_at(c).len() {
                    assert(bare.entries_at(c)[i] == e);
                    assert(bare.entries_at(c).contains(e));
                    assert(mid.entries_at(c).contains(e));
                    let j = choose|j: int| 0 <= j < mid.entries_at(c).len() && mid.entries_at(
                        c,
                    )[j] == e;
                    assert(mid.records().contains_key(mid.entries_at(c)[j].0@));
                    assert(has_key(bare.entries_at(c), e.0@));
                }
            }
            assert forall|c: (int, int)| distinct(#[trigger] self.entries_at(c)) by {
                assert forall|i: int, j: int|
                    0 <= i < j < self.entries_at(c).len() implies (#[trigger] self.entries_at(
                    c,
                )[i]).0@ != (#[trigger] self.entries_at(c)[j]).0@ by {
                    assert(bare.entries_at(c)[i] == self.entries_at(c)[i]);
                    if j < bare.entries_at(c).len() {
                        assert(bare.entries_at(c)[i].0@ != bare.entries_at(c)[j].0@);
                    }
                }
            }
            assert forall|kk: u64, c: (int, int)|
                self.records().contains_key(kk) && #[trigger] cells_of(
                    env,
                    self.records()[kk].shape,
                ).contains(c) implies has_key(self.entries_at(c), kk) by {
                if kk == k {
                    let es = self.entries_at(c);
                    assert(es[es.len() - 1].0@ == k);
                } else {
                    assert(mid.records().contains_key(kk));
                    assert(cells_of(env, mid.records()[kk].shape).contains(c));
                    assert(has_key(mid.entries_at(c), kk));
                    let es = bare.entries_at(c);
                    assert(has_key(es, kk));
                    let i = choose|i: int| 0 <= i < es.len() && (#[trigger] es[i]).0@ == kk;
                    assert(self.entries_at(c)[i] == es[i]);
                }
            }
            assert forall|kk: u64| #[trigger] self.records().contains_key(kk) implies self.placed(
                self.records()[kk].shape,
            ) by {
                if kk != k {
                    assert(mid.records().contains_key(kk));
                    assert(mid.placed(mid.records()[kk].shape));
                }
            }
            assert(self.linked(None));
        }
        Ok(())
    }

    /// The keys of the objects, in the order in which `handles` and
    /// `objects` give them.
    pub closed spec fn order(&self) -> Seq<u64> {
        self.objects.order()
    }

    /// The order names every object once.
    pub proof fn lemma_order(&self)
        requires
            self.wf(),
        ensures
            self.order().no_duplicates(),
            self.order().to_set() == self.records().dom(),
            self.order().len() == self.records().len(),
    {
        self.objects.lemma_order();
    }

    /// Iterate over all handles
    pub fn handles(&self) -> (hs: Vec<ShapeGridHandle>)
        requires
            self.wf(),
        ensures
            hs.len() == self.order().len(),
            forall|i: int| 0 <= i < hs.len() ==> (#[trigger] hs[i])@ == self.order()[i],
    {
        let n = self.objects.len();
        let mut hs: Vec<ShapeGridHandle> = Vec::new();
        let mut i: usize = 0;
        while i < n
            invariant
                self.objects.wf(),
                n == self.objects.order().len(),
                i <= n,
                hs.len() == i,
                forall|j: int| 0 <= j < i ==> (#[trigger] hs[j])@ == self.objects.order()[j],
            decreases n - i,
        {
            hs.push(ShapeGridHandle::from_key(self.objects.key_at(i)));
            i += 1;
        }
        hs
    }

    /// Iterate over all objects
    pub fn objects(&self) -> (os: Vec<&O>)
        requires
            self.wf(),
        ensures
            os.len() == self.order().len(),
            forall|i: int|
                0 <= i < os.len() ==> self.records().contains_key(#[trigger] self.order()[i])
                    && *os[i] == self.records()[self.order()[i]].obj,
    {
        let n = self.objects.len();
        let mut os: Vec<&O> = Vec::new();
        let mut i: usize = 0;
        while i < n
            invariant
                self.objects.wf(),
                n == self.objects.order().len(),
                i <= n,
                os.len() == i,
                forall|j: int|
                    0 <= j < i ==> self.objects@.contains_key(#[trigger] self.objects.order()[j])
                        && *os[j] == self.objects@[self.objects.order()[j]].obj,
            decreases n - i,
        {
            let ghost prev = os@;
            let v = self.objects.value_at(i);
            os.push(&v.obj);
            proof {
                assert forall|j: int| 0 <= j < i + 1 implies self.objects@.contains_key(
                    #[trigger] self.objects.order()[j],
                ) && *os[j] == self.objects@[self.objects.order()[j]].obj by {
                    if j < i {
                        assert(os[j] == prev[j]);
                    }
                }
            }
            i += 1;
        }
        os
    }

    /// Whether the `j`-th cell of the rectangle from `c1` to `c2` is one
    /// that the shape meets and that holds an entry of the object under
    /// key `k`.
    pub open spec fn hit<QS: Shape>(
        &self,
        qs: QS,
        c1: (int, int),
        c2: (int, int),
        j: int,
        k: u64,
    ) -> bool {
        qs.spec_intersects(self.envelope().cell_box(rect_at(c1, c2, j))) && has_key(
            self.entries_at(rect_at(c1, c2, j)),
            k,
        )
    }

    /// Whether a cell at which a query with the shape looks holds an entry
    /// of the object under key `k`.
    pub open spec fn found_broad<QS: Shape>(&self, qs: QS, k: u64) -> bool {
        exists|c: (int, int)| #[trigger]
            query_cells(self.envelope(), qs).contains(c) && has_key(self.entries_at(c), k)
    }

    /// Walks the cells at which a query with the shape looks and gives the
    /// handle of every object with an entry there, once. An entry whose
    /// object touches one cell, and every entry where the walk looks at one
    /// cell, is given as it comes; any other entry when its key is new to
    /// the set.
    pub fn broad<QS: Shape, H: HandleSet>(&self, shape: QS, seen: H) -> (r: Vec<ShapeGridHandle>)
        requires
            self.wf(),
            seen.keys() == Set::<u64>::empty(),
        ensures
            unique(r@),
            forall|k: u64| gives(r@, k) <==> self.found_broad(shape, k),
    {
        let mut seen = seen;
        let bbox = shape.bbox();
        let ll_id = self.storage.cell_id(bbox.ll);
        let ur_id = self.storage.cell_id(bbox.ur);
        let simple = ST::idx_eq(ll_id, ur_id);
        let ghost env = self.storage.envelope();
        let ghost c1 = env.nearest(env.cell_of(bbox.ll));
        let ghost c2 = env.nearest(env.cell_of(bbox.ur));
        proof {
            self.storage.lemma_wf();
            crate::math::lemma_cell_coord_range(bbox.ll.x as int, env.cell_size);
            crate::math::lemma_cell_coord_range(bbox.ll.y as int, env.cell_size);
            crate::math::lemma_cell_coord_range(bbox.ur.x as int, env.cell_size);
            crate::math::lemma_cell_coord_range(bbox.ur.y as int, env.cell_size);
            if !env.is_empty() {
                ST::lemma_index(env, c1);
                ST::lemma_index(env, c2);
            }
        }
        let mut it = self.range_of(bbox);
        let ghost total = it.remaining();
        let ghost mut k: int = 0;
        let mut out: Vec<ShapeGridHandle> = Vec::new();
        loop
            invariant
                self.wf(),
                env == self.envelope(),
                env.wf(),
                it.wf(),
                0 <= k <= total.len(),
                it.remaining() == total.skip(k),
                env.is_empty() ==> total.len() == 0,
                !env.is_empty() ==> total.len() == rect_len(c1, c2) && forall|j: int|
                    0 <= j < total.len() ==> ST::valid(env, #[trigger] total[j]) && ST::coord(
                        env,
                        total[j],
                    ) == rect_at(c1, c2, j),
                simple && !env.is_empty() ==> c1 == c2,
                unique(out@),
                forall|x: u64|
                    gives(out@, x) <==> exists|j: int|
                        0 <= j < k && #[trigger] self.hit(shape, c1, c2, j, x),
                forall|x: u64| seen.keys().contains(x) ==> gives(out@, x),
                !simple ==> forall|i: int|
                    0 <= i < out.len() && !single(env, self.records()[(#[trigger] out[i])@].shape)
                        ==> seen.keys().contains(out[i]@),
            ensures
                k == total.len(),
            decreases total.len() - k,
        {
            match it.next() {
                Some(id) => {
                    proof {
                        assert(id == total[k]);
                    }
                    let ghost c = rect_at(c1, c2, k);
                    let ghost es = self.entries_at(c);
                    let touched = shape.intersects(self.storage.cell_aabb(id));
                    if touched {
                        match self.storage.cell(id) {
                            Some(cell) => {
                                let n = cell.objs.len();
                                let mut j: usize = 0;
                                while j < n
                                    invariant
                                        self.wf(),
                                        env == self.envelope(),
                                        0 <= k < total.len(),
                                        total.len() == rect_len(c1, c2),
                                        !env.is_empty(),
                                        simple ==> c1 == c2,
                                        c == rect_at(c1, c2, k),
                                        es == self.entries_at(c),
                                        es == cell.objs@,
                                        n == es.len(),
                                        j <= n,
                                        shape.spec_intersects(env.cell_box(c)),
                                        unique(out@),
                                        forall|x: u64|
                                            gives(out@, x) <==> (exists|j2: int|
                                                0 <= j2 < k && #[trigger] self.hit(
                                                    shape,
                                                    c1,
                                                    c2,
                                                    j2,
                                                    x,
                                                )) || has_key_before(es, j as int, x),
                                        forall|x: u64| seen.keys().contains(x) ==> gives(out@, x),
                                        !simple ==> forall|i: int|
                                            0 <= i < out.len() && !single(
                                                env,
                                                self.records()[(#[trigger] out[i])@].shape,
                                            ) ==> seen.keys().contains(out[i]@),
                                    decreases n - j,
                                {
                                    let entry = cell.objs[j];
                                    let h = entry.0;
                                    let ghost x = h@;
                                    let ghost before = out@;
                                    let ghost keys_before = seen.keys();
                                    let emit = if simple || entry.1 {
                                        true
                                    } else {
                                        seen.take(h.key())
                                    };
                                    proof {
                                        self.lemma_wf();
                                        assert(es[j as int] == entry);
                                        assert(self.entries_at(c)[j as int] == entry);
                                        if emit && gives(before, x) {
                                            if has_key_before(es, j as int, x) {
                                                let i = choose|i: int|
                                                    0 <= i < j && (#[trigger] es[i]).0@ == x;
                                                assert(distinct(self.entries_at(c)));
                                                assert(es[i].0@ != es[j as int].0@);
                                            } else {
                                                let j2 = choose|j2: int|
                                                    0 <= j2 < k && #[trigger] self.hit(
                                                        shape,
                                                        c1,
                                                        c2,
                                                        j2,
                                                        x,
                                                    );
                                                let c_other = rect_at(c1, c2, j2);
                                                if c_other == c {
                                                    lemma_rect_at_injective(c1, c2, j2, k);
                                                }
                                                let eo = self.entries_at(c_other);
                                                let a = choose|a: int|
                                                    0 <= a < eo.len() && (#[trigger] eo[a]).0@ == x;
                                                assert(cells_of(env, self.records()[eo[a].0@].shape).contains(
                                                    c_other,
                                                ));
                                                assert(cells_of(env, self.records()[x].shape).contains(c));
                                                if simple {
                                                    assert((c2.0 - c1.0 + 1) * (c2.1 - c1.1 + 1) == 1)
                                                        by (nonlinear_arith)
                                                        requires
                                                            c1 == c2,
                                                    ;
                                                    assert(rect_len(c1, c2) == 1);
                                                } else if entry.1 {
                                                    assert(single(env, self.records()[x].shape));
                                                } else {
                                                    let i = choose|i: int|
                                                        0 <= i < before.len() && (#[trigger] before[i])@
                                                            == x;
                                                    assert(keys_before.contains(before[i]@));
                                                }
                                            }
                                            assert(false);
                                        }
                                    }
                                    proof {
                                        if !emit {
                                            assert(keys_before.contains(x));
                                            assert(gives(before, x));
                                        }
                                        assert(self.records().contains_key(x));
                                    }
                                    if emit {
                                        out.push(h);
                                    }
                                    proof {
                                        assert forall|x2: u64| gives(out@, x2) <==> (gives(before, x2)
                                            || (emit && x2 == x)) by {
                                            if gives(before, x2) {
                                                let i = choose|i: int|
                                                    0 <= i < before.len() && (#[trigger] before[i])@
                                                        == x2;
                                                assert(out@[i]@ == x2);
                                            }
                                            if emit && x2 == x {
                                                assert(out@[out.len() - 1]@ == x2);
                                            }
                                            if gives(out@, x2) {
                                                let i = choose|i: int|
                                                    0 <= i < out.len() && (#[trigger] out@[i])@ == x2;
                                                if i < before.len() {
                                                    assert(before[i]@ == x2);
                                                }
                                            }
                                        }
                                        assert(unique(out@)) by {
                                            assert forall|i1: int, i2: int|
                                                0 <= i1 < i2 < out.len() implies (#[trigger] out@[i1])@
                                                != (#[trigger] out@[i2])@ by {
                                                if i2 < before.len() {
                                                    assert(before[i1]@ != before[i2]@);
                                                } else {
                                                    assert(before[i1]@ == out@[i1]@);
                                                }
                                            }
                                        }
                                        assert forall|x2: u64|
                                            gives(out@, x2) <==> (exists|j2: int|
                                                0 <= j2 < k && #[trigger] self.hit(
                                                    shape,
                                                    c1,
                                                    c2,
                                                    j2,
                                                    x2,
                                                )) || has_key_before(es, j + 1, x2) by {
                                            lemma_has_key_before(es, j as int, x2);
                                        }
                                        assert forall|x2: u64|
                                            seen.keys().contains(x2) implies gives(out@, x2) by {
                                            if x2 != x {
                                                assert(keys_before.contains(x2));
                                                assert(gives(before, x2));
                                            }
                                        }
                                        if !simple {
                                            assert forall|i: int|
                                                0 <= i < out.len() && !single(
                                                    env,
                                                    self.records()[(#[trigger] out@[i])@].shape,
                                                ) implies seen.keys().contains(out@[i]@) by {
                                                if i < before.len() {
                                                    assert(before[i] == out@[i]);
                                                    assert(keys_before.contains(before[i]@));
                                                }
                                            }
                                        }
                                    }
                                    j += 1;
                                }
                                proof {
                                    assert forall|x: u64|
                                        has_key(es, x) <==> has_key_before(es, n as int, x) by {}
                                }
                            },
                            None => {
                                proof {
                                    assert(es.len() == 0);
                                }
                            },
                        }
                    }
                    proof {
                        assert forall|x: u64|
                            gives(out@, x) <==> exists|j: int|
                                0 <= j < k + 1 && #[trigger] self.hit(shape, c1, c2, j, x) by {
                            if exists|j: int| 0 <= j < k + 1 && #[trigger] self.hit(shape, c1, c2, j, x) {
                                let j = choose|j: int|
                                    0 <= j < k + 1 && #[trigger] self.hit(shape, c1, c2, j, x);
                                if j < k {
                                    assert(0 <= j < k && self.hit(shape, c1, c2, j, x));
                                } else {
                                    assert(touched && has_key(es, x));
                                }
                            }
                            if exists|j: int| 0 <= j < k && #[trigger] self.hit(shape, c1, c2, j, x) {
                                let j = choose|j: int|
                                    0 <= j < k && #[trigger] self.hit(shape, c1, c2, j, x);
                                assert(0 <= j < k + 1 && self.hit(shape, c1, c2, j, x));
                            }
                            if touched && has_key(es, x) {
                                assert(self.hit(shape, c1, c2, k, x));
                            }
                        }
                        k = k + 1;
                    }
                },
                None => {
                    break ;
                },
            }
        }
        proof {
            lemma_rect_at(c1, c2);
            assert forall|x: u64| gives(out@, x) <==> self.found_broad(shape, x) by {
                if gives(out@, x) {
                    let j = choose|j: int| 0 <= j < k && #[trigger] self.hit(shape, c1, c2, j, x);
                    let c = rect_at(c1, c2, j);
                    assert(in_rect(c1, c2, c));
                    assert(query_cells(env, shape).contains(c) && has_key(self.entries_at(c), x));
                }
                if self.found_broad(shape, x) {
                    let c = choose|c: (int, int)| #[trigger]
                        query_cells(env, shape).contains(c) && has_key(self.entries_at(c), x);
                    assert(in_rect(c1, c2, c));
                    let j = (c.1 - c1.1) * (c2.0 - c1.0 + 1) + (c.0 - c1.0);
                    assert(0 <= j < k && rect_at(c1, c2, j) == c);
                    assert(self.hit(shape, c1, c2, j, x));
                }
            }
        }
        out
    }

    /// Queries for all objects in the cells intersecting the given shape
    ///
    /// Every object with an entry in a cell at which the query looks is
    /// given once, whether its shape meets the given shape or not.
    pub fn query_broad<QS: Shape>(&self, shape: QS) -> (r: Vec<ShapeGridHandle>)
        requires
            self.wf(),
        ensures
            unique(r@),
            forall|k: u64| gives(r@, k) <==> self.found_broad(shape, k),
    {
        self.broad(shape, Seen::new())
    }

    /// A query finds an object in a cell when the object is one of the
    /// grid and the query looks at a cell that the object touches.
    pub proof fn lemma_found_broad<QS: Shape>(&self, qs: QS, k: u64)
        requires
            self.wf(),
        ensures
            self.found_broad(qs, k) <==> self.records().contains_key(k) && exists|c: (int, int)|
                query_cells(self.envelope(), qs).contains(c) && #[trigger] cells_of(
                    self.envelope(),
                    self.records()[k].shape,
                ).contains(c),
    {
        let env = self.envelope();
        if self.found_broad(qs, k) {
            let c = choose|c: (int, int)| #[trigger]
                query_cells(env, qs).contains(c) && has_key(self.entries_at(c), k);
            let es = self.entries_at(c);
            let i = choose|i: int| 0 <= i < es.len() && (#[trigger] es[i]).0@ == k;
            assert(cells_of(env, self.records()[es[i].0@].shape).contains(c));
        }
        if self.records().contains_key(k) && exists|c: (int, int)|
            query_cells(env, qs).contains(c) && #[trigger] cells_of(
                env,
                self.records()[k].shape,
            ).contains(c) {
            let c = choose|c: (int, int)|
                query_cells(env, qs).contains(c) && #[trigger] cells_of(
                    env,
                    self.records()[k].shape,
                ).contains(c);
            assert(has_key(self.entries_at(c), k));
        }
    }

    /// Queries for objects intersecting a given shape.
    ///
    /// An object is given, once, when a cell at which the query looks
    /// holds an entry of it and the given shape meets its shape.
    pub fn query<QS: Shape + Intersect<S>>(&self, shape: QS) -> (r: Vec<(ShapeGridHandle, &S, &O)>)
        requires
            self.wf(),
        ensures
            forall|i: int|
                0 <= i < r.len() ==> {
                    let t = #[trigger] r[i];
                    &&& self.records().contains_key(t.0@)
                    &&& *t.1 == self.records()[t.0@].shape
                    &&& *t.2 == self.records()[t.0@].obj
                },
            forall|i: int, j: int|
                0 <= i < j < r.len() ==> (#[trigger] r[i]).0@ != (#[trigger] r[j]).0@,
            forall|k: u64|
                (exists|i: int| 0 <= i < r.len() && (#[trigger] r[i]).0@ == k) <==> self.found_broad(
                    shape,
                    k,
                ) && meets(shape, self.records()[k].shape),
    {
        let hs = self.broad(shape, Seen::new());
        let r = self.refine(shape, hs);
        proof {
            assert forall|k: u64|
                (exists|i: int| 0 <= i < r.len() && (#[trigger] r[i]).0@ == k) <==> self.found_broad(
                    shape,
                    k,
                ) && meets(shape, self.records()[k].shape) by {
                self.lemma_found_broad(shape, k);
                assert(gives(hs@, k) <==> self.found_broad(shape, k));
                assert((exists|i: int| 0 <= i < r.len() && (#[trigger] r[i]).0@ == k) <==> gives(
                    hs@,
                    k,
                ) && self.records().contains_key(k) && meets(shape, self.records()[k].shape));
            }
        }
        r
    }

    /// Keeps of the objects under the handles those whose shape the given
    /// shape meets.
    pub fn refine<QS: Intersect<S>>(&self, shape: QS, hs: Vec<ShapeGridHandle>) -> (r: Vec<
        (ShapeGridHandle, &S, &O),
    >)
        requires
            self.wf(),
            unique(hs@),
        ensures
            forall|i: int|
                0 <= i < r.len() ==> {
                    let t = #[trigger] r[i];
                    &&& self.records().contains_key(t.0@)
                    &&& *t.1 == self.records()[t.0@].shape
                    &&& *t.2 == self.records()[t.0@].obj
                },
            forall|i: int, j: int|
                0 <= i < j < r.len() ==> (#[trigger] r[i]).0@ != (#[trigger] r[j]).0@,
            forall|k: u64|
                (exists|i: int| 0 <= i < r.len() && (#[trigger] r[i]).0@ == k) <==> gives(hs@, k)
                    && self.records().contains_key(k) && meets(shape, self.records()[k].shape),
    {
        let mut out: Vec<(ShapeGridHandle, &S, &O)> = Vec::new();
        let mut i: usize = 0;
        while i < hs.len()
            invariant
                self.wf(),
                unique(hs@),
                i <= hs.len(),
                forall|a: int|
                    0 <= a < out.len() ==> {
                        let t = #[trigger] out[a];
                        &&& self.records().contains_key(t.0@)
                        &&& *t.1 == self.records()[t.0@].shape
                        &&& *t.2 == self.records()[t.0@].obj
                        &&& has_handle_before(hs@, i as int, t.0@)
                    },
                forall|a: int, b: int|
                    0 <= a < b < out.len() ==> (#[trigger] out[a]).0@ != (#[trigger] out[b]).0@,
                forall|k: u64|
                    (exists|a: int| 0 <= a < out.len() && (#[trigger] out[a]).0@ == k)
                        <==> has_handle_before(hs@, i as int, k) && self.records().contains_key(k)
                        && meets(shape, self.records()[k].shape),
            decreases hs.len() - i,
        {
            let h = hs[i];
            let ghost before = out@;
            let ghost x = h@;
            let mut pushed = false;
            match self.objects.get(h.key()) {
                Some(rec) => {
                    if shapes_meet(&shape, rec.shape) {
                        out.push((h, &rec.shape, &rec.obj));
                        pushed = true;
                    }
                },
                None => {},
            }
            proof {
                assert forall|k: u64|
                    has_handle_before(hs@, i + 1, k) <==> has_handle_before(hs@, i as int, k) || k
                        == x by {
                    if has_handle_before(hs@, i + 1, k) {
                        let a = choose|a: int| 0 <= a < i + 1 && (#[trigger] hs@[a])@ == k;
                        if a < i {
                            assert(0 <= a < i && hs@[a]@ == k);
                        }
                    }
                    if has_handle_before(hs@, i as int, k) {
                        let a = choose|a: int| 0 <= a < i && (#[trigger] hs@[a])@ == k;
                        assert(0 <= a < i + 1 && hs@[a]@ == k);
                    }
                    if k == x {
                        assert(0 <= i < i + 1 && hs@[i as int]@ == k);
                    }
                }
                assert(!has_handle_before(hs@, i as int, x)) by {
                    if has_handle_before(hs@, i as int, x) {
                        let a = choose|a: int| 0 <= a < i && (#[trigger] hs@[a])@ == x;
                        assert(hs@[a]@ != hs@[i as int]@);
                    }
                }
                assert forall|a: int| 0 <= a < before.len() implies (#[trigger] out[a]) == before[a]
                    && out[a].0@ != x by {
                    assert(has_handle_before(hs@, i as int, before[a].0@));
                }
                assert(pushed <==> self.records().contains_key(x) && meets(
                    shape,
                    self.records()[x].shape,
                ));
                assert forall|k: u64|
                    (exists|a: int| 0 <= a < out.len() && (#[trigger] out[a]).0@ == k)
                        <==> has_handle_before(hs@, i + 1, k) && self.records().contains_key(k)
                        && meets(shape, self.records()[k].shape) by {
                    let was = exists|a: int| 0 <= a < before.len() && (#[trigger] before[a]).0@ == k;
                    assert(was <==> has_handle_before(hs@, i as int, k)
                        && self.records().contains_key(k) && meets(shape, self.records()[k].shape));
                    if exists|a: int| 0 <= a < out.len() && (#[trigger] out[a]).0@ == k {
                        let a = choose|a: int| 0 <= a < out.len() && (#[trigger] out[a]).0@ == k;
                        if a < before.len() {
                            assert(before[a].0@ == k);
                            assert(was);
                        } else {
                            assert(pushed && k == x);
                        }
                    }
                    if was {
                        let a = choose|a: int|
                            0 <= a < before.len() && (#[trigger] before[a]).0@ == k;
                        assert(out[a].0@ == k);
                    }
                    if pushed && k == x {
                        assert(out[out.len() - 1].0@ == k);
                    }
                }
            }
            i += 1;
        }
        proof {
            assert forall|k: u64| has_handle_before(hs@, hs.len() as int, k) <==> gives(hs@, k) by {}
        }
        out
    }

    /// The object under a handle, with its shape.
    pub fn record(&self, id: ShapeGridHandle) -> (r: Option<&StoreObject<O, S>>)
        requires
            self.wf(),
        ensures
            match r {
                Some(rec) => self.records().contains_key(id@) && *rec == self.records()[id@],
                None => !self.records().contains_key(id@),
            },
    {
        self.objects.get(id.key())
    }

    /// Gives an object a shape that touches the cells that its shape
    /// touches, without a change to the lists.
    pub(crate) fn swap_shape(&mut self, handle: ShapeGridHandle, shape: S)
        requires
            old(self).wf(),
            old(self).records().contains_key(handle@),
            old(self).placed(shape),
            cells_of(old(self).envelope(), shape) == cells_of(
                old(self).envelope(),
                old(self).records()[handle@].shape,
            ),
            single(old(self).envelope(), shape) == single(
                old(self).envelope(),
                old(self).records()[handle@].shape,
            ),
        ensures
            final(self).wf(),
            final(self).envelope() == old(self).envelope(),
            final(self).records() == old(self).records().insert(
                handle@,
                StoreObject { obj: old(self).records()[handle@].obj, shape },
            ),
    {
        match self.objects.get_mut(handle.key()) {
            Some(rec) => {
                rec.shape = shape;
            },
            None => {},
        }
        proof {
            let env = self.envelope();
            assert forall|c: (int, int)| #[trigger] self.entries_at(c) == old(self).entries_at(
                c,
            ) by {}
            assert forall|c: (int, int), i: int| 0 <= i < self.entries_at(c).len() implies {
                let e = #[trigger] self.entries_at(c)[i];
                &&& self.records().contains_key(e.0@)
                &&& cells_of(env, self.records()[e.0@].shape).contains(c)
                &&& e.1 == single(env, self.records()[e.0@].shape)
            } by {
                let e = old(self).entries_at(c)[i];
                assert(old(self).records().contains_key(e.0@));
            }
            assert forall|c: (int, int)| distinct(#[trigger] self.entries_at(c)) by {
                assert(distinct(old(self).entries_at(c)));
            }
            assert forall|k: u64, c: (int, int)|
                self.records().contains_key(k) && #[trigger] cells_of(
                    env,
                    self.records()[k].shape,
                ).contains(c) implies has_key(self.entries_at(c), k) by {
                assert(old(self).records().contains_key(k));
                assert(cells_of(env, old(self).records()[k].shape).contains(c));
                assert(has_key(old(self).entries_at(c), k));
            }
            assert forall|k: u64| #[trigger] self.records().contains_key(k) implies self.placed(
                self.records()[k].shape,
            ) by {
                if k != handle@ {
                    assert(old(self).records().contains_key(k));
                    assert(old(self).placed(old(self).records()[k].shape));
                }
            }
        }
    }
}

impl<O: Copy, S: Shape, ST: Storage<ShapeGridCell>, SL: SlotStore> ShapeGrid<O, S, ST, SL> where Circle: Intersect<S> {
    /// Queries for objects around a point, same as querying a circle at pos with a given radius.
    pub fn query_around(&self, pos: Point, radius: u32) -> (r: Vec<(ShapeGridHandle, &S, &O)>)
        requires
            self.wf(),
        ensures
            forall|i: int|
                0 <= i < r.len() ==> {
                    let t = #[trigger] r[i];
                    &&& self.records().contains_key(t.0@)
                    &&& *t.1 == self.records()[t.0@].shape
                    &&& *t.2 == self.records()[t.0@].obj
                },
            forall|i: int, j: int|
                0 <= i < j < r.len() ==> (#[trigger] r[i]).0@ != (#[trigger] r[j]).0@,
            forall|k: u64|
                (exists|i: int| 0 <= i < r.len() && (#[trigger] r[i]).0@ == k) <==> self.found_broad(
                    Circle { center: pos, radius },
                    k,
                ) && meets(Circle { center: pos, radius }, self.records()[k].shape),
    {
        self.query(Circle { center: pos, radius })
    }
}

/// Whether one of the first `n` handles of a list is the handle of the
/// object under key `k`.
pub open spec fn has_handle_before(hs: Seq<ShapeGridHandle>, n: int, k: u64) -> bool {
    exists|i: int| 0 <= i < n && (#[trigger] hs[i])@ == k
}

} // verus!
