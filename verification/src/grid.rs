use crate::cell::has_entry;
use crate::cell::keys_distinct;
use crate::cell::kept_from;
use crate::cell::lemma_filter_entries;
use crate::cell::lemma_sweep;
use crate::cell::moved_from;
use crate::cell::stays;
use crate::cell::sweep;
use crate::cell::CellObject;
use crate::cell::GridCell;
use crate::error::GridError;
use crate::objects::ObjectMap;
use crate::shape::around;
use crate::shape::around_box;
use crate::shape::lemma_around;
use crate::shape::dist2;
use crate::shape::distance_squared;
use crate::shape::span;
use crate::shape::Point;
use crate::shape::AABB;
use crate::slots::MAX_SLOTS;
use crate::storage::in_rect;
use crate::storage::lemma_rect_at;
use crate::storage::lemma_rect_at_injective;
use crate::storage::rect_at;
use crate::storage::rect_len;
use crate::storage::CellIter;
use crate::storage::Envelope;
use crate::storage::SparseStorage;
use crate::storage::Storage;
use vstd::prelude::*;

verus! {

/// This handle is used to modify the associated object or to update its position.
/// It is returned by the _insert_ method of a Grid.
#[derive(Clone, Copy, PartialEq, Eq, PartialOrd, Ord, Hash, Debug, Structural)]
pub struct GridHandle {
    id: u64,
}

impl GridHandle {
    /// The key of the object that the handle names.
    pub closed spec fn view(self) -> u64 {
        self.id
    }

    /// Two handles with one key are one handle.
    pub proof fn lemma_view_injective(a: GridHandle, b: GridHandle)
        ensures
            (a@ == b@) == (a == b),
    {
    }

    pub(crate) fn from_key(id: u64) -> (h: GridHandle)
        ensures
            h@ == id,
    {
        GridHandle { id }
    }

    /// The key of the object that the handle names.
    pub fn key(&self) -> (id: u64)
        ensures
            id == self@,
    {
        self.id
    }
}

/// State of an object, maintain() updates the internals of the grid and resets this to Unchanged
#[derive(Clone, Copy, PartialEq, Eq, Debug, Structural)]
pub enum ObjectState {
    /// The entry in the list of the cell mirrors the object.
    Unchanged,
    /// The position changed within the cell.
    NewPos,
    /// The position changed to another cell.
    Relocate,
    /// The object waits to be deleted.
    Removed,
}

/// The state of an object after a change of position, which leaves a
/// removed object removed.
pub open spec fn after_set_position(s: ObjectState, same_cell: bool) -> ObjectState {
    match s {
        ObjectState::Removed => ObjectState::Removed,
        _ => if same_cell {
            ObjectState::NewPos
        } else {
            ObjectState::Relocate
        },
    }
}

/// The actual object stored in the store
#[derive(Clone, Copy)]
pub struct StoreObject<O: Copy, Idx: Copy> {
    /// User-defined object to be associated with a value
    pub obj: O,
    pub state: ObjectState,
    pub pos: Point,
    pub cell_id: Idx,
}

/// Whether two records hold the same object in the same state at the same
/// position.
pub open spec fn same_object<O: Copy, Idx: Copy>(
    a: StoreObject<O, Idx>,
    b: StoreObject<O, Idx>,
) -> bool {
    a.obj == b.obj && a.state == b.state && a.pos == b.pos
}

/// The position in the entry of the object under key `k`.
pub open spec fn entry_pos(es: Seq<CellObject>, k: u64) -> Point {
    es[choose|i: int| 0 <= i < es.len() && (#[trigger] es[i]).0@ == k].1
}

/// Grid is a point-based spatial partitioning structure that uses a generic storage of cells which acts as a
/// grid instead of a tree.
///
/// ## Fast queries
/// In theory, Grid should be faster than a quadtree/r-tree because it has no log costs
/// (calculating the cells around a point is trivial).
/// However, it only works if the cell size is adapted to the problem, much like how a tree has to
/// be balanced to be efficient.
///
/// ## Dynamicity
/// Grid's big advantage is that it is dynamic, supporting lazy positions updates
/// and object removal in constant time. Once objects are in, there is almost no allocation happening.
///
/// Every object has one entry, a handle and a position, in the list of one
/// cell: its home. `set_position` and `remove` change the object and mark
/// the cell to which the object points as dirty; `maintain` brings the
/// lists in line with the objects.
pub struct Grid<O: Copy, ST: Storage<GridCell> = SparseStorage<GridCell>> {
    storage: ST,
    objects: ObjectMap<StoreObject<O, ST::Idx>>,
    // Cache maintain vec to avoid allocating every time maintain is called
    to_relocate: Vec<CellObject>,
    home: Ghost<Map<u64, (int, int)>>,
}

impl<O: Copy, ST: Storage<GridCell>> Grid<O, ST> {
    /// The objects, by the keys of their handles.
    pub closed spec fn records(&self) -> Map<u64, StoreObject<O, ST::Idx>> {
        self.objects@
    }

    /// The cells that exist, by their coordinates.
    pub closed spec fn cell_map(&self) -> Map<(int, int), GridCell> {
        self.storage.cell_map()
    }

    pub closed spec fn envelope(&self) -> Envelope {
        self.storage.envelope()
    }

    /// The cell whose list holds the entry of the object under key `k`.
    pub closed spec fn home(&self, k: u64) -> (int, int) {
        self.home@[k]
    }

    /// Whether the storage can make room for the cell of `p`.
    pub open spec fn can_cover(&self, p: Point) -> bool {
        ST::room(self.envelope(), self.envelope().cell_of(p))
    }

    /// The entries of the cell at `c`; none where no cell exists.
    pub open spec fn entries_at(&self, c: (int, int)) -> Seq<CellObject> {
        if self.cell_map().contains_key(c) {
            self.cell_map()[c].objs@
        } else {
            Seq::empty()
        }
    }

    /// Whether a cell exists at `c` and is dirty.
    pub open spec fn is_dirty(&self, c: (int, int)) -> bool {
        self.cell_map().contains_key(c) && self.cell_map()[c].dirty
    }

    /// The position in the entry of the object under key `k`.
    pub open spec fn cached(&self, k: u64) -> Point {
        entry_pos(self.entries_at(self.home(k)), k)
    }

    /// The cell to which the object under key `k` points.
    pub open spec fn cell_of_record(&self, k: u64) -> (int, int) {
        ST::coord(self.envelope(), self.records()[k].cell_id)
    }

    /// How the lists hang together with the objects, when the objects
    /// under the keys of `pending` are without an entry: every entry is the
    /// entry of an object, in the home of that object; no list holds two
    /// entries of one object; every object has its entry in its home; and
    /// every object points to the cell of its position, which the storage
    /// can hold.
    pub open spec fn linked(&self, pending: Set<u64>) -> bool {
        &&& forall|c: (int, int), i: int|
            0 <= i < self.entries_at(c).len() ==> {
                let k = (#[trigger] self.entries_at(c)[i]).0@;
                self.records().contains_key(k) && self.home(k) == c && !pending.contains(k)
            }
        &&& forall|c: (int, int), i: int, j: int|
            0 <= i < j < self.entries_at(c).len() ==> (#[trigger] self.entries_at(c)[i]).0@ != (
            #[trigger] self.entries_at(c)[j]).0@
        &&& forall|k: u64| #[trigger]
            self.records().contains_key(k) && !pending.contains(k) ==> has_entry(
                self.entries_at(self.home(k)),
                k,
            )
        &&& forall|k: u64| #[trigger]
            self.records().contains_key(k) ==> self.envelope().covers(self.records()[k].pos)
                && self.records()[k].cell_id == ST::index(
                self.envelope(),
                self.envelope().cell_of(self.records()[k].pos),
            )
    }

    pub closed spec fn wf(&self) -> bool {
        &&& self.storage.wf()
        &&& self.objects.wf()
        &&& self.to_relocate@.len() == 0
        &&& self.linked(Set::empty())
    }

    /// What holds of every grid.
    pub proof fn lemma_wf(&self)
        requires
            self.wf(),
        ensures
            self.linked(Set::empty()),
            self.envelope().wf(),
            self.envelope().bounded == !ST::is_sparse(),
            self.records().dom().finite(),
            forall|c: (int, int)| #[trigger]
                self.cell_map().contains_key(c) ==> self.envelope().holds(c),
    {
        self.storage.lemma_wf();
        self.objects.lemma_order();
    }

    /// Creates an empty grid.
    /// The cell size should be about the same magnitude as your queries size.
    pub fn new(cell_size: i32) -> (r: Result<Self, GridError>)
        ensures
            cell_size <= 0 ==> r == Err::<Self, GridError>(GridError::CellSizeInvalid),
            cell_size > 0 ==> r is Ok,
            r matches Ok(g) ==> g.wf() && g.envelope().cell_size == cell_size && g.records()
                == Map::<u64, StoreObject<O, ST::Idx>>::empty() && g.cell_map() == Map::<
                (int, int),
                GridCell,
            >::empty() && g.in_sync(),
    {
        match ST::new(cell_size) {
            Ok(st) => Ok(Self::with_storage(st)),
            Err(e) => Err(e),
        }
    }

    /// Creates an empty grid on a storage whose cells hold nothing and are
    /// not dirty.
    pub fn with_storage(st: ST) -> (g: Self)
        requires
            st.wf(),
            forall|c: (int, int)| #[trigger]
                st.cell_map().contains_key(c) ==> st.cell_map()[c].objs@.len() == 0
                    && !st.cell_map()[c].dirty,
        ensures
            g.wf(),
            g.envelope() == st.envelope(),
            g.cell_map() == st.cell_map(),
            g.records() == Map::<u64, StoreObject<O, ST::Idx>>::empty(),
            g.in_sync(),
    {
        Grid {
            storage: st,
            objects: ObjectMap::new(),
            to_relocate: Vec::new(),
            home: Ghost(Map::empty()),
        }
    }

    /// Gives every object the index that the storage now has for the cell
    /// of its position.
    fn reindex(&mut self)
        requires
            old(self).storage.wf(),
            old(self).objects.wf(),
            forall|k: u64| #[trigger]
                old(self).objects@.contains_key(k) ==> old(self).storage.envelope().covers(
                    old(self).objects@[k].pos,
                ),
        ensures
            final(self).storage == old(self).storage,
            final(self).to_relocate == old(self).to_relocate,
            final(self).home == old(self).home,
            final(self).objects.wf(),
            final(self).objects@.dom() == old(self).objects@.dom(),
            forall|k: u64| #[trigger]
                final(self).objects@.contains_key(k) ==> same_object(
                    old(self).objects@[k],
                    final(self).objects@[k],
                ) && final(self).objects@[k].cell_id == ST::index(
                    final(self).storage.envelope(),
                    final(self).storage.envelope().cell_of(final(self).objects@[k].pos),
                ),
    {
        let n = self.objects.len();
        let mut i: usize = 0;
        let ghost env = self.storage.envelope();
        proof {
            self.objects.lemma_order();
        }
        while i < n
            invariant
                self.storage == old(self).storage,
                self.to_relocate == old(self).to_relocate,
                self.home == old(self).home,
                self.storage.wf(),
                env == self.storage.envelope(),
                self.objects.wf(),
                self.objects.order() == old(self).objects.order(),
                n == self.objects.order().len(),
                i <= n,
                self.objects@.dom() == old(self).objects@.dom(),
                forall|k: u64| #[trigger]
                    self.objects@.contains_key(k) ==> same_object(
                        old(self).objects@[k],
                        self.objects@[k],
                    ),
                forall|k: u64| #[trigger]
                    old(self).objects@.contains_key(k) ==> env.covers(old(self).objects@[k].pos),
                forall|j: int|
                    0 <= j < i ==> (#[trigger] self.objects@[self.objects.order()[j]]).cell_id
                        == ST::index(env, env.cell_of(self.objects@[self.objects.order()[j]].pos)),
            decreases n - i,
        {
            let ghost before = self.objects@;
            let ghost order = self.objects.order();
            proof {
                self.objects.lemma_order();
            }
            let pos = self.objects.value_at(i).pos;
            let id = self.storage.cell_id(pos);
            let obj = self.objects.value_at_mut(i);
            obj.cell_id = id;
            proof {
                self.objects.lemma_order();
                let k = order[i as int];
                assert(self.objects@.dom() =~= before.dom());
                assert(before.contains_key(k));
                assert(env.covers(pos));
                assert forall|j: int| 0 <= j < i + 1 implies (#[trigger] self.objects@[order[j]]).cell_id
                    == ST::index(env, env.cell_of(self.objects@[order[j]].pos)) by {
                    if j < i {
                        assert(order[j] != order[i as int]);
                        assert(self.objects@[order[j]] == before[order[j]]);
                    }
                }
            }
            i += 1;
        }
        proof {
            self.objects.lemma_order();
            assert forall|k: u64| #[trigger] self.objects@.contains_key(k) implies self.objects@[k].cell_id
                == ST::index(env, env.cell_of(self.objects@[k].pos)) by {
                assert(self.objects.order().to_set().contains(k));
                let j = choose|j: int|
                    0 <= j < self.objects.order().len() && self.objects.order()[j] == k;
                assert(self.objects@[self.objects.order()[j]].cell_id == ST::index(
                    env,
                    env.cell_of(self.objects@[self.objects.order()[j]].pos),
                ));
            }
        }
    }

    /// Returns the number of objects currently available
    /// (removals that were not confirmed with maintain() are still counted)
    pub fn len(&self) -> (n: usize)
        requires
            self.wf(),
        ensures
            n == self.records().len(),
    {
        self.objects.len()
    }

    /// Checks if the grid contains objects or not
    /// (removals that were not confirmed with maintain() are still counted)
    pub fn is_empty(&self) -> (e: bool)
        requires
            self.wf(),
        ensures
            e == (self.records().len() == 0),
    {
        self.objects.is_empty()
    }

    /// The underlying storage
    pub fn storage(&self) -> (st: &ST)
        requires
            self.wf(),
        ensures
            st.wf(),
            st.cell_map() == self.cell_map(),
            st.envelope() == self.envelope(),
    {
        &self.storage
    }

    /// Returns a reference to the associated object and its position, using the handle.
    pub fn get(&self, id: GridHandle) -> (r: Option<(Point, &O)>)
        requires
            self.wf(),
        ensures
            match r {
                Some((pos, obj)) => self.records().contains_key(id@) && pos
                    == self.records()[id@].pos && *obj == self.records()[id@].obj,
                None => !self.records().contains_key(id@),
            },
    {
        match self.objects.get(id.key()) {
            Some(x) => Some((x.pos, &x.obj)),
            None => None,
        }
    }

    /// Returns a mutable reference to the associated object and its position, using the handle.
    ///
    /// Whatever is written through the reference, the object keeps its
    /// state and its position, and the lists stay as they are.
    pub fn get_mut(&mut self, id: GridHandle) -> (r: Option<(Point, &mut O)>)
        requires
            old(self).wf(),
        ensures
            final(self).wf(),
            final(self).envelope() == old(self).envelope(),
            final(self).cell_map() == old(self).cell_map(),
            forall|k: u64| final(self).home(k) == old(self).home(k),
            match r {
                Some((pos, obj)) => old(self).records().contains_key(id@) && pos == old(self).records()[id@].pos && *obj == old(self).records()[id@].obj && final(self).records() == old(self).records().insert(
                    id@,
                    StoreObject { obj: *final(obj), ..old(self).records()[id@] },
                ),
                None => !old(self).records().contains_key(id@) && final(self).records() == old(self).records(),
            },
    {
        proof {
            assert forall|g: Self|
                g.storage == self.storage && g.home == self.home && g.to_relocate
                    == self.to_relocate && g.objects.wf() && (forall|k: u64| #[trigger]
                    g.objects@.contains_key(k) <==> self.objects@.contains_key(k))
                    && (forall|k: u64| #[trigger]
                    g.objects@.contains_key(k) ==> g.objects@[k].pos == self.objects@[k].pos
                        && g.objects@[k].cell_id == self.objects@[k].cell_id) implies #[trigger] g.wf() by {
                assert(g.objects@.dom() =~= self.objects@.dom());
                assert forall|c: (int, int)| #[trigger] g.entries_at(c) == self.entries_at(c) by {}
                assert forall|k: u64| #[trigger]
                    g.records().contains_key(k) implies g.envelope().covers(g.records()[k].pos)
                    && g.records()[k].cell_id == ST::index(
                    g.envelope(),
                    g.envelope().cell_of(g.records()[k].pos),
                ) by {
                    assert(self.records().contains_key(k));
                }
                g.lemma_relink(self, Set::empty());
            }
        }
        match self.objects.get_mut(id.key()) {
            Some(x) => Some((x.pos, &mut x.obj)),
            None => None,
        }
    }

    /// Whether the grid holds the objects and the lists of `other`.
    pub open spec fn same_as(&self, other: &Self) -> bool {
        &&& self.records() == other.records()
        &&& self.cell_map() == other.cell_map()
        &&& self.envelope() == other.envelope()
        &&& forall|k: u64| self.home(k) == other.home(k)
    }

    /// Inserts a new object with a position and an associated object
    /// Returns the unique and stable handle to be used with get_obj
    ///
    /// The entry of the object goes to the end of the list of the cell of
    /// its position. Refuses a position for whose cell the storage cannot
    /// make room.
    pub fn insert(&mut self, pos: Point, obj: O) -> (r: Result<GridHandle, GridError>)
        requires
            old(self).wf(),
            old(self).records().len() < MAX_SLOTS,
        ensures
            final(self).wf(),
            old(self).can_cover(pos) ==> r is Ok,
            r is Ok ==> final(self).records().len() == old(self).records().len() + 1,
            old(self).all_booked() ==> final(self).all_booked(),
            match r {
                Ok(h) => {
                    let c0 = final(self).envelope().cell_of(pos);
                    &&& old(self).can_cover(pos)
                    &&& !old(self).records().contains_key(h@)
                    &&& final(self).records().dom() == old(self).records().dom().insert(h@)
                    &&& final(self).records()[h@].obj == obj
                    &&& final(self).records()[h@].state == ObjectState::Unchanged
                    &&& final(self).records()[h@].pos == pos
                    &&& final(self).home(h@) == c0
                    &&& final(self).envelope() == ST::grown(
                        old(self).envelope(),
                        old(self).envelope().cell_of(pos),
                    )
                    &&& ST::is_sparse() ==> final(self).cell_map().dom() == old(self).cell_map().dom().insert(c0)
                    &&& final(self).cached(h@) == pos
                    &&& forall|k: u64| #[trigger]
                        old(self).records().contains_key(k) ==> same_object(
                            old(self).records()[k],
                            final(self).records()[k],
                        ) && final(self).home(k) == old(self).home(k) && final(self).cached(k)
                            == old(self).cached(k)
                    &&& forall|c: (int, int)|
                        #[trigger] final(self).entries_at(c) == (if c == c0 {
                            old(self).entries_at(c).push((h, pos))
                        } else {
                            old(self).entries_at(c)
                        })
                    &&& forall|c: (int, int)| #[trigger]
                        final(self).is_dirty(c) == old(self).is_dirty(c)
                },
                Err(e) => e == GridError::PositionInvalid && !old(self).can_cover(pos) && final(self).same_as(old(self)),
            },
    {
        let (cell_id, reindexed) = match self.storage.cell_mut(pos) {
            Ok(x) => x,
            Err(e) => {
                proof {
                    self.lemma_relink(old(self), Set::empty());
                }
                return Err(e);
            },
        };
        proof {
            old(self).storage.lemma_wf();
            self.storage.lemma_wf();
            self.lemma_grown(old(self));
        }
        let ghost roomy = *self;
        if reindexed {
            self.reindex();
        } else {
            proof {
                self.lemma_stable(old(self));
            }
        }
        let ghost mid = *self;
        proof {
            assert forall|c: (int, int)| #[trigger] self.entries_at(c) == old(self).entries_at(
                c,
            ) by {
                assert(self.entries_at(c) == roomy.entries_at(c));
            }
            assert forall|c: (int, int)| #[trigger] self.is_dirty(c) == old(self).is_dirty(c) by {
                assert(self.is_dirty(c) == roomy.is_dirty(c));
            }
        }
        let ghost c0 = self.storage.envelope().cell_of(pos);
        proof {
            self.lemma_relink(old(self), Set::empty());
            ST::lemma_index(self.storage.envelope(), c0);
            self.objects.lemma_order();
        }
        let k = self.objects.insert(
            StoreObject { obj, state: ObjectState::Unchanged, pos, cell_id },
        );
        let handle = GridHandle::from_key(k);
        let cell = self.storage.cell_mut_unchecked(cell_id);
        cell.objs.push((handle, pos));
        proof {
            self.home@ = self.home@.insert(k, c0);
            assert forall|c: (int, int)| #[trigger] self.entries_at(c) == (if c == c0 {
                mid.entries_at(c).push((handle, pos))
            } else {
                mid.entries_at(c)
            }) by {}
            assert forall|kk: u64| #[trigger]
                self.records().contains_key(kk) implies has_entry(
                self.entries_at(self.home(kk)),
                kk,
            ) by {
                if kk == k {
                    let es = self.entries_at(c0);
                    assert(es[es.len() - 1].0@ == k);
                } else {
                    assert(mid.records().contains_key(kk));
                    let es = mid.entries_at(mid.home(kk));
                    let i = choose|i: int| 0 <= i < es.len() && (#[trigger] es[i]).0@ == kk;
                    assert(self.entries_at(self.home(kk))[i] == es[i]);
                }
            }
            assert forall|c: (int, int), i: int| 0 <= i < self.entries_at(c).len() implies {
                let kk = (#[trigger] self.entries_at(c)[i]).0@;
                self.records().contains_key(kk) && self.home(kk) == c
            } by {
                if i < mid.entries_at(c).len() {
                    let kk = mid.entries_at(c)[i].0@;
                    assert(mid.records().contains_key(kk));
                }
            }
            assert forall|c: (int, int), i: int, j: int|
                0 <= i < j < self.entries_at(c).len() implies (#[trigger] self.entries_at(
                c,
            )[i]).0@ != (#[trigger] self.entries_at(c)[j]).0@ by {
                let ki = mid.entries_at(c)[i].0@;
                assert(mid.records().contains_key(ki));
                if j < mid.entries_at(c).len() {
                    assert(mid.entries_at(c)[i].0@ != mid.entries_at(c)[j].0@);
                }
            }
            assert forall|kk: u64| #[trigger]
                self.records().contains_key(kk) implies self.envelope().covers(
                self.records()[kk].pos,
            ) && self.records()[kk].cell_id == ST::index(
                self.envelope(),
                self.envelope().cell_of(self.records()[kk].pos),
            ) by {
                if kk != k {
                    assert(mid.records().contains_key(kk));
                }
            }
            assert(self.linked(Set::empty()));
            let es0 = self.entries_at(c0);
            assert(es0[es0.len() - 1] == (handle, pos));
            self.lemma_cached(Set::empty(), c0, es0.len() - 1);
            self.lemma_cell_of_record(Set::empty(), k);
            assert forall|kk: u64| #[trigger]
                old(self).records().contains_key(kk) implies self.cached(kk) == old(self).cached(
                kk,
            ) && self.cell_of_record(kk) == old(self).cell_of_record(kk) by {
                assert(mid.records().contains_key(kk));
                let es = mid.entries_at(mid.home(kk));
                assert(es == old(self).entries_at(old(self).home(kk)));
                let i = choose|i: int| 0 <= i < es.len() && (#[trigger] es[i]).0@ == kk;
                mid.lemma_cached(Set::empty(), mid.home(kk), i);
                assert(self.entries_at(self.home(kk))[i] == es[i]);
                self.lemma_cached(Set::empty(), self.home(kk), i);
                self.lemma_cell_of_record(Set::empty(), kk);
                old(self).lemma_cell_of_record(Set::empty(), kk);
            }
            if old(self).all_booked() {
                assert forall|kk: u64| #[trigger] self.records().contains_key(kk) implies self.booked(
                    kk,
                ) by {
                    if kk != k {
                        assert(old(self).records().contains_key(kk));
                        assert(old(self).booked(kk));
                        assert(self.is_dirty(self.home(kk)) == old(self).is_dirty(
                            old(self).home(kk),
                        ));
                    }
                }
            }
        }
        Ok(handle)
    }

    /// An object points to the cell of its position.
    proof fn lemma_cell_of_record(&self, pending: Set<u64>, k: u64)
        requires
            self.linked(pending),
            self.envelope().wf(),
            self.envelope().bounded == !ST::is_sparse(),
            self.records().contains_key(k),
        ensures
            self.cell_of_record(k) == self.envelope().cell_of(self.records()[k].pos),
    {
        ST::lemma_index(self.envelope(), self.envelope().cell_of(self.records()[k].pos));
    }

    /// A grid with the lists, the keys and the homes of a linked grid, in
    /// which every object points to the cell of its position, is linked.
    proof fn lemma_relink(&self, before: &Self, pending: Set<u64>)
        requires
            before.linked(pending),
            forall|c: (int, int)| #[trigger] self.entries_at(c) == before.entries_at(c),
            self.records().dom() == before.records().dom(),
            forall|k: u64| self.home(k) == before.home(k),
            forall|k: u64| #[trigger]
                self.records().contains_key(k) ==> self.envelope().covers(self.records()[k].pos)
                    && self.records()[k].cell_id == ST::index(
                    self.envelope(),
                    self.envelope().cell_of(self.records()[k].pos),
                ),
        ensures
            self.linked(pending),
    {
        assert forall|c: (int, int), i: int| 0 <= i < self.entries_at(c).len() implies {
            let k = (#[trigger] self.entries_at(c)[i]).0@;
            self.records().contains_key(k) && self.home(k) == c && !pending.contains(k)
        } by {
            let k = before.entries_at(c)[i].0@;
            assert(before.records().contains_key(k));
        }
        assert forall|c: (int, int), i: int, j: int|
            0 <= i < j < self.entries_at(c).len() implies (#[trigger] self.entries_at(c)[i]).0@ != (
        #[trigger] self.entries_at(c)[j]).0@ by {
            assert(before.entries_at(c)[i].0@ != before.entries_at(c)[j].0@);
        }
        assert forall|k: u64| #[trigger]
            self.records().contains_key(k) && !pending.contains(k) implies has_entry(
            self.entries_at(self.home(k)),
            k,
        ) by {
            assert(before.records().contains_key(k));
            assert(has_entry(before.entries_at(before.home(k)), k));
        }
    }

    /// After the storage has made room, the lists are as they were and the
    /// objects lie where the storage can hold them.
    proof fn lemma_grown(&self, before: &Self)
        requires
            before.storage.wf(),
            self.storage.wf(),
            before.linked(Set::empty()),
            self.objects == before.objects,
            self.home == before.home,
            self.storage.envelope().cell_size == before.storage.envelope().cell_size,
            self.storage.envelope().bounded == before.storage.envelope().bounded,
            forall|c: (int, int)| #[trigger]
                before.storage.envelope().holds(c) ==> self.storage.envelope().holds(c),
            forall|c: (int, int)| #[trigger]
                before.storage.cell_map().contains_key(c) ==> self.storage.cell_map().contains_key(
                    c,
                ) && self.storage.cell_map()[c] == before.storage.cell_map()[c],
            forall|c: (int, int)| #[trigger]
                self.storage.cell_map().contains_key(c) && !before.storage.cell_map().contains_key(
                    c,
                ) ==> call_ensures(GridCell::default, (), self.storage.cell_map()[c]),
        ensures
            forall|c: (int, int)| #[trigger] self.entries_at(c) == before.entries_at(c),
            forall|c: (int, int)| #[trigger] self.is_dirty(c) == before.is_dirty(c),
            forall|k: u64| #[trigger]
                self.objects@.contains_key(k) ==> self.storage.envelope().covers(
                    self.objects@[k].pos,
                ),
    {
        assert forall|c: (int, int)| #[trigger] self.entries_at(c) == before.entries_at(c) by {
            if self.storage.cell_map().contains_key(c) && !before.storage.cell_map().contains_key(
                c,
            ) {
                assert(self.entries_at(c) =~= before.entries_at(c));
            }
        }
        assert forall|k: u64| #[trigger]
            self.objects@.contains_key(k) implies self.storage.envelope().covers(
            self.objects@[k].pos,
        ) by {
            assert(before.records().contains_key(k));
            assert(before.storage.envelope().holds(
                before.storage.envelope().cell_of(self.objects@[k].pos),
            ));
        }
    }

    /// Where the storage has made room without giving the cells other
    /// indexes, every object still points to the cell of its position.
    proof fn lemma_stable(&self, before: &Self)
        requires
            before.storage.wf(),
            self.storage.wf(),
            before.linked(Set::empty()),
            self.objects == before.objects,
            self.storage.envelope().cell_size == before.storage.envelope().cell_size,
            forall|k: u64| #[trigger]
                self.objects@.contains_key(k) ==> self.storage.envelope().covers(
                    self.objects@[k].pos,
                ),
            forall|i: ST::Idx| #[trigger]
                ST::valid(before.storage.envelope(), i) ==> ST::valid(self.storage.envelope(), i)
                    && ST::coord(self.storage.envelope(), i) == ST::coord(
                    before.storage.envelope(),
                    i,
                ),
        ensures
            forall|k: u64| #[trigger]
                self.objects@.contains_key(k) ==> self.objects@[k].cell_id == ST::index(
                    self.storage.envelope(),
                    self.storage.envelope().cell_of(self.objects@[k].pos),
                ),
    {
        before.storage.lemma_wf();
        self.storage.lemma_wf();
        let oenv = before.storage.envelope();
        let nenv = self.storage.envelope();
        assert forall|k: u64| #[trigger] self.objects@.contains_key(k) implies self.objects@[k].cell_id
            == ST::index(nenv, nenv.cell_of(self.objects@[k].pos)) by {
            assert(before.records().contains_key(k));
            let id = self.objects@[k].cell_id;
            let c = oenv.cell_of(self.objects@[k].pos);
            ST::lemma_index(oenv, c);
            assert(ST::valid(oenv, id));
            ST::lemma_coord(nenv, id);
        }
    }

    /// Lazily sets the position of an object (if it is not marked for deletion).
    /// This won't be taken into account until maintain() is called.
    ///
    /// The object gets the position at once and points to the cell of that
    /// position. Its entry stays where it is, and the cell to which the
    /// object pointed becomes dirty. An object that is marked for deletion
    /// stays as it is, whatever the position; the cell to which it points
    /// becomes dirty. Refuses a handle of no object, and a position for
    /// whose cell the storage cannot make room.
    pub fn set_position(&mut self, handle: GridHandle, pos: Point) -> (r: Result<(), GridError>)
        requires
            old(self).wf(),
        ensures
            final(self).wf(),
            !old(self).records().contains_key(handle@) ==> r == Err::<(), GridError>(
                GridError::HandleInvalid,
            ) && final(self).same_as(old(self)),
            old(self).records().contains_key(handle@) && old(self).records()[handle@].state
                == ObjectState::Removed ==> {
                let left = old(self).envelope().cell_of(old(self).records()[handle@].pos);
                &&& r is Ok
                &&& final(self).records() == old(self).records()
                &&& final(self).envelope() == old(self).envelope()
                &&& final(self).cell_map().dom() == old(self).cell_map().dom().insert(left)
                &&& forall|k: u64| final(self).home(k) == old(self).home(k)
                &&& forall|c: (int, int)| #[trigger]
                    final(self).entries_at(c) == old(self).entries_at(c)
                &&& forall|c: (int, int)| #[trigger]
                    final(self).is_dirty(c) == (old(self).is_dirty(c) || c == left)
            },
            old(self).records().contains_key(handle@) && old(self).records()[handle@].state
                != ObjectState::Removed && !old(self).can_cover(pos) ==> r == Err::<
                (),
                GridError,
            >(GridError::PositionInvalid) && final(self).same_as(old(self)),
            old(self).records().contains_key(handle@) && old(self).records()[handle@].state
                != ObjectState::Removed && old(self).can_cover(pos) ==> {
                let before = old(self).records()[handle@];
                let after = final(self).records()[handle@];
                let left = old(self).envelope().cell_of(before.pos);
                &&& r is Ok
                &&& final(self).records().dom() == old(self).records().dom()
                &&& final(self).envelope() == ST::grown(
                    old(self).envelope(),
                    old(self).envelope().cell_of(pos),
                )
                &&& ST::is_sparse() ==> final(self).cell_map().dom() == old(self).cell_map().dom().insert(old(self).envelope().cell_of(pos)).insert(left)
                &&& after.obj == before.obj
                &&& after.pos == pos
                &&& after.state == after_set_position(
                    before.state,
                    final(self).envelope().cell_of(pos) == left,
                )
                &&& forall|k: u64| #[trigger]
                    old(self).records().contains_key(k) && k != handle@ ==> same_object(
                        old(self).records()[k],
                        final(self).records()[k],
                    )
                &&& forall|k: u64| final(self).home(k) == old(self).home(k)
                &&& forall|c: (int, int)| #[trigger]
                    final(self).entries_at(c) == old(self).entries_at(c)
                &&& forall|c: (int, int)| #[trigger]
                    final(self).is_dirty(c) == (old(self).is_dirty(c) || c == left)
            },
            old(self).all_booked() && !old(self).strays(handle@, pos) ==> final(self).all_booked(),
    {
        let (removed, cur_id) = match self.objects.get(handle.key()) {
            Some(obj) => (
                match obj.state {
                    ObjectState::Removed => true,
                    _ => false,
                },
                obj.cell_id,
            ),
            None => {
                return Err(GridError::HandleInvalid);
            },
        };
        if removed {
            proof {
                let env = self.storage.envelope();
                self.storage.lemma_wf();
                ST::lemma_index(env, env.cell_of(old(self).records()[handle@].pos));
            }
            let cell = self.storage.cell_mut_unchecked(cur_id);
            cell.dirty = true;
            proof {
                let left = old(self).envelope().cell_of(old(self).records()[handle@].pos);
                assert forall|c: (int, int)| #[trigger] self.entries_at(c) == old(self).entries_at(
                    c,
                ) by {
                    if c == left {
                        assert(self.entries_at(c) =~= old(self).entries_at(c));
                    }
                }
                self.lemma_relink(old(self), Set::empty());
                if old(self).all_booked() {
                    assert forall|k: u64| #[trigger]
                        self.records().contains_key(k) implies self.booked(k) by {
                        assert(old(self).booked(k));
                        assert(self.entries_at(self.home(k)) == old(self).entries_at(
                            old(self).home(k),
                        ));
                        assert(self.is_dirty(self.home(k)) == (old(self).is_dirty(
                            old(self).home(k),
                        ) || self.home(k) == left));
                    }
                }
            }
            return Ok(());
        }
        let (target_id, reindexed) = match self.storage.cell_mut(pos) {
            Ok(x) => x,
            Err(e) => {
                proof {
                    self.lemma_relink(old(self), Set::empty());
                }
                return Err(e);
            },
        };
        proof {
            old(self).storage.lemma_wf();
            self.storage.lemma_wf();
            self.lemma_grown(old(self));
        }
        let ghost roomy = *self;
        if reindexed {
            self.reindex();
        } else {
            proof {
                self.lemma_stable(old(self));
            }
        }
        let ghost mid = *self;
        proof {
            assert forall|c: (int, int)| #[trigger] self.entries_at(c) == old(self).entries_at(
                c,
            ) by {
                assert(self.entries_at(c) == roomy.entries_at(c));
            }
            assert forall|c: (int, int)| #[trigger] self.is_dirty(c) == old(self).is_dirty(c) by {
                assert(self.is_dirty(c) == roomy.is_dirty(c));
            }
        }
        let ghost env = self.storage.envelope();
        let ghost left = env.cell_of(old(self).records()[handle@].pos);
        proof {
            self.lemma_relink(old(self), Set::empty());
            ST::lemma_index(env, env.cell_of(pos));
            ST::lemma_index(env, left);
        }
        let old_id = match self.objects.get_mut(handle.key()) {
            Some(obj) => {
                let old_id = obj.cell_id;
                obj.state = if ST::idx_eq(target_id, old_id) {
                    ObjectState::NewPos
                } else {
                    ObjectState::Relocate
                };
                obj.pos = pos;
                obj.cell_id = target_id;
                old_id
            },
            None => {
                return Err(GridError::HandleInvalid);
            },
        };
        let cell = self.storage.cell_mut_unchecked(old_id);
        cell.dirty = true;
        proof {
            assert forall|c: (int, int)| #[trigger] self.entries_at(c) == mid.entries_at(c) by {
                if c == left {
                    assert(self.entries_at(c) =~= mid.entries_at(c));
                }
            }
            assert forall|k: u64| #[trigger]
                self.records().contains_key(k) implies self.envelope().covers(
                self.records()[k].pos,
            ) && self.records()[k].cell_id == ST::index(
                self.envelope(),
                self.envelope().cell_of(self.records()[k].pos),
            ) by {
                if k != handle@ {
                    assert(mid.records().contains_key(k));
                }
            }
            assert(self.records().dom() =~= mid.records().dom());
            self.lemma_relink(&mid, Set::empty());
            if old(self).all_booked() && !old(self).strays(handle@, pos) {
                assert forall|k: u64| #[trigger] self.records().contains_key(k) implies self.booked(
                    k,
                ) by {
                    assert(old(self).records().contains_key(k));
                    assert(old(self).booked(k));
                    assert(mid.records().contains_key(k));
                    assert(self.entries_at(self.home(k)) == old(self).entries_at(
                        old(self).home(k),
                    ));
                    assert(self.is_dirty(self.home(k)) == (old(self).is_dirty(old(self).home(k))
                        || self.home(k) == left));
                    self.lemma_cell_of_record(Set::empty(), k);
                    old(self).lemma_cell_of_record(Set::empty(), k);
                }
            }
        }
        Ok(())
    }

    /// Lazily removes an object from the grid.
    /// This won't be taken into account until maintain() is called.
    ///
    /// The object is marked as removed, and the cell to which it points
    /// becomes dirty. Refuses a handle of no object.
    pub fn remove(&mut self, handle: GridHandle) -> (r: Result<(), GridError>)
        requires
            old(self).wf(),
        ensures
            final(self).wf(),
            !old(self).records().contains_key(handle@) ==> r == Err::<(), GridError>(
                GridError::HandleInvalid,
            ) && final(self).same_as(old(self)),
            old(self).records().contains_key(handle@) ==> {
                let before = old(self).records()[handle@];
                let after = final(self).records()[handle@];
                let left = old(self).envelope().cell_of(before.pos);
                &&& r is Ok
                &&& final(self).records().dom() == old(self).records().dom()
                &&& final(self).envelope() == old(self).envelope()
                &&& final(self).cell_map().dom() == old(self).cell_map().dom().insert(left)
                &&& after.obj == before.obj
                &&& after.pos == before.pos
                &&& after.state == ObjectState::Removed
                &&& forall|k: u64| #[trigger]
                    old(self).records().contains_key(k) && k != handle@ ==> same_object(
                        old(self).records()[k],
                        final(self).records()[k],
                    )
                &&& forall|k: u64| final(self).home(k) == old(self).home(k)
                &&& forall|c: (int, int)| #[trigger]
                    final(self).entries_at(c) == old(self).entries_at(c)
                &&& forall|c: (int, int)| #[trigger]
                    final(self).is_dirty(c) == (old(self).is_dirty(c) || c == left)
            },
            final(self).records().len() == old(self).records().len(),
            old(self).all_booked() ==> final(self).all_booked(),
    {
        let ghost env = self.storage.envelope();
        proof {
            self.storage.lemma_wf();
        }
        let id = match self.objects.get_mut(handle.key()) {
            Some(st) => {
                st.state = ObjectState::Removed;
                st.cell_id
            },
            None => {
                proof {
                    self.lemma_relink(old(self), Set::empty());
                }
                return Err(GridError::HandleInvalid);
            },
        };
        proof {
            ST::lemma_index(env, env.cell_of(old(self).records()[handle@].pos));
        }
        let cell = self.storage.cell_mut_unchecked(id);
        cell.dirty = true;
        proof {
            let left = env.cell_of(old(self).records()[handle@].pos);
            assert forall|c: (int, int)| #[trigger] self.entries_at(c) == old(self).entries_at(
                c,
            ) by {
                if c == left {
                    assert(self.entries_at(c) =~= old(self).entries_at(c));
                }
            }
            assert forall|k: u64| #[trigger]
                self.records().contains_key(k) implies self.envelope().covers(
                self.records()[k].pos,
            ) && self.records()[k].cell_id == ST::index(
                self.envelope(),
                self.envelope().cell_of(self.records()[k].pos),
            ) by {
                if k != handle@ {
                    assert(old(self).records().contains_key(k));
                }
            }
            assert(self.records().dom() =~= old(self).records().dom());
            self.lemma_relink(old(self), Set::empty());
            if old(self).all_booked() {
                assert forall|k: u64| #[trigger] self.records().contains_key(k) implies self.booked(
                    k,
                ) by {
                    assert(old(self).records().contains_key(k));
                    assert(old(self).booked(k));
                    assert(self.entries_at(self.home(k)) == old(self).entries_at(
                        old(self).home(k),
                    ));
                    assert(self.is_dirty(self.home(k)) == (old(self).is_dirty(old(self).home(k))
                        || self.home(k) == left));
                    self.lemma_cell_of_record(Set::empty(), k);
                    old(self).lemma_cell_of_record(Set::empty(), k);
                }
            }
        }
        Ok(())
    }

    /// The keys of the objects, in the order in which `handles` and
    /// `objects` give them.
    pub closed spec fn order(&self) -> Seq<u64> {
        self.objects.order()
    }

    /// The order names every object once.
    pub proof fn lemma_order(&self)
        requires
            self.wf(),
        ensures
            self.order().no_duplicates(),
            self.order().to_set() == self.records().dom(),
            self.order().len() == self.records().len(),
    {
        self.objects.lemma_order();
    }

    /// Iterate over all handles
    pub fn handles(&self) -> (hs: Vec<GridHandle>)
        requires
            self.wf(),
        ensures
            hs.len() == self.order().len(),
            forall|i: int| 0 <= i < hs.len() ==> (#[trigger] hs[i])@ == self.order()[i],
    {
        let n = self.objects.len();
        let mut hs: Vec<GridHandle> = Vec::new();
        let mut i: usize = 0;
        while i < n
            invariant
                self.objects.wf(),
                n == self.objects.order().len(),
                i <= n,
                hs.len() == i,
                forall|j: int| 0 <= j < i ==> (#[trigger] hs[j])@ == self.objects.order()[j],
            decreases n - i,
        {
            hs.push(GridHandle::from_key(self.objects.key_at(i)));
            i += 1;
        }
        hs
    }

    /// Iterate over all objects
    pub fn objects(&self) -> (os: Vec<&O>)
        requires
            self.wf(),
        ensures
            os.len() == self.order().len(),
            forall|i: int|
                0 <= i < os.len() ==> self.records().contains_key(#[trigger] self.order()[i])
                    && *os[i] == self.records()[self.order()[i]].obj,
    {
        let n = self.objects.len();
        let mut os: Vec<&O> = Vec::new();
        let mut i: usize = 0;
        while i < n
            invariant
                self.objects.wf(),
                n == self.objects.order().len(),
                i <= n,
                os.len() == i,
                forall|j: int|
                    0 <= j < i ==> self.objects@.contains_key(#[trigger] self.objects.order()[j])
                        && *os[j] == self.objects@[self.objects.order()[j]].obj,
            decreases n - i,
        {
            let ghost prev = os@;
            let v = self.objects.value_at(i);
            os.push(&v.obj);
            proof {
                assert forall|j: int| 0 <= j < i + 1 implies self.objects@.contains_key(
                    #[trigger] self.objects.order()[j],
                ) && *os[j] == self.objects@[self.objects.order()[j]].obj by {
                    if j < i {
                        assert(os[j] == prev[j]);
                    }
                }
            }
            i += 1;
        }
        os
    }

    /// The entries of the first `n` cells of the rectangle from `c1` to
    /// `c2`, cell after cell.
    pub open spec fn gather(&self, c1: (int, int), c2: (int, int), n: nat) -> Seq<CellObject>
        decreases n,
    {
        if n == 0 {
            Seq::empty()
        } else {
            self.gather(c1, c2, (n - 1) as nat) + self.entries_at(rect_at(c1, c2, n - 1))
        }
    }

    /// The entries of the cells that lie in the rectangle between the cell
    /// of `ll` and the cell of `ur`, or between the nearest cells that the
    /// storage can hold, row by row.
    pub open spec fn raw(&self, ll: Point, ur: Point) -> Seq<CellObject> {
        let env = self.envelope();
        if env.is_empty() {
            Seq::empty()
        } else {
            let c1 = env.nearest(env.cell_of(ll));
            let c2 = env.nearest(env.cell_of(ur));
            self.gather(c1, c2, rect_len(c1, c2))
        }
    }

    /// Queries for all objects in the cells intersecting an axis-aligned rectangle defined by lower left (ll) and upper right (ur)
    /// Try to keep the rect's width/height of similar magnitudes to the cell size for better performance.
    pub fn query_raw(&self, ll: Point, ur: Point) -> (r: Vec<CellObject>)
        requires
            self.wf(),
        ensures
            r@ == self.raw(ll, ur),
    {
        let ll_id = self.storage.cell_id(ll);
        let ur_id = self.storage.cell_id(ur);
        let ghost env = self.storage.envelope();
        let ghost c1 = env.nearest(env.cell_of(ll));
        let ghost c2 = env.nearest(env.cell_of(ur));
        proof {
            self.storage.lemma_wf();
            crate::math::lemma_cell_coord_range(ll.x as int, env.cell_size);
            crate::math::lemma_cell_coord_range(ll.y as int, env.cell_size);
            crate::math::lemma_cell_coord_range(ur.x as int, env.cell_size);
            crate::math::lemma_cell_coord_range(ur.y as int, env.cell_size);
            if !env.is_empty() {
                ST::lemma_index(env, c1);
                ST::lemma_index(env, c2);
            }
        }
        let mut it = self.storage.cell_range(ll_id, ur_id);
        let ghost total = it.remaining();
        let ghost mut k: int = 0;
        let mut out: Vec<CellObject> = Vec::new();
        loop
            invariant
                self.storage.wf(),
                env == self.storage.envelope(),
                it.wf(),
                0 <= k <= total.len(),
                it.remaining() == total.skip(k),
                env.is_empty() ==> total.len() == 0,
                !env.is_empty() ==> total.len() == rect_len(c1, c2) && forall|j: int|
                    0 <= j < total.len() ==> ST::valid(env, #[trigger] total[j]) && ST::coord(
                        env,
                        total[j],
                    ) == rect_at(c1, c2, j),
                out@ == self.gather(c1, c2, k as nat),
            ensures
                k == total.len(),
            decreases total.len() - k,
        {
            match it.next() {
                Some(id) => {
                    proof {
                        assert(id == total[k]);
                    }
                    match self.storage.cell(id) {
                        Some(cell) => {
                            let n = cell.objs.len();
                            let mut j: usize = 0;
                            let ghost base = out@;
                            while j < n
                                invariant
                                    j <= n,
                                    n == cell.objs.len(),
                                    out@ == base + cell.objs@.take(j as int),
                                decreases n - j,
                            {
                                out.push(cell.objs[j]);
                                j += 1;
                            }
                            proof {
                                assert(cell.objs@.take(n as int) == cell.objs@);
                            }
                        },
                        None => {
                            proof {
                                assert(out@ + Seq::<CellObject>::empty() == out@);
                            }
                        },
                    }
                    proof {
                        k = k + 1;
                    }
                },
                None => {
                    break ;
                },
            }
        }
        out
    }

    /// Queries for all objects in an aabb (aka a rect).
    /// Try to keep the rect's width/height of similar magnitudes to the cell size for better performance.
    ///
    /// The two points span the rect, whichever corners they are. The entries
    /// come as the lists of the cells hold them: with the positions of the
    /// last `maintain`.
    pub fn query_aabb(&self, aa: Point, bb: Point) -> (r: Vec<CellObject>)
        requires
            self.wf(),
        ensures
            r@ == self.raw(span(aa, bb).ll, span(aa, bb).ur).filter(inside(span(aa, bb))),
    {
        let rect = AABB::new(aa, bb);
        let raw = self.query_raw(rect.ll, rect.ur);
        let ghost pred = inside(span(aa, bb));
        let mut out: Vec<CellObject> = Vec::new();
        let mut i: usize = 0;
        proof {
            reveal(Seq::filter);
        }
        while i < raw.len()
            invariant
                i <= raw.len(),
                rect == span(aa, bb),
                pred == inside(span(aa, bb)),
                out@ == raw@.take(i as int).filter(pred),
            decreases raw.len() - i,
        {
            let e = raw[i];
            proof {
                reveal(Seq::filter);
                assert(raw@.take(i + 1).drop_last() == raw@.take(i as int));
            }
            if rect.contains(e.1) {
                out.push(e);
            }
            i += 1;
        }
        proof {
            assert(raw@.take(raw.len() as int) == raw@);
        }
        out
    }

    /// Queries for all objects around a position within a certain radius.
    /// Try to keep the radius asked and the cell size of similar magnitude for better performance.
    ///
    /// An entry is given when the square of the distance from its position
    /// to `pos` is less than the square of the radius.
    pub fn query_around(&self, pos: Point, radius: u32) -> (r: Vec<CellObject>)
        requires
            self.wf(),
        ensures
            r@ == self.raw(around(pos, radius as int).ll, around(pos, radius as int).ur).filter(
                within(pos, radius as int),
            ),
    {
        let rect = around_box(pos, radius);
        let raw = self.query_raw(rect.ll, rect.ur);
        assert(radius * radius <= 0xffff_ffff * 0xffff_ffff) by (nonlinear_arith)
            requires
                0 <= radius <= 0xffff_ffff,
        ;
        let radius2: u128 = (radius as u128) * (radius as u128);
        let ghost pred = within(pos, radius as int);
        let mut out: Vec<CellObject> = Vec::new();
        let mut i: usize = 0;
        proof {
            reveal(Seq::filter);
        }
        while i < raw.len()
            invariant
                i <= raw.len(),
                radius2 == radius * radius,
                pred == within(pos, radius as int),
                out@ == raw@.take(i as int).filter(pred),
            decreases raw.len() - i,
        {
            let e = raw[i];
            proof {
                reveal(Seq::filter);
                assert(raw@.take(i + 1).drop_last() == raw@.take(i as int));
            }
            if distance_squared(e.1, pos) < radius2 {
                out.push(e);
            }
            i += 1;
        }
        proof {
            assert(raw@.take(raw.len() as int) == raw@);
        }
        out
    }

    /// Allows to look directly at what's in a cell covering a specific position.
    pub fn get_cell(&self, pos: Point) -> (r: Vec<CellObject>)
        requires
            self.wf(),
        ensures
            r@ == (if self.envelope().is_empty() {
                Seq::<CellObject>::empty()
            } else {
                self.entries_at(self.envelope().nearest(self.envelope().cell_of(pos)))
            }),
    {
        let id = self.storage.cell_id(pos);
        let ghost env = self.storage.envelope();
        proof {
            self.storage.lemma_wf();
            crate::math::lemma_cell_coord_range(pos.x as int, env.cell_size);
            crate::math::lemma_cell_coord_range(pos.y as int, env.cell_size);
            if !env.is_empty() {
                ST::lemma_index(env, env.nearest(env.cell_of(pos)));
            }
        }
        let mut out: Vec<CellObject> = Vec::new();
        match self.storage.cell(id) {
            Some(cell) => {
                let n = cell.objs.len();
                let mut j: usize = 0;
                while j < n
                    invariant
                        j <= n,
                        n == cell.objs.len(),
                        out@ == cell.objs@.take(j as int),
                    decreases n - j,
                {
                    out.push(cell.objs[j]);
                    j += 1;
                }
                proof {
                    assert(cell.objs@.take(n as int) == cell.objs@);
                }
            },
            None => {},
        }
        out
    }

    /// Whether the object under key `k` is on the books: an unchanged
    /// object has its entry, with its position, in the cell to which it
    /// points; an object with a new position in its cell has its entry in
    /// that cell, which is dirty; and the home of any other object is dirty.
    pub open spec fn booked(&self, k: u64) -> bool {
        match self.records()[k].state {
            ObjectState::Unchanged => self.home(k) == self.cell_of_record(k) && self.cached(k)
                == self.records()[k].pos,
            ObjectState::NewPos => self.swept(k) && self.home(k) == self.cell_of_record(k),
            _ => self.swept(k),
        }
    }

    /// Whether a change of the position of the object under key `k` to
    /// `pos` takes the object off the books: the object is on its way to
    /// another cell than its home, and `pos` lies in that cell. The object
    /// then counts as one with a new position in its cell, and its entry
    /// stays in its home.
    pub open spec fn strays(&self, k: u64, pos: Point) -> bool {
        &&& self.records().contains_key(k)
        &&& self.records()[k].state == ObjectState::Relocate
        &&& self.home(k) != self.cell_of_record(k)
        &&& self.envelope().cell_of(pos) == self.cell_of_record(k)
    }

    /// Whether every object is on the books.
    pub open spec fn all_booked(&self) -> bool {
        forall|k: u64| #[trigger] self.records().contains_key(k) ==> self.booked(k)
    }

    /// Whether the lists mirror the objects: every object is unchanged and
    /// has its entry, with its position, in the cell of its position, and no
    /// cell is dirty.
    pub open spec fn in_sync(&self) -> bool {
        &&& forall|k: u64| #[trigger]
            self.records().contains_key(k) ==> self.records()[k].state == ObjectState::Unchanged
                && self.home(k) == self.envelope().cell_of(self.records()[k].pos) && self.cached(k)
                == self.records()[k].pos
        &&& forall|c: (int, int)| !#[trigger] self.is_dirty(c)
    }

    /// The entries that wait for their cell while `maintain` runs.
    pub closed spec fn queue(&self) -> Seq<CellObject> {
        self.to_relocate@
    }

    /// Whether `maintain` sweeps the home of the object under key `k`.
    pub open spec fn swept(&self, k: u64) -> bool {
        self.is_dirty(self.home(k))
    }

    /// In a linked grid the position of an entry is the cached position of
    /// its object.
    proof fn lemma_cached(&self, pending: Set<u64>, c: (int, int), i: int)
        requires
            self.linked(pending),
            0 <= i < self.entries_at(c).len(),
        ensures
            self.home(self.entries_at(c)[i].0@) == c,
            self.cached(self.entries_at(c)[i].0@) == self.entries_at(c)[i].1,
    {
        let es = self.entries_at(c);
        let k = es[i].0@;
        let j = choose|j: int| 0 <= j < es.len() && (#[trigger] es[j]).0@ == k;
        if j < i {
            assert(es[j].0@ != es[i].0@);
        }
        if i < j {
            assert(es[i].0@ != es[j].0@);
        }
    }

    /// What the sweep of the cells of `done` has made of the object under
    /// key `k` of the grid `before`.
    pub open spec fn mid_from(&self, before: &Self, k: u64, done: Set<(int, int)>) -> bool {
        let b = before.records()[k];
        let sw = before.swept(k) && done.contains(before.home(k));
        if sw && b.state == ObjectState::Removed {
            !self.records().contains_key(k)
        } else {
            &&& self.records().contains_key(k)
            &&& self.records()[k] == (StoreObject {
                state: if sw {
                    ObjectState::Unchanged
                } else {
                    b.state
                },
                ..b
            })
            &&& if sw && b.state == ObjectState::Relocate {
                has_entry(self.queue(), k)
            } else {
                !has_entry(self.queue(), k) && self.cached(k) == (if sw && b.state
                    == ObjectState::NewPos {
                    b.pos
                } else {
                    before.cached(k)
                })
            }
        }
    }

    /// What holds while the cells are swept, when the cells of `done` are.
    pub open spec fn sweeping(&self, before: &Self, done: Set<(int, int)>) -> bool {
        &&& self.envelope() == before.envelope()
        &&& self.cell_map().dom() == before.cell_map().dom()
        &&& forall|k: u64| self.home(k) == before.home(k)
        &&& self.linked(Set::new(|k: u64| has_entry(self.queue(), k)))
        &&& keys_distinct(self.queue())
        &&& forall|c: (int, int)| done.contains(c) ==> !#[trigger] self.is_dirty(c)
        &&& forall|c: (int, int)|
            !done.contains(c) && #[trigger] self.cell_map().contains_key(c) ==> self.cell_map()[c]
                == before.cell_map()[c]
        &&& forall|j: int|
            0 <= j < self.queue().len() ==> {
                let k = (#[trigger] self.queue()[j]).0@;
                &&& before.records().contains_key(k)
                &&& done.contains(before.home(k))
                &&& self.records().contains_key(k)
                &&& self.queue()[j].1 == self.records()[k].pos
            }
        &&& forall|k: u64| #[trigger]
            self.records().contains_key(k) ==> before.records().contains_key(k)
        &&& forall|k: u64| #[trigger]
            before.records().contains_key(k) ==> self.mid_from(before, k, done)
    }

    /// One more cell swept.
    proof fn lemma_sweep_cell(
        &self,
        prev: &Self,
        before: &Self,
        c: (int, int),
        done: Set<(int, int)>,
    )
        requires
            prev.sweeping(before, done),
            before.linked(Set::empty()),
            !done.contains(c),
            prev.cell_map().contains_key(c),
            self.envelope() == prev.envelope(),
            forall|k: u64| self.home(k) == prev.home(k),
            self.cell_map().contains_key(c),
            self.cell_map() == prev.cell_map().insert(c, self.cell_map()[c]),
            !prev.cell_map()[c].dirty ==> self.cell_map()[c] == prev.cell_map()[c]
                && self.records() == prev.records() && self.queue() == prev.queue(),
            prev.cell_map()[c].dirty ==> {
                let s = sweep(prev.cell_map()[c].objs@, prev.records());
                &&& self.cell_map()[c].objs@ == s.kept
                &&& !self.cell_map()[c].dirty
                &&& self.records() == s.objects
                &&& self.queue() == prev.queue() + s.moved
            },
        ensures
            self.sweeping(before, done.insert(c)),
    {
        let done2 = done.insert(c);
        let pend = Set::new(|k: u64| has_entry(prev.queue(), k));
        let pend2 = Set::new(|k: u64| has_entry(self.queue(), k));
        let es = prev.entries_at(c);
        let m = prev.records();
        assert(self.cell_map().dom() =~= prev.cell_map().dom());
        assert(es == before.entries_at(c));
        assert forall|cc: (int, int)| cc != c implies #[trigger] self.entries_at(cc)
            == prev.entries_at(cc) by {}
        assert forall|cc: (int, int)| cc != c implies #[trigger] self.is_dirty(cc)
            == prev.is_dirty(cc) by {}
        // the entries of the cell are entries of objects that were not swept
        assert forall|i: int| 0 <= i < es.len() implies {
            let k = (#[trigger] es[i]).0@;
            &&& m.contains_key(k)
            &&& prev.home(k) == c
            &&& !has_entry(prev.queue(), k)
            &&& before.records().contains_key(k)
            &&& m[k] == before.records()[k]
            &&& prev.cached(k) == es[i].1
            &&& before.cached(k) == es[i].1
        } by {
            let k = es[i].0@;
            assert(prev.entries_at(c)[i].0@ == k);
            assert(!pend.contains(k));
            prev.lemma_cached(pend, c, i);
            before.lemma_cached(Set::empty(), c, i);
            assert(prev.mid_from(before, k, done));
        }
        if !prev.cell_map()[c].dirty {
            assert(pend2 =~= pend);
            assert forall|cc: (int, int)| #[trigger] self.entries_at(cc) == prev.entries_at(
                cc,
            ) by {}
            self.lemma_relink(prev, pend);
            assert forall|k: u64| #[trigger] before.records().contains_key(k) implies self.mid_from(
                before,
                k,
                done2,
            ) by {
                assert(prev.mid_from(before, k, done));
            }
            assert(self.sweeping(before, done2));
        } else {
            let s = sweep(es, m);
            assert(keys_distinct(es)) by {
                assert forall|i: int, j: int| 0 <= i < j < es.len() implies (#[trigger] es[i]).0@
                    != (#[trigger] es[j]).0@ by {
                    assert(prev.entries_at(c)[i].0@ != prev.entries_at(c)[j].0@);
                }
            }
            lemma_sweep(es, m);
            // an object with an entry in the cell has its home there, and the other way round
            assert forall|k: u64| m.contains_key(k) && !pend.contains(k) implies (has_entry(es, k)
                <==> prev.home(k) == c) by {
                if has_entry(es, k) {
                    let i = choose|i: int| 0 <= i < es.len() && (#[trigger] es[i]).0@ == k;
                }
                if prev.home(k) == c {
                    assert(has_entry(prev.entries_at(prev.home(k)), k));
                }
            }
            assert forall|k: u64| pend.contains(k) implies !has_entry(es, k) by {
                if has_entry(es, k) {
                    let i = choose|i: int| 0 <= i < es.len() && (#[trigger] es[i]).0@ == k;
                }
            }
            // the queue
            assert forall|j: int| 0 <= j < s.moved.len() implies {
                let k = (#[trigger] s.moved[j]).0@;
                &&& has_entry(es, k)
                &&& m.contains_key(k)
                &&& m[k].state == ObjectState::Relocate
                &&& s.moved[j].1 == m[k].pos
                &&& before.records().contains_key(k)
                &&& before.home(k) == c
                &&& m[k] == before.records()[k]
            } by {
                assert(moved_from(es, m, s.moved[j]));
                let i = choose|i: int|
                    0 <= i < es.len() && (#[trigger] es[i]).0 == s.moved[j].0 && m[es[i].0@].state
                        == ObjectState::Relocate && s.moved[j].1 == m[es[i].0@].pos;
                assert(es[i].0@ == s.moved[j].0@);
            }
            assert forall|j: int| 0 <= j < s.kept.len() implies {
                let k = (#[trigger] s.kept[j]).0@;
                &&& has_entry(es, k)
                &&& m.contains_key(k)
                &&& stays(m[k].state)
                &&& s.kept[j].1 == (if m[k].state == ObjectState::NewPos {
                    m[k].pos
                } else {
                    prev.cached(k)
                })
                &&& prev.home(k) == c
            } by {
                assert(kept_from(es, m, s.kept[j]));
                let i = choose|i: int|
                    0 <= i < es.len() && (#[trigger] es[i]).0 == s.kept[j].0 && stays(
                        m[es[i].0@].state,
                    ) && s.kept[j].1 == (if m[es[i].0@].state == ObjectState::NewPos {
                        m[es[i].0@].pos
                    } else {
                        es[i].1
                    });
                assert(es[i].0@ == s.kept[j].0@);
            }
            let q = self.queue();
            let q0 = prev.queue();
            assert forall|k: u64| has_entry(q, k) <==> (has_entry(q0, k) || has_entry(
                s.moved,
                k,
            )) by {
                if has_entry(q0, k) {
                    let j = choose|j: int| 0 <= j < q0.len() && (#[trigger] q0[j]).0@ == k;
                    assert(q[j].0@ == k);
                }
                if has_entry(s.moved, k) {
                    let j = choose|j: int| 0 <= j < s.moved.len() && (#[trigger] s.moved[j]).0@ == k;
                    assert(q[q0.len() + j].0@ == k);
                }
                if has_entry(q, k) {
                    let j = choose|j: int| 0 <= j < q.len() && (#[trigger] q[j]).0@ == k;
                    if j < q0.len() {
                        assert(q0[j].0@ == k);
                    } else {
                        assert(s.moved[j - q0.len()].0@ == k);
                    }
                }
            }
            assert(keys_distinct(q)) by {
                assert forall|i: int, j: int| 0 <= i < j < q.len() implies (#[trigger] q[i]).0@ != (
                #[trigger] q[j]).0@ by {
                    if j < q0.len() {
                        assert(q0[i].0@ != q0[j].0@);
                    } else if i >= q0.len() {
                        assert(s.moved[i - q0.len()].0@ != s.moved[j - q0.len()].0@);
                    } else {
                        assert(q0[i].0@ == q[i].0@);
                        assert(s.moved[j - q0.len()].0@ == q[j].0@);
                    }
                }
            }
            assert forall|j: int| 0 <= j < q.len() implies {
                let k = (#[trigger] q[j]).0@;
                &&& before.records().contains_key(k)
                &&& done2.contains(before.home(k))
                &&& self.records().contains_key(k)
                &&& q[j].1 == self.records()[k].pos
            } by {
                let k = q[j].0@;
                if j < q0.len() {
                    assert(q0[j] == q[j]);
                    assert(pend.contains(k));
                    assert(m.contains_key(k));
                    assert(self.records().contains_key(k));
                } else {
                    assert(s.moved[j - q0.len()] == q[j]);
                    assert(self.records().contains_key(k));
                }
            }
            // the lists and the objects hang together
            assert forall|cc: (int, int), i: int| 0 <= i < self.entries_at(cc).len() implies {
                let k = (#[trigger] self.entries_at(cc)[i]).0@;
                self.records().contains_key(k) && self.home(k) == cc && !pend2.contains(k)
            } by {
                if cc == c {
                    let k = s.kept[i].0@;
                    if has_entry(s.moved, k) {
                        let j = choose|j: int|
                            0 <= j < s.moved.len() && (#[trigger] s.moved[j]).0@ == k;
                    }
                } else {
                    let k = prev.entries_at(cc)[i].0@;
                    assert(m.contains_key(k) && prev.home(k) == cc && !pend.contains(k));
                    if has_entry(s.moved, k) {
                        let j = choose|j: int|
                            0 <= j < s.moved.len() && (#[trigger] s.moved[j]).0@ == k;
                    }
                }
            }
            assert forall|cc: (int, int), i: int, j: int|
                0 <= i < j < self.entries_at(cc).len() implies (#[trigger] self.entries_at(
                cc,
            )[i]).0@ != (#[trigger] self.entries_at(cc)[j]).0@ by {
                if cc == c {
                    assert(s.kept[i].0@ != s.kept[j].0@);
                } else {
                    assert(prev.entries_at(cc)[i].0@ != prev.entries_at(cc)[j].0@);
                }
            }
            assert forall|k: u64| #[trigger]
                self.records().contains_key(k) && !pend2.contains(k) implies has_entry(
                self.entries_at(self.home(k)),
                k,
            ) by {
                assert(m.contains_key(k));
                assert(!pend.contains(k));
                assert(has_entry(prev.entries_at(prev.home(k)), k));
                if prev.home(k) == c {
                    let i = choose|i: int| 0 <= i < es.len() && (#[trigger] es[i]).0@ == k;
                    assert(m[es[i].0@].state != ObjectState::Relocate);
                    assert(stays(m[es[i].0@].state));
                }
            }
            assert forall|k: u64| #[trigger]
                self.records().contains_key(k) implies self.envelope().covers(
                self.records()[k].pos,
            ) && self.records()[k].cell_id == ST::index(
                self.envelope(),
                self.envelope().cell_of(self.records()[k].pos),
            ) by {
                assert(m.contains_key(k));
            }
            assert(self.linked(pend2));
            // object by object
            assert forall|k: u64| #[trigger] before.records().contains_key(k) implies self.mid_from(
                before,
                k,
                done2,
            ) by {
                assert(prev.mid_from(before, k, done));
                assert(self.records().contains_key(k) <==> m.contains_key(k) && !(has_entry(es, k)
                    && m[k].state == ObjectState::Removed));
                assert(has_entry(q, k) <==> (has_entry(q0, k) || has_entry(s.moved, k)));
                if before.home(k) == c {
                    // not swept before this step
                    assert(m.contains_key(k) && m[k] == before.records()[k]);
                    assert(!pend.contains(k));
                    assert(has_entry(es, k));
                    let i = choose|i: int| 0 <= i < es.len() && (#[trigger] es[i]).0@ == k;
                    assert(before.swept(k));
                    if stays(m[k].state) {
                        assert(has_entry(s.kept, es[i].0@));
                        let j = choose|j: int| 0 <= j < s.kept.len() && (#[trigger] s.kept[j]).0@ == k;
                        assert(self.entries_at(c)[j] == s.kept[j]);
                        self.lemma_cached(pend2, c, j);
                        if has_entry(s.moved, k) {
                            let j2 = choose|j2: int|
                                0 <= j2 < s.moved.len() && (#[trigger] s.moved[j2]).0@ == k;
                        }
                    } else if m[k].state == ObjectState::Relocate {
                        assert(has_entry(s.moved, es[i].0@));
                    }
                } else {
                    assert(!has_entry(es, k)) by {
                        if has_entry(es, k) {
                            let i = choose|i: int| 0 <= i < es.len() && (#[trigger] es[i]).0@ == k;
                        }
                    }
                    if has_entry(s.moved, k) {
                        let j = choose|j: int| 0 <= j < s.moved.len() && (#[trigger] s.moved[j]).0@ == k;
                    }
                    if m.contains_key(k) {
                        assert(self.records().contains_key(k));
                        assert(self.records()[k] == m[k]);
                        assert(self.entries_at(self.home(k)) == prev.entries_at(prev.home(k)));
                    }
                }
            }
            assert(self.sweeping(before, done2));
        }
    }

    /// Sweeps every cell.
    fn sweep_cells(&mut self)
        requires
            old(self).wf(),
        ensures
            final(self).storage.wf(),
            final(self).objects.wf(),
            final(self).sweeping(old(self), old(self).cell_map().dom()),
    {
        let ids = self.storage.cell_ids();
        let n = ids.len();
        let mut i: usize = 0;
        let ghost before = *self;
        let ghost env = self.storage.envelope();
        let ghost mut done: Set<(int, int)> = Set::empty();
        proof {
            self.storage.lemma_wf();
            assert(Set::new(|k: u64| has_entry(self.queue(), k)) =~= Set::<u64>::empty());
            assert(self.sweeping(&before, done));
        }
        while i < n
            invariant
                before == *old(self),
                before.linked(Set::empty()),
                self.storage.wf(),
                self.objects.wf(),
                env == self.storage.envelope(),
                env.wf(),
                env.bounded == !ST::is_sparse(),
                n == ids.len(),
                i <= n,
                ids@.no_duplicates(),
                forall|j: int|
                    0 <= j < n ==> ST::valid(env, #[trigger] ids[j]) && before.cell_map().contains_key(
                        ST::coord(env, ids[j]),
                    ),
                forall|c: (int, int)| #[trigger]
                    before.cell_map().contains_key(c) ==> ids@.contains(ST::index(env, c))
                        && env.holds(c),
                forall|c: (int, int)|
                    done.contains(c) <==> exists|j: int|
                        0 <= j < i && ST::coord(env, #[trigger] ids[j]) == c,
                self.sweeping(&before, done),
            decreases n - i,
        {
            let ghost prev = *self;
            let id = ids[i];
            let ghost c = ST::coord(env, id);
            proof {
                if done.contains(c) {
                    let j = choose|j: int| 0 <= j < i && ST::coord(env, #[trigger] ids[j]) == c;
                    ST::lemma_coord(env, ids[j]);
                    ST::lemma_coord(env, id);
                    assert(ids[j] == ids[i as int]);
                }
            }
            let cell = self.storage.cell_mut_unchecked(id);
            cell.maintain(&mut self.objects, &mut self.to_relocate);
            proof {
                assert(self.cell_map().contains_key(c));
                self.lemma_sweep_cell(&prev, &before, c, done);
                let done2 = done.insert(c);
                assert forall|cc: (int, int)|
                    done2.contains(cc) <==> exists|j: int|
                        0 <= j < i + 1 && ST::coord(env, #[trigger] ids[j]) == cc by {
                    if done.contains(cc) {
                        let j = choose|j: int| 0 <= j < i && ST::coord(env, #[trigger] ids[j]) == cc;
                        assert(0 <= j < i + 1 && ST::coord(env, ids[j]) == cc);
                    }
                    if cc == c {
                        assert(ST::coord(env, ids[i as int]) == cc);
                    }
                }
                done = done2;
            }
            i += 1;
        }
        proof {
            assert(done =~= before.cell_map().dom()) by {
                assert forall|c: (int, int)| before.cell_map().contains_key(c) implies done.contains(
                    c,
                ) by {
                    let id = ST::index(env, c);
                    let j = choose|j: int| 0 <= j < ids@.len() && ids@[j] == id;
                    ST::lemma_index(env, c);
                    assert(ST::coord(env, ids[j]) == c);
                }
            }
        }
    }

    /// What holds while the entries of the queue go to their cells, when
    /// the first `j` have gone.
    pub open spec fn placing(&self, mid: &Self, j: int) -> bool {
        let q = self.queue();
        &&& self.envelope() == mid.envelope()
        &&& self.records() == mid.records()
        &&& q == mid.queue()
        &&& self.linked(queued(q, j, q.len() as int))
        &&& forall|c: (int, int)| !#[trigger] self.is_dirty(c)
        &&& forall|c: (int, int)| #[trigger]
            mid.cell_map().contains_key(c) ==> self.cell_map().contains_key(c)
        &&& forall|k: u64| #[trigger]
            self.records().contains_key(k) ==> if queued(q, 0, j).contains(k) {
                self.home(k) == self.cell_of_record(k) && self.cached(k) == self.records()[k].pos
            } else {
                self.home(k) == mid.home(k) && (!has_entry(q, k) ==> self.cached(k) == mid.cached(
                    k,
                ))
            }
    }

    /// Gives every entry of the queue to the cell to which its object
    /// points.
    fn relocate(&mut self)
        requires
            old(self).storage.wf(),
            old(self).objects.wf(),
            old(self).linked(Set::new(|k: u64| has_entry(old(self).queue(), k))),
            keys_distinct(old(self).queue()),
            forall|j: int|
                0 <= j < old(self).queue().len() ==> old(self).records().contains_key(
                    (#[trigger] old(self).queue()[j]).0@,
                ) && old(self).queue()[j].1 == old(self).records()[old(self).queue()[j].0@].pos,
            forall|c: (int, int)| !#[trigger] old(self).is_dirty(c),
        ensures
            final(self).wf(),
            final(self).envelope() == old(self).envelope(),
            final(self).records() == old(self).records(),
            forall|c: (int, int)| !#[trigger] final(self).is_dirty(c),
            forall|k: u64| #[trigger]
                final(self).records().contains_key(k) ==> if has_entry(old(self).queue(), k) {
                    final(self).home(k) == final(self).cell_of_record(k) && final(self).cached(k)
                        == final(self).records()[k].pos
                } else {
                    final(self).home(k) == old(self).home(k) && final(self).cached(k) == old(self).cached(k)
                },
    {
        let n = self.to_relocate.len();
        let mut j: usize = 0;
        let ghost mid = *self;
        let ghost env = self.storage.envelope();
        let ghost q = self.to_relocate@;
        proof {
            self.storage.lemma_wf();
            assert(queued(q, 0, q.len() as int) =~= Set::new(|k: u64| has_entry(q, k)));
            assert(queued(q, 0, 0) =~= Set::<u64>::empty());
            assert(self.placing(&mid, 0));
        }
        while j < n
            invariant
                mid.storage.wf(),
                self.storage.wf(),
                self.objects.wf(),
                env == self.storage.envelope(),
                env.wf(),
                env.bounded == !ST::is_sparse(),
                q == self.to_relocate@,
                n == q.len(),
                j <= n,
                keys_distinct(q),
                forall|i: int|
                    0 <= i < q.len() ==> mid.records().contains_key((#[trigger] q[i]).0@) && q[i].1
                        == mid.records()[q[i].0@].pos,
                self.placing(&mid, j as int),
            decreases n - j,
        {
            let ghost prev = *self;
            let ghost pend = queued(q, j as int, q.len() as int);
            let ghost pend2 = queued(q, j + 1, q.len() as int);
            let entry = self.to_relocate[j];
            let h = entry.0;
            let ghost k = h@;
            let id = match self.objects.get(h.key()) {
                Some(rec) => rec.cell_id,
                None => {
                    proof {
                        assert(false);
                    }
                    j += 1;
                    continue ;
                },
            };
            let ghost c = env.cell_of(entry.1);
            proof {
                assert(q[j as int] == entry);
                assert(prev.records().contains_key(k));
                ST::lemma_index(env, c);
            }
            let cell = self.storage.cell_mut_unchecked(id);
            cell.objs.push(entry);
            proof {
                self.home@ = self.home@.insert(k, c);
                assert(pend.contains(k)) by {
                    assert(q[j as int].0@ == k);
                }
                assert(!pend2.contains(k)) by {
                    if pend2.contains(k) {
                        let i = choose|i: int| j + 1 <= i < q.len() && (#[trigger] q[i]).0@ == k;
                        assert(q[j as int].0@ != q[i].0@);
                    }
                }
                assert forall|kk: u64| pend2.contains(kk) implies pend.contains(kk) by {
                    let i = choose|i: int| j + 1 <= i < q.len() && (#[trigger] q[i]).0@ == kk;
                    assert(j <= i < q.len() && q[i].0@ == kk);
                }
                assert forall|kk: u64| pend.contains(kk) && kk != k implies pend2.contains(kk) by {
                    let i = choose|i: int| j <= i < q.len() && (#[trigger] q[i]).0@ == kk;
                    assert(j + 1 <= i < q.len() && q[i].0@ == kk);
                }
                assert forall|cc: (int, int)| #[trigger] self.entries_at(cc) == (if cc == c {
                    prev.entries_at(cc).push(entry)
                } else {
                    prev.entries_at(cc)
                }) by {}
                assert forall|cc: (int, int)| !#[trigger] self.is_dirty(cc) by {
                    assert(!prev.is_dirty(cc));
                }
                // the lists and the objects hang together
                assert forall|cc: (int, int), i: int| 0 <= i < self.entries_at(cc).len() implies {
                    let kk = (#[trigger] self.entries_at(cc)[i]).0@;
                    self.records().contains_key(kk) && self.home(kk) == cc && !pend2.contains(kk)
                } by {
                    if i < prev.entries_at(cc).len() {
                        let kk = prev.entries_at(cc)[i].0@;
                        assert(prev.records().contains_key(kk) && prev.home(kk) == cc
                            && !pend.contains(kk));
                    }
                }
                assert forall|cc: (int, int), i1: int, i2: int|
                    0 <= i1 < i2 < self.entries_at(cc).len() implies (#[trigger] self.entries_at(
                    cc,
                )[i1]).0@ != (#[trigger] self.entries_at(cc)[i2]).0@ by {
                    let k1 = prev.entries_at(cc)[i1].0@;
                    assert(!pend.contains(k1));
                    if i2 < prev.entries_at(cc).len() {
                        assert(prev.entries_at(cc)[i1].0@ != prev.entries_at(cc)[i2].0@);
                    }
                }
                assert forall|kk: u64| #[trigger]
                    self.records().contains_key(kk) && !pend2.contains(kk) implies has_entry(
                    self.entries_at(self.home(kk)),
                    kk,
                ) by {
                    if kk == k {
                        let es = self.entries_at(c);
                        assert(es[es.len() - 1].0@ == k);
                    } else {
                        assert(!pend.contains(kk));
                        let es = prev.entries_at(prev.home(kk));
                        assert(has_entry(es, kk));
                        let i = choose|i: int| 0 <= i < es.len() && (#[trigger] es[i]).0@ == kk;
                        assert(self.entries_at(self.home(kk))[i] == es[i]);
                    }
                }
                assert forall|kk: u64| #[trigger]
                    self.records().contains_key(kk) implies self.envelope().covers(
                    self.records()[kk].pos,
                ) && self.records()[kk].cell_id == ST::index(
                    self.envelope(),
                    self.envelope().cell_of(self.records()[kk].pos),
                ) by {
                    assert(prev.records().contains_key(kk));
                }
                assert(self.linked(pend2));
                // object by object
                assert forall|kk: u64| #[trigger]
                    self.records().contains_key(kk) implies if queued(q, 0, j + 1).contains(kk) {
                    self.home(kk) == self.cell_of_record(kk) && self.cached(kk)
                        == self.records()[kk].pos
                } else {
                    self.home(kk) == mid.home(kk) && (!has_entry(q, kk) ==> self.cached(kk)
                        == mid.cached(kk))
                } by {
                    assert(prev.records().contains_key(kk));
                    if kk == k {
                        assert(queued(q, 0, j + 1).contains(kk)) by {
                            assert(0 <= j < j + 1 && q[j as int].0@ == kk);
                        }
                        let es = self.entries_at(c);
                        assert(es[es.len() - 1] == entry);
                        self.lemma_cached(pend2, c, es.len() - 1);
                    } else {
                        assert(queued(q, 0, j + 1).contains(kk) == queued(q, 0, j as int).contains(
                            kk,
                        )) by {
                            if queued(q, 0, j + 1).contains(kk) {
                                let i = choose|i: int| 0 <= i < j + 1 && (#[trigger] q[i]).0@ == kk;
                                assert(0 <= i < j && q[i].0@ == kk);
                            }
                            if queued(q, 0, j as int).contains(kk) {
                                let i = choose|i: int| 0 <= i < j && (#[trigger] q[i]).0@ == kk;
                                assert(0 <= i < j + 1 && q[i].0@ == kk);
                            }
                        }
                        if !pend.contains(kk) {
                            let es = prev.entries_at(prev.home(kk));
                            assert(has_entry(es, kk));
                            let i = choose|i: int| 0 <= i < es.len() && (#[trigger] es[i]).0@ == kk;
                            prev.lemma_cached(pend, prev.home(kk), i);
                            assert(self.entries_at(self.home(kk))[i] == es[i]);
                            self.lemma_cached(pend2, self.home(kk), i);
                        } else {
                            assert(has_entry(q, kk)) by {
                                let i = choose|i: int| j <= i < q.len() && (#[trigger] q[i]).0@ == kk;
                                assert(q[i].0@ == kk);
                            }
                            if queued(q, 0, j as int).contains(kk) {
                                let i1 = choose|i: int| 0 <= i < j && (#[trigger] q[i]).0@ == kk;
                                let i2 = choose|i: int| j <= i < q.len() && (#[trigger] q[i]).0@ == kk;
                                assert(q[i1].0@ != q[i2].0@);
                            }
                        }
                    }
                }
                assert(self.placing(&mid, j + 1));
            }
            j += 1;
        }
        let ghost last = *self;
        self.to_relocate.clear();
        proof {
            assert(queued(q, n as int, q.len() as int) =~= Set::<u64>::empty());
            assert forall|c: (int, int)| #[trigger] self.entries_at(c) == last.entries_at(c) by {}
            assert forall|c: (int, int)| !#[trigger] self.is_dirty(c) by {
                assert(!last.is_dirty(c));
            }
            self.lemma_relink(&last, Set::empty());
            assert forall|k: u64| #[trigger] self.records().contains_key(k) implies self.cached(k)
                == last.cached(k) by {
                assert(self.entries_at(self.home(k)) == last.entries_at(last.home(k)));
            }
            assert forall|k: u64| has_entry(q, k) == queued(q, 0, n as int).contains(k) by {
                if has_entry(q, k) {
                    let i = choose|i: int| 0 <= i < q.len() && (#[trigger] q[i]).0@ == k;
                    assert(0 <= i < n && q[i].0@ == k);
                }
                if queued(q, 0, n as int).contains(k) {
                    let i = choose|i: int| 0 <= i < n && (#[trigger] q[i]).0@ == k;
                    assert(q[i].0@ == k);
                }
            }
        }
    }

    /// Hands the cells that hold nothing back to the storage.
    fn prune(&mut self)
        requires
            old(self).wf(),
        ensures
            final(self).wf(),
            final(self).envelope() == old(self).envelope(),
            final(self).records() == old(self).records(),
            forall|k: u64| final(self).home(k) == old(self).home(k),
            forall|c: (int, int)| #[trigger] final(self).entries_at(c) == old(self).entries_at(c),
            forall|c: (int, int)| #[trigger]
                final(self).is_dirty(c) ==> old(self).is_dirty(c),
            forall|c: (int, int)| #[trigger]
                final(self).cell_map().contains_key(c) ==> old(self).cell_map().contains_key(c)
                    && final(self).cell_map()[c] == old(self).cell_map()[c],
            ST::is_sparse() ==> forall|c: (int, int)| #[trigger]
                final(self).cell_map().contains_key(c) ==> final(self).cell_map()[c].objs@.len()
                    > 0,
            !ST::is_sparse() ==> final(self).cell_map() == old(self).cell_map(),
    {
        let ids = self.storage.cell_ids();
        let n = ids.len();
        let mut i: usize = 0;
        let ghost env = self.storage.envelope();
        proof {
            self.storage.lemma_wf();
        }
        while i < n
            invariant
                self.storage.wf(),
                self.objects == old(self).objects,
                self.to_relocate == old(self).to_relocate,
                self.home == old(self).home,
                env == self.storage.envelope(),
                env == old(self).storage.envelope(),
                env.wf(),
                env.bounded == !ST::is_sparse(),
                n == ids.len(),
                i <= n,
                forall|j: int|
                    0 <= j < n ==> ST::valid(env, #[trigger] ids[j]) && old(self).cell_map().contains_key(ST::coord(env, ids[j])),
                forall|c: (int, int)| #[trigger]
                    old(self).cell_map().contains_key(c) ==> ids@.contains(ST::index(env, c))
                        && env.holds(c),
                forall|c: (int, int)| #[trigger]
                    self.cell_map().contains_key(c) ==> old(self).cell_map().contains_key(c)
                        && self.cell_map()[c] == old(self).cell_map()[c],
                forall|c: (int, int)| #[trigger]
                    old(self).cell_map().contains_key(c) && !self.cell_map().contains_key(c)
                        ==> old(self).cell_map()[c].objs@.len() == 0,
                !ST::is_sparse() ==> self.cell_map() == old(self).cell_map(),
                ST::is_sparse() ==> forall|j: int|
                    0 <= j < i && self.cell_map().contains_key(ST::coord(env, #[trigger] ids[j]))
                        ==> self.cell_map()[ST::coord(env, ids[j])].objs@.len() > 0,
            decreases n - i,
        {
            let id = ids[i];
            let empty = match self.storage.cell(id) {
                Some(cell) => cell.objs.len() == 0,
                None => false,
            };
            if empty {
                self.storage.release(id);
            }
            i += 1;
        }
        proof {
            assert forall|c: (int, int)| #[trigger] self.entries_at(c) == old(self).entries_at(
                c,
            ) by {
                if old(self).cell_map().contains_key(c) && !self.cell_map().contains_key(c) {
                    assert(self.entries_at(c) =~= old(self).entries_at(c));
                }
            }
            self.lemma_relink(old(self), Set::empty());
            if ST::is_sparse() {
                assert forall|c: (int, int)| #[trigger]
                    self.cell_map().contains_key(c) implies self.cell_map()[c].objs@.len() > 0 by {
                    let id = ST::index(env, c);
                    ST::lemma_index(env, c);
                    let j = choose|j: int| 0 <= j < ids@.len() && ids@[j] == id;
                    assert(ST::coord(env, ids[j]) == c);
                }
            }
        }
    }

    /// What `maintain` makes of the object under key `k` of the grid
    /// `before`. Where the home of the object was dirty: a removed object is
    /// deleted, and any other object is unchanged afterwards, with the
    /// position of the object in its entry; the entry of an object that was
    /// on its way to another cell lies in the cell to which the object
    /// points. Where the home was not dirty, the object is as it was.
    pub open spec fn settled_from(&self, before: &Self, k: u64) -> bool {
        let b = before.records()[k];
        let sw = before.swept(k);
        if sw && b.state == ObjectState::Removed {
            !self.records().contains_key(k)
        } else {
            &&& self.records().contains_key(k)
            &&& self.records()[k] == (StoreObject {
                state: if sw {
                    ObjectState::Unchanged
                } else {
                    b.state
                },
                ..b
            })
            &&& self.home(k) == (if sw && b.state == ObjectState::Relocate {
                before.cell_of_record(k)
            } else {
                before.home(k)
            })
            &&& self.cached(k) == (if sw && (b.state == ObjectState::NewPos || b.state
                == ObjectState::Relocate) {
                b.pos
            } else {
                before.cached(k)
            })
        }
    }

    /// Maintains the world, updating all the positions (and moving them to corresponding cells)
    /// and removing necessary objects and empty cells.
    /// Runs in linear time O(N) where N is the number of objects.
    ///
    /// Every dirty cell is swept and is clean afterwards. No object comes
    /// in. A storage that keeps only the cells in use holds no cell without
    /// an entry afterwards.
    pub fn maintain(&mut self)
        requires
            old(self).wf(),
        ensures
            final(self).wf(),
            final(self).envelope() == old(self).envelope(),
            forall|c: (int, int)| !#[trigger] final(self).is_dirty(c),
            forall|k: u64| #[trigger]
                final(self).records().contains_key(k) ==> old(self).records().contains_key(k),
            forall|k: u64| #[trigger]
                old(self).records().contains_key(k) ==> final(self).settled_from(old(self), k),
            ST::is_sparse() ==> forall|c: (int, int)| #[trigger]
                final(self).cell_map().contains_key(c) ==> final(self).cell_map()[c].objs@.len()
                    > 0,
            old(self).all_booked() ==> final(self).in_sync(),
    {
        self.sweep_cells();
        let ghost swept = *self;
        proof {
            let done = old(self).cell_map().dom();
            assert forall|c: (int, int)| !#[trigger] self.is_dirty(c) by {}
            assert forall|j: int| 0 <= j < self.queue().len() implies self.records().contains_key(
                (#[trigger] self.queue()[j]).0@,
            ) && self.queue()[j].1 == self.records()[self.queue()[j].0@].pos by {}
        }
        self.relocate();
        let ghost placed = *self;
        self.prune();
        proof {
            let done = old(self).cell_map().dom();
            assert forall|k: u64| #[trigger]
                old(self).records().contains_key(k) implies self.settled_from(old(self), k) by {
                assert(swept.mid_from(old(self), k, done));
                if swept.records().contains_key(k) {
                    assert(placed.records().contains_key(k));
                    assert(self.entries_at(self.home(k)) == placed.entries_at(placed.home(k)));
                }
            }
            if old(self).all_booked() {
                self.storage.lemma_wf();
                old(self).storage.lemma_wf();
                assert forall|k: u64| #[trigger]
                    self.records().contains_key(k) implies self.records()[k].state
                    == ObjectState::Unchanged && self.home(k) == self.envelope().cell_of(
                    self.records()[k].pos,
                ) && self.cached(k) == self.records()[k].pos by {
                    assert(old(self).records().contains_key(k));
                    assert(old(self).booked(k));
                    assert(self.settled_from(old(self), k));
                    self.lemma_cell_of_record(Set::empty(), k);
                    old(self).lemma_cell_of_record(Set::empty(), k);
                }
            }
        }
    }

    /// A grid whose lists mirror the objects has every object on the books.
    pub proof fn lemma_in_sync_booked(&self)
        requires
            self.wf(),
            self.in_sync(),
        ensures
            self.all_booked(),
    {
        self.storage.lemma_wf();
        assert forall|k: u64| #[trigger] self.records().contains_key(k) implies self.booked(k) by {
            self.lemma_cell_of_record(Set::empty(), k);
        }
    }
}

/// The condition that the position of an entry lies in a box.
pub open spec fn inside(b: AABB) -> spec_fn(CellObject) -> bool {
    |e: CellObject| b.spec_contains(e.1)
}

/// The condition that the position of an entry is nearer to `center` than
/// `radius`.
pub open spec fn within(center: Point, radius: int) -> spec_fn(CellObject) -> bool {
    |e: CellObject| dist2(e.1, center) < radius * radius
}

/// The keys of the entries of a queue from place `lo` to the place before
/// `hi`.
pub open spec fn queued(q: Seq<CellObject>, lo: int, hi: int) -> Set<u64> {
    Set::new(|k: u64| exists|i: int| lo <= i < hi && (#[trigger] q[i]).0@ == k)
}

impl<O: Copy, ST: Storage<GridCell>> Grid<O, ST> {
    /// An entry is gathered from the first `n` cells of a rectangle when
    /// one of these cells holds it.
    proof fn lemma_gather(&self, c1: (int, int), c2: (int, int), n: nat)
        ensures
            forall|e: CellObject| #[trigger]
                self.gather(c1, c2, n).contains(e) <==> exists|k: int|
                    0 <= k < n && self.entries_at(#[trigger] rect_at(c1, c2, k)).contains(e),
        decreases n,
    {
        if n > 0 {
            let m = (n - 1) as nat;
            self.lemma_gather(c1, c2, m);
            let g0 = self.gather(c1, c2, m);
            let es = self.entries_at(rect_at(c1, c2, n - 1));
            let g = self.gather(c1, c2, n);
            assert(g == g0 + es);
            assert forall|e: CellObject| #[trigger] g.contains(e) <==> exists|k: int|
                0 <= k < n && self.entries_at(#[trigger] rect_at(c1, c2, k)).contains(e) by {
                if g.contains(e) {
                    let i = choose|i: int| 0 <= i < g.len() && g[i] == e;
                    if i < g0.len() {
                        assert(g0[i] == e);
                        assert(g0.contains(e));
                        let k = choose|k: int|
                            0 <= k < m && self.entries_at(#[trigger] rect_at(c1, c2, k)).contains(e);
                        assert(0 <= k < n && self.entries_at(rect_at(c1, c2, k)).contains(e));
                    } else {
                        assert(es[i - g0.len()] == e);
                        assert(self.entries_at(rect_at(c1, c2, n - 1)).contains(e));
                    }
                }
                if exists|k: int|
                    0 <= k < n && self.entries_at(#[trigger] rect_at(c1, c2, k)).contains(e) {
                    let k = choose|k: int|
                        0 <= k < n && self.entries_at(#[trigger] rect_at(c1, c2, k)).contains(e);
                    if k < m {
                        assert(g0.contains(e));
                        let i = choose|i: int| 0 <= i < g0.len() && g0[i] == e;
                        assert(g[i] == e);
                    } else {
                        let j = choose|j: int| 0 <= j < es.len() && es[j] == e;
                        assert(g[g0.len() + j] == e);
                    }
                }
            }
        } else {
            assert forall|e: CellObject| #[trigger]
                self.gather(c1, c2, n).contains(e) <==> exists|k: int|
                    0 <= k < n && self.entries_at(#[trigger] rect_at(c1, c2, k)).contains(e) by {}
        }
    }

    /// No object has two entries among those gathered from a rectangle.
    proof fn lemma_gather_distinct(&self, c1: (int, int), c2: (int, int), n: nat)
        requires
            self.linked(Set::empty()),
            n <= rect_len(c1, c2),
        ensures
            keys_distinct(self.gather(c1, c2, n)),
        decreases n,
    {
        if n > 0 {
            let m = (n - 1) as nat;
            self.lemma_gather_distinct(c1, c2, m);
            self.lemma_gather(c1, c2, m);
            let g0 = self.gather(c1, c2, m);
            let c = rect_at(c1, c2, n - 1);
            let es = self.entries_at(c);
            let g = self.gather(c1, c2, n);
            assert(g == g0 + es);
            assert forall|i: int, j: int| 0 <= i < j < g.len() implies (#[trigger] g[i]).0@ != (
            #[trigger] g[j]).0@ by {
                if j < g0.len() {
                    assert(g0[i].0@ != g0[j].0@);
                } else if i >= g0.len() {
                    assert(es[i - g0.len()].0@ != es[j - g0.len()].0@);
                } else {
                    let e = g0[i];
                    assert(g0.contains(e));
                    let k = choose|k: int|
                        0 <= k < m && self.entries_at(#[trigger] rect_at(c1, c2, k)).contains(e);
                    let cc = rect_at(c1, c2, k);
                    let a = choose|a: int| 0 <= a < self.entries_at(cc).len() && self.entries_at(
                        cc,
                    )[a] == e;
                    assert(self.home(self.entries_at(cc)[a].0@) == cc);
                    let f = es[j - g0.len()];
                    assert(self.home(self.entries_at(c)[j - g0.len()].0@) == c);
                    if e.0@ == f.0@ {
                        lemma_rect_at_injective(c1, c2, k, n - 1);
                    }
                }
            }
        }
    }

    /// In a grid whose lists mirror the objects, the entries of the cells
    /// between the corners of a box are entries of objects with their
    /// positions, no object has two of them, and every object in the box
    /// has one.
    proof fn lemma_raw(&self, b: AABB)
        requires
            self.wf(),
            self.in_sync(),
            b.valid(),
        ensures
            forall|e: CellObject| #[trigger]
                self.raw(b.ll, b.ur).contains(e) ==> self.records().contains_key(e.0@)
                    && self.records()[e.0@].pos == e.1,
            forall|h: GridHandle|
                self.records().contains_key(h@) && b.spec_contains(self.records()[h@].pos)
                    ==> #[trigger] self.raw(b.ll, b.ur).contains((h, self.records()[h@].pos)),
            keys_distinct(self.raw(b.ll, b.ur)),
    {
        let env = self.envelope();
        self.storage.lemma_wf();
        let raw = self.raw(b.ll, b.ur);
        if env.is_empty() {
            assert forall|h: GridHandle|
                self.records().contains_key(h@) && b.spec_contains(
                    self.records()[h@].pos,
                ) implies #[trigger] raw.contains((h, self.records()[h@].pos)) by {
                assert(env.covers(self.records()[h@].pos));
            }
        } else {
            let c1 = env.nearest(env.cell_of(b.ll));
            let c2 = env.nearest(env.cell_of(b.ur));
            let n = rect_len(c1, c2);
            self.lemma_gather(c1, c2, n);
            self.lemma_gather_distinct(c1, c2, n);
            lemma_rect_at(c1, c2);
            assert forall|e: CellObject| #[trigger] raw.contains(e) implies self.records().contains_key(
                e.0@,
            ) && self.records()[e.0@].pos == e.1 by {
                let k = choose|k: int|
                    0 <= k < n && self.entries_at(#[trigger] rect_at(c1, c2, k)).contains(e);
                let cc = rect_at(c1, c2, k);
                let a = choose|a: int| 0 <= a < self.entries_at(cc).len() && self.entries_at(cc)[a]
                    == e;
                self.lemma_cached(Set::empty(), cc, a);
            }
            assert forall|h: GridHandle|
                self.records().contains_key(h@) && b.spec_contains(
                    self.records()[h@].pos,
                ) implies #[trigger] raw.contains((h, self.records()[h@].pos)) by {
                let k = h@;
                let p = self.records()[k].pos;
                let c = self.home(k);
                assert(c == env.cell_of(p));
                assert(env.covers(p));
                crate::math::lemma_cell_coord_monotonic(b.ll.x as int, p.x as int, env.cell_size);
                crate::math::lemma_cell_coord_monotonic(b.ll.y as int, p.y as int, env.cell_size);
                crate::math::lemma_cell_coord_monotonic(p.x as int, b.ur.x as int, env.cell_size);
                crate::math::lemma_cell_coord_monotonic(p.y as int, b.ur.y as int, env.cell_size);
                assert(in_rect(c1, c2, c));
                let kk = (c.1 - c1.1) * (c2.0 - c1.0 + 1) + (c.0 - c1.0);
                assert(0 <= kk < n && rect_at(c1, c2, kk) == c);
                let es = self.entries_at(c);
                assert(has_entry(es, k));
                let i = choose|i: int| 0 <= i < es.len() && (#[trigger] es[i]).0@ == k;
                self.lemma_cached(Set::empty(), c, i);
                GridHandle::lemma_view_injective(es[i].0, h);
                assert(es[i] == (h, p));
                assert(self.entries_at(rect_at(c1, c2, kk)).contains((h, p)));
            }
        }
    }

    /// In a grid whose lists mirror the objects, `query_aabb` gives the
    /// objects whose position lies in the rect, its border included, each
    /// with its position and each once.
    pub proof fn lemma_query_aabb(&self, aa: Point, bb: Point)
        requires
            self.wf(),
            self.in_sync(),
        ensures
            ({
                let b = span(aa, bb);
                let found = self.raw(b.ll, b.ur).filter(inside(b));
                &&& forall|h: GridHandle, p: Point| #[trigger]
                    found.contains((h, p)) <==> self.records().contains_key(h@)
                        && self.records()[h@].pos == p && b.spec_contains(p)
                &&& keys_distinct(found)
            }),
    {
        let b = span(aa, bb);
        let raw = self.raw(b.ll, b.ur);
        self.lemma_raw(b);
        lemma_filter_entries(raw, inside(b));
        let found = raw.filter(inside(b));
        assert forall|h: GridHandle, p: Point| #[trigger]
            found.contains((h, p)) <==> self.records().contains_key(h@) && self.records()[h@].pos
                == p && b.spec_contains(p) by {
            if self.records().contains_key(h@) && self.records()[h@].pos == p && b.spec_contains(
                p,
            ) {
                assert(raw.contains((h, self.records()[h@].pos)));
            }
        }
    }

    /// In a grid whose lists mirror the objects, `query_around` gives the
    /// objects for which the square of the distance from their position to
    /// `pos` is less than the square of the radius, each with its position
    /// and each once.
    pub proof fn lemma_query_around(&self, pos: Point, radius: u32)
        requires
            self.wf(),
            self.in_sync(),
        ensures
            ({
                let b = around(pos, radius as int);
                let found = self.raw(b.ll, b.ur).filter(within(pos, radius as int));
                &&& forall|h: GridHandle, p: Point| #[trigger]
                    found.contains((h, p)) <==> self.records().contains_key(h@)
                        && self.records()[h@].pos == p && dist2(p, pos) < radius * radius
                &&& keys_distinct(found)
            }),
    {
        let b = around(pos, radius as int);
        let raw = self.raw(b.ll, b.ur);
        self.lemma_raw(b);
        lemma_filter_entries(raw, within(pos, radius as int));
        let found = raw.filter(within(pos, radius as int));
        assert forall|h: GridHandle, p: Point| #[trigger]
            found.contains((h, p)) <==> self.records().contains_key(h@) && self.records()[h@].pos
                == p && dist2(p, pos) < radius * radius by {
            if self.records().contains_key(h@) && self.records()[h@].pos == p && dist2(p, pos)
                < radius * radius {
                lemma_around(pos, radius as int, p);
                assert(b.spec_contains(p));
                assert(raw.contains((h, self.records()[h@].pos)));
            }
        }
    }
}

} // verus!
