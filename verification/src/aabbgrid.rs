use crate::cell::ShapeGridCell;
use crate::error::GridError;
use crate::math::lemma_cell_coord_bounds;
use crate::math::lemma_cell_coord_monotonic;
use crate::shape::lemma_spans_meet;
use crate::shape::Intersect;
use crate::shape::Point;
use crate::shape::Shape;
use crate::shape::AABB;
use crate::shapegrid::cells_of;
use crate::shapegrid::distinct;
use crate::shapegrid::has_key;
use crate::shapegrid::ShapeEntry;
use crate::shapegrid::gives;
use crate::shapegrid::meets;
use crate::shapegrid::query_cells;
use crate::shapegrid::single;
use crate::shapegrid::unique;
use crate::shapegrid::HandleSet;
use crate::shapegrid::ShapeGrid;
use crate::shapegrid::ShapeGridHandle;
use crate::slots::SlotIndexD;
use crate::slots::MAX_SLOTS;
use crate::storage::in_rect;
use crate::storage::Envelope;
use crate::storage::SparseStorage;
use crate::storage::Storage;
use fnv::FnvBuildHasher;
use fnv::FnvHashSet;
use vstd::prelude::*;

verus! {

/// This handle is used to modify the associated object or to update its position.
/// It is returned by the _insert_ method of a AABBGrid.
pub type AABBGridHandle = ShapeGridHandle;

/// A cell of a grid of boxes.
pub type AABBGridCell = ShapeGridCell;

/// The actual object stored in the store
pub type StoreObject<O> = crate::shapegrid::StoreObject<O, AABB>;

/// `fnv::FnvHasher`, the hasher of the sets below. Nothing is said of it.
#[verifier::external_type_specification]
#[verifier::external_body]
pub struct ExFnvHasher(fnv::FnvHasher);

/// `std::hash::BuildHasherDefault`, which makes the hashers of a set from
/// the default of their kind. Nothing is said of it.
#[verifier::external_type_specification]
#[verifier::external_body]
#[verifier::reject_recursive_types(H)]
pub struct ExBuildHasherDefault<H>(std::hash::BuildHasherDefault<H>);

/// A set of keys in a hash set that hashes with FNV.
pub struct FnvSeen {
    set: FnvHashSet<u64>,
}

/// `BuildHasherDefault::default`: what makes the FNV hashers of a set.
#[verifier::external_body]
pub(crate) fn fnv_hashers() -> FnvBuildHasher {
    FnvBuildHasher::default()
}

/// `HashSet::with_hasher`: a set that holds nothing.
#[verifier::external_body]
pub(crate) fn fnv_new(hashers: FnvBuildHasher) -> (s: FnvHashSet<u64>)
    ensures
        (s@ == Set::<u64>::empty()),
{
    FnvHashSet::with_hasher(hashers)
}

/// `HashSet::insert` on a set that hashes with FNV: puts the key into the
/// set and says whether it was not there.
#[verifier::external_body]
pub(crate) fn fnv_insert(s: &mut FnvHashSet<u64>, k: u64) -> (fresh: bool)
    ensures
        final(s)@ == old(s)@.insert(k),
        fresh == !old(s)@.contains(k),
{
    s.insert(k)
}

impl FnvSeen {
    pub fn new() -> (s: FnvSeen)
        ensures
            s.keys() == Set::<u64>::empty(),
    {
        FnvSeen { set: fnv_new(fnv_hashers()) }
    }
}

impl HandleSet for FnvSeen {
    closed spec fn keys(&self) -> Set<u64> {
        self.set@
    }

    fn take(&mut self, k: u64) -> (fresh: bool) {
        fnv_insert(&mut self.set, k)
    }
}

/// A box meets the box of every cell between the cells of its corners.
pub proof fn lemma_fills_range(env: Envelope, a: AABB, c: (int, int))
    requires
        env.cell_size > 0,
        in_rect(env.cell_of(a.ll), env.cell_of(a.ur), c),
    ensures
        a.spec_intersects(env.cell_box(c)),
{
    let cs = env.cell_size;
    let b = env.cell_box(c);
    lemma_cell_coord_bounds(a.ll.x as int, cs);
    lemma_cell_coord_bounds(a.ll.y as int, cs);
    lemma_cell_coord_bounds(a.ur.x as int, cs);
    lemma_cell_coord_bounds(a.ur.y as int, cs);
    let lx = env.cell_of(a.ll).0;
    let ly = env.cell_of(a.ll).1;
    let ux = env.cell_of(a.ur).0;
    let uy = env.cell_of(a.ur).1;
    assert((c.0 + 1) * cs >= (lx + 1) * cs && c.0 * cs <= ux * cs && c.0 * cs <= (c.0 + 1) * cs)
        by (nonlinear_arith)
        requires
            lx <= c.0 <= ux,
            cs > 0,
    ;
    assert((c.1 + 1) * cs >= (ly + 1) * cs && c.1 * cs <= uy * cs && c.1 * cs <= (c.1 + 1) * cs)
        by (nonlinear_arith)
        requires
            ly <= c.1 <= uy,
            cs > 0,
    ;
    // the box begins before the cell ends, and the cell begins before the box ends
    assert(a.ll.x <= b.ur.x && b.ll.x <= a.ur.x && b.ll.x <= b.ur.x);
    assert(a.ll.y <= b.ur.y && b.ll.y <= a.ur.y && b.ll.y <= b.ur.y);
}

/// Two valid boxes that meet have a cell between the cells of the corners
/// of each.
pub proof fn lemma_common_cell(env: Envelope, a: AABB, b: AABB) -> (c: (int, int))
    requires
        env.cell_size > 0,
        a.valid(),
        b.valid(),
        a.spec_intersects(b),
    ensures
        in_rect(env.cell_of(a.ll), env.cell_of(a.ur), c),
        in_rect(env.cell_of(b.ll), env.cell_of(b.ur), c),
{
    let cs = env.cell_size;
    lemma_spans_meet(a.ll.x as int, a.ur.x as int, b.ll.x as int, b.ur.x as int);
    lemma_spans_meet(a.ll.y as int, a.ur.y as int, b.ll.y as int, b.ur.y as int);
    let p = Point {
        x: if a.ll.x < b.ll.x {
            b.ll.x
        } else {
            a.ll.x
        },
        y: if a.ll.y < b.ll.y {
            b.ll.y
        } else {
            a.ll.y
        },
    };
    lemma_cell_coord_monotonic(a.ll.x as int, p.x as int, cs);
    lemma_cell_coord_monotonic(b.ll.x as int, p.x as int, cs);
    lemma_cell_coord_monotonic(p.x as int, a.ur.x as int, cs);
    lemma_cell_coord_monotonic(p.x as int, b.ur.x as int, cs);
    lemma_cell_coord_monotonic(a.ll.y as int, p.y as int, cs);
    lemma_cell_coord_monotonic(b.ll.y as int, p.y as int, cs);
    lemma_cell_coord_monotonic(p.y as int, a.ur.y as int, cs);
    lemma_cell_coord_monotonic(p.y as int, b.ur.y as int, cs);
    env.cell_of(p)
}

/// What a broad query hands its finds to, one by one.
pub trait HandleVisitor {
    /// Whether the visitor can be given a handle.
    spec fn ready(&self) -> bool;

    /// The handles that the visitor has got, in the order in which it got
    /// them.
    spec fn seen(&self) -> Seq<AABBGridHandle>;

    fn visit(&mut self, h: AABBGridHandle)
        requires
            old(self).ready(),
        ensures
            final(self).ready(),
            final(self).seen() == old(self).seen().push(h),
    ;
}

/// What a query hands its finds to, one by one: the handle of an object,
/// its box and what is associated with it.
pub trait ObjectVisitor<O: Copy> {
    /// Whether the visitor can be given a find.
    spec fn ready(&self) -> bool;

    /// What the visitor has got, in the order in which it got it.
    spec fn seen(&self) -> Seq<(AABBGridHandle, AABB, O)>;

    fn visit(&mut self, h: AABBGridHandle, aabb: &AABB, obj: &O)
        requires
            old(self).ready(),
        ensures
            final(self).ready(),
            final(self).seen() == old(self).seen().push((h, *aabb, *obj)),
    ;
}

/// A visitor that keeps the handles it gets.
pub struct HandleList {
    pub handles: Vec<AABBGridHandle>,
}

impl HandleVisitor for HandleList {
    open spec fn ready(&self) -> bool {
        true
    }

    open spec fn seen(&self) -> Seq<AABBGridHandle> {
        self.handles@
    }

    fn visit(&mut self, h: AABBGridHandle) {
        self.handles.push(h);
    }
}

/// A visitor that keeps what it gets.
pub struct ObjectList<O: Copy> {
    pub objects: Vec<(AABBGridHandle, AABB, O)>,
}

impl<O: Copy> ObjectVisitor<O> for ObjectList<O> {
    open spec fn ready(&self) -> bool {
        true
    }

    open spec fn seen(&self) -> Seq<(AABBGridHandle, AABB, O)> {
        self.objects@
    }

    fn visit(&mut self, h: AABBGridHandle, aabb: &AABB, obj: &O) {
        self.objects.push((h, *aabb, *obj));
    }
}

/// A visitor that calls a function with every handle it gets.
pub struct CallWithHandle<F: FnMut(AABBGridHandle)> {
    call: F,
    given: Ghost<Seq<AABBGridHandle>>,
}

impl<F: FnMut(AABBGridHandle)> CallWithHandle<F> {
    /// A visitor that has got nothing yet, around a function that takes
    /// every handle.
    pub fn new(call: F) -> (v: Self)
        requires
            forall|h: AABBGridHandle| call_requires(call, (h,)),
        ensures
            v.ready(),
            v.seen() == Seq::<AABBGridHandle>::empty(),
    {
        CallWithHandle { call, given: Ghost(Seq::empty()) }
    }
}

impl<F: FnMut(AABBGridHandle)> HandleVisitor for CallWithHandle<F> {
    closed spec fn ready(&self) -> bool {
        forall|h: AABBGridHandle| call_requires(self.call, (h,))
    }

    closed spec fn seen(&self) -> Seq<AABBGridHandle> {
        self.given@
    }

    fn visit(&mut self, h: AABBGridHandle) {
        (self.call)(h);
        proof {
            self.given@ = self.given@.push(h);
        }
    }
}

/// A visitor that calls a function with every find it gets.
pub struct CallWithObject<O: Copy, F: FnMut(AABBGridHandle, &AABB, &O)> {
    call: F,
    given: Ghost<Seq<(AABBGridHandle, AABB, O)>>,
}

impl<O: Copy, F: FnMut(AABBGridHandle, &AABB, &O)> CallWithObject<O, F> {
    /// A visitor that has got nothing yet, around a function that takes
    /// every find.
    pub fn new(call: F) -> (v: Self)
        requires
            forall|h: AABBGridHandle, b: &AABB, o: &O| call_requires(call, (h, b, o)),
        ensures
            v.ready(),
            v.seen() == Seq::<(AABBGridHandle, AABB, O)>::empty(),
    {
        CallWithObject { call, given: Ghost(Seq::empty()) }
    }
}

impl<O: Copy, F: FnMut(AABBGridHandle, &AABB, &O)> ObjectVisitor<O> for CallWithObject<O, F> {
    closed spec fn ready(&self) -> bool {
        forall|h: AABBGridHandle, b: &AABB, o: &O| call_requires(self.call, (h, b, o))
    }

    closed spec fn seen(&self) -> Seq<(AABBGridHandle, AABB, O)> {
        self.given@
    }

    fn visit(&mut self, h: AABBGridHandle, aabb: &AABB, obj: &O) {
        (self.call)(h, aabb, obj);
        proof {
            self.given@ = self.given@.push((h, *aabb, *obj));
        }
    }
}

/// `AABBGrid` is a generic aabb-based spatial partitioning structure that uses a generic storage of cells which acts as a
/// grid instead of a tree.
///
/// ## Fast queries
/// In theory, `AABBGrid` should be faster than a quadtree/r-tree because it has no log costs
/// (calculating the cells around a point is trivial).
/// However, it only works if the cell size is adapted to the problem, much like how a tree has to
/// be balanced to be efficient.
///
/// ## Dynamicity
/// `AABBGrid's` allows eager removals and position updates, however for big aabbs (spanning many cells)
/// this can be expensive, so beware.
///
/// Use this grid for mostly static objects with the occasional removal/position update if needed.
pub struct AABBGrid<O: Copy> {
    inner: ShapeGrid<O, AABB, SparseStorage<ShapeGridCell>, SlotIndexD>,
}

impl<O: Copy> AABBGrid<O> {
    /// The objects, by the keys of their handles.
    pub closed spec fn records(&self) -> Map<u64, StoreObject<O>> {
        self.inner.records()
    }

    /// The cells that exist, by their coordinates.
    pub closed spec fn cell_map(&self) -> Map<(int, int), ShapeGridCell> {
        self.inner.cell_map()
    }

    pub closed spec fn envelope(&self) -> Envelope {
        self.inner.envelope()
    }

    pub closed spec fn wf(&self) -> bool {
        self.inner.wf()
    }

    /// The keys of the objects, in the order in which `objects` and `clear`
    /// give them.
    pub closed spec fn order(&self) -> Seq<u64> {
        self.inner.order()
    }

    /// Whether a cell between the cells of the corners of the box holds an
    /// entry of the object under key `k`.
    pub open spec fn found_broad(&self, b: AABB, k: u64) -> bool {
        exists|c: (int, int)|
            in_rect(self.envelope().cell_of(b.ll), self.envelope().cell_of(b.ur), c) && has_key(
                #[trigger] self.entries_at(c),
                k,
            )
    }

    /// The walk of the grid of shapes looks at the cells between the cells
    /// of the corners of the box.
    proof fn lemma_found_broad(&self, b: AABB, k: u64)
        requires
            self.wf(),
        ensures
            self.found_broad(b, k) <==> self.inner.found_broad(b, k),
    {
        let env = self.inner.envelope();
        self.inner.lemma_wf();
        if self.found_broad(b, k) {
            let c = choose|c: (int, int)|
                in_rect(env.cell_of(b.ll), env.cell_of(b.ur), c) && has_key(
                    #[trigger] self.entries_at(c),
                    k,
                );
            lemma_fills_range(env, b, c);
            assert(query_cells(env, b).contains(c) && has_key(self.inner.entries_at(c), k));
        }
        if self.inner.found_broad(b, k) {
            let c = choose|c: (int, int)| #[trigger]
                query_cells(env, b).contains(c) && has_key(self.inner.entries_at(c), k);
            assert(in_rect(env.cell_of(b.ll), env.cell_of(b.ur), c) && has_key(
                self.entries_at(c),
                k,
            ));
        }
    }

    /// The entries of the cell at `c`; none where no cell exists.
    pub closed spec fn entries_at(&self, c: (int, int)) -> Seq<ShapeEntry> {
        self.inner.entries_at(c)
    }

    /// The entries of a cell are the lists of the storage.
    pub proof fn lemma_entries_at(&self, c: (int, int))
        ensures
            self.entries_at(c) == (if self.cell_map().contains_key(c) {
                self.cell_map()[c].objs@
            } else {
                Seq::<ShapeEntry>::empty()
            }),
    {
    }

    /// An object has an entry in a cell when the cell lies between the
    /// cells of the corners of its box, and then one entry, whose flag says
    /// whether the two corners lie in one cell.
    pub proof fn lemma_presence(&self, k: u64, c: (int, int))
        requires
            self.wf(),
        ensures
            has_key(self.entries_at(c), k) <==> self.records().contains_key(k) && in_rect(
                self.envelope().cell_of(self.records()[k].shape.ll),
                self.envelope().cell_of(self.records()[k].shape.ur),
                c,
            ),
            distinct(self.entries_at(c)),
            forall|i: int|
                0 <= i < self.entries_at(c).len() && (#[trigger] self.entries_at(c)[i]).0@ == k
                    ==> self.entries_at(c)[i].1 == (self.envelope().cell_of(
                    self.records()[k].shape.ll,
                ) == self.envelope().cell_of(self.records()[k].shape.ur)),
    {
        let env = self.envelope();
        self.inner.lemma_wf();
        let es = self.inner.entries_at(c);
        if has_key(es, k) {
            let i = choose|i: int| 0 <= i < es.len() && (#[trigger] es[i]).0@ == k;
            assert(cells_of(env, self.records()[es[i].0@].shape).contains(c));
        }
        if self.records().contains_key(k) {
            let b = self.records()[k].shape;
            assert(self.inner.placed(b));
            if in_rect(env.cell_of(b.ll), env.cell_of(b.ur), c) {
                lemma_fills_range(env, b, c);
                assert(cells_of(env, b).contains(c));
            }
        }
        assert forall|i: int| 0 <= i < es.len() && (#[trigger] es[i]).0@ == k implies es[i].1 == (
        env.cell_of(self.records()[k].shape.ll) == env.cell_of(self.records()[k].shape.ur)) by {
            assert(es[i].1 == single(env, self.records()[es[i].0@].shape));
        }
    }

    /// In every grid the cells are the cells of a storage that keeps only
    /// the cells in use, every box is valid, and a query finds an object in
    /// a cell when the object is one of the grid and a cell lies between
    /// the cells of the corners of both boxes.
    pub proof fn lemma_wf(&self)
        requires
            self.wf(),
        ensures
            self.envelope().wf(),
            !self.envelope().bounded,
            self.records().dom().finite(),
            forall|k: u64| #[trigger]
                self.records().contains_key(k) ==> self.records()[k].shape.valid(),
    {
        self.inner.lemma_wf();
    }

    /// Creates an empty grid.
    /// The cell size should be about the same magnitude as your queries size.
    pub fn new(cell_size: i32) -> (r: Result<Self, GridError>)
        ensures
            cell_size <= 0 ==> r == Err::<Self, GridError>(GridError::CellSizeInvalid),
            cell_size > 0 ==> r is Ok,
            r matches Ok(g) ==> g.wf() && g.envelope().cell_size == cell_size && g.records()
                == Map::<u64, StoreObject<O>>::empty(),
    {
        match ShapeGrid::new(cell_size) {
            Ok(inner) => Ok(AABBGrid { inner }),
            Err(e) => Err(e),
        }
    }

    /// Inserts a new object with a position and an associated object
    /// Returns the unique and stable handle to be used with `get_obj`
    ///
    /// The object gets an entry in every cell between the cells of the
    /// corners of its box. Refuses a box that is not valid.
    pub fn insert(&mut self, aabb: AABB, obj: O) -> (r: Result<AABBGridHandle, GridError>)
        requires
            old(self).wf(),
            old(self).records().len() < MAX_SLOTS,
        ensures
            final(self).wf(),
            final(self).envelope().cell_size == old(self).envelope().cell_size,
            r is Ok ==> final(self).envelope() == old(self).envelope(),
            !aabb.valid() ==> r == Err::<AABBGridHandle, GridError>(GridError::AABBInvalid),
            aabb.valid() ==> r is Ok,
            match r {
                Ok(h) => !old(self).records().contains_key(h@) && final(self).records() == old(self).records().insert(h@, crate::shapegrid::StoreObject { obj, shape: aabb })
                    && final(self).records().len() == old(self).records().len() + 1,
                Err(_) => final(self).records() == old(self).records(),
            },
    {
        self.inner.insert(aabb, obj)
    }

    /// Updates the aabb of an object. Where the new box lies between the
    /// same cells as the old one, the lists stay as they are. Refuses a
    /// handle of no object, and a box that is not valid.
    pub fn set_aabb(&mut self, handle: AABBGridHandle, aabb: AABB) -> (r: Result<(), GridError>)
        requires
            old(self).wf(),
        ensures
            final(self).wf(),
            final(self).envelope().cell_size == old(self).envelope().cell_size,
            r is Ok ==> final(self).envelope() == old(self).envelope(),
            !old(self).records().contains_key(handle@) ==> r == Err::<(), GridError>(
                GridError::HandleInvalid,
            ),
            old(self).records().contains_key(handle@) && !aabb.valid() ==> r == Err::<
                (),
                GridError,
            >(GridError::AABBInvalid),
            old(self).records().contains_key(handle@) && aabb.valid() ==> r is Ok,
            match r {
                Ok(_) => final(self).records() == old(self).records().insert(
                    handle@,
                    crate::shapegrid::StoreObject {
                        obj: old(self).records()[handle@].obj,
                        shape: aabb,
                    },
                ),
                Err(_) => final(self).records() == old(self).records(),
            },
    {
        let old_box = match self.inner.record(handle) {
            Some(rec) => rec.shape,
            None => {
                return Err(GridError::HandleInvalid);
            },
        };
        if !aabb.is_valid() {
            return Err(GridError::AABBInvalid);
        }
        let storage = self.inner.storage();
        let old_ll = storage.cell_id(old_box.ll);
        let old_ur = storage.cell_id(old_box.ur);
        let ll = storage.cell_id(aabb.ll);
        let ur = storage.cell_id(aabb.ur);
        if old_ll == ll && old_ur == ur {
            proof {
                self.inner.lemma_wf();
                let env = self.inner.envelope();
                crate::math::lemma_cell_coord_range(aabb.ll.x as int, env.cell_size);
                crate::math::lemma_cell_coord_range(aabb.ll.y as int, env.cell_size);
                crate::math::lemma_cell_coord_range(aabb.ur.x as int, env.cell_size);
                crate::math::lemma_cell_coord_range(aabb.ur.y as int, env.cell_size);
                crate::math::lemma_cell_coord_range(old_box.ll.x as int, env.cell_size);
                crate::math::lemma_cell_coord_range(old_box.ll.y as int, env.cell_size);
                crate::math::lemma_cell_coord_range(old_box.ur.x as int, env.cell_size);
                crate::math::lemma_cell_coord_range(old_box.ur.y as int, env.cell_size);
                assert(env.cell_of(aabb.ll) == env.cell_of(old_box.ll));
                assert(env.cell_of(aabb.ur) == env.cell_of(old_box.ur));
                assert(self.inner.placed(old_box));
                assert(cells_of(env, aabb) =~= cells_of(env, old_box)) by {
                    assert forall|c: (int, int)|
                        in_rect(env.cell_of(aabb.ll), env.cell_of(aabb.ur), c) implies aabb.spec_intersects(
                        env.cell_box(c),
                    ) && old_box.spec_intersects(env.cell_box(c)) by {
                        lemma_fills_range(env, aabb, c);
                        lemma_fills_range(env, old_box, c);
                    }
                }
            }
            self.inner.swap_shape(handle, aabb);
            return Ok(());
        }
        self.inner.set_shape(handle, aabb)
    }

    /// Removes an object from the grid.
    pub fn remove(&mut self, handle: AABBGridHandle) -> (r: Option<O>)
        requires
            old(self).wf(),
        ensures
            final(self).wf(),
            final(self).envelope() == old(self).envelope(),
            final(self).records() == old(self).records().remove(handle@),
            r is Some ==> final(self).records().len() == old(self).records().len() - 1,
            r == (if old(self).records().contains_key(handle@) {
                Some(old(self).records()[handle@].obj)
            } else {
                None::<O>
            }),
    {
        match self.inner.remove(handle) {
            Ok(obj) => Some(obj),
            Err(_) => None,
        }
    }

    /// Clears the grid, and gives the boxes and what was associated with
    /// them.
    pub fn clear(&mut self) -> (r: Vec<(AABB, O)>)
        requires
            old(self).wf(),
        ensures
            final(self).wf(),
            final(self).envelope().cell_size == old(self).envelope().cell_size,
            final(self).records() == Map::<u64, StoreObject<O>>::empty(),
            final(self).cell_map() == Map::<(int, int), ShapeGridCell>::empty(),
            r.len() == old(self).records().len(),
            forall|i: int|
                0 <= i < r.len() ==> old(self).records().contains_key(
                    #[trigger] old(self).order()[i],
                ) && r[i] == (
                    old(self).records()[old(self).order()[i]].shape,
                    old(self).records()[old(self).order()[i]].obj,
                ),
    {
        let hs = self.inner.handles();
        let mut out: Vec<(AABB, O)> = Vec::new();
        let mut i: usize = 0;
        proof {
            self.inner.lemma_order();
        }
        while i < hs.len()
            invariant
                self.inner.wf(),
                *self == *old(self),
                i <= hs.len(),
                hs.len() == self.inner.order().len(),
                forall|j: int| 0 <= j < hs.len() ==> (#[trigger] hs[j])@ == self.inner.order()[j],
                self.inner.order().to_set() == self.inner.records().dom(),
                out.len() == i,
                forall|j: int|
                    0 <= j < i ==> self.inner.records().contains_key(
                        #[trigger] self.inner.order()[j],
                    ) && out[j] == (
                        self.inner.records()[self.inner.order()[j]].shape,
                        self.inner.records()[self.inner.order()[j]].obj,
                    ),
            decreases hs.len() - i,
        {
            let ghost prev = out@;
            proof {
                assert(self.inner.order().to_set().contains(self.inner.order()[i as int]));
            }
            match self.inner.record(hs[i]) {
                Some(rec) => {
                    out.push((rec.shape, rec.obj));
                },
                None => {
                    proof {
                        assert(false);
                    }
                },
            }
            proof {
                assert forall|j: int| 0 <= j < i + 1 implies self.inner.records().contains_key(
                    #[trigger] self.inner.order()[j],
                ) && out[j] == (
                    self.inner.records()[self.inner.order()[j]].shape,
                    self.inner.records()[self.inner.order()[j]].obj,
                ) by {
                    if j < i {
                        assert(out[j] == prev[j]);
                    }
                }
            }
            i += 1;
        }
        let cell_size = self.inner.storage().cell_size();
        proof {
            self.inner.lemma_wf();
        }
        match ShapeGrid::new(cell_size) {
            Ok(fresh) => {
                self.inner = fresh;
            },
            Err(_) => {},
        }
        out
    }

    /// Iterate over all handles
    pub fn handles(&self) -> (hs: Vec<AABBGridHandle>)
        requires
            self.wf(),
        ensures
            hs.len() == self.records().len(),
            unique(hs@),
            forall|k: u64| gives(hs@, k) <==> self.records().contains_key(k),
    {
        let hs = self.inner.handles();
        proof {
            self.inner.lemma_order();
            let order = self.inner.order();
            assert forall|i: int, j: int| 0 <= i < j < hs.len() implies (#[trigger] hs[i])@ != (
            #[trigger] hs[j])@ by {
                assert(order[i] != order[j]);
            }
            assert forall|k: u64| gives(hs@, k) <==> self.records().contains_key(k) by {
                if gives(hs@, k) {
                    let i = choose|i: int| 0 <= i < hs.len() && (#[trigger] hs[i])@ == k;
                    assert(order.to_set().contains(order[i]));
                }
                if self.records().contains_key(k) {
                    assert(order.to_set().contains(k));
                    let i = choose|i: int| 0 <= i < order.len() && order[i] == k;
                    assert(hs[i]@ == k);
                }
            }
        }
        hs
    }

    /// Iterate over all objects
    pub fn objects(&self) -> (os: Vec<&O>)
        requires
            self.wf(),
        ensures
            os.len() == self.records().len(),
            os.len() == self.order().len(),
            forall|i: int|
                0 <= i < os.len() ==> self.records().contains_key(#[trigger] self.order()[i])
                    && *os[i] == self.records()[self.order()[i]].obj,
    {
        proof {
            self.inner.lemma_order();
        }
        self.inner.objects()
    }

    /// Returns a reference to the associated object and its position, using the handle.
    pub fn get(&self, id: AABBGridHandle) -> (r: Option<&StoreObject<O>>)
        requires
            self.wf(),
        ensures
            match r {
                Some(rec) => self.records().contains_key(id@) && *rec == self.records()[id@],
                None => !self.records().contains_key(id@),
            },
    {
        self.inner.record(id)
    }

    /// Returns a mutable reference to the associated object and its position, using the handle.
    ///
    /// Whatever is written through the reference, the object keeps its
    /// box: `set_aabb` changes the box.
    pub fn get_mut(&mut self, id: AABBGridHandle) -> (r: Option<(&AABB, &mut O)>)
        requires
            old(self).wf(),
        ensures
            final(self).wf(),
            final(self).envelope() == old(self).envelope(),
            final(self).cell_map() == old(self).cell_map(),
            match r {
                Some((shape, obj)) => old(self).records().contains_key(id@) && *shape == old(self).records()[id@].shape && *obj == old(self).records()[id@].obj && final(self).records() == old(self).records().insert(
                    id@,
                    crate::shapegrid::StoreObject { obj: *final(obj), shape: *shape },
                ),
                None => !old(self).records().contains_key(id@) && final(self).records() == old(self).records(),
            },
    {
        self.inner.get_mut(id)
    }

    /// The underlying storage
    pub fn storage(&self) -> (st: &SparseStorage<AABBGridCell>)
        requires
            self.wf(),
        ensures
            st.wf(),
            st.cell_map() == self.cell_map(),
            st.envelope() == self.envelope(),
    {
        self.inner.storage()
    }

    /// Queries for objects intersecting a given AABB.
    ///
    /// Gives every object whose box meets the given box, once, with its
    /// box and with what is associated with it.
    pub fn query(&self, aabb: AABB) -> (r: Vec<(AABBGridHandle, &AABB, &O)>)
        requires
            self.wf(),
            aabb.valid(),
        ensures
            forall|i: int|
                0 <= i < r.len() ==> {
                    let t = #[trigger] r[i];
                    &&& self.records().contains_key(t.0@)
                    &&& *t.1 == self.records()[t.0@].shape
                    &&& *t.2 == self.records()[t.0@].obj
                },
            forall|i: int, j: int|
                0 <= i < j < r.len() ==> (#[trigger] r[i]).0@ != (#[trigger] r[j]).0@,
            forall|k: u64|
                (exists|i: int| 0 <= i < r.len() && (#[trigger] r[i]).0@ == k)
                    <==> self.records().contains_key(k) && aabb.spec_intersects(
                    self.records()[k].shape,
                ),
    {
        let hs = self.query_broad(aabb);
        let r = self.inner.refine(aabb, hs);
        proof {
            assert forall|k: u64|
                (exists|i: int| 0 <= i < r.len() && (#[trigger] r[i]).0@ == k)
                    <==> self.records().contains_key(k) && aabb.spec_intersects(
                    self.records()[k].shape,
                ) by {
                self.lemma_query_exact(aabb, k);
                assert(gives(hs@, k) <==> self.found_broad(aabb, k));
                assert((exists|i: int| 0 <= i < r.len() && (#[trigger] r[i]).0@ == k) <==> gives(
                    hs@,
                    k,
                ) && self.records().contains_key(k) && meets(aabb, self.records()[k].shape));
            }
        }
        r
    }

    /// A query with a valid box finds, in some cell, every object whose
    /// box meets the box.
    pub proof fn lemma_query_exact(&self, aabb: AABB, k: u64)
        requires
            self.wf(),
            aabb.valid(),
        ensures
            self.found_broad(aabb, k) ==> self.records().contains_key(k),
            self.records().contains_key(k) && aabb.spec_intersects(self.records()[k].shape)
                ==> self.found_broad(aabb, k),
    {
        let env = self.inner.envelope();
        self.inner.lemma_wf();
        self.inner.lemma_found_broad(aabb, k);
        self.lemma_found_broad(aabb, k);
        if self.records().contains_key(k) && aabb.spec_intersects(self.records()[k].shape) {
            let s = self.records()[k].shape;
            assert(self.inner.placed(s));
            let c = lemma_common_cell(env, aabb, s);
            lemma_fills_range(env, aabb, c);
            lemma_fills_range(env, s, c);
            assert(query_cells(env, aabb).contains(c) && cells_of(env, s).contains(c));
        }
    }

    /// Queries for all objects in the cells intersecting the given AABB
    ///
    /// Gives every object with an entry in a cell between the cells of the
    /// corners of the box, once.
    pub fn query_broad(&self, bbox: AABB) -> (r: Vec<AABBGridHandle>)
        requires
            self.wf(),
        ensures
            unique(r@),
            forall|k: u64| gives(r@, k) <==> self.found_broad(bbox, k),
    {
        let r = self.inner.broad(bbox, FnvSeen::new());
        proof {
            assert forall|k: u64| gives(r@, k) <==> self.found_broad(bbox, k) by {
                self.lemma_found_broad(bbox, k);
            }
        }
        r
    }

    /// Queries for objects intersecting a given AABB.
    /// Uses a visitor for slightly better performance.
    ///
    /// The visitor gets every object whose box meets the given box, once,
    /// with its box and with what is associated with it.
    pub fn query_visitor<V: ObjectVisitor<O>>(&self, aabb: AABB, visitor: &mut V)
        requires
            self.wf(),
            aabb.valid(),
            old(visitor).ready(),
        ensures
            final(visitor).ready(),
            exists|r: Seq<(AABBGridHandle, AABB, O)>|
                {
                    &&& #[trigger] self.answers(aabb, r)
                    &&& final(visitor).seen() == old(visitor).seen() + r
                },
    {
        let found = self.query(aabb);
        let ghost before = visitor.seen();
        let ghost mut given: Seq<(AABBGridHandle, AABB, O)> = Seq::empty();
        let mut i: usize = 0;
        while i < found.len()
            invariant
                i <= found.len(),
                visitor.ready(),
                given.len() == i,
                forall|j: int|
                    0 <= j < i ==> (#[trigger] given[j]) == (found[j].0, *found[j].1, *found[j].2),
                visitor.seen() == before + given,
            decreases found.len() - i,
        {
            let t = found[i];
            visitor.visit(t.0, t.1, t.2);
            proof {
                let next = given.push((t.0, *t.1, *t.2));
                assert(before + next =~= (before + given).push((t.0, *t.1, *t.2)));
                given = next;
            }
            i += 1;
        }
        proof {
            assert forall|k: u64|
                (exists|j: int| 0 <= j < given.len() && (#[trigger] given[j]).0@ == k)
                    <==> self.records().contains_key(k) && aabb.spec_intersects(
                    self.records()[k].shape,
                ) by {
                if exists|j: int| 0 <= j < given.len() && (#[trigger] given[j]).0@ == k {
                    let j = choose|j: int| 0 <= j < given.len() && (#[trigger] given[j]).0@ == k;
                    assert(found[j].0@ == k);
                }
                if exists|j: int| 0 <= j < found.len() && (#[trigger] found[j]).0@ == k {
                    let j = choose|j: int| 0 <= j < found.len() && (#[trigger] found[j]).0@ == k;
                    assert(given[j].0@ == k);
                }
            }
            assert forall|j: int| 0 <= j < given.len() implies {
                let t = #[trigger] given[j];
                self.records().contains_key(t.0@) && t.1 == self.records()[t.0@].shape && t.2
                    == self.records()[t.0@].obj
            } by {
                assert(given[j] == (found[j].0, *found[j].1, *found[j].2));
            }
            assert forall|a: int, b: int| 0 <= a < b < given.len() implies (#[trigger] given[a]).0@
                != (#[trigger] given[b]).0@ by {
                assert(found[a].0@ != found[b].0@);
            }
            assert(self.answers(aabb, given));
        }
    }

    /// Whether a list names every object whose box meets the given box,
    /// once, with its box and with what is associated with it.
    pub open spec fn answers(&self, aabb: AABB, r: Seq<(AABBGridHandle, AABB, O)>) -> bool {
        &&& forall|j: int|
            0 <= j < r.len() ==> {
                let t = #[trigger] r[j];
                self.records().contains_key(t.0@) && t.1 == self.records()[t.0@].shape && t.2
                    == self.records()[t.0@].obj
            }
        &&& forall|a: int, b: int|
            0 <= a < b < r.len() ==> (#[trigger] r[a]).0@ != (#[trigger] r[b]).0@
        &&& forall|k: u64|
            (exists|j: int| 0 <= j < r.len() && (#[trigger] r[j]).0@ == k)
                <==> self.records().contains_key(k) && aabb.spec_intersects(
                self.records()[k].shape,
            )
    }

    /// Whether a list names every object with an entry in a cell between
    /// the cells of the corners of the box, once.
    pub open spec fn answers_broad(&self, bbox: AABB, r: Seq<AABBGridHandle>) -> bool {
        unique(r) && forall|k: u64| gives(r, k) <==> self.found_broad(bbox, k)
    }

    /// Queries for all objects in the cells intersecting the given AABB
    /// Uses a visitor for slightly better performance.
    ///
    /// The visitor gets every object with an entry in a cell between the
    /// cells of the corners of the box, once.
    pub fn query_broad_visitor<V: HandleVisitor>(&self, bbox: AABB, visitor: &mut V)
        requires
            self.wf(),
            old(visitor).ready(),
        ensures
            final(visitor).ready(),
            exists|r: Seq<AABBGridHandle>|
                {
                    &&& #[trigger] self.answers_broad(bbox, r)
                    &&& final(visitor).seen() == old(visitor).seen() + r
                },
    {
        let found = self.query_broad(bbox);
        let ghost before = visitor.seen();
        let mut i: usize = 0;
        while i < found.len()
            invariant
                i <= found.len(),
                visitor.ready(),
                visitor.seen() == before + found@.take(i as int),
            decreases found.len() - i,
        {
            visitor.visit(found[i]);
            proof {
                assert(before + found@.take(i + 1) =~= (before + found@.take(i as int)).push(
                    found[i as int],
                ));
            }
            i += 1;
        }
        proof {
            assert(found@.take(found.len() as int) =~= found@);
            assert(self.answers_broad(bbox, found@));
        }
    }

    /// Returns the number of objects currently available
    pub fn len(&self) -> (n: usize)
        requires
            self.wf(),
        ensures
            n == self.records().len(),
    {
        self.inner.len()
    }

    /// Checks if the grid contains objects or not
    pub fn is_empty(&self) -> (e: bool)
        requires
            self.wf(),
        ensures
            e == (self.records().len() == 0),
    {
        self.inner.is_empty()
    }
}

} // verus!
