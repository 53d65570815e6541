use crate::error::GridError;
use crate::math::cell_coord;
use crate::math::clamp;
use crate::shape::Point;
use crate::shape::AABB;
use vstd::prelude::*;

pub mod dense;
pub mod sparse;

pub use dense::DenseIter;
pub use dense::DenseStorage;
pub use sparse::CellCoord;
pub use sparse::SparseStorage;
pub use sparse::XYRange;

verus! {

/// The largest number of cells that a rectangle of cells holds.
pub const MAX_DENSE_CELLS: usize = 0x7fff_ffff;

/// Whether both coordinates of a cell fit in an `i32`.
pub open spec fn in_range(c: (int, int)) -> bool {
    i32::MIN <= c.0 <= i32::MAX && i32::MIN <= c.1 <= i32::MAX
}

/// The part of the plane in which a storage can hold cells: all of it, or a
/// rectangle of cells.
pub struct Envelope {
    /// The side of a cell, in world units.
    pub cell_size: int,
    /// Whether cells exist only inside the rectangle below.
    pub bounded: bool,
    /// The lowest cell coordinates of the rectangle.
    pub x0: int,
    pub y0: int,
    /// The size of the rectangle, in cells.
    pub w: int,
    pub h: int,
}

impl Envelope {
    pub open spec fn wf(self) -> bool {
        &&& self.cell_size > 0
        &&& self.w >= 0
        &&& self.h >= 0
        &&& self.bounded ==> i32::MIN <= self.x0 && self.x0 + self.w <= i32::MAX + 1
        &&& self.bounded ==> i32::MIN <= self.y0 && self.y0 + self.h <= i32::MAX + 1
        &&& self.bounded ==> self.w * self.h <= MAX_DENSE_CELLS
    }

    /// A bounded envelope without a cell.
    pub open spec fn is_empty(self) -> bool {
        self.bounded && (self.w == 0 || self.h == 0)
    }

    /// Whether a cell can exist at these coordinates.
    pub open spec fn holds(self, c: (int, int)) -> bool {
        &&& in_range(c)
        &&& self.bounded ==> self.x0 <= c.0 < self.x0 + self.w && self.y0 <= c.1 < self.y0
            + self.h
    }

    /// The cell in which a world point lies.
    pub open spec fn cell_of(self, p: Point) -> (int, int) {
        (cell_coord(p.x as int, self.cell_size), cell_coord(p.y as int, self.cell_size))
    }

    /// Whether the cell of a world point can exist.
    pub open spec fn covers(self, p: Point) -> bool {
        self.holds(self.cell_of(p))
    }

    /// The coordinates inside the envelope that are nearest to `c`.
    pub open spec fn nearest(self, c: (int, int)) -> (int, int) {
        if self.bounded {
            (
                clamp(c.0, self.x0, self.x0 + self.w - 1),
                clamp(c.1, self.y0, self.y0 + self.h - 1),
            )
        } else {
            c
        }
    }

    /// The world points of a cell, as a box: its border lies on the border of
    /// the neighbouring cells, and it ends where `i32` ends.
    pub open spec fn cell_box(self, c: (int, int)) -> AABB {
        AABB {
            ll: Point {
                x: clamp(c.0 * self.cell_size, i32::MIN as int, i32::MAX as int) as i32,
                y: clamp(c.1 * self.cell_size, i32::MIN as int, i32::MAX as int) as i32,
            },
            ur: Point {
                x: clamp((c.0 + 1) * self.cell_size, i32::MIN as int, i32::MAX as int) as i32,
                y: clamp((c.1 + 1) * self.cell_size, i32::MIN as int, i32::MAX as int) as i32,
            },
        }
    }
}

/// The value of the `i32` range that is nearest to `v`.
pub fn clamp_i32(v: i64) -> (r: i32)
    ensures
        r == clamp(v as int, i32::MIN as int, i32::MAX as int),
{
    if v < -0x8000_0000 {
        -0x8000_0000
    } else if v > 0x7fff_ffff {
        0x7fff_ffff
    } else {
        v as i32
    }
}

/// Computes the box of the cell in column `cx` and row `cy`.
pub fn cell_bounds(cell_size: i32, cx: i32, cy: i32) -> (b: AABB)
    requires
        cell_size > 0,
    ensures
        forall|env: Envelope|
            env.cell_size == cell_size ==> b == #[trigger] env.cell_box((cx as int, cy as int)),
{
    let cs: i64 = cell_size as i64;
    let x: i64 = cx as i64;
    let y: i64 = cy as i64;
    assert(-0x8000_0000 * 0x8000_0000 <= x * cs <= 0x8000_0000 * 0x8000_0000) by (nonlinear_arith)
        requires
            -0x8000_0000 <= x < 0x8000_0000,
            0 < cs < 0x8000_0000,
    ;
    assert(-0x8000_0000 * 0x8000_0000 <= y * cs <= 0x8000_0000 * 0x8000_0000) by (nonlinear_arith)
        requires
            -0x8000_0000 <= y < 0x8000_0000,
            0 < cs < 0x8000_0000,
    ;
    assert((x + 1) * cs == x * cs + cs) by (nonlinear_arith);
    assert((y + 1) * cs == y * cs + cs) by (nonlinear_arith);
    AABB {
        ll: Point { x: clamp_i32(x * cs), y: clamp_i32(y * cs) },
        ur: Point { x: clamp_i32(x * cs + cs), y: clamp_i32(y * cs + cs) },
    }
}

/// The number of cells in the rectangle from `c1` to `c2`, both included.
pub open spec fn rect_len(c1: (int, int), c2: (int, int)) -> nat {
    if c1.0 <= c2.0 && c1.1 <= c2.1 {
        ((c2.0 - c1.0 + 1) * (c2.1 - c1.1 + 1)) as nat
    } else {
        0
    }
}

/// The `k`-th cell of the rectangle from `c1` to `c2`, row by row from the
/// lowest row, each row from its lowest column.
pub open spec fn rect_at(c1: (int, int), c2: (int, int), k: int) -> (int, int) {
    (c1.0 + k % (c2.0 - c1.0 + 1), c1.1 + k / (c2.0 - c1.0 + 1))
}

/// Whether `c` lies in the rectangle from `c1` to `c2`, both included.
pub open spec fn in_rect(c1: (int, int), c2: (int, int), c: (int, int)) -> bool {
    c1.0 <= c.0 <= c2.0 && c1.1 <= c.1 <= c2.1
}

/// Every cell of a rectangle has a place in its row-by-row order, and every
/// place holds a cell of the rectangle.
pub proof fn lemma_rect_at(c1: (int, int), c2: (int, int))
    ensures
        forall|k: int|
            0 <= k < rect_len(c1, c2) ==> in_rect(c1, c2, #[trigger] rect_at(c1, c2, k)),
        forall|c: (int, int)| #[trigger]
            in_rect(c1, c2, c) ==> {
                let k = (c.1 - c1.1) * (c2.0 - c1.0 + 1) + (c.0 - c1.0);
                0 <= k < rect_len(c1, c2) && rect_at(c1, c2, k) == c
            },
{
    let n = c2.0 - c1.0 + 1;
    let m = c2.1 - c1.1 + 1;
    assert forall|k: int| 0 <= k < rect_len(c1, c2) implies in_rect(
        c1,
        c2,
        #[trigger] rect_at(c1, c2, k),
    ) by {
        vstd::arithmetic::div_mod::lemma_fundamental_div_mod(k, n);
        vstd::arithmetic::div_mod::lemma_mod_bound(k, n);
        vstd::arithmetic::div_mod::lemma_div_pos_is_pos(k, n);
        let q = k / n;
        if q >= m {
            assert(n * q >= n * m) by (nonlinear_arith)
                requires
                    q >= m,
                    n > 0,
            ;
        }
    }
    assert forall|c: (int, int)| #[trigger] in_rect(c1, c2, c) implies {
        let k = (c.1 - c1.1) * (c2.0 - c1.0 + 1) + (c.0 - c1.0);
        0 <= k < rect_len(c1, c2) && rect_at(c1, c2, k) == c
    } by {
        let r = c.1 - c1.1;
        let k = r * n + (c.0 - c1.0);
        assert(0 <= r * n && r * n + n <= m * n) by (nonlinear_arith)
            requires
                0 <= r < m,
                n > 0,
        ;
        vstd::arithmetic::div_mod::lemma_fundamental_div_mod_converse(k, n, r, c.0 - c1.0);
    }
}

/// No cell of a rectangle has two places in its row-by-row order.
pub proof fn lemma_rect_at_injective(c1: (int, int), c2: (int, int), k1: int, k2: int)
    requires
        0 <= k1 < rect_len(c1, c2),
        0 <= k2 < rect_len(c1, c2),
        rect_at(c1, c2, k1) == rect_at(c1, c2, k2),
    ensures
        k1 == k2,
{
    let n = c2.0 - c1.0 + 1;
    vstd::arithmetic::div_mod::lemma_fundamental_div_mod(k1, n);
    vstd::arithmetic::div_mod::lemma_fundamental_div_mod(k2, n);
}

/// A walk over cell indexes that hands them out one by one.
pub trait CellIter<I> {
    spec fn wf(&self) -> bool;

    /// The indexes still to come, in the order in which they come.
    spec fn remaining(&self) -> Seq<I>;

    fn next(&mut self) -> (r: Option<I>)
        requires
            old(self).wf(),
        ensures
            final(self).wf(),
            match r {
                Some(i) => old(self).remaining().len() > 0 && i == old(self).remaining()[0]
                    && final(self).remaining() == old(self).remaining().skip(1),
                None => old(self).remaining().len() == 0 && final(self).remaining().len() == 0,
            },
    ;
}

/// A container of cells, reached by the cell coordinates that a cell size
/// gives to world points.
///
/// An index names a place for a cell. `coord` says which coordinates an index
/// stands for under a given envelope, `index` which index stands for given
/// coordinates, and `valid` which indexes name a place where a cell can exist.
pub trait Storage<T: Default>: Sized {
    type Idx: Copy;

    type IdxIter: CellIter<Self::Idx>;

    spec fn wf(&self) -> bool;

    spec fn envelope(&self) -> Envelope;

    /// The cells that exist, by their coordinates.
    spec fn cell_map(&self) -> Map<(int, int), T>;

    spec fn coord(env: Envelope, idx: Self::Idx) -> (int, int);

    spec fn index(env: Envelope, c: (int, int)) -> Self::Idx;

    spec fn valid(env: Envelope, idx: Self::Idx) -> bool;

    /// Whether the storage keeps only the cells in use: a cell can then exist
    /// anywhere, and `release` drops the cell it is given. Otherwise the
    /// cells fill a rectangle, and `release` does nothing.
    spec fn is_sparse() -> bool;

    /// Whether a storage with envelope `env` can make room for the cell at
    /// `c`.
    spec fn room(env: Envelope, c: (int, int)) -> bool;

    /// The envelope of a storage that had envelope `env` and has made room
    /// for the cell at `c`.
    spec fn grown(env: Envelope, c: (int, int)) -> Envelope;

    proof fn lemma_wf(&self)
        requires
            self.wf(),
        ensures
            self.envelope().wf(),
            self.envelope().bounded == !Self::is_sparse(),
            self.cell_map().dom().finite(),
            forall|c: (int, int)| #[trigger]
                self.cell_map().contains_key(c) ==> self.envelope().holds(c),
            self.envelope().bounded ==> forall|c: (int, int)| #[trigger]
                self.envelope().holds(c) ==> self.cell_map().contains_key(c),
            forall|c: (int, int)| #[trigger]
                self.envelope().holds(c) ==> Self::room(self.envelope(), c) && Self::grown(
                    self.envelope(),
                    c,
                ) == self.envelope(),
    ;

    proof fn lemma_index(env: Envelope, c: (int, int))
        requires
            env.wf(),
            env.bounded == !Self::is_sparse(),
            env.holds(c),
        ensures
            Self::valid(env, Self::index(env, c)),
            Self::coord(env, Self::index(env, c)) == c,
    ;

    proof fn lemma_coord(env: Envelope, idx: Self::Idx)
        requires
            env.wf(),
            env.bounded == !Self::is_sparse(),
            Self::valid(env, idx),
        ensures
            env.holds(Self::coord(env, idx)),
            Self::index(env, Self::coord(env, idx)) == idx,
    ;

    /// An empty storage. Refuses a cell size that is not positive.
    fn new(cell_size: i32) -> (r: Result<Self, GridError>)
        ensures
            cell_size <= 0 ==> r == Err::<Self, GridError>(GridError::CellSizeInvalid),
            cell_size > 0 ==> r is Ok,
            r matches Ok(s) ==> s.wf() && s.envelope().cell_size == cell_size && s.cell_map()
                == Map::<(int, int), T>::empty(),
    ;

    /// Whether two indexes are the same.
    fn idx_eq(a: Self::Idx, b: Self::Idx) -> (same: bool)
        ensures
            same == (a == b),
    ;

    /// The side of a cell, in world units.
    fn cell_size(&self) -> (cs: i32)
        requires
            self.wf(),
        ensures
            cs == self.envelope().cell_size,
    ;

    /// The index of the cell of `p`, or of the nearest cell inside the
    /// envelope. Where the envelope has no cell, the index is not valid.
    fn cell_id(&self, p: Point) -> (id: Self::Idx)
        requires
            self.wf(),
        ensures
            !self.envelope().is_empty() ==> id == Self::index(
                self.envelope(),
                self.envelope().nearest(self.envelope().cell_of(p)),
            ),
            self.envelope().is_empty() ==> !Self::valid(self.envelope(), id),
    ;

    /// The cell at an index, where there is one.
    fn cell(&self, id: Self::Idx) -> (r: Option<&T>)
        requires
            self.wf(),
        ensures
            match r {
                Some(c) => Self::valid(self.envelope(), id) && self.cell_map().contains_key(
                    Self::coord(self.envelope(), id),
                ) && *c == self.cell_map()[Self::coord(self.envelope(), id)],
                None => !(Self::valid(self.envelope(), id) && self.cell_map().contains_key(
                    Self::coord(self.envelope(), id),
                )),
            },
    ;

    /// Makes sure that the cell of `p` exists and returns its index. The flag
    /// says whether indexes that were handed out before have lost their
    /// meaning: whoever keeps indexes then computes them anew with `cell_id`.
    fn cell_mut(&mut self, p: Point) -> (r: Result<(Self::Idx, bool), GridError>)
        requires
            old(self).wf(),
        ensures
            final(self).wf(),
            final(self).envelope().cell_size == old(self).envelope().cell_size,
            final(self).envelope().bounded == old(self).envelope().bounded,
            forall|c: (int, int)| #[trigger]
                old(self).envelope().holds(c) ==> final(self).envelope().holds(c),
            forall|c: (int, int)| #[trigger]
                old(self).cell_map().contains_key(c) ==> final(self).cell_map().contains_key(c)
                    && final(self).cell_map()[c] == old(self).cell_map()[c],
            forall|c: (int, int)| #[trigger]
                final(self).cell_map().contains_key(c) && !old(self).cell_map().contains_key(c)
                    ==> call_ensures(T::default, (), final(self).cell_map()[c]),
            match r {
                Ok((id, reindexed)) => {
                    &&& Self::room(old(self).envelope(), old(self).envelope().cell_of(p))
                    &&& final(self).envelope() == Self::grown(
                        old(self).envelope(),
                        old(self).envelope().cell_of(p),
                    )
                    &&& final(self).envelope().covers(p)
                    &&& final(self).cell_map().contains_key(final(self).envelope().cell_of(p))
                    &&& id == Self::index(final(self).envelope(), final(self).envelope().cell_of(p))
                    &&& !final(self).envelope().bounded ==> final(self).cell_map().dom() =~= old(
                        self,
                    ).cell_map().dom().insert(final(self).envelope().cell_of(p))
                    &&& !reindexed ==> forall|i: Self::Idx| #[trigger]
                        Self::valid(old(self).envelope(), i) ==> Self::valid(
                            final(self).envelope(),
                            i,
                        ) && Self::coord(final(self).envelope(), i) == Self::coord(
                            old(self).envelope(),
                            i,
                        )
                },
                Err(e) => {
                    &&& e == GridError::PositionInvalid
                    &&& !Self::room(old(self).envelope(), old(self).envelope().cell_of(p))
                    &&& final(self).envelope() == old(self).envelope()
                    &&& final(self).cell_map() == old(self).cell_map()
                },
            },
    ;

    /// The cell at a valid index. Where no cell exists there yet, a new one
    /// is made first.
    fn cell_mut_unchecked(&mut self, id: Self::Idx) -> (r: &mut T)
        requires
            old(self).wf(),
            Self::valid(old(self).envelope(), id),
        ensures
            old(self).cell_map().contains_key(Self::coord(old(self).envelope(), id)) ==> *r == old(
                self,
            ).cell_map()[Self::coord(old(self).envelope(), id)],
            !old(self).cell_map().contains_key(Self::coord(old(self).envelope(), id))
                ==> call_ensures(T::default, (), *r),
            final(self).cell_map() == old(self).cell_map().insert(
                Self::coord(old(self).envelope(), id),
                *final(r),
            ),
            final(self).envelope() == old(self).envelope(),
            final(self).wf(),
    ;

    /// The indexes of the rectangle of cells from `ll` to `ur`, both
    /// included, row by row. Where one of the two is not valid, none.
    fn cell_range(&self, ll: Self::Idx, ur: Self::Idx) -> (it: Self::IdxIter)
        requires
            self.wf(),
        ensures
            it.wf(),
            Self::valid(self.envelope(), ll) && Self::valid(self.envelope(), ur) ==> {
                let c1 = Self::coord(self.envelope(), ll);
                let c2 = Self::coord(self.envelope(), ur);
                &&& it.remaining().len() == rect_len(c1, c2)
                &&& forall|k: int|
                    0 <= k < it.remaining().len() ==> Self::valid(
                        self.envelope(),
                        #[trigger] it.remaining()[k],
                    ) && Self::coord(self.envelope(), it.remaining()[k]) == rect_at(c1, c2, k)
            },
            !(Self::valid(self.envelope(), ll) && Self::valid(self.envelope(), ur))
                ==> it.remaining().len() == 0,
    ;

    /// The index of every cell that exists, each once.
    fn cell_ids(&self) -> (ids: Vec<Self::Idx>)
        requires
            self.wf(),
        ensures
            forall|k: int|
                0 <= k < ids.len() ==> Self::valid(self.envelope(), #[trigger] ids[k])
                    && self.cell_map().contains_key(Self::coord(self.envelope(), ids[k])),
            forall|c: (int, int)| #[trigger]
                self.cell_map().contains_key(c) ==> ids@.contains(Self::index(self.envelope(), c)),
            ids@.no_duplicates(),
    ;

    /// Tells the storage that the cell at `id` holds nothing. A storage that
    /// keeps only the cells in use drops it; another one does nothing.
    fn release(&mut self, id: Self::Idx)
        requires
            old(self).wf(),
            Self::valid(old(self).envelope(), id),
        ensures
            final(self).wf(),
            final(self).envelope() == old(self).envelope(),
            final(self).cell_map() == if Self::is_sparse() {
                old(self).cell_map().remove(Self::coord(old(self).envelope(), id))
            } else {
                old(self).cell_map()
            },
    ;

    /// The world points of the cell at a valid index, as a box.
    fn cell_aabb(&self, id: Self::Idx) -> (b: AABB)
        requires
            self.wf(),
            Self::valid(self.envelope(), id),
        ensures
            b == self.envelope().cell_box(Self::coord(self.envelope(), id)),
    ;
}

} // verus!
