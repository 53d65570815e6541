use crate::error::GridError;
use crate::math::clamp;
use crate::math::floor_div;
use crate::math::lemma_cell_coord_range;
use crate::shape::Point;
use crate::shape::AABB;
use crate::storage::cell_bounds;
use crate::storage::rect_at;
use crate::storage::rect_len;
use crate::storage::CellIter;
use crate::storage::Envelope;
use crate::storage::Storage;
use crate::storage::MAX_DENSE_CELLS;
use vstd::arithmetic::div_mod::lemma_fundamental_div_mod;
use vstd::arithmetic::div_mod::lemma_fundamental_div_mod_converse;
use vstd::arithmetic::div_mod::lemma_mod_bound;
use vstd::prelude::*;

verus! {

/// The place of the cell in row `r` and column `c` in a row-major vector of
/// rows of `w` cells.
pub open spec fn at(w: int, r: int, c: int) -> int {
    r * w + c
}

pub proof fn lemma_at(w: int, r: int, c: int)
    requires
        w > 0,
        0 <= c < w,
        0 <= r,
    ensures
        at(w, r, c) / w == r,
        at(w, r, c) % w == c,
        at(w, r, c) >= 0,
{
    assert(r * w >= 0) by (nonlinear_arith)
        requires
            r >= 0,
            w > 0,
    ;
    assert(r * w + c == w * r + c) by (nonlinear_arith);
    lemma_fundamental_div_mod_converse(r * w + c, w, r, c);
}

pub proof fn lemma_at_bound(w: int, h: int, r: int, c: int)
    requires
        0 <= c < w,
        0 <= r < h,
    ensures
        0 <= at(w, r, c) < w * h,
{
    assert(0 <= r * w && r * w + w <= w * h) by (nonlinear_arith)
        requires
            0 <= r < h,
            w > 0,
    ;
}

pub proof fn lemma_row_col(w: int, h: int, i: int)
    requires
        w > 0,
        0 <= i < w * h,
    ensures
        0 <= i / w < h,
        0 <= i % w < w,
        i == at(w, i / w, i % w),
{
    lemma_fundamental_div_mod(i, w);
    lemma_mod_bound(i, w);
    let q = i / w;
    assert(w * q == q * w) by (nonlinear_arith);
    if q >= h {
        assert(w * q >= w * h) by (nonlinear_arith)
            requires
                q >= h,
                w > 0,
        ;
    }
    if q < 0 {
        assert(w * q <= -w) by (nonlinear_arith)
            requires
                q <= -1,
                w > 0,
        ;
    }
}

/// The envelope that holds the cells of `env` and the cell at `c`, and no
/// row or column more than that takes.
pub open spec fn grown(env: Envelope, c: (int, int)) -> Envelope {
    if env.w == 0 || env.h == 0 {
        Envelope { x0: c.0, y0: c.1, w: 1, h: 1, ..env }
    } else {
        let x0 = vstd::math::min(env.x0, c.0);
        let y0 = vstd::math::min(env.y0, c.1);
        let x1 = vstd::math::max(env.x0 + env.w - 1, c.0);
        let y1 = vstd::math::max(env.y0 + env.h - 1, c.1);
        Envelope { x0, y0, w: x1 - x0 + 1, h: y1 - y0 + 1, ..env }
    }
}

/// Whether the step from one envelope to another gives the cells that exist
/// other indexes: a cell was there, and the rows got longer or rows were
/// added below.
pub open spec fn reindexes(before: Envelope, after: Envelope) -> bool {
    before.w > 0 && before.h > 0 && (after.x0 != before.x0 || after.y0 != before.y0 || after.w
        != before.w)
}

/// The cells of a row-major vector, by their coordinates.
pub open spec fn dense_map<T>(env: Envelope, s: Seq<T>) -> Map<(int, int), T> {
    Map::new(
        |c: (int, int)| env.holds(c),
        |c: (int, int)| s[at(env.w, c.1 - env.y0, c.0 - env.x0)],
    )
}

/// Whether a rectangle of `w` by `h` cells from `(x, y)` can be stored.
pub open spec fn extent_ok(x: int, y: int, w: int, h: int) -> bool {
    &&& 0 <= w
    &&& 0 <= h
    &&& w * h <= MAX_DENSE_CELLS
    &&& x + w <= i32::MAX + 1
    &&& y + h <= i32::MAX + 1
}

proof fn lemma_dense_update<T>(env: Envelope, s: Seq<T>, i: int, v: T)
    requires
        env.wf(),
        env.bounded,
        env.w > 0,
        0 <= i < env.w * env.h,
        s.len() == env.w * env.h,
    ensures
        dense_map(env, s.update(i, v)) == dense_map(env, s).insert(
            (env.x0 + i % env.w, env.y0 + i / env.w),
            v,
        ),
{
    lemma_row_col(env.w, env.h, i);
    let c0 = (env.x0 + i % env.w, env.y0 + i / env.w);
    assert forall|c: (int, int)| env.holds(c) implies dense_map(env, s.update(i, v))[c]
        == dense_map(env, s).insert(c0, v)[c] by {
        lemma_at(env.w, c.1 - env.y0, c.0 - env.x0);
        lemma_at_bound(env.w, env.h, c.1 - env.y0, c.0 - env.x0);
    }
    assert(dense_map(env, s.update(i, v)) =~= dense_map(env, s).insert(c0, v));
}

/// DenseStorage stores cells in a Vec to be used for a Grid.
/// Its cells fill a rectangle, row by row, that grows to take in the cells
/// that are asked for.
pub struct DenseStorage<T: Default> {
    cell_size: i32,
    start_x: i32,
    start_y: i32,
    width: i32,
    height: i32,
    cells: Vec<T>,
}

impl<T: Default> DenseStorage<T> {
    /// Creates a new storage centered on zero with width and height defined by size.
    ///
    /// Note that the size is counted in cells and not in absolute units (!)
    pub fn new_centered(cell_size: i32, size: i32) -> (r: Result<Self, GridError>)
        ensures
            cell_size <= 0 ==> r == Err::<Self, GridError>(GridError::CellSizeInvalid),
            cell_size > 0 && !(0 <= size && extent_ok(-size, -size, 2 * size, 2 * size)) ==> r
                == Err::<Self, GridError>(GridError::PositionInvalid),
            cell_size > 0 && 0 <= size && extent_ok(-size, -size, 2 * size, 2 * size) ==> r is Ok,
            r matches Ok(s) ==> {
                &&& s.wf()
                &&& s.envelope() == (Envelope {
                    cell_size: cell_size as int,
                    bounded: true,
                    x0: -size,
                    y0: -size,
                    w: 2 * size,
                    h: 2 * size,
                })
                &&& forall|c: (int, int)| #[trigger]
                    s.cell_map().contains_key(c) ==> call_ensures(
                        T::default,
                        (),
                        s.cell_map()[c],
                    )
            },
    {
        if cell_size <= 0 {
            return Err(GridError::CellSizeInvalid);
        }
        if size < 0 || size > 0x3fff_ffff {
            proof {
                if size > 0x3fff_ffff {
                    assert((2 * size) * (2 * size) > MAX_DENSE_CELLS) by (nonlinear_arith)
                        requires
                            size > 0x3fff_ffff,
                    ;
                }
            }
            return Err(GridError::PositionInvalid);
        }
        Self::new_rect(cell_size, -size, -size, 2 * size, 2 * size)
    }

    /// Creates a new storage with a custom rect defining its boundaries.
    ///
    /// Note that the coordinates are counted in cells and not in absolute units (!)
    pub fn new_rect(cell_size: i32, x: i32, y: i32, w: i32, h: i32) -> (r: Result<
        Self,
        GridError,
    >)
        ensures
            cell_size <= 0 ==> r == Err::<Self, GridError>(GridError::CellSizeInvalid),
            cell_size > 0 && !extent_ok(x as int, y as int, w as int, h as int) ==> r == Err::<
                Self,
                GridError,
            >(GridError::PositionInvalid),
            cell_size > 0 && extent_ok(x as int, y as int, w as int, h as int) ==> r is Ok,
            r matches Ok(s) ==> {
                &&& s.wf()
                &&& s.envelope() == (Envelope {
                    cell_size: cell_size as int,
                    bounded: true,
                    x0: x as int,
                    y0: y as int,
                    w: w as int,
                    h: h as int,
                })
                &&& forall|c: (int, int)| #[trigger]
                    s.cell_map().contains_key(c) ==> call_ensures(
                        T::default,
                        (),
                        s.cell_map()[c],
                    )
            },
    {
        if cell_size <= 0 {
            return Err(GridError::CellSizeInvalid);
        }
        if w < 0 || h < 0 || x as i64 + w as i64 > 0x8000_0000 || y as i64 + h as i64
            > 0x8000_0000 {
            return Err(GridError::PositionInvalid);
        }
        assert(0 <= (w as int) * (h as int) <= 0x7fff_ffff * 0x7fff_ffff) by (nonlinear_arith)
            requires
                0 <= w <= 0x7fff_ffff,
                0 <= h <= 0x7fff_ffff,
        ;
        let n: i64 = w as i64 * h as i64;
        if n > MAX_DENSE_CELLS as i64 {
            return Err(GridError::PositionInvalid);
        }
        let cells = Self::fresh_cells(n as usize);
        let s = DenseStorage { cell_size, start_x: x, start_y: y, width: w, height: h, cells };
        proof {
            assert forall|c: (int, int)| #[trigger] s.cell_map().contains_key(c) implies call_ensures(
                T::default,
                (),
                s.cell_map()[c],
            ) by {
                lemma_at_bound(w as int, h as int, c.1 - y, c.0 - x);
            }
        }
        Ok(s)
    }

    fn fresh_cells(n: usize) -> (cells: Vec<T>)
        ensures
            cells.len() == n,
            forall|i: int| 0 <= i < n ==> call_ensures(T::default, (), #[trigger] cells[i]),
    {
        let mut cells: Vec<T> = Vec::new();
        let mut i: usize = 0;
        while i < n
            invariant
                i <= n,
                cells.len() == i,
                forall|j: int| 0 <= j < i ==> call_ensures(T::default, (), #[trigger] cells[j]),
            decreases n - i,
        {
            cells.push(T::default());
            i += 1;
        }
        cells
    }

    /// The cells, row by row.
    pub fn cells(&self) -> (v: &Vec<T>)
        requires
            self.wf(),
        ensures
            v.len() == self.envelope().w * self.envelope().h,
            forall|c: (int, int)| #[trigger]
                self.cell_map().contains_key(c) ==> v@[at(
                    self.envelope().w,
                    c.1 - self.envelope().y0,
                    c.0 - self.envelope().x0,
                )] == self.cell_map()[c],
    {
        &self.cells
    }

    /// The rectangle of cells: the coordinates of its lowest cell, then its
    /// width and its height, all counted in cells.
    pub fn get_rect(&self) -> (r: (i32, i32, i32, i32))
        requires
            self.wf(),
        ensures
            r.0 == self.envelope().x0,
            r.1 == self.envelope().y0,
            r.2 == self.envelope().w,
            r.3 == self.envelope().h,
    {
        (self.start_x, self.start_y, self.width, self.height)
    }
}

impl<T: Default> DenseStorage<T> {
    /// Gives the storage the rectangle of `nw` by `nh` cells from `(x0, y0)`,
    /// which holds the one it has, and moves each cell to its new place.
    fn rebuild(&mut self, x0: i32, y0: i32, nw: i32, nh: i32)
        requires
            old(self).wf(),
            old(self).width > 0,
            old(self).height > 0,
            x0 <= old(self).start_x,
            y0 <= old(self).start_y,
            old(self).start_x + old(self).width <= x0 + nw,
            old(self).start_y + old(self).height <= y0 + nh,
            extent_ok(x0 as int, y0 as int, nw as int, nh as int),
        ensures
            final(self).wf(),
            final(self).envelope() == (Envelope {
                x0: x0 as int,
                y0: y0 as int,
                w: nw as int,
                h: nh as int,
                ..old(self).envelope()
            }),
            forall|c: (int, int)| #[trigger]
                old(self).cell_map().contains_key(c) ==> final(self).cell_map().contains_key(c)
                    && final(self).cell_map()[c] == old(self).cell_map()[c],
            forall|c: (int, int)| #[trigger]
                final(self).cell_map().contains_key(c) && !old(self).cell_map().contains_key(c)
                    ==> call_ensures(T::default, (), final(self).cell_map()[c]),
    {
        let ow: usize = self.width as usize;
        let oh: usize = self.height as usize;
        let pl: usize = (self.start_x as i64 - x0 as i64) as usize;
        let pd: usize = (self.start_y as i64 - y0 as i64) as usize;
        let w: usize = nw as usize;
        let h: usize = nh as usize;
        let ghost before = self.cells@;
        let ghost n = before.len() as int;
        proof {
            assert(n == ow * oh);
        }
        let mut taken_from: Vec<T> = Vec::new();
        core::mem::swap(&mut self.cells, &mut taken_from);
        let mut rev: Vec<T> = Vec::new();
        while taken_from.len() > 0
            invariant
                before.len() == n,
                taken_from.len() + rev.len() == n,
                forall|i: int| 0 <= i < taken_from.len() ==> taken_from[i] == before[i],
                forall|i: int| 0 <= i < rev.len() ==> #[trigger] rev[i] == before[n - 1 - i],
            decreases taken_from.len(),
        {
            match taken_from.pop() {
                Some(cell) => {
                    rev.push(cell);
                },
                None => {},
            }
        }
        proof {
            assert(w * h <= MAX_DENSE_CELLS);
            assert(0 * w == 0) by (nonlinear_arith);
            assert(ow * 0 == 0) by (nonlinear_arith);
        }
        let mut fresh: Vec<T> = Vec::new();
        let mut r: usize = 0;
        let ghost mut taken: int = 0;
        while r < h
            invariant
                0 < ow,
                0 < oh,
                n == ow * oh,
                pl + ow <= w,
                pd + oh <= h,
                w * h <= MAX_DENSE_CELLS,
                r <= h,
                before.len() == n,
                fresh.len() == r * w,
                taken == ow * clamp(r - pd, 0, oh as int),
                rev.len() == n - taken,
                forall|i: int| 0 <= i < rev.len() ==> #[trigger] rev[i] == before[n - 1 - i],
                forall|rr: int, cc: int|
                    0 <= rr < r && 0 <= cc < w ==> if pd <= rr < pd + oh && pl <= cc < pl + ow {
                        #[trigger] fresh[at(w as int, rr, cc)] == before[at(
                            ow as int,
                            rr - pd,
                            cc - pl,
                        )]
                    } else {
                        call_ensures(T::default, (), fresh[at(w as int, rr, cc)])
                    },
            decreases h - r,
        {
            let row_inside = pd <= r && r < pd + oh;
            let mut c: usize = 0;
            proof {
                assert(ow * clamp(r - pd, 0, oh as int) + (if row_inside {
                    ow as int
                } else {
                    0
                }) == ow * clamp(r + 1 - pd, 0, oh as int)) by (nonlinear_arith)
                    requires
                        row_inside == (pd <= r && r < pd + oh),
                        0 < oh,
                ;
                assert(r * w + w == (r + 1) * w) by (nonlinear_arith);
                assert(r * w + w <= w * h) by (nonlinear_arith)
                    requires
                        r < h,
                ;
                if row_inside {
                    assert(ow * (r - pd) + ow <= ow * oh) by (nonlinear_arith)
                        requires
                            r - pd < oh,
                            0 <= r - pd,
                    ;
                }
            }
            while c < w
                invariant
                    0 < ow,
                    0 < oh,
                    n == ow * oh,
                    pl + ow <= w,
                    pd + oh <= h,
                    w * h <= MAX_DENSE_CELLS,
                    r < h,
                    c <= w,
                    before.len() == n,
                    r * w + w <= w * h,
                    row_inside == (pd <= r && r < pd + oh),
                    row_inside ==> ow * (r - pd) + ow <= ow * oh,
                    fresh.len() == r * w + c,
                    taken == ow * clamp(r - pd, 0, oh as int) + (if row_inside {
                        clamp(c - pl, 0, ow as int)
                    } else {
                        0
                    }),
                    rev.len() == n - taken,
                    forall|i: int| 0 <= i < rev.len() ==> #[trigger] rev[i] == before[n - 1 - i],
                    forall|rr: int, cc: int|
                        (0 <= rr < r && 0 <= cc < w) || (rr == r && 0 <= cc < c) ==> if pd <= rr
                            < pd + oh && pl <= cc < pl + ow {
                            #[trigger] fresh[at(w as int, rr, cc)] == before[at(
                                ow as int,
                                rr - pd,
                                cc - pl,
                            )]
                        } else {
                            call_ensures(T::default, (), fresh[at(w as int, rr, cc)])
                        },
                decreases w - c,
            {
                let ghost prev = fresh@;
                proof {
                    assert forall|rr: int, cc: int|
                        (0 <= rr < r && 0 <= cc < w) || (rr == r && 0 <= cc < c) implies 0
                        <= #[trigger] at(w as int, rr, cc) < r * w + c by {
                        if rr < r {
                            lemma_at_bound(w as int, r as int, rr, cc);
                            assert(w * r == r * w) by (nonlinear_arith);
                        } else {
                            assert(r * w >= 0) by (nonlinear_arith)
                                requires
                                    r >= 0,
                                    w >= 0,
                            ;
                        }
                    }
                }
                let cell = if row_inside && pl <= c && c < pl + ow {
                    match rev.pop() {
                        Some(cell) => {
                            proof {
                                assert(taken == at(ow as int, r - pd, c - pl)) by (nonlinear_arith)
                                    requires
                                        taken == ow * (r - pd) + (c - pl),
                                ;
                                taken = taken + 1;
                            }
                            cell
                        },
                        None => T::default(),
                    }
                } else {
                    T::default()
                };
                fresh.push(cell);
                proof {
                    assert forall|rr: int, cc: int|
                        (0 <= rr < r && 0 <= cc < w) || (rr == r && 0 <= cc < c + 1) implies if pd
                        <= rr < pd + oh && pl <= cc < pl + ow {
                        #[trigger] fresh[at(w as int, rr, cc)] == before[at(
                            ow as int,
                            rr - pd,
                            cc - pl,
                        )]
                    } else {
                        call_ensures(T::default, (), fresh[at(w as int, rr, cc)])
                    } by {
                        if rr == r && cc == c {
                        } else {
                            assert(fresh[at(w as int, rr, cc)] == prev[at(w as int, rr, cc)]);
                        }
                    }
                }
                c += 1;
            }
            r += 1;
        }
        self.start_x = x0;
        self.start_y = y0;
        self.width = nw;
        self.height = nh;
        self.cells = fresh;
        proof {
            assert(h * w == w * h) by (nonlinear_arith);
            let oenv = old(self).envelope();
            let nenv = self.envelope();
            assert forall|c: (int, int)| #[trigger]
                self.cell_map().contains_key(c) implies (if old(self).cell_map().contains_key(c) {
                self.cell_map()[c] == old(self).cell_map()[c]
            } else {
                call_ensures(T::default, (), self.cell_map()[c])
            }) by {
                let rr = c.1 - y0;
                let cc = c.0 - x0;
                assert(0 <= rr < h && 0 <= cc < w);
                assert(nenv.holds(c));
                assert(oenv.holds(c) == (pd <= rr < pd + oh && pl <= cc < pl + ow));
            }
        }
    }
}

impl<T: Default> Storage<T> for DenseStorage<T> {
    type Idx = usize;

    type IdxIter = DenseIter;

    closed spec fn wf(&self) -> bool {
        &&& self.cell_size > 0
        &&& extent_ok(
            self.start_x as int,
            self.start_y as int,
            self.width as int,
            self.height as int,
        )
        &&& self.cells.len() == self.width * self.height
    }

    closed spec fn envelope(&self) -> Envelope {
        Envelope {
            cell_size: self.cell_size as int,
            bounded: true,
            x0: self.start_x as int,
            y0: self.start_y as int,
            w: self.width as int,
            h: self.height as int,
        }
    }

    closed spec fn cell_map(&self) -> Map<(int, int), T> {
        dense_map(self.envelope(), self.cells@)
    }

    open spec fn coord(env: Envelope, idx: Self::Idx) -> (int, int) {
        (env.x0 + idx as int % env.w, env.y0 + idx as int / env.w)
    }

    open spec fn index(env: Envelope, c: (int, int)) -> Self::Idx {
        at(env.w, c.1 - env.y0, c.0 - env.x0) as usize
    }

    open spec fn valid(env: Envelope, idx: Self::Idx) -> bool {
        env.w > 0 && idx < env.w * env.h
    }

    open spec fn is_sparse() -> bool {
        false
    }

    open spec fn room(env: Envelope, c: (int, int)) -> bool {
        grown(env, c).w * grown(env, c).h <= MAX_DENSE_CELLS
    }

    open spec fn grown(env: Envelope, c: (int, int)) -> Envelope {
        grown(env, c)
    }

    proof fn lemma_wf(&self) {
        let env = self.envelope();
        assert(self.cell_map().dom() =~= Set::new(|c: (int, int)| env.holds(c)));
        lemma_holds_finite(env);
        assert forall|c: (int, int)| #[trigger] env.holds(c) implies Self::room(env, c)
            && Self::grown(env, c) == env by {
            assert(grown(env, c) == env);
        }
    }

    proof fn lemma_index(env: Envelope, c: (int, int)) {
        lemma_at(env.w, c.1 - env.y0, c.0 - env.x0);
        lemma_at_bound(env.w, env.h, c.1 - env.y0, c.0 - env.x0);
    }

    proof fn lemma_coord(env: Envelope, idx: Self::Idx) {
        lemma_row_col(env.w, env.h, idx as int);
    }

    fn new(cell_size: i32) -> (r: Result<Self, GridError>)
        ensures
            r matches Ok(s) ==> s.envelope().is_empty(),
    {
        if cell_size <= 0 {
            return Err(GridError::CellSizeInvalid);
        }
        let s = DenseStorage {
            cell_size,
            start_x: 0,
            start_y: 0,
            width: 0,
            height: 0,
            cells: Vec::new(),
        };
        assert(s.cell_map() =~= Map::<(int, int), T>::empty());
        Ok(s)
    }

    fn idx_eq(a: Self::Idx, b: Self::Idx) -> (same: bool) {
        a == b
    }

    fn cell_size(&self) -> (cs: i32) {
        self.cell_size
    }

    fn cell_id(&self, p: Point) -> (id: Self::Idx) {
        if self.width == 0 || self.height == 0 {
            assert(self.width * self.height == 0) by (nonlinear_arith)
                requires
                    self.width == 0 || self.height == 0,
            ;
            return 0;
        }
        let cx = floor_div(p.x, self.cell_size);
        let cy = floor_div(p.y, self.cell_size);
        let col: i64 = if cx < self.start_x {
            0
        } else if cx as i64 >= self.start_x as i64 + self.width as i64 {
            self.width as i64 - 1
        } else {
            cx as i64 - self.start_x as i64
        };
        let row: i64 = if cy < self.start_y {
            0
        } else if cy as i64 >= self.start_y as i64 + self.height as i64 {
            self.height as i64 - 1
        } else {
            cy as i64 - self.start_y as i64
        };
        proof {
            lemma_at_bound(self.width as int, self.height as int, row as int, col as int);
        }
        (row * self.width as i64 + col) as usize
    }

    fn cell(&self, id: Self::Idx) -> (r: Option<&T>) {
        if id < self.cells.len() {
            proof {
                if self.width > 0 {
                    lemma_row_col(self.width as int, self.height as int, id as int);
                } else {
                    assert(self.width * self.height == 0) by (nonlinear_arith)
                        requires
                            self.width == 0,
                    ;
                }
            }
            Some(&self.cells[id])
        } else {
            None
        }
    }

    fn cell_mut(&mut self, p: Point) -> (r: Result<(Self::Idx, bool), GridError>)
        ensures
            r is Ok ==> final(self).envelope() == grown(
                old(self).envelope(),
                old(self).envelope().cell_of(p),
            ),
            r matches Ok((_, reindexed)) ==> reindexed == reindexes(
                old(self).envelope(),
                final(self).envelope(),
            ),
    {
        let cx = floor_div(p.x, self.cell_size);
        let cy = floor_div(p.y, self.cell_size);
        proof {
            lemma_cell_coord_range(p.x as int, self.cell_size as int);
            lemma_cell_coord_range(p.y as int, self.cell_size as int);
        }
        if self.width == 0 || self.height == 0 {
            // First allocation, change start_x and start_y to match pos
            assert(self.cells.len() == 0) by (nonlinear_arith)
                requires
                    self.cells.len() == self.width * self.height,
                    self.width == 0 || self.height == 0,
            ;
            assert(old(self).cell_map() =~= Map::<(int, int), T>::empty());
            self.start_x = cx;
            self.start_y = cy;
            self.width = 1;
            self.height = 1;
            self.cells.push(T::default());
            proof {
                assert forall|c: (int, int)| #[trigger] self.cell_map().contains_key(c) implies call_ensures(
                    T::default,
                    (),
                    self.cell_map()[c],
                ) by {
                    assert(c == (cx as int, cy as int));
                }
            }
            return Ok((0, false));
        }
        let x0: i64 = if cx < self.start_x {
            cx as i64
        } else {
            self.start_x as i64
        };
        let y0: i64 = if cy < self.start_y {
            cy as i64
        } else {
            self.start_y as i64
        };
        let x1: i64 = if cx as i64 > self.start_x as i64 + self.width as i64 - 1 {
            cx as i64
        } else {
            self.start_x as i64 + self.width as i64 - 1
        };
        let y1: i64 = if cy as i64 > self.start_y as i64 + self.height as i64 - 1 {
            cy as i64
        } else {
            self.start_y as i64 + self.height as i64 - 1
        };
        let nw: i64 = x1 - x0 + 1;
        let nh: i64 = y1 - y0 + 1;
        if nw > MAX_DENSE_CELLS as i64 || nh > MAX_DENSE_CELLS as i64 {
            proof {
                assert(nw * nh > MAX_DENSE_CELLS) by (nonlinear_arith)
                    requires
                        nw > MAX_DENSE_CELLS || nh > MAX_DENSE_CELLS,
                        nw >= 1,
                        nh >= 1,
                ;
            }
            return Err(GridError::PositionInvalid);
        }
        assert(0 <= nw * nh <= 0x7fff_ffff * 0x7fff_ffff) by (nonlinear_arith)
            requires
                0 <= nw <= 0x7fff_ffff,
                0 <= nh <= 0x7fff_ffff,
        ;
        if nw * nh > MAX_DENSE_CELLS as i64 {
            return Err(GridError::PositionInvalid);
        }
        let reindexed = x0 != self.start_x as i64 || y0 != self.start_y as i64 || nw
            != self.width as i64;
        if reindexed || nh != self.height as i64 {
            self.rebuild(x0 as i32, y0 as i32, nw as i32, nh as i32);
        }
        proof {
            lemma_at_bound(nw as int, nh as int, cy - y0, cx - x0);
            let oenv = old(self).envelope();
            let nenv = self.envelope();
            let c = oenv.cell_of(p);
            assert(c == (cx as int, cy as int));
            assert(nenv == grown(oenv, c));
            assert(nenv.holds(c));
            assert(self.cell_map().contains_key(c));
            if !reindexed {
                assert(oenv.w * oenv.h <= nenv.w * nenv.h) by (nonlinear_arith)
                    requires
                        oenv.w == nenv.w,
                        0 <= oenv.h <= nenv.h,
                        0 <= oenv.w,
                ;
            }
        }
        let id = ((cy as i64 - y0) * nw + (cx as i64 - x0)) as usize;
        Ok((id, reindexed))
    }

    fn cell_mut_unchecked(&mut self, id: Self::Idx) -> (r: &mut T) {
        proof {
            let env = self.envelope();
            let s = self.cells@;
            lemma_row_col(env.w, env.h, id as int);
            assert forall|v: T| dense_map(env, #[trigger] s.update(id as int, v)) == dense_map(
                env,
                s,
            ).insert(Self::coord(env, id), v) by {
                lemma_dense_update(env, s, id as int, v);
            }
        }
        &mut self.cells[id]
    }

    fn cell_range(&self, ll: Self::Idx, ur: Self::Idx) -> (it: Self::IdxIter) {
        let n = self.cells.len();
        if self.width == 0 || ll >= n || ur >= n {
            proof {
                reveal_with_fuel(dense_seq, 1);
            }
            return DenseIter { ur: 0, width: 1, diff: 1, c: 0, cur: 1 };
        }
        let w: usize = self.width as usize;
        proof {
            lemma_row_col(w as int, self.height as int, ll as int);
            lemma_row_col(w as int, self.height as int, ur as int);
        }
        if ll % w > ur % w || ll / w > ur / w {
            proof {
                reveal_with_fuel(dense_seq, 1);
            }
            return DenseIter { ur: 0, width: 1, diff: 1, c: 0, cur: 1 };
        }
        let it = DenseIter { ur, diff: 1 + ur % w - ll % w, width: w, c: 0, cur: ll };
        proof {
            let a = (ll % w) as int;
            let r1 = (ll / w) as int;
            let r2 = (ur / w) as int;
            it.lemma_remaining(a, r1, r2, r1);
            let env = self.envelope();
            let c1 = Self::coord(env, ll);
            let c2 = Self::coord(env, ur);
            let d = it.diff as int;
            assert(at(d, 0, 0) == 0) by (nonlinear_arith);
            assert(d * (r2 + 1 - r1) == (c2.0 - c1.0 + 1) * (c2.1 - c1.1 + 1));
            assert forall|k: int| 0 <= k < it.remaining().len() implies Self::valid(
                env,
                #[trigger] it.remaining()[k],
            ) && Self::coord(env, it.remaining()[k]) == rect_at(c1, c2, k) by {
                lemma_row_col(d, r2 + 1 - r1, k);
                let i = it.remaining()[k] as int;
                assert(i == at(w as int, r1 + k / d, a + k % d));
                lemma_at(w as int, r1 + k / d, a + k % d);
                lemma_at_bound(w as int, self.height as int, r1 + k / d, a + k % d);
            }
        }
        it
    }

    fn cell_ids(&self) -> (ids: Vec<Self::Idx>) {
        let n = self.cells.len();
        let mut ids: Vec<usize> = Vec::new();
        let mut i: usize = 0;
        while i < n
            invariant
                i <= n,
                ids.len() == i,
                forall|j: int| 0 <= j < i ==> #[trigger] ids[j] == j,
            decreases n - i,
        {
            ids.push(i);
            i += 1;
        }
        proof {
            let env = self.envelope();
            assert forall|k: int| 0 <= k < ids.len() implies Self::valid(env, #[trigger] ids[k])
                && self.cell_map().contains_key(Self::coord(env, ids[k])) by {
                if self.width > 0 {
                    lemma_row_col(env.w, env.h, k);
                } else {
                    assert(self.width * self.height == 0) by (nonlinear_arith)
                        requires
                            self.width == 0,
                    ;
                }
            }
            assert forall|c: (int, int)| #[trigger]
                self.cell_map().contains_key(c) implies ids@.contains(Self::index(env, c)) by {
                lemma_at_bound(env.w, env.h, c.1 - env.y0, c.0 - env.x0);
                assert(ids@[at(env.w, c.1 - env.y0, c.0 - env.x0)] == Self::index(env, c));
            }
        }
        ids
    }

    fn release(&mut self, id: Self::Idx) {
    }

    fn cell_aabb(&self, id: Self::Idx) -> (b: AABB) {
        let w: usize = self.width as usize;
        proof {
            lemma_row_col(w as int, self.height as int, id as int);
        }
        let cx: i64 = self.start_x as i64 + (id % w) as i64;
        let cy: i64 = self.start_y as i64 + (id / w) as i64;
        cell_bounds(self.cell_size, cx as i32, cy as i32)
    }
}

proof fn lemma_holds_finite(env: Envelope)
    requires
        env.wf(),
        env.bounded,
    ensures
        Set::new(|c: (int, int)| env.holds(c)).finite(),
{
    let s = Set::new(|c: (int, int)| env.holds(c));
    let r = vstd::set_lib::set_int_range(0, env.w * env.h);
    let f = |i: int| (env.x0 + i % env.w, env.y0 + i / env.w);
    assert(0 <= env.w * env.h) by (nonlinear_arith)
        requires
            env.w >= 0,
            env.h >= 0,
    ;
    vstd::set_lib::lemma_int_range(0, env.w * env.h);
    r.lemma_map_finite(f);
    assert(s =~= r.map(f)) by {
        assert forall|c: (int, int)| s.contains(c) implies r.map(f).contains(c) by {
            let i = at(env.w, c.1 - env.y0, c.0 - env.x0);
            lemma_at(env.w, c.1 - env.y0, c.0 - env.x0);
            lemma_at_bound(env.w, env.h, c.1 - env.y0, c.0 - env.x0);
            assert(r.contains(i));
            assert(f(i) == c);
        }
        assert forall|c: (int, int)| r.map(f).contains(c) implies s.contains(c) by {
            let i = choose|i: int| r.contains(i) && f(i) == c;
            if env.w > 0 {
                lemma_row_col(env.w, env.h, i);
            } else {
                assert(env.w * env.h == 0) by (nonlinear_arith)
                    requires
                        env.w == 0,
                ;
            }
        }
    }
}

/// The indexes that a walk has still to hand out when it stands at `cur`,
/// `c` cells into a row of `diff` cells, in a storage whose rows hold
/// `width` cells: the rest of that row, then row after row as long as the
/// index is not above `ur`.
pub open spec fn dense_seq(ur: int, width: int, diff: int, c: int, cur: int) -> Seq<usize>
    decreases
            (if cur <= ur {
                ur + 1 - cur
            } else {
                0
            }),
{
    if cur > ur || ur > usize::MAX || cur < 0 || !(1 <= diff <= width) || !(0 <= c < diff) {
        Seq::empty()
    } else if c + 1 == diff {
        seq![cur as usize] + dense_seq(ur, width, diff, 0, cur + 1 - diff + width)
    } else {
        seq![cur as usize] + dense_seq(ur, width, diff, c + 1, cur + 1)
    }
}

/// A walk over the indexes of a rectangle of cells of a dense storage, row
/// by row.
pub struct DenseIter {
    /// The last index of the walk.
    pub ur: usize,
    /// The number of cells in a row of the storage.
    pub width: usize,
    /// The number of cells in a row of the rectangle.
    pub diff: usize,
    /// The number of cells handed out from the row in which the walk stands.
    pub c: usize,
    /// The index that comes next.
    pub cur: usize,
}

impl DenseIter {
    proof fn lemma_remaining(&self, a: int, r1: int, r2: int, r: int)
        requires
            self.wf(),
            0 <= a,
            a + self.diff <= self.width,
            0 <= r1 <= r <= r2 + 1,
            r1 <= r2,
            self.ur == at(self.width as int, r2, a + self.diff - 1),
            self.cur == at(self.width as int, r, a + self.c),
            r == r2 + 1 ==> self.c == 0,
        ensures
            self.remaining().len() == self.diff * (r2 + 1 - r1) - at(
                self.diff as int,
                r - r1,
                self.c as int,
            ),
            0 <= at(self.diff as int, r - r1, self.c as int) <= self.diff * (r2 + 1 - r1),
            forall|k: int|
                0 <= k < self.remaining().len() ==> {
                    let j = at(self.diff as int, r - r1, self.c as int) + k;
                    #[trigger] self.remaining()[k] == at(
                        self.width as int,
                        r1 + j / (self.diff as int),
                        a + j % (self.diff as int),
                    )
                },
        decreases r2 + 1 - r, self.diff - self.c,
    {
        let w = self.width as int;
        let d = self.diff as int;
        let here = at(d, r - r1, self.c as int);
        assert(0 <= (r - r1) * d && ((r - r1) * d + d <= d * (r2 + 1 - r1) || r == r2 + 1)) by (nonlinear_arith)
            requires
                r1 <= r <= r2 + 1,
                d > 0,
        ;
        assert(r * w >= 0 && r2 * w >= 0) by (nonlinear_arith)
            requires
                r >= 0,
                r2 >= 0,
                w > 0,
        ;
        if r == r2 + 1 {
            assert((r - r1) * d == d * (r2 + 1 - r1)) by (nonlinear_arith)
                requires
                    r == r2 + 1,
            ;
            assert(self.cur > self.ur) by (nonlinear_arith)
                requires
                    self.cur == (r2 + 1) * w + a,
                    self.ur == r2 * w + a + d - 1,
                    a + d <= w,
                    0 <= a,
            ;
        } else {
            assert(self.cur <= self.ur) by (nonlinear_arith)
                requires
                    self.cur == r * w + a + self.c,
                    self.ur == r2 * w + a + d - 1,
                    r <= r2,
                    self.c < d,
                    w > 0,
            ;
            let nx = if self.c + 1 == self.diff {
                DenseIter { c: 0, cur: (self.cur + 1 - self.diff + self.width) as usize, ..*self }
            } else {
                DenseIter { c: (self.c + 1) as usize, cur: (self.cur + 1) as usize, ..*self }
            };
            let nr = if self.c + 1 == self.diff {
                r + 1
            } else {
                r
            };
            assert(nx.cur == at(w, nr, a + nx.c)) by (nonlinear_arith)
                requires
                    self.cur == r * w + a + self.c,
                    nx.cur == (if self.c + 1 == d {
                        self.cur + 1 - d + w
                    } else {
                        self.cur + 1
                    }),
                    nx.c == (if self.c + 1 == d {
                        0
                    } else {
                        self.c + 1
                    }),
                    nr == (if self.c + 1 == d {
                        r + 1
                    } else {
                        r
                    }),
            ;
            assert(at(d, nr - r1, nx.c as int) == here + 1) by (nonlinear_arith)
                requires
                    here == (r - r1) * d + self.c,
                    nx.c == (if self.c + 1 == d {
                        0
                    } else {
                        self.c + 1
                    }),
                    nr == (if self.c + 1 == d {
                        r + 1
                    } else {
                        r
                    }),
            ;
            nx.lemma_remaining(a, r1, r2, nr);
            assert(self.remaining() == seq![self.cur] + nx.remaining());
            lemma_at(d, r - r1, self.c as int);
            assert forall|k: int| 0 <= k < self.remaining().len() implies {
                let j = here + k;
                #[trigger] self.remaining()[k] == at(w, r1 + j / d, a + j % d)
            } by {
                if k > 0 {
                    assert(self.remaining()[k] == nx.remaining()[k - 1]);
                }
            }
        }
    }
}

impl CellIter<usize> for DenseIter {
    open spec fn wf(&self) -> bool {
        &&& 1 <= self.diff <= self.width
        &&& self.c < self.diff
        &&& self.c <= self.cur
        &&& self.ur + self.width <= usize::MAX
    }

    open spec fn remaining(&self) -> Seq<usize> {
        dense_seq(
            self.ur as int,
            self.width as int,
            self.diff as int,
            self.c as int,
            self.cur as int,
        )
    }

    fn next(&mut self) -> (r: Option<usize>) {
        if self.cur > self.ur {
            return None;
        }
        let v = self.cur;
        self.c += 1;
        self.cur += 1;
        if self.c == self.diff {
            self.c = 0;
            self.cur = self.cur - self.diff + self.width;
        }
        assert(final(self).remaining() =~= old(self).remaining().skip(1));
        Some(v)
    }
}

} // verus!
