use crate::error::GridError;
use crate::math::floor_div;
use crate::math::lemma_cell_coord_range;
use crate::shape::Point;
use crate::shape::AABB;
use crate::storage::cell_bounds;
use crate::storage::in_range;
use crate::storage::rect_at;
use crate::storage::rect_len;
use crate::storage::CellIter;
use crate::storage::Envelope;
use crate::storage::Storage;
use std::collections::HashMap;
use vstd::arithmetic::div_mod::lemma_fundamental_div_mod_converse;
use vstd::prelude::*;
use vstd::std_specs::iter::IteratorSpec;

verus! {

/// The key under which a sparse storage keeps the cell at `c`: the column
/// and the row, each counted from the lowest `i32`, side by side.
pub open spec fn pack(c: (int, int)) -> u64 {
    ((c.0 - i32::MIN) * 0x1_0000_0000 + (c.1 - i32::MIN)) as u64
}

/// The cell coordinates that a key stands for.
pub open spec fn unpack(k: u64) -> (int, int) {
    (k as int / 0x1_0000_0000 + i32::MIN, k as int % 0x1_0000_0000 + i32::MIN)
}

/// Keys and cell coordinates stand for each other, one for one.
pub proof fn lemma_pack_unpack()
    ensures
        forall|c: (int, int)| in_range(c) ==> #[trigger] unpack(pack(c)) == c,
        forall|k: u64| in_range(#[trigger] unpack(k)) && pack(unpack(k)) == k,
{
    assert forall|c: (int, int)| in_range(c) implies #[trigger] unpack(pack(c)) == c by {
        let a = c.0 - i32::MIN;
        let b = c.1 - i32::MIN;
        assert(a * 0x1_0000_0000 + b == 0x1_0000_0000 * a + b);
        lemma_fundamental_div_mod_converse(a * 0x1_0000_0000 + b, 0x1_0000_0000, a, b);
    }
    assert forall|k: u64| in_range(#[trigger] unpack(k)) && pack(unpack(k)) == k by {
        vstd::arithmetic::div_mod::lemma_fundamental_div_mod(k as int, 0x1_0000_0000);
    }
}

/// The coordinates of a cell: its column and its row.
#[derive(Clone, Copy, PartialEq, Eq, Debug, Structural)]
pub struct CellCoord {
    pub x: i32,
    pub y: i32,
}

impl CellCoord {
    pub open spec fn spec_pair(self) -> (int, int) {
        (self.x as int, self.y as int)
    }
}

/// Computes the key of a cell.
pub fn cell_key(idx: CellCoord) -> (k: u64)
    ensures
        k == pack(idx.spec_pair()),
{
    let a: u64 = (idx.x as i64 + 0x8000_0000) as u64;
    let b: u64 = (idx.y as i64 + 0x8000_0000) as u64;
    a * 0x1_0000_0000 + b
}

/// Computes the cell that a key stands for.
pub fn key_cell(k: u64) -> (idx: CellCoord)
    ensures
        idx.spec_pair() == unpack(k),
{
    let a: i64 = (k / 0x1_0000_0000) as i64 - 0x8000_0000;
    let b: i64 = (k % 0x1_0000_0000) as i64 - 0x8000_0000;
    CellCoord { x: a as i32, y: b as i32 }
}

/// The cells of a map of keys, by their coordinates.
pub open spec fn lift<T>(m: Map<u64, T>) -> Map<(int, int), T> {
    Map::new(|c: (int, int)| in_range(c) && m.contains_key(pack(c)), |c: (int, int)| m[pack(c)])
}

proof fn lemma_lift_insert<T>(m: Map<u64, T>, c: (int, int), v: T)
    requires
        in_range(c),
    ensures
        lift(m.insert(pack(c), v)) == lift(m).insert(c, v),
{
    lemma_pack_unpack();
    assert forall|d: (int, int)| in_range(d) && d != c implies pack(d) != pack(c) by {
        assert(unpack(pack(d)) == d);
        assert(unpack(pack(c)) == c);
    }
    assert(lift(m.insert(pack(c), v)) =~= lift(m).insert(c, v));
}

proof fn lemma_lift_remove<T>(m: Map<u64, T>, c: (int, int))
    requires
        in_range(c),
    ensures
        lift(m.remove(pack(c))) == lift(m).remove(c),
{
    lemma_pack_unpack();
    assert forall|d: (int, int)| in_range(d) && d != c implies pack(d) != pack(c) by {
        assert(unpack(pack(d)) == d);
        assert(unpack(pack(c)) == c);
    }
    assert(lift(m.remove(pack(c))) =~= lift(m).remove(c));
}

/// SparseStorage stores cells in a HashMap to be used in a Grid.
/// It is sparse because a cell is made when it is first asked for, and
/// dropped when it is released.
pub struct SparseStorage<T: Default> {
    cell_size: i32,
    cells: HashMap<u64, T>,
}

impl<T: Default> SparseStorage<T> {
    /// The cells, by their keys.
    pub fn cells(&self) -> (m: &HashMap<u64, T>)
        requires
            self.wf(),
        ensures
            forall|c: (int, int)|
                in_range(c) ==> (#[trigger] self.cell_map().contains_key(c) <==> m@.contains_key(
                    pack(c),
                )),
            forall|c: (int, int)| #[trigger]
                self.cell_map().contains_key(c) ==> m@[pack(c)] == self.cell_map()[c],
            m@.len() == self.cell_map().len(),
    {
        proof {
            self.lemma_dom();
        }
        &self.cells
    }

    proof fn lemma_dom(&self)
        ensures
            self.cell_map().dom().finite(),
            self.cell_map().len() == self.cells@.len(),
    {
        lemma_pack_unpack();
        let d = self.cells@.dom();
        let e = self.cell_map().dom();
        assert(e =~= d.map(|k: u64| unpack(k))) by {
            assert forall|c: (int, int)| e.contains(c) implies d.map(|k: u64| unpack(k)).contains(
                c,
            ) by {
                assert(d.contains(pack(c)));
                assert(unpack(pack(c)) == c);
            }
        }
        vstd::set_lib::lemma_map_size(d, e, |k: u64| unpack(k));
        assert(vstd::relations::injective(|k: u64| unpack(k))) by {
            assert forall|x1: u64, x2: u64| #[trigger]
                unpack(x1) == #[trigger] unpack(x2) implies x1 == x2 by {
                assert(pack(unpack(x1)) == x1);
                assert(pack(unpack(x2)) == x2);
            }
        }
        d.lemma_map_finite(|k: u64| unpack(k));
    }
}

impl<T: Default> Storage<T> for SparseStorage<T> {
    type Idx = CellCoord;

    type IdxIter = XYRange;

    closed spec fn wf(&self) -> bool {
        self.cell_size > 0
    }

    closed spec fn envelope(&self) -> Envelope {
        Envelope { cell_size: self.cell_size as int, bounded: false, x0: 0, y0: 0, w: 0, h: 0 }
    }

    closed spec fn cell_map(&self) -> Map<(int, int), T> {
        lift(self.cells@)
    }

    open spec fn coord(env: Envelope, idx: Self::Idx) -> (int, int) {
        idx.spec_pair()
    }

    open spec fn index(env: Envelope, c: (int, int)) -> Self::Idx {
        CellCoord { x: c.0 as i32, y: c.1 as i32 }
    }

    open spec fn valid(env: Envelope, idx: Self::Idx) -> bool {
        true
    }

    open spec fn is_sparse() -> bool {
        true
    }

    open spec fn room(env: Envelope, c: (int, int)) -> bool {
        true
    }

    open spec fn grown(env: Envelope, c: (int, int)) -> Envelope {
        env
    }

    proof fn lemma_wf(&self) {
        self.lemma_dom();
    }

    proof fn lemma_index(env: Envelope, c: (int, int)) {
    }

    proof fn lemma_coord(env: Envelope, idx: Self::Idx) {
    }

    fn new(cell_size: i32) -> (r: Result<Self, GridError>)
        ensures
            r matches Ok(s) ==> !s.envelope().bounded,
    {
        if cell_size <= 0 {
            return Err(GridError::CellSizeInvalid);
        }
        let s = SparseStorage { cell_size, cells: HashMap::new() };
        assert(s.cell_map() =~= Map::<(int, int), T>::empty());
        Ok(s)
    }

    fn idx_eq(a: Self::Idx, b: Self::Idx) -> (same: bool) {
        a.x == b.x && a.y == b.y
    }

    fn cell_size(&self) -> (cs: i32) {
        self.cell_size
    }

    fn cell_id(&self, p: Point) -> (id: Self::Idx) {
        CellCoord { x: floor_div(p.x, self.cell_size), y: floor_div(p.y, self.cell_size) }
    }

    fn cell(&self, id: Self::Idx) -> (r: Option<&T>) {
        proof {
            lemma_pack_unpack();
        }
        self.cells.get(&cell_key(id))
    }

    // ids never change
    fn cell_mut(&mut self, p: Point) -> (r: Result<(Self::Idx, bool), GridError>)
        ensures
            r is Ok,
            r matches Ok((_, reindexed)) ==> !reindexed,
    {
        let id = self.cell_id(p);
        proof {
            lemma_pack_unpack();
            lemma_cell_coord_range(p.x as int, self.cell_size as int);
            lemma_cell_coord_range(p.y as int, self.cell_size as int);
        }
        let key = cell_key(id);
        if !self.cells.contains_key(&key) {
            let fresh = T::default();
            proof {
                lemma_lift_insert(self.cells@, id.spec_pair(), fresh);
            }
            self.cells.insert(key, fresh);
        }
        Ok((id, false))
    }

    fn cell_mut_unchecked(&mut self, id: Self::Idx) -> (r: &mut T) {
        let key = cell_key(id);
        proof {
            lemma_pack_unpack();
            let m = self.cells@;
            assert forall|v: T| lift(#[trigger] m.insert(key, v)) == lift(m).insert(
                id.spec_pair(),
                v,
            ) by {
                lemma_lift_insert(m, id.spec_pair(), v);
            }
        }
        self.cells.entry(key).or_insert(T::default())
    }

    fn cell_range(&self, ll: Self::Idx, ur: Self::Idx) -> (it: Self::IdxIter) {
        let it = if ll.x <= ur.x && ll.y <= ur.y {
            XYRange {
                x1: ll.x as i64,
                x2: ur.x as i64 + 1,
                y2: ur.y as i64 + 1,
                x: ll.x as i64,
                y: ll.y as i64,
            }
        } else {
            XYRange { x1: 0, x2: 1, y2: 0, x: 0, y: 0 }
        };
        proof {
            if ll.x <= ur.x && ll.y <= ur.y {
                it.lemma_remaining(ll.y as int);
                assert(it.place(ll.y as int) == 0) by (nonlinear_arith)
                    requires
                        it.place(ll.y as int) == (it.y - ll.y) * (it.x2 - it.x1) + (it.x - it.x1),
                        it.y == ll.y,
                        it.x == it.x1,
                ;
            } else {
                reveal_with_fuel(xy_seq, 1);
            }
        }
        it
    }

    fn cell_ids(&self) -> (ids: Vec<Self::Idx>) {
        let mut ids: Vec<CellCoord> = Vec::new();
        let ghost ks = vstd::std_specs::hash::spec_keys_iter(&self.cells).remaining();
        proof {
            lemma_pack_unpack();
        }
        for k in it: self.cells.keys()
            invariant
                it.seq() == ks,
                ids.len() == it.index(),
                forall|j: int| 0 <= j < ids.len() ==> pack(#[trigger] ids[j].spec_pair()) == *ks[j],
        {
            ids.push(key_cell(*k));
        }
        proof {
            let us = ks.unref();
            assert(ids.len() == ks.len());
            assert forall|k: int| 0 <= k < ids.len() implies self.cell_map().contains_key(
                #[trigger] ids[k].spec_pair(),
            ) by {
                assert(us[k] == pack(ids[k].spec_pair()));
                assert(us.to_set().contains(us[k]));
                assert(unpack(pack(ids[k].spec_pair())) == ids[k].spec_pair());
            }
            assert forall|c: (int, int)| #[trigger]
                self.cell_map().contains_key(c) implies ids@.contains(
                Self::index(self.envelope(), c),
            ) by {
                assert(us.to_set().contains(pack(c)));
                let j = choose|j: int| 0 <= j < us.len() && us[j] == pack(c);
                assert(unpack(pack(ids[j].spec_pair())) == ids[j].spec_pair());
                assert(unpack(pack(c)) == c);
                assert(ids@[j] == Self::index(self.envelope(), c));
            }
            assert forall|i: int, j: int| 0 <= i < ids.len() && 0 <= j < ids.len() && i != j implies ids@[i] != ids@[j] by {
                if ids@[i] == ids@[j] {
                    assert(pack(ids[i].spec_pair()) == *ks[i]);
                    assert(pack(ids[j].spec_pair()) == *ks[j]);
                    assert(*ks[i] == *ks[j]);
                    assert(ks[i] == ks[j]);
                }
            }
        }
        ids
    }

    fn release(&mut self, id: Self::Idx) {
        proof {
            lemma_pack_unpack();
        }
        proof {
            lemma_lift_remove(self.cells@, id.spec_pair());
        }
        self.cells.remove(&cell_key(id));
    }

    fn cell_aabb(&self, id: Self::Idx) -> (b: AABB) {
        cell_bounds(self.cell_size, id.x, id.y)
    }
}

/// The cells that a walk has still to hand out when it stands at column `x`
/// of row `y`: the rest of that row, then each row below `y2` from column
/// `x1` to the column before `x2`.
pub open spec fn xy_seq(x1: int, x2: int, y2: int, x: int, y: int) -> Seq<CellCoord>
    decreases y2 - y, x2 - x,
{
    if y >= y2 || !(x1 <= x < x2) {
        Seq::empty()
    } else if x + 1 == x2 {
        seq![CellCoord { x: x as i32, y: y as i32 }] + xy_seq(x1, x2, y2, x1, y + 1)
    } else {
        seq![CellCoord { x: x as i32, y: y as i32 }] + xy_seq(x1, x2, y2, x + 1, y)
    }
}

/// A walk over a rectangle of cell coordinates, row by row.
pub struct XYRange {
    x1: i64,
    x2: i64,
    y2: i64,
    x: i64,
    y: i64,
}

impl XYRange {
    /// The place in the row-by-row order of the rectangle that starts at
    /// row `y1`, at which the walk stands.
    pub closed spec fn place(&self, y1: int) -> int {
        (self.y - y1) * (self.x2 - self.x1) + (self.x - self.x1)
    }

    proof fn lemma_remaining(&self, y1: int)
        requires
            self.wf(),
            y1 <= self.y <= self.y2,
            self.y == self.y2 ==> self.x == self.x1,
        ensures
            self.remaining().len() == (self.x2 - self.x1) * (self.y2 - y1) - self.place(y1),
            0 <= self.place(y1) <= (self.x2 - self.x1) * (self.y2 - y1),
            forall|k: int|
                0 <= k < self.remaining().len() ==> {
                    let c = rect_at(
                        (self.x1 as int, y1),
                        (self.x2 - 1, self.y2 - 1),
                        self.place(y1) + k,
                    );
                    (#[trigger] self.remaining()[k]).spec_pair() == c
                },
        decreases self.y2 - self.y, self.x2 - self.x,
    {
        let n = self.x2 - self.x1;
        let c1 = (self.x1 as int, y1);
        let c2 = (self.x2 - 1, self.y2 - 1);
        assert(0 <= (self.y - y1) * n && (self.y - y1) * n + n <= n * (self.y2 - y1) || self.y
            == self.y2) by (nonlinear_arith)
            requires
                y1 <= self.y <= self.y2,
                n > 0,
        ;
        if self.y >= self.y2 {
            assert((self.y - y1) * n == n * (self.y2 - y1)) by (nonlinear_arith)
                requires
                    self.y == self.y2,
            ;
        } else {
            let nx = if self.x + 1 == self.x2 {
                XYRange { x1: self.x1, x2: self.x2, y2: self.y2, x: self.x1, y: (self.y + 1) as i64 }
            } else {
                XYRange { x1: self.x1, x2: self.x2, y2: self.y2, x: (self.x + 1) as i64, y: self.y }
            };
            nx.lemma_remaining(y1);
            assert(self.remaining() == seq![CellCoord { x: self.x as i32, y: self.y as i32 }] + nx.remaining());
            assert(nx.place(y1) == self.place(y1) + 1) by (nonlinear_arith)
                requires
                    n == self.x2 - self.x1,
                    self.place(y1) == (self.y - y1) * n + (self.x - self.x1),
                    nx.place(y1) == (nx.y - y1) * n + (nx.x - nx.x1),
                    nx.x1 == self.x1,
                    (nx.x == self.x + 1 && nx.y == self.y) || (nx.x == self.x1 && nx.y == self.y + 1
                        && self.x + 1 == self.x2),
            ;
            lemma_fundamental_div_mod_converse(
                self.place(y1),
                n,
                self.y - y1,
                self.x - self.x1,
            );
            assert forall|k: int| 0 <= k < self.remaining().len() implies {
                let c = rect_at(c1, c2, self.place(y1) + k);
                (#[trigger] self.remaining()[k]).spec_pair() == c
            } by {
                if k > 0 {
                    assert(self.remaining()[k] == nx.remaining()[k - 1]);
                }
            }
        }
    }
}

impl CellIter<CellCoord> for XYRange {
    closed spec fn wf(&self) -> bool {
        &&& i32::MIN <= self.x1 <= self.x < self.x2 <= i32::MAX + 1
        &&& i32::MIN <= self.y
        &&& self.y2 <= i32::MAX + 1
    }

    closed spec fn remaining(&self) -> Seq<CellCoord> {
        xy_seq(self.x1 as int, self.x2 as int, self.y2 as int, self.x as int, self.y as int)
    }

    fn next(&mut self) -> (r: Option<CellCoord>) {
        if self.y >= self.y2 {
            return None;
        }
        let v = CellCoord { x: self.x as i32, y: self.y as i32 };
        self.x += 1;
        if self.x == self.x2 {
            self.x = self.x1;
            self.y += 1;
        }
        assert(final(self).remaining() =~= old(self).remaining().skip(1));
        Some(v)
    }
}

} // verus!
