//! The grid of tiles as the solver sees it, and the rules that decide
//! which orientations a tile can still take.
use vstd::prelude::*;
use crate::pipes::tile::{is_turn_of, lemma_turns_distinct, turned, Orientation, Pipe, TileState};
use crate::utils::grid2d::Grid2D;

verus! {

/// A grid of optional tiles; `None` is empty space.
pub type PipeGrid = Grid2D<Option<Pipe>>;

/// The mathematical picture of a `PipeGrid`: cells in row-major order.
pub struct Board {
    pub width: int,
    pub height: int,
    pub cells: Seq<Option<TileState>>,
}

pub open spec fn cell_view(c: Option<Pipe>) -> Option<TileState> {
    match c {
        Some(p) => Some(p@),
        None => None,
    }
}

/// The board that a grid holds.
pub open spec fn board_of(g: PipeGrid) -> Board {
    Board {
        width: g.width as int,
        height: g.height as int,
        cells: g.bytes@.map_values(|c: Option<Pipe>| cell_view(c)),
    }
}

/// The direction opposite to `d`.
pub open spec fn opposite(d: int) -> int {
    (d + 2) % 4
}

impl Board {
    /// Dimensions match the cells and indices fit an `i32`.
    pub open spec fn shaped(self) -> bool {
        &&& self.width >= 0
        &&& self.height >= 0
        &&& self.cells.len() == self.width * self.height
        &&& self.cells.len() <= i32::MAX
    }

    /// A shaped board whose every tile is well formed.
    pub open spec fn wf(self) -> bool {
        &&& self.shaped()
        &&& forall|k: int|
            0 <= k < self.cells.len() && (#[trigger] self.cells[k]) is Some ==> self.cells[k]->0.wf()
    }

    /// The cell next to cell `k` in direction `d` (0 right, 1 down, 2 left,
    /// 3 up), or `None` past the edge of the grid.
    pub open spec fn neighbor(self, k: int, d: int) -> Option<int> {
        if d == 0 {
            if k % self.width + 1 < self.width { Some(k + 1) } else { None }
        } else if d == 1 {
            if k + self.width < self.cells.len() { Some(k + self.width) } else { None }
        } else if d == 2 {
            if k % self.width > 0 { Some(k - 1) } else { None }
        } else {
            if k >= self.width { Some(k - self.width) } else { None }
        }
    }

    /// Whether orientation `o` of the tile at `k` is compatible with what lies
    /// in direction `d`. A port must face a tile that still has some candidate
    /// with a port of the same kind facing back; an empty side must not face
    /// a locked tile whose port points at it.
    pub open spec fn port_ok(self, k: int, o: Orientation, d: int) -> bool {
        let p = o.connections@[d];
        match self.neighbor(k, d) {
            None => p is None,
            Some(n) => match self.cells[n] {
                None => p is None,
                Some(t) => match p {
                    None => !(t.is_locked() && t.candidates[0].connections@[opposite(d)] is Some),
                    Some(kind) => exists|m: int|
                        0 <= m < t.candidates.len()
                            && (#[trigger] t.candidates[m]).connections@[opposite(d)]
                            == Some(kind),
                },
            },
        }
    }

    /// Whether orientation `o` of the tile at `k` survives propagation.
    pub open spec fn fits(self, k: int, o: Orientation) -> bool {
        &&& self.port_ok(k, o, 0)
        &&& self.port_ok(k, o, 1)
        &&& self.port_ok(k, o, 2)
        &&& self.port_ok(k, o, 3)
    }

    /// The orientations in `s` that fit at `k`, in their order.
    pub open spec fn keep_fitting(self, k: int, s: Seq<Orientation>) -> Seq<Orientation>
        decreases s.len(),
    {
        if s.len() == 0 {
            s
        } else {
            let r = self.keep_fitting(k, s.drop_last());
            if self.fits(k, s.last()) {
                r.push(s.last())
            } else {
                r
            }
        }
    }

    /// Propagation at cell `k`: an unlocked tile keeps only the orientations
    /// that fit; empty cells and locked tiles are left alone.
    pub open spec fn step(self, k: int) -> Board {
        match self.cells[k] {
            Some(t) => if t.candidates.len() != 1 {
                Board {
                    cells: self.cells.update(
                        k,
                        Some(
                            TileState {
                                original: t.original,
                                candidates: self.keep_fitting(k, t.candidates),
                            },
                        ),
                    ),
                    ..self
                }
            } else {
                self
            },
            None => self,
        }
    }

    /// The board after propagation has visited cells `0 .. k` in order.
    pub open spec fn sweep_upto(self, k: int) -> Board
        decreases k,
    {
        if k <= 0 {
            self
        } else {
            self.sweep_upto(k - 1).step(k - 1)
        }
    }

    /// One propagation pass over every cell in row-major order.
    pub open spec fn sweep(self) -> Board {
        self.sweep_upto(self.cells.len() as int)
    }
}


/// In a well-formed board, the rotation cost of a locked tile is the least
/// number of quarter turns that brings its printed ports to its locked ports.
pub proof fn lemma_locked_cost_minimal(b: Board, k: int)
    requires
        b.wf(),
        0 <= k < b.cells.len(),
        b.cells[k] matches Some(t) && t.is_locked(),
    ensures
        ({
            let t = b.cells[k]->0;
            let o = t.candidates[0];
            &&& o.rotations < 4
            &&& o.connections@ == turned(t.original, o.rotations as nat)
            &&& forall|m: nat| m < o.rotations ==> turned(t.original, m) != o.connections@
        }),
{
    let t = b.cells[k]->0;
    let o = t.candidates[0];
    assert(t.wf());
    assert(is_turn_of(t.original, o));
    assert forall|m: nat| m < o.rotations implies turned(t.original, m) != o.connections@ by {
        lemma_turns_distinct(t.original, m, o.rotations as nat);
    }
}

/// How many candidates a cell holds.
pub open spec fn cell_count(c: Option<TileState>) -> nat {
    match c {
        Some(t) => t.candidates.len(),
        None => 0,
    }
}

/// How many candidates all the cells hold together.
pub open spec fn total(cells: Seq<Option<TileState>>) -> nat
    decreases cells.len(),
{
    if cells.len() == 0 {
        0
    } else {
        total(cells.drop_last()) + cell_count(cells.last())
    }
}

/// Cell `new` is what propagation may make of cell `old`: the same tile
/// with the same candidates or fewer, and a locked tile untouched.
pub open spec fn cell_refines(new: Option<TileState>, old: Option<TileState>) -> bool {
    match (old, new) {
        (None, None) => true,
        (Some(a), Some(b)) => {
            &&& b.original == a.original
            &&& a.is_locked() ==> b == a
            &&& b == a || b.candidates.len() < a.candidates.len()
        },
        _ => false,
    }
}

impl Board {
    /// `self` is a narrowing of `old`, cell by cell.
    pub open spec fn refines(self, old: Board) -> bool {
        &&& self.width == old.width
        &&& self.height == old.height
        &&& self.cells.len() == old.cells.len()
        &&& forall|j: int|
            0 <= j < self.cells.len() ==> cell_refines(#[trigger] self.cells[j], old.cells[j])
    }

    /// Some tile has lost every candidate: the grid cannot be solved.
    pub open spec fn has_dead_cell(self) -> bool {
        exists|j: int|
            0 <= j < self.cells.len() && (#[trigger] self.cells[j]) is Some
                && self.cells[j]->0.candidates.len() == 0
    }
}

/// The result of propagating to a fixed point: `None` when some tile loses
/// every candidate on the way, else the first board that a pass leaves unchanged.
pub open spec fn settle(b: Board) -> Option<Board>
    decreases total(b.cells),
{
    let s = b.sweep();
    if s.has_dead_cell() {
        None
    } else if s == b {
        Some(b)
    } else {
        proof {
            lemma_sweep(b);
        }
        settle(s)
    }
}

/// The rotation cost a cell has settled on: its distance when locked, else nothing.
pub open spec fn locked_rotations(c: Option<TileState>) -> nat {
    match c {
        Some(t) => if t.is_locked() {
            t.candidates[0].rotations as nat
        } else {
            0
        },
        None => 0,
    }
}

/// The rotation cost of all locked tiles together.
pub open spec fn locked_cost(cells: Seq<Option<TileState>>) -> nat
    decreases cells.len(),
{
    if cells.len() == 0 {
        0
    } else {
        locked_cost(cells.drop_last()) + locked_rotations(cells.last())
    }
}

/// Propagation reaches a well-formed fixed point without dead cells that
/// narrows the board it started from.
pub proof fn lemma_settle(b: Board)
    ensures
        settle(b) is Some ==> {
            let c = settle(b)->0;
            &&& c.refines(b)
            &&& c.sweep() == c
            &&& !c.has_dead_cell()
            &&& b.wf() ==> c.wf()
        },
    decreases total(b.cells),
{
    let s = b.sweep();
    lemma_sweep(b);
    if !s.has_dead_cell() {
        if s == b {
            lemma_refines_refl(b);
        } else {
            lemma_settle(s);
            if settle(s) is Some {
                lemma_refines_trans(settle(s)->0, s, b);
            }
        }
    }
}

/// Propagating an already settled board changes nothing: a second run to
/// the fixed point returns the board the first run reached.
pub proof fn lemma_settle_twice(b: Board)
    requires
        settle(b) is Some,
    ensures
        settle(settle(b)->0) == settle(b),
{
    lemma_settle(b);
    let c = settle(b)->0;
    assert(settle(c) == Some(c));
}

/// Board `t` has the tiles of `b`, each with candidates taken from those
/// it has in `b`.
pub open spec fn narrows(t: Board, b: Board) -> bool {
    &&& t.width == b.width
    &&& t.height == b.height
    &&& t.cells.len() == b.cells.len()
    &&& forall|j: int|
        0 <= j < t.cells.len() ==> match (#[trigger] t.cells[j], b.cells[j]) {
            (None, None) => true,
            (Some(x), Some(y)) => x.original == y.original && forall|m: int|
                0 <= m < x.candidates.len() ==> y.candidates.contains(#[trigger] x.candidates[m]),
            _ => false,
        }
}

pub proof fn lemma_narrows_refl(b: Board)
    ensures
        narrows(b, b),
{
    assert forall|j: int| 0 <= j < b.cells.len() implies match (#[trigger] b.cells[j], b.cells[j]) {
        (None, None) => true,
        (Some(x), Some(y)) => x.original == y.original && forall|m: int|
            0 <= m < x.candidates.len() ==> y.candidates.contains(#[trigger] x.candidates[m]),
        _ => false,
    } by {
        if let Some(x) = b.cells[j] {
            assert forall|m: int|
                0 <= m < x.candidates.len() implies x.candidates.contains(#[trigger] x.candidates[m]) by {}
        }
    }
}

pub proof fn lemma_narrows_trans(c: Board, b: Board, a: Board)
    requires
        narrows(c, b),
        narrows(b, a),
    ensures
        narrows(c, a),
{
    assert forall|j: int| 0 <= j < c.cells.len() implies match (#[trigger] c.cells[j], a.cells[j]) {
        (None, None) => true,
        (Some(x), Some(y)) => x.original == y.original && forall|m: int|
            0 <= m < x.candidates.len() ==> y.candidates.contains(#[trigger] x.candidates[m]),
        _ => false,
    } by {
        if let (Some(x), Some(y), Some(z)) = (c.cells[j], b.cells[j], a.cells[j]) {
            assert forall|m: int|
                0 <= m < x.candidates.len() implies z.candidates.contains(#[trigger] x.candidates[m]) by {
                assert(y.candidates.contains(x.candidates[m]));
                let n = choose|n: int| 0 <= n < y.candidates.len() && y.candidates[n] == x.candidates[m];
                assert(z.candidates.contains(y.candidates[n]));
            }
        }
    }
}

proof fn lemma_step_narrows(b: Board, k: int)
    requires
        0 <= k < b.cells.len(),
    ensures
        narrows(b.step(k), b),
{
    lemma_narrows_refl(b);
    if let Some(t) = b.cells[k] {
        if t.candidates.len() != 1 {
            lemma_keep_fitting(b, k, t.candidates);
            let s = b.step(k);
            assert forall|j: int|
                0 <= j < s.cells.len() implies match (#[trigger] s.cells[j], b.cells[j]) {
                (None, None) => true,
                (Some(x), Some(y)) => x.original == y.original && forall|m: int|
                    0 <= m < x.candidates.len() ==> y.candidates.contains(#[trigger] x.candidates[m]),
                _ => false,
            } by {
                if j == k {
                    let r = b.keep_fitting(k, t.candidates);
                    assert forall|m: int|
                        0 <= m < r.len() implies t.candidates.contains(#[trigger] r[m]) by {
                        let n = choose|n: int| 0 <= n < t.candidates.len() && t.candidates[n] == r[m];
                    }
                } else {
                    assert(s.cells[j] == b.cells[j]);
                }
            }
        }
    }
}

proof fn lemma_sweep_upto_narrows(b: Board, k: int)
    requires
        0 <= k <= b.cells.len(),
    ensures
        narrows(b.sweep_upto(k), b),
    decreases k,
{
    if k <= 0 {
        lemma_narrows_refl(b);
    } else {
        lemma_sweep_upto_narrows(b, k - 1);
        let prev = b.sweep_upto(k - 1);
        lemma_step_narrows(prev, k - 1);
        lemma_narrows_trans(prev.step(k - 1), prev, b);
    }
}

/// What propagation reaches keeps the tiles and takes candidates only
/// from those the board had.
pub proof fn lemma_settle_narrows(b: Board)
    ensures
        settle(b) matches Some(c) ==> narrows(c, b),
    decreases total(b.cells),
{
    let s = b.sweep();
    lemma_sweep(b);
    lemma_sweep_upto_narrows(b, b.cells.len() as int);
    if !s.has_dead_cell() {
        if s == b {
            lemma_narrows_refl(b);
        } else {
            lemma_settle_narrows(s);
            if settle(s) is Some {
                lemma_narrows_trans(settle(s)->0, s, b);
            }
        }
    }
}

/// Narrowing keeps every locked tile, so the locked cost only grows; it is
/// at most three per cell.
pub proof fn lemma_locked_cost(new: Seq<Option<TileState>>, old: Seq<Option<TileState>>)
    requires
        new.len() == old.len(),
        forall|j: int| 0 <= j < new.len() ==> cell_refines(#[trigger] new[j], old[j]),
    ensures
        locked_cost(old) <= locked_cost(new),
    decreases new.len(),
{
    if new.len() > 0 {
        let n0 = new.drop_last();
        let o0 = old.drop_last();
        assert forall|j: int| 0 <= j < n0.len() implies cell_refines(#[trigger] n0[j], o0[j]) by {
            assert(cell_refines(new[j], old[j]));
        }
        lemma_locked_cost(n0, o0);
        assert(cell_refines(new.last(), old.last()));
    }
}

pub proof fn lemma_refines_trans(c: Board, b: Board, a: Board)
    requires
        c.refines(b),
        b.refines(a),
    ensures
        c.refines(a),
{
    assert forall|j: int|
        0 <= j < c.cells.len() implies cell_refines(#[trigger] c.cells[j], a.cells[j]) by {
        assert(cell_refines(c.cells[j], b.cells[j]));
        assert(cell_refines(b.cells[j], a.cells[j]));
    }
}

pub proof fn lemma_refines_refl(b: Board)
    ensures
        b.refines(b),
{
}

proof fn lemma_step(b: Board, k: int)
    requires
        0 <= k < b.cells.len(),
    ensures
        b.step(k).refines(b),
        b.wf() ==> b.step(k).wf(),
{
    match b.cells[k] {
        Some(t) => {
            if t.candidates.len() != 1 {
                lemma_keep_fitting(b, k, t.candidates);
                let s = b.step(k);
                assert forall|j: int|
                    0 <= j < s.cells.len() implies cell_refines(#[trigger] s.cells[j], b.cells[j]) by {
                    if j == k {
                        let nt = TileState { original: t.original, candidates: b.keep_fitting(k, t.candidates) };
                        assert(s.cells[j] == Some(nt));
                        if nt.candidates.len() == t.candidates.len() {
                            assert(nt == t);
                        }
                    }
                }
                if b.wf() {
                    lemma_keep_fitting_wf(b, k, t);
                    assert forall|j: int|
                        0 <= j < s.cells.len() && (#[trigger] s.cells[j]) is Some implies s.cells[j]->0.wf() by {
                        if j != k {
                            assert(s.cells[j] == b.cells[j]);
                        }
                    }
                }
            }
        },
        None => {},
    }
}

/// Narrowing never adds candidates, and a narrowing that changes something
/// removes at least one.
proof fn lemma_total_refines(new: Seq<Option<TileState>>, old: Seq<Option<TileState>>)
    requires
        new.len() == old.len(),
        forall|j: int| 0 <= j < new.len() ==> cell_refines(#[trigger] new[j], old[j]),
    ensures
        total(new) <= total(old),
        new != old ==> total(new) < total(old),
    decreases new.len(),
{
    if new.len() == 0 {
        assert(new =~= old);
    } else {
        let n0 = new.drop_last();
        let o0 = old.drop_last();
        assert forall|j: int| 0 <= j < n0.len() implies cell_refines(#[trigger] n0[j], o0[j]) by {
            assert(cell_refines(new[j], old[j]));
        }
        lemma_total_refines(n0, o0);
        assert(cell_refines(new.last(), old.last()));
        if new != old && n0 == o0 {
            assert(new.last() != old.last()) by {
                if new.last() == old.last() {
                    assert(new =~= old) by {
                        assert forall|j: int| 0 <= j < new.len() implies new[j] == old[j] by {
                            if j < n0.len() {
                                assert(n0[j] == o0[j]);
                            }
                        }
                    }
                }
            }
            assert(cell_count(new.last()) < cell_count(old.last()));
        }
    }
}

/// A propagation pass narrows the board, keeps it well formed, and when it
/// changes anything it removes candidates.
pub proof fn lemma_sweep(b: Board)
    ensures
        b.sweep().refines(b),
        b.wf() ==> b.sweep().wf(),
        b.sweep() != b ==> total(b.sweep().cells) < total(b.cells),
{
    lemma_sweep_upto(b, b.cells.len() as int);
    let s = b.sweep();
    lemma_total_refines(s.cells, b.cells);
    if s != b {
        assert(s.cells != b.cells);
    }
}

proof fn lemma_sweep_upto(b: Board, k: int)
    requires
        0 <= k <= b.cells.len(),
    ensures
        b.sweep_upto(k).refines(b),
        b.wf() ==> b.sweep_upto(k).wf(),
    decreases k,
{
    if k <= 0 {
        lemma_refines_refl(b);
    } else {
        lemma_sweep_upto(b, k - 1);
        let prev = b.sweep_upto(k - 1);
        lemma_step(prev, k - 1);
        lemma_refines_trans(prev.step(k - 1), prev, b);
    }
}

/// What `keep_fitting` returns: a part of its input, in the same order,
/// no longer than it and equal to it when as long.
pub proof fn lemma_keep_fitting(b: Board, k: int, s: Seq<Orientation>)
    ensures
        b.keep_fitting(k, s).len() <= s.len(),
        b.keep_fitting(k, s).len() == s.len() ==> b.keep_fitting(k, s) == s,
        forall|i: int|
            0 <= i < b.keep_fitting(k, s).len() ==> exists|m: int|
                0 <= m < s.len() && s[m] == #[trigger] b.keep_fitting(k, s)[i],
    decreases s.len(),
{
    if s.len() > 0 {
        let r0 = b.keep_fitting(k, s.drop_last());
        lemma_keep_fitting(b, k, s.drop_last());
        let r = b.keep_fitting(k, s);
        assert forall|i: int| 0 <= i < r.len() implies exists|m: int|
            0 <= m < s.len() && s[m] == #[trigger] r[i] by {
            if i < r0.len() {
                let m0 = choose|m: int| 0 <= m < s.drop_last().len() && s.drop_last()[m] == r0[i];
                assert(s[m0] == r[i]);
            } else {
                assert(s[s.len() - 1] == r[i]);
            }
        }
        if r.len() == s.len() {
            assert(r0.len() == s.drop_last().len());
            assert(r0 == s.drop_last());
            assert(r =~= s);
        }
    }
}

/// Filtering keeps a tile well formed.
pub proof fn lemma_keep_fitting_wf(b: Board, k: int, t: TileState)
    requires
        t.wf(),
    ensures
        (TileState { original: t.original, candidates: b.keep_fitting(k, t.candidates) }).wf(),
    decreases t.candidates.len(),
{
    let s = t.candidates;
    if s.len() > 0 {
        let t0 = TileState { original: t.original, candidates: s.drop_last() };
        assert(t0.wf()) by {
            assert forall|i: int|
                0 <= i < t0.candidates.len() implies #[trigger] crate::pipes::tile::is_turn_of(t0.original, t0.candidates[i]) by {
                assert(t0.candidates[i] == s[i]);
            }
        }
        lemma_keep_fitting_wf(b, k, t0);
        lemma_keep_fitting(b, k, s.drop_last());
        lemma_keep_fitting(b, k, s);
        let r0 = b.keep_fitting(k, s.drop_last());
        let r = b.keep_fitting(k, s);
        let tr0 = TileState { original: t.original, candidates: r0 };
        assert(tr0.wf());
        if b.fits(k, s.last()) {
            assert(r == r0.push(s.last()));
            assert forall|i: int, j: int|
                0 <= i < j < r.len() implies r[i].rotations < r[j].rotations by {
                if j == r.len() - 1 {
                    assert(r[i] == r0[i]);
                    let m = choose|m: int| 0 <= m < s.drop_last().len() && s.drop_last()[m] == #[trigger] r0[i];
                    assert(r[i] == s[m]);
                    assert(s[m].rotations < s[s.len() - 1].rotations);
                    assert(r[j] == s[s.len() - 1]);
                } else {
                    assert(r[i] == r0[i] && r[j] == r0[j]);
                    assert(tr0.candidates[i].rotations < tr0.candidates[j].rotations);
                }
            }
            assert forall|i: int|
                0 <= i < r.len() implies #[trigger] crate::pipes::tile::is_turn_of(t.original, r[i]) by {
                if i < r0.len() {
                    assert(r[i] == r0[i]);
                } else {
                    assert(r[i] == s[s.len() - 1]);
                }
            }
        }
    }
}

} // verus!
