//! Breadth-first search over the tiles that propagation leaves open.
use vstd::prelude::*;
use crate::pipes::board::{
    board_of, lemma_narrows_refl, lemma_narrows_trans, lemma_settle, lemma_settle_narrows, locked_cost,
    narrows, opposite, settle, Board, PipeGrid,
};
use crate::pipes::propagate::{locked_cost_of, neighbor_index, propagate};
use crate::pipes::tile::{same_port, same_ports, Connection, Orientation, Pipe, TileState};
use crate::utils::grid2d::Grid2D;

verus! {

impl Board {
    /// The ports that the tile at `k` shows in its first remaining orientation.
    pub open spec fn ports_at(self, k: int) -> Seq<Option<Connection>> {
        self.cells[k]->0.candidates[0].connections@
    }

    /// A port of the tile at `k` in direction `d`, if any, meets a tile whose
    /// facing port is of the same kind.
    pub open spec fn port_matches(self, k: int, d: int) -> bool {
        let p = self.ports_at(k)[d];
        p is Some ==> match self.neighbor(k, d) {
            Some(n) => self.cells[n] is Some && self.ports_at(n)[opposite(d)] == p,
            None => false,
        }
    }

    /// Every tile but the source (first cell) and the destination (last
    /// cell) has each of its ports met by a port of the same kind.
    pub open spec fn is_consistent(self) -> bool {
        forall|k: int|
            0 < k < self.cells.len() - 1 && (#[trigger] self.cells[k]) is Some ==> {
                &&& self.port_matches(k, 0)
                &&& self.port_matches(k, 1)
                &&& self.port_matches(k, 2)
                &&& self.port_matches(k, 3)
            }
    }

    /// Every tile is locked.
    pub open spec fn all_locked(self) -> bool {
        forall|k: int|
            0 <= k < self.cells.len() && (#[trigger] self.cells[k]) is Some
                ==> self.cells[k]->0.is_locked()
    }

    /// A terminal state: every tile locked and all of them consistent.
    pub open spec fn is_solved(self) -> bool {
        self.all_locked() && self.is_consistent()
    }

    /// The first unlocked tile at or after `i`.
    pub open spec fn first_open_from(self, i: int) -> Option<int>
        decreases self.cells.len() - i,
    {
        if i < 0 || i >= self.cells.len() {
            None
        } else if self.cells[i] is Some && !self.cells[i]->0.is_locked() {
            Some(i)
        } else {
            self.first_open_from(i + 1)
        }
    }

    /// The first unlocked tile in row-major order.
    pub open spec fn first_open(self) -> Option<int> {
        self.first_open_from(0)
    }

    /// The board with the tile at `k` locked to orientation `o`.
    pub open spec fn lock_to(self, k: int, o: Orientation) -> Board {
        Board {
            cells: self.cells.update(
                k,
                Some(TileState { original: self.cells[k]->0.original, candidates: seq![o] }),
            ),
            ..self
        }
    }

    /// For each orientation in `os`, in order, the board with tile `k` locked
    /// to it and propagated, unless propagation finds it infeasible.
    pub open spec fn branches(self, k: int, os: Seq<Orientation>) -> Seq<Board>
        decreases os.len(),
    {
        if os.len() == 0 {
            seq![]
        } else {
            let r = self.branches(k, os.drop_last());
            match settle(self.lock_to(k, os.last())) {
                Some(c) => r.push(c),
                None => r,
            }
        }
    }

    /// The states one search step away: the first unlocked tile tried in
    /// each of its candidate orientations, by increasing rotation distance.
    pub open spec fn successors(self) -> Seq<Board> {
        match self.first_open() {
            Some(k) => self.branches(k, self.cells[k]->0.candidates),
            None => seq![],
        }
    }
}

/// Appends the states of `found` that `visited` does not hold yet, in order,
/// to both `next` and `visited`.
pub open spec fn enqueue_new(next: Seq<Board>, visited: Seq<Board>, found: Seq<Board>) -> (Seq<Board>, Seq<Board>)
    decreases found.len(),
{
    if found.len() == 0 {
        (next, visited)
    } else {
        let (n, v) = enqueue_new(next, visited, found.drop_last());
        let s = found.last();
        if v.contains(s) {
            (n, v)
        } else {
            (n.push(s), v.push(s))
        }
    }
}

/// The next layer of the search: the new successors of each state of
/// `layer` in order, and the visited states after them.
pub open spec fn expand(layer: Seq<Board>, visited: Seq<Board>) -> (Seq<Board>, Seq<Board>)
    decreases layer.len(),
{
    if layer.len() == 0 {
        (seq![], visited)
    } else {
        let (n, v) = expand(layer.drop_last(), visited);
        enqueue_new(n, v, layer.last().successors())
    }
}

/// The first terminal state of `layer` at or after `i`.
pub open spec fn first_solved_from(layer: Seq<Board>, i: int) -> Option<int>
    decreases layer.len() - i,
{
    if i < 0 || i >= layer.len() {
        None
    } else if layer[i].is_solved() {
        Some(i)
    } else {
        first_solved_from(layer, i + 1)
    }
}

/// Breadth-first search in first-in first-out order: the rotation cost of
/// the first terminal state reached, looking at most `depth` layers further.
pub open spec fn bfs(layer: Seq<Board>, visited: Seq<Board>, depth: nat) -> Option<nat>
    decreases depth,
{
    match first_solved_from(layer, 0) {
        Some(i) => Some(locked_cost(layer[i].cells)),
        None => if depth == 0 || layer.len() == 0 {
            None
        } else {
            let (n, v) = expand(layer, visited);
            bfs(n, v, (depth - 1) as nat)
        },
    }
}

/// The search from a settled board. Each step locks one more tile, so the
/// number of cells bounds the number of layers.
pub open spec fn search_from(b: Board) -> Option<nat> {
    bfs(seq![b], seq![b], b.cells.len())
}


/// What `first_open_from` finds is an unlocked tile at or after `i`, and
/// every cell before it from `i` on is empty or locked.
pub proof fn lemma_first_open(b: Board, i: int)
    ensures
        b.first_open_from(i) matches Some(k) ==> i <= k < b.cells.len() && b.cells[k] is Some
            && !b.cells[k]->0.is_locked(),
        b.first_open_from(i) is None ==> forall|j: int|
            0 <= i <= j < b.cells.len() && (#[trigger] b.cells[j]) is Some
                ==> b.cells[j]->0.is_locked(),
    decreases b.cells.len() - i,
{
    if 0 <= i < b.cells.len() {
        lemma_first_open(b, i + 1);
    }
}

/// When propagation has left no tile open, the search gives the cost of the
/// board exactly when the board passes the consistency check, and fails
/// otherwise.
pub proof fn lemma_search_when_locked(b: Board)
    requires
        b.all_locked(),
    ensures
        search_from(b) == if b.is_solved() {
            Some(locked_cost(b.cells))
        } else {
            None::<nat>
        },
{
    let l = seq![b];
    assert(first_solved_from(l, 1) is None);
    if !b.is_solved() {
        lemma_first_open(b, 0);
        assert(b.successors() =~= seq![]);
        assert(expand(l.drop_last(), l) == (Seq::<Board>::empty(), l));
        let (n, v) = expand(l, l);
        assert(n =~= seq![]);
        if b.cells.len() > 0 {
            assert(first_solved_from(n, 0) is None);
            assert(bfs(n, v, (b.cells.len() - 1) as nat) is None);
        }
    }
}

/// A cell holds a tile that is not locked yet.
pub open spec fn is_open(c: Option<TileState>) -> bool {
    c matches Some(t) && !t.is_locked()
}

/// How many tiles are not locked yet.
pub open spec fn open_count(cells: Seq<Option<TileState>>) -> nat
    decreases cells.len(),
{
    if cells.len() == 0 {
        0
    } else {
        open_count(cells.drop_last()) + if is_open(cells.last()) { 1nat } else { 0nat }
    }
}

proof fn lemma_open_count_bound(cells: Seq<Option<TileState>>)
    ensures
        open_count(cells) <= cells.len(),
    decreases cells.len(),
{
    if cells.len() > 0 {
        lemma_open_count_bound(cells.drop_last());
    }
}

/// Fewer open cells, cell by cell, means a smaller count.
proof fn lemma_open_count_less(t: Seq<Option<TileState>>, s: Seq<Option<TileState>>, k: int)
    requires
        t.len() == s.len(),
        forall|j: int| 0 <= j < t.len() && is_open(#[trigger] t[j]) ==> is_open(s[j]),
        0 <= k < t.len() ==> is_open(s[k]) && !is_open(t[k]),
    ensures
        open_count(t) <= open_count(s),
        0 <= k < t.len() ==> open_count(t) < open_count(s),
    decreases t.len(),
{
    if t.len() > 0 {
        let t0 = t.drop_last();
        let s0 = s.drop_last();
        assert forall|j: int|
            0 <= j < t0.len() && is_open(#[trigger] t0[j]) implies is_open(s0[j]) by {
            assert(t0[j] == t[j] && s0[j] == s[j]);
        }
        if 0 <= k < t0.len() {
            assert(t0[k] == t[k] && s0[k] == s[k]);
        }
        lemma_open_count_less(t0, s0, k);
        assert(is_open(t.last()) ==> is_open(s.last()));
    }
}

/// Each search step locks one more tile.
proof fn lemma_branches_open(b: Board, k: int, os: Seq<Orientation>)
    requires
        0 <= k < b.cells.len(),
        is_open(b.cells[k]),
    ensures
        forall|i: int| 0 <= i < b.branches(k, os).len() ==> open_count(
            (#[trigger] b.branches(k, os)[i]).cells,
        ) < open_count(b.cells),
    decreases os.len(),
{
    if os.len() > 0 {
        lemma_branches_open(b, k, os.drop_last());
        let l = b.lock_to(k, os.last());
        lemma_settle(l);
        if settle(l) is Some {
            let t = settle(l)->0;
            assert forall|j: int|
                0 <= j < t.cells.len() && is_open(#[trigger] t.cells[j]) implies is_open(b.cells[j]) by {
                assert(crate::pipes::board::cell_refines(t.cells[j], l.cells[j]));
                if j != k {
                    assert(l.cells[j] == b.cells[j]);
                }
            }
            assert(crate::pipes::board::cell_refines(t.cells[k], l.cells[k]));
            lemma_open_count_less(t.cells, b.cells, k);
            let r = b.branches(k, os);
            assert(r == b.branches(k, os.drop_last()).push(t));
            assert forall|i: int|
                0 <= i < r.len() implies open_count((#[trigger] r[i]).cells) < open_count(b.cells) by {
                if i < r.len() - 1 {
                    assert(r[i] == b.branches(k, os.drop_last())[i]);
                }
            }
        } else {
            assert(b.branches(k, os) == b.branches(k, os.drop_last()));
        }
    }
}

proof fn lemma_successors_open(b: Board)
    ensures
        forall|i: int| 0 <= i < b.successors().len() ==> open_count(
            (#[trigger] b.successors()[i]).cells,
        ) < open_count(b.cells),
{
    lemma_first_open(b, 0);
    if let Some(k) = b.first_open() {
        lemma_branches_open(b, k, b.cells[k]->0.candidates);
    }
}

/// A board without open tiles has no successor.
proof fn lemma_no_open_no_successors(b: Board)
    requires
        open_count(b.cells) == 0,
    ensures
        b.successors().len() == 0,
{
    lemma_first_open(b, 0);
    if let Some(k) = b.first_open() {
        lemma_open_count_less(b.cells, b.cells, -1);
        lemma_open_positive(b.cells, k);
    }
}

proof fn lemma_open_positive(cells: Seq<Option<TileState>>, k: int)
    requires
        0 <= k < cells.len(),
        is_open(cells[k]),
    ensures
        open_count(cells) > 0,
    decreases cells.len(),
{
    if k < cells.len() - 1 {
        assert(cells.drop_last()[k] == cells[k]);
        lemma_open_positive(cells.drop_last(), k);
    }
}

/// Every state that `enqueue_new` appends comes from `next` or `found`.
proof fn lemma_enqueue_from(next: Seq<Board>, visited: Seq<Board>, found: Seq<Board>, bound: nat)
    requires
        forall|i: int| 0 <= i < next.len() ==> open_count((#[trigger] next[i]).cells) <= bound,
        forall|i: int| 0 <= i < found.len() ==> open_count((#[trigger] found[i]).cells) <= bound,
    ensures
        forall|i: int|
            0 <= i < enqueue_new(next, visited, found).0.len() ==> open_count(
                (#[trigger] enqueue_new(next, visited, found).0[i]).cells,
            ) <= bound,
    decreases found.len(),
{
    if found.len() > 0 {
        let f0 = found.drop_last();
        assert forall|i: int|
            0 <= i < f0.len() implies open_count((#[trigger] f0[i]).cells) <= bound by {
            assert(f0[i] == found[i]);
        }
        lemma_enqueue_from(next, visited, f0, bound);
        let (n, v) = enqueue_new(next, visited, f0);
        let r = enqueue_new(next, visited, found).0;
        assert forall|i: int|
            0 <= i < r.len() implies open_count((#[trigger] r[i]).cells) <= bound by {
            if i < n.len() {
                assert(r[i] == n[i]);
            } else {
                assert(r[i] == found.last());
            }
        }
    }
}

/// Every state of the next layer has fewer open tiles than some state of
/// the layer it comes from.
proof fn lemma_expand_open(layer: Seq<Board>, visited: Seq<Board>, bound: nat)
    requires
        forall|i: int| 0 <= i < layer.len() ==> open_count((#[trigger] layer[i]).cells) <= bound + 1,
    ensures
        forall|i: int|
            0 <= i < expand(layer, visited).0.len() ==> open_count(
                (#[trigger] expand(layer, visited).0[i]).cells,
            ) <= bound,
    decreases layer.len(),
{
    if layer.len() > 0 {
        let l0 = layer.drop_last();
        assert forall|i: int|
            0 <= i < l0.len() implies open_count((#[trigger] l0[i]).cells) <= bound + 1 by {
            assert(l0[i] == layer[i]);
        }
        lemma_expand_open(l0, visited, bound);
        let (n, v) = expand(l0, visited);
        let last = layer.last();
        assert(open_count(last.cells) <= bound + 1);
        lemma_successors_open(last);
        let f = last.successors();
        assert forall|i: int|
            0 <= i < f.len() implies open_count((#[trigger] f[i]).cells) <= bound by {}
        lemma_enqueue_from(n, v, f, bound);
    }
}

/// Searching more layers changes nothing once no state of the current
/// layer has more than `d` open tiles.
proof fn lemma_bfs_depth(layer: Seq<Board>, visited: Seq<Board>, d: nat, e: nat)
    requires
        d <= e,
        forall|i: int| 0 <= i < layer.len() ==> open_count((#[trigger] layer[i]).cells) <= d,
    ensures
        bfs(layer, visited, d) == bfs(layer, visited, e),
    decreases d,
{
    if first_solved_from(layer, 0) is None && layer.len() > 0 && e > 0 {
        let (n, v) = expand(layer, visited);
        if d == 0 {
            assert forall|i: int|
                0 <= i < layer.len() implies (#[trigger] layer[i]).successors().len() == 0 by {
                lemma_no_open_no_successors(layer[i]);
            }
            lemma_expand_empty(layer, visited);
            assert(n.len() == 0);
            assert(first_solved_from(n, 0) is None);
        } else {
            lemma_expand_open(layer, visited, (d - 1) as nat);
            lemma_bfs_depth(n, v, (d - 1) as nat, (e - 1) as nat);
        }
    }
}

proof fn lemma_expand_empty(layer: Seq<Board>, visited: Seq<Board>)
    requires
        forall|i: int| 0 <= i < layer.len() ==> (#[trigger] layer[i]).successors().len() == 0,
    ensures
        expand(layer, visited).0.len() == 0,
    decreases layer.len(),
{
    if layer.len() > 0 {
        let l0 = layer.drop_last();
        assert forall|i: int|
            0 <= i < l0.len() implies (#[trigger] l0[i]).successors().len() == 0 by {
            assert(l0[i] == layer[i]);
        }
        lemma_expand_empty(l0, visited);
        let (n, v) = expand(l0, visited);
        assert(layer.last().successors() =~= seq![]);
        assert(enqueue_new(n, v, seq![]) == (n, v));
    }
}

/// The search never stops for want of layers: every step locks one more
/// tile, so allowing any number of further layers gives the same answer.
pub proof fn lemma_search_bound_suffices(b: Board, extra: nat)
    ensures
        search_from(b) == bfs(seq![b], seq![b], b.cells.len() + extra),
{
    lemma_open_count_bound(b.cells);
    let l = seq![b];
    assert forall|i: int|
        0 <= i < l.len() implies open_count((#[trigger] l[i]).cells) <= b.cells.len() by {
        assert(l[i] == b);
    }
    lemma_bfs_depth(l, l, b.cells.len(), b.cells.len() + extra);
}

pub proof fn lemma_lock_narrows(b: Board, k: int, o: Orientation)
    requires
        0 <= k < b.cells.len(),
        b.cells[k] matches Some(t) && t.candidates.contains(o),
    ensures
        narrows(b.lock_to(k, o), b),
{
    lemma_narrows_refl(b);
    let l = b.lock_to(k, o);
    assert forall|j: int| 0 <= j < l.cells.len() implies match (#[trigger] l.cells[j], b.cells[j]) {
        (None, None) => true,
        (Some(x), Some(y)) => x.original == y.original && forall|m: int|
            0 <= m < x.candidates.len() ==> y.candidates.contains(#[trigger] x.candidates[m]),
        _ => false,
    } by {
        if j == k {
            let x = l.cells[j]->0;
            assert forall|m: int|
                0 <= m < x.candidates.len() implies b.cells[k]->0.candidates.contains(#[trigger] x.candidates[m]) by {
                assert(x.candidates[m] == o);
            }
        } else {
            assert(l.cells[j] == b.cells[j]);
        }
    }
}

proof fn lemma_branches_narrow(b: Board, k: int, os: Seq<Orientation>)
    requires
        0 <= k < b.cells.len(),
        b.cells[k] is Some,
        forall|m: int| 0 <= m < os.len() ==> b.cells[k]->0.candidates.contains(#[trigger] os[m]),
    ensures
        forall|i: int| 0 <= i < b.branches(k, os).len() ==> narrows(#[trigger] b.branches(k, os)[i], b),
    decreases os.len(),
{
    if os.len() > 0 {
        let o0 = os.drop_last();
        assert forall|m: int|
            0 <= m < o0.len() implies b.cells[k]->0.candidates.contains(#[trigger] o0[m]) by {
            assert(o0[m] == os[m]);
        }
        lemma_branches_narrow(b, k, o0);
        let l = b.lock_to(k, os.last());
        assert(b.cells[k]->0.candidates.contains(os[os.len() - 1]));
        lemma_lock_narrows(b, k, os.last());
        lemma_settle_narrows(l);
        if let Some(t) = settle(l) {
            lemma_narrows_trans(t, l, b);
            let r = b.branches(k, os);
            assert(r == b.branches(k, o0).push(t));
            assert forall|i: int| 0 <= i < r.len() implies narrows(#[trigger] r[i], b) by {
                if i < r.len() - 1 {
                    assert(r[i] == b.branches(k, o0)[i]);
                }
            }
        } else {
            assert(b.branches(k, os) == b.branches(k, o0));
        }
    }
}

proof fn lemma_successors_narrow(b: Board)
    ensures
        forall|i: int| 0 <= i < b.successors().len() ==> narrows(#[trigger] b.successors()[i], b),
{
    lemma_first_open(b, 0);
    if let Some(k) = b.first_open() {
        let os = b.cells[k]->0.candidates;
        assert forall|m: int| 0 <= m < os.len() implies os.contains(#[trigger] os[m]) by {}
        lemma_branches_narrow(b, k, os);
    }
}

proof fn lemma_enqueue_narrow(next: Seq<Board>, visited: Seq<Board>, found: Seq<Board>, b0: Board)
    requires
        forall|i: int| 0 <= i < next.len() ==> narrows(#[trigger] next[i], b0),
        forall|i: int| 0 <= i < found.len() ==> narrows(#[trigger] found[i], b0),
    ensures
        forall|i: int|
            0 <= i < enqueue_new(next, visited, found).0.len() ==> narrows(
                #[trigger] enqueue_new(next, visited, found).0[i],
                b0,
            ),
    decreases found.len(),
{
    if found.len() > 0 {
        let f0 = found.drop_last();
        assert forall|i: int| 0 <= i < f0.len() implies narrows(#[trigger] f0[i], b0) by {
            assert(f0[i] == found[i]);
        }
        lemma_enqueue_narrow(next, visited, f0, b0);
        let (n, v) = enqueue_new(next, visited, f0);
        let r = enqueue_new(next, visited, found).0;
        assert forall|i: int| 0 <= i < r.len() implies narrows(#[trigger] r[i], b0) by {
            if i < n.len() {
                assert(r[i] == n[i]);
            } else {
                assert(r[i] == found.last());
            }
        }
    }
}

proof fn lemma_expand_narrow(layer: Seq<Board>, visited: Seq<Board>, b0: Board)
    requires
        forall|i: int| 0 <= i < layer.len() ==> narrows(#[trigger] layer[i], b0),
    ensures
        forall|i: int|
            0 <= i < expand(layer, visited).0.len() ==> narrows(#[trigger] expand(layer, visited).0[i], b0),
    decreases layer.len(),
{
    if layer.len() > 0 {
        let l0 = layer.drop_last();
        assert forall|i: int| 0 <= i < l0.len() implies narrows(#[trigger] l0[i], b0) by {
            assert(l0[i] == layer[i]);
        }
        lemma_expand_narrow(l0, visited, b0);
        let (n, v) = expand(l0, visited);
        let last = layer.last();
        lemma_successors_narrow(last);
        let f = last.successors();
        assert forall|i: int| 0 <= i < f.len() implies narrows(#[trigger] f[i], b0) by {
            lemma_narrows_trans(f[i], last, b0);
        }
        lemma_enqueue_narrow(n, v, f, b0);
    }
}

proof fn lemma_first_solved(layer: Seq<Board>, i: int)
    ensures
        first_solved_from(layer, i) matches Some(j) ==> 0 <= j < layer.len() && layer[j].is_solved(),
    decreases layer.len() - i,
{
    if 0 <= i < layer.len() {
        lemma_first_solved(layer, i + 1);
    }
}

proof fn lemma_bfs_sound(layer: Seq<Board>, visited: Seq<Board>, d: nat, b0: Board)
    requires
        forall|i: int| 0 <= i < layer.len() ==> narrows(#[trigger] layer[i], b0),
    ensures
        bfs(layer, visited, d) matches Some(c) ==> exists|t: Board|
            narrows(t, b0) && t.is_solved() && c == locked_cost(t.cells),
    decreases d,
{
    lemma_first_solved(layer, 0);
    if let Some(j) = first_solved_from(layer, 0) {
        assert(narrows(layer[j], b0));
    } else if d > 0 && layer.len() > 0 {
        let (n, v) = expand(layer, visited);
        lemma_expand_narrow(layer, visited, b0);
        lemma_bfs_sound(n, v, (d - 1) as nat, b0);
    }
}

/// An answer of the search is the rotation cost of a terminal state: every
/// tile locked and consistent, each in an orientation it could still take
/// on the board the search started from.
pub proof fn lemma_search_sound(b: Board)
    ensures
        search_from(b) matches Some(c) ==> exists|t: Board|
            narrows(t, b) && t.is_solved() && c == locked_cost(t.cells),
{
    lemma_narrows_refl(b);
    let l = seq![b];
    assert forall|i: int| 0 <= i < l.len() implies narrows(#[trigger] l[i], b) by {
        assert(l[i] == b);
    }
    lemma_bfs_sound(l, l, b.cells.len(), b);
}

/// The boards that a list of grids holds.
pub open spec fn boards(v: Seq<PipeGrid>) -> Seq<Board> {
    v.map_values(|g: PipeGrid| board_of(g))
}

/// The first unlocked tile in row-major order.
pub fn first_open(g: &PipeGrid) -> (r: Option<usize>)
    ensures
        match board_of(*g).first_open() {
            Some(k) => r == Some(k as usize) && 0 <= k < g.bytes@.len(),
            None => r is None,
        },
{
    let ghost b = board_of(*g);
    let n = g.bytes.len();
    for k in 0..n
        invariant
            n == g.bytes@.len(),
            b == board_of(*g),
            b.first_open() == b.first_open_from(k as int),
    {
        if let Some(p) = &g.bytes[k] {
            if p.possible_orientations.len() != 1 {
                assert(b.cells[k as int] == Some(p@));
                return Some(k);
            }
        }
        assert(b.first_open_from(k as int) == b.first_open_from(k + 1));
    }
    None
}

/// Whether every tile is locked.
pub fn all_locked(g: &PipeGrid) -> (r: bool)
    ensures
        r == board_of(*g).all_locked(),
{
    let n = g.bytes.len();
    for k in 0..n
        invariant
            n == g.bytes@.len(),
            forall|j: int|
                0 <= j < k && (#[trigger] board_of(*g).cells[j]) is Some
                    ==> board_of(*g).cells[j]->0.is_locked(),
    {
        if let Some(p) = &g.bytes[k] {
            if p.possible_orientations.len() != 1 {
                assert(board_of(*g).cells[k as int] == Some(p@));
                return false;
            }
        }
    }
    true
}

/// Whether the port of the locked tile at `k` in direction `d` is met by a
/// port of the same kind.
pub fn port_matches(g: &PipeGrid, k: usize, d: usize) -> (r: bool)
    requires
        board_of(*g).shaped(),
        board_of(*g).all_locked(),
        k < g.bytes@.len(),
        board_of(*g).cells[k as int] is Some,
        d < 4,
    ensures
        r == board_of(*g).port_matches(k as int, d as int),
{
    let ghost b = board_of(*g);
    match &g.bytes[k] {
        Some(t) => {
            assert(b.cells[k as int] == Some(t@));
            let p = t.possible_orientations[0].connections[d];
            if p.is_none() {
                return true;
            }
            match neighbor_index(g, k, d) {
                None => false,
                Some(n) => match &g.bytes[n] {
                    None => false,
                    Some(u) => {
                        assert(b.cells[n as int] == Some(u@));
                        same_port(u.possible_orientations[0].connections[(d + 2) % 4], p)
                    },
                },
            }
        },
        None => false,
    }
}

/// Whether every tile but the source and the destination has each of its
/// ports met by a port of the same kind.
pub fn is_internally_consistent(g: &PipeGrid) -> (r: bool)
    requires
        board_of(*g).shaped(),
        board_of(*g).all_locked(),
    ensures
        r == board_of(*g).is_consistent(),
{
    let ghost b = board_of(*g);
    let n = g.bytes.len();
    if n <= 2 {
        return true;
    }
    for k in 1..n - 1
        invariant
            n == g.bytes@.len(),
            n > 2,
            b == board_of(*g),
            b.shaped(),
            b.all_locked(),
            forall|j: int|
                0 < j < k && (#[trigger] b.cells[j]) is Some ==> {
                    &&& b.port_matches(j, 0)
                    &&& b.port_matches(j, 1)
                    &&& b.port_matches(j, 2)
                    &&& b.port_matches(j, 3)
                },
    {
        if g.bytes[k].is_some() {
            if !(port_matches(g, k, 0) && port_matches(g, k, 1) && port_matches(g, k, 2)
                && port_matches(g, k, 3)) {
                assert(b.cells[k as int] is Some);
                return false;
            }
        }
    }
    true
}

/// Whether the grid is a terminal state: all tiles locked and consistent.
pub fn is_solved(g: &PipeGrid) -> (r: bool)
    requires
        board_of(*g).shaped(),
    ensures
        r == board_of(*g).is_solved(),
{
    all_locked(g) && is_internally_consistent(g)
}

/// An independent copy of a grid.
pub fn copy_grid(g: &PipeGrid) -> (r: PipeGrid)
    ensures
        board_of(r) == board_of(*g),
        r.width == g.width,
        r.height == g.height,
{
    let n = g.bytes.len();
    let mut cells: Vec<Option<Pipe>> = Vec::new();
    for k in 0..n
        invariant
            n == g.bytes@.len(),
            cells@.len() == k,
            forall|j: int| 0 <= j < k ==> #[trigger] crate::pipes::board::cell_view(cells@[j])
                == crate::pipes::board::cell_view(g.bytes@[j]),
    {
        match &g.bytes[k] {
            Some(p) => cells.push(Some(p.duplicate())),
            None => cells.push(None),
        }
    }
    let r = Grid2D { width: g.width, height: g.height, bytes: cells };
    assert(board_of(r).cells =~= board_of(*g).cells);
    r
}


/// Locks the tile at `k` to orientation `o`.
pub fn lock_cell(g: &mut PipeGrid, k: usize, o: Orientation)
    requires
        k < old(g).bytes@.len(),
        old(g).bytes@[k as int] is Some,
    ensures
        board_of(*final(g)) == board_of(*old(g)).lock_to(k as int, o),
        final(g).width == old(g).width,
        final(g).height == old(g).height,
{
    let ghost b = board_of(*g);
    let original = match &g.bytes[k] {
        Some(p) => p.original,
        None => {
            assert(false);
            [None, None, None, None]
        },
    };
    let mut single: Vec<Orientation> = Vec::new();
    single.push(o);
    assert(single@ =~= seq![o]);
    g.bytes[k] = Some(Pipe { original, possible_orientations: single });
    proof {
        assert(board_of(*g).cells =~= b.lock_to(k as int, o).cells);
    }
}

/// Whether two tiles are in the same state.
fn same_pipe(a: &Pipe, b: &Pipe) -> (r: bool)
    ensures
        r == (a@ == b@),
{
    if !same_ports(&a.original, &b.original) {
        return false;
    }
    let n = a.possible_orientations.len();
    if n != b.possible_orientations.len() {
        return false;
    }
    for i in 0..n
        invariant
            n == a@.candidates.len(),
            n == b@.candidates.len(),
            a.original@ == b.original@,
            forall|j: int| 0 <= j < i ==> a@.candidates[j] == b@.candidates[j],
    {
        let x = a.possible_orientations[i];
        let y = b.possible_orientations[i];
        if x.rotations != y.rotations || !same_ports(&x.connections, &y.connections) {
            return false;
        }
        proof {
            broadcast use vstd::array::group_array_axioms;
            assert(x.connections =~= y.connections);
        }
    }
    assert(a@.candidates =~= b@.candidates);
    true
}

/// Whether two grids hold the same board.
pub fn same_board(a: &PipeGrid, b: &PipeGrid) -> (r: bool)
    ensures
        r == (board_of(*a) == board_of(*b)),
{
    if a.width != b.width || a.height != b.height {
        return false;
    }
    let n = a.bytes.len();
    if n != b.bytes.len() {
        assert(board_of(*a).cells.len() != board_of(*b).cells.len());
        return false;
    }
    for k in 0..n
        invariant
            n == a.bytes@.len(),
            n == b.bytes@.len(),
            forall|j: int| 0 <= j < k ==> #[trigger] board_of(*a).cells[j] == board_of(*b).cells[j],
    {
        let same = match (&a.bytes[k], &b.bytes[k]) {
            (Some(p), Some(q)) => same_pipe(p, q),
            (None, None) => true,
            _ => false,
        };
        if !same {
            assert(board_of(*a).cells[k as int] != board_of(*b).cells[k as int]);
            return false;
        }
    }
    assert(board_of(*a).cells =~= board_of(*b).cells);
    true
}

/// Whether `visited` already holds the board of `g`.
pub fn contains_board(visited: &Vec<PipeGrid>, g: &PipeGrid) -> (r: bool)
    ensures
        r == boards(visited@).contains(board_of(*g)),
{
    let n = visited.len();
    for i in 0..n
        invariant
            n == visited@.len(),
            forall|j: int| 0 <= j < i ==> boards(visited@)[j] != board_of(*g),
    {
        if same_board(&visited[i], g) {
            assert(boards(visited@)[i as int] == board_of(*g));
            return true;
        }
    }
    false
}

/// The states one search step away from `g`: its first unlocked tile locked
/// to each candidate in turn and propagated, the infeasible ones left out.
pub fn successors(g: &PipeGrid) -> (r: Vec<PipeGrid>)
    requires
        board_of(*g).wf(),
    ensures
        boards(r@) == board_of(*g).successors(),
        forall|i: int| 0 <= i < r@.len() ==> board_of(#[trigger] r@[i]).wf(),
{
    let ghost b = board_of(*g);
    let mut r: Vec<PipeGrid> = Vec::new();
    match first_open(g) {
        None => {
            assert(boards(r@) =~= b.successors());
            r
        },
        Some(k) => {
            proof {
                lemma_first_open(b, 0);
            }
            let p = match &g.bytes[k] {
                Some(p) => p,
                None => {
                    assert(false);
                    return r;
                },
            };
            assert(b.cells[k as int] == Some(p@));
            assert(p@.wf());
            let ghost os = p@.candidates;
            let n = p.possible_orientations.len();
            for i in 0..n
                invariant
                    n == os.len(),
                    os == p@.candidates,
                    p@.wf(),
                    b == board_of(*g),
                    b.wf(),
                    k < g.bytes@.len(),
                    b.cells[k as int] == Some(p@),
                    boards(r@) == b.branches(k as int, os.take(i as int)),
                    forall|j: int| 0 <= j < r@.len() ==> board_of(#[trigger] r@[j]).wf(),
            {
                let o = p.possible_orientations[i];
                let mut h = copy_grid(g);
                lock_cell(&mut h, k, o);
                proof {
                    assert(os.take(i + 1).drop_last() =~= os.take(i as int));
                    assert(os.take(i + 1).last() == o);
                    let l = board_of(h);
                    assert(crate::pipes::tile::is_turn_of(p@.original, os[i as int]));
                    assert forall|j: int|
                        0 <= j < l.cells.len() && (#[trigger] l.cells[j]) is Some implies l.cells[j]->0.wf() by {
                        if j != k {
                            assert(l.cells[j] == b.cells[j]);
                        }
                    }
                    assert(l.wf());
                    lemma_settle(l);
                }
                let ghost before = r@;
                if propagate(&mut h).is_ok() {
                    r.push(h);
                    assert(boards(r@) =~= boards(before).push(board_of(h)));
                }
            }
            assert(os.take(n as int) =~= os);
            r
        },
    }
}


/// Appends the grids of `found` whose boards `visited` does not hold yet,
/// in order, to `next` and to `visited`.
pub fn enqueue_new_grids(next: &mut Vec<PipeGrid>, visited: &mut Vec<PipeGrid>, found: &Vec<PipeGrid>)
    requires
        forall|i: int| 0 <= i < old(next)@.len() ==> board_of(#[trigger] old(next)@[i]).wf(),
        forall|i: int| 0 <= i < old(visited)@.len() ==> board_of(#[trigger] old(visited)@[i]).wf(),
        forall|i: int| 0 <= i < found@.len() ==> board_of(#[trigger] found@[i]).wf(),
    ensures
        (boards(final(next)@), boards(final(visited)@)) == enqueue_new(
            boards(old(next)@),
            boards(old(visited)@),
            boards(found@),
        ),
        forall|i: int| 0 <= i < final(next)@.len() ==> board_of(#[trigger] final(next)@[i]).wf(),
        forall|i: int| 0 <= i < final(visited)@.len() ==> board_of(#[trigger] final(visited)@[i]).wf(),
{
    let ghost n0 = boards(next@);
    let ghost v0 = boards(visited@);
    let ghost f = boards(found@);
    let m = found.len();
    for i in 0..m
        invariant
            m == found@.len(),
            f == boards(found@),
            forall|j: int| 0 <= j < found@.len() ==> board_of(#[trigger] found@[j]).wf(),
            (boards(next@), boards(visited@)) == enqueue_new(n0, v0, f.take(i as int)),
            forall|j: int| 0 <= j < next@.len() ==> board_of(#[trigger] next@[j]).wf(),
            forall|j: int| 0 <= j < visited@.len() ==> board_of(#[trigger] visited@[j]).wf(),
    {
        proof {
            assert(f.take(i + 1).drop_last() =~= f.take(i as int));
            assert(f.take(i + 1).last() == f[i as int]);
        }
        let ghost bn = next@;
        let ghost bv = visited@;
        if !contains_board(visited, &found[i]) {
            let c = copy_grid(&found[i]);
            visited.push(c);
            next.push(copy_grid(&found[i]));
            assert(boards(next@) =~= boards(bn).push(f[i as int]));
            assert(boards(visited@) =~= boards(bv).push(f[i as int]));
        }
    }
    assert(f.take(m as int) =~= f);
}

/// The next layer of the search and the visited states after it.
pub fn expand_layer(layer: &Vec<PipeGrid>, visited: Vec<PipeGrid>) -> (r: (Vec<PipeGrid>, Vec<PipeGrid>))
    requires
        forall|i: int| 0 <= i < layer@.len() ==> board_of(#[trigger] layer@[i]).wf(),
        forall|i: int| 0 <= i < visited@.len() ==> board_of(#[trigger] visited@[i]).wf(),
    ensures
        (boards(r.0@), boards(r.1@)) == expand(boards(layer@), boards(visited@)),
        forall|i: int| 0 <= i < r.0@.len() ==> board_of(#[trigger] r.0@[i]).wf(),
        forall|i: int| 0 <= i < r.1@.len() ==> board_of(#[trigger] r.1@[i]).wf(),
{
    let ghost l = boards(layer@);
    let ghost v0 = boards(visited@);
    let mut visited = visited;
    let mut next: Vec<PipeGrid> = Vec::new();
    let m = layer.len();
    assert(boards(next@) =~= seq![]);
    for i in 0..m
        invariant
            m == layer@.len(),
            l == boards(layer@),
            forall|j: int| 0 <= j < layer@.len() ==> board_of(#[trigger] layer@[j]).wf(),
            (boards(next@), boards(visited@)) == expand(l.take(i as int), v0),
            forall|j: int| 0 <= j < next@.len() ==> board_of(#[trigger] next@[j]).wf(),
            forall|j: int| 0 <= j < visited@.len() ==> board_of(#[trigger] visited@[j]).wf(),
    {
        proof {
            assert(l.take(i + 1).drop_last() =~= l.take(i as int));
            assert(l.take(i + 1).last() == l[i as int]);
        }
        let found = successors(&layer[i]);
        enqueue_new_grids(&mut next, &mut visited, &found);
    }
    assert(l.take(m as int) =~= l);
    (next, visited)
}

/// Breadth-first search from a settled grid: the rotation cost of the first
/// terminal state reached in first-in first-out order, or `None` when the
/// search runs out of states.
pub fn search(start: &PipeGrid) -> (r: Option<u64>)
    requires
        board_of(*start).wf(),
    ensures
        match search_from(board_of(*start)) {
            Some(c) => r == Some(c as u64),
            None => r is None,
        },
{
    let ghost b0 = board_of(*start);
    let mut layer: Vec<PipeGrid> = Vec::new();
    layer.push(copy_grid(start));
    let mut visited: Vec<PipeGrid> = Vec::new();
    visited.push(copy_grid(start));
    assert(boards(layer@) =~= seq![b0]);
    assert(boards(visited@) =~= seq![b0]);
    let mut depth: usize = start.bytes.len();
    loop
        invariant
            bfs(boards(layer@), boards(visited@), depth as nat) == search_from(b0),
            b0 == board_of(*start),
            forall|j: int| 0 <= j < layer@.len() ==> board_of(#[trigger] layer@[j]).wf(),
            forall|j: int| 0 <= j < visited@.len() ==> board_of(#[trigger] visited@[j]).wf(),
        decreases depth,
    {
        let ghost l = boards(layer@);
        let m = layer.len();
        for i in 0..m
            invariant
                m == layer@.len(),
                l == boards(layer@),
                forall|j: int| 0 <= j < layer@.len() ==> board_of(#[trigger] layer@[j]).wf(),
                first_solved_from(l, 0) == first_solved_from(l, i as int),
                b0 == board_of(*start),
                bfs(l, boards(visited@), depth as nat) == search_from(b0),
        {
            if is_solved(&layer[i]) {
                assert(l[i as int] == board_of(layer@[i as int]));
                assert(first_solved_from(l, i as int) == Some(i as int));
                assert(bfs(l, boards(visited@), depth as nat) == Some(locked_cost(l[i as int].cells)));
                let c = locked_cost_of(&layer[i]);
                return Some(c);
            }
        }
        assert(first_solved_from(l, 0) is None);
        if depth == 0 || m == 0 {
            assert(bfs(l, boards(visited@), depth as nat) is None);
            return None;
        }
        let ghost vb = boards(visited@);
        let (n, v) = expand_layer(&layer, visited);
        assert(bfs(l, vb, depth as nat) == bfs(boards(n@), boards(v@), (depth - 1) as nat));
        layer = n;
        visited = v;
        depth = depth - 1;
    }
}

} // verus!
