//! Constraint propagation: narrowing each tile's candidate orientations
//! against its neighbours.
use vstd::prelude::*;
use crate::pipes::board::{
    board_of, lemma_keep_fitting, lemma_locked_cost, lemma_settle, lemma_sweep, locked_cost,
    locked_rotations, opposite, settle, total, PipeGrid,
};
use crate::pipes::tile::{same_port, Orientation, Pipe};

verus! {

/// The cell next to cell `k` in direction `d`, or `None` past the edge.
pub fn neighbor_index(g: &PipeGrid, k: usize, d: usize) -> (r: Option<usize>)
    requires
        board_of(*g).shaped(),
        k < g.bytes@.len(),
        d < 4,
    ensures
        match board_of(*g).neighbor(k as int, d as int) {
            Some(n) => r == Some(n as usize) && 0 <= n < g.bytes@.len(),
            None => r is None,
        },
{
    let n = g.bytes.len();
    let w = g.width as usize;
    assert(w > 0) by (nonlinear_arith)
        requires
            k < n,
            n == g.width * g.height,
            g.width >= 0,
            g.height >= 0,
            w == g.width,
    ;
    proof {
        let q = k as int / w as int;
        let m = k as int % w as int;
        vstd::arithmetic::div_mod::lemma_fundamental_div_mod(k as int, w as int);
        vstd::arithmetic::div_mod::lemma_mod_bound(k as int, w as int);
        assert(m + 1 < w ==> k + 1 < n) by (nonlinear_arith)
            requires
                k == w * q + m,
                0 <= m < w,
                k < n,
                n == w * g.height,
        ;
        assert(m > 0 ==> k > 0);
    }
    if d == 0 {
        if k % w + 1 < w { Some(k + 1) } else { None }
    } else if d == 1 {
        if k + w < n { Some(k + w) } else { None }
    } else if d == 2 {
        if k % w > 0 { Some(k - 1) } else { None }
    } else {
        if k >= w { Some(k - w) } else { None }
    }
}

/// Whether orientation `o` of the tile at `k` is compatible with what lies in direction `d`.
pub fn port_fits(g: &PipeGrid, k: usize, o: &Orientation, d: usize) -> (r: bool)
    requires
        board_of(*g).shaped(),
        k < g.bytes@.len(),
        d < 4,
    ensures
        r == board_of(*g).port_ok(k as int, *o, d as int),
{
    let ghost b = board_of(*g);
    let p = o.connections[d];
    let opp = (d + 2) % 4;
    match neighbor_index(g, k, d) {
        None => p.is_none(),
        Some(n) => match &g.bytes[n] {
            None => p.is_none(),
            Some(t) => {
                assert(b.cells[n as int] == Some(t@));
                match p {
                    None => !(t.possible_orientations.len() == 1
                        && t.possible_orientations[0].connections[opp].is_some()),
                    Some(kind) => {
                        let len = t.possible_orientations.len();
                        let mut found = false;
                        for m in 0..len
                            invariant
                                len == t.possible_orientations@.len(),
                                opp == opposite(d as int),
                                found == exists|j: int|
                                    0 <= j < m && (#[trigger] t@.candidates[j]).connections@[opp as int]
                                        == Some(kind),
                        {
                            if same_port(t.possible_orientations[m].connections[opp], Some(kind)) {
                                found = true;
                            }
                        }
                        found
                    },
                }
            },
        },
    }
}

/// Whether orientation `o` of the tile at `k` survives propagation.
pub fn fits(g: &PipeGrid, k: usize, o: &Orientation) -> (r: bool)
    requires
        board_of(*g).shaped(),
        k < g.bytes@.len(),
    ensures
        r == board_of(*g).fits(k as int, *o),
{
    port_fits(g, k, o, 0) && port_fits(g, k, o, 1) && port_fits(g, k, o, 2) && port_fits(g, k, o, 3)
}

/// The orientations of `s` that fit at `k`, in their order.
pub fn keep_fitting(g: &PipeGrid, k: usize, s: &Vec<Orientation>) -> (r: Vec<Orientation>)
    requires
        board_of(*g).shaped(),
        k < g.bytes@.len(),
    ensures
        r@ == board_of(*g).keep_fitting(k as int, s@),
{
    let mut r: Vec<Orientation> = Vec::new();
    let n = s.len();
    for i in 0..n
        invariant
            n == s@.len(),
            board_of(*g).shaped(),
            k < g.bytes@.len(),
            r@ == board_of(*g).keep_fitting(k as int, s@.take(i as int)),
    {
        let o = s[i];
        assert(s@.take(i + 1).drop_last() =~= s@.take(i as int));
        if fits(g, k, &o) {
            r.push(o);
        }
    }
    assert(s@.take(n as int) =~= s@);
    r
}


/// One propagation pass over every cell in row-major order, each unlocked
/// tile narrowed against the grid as the pass has left it so far. Returns
/// whether any tile lost a candidate.
pub fn lock_grid(g: &mut PipeGrid) -> (r: bool)
    requires
        board_of(*old(g)).shaped(),
    ensures
        board_of(*final(g)) == board_of(*old(g)).sweep(),
        r == (board_of(*old(g)).sweep() != board_of(*old(g))),
        final(g).width == old(g).width,
        final(g).height == old(g).height,
{
    let ghost b0 = board_of(*g);
    let n = g.bytes.len();
    let mut changed = false;
    for k in 0..n
        invariant
            n == g.bytes@.len(),
            g.width == old(g).width,
            g.height == old(g).height,
            b0 == board_of(*old(g)),
            b0.shaped(),
            board_of(*g).shaped(),
            board_of(*g) == b0.sweep_upto(k as int),
            forall|j: int| k <= j < n ==> #[trigger] board_of(*g).cells[j] == b0.cells[j],
            changed == exists|j: int| 0 <= j < k && #[trigger] board_of(*g).cells[j] != b0.cells[j],
    {
        let ghost before = board_of(*g);
        assert(before.cells[k as int] == b0.cells[k as int]);
        let mut narrowed: Option<Pipe> = None;
        match &g.bytes[k] {
            Some(p) => {
                let len = p.possible_orientations.len();
                if len != 1 {
                    let v = keep_fitting(g, k, &p.possible_orientations);
                    proof {
                        lemma_keep_fitting(before, k as int, p.possible_orientations@);
                    }
                    if v.len() != len {
                        changed = true;
                    }
                    narrowed = Some(Pipe { original: p.original, possible_orientations: v });
                }
            },
            None => {},
        }
        let ghost unchanged = narrowed is None;
        if let Some(p) = narrowed {
            g.bytes[k] = Some(p);
        }
        proof {
            let after = board_of(*g);
            assert(after.cells =~= before.step(k as int).cells);
            assert(after == before.step(k as int));
            if after.cells[k as int] != b0.cells[k as int] {
                assert(exists|j: int| 0 <= j < k + 1 && #[trigger] board_of(*g).cells[j] != b0.cells[j]);
            }
            if changed {
                if exists|j: int| 0 <= j < k && #[trigger] before.cells[j] != b0.cells[j] {
                    let j = choose|j: int| 0 <= j < k && #[trigger] before.cells[j] != b0.cells[j];
                    assert(after.cells[j] == before.cells[j]);
                }
            } else {
                assert forall|j: int|
                    0 <= j < k + 1 implies #[trigger] after.cells[j] == b0.cells[j] by {
                    if j < k {
                        assert(after.cells[j] == before.cells[j]);
                    }
                }
            }
        }
    }
    proof {
        let fin = board_of(*g);
        if !changed {
            assert(fin.cells =~= b0.cells);
        }
    }
    changed
}


/// What a propagation run did: the rotation cost of the tiles it locked,
/// and whether it removed any candidate.
#[derive(Debug, Clone, Copy, PartialEq, Eq)]
pub struct Propagation {
    pub cost: u64,
    pub progress: bool,
}

/// Propagation emptied some tile's candidates: the grid has no solution.
#[derive(Debug, Clone, Copy, PartialEq, Eq)]
pub struct Infeasible;

/// Whether some tile has no candidate left.
pub fn has_dead_cell(g: &PipeGrid) -> (r: bool)
    ensures
        r == board_of(*g).has_dead_cell(),
{
    let n = g.bytes.len();
    for k in 0..n
        invariant
            n == g.bytes@.len(),
            forall|j: int|
                0 <= j < k ==> !((#[trigger] board_of(*g).cells[j]) is Some
                    && board_of(*g).cells[j]->0.candidates.len() == 0),
    {
        if let Some(p) = &g.bytes[k] {
            if p.possible_orientations.len() == 0 {
                assert(board_of(*g).cells[k as int] is Some);
                return true;
            }
        }
    }
    false
}

/// The rotation cost of all locked tiles.
pub fn locked_cost_of(g: &PipeGrid) -> (r: u64)
    requires
        board_of(*g).wf(),
    ensures
        r == locked_cost(board_of(*g).cells),
{
    let ghost cells = board_of(*g).cells;
    let n = g.bytes.len();
    let mut sum: u64 = 0;
    for k in 0..n
        invariant
            n == g.bytes@.len(),
            cells == board_of(*g).cells,
            board_of(*g).wf(),
            sum == locked_cost(cells.take(k as int)),
            sum <= 3 * k,
    {
        assert(cells.take(k + 1).drop_last() =~= cells.take(k as int));
        let ghost c = cells[k as int];
        if let Some(p) = &g.bytes[k] {
            if p.possible_orientations.len() == 1 {
                assert(c == Some(p@));
                assert(p@.wf());
                assert(crate::pipes::tile::is_turn_of(p.original@, p.possible_orientations@[0]));
                sum = sum + p.possible_orientations[0].rotations as u64;
            }
        }
        assert(locked_rotations(c) <= 3);
    }
    assert(cells.take(n as int) =~= cells);
    sum
}

/// Runs propagation passes until one changes nothing, stopping early when a
/// tile loses every candidate. On success the grid holds the fixed point,
/// and the result gives the rotation cost of the tiles locked on the way.
pub fn propagate(g: &mut PipeGrid) -> (r: Result<Propagation, Infeasible>)
    requires
        board_of(*old(g)).wf(),
    ensures
        final(g).width == old(g).width,
        final(g).height == old(g).height,
        board_of(*final(g)).wf(),
        match settle(board_of(*old(g))) {
            Some(c) => r matches Ok(p) && board_of(*final(g)) == c
                && p.progress == (c != board_of(*old(g)))
                && p.cost == locked_cost(c.cells) - locked_cost(board_of(*old(g)).cells),
            None => r is Err,
        },
{
    let ghost b0 = board_of(*g);
    let before = locked_cost_of(g);
    let mut any = false;
    proof {
        lemma_settle(b0);
        broadcast use vstd::seq::group_seq_axioms;
    }
    loop
        invariant
            g.width == old(g).width,
            g.height == old(g).height,
            b0 == board_of(*old(g)),
            b0.wf(),
            board_of(*g).wf(),
            board_of(*g).refines(b0),
            settle(board_of(*g)) == settle(b0),
            before == locked_cost(b0.cells),
            any == (board_of(*g) != b0),
            total(board_of(*g).cells) <= total(b0.cells),
        ensures
            settle(b0) == Some(board_of(*g)),
        decreases total(board_of(*g).cells),
    {
        let ghost cur = board_of(*g);
        let progress = lock_grid(g);
        proof {
            lemma_sweep(cur);
            crate::pipes::board::lemma_refines_trans(board_of(*g), cur, b0);
        }
        proof {
            assert(settle(cur) == if board_of(*g).has_dead_cell() {
                None
            } else if board_of(*g) == cur {
                Some(cur)
            } else {
                settle(board_of(*g))
            });
        }
        if has_dead_cell(g) {
            return Err(Infeasible);
        }
        if !progress {
            assert(settle(b0) == Some(board_of(*g)));
            break;
        }
        any = true;
    }
    proof {
        let c = board_of(*g);
        lemma_locked_cost(c.cells, b0.cells);
    }
    let after = locked_cost_of(g);
    Ok(Propagation { cost: after - before, progress: any })
}

} // verus!
