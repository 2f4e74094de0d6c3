//! Reading a grid of glyphs and solving it: lock the source and the
//! destination, propagate, then search.
use vstd::prelude::*;
use crate::pipes::board::{
    board_of, cell_view, lemma_narrows_trans, lemma_settle_narrows, locked_cost, narrows, settle, Board,
    PipeGrid,
};
use crate::pipes::glyph::{get_connections, glyph_ports};
use crate::pipes::propagate::propagate;
use crate::pipes::search::{
    copy_grid, lemma_lock_narrows, lemma_search_sound, lock_cell, search, search_from,
};
use crate::utils::text::{chars_of, concat_rows, lemma_concat_rows_len, lines_of, rows, split_lines};
use crate::pipes::tile::{fresh_tile, Pipe, Ports, TileState};
use crate::utils::grid2d::Grid2D;

verus! {

/// Why a text is not a grid.
#[derive(Debug, Clone, Copy, PartialEq, Eq)]
pub enum GridError {
    /// The text has no line.
    Empty,
    /// Some line is not as long as the first.
    Ragged,
    /// The grid has more rows or cells than an `i32` can count.
    TooLarge,
}

/// The port array that a four-element port sequence describes.
pub open spec fn ports_array(s: Seq<Option<crate::pipes::tile::Connection>>) -> Ports {
    [s[0], s[1], s[2], s[3]]
}

/// The cell a character stands for: a fresh tile for a glyph with ports,
/// empty space for anything else.
pub open spec fn tile_of_char(c: char) -> Option<TileState> {
    let p = glyph_ports(c);
    if p[0] is Some || p[1] is Some || p[2] is Some || p[3] is Some {
        Some(fresh_tile(ports_array(p)))
    } else {
        None
    }
}

/// The cells that a row of characters stands for.
pub open spec fn tiles_of(s: Seq<char>) -> Seq<Option<TileState>> {
    s.map_values(|c: char| tile_of_char(c))
}

/// The cells that a list of optional tiles holds.
pub open spec fn cells_view(v: Seq<Option<Pipe>>) -> Seq<Option<TileState>> {
    v.map_values(|c: Option<Pipe>| cell_view(c))
}

/// The board a text describes, or why it describes none.
pub open spec fn parse_board(s: Seq<char>) -> Result<Board, GridError> {
    let ls = lines_of(s);
    if ls.len() == 0 {
        Err(GridError::Empty)
    } else if exists|i: int| 0 <= i < ls.len() && (#[trigger] ls[i]).len() != ls[0].len() {
        Err(GridError::Ragged)
    } else if ls.len() > i32::MAX || ls.len() * ls[0].len() > i32::MAX {
        Err(GridError::TooLarge)
    } else {
        Ok(
            Board {
                width: ls[0].len() as int,
                height: ls.len() as int,
                cells: tiles_of(concat_rows(ls)),
            },
        )
    }
}

/// The cell a character stands for.
pub fn tile_of(c: char) -> (r: Option<Pipe>)
    ensures
        cell_view(r) == tile_of_char(c),
        r matches Some(p) ==> p@.wf(),
{
    let p = get_connections(c);
    if p[0].is_some() || p[1].is_some() || p[2].is_some() || p[3].is_some() {
        proof {
            broadcast use vstd::array::group_array_axioms;
            assert(p =~= ports_array(glyph_ports(c)));
        }
        Some(Pipe::new(p))
    } else {
        None
    }
}

/// Reads a grid of glyphs: one row per line, every row as long as the
/// first; a character that is not a glyph with ports is empty space.
pub fn parse_string(input: &str) -> (r: Result<PipeGrid, GridError>)
    ensures
        match parse_board(input@) {
            Ok(b) => r matches Ok(g) && board_of(g) == b && b.wf(),
            Err(e) => r == Err::<PipeGrid, GridError>(e),
        },
{
    let chars = chars_of(input);
    let lines = split_lines(&chars);
    let ghost ls = lines_of(input@);
    assert(rows(lines@) == ls);
    let h = lines.len();
    assert(ls.len() == h);
    if h == 0 {
        return Err(GridError::Empty);
    }
    let w = lines[0].len();
    assert(ls[0] == lines@[0]@);
    for i in 0..h
        invariant
            h == lines@.len(),
            rows(lines@) == ls,
            ls == lines_of(input@),
            w == ls[0].len(),
            forall|j: int| 0 <= j < i ==> (#[trigger] ls[j]).len() == w,
    {
        assert(ls[i as int] == lines@[i as int]@);
        if lines[i].len() != w {
            assert(ls[i as int].len() != ls[0].len());
            assert(exists|j: int| 0 <= j < ls.len() && (#[trigger] ls[j]).len() != ls[0].len());
            assert(ls == lines_of(input@));
            assert(parse_board(input@) == Err::<Board, GridError>(GridError::Ragged));
            return Err(GridError::Ragged);
        }
    }
    assert(!exists|i: int| 0 <= i < ls.len() && (#[trigger] ls[i]).len() != ls[0].len());
    assert((h as int) * (w as int) < 0x1_0000_0000_0000_0000_0000_0000_0000_0000) by (nonlinear_arith)
        requires
            h < 0x1_0000_0000_0000_0000,
            w < 0x1_0000_0000_0000_0000,
    ;
    if h > 0x7fff_ffff || (h as u128) * (w as u128) > 0x7fff_ffff {
        return Err(GridError::TooLarge);
    }
    assert(ls.len() * ls[0].len() == (h as u128) * (w as u128));
    let mut cells: Vec<Option<Pipe>> = Vec::new();
    assert(cells_view(cells@) =~= tiles_of(concat_rows(ls.take(0))));
    for y in 0..h
        invariant
            h == lines@.len(),
            rows(lines@) == ls,
            ls == lines_of(input@),
            w == ls[0].len(),
            forall|j: int| 0 <= j < h ==> (#[trigger] ls[j]).len() == w,
            cells_view(cells@) == tiles_of(concat_rows(ls.take(y as int))),
            forall|j: int| 0 <= j < cells@.len() && (#[trigger] cells@[j]) is Some ==> cells@[j]->0@.wf(),
    {
        let line = &lines[y];
        assert(line@ == ls[y as int]);
        let ghost prefix = concat_rows(ls.take(y as int));
        assert(line@.take(0) =~= seq![]);
        assert(prefix + line@.take(0) =~= prefix);
        for x in 0..w
            invariant
                w == line@.len(),
                cells_view(cells@) == tiles_of(prefix + line@.take(x as int)),
                forall|j: int| 0 <= j < cells@.len() && (#[trigger] cells@[j]) is Some ==> cells@[j]->0@.wf(),
        {
            let t = tile_of(line[x]);
            let ghost before = cells@;
            cells.push(t);
            proof {
                assert(cells_view(cells@) =~= cells_view(before).push(cell_view(t)));
                assert(prefix + line@.take(x + 1)
                    =~= (prefix + line@.take(x as int)).push(line@[x as int]));
                assert(tiles_of(prefix + line@.take(x + 1))
                    =~= tiles_of(prefix + line@.take(x as int)).push(tile_of_char(line@[x as int])));
            }
        }
        proof {
            assert(line@.take(w as int) =~= line@);
            assert(ls.take(y + 1).drop_last() =~= ls.take(y as int));
            assert(ls.take(y + 1).last() == line@);
        }
    }
    proof {
        assert(ls.take(h as int) =~= ls);
        lemma_concat_rows_len(ls, w as int);
        assert(w <= 0x7fff_ffff) by (nonlinear_arith)
            requires
                h >= 1,
                (h as int) * (w as int) <= 0x7fff_ffff,
        ;
    }
    let g = Grid2D { width: w as i32, height: h as i32, bytes: cells };
    proof {
        let b = board_of(g);
        assert(b.cells =~= cells_view(g.bytes@));
        assert((h as int) * (w as int) == (w as int) * (h as int)) by (nonlinear_arith);
        assert(b.cells.len() == b.width * b.height);
        assert forall|k: int|
            0 <= k < b.cells.len() && (#[trigger] b.cells[k]) is Some implies b.cells[k]->0.wf() by {
            assert(g.bytes@[k] is Some);
        }
    }
    Ok(g)
}


impl Board {
    /// The board with the tile at `k` locked to its first candidate.
    pub open spec fn lock_first(self, k: int) -> Board {
        self.lock_to(k, self.cells[k]->0.candidates[0])
    }

    /// The source (first cell) and the destination (last cell) hold tiles
    /// with at least one candidate.
    pub open spec fn has_ends(self) -> bool {
        let n = self.cells.len();
        &&& n > 0
        &&& self.cells[0] matches Some(t) && t.candidates.len() > 0
        &&& self.cells[n - 1] matches Some(t) && t.candidates.len() > 0
    }
}

/// The answer for a board: lock the source and the destination in their
/// first orientation, propagate, and search; `None` when the ends are
/// missing, propagation finds the grid infeasible, or the search finds no
/// terminal state.
pub open spec fn solve_board(b: Board) -> Option<nat> {
    if !b.has_ends() {
        None
    } else {
        match settle(b.lock_first(0).lock_first(b.cells.len() - 1)) {
            Some(s) => search_from(s),
            None => None,
        }
    }
}

/// An answer for a board is the rotation cost of a terminal state that keeps
/// its tiles, each in one of the orientations it had.
pub proof fn lemma_solve_sound(b: Board)
    ensures
        solve_board(b) matches Some(c) ==> exists|t: Board|
            narrows(t, b) && t.is_solved() && c == locked_cost(t.cells),
{
    if b.has_ends() {
        let n = b.cells.len() - 1;
        let l1 = b.lock_first(0);
        let l2 = l1.lock_first(n);
        assert(b.cells[0]->0.candidates.contains(b.cells[0]->0.candidates[0]));
        lemma_lock_narrows(b, 0, b.cells[0]->0.candidates[0]);
        if n != 0 {
            assert(l1.cells[n] == b.cells[n]);
        }
        assert(l1.cells[n]->0.candidates.contains(l1.cells[n]->0.candidates[0]));
        lemma_lock_narrows(l1, n, l1.cells[n]->0.candidates[0]);
        lemma_narrows_trans(l2, l1, b);
        lemma_settle_narrows(l2);
        if let Some(s) = settle(l2) {
            lemma_narrows_trans(s, l2, b);
            lemma_search_sound(s);
            if let Some(c) = search_from(s) {
                let t = choose|t: Board| narrows(t, s) && t.is_solved() && c == locked_cost(t.cells);
                lemma_narrows_trans(t, s, b);
            }
        }
    }
}

proof fn lemma_lock_first_wf(b: Board, k: int)
    requires
        b.wf(),
        0 <= k < b.cells.len(),
        b.cells[k] matches Some(t) && t.candidates.len() > 0,
    ensures
        b.lock_first(k).wf(),
        b.lock_first(k).cells.len() == b.cells.len(),
        forall|j: int| 0 <= j < b.cells.len() && j != k ==> b.lock_first(k).cells[j] == b.cells[j],
        b.lock_first(k).cells[k] matches Some(t) && t.candidates.len() == 1,
{
    let l = b.lock_first(k);
    let t = b.cells[k]->0;
    assert(t.wf());
    assert(crate::pipes::tile::is_turn_of(t.original, t.candidates[0]));
    assert forall|j: int|
        0 <= j < l.cells.len() && (#[trigger] l.cells[j]) is Some implies l.cells[j]->0.wf() by {
        if j != k {
            assert(l.cells[j] == b.cells[j]);
        }
    }
}

/// Solves a grid: the least rotation count the search finds, or `None`.
pub fn solve(grid: &PipeGrid) -> (r: Option<u64>)
    requires
        board_of(*grid).wf(),
    ensures
        match solve_board(board_of(*grid)) {
            Some(c) => r == Some(c as u64),
            None => r is None,
        },
{
    let ghost b = board_of(*grid);
    let n = grid.bytes.len();
    if n == 0 {
        return None;
    }
    let first = match &grid.bytes[0] {
        Some(p) => {
            if p.possible_orientations.len() == 0 {
                assert(b.cells[0] == Some(p@));
                return None;
            }
            p.possible_orientations[0]
        },
        None => {
            assert(b.cells[0] is None);
            return None;
        },
    };
    let last = match &grid.bytes[n - 1] {
        Some(p) => {
            if p.possible_orientations.len() == 0 {
                assert(b.cells[n - 1] == Some(p@));
                return None;
            }
            p.possible_orientations[0]
        },
        None => {
            assert(b.cells[n - 1] is None);
            return None;
        },
    };
    assert(b.has_ends());
    let mut g = copy_grid(grid);
    lock_cell(&mut g, 0, first);
    proof {
        lemma_lock_first_wf(b, 0);
    }
    let ghost b1 = board_of(g);
    assert(b1 == b.lock_first(0));
    assert(g.bytes@[n - 1] is Some) by {
        if n - 1 != 0 {
            assert(b1.cells[n - 1] == b.cells[n - 1]);
        }
    }
    assert(b1.cells[n - 1] matches Some(t) && t.candidates[0] == last);
    lock_cell(&mut g, n - 1, last);
    proof {
        lemma_lock_first_wf(b1, n - 1);
    }
    assert(board_of(g) == b.lock_first(0).lock_first(n - 1));
    match propagate(&mut g) {
        Ok(_) => search(&g),
        Err(_) => None,
    }
}

/// Parses a grid of glyphs and solves it.
pub fn part_one(input: &str) -> (r: Option<u64>)
    ensures
        match parse_board(input@) {
            Ok(b) => match solve_board(b) {
                Some(c) => r == Some(c as u64),
                None => r is None,
            },
            Err(_) => r is None,
        },
{
    match parse_string(input) {
        Ok(g) => solve(&g),
        Err(_) => None,
    }
}

/// This puzzle has no second part.
pub fn part_two(input: &str) -> (r: Option<u64>)
    ensures
        r is None,
{
    None
}

} // verus!
