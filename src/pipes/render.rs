//! Drawing a grid back as text, for inspection.
use vstd::prelude::*;
use crate::pipes::board::{board_of, Board, PipeGrid};
use crate::pipes::glyph::{connections_to_char, glyph_of};
use crate::utils::text::push_char;
use crate::pipes::tile::TileState;

verus! {

/// How a cell is drawn: a space for empty space, `#` for a tile that is not
/// locked yet, else the glyph of its orientation.
pub open spec fn cell_char(c: Option<TileState>) -> char {
    match c {
        None => ' ',
        Some(t) => if t.candidates.len() == 1 {
            glyph_of(t.candidates[0].connections@)
        } else {
            '#'
        },
    }
}

/// The drawing of cells `0 .. k`: each row ends with a newline.
pub open spec fn drawn_upto(b: Board, k: int) -> Seq<char>
    decreases k,
{
    if k <= 0 {
        seq![]
    } else {
        let s = drawn_upto(b, k - 1).push(cell_char(b.cells[k - 1]));
        if k % b.width == 0 {
            s.push('\n')
        } else {
            s
        }
    }
}

/// Draws the grid row by row.
pub fn render(g: &PipeGrid) -> (r: String)
    requires
        board_of(*g).shaped(),
    ensures
        r@ == drawn_upto(board_of(*g), board_of(*g).cells.len() as int),
{
    let ghost b = board_of(*g);
    let n = g.bytes.len();
    let w = g.width as usize;
    let mut out = String::new();
    for k in 0..n
        invariant
            n == g.bytes@.len(),
            b == board_of(*g),
            b.shaped(),
            w == b.width,
            out@ == drawn_upto(b, k as int),
    {
        assert(w > 0) by (nonlinear_arith)
            requires
                k < n,
                n == b.width * b.height,
                b.width >= 0,
                b.height >= 0,
                w == b.width,
        ;
        let c = match &g.bytes[k] {
            None => ' ',
            Some(p) => if p.possible_orientations.len() == 1 {
                connections_to_char(&p.possible_orientations[0].connections)
            } else {
                '#'
            },
        };
        assert(c == cell_char(b.cells[k as int]));
        push_char(&mut out, c);
        if (k + 1) % w == 0 {
            push_char(&mut out, '\n');
        }
    }
    out
}

} // verus!
