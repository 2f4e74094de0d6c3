//! Box-drawing glyphs and the port sets they stand for.
use vstd::prelude::*;
use crate::pipes::tile::{same_ports, Connection, Ports};

verus! {

/// The ports that a glyph shows, in the order right, down, left, up; no
/// ports at all for a character that is not a recognised glyph.
pub open spec fn glyph_ports(c: char) -> Seq<Option<Connection>> {
    match c {
        '└' => seq![Some(Connection::Single), None, None, Some(Connection::Single)],
        '┘' => seq![None, None, Some(Connection::Single), Some(Connection::Single)],
        '─' => seq![Some(Connection::Single), None, Some(Connection::Single), None],
        '┐' => seq![None, Some(Connection::Single), Some(Connection::Single), None],
        '┌' => seq![Some(Connection::Single), Some(Connection::Single), None, None],
        '┬' => seq![Some(Connection::Single), Some(Connection::Single), Some(Connection::Single), None],
        '┤' => seq![None, Some(Connection::Single), Some(Connection::Single), Some(Connection::Single)],
        '┴' => seq![Some(Connection::Single), None, Some(Connection::Single), Some(Connection::Single)],
        '├' => seq![Some(Connection::Single), Some(Connection::Single), None, Some(Connection::Single)],
        '┼' => seq![Some(Connection::Single), Some(Connection::Single), Some(Connection::Single), Some(Connection::Single)],
        '│' => seq![None, Some(Connection::Single), None, Some(Connection::Single)],
        '═' => seq![Some(Connection::Double), None, Some(Connection::Double), None],
        '║' => seq![None, Some(Connection::Double), None, Some(Connection::Double)],
        '╒' => seq![Some(Connection::Double), Some(Connection::Single), None, None],
        '╓' => seq![Some(Connection::Single), Some(Connection::Double), None, None],
        '╔' => seq![Some(Connection::Double), Some(Connection::Double), None, None],
        '╕' => seq![None, Some(Connection::Single), Some(Connection::Double), None],
        '╖' => seq![None, Some(Connection::Double), Some(Connection::Single), None],
        '╗' => seq![None, Some(Connection::Double), Some(Connection::Double), None],
        '╘' => seq![Some(Connection::Double), None, None, Some(Connection::Single)],
        '╙' => seq![Some(Connection::Single), None, None, Some(Connection::Double)],
        '╚' => seq![Some(Connection::Double), None, None, Some(Connection::Double)],
        '╛' => seq![None, None, Some(Connection::Double), Some(Connection::Single)],
        '╜' => seq![None, None, Some(Connection::Single), Some(Connection::Double)],
        '╝' => seq![None, None, Some(Connection::Double), Some(Connection::Double)],
        '╞' => seq![Some(Connection::Double), Some(Connection::Single), None, Some(Connection::Single)],
        '╟' => seq![Some(Connection::Single), Some(Connection::Double), None, Some(Connection::Double)],
        '╠' => seq![Some(Connection::Double), Some(Connection::Double), None, Some(Connection::Double)],
        '╡' => seq![None, Some(Connection::Single), Some(Connection::Double), Some(Connection::Single)],
        '╢' => seq![None, Some(Connection::Double), Some(Connection::Single), Some(Connection::Double)],
        '╣' => seq![None, Some(Connection::Double), Some(Connection::Double), Some(Connection::Double)],
        '╤' => seq![Some(Connection::Double), Some(Connection::Single), Some(Connection::Double), None],
        '╥' => seq![Some(Connection::Single), Some(Connection::Double), Some(Connection::Single), None],
        '╦' => seq![Some(Connection::Double), Some(Connection::Double), Some(Connection::Double), None],
        '╧' => seq![Some(Connection::Double), None, Some(Connection::Double), Some(Connection::Single)],
        '╨' => seq![Some(Connection::Single), None, Some(Connection::Single), Some(Connection::Double)],
        '╩' => seq![Some(Connection::Double), None, Some(Connection::Double), Some(Connection::Double)],
        '╪' => seq![Some(Connection::Double), Some(Connection::Single), Some(Connection::Double), Some(Connection::Single)],
        '╫' => seq![Some(Connection::Single), Some(Connection::Double), Some(Connection::Single), Some(Connection::Double)],
        '╬' => seq![Some(Connection::Double), Some(Connection::Double), Some(Connection::Double), Some(Connection::Double)],
        _ => seq![None, None, None, None],
    }
}

/// The recognised glyphs, single-line ones first.
pub open spec fn glyph_list() -> Seq<char> {
    seq!['└', '┘', '─', '┐', '┌', '┬', '┤', '┴', '├', '┼', '│', '═', '║', '╒', '╓', '╔', '╕', '╖', '╗', '╘', '╙', '╚', '╛', '╜', '╝', '╞', '╟', '╠', '╡', '╢', '╣', '╤', '╥', '╦', '╧', '╨', '╩', '╪', '╫', '╬']
}

/// The first glyph from position `i` of the list that shows port set `p`,
/// or a space when none does.
pub open spec fn glyph_from(p: Seq<Option<Connection>>, i: int) -> char
    decreases glyph_list().len() - i,
{
    if i < 0 || i >= glyph_list().len() {
        ' '
    } else if glyph_ports(glyph_list()[i]) == p {
        glyph_list()[i]
    } else {
        glyph_from(p, i + 1)
    }
}

/// The glyph that shows port set `p`, or a space when no glyph does.
pub open spec fn glyph_of(p: Seq<Option<Connection>>) -> char {
    glyph_from(p, 0)
}

/// The ports of glyph `c`; none for any other character.
pub fn get_connections(c: char) -> (r: Ports)
    ensures
        r@ == glyph_ports(c),
{
    let r: Ports = match c {
        '└' => [Some(Connection::Single), None, None, Some(Connection::Single)],
        '┘' => [None, None, Some(Connection::Single), Some(Connection::Single)],
        '─' => [Some(Connection::Single), None, Some(Connection::Single), None],
        '┐' => [None, Some(Connection::Single), Some(Connection::Single), None],
        '┌' => [Some(Connection::Single), Some(Connection::Single), None, None],
        '┬' => [Some(Connection::Single), Some(Connection::Single), Some(Connection::Single), None],
        '┤' => [None, Some(Connection::Single), Some(Connection::Single), Some(Connection::Single)],
        '┴' => [Some(Connection::Single), None, Some(Connection::Single), Some(Connection::Single)],
        '├' => [Some(Connection::Single), Some(Connection::Single), None, Some(Connection::Single)],
        '┼' => [Some(Connection::Single), Some(Connection::Single), Some(Connection::Single), Some(Connection::Single)],
        '│' => [None, Some(Connection::Single), None, Some(Connection::Single)],
        '═' => [Some(Connection::Double), None, Some(Connection::Double), None],
        '║' => [None, Some(Connection::Double), None, Some(Connection::Double)],
        '╒' => [Some(Connection::Double), Some(Connection::Single), None, None],
        '╓' => [Some(Connection::Single), Some(Connection::Double), None, None],
        '╔' => [Some(Connection::Double), Some(Connection::Double), None, None],
        '╕' => [None, Some(Connection::Single), Some(Connection::Double), None],
        '╖' => [None, Some(Connection::Double), Some(Connection::Single), None],
        '╗' => [None, Some(Connection::Double), Some(Connection::Double), None],
        '╘' => [Some(Connection::Double), None, None, Some(Connection::Single)],
        '╙' => [Some(Connection::Single), None, None, Some(Connection::Double)],
        '╚' => [Some(Connection::Double), None, None, Some(Connection::Double)],
        '╛' => [None, None, Some(Connection::Double), Some(Connection::Single)],
        '╜' => [None, None, Some(Connection::Single), Some(Connection::Double)],
        '╝' => [None, None, Some(Connection::Double), Some(Connection::Double)],
        '╞' => [Some(Connection::Double), Some(Connection::Single), None, Some(Connection::Single)],
        '╟' => [Some(Connection::Single), Some(Connection::Double), None, Some(Connection::Double)],
        '╠' => [Some(Connection::Double), Some(Connection::Double), None, Some(Connection::Double)],
        '╡' => [None, Some(Connection::Single), Some(Connection::Double), Some(Connection::Single)],
        '╢' => [None, Some(Connection::Double), Some(Connection::Single), Some(Connection::Double)],
        '╣' => [None, Some(Connection::Double), Some(Connection::Double), Some(Connection::Double)],
        '╤' => [Some(Connection::Double), Some(Connection::Single), Some(Connection::Double), None],
        '╥' => [Some(Connection::Single), Some(Connection::Double), Some(Connection::Single), None],
        '╦' => [Some(Connection::Double), Some(Connection::Double), Some(Connection::Double), None],
        '╧' => [Some(Connection::Double), None, Some(Connection::Double), Some(Connection::Single)],
        '╨' => [Some(Connection::Single), None, Some(Connection::Single), Some(Connection::Double)],
        '╩' => [Some(Connection::Double), None, Some(Connection::Double), Some(Connection::Double)],
        '╪' => [Some(Connection::Double), Some(Connection::Single), Some(Connection::Double), Some(Connection::Single)],
        '╫' => [Some(Connection::Single), Some(Connection::Double), Some(Connection::Single), Some(Connection::Double)],
        '╬' => [Some(Connection::Double), Some(Connection::Double), Some(Connection::Double), Some(Connection::Double)],
        _ => [None, None, None, None],
    };
    assert(r@ =~= glyph_ports(c));
    r
}

/// The recognised glyphs, as listed by `glyph_list`.
pub fn glyph_chars() -> (r: Vec<char>)
    ensures
        r@ == glyph_list(),
{
    let r = vec!['└', '┘', '─', '┐', '┌', '┬', '┤', '┴', '├', '┼', '│', '═', '║', '╒', '╓', '╔', '╕', '╖', '╗', '╘', '╙', '╚', '╛', '╜', '╝', '╞', '╟', '╠', '╡', '╢', '╣', '╤', '╥', '╦', '╧', '╨', '╩', '╪', '╫', '╬'];
    assert(r@ =~= glyph_list());
    r
}

/// The glyph that shows port set `p`, or a space when no glyph does.
pub fn connections_to_char(p: &Ports) -> (r: char)
    ensures
        r == glyph_of(p@),
        (exists|i: int| 0 <= i < glyph_list().len() && glyph_ports(glyph_list()[i]) == p@)
            ==> glyph_list().contains(r) && glyph_ports(r) == p@,
        !(exists|i: int| 0 <= i < glyph_list().len() && glyph_ports(glyph_list()[i]) == p@)
            ==> r == ' ',
{
    let glyphs = glyph_chars();
    let n = glyphs.len();
    for i in 0..n
        invariant
            n == glyphs@.len(),
            glyphs@ == glyph_list(),
            forall|j: int| 0 <= j < i ==> glyph_ports(glyph_list()[j]) != p@,
            glyph_of(p@) == glyph_from(p@, i as int),
    {
        let c = glyphs[i];
        let q = get_connections(c);
        if same_ports(&q, p) {
            assert(glyph_list().contains(c)) by {
                assert(glyph_list()[i as int] == c);
            }
            return c;
        }
    }
    ' '
}

} // verus!
