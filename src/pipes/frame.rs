//! Turning the raw puzzle file into a plain grid of glyphs: decoding
//! code page 437 and removing the decorative frame.
use vstd::prelude::*;
use codepage_437::{FromCp437, CP437_CONTROL};
use crate::utils::text::{chars_of, lines_of, push_char, rows, split_lines};

verus! {

/// The text that code page 437 (with control characters) gives for some bytes.
pub uninterp spec fn cp437_text(b: Seq<u8>) -> Seq<char>;

/// Relies on `String::from_cp437` of codepage-437 with `CP437_CONTROL`:
/// one character per byte, ASCII bytes unchanged.
#[verifier::external_body]
fn decode_cp437(bytes: Vec<u8>) -> (r: String)
    ensures
        r@ == cp437_text(bytes@),
        r@.len() == bytes@.len(),
        forall|i: int| 0 <= i < bytes@.len() && bytes@[i] < 128 ==> r@[i] == bytes@[i] as char,
{
    String::from_cp437(bytes, &CP437_CONTROL)
}

/// Rows lose this many characters on each side of the frame.
pub const FRAME_SIDE: usize = 7;

/// A row without the frame's sides: empty when nothing is left between them.
pub open spec fn trim_row(l: Seq<char>) -> Seq<char> {
    if l.len() <= 2 * FRAME_SIDE {
        seq![]
    } else {
        l.subrange(FRAME_SIDE as int, l.len() - FRAME_SIDE)
    }
}

/// Rows joined with newlines between them.
pub open spec fn join_lines(ls: Seq<Seq<char>>) -> Seq<char>
    decreases ls.len(),
{
    if ls.len() == 0 {
        seq![]
    } else if ls.len() == 1 {
        ls[0]
    } else {
        join_lines(ls.drop_last()).push('\n') + ls.last()
    }
}

/// The text inside the frame: the first three and the last four lines
/// dropped, each remaining line trimmed on both sides.
pub open spec fn frame_removed(s: Seq<char>) -> Seq<char> {
    let ls = lines_of(s);
    join_lines(ls.subrange(3, ls.len() - 4).map_values(|l: Seq<char>| trim_row(l)))
}

/// Removes the decorative frame around the grid.
pub fn remove_frame(s: String) -> (r: String)
    requires
        lines_of(s@).len() >= 7,
    ensures
        r@ == frame_removed(s@),
{
    let chars = chars_of(s.as_str());
    let lines = split_lines(&chars);
    let ghost ls = lines_of(s@);
    let ghost kept = ls.subrange(3, ls.len() - 4).map_values(|l: Seq<char>| trim_row(l));
    let n = lines.len();
    let mut out = String::new();
    for i in 3..n - 4
        invariant
            n == ls.len(),
            n >= 7,
            rows(lines@) == ls,
            kept == ls.subrange(3, ls.len() - 4).map_values(|l: Seq<char>| trim_row(l)),
            out@ == join_lines(kept.take(i - 3)),
    {
        let line = &lines[i];
        assert(line@ == ls[i as int]);
        let ghost before = out@;
        if i > 3 {
            push_char(&mut out, '\n');
        }
        let len = line.len();
        if len > 2 * FRAME_SIDE {
            for j in FRAME_SIDE..len - FRAME_SIDE
                invariant
                    len == line@.len(),
                    len > 2 * FRAME_SIDE,
                    out@ == (if i > 3 { before.push('\n') } else { before }) + line@.subrange(FRAME_SIDE as int, j as int),
            {
                push_char(&mut out, line[j]);
                assert(line@.subrange(FRAME_SIDE as int, j + 1)
                    =~= line@.subrange(FRAME_SIDE as int, j as int).push(line@[j as int]));
            }
        }
        proof {
            let k = (i - 3) as int;
            assert(kept[k] == trim_row(ls[i as int]));
            assert(kept.take(k + 1).drop_last() =~= kept.take(k));
            assert(kept.take(k + 1).last() == kept[k]);
            if len > 2 * FRAME_SIDE {
                assert(line@.subrange(FRAME_SIDE as int, (len - FRAME_SIDE) as int) == trim_row(line@));
            } else {
                assert(trim_row(line@) =~= seq![]);
            }
            if k == 0 {
                assert(before =~= seq![]);
                assert(out@ =~= kept.take(1)[0]);
            } else {
                assert(out@ =~= join_lines(kept.take(k)).push('\n') + kept[k]);
            }
        }
    }
    assert(kept.take(n - 7) =~= kept);
    out
}

/// Decodes a framed puzzle file and removes its frame; `None` when the
/// text has fewer lines than the frame takes.
pub fn read_framed(bytes: Vec<u8>) -> (r: Option<String>)
    ensures
        lines_of(cp437_text(bytes@)).len() >= 7 ==> (r matches Some(t) && t@ == frame_removed(
            cp437_text(bytes@),
        )),
        lines_of(cp437_text(bytes@)).len() < 7 ==> r is None,
{
    let s = decode_cp437(bytes);
    let chars = chars_of(s.as_str());
    let lines = split_lines(&chars);
    assert(rows(lines@).len() == lines@.len());
    if lines.len() < 7 {
        return None;
    }
    Some(remove_frame(s))
}

} // verus!
