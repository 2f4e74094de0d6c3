//! Splitting text into lines of characters.
use vstd::prelude::*;

verus! {

/// Where the line that starts at `i` ends: the first newline at or after
/// `i`, or the end of the text.
pub open spec fn line_end(s: Seq<char>, i: int) -> int
    decreases s.len() - i,
{
    if i >= s.len() || s[i] == '\n' {
        i
    } else {
        line_end(s, i + 1)
    }
}

/// A line without the carriage return that ended it, if any.
pub open spec fn strip_cr(l: Seq<char>) -> Seq<char> {
    if l.len() > 0 && l.last() == '\r' {
        l.drop_last()
    } else {
        l
    }
}

pub proof fn lemma_line_end(s: Seq<char>, i: int)
    requires
        0 <= i,
    ensures
        i <= line_end(s, i),
        i <= s.len() ==> line_end(s, i) <= s.len(),
        line_end(s, i) < s.len() ==> s[line_end(s, i)] == '\n',
        forall|j: int| i <= j < line_end(s, i) ==> s[j] != '\n',
    decreases s.len() - i,
{
    if !(i >= s.len() || s[i] == '\n') {
        lemma_line_end(s, i + 1);
    }
}

/// The lines of a text: split at each newline, a carriage return before
/// it dropped, and no empty line after a final newline.
pub open spec fn lines_of(s: Seq<char>) -> Seq<Seq<char>>
    decreases s.len(),
{
    if s.len() == 0 {
        seq![]
    } else {
        let e = line_end(s, 0);
        proof {
            lemma_line_end(s, 0);
        }
        if e >= s.len() {
            seq![strip_cr(s)]
        } else {
            seq![strip_cr(s.take(e))] + lines_of(s.skip(e + 1))
        }
    }
}

/// Relies on `String::push`: appends one character.
#[verifier::external_body]
pub(crate) fn push_char(s: &mut String, c: char)
    ensures
        final(s)@ == old(s)@.push(c),
{
    s.push(c)
}

/// The characters of a string slice.
pub fn chars_of(s: &str) -> (r: Vec<char>)
    ensures
        r@ == s@,
{
    let mut r: Vec<char> = Vec::new();
    for c in it: s.chars()
        invariant
            r@ == it.seq().take(it.index() as int),
            it.seq() == s@,
    {
        r.push(c);
    }
    r
}


proof fn lemma_line_end_at(t: Seq<char>, i: int, e: int)
    requires
        0 <= i <= e <= t.len(),
        forall|j: int| i <= j < e ==> t[j] != '\n',
        e == t.len() || t[e] == '\n',
    ensures
        line_end(t, i) == e,
    decreases e - i,
{
    if i < e {
        lemma_line_end_at(t, i + 1, e);
    }
}

/// The contents of a list of lines.
pub open spec fn rows(r: Seq<Vec<char>>) -> Seq<Seq<char>> {
    r.map_values(|l: Vec<char>| l@)
}

/// Splits text into its lines, as `lines_of` describes.
pub fn split_lines(s: &Vec<char>) -> (r: Vec<Vec<char>>)
    ensures
        rows(r@) == lines_of(s@),
{
    let ghost t = s@;
    let n = s.len();
    let mut r: Vec<Vec<char>> = Vec::new();
    let mut cur: Vec<char> = Vec::new();
    let mut start: usize = 0;
    assert(rows(r@) =~= seq![]);
    assert(t.skip(0) =~= t);
    for i in 0..n
        invariant
            n == t.len(),
            t == s@,
            start <= i,
            rows(r@) + lines_of(t.skip(start as int)) == lines_of(t),
            cur@ == t.subrange(start as int, i as int),
            forall|j: int| start <= j < i ==> t[j] != '\n',
    {
        let c = s[i];
        if c == '\n' {
            let ghost u = t.skip(start as int);
            let ghost e = i - start;
            proof {
                lemma_line_end_at(u, 0, e);
                assert(u.take(e) =~= cur@);
                assert(u.skip(e + 1) =~= t.skip(i + 1));
                assert(lines_of(u) == seq![strip_cr(cur@)] + lines_of(t.skip(i + 1)));
            }
            let ghost before = r@;
            if cur.len() > 0 && cur[cur.len() - 1] == '\r' {
                cur.pop();
            }
            assert(cur@ == strip_cr(t.subrange(start as int, i as int)));
            r.push(cur);
            assert(rows(r@) =~= rows(before).push(strip_cr(t.subrange(start as int, i as int))));
            assert(rows(r@) + lines_of(t.skip(i + 1))
                =~= rows(before) + (seq![strip_cr(t.subrange(start as int, i as int))] + lines_of(t.skip(i + 1))));
            cur = Vec::new();
            start = i + 1;
            assert(cur@ =~= t.subrange(start as int, (i + 1) as int));
        } else {
            cur.push(c);
            assert(cur@ =~= t.subrange(start as int, (i + 1) as int));
        }
    }
    if start < n {
        let ghost u = t.skip(start as int);
        proof {
            lemma_line_end_at(u, 0, u.len() as int);
            assert(u =~= cur@);
        }
        let ghost before = r@;
        if cur.len() > 0 && cur[cur.len() - 1] == '\r' {
            cur.pop();
        }
        r.push(cur);
        assert(rows(r@) =~= rows(before).push(strip_cr(u)));
        assert(rows(r@) =~= rows(before) + lines_of(u));
    } else {
        assert(t.skip(start as int).len() == 0);
        assert(rows(r@) =~= rows(r@) + lines_of(t.skip(start as int)));
    }
    r
}

/// The characters of all rows, one row after another.
pub open spec fn concat_rows(ls: Seq<Seq<char>>) -> Seq<char>
    decreases ls.len(),
{
    if ls.len() == 0 {
        seq![]
    } else {
        concat_rows(ls.drop_last()) + ls.last()
    }
}

pub proof fn lemma_concat_rows_len(ls: Seq<Seq<char>>, w: int)
    requires
        forall|i: int| 0 <= i < ls.len() ==> (#[trigger] ls[i]).len() == w,
    ensures
        concat_rows(ls).len() == ls.len() * w,
    decreases ls.len(),
{
    if ls.len() > 0 {
        let l0 = ls.drop_last();
        assert forall|i: int| 0 <= i < l0.len() implies (#[trigger] l0[i]).len() == w by {
            assert(l0[i] == ls[i]);
        }
        lemma_concat_rows_len(l0, w);
        assert(ls.len() * w == l0.len() * w + w) by (nonlinear_arith)
            requires
                ls.len() == l0.len() + 1,
        ;
    }
}

} // verus!
