//! Half-open integer ranges `[start, end)`.
use vstd::prelude::*;

verus! {

/// The integers from `start` up to, but not including, `end`.
#[derive(Debug, Clone, Copy, PartialEq, Eq, Structural)]
pub struct Range {
    pub start: i32,
    pub end: i32,
}

/// The smaller of two integers.
pub open spec fn min(a: int, b: int) -> int {
    if a <= b {
        a
    } else {
        b
    }
}

/// The larger of two integers.
pub open spec fn max(a: int, b: int) -> int {
    if a >= b {
        a
    } else {
        b
    }
}

impl Range {
    /// Whether the two ranges share a point (ranges without points share none).
    pub open spec fn spec_overlap(self, other: Range) -> bool {
        !(other.end <= self.start || self.end <= other.start)
    }

    /// Whether `p` lies in the range.
    pub open spec fn covers(self, p: int) -> bool {
        self.start <= p < self.end
    }

    pub fn new(start: i32, end: i32) -> (r: Self)
        ensures
            r.start == start,
            r.end == end,
    {
        Range { start, end }
    }

    /// The common part of two overlapping ranges, as `(start, end)`.
    pub fn intersect(&self, other: &Range) -> (r: Option<(i32, i32)>)
        ensures
            !self.spec_overlap(*other) ==> r is None,
            self.spec_overlap(*other) ==> r == Some(
                (max(self.start as int, other.start as int) as i32, min(self.end as int, other.end as int) as i32),
            ),
    {
        if other.end <= self.start || self.end <= other.start {
            return None;
        }
        let start = if self.start >= other.start { self.start } else { other.start };
        let end = if self.end <= other.end { self.end } else { other.end };
        Some((start, end))
    }

    /// Both ranges as one when they overlap, else both unchanged.
    pub fn union(&self, other: &Range) -> (r: Vec<Range>)
        ensures
            self.spec_overlap(*other) ==> r@ == seq![
                Range::spec_new(min(self.start as int, other.start as int), max(self.end as int, other.end as int)),
            ],
            !self.spec_overlap(*other) ==> r@ == seq![*self, *other],
    {
        let mut r: Vec<Range> = Vec::new();
        if self.overlap(other) {
            let start = if self.start <= other.start { self.start } else { other.start };
            let end = if self.end >= other.end { self.end } else { other.end };
            r.push(Range { start, end });
        } else {
            r.push(*self);
            r.push(*other);
        }
        assert(r@ =~= (if self.spec_overlap(*other) {
            seq![Range::spec_new(min(self.start as int, other.start as int), max(self.end as int, other.end as int))]
        } else {
            seq![*self, *other]
        }));
        r
    }

    /// The range from `start` to `end`, for two values known to be `i32`s.
    pub open spec fn spec_new(start: int, end: int) -> Range {
        Range { start: start as i32, end: end as i32 }
    }

    /// Whether the two ranges share a point.
    pub fn overlap(&self, other: &Range) -> (r: bool)
        ensures
            r == self.spec_overlap(*other),
    {
        if other.end <= self.start || self.end <= other.start {
            return false;
        }
        true
    }
}


/// Some range of `rs` holds `p`.
pub open spec fn covered(rs: Seq<Range>, p: int) -> bool {
    exists|i: int| 0 <= i < rs.len() && (#[trigger] rs[i]).covers(p)
}

/// Every range of `rs` holds at least one point.
pub open spec fn all_nonempty(rs: Seq<Range>) -> bool {
    forall|i: int| 0 <= i < rs.len() ==> (#[trigger] rs[i]).start < rs[i].end
}

/// The ranges come in order, each ending strictly before the next begins.
pub open spec fn apart(rs: Seq<Range>) -> bool {
    forall|i: int| 0 <= i < rs.len() - 1 ==> (#[trigger] rs[i]).end < rs[i + 1].start
}

/// The ranges are ordered by their starts.
pub open spec fn by_start(rs: Seq<Range>) -> bool {
    forall|i: int, j: int| 0 <= i <= j < rs.len() ==> (#[trigger] rs[i]).start <= (#[trigger] rs[j]).start
}

/// A point is covered after a push exactly when it was covered before or
/// the new range holds it.
pub proof fn lemma_covered_push(rs: Seq<Range>, r: Range, p: int)
    ensures
        covered(rs.push(r), p) == (covered(rs, p) || r.covers(p)),
{
    let t = rs.push(r);
    if covered(t, p) {
        let a = choose|a: int| 0 <= a < t.len() && (#[trigger] t[a]).covers(p);
        if a < rs.len() {
            assert(rs[a] == t[a]);
        }
    }
    if covered(rs, p) {
        let a = choose|a: int| 0 <= a < rs.len() && (#[trigger] rs[a]).covers(p);
        assert(t[a] == rs[a]);
    }
    if r.covers(p) {
        assert(t[rs.len() as int] == r);
    }
}

/// The ranges of `ranges`, ordered by their starts.
fn sorted_by_start(ranges: &Vec<Range>) -> (r: Vec<Range>)
    requires
        all_nonempty(ranges@),
    ensures
        r@.len() == ranges@.len(),
        by_start(r@),
        all_nonempty(r@),
        forall|p: int| covered(r@, p) == covered(ranges@, p),
{
    let mut sorted: Vec<Range> = Vec::new();
    let n = ranges.len();
    for i in 0..n
        invariant
            n == ranges@.len(),
            sorted@.len() == i,
            all_nonempty(ranges@),
            by_start(sorted@),
            all_nonempty(sorted@),
            forall|p: int| covered(sorted@, p) == covered(ranges@.take(i as int), p),
    {
        let r = ranges[i];
        let mut pos: usize = 0;
        while pos < sorted.len() && sorted[pos].start <= r.start
            invariant
                pos <= sorted@.len(),
                forall|j: int| 0 <= j < pos ==> (#[trigger] sorted@[j]).start <= r.start,
            decreases sorted@.len() - pos,
        {
            pos = pos + 1;
        }
        let ghost before = sorted@;
        sorted.insert(pos, r);
        proof {
            let after = sorted@;
            assert(after =~= before.insert(pos as int, r));
            assert(after[pos as int] == r);
            assert(forall|j: int| 0 <= j < pos ==> after[j] == before[j]);
            assert(forall|j: int| pos < j < after.len() ==> after[j] == before[j - 1]);
            assert(pos < before.len() ==> before[pos as int].start > r.start);
            assert forall|a: int, b: int|
                0 <= a <= b < after.len() implies (#[trigger] after[a]).start <= (#[trigger] after[b]).start by {
                if a < pos && b > pos {
                    assert(after[a] == before[a] && after[b] == before[b - 1]);
                } else if a == pos && b > pos {
                    assert(after[b] == before[b - 1]);
                    assert(before[pos as int].start <= before[b - 1].start);
                } else if a > pos {
                    assert(after[a] == before[a - 1] && after[b] == before[b - 1]);
                }
            }
            assert(all_nonempty(after)) by {
                assert forall|a: int|
                    0 <= a < after.len() implies (#[trigger] after[a]).start < after[a].end by {
                    if a < pos {
                        assert(after[a] == before[a]);
                    } else if a > pos {
                        assert(after[a] == before[a - 1]);
                    }
                }
            }
            let t = ranges@.take(i + 1);
            assert(t =~= ranges@.take(i as int).push(r));
            assert forall|p: int| covered(after, p) == covered(t, p) by {
                lemma_covered_push(ranges@.take(i as int), r, p);
                if covered(after, p) {
                    let a = choose|a: int| 0 <= a < after.len() && (#[trigger] after[a]).covers(p);
                    if a < pos {
                        assert(after[a] == before[a]);
                    } else if a > pos {
                        assert(after[a] == before[a - 1]);
                    }
                }
                if covered(before, p) {
                    let b = choose|b: int| 0 <= b < before.len() && (#[trigger] before[b]).covers(p);
                    if b < pos {
                        assert(after[b] == before[b]);
                    } else {
                        assert(after[b + 1] == before[b]);
                    }
                }
            }
        }
    }
    assert(ranges@.take(n as int) =~= ranges@);
    sorted
}

/// The points of `ranges` as the fewest ranges: ordered, apart from one
/// another, and each holding a point.
pub fn union_vec(ranges: &Vec<Range>) -> (r: Vec<Range>)
    requires
        all_nonempty(ranges@),
    ensures
        all_nonempty(r@),
        apart(r@),
        forall|p: int| covered(r@, p) == covered(ranges@, p),
{
    let mut result: Vec<Range> = Vec::new();
    if ranges.len() == 0 {
        return result;
    }
    let sorted = sorted_by_start(ranges);
    let n = sorted.len();
    let mut current = sorted[0];
    proof {
        assert(sorted@.take(1) =~= seq![].push(current));
        assert(result@.push(current) =~= seq![].push(current));
    }
    for i in 1..n
        invariant
            n == sorted@.len(),
            n >= 1,
            by_start(sorted@),
            all_nonempty(sorted@),
            all_nonempty(result@),
            apart(result@.push(current)),
            current.start < current.end,
            forall|j: int| i <= j < n ==> current.start <= (#[trigger] sorted@[j]).start,
            forall|p: int| covered(result@.push(current), p) == covered(sorted@.take(i as int), p),
    {
        let range = sorted[i];
        let ghost old_all = result@.push(current);
        let ghost prefix = sorted@.take(i as int);
        let ghost prev = current;
        assert(sorted@.take(i + 1) =~= prefix.push(range));
        assert(range.start < range.end);
        if current.end >= range.start {
            if range.end > current.end {
                current.end = range.end;
            }
            proof {
                let now = result@.push(current);
                assert forall|k: int|
                    0 <= k < now.len() - 1 implies (#[trigger] now[k]).end < now[k + 1].start by {
                    assert(now[k] == old_all[k]);
                    if k + 1 < now.len() - 1 {
                        assert(now[k + 1] == old_all[k + 1]);
                    } else {
                        assert(old_all[k + 1] == prev);
                    }
                }
                assert forall|p: int| covered(now, p) == covered(prefix.push(range), p) by {
                    lemma_covered_push(result@, current, p);
                    lemma_covered_push(result@, prev, p);
                    lemma_covered_push(prefix, range, p);
                }
            }
        } else {
            result.push(current);
            current = range;
            proof {
                let now = result@.push(current);
                assert(now =~= old_all.push(range));
                assert forall|k: int|
                    0 <= k < now.len() - 1 implies (#[trigger] now[k]).end < now[k + 1].start by {
                    if k < old_all.len() - 1 {
                        assert(now[k] == old_all[k] && now[k + 1] == old_all[k + 1]);
                    }
                }
                assert forall|k: int|
                    0 <= k < result@.len() implies (#[trigger] result@[k]).start < result@[k].end by {
                    assert(result@[k] == old_all[k]);
                }
                assert forall|p: int| covered(now, p) == covered(prefix.push(range), p) by {
                    lemma_covered_push(old_all, range, p);
                    lemma_covered_push(prefix, range, p);
                }
            }
        }
    }
    let ghost fin = result@.push(current);
    result.push(current);
    assert(result@ == fin);
    assert(sorted@.take(n as int) =~= sorted@);
    result
}
/// The points of both lists as the fewest ranges, as `union_vec` gives them.
pub fn union_vecs(a: &Vec<Range>, b: &Vec<Range>) -> (r: Vec<Range>)
    requires
        all_nonempty(a@),
        all_nonempty(b@),
    ensures
        all_nonempty(r@),
        apart(r@),
        forall|p: int| covered(r@, p) == (covered(a@, p) || covered(b@, p)),
{
    let mut ranges: Vec<Range> = Vec::new();
    let n = a.len();
    for i in 0..n
        invariant
            n == a@.len(),
            ranges@ == a@.take(i as int),
    {
        ranges.push(a[i]);
        assert(ranges@ =~= a@.take(i + 1));
    }
    let m = b.len();
    for j in 0..m
        invariant
            n == a@.len(),
            m == b@.len(),
            ranges@ == a@ + b@.take(j as int),
    {
        ranges.push(b[j]);
        assert(ranges@ =~= a@ + b@.take(j + 1));
    }
    assert(a@.take(n as int) =~= a@);
    assert(b@.take(m as int) =~= b@);
    let ghost all = a@ + b@;
    assert(ranges@ == all);
    assert forall|i: int| 0 <= i < all.len() implies (#[trigger] all[i]).start < all[i].end by {
        if i < a@.len() {
            assert(all[i] == a@[i]);
        } else {
            assert(all[i] == b@[i - a@.len()]);
        }
    }
    assert forall|p: int| covered(all, p) == (covered(a@, p) || covered(b@, p)) by {
        if covered(all, p) {
            let c = choose|c: int| 0 <= c < all.len() && (#[trigger] all[c]).covers(p);
            if c < a@.len() {
                assert(all[c] == a@[c]);
            } else {
                assert(all[c] == b@[c - a@.len()]);
            }
        }
        if covered(a@, p) {
            let c = choose|c: int| 0 <= c < a@.len() && (#[trigger] a@[c]).covers(p);
            assert(all[c] == a@[c]);
        }
        if covered(b@, p) {
            let c = choose|c: int| 0 <= c < b@.len() && (#[trigger] b@[c]).covers(p);
            assert(all[c + a@.len()] == b@[c]);
        }
    }
    union_vec(&ranges)
}

} // verus!
