//! Rectangular grids stored row by row.
use vstd::prelude::*;
use crate::utils::text::{chars_of, concat_rows, lines_of, rows, split_lines};
use crate::utils::vector2d::Vector2D;

verus! {

/// A `width` × `height` grid whose cell (x, y) is `bytes[y * width + x]`.
#[derive(Clone, Debug, PartialEq, Eq, Hash)]
pub struct Grid2D<T> {
    pub width: i32,
    pub height: i32,
    pub bytes: Vec<T>,
}

/// The points among `ps` that lie on a `width` × `height` grid, in order.
pub open spec fn on_grid(ps: Seq<Vector2D>, width: int, height: int) -> Seq<Vector2D>
    decreases ps.len(),
{
    if ps.len() == 0 {
        ps
    } else {
        let r = on_grid(ps.drop_last(), width, height);
        let p = ps.last();
        if 0 <= p.x < width && 0 <= p.y < height {
            r.push(p)
        } else {
            r
        }
    }
}

/// The four orthogonal neighbours of `p`: right, down, left, up.
pub open spec fn around(p: Vector2D) -> Seq<Vector2D> {
    seq![
        Vector2D { x: (p.x + 1) as i32, y: p.y },
        Vector2D { x: p.x, y: (p.y + 1) as i32 },
        Vector2D { x: (p.x - 1) as i32, y: p.y },
        Vector2D { x: p.x, y: (p.y - 1) as i32 },
    ]
}

impl<T> Grid2D<T> {
    /// The dimensions are not negative and the cells fill the rectangle.
    pub open spec fn wf(&self) -> bool {
        &&& self.width >= 0
        &&& self.height >= 0
        &&& self.bytes@.len() == self.width * self.height
    }

    /// Whether `p` lies on the grid.
    pub open spec fn spec_contains(&self, p: Vector2D) -> bool {
        0 <= p.x < self.width && 0 <= p.y < self.height
    }

    /// Where cell `p` is stored.
    pub open spec fn spec_index_of(&self, p: Vector2D) -> int {
        p.y * self.width + p.x
    }

    /// Whether `p` lies on the grid.
    pub fn contains(&self, p: &Vector2D) -> (r: bool)
        ensures
            r == self.spec_contains(*p),
    {
        0 <= p.x && p.x < self.width && 0 <= p.y && p.y < self.height
    }

    /// Where cell `p` is stored.
    pub fn index_of(&self, p: &Vector2D) -> (r: usize)
        requires
            self.wf(),
            self.spec_contains(*p),
        ensures
            r == self.spec_index_of(*p),
            r < self.bytes@.len(),
    {
        let w = self.width as usize;
        let n = self.bytes.len();
        let ghost h = self.height as int;
        assert((p.y as int) * (w as int) + (p.x as int) < (w as int) * h) by (nonlinear_arith)
            requires
                0 <= p.y < h,
                0 <= p.x < w,
        ;
        assert(0 <= (p.y as int) * (w as int)) by (nonlinear_arith)
            requires
                0 <= p.y,
                0 <= w,
        ;
        assert(self.spec_index_of(*p) == (p.y as int) * (w as int) + (p.x as int)) by (nonlinear_arith)
            requires
                w == self.width,
        ;
        (p.y as usize) * w + (p.x as usize)
    }

    /// The cell at `p`.
    pub fn get(&self, p: &Vector2D) -> (r: &T)
        requires
            self.wf(),
            self.spec_contains(*p),
        ensures
            *r == self.bytes@[self.spec_index_of(*p)],
    {
        let i = self.index_of(p);
        &self.bytes[i]
    }

    /// Replaces the cell at `p`.
    pub fn set(&mut self, p: &Vector2D, v: T)
        requires
            old(self).wf(),
            old(self).spec_contains(*p),
        ensures
            final(self).width == old(self).width,
            final(self).height == old(self).height,
            final(self).bytes@ == old(self).bytes@.update(old(self).spec_index_of(*p), v),
    {
        let i = self.index_of(p);
        self.bytes[i] = v;
    }

    /// The cell next to `p` in direction `d` (0 right, 1 down, 2 left, 3 up),
    /// or `None` past the edge of the grid.
    pub fn neighbor_coord(&self, p: &Vector2D, d: usize) -> (r: Option<Vector2D>)
        requires
            self.spec_contains(*p),
            d < 4,
        ensures
            r == (if self.spec_contains(around(*p)[d as int]) {
                Some(around(*p)[d as int])
            } else {
                None
            }),
    {
        let q = if d == 0 {
            Vector2D::new(p.x + 1, p.y)
        } else if d == 1 {
            Vector2D::new(p.x, p.y + 1)
        } else if d == 2 {
            Vector2D::new(p.x - 1, p.y)
        } else {
            Vector2D::new(p.x, p.y - 1)
        };
        if self.contains(&q) {
            Some(q)
        } else {
            None
        }
    }

    /// The orthogonal neighbours of `point` that lie on the grid, in the
    /// order right, down, left, up.
    pub fn orthogonal_neighbors(&self, point: &Vector2D) -> (r: Vec<Vector2D>)
        requires
            i32::MIN < point.x < i32::MAX,
            i32::MIN < point.y < i32::MAX,
        ensures
            r@ == on_grid(around(*point), self.width as int, self.height as int),
    {
        let all = point.orthogonal_neighbors();
        let ghost ps = around(*point);
        assert(all@ == ps);
        let mut r: Vec<Vector2D> = Vec::new();
        for i in 0..4
            invariant
                all@ == ps,
                ps.len() == 4,
                r@ == on_grid(ps.take(i as int), self.width as int, self.height as int),
        {
            let p = all[i];
            assert(ps.take(i + 1).drop_last() =~= ps.take(i as int));
            if p.x >= 0 && p.y >= 0 && p.x < self.width && p.y < self.height {
                r.push(p);
            }
        }
        assert(ps.take(4) =~= ps);
        r
    }
}

impl Grid2D<char> {
    /// Reads a block of text: one row per line, as wide as the first line;
    /// the cells are all characters of all lines in order.
    pub fn parse(input: &str) -> (r: Self)
        requires
            lines_of(input@).len() > 0,
            lines_of(input@).len() <= i32::MAX,
            lines_of(input@)[0].len() <= i32::MAX,
        ensures
            r.width == lines_of(input@)[0].len(),
            r.height == lines_of(input@).len(),
            r.bytes@ == concat_rows(lines_of(input@)),
    {
        let chars = chars_of(input);
        let lines = split_lines(&chars);
        let ghost ls = lines_of(input@);
        assert(rows(lines@) == ls);
        let h = lines.len();
        assert(ls[0] == lines@[0]@);
        let w = lines[0].len();
        let mut bytes: Vec<char> = Vec::new();
        for y in 0..h
            invariant
                h == lines@.len(),
                rows(lines@) == ls,
                bytes@ == concat_rows(ls.take(y as int)),
        {
            let line = &lines[y];
            assert(line@ == ls[y as int]);
            let ghost before = bytes@;
            let n = line.len();
            for x in 0..n
                invariant
                    n == line@.len(),
                    bytes@ == before + line@.take(x as int),
            {
                bytes.push(line[x]);
                assert(before + line@.take(x + 1)
                    =~= (before + line@.take(x as int)).push(line@[x as int]));
            }
            assert(line@.take(n as int) =~= line@);
            assert(ls.take(y + 1).drop_last() =~= ls.take(y as int));
        }
        assert(ls.take(h as int) =~= ls);
        Grid2D { width: w as i32, height: h as i32, bytes }
    }
}

} // verus!
