//! Integer vectors in the plane.
use vstd::prelude::*;

verus! {

/// A point or a displacement on an integer grid; `y` grows downwards.
#[derive(Copy, Clone, Debug, PartialEq, Eq, Hash, Structural)]
pub struct Vector2D {
    pub x: i32,
    pub y: i32,
}

/// The sign of an integer: -1, 0 or 1.
pub open spec fn sign(a: int) -> int {
    if a > 0 {
        1
    } else if a < 0 {
        -1
    } else {
        0
    }
}

/// The absolute value of an integer.
pub open spec fn abs(a: int) -> int {
    if a < 0 {
        -a
    } else {
        a
    }
}

/// Rust's remainder: it takes the sign of `a`.
pub open spec fn trunc_rem(a: int, b: int) -> int {
    if a >= 0 {
        a % abs(b)
    } else {
        -((-a) % abs(b))
    }
}

impl Vector2D {
    pub fn new(x: i32, y: i32) -> (r: Self)
        ensures
            r.x == x,
            r.y == y,
    {
        Vector2D { x, y }
    }

    /// A quarter turn clockwise (with `y` downwards): (x, y) becomes (-y, x).
    pub fn clockwise(self) -> (r: Self)
        requires
            self.y != i32::MIN,
        ensures
            r.x == -self.y,
            r.y == self.x,
    {
        Vector2D::new(-self.y, self.x)
    }

    /// A quarter turn counter-clockwise: (x, y) becomes (y, -x).
    pub fn counter_clockwise(self) -> (r: Self)
        requires
            self.x != i32::MIN,
        ensures
            r.x == self.y,
            r.y == -self.x,
    {
        Vector2D::new(self.y, -self.x)
    }

    /// The four orthogonal neighbours: right, down, left, up.
    pub fn orthogonal_neighbors(self) -> (r: Vec<Self>)
        requires
            i32::MIN < self.x < i32::MAX,
            i32::MIN < self.y < i32::MAX,
        ensures
            r@ == seq![
                Vector2D { x: (self.x + 1) as i32, y: self.y },
                Vector2D { x: self.x, y: (self.y + 1) as i32 },
                Vector2D { x: (self.x - 1) as i32, y: self.y },
                Vector2D { x: self.x, y: (self.y - 1) as i32 },
            ],
    {
        let mut r: Vec<Self> = Vec::new();
        r.push(Vector2D::new(self.x + 1, self.y));
        r.push(Vector2D::new(self.x, self.y + 1));
        r.push(Vector2D::new(self.x - 1, self.y));
        r.push(Vector2D::new(self.x, self.y - 1));
        assert(r@ =~= seq![
            Vector2D { x: (self.x + 1) as i32, y: self.y },
            Vector2D { x: self.x, y: (self.y + 1) as i32 },
            Vector2D { x: (self.x - 1) as i32, y: self.y },
            Vector2D { x: self.x, y: (self.y - 1) as i32 },
        ]);
        r
    }

    /// The taxicab distance to `other`.
    pub fn manhattan(self, other: &Self) -> (r: i32)
        requires
            abs(self.x - other.x) + abs(self.y - other.y) <= i32::MAX,
        ensures
            r == abs(self.x - other.x) + abs(self.y - other.y),
    {
        let dx: i64 = self.x as i64 - other.x as i64;
        let dy: i64 = self.y as i64 - other.y as i64;
        let ax: i64 = if dx < 0 { -dx } else { dx };
        let ay: i64 = if dy < 0 { -dy } else { dy };
        (ax + ay) as i32
    }

    /// The sign of `self - other` in each coordinate.
    pub fn signum(self, other: Self) -> (r: Self)
        ensures
            r.x == sign(self.x - other.x),
            r.y == sign(self.y - other.y),
    {
        let sx: i32 = if self.x > other.x { 1 } else if self.x < other.x { -1 } else { 0 };
        let sy: i32 = if self.y > other.y { 1 } else if self.y < other.y { -1 } else { 0 };
        Vector2D::new(sx, sy)
    }

    /// Brings a point that is at most one size outside the box `0 .. size`
    /// back into it: `(x + size.x) % size.x` in each coordinate.
    pub fn wrap(self, size: &Self) -> (r: Self)
        requires
            size.x > 0,
            size.y > 0,
            self.x + size.x <= i32::MAX,
            self.y + size.y <= i32::MAX,
        ensures
            r.x == trunc_rem(self.x + size.x, size.x as int),
            r.y == trunc_rem(self.y + size.y, size.y as int),
    {
        Vector2D::new((self.x + size.x) % size.x, (self.y + size.y) % size.y)
    }
}

/// Every vector of `vs` lies in the box from `lo` to `hi`.
pub open spec fn within(vs: Seq<Vector2D>, lo: Vector2D, hi: Vector2D) -> bool {
    forall|i: int|
        0 <= i < vs.len() ==> lo.x <= (#[trigger] vs[i]).x <= hi.x && lo.y <= vs[i].y <= hi.y
}

/// Each side of the box from `lo` to `hi` is touched by some vector of `vs`.
pub open spec fn touched(vs: Seq<Vector2D>, lo: Vector2D, hi: Vector2D) -> bool {
    &&& exists|i: int| 0 <= i < vs.len() && (#[trigger] vs[i]).x == lo.x
    &&& exists|i: int| 0 <= i < vs.len() && (#[trigger] vs[i]).x == hi.x
    &&& exists|i: int| 0 <= i < vs.len() && (#[trigger] vs[i]).y == lo.y
    &&& exists|i: int| 0 <= i < vs.len() && (#[trigger] vs[i]).y == hi.y
}

/// The box that no vector gives: from the largest corner to the smallest.
pub open spec fn empty_box(lo: Vector2D, hi: Vector2D) -> bool {
    lo.x == i32::MAX && lo.y == i32::MAX && hi.x == i32::MIN && hi.y == i32::MIN
}

/// The smallest and the largest coordinates among `vecs`, as two corners;
/// `(i32::MAX, i32::MAX)` and `(i32::MIN, i32::MIN)` when there is none.
pub fn get_vector2d_vec_bounds(vecs: &[Vector2D]) -> (r: (Vector2D, Vector2D))
    ensures
        within(vecs@, r.0, r.1),
        vecs@.len() == 0 ==> empty_box(r.0, r.1),
        vecs@.len() > 0 ==> touched(vecs@, r.0, r.1),
{
    let mut x_min = i32::MAX;
    let mut x_max = i32::MIN;
    let mut y_min = i32::MAX;
    let mut y_max = i32::MIN;
    let n = vecs.len();
    for k in 0..n
        invariant
            n == vecs@.len(),
            within(vecs@.take(k as int), (Vector2D { x: x_min, y: y_min }), (Vector2D { x: x_max, y: y_max })),
            k == 0 ==> empty_box((Vector2D { x: x_min, y: y_min }), (Vector2D { x: x_max, y: y_max })),
            k > 0 ==> touched(vecs@.take(k as int), (Vector2D { x: x_min, y: y_min }), (Vector2D { x: x_max, y: y_max })),
    {
        let v = vecs[k];
        if k == 0 || v.x < x_min {
            x_min = v.x;
        }
        if k == 0 || v.x > x_max {
            x_max = v.x;
        }
        if k == 0 || v.y < y_min {
            y_min = v.y;
        }
        if k == 0 || v.y > y_max {
            y_max = v.y;
        }
        proof {
            let t = vecs@.take(k + 1);
            assert(t[k as int] == v);
            assert forall|i: int| 0 <= i < k implies t[i] == vecs@.take(k as int)[i] by {}
        }
    }
    assert(vecs@.take(n as int) =~= vecs@);
    (Vector2D::new(x_min, y_min), Vector2D::new(x_max, y_max))
}

} // verus!
