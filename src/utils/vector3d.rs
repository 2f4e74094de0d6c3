//! Integer vectors in space.
use vstd::prelude::*;
use crate::utils::vector2d::{abs, sign};

verus! {

/// A point or a displacement on an integer lattice.
#[derive(Copy, Clone, Debug, PartialEq, Eq, Hash, Structural)]
pub struct Vector3D {
    pub x: i32,
    pub y: i32,
    pub z: i32,
}

/// The six orthogonal neighbours of `p`: +x, +y, -x, -y, +z, -z.
pub open spec fn around3(p: Vector3D) -> Seq<Vector3D> {
    seq![
        Vector3D { x: (p.x + 1) as i32, y: p.y, z: p.z },
        Vector3D { x: p.x, y: (p.y + 1) as i32, z: p.z },
        Vector3D { x: (p.x - 1) as i32, y: p.y, z: p.z },
        Vector3D { x: p.x, y: (p.y - 1) as i32, z: p.z },
        Vector3D { x: p.x, y: p.y, z: (p.z + 1) as i32 },
        Vector3D { x: p.x, y: p.y, z: (p.z - 1) as i32 },
    ]
}

/// No coordinate of `p` is at the edge of the `i32` range.
pub open spec fn interior3(p: Vector3D) -> bool {
    &&& i32::MIN < p.x < i32::MAX
    &&& i32::MIN < p.y < i32::MAX
    &&& i32::MIN < p.z < i32::MAX
}

impl Vector3D {
    pub fn new(x: i32, y: i32, z: i32) -> (r: Self)
        ensures
            r.x == x,
            r.y == y,
            r.z == z,
    {
        Vector3D { x, y, z }
    }

    /// The six orthogonal neighbours.
    pub fn orthogonal_neighbors(self) -> (r: Vec<Self>)
        requires
            interior3(self),
        ensures
            r@ == around3(self),
    {
        let mut r: Vec<Self> = Vec::new();
        r.push(Vector3D::new(self.x + 1, self.y, self.z));
        r.push(Vector3D::new(self.x, self.y + 1, self.z));
        r.push(Vector3D::new(self.x - 1, self.y, self.z));
        r.push(Vector3D::new(self.x, self.y - 1, self.z));
        r.push(Vector3D::new(self.x, self.y, self.z + 1));
        r.push(Vector3D::new(self.x, self.y, self.z - 1));
        assert(r@ =~= around3(self));
        r
    }

    /// The taxicab distance to `other`.
    pub fn manhattan(self, other: &Self) -> (r: i32)
        requires
            abs(self.x - other.x) + abs(self.y - other.y) + abs(self.z - other.z) <= i32::MAX,
        ensures
            r == abs(self.x - other.x) + abs(self.y - other.y) + abs(self.z - other.z),
    {
        let dx: i64 = self.x as i64 - other.x as i64;
        let dy: i64 = self.y as i64 - other.y as i64;
        let dz: i64 = self.z as i64 - other.z as i64;
        let ax: i64 = if dx < 0 { -dx } else { dx };
        let ay: i64 = if dy < 0 { -dy } else { dy };
        let az: i64 = if dz < 0 { -dz } else { dz };
        (ax + ay + az) as i32
    }

    /// The sign of `self - other` in each coordinate.
    pub fn signum(self, other: Self) -> (r: Self)
        ensures
            r.x == sign(self.x - other.x),
            r.y == sign(self.y - other.y),
            r.z == sign(self.z - other.z),
    {
        let sx: i32 = if self.x > other.x { 1 } else if self.x < other.x { -1 } else { 0 };
        let sy: i32 = if self.y > other.y { 1 } else if self.y < other.y { -1 } else { 0 };
        let sz: i32 = if self.z > other.z { 1 } else if self.z < other.z { -1 } else { 0 };
        Vector3D::new(sx, sy, sz)
    }
}

/// Every vector of `vs` lies in the box from `lo` to `hi`.
pub open spec fn within3(vs: Seq<Vector3D>, lo: Vector3D, hi: Vector3D) -> bool {
    forall|i: int|
        0 <= i < vs.len() ==> {
            &&& lo.x <= (#[trigger] vs[i]).x <= hi.x
            &&& lo.y <= vs[i].y <= hi.y
            &&& lo.z <= vs[i].z <= hi.z
        }
}

/// Each side of the box from `lo` to `hi` is touched by some vector of `vs`.
pub open spec fn touched3(vs: Seq<Vector3D>, lo: Vector3D, hi: Vector3D) -> bool {
    &&& exists|i: int| 0 <= i < vs.len() && (#[trigger] vs[i]).x == lo.x
    &&& exists|i: int| 0 <= i < vs.len() && (#[trigger] vs[i]).x == hi.x
    &&& exists|i: int| 0 <= i < vs.len() && (#[trigger] vs[i]).y == lo.y
    &&& exists|i: int| 0 <= i < vs.len() && (#[trigger] vs[i]).y == hi.y
    &&& exists|i: int| 0 <= i < vs.len() && (#[trigger] vs[i]).z == lo.z
    &&& exists|i: int| 0 <= i < vs.len() && (#[trigger] vs[i]).z == hi.z
}

/// The box that no vector gives: from the largest corner to the smallest.
pub open spec fn empty_box3(lo: Vector3D, hi: Vector3D) -> bool {
    &&& lo.x == i32::MAX && lo.y == i32::MAX && lo.z == i32::MAX
    &&& hi.x == i32::MIN && hi.y == i32::MIN && hi.z == i32::MIN
}

/// The smallest and the largest coordinates among `vec`, as two corners;
/// all `i32::MAX` and all `i32::MIN` when there is none.
pub fn get_vector3d_vec_bounds(vec: &[Vector3D]) -> (r: (Vector3D, Vector3D))
    ensures
        within3(vec@, r.0, r.1),
        vec@.len() == 0 ==> empty_box3(r.0, r.1),
        vec@.len() > 0 ==> touched3(vec@, r.0, r.1),
{
    let mut lo = Vector3D::new(i32::MAX, i32::MAX, i32::MAX);
    let mut hi = Vector3D::new(i32::MIN, i32::MIN, i32::MIN);
    let n = vec.len();
    for k in 0..n
        invariant
            n == vec@.len(),
            within3(vec@.take(k as int), lo, hi),
            k == 0 ==> empty_box3(lo, hi),
            k > 0 ==> touched3(vec@.take(k as int), lo, hi),
    {
        let v = vec[k];
        if k == 0 || v.x < lo.x {
            lo.x = v.x;
        }
        if k == 0 || v.x > hi.x {
            hi.x = v.x;
        }
        if k == 0 || v.y < lo.y {
            lo.y = v.y;
        }
        if k == 0 || v.y > hi.y {
            hi.y = v.y;
        }
        if k == 0 || v.z < lo.z {
            lo.z = v.z;
        }
        if k == 0 || v.z > hi.z {
            hi.z = v.z;
        }
        proof {
            let t = vec@.take(k + 1);
            assert(t[k as int] == v);
            assert forall|i: int| 0 <= i < k implies t[i] == vec@.take(k as int)[i] by {}
        }
    }
    assert(vec@.take(n as int) =~= vec@);
    (lo, hi)
}

} // verus!
