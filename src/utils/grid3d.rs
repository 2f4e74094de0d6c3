//! Boxes of cells stored layer by layer.
use vstd::prelude::*;
use crate::utils::vector3d::{around3, interior3, Vector3D};

verus! {

/// A `width` × `height` × `depth` box whose cell (x, y, z) is
/// `bytes[x + width * y + width * height * z]`.
#[derive(Clone, Debug, PartialEq, Eq, Hash)]
pub struct Grid3D<T> {
    pub width: i32,
    pub height: i32,
    pub depth: i32,
    pub bytes: Vec<T>,
}

/// The points among `ps` that lie in a `w` × `h` × `d` box, in order.
pub open spec fn in_box(ps: Seq<Vector3D>, w: int, h: int, d: int) -> Seq<Vector3D>
    decreases ps.len(),
{
    if ps.len() == 0 {
        ps
    } else {
        let r = in_box(ps.drop_last(), w, h, d);
        let p = ps.last();
        if 0 <= p.x < w && 0 <= p.y < h && 0 <= p.z < d {
            r.push(p)
        } else {
            r
        }
    }
}

impl Grid3D<bool> {
    /// A box with every cell `false`.
    pub fn new(width: i32, height: i32, depth: i32) -> (r: Self)
        requires
            width >= 0,
            height >= 0,
            depth >= 0,
            width * height <= i32::MAX,
            width * height * depth <= i32::MAX,
        ensures
            r.width == width,
            r.height == height,
            r.depth == depth,
            r.bytes@.len() == width * height * depth,
            forall|i: int| 0 <= i < r.bytes@.len() ==> !(#[trigger] r.bytes@[i]),
    {
        assert(0 <= width * height * depth) by (nonlinear_arith)
            requires
                width >= 0,
                height >= 0,
                depth >= 0,
        ;
        let n = (width * height * depth) as usize;
        let mut bytes: Vec<bool> = Vec::new();
        for i in 0..n
            invariant
                bytes@.len() == i,
                forall|j: int| 0 <= j < i ==> !(#[trigger] bytes@[j]),
        {
            bytes.push(false);
        }
        Grid3D { width, height, depth, bytes }
    }
}

impl<T> Grid3D<T> {
    /// The orthogonal neighbours of `point` that lie in the box, in the
    /// order +x, +y, -x, -y, +z, -z.
    pub fn orthogonal_neighbors(&self, point: &Vector3D) -> (r: Vec<Vector3D>)
        requires
            interior3(*point),
        ensures
            r@ == in_box(around3(*point), self.width as int, self.height as int, self.depth as int),
    {
        let all = point.orthogonal_neighbors();
        let ghost ps = around3(*point);
        let mut r: Vec<Vector3D> = Vec::new();
        for i in 0..6
            invariant
                all@ == ps,
                ps.len() == 6,
                r@ == in_box(ps.take(i as int), self.width as int, self.height as int, self.depth as int),
        {
            let p = all[i];
            assert(ps.take(i + 1).drop_last() =~= ps.take(i as int));
            if p.x >= 0 && p.y >= 0 && p.z >= 0 && p.x < self.width && p.y < self.height && p.z
                < self.depth {
                r.push(p);
            }
        }
        assert(ps.take(6) =~= ps);
        r
    }
}

} // verus!
