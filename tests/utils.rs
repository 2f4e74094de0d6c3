use i18n_puzzles::utils::grid2d::Grid2D;
use i18n_puzzles::utils::grid3d::Grid3D;
use i18n_puzzles::utils::misc::{find_repeating_sequence, gcd, lcm};
use i18n_puzzles::utils::parse::is_number;
use i18n_puzzles::utils::range::{union_vec, union_vecs, Range};
use i18n_puzzles::utils::vector2d::{get_vector2d_vec_bounds, Vector2D};
use i18n_puzzles::utils::vector3d::{get_vector3d_vec_bounds, Vector3D};

#[test]
fn vector2d_turns() {
    let v = Vector2D::new(2, -3);
    assert_eq!(v.clockwise(), Vector2D::new(3, 2));
    assert_eq!(v.counter_clockwise(), Vector2D::new(-3, -2));
    assert_eq!(v.clockwise().clockwise().clockwise().clockwise(), v);
}

#[test]
fn vector2d_neighbors_and_distances() {
    let v = Vector2D::new(0, 0);
    assert_eq!(
        v.orthogonal_neighbors(),
        vec![Vector2D::new(1, 0), Vector2D::new(0, 1), Vector2D::new(-1, 0), Vector2D::new(0, -1)]
    );
    assert_eq!(Vector2D::new(1, 5).manhattan(&Vector2D::new(-2, 1)), 7);
    assert_eq!(Vector2D::new(1, 5).signum(Vector2D::new(3, 5)), Vector2D::new(-1, 0));
    assert_eq!(Vector2D::new(-1, 7).wrap(&Vector2D::new(5, 4)), Vector2D::new(4, 3));
    assert_eq!(Vector2D::new(-7, 0).wrap(&Vector2D::new(5, 4)), Vector2D::new(-2, 0));
}

#[test]
fn vector2d_bounds() {
    let vs = [Vector2D::new(3, -1), Vector2D::new(-2, 4), Vector2D::new(0, 0)];
    assert_eq!(get_vector2d_vec_bounds(&vs), (Vector2D::new(-2, -1), Vector2D::new(3, 4)));
    assert_eq!(
        get_vector2d_vec_bounds(&[]),
        (Vector2D::new(i32::MAX, i32::MAX), Vector2D::new(i32::MIN, i32::MIN))
    );
}

#[test]
fn grid2d_parse_and_neighbors() {
    let g = Grid2D::parse("ab\ncd\nef");
    assert_eq!(g.width, 2);
    assert_eq!(g.height, 3);
    assert_eq!(g.bytes, vec!['a', 'b', 'c', 'd', 'e', 'f']);
    assert_eq!(*g.get(&Vector2D::new(1, 2)), 'f');
    assert_eq!(
        g.orthogonal_neighbors(&Vector2D::new(0, 0)),
        vec![Vector2D::new(1, 0), Vector2D::new(0, 1)]
    );
    assert_eq!(g.orthogonal_neighbors(&Vector2D::new(1, 1)).len(), 3);
    assert_eq!(g.neighbor_coord(&Vector2D::new(1, 1), 0), None);
    assert_eq!(g.neighbor_coord(&Vector2D::new(1, 1), 3), Some(Vector2D::new(1, 0)));
    let mut h = g.clone();
    h.set(&Vector2D::new(0, 1), 'x');
    assert_eq!(h.bytes[2], 'x');
}

#[test]
fn vector3d_basics() {
    let v = Vector3D::new(1, 2, 3);
    assert_eq!(v.orthogonal_neighbors().len(), 6);
    assert_eq!(v.orthogonal_neighbors()[5], Vector3D::new(1, 2, 2));
    assert_eq!(v.manhattan(&Vector3D::new(0, 0, 0)), 6);
    assert_eq!(v.signum(Vector3D::new(1, 5, 0)), Vector3D::new(0, -1, 1));
    let vs = [Vector3D::new(1, -1, 4), Vector3D::new(-3, 2, 0)];
    assert_eq!(get_vector3d_vec_bounds(&vs), (Vector3D::new(-3, -1, 0), Vector3D::new(1, 2, 4)));
}

#[test]
fn grid3d_basics() {
    let g = Grid3D::new(2, 3, 4);
    assert_eq!(g.bytes.len(), 24);
    assert!(g.bytes.iter().all(|b| !*b));
    assert_eq!(g.orthogonal_neighbors(&Vector3D::new(0, 0, 0)).len(), 3);
    assert_eq!(g.orthogonal_neighbors(&Vector3D::new(1, 1, 1)).len(), 5);
}

#[test]
fn ranges() {
    let a = Range::new(1, 5);
    let b = Range::new(3, 8);
    let c = Range::new(5, 6);
    assert_eq!(a.intersect(&b), Some((3, 5)));
    assert_eq!(a.intersect(&c), None);
    assert!(a.overlap(&b));
    assert!(!a.overlap(&c));
    assert_eq!(a.union(&b), vec![Range::new(1, 8)]);
    assert_eq!(a.union(&c), vec![a, c]);
}

#[test]
fn number_routines() {
    assert_eq!(gcd(12, 18), 6);
    assert_eq!(gcd(7, 0), 7);
    assert_eq!(lcm(&[4, 6, 10]), 60);
    assert_eq!(lcm(&[9]), 9);
    assert_eq!(find_repeating_sequence(&[1, 2, 1, 2, 1]), Some((0, 2)));
    assert_eq!(find_repeating_sequence(&[1, 2, 3]), None);
    assert_eq!(find_repeating_sequence(&[]), None);
    assert!(is_number(b'7'));
    assert!(!is_number(b'a'));
}

#[test]
fn range_unions_merge_overlapping_and_touching() {
    let rs = vec![Range::new(10, 12), Range::new(1, 3), Range::new(2, 5), Range::new(5, 7)];
    assert_eq!(union_vec(&rs), vec![Range::new(1, 7), Range::new(10, 12)]);
    assert_eq!(union_vec(&vec![]), vec![]);
    let a = vec![Range::new(0, 2)];
    let b = vec![Range::new(4, 6), Range::new(1, 3)];
    assert_eq!(union_vecs(&a, &b), vec![Range::new(0, 3), Range::new(4, 6)]);
}
