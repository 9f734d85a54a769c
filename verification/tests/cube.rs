use cube::cube_geometry::{CubeGeometry, Face, Orientation, Rectangle, Vertex, Color};
use cube::proc_cube::{generate_cube_indices, generate_cube_vertices, Face as ProcFace};

#[test]
fn procedural_indices_two_triangles_per_face() {
    let idx = generate_cube_indices();
    assert_eq!(idx.len(), 36);
    assert_eq!(&idx[0..6], &[0, 1, 2, 2, 3, 0]);
    assert_eq!(&idx[30..36], &[20, 21, 22, 22, 23, 20]);
    assert!(idx.iter().all(|&i| i < 24));
}

#[test]
fn procedural_vertices_face_by_face() {
    let v = generate_cube_vertices();
    assert_eq!(v.len(), 24);
    assert_eq!(v[0].position, [-1, 1, -1]);
    assert_eq!(v[0].color, [1, 0, 0]);
    assert_eq!(v[6].position, [1, -1, 1]);
    assert_eq!(v[6].color, [0, 1, 0]);
    assert_eq!(v[19].position, [1, 1, -1]);
    assert_eq!(v[19].color, [1, 0, 1]);
    assert_eq!(v[23].position, [-1, -1, 1]);
    assert_eq!(v[23].color, [0, 1, 1]);
    assert_eq!(ProcFace::Right.color(), [1, 1, 0]);
    assert_eq!(ProcFace::Left.vertices()[1], [-1, -1, -1]);
}

#[test]
fn geometry_cube_matches_procedural_cube() {
    let g = CubeGeometry::new();
    let a = g.generate_cube_vertices();
    let b = generate_cube_vertices();
    assert_eq!(a, b);
}

#[test]
fn geometry_indices_wind_the_other_way() {
    let g = CubeGeometry::new().generate_indices();
    let p = generate_cube_indices();
    assert_eq!(&g[0..6], &[3, 2, 0, 0, 2, 1]);
    assert_eq!(&g[6..12], &[7, 6, 4, 4, 6, 5]);
    for f in 0..6 {
        let gt = [g[6 * f], g[6 * f + 1], g[6 * f + 2]];
        let pt = [p[6 * f + 5], p[6 * f + 4], p[6 * f + 3]];
        let rotations = [[pt[0], pt[1], pt[2]], [pt[1], pt[2], pt[0]], [pt[2], pt[0], pt[1]]];
        assert!(rotations.contains(&gt));
    }
}

#[test]
fn every_face_is_planar() {
    let v = generate_cube_vertices();
    let fixed = [(2, -1), (2, 1), (0, -1), (0, 1), (1, 1), (1, -1)];
    for (f, &(axis, value)) in fixed.iter().enumerate() {
        for k in 0..4 {
            assert_eq!(v[4 * f + k].position[axis], value);
        }
    }
}

#[test]
fn face_parts() {
    let face = Face::new(
        Orientation::Front,
        Rectangle::new(Vertex::new(1, 2, 3), Vertex::new(4, 5, 6), Vertex::new(7, 8, 9), Vertex::new(0, 0, 0)),
        Color::new(0, 1, 1),
    );
    assert_eq!(face.vertices(), [[1, 2, 3], [4, 5, 6], [7, 8, 9], [0, 0, 0]]);
    assert_eq!(face.color(), [0, 1, 1]);
    assert_eq!(face.indices(), vec![3, 2, 0, 0, 2, 1]);
    assert_eq!(face.place, Orientation::Front);
}
