//! Procedural cube: 24 vertices (four per face, each face in one colour) and
//! 36 indices (two triangles per face).
//!
//! Coordinates are exactly -1 or 1 and colour channels exactly 0 or 1, so
//! they are held as integers; the renderer turns them into floats.
use vstd::prelude::*;

verus! {

/// A cube vertex: position and colour.
#[derive(Clone, Copy, Debug, PartialEq, Eq)]
pub struct Position {
    pub position: [i8; 3],
    pub color: [u8; 3],
}

/// Face orientation for procedural cube generation.
#[derive(Clone, Copy, Debug, PartialEq, Eq)]
pub enum Face {
    /// -Z
    Back,
    /// +Z
    Front,
    /// -X
    Left,
    /// +X
    Right,
    /// +Y
    Bottom,
    /// -Y
    Top,
}

/// The faces in the order the cube lists them.
pub open spec fn face_at(f: int) -> Face {
    if f == 0 {
        Face::Back
    } else if f == 1 {
        Face::Front
    } else if f == 2 {
        Face::Left
    } else if f == 3 {
        Face::Right
    } else if f == 4 {
        Face::Bottom
    } else {
        Face::Top
    }
}

/// Corner `k` (0 to 3) of a face, in drawing order.
pub open spec fn corner(face: Face, k: int) -> Seq<i8> {
    match face {
        Face::Back => if k == 0 {
            seq![-1i8, 1i8, -1i8]
        } else if k == 1 {
            seq![1i8, 1i8, -1i8]
        } else if k == 2 {
            seq![1i8, -1i8, -1i8]
        } else {
            seq![-1i8, -1i8, -1i8]
        },
        Face::Front => if k == 0 {
            seq![-1i8, 1i8, 1i8]
        } else if k == 1 {
            seq![1i8, 1i8, 1i8]
        } else if k == 2 {
            seq![1i8, -1i8, 1i8]
        } else {
            seq![-1i8, -1i8, 1i8]
        },
        Face::Left => if k == 0 {
            seq![-1i8, 1i8, -1i8]
        } else if k == 1 {
            seq![-1i8, -1i8, -1i8]
        } else if k == 2 {
            seq![-1i8, -1i8, 1i8]
        } else {
            seq![-1i8, 1i8, 1i8]
        },
        Face::Right => if k == 0 {
            seq![1i8, 1i8, -1i8]
        } else if k == 1 {
            seq![1i8, 1i8, 1i8]
        } else if k == 2 {
            seq![1i8, -1i8, 1i8]
        } else {
            seq![1i8, -1i8, -1i8]
        },
        Face::Bottom => if k == 0 {
            seq![-1i8, 1i8, -1i8]
        } else if k == 1 {
            seq![-1i8, 1i8, 1i8]
        } else if k == 2 {
            seq![1i8, 1i8, 1i8]
        } else {
            seq![1i8, 1i8, -1i8]
        },
        Face::Top => if k == 0 {
            seq![-1i8, -1i8, -1i8]
        } else if k == 1 {
            seq![1i8, -1i8, -1i8]
        } else if k == 2 {
            seq![1i8, -1i8, 1i8]
        } else {
            seq![-1i8, -1i8, 1i8]
        },
    }
}

/// Colour of a face: red, green, blue, yellow, magenta, cyan.
pub open spec fn face_color(face: Face) -> Seq<u8> {
    match face {
        Face::Back => seq![1u8, 0, 0],
        Face::Front => seq![0u8, 1, 0],
        Face::Left => seq![0u8, 0, 1],
        Face::Right => seq![1u8, 1, 0],
        Face::Bottom => seq![1u8, 0, 1],
        Face::Top => seq![0u8, 1, 1],
    }
}

/// Vertex `i` of the cube (0 to 23): corner `i % 4` of face `i / 4`.
pub open spec fn cube_vertex_matches(p: Position, i: int) -> bool {
    &&& p.position@ == corner(face_at(i / 4), i % 4)
    &&& p.color@ == face_color(face_at(i / 4))
}

/// Index `i` (0 to 35) of the cube: two triangles `(0, 1, 2)` and
/// `(2, 3, 0)` over the four vertices of face `i / 6`.
pub open spec fn cube_index(i: int) -> int {
    let base = 4 * (i / 6);
    let k = i % 6;
    base + if k == 0 || k == 5 {
        0int
    } else if k == 1 {
        1int
    } else if k == 2 || k == 3 {
        2int
    } else {
        3int
    }
}

impl Face {
    /// The four corners of the face, in drawing order.
    pub fn vertices(&self) -> (r: [[i8; 3]; 4])
        ensures
            forall|k: int| 0 <= k < 4 ==> #[trigger] r[k]@ == corner(*self, k),
    {
        let r: [[i8; 3]; 4] = match self {
            Face::Back => [[-1, 1, -1], [1, 1, -1], [1, -1, -1], [-1, -1, -1]],
            Face::Front => [[-1, 1, 1], [1, 1, 1], [1, -1, 1], [-1, -1, 1]],
            Face::Left => [[-1, 1, -1], [-1, -1, -1], [-1, -1, 1], [-1, 1, 1]],
            Face::Right => [[1, 1, -1], [1, 1, 1], [1, -1, 1], [1, -1, -1]],
            Face::Bottom => [[-1, 1, -1], [-1, 1, 1], [1, 1, 1], [1, 1, -1]],
            Face::Top => [[-1, -1, -1], [1, -1, -1], [1, -1, 1], [-1, -1, 1]],
        };
        assert(r[0]@ =~= corner(*self, 0));
        assert(r[1]@ =~= corner(*self, 1));
        assert(r[2]@ =~= corner(*self, 2));
        assert(r[3]@ =~= corner(*self, 3));
        r
    }

    /// The colour of the face.
    pub fn color(&self) -> (r: [u8; 3])
        ensures
            r@ == face_color(*self),
    {
        let r: [u8; 3] = match self {
            Face::Back => [1, 0, 0],
            Face::Front => [0, 1, 0],
            Face::Left => [0, 0, 1],
            Face::Right => [1, 1, 0],
            Face::Bottom => [1, 0, 1],
            Face::Top => [0, 1, 1],
        };
        assert(r@ =~= face_color(*self));
        r
    }
}

/// The 24 cube vertices, four per face, faces in the order back, front,
/// left, right, bottom, top.
pub fn generate_cube_vertices() -> (r: Vec<Position>)
    ensures
        r.len() == 24,
        forall|i: int| 0 <= i < 24 ==> cube_vertex_matches(#[trigger] r[i], i),
{
    let faces: [Face; 6] = [Face::Back, Face::Front, Face::Left, Face::Right, Face::Bottom, Face::Top];
    let mut vertices: Vec<Position> = Vec::with_capacity(24);
    let mut f: usize = 0;
    while f < 6
        invariant
            0 <= f <= 6,
            forall|j: int| 0 <= j < 6 ==> #[trigger] faces[j] == face_at(j),
            vertices.len() == 4 * f,
            forall|i: int| 0 <= i < vertices.len() ==> cube_vertex_matches(#[trigger] vertices[i], i),
        decreases 6 - f,
    {
        let face = faces[f];
        let color = face.color();
        let positions = face.vertices();
        let mut k: usize = 0;
        while k < 4
            invariant
                0 <= f < 6,
                0 <= k <= 4,
                face == face_at(f as int),
                color@ == face_color(face),
                forall|c: int| 0 <= c < 4 ==> #[trigger] positions[c]@ == corner(face, c),
                vertices.len() == 4 * f + k,
                forall|i: int|
                    0 <= i < vertices.len() ==> cube_vertex_matches(#[trigger] vertices[i], i),
            decreases 4 - k,
        {
            vertices.push(Position { position: positions[k], color });
            proof {
                let i = 4 * f + k;
                assert(i / 4 == f as int && i % 4 == k as int);
            }
            k = k + 1;
        }
        f = f + 1;
    }
    vertices
}

/// The 36 cube indices: for each face with first vertex `base`, the
/// triangles `(base, base + 1, base + 2)` and `(base + 2, base + 3, base)`.
pub fn generate_cube_indices() -> (r: Vec<u16>)
    ensures
        r.len() == 36,
        forall|i: int| 0 <= i < 36 ==> #[trigger] r[i] == cube_index(i),
{
    let mut indices: Vec<u16> = Vec::with_capacity(36);
    let mut face_index: u16 = 0;
    while face_index < 6
        invariant
            0 <= face_index <= 6,
            indices.len() == 6 * face_index,
            forall|i: int| 0 <= i < indices.len() ==> #[trigger] indices[i] == cube_index(i),
        decreases 6 - face_index,
    {
        let base: u16 = face_index * 4;
        let ghost f = face_index as int;
        indices.push(base);
        indices.push(base + 1);
        indices.push(base + 2);
        indices.push(base + 2);
        indices.push(base + 3);
        indices.push(base);
        proof {
            assert forall|i: int| 0 <= i < indices.len() implies #[trigger] indices[i] == cube_index(
                i,
            ) by {
                if i >= 6 * f {
                    assert(i / 6 == f);
                }
            }
        }
        face_index = face_index + 1;
    }
    indices
}

/// The coordinate (0 for x, 1 for y, 2 for z) that is constant on a face.
pub open spec fn face_axis(face: Face) -> int {
    match face {
        Face::Back | Face::Front => 2,
        Face::Left | Face::Right => 0,
        Face::Bottom | Face::Top => 1,
    }
}

/// The value of that coordinate on the face: back at z = -1, front at
/// z = 1, left at x = -1, right at x = 1, bottom at y = 1, top at y = -1.
pub open spec fn face_side(face: Face) -> i8 {
    match face {
        Face::Back | Face::Left | Face::Top => -1i8,
        Face::Front | Face::Right | Face::Bottom => 1i8,
    }
}

/// `p` is a corner of the cube `[-1, 1]^3`.
pub open spec fn is_cube_corner(p: Seq<i8>) -> bool {
    &&& p.len() == 3
    &&& forall|c: int| 0 <= c < 3 ==> (#[trigger] p[c] == -1 || p[c] == 1)
}

/// Number of coordinates in which two points of the cube differ.
pub open spec fn coords_differing(p: Seq<i8>, q: Seq<i8>) -> int {
    (if p[0] != q[0] { 1int } else { 0 }) + (if p[1] != q[1] { 1int } else { 0 }) + (if p[2]
        != q[2] { 1int } else { 0 })
}

/// Every face is a proper square of the cube: its four corners are cube
/// corners in the face's plane, no two alike, so they are exactly the four
/// cube corners of that plane; and they go round the square, each corner
/// sharing an edge with the next.
pub proof fn lemma_face_is_square(face: Face)
    ensures
        forall|k: int|
            0 <= k < 4 ==> is_cube_corner(#[trigger] corner(face, k)) && corner(face, k)[face_axis(
                face,
            )] == face_side(face),
        forall|j: int, k: int|
            0 <= j < 4 && 0 <= k < 4 && j != k ==> #[trigger] corner(face, j) != #[trigger] corner(
                face,
                k,
            ),
        forall|p: Seq<i8>|
            is_cube_corner(p) && p[face_axis(face)] == face_side(face) ==> exists|k: int|
                0 <= k < 4 && #[trigger] corner(face, k) == p,
        forall|k: int|
            0 <= k < 4 ==> coords_differing(#[trigger] corner(face, k), corner(face, (k + 1) % 4))
                == 1,
{
    assert forall|k: int|
        0 <= k < 4 implies is_cube_corner(#[trigger] corner(face, k)) && corner(face, k)[face_axis(
            face,
        )] == face_side(face) by {
        assert(corner(face, k).len() == 3);
    }
    assert forall|j: int, k: int|
        0 <= j < 4 && 0 <= k < 4 && j != k implies #[trigger] corner(face, j) != #[trigger] corner(
        face,
        k,
    ) by {
        if corner(face, j) == corner(face, k) {
            assert(corner(face, j)[0] == corner(face, k)[0]);
            assert(corner(face, j)[1] == corner(face, k)[1]);
            assert(corner(face, j)[2] == corner(face, k)[2]);
        }
    }
    assert forall|p: Seq<i8>|
        is_cube_corner(p) && p[face_axis(face)] == face_side(face) implies exists|k: int|
            0 <= k < 4 && #[trigger] corner(face, k) == p by {
        assert(p[0] == -1 || p[0] == 1);
        assert(p[1] == -1 || p[1] == 1);
        assert(p[2] == -1 || p[2] == 1);
        let w = if corner(face, 0) =~= p {
            0int
        } else if corner(face, 1) =~= p {
            1int
        } else if corner(face, 2) =~= p {
            2int
        } else {
            3int
        };
        assert(corner(face, w) =~= p);
    }
}

/// The six faces lie in six different planes and have six different colours,
/// each channel 0 or 1.
pub proof fn lemma_faces_distinct(f: int, g: int)
    requires
        0 <= f < 6,
        0 <= g < 6,
        f != g,
    ensures
        face_axis(face_at(f)) != face_axis(face_at(g)) || face_side(face_at(f)) != face_side(
            face_at(g),
        ),
        face_color(face_at(f)) != face_color(face_at(g)),
        face_color(face_at(f)).len() == 3,
        forall|c: int|
            0 <= c < 3 ==> #[trigger] face_color(face_at(f))[c] == 0 || face_color(face_at(f))[c]
                == 1,
{
    let a = face_color(face_at(f));
    let b = face_color(face_at(g));
    if a == b {
        assert(a[0] == b[0] && a[1] == b[1] && a[2] == b[2]);
    }
}

/// Each triangle of the index list takes three different vertices of one
/// face, and the two triangles of a face together take all four of its
/// vertices.
pub proof fn lemma_triangles_within_faces(t: int)
    requires
        0 <= t < 12,
    ensures
        ({
            let f = t / 2;
            &&& forall|j: int|
                0 <= j < 3 ==> 4 * f <= #[trigger] cube_index(3 * t + j) < 4 * f + 4
            &&& cube_index(3 * t) != cube_index(3 * t + 1)
            &&& cube_index(3 * t + 1) != cube_index(3 * t + 2)
            &&& cube_index(3 * t) != cube_index(3 * t + 2)
        }),
        Set::new(
            |v: int|
                exists|i: int| 6 * (t / 2) <= i < 6 * (t / 2) + 6 && #[trigger] cube_index(i) == v,
        ) == Set::new(|v: int| 4 * (t / 2) <= v < 4 * (t / 2) + 4),
{
    let f = t / 2;
    assert forall|j: int| 0 <= j < 3 implies 4 * f <= #[trigger] cube_index(3 * t + j) < 4 * f
        + 4 by {
        assert((3 * t + j) / 6 == f);
    }
    assert((3 * t) / 6 == f && (3 * t + 1) / 6 == f && (3 * t + 2) / 6 == f);
    let used = Set::new(
        |v: int| exists|i: int| 6 * f <= i < 6 * f + 6 && #[trigger] cube_index(i) == v,
    );
    assert forall|i: int| 6 * f <= i < 6 * f + 6 implies 4 * f <= #[trigger] cube_index(i) < 4
        * f + 4 by {
        assert(i / 6 == f);
    }
    assert forall|v: int| 4 * f <= v < 4 * f + 4 implies used.contains(v) by {
        let i = if v == 4 * f {
            6 * f
        } else if v == 4 * f + 1 {
            6 * f + 1
        } else if v == 4 * f + 2 {
            6 * f + 2
        } else {
            6 * f + 4
        };
        assert(i / 6 == f);
        assert(cube_index(i) == v);
    }
    assert(used =~= Set::new(|v: int| 4 * f <= v < 4 * f + 4));
}

} // verus!
