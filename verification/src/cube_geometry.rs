//! A cube described face by face: each face is a rectangle of four corners
//! with one colour.
use vstd::prelude::*;
use crate::proc_cube::{Position, corner, face_color, face_at, cube_vertex_matches, cube_index};

verus! {

/// A corner of the cube; every coordinate is -1 or 1.
#[derive(Copy, Clone, Debug)]
pub struct Vertex {
    pub coords: [i8; 3],
}

impl Vertex {
    pub fn new(x: i8, y: i8, z: i8) -> (r: Vertex)
        ensures
            r.coords@ == seq![x, y, z],
    {
        let r = Vertex { coords: [x, y, z] };
        assert(r.coords@ =~= seq![x, y, z]);
        r
    }
}

/// The four corners of a face in drawing order: bottom-left, bottom-right,
/// top-right, top-left.
#[derive(Copy, Clone, Debug)]
pub struct Rectangle {
    pub bl: Vertex,
    pub br: Vertex,
    pub tr: Vertex,
    pub tl: Vertex,
}

impl Rectangle {
    pub fn new(bl: Vertex, br: Vertex, tr: Vertex, tl: Vertex) -> (r: Rectangle)
        ensures
            r.bl == bl,
            r.br == br,
            r.tr == tr,
            r.tl == tl,
    {
        Rectangle { bl, br, tr, tl }
    }
}

/// A face colour; every channel is 0 or 1.
#[derive(Copy, Clone, Debug)]
pub struct Color {
    pub r: u8,
    pub g: u8,
    pub b: u8,
}

impl Color {
    pub fn new(r: u8, g: u8, b: u8) -> (c: Color)
        ensures
            c.r == r,
            c.g == g,
            c.b == b,
    {
        Color { r, g, b }
    }
}

/// Which side of the cube a face is on.
#[derive(Debug, Clone, Copy, PartialEq, Eq)]
pub enum Orientation {
    /// -Z
    Back,
    /// +Z
    Front,
    /// -X
    Left,
    /// +X
    Right,
    /// +Y
    Bottom,
    /// -Y
    Top,
}

/// One side of the cube.
#[derive(Copy, Clone, Debug)]
pub struct Face {
    pub place: Orientation,
    pub rect: Rectangle,
    pub color: Color,
}

/// Corner `k` (0 to 3) of a rectangle in drawing order.
pub open spec fn rect_corner(rect: Rectangle, k: int) -> Seq<i8> {
    if k == 0 {
        rect.bl.coords@
    } else if k == 1 {
        rect.br.coords@
    } else if k == 2 {
        rect.tr.coords@
    } else {
        rect.tl.coords@
    }
}

pub open spec fn color_channels(c: Color) -> Seq<u8> {
    seq![c.r, c.g, c.b]
}

/// The corner and colour that vertex `p` takes from corner `k` of `face`.
pub open spec fn face_vertex_matches(p: Position, face: Face, k: int) -> bool {
    &&& p.position@ == rect_corner(face.rect, k)
    &&& p.color@ == color_channels(face.color)
}

/// Corner `k` of face `f` of the cube as `CubeGeometry::new` builds it.
pub open spec fn geometry_corner(f: int, k: int) -> Seq<i8> {
    if f == 0 {
        if k == 0 {
            seq![-1i8, 1i8, -1i8]
        } else if k == 1 {
            seq![1i8, 1i8, -1i8]
        } else if k == 2 {
            seq![1i8, -1i8, -1i8]
        } else {
            seq![-1i8, -1i8, -1i8]
        }
    } else if f == 1 {
        if k == 0 {
            seq![-1i8, 1i8, 1i8]
        } else if k == 1 {
            seq![1i8, 1i8, 1i8]
        } else if k == 2 {
            seq![1i8, -1i8, 1i8]
        } else {
            seq![-1i8, -1i8, 1i8]
        }
    } else if f == 2 {
        if k == 0 {
            seq![-1i8, 1i8, -1i8]
        } else if k == 1 {
            seq![-1i8, -1i8, -1i8]
        } else if k == 2 {
            seq![-1i8, -1i8, 1i8]
        } else {
            seq![-1i8, 1i8, 1i8]
        }
    } else if f == 3 {
        if k == 0 {
            seq![1i8, 1i8, -1i8]
        } else if k == 1 {
            seq![1i8, 1i8, 1i8]
        } else if k == 2 {
            seq![1i8, -1i8, 1i8]
        } else {
            seq![1i8, -1i8, -1i8]
        }
    } else if f == 4 {
        if k == 0 {
            seq![-1i8, 1i8, -1i8]
        } else if k == 1 {
            seq![-1i8, 1i8, 1i8]
        } else if k == 2 {
            seq![1i8, 1i8, 1i8]
        } else {
            seq![1i8, 1i8, -1i8]
        }
    } else {
        if k == 0 {
            seq![-1i8, -1i8, -1i8]
        } else if k == 1 {
            seq![1i8, -1i8, -1i8]
        } else if k == 2 {
            seq![1i8, -1i8, 1i8]
        } else {
            seq![-1i8, -1i8, 1i8]
        }
    }
}

/// Colour of face `f` as `CubeGeometry::new` builds it.
pub open spec fn geometry_color(f: int) -> Seq<u8> {
    if f == 0 {
        seq![1u8, 0u8, 0u8]
    } else if f == 1 {
        seq![0u8, 1u8, 0u8]
    } else if f == 2 {
        seq![0u8, 0u8, 1u8]
    } else if f == 3 {
        seq![1u8, 1u8, 0u8]
    } else if f == 4 {
        seq![1u8, 0u8, 1u8]
    } else {
        seq![0u8, 1u8, 1u8]
    }
}

/// Orientation of face `f` as `CubeGeometry::new` builds it.
pub open spec fn geometry_place(f: int) -> Orientation {
    if f == 0 {
        Orientation::Back
    } else if f == 1 {
        Orientation::Front
    } else if f == 2 {
        Orientation::Left
    } else if f == 3 {
        Orientation::Right
    } else if f == 4 {
        Orientation::Bottom
    } else {
        Orientation::Top
    }
}

/// `face` is face `f` of the cube built by `CubeGeometry::new`.
pub open spec fn is_geometry_face(face: Face, f: int) -> bool {
    &&& face.place == geometry_place(f)
    &&& forall|k: int| 0 <= k < 4 ==> #[trigger] rect_corner(face.rect, k) == geometry_corner(f, k)
    &&& color_channels(face.color) == geometry_color(f)
}

/// The index pattern of one face: triangles `(3, 2, 0)` and `(0, 2, 1)`.
pub open spec fn face_index(j: int) -> int {
    if j == 0 {
        3
    } else if j == 1 {
        2
    } else if j == 2 || j == 3 {
        0
    } else if j == 4 {
        2
    } else {
        1
    }
}

/// Index `i` of the cube built face by face.
pub open spec fn geometry_index(i: int) -> int {
    4 * (i / 6) + face_index(i % 6)
}

impl Face {
    pub fn new(face: Orientation, rect: Rectangle, color: Color) -> (r: Face)
        ensures
            r.place == face,
            r.rect == rect,
            r.color == color,
    {
        Face { place: face, rect: rect, color: color }
    }

    pub fn color(&self) -> (r: [u8; 3])
        ensures
            r@ == color_channels(self.color),
    {
        let r: [u8; 3] = [self.color.r, self.color.g, self.color.b];
        assert(r@ =~= color_channels(self.color));
        r
    }

    /// The corners in drawing order: bottom-left, bottom-right, top-right, top-left.
    pub fn vertices(&self) -> (r: [[i8; 3]; 4])
        ensures
            forall|k: int| 0 <= k < 4 ==> #[trigger] r[k]@ == rect_corner(self.rect, k),
    {
        let r: [[i8; 3]; 4] = [
            self.rect.bl.coords,
            self.rect.br.coords,
            self.rect.tr.coords,
            self.rect.tl.coords,
        ];
        assert(r[0]@ == rect_corner(self.rect, 0));
        assert(r[1]@ == rect_corner(self.rect, 1));
        assert(r[2]@ == rect_corner(self.rect, 2));
        assert(r[3]@ == rect_corner(self.rect, 3));
        r
    }

    /// Two triangles over the face's four corners.
    pub fn indices(&self) -> (r: Vec<u16>)
        ensures
            r.len() == 6,
            forall|j: int| 0 <= j < 6 ==> #[trigger] r[j] == face_index(j),
    {
        let r: Vec<u16> = vec![3, 2, 0, 0, 2, 1];
        r
    }
}

/// A cube built from six coloured faces.
pub struct CubeGeometry {
    faces: Vec<Face>,
}

impl CubeGeometry {
    #[verifier::type_invariant]
    spec fn wf(self) -> bool {
        &&& self.faces.len() == 6
        &&& forall|f: int| 0 <= f < 6 ==> #[trigger] is_geometry_face(self.faces[f], f)
    }

    pub closed spec fn spec_faces(self) -> Seq<Face> {
        self.faces@
    }

    /// The six faces back, front, left, right, bottom, top, coloured red,
    /// green, blue, yellow, magenta, cyan.
    pub fn new() -> (r: CubeGeometry)
        ensures
            r.spec_faces().len() == 6,
            forall|f: int| 0 <= f < 6 ==> #[trigger] is_geometry_face(r.spec_faces()[f], f),
    {
        let mut faces: Vec<Face> = Vec::new();
        faces.push(
            Face::new(
                Orientation::Back,
                Rectangle::new(
                    Vertex::new(-1, 1, -1),
                    Vertex::new(1, 1, -1),
                    Vertex::new(1, -1, -1),
                    Vertex::new(-1, -1, -1),
                ),
                Color::new(1, 0, 0),
            ),
        );
        faces.push(
            Face::new(
                Orientation::Front,
                Rectangle::new(
                    Vertex::new(-1, 1, 1),
                    Vertex::new(1, 1, 1),
                    Vertex::new(1, -1, 1),
                    Vertex::new(-1, -1, 1),
                ),
                Color::new(0, 1, 0),
            ),
        );
        faces.push(
            Face::new(
                Orientation::Left,
                Rectangle::new(
                    Vertex::new(-1, 1, -1),
                    Vertex::new(-1, -1, -1),
                    Vertex::new(-1, -1, 1),
                    Vertex::new(-1, 1, 1),
                ),
                Color::new(0, 0, 1),
            ),
        );
        faces.push(
            Face::new(
                Orientation::Right,
                Rectangle::new(
                    Vertex::new(1, 1, -1),
                    Vertex::new(1, 1, 1),
                    Vertex::new(1, -1, 1),
                    Vertex::new(1, -1, -1),
                ),
                Color::new(1, 1, 0),
            ),
        );
        faces.push(
            Face::new(
                Orientation::Bottom,
                Rectangle::new(
                    Vertex::new(-1, 1, -1),
                    Vertex::new(-1, 1, 1),
                    Vertex::new(1, 1, 1),
                    Vertex::new(1, 1, -1),
                ),
                Color::new(1, 0, 1),
            ),
        );
        faces.push(
            Face::new(
                Orientation::Top,
                Rectangle::new(
                    Vertex::new(-1, -1, -1),
                    Vertex::new(1, -1, -1),
                    Vertex::new(1, -1, 1),
                    Vertex::new(-1, -1, 1),
                ),
                Color::new(0, 1, 1),
            ),
        );
        assert forall|f: int| 0 <= f < 6 implies #[trigger] is_geometry_face(faces@[f], f) by {
            assert forall|k: int| 0 <= k < 4 implies #[trigger] rect_corner(faces@[f].rect, k)
                == geometry_corner(f, k) by {}
            assert(color_channels(faces@[f].color) =~= geometry_color(f));
        }
        CubeGeometry { faces }
    }

    /// Four vertices per face, in face order, each with its face's colour.
    pub fn generate_cube_vertices(&self) -> (r: Vec<Position>)
        ensures
            r.len() == 24,
            forall|i: int|
                0 <= i < 24 ==> face_vertex_matches(
                    #[trigger] r[i],
                    self.spec_faces()[i / 4],
                    i % 4,
                ),
    {
        proof {
            use_type_invariant(self);
        }
        let mut vertices: Vec<Position> = Vec::with_capacity(24);
        let mut f: usize = 0;
        while f < self.faces.len()
            invariant
                self.faces.len() == 6,
                0 <= f <= 6,
                vertices.len() == 4 * f,
                forall|i: int|
                    0 <= i < vertices.len() ==> face_vertex_matches(
                        #[trigger] vertices[i],
                        self.faces@[i / 4],
                        i % 4,
                    ),
            decreases 6 - f,
        {
            let face = &self.faces[f];
            let color = face.color();
            let positions = face.vertices();
            let mut k: usize = 0;
            while k < 4
                invariant
                    self.faces.len() == 6,
                    0 <= f < 6,
                    0 <= k <= 4,
                    *face == self.faces@[f as int],
                    color@ == color_channels(face.color),
                    forall|c: int| 0 <= c < 4 ==> #[trigger] positions[c]@ == rect_corner(face.rect, c),
                    vertices.len() == 4 * f + k,
                    forall|i: int|
                        0 <= i < vertices.len() ==> face_vertex_matches(
                            #[trigger] vertices[i],
                            self.faces@[i / 4],
                            i % 4,
                        ),
                decreases 4 - k,
            {
                vertices.push(Position { position: positions[k], color });
                proof {
                    let i = 4 * f + k;
                    assert(i / 4 == f as int && i % 4 == k as int);
                }
                k = k + 1;
            }
            f = f + 1;
        }
        vertices
    }

    /// Six indices per face, in face order: the face's two triangles with
    /// its first vertex `4 * face` added.
    pub fn generate_indices(&self) -> (r: Vec<u16>)
        ensures
            r.len() == 36,
            forall|i: int| 0 <= i < 36 ==> #[trigger] r[i] == geometry_index(i),
    {
        proof {
            use_type_invariant(self);
        }
        let mut indices: Vec<u16> = Vec::with_capacity(36);
        let mut face_number: usize = 0;
        while face_number < self.faces.len()
            invariant
                self.faces.len() == 6,
                0 <= face_number <= 6,
                indices.len() == 6 * face_number,
                forall|i: int| 0 <= i < indices.len() ==> #[trigger] indices[i] == geometry_index(i),
            decreases 6 - face_number,
        {
            let base: u16 = (face_number * 4) as u16;
            let pattern = self.faces[face_number].indices();
            let mut j: usize = 0;
            while j < 6
                invariant
                    0 <= face_number < 6,
                    base == 4 * face_number,
                    0 <= j <= 6,
                    pattern.len() == 6,
                    forall|t: int| 0 <= t < 6 ==> #[trigger] pattern[t] == face_index(t),
                    indices.len() == 6 * face_number + j,
                    forall|i: int|
                        0 <= i < indices.len() ==> #[trigger] indices[i] == geometry_index(i),
                decreases 6 - j,
            {
                indices.push(base + pattern[j]);
                proof {
                    let i = 6 * face_number + j;
                    assert(i / 6 == face_number as int && i % 6 == j as int);
                }
                j = j + 1;
            }
            face_number = face_number + 1;
        }
        indices
    }
}

/// The cube built face by face has the same vertices, in the same order
/// and colours, as the procedural cube.
pub proof fn lemma_same_vertices_as_procedural(p: Position, face: Face, i: int)
    requires
        0 <= i < 24,
        is_geometry_face(face, i / 4),
        face_vertex_matches(p, face, i % 4),
    ensures
        cube_vertex_matches(p, i),
{
    let f = i / 4;
    let k = i % 4;
    assert(rect_corner(face.rect, k) == geometry_corner(f, k));
    assert(geometry_corner(f, k) =~= corner(face_at(f), k));
    assert(geometry_color(f) =~= face_color(face_at(f)));
}

/// `(a, b, c)` and `(d, e, g)` are the same triangle wound the other way.
pub open spec fn reversed_triangle(a: int, b: int, c: int, d: int, e: int, g: int) -> bool {
    ||| (a == g && b == e && c == d)
    ||| (a == e && b == d && c == g)
    ||| (a == d && b == g && c == e)
}

/// Both cubes draw the same two triangles on each face, wound in opposite
/// directions: the first triangle of one is the second of the other.
pub proof fn lemma_opposite_winding(f: int)
    requires
        0 <= f < 6,
    ensures
        reversed_triangle(
            geometry_index(6 * f),
            geometry_index(6 * f + 1),
            geometry_index(6 * f + 2),
            cube_index(6 * f + 3),
            cube_index(6 * f + 4),
            cube_index(6 * f + 5),
        ),
        reversed_triangle(
            geometry_index(6 * f + 3),
            geometry_index(6 * f + 4),
            geometry_index(6 * f + 5),
            cube_index(6 * f),
            cube_index(6 * f + 1),
            cube_index(6 * f + 2),
        ),
{
    assert((6 * f) / 6 == f && (6 * f) % 6 == 0);
    assert((6 * f + 1) / 6 == f && (6 * f + 1) % 6 == 1);
    assert((6 * f + 2) / 6 == f && (6 * f + 2) % 6 == 2);
    assert((6 * f + 3) / 6 == f && (6 * f + 3) % 6 == 3);
    assert((6 * f + 4) / 6 == f && (6 * f + 4) % 6 == 4);
    assert((6 * f + 5) / 6 == f && (6 * f + 5) % 6 == 5);
}

/// Every face of the cube lies in one plane of the unit cube: the back face
/// at z = -1, front at z = 1, left at x = -1, right at x = 1, bottom at
/// y = 1 and top at y = -1; every coordinate is -1 or 1.
pub proof fn lemma_faces_planar(f: int, k: int)
    requires
        0 <= f < 6,
        0 <= k < 4,
    ensures
        geometry_corner(f, k).len() == 3,
        forall|c: int| 0 <= c < 3 ==> #[trigger] geometry_corner(f, k)[c] == 1
            || geometry_corner(f, k)[c] == -1,
        geometry_place(f) == Orientation::Back ==> geometry_corner(f, k)[2] == -1,
        geometry_place(f) == Orientation::Front ==> geometry_corner(f, k)[2] == 1,
        geometry_place(f) == Orientation::Left ==> geometry_corner(f, k)[0] == -1,
        geometry_place(f) == Orientation::Right ==> geometry_corner(f, k)[0] == 1,
        geometry_place(f) == Orientation::Bottom ==> geometry_corner(f, k)[1] == 1,
        geometry_place(f) == Orientation::Top ==> geometry_corner(f, k)[1] == -1,
{
}

} // verus!
