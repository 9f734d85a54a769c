//! Index lists of the textured quads that draw a line of text.
//!
//! Each glyph is drawn as a quad of four vertices (top-left, top-right,
//! bottom-right, bottom-left) and two triangles over them. Vertex numbers are
//! `u16`, so the numbering of a quad starts at its first vertex's position
//! in the vertex list, taken modulo 65536.
use vstd::prelude::*;

verus! {

/// The six indices of the quad whose first vertex is number `first`: the
/// triangles top-left, top-right, bottom-right and bottom-right,
/// bottom-left, top-left.
pub open spec fn quad_indices(first: int) -> Seq<u16> {
    let f = first % 65536;
    seq![f as u16, (f + 1) as u16, (f + 2) as u16, (f + 2) as u16, (f + 3) as u16, f as u16]
}

/// Appends to `indices` the two triangles of the quad whose four vertices
/// start at position `first_vertex` of the vertex list. Quads take four
/// vertices each, so `first_vertex` is a multiple of four.
pub fn push_glyph_quad_indices(indices: &mut Vec<u16>, first_vertex: usize)
    requires
        first_vertex % 4 == 0,
    ensures
        final(indices)@ == old(indices)@ + quad_indices(first_vertex as int),
{
    let f: u16 = (first_vertex % 65536) as u16;
    assert(f % 4 == 0) by {
        assert((first_vertex % 65536) % 4 == first_vertex % 4) by (nonlinear_arith);
    }
    let tl = f;
    let tr = f + 1;
    let br = f + 2;
    let bl = f + 3;
    indices.push(tl);
    indices.push(tr);
    indices.push(br);
    indices.push(br);
    indices.push(bl);
    indices.push(tl);
    assert(indices@ =~= old(indices)@ + quad_indices(first_vertex as int));
}

/// The six indices of a glyph's quad name its four vertices and no others:
/// each triangle takes three different vertices, and together the two
/// triangles take all four, meeting along one diagonal.
pub proof fn lemma_quad_triangles(first_vertex: int)
    requires
        first_vertex >= 0,
        first_vertex % 4 == 0,
    ensures
        ({
            let q = quad_indices(first_vertex);
            let f = first_vertex % 65536;
            &&& q.len() == 6
            &&& forall|j: int| 0 <= j < 6 ==> f <= #[trigger] q[j] < f + 4
            &&& q[0] != q[1] && q[1] != q[2] && q[0] != q[2]
            &&& q[3] != q[4] && q[4] != q[5] && q[3] != q[5]
            &&& forall|v: int| f <= v < f + 4 ==> #[trigger] q.contains(v as u16)
            &&& q[0] == q[5] && q[2] == q[3]
        }),
{
    let q = quad_indices(first_vertex);
    let f = first_vertex % 65536;
    assert(f + 3 < 65536) by {
        assert(f % 4 == 0) by (nonlinear_arith)
            requires
                f == first_vertex % 65536,
                first_vertex % 4 == 0,
                first_vertex >= 0,
        ;
    }
    assert forall|v: int| f <= v < f + 4 implies #[trigger] q.contains(v as u16) by {
        if v == f {
            assert(q[0] == v as u16);
        } else if v == f + 1 {
            assert(q[1] == v as u16);
        } else if v == f + 2 {
            assert(q[2] == v as u16);
        } else {
            assert(q[4] == v as u16);
        }
    }
}

} // verus!
