//! The mesh drawn by a pass: the bounding quad under every map composed at
//! a given depth, as two triangles each, with texture coordinates.
use vstd::prelude::*;
use crate::flame::{Root, all_wf, composed_at, composed_maps};
use crate::geometry::{Affine, ONE, Point, Rect, apply_spec, identity_spec};

verus! {

/// A mesh vertex: position and texture coordinate, both fixed point.
#[derive(Clone, Copy, Debug, PartialEq, Eq, Structural)]
pub struct Vertex {
    pub position: Point,
    pub texture_coordinate: Point,
}

/// The quad corner used by the `j`-th vertex of its two triangles.
pub open spec fn quad_index_spec(j: int) -> int {
    if j == 0 || j == 3 {
        0
    } else if j == 1 {
        1
    } else if j == 2 || j == 4 {
        2
    } else {
        3
    }
}

/// The texture coordinate of quad corner `i`, corners in the order of
/// `Rect::corners`.
pub open spec fn uv_spec(i: int) -> Point {
    if i == 0 {
        Point { x: 0, y: 0 }
    } else if i == 1 {
        Point { x: 0, y: ONE }
    } else if i == 2 {
        Point { x: ONE, y: ONE }
    } else {
        Point { x: ONE, y: 0 }
    }
}

/// The `j`-th vertex of the image of `quad` under `m`.
pub open spec fn vertex_spec(m: Affine, quad: Rect, j: int) -> Vertex {
    Vertex {
        position: apply_spec(m, quad.corners_spec()[quad_index_spec(j)]),
        texture_coordinate: uv_spec(quad_index_spec(j)),
    }
}

fn quad_index(j: usize) -> (r: usize)
    requires
        j < 6,
    ensures
        r == quad_index_spec(j as int),
        r < 4,
{
    if j == 0 || j == 3 {
        0
    } else if j == 1 {
        1
    } else if j == 2 || j == 4 {
        2
    } else {
        3
    }
}

fn uv(i: usize) -> (r: Point)
    ensures
        r == uv_spec(i as int),
{
    if i == 0 {
        Point { x: 0, y: 0 }
    } else if i == 1 {
        Point { x: 0, y: ONE }
    } else if i == 2 {
        Point { x: ONE, y: ONE }
    } else {
        Point { x: ONE, y: 0 }
    }
}

/// Six vertices for each map composed from `root` along a path of `levels`
/// generators, in walk order: the image of `quad` as two triangles.
pub fn build_mesh(root: &Root, quad: &Rect, levels: u32) -> (r: Vec<Vertex>)
    requires
        root.wf(),
        quad.wf(),
        6 * composed_at(root.generators(), identity_spec(), levels as nat).len() <= usize::MAX,
    ensures
        r@.len() == 6 * composed_at(root.generators(), identity_spec(), levels as nat).len(),
        forall|i: int|
            0 <= i < r@.len() ==> #[trigger] r@[i] == vertex_spec(
                composed_at(root.generators(), identity_spec(), levels as nat)[i / 6],
                *quad,
                i % 6,
            ),
{
    let maps = composed_maps(root.get_state(), levels);
    let corners = quad.corners();
    let mut out: Vec<Vertex> = Vec::new();
    let mut k: usize = 0;
    while k < maps.len()
        invariant
            k <= maps@.len(),
            all_wf(maps@),
            quad.wf(),
            corners@ == quad.corners_spec(),
            6 * maps@.len() <= usize::MAX,
            out@.len() == 6 * k,
            forall|i: int| 0 <= i < out@.len() ==> #[trigger] out@[i] == vertex_spec(maps@[i / 6], *quad, i % 6),
        decreases maps@.len() - k,
    {
        let mut j: usize = 0;
        while j < 6
            invariant
                k < maps@.len(),
                j <= 6,
                all_wf(maps@),
                quad.wf(),
                corners@ == quad.corners_spec(),
                6 * maps@.len() <= usize::MAX,
                out@.len() == 6 * k + j,
                forall|i: int| 0 <= i < out@.len() ==> #[trigger] out@[i] == vertex_spec(maps@[i / 6], *quad, i % 6),
            decreases 6 - j,
        {
            let ci = quad_index(j);
            let p = maps[k].transform_point(corners[ci]);
            let ghost i = out@.len() as int;
            out.push(Vertex { position: p, texture_coordinate: uv(ci) });
            assert(i / 6 == k && i % 6 == j) by (nonlinear_arith)
                requires
                    i == 6 * k + j,
                    j < 6,
            ;
            j = j + 1;
        }
        k = k + 1;
    }
    out
}

} // verus!
