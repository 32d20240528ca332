//! Clipping a mesh against planes, as topology.
//!
//! A pass clips every triangle of a mesh against one plane. The caller knows
//! on which side of the plane each vertex lies and hands the library one flag
//! per vertex: `true` for the inside. The library decides which triangles
//! stay, which are cut and into what, and which edges have to be intersected
//! with the plane. Each such edge is a `Cut`; the point where cut number `k`
//! of a pass meets the plane becomes vertex `vertex_count + k` of the list,
//! so the points are appended in the order of the cuts. Existing vertices are
//! never removed or renumbered.
//!
//! `clip_mesh` runs one pass for each plane of a list. It asks the caller's
//! functions for the side of a vertex and for the point on a cut edge.

use vstd::prelude::*;
use crate::triangle::Triangle;

verus! {

/// An edge that crosses the plane, from a vertex on the inside to a vertex
/// that is not.
#[derive(Clone, Copy, Debug, PartialEq, Eq, Structural)]
pub struct Cut {
    pub inside: usize,
    pub outside: usize,
}

/// The side of each corner of `triangle`, in the order of its corners.
pub open spec fn corner_sides<S, N>(triangle: Triangle<S, N>, inside: Seq<bool>) -> Seq<bool> {
    Seq::new(3, |i: int| inside[triangle.vertex_indices[i] as int])
}

/// How many of the three corners lie inside.
pub open spec fn inside_count(sides: Seq<bool>) -> nat {
    (if sides[0] { 1nat } else { 0nat }) + (if sides[1] { 1nat } else { 0nat }) + (if sides[2] {
        1nat
    } else {
        0nat
    })
}

/// The first corner whose side is `side`.
pub open spec fn first_corner(sides: Seq<bool>, side: bool) -> int {
    if sides[0] == side {
        0
    } else if sides[1] == side {
        1
    } else {
        2
    }
}

/// The two corners other than `corner`, the lower one first.
pub open spec fn other_corners(corner: int) -> (int, int) {
    if corner == 0 {
        (1, 2)
    } else if corner == 1 {
        (0, 2)
    } else {
        (0, 1)
    }
}

/// A triangle without normals that inherits the surface of `parent`.
pub open spec fn piece<S, N>(parent: Triangle<S, N>, v1: int, v2: int, v3: int) -> Triangle<S, N> {
    Triangle {
        vertex_indices: [v1 as usize, v2 as usize, v3 as usize],
        surface: parent.surface,
        normals: None,
    }
}

/// The triangles that remain of `triangle` on the inside of the plane, when
/// the next vertex to be appended to the list gets the index `next`.
///
/// - No corner inside: nothing remains.
/// - All three inside: the triangle remains as it is.
/// - One corner A inside, B and C not: with B' on AB and C' on AC, the
///   triangle (A, C', B'); B' is vertex `next`, C' is vertex `next + 1`.
/// - Two corners A and B inside, C not: with A' on AC and B' on BC, the
///   triangles (A, B, A') and (A', B, B'); A' is vertex `next`, B' is vertex
///   `next + 1`.
pub open spec fn clipped_triangles<S, N>(triangle: Triangle<S, N>, sides: Seq<bool>, next: int) -> Seq<
    Triangle<S, N>,
> {
    let v = triangle.vertex_indices;
    let count = inside_count(sides);
    if count == 3 {
        seq![triangle]
    } else if count == 1 {
        let a = first_corner(sides, true);
        seq![piece(triangle, v[a] as int, next + 1, next)]
    } else if count == 2 {
        let c = first_corner(sides, false);
        let (a, b) = other_corners(c);
        seq![
            piece(triangle, v[a] as int, v[b] as int, next),
            piece(triangle, next, v[b] as int, next + 1),
        ]
    } else {
        Seq::empty()
    }
}

/// The edges of `triangle` that have to be intersected with the plane, in the
/// order in which their intersection points are appended to the vertex list.
pub open spec fn clipped_cuts<S, N>(triangle: Triangle<S, N>, sides: Seq<bool>) -> Seq<Cut> {
    let v = triangle.vertex_indices;
    let count = inside_count(sides);
    if count == 1 {
        let a = first_corner(sides, true);
        let (b, c) = other_corners(a);
        seq![Cut { inside: v[a], outside: v[b] }, Cut { inside: v[a], outside: v[c] }]
    } else if count == 2 {
        let c = first_corner(sides, false);
        let (a, b) = other_corners(c);
        seq![Cut { inside: v[a], outside: v[c] }, Cut { inside: v[b], outside: v[c] }]
    } else {
        Seq::empty()
    }
}

/// The cuts made by the first `count` triangles of a pass.
pub open spec fn pass_cuts<S, N>(triangles: Seq<Triangle<S, N>>, inside: Seq<bool>, count: nat) -> Seq<
    Cut,
>
    decreases count,
{
    if count == 0 {
        Seq::empty()
    } else {
        let last = triangles[count - 1];
        pass_cuts(triangles, inside, (count - 1) as nat) + clipped_cuts(
            last,
            corner_sides(last, inside),
        )
    }
}

/// The triangles that remain of the first `count` triangles of a pass over a
/// vertex list of `inside.len()` vertices.
pub open spec fn pass_triangles<S, N>(
    triangles: Seq<Triangle<S, N>>,
    inside: Seq<bool>,
    count: nat,
) -> Seq<Triangle<S, N>>
    decreases count,
{
    if count == 0 {
        Seq::empty()
    } else {
        let last = triangles[count - 1];
        let before = (count - 1) as nat;
        pass_triangles(triangles, inside, before) + clipped_triangles(
            last,
            corner_sides(last, inside),
            (inside.len() + pass_cuts(triangles, inside, before).len()) as int,
        )
    }
}

/// The plane cuts two edges of the triangle: one or two of its corners lie
/// inside.
pub open spec fn is_crossing(sides: Seq<bool>) -> bool {
    0 < inside_count(sides) < 3
}

/// The two edges of `triangle` that the plane cuts, or `None` where it cuts
/// none.
fn triangle_cuts<S, N>(triangle: &Triangle<S, N>, inside: &Vec<bool>) -> (cuts: Option<[Cut; 2]>)
    requires
        triangle.in_bounds(inside.len() as int),
    ensures
        cuts is Some <==> is_crossing(corner_sides(*triangle, inside@)),
        match cuts {
            Some(edges) => {
                &&& clipped_cuts(*triangle, corner_sides(*triangle, inside@)) == edges@
                &&& edges[0].inside < inside.len()
                &&& edges[0].outside < inside.len()
                &&& edges[1].inside < inside.len()
                &&& edges[1].outside < inside.len()
            },
            None => clipped_cuts(*triangle, corner_sides(*triangle, inside@)) == Seq::<Cut>::empty(),
        },
{
    let v = triangle.vertex_indices;
    let s0: bool = inside[v[0]];
    let s1: bool = inside[v[1]];
    let s2: bool = inside[v[2]];
    let ghost sides = corner_sides(*triangle, inside@);
    assert(sides[0] == s0 && sides[1] == s1 && sides[2] == s2);
    let in_count: u8 = count_true(s0, s1, s2);
    if in_count == 1 {
        let a: usize = first_true(s0, s1);
        let (b, c) = other_two(a);
        let edges = [Cut { inside: v[a], outside: v[b] }, Cut { inside: v[a], outside: v[c] }];
        assert(clipped_cuts(*triangle, sides) =~= edges@);
        Some(edges)
    } else if in_count == 2 {
        let c: usize = first_true(!s0, !s1);
        let (a, b) = other_two(c);
        let edges = [Cut { inside: v[a], outside: v[c] }, Cut { inside: v[b], outside: v[c] }];
        assert(clipped_cuts(*triangle, sides) =~= edges@);
        Some(edges)
    } else {
        None
    }
}

/// Appends to `triangles` what remains of `triangle`, when the points on its
/// cut edges are the vertices `next` and `next + 1`.
fn triangle_pieces<S: Copy, N: Copy>(
    triangle: Triangle<S, N>,
    inside: &Vec<bool>,
    next: usize,
    triangles: &mut Vec<Triangle<S, N>>,
)
    requires
        triangle.in_bounds(inside.len() as int),
        is_crossing(corner_sides(triangle, inside@)) ==> next < usize::MAX,
    ensures
        final(triangles)@ == old(triangles)@ + clipped_triangles(
            triangle,
            corner_sides(triangle, inside@),
            next as int,
        ),
{
    let v = triangle.vertex_indices;
    let s0: bool = inside[v[0]];
    let s1: bool = inside[v[1]];
    let s2: bool = inside[v[2]];
    let ghost sides = corner_sides(triangle, inside@);
    let ghost old_triangles = triangles@;
    assert(sides[0] == s0 && sides[1] == s1 && sides[2] == s2);
    let in_count: u8 = count_true(s0, s1, s2);
    if in_count == 1 {
        let a: usize = first_true(s0, s1);
        triangles.push(Triangle::new_no_normals(v[a], next + 1, next, triangle.surface));
        proof {
            let got = triangles@[old_triangles.len() as int];
            let want = piece(triangle, v[a as int] as int, next + 1, next as int);
            assert(got.vertex_indices =~= want.vertex_indices);
        }
    } else if in_count == 2 {
        let c: usize = first_true(!s0, !s1);
        let (a, b) = other_two(c);
        triangles.push(Triangle::new_no_normals(v[a], v[b], next, triangle.surface));
        triangles.push(Triangle::new_no_normals(next, v[b], next + 1, triangle.surface));
        proof {
            let got1 = triangles@[old_triangles.len() as int];
            let want1 = piece(triangle, v[a as int] as int, v[b as int] as int, next as int);
            assert(got1.vertex_indices =~= want1.vertex_indices);
            let got2 = triangles@[old_triangles.len() as int + 1];
            let want2 = piece(triangle, next as int, v[b as int] as int, next + 1);
            assert(got2.vertex_indices =~= want2.vertex_indices);
        }
    } else if in_count == 3 {
        triangles.push(triangle);
    }
    assert(triangles@ =~= old_triangles + clipped_triangles(triangle, sides, next as int));
}

/// Clips one triangle against a plane. `inside` holds the side of every
/// vertex that the list had when the pass began, and `cuts` the cuts that the
/// pass has made so far. What remains of the triangle is appended to
/// `triangles`, and the edges to intersect are appended to `cuts`. Where the
/// plane cuts the triangle, the numbers of its two new vertices have to fit.
pub fn clip_triangle<S: Copy, N: Copy>(
    triangle: Triangle<S, N>,
    inside: &Vec<bool>,
    triangles: &mut Vec<Triangle<S, N>>,
    cuts: &mut Vec<Cut>,
)
    requires
        triangle.in_bounds(inside.len() as int),
        is_crossing(corner_sides(triangle, inside@)) ==> inside.len() + old(cuts).len() + 2
            <= usize::MAX,
    ensures
        final(triangles)@ == old(triangles)@ + clipped_triangles(
            triangle,
            corner_sides(triangle, inside@),
            inside.len() + old(cuts).len(),
        ),
        final(cuts)@ == old(cuts)@ + clipped_cuts(triangle, corner_sides(triangle, inside@)),
{
    let ghost old_cuts = cuts@;
    match triangle_cuts(&triangle, inside) {
        Some(edges) => {
            let next: usize = inside.len() + cuts.len();
            cuts.push(edges[0]);
            cuts.push(edges[1]);
            triangle_pieces(triangle, inside, next, triangles);
            assert(cuts@ =~= old_cuts + edges@);
        },
        None => {
            triangle_pieces(triangle, inside, 0, triangles);
            assert(cuts@ =~= old_cuts + Seq::<Cut>::empty());
        },
    }
}

/// Clips every triangle of a list against one plane, in the order of the
/// list. `inside` holds the side of every vertex of the list. Returns the
/// triangles that remain and the edges to intersect with the plane; the point
/// on edge `k` is to become vertex `inside.len() + k`.
pub fn clip_triangles<S: Copy, N: Copy>(triangles: &Vec<Triangle<S, N>>, inside: &Vec<bool>) -> (clipped:
    (Vec<Triangle<S, N>>, Vec<Cut>))
    requires
        forall|i: int| 0 <= i < triangles.len() ==> (#[trigger] triangles[i]).in_bounds(
            inside.len() as int,
        ),
        inside.len() + pass_cuts(triangles@, inside@, triangles.len() as nat).len() <= usize::MAX,
    ensures
        clipped.0@ == pass_triangles(triangles@, inside@, triangles.len() as nat),
        clipped.1@ == pass_cuts(triangles@, inside@, triangles.len() as nat),
{
    let mut remaining: Vec<Triangle<S, N>> = Vec::new();
    let mut cuts: Vec<Cut> = Vec::new();
    let mut i: usize = 0;
    while i < triangles.len()
        invariant
            i <= triangles.len(),
            forall|i: int| 0 <= i < triangles.len() ==> (#[trigger] triangles[i]).in_bounds(
                inside.len() as int,
            ),
            inside.len() + pass_cuts(triangles@, inside@, triangles.len() as nat).len()
                <= usize::MAX,
            remaining@ == pass_triangles(triangles@, inside@, i as nat),
            cuts@ == pass_cuts(triangles@, inside@, i as nat),
        decreases triangles.len() - i,
    {
        proof {
            lemma_pass_cuts_grow(triangles@, inside@, (i + 1) as nat, triangles.len() as nat);
        }
        clip_triangle(triangles[i], inside, &mut remaining, &mut cuts);
        i = i + 1;
    }
    (remaining, cuts)
}

/// A triangle with all three corners inside remains as it is, and no edge is
/// cut: the vertex list does not grow.
pub proof fn lemma_inside_triangle_unchanged<S, N>(
    triangle: Triangle<S, N>,
    sides: Seq<bool>,
    next: int,
)
    requires
        sides[0] && sides[1] && sides[2],
    ensures
        clipped_triangles(triangle, sides, next) == seq![triangle],
        clipped_cuts(triangle, sides) == Seq::<Cut>::empty(),
{
}

/// Of a triangle with no corner inside nothing remains, and no edge is cut.
pub proof fn lemma_outside_triangle_dropped<S, N>(
    triangle: Triangle<S, N>,
    sides: Seq<bool>,
    next: int,
)
    requires
        !sides[0] && !sides[1] && !sides[2],
    ensures
        clipped_triangles(triangle, sides, next) == Seq::<Triangle<S, N>>::empty(),
        clipped_cuts(triangle, sides) == Seq::<Cut>::empty(),
{
}

/// A triangle that the plane crosses is cut along exactly two edges. Each
/// leads from a corner inside to a corner that is not, and what remains are
/// one or two triangles without normals that have the surface of the
/// triangle and whose corners are corners inside or the two new vertices.
pub proof fn lemma_crossing_triangle_cut<S, N>(
    triangle: Triangle<S, N>,
    inside: Seq<bool>,
    next: int,
)
    requires
        triangle.in_bounds(inside.len() as int),
        inside.len() <= next,
        next + 1 <= usize::MAX,
        0 < inside_count(corner_sides(triangle, inside)) < 3,
    ensures
        clipped_cuts(triangle, corner_sides(triangle, inside)).len() == 2,
        clipped_triangles(triangle, corner_sides(triangle, inside), next).len() == inside_count(
            corner_sides(triangle, inside),
        ),
        forall|k: int|
            0 <= k < 2 ==> {
                let cut = #[trigger] clipped_cuts(triangle, corner_sides(triangle, inside))[k];
                &&& cut.inside < inside.len()
                &&& cut.outside < inside.len()
                &&& inside[cut.inside as int]
                &&& !inside[cut.outside as int]
            },
        forall|k: int|
            0 <= k < clipped_triangles(triangle, corner_sides(triangle, inside), next).len() ==> {
                let part = #[trigger] clipped_triangles(
                    triangle,
                    corner_sides(triangle, inside),
                    next,
                )[k];
                &&& part.normals is None
                &&& part.surface == triangle.surface
                &&& forall|i: int|
                    0 <= i < 3 ==> {
                        let v = #[trigger] part.vertex_indices[i];
                        ||| (v < inside.len() && inside[v as int])
                        ||| v == next
                        ||| v == next + 1
                    }
            },
{
    let sides = corner_sides(triangle, inside);
    let v = triangle.vertex_indices;
    assert(sides[0] == inside[v[0] as int]);
    assert(sides[1] == inside[v[1] as int]);
    assert(sides[2] == inside[v[2] as int]);
}

/// A pass over triangles that lie inside altogether returns them unchanged
/// and cuts no edge.
pub proof fn lemma_pass_keeps_inside<S, N>(
    triangles: Seq<Triangle<S, N>>,
    inside: Seq<bool>,
    count: nat,
)
    requires
        count <= triangles.len(),
        forall|i: int, c: int|
            0 <= i < count && 0 <= c < 3 ==> inside[(#[trigger] triangles[i].vertex_indices[c]) as int],
    ensures
        pass_triangles(triangles, inside, count) == triangles.take(count as int),
        pass_cuts(triangles, inside, count) == Seq::<Cut>::empty(),
    decreases count,
{
    if count > 0 {
        let before = (count - 1) as nat;
        lemma_pass_keeps_inside(triangles, inside, before);
        let last = triangles[count - 1];
        let sides = corner_sides(last, inside);
        assert(sides[0] == inside[last.vertex_indices[0] as int]);
        assert(sides[1] == inside[last.vertex_indices[1] as int]);
        assert(sides[2] == inside[last.vertex_indices[2] as int]);
        assert(pass_triangles(triangles, inside, count) =~= triangles.take(count as int));
        assert(pass_cuts(triangles, inside, count) =~= Seq::<Cut>::empty());
    } else {
        assert(pass_triangles(triangles, inside, count) =~= triangles.take(count as int));
    }
}

/// A pass over triangles that lie outside altogether returns nothing.
pub proof fn lemma_pass_drops_outside<S, N>(
    triangles: Seq<Triangle<S, N>>,
    inside: Seq<bool>,
    count: nat,
)
    requires
        count <= triangles.len(),
        forall|i: int, c: int|
            0 <= i < count && 0 <= c < 3 ==> !inside[(#[trigger] triangles[i].vertex_indices[c]) as int],
    ensures
        pass_triangles(triangles, inside, count) == Seq::<Triangle<S, N>>::empty(),
        pass_cuts(triangles, inside, count) == Seq::<Cut>::empty(),
    decreases count,
{
    if count > 0 {
        let before = (count - 1) as nat;
        lemma_pass_drops_outside(triangles, inside, before);
        let last = triangles[count - 1];
        let sides = corner_sides(last, inside);
        assert(sides[0] == inside[last.vertex_indices[0] as int]);
        assert(sides[1] == inside[last.vertex_indices[1] as int]);
        assert(sides[2] == inside[last.vertex_indices[2] as int]);
        assert(pass_triangles(triangles, inside, count) =~= Seq::<Triangle<S, N>>::empty());
        assert(pass_cuts(triangles, inside, count) =~= Seq::<Cut>::empty());
    }
}

/// A longer part of a pass has made all the cuts of a shorter part.
pub proof fn lemma_pass_cuts_grow<S, N>(
    triangles: Seq<Triangle<S, N>>,
    inside: Seq<bool>,
    shorter: nat,
    longer: nat,
)
    requires
        shorter <= longer,
    ensures
        pass_cuts(triangles, inside, shorter).len() <= pass_cuts(triangles, inside, longer).len(),
    decreases longer,
{
    if shorter < longer {
        lemma_pass_cuts_grow(triangles, inside, shorter, (longer - 1) as nat);
    }
}

/// A pass keeps the mesh valid. It cuts at most two edges for each triangle;
/// every cut leads from an existing vertex inside to an existing vertex that
/// is not; and once the point of every cut is appended to the vertex list,
/// every corner of every remaining triangle is a vertex of the list: one
/// that was there and lies inside, or one of the new points.
pub proof fn lemma_pass_in_bounds<S, N>(
    triangles: Seq<Triangle<S, N>>,
    inside: Seq<bool>,
    count: nat,
)
    requires
        count <= triangles.len(),
        forall|i: int| 0 <= i < count ==> (#[trigger] triangles[i]).in_bounds(inside.len() as int),
        inside.len() + pass_cuts(triangles, inside, count).len() <= usize::MAX,
    ensures
        pass_cuts(triangles, inside, count).len() <= 2 * count,
        pass_triangles(triangles, inside, count).len() <= 2 * count,
        forall|k: int|
            0 <= k < pass_cuts(triangles, inside, count).len() ==> {
                let cut = #[trigger] pass_cuts(triangles, inside, count)[k];
                &&& cut.inside < inside.len()
                &&& cut.outside < inside.len()
                &&& inside[cut.inside as int]
                &&& !inside[cut.outside as int]
            },
        forall|k: int|
            0 <= k < pass_triangles(triangles, inside, count).len() ==> (#[trigger] pass_triangles(
                triangles,
                inside,
                count,
            )[k]).in_bounds((inside.len() + pass_cuts(triangles, inside, count).len()) as int),
        forall|k: int, c: int|
            0 <= k < pass_triangles(triangles, inside, count).len() && 0 <= c < 3 ==> {
                let v = #[trigger] pass_triangles(triangles, inside, count)[k].vertex_indices[c];
                ||| (v < inside.len() && inside[v as int])
                ||| inside.len() <= v < inside.len() + pass_cuts(triangles, inside, count).len()
            },
    decreases count,
{
    if count > 0 {
        let before = (count - 1) as nat;
        lemma_pass_in_bounds(triangles, inside, before);
        let last = triangles[count - 1];
        let sides = corner_sides(last, inside);
        let v = last.vertex_indices;
        assert(last.in_bounds(inside.len() as int));
        assert(sides[0] == inside[v[0] as int]);
        assert(sides[1] == inside[v[1] as int]);
        assert(sides[2] == inside[v[2] as int]);
        let old_cuts = pass_cuts(triangles, inside, before);
        let old_triangles = pass_triangles(triangles, inside, before);
        let next = (inside.len() + old_cuts.len()) as int;
        let new_cuts = clipped_cuts(last, sides);
        let new_triangles = clipped_triangles(last, sides, next);
        let all_cuts = pass_cuts(triangles, inside, count);
        let all_triangles = pass_triangles(triangles, inside, count);
        assert(all_cuts == old_cuts + new_cuts);
        assert(all_triangles == old_triangles + new_triangles);
        assert forall|k: int| 0 <= k < all_cuts.len() implies {
            let cut = #[trigger] all_cuts[k];
            &&& cut.inside < inside.len()
            &&& cut.outside < inside.len()
            &&& inside[cut.inside as int]
            &&& !inside[cut.outside as int]
        } by {
            if k < old_cuts.len() {
                assert(all_cuts[k] == old_cuts[k]);
            } else {
                assert(all_cuts[k] == new_cuts[k - old_cuts.len()]);
            }
        }
        assert forall|k: int, c: int| 0 <= k < all_triangles.len() && 0 <= c < 3 implies {
            let v = #[trigger] all_triangles[k].vertex_indices[c];
            ||| (v < inside.len() && inside[v as int])
            ||| inside.len() <= v < inside.len() + all_cuts.len()
        } by {
            if k < old_triangles.len() {
                assert(all_triangles[k] == old_triangles[k]);
                let w = old_triangles[k].vertex_indices[c];
                assert((w < inside.len() && inside[w as int]) || inside.len() <= w < inside.len()
                    + old_cuts.len());
            } else {
                assert(all_triangles[k] == new_triangles[k - old_triangles.len()]);
            }
        }
        assert forall|k: int| 0 <= k < all_triangles.len() implies (#[trigger] all_triangles[k]).in_bounds(
            (inside.len() + all_cuts.len()) as int,
        ) by {
            assert forall|c: int| 0 <= c < 3 implies all_triangles[k].vertex_indices[c]
                < inside.len() + all_cuts.len() by {
                let v = all_triangles[k].vertex_indices[c];
                assert((v < inside.len() && inside[v as int]) || inside.len() <= v < inside.len()
                    + all_cuts.len());
            }
        }
    }
}

/// One pass over a mesh against `plane`: `inside` holds the answer of
/// `is_inside` for every vertex, the triangles are clipped by those answers,
/// the vertices that were there stay where they are, and behind them stands,
/// for each cut in turn, what `intersect` returned for its two ends.
pub open spec fn is_pass<V, S, N, P, FS: Fn(&P, &V) -> bool, FI: Fn(&P, &V, &V) -> V>(
    plane: P,
    vertices: Seq<V>,
    triangles: Seq<Triangle<S, N>>,
    clipped_vertices: Seq<V>,
    clipped: Seq<Triangle<S, N>>,
    inside: Seq<bool>,
    is_inside: FS,
    intersect: FI,
) -> bool {
    let cuts = pass_cuts(triangles, inside, triangles.len());
    &&& inside.len() == vertices.len()
    &&& forall|i: int|
        0 <= i < vertices.len() ==> is_inside.ensures((&plane, &vertices[i]), #[trigger] inside[i])
    &&& clipped == pass_triangles(triangles, inside, triangles.len())
    &&& clipped_vertices.len() == vertices.len() + cuts.len()
    &&& forall|i: int| 0 <= i < vertices.len() ==> #[trigger] clipped_vertices[i] == vertices[i]
    &&& forall|k: int|
        0 <= k < cuts.len() ==> intersect.ensures(
            (
                &plane,
                &vertices[(#[trigger] cuts[k]).inside as int],
                &vertices[cuts[k].outside as int],
            ),
            clipped_vertices[vertices.len() + k],
        )
}

/// The mesh `(clipped_vertices, clipped)` is what the first `count` planes
/// leave of the mesh `(vertices, triangles)`, one pass after the other.
pub open spec fn is_clipping<V, S, N, P, FS: Fn(&P, &V) -> bool, FI: Fn(&P, &V, &V) -> V>(
    planes: Seq<P>,
    count: nat,
    vertices: Seq<V>,
    triangles: Seq<Triangle<S, N>>,
    clipped_vertices: Seq<V>,
    clipped: Seq<Triangle<S, N>>,
    is_inside: FS,
    intersect: FI,
) -> bool
    decreases count,
{
    if count == 0 {
        clipped_vertices == vertices && clipped == triangles
    } else {
        exists|mid_vertices: Seq<V>, mid: Seq<Triangle<S, N>>, inside: Seq<bool>|
            {
                &&& is_clipping(
                    planes,
                    (count - 1) as nat,
                    vertices,
                    triangles,
                    mid_vertices,
                    mid,
                    is_inside,
                    intersect,
                )
                &&& #[trigger] is_pass(
                    planes[count - 1],
                    mid_vertices,
                    mid,
                    clipped_vertices,
                    clipped,
                    inside,
                    is_inside,
                    intersect,
                )
            }
    }
}

/// Clips a mesh against each plane in turn. For every plane, `is_inside`
/// says of each vertex whether it lies inside, every triangle is clipped by
/// those answers, and for every edge that is cut `intersect` gives the point
/// where it meets the plane, which is appended to the vertices. A triangle
/// can so be cut once for each plane. The vertices that were there keep
/// their places, and every triangle returned is over the vertices returned.
pub fn clip_mesh<V, S: Copy, N: Copy, P, FS: Fn(&P, &V) -> bool, FI: Fn(&P, &V, &V) -> V>(
    vertices: Vec<V>,
    triangles: Vec<Triangle<S, N>>,
    planes: &Vec<P>,
    is_inside: FS,
    intersect: FI,
) -> (clipped: (Vec<V>, Vec<Triangle<S, N>>))
    requires
        forall|i: int| 0 <= i < triangles.len() ==> (#[trigger] triangles[i]).in_bounds(
            vertices.len() as int,
        ),
        forall|plane: P, vertex: V| is_inside.requires((&plane, &vertex)),
        forall|plane: P, from: V, to: V| intersect.requires((&plane, &from, &to)),
    ensures
        is_clipping(
            planes@,
            planes.len() as nat,
            vertices@,
            triangles@,
            clipped.0@,
            clipped.1@,
            is_inside,
            intersect,
        ),
        forall|i: int| 0 <= i < clipped.1.len() ==> (#[trigger] clipped.1[i]).in_bounds(
            clipped.0.len() as int,
        ),
        clipped.0.len() >= vertices.len(),
        forall|i: int| 0 <= i < vertices.len() ==> #[trigger] clipped.0[i] == vertices[i],
{
    let ghost start_vertices = vertices@;
    let ghost start_triangles = triangles@;
    let mut vertices = vertices;
    let mut triangles = triangles;
    let mut done: usize = 0;
    while done < planes.len()
        invariant
            done <= planes.len(),
            forall|i: int| 0 <= i < triangles.len() ==> (#[trigger] triangles[i]).in_bounds(
                vertices.len() as int,
            ),
            forall|plane: P, vertex: V| is_inside.requires((&plane, &vertex)),
            forall|plane: P, from: V, to: V| intersect.requires((&plane, &from, &to)),
            is_clipping(
                planes@,
                done as nat,
                start_vertices,
                start_triangles,
                vertices@,
                triangles@,
                is_inside,
                intersect,
            ),
            vertices.len() >= start_vertices.len(),
            forall|i: int| 0 <= i < start_vertices.len() ==> #[trigger] vertices[i] == start_vertices[i],
        decreases planes.len() - done,
    {
        let plane = &planes[done];
        let ghost before = vertices@;
        let ghost before_triangles = triangles@;
        let mut inside: Vec<bool> = Vec::new();
        let mut i: usize = 0;
        while i < vertices.len()
            invariant
                i <= vertices.len(),
                inside.len() == i,
                vertices@ == before,
                forall|plane: P, vertex: V| is_inside.requires((&plane, &vertex)),
                forall|j: int|
                    0 <= j < i ==> is_inside.ensures((plane, &before[j]), #[trigger] inside[j]),
            decreases vertices.len() - i,
        {
            let side = is_inside(plane, &vertices[i]);
            inside.push(side);
            i = i + 1;
        }
        let mut remaining: Vec<Triangle<S, N>> = Vec::new();
        let ghost mut cuts: Seq<Cut> = Seq::empty();
        let mut t: usize = 0;
        while t < triangles.len()
            invariant
                t <= triangles.len(),
                triangles@ == before_triangles,
                inside.len() == before.len(),
                forall|i: int| 0 <= i < triangles.len() ==> (#[trigger] triangles[i]).in_bounds(
                    before.len() as int,
                ),
                forall|plane: P, from: V, to: V| intersect.requires((&plane, &from, &to)),
                vertices.len() == before.len() + cuts.len(),
                forall|j: int| 0 <= j < before.len() ==> #[trigger] vertices[j] == before[j],
                cuts == pass_cuts(before_triangles, inside@, t as nat),
                remaining@ == pass_triangles(before_triangles, inside@, t as nat),
                forall|k: int|
                    0 <= k < cuts.len() ==> (#[trigger] cuts[k]).inside < before.len() && cuts[k].outside
                        < before.len(),
                forall|k: int|
                    0 <= k < cuts.len() ==> intersect.ensures(
                        (
                            plane,
                            &before[(#[trigger] cuts[k]).inside as int],
                            &before[cuts[k].outside as int],
                        ),
                        vertices[before.len() + k],
                    ),
            decreases triangles.len() - t,
        {
            let triangle = triangles[t];
            let next: usize = vertices.len();
            let ghost old_cuts = cuts;
            match triangle_cuts(&triangle, &inside) {
                Some(edges) => {
                    let first =
                        intersect(plane, &vertices[edges[0].inside], &vertices[edges[0].outside]);
                    let second =
                        intersect(plane, &vertices[edges[1].inside], &vertices[edges[1].outside]);
                    vertices.push(first);
                    vertices.push(second);
                    assert(vertices.len() == next + 2);
                    triangle_pieces(triangle, &inside, next, &mut remaining);
                    proof {
                        cuts = old_cuts + edges@;
                        assert(cuts[old_cuts.len() as int] == edges[0]);
                        assert(cuts[old_cuts.len() as int + 1] == edges[1]);
                        assert forall|k: int| 0 <= k < cuts.len() implies intersect.ensures(
                            (
                                plane,
                                &before[(#[trigger] cuts[k]).inside as int],
                                &before[cuts[k].outside as int],
                            ),
                            vertices[before.len() + k],
                        ) by {
                            if k < old_cuts.len() {
                                assert(cuts[k] == old_cuts[k]);
                            }
                        }
                    }
                },
                None => {
                    triangle_pieces(triangle, &inside, next, &mut remaining);
                    proof {
                        cuts = old_cuts + Seq::<Cut>::empty();
                        assert(cuts =~= old_cuts);
                    }
                },
            }
            t = t + 1;
        }
        proof {
            lemma_pass_in_bounds(before_triangles, inside@, before_triangles.len());
        }
        triangles = remaining;
        done = done + 1;
        proof {
            assert(is_pass(
                planes@[done - 1],
                before,
                before_triangles,
                vertices@,
                triangles@,
                inside@,
                is_inside,
                intersect,
            ));
        }
    }
    (vertices, triangles)
}

/// After a pass, every corner of every remaining triangle is a vertex that
/// `is_inside` found inside, or a point that `intersect` returned. So
/// whatever holds of all of those holds of every corner that is left: where
/// inside means a positive distance and `intersect` returns points of the
/// plane, no corner that is left lies outside.
pub proof fn lemma_pass_corners_hold<V, S, N, P, FS: Fn(&P, &V) -> bool, FI: Fn(&P, &V, &V) -> V>(
    plane: P,
    vertices: Seq<V>,
    triangles: Seq<Triangle<S, N>>,
    clipped_vertices: Seq<V>,
    clipped: Seq<Triangle<S, N>>,
    inside: Seq<bool>,
    is_inside: FS,
    intersect: FI,
    holds: spec_fn(V) -> bool,
)
    requires
        forall|i: int| 0 <= i < triangles.len() ==> (#[trigger] triangles[i]).in_bounds(
            vertices.len() as int,
        ),
        clipped_vertices.len() <= usize::MAX,
        is_pass(plane, vertices, triangles, clipped_vertices, clipped, inside, is_inside, intersect),
        forall|vertex: V| #[trigger] is_inside.ensures((&plane, &vertex), true) ==> holds(vertex),
        forall|from: V, to: V, point: V| #[trigger]
            intersect.ensures((&plane, &from, &to), point) ==> holds(point),
    ensures
        forall|k: int, c: int|
            0 <= k < clipped.len() && 0 <= c < 3 ==> holds(
                clipped_vertices[(#[trigger] clipped[k].vertex_indices[c]) as int],
            ),
{
    let cuts = pass_cuts(triangles, inside, triangles.len());
    lemma_pass_in_bounds(triangles, inside, triangles.len());
    assert forall|k: int, c: int| 0 <= k < clipped.len() && 0 <= c < 3 implies holds(
        clipped_vertices[(#[trigger] clipped[k].vertex_indices[c]) as int],
    ) by {
        let v = clipped[k].vertex_indices[c] as int;
        if v < vertices.len() {
            assert(inside[v]);
            assert(is_inside.ensures((&plane, &vertices[v]), inside[v]));
            assert(clipped_vertices[v] == vertices[v]);
        } else {
            let cut = cuts[v - vertices.len()];
            assert(intersect.ensures(
                (&plane, &vertices[cut.inside as int], &vertices[cut.outside as int]),
                clipped_vertices[vertices.len() + (v - vertices.len())],
            ));
        }
    }
}

/// A mesh whose triangles lie inside every plane altogether comes back from
/// clipping as it went in: the same triangles over the same vertices.
pub proof fn lemma_mesh_inside_unchanged<V, S, N, P, FS: Fn(&P, &V) -> bool, FI: Fn(&P, &V, &V) -> V>(
    planes: Seq<P>,
    count: nat,
    vertices: Seq<V>,
    triangles: Seq<Triangle<S, N>>,
    clipped_vertices: Seq<V>,
    clipped: Seq<Triangle<S, N>>,
    is_inside: FS,
    intersect: FI,
)
    requires
        count <= planes.len(),
        forall|i: int| 0 <= i < triangles.len() ==> (#[trigger] triangles[i]).in_bounds(
            vertices.len() as int,
        ),
        forall|p: int, i: int, c: int, side: bool|
            0 <= p < count && 0 <= i < triangles.len() && 0 <= c < 3 && #[trigger] is_inside.ensures(
                (&planes[p], &vertices[triangles[i].vertex_indices[c] as int]),
                side,
            ) ==> side,
        is_clipping(
            planes,
            count,
            vertices,
            triangles,
            clipped_vertices,
            clipped,
            is_inside,
            intersect,
        ),
    ensures
        clipped_vertices == vertices,
        clipped == triangles,
    decreases count,
{
    if count > 0 {
        let (mid_vertices, mid, inside) = choose|
            mid_vertices: Seq<V>,
            mid: Seq<Triangle<S, N>>,
            inside: Seq<bool>,
        |
            {
                &&& is_clipping(
                    planes,
                    (count - 1) as nat,
                    vertices,
                    triangles,
                    mid_vertices,
                    mid,
                    is_inside,
                    intersect,
                )
                &&& #[trigger] is_pass(
                    planes[count - 1],
                    mid_vertices,
                    mid,
                    clipped_vertices,
                    clipped,
                    inside,
                    is_inside,
                    intersect,
                )
            };
        lemma_mesh_inside_unchanged(
            planes,
            (count - 1) as nat,
            vertices,
            triangles,
            mid_vertices,
            mid,
            is_inside,
            intersect,
        );
        assert forall|i: int, c: int| 0 <= i < triangles.len() && 0 <= c < 3 implies inside[(
        #[trigger] triangles[i].vertex_indices[c]) as int] by {
            let v = triangles[i].vertex_indices[c] as int;
            assert(triangles[i].in_bounds(vertices.len() as int));
            assert(is_inside.ensures((&planes[count - 1], &vertices[v]), inside[v]));
        }
        lemma_pass_keeps_inside(triangles, inside, triangles.len());
        assert(triangles.take(triangles.len() as int) =~= triangles);
        assert(clipped_vertices =~= vertices);
    }
}

/// How many of three flags are set.
fn count_true(s0: bool, s1: bool, s2: bool) -> (count: u8)
    ensures
        count == inside_count(seq![s0, s1, s2]),
{
    let mut count: u8 = 0;
    if s0 {
        count = count + 1;
    }
    if s1 {
        count = count + 1;
    }
    if s2 {
        count = count + 1;
    }
    count
}

/// The first of three corners whose flag is set, the third where neither of
/// the first two is.
fn first_true(s0: bool, s1: bool) -> (corner: usize)
    ensures
        corner < 3,
        corner == if s0 {
            0int
        } else if s1 {
            1int
        } else {
            2int
        },
{
    if s0 {
        0
    } else if s1 {
        1
    } else {
        2
    }
}

/// The two corners other than `corner`, the lower one first.
fn other_two(corner: usize) -> (others: (usize, usize))
    requires
        corner < 3,
    ensures
        (others.0 as int, others.1 as int) == other_corners(corner as int),
{
    if corner == 0 {
        (1, 2)
    } else if corner == 1 {
        (0, 2)
    } else {
        (0, 1)
    }
}

} // verus!
