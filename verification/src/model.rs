//! The faces of a sphere made of rings of vertices.
//!
//! The sphere has `divs + 1` rings of `divs` vertices each, numbered ring by
//! ring: vertex `i` of ring `d` has the index `d * divs + i`. Between two
//! neighbouring rings every vertex spans two triangles with its neighbour to
//! the right, which for the last vertex of a ring is the first one.

use vstd::prelude::*;

verus! {

/// The position in the list of faces of the first of the two faces that
/// vertex `i` of ring `d` spans.
pub open spec fn face_slot(divs: int, d: int, i: int) -> int {
    2 * (d * divs + i)
}

/// The neighbour to the right of vertex `i` within its ring.
pub open spec fn right_of(divs: int, i: int) -> int {
    if i + 1 < divs {
        i + 1
    } else {
        0
    }
}

/// The first face at vertex `i` of ring `d`: the vertex, the right
/// neighbour's counterpart on the next ring, and the right neighbour.
pub open spec fn first_face(divs: int, d: int, i: int) -> Seq<usize> {
    seq![
        (d * divs + i) as usize,
        ((d + 1) * divs + right_of(divs, i)) as usize,
        (d * divs + right_of(divs, i)) as usize,
    ]
}

/// The second face at vertex `i` of ring `d`: the vertex, its counterpart on
/// the next ring, and the right neighbour's counterpart on the next ring.
pub open spec fn second_face(divs: int, d: int, i: int) -> Seq<usize> {
    seq![
        (d * divs + i) as usize,
        ((d + 1) * divs + i) as usize,
        ((d + 1) * divs + right_of(divs, i)) as usize,
    ]
}

/// The vertices of ring `d` and of the ring after it are vertices of the
/// sphere, and the faces of an earlier vertex stand earlier in the list.
proof fn lemma_ring_bounds(divs: int, d: int, i: int)
    requires
        0 <= d < divs,
        0 <= i < divs,
    ensures
        0 <= d * divs,
        d * divs + divs == (d + 1) * divs,
        (d + 1) * divs + divs <= (divs + 1) * divs,
        divs * divs + divs == (divs + 1) * divs,
        d * divs + i < divs * divs,
        0 <= right_of(divs, i) < divs,
{
    assert(0 <= d * divs) by (nonlinear_arith)
        requires
            0 <= d,
            0 <= divs,
    ;
    assert(d * divs + divs == (d + 1) * divs) by (nonlinear_arith);
    assert((d + 1) * divs <= divs * divs) by (nonlinear_arith)
        requires
            0 <= d + 1 <= divs,
            0 <= divs,
    ;
    assert(divs * divs + divs == (divs + 1) * divs) by (nonlinear_arith);
}

/// The triangles of the sphere as triples of vertex indices: for each ring
/// but the last, and for each vertex of it in turn, the two faces that the
/// vertex spans.
pub fn sphere_faces(divs: usize) -> (faces: Vec<[usize; 3]>)
    requires
        2 * ((divs + 1) * divs) <= usize::MAX,
    ensures
        faces.len() == 2 * (divs * divs),
        forall|d: int, i: int|
            0 <= d < divs && 0 <= i < divs ==> {
                &&& faces[#[trigger] face_slot(divs as int, d, i)]@ == first_face(divs as int, d, i)
                &&& faces[face_slot(divs as int, d, i) + 1]@ == second_face(divs as int, d, i)
            },
        forall|k: int, c: int|
            0 <= k < faces.len() && 0 <= c < 3 ==> (#[trigger] faces[k][c]) < (divs + 1) * divs,
{
    let mut faces: Vec<[usize; 3]> = Vec::new();
    let mut d: usize = 0;
    proof {
        assert(d * divs == 0) by (nonlinear_arith)
            requires
                d == 0,
        ;
    }
    while d < divs
        invariant
            d <= divs,
            2 * ((divs + 1) * divs) <= usize::MAX,
            faces.len() == 2 * (d * divs),
            forall|dd: int, ii: int|
                0 <= dd < d && 0 <= ii < divs ==> {
                    &&& faces[#[trigger] face_slot(divs as int, dd, ii)]@ == first_face(
                        divs as int,
                        dd,
                        ii,
                    )
                    &&& faces[face_slot(divs as int, dd, ii) + 1]@ == second_face(
                        divs as int,
                        dd,
                        ii,
                    )
                },
            forall|k: int, c: int|
                0 <= k < faces.len() && 0 <= c < 3 ==> (#[trigger] faces[k][c]) < (divs + 1)
                    * divs,
        decreases divs - d,
    {
        let mut i: usize = 0;
        while i < divs
            invariant
                d < divs,
                i <= divs,
                2 * ((divs + 1) * divs) <= usize::MAX,
                faces.len() == 2 * (d * divs + i),
                forall|dd: int, ii: int|
                    0 <= dd <= d && 0 <= ii < divs && (dd < d || ii < i) ==> {
                        &&& faces[#[trigger] face_slot(divs as int, dd, ii)]@ == first_face(
                            divs as int,
                            dd,
                            ii,
                        )
                        &&& faces[face_slot(divs as int, dd, ii) + 1]@ == second_face(
                            divs as int,
                            dd,
                            ii,
                        )
                    },
                forall|k: int, c: int|
                    0 <= k < faces.len() && 0 <= c < 3 ==> (#[trigger] faces[k][c]) < (divs + 1)
                        * divs,
            decreases divs - i,
        {
            proof {
                lemma_ring_bounds(divs as int, d as int, i as int);
            }
            let right: usize = if i + 1 < divs {
                i + 1
            } else {
                0
            };
            let i0: usize = d * divs + i;
            let i1: usize = (d + 1) * divs + right;
            let i2: usize = d * divs + right;
            let ghost before = faces@;
            faces.push([i0, i1, i2]);
            faces.push([i0, i0 + divs, i1]);
            proof {
                let slot = face_slot(divs as int, d as int, i as int);
                assert(faces[slot]@ =~= first_face(divs as int, d as int, i as int));
                assert(faces[slot + 1]@ =~= second_face(divs as int, d as int, i as int));
                assert forall|dd: int, ii: int|
                    0 <= dd <= d && 0 <= ii < divs && (dd < d || ii < i + 1) implies {
                    &&& faces[#[trigger] face_slot(divs as int, dd, ii)]@ == first_face(
                        divs as int,
                        dd,
                        ii,
                    )
                    &&& faces[face_slot(divs as int, dd, ii) + 1]@ == second_face(
                        divs as int,
                        dd,
                        ii,
                    )
                } by {
                    if dd == d && ii == i {
                    } else {
                        lemma_ring_bounds(divs as int, dd, ii);
                        if dd < d {
                            assert((dd + 1) * divs <= d * divs) by (nonlinear_arith)
                                requires
                                    dd + 1 <= d,
                                    0 <= divs,
                            ;
                        }
                        let earlier = face_slot(divs as int, dd, ii);
                        assert(earlier + 1 < before.len());
                        assert(faces[earlier] == before[earlier]);
                        assert(faces[earlier + 1] == before[earlier + 1]);
                    }
                }
                assert forall|k: int, c: int| 0 <= k < faces.len() && 0 <= c < 3 implies (
                #[trigger] faces[k][c]) < (divs + 1) * divs by {
                    if k < before.len() {
                        assert(faces[k] == before[k]);
                    }
                }
            }
            i = i + 1;
        }
        proof {
            assert(d * divs + divs == (d + 1) * divs) by (nonlinear_arith);
        }
        d = d + 1;
    }
    faces
}

} // verus!
