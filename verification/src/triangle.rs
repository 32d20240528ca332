//! A triangle of a mesh: three indices into the mesh's vertex list, what
//! covers it, and optionally one normal for each corner.

use vstd::prelude::*;
use crate::point::Point;

verus! {

/// A triangle over a vertex list. `S` is what covers the face and `N` is a
/// normal; the library copies both along and never looks inside them.
#[derive(Clone, Copy, Debug, PartialEq)]
pub struct Triangle<S, N> {
    pub vertex_indices: [usize; 3],
    pub surface: S,
    pub normals: Option<[N; 3]>,
}

/// The scanline of each corner of `triangle`, in the order of its corners.
pub open spec fn corner_rows<S, N, H>(triangle: Triangle<S, N>, points: Seq<Point<H>>) -> Seq<
    int,
> {
    Seq::new(3, |i: int| points[triangle.vertex_indices[i] as int].y as int)
}

/// Corner `first` comes before corner `second`: it lies on a lower row, or on
/// the same row and the triangle names it earlier.
pub open spec fn is_before(first: usize, second: usize, rows: Seq<int>) -> bool {
    ||| rows[first as int] < rows[second as int]
    ||| (rows[first as int] == rows[second as int] && first < second)
}

/// `order` lists the corners 0, 1, 2 by ascending row, and corners on one row
/// in the order in which the triangle names them.
pub open spec fn is_row_order(order: Seq<usize>, rows: Seq<int>) -> bool {
    &&& order.len() == 3
    &&& order[0] < 3
    &&& order[1] < 3
    &&& order[2] < 3
    &&& is_before(order[0], order[1], rows)
    &&& is_before(order[1], order[2], rows)
    &&& is_before(order[0], order[2], rows)
}

impl<S, N> Triangle<S, N> {
    /// All three corners are vertices of a list of `vertex_count` vertices.
    pub open spec fn in_bounds(self, vertex_count: int) -> bool {
        forall|i: int| 0 <= i < 3 ==> self.vertex_indices[i] < vertex_count
    }

    /// A triangle with a normal at each corner.
    pub fn new(v1: usize, v2: usize, v3: usize, surface: S, n1: N, n2: N, n3: N) -> (triangle:
        Triangle<S, N>)
        ensures
            triangle.vertex_indices@ == seq![v1, v2, v3],
            triangle.surface == surface,
            triangle.normals matches Some(normals) && normals@ == seq![n1, n2, n3],
    {
        Triangle { vertex_indices: [v1, v2, v3], surface, normals: Some([n1, n2, n3]) }
    }

    /// A triangle without normals, to be shaded by the normal of its face.
    pub fn new_no_normals(v1: usize, v2: usize, v3: usize, surface: S) -> (triangle: Triangle<
        S,
        N,
    >)
        ensures
            triangle.vertex_indices@ == seq![v1, v2, v3],
            triangle.surface == surface,
            triangle.normals is None,
    {
        Triangle { vertex_indices: [v1, v2, v3], surface, normals: None }
    }

    /// The corners 0, 1, 2 ordered from the lowest projected row to the
    /// highest; corners on the same row keep their order.
    pub fn sorted_indexes_by_y<H>(&self, vertexes: &Vec<Point<H>>) -> (order: [usize; 3])
        requires
            self.in_bounds(vertexes.len() as int),
        ensures
            is_row_order(order@, corner_rows(*self, vertexes@)),
    {
        let y0: i64 = vertexes[self.vertex_indices[0]].y;
        let y1: i64 = vertexes[self.vertex_indices[1]].y;
        let y2: i64 = vertexes[self.vertex_indices[2]].y;
        if y0 <= y1 {
            if y1 <= y2 {
                [0, 1, 2]
            } else if y0 <= y2 {
                [0, 2, 1]
            } else {
                [2, 0, 1]
            }
        } else {
            if y0 <= y2 {
                [1, 0, 2]
            } else if y1 <= y2 {
                [1, 2, 0]
            } else {
                [2, 1, 0]
            }
        }
    }
}

/// Only one order of the corners is a row order: the contract of
/// `sorted_indexes_by_y` leaves no choice.
pub proof fn lemma_row_order_unique(first: Seq<usize>, second: Seq<usize>, rows: Seq<int>)
    requires
        is_row_order(first, rows),
        is_row_order(second, rows),
    ensures
        first == second,
{
    assert(first =~= second);
}

} // verus!
