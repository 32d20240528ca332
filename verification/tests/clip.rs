use rasterizer::clip::{clip_mesh, clip_triangle, clip_triangles, Cut};
use rasterizer::triangle::Triangle;

type Tri = Triangle<char, u8>;

fn bare(v1: usize, v2: usize, v3: usize, surface: char) -> Tri {
    Triangle::new_no_normals(v1, v2, v3, surface)
}

fn cut(inside: usize, outside: usize) -> Cut {
    Cut { inside, outside }
}

fn clip_one(triangle: Tri, inside: &Vec<bool>) -> (Vec<Tri>, Vec<Cut>) {
    let mut triangles = Vec::new();
    let mut cuts = Vec::new();
    clip_triangle(triangle, inside, &mut triangles, &mut cuts);
    (triangles, cuts)
}

#[test]
fn triangle_inside_is_kept_unchanged() {
    let triangle: Tri = Triangle::new(2, 0, 1, 'r', 7, 8, 9);
    let (triangles, cuts) = clip_one(triangle, &vec![true, true, true]);
    assert_eq!(triangles, vec![triangle]);
    assert_eq!(triangles[0].vertex_indices, [2, 0, 1]);
    assert_eq!(triangles[0].normals, Some([7, 8, 9]));
    assert!(cuts.is_empty());
}

#[test]
fn triangle_outside_is_dropped() {
    let triangle: Tri = Triangle::new(0, 1, 2, 'r', 7, 8, 9);
    let (triangles, cuts) = clip_one(triangle, &vec![false, false, false]);
    assert!(triangles.is_empty());
    assert!(cuts.is_empty());
}

#[test]
fn one_corner_inside_gives_one_triangle() {
    // corners are vertices 4, 5, 6 of a list of 7; only the first corner is inside
    let triangle: Tri = Triangle::new(4, 5, 6, 'g', 1, 2, 3);
    let mut inside = vec![false; 7];
    inside[4] = true;
    let (triangles, cuts) = clip_one(triangle, &inside);
    // B' on AB is vertex 7, C' on AC is vertex 8; the triangle is (A, C', B')
    assert_eq!(cuts, vec![cut(4, 5), cut(4, 6)]);
    assert_eq!(triangles, vec![bare(4, 8, 7, 'g')]);
    assert_eq!(triangles[0].normals, None);
}

#[test]
fn one_corner_inside_each_position() {
    let triangle: Tri = bare(0, 1, 2, 'g');
    let (triangles, cuts) = clip_one(triangle, &vec![false, true, false]);
    assert_eq!(cuts, vec![cut(1, 0), cut(1, 2)]);
    assert_eq!(triangles, vec![bare(1, 4, 3, 'g')]);
    let (triangles, cuts) = clip_one(triangle, &vec![false, false, true]);
    assert_eq!(cuts, vec![cut(2, 0), cut(2, 1)]);
    assert_eq!(triangles, vec![bare(2, 4, 3, 'g')]);
}

#[test]
fn two_corners_inside_give_two_triangles() {
    let triangle: Tri = Triangle::new(0, 1, 2, 'b', 1, 2, 3);
    let (triangles, cuts) = clip_one(triangle, &vec![true, true, false]);
    // A' on AC is vertex 3, B' on BC is vertex 4: (A, B, A') and (A', B, B')
    assert_eq!(cuts, vec![cut(0, 2), cut(1, 2)]);
    assert_eq!(triangles, vec![bare(0, 1, 3, 'b'), bare(3, 1, 4, 'b')]);
}

#[test]
fn two_corners_inside_each_position() {
    let triangle: Tri = bare(0, 1, 2, 'b');
    let (triangles, cuts) = clip_one(triangle, &vec![false, true, true]);
    assert_eq!(cuts, vec![cut(1, 0), cut(2, 0)]);
    assert_eq!(triangles, vec![bare(1, 2, 3, 'b'), bare(3, 2, 4, 'b')]);
    let (triangles, cuts) = clip_one(triangle, &vec![true, false, true]);
    assert_eq!(cuts, vec![cut(0, 1), cut(2, 1)]);
    assert_eq!(triangles, vec![bare(0, 2, 3, 'b'), bare(3, 2, 4, 'b')]);
}

#[test]
fn new_vertices_are_numbered_after_earlier_cuts() {
    let triangle: Tri = bare(0, 1, 2, 'b');
    let inside = vec![true, false, false];
    let mut triangles = vec![bare(9, 9, 9, 'x')];
    let mut cuts = vec![cut(0, 1), cut(0, 2), cut(0, 1)];
    clip_triangle(triangle, &inside, &mut triangles, &mut cuts);
    assert_eq!(cuts.len(), 5);
    assert_eq!(&cuts[3..], &[cut(0, 1), cut(0, 2)]);
    // three vertices and three cuts before: the new vertices are 6 and 7
    assert_eq!(triangles, vec![bare(9, 9, 9, 'x'), bare(0, 7, 6, 'b')]);
}

#[test]
fn a_vertex_shared_by_corners_has_one_side() {
    // a degenerate triangle with two corners at the same vertex
    let triangle: Tri = bare(0, 0, 1, 'd');
    let (triangles, cuts) = clip_one(triangle, &vec![true, false]);
    assert_eq!(cuts, vec![cut(0, 1), cut(0, 1)]);
    assert_eq!(triangles, vec![bare(0, 0, 2, 'd'), bare(2, 0, 3, 'd')]);
}

#[test]
fn pass_clips_every_triangle_in_order() {
    let triangles: Vec<Tri> = vec![
        Triangle::new(0, 1, 2, 'a', 1, 1, 1),
        Triangle::new(1, 2, 3, 'b', 2, 2, 2),
        Triangle::new(2, 3, 4, 'c', 3, 3, 3),
        Triangle::new(3, 4, 5, 'd', 4, 4, 4),
    ];
    let inside = vec![true, true, true, false, false, false];
    let (remaining, cuts) = clip_triangles(&triangles, &inside);
    assert_eq!(cuts, vec![cut(1, 3), cut(2, 3), cut(2, 3), cut(2, 4)]);
    assert_eq!(
        remaining,
        vec![
            Triangle::new(0, 1, 2, 'a', 1, 1, 1),
            bare(1, 2, 6, 'b'),
            bare(6, 2, 7, 'b'),
            bare(2, 9, 8, 'c'),
        ]
    );
    let count = inside.len() + cuts.len();
    assert!(remaining.iter().all(|t| t.vertex_indices.iter().all(|&v| v < count)));
}

#[test]
fn pass_over_a_mesh_inside_changes_nothing() {
    let triangles: Vec<Tri> = vec![Triangle::new(0, 1, 2, 'a', 1, 1, 1), bare(2, 1, 3, 'b')];
    let (remaining, cuts) = clip_triangles(&triangles, &vec![true; 4]);
    assert_eq!(remaining, triangles);
    assert!(cuts.is_empty());
}

#[test]
fn pass_over_a_mesh_outside_leaves_nothing() {
    let triangles: Vec<Tri> = vec![Triangle::new(0, 1, 2, 'a', 1, 1, 1), bare(2, 1, 3, 'b')];
    let (remaining, cuts) = clip_triangles(&triangles, &vec![false; 4]);
    assert!(remaining.is_empty());
    assert!(cuts.is_empty());
}

#[test]
fn pass_over_no_triangles() {
    let triangles: Vec<Tri> = vec![];
    let (remaining, cuts) = clip_triangles(&triangles, &vec![true, false]);
    assert!(remaining.is_empty());
    assert!(cuts.is_empty());
}

// A plane of the tests: the points with `axis` coordinate above `bound` are inside.
struct Bound {
    axis: usize,
    bound: f64,
}

fn above(plane: &Bound, vertex: &[f64; 2]) -> bool {
    vertex[plane.axis] - plane.bound > 0.0
}

fn crossing(plane: &Bound, from: &[f64; 2], to: &[f64; 2]) -> [f64; 2] {
    let t = (plane.bound - from[plane.axis]) / (to[plane.axis] - from[plane.axis]);
    [from[0] + (to[0] - from[0]) * t, from[1] + (to[1] - from[1]) * t]
}

#[test]
fn mesh_is_clipped_by_each_plane_in_turn() {
    let vertices = vec![[0.0, 0.0], [4.0, 0.0], [0.0, 4.0]];
    let triangles: Vec<Triangle<char, u8>> = vec![Triangle::new(0, 1, 2, 's', 1, 2, 3)];
    let planes = vec![Bound { axis: 0, bound: 1.0 }, Bound { axis: 1, bound: 1.0 }];
    let (vertices, triangles) = clip_mesh(vertices, triangles, &planes, above, crossing);
    // x > 1 keeps the corner (4, 0): cuts towards (0, 0) and (0, 4)
    assert_eq!(vertices[..5], [[0.0, 0.0], [4.0, 0.0], [0.0, 4.0], [1.0, 0.0], [1.0, 3.0]]);
    // the triangle (1, 4, 3) then has only (1, 3) above y > 1
    assert_eq!(vertices[5..], [[3.0, 1.0], [1.0, 1.0]]);
    assert_eq!(triangles, vec![bare(4, 6, 5, 's')]);
    for triangle in &triangles {
        for &v in &triangle.vertex_indices {
            assert!(above(&planes[0], &vertices[v]) || vertices[v][0] == 1.0);
            assert!(above(&planes[1], &vertices[v]) || vertices[v][1] == 1.0);
        }
    }
}

#[test]
fn mesh_inside_every_plane_is_returned_as_it_is() {
    let vertices = vec![[2.0, 2.0], [4.0, 2.0], [2.0, 4.0]];
    let triangles: Vec<Triangle<char, u8>> = vec![Triangle::new(0, 1, 2, 's', 1, 2, 3)];
    let planes = vec![Bound { axis: 0, bound: 1.0 }, Bound { axis: 1, bound: 1.0 }];
    let (clipped_vertices, clipped) =
        clip_mesh(vertices.clone(), triangles.clone(), &planes, above, crossing);
    assert_eq!(clipped_vertices, vertices);
    assert_eq!(clipped, triangles);
}

#[test]
fn mesh_outside_one_plane_loses_its_triangles_and_keeps_its_vertices() {
    let vertices = vec![[2.0, 0.0], [4.0, 0.5], [2.0, 1.0]];
    let triangles: Vec<Triangle<char, u8>> = vec![Triangle::new(0, 1, 2, 's', 1, 2, 3)];
    let planes = vec![Bound { axis: 0, bound: 1.0 }, Bound { axis: 1, bound: 1.0 }];
    let (clipped_vertices, clipped) = clip_mesh(vertices.clone(), triangles, &planes, above, crossing);
    assert_eq!(clipped_vertices, vertices);
    assert!(clipped.is_empty());
}

#[test]
fn mesh_without_planes_is_not_clipped() {
    let vertices = vec![[0.0, 0.0], [4.0, 0.0], [0.0, 4.0]];
    let triangles: Vec<Triangle<char, u8>> = vec![Triangle::new(0, 1, 2, 's', 1, 2, 3)];
    let planes: Vec<Bound> = vec![];
    let (clipped_vertices, clipped) =
        clip_mesh(vertices.clone(), triangles.clone(), &planes, above, crossing);
    assert_eq!(clipped_vertices, vertices);
    assert_eq!(clipped, triangles);
}

#[test]
fn mesh_is_clipped_by_any_number_of_planes() {
    let vertices = vec![[2.0, 2.0], [4.0, 2.0], [2.0, 4.0]];
    let triangles: Vec<Triangle<char, u8>> = vec![Triangle::new(0, 1, 2, 's', 1, 2, 3)];
    let planes: Vec<Bound> = (0..200).map(|i| Bound { axis: i % 2, bound: 1.0 }).collect();
    let (clipped_vertices, clipped) =
        clip_mesh(vertices.clone(), triangles.clone(), &planes, above, crossing);
    assert_eq!(clipped_vertices, vertices);
    assert_eq!(clipped, triangles);
}

#[test]
fn mesh_keeps_its_vertices_in_place_and_appends_the_new_ones() {
    let vertices = vec![[0.0, 0.0], [4.0, 0.0], [0.0, 4.0], [9.0, 9.0]];
    let triangles: Vec<Triangle<char, u8>> = vec![Triangle::new(0, 1, 2, 's', 1, 2, 3)];
    let planes: Vec<Bound> = (0..70)
        .map(|i| Bound { axis: i % 2, bound: if i < 2 { 1.0 } else { 0.5 } })
        .collect();
    let (clipped_vertices, clipped) = clip_mesh(vertices.clone(), triangles, &planes, above, crossing);
    assert_eq!(clipped_vertices[..4], vertices[..]);
    assert_eq!(clipped_vertices.len(), 4 + 4);
    // what is left after the first two planes lies on or inside all the others
    assert_eq!(clipped, vec![bare(5, 7, 6, 's')]);
    for triangle in &clipped {
        for &v in &triangle.vertex_indices {
            assert!(clipped_vertices[v][0] >= 1.0 && clipped_vertices[v][1] >= 1.0);
        }
    }
}
