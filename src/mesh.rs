//! Mesh faces: triangles as indices into a vertex list, with one flat color
//! each, and the faces of the built-in shapes.
use vstd::prelude::*;

use crate::geometry::Color;

verus! {

/// Three indices into the owning mesh's vertex list and the face color.
#[derive(Clone, Copy, Debug)]
pub struct Triangle {
    pub vertices: [usize; 3],
    pub color: Color,
}

pub open spec fn tri(a: usize, b: usize, c: usize, color: Color) -> Triangle {
    Triangle { vertices: [a, b, c], color }
}

/// Whether every index of every face is below n.
pub open spec fn indices_below(faces: Seq<Triangle>, n: usize) -> bool {
    forall|i: int, k: int| 0 <= i < faces.len() && 0 <= k < 3 ==> #[trigger] faces[i].vertices@[k] < n
}

fn face(a: usize, b: usize, c: usize, color: Color) -> (t: Triangle)
    ensures
        t == tri(a, b, c, color),
{
    Triangle { vertices: [a, b, c], color }
}

/// The faces of a cube over vertices 0-3 (front, counterclockwise from
/// bottom left) and 4-7 (back): two per side, wound outward.
pub open spec fn cube_faces() -> Seq<Triangle> {
    seq![
        tri(0, 1, 2, Color { r: 255, g: 0, b: 0 }),
        tri(0, 2, 3, Color { r: 255, g: 0, b: 0 }),
        tri(4, 6, 5, Color { r: 0, g: 255, b: 0 }),
        tri(4, 7, 6, Color { r: 0, g: 255, b: 0 }),
        tri(4, 0, 3, Color { r: 0, g: 0, b: 255 }),
        tri(4, 3, 7, Color { r: 0, g: 0, b: 255 }),
        tri(1, 5, 6, Color { r: 255, g: 255, b: 0 }),
        tri(1, 6, 2, Color { r: 255, g: 255, b: 0 }),
        tri(3, 2, 6, Color { r: 0, g: 255, b: 255 }),
        tri(3, 6, 7, Color { r: 0, g: 255, b: 255 }),
        tri(4, 1, 0, Color { r: 255, g: 0, b: 255 }),
        tri(4, 5, 1, Color { r: 255, g: 0, b: 255 }),
    ]
}

/// The two white faces of a square plane over vertices 0-3.
pub open spec fn plane_faces() -> Seq<Triangle> {
    seq![
        tri(0, 1, 2, Color { r: 255, g: 255, b: 255 }),
        tri(0, 2, 3, Color { r: 255, g: 255, b: 255 }),
    ]
}

/// The faces of a square pyramid: base vertices 0-3, apex 4.
pub open spec fn pyramid_faces() -> Seq<Triangle> {
    seq![
        tri(0, 2, 1, Color { r: 255, g: 0, b: 0 }),
        tri(0, 3, 2, Color { r: 255, g: 0, b: 0 }),
        tri(0, 1, 4, Color { r: 0, g: 255, b: 0 }),
        tri(1, 2, 4, Color { r: 0, g: 0, b: 255 }),
        tri(2, 3, 4, Color { r: 255, g: 255, b: 0 }),
        tri(3, 0, 4, Color { r: 0, g: 255, b: 255 }),
    ]
}

/// The faces of the cube; every index is below 8, the cube's vertex count.
pub fn cube_triangles() -> (faces: Vec<Triangle>)
    ensures
        faces@ == cube_faces(),
        indices_below(faces@, 8),
{
    let mut faces: Vec<Triangle> = Vec::new();
    faces.push(face(0, 1, 2, Color::red()));
    faces.push(face(0, 2, 3, Color::red()));
    faces.push(face(4, 6, 5, Color::green()));
    faces.push(face(4, 7, 6, Color::green()));
    faces.push(face(4, 0, 3, Color::blue()));
    faces.push(face(4, 3, 7, Color::blue()));
    faces.push(face(1, 5, 6, Color::yellow()));
    faces.push(face(1, 6, 2, Color::yellow()));
    faces.push(face(3, 2, 6, Color::cyan()));
    faces.push(face(3, 6, 7, Color::cyan()));
    faces.push(face(4, 1, 0, Color::magenta()));
    faces.push(face(4, 5, 1, Color::magenta()));
    assert(faces@ =~= cube_faces());
    faces
}

/// The faces of the plane; every index is below 4.
pub fn plane_triangles() -> (faces: Vec<Triangle>)
    ensures
        faces@ == plane_faces(),
        indices_below(faces@, 4),
{
    let mut faces: Vec<Triangle> = Vec::new();
    faces.push(face(0, 1, 2, Color::white()));
    faces.push(face(0, 2, 3, Color::white()));
    assert(faces@ =~= plane_faces());
    faces
}

/// The faces of the pyramid; every index is below 5.
pub fn pyramid_triangles() -> (faces: Vec<Triangle>)
    ensures
        faces@ == pyramid_faces(),
        indices_below(faces@, 5),
{
    let mut faces: Vec<Triangle> = Vec::new();
    faces.push(face(0, 2, 1, Color::red()));
    faces.push(face(0, 3, 2, Color::red()));
    faces.push(face(0, 1, 4, Color::green()));
    faces.push(face(1, 2, 4, Color::blue()));
    faces.push(face(2, 3, 4, Color::yellow()));
    faces.push(face(3, 0, 4, Color::cyan()));
    assert(faces@ =~= pyramid_faces());
    faces
}

} // verus!
