//! The triangle mesh consumed by the renderer: an ordered vertex list and
//! an ordered face list, each face a triple of 0-based vertex indices.
//!
//! The mesh text itself is read and tokenized by the surrounding program;
//! this module owns the data structure and its index invariant.
use vstd::prelude::*;
use crate::geometry::{Vector3D, in_range3};

verus! {

/// Largest vertex component magnitude the renderer accepts, in raw
/// fixed-point units: keeps every normal and shading intermediate inside
/// 128-bit arithmetic (machine limit only; unit meshes stay far below it).
pub const MESH_COORD_LIMIT: i64 = 0x100_0000;

/// A face: three 0-based indices into the vertex list.
pub type Face = [i32; 3];

/// The fatal error of the pipeline: a face names a vertex that does not
/// exist. It is raised at load time and again by the renderer if an
/// unchecked mesh reaches it; it is never silently clamped.
#[derive(Clone, Copy, Debug, PartialEq, Eq, Structural)]
pub enum RenderError {
    IndexOutOfRange,
}

/// Every index of `face` names a vertex of a list of length `n`.
pub open spec fn face_ok(face: Face, n: int) -> bool {
    &&& 0 <= face[0] < n
    &&& 0 <= face[1] < n
    &&& 0 <= face[2] < n
}

/// The mesh invariant: every face references existing vertices.
pub open spec fn faces_ok(faces: Seq<Face>, n: int) -> bool {
    forall|i: int| 0 <= i < faces.len() ==> face_ok(#[trigger] faces[i], n)
}

/// Every vertex component lies within [`MESH_COORD_LIMIT`].
pub open spec fn coords_bounded(vs: Seq<Vector3D>) -> bool {
    forall|i: int| 0 <= i < vs.len() ==> in_range3(#[trigger] vs[i], MESH_COORD_LIMIT as int)
}

/// A triangle mesh: vertices in mesh space (fixed point) and faces as
/// index triples.
#[derive(Debug)]
pub struct Model {
    pub vertices: Vec<Vector3D>,
    pub faces: Vec<Face>,
}

impl Model {
    /// The mesh invariant holds: every face index is in range.
    pub open spec fn wf(self) -> bool {
        faces_ok(self.faces@, self.vertices@.len() as int)
    }

    /// Builds a mesh from loader output, validating the index invariant:
    /// a face referencing a missing vertex fails the whole load with
    /// `IndexOutOfRange`, never a partial mesh.
    pub fn new(vertices: Vec<Vector3D>, faces: Vec<Face>) -> (r: Result<Model, RenderError>)
        ensures
            r is Ok <==> faces_ok(faces@, vertices@.len() as int),
            r matches Ok(m) ==> m.vertices == vertices && m.faces == faces && m.wf(),
            r matches Err(e) ==> e == RenderError::IndexOutOfRange,
    {
        let n = vertices.len();
        let mut i: usize = 0;
        while i < faces.len()
            invariant
                0 <= i <= faces.len(),
                n == vertices.len(),
                forall|j: int| 0 <= j < i ==> face_ok(#[trigger] faces@[j], n as int),
            decreases faces.len() - i,
        {
            let f = faces[i];
            if f[0] < 0 || f[0] as usize >= n || f[1] < 0 || f[1] as usize >= n || f[2] < 0 || f[2]
                as usize >= n {
                return Err(RenderError::IndexOutOfRange);
            }
            i = i + 1;
        }
        Ok(Model { vertices, faces })
    }

    /// Number of vertices.
    pub fn n_vertices(&self) -> (r: usize)
        ensures
            r == self.vertices@.len(),
    {
        self.vertices.len()
    }

    /// Number of faces.
    pub fn n_faces(&self) -> (r: usize)
        ensures
            r == self.faces@.len(),
    {
        self.faces.len()
    }

    /// The `idx`-th face.
    pub fn face(&self, idx: usize) -> (r: &Face)
        requires
            idx < self.faces@.len(),
        ensures
            *r == self.faces@[idx as int],
    {
        &self.faces[idx]
    }

    /// The `idx`-th vertex.
    pub fn vertex(&self, idx: usize) -> (r: &Vector3D)
        requires
            idx < self.vertices@.len(),
        ensures
            *r == self.vertices@[idx as int],
    {
        &self.vertices[idx]
    }

    /// Decides [`coords_bounded`]: whether every vertex is small enough
    /// for the renderer's exact shading arithmetic.
    pub fn coords_in_range(&self) -> (r: bool)
        ensures
            r == coords_bounded(self.vertices@),
    {
        let mut i: usize = 0;
        while i < self.vertices.len()
            invariant
                0 <= i <= self.vertices@.len(),
                forall|j: int|
                    0 <= j < i ==> in_range3(#[trigger] self.vertices@[j], MESH_COORD_LIMIT as int),
            decreases self.vertices@.len() - i,
        {
            let v = self.vertices[i];
            if v.x < -MESH_COORD_LIMIT || v.x > MESH_COORD_LIMIT || v.y < -MESH_COORD_LIMIT || v.y
                > MESH_COORD_LIMIT || v.z < -MESH_COORD_LIMIT || v.z > MESH_COORD_LIMIT {
                return false;
            }
            i = i + 1;
        }
        true
    }
}

} // verus!
