//! Triangle meshes: vertices and the indices that group them into triangles.

use vstd::prelude::*;

verus! {

/// A mesh: its vertices, and indices into them, three per triangle.
pub struct Mesh<V> {
    vertices: Vec<V>,
    indices: Vec<usize>,
}

/// The triangles drawn from `indices`: one for each start `3 * k` below
/// `indices.len() - 3`, made of the three indices from there on.
pub open spec fn triangles_spec(indices: Seq<usize>) -> Seq<(usize, usize, usize)> {
    Seq::new(
        ((indices.len() - 1) / 3) as nat,
        |k: int| (indices[3 * k], indices[3 * k + 1], indices[3 * k + 2]),
    )
}

impl<V> Mesh<V> {
    pub closed spec fn vertex_seq(&self) -> Seq<V> {
        self.vertices@
    }

    pub closed spec fn index_seq(&self) -> Seq<usize> {
        self.indices@
    }

    /// A mesh of the given vertices and indices.
    pub fn new(vertices: Vec<V>, indices: Vec<usize>) -> (m: Mesh<V>)
        ensures
            m.vertex_seq() == vertices@,
            m.index_seq() == indices@,
    {
        Mesh { vertices, indices }
    }

    pub fn vertices(&self) -> (r: &Vec<V>)
        ensures
            r@ == self.vertex_seq(),
    {
        &self.vertices
    }

    pub fn indices(&self) -> (r: &Vec<usize>)
        ensures
            r@ == self.index_seq(),
    {
        &self.indices
    }

    /// The index triples of the triangles that drawing the mesh visits, in
    /// order (see `triangles_spec`).
    pub fn triangles(&self) -> (r: Vec<(usize, usize, usize)>)
        requires
            self.index_seq().len() >= 3,
        ensures
            r@ == triangles_spec(self.index_seq()),
    {
        let n = self.indices.len();
        let end = n - 3;
        let mut r: Vec<(usize, usize, usize)> = Vec::new();
        let mut i: usize = 0;
        while i < end
            invariant
                n == self.index_seq().len(),
                end == n - 3,
                i % 3 == 0,
                i <= end + 2,
                i < end ==> i / 3 < (n - 1) / 3,
                i >= end ==> i / 3 == (n - 1) / 3,
                r@ =~= triangles_spec(self.index_seq()).take((i / 3) as int),
                r@.len() == i / 3,
            decreases end + 3 - i,
        {
            let t = (self.indices[i], self.indices[i + 1], self.indices[i + 2]);
            r.push(t);
            i = i + 3;
        }
        r
    }
}

} // verus!
