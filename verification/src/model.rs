use vstd::prelude::*;
use crate::primitives::{shares_two, Face, FaceView, Orientation, SurfaceType, Vertex};

verus! {

/// A 3D building model.
#[derive(Clone, Debug)]
pub struct Model<S> {
    pub vertices: Vec<Vertex<S>>,
    pub faces: Vec<Face>,
}

/// The mathematical content of a [`Model`].
pub struct ModelView<S> {
    pub vertices: Seq<Vertex<S>>,
    pub faces: Seq<FaceView>,
}

/// The views of a sequence of faces.
pub open spec fn face_views(faces: Seq<Face>) -> Seq<FaceView> {
    faces.map_values(|f: Face| f@)
}

impl<S> View for Model<S> {
    type V = ModelView<S>;

    open spec fn view(&self) -> ModelView<S> {
        ModelView { vertices: self.vertices@, faces: face_views(self.faces@) }
    }
}

/// The vertex rings of a sequence of faces.
pub open spec fn rings(faces: Seq<FaceView>) -> Seq<Seq<usize>> {
    faces.map_values(|f: FaceView| f.vertex_ids)
}

/// The indices `0, 1, .., n - 1` in ascending order.
pub open spec fn indices(n: nat) -> Seq<usize> {
    Seq::new(n, |j: int| j as usize)
}

/// The test that face `j` is a neighbour of face `i`: another face whose ring
/// shares two distinct ids with that of `i`.
pub open spec fn is_neighbour(rings: Seq<Seq<usize>>, i: int) -> spec_fn(usize) -> bool {
    |j: usize| j != i && shares_two(rings[i], rings[j as int])
}

/// The indices of the faces adjacent to face `i`, ascending.
pub open spec fn neighbours(rings: Seq<Seq<usize>>, i: int) -> Seq<usize> {
    indices(rings.len()).filter(is_neighbour(rings, i))
}

/// The same faces with every adjacency list recomputed from the rings.
pub open spec fn with_adjacency(faces: Seq<FaceView>) -> Seq<FaceView> {
    Seq::new(
        faces.len(),
        |i: int|
            FaceView {
                vertex_ids: faces[i].vertex_ids,
                surface_type: faces[i].surface_type,
                adjacent_faces: neighbours(rings(faces), i),
            },
    )
}

/// The face is level and low: it belongs to the ground.
pub open spec fn is_ground(m: Orientation) -> bool {
    m.level && m.low
}

/// The type a face has after classification, from its type before and its
/// orientation. Ground is decided first; a face that already has a type keeps
/// it; of the rest, upright faces are walls and all others roofs.
pub open spec fn settle(before: SurfaceType, m: Orientation) -> SurfaceType {
    if is_ground(m) {
        SurfaceType::Ground
    } else if before != SurfaceType::Unknown {
        before
    } else if m.upright {
        SurfaceType::Wall
    } else {
        SurfaceType::Roof
    }
}

/// The faces after the ground pass: level and low faces become Ground, the
/// others stay as they are.
pub open spec fn ground_marked(faces: Seq<FaceView>, measures: Seq<Orientation>) -> Seq<FaceView> {
    Seq::new(
        faces.len(),
        |i: int|
            FaceView {
                vertex_ids: faces[i].vertex_ids,
                surface_type: if is_ground(measures[i]) {
                    SurfaceType::Ground
                } else {
                    faces[i].surface_type
                },
                adjacent_faces: faces[i].adjacent_faces,
            },
    )
}

/// The faces after both classification passes.
pub open spec fn classified(faces: Seq<FaceView>, measures: Seq<Orientation>) -> Seq<FaceView> {
    Seq::new(
        faces.len(),
        |i: int|
            FaceView {
                vertex_ids: faces[i].vertex_ids,
                surface_type: settle(faces[i].surface_type, measures[i]),
                adjacent_faces: faces[i].adjacent_faces,
            },
    )
}

/// The test that the face with this index is level and low.
pub open spec fn ground_at(measures: Seq<Orientation>) -> spec_fn(usize) -> bool {
    |i: usize| is_ground(measures[i as int])
}

impl<S> ModelView<S> {
    /// Vertex ids are dense and every face refers to existing vertices only.
    pub open spec fn wf(self) -> bool {
        &&& self.vertices.len() <= usize::MAX
        &&& forall|i: int| 0 <= i < self.vertices.len() ==> (#[trigger] self.vertices[i]).id == i
        &&& forall|f: int, k: int|
            0 <= f < self.faces.len() && 0 <= k < self.faces[f].vertex_ids.len() ==> (
            #[trigger] self.faces[f].vertex_ids[k]) < self.vertices.len()
    }

    /// Every adjacency list is what the rings of the current faces give.
    pub open spec fn adjacency_current(self) -> bool {
        self.faces =~= with_adjacency(self.faces)
    }

    /// Some face is classified as ground.
    pub open spec fn has_ground(self) -> bool {
        exists|i: int|
            0 <= i < self.faces.len() && (#[trigger] self.faces[i]).surface_type
                == SurfaceType::Ground
    }
}

/// Giving faces other surface types changes neither whether the model is
/// well formed nor whether its adjacency is current.
pub proof fn lemma_retyping_keeps_shape<S>(a: ModelView<S>, b: ModelView<S>)
    requires
        a.vertices == b.vertices,
        a.faces.len() == b.faces.len(),
        forall|f: int|
            0 <= f < a.faces.len() ==> (#[trigger] b.faces[f]).vertex_ids == a.faces[f].vertex_ids
                && b.faces[f].adjacent_faces == a.faces[f].adjacent_faces,
    ensures
        a.wf() ==> b.wf(),
        a.adjacency_current() ==> b.adjacency_current(),
{
    assert(rings(b.faces) =~= rings(a.faces));
    if a.wf() {
        assert forall|f: int, k: int|
            0 <= f < b.faces.len() && 0 <= k < b.faces[f].vertex_ids.len() implies (
        #[trigger] b.faces[f].vertex_ids[k]) < b.vertices.len() by {
            assert(a.faces[f].vertex_ids[k] < a.vertices.len());
        }
    }
    if a.adjacency_current() {
        assert forall|f: int| 0 <= f < b.faces.len() implies #[trigger] b.faces[f]
            == with_adjacency(b.faces)[f] by {
            assert(a.faces[f] == with_adjacency(a.faces)[f]);
        }
    }
}

impl<S> Model<S> {
    /// Create a new model with the given vertices and faces, with the
    /// adjacency of the faces computed.
    pub fn new(vertices: Vec<Vertex<S>>, faces: Vec<Face>) -> (model: Model<S>)
        ensures
            model@.vertices == vertices@,
            model@.faces == with_adjacency(face_views(faces@)),
            model@.adjacency_current(),
            (ModelView { vertices: vertices@, faces: face_views(faces@) }).wf() ==> model@.wf(),
    {
        let mut model = Model { vertices, faces };
        model.build_adjacency();
        model
    }

    /// Whether vertex ids are dense and every face refers to existing
    /// vertices only.
    pub fn is_valid(&self) -> (ok: bool)
        ensures
            ok == self@.wf(),
    {
        let n: usize = self.vertices.len();
        let mut i: usize = 0;
        while i < n
            invariant
                i <= n,
                n == self.vertices@.len(),
                forall|k: int| 0 <= k < i ==> (#[trigger] self@.vertices[k]).id == k,
            decreases n - i,
        {
            if self.vertices[i].id != i {
                return false;
            }
            i += 1;
        }
        let nf: usize = self.faces.len();
        let mut f: usize = 0;
        while f < nf
            invariant
                f <= nf,
                nf == self.faces@.len(),
                n == self.vertices@.len(),
                forall|k: int| 0 <= k < n ==> (#[trigger] self@.vertices[k]).id == k,
                forall|g: int, k: int|
                    0 <= g < f && 0 <= k < self@.faces[g].vertex_ids.len() ==> (
                    #[trigger] self@.faces[g].vertex_ids[k]) < n,
            decreases nf - f,
        {
            let len: usize = self.faces[f].vertex_ids.len();
            assert(self@.faces[f as int] == self.faces@[f as int]@);
            let mut k: usize = 0;
            while k < len
                invariant
                    k <= len,
                    f < nf,
                    nf == self.faces@.len(),
                    n == self.vertices@.len(),
                    len == self.faces@[f as int].vertex_ids@.len(),
                    self@.faces[f as int] == self.faces@[f as int]@,
                    forall|j: int|
                        0 <= j < k ==> (#[trigger] self@.faces[f as int].vertex_ids[j]) < n,
                decreases len - k,
            {
                if self.faces[f].vertex_ids[k] >= n {
                    assert(self@.faces[f as int].vertex_ids[k as int] >= n);
                    return false;
                }
                k += 1;
            }
            f += 1;
        }
        true
    }

    /// Recompute the adjacency list of every face: the indices of the other
    /// faces that share two vertex ids with it, ascending.
    pub fn build_adjacency(&mut self)
        ensures
            final(self)@.vertices == old(self)@.vertices,
            final(self)@.faces == with_adjacency(old(self)@.faces),
            final(self)@.adjacency_current(),
            old(self)@.wf() ==> final(self)@.wf(),
    {
        let ghost before = self@.faces;
        let ghost rs = rings(before);
        let n: usize = self.faces.len();
        let mut i: usize = 0;
        while i < n
            invariant
                i <= n,
                n == self.faces.len(),
                before.len() == n,
                self.vertices@ == old(self).vertices@,
                rings(self@.faces) =~= rs,
                rs == rings(before),
                forall|k: int|
                    0 <= k < n ==> (#[trigger] self.faces@[k]).surface_type
                        == before[k].surface_type,
                forall|k: int| 0 <= k < i ==> (#[trigger] self.faces@[k]).adjacent_faces@ == neighbours(rs, k),
            decreases n - i,
        {
            let mut adj: Vec<usize> = Vec::new();
            let mut j: usize = 0;
            while j < n
                invariant
                    j <= n,
                    i < n,
                    n == self.faces.len(),
                    rings(self@.faces) =~= rs,
                    rs.len() == n,
                    adj@ == indices(n as nat).take(j as int).filter(is_neighbour(rs, i as int)),
                decreases n - j,
            {
                proof {
                    let idx = indices(n as nat);
                    idx.lemma_take_succ_push(j as int);
                    idx.take(j as int).lemma_filter_push(idx[j as int], is_neighbour(rs, i as int));
                    assert(rings(self@.faces)[i as int] == self.faces@[i as int]@.vertex_ids);
                    assert(rings(self@.faces)[j as int] == self.faces@[j as int]@.vertex_ids);
                }
                if i != j && self.faces[i].is_adjacent_to(&self.faces[j]) {
                    adj.push(j);
                }
                j += 1;
            }
            proof {
                indices(n as nat).lemma_take_len();
            }
            let ghost prev = self.faces@;
            self.faces[i].adjacent_faces = adj;
            proof {
                assert(self.faces@.len() == n);
                assert forall|k: int| 0 <= k < n implies rings(self@.faces)[k] == rs[k] by {
                    assert(rings(face_views(prev))[k] == rs[k]);
                }
            }
            i += 1;
        }
        assert(self@.faces =~= with_adjacency(before));
        assert(rings(with_adjacency(before)) =~= rs);
        assert(with_adjacency(with_adjacency(before)) =~= with_adjacency(before));
        assert(old(self)@.wf() ==> self@.wf()) by {
            assert forall|f: int| 0 <= f < before.len() implies (#[trigger] self@.faces[f]).vertex_ids
                == before[f].vertex_ids by {}
        }
    }

    /// Mark as Ground every face that is level and low, and return the
    /// indices of those faces, ascending. Other faces keep their type.
    pub fn mark_ground_faces(&mut self, measures: &Vec<Orientation>) -> (ground: Vec<usize>)
        requires
            measures@.len() == old(self)@.faces.len(),
        ensures
            final(self)@.vertices == old(self)@.vertices,
            final(self)@.faces == ground_marked(old(self)@.faces, measures@),
            ground@ == indices(measures@.len()).filter(ground_at(measures@)),
            old(self)@.wf() ==> final(self)@.wf(),
            old(self)@.adjacency_current() ==> final(self)@.adjacency_current(),
    {
        let ghost before = self@.faces;
        let n: usize = self.faces.len();
        let mut ground: Vec<usize> = Vec::new();
        let mut i: usize = 0;
        while i < n
            invariant
                i <= n,
                n == self.faces.len(),
                n == measures@.len(),
                before.len() == n,
                self.vertices@ == old(self).vertices@,
                forall|k: int| 0 <= k < i ==> (#[trigger] self.faces@[k])@ == ground_marked(before, measures@)[k],
                forall|k: int| i <= k < n ==> (#[trigger] self.faces@[k])@ == before[k],
                ground@ == indices(n as nat).take(i as int).filter(ground_at(measures@)),
            decreases n - i,
        {
            proof {
                let idx = indices(n as nat);
                idx.lemma_take_succ_push(i as int);
                idx.take(i as int).lemma_filter_push(idx[i as int], ground_at(measures@));
            }
            let m: Orientation = measures[i];
            if m.level && m.low {
                self.faces[i].surface_type = SurfaceType::Ground;
                ground.push(i);
            }
            i += 1;
        }
        proof {
            indices(n as nat).lemma_take_len();
            assert(self@.faces =~= ground_marked(before, measures@));
            lemma_retyping_keeps_shape(old(self)@, self@);
        }
        ground
    }

    /// Classify all faces as ground, wall or roof from their orientation.
    /// Afterwards no face is Unknown.
    pub fn classify_surfaces(&mut self, measures: &Vec<Orientation>)
        requires
            measures@.len() == old(self)@.faces.len(),
        ensures
            final(self)@.vertices == old(self)@.vertices,
            final(self)@.faces == classified(old(self)@.faces, measures@),
            forall|i: int|
                0 <= i < final(self)@.faces.len() ==> (#[trigger] final(self)@.faces[i]).surface_type
                    != SurfaceType::Unknown,
            old(self)@.wf() ==> final(self)@.wf(),
            old(self)@.adjacency_current() ==> final(self)@.adjacency_current(),
    {
        let ghost before = self@.faces;
        self.mark_ground_faces(measures);
        let ghost marked = self@.faces;
        assert(marked.len() == before.len());
        let n: usize = self.faces.len();
        let mut i: usize = 0;
        while i < n
            invariant
                i <= n,
                n == self.faces.len(),
                n == measures@.len(),
                before.len() == n,
                marked == ground_marked(before, measures@),
                self.vertices@ == old(self).vertices@,
                forall|k: int| 0 <= k < i ==> (#[trigger] self.faces@[k])@ == classified(before, measures@)[k],
                forall|k: int| i <= k < n ==> (#[trigger] self.faces@[k])@ == marked[k],
            decreases n - i,
        {
            if self.faces[i].surface_type == SurfaceType::Unknown {
                if measures[i].upright {
                    self.faces[i].surface_type = SurfaceType::Wall;
                } else {
                    self.faces[i].surface_type = SurfaceType::Roof;
                }
            }
            i += 1;
        }
        assert(self@.faces =~= classified(before, measures@));
        proof {
            lemma_retyping_keeps_shape(old(self)@, self@);
        }
    }
}

} // verus!
