use vstd::prelude::*;
use crate::model::{face_views, indices, with_adjacency, Model, ModelView};
use crate::primitives::{Face, FaceView, SurfaceType, Vertex};

verus! {

/// The test that a face is classified as ground.
pub open spec fn is_ground_face() -> spec_fn(FaceView) -> bool {
    |f: FaceView| f.surface_type == SurfaceType::Ground
}

/// The ground faces, in their order.
pub open spec fn ground_only(faces: Seq<FaceView>) -> Seq<FaceView> {
    faces.filter(is_ground_face())
}

/// Some ground face refers to vertex `id`.
pub open spec fn ground_uses(faces: Seq<FaceView>, id: usize) -> bool {
    exists|f: int, k: int|
        0 <= f < faces.len() && faces[f].surface_type == SurfaceType::Ground && 0 <= k
            < faces[f].vertex_ids.len() && #[trigger] faces[f].vertex_ids[k] == id
}

/// The test that some ground face refers to a vertex id.
pub open spec fn used_at(faces: Seq<FaceView>) -> spec_fn(usize) -> bool {
    |id: usize| ground_uses(faces, id)
}

/// The ids below `n` that some ground face refers to, ascending.
pub open spec fn kept_ids(faces: Seq<FaceView>, n: nat) -> Seq<usize> {
    indices(n).filter(used_at(faces))
}

/// The id that vertex `id` has after compaction: the number of vertices
/// before it that stay.
pub open spec fn rank(faces: Seq<FaceView>, id: usize) -> usize {
    kept_ids(faces, id as nat).len() as usize
}

/// A face with its ring rewritten to the ids after compaction, and no
/// adjacency.
pub open spec fn renumber(faces: Seq<FaceView>) -> spec_fn(FaceView) -> FaceView {
    |f: FaceView|
        FaceView {
            vertex_ids: f.vertex_ids.map_values(|id: usize| rank(faces, id)),
            surface_type: f.surface_type,
            adjacent_faces: Seq::empty(),
        }
}

/// The model pruned to its ground faces: the ground faces in their order, the
/// vertices they refer to in their order, ids made dense again, and adjacency
/// recomputed.
pub open spec fn compacted<S>(m: ModelView<S>) -> ModelView<S> {
    let kept = kept_ids(m.faces, m.vertices.len());
    ModelView {
        vertices: Seq::new(
            kept.len(),
            |j: int| Vertex { point: m.vertices[kept[j] as int].point, id: j as usize },
        ),
        faces: with_adjacency(ground_only(m.faces).map_values(renumber(m.faces))),
    }
}

/// The ground faces among the first `f + 1` use what those among the first
/// `f` use, and what face `f` uses if it is a ground face.
pub proof fn lemma_uses_step(faces: Seq<FaceView>, f: int, id: usize)
    requires
        0 <= f < faces.len(),
    ensures
        ground_uses(faces.take(f + 1), id) <==> (ground_uses(faces.take(f), id) || (faces[f].surface_type
            == SurfaceType::Ground && faces[f].vertex_ids.contains(id))),
{
    let a = faces.take(f);
    let b = faces.take(f + 1);
    if ground_uses(b, id) {
        let (g, k) = choose|g: int, k: int|
            0 <= g < b.len() && b[g].surface_type == SurfaceType::Ground && 0 <= k
                < b[g].vertex_ids.len() && #[trigger] b[g].vertex_ids[k] == id;
        if g < f {
            assert(a[g].vertex_ids[k] == id);
        } else {
            assert(faces[f].vertex_ids[k] == id);
        }
    }
    if ground_uses(a, id) {
        let (g, k) = choose|g: int, k: int|
            0 <= g < a.len() && a[g].surface_type == SurfaceType::Ground && 0 <= k
                < a[g].vertex_ids.len() && #[trigger] a[g].vertex_ids[k] == id;
        assert(b[g].vertex_ids[k] == id);
    }
    if faces[f].surface_type == SurfaceType::Ground && faces[f].vertex_ids.contains(id) {
        let k = choose|k: int| 0 <= k < faces[f].vertex_ids.len() && faces[f].vertex_ids[k] == id;
        assert(b[f].vertex_ids[k] == id);
    }
}

impl<S: Copy> Model<S> {
    /// For each vertex id, whether some ground face refers to it.
    fn ground_usage(&self) -> (used: Vec<bool>)
        requires
            self@.wf(),
        ensures
            used@.len() == self@.vertices.len(),
            forall|j: int| 0 <= j < used@.len() ==> used@[j] == ground_uses(self@.faces, j as usize),
    {
        let n: usize = self.vertices.len();
        let nf: usize = self.faces.len();
        let ghost faces = self@.faces;
        let mut used: Vec<bool> = Vec::new();
        let mut id: usize = 0;
        while id < n
            invariant
                id <= n,
                used@.len() == id,
                forall|j: int| 0 <= j < id ==> !used@[j],
            decreases n - id,
        {
            used.push(false);
            id += 1;
        }
        let mut fi: usize = 0;
        while fi < nf
            invariant
                fi <= nf,
                nf == self.faces@.len(),
                n == self.vertices@.len(),
                faces == self@.faces,
                self@.wf(),
                used@.len() == n,
                forall|j: int|
                    0 <= j < n ==> used@[j] == ground_uses(faces.take(fi as int), j as usize),
            decreases nf - fi,
        {
            assert(faces[fi as int] == self.faces@[fi as int]@);
            if self.faces[fi].surface_type == SurfaceType::Ground {
                let len: usize = self.faces[fi].vertex_ids.len();
                let ghost ring = faces[fi as int].vertex_ids;
                let mut k: usize = 0;
                while k < len
                    invariant
                        k <= len,
                        fi < nf,
                        nf == self.faces@.len(),
                        n == self.vertices@.len(),
                        faces == self@.faces,
                        self@.wf(),
                        ring == self.faces@[fi as int].vertex_ids@,
                        ring == faces[fi as int].vertex_ids,
                        len == ring.len(),
                        used@.len() == n,
                        forall|j: int|
                            0 <= j < n ==> used@[j] == (ground_uses(
                                faces.take(fi as int),
                                j as usize,
                            ) || ring.take(k as int).contains(j as usize)),
                    decreases len - k,
                {
                    let v: usize = self.faces[fi].vertex_ids[k];
                    assert(v == faces[fi as int].vertex_ids[k as int]);
                    assert(v < n);
                    used.set(v, true);
                    proof {
                        ring.lemma_take_succ_push(k as int);
                        assert forall|j: int| 0 <= j < n implies used@[j] == (ground_uses(
                            faces.take(fi as int),
                            j as usize,
                        ) || ring.take(k + 1).contains(j as usize)) by {
                            let t = ring.take(k as int);
                            if t.push(v).contains(j as usize) {
                                let w = choose|w: int|
                                    0 <= w < t.push(v).len() && t.push(v)[w] == j as usize;
                                if w < t.len() {
                                    assert(t[w] == j as usize);
                                }
                            }
                            if t.contains(j as usize) {
                                let w = choose|w: int| 0 <= w < t.len() && t[w] == j as usize;
                                assert(t.push(v)[w] == j as usize);
                            }
                            if j == v {
                                assert(t.push(v)[t.len() as int] == v);
                            }
                        }
                    }
                    k += 1;
                }
                assert(ring.take(len as int) =~= ring);
            }
            proof {
                assert forall|j: int| 0 <= j < n implies used@[j] == ground_uses(
                    faces.take(fi + 1),
                    j as usize,
                ) by {
                    lemma_uses_step(faces, fi as int, j as usize);
                    assert(faces[fi as int].vertex_ids.take(0).len() == 0);
                }
            }
            fi += 1;
        }
        assert(faces.take(nf as int) =~= faces);
        used
    }

    /// Remove all faces that are not ground, and the vertices that no ground
    /// face refers to. Vertex ids are made dense again, keeping their order,
    /// and adjacency is recomputed.
    pub fn remove_non_ground_surfaces(&mut self)
        requires
            old(self)@.wf(),
        ensures
            final(self)@ == compacted(old(self)@),
            final(self)@.wf(),
            final(self)@.adjacency_current(),
            forall|i: int|
                0 <= i < final(self)@.faces.len() ==> (#[trigger] final(self)@.faces[i]).surface_type
                    == SurfaceType::Ground,
    {
        let ghost before = self@;
        let ghost faces = before.faces;
        let n: usize = self.vertices.len();
        let nf: usize = self.faces.len();
        let used = self.ground_usage();

        let mut remap: Vec<usize> = Vec::new();
        let mut new_vertices: Vec<Vertex<S>> = Vec::new();
        let mut id: usize = 0;
        while id < n
            invariant
                id <= n,
                n == self.vertices@.len(),
                self@ == before,
                faces == before.faces,
                used@.len() == n,
                forall|j: int| 0 <= j < n ==> used@[j] == ground_uses(faces, j as usize),
                remap@.len() == id,
                new_vertices@.len() == kept_ids(faces, id as nat).len(),
                new_vertices@.len() <= id,
                forall|j: int| 0 <= j < id ==> #[trigger] remap@[j] == rank(faces, j as usize),
                forall|j: int| 0 <= j < id && used@[j] ==> #[trigger] remap@[j] < new_vertices@.len(),
                forall|j: int|
                    0 <= j < new_vertices@.len() ==> #[trigger] new_vertices@[j] == (Vertex {
                        point: before.vertices[kept_ids(faces, id as nat)[j] as int].point,
                        id: j as usize,
                    }),
            decreases n - id,
        {
            proof {
                let idx = indices(id as nat);
                assert(indices((id + 1) as nat) =~= idx.push(id));
                idx.lemma_filter_push(id, used_at(faces));
            }
            remap.push(new_vertices.len());
            if used[id] {
                let v: Vertex<S> = self.vertices[id];
                new_vertices.push(Vertex { point: v.point, id: new_vertices.len() });
            }
            id += 1;
        }

        let mut new_faces: Vec<Face> = Vec::new();
        let mut fi: usize = 0;
        while fi < nf
            invariant
                fi <= nf,
                nf == self.faces@.len(),
                n == self.vertices@.len(),
                self@ == before,
                faces == before.faces,
                before.wf(),
                used@.len() == n,
                remap@.len() == n,
                forall|j: int| 0 <= j < n ==> used@[j] == ground_uses(faces, j as usize),
                forall|j: int| 0 <= j < n ==> #[trigger] remap@[j] == rank(faces, j as usize),
                forall|j: int| 0 <= j < n && used@[j] ==> #[trigger] remap@[j] < new_vertices@.len(),
                face_views(new_faces@) =~= ground_only(faces.take(fi as int)).map_values(
                    renumber(faces),
                ),
                forall|f: int, k: int|
                    0 <= f < new_faces@.len() && 0 <= k < new_faces@[f].vertex_ids@.len() ==> (
                    #[trigger] new_faces@[f].vertex_ids@[k]) < new_vertices@.len(),
            decreases nf - fi,
        {
            let ghost face = faces[fi as int];
            assert(face == self.faces@[fi as int]@);
            proof {
                faces.lemma_take_succ_push(fi as int);
                faces.take(fi as int).lemma_filter_push(face, is_ground_face());
                ground_only(faces.take(fi as int)).lemma_push_map_commute(renumber(faces), face);
            }
            if self.faces[fi].surface_type == SurfaceType::Ground {
                let len: usize = self.faces[fi].vertex_ids.len();
                let mut mapped: Vec<usize> = Vec::new();
                let mut k: usize = 0;
                while k < len
                    invariant
                        k <= len,
                        fi < nf,
                        nf == self.faces@.len(),
                        self@ == before,
                        faces == before.faces,
                        before.wf(),
                        n == before.vertices.len(),
                        face == faces[fi as int],
                        face == self.faces@[fi as int]@,
                        face.surface_type == SurfaceType::Ground,
                        len == face.vertex_ids.len(),
                        used@.len() == n,
                        remap@.len() == n,
                        forall|j: int| 0 <= j < n ==> used@[j] == ground_uses(faces, j as usize),
                        forall|j: int|
                            0 <= j < n ==> #[trigger] remap@[j] == rank(faces, j as usize),
                        forall|j: int|
                            0 <= j < n && used@[j] ==> #[trigger] remap@[j] < new_vertices@.len(),
                        mapped@.len() == k,
                        forall|j: int|
                            0 <= j < k ==> #[trigger] mapped@[j] == rank(faces, face.vertex_ids[j]),
                        forall|j: int| 0 <= j < k ==> #[trigger] mapped@[j] < new_vertices@.len(),
                    decreases len - k,
                {
                    let v: usize = self.faces[fi].vertex_ids[k];
                    assert(v == faces[fi as int].vertex_ids[k as int]);
                    assert(v < n);
                    assert(ground_uses(faces, v));
                    mapped.push(remap[v]);
                    k += 1;
                }
                let new_face = Face {
                    vertex_ids: mapped,
                    surface_type: SurfaceType::Ground,
                    adjacent_faces: Vec::new(),
                };
                assert(new_face@ =~= renumber(faces)(face)) by {
                    assert(new_face@.vertex_ids =~= renumber(faces)(face).vertex_ids);
                }
                new_faces.push(new_face);
                assert(face_views(new_faces@) =~= ground_only(faces.take(fi + 1)).map_values(
                    renumber(faces),
                ));
            }
            fi += 1;
        }
        proof {
            assert(faces.take(nf as int) =~= faces);
            assert(new_vertices@ =~= compacted(before).vertices);
        }
        self.faces = new_faces;
        self.vertices = new_vertices;
        let ghost mid = self@;
        self.build_adjacency();
        proof {
            assert(self@.faces == compacted(before).faces);
            assert(self@ == compacted(before));
            assert forall|f: int, k: int|
                0 <= f < self@.faces.len() && 0 <= k < self@.faces[f].vertex_ids.len() implies (
            #[trigger] self@.faces[f].vertex_ids[k]) < self@.vertices.len() by {
                assert(self@.faces[f].vertex_ids == mid.faces[f].vertex_ids);
                assert(mid.faces[f].vertex_ids[k] == new_faces@[f].vertex_ids@[k]);
            }
            assert forall|i: int| 0 <= i < self@.faces.len() implies (
            #[trigger] self@.faces[i]).surface_type == SurfaceType::Ground by {
                assert(self@.faces[i].surface_type == mid.faces[i].surface_type);
                faces.lemma_filter_pred(is_ground_face(), i);
            }
        }
    }
}

} // verus!
