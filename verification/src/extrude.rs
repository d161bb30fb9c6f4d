use vstd::prelude::*;
use crate::boundary::{
    boundary_edges, boundary_loop, ground_edges, is_endpoint, occurs_once, ring_edges, touches,
};
use crate::model::{face_views, with_adjacency, Model, ModelView};
use crate::primitives::{Face, FaceView, Point3, SurfaceType, Vertex};

verus! {

/// The top vertices: one above each vertex of the ring, at height `h`, with
/// ids that continue those of the model.
pub open spec fn lifted<S>(m: ModelView<S>, ring: Seq<usize>, h: S) -> Seq<Vertex<S>> {
    Seq::new(
        ring.len(),
        |i: int|
            Vertex {
                point: Point3 {
                    x: m.vertices[ring[i] as int].point.x,
                    y: m.vertices[ring[i] as int].point.y,
                    z: h,
                },
                id: (m.vertices.len() + i) as usize,
            },
    )
}

/// The wall over the ring edge that starts at position `i`: bottom left,
/// bottom right, top right, top left. Top vertex ids start at `base`.
pub open spec fn wall_face(base: nat, ring: Seq<usize>, i: int) -> FaceView {
    let j = (i + 1) % (ring.len() as int);
    FaceView {
        vertex_ids: seq![ring[i], ring[j], (base + j) as usize, (base + i) as usize],
        surface_type: SurfaceType::Wall,
        adjacent_faces: Seq::empty(),
    }
}

/// One wall for each edge of the closed ring.
pub open spec fn wall_faces(base: nat, ring: Seq<usize>) -> Seq<FaceView> {
    Seq::new(ring.len(), |i: int| wall_face(base, ring, i))
}

/// The roof cap: the ring of the `n` top vertices, in the order of the loop.
pub open spec fn roof_face(base: nat, n: nat) -> FaceView {
    FaceView {
        vertex_ids: Seq::new(n, |i: int| (base + i) as usize),
        surface_type: SurfaceType::Roof,
        adjacent_faces: Seq::empty(),
    }
}

/// The model with the ring extruded to height `h`: the top vertices are
/// appended, then one wall per ring edge and one roof, and adjacency is
/// recomputed. An empty ring leaves the model as it is.
pub open spec fn extruded<S>(m: ModelView<S>, ring: Seq<usize>, h: S) -> ModelView<S> {
    if ring.len() == 0 {
        m
    } else {
        let base = m.vertices.len();
        ModelView {
            vertices: m.vertices + lifted(m, ring, h),
            faces: with_adjacency(
                m.faces + wall_faces(base, ring) + seq![roof_face(base, ring.len())],
            ),
        }
    }
}

/// The footprint loop of a model: the boundary of its ground faces in
/// stitched order.
pub open spec fn footprint_loop(faces: Seq<FaceView>) -> Seq<usize> {
    boundary_loop(boundary_edges(faces))
}

/// Both ends of every ground edge are vertex ids of the faces.
pub proof fn lemma_ground_edges_in_range(faces: Seq<FaceView>, n: nat)
    requires
        forall|f: int, k: int|
            0 <= f < faces.len() && 0 <= k < faces[f].vertex_ids.len() ==> (
            #[trigger] faces[f].vertex_ids[k]) < n,
    ensures
        forall|v: usize| is_endpoint(ground_edges(faces), v) ==> v < n,
    decreases faces.len(),
{
    if faces.len() > 0 {
        let init = faces.drop_last();
        let face = faces.last();
        assert forall|f: int, k: int|
            0 <= f < init.len() && 0 <= k < init[f].vertex_ids.len() implies (
        #[trigger] init[f].vertex_ids[k]) < n by {
            assert(faces[f].vertex_ids[k] < n);
        }
        lemma_ground_edges_in_range(init, n);
        let rest = ground_edges(init);
        let all = ground_edges(faces);
        assert forall|v: usize| is_endpoint(all, v) implies v < n by {
            let k = choose|k: int| 0 <= k < all.len() && touches(#[trigger] all[k], v);
            if k < rest.len() {
                assert(touches(rest[k], v));
                assert(is_endpoint(rest, v));
            } else {
                let ring = face.vertex_ids;
                let p = k - rest.len();
                assert(all[k] == ring_edges(ring)[p]);
                let q = (p + 1) % (ring.len() as int);
                assert(faces[faces.len() - 1].vertex_ids[p] < n);
                assert(faces[faces.len() - 1].vertex_ids[q] < n);
            }
        }
    } else {
        assert forall|v: usize| !is_endpoint(ground_edges(faces), v) by {}
    }
}

/// Every vertex of the footprint loop is a vertex id of the model.
pub proof fn lemma_footprint_in_range<S>(m: ModelView<S>)
    requires
        m.wf(),
    ensures
        forall|i: int|
            0 <= i < footprint_loop(m.faces).len() ==> (#[trigger] footprint_loop(m.faces)[i])
                < m.vertices.len(),
{
    let all = ground_edges(m.faces);
    let edges = boundary_edges(m.faces);
    let ring = footprint_loop(m.faces);
    lemma_ground_edges_in_range(m.faces, m.vertices.len());
    crate::boundary::lemma_boundary_loop_members(edges);
    assert forall|i: int| 0 <= i < ring.len() implies (#[trigger] ring[i]) < m.vertices.len() by {
        let v = ring[i];
        assert(ring.contains(v));
        assert(is_endpoint(edges, v));
        let k = choose|k: int| 0 <= k < edges.len() && touches(#[trigger] edges[k], v);
        assert(edges.contains(edges[k]));
        all.lemma_filter_contains_rev(occurs_once(all), edges[k]);
        let w = choose|w: int| 0 <= w < all.len() && all[w] == edges[k];
        assert(touches(all[w], v));
        assert(is_endpoint(all, v));
    }
}

impl<S: Copy> Model<S> {
    /// Extrude the ground footprint to `target_height`: a top vertex above
    /// each vertex of the footprint loop, a wall over each edge of the loop,
    /// and one roof over all top vertices.
    pub fn extrude_to_lod1(&mut self, target_height: S)
        requires
            old(self)@.wf(),
        ensures
            final(self)@ == extruded(old(self)@, footprint_loop(old(self)@.faces), target_height),
            final(self)@.wf(),
            old(self)@.adjacency_current() ==> final(self)@.adjacency_current(),
    {
        let ghost before = self@;
        let edges = self.find_boundary_edges();
        let ring = self.order_boundary_edges(&edges);
        proof {
            lemma_footprint_in_range(before);
            assert(ring@ == footprint_loop(before.faces));
        }
        let n: usize = ring.len();
        if n == 0 {
            return ;
        }
        let base: usize = self.vertices.len();
        let mut top_ids: Vec<usize> = Vec::new();
        let mut i: usize = 0;
        while i < n
            invariant
                i <= n,
                n == ring@.len(),
                base == before.vertices.len(),
                forall|k: int| 0 <= k < n ==> (#[trigger] ring@[k]) < base,
                self.faces@ == old(self).faces@,
                self.vertices@ == before.vertices + lifted(before, ring@, target_height).take(
                    i as int,
                ),
                top_ids@.len() == i,
                forall|k: int| 0 <= k < i ==> #[trigger] top_ids@[k] == base + k,
            decreases n - i,
        {
            let index: usize = ring[i];
            let below: Vertex<S> = self.vertices[index];
            assert(below == before.vertices[index as int]);
            let new_id: usize = self.vertices.len();
            let top = Vertex {
                point: Point3 { x: below.point.x, y: below.point.y, z: target_height },
                id: new_id,
            };
            self.vertices.push(top);
            top_ids.push(new_id);
            proof {
                let l = lifted(before, ring@, target_height);
                assert(l[i as int] == top);
                assert(l.take(i + 1) =~= l.take(i as int).push(top));
                assert(self.vertices@ =~= before.vertices + l.take(i + 1));
            }
            i += 1;
        }
        let total: usize = self.vertices.len();
        assert(total == base + n);
        let ghost walls = wall_faces(base as nat, ring@);
        let mut w: usize = 0;
        while w < n
            invariant
                w <= n,
                0 < n,
                n == ring@.len(),
                base + n <= usize::MAX,
                top_ids@.len() == n,
                forall|k: int| 0 <= k < n ==> #[trigger] top_ids@[k] == base + k,
                walls == wall_faces(base as nat, ring@),
                self.vertices@ == before.vertices + lifted(before, ring@, target_height).take(
                    n as int,
                ),
                face_views(self.faces@) =~= before.faces + walls.take(w as int),
            decreases n - w,
        {
            let next: usize = (w + 1) % n;
            let mut ids: Vec<usize> = Vec::new();
            ids.push(ring[w]);
            ids.push(ring[next]);
            ids.push(top_ids[next]);
            ids.push(top_ids[w]);
            let wall = Face {
                vertex_ids: ids,
                surface_type: SurfaceType::Wall,
                adjacent_faces: Vec::new(),
            };
            proof {
                assert(wall@.vertex_ids =~= wall_face(base as nat, ring@, w as int).vertex_ids);
                assert(wall@ == walls[w as int]);
                assert(walls.take(w + 1) =~= walls.take(w as int).push(wall@));
            }
            let ghost prev = self.faces@;
            self.faces.push(wall);
            assert(face_views(self.faces@) =~= face_views(prev).push(wall@));
            assert(face_views(self.faces@) =~= before.faces + walls.take(w + 1));
            w += 1;
        }
        let roof = Face {
            vertex_ids: top_ids,
            surface_type: SurfaceType::Roof,
            adjacent_faces: Vec::new(),
        };
        proof {
            assert(roof@.vertex_ids =~= roof_face(base as nat, n as nat).vertex_ids);
            assert(walls.take(n as int) =~= walls);
        }
        self.faces.push(roof);
        let ghost raw = before.faces + walls + seq![roof_face(base as nat, n as nat)];
        assert(face_views(self.faces@) =~= raw);
        assert(self.vertices@ =~= before.vertices + lifted(before, ring@, target_height));
        self.build_adjacency();
        proof {
            let after = self@;
            assert(after.faces == with_adjacency(raw));
            assert forall|f: int, k: int|
                0 <= f < after.faces.len() && 0 <= k < after.faces[f].vertex_ids.len() implies (
            #[trigger] after.faces[f].vertex_ids[k]) < after.vertices.len() by {
                assert(after.faces[f].vertex_ids == raw[f].vertex_ids);
                if f < before.faces.len() {
                    assert(before.faces[f].vertex_ids[k] < before.vertices.len());
                } else if f < before.faces.len() + n {
                    let p = f - before.faces.len();
                    assert(raw[f] == wall_face(base as nat, ring@, p));
                    let q = (p + 1) % (n as int);
                    assert(ring@[p] < base && ring@[q] < base);
                }
            }
            assert forall|j: int| 0 <= j < after.vertices.len() implies (
            #[trigger] after.vertices[j]).id == j by {
                if j < base {
                    assert(before.vertices[j].id == j);
                }
            }
        }
    }
}

} // verus!
