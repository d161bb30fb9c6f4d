use vstd::prelude::*;
use crate::boundary::{
    boundary_edges, ground_edges, is_endpoint, lemma_boundary_loop_members, occurrences,
    occurs_once, ring_edges, touches,
};
use crate::convert::converted;
use crate::extrude::{footprint_loop, roof_face, wall_face};
use crate::footprint::{
    compacted, ground_only, ground_uses, is_ground_face, kept_ids, rank, renumber, used_at,
};
use crate::model::{indices, rings, with_adjacency, ModelView};
use crate::primitives::{shared, shares_two, FaceView, SurfaceType};

verus! {

/// Filtering by a test that every element passes changes nothing.
pub proof fn lemma_filter_all<A>(s: Seq<A>, p: spec_fn(A) -> bool)
    requires
        forall|i: int| 0 <= i < s.len() ==> p(#[trigger] s[i]),
    ensures
        s.filter(p) == s,
    decreases s.len(),
{
    reveal(Seq::filter);
    if s.len() > 0 {
        lemma_filter_all(s.drop_last(), p);
        assert(s.drop_last().push(s.last()) =~= s);
    }
}

/// The rank of an id is at most the id.
pub proof fn lemma_rank_bound(faces: Seq<FaceView>, id: usize)
    ensures
        rank(faces, id) == kept_ids(faces, id as nat).len(),
        rank(faces, id) <= id,
{
    indices(id as nat).lemma_filter_len(used_at(faces));
}

/// The kept id at position `j` is an id below `n` that some ground face
/// refers to, and its rank is `j`.
pub proof fn lemma_kept_ids(faces: Seq<FaceView>, n: nat, j: int)
    requires
        0 <= j < kept_ids(faces, n).len(),
        n <= usize::MAX,
    ensures
        kept_ids(faces, n)[j] < n,
        ground_uses(faces, kept_ids(faces, n)[j]),
        rank(faces, kept_ids(faces, n)[j]) == j,
    decreases n,
{
    indices(n).lemma_filter_len(used_at(faces));
    if n > 0 {
        let last = (n - 1) as usize;
        let idx = indices((n - 1) as nat);
        assert(indices(n) =~= idx.push(last));
        idx.lemma_filter_push(last, used_at(faces));
        let prev = kept_ids(faces, (n - 1) as nat);
        if j < prev.len() {
            lemma_kept_ids(faces, (n - 1) as nat, j);
        } else {
            lemma_rank_bound(faces, last);
        }
    }
}

/// An id below `n` that some ground face refers to has a rank below the
/// number of kept ids.
pub proof fn lemma_rank_below(faces: Seq<FaceView>, n: nat, id: usize)
    requires
        id < n,
        ground_uses(faces, id),
    ensures
        rank(faces, id) < kept_ids(faces, n).len(),
{
    let idx = indices(n);
    idx.lemma_filter_take_len(used_at(faces), id + 1);
    assert(idx.take(id + 1) =~= indices((id + 1) as nat));
    assert(indices((id + 1) as nat) =~= indices(id as nat).push(id));
    indices(id as nat).lemma_filter_push(id, used_at(faces));
    lemma_rank_bound(faces, id);
}

/// Where every id below `n` is referred to by a ground face, ranks up to `n`
/// are the ids themselves.
pub proof fn lemma_rank_identity(faces: Seq<FaceView>, n: nat, id: usize)
    requires
        id <= n,
        forall|j: usize| j < n ==> ground_uses(faces, j),
    ensures
        kept_ids(faces, id as nat) == indices(id as nat),
        rank(faces, id) == id,
{
    lemma_filter_all(indices(id as nat), used_at(faces));
}

/// A pruned model is well formed, holds ground faces only, and has no vertex
/// that no face refers to.
pub proof fn lemma_compacted_wf<S>(m: ModelView<S>)
    requires
        m.wf(),
    ensures
        compacted(m).wf(),
        compacted(m).adjacency_current(),
        compacted(m).faces.len() == ground_only(m.faces).len(),
        compacted(m).vertices.len() == kept_ids(m.faces, m.vertices.len()).len(),
        forall|i: int|
            0 <= i < compacted(m).faces.len() ==> (#[trigger] compacted(m).faces[i]).surface_type
                == SurfaceType::Ground,
        forall|j: usize| j < compacted(m).vertices.len() ==> ground_uses(compacted(m).faces, j),
{
    let c = compacted(m);
    let n = m.vertices.len();
    let kept = kept_ids(m.faces, n);
    let g0 = ground_only(m.faces);
    let g = g0.map_values(renumber(m.faces));
    assert(c.faces == with_adjacency(g));

    assert forall|i: int| 0 <= i < c.faces.len() implies (#[trigger] c.faces[i]).surface_type
        == SurfaceType::Ground by {
        m.faces.lemma_filter_pred(is_ground_face(), i);
    }
    assert forall|f: int, k: int|
        0 <= f < c.faces.len() && 0 <= k < c.faces[f].vertex_ids.len() implies (
    #[trigger] c.faces[f].vertex_ids[k]) < c.vertices.len() by {
        let face = g0[f];
        assert(g0.contains(face));
        m.faces.lemma_filter_contains_rev(is_ground_face(), face);
        m.faces.lemma_filter_pred(is_ground_face(), f);
        let src = choose|src: int| 0 <= src < m.faces.len() && m.faces[src] == face;
        let id = m.faces[src].vertex_ids[k];
        assert(id < n);
        assert(ground_uses(m.faces, id));
        lemma_rank_below(m.faces, n, id);
        assert(c.faces[f].vertex_ids[k] == rank(m.faces, id));
    }
    assert forall|j: usize| j < c.vertices.len() implies ground_uses(c.faces, j) by {
        lemma_kept_ids(m.faces, n, j as int);
        let id = kept[j as int];
        let (f, k) = choose|f: int, k: int|
            0 <= f < m.faces.len() && m.faces[f].surface_type == SurfaceType::Ground && 0 <= k
                < m.faces[f].vertex_ids.len() && #[trigger] m.faces[f].vertex_ids[k] == id;
        m.faces.lemma_filter_contains(is_ground_face(), f);
        let at = choose|at: int| 0 <= at < g0.len() && g0[at] == m.faces[f];
        m.faces.lemma_filter_pred(is_ground_face(), at);
        assert(c.faces[at].vertex_ids[k] == j);
    }
    assert(rings(with_adjacency(g)) =~= rings(g));
    assert(with_adjacency(with_adjacency(g)) =~= with_adjacency(g));
}

/// Pruning is idempotent: a model that was pruned to its ground faces is
/// left as it is by pruning it again. In particular both prunings give the
/// same number of vertices and of faces.
pub proof fn lemma_compaction_idempotent<S>(m: ModelView<S>)
    requires
        m.wf(),
    ensures
        compacted(compacted(m)) == compacted(m),
        compacted(compacted(m)).vertices.len() == compacted(m).vertices.len(),
        compacted(compacted(m)).faces.len() == compacted(m).faces.len(),
        compacted(m).wf(),
{
    let c = compacted(m);
    let cc = compacted(c);
    lemma_compacted_wf(m);
    let n = c.vertices.len();
    lemma_rank_identity(c.faces, n, n as usize);
    lemma_filter_all(c.faces, is_ground_face());
    assert(cc.vertices =~= c.vertices);
    let x = c.faces.map_values(renumber(c.faces));
    assert(cc.faces == with_adjacency(x));
    assert forall|i: int| 0 <= i < x.len() implies (#[trigger] x[i]).vertex_ids
        == c.faces[i].vertex_ids by {
        let ids = c.faces[i].vertex_ids;
        assert forall|k: int| 0 <= k < ids.len() implies rank(c.faces, ids[k]) == ids[k] by {
            assert(c.faces[i].vertex_ids[k] < n);
            lemma_rank_identity(c.faces, n, ids[k]);
        }
        assert(x[i].vertex_ids =~= ids);
    }
    assert(rings(x) =~= rings(c.faces));
    assert(cc.faces =~= with_adjacency(c.faces));
    assert(cc.faces =~= c.faces);
}

/// In a sequence without repetition an edge occurs once or not at all.
pub proof fn lemma_occurrences(edges: Seq<(usize, usize)>, e: (usize, usize))
    requires
        edges.no_duplicates(),
    ensures
        occurrences(edges, e) == (if edges.contains(e) {
            1nat
        } else {
            0nat
        }),
    decreases edges.len(),
{
    reveal(Seq::filter);
    if edges.len() > 0 {
        let init = edges.drop_last();
        lemma_occurrences(init, e);
        if init.contains(e) {
            let k = choose|k: int| 0 <= k < init.len() && init[k] == e;
            assert(edges[k] == e);
            assert(edges.last() != e);
        } else if edges.contains(e) {
            let k = choose|k: int| 0 <= k < edges.len() && edges[k] == e;
            if k < init.len() {
                assert(init[k] == e);
            }
        }
        if edges.last() == e {
            assert(edges[edges.len() - 1] == e);
        }
    }
}

/// The position after `i` on a closed ring of `n` positions.
pub proof fn lemma_next_position(i: int, n: int)
    requires
        0 <= i < n,
    ensures
        (i + 1) % n == (if i + 1 < n {
            i + 1
        } else {
            0
        }),
{
    if i + 1 < n {
        vstd::arithmetic::div_mod::lemma_small_mod((i + 1) as nat, n as nat);
    } else {
        vstd::arithmetic::div_mod::lemma_mod_self_0(n);
    }
}

/// The edges of a ring of three or more distinct vertices are distinct.
pub proof fn lemma_ring_edges_distinct(ring: Seq<usize>)
    requires
        ring.no_duplicates(),
        ring.len() >= 3,
    ensures
        ring_edges(ring).no_duplicates(),
        ring_edges(ring).len() == ring.len(),
{
    let n = ring.len() as int;
    let edges = ring_edges(ring);
    assert forall|i: int, j: int| 0 <= i < n && 0 <= j < n && i != j implies edges[i]
        != edges[j] by {
        let i2 = (i + 1) % n;
        let j2 = (j + 1) % n;
        lemma_next_position(i, n);
        lemma_next_position(j, n);
        if edges[i] == edges[j] {
            if ring[i] == ring[j] {
                assert(false);
            } else {
                assert(ring[i] == ring[j2]);
                assert(ring[i2] == ring[j]);
                assert(i == j2 && i2 == j);
                assert(false);
            }
        }
    }
}

/// The ends of the edges of a ring are the vertices of the ring.
pub proof fn lemma_ring_endpoints(ring: Seq<usize>, v: usize)
    ensures
        is_endpoint(ring_edges(ring), v) <==> ring.contains(v),
{
    let n = ring.len() as int;
    let edges = ring_edges(ring);
    if is_endpoint(edges, v) {
        let k = choose|k: int| 0 <= k < edges.len() && touches(#[trigger] edges[k], v);
        let k2 = (k + 1) % n;
        lemma_next_position(k, n);
        assert(ring[k] == v || ring[k2] == v);
    }
    if ring.contains(v) {
        let k = choose|k: int| 0 <= k < ring.len() && ring[k] == v;
        assert(touches(edges[k], v));
    }
}

/// A single ground polygon with three or more distinct vertices: every edge
/// of its ring is a boundary edge, each once, and the footprint loop is a
/// permutation of the ring, without repetition.
pub proof fn lemma_single_polygon_boundary(faces: Seq<FaceView>)
    requires
        faces.len() == 1,
        faces[0].surface_type == SurfaceType::Ground,
        faces[0].vertex_ids.no_duplicates(),
        faces[0].vertex_ids.len() >= 3,
    ensures
        boundary_edges(faces) == ring_edges(faces[0].vertex_ids),
        boundary_edges(faces).len() == faces[0].vertex_ids.len(),
        boundary_edges(faces).no_duplicates(),
        footprint_loop(faces).len() == faces[0].vertex_ids.len(),
        footprint_loop(faces).no_duplicates(),
        forall|v: usize| footprint_loop(faces).contains(v) <==> faces[0].vertex_ids.contains(v),
{
    let ring = faces[0].vertex_ids;
    let all = ground_edges(faces);
    assert(all =~= ring_edges(ring)) by {
        reveal_with_fuel(ground_edges, 2);
        assert(faces.drop_last().len() == 0);
        assert(faces.last() == faces[0]);
    }
    lemma_ring_edges_distinct(ring);
    assert forall|i: int| 0 <= i < all.len() implies occurs_once(all)(#[trigger] all[i]) by {
        lemma_occurrences(all, all[i]);
        assert(all.contains(all[i]));
    }
    lemma_filter_all(all, occurs_once(all));
    let edges = boundary_edges(faces);
    let walk = footprint_loop(faces);
    lemma_boundary_loop_members(edges);
    assert forall|v: usize| walk.contains(v) <==> ring.contains(v) by {
        lemma_ring_endpoints(ring, v);
    }
    assert(walk.to_set() =~= ring.to_set());
    walk.unique_seq_to_set();
    ring.unique_seq_to_set();
}

/// Two rings are adjacent exactly when the set of vertex ids that occur in
/// both has two or more elements.
pub proof fn lemma_adjacent_iff_two_in_common(a: Seq<usize>, b: Seq<usize>)
    ensures
        a.to_set().intersect(b.to_set()).finite(),
        shares_two(a, b) <==> a.to_set().intersect(b.to_set()).len() >= 2,
{
    let common = a.to_set().intersect(b.to_set());
    vstd::seq_lib::seq_to_set_is_finite(a);
    vstd::seq_lib::seq_to_set_is_finite(b);
    assert(common.finite());
    if shares_two(a, b) {
        let (x, y) = choose|x: usize, y: usize|
            x != y && #[trigger] shared(a, b, x) && #[trigger] shared(a, b, y);
        assert(common.contains(x) && common.contains(y));
        assert(common.remove(x).contains(y));
        assert(common.remove(x).remove(y).len() >= 0);
    }
    if common.len() >= 2 {
        let x = common.choose();
        assert(common.contains(x));
        let rest = common.remove(x);
        assert(rest.len() >= 1);
        let y = rest.choose();
        assert(rest.contains(y));
        assert(shared(a, b, x) && shared(a, b, y));
    }
}

/// Adjacency does not depend on which of the two rings comes first.
pub proof fn lemma_adjacency_symmetric(a: Seq<usize>, b: Seq<usize>)
    ensures
        shares_two(a, b) == shares_two(b, a),
{
    if shares_two(a, b) {
        let (x, y) = choose|x: usize, y: usize|
            x != y && #[trigger] shared(a, b, x) && #[trigger] shared(a, b, y);
        assert(shared(b, a, x) && shared(b, a, y));
    }
    if shares_two(b, a) {
        let (x, y) = choose|x: usize, y: usize|
            x != y && #[trigger] shared(b, a, x) && #[trigger] shared(b, a, y);
        assert(shared(a, b, x) && shared(a, b, y));
    }
}

/// The shape of a converted model whose footprint has a boundary: the ground
/// faces of the footprint stay, followed by one wall for each vertex of the
/// boundary loop and one roof; each loop vertex gets one top vertex.
pub proof fn lemma_converted_shape<S>(m: ModelView<S>, h: S)
    requires
        m.wf(),
        footprint_loop(compacted(m).faces).len() > 0,
    ensures
        converted(m, h).vertices.len() == compacted(m).vertices.len() + footprint_loop(
            compacted(m).faces,
        ).len(),
        converted(m, h).faces.len() == compacted(m).faces.len() + footprint_loop(
            compacted(m).faces,
        ).len() + 1,
        forall|i: int|
            0 <= i < compacted(m).faces.len() ==> {
                &&& (#[trigger] converted(m, h).faces[i]).vertex_ids
                    == compacted(m).faces[i].vertex_ids
                &&& converted(m, h).faces[i].surface_type == SurfaceType::Ground
            },
        forall|i: int|
            0 <= i < footprint_loop(compacted(m).faces).len() ==> {
                &&& (#[trigger] converted(m, h).faces[compacted(m).faces.len() + i]).vertex_ids
                    == wall_face(
                    compacted(m).vertices.len(),
                    footprint_loop(compacted(m).faces),
                    i,
                ).vertex_ids
                &&& converted(m, h).faces[compacted(m).faces.len() + i].surface_type
                    == SurfaceType::Wall
            },
        converted(m, h).faces.last().vertex_ids == roof_face(
            compacted(m).vertices.len(),
            footprint_loop(compacted(m).faces).len(),
        ).vertex_ids,
        converted(m, h).faces.last().surface_type == SurfaceType::Roof,
{
    lemma_compacted_wf(m);
}

} // verus!
