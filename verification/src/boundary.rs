use vstd::prelude::*;
use crate::model::Model;
use crate::primitives::{contains_id, FaceView, SurfaceType};

verus! {

/// An undirected edge, written with its smaller end first.
pub open spec fn norm_edge(a: usize, b: usize) -> (usize, usize) {
    if a < b {
        (a, b)
    } else {
        (b, a)
    }
}

/// The edges of a closed ring of vertex ids: from each vertex to the next,
/// and from the last back to the first.
pub open spec fn ring_edges(ring: Seq<usize>) -> Seq<(usize, usize)> {
    Seq::new(ring.len(), |k: int| norm_edge(ring[k], ring[(k + 1) % (ring.len() as int)]))
}

/// The ring edges of all ground faces, face after face.
pub open spec fn ground_edges(faces: Seq<FaceView>) -> Seq<(usize, usize)>
    decreases faces.len(),
{
    if faces.len() == 0 {
        Seq::empty()
    } else {
        let rest = ground_edges(faces.drop_last());
        if faces.last().surface_type == SurfaceType::Ground {
            rest + ring_edges(faces.last().vertex_ids)
        } else {
            rest
        }
    }
}

/// The test of being equal to the edge `e`.
pub open spec fn same_edge(e: (usize, usize)) -> spec_fn((usize, usize)) -> bool {
    |x: (usize, usize)| x == e
}

/// How often `e` occurs in `edges`.
pub open spec fn occurrences(edges: Seq<(usize, usize)>, e: (usize, usize)) -> nat {
    edges.filter(same_edge(e)).len()
}

/// The test of occurring exactly once in `edges`.
pub open spec fn occurs_once(edges: Seq<(usize, usize)>) -> spec_fn((usize, usize)) -> bool {
    |e: (usize, usize)| occurrences(edges, e) == 1
}

/// The boundary of the ground: the edges that exactly one ground face has,
/// in the order in which the faces give them.
pub open spec fn boundary_edges(faces: Seq<FaceView>) -> Seq<(usize, usize)> {
    let all = ground_edges(faces);
    all.filter(occurs_once(all))
}

/// The edge ends in `v`.
pub open spec fn touches(e: (usize, usize), v: usize) -> bool {
    e.0 == v || e.1 == v
}

/// The end of `e` that is not `v`, for an edge that touches `v`.
pub open spec fn other_end(e: (usize, usize), v: usize) -> usize {
    if e.0 == v {
        e.1
    } else {
        e.0
    }
}

/// Some edge of `edges` ends in `v`.
pub open spec fn is_endpoint(edges: Seq<(usize, usize)>, v: usize) -> bool {
    exists|k: int| 0 <= k < edges.len() && touches(#[trigger] edges[k], v)
}

/// The index of the first edge at or after `from` that touches `v`, or the
/// length of the pool where there is none.
pub open spec fn first_touching(pool: Seq<(usize, usize)>, v: usize, from: int) -> int
    decreases pool.len() - from,
{
    if from < 0 || from >= pool.len() {
        pool.len() as int
    } else if touches(pool[from], v) {
        from
    } else {
        first_touching(pool, v, from + 1)
    }
}

/// Greedy stitching: the path is extended from its last vertex by the first
/// edge of the pool that touches it; where no edge does, the first edge of the
/// pool is appended with both ends. Each step takes its edge out of the pool.
pub open spec fn stitch(path: Seq<usize>, pool: Seq<(usize, usize)>) -> Seq<usize>
    decreases pool.len(),
{
    if pool.len() == 0 || path.len() == 0 {
        path
    } else {
        let i = first_touching(pool, path.last(), 0);
        if 0 <= i < pool.len() {
            stitch(path.push(other_end(pool[i], path.last())), pool.remove(i))
        } else {
            stitch(path.push(pool[0].0).push(pool[0].1), pool.remove(0))
        }
    }
}

/// The fragments that greedy stitching passes through. A fragment ends, and
/// the next begins with the first edge of the pool, wherever no edge of the
/// pool touches the last vertex of the path. `done` holds the fragments that
/// have ended.
pub open spec fn fragments(done: Seq<Seq<usize>>, path: Seq<usize>, pool: Seq<(usize, usize)>) -> Seq<
    Seq<usize>,
>
    decreases pool.len(),
{
    if pool.len() == 0 || path.len() == 0 {
        done.push(path)
    } else {
        let i = first_touching(pool, path.last(), 0);
        if 0 <= i < pool.len() {
            fragments(done, path.push(other_end(pool[i], path.last())), pool.remove(i))
        } else {
            fragments(done.push(path), seq![pool[0].0, pool[0].1], pool.remove(0))
        }
    }
}

/// The connected fragments of a set of edges, stitched from the first edge
/// on. A boundary with one fragment is connected; a fragment whose last
/// vertex is its first is a closed loop.
pub open spec fn boundary_fragments(edges: Seq<(usize, usize)>) -> Seq<Seq<usize>> {
    if edges.len() == 0 {
        Seq::empty()
    } else {
        fragments(Seq::empty(), seq![edges[0].0, edges[0].1], edges.remove(0))
    }
}

/// The sequences one after another.
pub open spec fn joined(parts: Seq<Seq<usize>>) -> Seq<usize>
    decreases parts.len(),
{
    if parts.len() == 0 {
        Seq::empty()
    } else {
        joined(parts.drop_last()) + parts.last()
    }
}

/// The views of a sequence of vectors.
pub open spec fn views_of(parts: Seq<Vec<usize>>) -> Seq<Seq<usize>> {
    parts.map_values(|v: Vec<usize>| v@)
}

/// The elements of `s` in the order of their first occurrence.
pub open spec fn first_seen(s: Seq<usize>) -> Seq<usize>
    decreases s.len(),
{
    if s.len() == 0 {
        Seq::empty()
    } else {
        let rest = first_seen(s.drop_last());
        if rest.contains(s.last()) {
            rest
        } else {
            rest.push(s.last())
        }
    }
}

/// The vertex loop that the edges give: stitched from the first edge on, each
/// vertex once. The loop is closed: its last vertex connects to its first.
pub open spec fn boundary_loop(edges: Seq<(usize, usize)>) -> Seq<usize> {
    if edges.len() == 0 {
        Seq::empty()
    } else {
        first_seen(stitch(seq![edges[0].0, edges[0].1], edges.remove(0)))
    }
}

/// `first_seen` keeps exactly the elements of its argument, each once.
pub proof fn lemma_first_seen(s: Seq<usize>)
    ensures
        first_seen(s).no_duplicates(),
        first_seen(s).len() <= s.len(),
        forall|v: usize| first_seen(s).contains(v) <==> s.contains(v),
    decreases s.len(),
{
    if s.len() > 0 {
        let init = s.drop_last();
        let rest = first_seen(init);
        lemma_first_seen(init);
        assert forall|v: usize| first_seen(s).contains(v) <==> s.contains(v) by {
            if s.contains(v) {
                let k = choose|k: int| 0 <= k < s.len() && s[k] == v;
                if k < init.len() {
                    assert(init[k] == v);
                    assert(init.contains(v));
                    assert(rest.contains(v));
                    let w = choose|w: int| 0 <= w < rest.len() && rest[w] == v;
                    assert(first_seen(s)[w] == v);
                } else {
                    if !rest.contains(v) {
                        assert(first_seen(s)[rest.len() as int] == v);
                    }
                }
            }
            if first_seen(s).contains(v) {
                let w = choose|w: int| 0 <= w < first_seen(s).len() && first_seen(s)[w] == v;
                if w < rest.len() {
                    assert(rest[w] == v);
                    assert(rest.contains(v));
                    assert(init.contains(v));
                    let k = choose|k: int| 0 <= k < init.len() && init[k] == v;
                    assert(s[k] == v);
                } else {
                    assert(s[s.len() - 1] == v);
                }
            }
        }
    }
}

/// Taking an edge out of a pool leaves the ends of the other edges.
pub proof fn lemma_remove_endpoint(pool: Seq<(usize, usize)>, i: int, v: usize)
    requires
        0 <= i < pool.len(),
    ensures
        is_endpoint(pool, v) <==> (touches(pool[i], v) || is_endpoint(pool.remove(i), v)),
{
    let rest = pool.remove(i);
    if is_endpoint(pool, v) {
        let k = choose|k: int| 0 <= k < pool.len() && touches(#[trigger] pool[k], v);
        if k < i {
            assert(touches(rest[k], v));
        } else if k > i {
            assert(touches(rest[k - 1], v));
        }
    }
    if is_endpoint(rest, v) {
        let k = choose|k: int| 0 <= k < rest.len() && touches(#[trigger] rest[k], v);
        if k < i {
            assert(touches(pool[k], v));
        } else {
            assert(touches(pool[k + 1], v));
        }
    }
    if touches(pool[i], v) {
        assert(is_endpoint(pool, v));
    }
}

/// Where `first_touching` answers with an index of the pool, the edge there
/// touches `v`.
pub proof fn lemma_first_touching(pool: Seq<(usize, usize)>, v: usize, from: int)
    requires
        0 <= from <= pool.len(),
    ensures
        from <= first_touching(pool, v, from) <= pool.len(),
        first_touching(pool, v, from) < pool.len() ==> touches(
            pool[first_touching(pool, v, from)],
            v,
        ),
        forall|k: int| from <= k < first_touching(pool, v, from) ==> !touches(pool[k], v),
    decreases pool.len() - from,
{
    if from < pool.len() && !touches(pool[from], v) {
        lemma_first_touching(pool, v, from + 1);
    }
}

/// Stitching gives the vertices of the path and the ends of the pool's
/// edges, and no others.
pub proof fn lemma_stitch_members(path: Seq<usize>, pool: Seq<(usize, usize)>)
    requires
        path.len() > 0,
    ensures
        forall|v: usize|
            stitch(path, pool).contains(v) <==> (path.contains(v) || is_endpoint(pool, v)),
    decreases pool.len(),
{
    if pool.len() > 0 {
        let last = path.last();
        let i = first_touching(pool, last, 0);
        lemma_first_touching(pool, last, 0);
        if 0 <= i < pool.len() {
            let w = other_end(pool[i], last);
            let next = path.push(w);
            lemma_stitch_members(next, pool.remove(i));
            assert forall|v: usize|
                stitch(path, pool).contains(v) <==> (path.contains(v) || is_endpoint(
                    pool,
                    v,
                )) by {
                lemma_remove_endpoint(pool, i, v);
                lemma_push_contains(path, w, v);
                assert(path.contains(last)) by {
                    assert(path[path.len() - 1] == last);
                }
            }
        } else {
            let mid = path.push(pool[0].0);
            let next = mid.push(pool[0].1);
            lemma_stitch_members(next, pool.remove(0));
            assert forall|v: usize|
                stitch(path, pool).contains(v) <==> (path.contains(v) || is_endpoint(
                    pool,
                    v,
                )) by {
                lemma_remove_endpoint(pool, 0, v);
                lemma_push_contains(path, pool[0].0, v);
                lemma_push_contains(mid, pool[0].1, v);
            }
        }
    } else {
        assert forall|v: usize| !is_endpoint(pool, v) by {}
    }
}

/// Stitching looks at the last vertex of the path only: what stands before
/// a path stays before what is stitched to it.
pub proof fn lemma_stitch_prefix(before: Seq<usize>, path: Seq<usize>, pool: Seq<(usize, usize)>)
    requires
        path.len() > 0,
    ensures
        stitch(before + path, pool) == before + stitch(path, pool),
    decreases pool.len(),
{
    let whole = before + path;
    assert(whole.last() == path.last());
    if pool.len() > 0 {
        let last = path.last();
        let i = first_touching(pool, last, 0);
        if 0 <= i < pool.len() {
            let w = other_end(pool[i], last);
            assert(whole.push(w) =~= before + path.push(w));
            lemma_stitch_prefix(before, path.push(w), pool.remove(i));
        } else {
            let a = pool[0].0;
            let b = pool[0].1;
            assert(whole.push(a).push(b) =~= before + path.push(a).push(b));
            lemma_stitch_prefix(before, path.push(a).push(b), pool.remove(0));
        }
    }
}

/// The fragments, one after another, are the stitched path.
pub proof fn lemma_fragments_join(
    done: Seq<Seq<usize>>,
    path: Seq<usize>,
    pool: Seq<(usize, usize)>,
)
    requires
        path.len() > 0,
    ensures
        joined(fragments(done, path, pool)) == joined(done) + stitch(path, pool),
        fragments(done, path, pool).len() > done.len(),
    decreases pool.len(),
{
    if pool.len() == 0 {
        assert(done.push(path).drop_last() =~= done);
    } else {
        let last = path.last();
        let i = first_touching(pool, last, 0);
        if 0 <= i < pool.len() {
            lemma_fragments_join(done, path.push(other_end(pool[i], last)), pool.remove(i));
        } else {
            let start = seq![pool[0].0, pool[0].1];
            let rest = pool.remove(0);
            lemma_fragments_join(done.push(path), start, rest);
            assert(done.push(path).drop_last() =~= done);
            assert(path.push(pool[0].0).push(pool[0].1) =~= path + start);
            lemma_stitch_prefix(path, start, rest);
            assert(joined(done) + path + stitch(start, rest) =~= joined(done) + (path + stitch(
                start,
                rest,
            )));
        }
    }
}

/// Some edge of `edges` joins `a` and `b`.
pub open spec fn joins(edges: Seq<(usize, usize)>, a: usize, b: usize) -> bool {
    exists|k: int| 0 <= k < edges.len() && ((#[trigger] edges[k]) == (a, b) || edges[k] == (b, a))
}

/// Each vertex of the path is joined to the next by an edge.
pub open spec fn is_chain(edges: Seq<(usize, usize)>, path: Seq<usize>) -> bool {
    forall|i: int| 0 <= i < path.len() - 1 ==> joins(edges, #[trigger] path[i], path[i + 1])
}

/// Stitching along edges of `edges` gives fragments that are chains of
/// `edges`.
pub proof fn lemma_fragments_chain(
    edges: Seq<(usize, usize)>,
    done: Seq<Seq<usize>>,
    path: Seq<usize>,
    pool: Seq<(usize, usize)>,
)
    requires
        path.len() > 0,
        is_chain(edges, path),
        forall|f: int| 0 <= f < done.len() ==> is_chain(edges, #[trigger] done[f]),
        forall|k: int| 0 <= k < pool.len() ==> edges.contains(#[trigger] pool[k]),
    ensures
        forall|f: int|
            0 <= f < fragments(done, path, pool).len() ==> is_chain(
                edges,
                #[trigger] fragments(done, path, pool)[f],
            ),
    decreases pool.len(),
{
    if pool.len() > 0 {
        let last = path.last();
        let i = first_touching(pool, last, 0);
        lemma_first_touching(pool, last, 0);
        if 0 <= i < pool.len() {
            let e = pool[i];
            let w = other_end(e, last);
            let next = path.push(w);
            let rest = pool.remove(i);
            assert(edges.contains(e));
            let at = choose|at: int| 0 <= at < edges.len() && edges[at] == e;
            assert(edges[at] == (last, w) || edges[at] == (w, last));
            assert(joins(edges, last, w));
            assert forall|j: int| 0 <= j < next.len() - 1 implies joins(
                edges,
                #[trigger] next[j],
                next[j + 1],
            ) by {
                if j < path.len() - 1 {
                    assert(joins(edges, path[j], path[j + 1]));
                }
            }
            assert forall|k: int| 0 <= k < rest.len() implies edges.contains(
                #[trigger] rest[k],
            ) by {
                if k < i {
                    assert(rest[k] == pool[k]);
                } else {
                    assert(rest[k] == pool[k + 1]);
                }
            }
            assert(is_chain(edges, next));
            lemma_fragments_chain(edges, done, next, rest);
            assert(fragments(done, path, pool) == fragments(done, next, rest));
        } else {
            let e = pool[0];
            let start = seq![e.0, e.1];
            let rest = pool.remove(0);
            let ended = done.push(path);
            assert(edges.contains(e));
            let at = choose|at: int| 0 <= at < edges.len() && edges[at] == e;
            assert(edges[at] == (e.0, e.1));
            assert(joins(edges, e.0, e.1));
            assert forall|j: int| 0 <= j < start.len() - 1 implies joins(
                edges,
                #[trigger] start[j],
                start[j + 1],
            ) by {
                assert(start[0] == e.0 && start[1] == e.1);
            }
            assert forall|f: int| 0 <= f < ended.len() implies is_chain(
                edges,
                #[trigger] ended[f],
            ) by {
                if f < done.len() {
                    assert(ended[f] == done[f]);
                }
            }
            assert forall|k: int| 0 <= k < rest.len() implies edges.contains(
                #[trigger] rest[k],
            ) by {
                assert(rest[k] == pool[k + 1]);
            }
            assert(is_chain(edges, start));
            lemma_fragments_chain(edges, ended, start, rest);
            assert(fragments(done, path, pool) == fragments(ended, start, rest));
        }
    } else {
        let ended = done.push(path);
        assert(fragments(done, path, pool) == ended);
        assert forall|f: int| 0 <= f < ended.len() implies is_chain(edges, #[trigger] ended[f]) by {
            if f < done.len() {
                assert(ended[f] == done[f]);
            }
        }
    }
}

/// Every fragment of a boundary follows its edges: each vertex of a fragment
/// is joined to the next by one of the edges.
pub proof fn lemma_boundary_fragments_chain(edges: Seq<(usize, usize)>)
    ensures
        forall|f: int|
            0 <= f < boundary_fragments(edges).len() ==> is_chain(
                edges,
                #[trigger] boundary_fragments(edges)[f],
            ),
{
    if edges.len() > 0 {
        let e = edges[0];
        let start = seq![e.0, e.1];
        let pool = edges.remove(0);
        assert(joins(edges, e.0, e.1)) by {
            assert(edges[0] == (e.0, e.1));
        }
        assert forall|j: int| 0 <= j < start.len() - 1 implies joins(
            edges,
            #[trigger] start[j],
            start[j + 1],
        ) by {
            assert(start[0] == e.0 && start[1] == e.1);
        }
        assert forall|k: int| 0 <= k < pool.len() implies edges.contains(#[trigger] pool[k]) by {
            assert(pool[k] == edges[k + 1]);
        }
        lemma_fragments_chain(edges, Seq::empty(), start, pool);
    }
}

/// The boundary loop is what the fragments visit, one after another, each
/// vertex once.
pub proof fn lemma_loop_from_fragments(edges: Seq<(usize, usize)>)
    ensures
        boundary_loop(edges) == first_seen(joined(boundary_fragments(edges))),
        edges.len() > 0 ==> boundary_fragments(edges).len() > 0,
{
    if edges.len() > 0 {
        let start = seq![edges[0].0, edges[0].1];
        lemma_fragments_join(Seq::empty(), start, edges.remove(0));
        assert(joined(Seq::<Seq<usize>>::empty()) + stitch(start, edges.remove(0)) =~= stitch(
            start,
            edges.remove(0),
        ));
    }
}

/// A sequence with one more element holds that element and the earlier ones.
pub proof fn lemma_push_contains(s: Seq<usize>, w: usize, v: usize)
    ensures
        s.push(w).contains(v) <==> (s.contains(v) || v == w),
{
    let t = s.push(w);
    if t.contains(v) {
        let k = choose|k: int| 0 <= k < t.len() && t[k] == v;
        if k < s.len() {
            assert(s[k] == v);
        }
    }
    if s.contains(v) {
        let k = choose|k: int| 0 <= k < s.len() && s[k] == v;
        assert(t[k] == v);
    }
    if v == w {
        assert(t[s.len() as int] == v);
    }
}

/// The loop visits each end of each edge once, and nothing else.
pub proof fn lemma_boundary_loop_members(edges: Seq<(usize, usize)>)
    ensures
        boundary_loop(edges).no_duplicates(),
        forall|v: usize| boundary_loop(edges).contains(v) <==> is_endpoint(edges, v),
{
    if edges.len() == 0 {
        assert forall|v: usize| !is_endpoint(edges, v) by {}
        assert forall|v: usize| !boundary_loop(edges).contains(v) by {}
    } else {
        let start = seq![edges[0].0, edges[0].1];
        let pool = edges.remove(0);
        let path = stitch(start, pool);
        lemma_stitch_members(start, pool);
        lemma_first_seen(path);
        assert forall|v: usize| boundary_loop(edges).contains(v) <==> is_endpoint(edges, v) by {
            lemma_remove_endpoint(edges, 0, v);
            if start.contains(v) {
                let k = choose|k: int| 0 <= k < start.len() && start[k] == v;
                assert(touches(edges[0], v));
            }
            if touches(edges[0], v) {
                assert(start[0] == edges[0].0 && start[1] == edges[0].1);
                assert(start.contains(v));
            }
        }
    }
}

impl<S> Model<S> {
    /// The ring edges of all ground faces, face after face.
    fn collect_ground_edges(&self) -> (all: Vec<(usize, usize)>)
        ensures
            all@ == ground_edges(self@.faces),
    {
        let ghost faces = self@.faces;
        let nf: usize = self.faces.len();
        let mut all: Vec<(usize, usize)> = Vec::new();
        let mut fi: usize = 0;
        while fi < nf
            invariant
                fi <= nf,
                nf == self.faces@.len(),
                faces == self@.faces,
                all@ == ground_edges(faces.take(fi as int)),
            decreases nf - fi,
        {
            let ghost face = faces[fi as int];
            assert(face == self.faces@[fi as int]@);
            proof {
                assert(faces.take(fi + 1).drop_last() =~= faces.take(fi as int));
                assert(faces.take(fi + 1).last() == face);
            }
            if self.faces[fi].surface_type == SurfaceType::Ground {
                let len: usize = self.faces[fi].vertex_ids.len();
                let ghost base = all@;
                let ghost ring = face.vertex_ids;
                let mut k: usize = 0;
                while k < len
                    invariant
                        k <= len,
                        fi < nf,
                        nf == self.faces@.len(),
                        ring == self.faces@[fi as int].vertex_ids@,
                        len == ring.len(),
                        all@ == base + ring_edges(ring).take(k as int),
                    decreases len - k,
                {
                    let v1: usize = self.faces[fi].vertex_ids[k];
                    let v2: usize = self.faces[fi].vertex_ids[(k + 1) % len];
                    let edge: (usize, usize) = if v1 < v2 {
                        (v1, v2)
                    } else {
                        (v2, v1)
                    };
                    all.push(edge);
                    proof {
                        let re = ring_edges(ring);
                        assert(re[k as int] == edge);
                        assert(re.take(k + 1) =~= re.take(k as int).push(edge));
                        assert(all@ =~= base + re.take(k + 1));
                    }
                    k += 1;
                }
                assert(ring_edges(ring).take(len as int) =~= ring_edges(ring));
            }
            fi += 1;
        }
        assert(faces.take(nf as int) =~= faces);
        all
    }

    /// Identify and return the boundary edges of the ground surfaces: the
    /// edges that exactly one ground face has.
    pub fn find_boundary_edges(&self) -> (edges: Vec<(usize, usize)>)
        ensures
            edges@ == boundary_edges(self@.faces),
    {
        let all = self.collect_ground_edges();
        let n: usize = all.len();
        let mut edges: Vec<(usize, usize)> = Vec::new();
        let mut i: usize = 0;
        while i < n
            invariant
                i <= n,
                n == all@.len(),
                edges@ == all@.take(i as int).filter(occurs_once(all@)),
            decreases n - i,
        {
            let e: (usize, usize) = all[i];
            let mut count: usize = 0;
            let mut j: usize = 0;
            while j < n
                invariant
                    j <= n,
                    n == all@.len(),
                    count <= j,
                    count == all@.take(j as int).filter(same_edge(e)).len(),
                decreases n - j,
            {
                proof {
                    all@.lemma_take_succ_push(j as int);
                    all@.take(j as int).lemma_filter_push(all@[j as int], same_edge(e));
                }
                let x: (usize, usize) = all[j];
                if x.0 == e.0 && x.1 == e.1 {
                    count += 1;
                }
                j += 1;
            }
            proof {
                all@.lemma_take_len();
                all@.lemma_take_succ_push(i as int);
                all@.take(i as int).lemma_filter_push(e, occurs_once(all@));
            }
            if count == 1 {
                edges.push(e);
            }
            i += 1;
        }
        proof {
            all@.lemma_take_len();
        }
        edges
    }

    /// Stitch boundary edges into connected fragments. The first fragment
    /// starts with the first edge; a fragment is extended from its last
    /// vertex by the first remaining edge that touches it, in either
    /// direction, and where none does the next fragment starts with the first
    /// remaining edge. More than one fragment tells of a boundary that is not
    /// connected.
    pub fn boundary_fragments(&self, edges: &Vec<(usize, usize)>) -> (parts: Vec<Vec<usize>>)
        ensures
            views_of(parts@) == boundary_fragments(edges@),
    {
        let mut done: Vec<Vec<usize>> = Vec::new();
        if edges.len() == 0 {
            assert(views_of(done@) =~= boundary_fragments(edges@));
            return done;
        }
        let mut remaining: Vec<(usize, usize)> = Vec::new();
        let mut c: usize = 0;
        while c < edges.len()
            invariant
                c <= edges.len(),
                remaining@ == edges@.take(c as int),
            decreases edges.len() - c,
        {
            proof {
                edges@.lemma_take_succ_push(c as int);
            }
            remaining.push(edges[c]);
            c += 1;
        }
        proof {
            edges@.lemma_take_len();
        }
        let first_edge = remaining.remove(0);
        let mut current: Vec<usize> = Vec::new();
        current.push(first_edge.0);
        current.push(first_edge.1);
        assert(current@ =~= seq![edges@[0].0, edges@[0].1]);
        assert(views_of(done@) =~= Seq::<Seq<usize>>::empty());
        let ghost target = boundary_fragments(edges@);

        while remaining.len() > 0
            invariant
                current@.len() > 0,
                fragments(views_of(done@), current@, remaining@) == target,
            decreases remaining@.len(),
        {
            let last: usize = current[current.len() - 1];
            let ghost pool = remaining@;
            let mut i: usize = 0;
            let mut found: bool = false;
            while i < remaining.len() && !found
                invariant
                    i <= remaining@.len(),
                    remaining@ == pool,
                    !found ==> first_touching(pool, last, 0) == first_touching(
                        pool,
                        last,
                        i as int,
                    ),
                    found ==> i < pool.len() && first_touching(pool, last, 0) == i,
                decreases remaining@.len() - i + (if found {
                    0int
                } else {
                    1int
                }),
            {
                let e: (usize, usize) = remaining[i];
                if e.0 == last || e.1 == last {
                    found = true;
                } else {
                    i += 1;
                }
            }
            if found {
                let e: (usize, usize) = remaining.remove(i);
                if e.0 == last {
                    current.push(e.1);
                } else {
                    current.push(e.0);
                }
            } else {
                let e: (usize, usize) = remaining.remove(0);
                let mut next: Vec<usize> = Vec::new();
                next.push(e.0);
                next.push(e.1);
                let ghost ended = current@;
                let ghost earlier = done@;
                done.push(current);
                current = next;
                assert(current@ =~= seq![pool[0].0, pool[0].1]);
                assert(views_of(done@) =~= views_of(earlier).push(ended));
            }
        }
        let ghost ended = current@;
        let ghost earlier = done@;
        done.push(current);
        assert(views_of(done@) =~= views_of(earlier).push(ended));
        done
    }

    /// Order boundary edges to form a continuous loop of vertex ids: the
    /// fragments of the boundary one after another, each vertex once, in the
    /// order in which it is first visited.
    pub fn order_boundary_edges(&self, edges: &Vec<(usize, usize)>) -> (ring: Vec<usize>)
        ensures
            ring@ == boundary_loop(edges@),
            ring@ == first_seen(joined(boundary_fragments(edges@))),
            ring@.no_duplicates(),
            forall|v: usize| ring@.contains(v) <==> is_endpoint(edges@, v),
    {
        proof {
            lemma_boundary_loop_members(edges@);
            lemma_loop_from_fragments(edges@);
        }
        let parts = self.boundary_fragments(edges);
        let ghost all = views_of(parts@);
        let mut unique: Vec<usize> = Vec::new();
        let mut p: usize = 0;
        while p < parts.len()
            invariant
                p <= parts@.len(),
                all == views_of(parts@),
                unique@ == first_seen(joined(all.take(p as int))),
            decreases parts@.len() - p,
        {
            let ghost part = all[p as int];
            let ghost base = joined(all.take(p as int));
            let len: usize = parts[p].len();
            let mut k: usize = 0;
            assert(base + part.take(0) =~= base);
            while k < len
                invariant
                    k <= len,
                    p < parts@.len(),
                    all == views_of(parts@),
                    part == all[p as int],
                    part == parts@[p as int]@,
                    len == part.len(),
                    unique@ == first_seen(base + part.take(k as int)),
                decreases len - k,
            {
                let v: usize = parts[p][k];
                proof {
                    let now = base + part.take(k + 1);
                    assert(now.drop_last() =~= base + part.take(k as int));
                    assert(now.last() == v);
                }
                if !contains_id(&unique, v) {
                    unique.push(v);
                }
                k += 1;
            }
            proof {
                assert(part.take(len as int) =~= part);
                assert(all.take(p + 1).drop_last() =~= all.take(p as int));
                assert(all.take(p + 1).last() == part);
            }
            p += 1;
        }
        proof {
            all.lemma_take_len();
        }
        unique
    }
}

} // verus!
