use vstd::prelude::*;
use crate::model::Model;
use crate::primitives::FaceView;

verus! {

/// The vertices and faces to write out once vertices that lie near each other
/// are merged.
#[derive(Clone, Debug, PartialEq, Eq)]
pub struct Welded {
    /// The ids of the vertices to write, in the order of writing.
    pub kept: Vec<usize>,
    /// For each face its ring, as positions in `kept` counted from one.
    pub faces: Vec<Vec<usize>>,
}

/// `near` is a table with a row of `n` entries for each of `n` vertices.
pub open spec fn is_square(near: Seq<Vec<bool>>, n: nat) -> bool {
    near.len() == n && forall|a: int| 0 <= a < n ==> (#[trigger] near[a])@.len() == n
}

/// The position in `kept`, at or after `from`, of the first vertex that is
/// near vertex `id`, or the length of `kept` where none is.
pub open spec fn twin(kept: Seq<usize>, near: Seq<Vec<bool>>, id: usize, from: int) -> int
    decreases kept.len() - from,
{
    if from < 0 || from >= kept.len() {
        kept.len() as int
    } else if near[kept[from] as int]@[id as int] {
        from
    } else {
        twin(kept, near, id, from + 1)
    }
}

/// The vertices kept once the faces before face `f`, and the first `k`
/// vertices of face `f`, have been gone through: a vertex is kept unless a
/// vertex kept before it is near it.
pub open spec fn kept_after(faces: Seq<FaceView>, near: Seq<Vec<bool>>, f: int, k: int) -> Seq<usize>
    decreases f, k,
{
    if k > 0 {
        let before = kept_after(faces, near, f, k - 1);
        let id = faces[f].vertex_ids[k - 1];
        if twin(before, near, id, 0) < before.len() {
            before
        } else {
            before.push(id)
        }
    } else if f > 0 {
        kept_after(faces, near, f - 1, faces[f - 1].vertex_ids.len() as int)
    } else {
        Seq::empty()
    }
}

/// The number written for vertex `k` of face `f`: the position, counted from
/// one, of the first kept vertex that is near it, which is the vertex itself
/// where none was kept before.
pub open spec fn written_index(faces: Seq<FaceView>, near: Seq<Vec<bool>>, f: int, k: int) -> int {
    twin(kept_after(faces, near, f, k), near, faces[f].vertex_ids[k], 0) + 1
}

/// Writing position `index`, counted from one, for vertex `id` is in order:
/// the vertex kept at that position is `id` itself or one that `id` is near.
pub open spec fn stands_for(kept: Seq<usize>, near: Seq<Vec<bool>>, index: usize, id: usize) -> bool {
    &&& 1 <= index <= kept.len()
    &&& kept[index - 1] == id || near[kept[index - 1] as int]@[id as int]
}

impl<S> Model<S> {
    /// Merge vertices for writing. `near[a][b]` tells whether vertex `b` lies
    /// near vertex `a`. Going through the faces in order, each vertex is
    /// replaced by the first vertex kept so far that is near it, and kept
    /// itself where there is none.
    pub fn weld(&self, near: &Vec<Vec<bool>>) -> (out: Welded)
        requires
            self@.wf(),
            is_square(near@, self@.vertices.len()),
        ensures
            out.kept@ == kept_after(self@.faces, near@, self@.faces.len() as int, 0),
            forall|j: int| 0 <= j < out.kept@.len() ==> (#[trigger] out.kept@[j]) < self@.vertices.len(),
            out.faces@.len() == self@.faces.len(),
            forall|f: int|
                0 <= f < self@.faces.len() ==> (#[trigger] out.faces@[f])@.len()
                    == self@.faces[f].vertex_ids.len(),
            forall|f: int, k: int|
                0 <= f < self@.faces.len() && 0 <= k < self@.faces[f].vertex_ids.len() ==> {
                    &&& (#[trigger] out.faces@[f]@[k]) == written_index(self@.faces, near@, f, k)
                    &&& stands_for(out.kept@, near@, out.faces@[f]@[k], self@.faces[f].vertex_ids[k])
                },
    {
        let ghost faces = self@.faces;
        let n: usize = self.vertices.len();
        let nf: usize = self.faces.len();
        let mut kept: Vec<usize> = Vec::new();
        let mut rows: Vec<Vec<usize>> = Vec::new();
        let mut f: usize = 0;
        while f < nf
            invariant
                f <= nf,
                nf == self.faces@.len(),
                n == self@.vertices.len(),
                faces == self@.faces,
                self@.wf(),
                is_square(near@, n as nat),
                kept@ == kept_after(faces, near@, f as int, 0),
                forall|j: int| 0 <= j < kept@.len() ==> (#[trigger] kept@[j]) < n,
                rows@.len() == f,
                forall|g: int|
                    0 <= g < f ==> (#[trigger] rows@[g])@.len() == faces[g].vertex_ids.len(),
                forall|g: int, k: int|
                    0 <= g < f && 0 <= k < faces[g].vertex_ids.len() ==> {
                        &&& (#[trigger] rows@[g]@[k]) == written_index(faces, near@, g, k)
                        &&& stands_for(kept@, near@, rows@[g]@[k], faces[g].vertex_ids[k])
                    },
            decreases nf - f,
        {
            let ghost ring = faces[f as int].vertex_ids;
            assert(faces[f as int] == self.faces@[f as int]@);
            let len: usize = self.faces[f].vertex_ids.len();
            let mut row: Vec<usize> = Vec::new();
            let mut k: usize = 0;
            while k < len
                invariant
                    k <= len,
                    f < nf,
                    nf == self.faces@.len(),
                    n == self@.vertices.len(),
                    faces == self@.faces,
                    self@.wf(),
                    is_square(near@, n as nat),
                    ring == faces[f as int].vertex_ids,
                    ring == self.faces@[f as int].vertex_ids@,
                    len == ring.len(),
                    kept@ == kept_after(faces, near@, f as int, k as int),
                    forall|j: int| 0 <= j < kept@.len() ==> (#[trigger] kept@[j]) < n,
                    row@.len() == k,
                    forall|j: int|
                        0 <= j < k ==> {
                            &&& (#[trigger] row@[j]) == written_index(faces, near@, f as int, j)
                            &&& stands_for(kept@, near@, row@[j], ring[j])
                        },
                    rows@.len() == f,
                    forall|g: int, j: int|
                        0 <= g < f && 0 <= j < faces[g].vertex_ids.len() ==> stands_for(
                            kept@,
                            near@,
                            #[trigger] rows@[g]@[j],
                            faces[g].vertex_ids[j],
                        ),
                decreases len - k,
            {
                let id: usize = self.faces[f].vertex_ids[k];
                assert(id == faces[f as int].vertex_ids[k as int]);
                assert(id < n);
                let ghost before = kept@;
                let mut j: usize = 0;
                let mut found: bool = false;
                while j < kept.len() && !found
                    invariant
                        j <= kept@.len(),
                        kept@ == before,
                        id < n,
                        is_square(near@, n as nat),
                        forall|i: int| 0 <= i < kept@.len() ==> (#[trigger] kept@[i]) < n,
                        !found ==> twin(before, near@, id, 0) == twin(before, near@, id, j as int),
                        found ==> j < before.len() && twin(before, near@, id, 0) == j && near@[before[j as int] as int]@[id as int],
                    decreases kept@.len() - j + (if found { 0int } else { 1int }),
                {
                    let other: usize = kept[j];
                    assert(near@[other as int]@.len() == n);
                    if near[other][id] {
                        found = true;
                    } else {
                        j += 1;
                    }
                }
                if !found {
                    kept.push(id);
                }
                let total: usize = kept.len();
                assert(j < total);
                row.push(j + 1);
                k += 1;
            }
            rows.push(row);
            f += 1;
        }
        Welded { kept, faces: rows }
    }
}

} // verus!
