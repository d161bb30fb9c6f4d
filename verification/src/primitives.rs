use vstd::prelude::*;

verus! {

/// Surface type classification.
#[derive(Clone, Copy, Debug, PartialEq, Eq, Structural)]
pub enum SurfaceType {
    Ground,
    Wall,
    Roof,
    /// The state of a face before classification.
    Unknown,
}

/// A position in space over a scalar type `S`.
#[derive(Clone, Copy, Debug)]
pub struct Point3<S> {
    pub x: S,
    pub y: S,
    pub z: S,
}

/// A vertex in the model.
#[derive(Clone, Copy, Debug)]
pub struct Vertex<S> {
    pub point: Point3<S>,
    pub id: usize,
}

/// What the classifier needs to know of a face's orientation and elevation.
#[derive(Clone, Copy, Debug, PartialEq, Eq, Structural)]
pub struct Orientation {
    /// The face normal is within the angular slack of the up axis.
    pub level: bool,
    /// The face normal is within the angular slack of the horizontal plane.
    pub upright: bool,
    /// The lowest point of the face lies in the ground band above the mesh minimum.
    pub low: bool,
}

/// A face in the model.
#[derive(Clone, Debug)]
pub struct Face {
    /// Ids referencing vertices in the model.
    pub vertex_ids: Vec<usize>,
    pub surface_type: SurfaceType,
    /// Indices of adjacent faces.
    pub adjacent_faces: Vec<usize>,
}

/// The mathematical content of a [`Face`].
pub struct FaceView {
    pub vertex_ids: Seq<usize>,
    pub surface_type: SurfaceType,
    pub adjacent_faces: Seq<usize>,
}

impl View for Face {
    type V = FaceView;

    open spec fn view(&self) -> FaceView {
        FaceView {
            vertex_ids: self.vertex_ids@,
            surface_type: self.surface_type,
            adjacent_faces: self.adjacent_faces@,
        }
    }
}

/// `id` occurs in both rings.
pub open spec fn shared(a: Seq<usize>, b: Seq<usize>, id: usize) -> bool {
    a.contains(id) && b.contains(id)
}

/// The two rings have at least two distinct vertex ids in common.
pub open spec fn shares_two(a: Seq<usize>, b: Seq<usize>) -> bool {
    exists|x: usize, y: usize| x != y && #[trigger] shared(a, b, x) && #[trigger] shared(a, b, y)
}

/// Whether `id` occurs in `ids`.
pub fn contains_id(ids: &Vec<usize>, id: usize) -> (found: bool)
    ensures
        found == ids@.contains(id),
{
    let mut k: usize = 0;
    while k < ids.len()
        invariant
            k <= ids.len(),
            forall|j: int| 0 <= j < k ==> ids@[j] != id,
        decreases ids.len() - k,
    {
        if ids[k] == id {
            return true;
        }
        k += 1;
    }
    false
}

impl Face {
    /// Create a new, unclassified face from vertex ids.
    pub fn new(vertex_ids: Vec<usize>) -> (face: Face)
        ensures
            face@ == (FaceView {
                vertex_ids: vertex_ids@,
                surface_type: SurfaceType::Unknown,
                adjacent_faces: Seq::empty(),
            }),
    {
        Face { vertex_ids, surface_type: SurfaceType::Unknown, adjacent_faces: Vec::new() }
    }

    /// Check if this face is adjacent to another face: the two share at least
    /// two distinct vertex ids.
    pub fn is_adjacent_to(&self, other: &Face) -> (adjacent: bool)
        ensures
            adjacent == shares_two(self@.vertex_ids, other@.vertex_ids),
    {
        let ghost a = self.vertex_ids@;
        let ghost b = other.vertex_ids@;
        let mut first: Option<usize> = None;
        let mut k: usize = 0;
        while k < self.vertex_ids.len()
            invariant
                k <= self.vertex_ids.len(),
                a == self.vertex_ids@,
                b == other.vertex_ids@,
                forall|j: int| 0 <= j < k && b.contains(a[j]) ==> first == Some(#[trigger] a[j]),
                first is Some ==> shared(a, b, first->0),
            decreases self.vertex_ids.len() - k,
        {
            let id: usize = self.vertex_ids[k];
            if contains_id(&other.vertex_ids, id) {
                assert(a.contains(id));
                match first {
                    None => {
                        first = Some(id);
                    },
                    Some(x) => {
                        if x != id {
                            assert(shared(a, b, x) && shared(a, b, id));
                            return true;
                        }
                    },
                }
            }
            k += 1;
        }
        assert forall|x: usize, y: usize| #[trigger]
            shared(a, b, x) && #[trigger] shared(a, b, y) implies x == y by {
            let jx = choose|j: int| 0 <= j < a.len() && a[j] == x;
            let jy = choose|j: int| 0 <= j < a.len() && a[j] == y;
            assert(first == Some(a[jx]));
            assert(first == Some(a[jy]));
        }
        false
    }
}

} // verus!
