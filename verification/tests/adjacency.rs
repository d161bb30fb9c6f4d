use lodconv::{Face, Model, Point3, SurfaceType, Vertex};

fn vertex(id: usize, x: f64, y: f64, z: f64) -> Vertex<f64> {
    Vertex { point: Point3 { x, y, z }, id }
}

#[test]
fn test_face_adjacency() {
    // Create two triangles that share two vertices (0 and 2)
    let face1 = Face::new(vec![0, 1, 2]);
    let face2 = Face::new(vec![0, 2, 3]);

    // These faces should be adjacent
    assert!(face1.is_adjacent_to(&face2));

    // Create a triangle that doesn't share any vertices with face1
    let face3 = Face::new(vec![4, 5, 6]);

    // These faces should not be adjacent
    assert!(!face1.is_adjacent_to(&face3));
}

#[test]
fn new_face_is_unclassified_and_isolated() {
    let face = Face::new(vec![3, 1, 2]);
    assert_eq!(face.vertex_ids, vec![3, 1, 2]);
    assert_eq!(face.surface_type, SurfaceType::Unknown);
    assert!(face.adjacent_faces.is_empty());
}

#[test]
fn one_shared_vertex_is_not_adjacent() {
    let a = Face::new(vec![0, 1, 2]);
    let b = Face::new(vec![2, 3, 4]);
    assert!(!a.is_adjacent_to(&b));
    assert!(!b.is_adjacent_to(&a));
}

#[test]
fn repeated_id_counts_once() {
    let a = Face::new(vec![0, 0, 1]);
    let b = Face::new(vec![0, 5, 6]);
    assert!(!a.is_adjacent_to(&b));
    assert!(!b.is_adjacent_to(&a));
}

#[test]
fn two_non_consecutive_shared_vertices_are_adjacent() {
    let a = Face::new(vec![0, 1, 2, 3]);
    let b = Face::new(vec![0, 7, 2, 9]);
    assert!(a.is_adjacent_to(&b));
    assert!(b.is_adjacent_to(&a));
}

#[test]
fn empty_faces_are_not_adjacent() {
    let a = Face::new(vec![]);
    let b = Face::new(vec![0, 1, 2]);
    assert!(!a.is_adjacent_to(&b));
    assert!(!b.is_adjacent_to(&a));
    assert!(!a.is_adjacent_to(&a));
}

#[test]
fn model_new_builds_adjacency() {
    let vertices = vec![
        vertex(0, 0.0, 0.0, 0.0),
        vertex(1, 1.0, 0.0, 0.0),
        vertex(2, 1.0, 1.0, 0.0),
        vertex(3, 0.0, 1.0, 0.0),
        vertex(4, 2.0, 2.0, 0.0),
        vertex(5, 3.0, 2.0, 0.0),
        vertex(6, 3.0, 3.0, 0.0),
    ];
    let faces = vec![
        Face::new(vec![0, 1, 2]),
        Face::new(vec![0, 2, 3]),
        Face::new(vec![4, 5, 6]),
        Face::new(vec![2, 3, 0, 1]),
    ];
    let model = Model::new(vertices, faces);
    assert_eq!(model.vertices.len(), 7);
    assert_eq!(model.faces.len(), 4);
    assert_eq!(model.faces[0].adjacent_faces, vec![1, 3]);
    assert_eq!(model.faces[1].adjacent_faces, vec![0, 3]);
    assert_eq!(model.faces[2].adjacent_faces, Vec::<usize>::new());
    assert_eq!(model.faces[3].adjacent_faces, vec![0, 1]);
    assert_eq!(model.faces[0].vertex_ids, vec![0, 1, 2]);
    assert_eq!(model.faces[3].surface_type, SurfaceType::Unknown);
}

#[test]
fn build_adjacency_replaces_stale_entries() {
    let mut model: Model<f64> = Model::new(
        vec![vertex(0, 0.0, 0.0, 0.0), vertex(1, 1.0, 0.0, 0.0), vertex(2, 0.0, 1.0, 0.0)],
        vec![Face::new(vec![0, 1, 2]), Face::new(vec![2, 1, 0])],
    );
    assert_eq!(model.faces[0].adjacent_faces, vec![1]);
    model.build_adjacency();
    assert_eq!(model.faces[0].adjacent_faces, vec![1]);
    assert_eq!(model.faces[1].adjacent_faces, vec![0]);
    model.faces.pop();
    model.build_adjacency();
    assert_eq!(model.faces[0].adjacent_faces, Vec::<usize>::new());
}

#[test]
fn validity_asks_for_dense_ids_and_existing_vertices() {
    let good: Model<f64> = Model::new(
        vec![vertex(0, 0.0, 0.0, 0.0), vertex(1, 1.0, 0.0, 0.0), vertex(2, 0.0, 1.0, 0.0)],
        vec![Face::new(vec![0, 1, 2]), Face::new(vec![])],
    );
    assert!(good.is_valid());
    let dangling: Model<f64> = Model::new(
        vec![vertex(0, 0.0, 0.0, 0.0), vertex(1, 1.0, 0.0, 0.0)],
        vec![Face::new(vec![0, 1, 2])],
    );
    assert!(!dangling.is_valid());
    let sparse: Model<f64> =
        Model::new(vec![vertex(0, 0.0, 0.0, 0.0), vertex(2, 1.0, 0.0, 0.0)], vec![]);
    assert!(!sparse.is_valid());
    let empty: Model<f64> = Model::new(vec![], vec![]);
    assert!(empty.is_valid());
}
