use lodconv::{Face, Model, Orientation, Point3, SurfaceType, Vertex};

fn vertex(id: usize, x: f64, y: f64, z: f64) -> Vertex<f64> {
    Vertex { point: Point3 { x, y, z }, id }
}

fn count(model: &Model<f64>, kind: SurfaceType) -> usize {
    model.faces.iter().filter(|f| f.surface_type == kind).count()
}

const LEVEL_LOW: Orientation = Orientation { level: true, upright: false, low: true };
const LEVEL_HIGH: Orientation = Orientation { level: true, upright: false, low: false };
const UPRIGHT_LOW: Orientation = Orientation { level: false, upright: true, low: true };
const SLOPED_HIGH: Orientation = Orientation { level: false, upright: false, low: false };

fn unit_box(height: f64) -> Model<f64> {
    let vertices = vec![
        vertex(0, 0.0, 0.0, 0.0),
        vertex(1, 1.0, 0.0, 0.0),
        vertex(2, 1.0, 1.0, 0.0),
        vertex(3, 0.0, 1.0, 0.0),
        vertex(4, 0.0, 0.0, height),
        vertex(5, 1.0, 0.0, height),
        vertex(6, 1.0, 1.0, height),
        vertex(7, 0.0, 1.0, height),
    ];
    let faces = vec![
        Face::new(vec![0, 3, 2, 1]),
        Face::new(vec![0, 1, 5, 4]),
        Face::new(vec![1, 2, 6, 5]),
        Face::new(vec![2, 3, 7, 6]),
        Face::new(vec![3, 0, 4, 7]),
        Face::new(vec![4, 5, 6, 7]),
    ];
    Model::new(vertices, faces)
}

fn box_measures() -> Vec<Orientation> {
    vec![LEVEL_LOW, UPRIGHT_LOW, UPRIGHT_LOW, UPRIGHT_LOW, UPRIGHT_LOW, LEVEL_HIGH]
}

#[test]
fn box_has_one_ground_four_walls_one_roof() {
    let mut model = unit_box(3.0);
    model.classify_surfaces(&box_measures());
    assert_eq!(count(&model, SurfaceType::Ground), 1);
    assert_eq!(count(&model, SurfaceType::Wall), 4);
    assert_eq!(count(&model, SurfaceType::Roof), 1);
    assert_eq!(count(&model, SurfaceType::Unknown), 0);
    assert_eq!(model.faces[0].surface_type, SurfaceType::Ground);
    assert_eq!(model.faces[5].surface_type, SurfaceType::Roof);
    assert_eq!(model.faces[5].vertex_ids, vec![4, 5, 6, 7]);
    assert_eq!(model.vertices[6].point.z, 3.0);
}

#[test]
fn classification_leaves_no_face_unknown() {
    let mut model = unit_box(2.0);
    let measures = vec![
        SLOPED_HIGH,
        Orientation { level: true, upright: true, low: false },
        Orientation { level: false, upright: false, low: true },
        Orientation { level: true, upright: true, low: true },
        UPRIGHT_LOW,
        LEVEL_HIGH,
    ];
    model.classify_surfaces(&measures);
    let kinds: Vec<SurfaceType> = model.faces.iter().map(|f| f.surface_type).collect();
    assert_eq!(
        kinds,
        vec![
            SurfaceType::Roof,
            SurfaceType::Wall,
            SurfaceType::Roof,
            SurfaceType::Ground,
            SurfaceType::Wall,
            SurfaceType::Roof,
        ]
    );
}

#[test]
fn ground_pass_marks_level_low_faces_only() {
    let mut model = unit_box(3.0);
    let measures = vec![LEVEL_LOW, UPRIGHT_LOW, LEVEL_LOW, SLOPED_HIGH, LEVEL_HIGH, LEVEL_LOW];
    let ground = model.mark_ground_faces(&measures);
    assert_eq!(ground, vec![0, 2, 5]);
    assert_eq!(model.faces[0].surface_type, SurfaceType::Ground);
    assert_eq!(model.faces[1].surface_type, SurfaceType::Unknown);
    assert_eq!(model.faces[2].surface_type, SurfaceType::Ground);
    assert_eq!(model.faces[3].surface_type, SurfaceType::Unknown);
    assert_eq!(model.faces[4].surface_type, SurfaceType::Unknown);
    assert_eq!(model.faces[5].surface_type, SurfaceType::Ground);
}

#[test]
fn classified_face_keeps_its_type_unless_ground() {
    let mut model = unit_box(3.0);
    model.classify_surfaces(&box_measures());
    let again = vec![SLOPED_HIGH, LEVEL_HIGH, LEVEL_LOW, UPRIGHT_LOW, UPRIGHT_LOW, UPRIGHT_LOW];
    model.classify_surfaces(&again);
    assert_eq!(model.faces[0].surface_type, SurfaceType::Ground);
    assert_eq!(model.faces[1].surface_type, SurfaceType::Wall);
    assert_eq!(model.faces[2].surface_type, SurfaceType::Ground);
    assert_eq!(model.faces[5].surface_type, SurfaceType::Roof);
}

#[test]
fn empty_model_classifies_to_nothing() {
    let mut model: Model<f64> = Model::new(vec![], vec![]);
    let ground = model.mark_ground_faces(&vec![]);
    assert!(ground.is_empty());
    model.classify_surfaces(&vec![]);
    assert!(model.faces.is_empty());
    assert!(!model.has_ground_face());
}
