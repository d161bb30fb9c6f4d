use lodconv::{Error, Face, Model, Orientation, Point3, SurfaceType, Vertex};

fn vertex(id: usize, x: f64, y: f64, z: f64) -> Vertex<f64> {
    Vertex { point: Point3 { x, y, z }, id }
}

fn face(ids: Vec<usize>, kind: SurfaceType) -> Face {
    let mut f = Face::new(ids);
    f.surface_type = kind;
    f
}

fn points(model: &Model<f64>) -> Vec<(f64, f64, f64)> {
    model.vertices.iter().map(|v| (v.point.x, v.point.y, v.point.z)).collect()
}

fn rings(model: &Model<f64>) -> Vec<Vec<usize>> {
    model.faces.iter().map(|f| f.vertex_ids.clone()).collect()
}

fn kinds(model: &Model<f64>) -> Vec<SurfaceType> {
    model.faces.iter().map(|f| f.surface_type).collect()
}

fn square() -> Model<f64> {
    Model::new(
        vec![
            vertex(0, 0.0, 0.0, 0.0),
            vertex(1, 4.0, 0.0, 0.0),
            vertex(2, 4.0, 2.0, 0.25),
            vertex(3, 0.0, 2.0, 0.0),
        ],
        vec![face(vec![0, 1, 2, 3], SurfaceType::Ground)],
    )
}

/// A box with a gable roof: eaves at height 3, ridge at height 5.
fn gable_house() -> Model<f64> {
    let vertices = vec![
        vertex(0, 0.0, 0.0, 3.0),
        vertex(1, 4.0, 0.0, 3.0),
        vertex(2, 4.0, 2.0, 3.0),
        vertex(3, 0.0, 2.0, 3.0),
        vertex(4, 0.0, 1.0, 5.0),
        vertex(5, 4.0, 1.0, 5.0),
        vertex(6, 0.0, 0.0, 0.0),
        vertex(7, 4.0, 0.0, 0.0),
        vertex(8, 4.0, 2.0, 0.0),
        vertex(9, 0.0, 2.0, 0.0),
    ];
    let faces = vec![
        Face::new(vec![0, 1, 5, 4]),
        Face::new(vec![3, 4, 5, 2]),
        Face::new(vec![6, 7, 1, 0]),
        Face::new(vec![7, 8, 2, 5, 1]),
        Face::new(vec![8, 9, 3, 2]),
        Face::new(vec![9, 6, 0, 4, 3]),
        Face::new(vec![6, 9, 8, 7]),
    ];
    Model::new(vertices, faces)
}

fn gable_measures() -> Vec<Orientation> {
    let slope = Orientation { level: false, upright: false, low: false };
    let wall = Orientation { level: false, upright: true, low: true };
    let ground = Orientation { level: true, upright: false, low: true };
    vec![slope, slope, wall, wall, wall, wall, ground]
}

#[test]
fn extrusion_of_a_square_footprint() {
    let mut model = square();
    model.extrude_to_lod1(7.5);
    assert_eq!(
        points(&model),
        vec![
            (0.0, 0.0, 0.0),
            (4.0, 0.0, 0.0),
            (4.0, 2.0, 0.25),
            (0.0, 2.0, 0.0),
            (0.0, 0.0, 7.5),
            (4.0, 0.0, 7.5),
            (4.0, 2.0, 7.5),
            (0.0, 2.0, 7.5),
        ]
    );
    let ids: Vec<usize> = model.vertices.iter().map(|v| v.id).collect();
    assert_eq!(ids, vec![0, 1, 2, 3, 4, 5, 6, 7]);
    assert_eq!(
        rings(&model),
        vec![
            vec![0, 1, 2, 3],
            vec![0, 1, 5, 4],
            vec![1, 2, 6, 5],
            vec![2, 3, 7, 6],
            vec![3, 0, 4, 7],
            vec![4, 5, 6, 7],
        ]
    );
    assert_eq!(
        kinds(&model),
        vec![
            SurfaceType::Ground,
            SurfaceType::Wall,
            SurfaceType::Wall,
            SurfaceType::Wall,
            SurfaceType::Wall,
            SurfaceType::Roof,
        ]
    );
    assert_eq!(model.faces[0].adjacent_faces, vec![1, 2, 3, 4]);
    assert_eq!(model.faces[1].adjacent_faces, vec![0, 2, 4, 5]);
    assert_eq!(model.faces[5].adjacent_faces, vec![1, 2, 3, 4]);
}

#[test]
fn extrusion_without_ground_changes_nothing() {
    let mut model = Model::new(
        vec![vertex(0, 0.0, 0.0, 1.0), vertex(1, 1.0, 0.0, 1.0), vertex(2, 0.0, 1.0, 1.0)],
        vec![face(vec![0, 1, 2], SurfaceType::Roof)],
    );
    model.extrude_to_lod1(2.0);
    assert_eq!(model.vertices.len(), 3);
    assert_eq!(rings(&model), vec![vec![0, 1, 2]]);
    assert_eq!(kinds(&model), vec![SurfaceType::Roof]);
}

#[test]
fn gable_house_becomes_a_flat_roofed_box() {
    let mut model = gable_house();
    model.classify_surfaces(&gable_measures());
    assert_eq!(
        kinds(&model),
        vec![
            SurfaceType::Roof,
            SurfaceType::Roof,
            SurfaceType::Wall,
            SurfaceType::Wall,
            SurfaceType::Wall,
            SurfaceType::Wall,
            SurfaceType::Ground,
        ]
    );
    assert!(model.has_ground_face());
    let edges_before = model.find_boundary_edges();
    assert_eq!(edges_before.len(), 4);

    assert_eq!(model.to_lod1_2(4.0, true), Ok(()));

    assert_eq!(
        points(&model),
        vec![
            (0.0, 0.0, 0.0),
            (4.0, 0.0, 0.0),
            (4.0, 2.0, 0.0),
            (0.0, 2.0, 0.0),
            (0.0, 0.0, 4.0),
            (0.0, 2.0, 4.0),
            (4.0, 2.0, 4.0),
            (4.0, 0.0, 4.0),
        ]
    );
    assert_eq!(
        rings(&model),
        vec![
            vec![0, 3, 2, 1],
            vec![0, 3, 5, 4],
            vec![3, 2, 6, 5],
            vec![2, 1, 7, 6],
            vec![1, 0, 4, 7],
            vec![4, 5, 6, 7],
        ]
    );
    assert_eq!(model.faces.len(), edges_before.len() + 1 + 1);
    assert_eq!(
        kinds(&model),
        vec![
            SurfaceType::Ground,
            SurfaceType::Wall,
            SurfaceType::Wall,
            SurfaceType::Wall,
            SurfaceType::Wall,
            SurfaceType::Roof,
        ]
    );
}

#[test]
fn conversion_without_ground_is_refused() {
    let mut model = gable_house();
    let tilted = Orientation { level: false, upright: false, low: true };
    model.classify_surfaces(&vec![tilted; 7]);
    assert!(!model.has_ground_face());
    let before = rings(&model);
    assert_eq!(model.to_lod1_2(4.0, true), Err(Error::NoGroundSurface));
    assert_eq!(model.to_lod1_2(-1.0, false), Err(Error::NoGroundSurface));
    assert_eq!(rings(&model), before);
    assert_eq!(model.vertices.len(), 10);
}

#[test]
fn conversion_with_non_positive_height_is_refused() {
    let mut model = gable_house();
    model.classify_surfaces(&gable_measures());
    let before = rings(&model);
    assert_eq!(model.to_lod1_2(0.0, false), Err(Error::NonPositiveHeight));
    assert_eq!(model.to_lod1_2(-2.5, false), Err(Error::NonPositiveHeight));
    assert_eq!(rings(&model), before);
    assert_eq!(model.vertices.len(), 10);
    assert_eq!(model.faces.len(), 7);
}

#[test]
fn error_messages() {
    assert_eq!(Error::NoGroundSurface.message(), "No ground surfaces found");
    assert_eq!(Error::NonPositiveHeight.message(), "Failed to calculate target height");
}
