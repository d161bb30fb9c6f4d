use lodconv::{Face, Model, Point3, Vertex};

fn model(points: &[(f64, f64, f64)], rings: &[&[usize]]) -> Model<f64> {
    let vertices = points
        .iter()
        .enumerate()
        .map(|(id, &(x, y, z))| Vertex { point: Point3 { x, y, z }, id })
        .collect();
    let faces = rings.iter().map(|r| Face::new(r.to_vec())).collect();
    Model::new(vertices, faces)
}

fn near_table(m: &Model<f64>, eps: f64) -> Vec<Vec<bool>> {
    m.vertices
        .iter()
        .map(|a| {
            m.vertices
                .iter()
                .map(|b| {
                    (a.point.x - b.point.x).abs() < eps
                        && (a.point.y - b.point.y).abs() < eps
                        && (a.point.z - b.point.z).abs() < eps
                })
                .collect()
        })
        .collect()
}

#[test]
fn distinct_vertices_are_all_kept_in_order_of_use() {
    let m = model(
        &[(0.0, 0.0, 0.0), (1.0, 0.0, 0.0), (1.0, 1.0, 0.0), (0.0, 1.0, 0.0), (5.0, 5.0, 5.0)],
        &[&[2, 3, 0], &[0, 1, 2]],
    );
    let out = m.weld(&near_table(&m, 1e-6));
    assert_eq!(out.kept, vec![2, 3, 0, 1]);
    assert_eq!(out.faces, vec![vec![1, 2, 3], vec![3, 4, 1]]);
}

#[test]
fn coinciding_vertices_are_written_once() {
    let m = model(
        &[
            (0.0, 0.0, 0.0),
            (1.0, 0.0, 0.0),
            (0.0, 1.0, 0.0),
            (1.0, 0.0, 0.0000001),
            (0.0, 1.0, 0.0),
            (1.0, 1.0, 0.0),
        ],
        &[&[0, 1, 2], &[3, 5, 4]],
    );
    let out = m.weld(&near_table(&m, 1e-6));
    assert_eq!(out.kept, vec![0, 1, 2, 5]);
    assert_eq!(out.faces, vec![vec![1, 2, 3], vec![2, 4, 3]]);
}

#[test]
fn the_first_near_vertex_wins() {
    let m = model(&[(0.0, 0.0, 0.0), (0.6, 0.0, 0.0), (1.2, 0.0, 0.0)], &[&[0, 2, 1], &[1, 1, 2]]);
    let out = m.weld(&near_table(&m, 1.0));
    assert_eq!(out.kept, vec![0, 2]);
    assert_eq!(out.faces, vec![vec![1, 2, 1], vec![1, 1, 2]]);
}

#[test]
fn welding_an_empty_model_gives_nothing() {
    let m = model(&[], &[]);
    let out = m.weld(&vec![]);
    assert!(out.kept.is_empty());
    assert!(out.faces.is_empty());
    let lonely = model(&[(1.0, 2.0, 3.0)], &[&[]]);
    let out = lonely.weld(&vec![vec![true]]);
    assert!(out.kept.is_empty());
    assert_eq!(out.faces, vec![Vec::<usize>::new()]);
}
