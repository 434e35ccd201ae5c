use osmmodels::error::ModelError;
use osmmodels::extrude::{Point3, to_wavefront};
use osmmodels::mesh::WavefrontValue;

fn p(x: i64, y: i64, z: i64) -> Point3 {
    Point3 { x, y, z }
}

const ONE: i64 = 1_000_000;

fn counts(values: &[WavefrontValue]) -> (usize, usize) {
    let mut vs = 0;
    let mut fs = 0;
    for v in values {
        match v {
            WavefrontValue::Vertex(..) => vs += 1,
            WavefrontValue::Face(..) => fs += 1,
        }
    }
    (vs, fs)
}

// One segment gives four wall surfaces: sixteen vertices and four
// faces, a face after each run of four vertices.
#[test]
fn one_segment_gives_sixteen_vertices_four_faces() {
    let ways = vec![vec![p(0, 0, 0), p(10 * ONE, 0, 0)]];
    let w = to_wavefront(ONE, &ways).unwrap();
    assert_eq!(w.values.len(), 20);
    let (vs, fs) = counts(&w.values);
    assert_eq!(vs, 16);
    assert_eq!(fs, 4);
    for (i, v) in w.values.iter().enumerate() {
        match v {
            WavefrontValue::Face(refs) => {
                assert_eq!(i % 5, 4);
                assert_eq!(refs, &vec![-1, -2, -3, -4]);
            }
            WavefrontValue::Vertex(..) => assert!(i % 5 != 4),
        }
    }
}

#[test]
fn segment_counts_scale_with_path_length() {
    let ways = vec![vec![
        p(0, 0, 0),
        p(10 * ONE, 0, 0),
        p(10 * ONE, 0, 10 * ONE),
        p(0, 0, 10 * ONE),
    ]];
    let w = to_wavefront(ONE, &ways).unwrap();
    assert_eq!(w.values.len(), 3 * 20);
    let (vs, fs) = counts(&w.values);
    assert_eq!(vs, 3 * 16);
    assert_eq!(fs, 3 * 4);
}

// A straight segment along the x axis with unit thickness offsets its
// rail one unit to the left: offset points (0, 1) and (10, 1).
#[test]
fn straight_segment_offsets_by_unit_perpendicular() {
    let a = p(0, 2 * ONE, 0);
    let b = p(10 * ONE, 2 * ONE, 0);
    let w = to_wavefront(ONE, &vec![vec![a, b]]).unwrap();
    // top surface: a, a1, b1, b
    match &w.values[0] {
        WavefrontValue::Vertex(x, y, z) => {
            assert_eq!((*x, *y, *z), (0, 2 * ONE, 0));
        }
        _ => panic!("expected a vertex"),
    }
    match &w.values[1] {
        WavefrontValue::Vertex(x, y, z) => {
            assert_eq!((*x, *y, *z), (0, 2 * ONE, ONE));
        }
        _ => panic!("expected a vertex"),
    }
    match &w.values[2] {
        WavefrontValue::Vertex(x, y, z) => {
            assert_eq!((*x, *y, *z), (10 * ONE, 2 * ONE, ONE));
        }
        _ => panic!("expected a vertex"),
    }
    match &w.values[3] {
        WavefrontValue::Vertex(x, y, z) => {
            assert_eq!((*x, *y, *z), (10 * ONE, 2 * ONE, 0));
        }
        _ => panic!("expected a vertex"),
    }
}

#[test]
fn bottom_surface_sits_on_the_ground_plane() {
    let a = p(0, 2 * ONE, 0);
    let b = p(10 * ONE, 2 * ONE, 0);
    let w = to_wavefront(ONE, &vec![vec![a, b]]).unwrap();
    // records 15..18 are the bottom quad's vertices
    for i in 15..19 {
        match &w.values[i] {
            WavefrontValue::Vertex(_, y, _) => assert_eq!(*y, 0),
            _ => panic!("expected a vertex"),
        }
    }
}

#[test]
fn diagonal_segment_offsets_left() {
    // a 45-degree segment: the left-hand perpendicular points up-left
    let a = p(0, 0, 0);
    let b = p(10 * ONE, 0, 10 * ONE);
    let w = to_wavefront(ONE, &vec![vec![a, b]]).unwrap();
    match &w.values[1] {
        WavefrontValue::Vertex(x, _, z) => {
            // unit direction (0.707106, 0.707106); rail offset (-0.707106, 0.707106)
            assert_eq!(*x, -707_106);
            assert_eq!(*z, 707_106);
        }
        _ => panic!("expected a vertex"),
    }
}

#[test]
fn short_way_is_degenerate() {
    let ways = vec![vec![p(0, 0, 0)]];
    assert!(matches!(
        to_wavefront(ONE, &ways),
        Err(ModelError::DegenerateWay)
    ));
}

#[test]
fn repeated_point_is_degenerate() {
    let ways = vec![vec![p(0, 0, 0), p(0, 5 * ONE, 0)]];
    assert!(matches!(
        to_wavefront(ONE, &ways),
        Err(ModelError::DegenerateWay)
    ));
}

#[test]
fn each_way_extrudes_independently() {
    let ways = vec![
        vec![p(0, 0, 0), p(10 * ONE, 0, 0)],
        vec![p(0, 0, 5 * ONE), p(10 * ONE, 0, 5 * ONE)],
    ];
    let w = to_wavefront(ONE, &ways).unwrap();
    assert_eq!(w.values.len(), 40);
}
