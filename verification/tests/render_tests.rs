use osmmodels::mesh::{Wavefront, WavefrontValue};
use osmmodels::render::parse_wavefront;

#[test]
fn vertex_line_renders_fixed_decimals() {
    let v = WavefrontValue::Vertex(1_500_000, 0, -250_000);
    assert_eq!(v.to_string(), "v 1.500000 0.000000 -0.250000");
}

#[test]
fn face_line_renders_relative_references() {
    let f = WavefrontValue::Face(vec![-1, -2, -3, -4]);
    assert_eq!(f.to_string(), "f -1 -2 -3 -4");
}

#[test]
fn empty_face_renders_bare() {
    let f = WavefrontValue::Face(vec![]);
    assert_eq!(f.to_string(), "f");
}

#[test]
fn model_renders_one_line_per_record() {
    let mut w = Wavefront::new();
    w.add_vertex(1_500_000, 0, -250_000);
    w.add_vertex(10_000_000, 2_000_000, 0);
    w.add_face(vec![-1, -2]);
    assert_eq!(
        w.to_string(),
        "v 1.500000 0.000000 -0.250000\nv 10.000000 2.000000 0.000000\nf -1 -2\n"
    );
}

#[test]
fn empty_model_renders_empty_text() {
    let w = Wavefront::new();
    assert_eq!(w.to_string(), "");
}

// Parsing the rendered text gives back exactly the records that were
// rendered: coordinates, reference values and face arity included.
#[test]
fn render_then_parse_reproduces_the_model() {
    let mut w = Wavefront::new();
    w.add_vertex(1_500_000, 0, -250_000);
    w.add_vertex(-10_000_000, 2_000_000, 333_333);
    w.add_vertex(0, 0, 0);
    w.add_vertex(7, -7, 1);
    w.add_face(vec![-1, -2, -3, -4]);
    w.add_vertex(99_999_900, 1, -1);
    w.add_face(vec![-1]);
    let text = w.to_string();
    let parsed = parse_wavefront(&text).expect("rendered text must parse");
    assert_eq!(parsed.values.len(), w.values.len());
    for (a, b) in w.values.iter().zip(parsed.values.iter()) {
        match (a, b) {
            (WavefrontValue::Vertex(x1, y1, z1), WavefrontValue::Vertex(x2, y2, z2)) => {
                assert_eq!((x1, y1, z1), (x2, y2, z2));
            }
            (WavefrontValue::Face(r1), WavefrontValue::Face(r2)) => {
                assert_eq!(r1.len(), r2.len());
                assert_eq!(r1, r2);
            }
            _ => panic!("record kinds differ after the round trip"),
        }
    }
}

#[test]
fn parse_reads_vertices_and_faces() {
    let w = parse_wavefront("v 0.000000 1.000000 -2.500000\nf -1 -2 -3\n").unwrap();
    assert_eq!(w.values.len(), 2);
    match &w.values[0] {
        WavefrontValue::Vertex(x, y, z) => {
            assert_eq!((*x, *y, *z), (0, 1_000_000, -2_500_000));
        }
        _ => panic!("expected a vertex"),
    }
    match &w.values[1] {
        WavefrontValue::Face(refs) => assert_eq!(refs, &vec![-1, -2, -3]),
        _ => panic!("expected a face"),
    }
}

#[test]
fn parse_rejects_unterminated_line() {
    assert!(parse_wavefront("f -1").is_none());
}

#[test]
fn parse_rejects_unknown_record() {
    assert!(parse_wavefront("x 1.000000 1.000000 1.000000\n").is_none());
}

#[test]
fn parse_rejects_short_vertex_line() {
    assert!(parse_wavefront("v 1.000000 2.000000\n").is_none());
}

#[test]
fn parse_rejects_bare_number_in_vertex() {
    assert!(parse_wavefront("v 1 2 3\n").is_none());
}

#[test]
fn parse_rejects_fraction_in_face() {
    assert!(parse_wavefront("f -1.000000\n").is_none());
}

#[test]
fn parse_accepts_empty_text() {
    let w = parse_wavefront("").unwrap();
    assert_eq!(w.values.len(), 0);
}
