use osmmodels::elements::{Element, ElementGraph, LatLng, find_track};
use osmmodels::extrude::to_wavefront;
use osmmodels::mesh::WavefrontValue;
use osmmodels::project::{HeightMode, latlngs_to_coords};
use osmmodels::render::parse_wavefront;
use osmmodels::resolve::{expand_relation, flatten_ways};

fn test_loop_graph() -> ElementGraph {
    let mut g = ElementGraph::new();
    assert!(g.insert(1, Element::Node { lat: 0, lng: 0 }));
    assert!(g.insert(2, Element::Node { lat: 0, lng: 1000 }));
    assert!(g.insert(3, Element::Node { lat: 0, lng: 2000 }));
    assert!(g.insert(4, Element::Node { lat: 1000, lng: 0 }));
    assert!(g.insert(5, Element::Node { lat: 1000, lng: 1000 }));
    assert!(g.insert(6, Element::Node { lat: 1000, lng: 2000 }));
    assert!(g.insert(10, Element::Way { nodes: vec![1, 2, 3] }));
    assert!(g.insert(11, Element::Way { nodes: vec![4, 5, 6] }));
    let tags = vec![
        ("type".to_string(), "route".to_string()),
        ("name".to_string(), "Test Loop".to_string()),
    ];
    assert!(g.insert(100, Element::Relation { members: vec![10, 11], tags }));
    g
}

// The track named "Test Loop" resolves to one relation with two way
// members of three nodes each: a flattened run of six points in
// member-then-node order, and a projection with one axis spanning
// zero to the target extent.
#[test]
fn test_loop_resolves_and_projects() {
    let g = test_loop_graph();
    let (id, e) = find_track(&g, "Test Loop").unwrap();
    assert_eq!(id, 100);
    let ways = expand_relation(id, e, &g).unwrap();
    assert_eq!(ways.len(), 2);
    let flat = flatten_ways(&ways);
    assert_eq!(flat.len(), 6);
    let expected = [
        (0, 0),
        (0, 1000),
        (0, 2000),
        (1000, 0),
        (1000, 1000),
        (1000, 2000),
    ];
    for (p, (lat, lng)) in flat.iter().zip(expected.iter()) {
        assert_eq!(p, &LatLng { lat: *lat, lng: *lng });
    }

    let size: i64 = 200;
    let (coords, s) = latlngs_to_coords(&ways, size, &HeightMode::Flat(0)).unwrap();
    assert_eq!(s, 900_000);
    assert_eq!(coords.len(), 2);
    assert_eq!(coords[0].len(), 3);
    assert_eq!(coords[1].len(), 3);
    // the longitude extent determines the scale: its axis spans the
    // target extent, short of it only by the rounding loss
    let target = size * 1_000_000;
    let mut min_z = i64::MAX;
    let mut max_z = i64::MIN;
    for way in &coords {
        for p in way {
            min_z = min_z.min(p.z);
            max_z = max_z.max(p.z);
        }
    }
    assert_eq!(min_z, 0);
    assert_eq!(max_z, 199_999_800);
    assert!(max_z >= target - 223);
    // exact projected coordinates, way by way
    assert_eq!((coords[0][0].x, coords[0][0].z), (0, 0));
    assert_eq!((coords[0][1].x, coords[0][1].z), (0, 99_999_900));
    assert_eq!((coords[0][2].x, coords[0][2].z), (0, 199_999_800));
    assert_eq!((coords[1][0].x, coords[1][0].z), (99_999_900, 0));
    assert_eq!((coords[1][1].x, coords[1][1].z), (99_999_900, 99_999_900));
    assert_eq!((coords[1][2].x, coords[1][2].z), (99_999_900, 199_999_800));
}

#[test]
fn whole_pipeline_emits_a_parseable_model() {
    let g = test_loop_graph();
    let (id, e) = find_track(&g, "Test Loop").unwrap();
    let ways = expand_relation(id, e, &g).unwrap();
    let (coords, s) = latlngs_to_coords(&ways, 200, &HeightMode::Flat(2_000_000)).unwrap();
    let thickness = 14 * s;
    let w = to_wavefront(thickness, &coords).unwrap();
    // two ways of three points each: four segments of twenty records
    assert_eq!(w.values.len(), 4 * 20);
    let text = w.to_string();
    let parsed = parse_wavefront(&text).expect("the emitted model must parse");
    assert_eq!(parsed.values.len(), w.values.len());
    for (a, b) in w.values.iter().zip(parsed.values.iter()) {
        match (a, b) {
            (WavefrontValue::Vertex(x1, y1, z1), WavefrontValue::Vertex(x2, y2, z2)) => {
                assert_eq!((x1, y1, z1), (x2, y2, z2));
            }
            (WavefrontValue::Face(r1), WavefrontValue::Face(r2)) => assert_eq!(r1, r2),
            _ => panic!("record kinds differ after the round trip"),
        }
    }
}
