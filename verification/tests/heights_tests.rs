use osmmodels::elements::LatLng;
use osmmodels::heights::{chunk_points, format_locations};

fn ll(lat: i64, lng: i64) -> LatLng {
    LatLng { lat, lng }
}

// An input of 250 points goes out as exactly three batches of 100,
// 100 and 50 points, and concatenating them gives the input order.
#[test]
fn two_hundred_fifty_points_make_three_batches() {
    let mut pts: Vec<LatLng> = Vec::new();
    for i in 0..250 {
        pts.push(ll(i, -i));
    }
    let chunks = chunk_points(&pts);
    assert_eq!(chunks.len(), 3);
    assert_eq!(chunks[0].len(), 100);
    assert_eq!(chunks[1].len(), 100);
    assert_eq!(chunks[2].len(), 50);
    let mut k: usize = 0;
    for c in &chunks {
        for p in c {
            assert_eq!(*p, pts[k]);
            k += 1;
        }
    }
    assert_eq!(k, 250);
}

#[test]
fn exactly_one_hundred_points_make_one_batch() {
    let mut pts: Vec<LatLng> = Vec::new();
    for i in 0..100 {
        pts.push(ll(i, i));
    }
    let chunks = chunk_points(&pts);
    assert_eq!(chunks.len(), 1);
    assert_eq!(chunks[0].len(), 100);
}

#[test]
fn one_hundred_one_points_make_two_batches() {
    let mut pts: Vec<LatLng> = Vec::new();
    for i in 0..101 {
        pts.push(ll(i, i));
    }
    let chunks = chunk_points(&pts);
    assert_eq!(chunks.len(), 2);
    assert_eq!(chunks[0].len(), 100);
    assert_eq!(chunks[1].len(), 1);
}

#[test]
fn a_single_point_makes_a_single_batch() {
    let pts = vec![ll(5, 7)];
    let chunks = chunk_points(&pts);
    assert_eq!(chunks.len(), 1);
    assert_eq!(chunks[0], vec![ll(5, 7)]);
}

#[test]
fn no_points_make_no_batches() {
    let pts: Vec<LatLng> = Vec::new();
    let chunks = chunk_points(&pts);
    assert_eq!(chunks.len(), 0);
}

#[test]
fn locations_render_as_degree_pairs() {
    let pts = vec![ll(48_137_154, 11_576_124), ll(-1_500_000, 250_000)];
    let s = format_locations(&pts);
    assert_eq!(s, "48.137154,11.576124|-1.500000,0.250000");
}

#[test]
fn one_location_has_no_separator() {
    let pts = vec![ll(0, 0)];
    assert_eq!(format_locations(&pts), "0.000000,0.000000");
}
