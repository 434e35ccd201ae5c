use osmmodels::elements::LatLng;
use osmmodels::error::ModelError;
use osmmodels::project::{
    HeightMode, axis_bounds, cos_fixed_exec, latlng_to_metres, latlngs_to_coords, scale_factor,
};

fn ll(lat: i64, lng: i64) -> LatLng {
    LatLng { lat, lng }
}

#[test]
fn cosine_at_equator_is_one() {
    assert_eq!(cos_fixed_exec(0), 1_000_000);
}

#[test]
fn cosine_of_tiny_angle_is_one() {
    assert_eq!(cos_fixed_exec(1000), 1_000_000);
}

#[test]
fn cosine_at_sixty_degrees_is_near_half() {
    let c = cos_fixed_exec(60_000_000);
    assert!(c > 490_000 && c < 510_000, "cos(60) came out as {}", c);
}

#[test]
fn cosine_is_even() {
    assert_eq!(cos_fixed_exec(45_000_000), cos_fixed_exec(-45_000_000));
}

#[test]
fn metres_of_one_degree() {
    let (x, y) = latlng_to_metres(ll(1_000_000, 2_000_000));
    assert_eq!(x, 111_111_000_000);
    assert_eq!(y, 222_188_222_256);
}

#[test]
fn metres_at_equator_are_exact() {
    let (x, y) = latlng_to_metres(ll(0, 1000));
    assert_eq!(x, 0);
    assert_eq!(y, 111_111_000);
}

#[test]
fn axis_bounds_find_extremes() {
    let vals: Vec<i64> = vec![5, -3, 17, 0];
    assert_eq!(axis_bounds(&vals), (-3, 17));
}

#[test]
fn zero_extent_axis_is_degenerate() {
    assert_eq!(scale_factor(200, 5, 5), Err(ModelError::DegenerateAxis));
}

#[test]
fn scale_factor_is_ratio_of_extents() {
    // 200 units over an extent of 222_222_000 metre ticks
    assert_eq!(scale_factor(200, 0, 222_222_000), Ok(900_000));
}

// The same scale serves both axes: an input twice as wide as it is
// tall projects to an output twice as wide as it is tall.
#[test]
fn projection_preserves_aspect_ratio() {
    let ways = vec![vec![ll(0, 0), ll(0, 2000), ll(1000, 0), ll(1000, 2000)]];
    let (out, s) = latlngs_to_coords(&ways, 100, &HeightMode::Flat(0)).unwrap();
    assert_eq!(s, 450_000);
    let pts = &out[0];
    // latitude extent maps to half the target, longitude to the whole
    assert_eq!(pts[0].x, 0);
    assert_eq!(pts[0].z, 0);
    assert_eq!(pts[1].z, 99_999_900);
    assert_eq!(pts[2].x, 49_999_950);
    assert_eq!(pts[3].x, 49_999_950);
    assert_eq!(pts[3].z, 99_999_900);
}

// After projection the determining axis starts at exactly zero and
// ends at the target extent, short of it only by the rounding loss.
#[test]
fn projection_spans_zero_to_target() {
    let ways = vec![vec![ll(0, 0), ll(0, 2000), ll(1000, 0), ll(1000, 2000)]];
    let size: i64 = 100;
    let (out, _s) = latlngs_to_coords(&ways, size, &HeightMode::Flat(0)).unwrap();
    let target = size * 1_000_000;
    let mut min_z = i64::MAX;
    let mut max_z = i64::MIN;
    for p in &out[0] {
        min_z = min_z.min(p.z);
        max_z = max_z.max(p.z);
        assert!(0 <= p.x && p.x <= target);
        assert!(0 <= p.z && p.z <= target);
    }
    assert_eq!(min_z, 0);
    let slack = 222_222_000 / 1_000_000 + 1;
    assert!(max_z >= target - slack, "max {} target {}", max_z, target);
    assert!(max_z <= target);
}

#[test]
fn flat_height_mode_sets_constant_height() {
    let ways = vec![vec![ll(0, 0), ll(1000, 2000)]];
    let (out, _) = latlngs_to_coords(&ways, 100, &HeightMode::Flat(7_000_000)).unwrap();
    for p in &out[0] {
        assert_eq!(p.y, 7_000_000);
    }
}

#[test]
fn sampled_heights_scale_onto_their_own_extent() {
    let ways = vec![vec![ll(0, 0), ll(1000, 1000), ll(2000, 2000)]];
    let heights: Vec<i64> = vec![0, 1_000_000, 2_000_000];
    let mode = HeightMode::Samples(heights, 10);
    let (out, _) = latlngs_to_coords(&ways, 100, &mode).unwrap();
    assert_eq!(out[0][0].y, 0);
    assert_eq!(out[0][1].y, 5_000_000);
    assert_eq!(out[0][2].y, 10_000_000);
}

#[test]
fn equal_sampled_heights_are_degenerate() {
    let ways = vec![vec![ll(0, 0), ll(1000, 1000)]];
    let mode = HeightMode::Samples(vec![500, 500], 10);
    assert_eq!(
        latlngs_to_coords(&ways, 100, &mode),
        Err(ModelError::DegenerateAxis)
    );
}

#[test]
fn single_axis_input_is_degenerate() {
    let ways = vec![vec![ll(0, 0), ll(0, 2000)]];
    assert_eq!(
        latlngs_to_coords(&ways, 100, &HeightMode::Flat(0)),
        Err(ModelError::DegenerateAxis)
    );
}

#[test]
fn empty_input_is_degenerate() {
    let ways: Vec<Vec<LatLng>> = vec![];
    assert_eq!(
        latlngs_to_coords(&ways, 100, &HeightMode::Flat(0)),
        Err(ModelError::DegenerateAxis)
    );
}

#[test]
fn projection_keeps_way_shape() {
    let ways = vec![
        vec![ll(0, 0), ll(1000, 0)],
        vec![ll(0, 2000), ll(1000, 2000), ll(500, 1000)],
    ];
    let (out, _) = latlngs_to_coords(&ways, 100, &HeightMode::Flat(0)).unwrap();
    assert_eq!(out.len(), 2);
    assert_eq!(out[0].len(), 2);
    assert_eq!(out[1].len(), 3);
}
