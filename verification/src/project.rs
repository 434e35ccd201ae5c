use vstd::prelude::*;
use vstd::math::abs;
use vstd::arithmetic::div_mod::{lemma_div_is_ordered, lemma_div_pos_is_pos, lemma_fundamental_div_mod};
use vstd::arithmetic::mul::{lemma_mul_inequality, lemma_mul_nonnegative, lemma_mul_is_commutative};
use crate::elements::{LatLng, latlng_in_range};
use crate::error::ModelError;
use crate::extrude::Point3;
use crate::fixed::{ONE, mul_div_one, abs64, lemma_mul_div_one_bound};
use crate::resolve::{concat_points, total_points, latlng_views, lemma_concat_points_len, flatten_ways};

verus! {

/// Largest metre coordinate, in ticks, the local-metric approximation
/// can produce for an in-range point.
pub const METRES_LIMIT: i64 = 30_000_000_000_000;

/// The latitude's magnitude in fixed-point radians.
pub open spec fn rad_fixed(lat: int) -> int {
    (abs(lat) as int * 3_141_593) / 180_000_000
}

/// Fixed-point cosine of the latitude, by the truncated alternating
/// series in even powers of the radian value. A locally valid
/// approximation, like the flat metric it feeds.
pub open spec fn cos_fixed(lat: int) -> int {
    let r = rad_fixed(lat);
    let r2 = (r * r) / (ONE as int);
    let r4 = (r2 * r2) / (ONE as int);
    let r6 = (r4 * r2) / (ONE as int);
    (ONE as int) - r2 / 2 + r4 / 24 - r6 / 720
}

/// Northing of a point under the local flat metric: metres per degree
/// of latitude, taken constant.
pub open spec fn metres_x(lat: int) -> int {
    lat * 111_111
}

/// Easting of a point under the local flat metric: a degree of
/// longitude shrinks with the cosine of the latitude.
pub open spec fn metres_y(lat: int, lng: int) -> int {
    mul_div_one(lng * 111_111, cos_fixed(lat))
}

/// Computes the fixed-point cosine of a latitude.
pub fn cos_fixed_exec(lat: i64) -> (r: i64)
    requires
        -90_000_000 <= lat <= 90_000_000,
    ensures
        r as int == cos_fixed(lat as int),
        -300_000 <= r <= 1_300_000,
{
    let m: u64 = abs64(lat);
    let rad: u64 = (m * 3_141_593) / 180_000_000;
    assert(rad <= 1_570_796);
    assert(rad * rad <= 2_467_400_473_616) by (nonlinear_arith)
        requires
            rad <= 1_570_796u64,
    ;
    let r2: u64 = (rad * rad) / 1_000_000;
    assert(r2 <= 2_467_400);
    assert(r2 * r2 <= 6_088_062_760_000) by (nonlinear_arith)
        requires
            r2 <= 2_467_400u64,
    ;
    let r4: u64 = (r2 * r2) / 1_000_000;
    assert(r4 <= 6_088_062);
    assert(r4 * r2 <= 15_021_717_000_000) by (nonlinear_arith)
        requires
            r4 <= 6_088_062u64,
            r2 <= 2_467_400u64,
    ;
    let r6: u64 = (r4 * r2) / 1_000_000;
    assert(r6 <= 15_021_717);
    let t1: u64 = r2 / 2;
    let t2: u64 = r4 / 24;
    let t3: u64 = r6 / 720;
    assert(t1 <= 1_233_700 && t2 <= 253_670 && t3 <= 20_864);
    let c: i64 = 1_000_000i64 - (t1 as i64) + (t2 as i64) - (t3 as i64);
    proof {
        let ls = lat as int;
        assert(m == abs(ls));
        assert(rad as int == rad_fixed(ls));
        assert(r2 as int == (rad_fixed(ls) * rad_fixed(ls)) / (ONE as int));
        assert(c as int == cos_fixed(ls));
        assert(-300_000 <= c <= 1_300_000);
    }
    c
}

fn mul_div_wide(a: i64, b: i64) -> (r: i64)
    requires
        -100_000_000_000_000 <= a <= 100_000_000_000_000,
        -2_000_000 <= b <= 2_000_000,
    ensures
        r as int == mul_div_one(a as int, b as int),
{
    let ma: u64 = abs64(a);
    let mb: u64 = abs64(b);
    assert(ma <= 100_000_000_000_000 && mb <= 2_000_000);
    assert((ma as u128) * (mb as u128) <= 200_000_000_000_000_000_000u128) by (nonlinear_arith)
        requires
            ma <= 100_000_000_000_000u64,
            mb <= 2_000_000u64,
    ;
    let p: u128 = (ma as u128) * (mb as u128);
    let q: u128 = p / 1_000_000;
    proof {
        vstd::arithmetic::div_mod::lemma_div_is_ordered(
            p as int,
            200_000_000_000_000_000_000,
            ONE as int,
        );
    }
    let qi: i64 = q as i64;
    if (a < 0) != (b < 0) {
        -qi
    } else {
        qi
    }
}

/// Projects one point onto the local flat metric, in fixed-point
/// metres: north component first, east component second.
pub fn latlng_to_metres(p: LatLng) -> (r: (i64, i64))
    requires
        latlng_in_range(p),
    ensures
        r.0 as int == metres_x(p.lat as int),
        r.1 as int == metres_y(p.lat as int, p.lng as int),
        -METRES_LIMIT <= r.0 <= METRES_LIMIT,
        -METRES_LIMIT <= r.1 <= METRES_LIMIT,
{
    let x: i64 = p.lat * 111_111;
    let c: i64 = cos_fixed_exec(p.lat);
    let lm: i64 = p.lng * 111_111;
    let y: i64 = mul_div_wide(lm, c);
    proof {
        lemma_mul_div_one_bound(lm as int, c as int, 20_000_000_000_000, 1_300_000);
    }
    (x, y)
}


/// Smallest value a non-empty run of values holds.
pub open spec fn seq_min(s: Seq<i64>) -> int
    recommends
        s.len() > 0,
    decreases s.len(),
{
    if s.len() <= 1 {
        s[0] as int
    } else {
        let m = seq_min(s.drop_last());
        if (s.last() as int) < m {
            s.last() as int
        } else {
            m
        }
    }
}

/// Largest value a non-empty run of values holds.
pub open spec fn seq_max(s: Seq<i64>) -> int
    recommends
        s.len() > 0,
    decreases s.len(),
{
    if s.len() <= 1 {
        s[0] as int
    } else {
        let m = seq_max(s.drop_last());
        if (s.last() as int) > m {
            s.last() as int
        } else {
            m
        }
    }
}

/// The extremes bound every value and are both attained.
pub proof fn lemma_seq_min_max(s: Seq<i64>)
    requires
        s.len() > 0,
    ensures
        forall|i: int| 0 <= i < s.len() ==> seq_min(s) <= #[trigger] (s[i] as int) <= seq_max(s),
        exists|i: int| 0 <= i < s.len() && s[i] as int == seq_min(s),
        exists|i: int| 0 <= i < s.len() && s[i] as int == seq_max(s),
    decreases s.len(),
{
    if s.len() > 1 {
        lemma_seq_min_max(s.drop_last());
        assert(forall|i: int| 0 <= i < s.len() - 1 ==> s.drop_last()[i] == s[i]);
        let jm = choose|i: int|
            0 <= i < s.drop_last().len() && s.drop_last()[i] as int == seq_min(s.drop_last());
        let jx = choose|i: int|
            0 <= i < s.drop_last().len() && s.drop_last()[i] as int == seq_max(s.drop_last());
        assert(s[jm] as int == seq_min(s.drop_last()));
        assert(s[jx] as int == seq_max(s.drop_last()));
        assert(s[s.len() - 1] == s.last());
        assert(exists|i: int| 0 <= i < s.len() && s[i] as int == seq_min(s)) by {
            if (s.last() as int) < seq_min(s.drop_last()) {
                assert(s[s.len() - 1] as int == seq_min(s));
            } else {
                assert(s[jm] as int == seq_min(s));
            }
        }
        assert(exists|i: int| 0 <= i < s.len() && s[i] as int == seq_max(s)) by {
            if (s.last() as int) > seq_max(s.drop_last()) {
                assert(s[s.len() - 1] as int == seq_max(s));
            } else {
                assert(s[jx] as int == seq_max(s));
            }
        }
    } else {
        assert(s[0] as int == seq_min(s));
        assert(s[0] as int == seq_max(s));
    }
}

/// The minimum and maximum of a run of values, in one pass.
pub fn axis_bounds(vals: &Vec<i64>) -> (r: (i64, i64))
    requires
        vals@.len() > 0,
    ensures
        r.0 as int == seq_min(vals@),
        r.1 as int == seq_max(vals@),
{
    let mut lo: i64 = vals[0];
    let mut hi: i64 = vals[0];
    let mut i: usize = 1;
    proof {
        assert(vals@.subrange(0, 1).len() == 1);
        assert(vals@.subrange(0, 1)[0] == vals@[0]);
    }
    while i < vals.len()
        invariant
            1 <= i <= vals@.len(),
            lo as int == seq_min(vals@.subrange(0, i as int)),
            hi as int == seq_max(vals@.subrange(0, i as int)),
        decreases vals@.len() - i,
    {
        let v = vals[i];
        let ghost pre = vals@.subrange(0, i as int);
        if v < lo {
            lo = v;
        }
        if v > hi {
            hi = v;
        }
        i = i + 1;
        proof {
            let cur = vals@.subrange(0, i as int);
            assert(cur.drop_last() =~= pre);
            assert(cur.last() == v);
        }
    }
    proof {
        assert(vals@.subrange(0, vals@.len() as int) =~= vals@);
    }
    (lo, hi)
}

/// The fixed-point factor that maps an axis of extent `range` onto a
/// target extent of `size` whole units.
pub open spec fn scale_of(size: int, range: int) -> int
    recommends
        range >= 1,
{
    (size * (ONE as int) * (ONE as int)) / range
}

/// One scaled coordinate: the offset from the axis minimum, stretched
/// by the shared factor.
pub open spec fn scale_apply(v: int, lo: int, s: int) -> int {
    ((v - lo) * s) / (ONE as int)
}

/// The scale factor for one axis. An axis of zero extent has no finite
/// scale and fails the run.
pub fn scale_factor(size: i64, lo: i64, hi: i64) -> (r: Result<i64, ModelError>)
    requires
        1 <= size <= 1_000_000,
        -200_000_000_000_000 <= lo <= hi <= 200_000_000_000_000,
    ensures
        r is Ok <==> lo < hi,
        r matches Ok(s) ==> s as int == scale_of(size as int, hi - lo) && 0 <= s
            <= 1_000_000_000_000_000_000,
        r matches Err(e) ==> e == ModelError::DegenerateAxis,
{
    if hi <= lo {
        return Err(ModelError::DegenerateAxis);
    }
    let num: u64 = (size as u64) * 1_000_000 * 1_000_000;
    let range: u64 = (hi - lo) as u64;
    let s: u64 = num / range;
    proof {
        vstd::arithmetic::div_mod::lemma_div_is_ordered(
            num as int,
            1_000_000_000_000_000_000,
            range as int,
        );
        vstd::arithmetic::div_mod::lemma_div_pos_is_pos(num as int, range as int);
    }
    Ok(s as i64)
}

/// Applies the shared scale to one value of an axis.
pub fn scale_apply_exec(v: i64, lo: i64, s: i64) -> (r: i64)
    requires
        lo <= v,
        0 <= s,
        v - lo <= 400_000_000_000_000,
        (v - lo) * s <= 1_000_000_000_000_000_000,
    ensures
        r as int == scale_apply(v as int, lo as int, s as int),
        0 <= r <= 1_000_000_000_000,
{
    let d: u64 = (v - lo) as u64;
    assert((d as u128) * (s as u128) <= 1_000_000_000_000_000_000u128) by (nonlinear_arith)
        requires
            d == v - lo,
            0 <= v - lo,
            0 <= s,
            (v - lo) * s <= 1_000_000_000_000_000_000,
    ;
    let p: u128 = (d as u128) * (s as u128);
    let q: u128 = p / 1_000_000;
    proof {
        vstd::arithmetic::div_mod::lemma_div_is_ordered(
            p as int,
            1_000_000_000_000_000_000,
            ONE as int,
        );
    }
    q as i64
}


/// How the vertical coordinate of the model is chosen: one flat top
/// height in ticks, or one elevation sample per flattened point (in
/// fixed-point metres) scaled onto its own vertical extent.
#[derive(Debug, Clone)]
pub enum HeightMode {
    Flat(i64),
    Samples(Vec<i64>, i64),
}

/// The north metre values of a flattened point run.
pub open spec fn xs_of(flat: Seq<LatLng>) -> Seq<i64> {
    flat.map(|_i: int, p: LatLng| metres_x(p.lat as int) as i64)
}

/// The east metre values of a flattened point run.
pub open spec fn ys_of(flat: Seq<LatLng>) -> Seq<i64> {
    flat.map(|_i: int, p: LatLng| metres_y(p.lat as int, p.lng as int) as i64)
}

/// The factor that would map the north axis alone onto the target.
pub open spec fn scale_x(flat: Seq<LatLng>, size: int) -> int {
    scale_of(size, seq_max(xs_of(flat)) - seq_min(xs_of(flat)))
}

/// The factor that would map the east axis alone onto the target.
pub open spec fn scale_y(flat: Seq<LatLng>, size: int) -> int {
    scale_of(size, seq_max(ys_of(flat)) - seq_min(ys_of(flat)))
}

/// The one factor applied to both horizontal axes: the smaller of the
/// two per-axis factors, so the longer axis exactly fills the target
/// extent and the aspect ratio survives.
pub open spec fn shared_scale(flat: Seq<LatLng>, size: int) -> int {
    if scale_x(flat, size) < scale_y(flat, size) {
        scale_x(flat, size)
    } else {
        scale_y(flat, size)
    }
}

/// The vertical coordinate of flattened point `k` under a height mode.
pub open spec fn height_at(mode: HeightMode, k: int) -> int {
    match mode {
        HeightMode::Flat(h) => h as int,
        HeightMode::Samples(hs, ht) => scale_apply(
            hs@[k] as int,
            seq_min(hs@),
            scale_of(ht as int, seq_max(hs@) - seq_min(hs@)),
        ),
    }
}

/// The projected model point for flattened point `k`.
pub open spec fn proj_point(flat: Seq<LatLng>, size: int, mode: HeightMode, k: int) -> Point3 {
    let s = shared_scale(flat, size);
    Point3 {
        x: scale_apply(xs_of(flat)[k] as int, seq_min(xs_of(flat)), s) as i64,
        y: height_at(mode, k) as i64,
        z: scale_apply(ys_of(flat)[k] as int, seq_min(ys_of(flat)), s) as i64,
    }
}

/// Whether the input admits a finite scale on every axis it uses.
pub open spec fn projectable(gws: Seq<Seq<LatLng>>, mode: HeightMode) -> bool {
    let flat = concat_points(gws);
    &&& flat.len() > 0
    &&& seq_min(xs_of(flat)) < seq_max(xs_of(flat))
    &&& seq_min(ys_of(flat)) < seq_max(ys_of(flat))
    &&& (mode matches HeightMode::Samples(hs, _ht) ==> seq_min(hs@) < seq_max(hs@))
}

pub open spec fn ways_in_range(gws: Seq<Seq<LatLng>>) -> bool {
    forall|i: int, j: int|
        0 <= i < gws.len() && 0 <= j < gws[i].len() ==> latlng_in_range(#[trigger] gws[i][j])
}

/// Every point of the flattened run comes from one of the ways, so it
/// stays in range with them.
pub proof fn lemma_concat_points_range(gws: Seq<Seq<LatLng>>)
    requires
        ways_in_range(gws),
    ensures
        forall|k: int|
            0 <= k < concat_points(gws).len() ==> latlng_in_range(#[trigger] concat_points(gws)[k]),
    decreases gws.len(),
{
    if gws.len() > 0 {
        let pre = gws.drop_last();
        assert(ways_in_range(pre)) by {
            assert forall|i: int, j: int|
                0 <= i < pre.len() && 0 <= j < pre[i].len() implies latlng_in_range(
                #[trigger] pre[i][j],
            ) by {
                assert(pre[i] == gws[i]);
                assert(latlng_in_range(gws[i][j]));
            }
        }
        lemma_concat_points_range(pre);
        assert forall|k: int|
            0 <= k < concat_points(gws).len() implies latlng_in_range(
            #[trigger] concat_points(gws)[k],
        ) by {
            if k < concat_points(pre).len() {
                assert(concat_points(gws)[k] == concat_points(pre)[k]);
            } else {
                let j = k - concat_points(pre).len();
                assert(concat_points(gws)[k] == gws.last()[j]);
                assert(gws[gws.len() - 1][j] == gws.last()[j]);
            }
        }
    }
}

/// The total point count splits at any boundary.
pub proof fn lemma_total_split(gws: Seq<Seq<LatLng>>, i: int)
    requires
        0 <= i <= gws.len(),
    ensures
        total_points(gws) == total_points(gws.subrange(0, i)) + total_points(gws.skip(i)),
    decreases gws.len(),
{
    if i == gws.len() {
        assert(gws.subrange(0, i) =~= gws);
        assert(gws.skip(i) =~= Seq::<Seq<LatLng>>::empty());
    } else {
        let pre = gws.drop_last();
        lemma_total_split(pre, i);
        assert(pre.subrange(0, i) =~= gws.subrange(0, i));
        assert(pre.skip(i) =~= gws.skip(i).drop_last());
        assert(gws.skip(i).last() == gws.last());
        assert(gws.skip(i).len() > 0);
    }
}

/// One step of the running prefix: one more way adds its own points.
pub proof fn lemma_total_extend(gws: Seq<Seq<LatLng>>, i: int)
    requires
        0 <= i < gws.len(),
    ensures
        total_points(gws.subrange(0, i + 1)) == total_points(gws.subrange(0, i)) + gws[i].len(),
{
    let sub2 = gws.subrange(0, i + 1);
    assert(sub2.drop_last() =~= gws.subrange(0, i));
    assert(sub2.last() == gws[i]);
}

/// The point sequences a vector of projected ways denotes.
pub open spec fn p3_views(ways: Seq<Vec<Point3>>) -> Seq<Seq<Point3>> {
    ways.map(|_i: int, w: Vec<Point3>| w@)
}

/// One flattened run of projected points, way order then point order.
pub open spec fn concat_p3(ways: Seq<Seq<Point3>>) -> Seq<Point3>
    decreases ways.len(),
{
    if ways.len() == 0 {
        Seq::empty()
    } else {
        concat_p3(ways.drop_last()) + ways.last()
    }
}

/// The product of an offset inside an axis with a factor at most that
/// axis' scale stays within the target extent.
pub proof fn lemma_scale_bound(v: int, lo: int, hi: int, size: int, s: int)
    requires
        lo <= v <= hi,
        lo < hi,
        0 <= s <= scale_of(size, hi - lo),
        1 <= size <= 1_000_000,
    ensures
        0 <= (v - lo) * s <= size * (ONE as int) * (ONE as int),
        (v - lo) * s <= 1_000_000_000_000_000_000,
        scale_apply(v, lo, s) <= size * (ONE as int),
        0 <= scale_apply(v, lo, s),
{
    let range = hi - lo;
    let target = size * (ONE as int) * (ONE as int);
    lemma_fundamental_div_mod(target, range);
    vstd::arithmetic::div_mod::lemma_mod_division_less_than_divisor(target, range);
    assert(range * (target / range) <= target) by {
        assert(target == range * (target / range) + target % range);
        assert(target % range >= 0);
    }
    lemma_mul_inequality(s, target / range, range);
    lemma_mul_is_commutative(s, range);
    lemma_mul_is_commutative(target / range, range);
    assert(range * s <= range * (target / range));
    lemma_mul_inequality(v - lo, range, s);
    lemma_mul_is_commutative(v - lo, s);
    lemma_mul_is_commutative(range, s);
    assert((v - lo) * s <= range * s);
    lemma_mul_nonnegative(v - lo, s);
    assert(target <= 1_000_000_000_000_000_000);
    lemma_div_is_ordered((v - lo) * s, target, ONE as int);
    assert(target / (ONE as int) == size * (ONE as int));
    lemma_div_pos_is_pos((v - lo) * s, ONE as int);
}


/// Projects every way of the track onto the model plane: local flat
/// metres first, then one shared scale on both horizontal axes so the
/// longer axis fills the target extent and the shape keeps its aspect
/// ratio. Heights come from the chosen mode. Returns the projected
/// ways, shape unchanged, together with the shared scale factor.
pub fn latlngs_to_coords(ways: &Vec<Vec<LatLng>>, size: i64, mode: &HeightMode) -> (r: Result<
    (Vec<Vec<Point3>>, i64),
    ModelError,
>)
    requires
        ways_in_range(latlng_views(ways@)),
        1 <= size <= 1_000_000,
        mode matches HeightMode::Flat(h) ==> 0 <= *h <= 1_000_000_000_000,
        mode matches HeightMode::Samples(hs, ht) ==> hs@.len() == concat_points(
            latlng_views(ways@),
        ).len() && 1 <= *ht <= 1_000_000 && forall|i: int|
            0 <= i < hs@.len() ==> -100_000_000_000 <= #[trigger] hs@[i] <= 100_000_000_000,
    ensures
        r is Ok <==> projectable(latlng_views(ways@), *mode),
        r matches Ok(pr) ==> {
            let gws = latlng_views(ways@);
            let flat = concat_points(gws);
            &&& pr.1 as int == shared_scale(flat, size as int)
            &&& pr.0@.len() == gws.len()
            &&& (forall|i: int|
                0 <= i < gws.len() ==> (#[trigger] pr.0@[i])@.len() == gws[i].len())
            &&& concat_p3(p3_views(pr.0@)) == Seq::new(
                flat.len(),
                |k: int| proj_point(flat, size as int, *mode, k),
            )
        },
        r matches Err(e) ==> e == ModelError::DegenerateAxis,
{
    let ghost gws = latlng_views(ways@);
    let ghost flat = concat_points(gws);
    let flatpts: Vec<LatLng> = flatten_ways(ways);
    proof {
        lemma_concat_points_range(gws);
    }
    if flatpts.len() == 0 {
        return Err(ModelError::DegenerateAxis);
    }
    let mut xs: Vec<i64> = Vec::new();
    let mut ys: Vec<i64> = Vec::new();
    let mut i: usize = 0;
    while i < flatpts.len()
        invariant
            flatpts@ == flat,
            forall|k: int| 0 <= k < flat.len() ==> latlng_in_range(#[trigger] flat[k]),
            i <= flat.len(),
            xs@.len() == i,
            ys@.len() == i,
            forall|k: int|
                0 <= k < i ==> #[trigger] xs@[k] == xs_of(flat)[k] && -METRES_LIMIT <= xs@[k]
                    <= METRES_LIMIT,
            forall|k: int|
                0 <= k < i ==> #[trigger] ys@[k] == ys_of(flat)[k] && -METRES_LIMIT <= ys@[k]
                    <= METRES_LIMIT,
        decreases flat.len() - i,
    {
        let m = latlng_to_metres(flatpts[i]);
        xs.push(m.0);
        ys.push(m.1);
        proof {
            assert(xs_of(flat)[i as int] == metres_x(flat[i as int].lat as int) as i64);
            assert(ys_of(flat)[i as int] == metres_y(
                flat[i as int].lat as int,
                flat[i as int].lng as int,
            ) as i64);
        }
        i = i + 1;
    }
    proof {
        assert(xs@ =~= xs_of(flat));
        assert(ys@ =~= ys_of(flat));
        lemma_seq_min_max(xs@);
        lemma_seq_min_max(ys@);
    }
    let bx = axis_bounds(&xs);
    let by = axis_bounds(&ys);
    proof {
        let jm = choose|j: int| 0 <= j < xs@.len() && xs@[j] as int == seq_min(xs@);
        let jx = choose|j: int| 0 <= j < xs@.len() && xs@[j] as int == seq_max(xs@);
        let km = choose|j: int| 0 <= j < ys@.len() && ys@[j] as int == seq_min(ys@);
        let kx = choose|j: int| 0 <= j < ys@.len() && ys@[j] as int == seq_max(ys@);
        assert(-METRES_LIMIT <= bx.0 <= METRES_LIMIT);
        assert(-METRES_LIMIT <= bx.1 <= METRES_LIMIT);
        assert(-METRES_LIMIT <= by.0 <= METRES_LIMIT);
        assert(-METRES_LIMIT <= by.1 <= METRES_LIMIT);
    }
    let sx: i64 = match scale_factor(size, bx.0, bx.1) {
        Ok(v) => v,
        Err(e) => {
            return Err(e);
        },
    };
    let sy: i64 = match scale_factor(size, by.0, by.1) {
        Ok(v) => v,
        Err(e) => {
            return Err(e);
        },
    };
    let s: i64 = if sx < sy {
        sx
    } else {
        sy
    };
    proof {
        assert(s as int == shared_scale(flat, size as int));
    }
    let hinfo: Option<(i64, i64)> = match mode {
        HeightMode::Flat(_) => None,
        HeightMode::Samples(hs, ht) => {
            proof {
                assert(hs@.len() == flat.len());
                assert(hs@.len() > 0);
                lemma_seq_min_max(hs@);
                let hm = choose|j: int| 0 <= j < hs@.len() && hs@[j] as int == seq_min(hs@);
                let hx = choose|j: int| 0 <= j < hs@.len() && hs@[j] as int == seq_max(hs@);
                assert(-100_000_000_000 <= seq_min(hs@));
                assert(seq_max(hs@) <= 100_000_000_000);
            }
            let hb = axis_bounds(hs);
            match scale_factor(*ht, hb.0, hb.1) {
                Ok(v) => Some((hb.0, v)),
                Err(e) => {
                    return Err(e);
                },
            }
        },
    };
    let mut out: Vec<Vec<Point3>> = Vec::new();
    let mut c: usize = 0;
    let mut wi: usize = 0;
    proof {
        lemma_concat_points_len(gws);
        assert(total_points(gws.subrange(0, 0)) == 0) by {
            assert(gws.subrange(0, 0) =~= Seq::<Seq<LatLng>>::empty());
        }
        assert(concat_p3(p3_views(out@)) =~= Seq::new(
            0,
            |k: int| proj_point(flat, size as int, *mode, k),
        )) by {
            assert(p3_views(out@) =~= Seq::<Seq<Point3>>::empty());
        }
    }
    while wi < ways.len()
        invariant
            gws == latlng_views(ways@),
            flat == concat_points(gws),
            flat.len() > 0,
            flat.len() == total_points(gws),
            flat.len() <= usize::MAX,
            1 <= size <= 1_000_000,
            xs@ == xs_of(flat),
            ys@ == ys_of(flat),
            xs@.len() == flat.len(),
            ys@.len() == flat.len(),
            forall|k: int|
                0 <= k < flat.len() ==> seq_min(xs@) <= #[trigger] (xs@[k] as int) <= seq_max(
                    xs@,
                ),
            forall|k: int|
                0 <= k < flat.len() ==> seq_min(ys@) <= #[trigger] (ys@[k] as int) <= seq_max(
                    ys@,
                ),
            bx.0 as int == seq_min(xs@) && bx.1 as int == seq_max(xs@),
            by.0 as int == seq_min(ys@) && by.1 as int == seq_max(ys@),
            bx.0 < bx.1,
            by.0 < by.1,
            -METRES_LIMIT <= bx.0 <= METRES_LIMIT && bx.1 <= METRES_LIMIT,
            -METRES_LIMIT <= by.0 <= METRES_LIMIT && by.1 <= METRES_LIMIT,
            0 <= sx as int == scale_of(size as int, bx.1 - bx.0),
            0 <= sy as int == scale_of(size as int, by.1 - by.0),
            s as int == shared_scale(flat, size as int),
            0 <= s <= sx && s <= sy,
            mode matches HeightMode::Flat(h) ==> 0 <= *h <= 1_000_000_000_000 && hinfo is None,
            mode matches HeightMode::Samples(hs, ht) ==> {
                &&& hs@.len() == flat.len()
                &&& 1 <= *ht <= 1_000_000
                &&& (forall|k: int|
                    0 <= k < hs@.len() ==> -100_000_000_000 <= #[trigger] hs@[k]
                        <= 100_000_000_000)
                &&& seq_min(hs@) < seq_max(hs@)
                &&& -100_000_000_000 <= seq_min(hs@) && seq_max(hs@) <= 100_000_000_000
                &&& (forall|k: int|
                    0 <= k < hs@.len() ==> seq_min(hs@) <= #[trigger] (hs@[k] as int)
                        <= seq_max(hs@))
                &&& hinfo matches Some(hi2) && hi2.0 as int == seq_min(hs@) && 0 <= hi2.1 as int
                    == scale_of(*ht as int, seq_max(hs@) - seq_min(hs@))
            },
            wi <= ways@.len(),
            out@.len() == wi,
            forall|k: int| 0 <= k < wi ==> (#[trigger] out@[k])@.len() == gws[k].len(),
            c as int == total_points(gws.subrange(0, wi as int)),
            c <= flat.len(),
            concat_p3(p3_views(out@)) == Seq::new(
                c as nat,
                |k: int| proj_point(flat, size as int, *mode, k),
            ),
        decreases ways@.len() - wi,
    {
        let way: &Vec<LatLng> = &ways[wi];
        let ghost c0 = c as int;
        proof {
            lemma_total_extend(gws, wi as int);
            lemma_total_split(gws, wi as int + 1);
            lemma_concat_points_len(gws.skip(wi as int + 1));
            assert(gws[wi as int] == way@);
        }
        let mut cur: Vec<Point3> = Vec::new();
        let mut j: usize = 0;
        while j < way.len()
            invariant
                gws == latlng_views(ways@),
                flat == concat_points(gws),
                flat.len() == total_points(gws),
                flat.len() <= usize::MAX,
                1 <= size <= 1_000_000,
                xs@ == xs_of(flat),
                ys@ == ys_of(flat),
                xs@.len() == flat.len(),
                ys@.len() == flat.len(),
                forall|k: int|
                    0 <= k < flat.len() ==> seq_min(xs@) <= #[trigger] (xs@[k] as int)
                        <= seq_max(xs@),
                forall|k: int|
                    0 <= k < flat.len() ==> seq_min(ys@) <= #[trigger] (ys@[k] as int)
                        <= seq_max(ys@),
                bx.0 as int == seq_min(xs@) && bx.1 as int == seq_max(xs@),
                by.0 as int == seq_min(ys@) && by.1 as int == seq_max(ys@),
                bx.0 < bx.1,
                by.0 < by.1,
                -METRES_LIMIT <= bx.0 <= METRES_LIMIT && bx.1 <= METRES_LIMIT,
                -METRES_LIMIT <= by.0 <= METRES_LIMIT && by.1 <= METRES_LIMIT,
                0 <= sx as int == scale_of(size as int, bx.1 - bx.0),
                0 <= sy as int == scale_of(size as int, by.1 - by.0),
                s as int == shared_scale(flat, size as int),
                0 <= s <= sx && s <= sy,
                mode matches HeightMode::Flat(h) ==> 0 <= *h <= 1_000_000_000_000 && hinfo
                    is None,
                mode matches HeightMode::Samples(hs, ht) ==> {
                    &&& hs@.len() == flat.len()
                    &&& 1 <= *ht <= 1_000_000
                    &&& (forall|k: int|
                        0 <= k < hs@.len() ==> -100_000_000_000 <= #[trigger] hs@[k]
                            <= 100_000_000_000)
                    &&& seq_min(hs@) < seq_max(hs@)
                    &&& -100_000_000_000 <= seq_min(hs@) && seq_max(hs@) <= 100_000_000_000
                    &&& (forall|k: int|
                        0 <= k < hs@.len() ==> seq_min(hs@) <= #[trigger] (hs@[k] as int)
                            <= seq_max(hs@))
                    &&& hinfo matches Some(hi2) && hi2.0 as int == seq_min(hs@) && 0 <= hi2.1
                        as int == scale_of(*ht as int, seq_max(hs@) - seq_min(hs@))
                },
                wi < ways@.len(),
                way@ == gws[wi as int],
                j <= way@.len(),
                c as int == c0 + j,
                c0 == total_points(gws.subrange(0, wi as int)),
                c0 + way@.len() <= flat.len(),
                cur@ == Seq::new(
                    j as nat,
                    |jj: int| proj_point(flat, size as int, *mode, c0 + jj),
                ),
            decreases way@.len() - j,
        {
            proof {
                assert((c as int) < flat.len());
                lemma_scale_bound(xs@[c as int] as int, bx.0 as int, bx.1 as int, size as int, s as int);
                lemma_scale_bound(ys@[c as int] as int, by.0 as int, by.1 as int, size as int, s as int);
            }
            let px: i64 = scale_apply_exec(xs[c], bx.0, s);
            let pz: i64 = scale_apply_exec(ys[c], by.0, s);
            let py: i64 = match mode {
                HeightMode::Flat(h) => *h,
                HeightMode::Samples(hs, _ht) => {
                    let hi2 = hinfo.unwrap();
                    proof {
                        lemma_scale_bound(
                            hs@[c as int] as int,
                            hi2.0 as int,
                            seq_max(hs@),
                            *_ht as int,
                            hi2.1 as int,
                        );
                    }
                    scale_apply_exec(hs[c], hi2.0, hi2.1)
                },
            };
            let ghost precur = cur@;
            cur.push(Point3 { x: px, y: py, z: pz });
            c = c + 1;
            j = j + 1;
            proof {
                assert(py as int == height_at(*mode, c0 + j - 1));
                assert(cur@.last() == proj_point(flat, size as int, *mode, c0 + j - 1));
                assert(cur@ =~= Seq::new(
                    j as nat,
                    |jj: int| proj_point(flat, size as int, *mode, c0 + jj),
                ));
            }
        }
        let ghost preout = out@;
        out.push(cur);
        wi = wi + 1;
        proof {
            lemma_total_extend(gws, wi as int - 1);
            lemma_total_split(gws, wi as int);
            assert(p3_views(out@).drop_last() =~= p3_views(preout));
            assert(p3_views(out@).last() == out@[out@.len() - 1]@);
            assert(concat_p3(p3_views(out@)) == concat_p3(p3_views(preout)) + out@[out@.len()
                - 1]@);
            assert(concat_p3(p3_views(out@)) =~= Seq::new(
                c as nat,
                |k: int| proj_point(flat, size as int, *mode, k),
            ));
            assert forall|k: int| 0 <= k < wi implies (#[trigger] out@[k])@.len()
                == gws[k].len() by {
                if k < wi - 1 {
                    assert(out@[k] == preout[k]);
                }
            }
        }
    }
    proof {
        assert(gws.subrange(0, gws.len() as int) =~= gws);
        assert(c as int == total_points(gws));
    }
    Ok((out, s))
}


/// One shared factor serves both horizontal axes: it is the smaller of
/// the two per-axis factors, and every projected coordinate is the
/// offset from its axis minimum stretched by that one factor, never by
/// a per-axis one.
pub proof fn lemma_uniform_scale(flat: Seq<LatLng>, size: int, mode: HeightMode)
    ensures
        shared_scale(flat, size) == scale_x(flat, size) || shared_scale(flat, size) == scale_y(
            flat,
            size,
        ),
        shared_scale(flat, size) <= scale_x(flat, size),
        shared_scale(flat, size) <= scale_y(flat, size),
        forall|k: int|
            0 <= k < flat.len() ==> (#[trigger] proj_point(flat, size, mode, k)).x == scale_apply(
                xs_of(flat)[k] as int,
                seq_min(xs_of(flat)),
                shared_scale(flat, size),
            ) as i64 && proj_point(flat, size, mode, k).z == scale_apply(
                ys_of(flat)[k] as int,
                seq_min(ys_of(flat)),
                shared_scale(flat, size),
            ) as i64,
{
}

/// Dividing a difference moves the quotient down by at most one step.
proof fn lemma_near_target(size: int, range: int)
    requires
        1 <= size <= 1_000_000,
        1 <= range,
    ensures
        (size * (ONE as int) * (ONE as int) - range) / (ONE as int) >= size * (ONE as int)
            - range / (ONE as int) - 1,
{
    let one = ONE as int;
    let target = size * one * one;
    lemma_fundamental_div_mod(range, one);
    let rq = range / one;
    let rm = range % one;
    vstd::arithmetic::div_mod::lemma_mod_division_less_than_divisor(range, one);
    assert(range == one * rq + rm);
    if rm == 0 {
        assert(target - range == one * (size * one - rq));
        vstd::arithmetic::div_mod::lemma_fundamental_div_mod_converse(
            target - range,
            one,
            size * one - rq,
            0,
        );
    } else {
        assert(target - range == one * (size * one - rq - 1) + (one - rm));
        vstd::arithmetic::div_mod::lemma_fundamental_div_mod_converse(
            target - range,
            one,
            size * one - rq - 1,
            one - rm,
        );
    }
}

/// Projection preserves the aspect ratio and fills the target extent:
/// every projected coordinate lies inside `[0, size * ONE]` on both
/// horizontal axes, the minimum of each axis lands exactly on zero,
/// and on the axis whose extent determined the shared scale the
/// maximum lands on the target extent short of it by at most the
/// rounding loss of one tick per metre tick.
pub proof fn lemma_projection_extent(flat: Seq<LatLng>, size: int, mode: HeightMode)
    requires
        flat.len() > 0,
        seq_min(xs_of(flat)) < seq_max(xs_of(flat)),
        seq_min(ys_of(flat)) < seq_max(ys_of(flat)),
        -METRES_LIMIT <= seq_min(xs_of(flat)) && seq_max(xs_of(flat)) <= METRES_LIMIT,
        -METRES_LIMIT <= seq_min(ys_of(flat)) && seq_max(ys_of(flat)) <= METRES_LIMIT,
        1 <= size <= 1_000_000,
    ensures
        forall|k: int|
            0 <= k < flat.len() ==> 0 <= (#[trigger] proj_point(flat, size, mode, k)).x as int
                <= size * (ONE as int) && 0 <= proj_point(flat, size, mode, k).z as int <= size * (
            ONE as int),
        exists|k: int| 0 <= k < flat.len() && (#[trigger] proj_point(flat, size, mode, k)).x == 0,
        exists|k: int| 0 <= k < flat.len() && (#[trigger] proj_point(flat, size, mode, k)).z == 0,
        scale_x(flat, size) <= scale_y(flat, size) ==> exists|k: int|
            0 <= k < flat.len() && (#[trigger] proj_point(flat, size, mode, k)).x as int >= size * (
            ONE as int) - (seq_max(xs_of(flat)) - seq_min(xs_of(flat))) / (ONE as int) - 1,
        scale_y(flat, size) <= scale_x(flat, size) ==> exists|k: int|
            0 <= k < flat.len() && (#[trigger] proj_point(flat, size, mode, k)).z as int >= size * (
            ONE as int) - (seq_max(ys_of(flat)) - seq_min(ys_of(flat))) / (ONE as int) - 1,
{
    let one = ONE as int;
    let xs = xs_of(flat);
    let ys = ys_of(flat);
    let lox = seq_min(xs);
    let hix = seq_max(xs);
    let loy = seq_min(ys);
    let hiy = seq_max(ys);
    let s = shared_scale(flat, size);
    let target = size * one * one;
    assert(xs.len() == flat.len());
    assert(ys.len() == flat.len());
    lemma_seq_min_max(xs);
    lemma_seq_min_max(ys);
    assert(0 <= s) by {
        lemma_div_pos_is_pos(target, hix - lox);
        lemma_div_pos_is_pos(target, hiy - loy);
    }
    assert forall|k: int| 0 <= k < flat.len() implies 0 <= (#[trigger] proj_point(
        flat,
        size,
        mode,
        k,
    )).x as int <= size * one && 0 <= proj_point(flat, size, mode, k).z as int <= size * one by {
        lemma_scale_bound(xs[k] as int, lox, hix, size, s);
        lemma_scale_bound(ys[k] as int, loy, hiy, size, s);
    }
    let km = choose|i: int| 0 <= i < xs.len() && xs[i] as int == seq_min(xs);
    assert(proj_point(flat, size, mode, km).x as int == scale_apply(lox, lox, s));
    assert(scale_apply(lox, lox, s) == 0) by {
        assert((lox - lox) * s == 0) by (nonlinear_arith);
    }
    let kmy = choose|i: int| 0 <= i < ys.len() && ys[i] as int == seq_min(ys);
    assert(proj_point(flat, size, mode, kmy).z as int == scale_apply(loy, loy, s));
    assert(scale_apply(loy, loy, s) == 0) by {
        assert((loy - loy) * s == 0) by (nonlinear_arith);
    }
    if scale_x(flat, size) <= scale_y(flat, size) {
        let kx = choose|i: int| 0 <= i < xs.len() && xs[i] as int == seq_max(xs);
        let range = hix - lox;
        assert(s == scale_of(size, range));
        lemma_fundamental_div_mod(target, range);
        vstd::arithmetic::div_mod::lemma_mod_division_less_than_divisor(target, range);
        assert(range * s >= target - range + 1) by {
            assert(target == range * (target / range) + target % range);
        }
        lemma_div_is_ordered(target - range, range * s, one);
        lemma_near_target(size, range);
        assert(scale_apply(hix, lox, s) >= size * one - range / one - 1);
        assert(proj_point(flat, size, mode, kx).x as int == scale_apply(hix, lox, s)) by {
            lemma_scale_bound(hix, lox, hix, size, s);
        }
        assert(0 <= kx < flat.len() && proj_point(flat, size, mode, kx).x as int >= size * one
            - range / one - 1);
    }
    if scale_y(flat, size) <= scale_x(flat, size) {
        let kz = choose|i: int| 0 <= i < ys.len() && ys[i] as int == seq_max(ys);
        let range = hiy - loy;
        assert(s == scale_of(size, range));
        lemma_fundamental_div_mod(target, range);
        vstd::arithmetic::div_mod::lemma_mod_division_less_than_divisor(target, range);
        assert(range * s >= target - range + 1) by {
            assert(target == range * (target / range) + target % range);
        }
        lemma_div_is_ordered(target - range, range * s, one);
        lemma_near_target(size, range);
        assert(scale_apply(hiy, loy, s) >= size * one - range / one - 1);
        assert(proj_point(flat, size, mode, kz).z as int == scale_apply(hiy, loy, s)) by {
            lemma_scale_bound(hiy, loy, hiy, size, s);
        }
        assert(0 <= kz < flat.len() && proj_point(flat, size, mode, kz).z as int >= size * one
            - range / one - 1);
    }
}

} // verus!
