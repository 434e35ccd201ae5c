use vstd::prelude::*;
use vstd::math::abs;
use vstd::arithmetic::div_mod::{lemma_multiply_divide_le, lemma_div_is_ordered};
use crate::error::ModelError;
use crate::fixed::{ONE, sqrt_floor, isqrt, scale_ratio, mul_div_one, abs64};
use crate::mesh::{
    MeshEntry, Wavefront, vertex_count, face_count, lemma_vertex_count_nonneg,
    lemma_vertex_count_push,
};

verus! {

/// Largest coordinate magnitude, in ticks, that the extruder accepts.
/// Keeping inputs inside it lets every intermediate product fit its
/// machine integer.
pub const COORD_LIMIT: i64 = 1_000_000_000_000;

/// A point of the scaled model space, in fixed-point ticks. `y` is the
/// vertical axis; walls rise from the ground plane `y == 0`.
#[derive(Debug, Clone, Copy, PartialEq, Eq, Structural)]
pub struct Point3 {
    pub x: i64,
    pub y: i64,
    pub z: i64,
}

pub open spec fn in_bounds(p: Point3) -> bool {
    &&& -COORD_LIMIT <= p.x <= COORD_LIMIT
    &&& -COORD_LIMIT <= p.y <= COORD_LIMIT
    &&& -COORD_LIMIT <= p.z <= COORD_LIMIT
}



/// Squared horizontal length of the segment from `a` to `b`.
pub open spec fn seg_norm_sq(a: Point3, b: Point3) -> int {
    (b.x - a.x) * (b.x - a.x) + (b.z - a.z) * (b.z - a.z)
}

/// Horizontal length of the segment from `a` to `b`, rounded down.
pub open spec fn seg_len(a: Point3, b: Point3) -> int {
    sqrt_floor(seg_norm_sq(a, b))
}

/// Horizontal unit direction of the segment, in ticks.
pub open spec fn unit_x(a: Point3, b: Point3) -> int {
    scale_ratio(b.x - a.x, seg_len(a, b))
}

pub open spec fn unit_z(a: Point3, b: Point3) -> int {
    scale_ratio(b.z - a.z, seg_len(a, b))
}

/// Sideways displacement of the wall: the unit direction turned a
/// quarter turn left and stretched to the wall thickness.
pub open spec fn off_x(a: Point3, b: Point3, t: int) -> int {
    mul_div_one(-unit_z(a, b), t)
}

pub open spec fn off_z(a: Point3, b: Point3, t: int) -> int {
    mul_div_one(unit_x(a, b), t)
}

/// One wall surface: four vertices followed by the face that closes
/// them, referenced relative to the end of the vertex log.
pub open spec fn quad_entries(v1: MeshEntry, v2: MeshEntry, v3: MeshEntry, v4: MeshEntry) -> Seq<
    MeshEntry,
> {
    seq![v1, v2, v3, v4, MeshEntry::Face(seq![-1int, -2int, -3int, -4int])]
}

pub open spec fn vtx(p: Point3) -> MeshEntry {
    MeshEntry::Vertex(p.x as int, p.y as int, p.z as int)
}

pub open spec fn vtx_ground(p: Point3) -> MeshEntry {
    MeshEntry::Vertex(p.x as int, 0, p.z as int)
}

/// Everything one segment of wall emits, in emission order: the top
/// surface, the side along the centerline, the side along the offset
/// rail, and the bottom surface.
pub open spec fn segment_entries(a: Point3, b: Point3, t: int) -> Seq<MeshEntry> {
    let ox = off_x(a, b, t);
    let oz = off_z(a, b, t);
    quad_entries(
        MeshEntry::Vertex(a.x as int, a.y as int, a.z as int),
        MeshEntry::Vertex(a.x + ox, a.y as int, a.z + oz),
        MeshEntry::Vertex(b.x + ox, b.y as int, b.z + oz),
        MeshEntry::Vertex(b.x as int, b.y as int, b.z as int),
    ) + quad_entries(
        MeshEntry::Vertex(a.x as int, 0, a.z as int),
        MeshEntry::Vertex(a.x as int, a.y as int, a.z as int),
        MeshEntry::Vertex(b.x as int, b.y as int, b.z as int),
        MeshEntry::Vertex(b.x as int, 0, b.z as int),
    ) + quad_entries(
        MeshEntry::Vertex(a.x + ox, 0, a.z + oz),
        MeshEntry::Vertex(a.x + ox, a.y as int, a.z + oz),
        MeshEntry::Vertex(b.x + ox, b.y as int, b.z + oz),
        MeshEntry::Vertex(b.x + ox, 0, b.z + oz),
    ) + quad_entries(
        MeshEntry::Vertex(a.x as int, 0, a.z as int),
        MeshEntry::Vertex(a.x + ox, 0, a.z + oz),
        MeshEntry::Vertex(b.x + ox, 0, b.z + oz),
        MeshEntry::Vertex(b.x as int, 0, b.z as int),
    )
}

/// Two consecutive points give a direction to extrude along only when
/// they differ somewhere in the horizontal plane.
pub open spec fn seg_nondegenerate(a: Point3, b: Point3) -> bool {
    a.x != b.x || a.z != b.z
}

/// Everything one way emits: one segment of wall per consecutive pair
/// of its points.
pub open spec fn way_entries(way: Seq<Point3>, t: int) -> Seq<MeshEntry>
    decreases way.len(),
{
    if way.len() < 2 {
        Seq::empty()
    } else {
        way_entries(way.drop_last(), t) + segment_entries(
            way[way.len() - 2],
            way[way.len() - 1],
            t,
        )
    }
}

/// Everything the whole model holds: the ways' emissions, in way order.
pub open spec fn model_entries(ways: Seq<Seq<Point3>>, t: int) -> Seq<MeshEntry>
    decreases ways.len(),
{
    if ways.len() == 0 {
        Seq::empty()
    } else {
        model_entries(ways.drop_last(), t) + way_entries(ways.last(), t)
    }
}

pub open spec fn way_extrudable(way: Seq<Point3>) -> bool {
    &&& way.len() >= 2
    &&& forall|i: int|
        0 <= i < way.len() - 1 ==> #[trigger] seg_nondegenerate(way[i], way[i + 1])
}

pub open spec fn ways_extrudable(ways: Seq<Seq<Point3>>) -> bool {
    forall|i: int| 0 <= i < ways.len() ==> way_extrudable(#[trigger] ways[i])
}

pub open spec fn way_in_bounds(way: Seq<Point3>) -> bool {
    forall|i: int| 0 <= i < way.len() ==> in_bounds(#[trigger] way[i])
}

pub open spec fn ways_in_bounds(ways: Seq<Seq<Point3>>) -> bool {
    forall|i: int| 0 <= i < ways.len() ==> way_in_bounds(#[trigger] ways[i])
}

/// The point sequences a vector of ways denotes.
pub open spec fn views(ways: Seq<Vec<Point3>>) -> Seq<Seq<Point3>> {
    ways.map(|_i: int, w: Vec<Point3>| w@)
}



fn scale_ratio_exec(a: i64, d: i64) -> (r: i64)
    requires
        1 <= d,
        -4_000_000_000_000 <= a <= 4_000_000_000_000,
        abs(a as int) <= d,
    ensures
        r as int == scale_ratio(a as int, d as int),
        -ONE <= r <= ONE,
{
    let m: u64 = abs64(a);
    assert(m <= 4_000_000_000_000);
    assert((m as int) * (ONE as int) <= 4_000_000_000_000_000_000) by (nonlinear_arith)
        requires
            m <= 4_000_000_000_000u64,
    ;
    let num: u64 = m * (ONE as u64);
    let q: u64 = num / (d as u64);
    proof {
        lemma_multiply_divide_le(num as int, d as int, ONE as int);
    }
    if a < 0 {
        -(q as i64)
    } else {
        q as i64
    }
}

fn mul_div_one_exec(a: i64, b: i64) -> (r: i64)
    requires
        -ONE <= a <= ONE,
        -COORD_LIMIT <= b <= COORD_LIMIT,
    ensures
        r as int == mul_div_one(a as int, b as int),
        -COORD_LIMIT <= r <= COORD_LIMIT,
{
    let ma: u64 = abs64(a);
    let mb: u64 = abs64(b);
    assert(ma <= 1_000_000 && mb <= 1_000_000_000_000);
    assert((ma as u128) * (mb as u128) <= 1_000_000_000_000_000_000) by (nonlinear_arith)
        requires
            ma <= 1_000_000u64,
            mb <= 1_000_000_000_000u64,
    ;
    let p: u128 = (ma as u128) * (mb as u128);
    let q: u128 = p / (ONE as u128);
    proof {
        lemma_div_is_ordered(p as int, 1_000_000_000_000_000_000, ONE as int);
    }
    assert(q <= COORD_LIMIT as u128);
    let qi: i64 = q as i64;
    if (a < 0) != (b < 0) {
        -qi
    } else {
        qi
    }
}

fn top(w: &mut Wavefront, a: Point3, a1: Point3, b: Point3, b1: Point3)
    requires
        old(w).wf(),
    ensures
        final(w)@ == old(w)@ + quad_entries(vtx(a), vtx(a1), vtx(b1), vtx(b)),
        final(w).wf(),
{
    w.add_vertex(a.x, a.y, a.z);
    w.add_vertex(a1.x, a1.y, a1.z);
    w.add_vertex(b1.x, b1.y, b1.z);
    w.add_vertex(b.x, b.y, b.z);
    let refs: Vec<i64> = vec![-1, -2, -3, -4];
    proof {
        lemma_vertex_count_nonneg(old(w)@);
        lemma_vertex_count_push(old(w)@, vtx(a));
        lemma_vertex_count_push(old(w)@.push(vtx(a)), vtx(a1));
        lemma_vertex_count_push(old(w)@.push(vtx(a)).push(vtx(a1)), vtx(b1));
        lemma_vertex_count_push(old(w)@.push(vtx(a)).push(vtx(a1)).push(vtx(b1)), vtx(b));
        assert(refs@ =~= seq![-1i64, -2i64, -3i64, -4i64]);
        assert(refs@.map(|_i: int, v: i64| v as int) =~= seq![-1int, -2int, -3int, -4int]);
    }
    w.add_face(refs);
    proof {
        assert(w@ =~= old(w)@ + quad_entries(vtx(a), vtx(a1), vtx(b1), vtx(b)));
    }
}

fn bot(w: &mut Wavefront, a: Point3, a1: Point3, b: Point3, b1: Point3)
    requires
        old(w).wf(),
    ensures
        final(w)@ == old(w)@ + quad_entries(
            vtx_ground(a),
            vtx_ground(a1),
            vtx_ground(b1),
            vtx_ground(b),
        ),
        final(w).wf(),
{
    w.add_vertex(a.x, 0, a.z);
    w.add_vertex(a1.x, 0, a1.z);
    w.add_vertex(b1.x, 0, b1.z);
    w.add_vertex(b.x, 0, b.z);
    let refs: Vec<i64> = vec![-1, -2, -3, -4];
    proof {
        lemma_vertex_count_nonneg(old(w)@);
        lemma_vertex_count_push(old(w)@, vtx_ground(a));
        lemma_vertex_count_push(old(w)@.push(vtx_ground(a)), vtx_ground(a1));
        lemma_vertex_count_push(old(w)@.push(vtx_ground(a)).push(vtx_ground(a1)), vtx_ground(b1));
        lemma_vertex_count_push(
            old(w)@.push(vtx_ground(a)).push(vtx_ground(a1)).push(vtx_ground(b1)),
            vtx_ground(b),
        );
        assert(refs@ =~= seq![-1i64, -2i64, -3i64, -4i64]);
        assert(refs@.map(|_i: int, v: i64| v as int) =~= seq![-1int, -2int, -3int, -4int]);
    }
    w.add_face(refs);
    proof {
        assert(w@ =~= old(w)@ + quad_entries(
            vtx_ground(a),
            vtx_ground(a1),
            vtx_ground(b1),
            vtx_ground(b),
        ));
    }
}

fn side(w: &mut Wavefront, a: Point3, b: Point3)
    requires
        old(w).wf(),
    ensures
        final(w)@ == old(w)@ + quad_entries(vtx_ground(a), vtx(a), vtx(b), vtx_ground(b)),
        final(w).wf(),
{
    w.add_vertex(a.x, 0, a.z);
    w.add_vertex(a.x, a.y, a.z);
    w.add_vertex(b.x, b.y, b.z);
    w.add_vertex(b.x, 0, b.z);
    let refs: Vec<i64> = vec![-1, -2, -3, -4];
    proof {
        lemma_vertex_count_nonneg(old(w)@);
        lemma_vertex_count_push(old(w)@, vtx_ground(a));
        lemma_vertex_count_push(old(w)@.push(vtx_ground(a)), vtx(a));
        lemma_vertex_count_push(old(w)@.push(vtx_ground(a)).push(vtx(a)), vtx(b));
        lemma_vertex_count_push(
            old(w)@.push(vtx_ground(a)).push(vtx(a)).push(vtx(b)),
            vtx_ground(b),
        );
        assert(refs@ =~= seq![-1i64, -2i64, -3i64, -4i64]);
        assert(refs@.map(|_i: int, v: i64| v as int) =~= seq![-1int, -2int, -3int, -4int]);
    }
    w.add_face(refs);
    proof {
        assert(w@ =~= old(w)@ + quad_entries(vtx_ground(a), vtx(a), vtx(b), vtx_ground(b)));
    }
}

/// Extrudes one wall segment: offsets the pair sideways by the wall
/// thickness and emits the four surfaces that close the wall.
fn join_up(w: &mut Wavefront, a: Point3, b: Point3, thickness: i64)
    requires
        old(w).wf(),
        in_bounds(a),
        in_bounds(b),
        0 < thickness <= COORD_LIMIT,
        seg_nondegenerate(a, b),
    ensures
        final(w)@ == old(w)@ + segment_entries(a, b, thickness as int),
        final(w).wf(),
{
    let dx: i64 = b.x - a.x;
    let dz: i64 = b.z - a.z;
    let mdx: u64 = abs64(dx);
    let mdz: u64 = abs64(dz);
    assert(mdx <= 2_000_000_000_000 && mdz <= 2_000_000_000_000);
    assert((mdx as u128) * (mdx as u128) <= 4_000_000_000_000_000_000_000_000
        && (mdz as u128) * (mdz as u128) <= 4_000_000_000_000_000_000_000_000)
        by (nonlinear_arith)
        requires
            mdx <= 2_000_000_000_000u64,
            mdz <= 2_000_000_000_000u64,
    ;
    let sqx: u128 = (mdx as u128) * (mdx as u128);
    let sqz: u128 = (mdz as u128) * (mdz as u128);
    let nsq: u128 = sqx + sqz;
    assert(nsq as int == seg_norm_sq(a, b)) by (nonlinear_arith)
        requires
            mdx == abs(dx as int),
            mdz == abs(dz as int),
            dx == b.x - a.x,
            dz == b.z - a.z,
            nsq == (mdx as u128) * (mdx as u128) + (mdz as u128) * (mdz as u128),
            seg_norm_sq(a, b) == (b.x - a.x) * (b.x - a.x) + (b.z - a.z) * (b.z - a.z),
    ;
    let len128: u128 = isqrt(nsq);
    assert(nsq >= 1) by (nonlinear_arith)
        requires
            mdx >= 1 || mdz >= 1,
            nsq == (mdx as u128) * (mdx as u128) + (mdz as u128) * (mdz as u128),
    ;
    assert(len128 >= 1) by {
        if len128 == 0 {
            assert(nsq < (len128 + 1) * (len128 + 1));
            assert((len128 + 1) * (len128 + 1) == 1) by (nonlinear_arith)
                requires
                    len128 == 0u128,
            ;
        }
    }
    assert(len128 <= 3_000_000_000_000) by (nonlinear_arith)
        requires
            len128 * len128 <= nsq,
            nsq <= 8_000_000_000_000_000_000_000_000u128,
    ;
    let len: i64 = len128 as i64;
    assert(abs(dx as int) <= len && abs(dz as int) <= len) by (nonlinear_arith)
        requires
            len == len128,
            nsq < (len128 + 1) * (len128 + 1),
            nsq == abs(dx as int) * abs(dx as int) + abs(dz as int) * abs(dz as int),
    ;
    let ux: i64 = scale_ratio_exec(dx, len);
    let uz: i64 = scale_ratio_exec(dz, len);
    proof {
        assert(len as int == seg_len(a, b));
        assert(ux as int == unit_x(a, b));
        assert(uz as int == unit_z(a, b));
    }
    let ox: i64 = mul_div_one_exec(-uz, thickness);
    let oz: i64 = mul_div_one_exec(ux, thickness);
    proof {
        assert(ox as int == off_x(a, b, thickness as int));
        assert(oz as int == off_z(a, b, thickness as int));
    }
    let a1 = Point3 { x: a.x + ox, y: a.y, z: a.z + oz };
    let b1 = Point3 { x: b.x + ox, y: b.y, z: b.z + oz };
    top(w, a, a1, b, b1);
    side(w, a, b);
    side(w, a1, b1);
    bot(w, a, a1, b, b1);
    proof {
        assert(w@ =~= old(w)@ + segment_entries(a, b, thickness as int));
    }
}

/// Extrudes every way of the track into one model log: each consecutive
/// pair of points becomes a wall segment of four quadrilateral surfaces.
/// A way of fewer than two points, or one that repeats a point, has no
/// wall to give and fails the whole run.
pub fn to_wavefront(thickness: i64, ways: &Vec<Vec<Point3>>) -> (r: Result<Wavefront, ModelError>)
    requires
        0 < thickness <= COORD_LIMIT,
        ways_in_bounds(views(ways@)),
    ensures
        r matches Ok(w) ==> w@ == model_entries(views(ways@), thickness as int) && w.wf(),
        r is Ok <==> ways_extrudable(views(ways@)),
        r matches Err(e) ==> e == ModelError::DegenerateWay,
{
    let ghost gways = views(ways@);
    let mut w = Wavefront::new();
    let mut wi: usize = 0;
    proof {
        assert(model_entries(gways.subrange(0, 0), thickness as int) =~= Seq::empty());
        assert(w@ =~= model_entries(gways.subrange(0, 0), thickness as int));
    }
    while wi < ways.len()
        invariant
            0 < thickness <= COORD_LIMIT,
            gways == views(ways@),
            ways_in_bounds(gways),
            wi <= ways.len(),
            w.wf(),
            w@ == model_entries(gways.subrange(0, wi as int), thickness as int),
            forall|k: int| 0 <= k < wi ==> way_extrudable(#[trigger] gways[k]),
        decreases ways.len() - wi,
    {
        let way: &Vec<Point3> = &ways[wi];
        let ghost gway = way@;
        proof {
            assert(gways[wi as int] == gway);
        }
        if way.len() < 2 {
            proof {
                assert(!way_extrudable(gways[wi as int]));
                assert(!ways_extrudable(gways));
            }
            return Err(ModelError::DegenerateWay);
        }
        let ghost base = w@;
        let mut i: usize = 0;
        proof {
            assert(way_entries(gway.subrange(0, 1), thickness as int) =~= Seq::empty());
            assert(w@ =~= base + way_entries(gway.subrange(0, 1), thickness as int));
        }
        while i < way.len() - 1
            invariant
                0 < thickness <= COORD_LIMIT,
                gways == views(ways@),
                wi < gways.len(),
                gways[wi as int] == gway,
                way@ == gway,
                way_in_bounds(gway),
                2 <= gway.len(),
                i < gway.len(),
                w.wf(),
                w@ == base + way_entries(gway.subrange(0, i + 1), thickness as int),
                forall|k: int|
                    0 <= k < i ==> #[trigger] seg_nondegenerate(gway[k], gway[k + 1]),
            decreases way.len() - i,
        {
            let a = way[i];
            let b = way[i + 1];
            if a.x == b.x && a.z == b.z {
                proof {
                    assert(gway[i as int] == a && gway[i + 1] == b);
                    assert(!seg_nondegenerate(gway[i as int], gway[i + 1]));
                    assert(!way_extrudable(gways[wi as int]));
                    assert(!ways_extrudable(gways));
                }
                return Err(ModelError::DegenerateWay);
            }
            proof {
                assert(in_bounds(gway[i as int]) && in_bounds(gway[i + 1]));
            }
            let ghost before = w@;
            join_up(&mut w, a, b, thickness);
            proof {
                let t = thickness as int;
                let sub2 = gway.subrange(0, i + 2);
                assert(sub2.drop_last() =~= gway.subrange(0, i + 1));
                assert(sub2[sub2.len() - 2] == gway[i as int]);
                assert(sub2[sub2.len() - 1] == gway[i + 1]);
                assert(way_entries(sub2, t) == way_entries(gway.subrange(0, i + 1), t)
                    + segment_entries(gway[i as int], gway[i + 1], t));
                assert(w@ =~= base + way_entries(sub2, t));
            }
            i = i + 1;
        }
        proof {
            assert(gway.subrange(0, gway.len() as int) =~= gway);
            assert(w@ == base + way_entries(gway, thickness as int));
            assert(way_extrudable(gway));
            let sub2 = gways.subrange(0, wi + 1);
            assert(sub2.drop_last() =~= gways.subrange(0, wi as int));
            assert(sub2.last() == gway);
            assert(base == model_entries(gways.subrange(0, wi as int), thickness as int));
            assert(w@ =~= model_entries(sub2, thickness as int));
        }
        wi = wi + 1;
    }
    proof {
        assert(gways.subrange(0, gways.len() as int) =~= gways);
    }
    Ok(w)
}


/// Vertex and face counts distribute over concatenation of logs.
pub proof fn lemma_counts_concat(s1: Seq<MeshEntry>, s2: Seq<MeshEntry>)
    ensures
        vertex_count(s1 + s2) == vertex_count(s1) + vertex_count(s2),
        face_count(s1 + s2) == face_count(s1) + face_count(s2),
    decreases s2.len(),
{
    if s2.len() == 0 {
        assert(s1 + s2 =~= s1);
    } else {
        lemma_counts_concat(s1, s2.drop_last());
        assert((s1 + s2).drop_last() =~= s1 + s2.drop_last());
        assert((s1 + s2).last() == s2.last());
    }
}

/// One wall surface is exactly four vertices and one face.
pub proof fn lemma_quad_counts(v1: MeshEntry, v2: MeshEntry, v3: MeshEntry, v4: MeshEntry)
    requires
        v1 is Vertex,
        v2 is Vertex,
        v3 is Vertex,
        v4 is Vertex,
    ensures
        quad_entries(v1, v2, v3, v4).len() == 5,
        vertex_count(quad_entries(v1, v2, v3, v4)) == 4,
        face_count(quad_entries(v1, v2, v3, v4)) == 1,
{
    let q = quad_entries(v1, v2, v3, v4);
    let f = MeshEntry::Face(seq![-1int, -2int, -3int, -4int]);
    let s0 = Seq::<MeshEntry>::empty();
    let s1 = seq![v1];
    let s2 = seq![v1, v2];
    let s3 = seq![v1, v2, v3];
    let s4 = seq![v1, v2, v3, v4];
    assert(vertex_count(s0) == 0 && face_count(s0) == 0);
    assert(s1.drop_last() =~= s0 && s1.last() == v1);
    assert(vertex_count(s1) == 1 && face_count(s1) == 0);
    assert(s2.drop_last() =~= s1 && s2.last() == v2);
    assert(vertex_count(s2) == 2 && face_count(s2) == 0);
    assert(s3.drop_last() =~= s2 && s3.last() == v3);
    assert(vertex_count(s3) == 3 && face_count(s3) == 0);
    assert(s4.drop_last() =~= s3 && s4.last() == v4);
    assert(vertex_count(s4) == 4 && face_count(s4) == 0);
    assert(q.drop_last() =~= s4 && q.last() == f);
    assert(vertex_count(q) == 4 && face_count(q) == 1);
}

/// Each extruded segment contributes four wall surfaces: sixteen
/// vertices and four faces, one face closing each run of four vertices.
pub proof fn lemma_segment_counts(a: Point3, b: Point3, t: int)
    ensures
        segment_entries(a, b, t).len() == 20,
        vertex_count(segment_entries(a, b, t)) == 16,
        face_count(segment_entries(a, b, t)) == 4,
{
    let ox = off_x(a, b, t);
    let oz = off_z(a, b, t);
    let q1 = quad_entries(
        MeshEntry::Vertex(a.x as int, a.y as int, a.z as int),
        MeshEntry::Vertex(a.x + ox, a.y as int, a.z + oz),
        MeshEntry::Vertex(b.x + ox, b.y as int, b.z + oz),
        MeshEntry::Vertex(b.x as int, b.y as int, b.z as int),
    );
    let q2 = quad_entries(
        MeshEntry::Vertex(a.x as int, 0, a.z as int),
        MeshEntry::Vertex(a.x as int, a.y as int, a.z as int),
        MeshEntry::Vertex(b.x as int, b.y as int, b.z as int),
        MeshEntry::Vertex(b.x as int, 0, b.z as int),
    );
    let q3 = quad_entries(
        MeshEntry::Vertex(a.x + ox, 0, a.z + oz),
        MeshEntry::Vertex(a.x + ox, a.y as int, a.z + oz),
        MeshEntry::Vertex(b.x + ox, b.y as int, b.z + oz),
        MeshEntry::Vertex(b.x + ox, 0, b.z + oz),
    );
    let q4 = quad_entries(
        MeshEntry::Vertex(a.x as int, 0, a.z as int),
        MeshEntry::Vertex(a.x + ox, 0, a.z + oz),
        MeshEntry::Vertex(b.x + ox, 0, b.z + oz),
        MeshEntry::Vertex(b.x as int, 0, b.z as int),
    );
    lemma_quad_counts(q1[0], q1[1], q1[2], q1[3]);
    lemma_quad_counts(q2[0], q2[1], q2[2], q2[3]);
    lemma_quad_counts(q3[0], q3[1], q3[2], q3[3]);
    lemma_quad_counts(q4[0], q4[1], q4[2], q4[3]);
    assert(quad_entries(q1[0], q1[1], q1[2], q1[3]) =~= q1);
    assert(quad_entries(q2[0], q2[1], q2[2], q2[3]) =~= q2);
    assert(quad_entries(q3[0], q3[1], q3[2], q3[3]) =~= q3);
    assert(quad_entries(q4[0], q4[1], q4[2], q4[3]) =~= q4);
    lemma_counts_concat(q1, q2);
    lemma_counts_concat(q1 + q2, q3);
    lemma_counts_concat(q1 + q2 + q3, q4);
    assert(segment_entries(a, b, t) == q1 + q2 + q3 + q4);
}

/// A way of `n` points emits `n - 1` wall segments: `16 * (n - 1)`
/// vertices and `4 * (n - 1)` faces, twenty records per segment.
pub proof fn lemma_way_counts(way: Seq<Point3>, t: int)
    requires
        way.len() >= 1,
    ensures
        way_entries(way, t).len() == (way.len() - 1) * 20,
        vertex_count(way_entries(way, t)) == (way.len() - 1) * 16,
        face_count(way_entries(way, t)) == (way.len() - 1) * 4,
    decreases way.len(),
{
    if way.len() < 2 {
        assert(way_entries(way, t) =~= Seq::empty());
    } else {
        lemma_way_counts(way.drop_last(), t);
        lemma_counts_concat(
            way_entries(way.drop_last(), t),
            segment_entries(way[way.len() - 2], way[way.len() - 1], t),
        );
        lemma_segment_counts(way[way.len() - 2], way[way.len() - 1], t);
    }
}


/// The sideways displacement never exceeds the wall thickness, which
/// keeps every emitted vertex within twice the coordinate limit.
pub proof fn lemma_offset_bound(a: Point3, b: Point3, t: int)
    requires
        in_bounds(a),
        in_bounds(b),
        seg_nondegenerate(a, b),
        0 < t <= COORD_LIMIT,
    ensures
        -COORD_LIMIT <= off_x(a, b, t) <= COORD_LIMIT,
        -COORD_LIMIT <= off_z(a, b, t) <= COORD_LIMIT,
{
    let dx = b.x - a.x;
    let dz = b.z - a.z;
    let nsq = seg_norm_sq(a, b);
    assert(nsq >= 1 && nsq >= dx * dx && nsq >= dz * dz) by (nonlinear_arith)
        requires
            nsq == dx * dx + dz * dz,
            dx != 0 || dz != 0,
    ;
    crate::fixed::lemma_sqrt_floor_props(nsq);
    let len = seg_len(a, b);
    assert(len >= 1) by {
        if len == 0 {
            assert(nsq < (len + 1) * (len + 1));
            assert((len + 1) * (len + 1) == 1) by (nonlinear_arith)
                requires
                    len == 0,
            ;
        }
    }
    assert(abs(dx as int) <= len && abs(dz as int) <= len) by (nonlinear_arith)
        requires
            len >= 0,
            nsq < (len + 1) * (len + 1),
            nsq >= dx * dx,
            nsq >= dz * dz,
    ;
    crate::fixed::lemma_scale_ratio_bound(dx as int, len);
    crate::fixed::lemma_scale_ratio_bound(dz as int, len);
    crate::fixed::lemma_mul_div_one_bound(-unit_z(a, b), t, ONE as int, COORD_LIMIT as int);
    crate::fixed::lemma_mul_div_one_bound(unit_x(a, b), t, ONE as int, COORD_LIMIT as int);
    assert((ONE as int) * (COORD_LIMIT as int) / (ONE as int) == COORD_LIMIT as int);
}

/// Every record one segment emits is a vertex within twice the
/// coordinate limit or a face of the four fixed references.
pub proof fn lemma_segment_in_limits(a: Point3, b: Point3, t: int)
    requires
        in_bounds(a),
        in_bounds(b),
        seg_nondegenerate(a, b),
        0 < t <= COORD_LIMIT,
    ensures
        forall|i: int|
            0 <= i < segment_entries(a, b, t).len() ==> match #[trigger] segment_entries(
                a,
                b,
                t,
            )[i] {
                MeshEntry::Vertex(x, y, z) => -2 * COORD_LIMIT <= x <= 2 * COORD_LIMIT && -2
                    * COORD_LIMIT <= y <= 2 * COORD_LIMIT && -2 * COORD_LIMIT <= z <= 2
                    * COORD_LIMIT,
                MeshEntry::Face(refs) => refs == seq![-1int, -2int, -3int, -4int],
            },
{
    lemma_offset_bound(a, b, t);
}

} // verus!
