use vstd::prelude::*;
use vstd::arithmetic::div_mod::{lemma_fundamental_div_mod, lemma_fundamental_div_mod_converse};
use vstd::string::*;
use crate::elements::LatLng;
use crate::render::{render_fixed, push_fixed};
use crate::resolve::{concat_points, latlng_views};

verus! {

/// Largest number of coordinates one elevation lookup may carry.
pub const BATCH_LIMIT: usize = 100;

/// How many lookup batches a run of `n` points needs.
pub open spec fn chunk_count(n: int) -> int {
    (n + 99) / 100
}

/// Where batch `i` of a run of `n` points ends.
pub open spec fn chunk_end(n: int, i: int) -> int {
    if 100 * i + 100 <= n {
        100 * i + 100
    } else {
        n
    }
}

/// Splits the flattened points into the batches the elevation lookup
/// accepts: full batches of one hundred points in original order, then
/// whatever remains. Concatenating the batches gives the input back,
/// so the replies, concatenated in request order, line up with the
/// points.
pub fn chunk_points(pts: &Vec<LatLng>) -> (r: Vec<Vec<LatLng>>)
    ensures
        r@.len() == chunk_count(pts@.len() as int),
        forall|i: int|
            0 <= i < r@.len() ==> (#[trigger] r@[i])@ == pts@.subrange(
                100 * i,
                chunk_end(pts@.len() as int, i),
            ),
        forall|i: int| 0 <= i < r@.len() ==> 1 <= (#[trigger] r@[i])@.len() <= 100,
        forall|i: int| 0 <= i < r@.len() - 1 ==> (#[trigger] r@[i])@.len() == 100,
        concat_points(latlng_views(r@)) == pts@,
{
    let n = pts.len();
    let mut out: Vec<Vec<LatLng>> = Vec::new();
    let mut start: usize = 0;
    proof {
        assert(concat_points(latlng_views(out@)) =~= pts@.subrange(0, 0)) by {
            assert(latlng_views(out@) =~= Seq::<Seq<LatLng>>::empty());
        }
    }
    while start < n
        invariant
            n == pts@.len(),
            start <= n,
            start == n || start as int == 100 * out@.len(),
            out@.len() == chunk_count(start as int),
            forall|i: int|
                0 <= i < out@.len() ==> (#[trigger] out@[i])@ == pts@.subrange(
                    100 * i,
                    chunk_end(n as int, i),
                ),
            concat_points(latlng_views(out@)) == pts@.subrange(0, start as int),
        decreases n - start,
    {
        let stop: usize = if n - start >= BATCH_LIMIT {
            start + BATCH_LIMIT
        } else {
            n
        };
        let mut chunk: Vec<LatLng> = Vec::new();
        let mut j: usize = start;
        while j < stop
            invariant
                n == pts@.len(),
                start <= j <= stop <= n,
                chunk@ == pts@.subrange(start as int, j as int),
            decreases stop - j,
        {
            chunk.push(pts[j]);
            j = j + 1;
            proof {
                assert(chunk@ =~= pts@.subrange(start as int, j as int));
            }
        }
        let ghost preout = out@;
        let ghost prestart = start as int;
        let ghost k = out@.len() as int;
        out.push(chunk);
        start = stop;
        proof {
            assert(out@[k]@ == pts@.subrange(prestart, stop as int));
            assert(chunk_end(n as int, k) == stop as int);
            assert(forall|i: int| 0 <= i < k ==> out@[i] == preout[i]);
            if stop as int == prestart + 100 {
                lemma_fundamental_div_mod_converse(100 * (k + 1) + 99, 100, k + 1, 99);
            } else {
                assert(prestart < n as int <= prestart + 99);
                lemma_fundamental_div_mod_converse(
                    n as int + 99,
                    100,
                    k + 1,
                    n as int - 1 - 100 * k,
                );
            }
            assert(out@.len() == chunk_count(start as int));
            assert(latlng_views(out@).drop_last() =~= latlng_views(preout));
            assert(latlng_views(out@).last() == out@[k]@);
            assert(concat_points(latlng_views(out@)) == concat_points(latlng_views(preout))
                + out@[k]@);
            assert(concat_points(latlng_views(out@)) =~= pts@.subrange(0, stop as int));
        }
    }
    proof {
        assert(pts@.subrange(0, n as int) =~= pts@);
        lemma_fundamental_div_mod(n as int + 99, 100);
        assert forall|i: int| 0 <= i < out@.len() implies 1 <= (#[trigger] out@[i])@.len()
            <= 100 by {
            assert(out@[i]@ == pts@.subrange(100 * i, chunk_end(n as int, i)));
            assert(100 * i < n as int) by {
                assert(i < (n as int + 99) / 100);
                assert(100 * ((n as int + 99) / 100) <= n as int + 99);
            }
        }
        assert forall|i: int| 0 <= i < out@.len() - 1 implies (#[trigger] out@[i])@.len()
            == 100 by {
            assert(out@[i]@ == pts@.subrange(100 * i, chunk_end(n as int, i)));
            assert(100 * i + 100 <= n as int) by {
                assert(i + 1 <= (n as int + 99) / 100 - 1);
                assert(100 * ((n as int + 99) / 100) <= n as int + 99);
            }
        }
    }
    out
}


/// One coordinate pair as decimal degrees, latitude first.
pub open spec fn pair_text(p: LatLng) -> Seq<char> {
    render_fixed(p.lat as int) + seq![','] + render_fixed(p.lng as int)
}

/// The batch of coordinates as the lookup's query text: pairs in
/// order, separated by a bar.
pub open spec fn locations_text(pts: Seq<LatLng>) -> Seq<char>
    decreases pts.len(),
{
    if pts.len() == 0 {
        Seq::empty()
    } else if pts.len() == 1 {
        pair_text(pts[0])
    } else {
        locations_text(pts.drop_last()) + seq!['|'] + pair_text(pts.last())
    }
}

/// Renders one batch of coordinates for the elevation lookup, in
/// batch order, decimal degrees with six fraction digits, pairs
/// separated by a bar.
pub fn format_locations(pts: &Vec<LatLng>) -> (r: String)
    ensures
        r@ == locations_text(pts@),
{
    let mut s = String::new();
    let mut i: usize = 0;
    proof {
        assert(pts@.subrange(0, 0) =~= Seq::<LatLng>::empty());
        assert(s@ =~= locations_text(pts@.subrange(0, 0)));
    }
    while i < pts.len()
        invariant
            i <= pts@.len(),
            s@ == locations_text(pts@.subrange(0, i as int)),
        decreases pts@.len() - i,
    {
        if i > 0 {
            proof {
                reveal_strlit("|");
            }
            s.append("|");
        }
        let p = pts[i];
        push_fixed(&mut s, p.lat);
        proof {
            reveal_strlit(",");
        }
        s.append(",");
        push_fixed(&mut s, p.lng);
        i = i + 1;
        proof {
            let sub2 = pts@.subrange(0, i as int);
            assert(sub2.drop_last() =~= pts@.subrange(0, i as int - 1));
            assert(sub2.last() == pts@[i as int - 1]);
            assert(s@ =~= locations_text(sub2));
        }
    }
    proof {
        assert(pts@.subrange(0, pts@.len() as int) =~= pts@);
    }
    s
}

} // verus!
