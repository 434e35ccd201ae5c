use vstd::prelude::*;
use vstd::set_lib::lemma_len_subset;
use crate::elements::{Element, ElementGraph, LatLng, node_latlng, way_node_ids, relation_members};
use crate::error::ModelError;

verus! {

/// Every node reference of a way resolves to a node of the graph.
pub open spec fn way_ok(g: ElementGraph, ns: Seq<i64>) -> bool {
    forall|i: int|
        0 <= i < ns.len() ==> g.contains_id(#[trigger] ns[i]) && g.lookup_spec(ns[i]) is Node
}

/// The points a way's node references denote, in reference order.
pub open spec fn way_points(g: ElementGraph, ns: Seq<i64>) -> Seq<LatLng> {
    Seq::new(ns.len(), |i: int| node_latlng(g.lookup_spec(ns[i])))
}

/// A reference that fails to resolve, and the error it must raise.
pub open spec fn bad_ref(g: ElementGraph, n: i64, err: ModelError) -> bool {
    ||| err == ModelError::MissingElement(n) && !g.contains_id(n)
    ||| err == ModelError::KindMismatch(n) && g.contains_id(n) && !(g.lookup_spec(n) is Node)
}

/// Every member of a relation resolves directly to a way of the graph,
/// and no member repeats.
pub open spec fn rel_flat(g: ElementGraph, ms: Seq<i64>) -> bool {
    &&& ms.no_duplicates()
    &&& forall|i: int|
        0 <= i < ms.len() ==> g.contains_id(#[trigger] ms[i]) && g.lookup_spec(ms[i]) is Way
}

/// Every member resolves directly to a way whose nodes all resolve.
pub open spec fn rel_simple(g: ElementGraph, ms: Seq<i64>) -> bool {
    &&& rel_flat(g, ms)
    &&& forall|i: int|
        0 <= i < ms.len() ==> way_ok(g, way_node_ids(g.lookup_spec(#[trigger] ms[i])))
}

/// The point sequences such a relation denotes, one per member, in
/// member order.
pub open spec fn rel_ways(g: ElementGraph, ms: Seq<i64>) -> Seq<Seq<LatLng>> {
    Seq::new(ms.len(), |i: int| way_points(g, way_node_ids(g.lookup_spec(ms[i]))))
}

/// Every reference reachable from `ids` within `fuel` steps of
/// relation nesting resolves to an element of the graph.
pub open spec fn depth_ok(g: ElementGraph, ids: Seq<i64>, fuel: nat) -> bool
    decreases fuel,
{
    forall|j: int|
        0 <= j < ids.len() ==> g.contains_id(#[trigger] ids[j]) && ((fuel > 0 && g.lookup_spec(
            ids[j],
        ) is Relation) ==> depth_ok(
            g,
            relation_members(g.lookup_spec(ids[j])),
            (fuel - 1) as nat,
        ))
}

/// A set of identities that the graph holds, closed under taking the
/// members of its relations, resolves to any nesting depth.
proof fn lemma_closed_depth_ok(g: ElementGraph, closed: Seq<i64>, ids: Seq<i64>, fuel: nat)
    requires
        forall|j: int| 0 <= j < ids.len() ==> closed.contains(#[trigger] ids[j]),
        forall|v: int| 0 <= v < closed.len() ==> g.contains_id(#[trigger] closed[v]),
        forall|v: int, m: int|
            0 <= v < closed.len() && g.lookup_spec(closed[v]) is Relation && 0 <= m
                < relation_members(g.lookup_spec(closed[v])).len() ==> closed.contains(
                #[trigger] relation_members(g.lookup_spec(closed[v]))[m],
            ),
    ensures
        depth_ok(g, ids, fuel),
    decreases fuel,
{
    assert forall|j: int| 0 <= j < ids.len() implies g.contains_id(#[trigger] ids[j]) && ((
    fuel > 0 && g.lookup_spec(ids[j]) is Relation) ==> depth_ok(
        g,
        relation_members(g.lookup_spec(ids[j])),
        (fuel - 1) as nat,
    )) by {
        assert(closed.contains(ids[j]));
        let v = choose|v: int| 0 <= v < closed.len() && closed[v] == ids[j];
        assert(g.contains_id(closed[v]));
        if fuel > 0 && g.lookup_spec(ids[j]) is Relation {
            let ms = relation_members(g.lookup_spec(ids[j]));
            assert(forall|m: int| 0 <= m < ms.len() ==> closed.contains(#[trigger] ms[m])) by {
                assert(forall|m: int|
                    0 <= m < relation_members(g.lookup_spec(closed[v])).len()
                        ==> closed.contains(
                        #[trigger] relation_members(g.lookup_spec(closed[v]))[m],
                    ));
            }
            lemma_closed_depth_ok(g, closed, ms, (fuel - 1) as nat);
        }
    }
}

/// The point sequences a vector of ways denotes.
pub open spec fn latlng_views(ways: Seq<Vec<LatLng>>) -> Seq<Seq<LatLng>> {
    ways.map(|_i: int, w: Vec<LatLng>| w@)
}

/// The single point sequence a run of ways denotes, in member-then-node
/// order.
pub open spec fn concat_points(ways: Seq<Seq<LatLng>>) -> Seq<LatLng>
    decreases ways.len(),
{
    if ways.len() == 0 {
        Seq::empty()
    } else {
        concat_points(ways.drop_last()) + ways.last()
    }
}

/// The total number of points a run of ways holds.
pub open spec fn total_points(ways: Seq<Seq<LatLng>>) -> int
    decreases ways.len(),
{
    if ways.len() == 0 {
        0
    } else {
        total_points(ways.drop_last()) + ways.last().len()
    }
}

/// Flattening keeps every point: the one sequence is exactly as long
/// as the ways together.
pub proof fn lemma_concat_points_len(ways: Seq<Seq<LatLng>>)
    ensures
        concat_points(ways).len() == total_points(ways),
        total_points(ways) >= 0,
    decreases ways.len(),
{
    if ways.len() > 0 {
        lemma_concat_points_len(ways.drop_last());
    }
}

/// Resolving a relation whose members are all ways of nodes yields one
/// point sequence per member, in member order, each exactly as long as
/// that member's node list; the flattened point count is the sum of
/// the members' node counts.
pub proof fn lemma_resolution_counts(g: ElementGraph, ms: Seq<i64>)
    requires
        rel_simple(g, ms),
    ensures
        rel_ways(g, ms).len() == ms.len(),
        forall|i: int|
            0 <= i < ms.len() ==> #[trigger] rel_ways(g, ms)[i].len() == way_node_ids(
                g.lookup_spec(ms[i]),
            ).len(),
        concat_points(rel_ways(g, ms)).len() == total_points(rel_ways(g, ms)),
{
    lemma_concat_points_len(rel_ways(g, ms));
}

/// Reads the coordinate a node element carries; any other kind is a
/// resolution failure.
pub fn expand_node(id: i64, e: &Element) -> (r: Result<LatLng, ModelError>)
    ensures
        r is Ok <==> *e is Node,
        *e is Node ==> r == Ok::<LatLng, ModelError>(node_latlng(*e)),
        !(*e is Node) ==> r == Err::<LatLng, ModelError>(ModelError::KindMismatch(id)),
{
    match e {
        Element::Node { lat, lng } => Ok(LatLng { lat: *lat, lng: *lng }),
        _ => Err(ModelError::KindMismatch(id)),
    }
}

/// Resolves a way to its ordered points. Succeeds exactly when every
/// node reference names a node of the graph; a reference to a missing
/// identity or to an element of another kind is fatal.
pub fn expand_way(id: i64, e: &Element, g: &ElementGraph) -> (r: Result<Vec<LatLng>, ModelError>)
    requires
        g.wf(),
    ensures
        !(*e is Way) ==> r == Err::<Vec<LatLng>, ModelError>(ModelError::KindMismatch(id)),
        *e is Way ==> (r is Ok <==> way_ok(*g, way_node_ids(*e))),
        r matches Ok(pts) ==> *e is Way && pts@ == way_points(*g, way_node_ids(*e)),
        *e is Way && !way_ok(*g, way_node_ids(*e)) ==> (r matches Err(err) && exists|i: int|
            0 <= i < way_node_ids(*e).len() && bad_ref(*g, #[trigger] way_node_ids(*e)[i], err)),
{
    let ns: &Vec<i64> = match e {
        Element::Way { nodes } => nodes,
        _ => {
            return Err(ModelError::KindMismatch(id));
        },
    };
    let ghost gns = way_node_ids(*e);
    let mut pts: Vec<LatLng> = Vec::new();
    let mut i: usize = 0;
    proof {
        assert(pts@ =~= way_points(*g, gns.subrange(0, 0)));
    }
    while i < ns.len()
        invariant
            g.wf(),
            *e is Way,
            gns == way_node_ids(*e),
            ns@ == gns,
            i <= gns.len(),
            pts@ == way_points(*g, gns.subrange(0, i as int)),
            forall|j: int|
                0 <= j < i ==> g.contains_id(#[trigger] gns[j]) && g.lookup_spec(gns[j]) is Node,
        decreases gns.len() - i,
    {
        let rid = ns[i];
        match g.get(rid) {
            None => {
                proof {
                    assert(bad_ref(*g, gns[i as int], ModelError::MissingElement(rid)));
                }
                return Err(ModelError::MissingElement(rid));
            },
            Some(el) => {
                match el {
                    Element::Node { lat, lng } => {
                        pts.push(LatLng { lat: *lat, lng: *lng });
                    },
                    _ => {
                        proof {
                            assert(bad_ref(*g, gns[i as int], ModelError::KindMismatch(rid)));
                        }
                        return Err(ModelError::KindMismatch(rid));
                    },
                }
            },
        }
        i = i + 1;
        proof {
            assert(pts@ =~= way_points(*g, gns.subrange(0, i as int)));
        }
    }
    proof {
        assert(gns.subrange(0, gns.len() as int) =~= gns);
    }
    Ok(pts)
}

fn vec_contains(v: &Vec<i64>, x: i64) -> (r: bool)
    ensures
        r == v@.contains(x),
{
    let mut i: usize = 0;
    while i < v.len()
        invariant
            i <= v@.len(),
            forall|j: int| 0 <= j < i ==> v@[j] != x,
        decreases v@.len() - i,
    {
        if v[i] == x {
            proof {
                assert(v@[i as int] == x);
            }
            return true;
        }
        i = i + 1;
    }
    proof {
        if v@.contains(x) {
            let j = choose|j: int| 0 <= j < v@.len() && v@[j] == x;
        }
    }
    false
}

/// Walks the member graph below a relation with an explicit worklist
/// and a visited set, collecting the identities of the ways it reaches
/// in member order. A nested relation contributes its own members in
/// place; a missing identity, a node member, or a second visit of any
/// container (a reference cycle) is fatal.
pub fn collect_way_ids(root_id: i64, ms: &Vec<i64>, g: &ElementGraph) -> (r: Result<
    Vec<i64>,
    ModelError,
>)
    requires
        g.wf(),
        g.contains_id(root_id),
        g.lookup_spec(root_id) is Relation,
        relation_members(g.lookup_spec(root_id)) == ms@,
    ensures
        rel_flat(*g, ms@) ==> (r matches Ok(ids) && ids@ == ms@),
        r is Ok ==> forall|fuel: nat| depth_ok(*g, ms@, fuel),
        r matches Ok(ids) ==> forall|j: int|
            0 <= j < ids@.len() ==> g.contains_id(#[trigger] ids@[j]) && g.lookup_spec(ids@[j])
                is Way,
        r is Ok ==> forall|j: int| 0 <= j < ms@.len() ==> g.contains_id(#[trigger] ms@[j]),
        r matches Err(err) ==> err is MissingElement || err is KindMismatch || err
            is CycleDetected,
{
    let ghost gms = ms@;
    let mut stack: Vec<i64> = Vec::new();
    let mut idx: usize = ms.len();
    while idx > 0
        invariant
            idx <= gms.len(),
            ms@ == gms,
            stack@.len() == gms.len() - idx,
            forall|i: int| 0 <= i < stack@.len() ==> stack@[i] == gms[gms.len() - 1 - i],
        decreases idx,
    {
        idx = idx - 1;
        stack.push(ms[idx]);
    }
    let mut visited: Vec<i64> = Vec::new();
    visited.push(root_id);
    let mut out: Vec<i64> = Vec::new();
    let ghost mut k: int = 0;
    proof {
        assert(visited@ =~= seq![root_id]);
        assert(forall|j: int|
            0 <= j < gms.len() ==> stack@.contains(#[trigger] gms[j]) || visited@.contains(
                gms[j],
            )) by {
            assert forall|j: int| 0 <= j < gms.len() implies stack@.contains(#[trigger] gms[j])
                || visited@.contains(gms[j]) by {
                assert(stack@[gms.len() - 1 - j] == gms[j]);
            }
        }
        assert forall|v: int, m: int|
            0 <= v < visited@.len() && g.lookup_spec(visited@[v]) is Relation && 0 <= m
                < relation_members(g.lookup_spec(visited@[v])).len() implies stack@.contains(
            #[trigger] relation_members(g.lookup_spec(visited@[v]))[m],
        ) || visited@.contains(relation_members(g.lookup_spec(visited@[v]))[m]) by {
            assert(visited@[v] == root_id);
            assert(relation_members(g.lookup_spec(root_id)) == gms);
            assert(stack@[gms.len() - 1 - m] == gms[m]);
        }
        if rel_flat(*g, gms) {
            assert(out@ =~= gms.subrange(0, 0));
            assert(visited@ =~= seq![root_id] + gms.subrange(0, 0));
        }
    }
    while stack.len() > 0
        invariant
            g.wf(),
            ms@ == gms,
            g.contains_id(root_id),
            g.lookup_spec(root_id) is Relation,
            visited@.len() >= 1,
            visited@[0] == root_id,
            visited@.no_duplicates(),
            forall|j: int| 1 <= j < visited@.len() ==> g.contains_id(#[trigger] visited@[j]),
            visited@.len() <= g.entries@.len() + 1,
            forall|j: int|
                0 <= j < out@.len() ==> g.contains_id(#[trigger] out@[j]) && g.lookup_spec(
                    out@[j],
                ) is Way,
            forall|j: int|
                0 <= j < gms.len() ==> stack@.contains(#[trigger] gms[j]) || visited@.contains(
                    gms[j],
                ),
            forall|v: int, m: int|
                0 <= v < visited@.len() && g.lookup_spec(visited@[v]) is Relation && 0 <= m
                    < relation_members(g.lookup_spec(visited@[v])).len() ==> stack@.contains(
                    #[trigger] relation_members(g.lookup_spec(visited@[v]))[m],
                ) || visited@.contains(relation_members(g.lookup_spec(visited@[v]))[m]),
            rel_flat(*g, gms) ==> {
                &&& 0 <= k <= gms.len()
                &&& stack@.len() == gms.len() - k
                &&& (forall|i: int| 0 <= i < stack@.len() ==> stack@[i] == gms[gms.len() - 1 - i])
                &&& out@ == gms.subrange(0, k)
                &&& visited@ == seq![root_id] + gms.subrange(0, k)
            },
        decreases g.entries@.len() + 1 - visited@.len(),
    {
        let ghost prestack = stack@;
        let ghost previsited = visited@;
        let id = stack.pop().unwrap();
        proof {
            assert(prestack[prestack.len() - 1] == id);
            if rel_flat(*g, gms) {
                assert(id == gms[k]);
                assert(g.contains_id(gms[k]) && g.lookup_spec(gms[k]) is Way);
            }
        }
        if vec_contains(&visited, id) {
            proof {
                if rel_flat(*g, gms) {
                    let j = choose|j: int| 0 <= j < previsited.len() && previsited[j] == id;
                    if j == 0 {
                        assert(id == root_id);
                        assert(g.lookup_spec(id) is Relation);
                    } else {
                        assert(previsited[j] == gms.subrange(0, k)[j - 1]);
                        assert(gms[j - 1] == gms[k]);
                    }
                    assert(false);
                }
            }
            return Err(ModelError::CycleDetected(id));
        }
        match g.get(id) {
            None => {
                proof {
                    if rel_flat(*g, gms) {
                        assert(false);
                    }
                }
                return Err(ModelError::MissingElement(id));
            },
            Some(el) => {
                visited.push(id);
                proof {
                    assert(visited@ =~= previsited.push(id));
                    assert(visited@.no_duplicates()) by {
                        assert(forall|i: int|
                            0 <= i < previsited.len() ==> #[trigger] previsited[i] != id) by {
                            assert(!previsited.contains(id));
                        }
                    }
                    // the visited set, root aside, stays within the graph, so
                    // it cannot grow past the graph's size
                    let tail = visited@.skip(1);
                    assert(tail.no_duplicates()) by {
                        assert(forall|i: int, j: int|
                            0 <= i < j < tail.len() ==> tail[i] != tail[j]) by {
                            assert(forall|i: int|
                                0 <= i < tail.len() ==> tail[i] == visited@[i + 1]);
                        }
                    }
                    tail.unique_seq_to_set();
                    assert(tail.to_set().subset_of(g.key_seq().to_set())) by {
                        assert forall|x: i64| tail.to_set().contains(x) implies g.key_seq()
                            .to_set().contains(x) by {
                            let j = choose|j: int| 0 <= j < tail.len() && tail[j] == x;
                            assert(visited@[j + 1] == x);
                            assert(g.contains_id(x));
                        }
                    }
                    lemma_len_subset(tail.to_set(), g.key_seq().to_set());
                    g.key_seq().lemma_cardinality_of_set();
                    assert(visited@.len() == tail.len() + 1);
                    assert(g.key_seq().len() == g.entries@.len());
                    // every member not yet handled still waits on the stack
                    assert forall|j: int| 0 <= j < gms.len() implies stack@.contains(
                        #[trigger] gms[j],
                    ) || visited@.contains(gms[j]) by {
                        if previsited.contains(gms[j]) {
                            let v = choose|v: int|
                                0 <= v < previsited.len() && previsited[v] == gms[j];
                            assert(visited@[v] == gms[j]);
                        } else {
                            assert(prestack.contains(gms[j]));
                            let s = choose|s: int|
                                0 <= s < prestack.len() && prestack[s] == gms[j];
                            if s < prestack.len() - 1 {
                                assert(stack@[s] == gms[j]);
                            } else {
                                assert(gms[j] == id);
                                assert(visited@[visited@.len() - 1] == id);
                            }
                        }
                    }
                }
                match el {
                    Element::Way { .. } => {
                        out.push(id);
                        proof {
                            assert forall|v: int, m: int|
                                0 <= v < visited@.len() && g.lookup_spec(visited@[v])
                                    is Relation && 0 <= m < relation_members(
                                    g.lookup_spec(visited@[v]),
                                ).len() implies stack@.contains(
                                #[trigger] relation_members(g.lookup_spec(visited@[v]))[m],
                            ) || visited@.contains(
                                relation_members(g.lookup_spec(visited@[v]))[m],
                            ) by {
                                let val = relation_members(g.lookup_spec(visited@[v]))[m];
                                if v < previsited.len() {
                                    assert(visited@[v] == previsited[v]);
                                    if previsited.contains(val) {
                                        let w = choose|w: int|
                                            0 <= w < previsited.len() && previsited[w] == val;
                                        assert(visited@[w] == val);
                                    } else {
                                        assert(prestack.contains(val));
                                        let si = choose|si: int|
                                            0 <= si < prestack.len() && prestack[si] == val;
                                        if si < prestack.len() - 1 {
                                            assert(stack@[si] == val);
                                        } else {
                                            assert(val == id);
                                            assert(visited@[visited@.len() - 1] == id);
                                        }
                                    }
                                } else {
                                    assert(visited@[v] == id);
                                    assert(g.lookup_spec(id) is Way);
                                }
                            }
                            if rel_flat(*g, gms) {
                                assert(out@ =~= gms.subrange(0, k + 1));
                                assert(visited@ =~= seq![root_id] + gms.subrange(0, k + 1));
                                k = k + 1;
                            }
                        }
                    },
                    Element::Relation { members: subms, .. } => {
                        proof {
                            if rel_flat(*g, gms) {
                                assert(g.lookup_spec(id) is Way);
                                assert(g.lookup_spec(id) is Relation);
                                assert(false);
                            }
                        }
                        let ghost basestack = stack@;
                        let mut j: usize = subms.len();
                        while j > 0
                            invariant
                                j <= subms@.len(),
                                stack@.len() == basestack.len() + (subms@.len() - j),
                                forall|i: int|
                                    0 <= i < basestack.len() ==> stack@[i] == basestack[i],
                                forall|t: int|
                                    0 <= t < subms@.len() - j ==> #[trigger] stack@[basestack.len()
                                        + t] == subms@[subms@.len() - 1 - t],
                            decreases j,
                        {
                            j = j - 1;
                            stack.push(subms[j]);
                        }
                        proof {
                            assert forall|m: int| 0 <= m < gms.len() implies stack@.contains(
                                #[trigger] gms[m],
                            ) || visited@.contains(gms[m]) by {
                                if !visited@.contains(gms[m]) {
                                    let s = choose|s: int|
                                        0 <= s < basestack.len() && basestack[s] == gms[m];
                                    assert(stack@[s] == gms[m]);
                                }
                            }
                            assert forall|v: int, m: int|
                                0 <= v < visited@.len() && g.lookup_spec(visited@[v])
                                    is Relation && 0 <= m < relation_members(
                                    g.lookup_spec(visited@[v]),
                                ).len() implies stack@.contains(
                                #[trigger] relation_members(g.lookup_spec(visited@[v]))[m],
                            ) || visited@.contains(
                                relation_members(g.lookup_spec(visited@[v]))[m],
                            ) by {
                                let val = relation_members(g.lookup_spec(visited@[v]))[m];
                                if v < previsited.len() {
                                    assert(visited@[v] == previsited[v]);
                                    if previsited.contains(val) {
                                        let w = choose|w: int|
                                            0 <= w < previsited.len() && previsited[w] == val;
                                        assert(visited@[w] == val);
                                    } else {
                                        assert(prestack.contains(val));
                                        let si = choose|si: int|
                                            0 <= si < prestack.len() && prestack[si] == val;
                                        if si < prestack.len() - 1 {
                                            assert(basestack[si] == prestack[si]);
                                            assert(stack@[si] == val);
                                        } else {
                                            assert(val == id);
                                            assert(visited@[visited@.len() - 1] == id);
                                        }
                                    }
                                } else {
                                    assert(visited@[v] == id);
                                    assert(relation_members(g.lookup_spec(id)) == subms@);
                                    assert(stack@[basestack.len() + (subms@.len() - 1 - m)]
                                        == val);
                                }
                            }
                        }
                    },
                    Element::Node { .. } => {
                        proof {
                            if rel_flat(*g, gms) {
                                assert(false);
                            }
                        }
                        return Err(ModelError::KindMismatch(id));
                    },
                }
            },
        }
    }
    proof {
        if rel_flat(*g, gms) {
            assert(k == gms.len());
            assert(out@ =~= gms);
        }
        assert forall|j: int| 0 <= j < gms.len() implies g.contains_id(#[trigger] gms[j]) by {
            assert(visited@.contains(gms[j]));
            let v = choose|v: int| 0 <= v < visited@.len() && visited@[v] == gms[j];
            if v == 0 {
                assert(gms[j] == root_id);
            }
        }
        assert(forall|v: int| 0 <= v < visited@.len() ==> g.contains_id(#[trigger] visited@[v]))
            by {
            assert(visited@[0] == root_id);
        }
        assert forall|fuel: nat| depth_ok(*g, gms, fuel) by {
            lemma_closed_depth_ok(*g, visited@, gms, fuel);
        }
    }
    Ok(out)
}

/// Resolves a relation to one ordered point sequence per way it
/// reaches, ways in member order, points in node order. Any reference
/// that fails to resolve, any member of the wrong kind, and any
/// reference cycle aborts the whole resolution.
pub fn expand_relation(id: i64, e: &Element, g: &ElementGraph) -> (r: Result<
    Vec<Vec<LatLng>>,
    ModelError,
>)
    requires
        g.wf(),
        g.contains_id(id),
        g.lookup_spec(id) == *e,
    ensures
        !(*e is Relation) ==> r == Err::<Vec<Vec<LatLng>>, ModelError>(
            ModelError::KindMismatch(id),
        ),
        *e is Relation && rel_simple(*g, relation_members(*e)) ==> (r matches Ok(ways)
            && latlng_views(ways@) == rel_ways(*g, relation_members(*e))),
        *e is Relation && rel_flat(*g, relation_members(*e)) ==> (r is Ok <==> rel_simple(
            *g,
            relation_members(*e),
        )),
        *e is Relation && r is Ok ==> forall|j: int|
            0 <= j < relation_members(*e).len() ==> g.contains_id(
                #[trigger] relation_members(*e)[j],
            ),
        *e is Relation && r is Ok ==> forall|fuel: nat|
            depth_ok(*g, relation_members(*e), fuel),
        r matches Err(err) ==> err is MissingElement || err is KindMismatch || err
            is CycleDetected,
{
    let ms: &Vec<i64> = match e {
        Element::Relation { members, .. } => members,
        _ => {
            return Err(ModelError::KindMismatch(id));
        },
    };
    let ghost gms = relation_members(*e);
    let way_ids: Vec<i64> = match collect_way_ids(id, ms, g) {
        Ok(v) => v,
        Err(err) => {
            return Err(err);
        },
    };
    let mut ways: Vec<Vec<LatLng>> = Vec::new();
    let mut i: usize = 0;
    proof {
        assert(latlng_views(ways@) =~= Seq::new(0, |j: int| way_points(*g, way_node_ids(
            g.lookup_spec(way_ids@[j]),
        ))));
    }
    while i < way_ids.len()
        invariant
            g.wf(),
            *e is Relation,
            gms == relation_members(*e),
            rel_flat(*g, gms) ==> way_ids@ == gms,
            forall|j: int|
                0 <= j < way_ids@.len() ==> g.contains_id(#[trigger] way_ids@[j])
                    && g.lookup_spec(way_ids@[j]) is Way,
            i <= way_ids@.len(),
            forall|j: int|
                0 <= j < i ==> way_ok(*g, way_node_ids(g.lookup_spec(#[trigger] way_ids@[j]))),
            latlng_views(ways@) == Seq::new(i as nat, |j: int| way_points(*g, way_node_ids(
                g.lookup_spec(way_ids@[j]),
            ))),
        decreases way_ids@.len() - i,
    {
        let wid = way_ids[i];
        let el: &Element = g.get(wid).unwrap();
        match expand_way(wid, el, g) {
            Ok(pts) => {
                let ghost preways = ways@;
                let ghost gpts = pts@;
                ways.push(pts);
                proof {
                    assert(latlng_views(preways).len() == preways.len());
                    assert(latlng_views(preways) == Seq::new(i as nat, |j: int| way_points(
                        *g,
                        way_node_ids(g.lookup_spec(way_ids@[j])),
                    )));
                    assert(preways.len() == i as int);
                    assert(ways@.len() == i + 1);
                    assert(ways@[i as int]@ == gpts);
                    assert(forall|j: int| 0 <= j < i ==> ways@[j] == preways[j]);
                    assert(*el == g.lookup_spec(way_ids@[i as int]));
                    assert(gpts == way_points(*g, way_node_ids(g.lookup_spec(
                        way_ids@[i as int],
                    ))));
                    let target = Seq::new((i + 1) as nat, |j: int| way_points(*g, way_node_ids(
                        g.lookup_spec(way_ids@[j]),
                    )));
                    assert forall|j: int| 0 <= j < i + 1 implies latlng_views(ways@)[j]
                        == target[j] by {
                        if j < i {
                            assert(latlng_views(preways)[j] == Seq::new(i as nat, |j2: int|
                                way_points(*g, way_node_ids(g.lookup_spec(way_ids@[j2]))))[j]);
                            assert(ways@[j] == preways[j]);
                        } else {
                            assert(ways@[j]@ == gpts);
                        }
                    }
                    assert(latlng_views(ways@) =~= target);
                }
            },
            Err(err) => {
                proof {
                    if rel_flat(*g, gms) {
                        assert(way_ids@ == gms);
                        assert(!way_ok(*g, way_node_ids(g.lookup_spec(gms[i as int]))));
                        assert(!rel_simple(*g, gms));
                    }
                }
                return Err(err);
            },
        }
        i = i + 1;
    }
    proof {
        if rel_flat(*g, gms) {
            assert(way_ids@ == gms);
            assert(rel_simple(*g, gms));
            assert(latlng_views(ways@) =~= rel_ways(*g, gms));
        }
    }
    Ok(ways)
}

/// Flattens a run of ways into one point sequence, member order then
/// node order, keeping every point.
pub fn flatten_ways(ways: &Vec<Vec<LatLng>>) -> (r: Vec<LatLng>)
    ensures
        r@ == concat_points(latlng_views(ways@)),
{
    let ghost gways = latlng_views(ways@);
    let mut out: Vec<LatLng> = Vec::new();
    let mut wi: usize = 0;
    proof {
        assert(out@ =~= concat_points(gways.subrange(0, 0)));
    }
    while wi < ways.len()
        invariant
            gways == latlng_views(ways@),
            wi <= gways.len(),
            out@ == concat_points(gways.subrange(0, wi as int)),
        decreases gways.len() - wi,
    {
        let way: &Vec<LatLng> = &ways[wi];
        let ghost base = out@;
        let mut i: usize = 0;
        while i < way.len()
            invariant
                way@ == gways[wi as int],
                wi < gways.len(),
                i <= way@.len(),
                out@ == base + way@.subrange(0, i as int),
            decreases way@.len() - i,
        {
            out.push(way[i]);
            i = i + 1;
            proof {
                assert(out@ =~= base + way@.subrange(0, i as int));
            }
        }
        proof {
            let sub2 = gways.subrange(0, wi + 1);
            assert(sub2.drop_last() =~= gways.subrange(0, wi as int));
            assert(sub2.last() == gways[wi as int]);
            assert(way@.subrange(0, way@.len() as int) =~= way@);
            assert(out@ =~= concat_points(sub2));
        }
        wi = wi + 1;
    }
    proof {
        assert(gways.subrange(0, gways.len() as int) =~= gways);
    }
    out
}

} // verus!
