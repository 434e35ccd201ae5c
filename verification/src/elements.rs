use vstd::prelude::*;
use crate::error::ModelError;

verus! {

/// A geographic point, latitude and longitude in microdegrees (one
/// degree is one million ticks).
#[derive(Debug, Clone, Copy, PartialEq, Eq, Structural)]
pub struct LatLng {
    pub lat: i64,
    pub lng: i64,
}

/// Latitude stays within a quarter turn of the equator, longitude
/// within a half turn of the prime meridian.
pub open spec fn latlng_in_range(p: LatLng) -> bool {
    &&& -90_000_000 <= p.lat <= 90_000_000
    &&& -180_000_000 <= p.lng <= 180_000_000
}

/// One element of the map graph: a point, an ordered run of point
/// references, or a tagged collection of way or relation references.
#[derive(Debug, Clone)]
pub enum Element {
    Node { lat: i64, lng: i64 },
    Way { nodes: Vec<i64> },
    Relation { members: Vec<i64>, tags: Vec<(String, String)> },
}

/// The coordinate a node element carries.
pub open spec fn node_latlng(e: Element) -> LatLng {
    match e {
        Element::Node { lat, lng } => LatLng { lat, lng },
        _ => LatLng { lat: 0, lng: 0 },
    }
}

/// The node references a way element carries, in path order.
pub open spec fn way_node_ids(e: Element) -> Seq<i64> {
    match e {
        Element::Way { nodes } => nodes@,
        _ => Seq::empty(),
    }
}

/// The member references a relation element carries, in member order.
pub open spec fn relation_members(e: Element) -> Seq<i64> {
    match e {
        Element::Relation { members, .. } => members@,
        _ => Seq::empty(),
    }
}

/// The key/value tags a relation element carries.
pub open spec fn relation_tags(e: Element) -> Seq<(String, String)> {
    match e {
        Element::Relation { tags, .. } => tags@,
        _ => Seq::empty(),
    }
}

/// Whether an element is a relation whose tags give it the name `name`.
pub open spec fn is_named_relation(e: Element, name: Seq<char>) -> bool {
    e is Relation && exists|i: int|
        0 <= i < relation_tags(e).len() && (#[trigger] relation_tags(e)[i]).0@ == "name"@
            && relation_tags(e)[i].1@ == name
}

/// The element graph: identities mapped to elements, in insertion
/// order, with unique keys. Built once by the collaborator that parses
/// the map data; the pipeline only reads it.
#[derive(Debug, Clone)]
pub struct ElementGraph {
    pub entries: Vec<(i64, Element)>,
}

impl ElementGraph {
    /// The identities the graph holds, in insertion order.
    pub open spec fn key_seq(&self) -> Seq<i64> {
        self.entries@.map(|_i: int, e: (i64, Element)| e.0)
    }

    /// Keys are unique.
    pub open spec fn wf(&self) -> bool {
        self.key_seq().no_duplicates()
    }

    pub open spec fn contains_id(&self, id: i64) -> bool {
        self.key_seq().contains(id)
    }

    /// The position at which `id` stands.
    pub open spec fn idx_of(&self, id: i64) -> int {
        self.key_seq().index_of(id)
    }

    /// The element `id` names.
    pub open spec fn lookup_spec(&self, id: i64) -> Element {
        self.entries@[self.idx_of(id)].1
    }

    pub fn new() -> (g: ElementGraph)
        ensures
            g.entries@ =~= Seq::<(i64, Element)>::empty(),
            g.wf(),
    {
        ElementGraph { entries: Vec::new() }
    }

    pub fn len(&self) -> (n: usize)
        ensures
            n == self.entries@.len(),
    {
        self.entries.len()
    }

    /// Adds an element under a fresh identity; refuses a duplicate key
    /// and leaves the graph unchanged in that case.
    pub fn insert(&mut self, id: i64, e: Element) -> (ok: bool)
        requires
            old(self).wf(),
        ensures
            final(self).wf(),
            ok == !old(self).contains_id(id),
            ok ==> final(self).entries@ == old(self).entries@.push((id, e)),
            !ok ==> final(self).entries@ == old(self).entries@,
            final(self).contains_id(id),
            ok ==> final(self).lookup_spec(id) == e,
            forall|k: i64|
                old(self).contains_id(k) ==> #[trigger] final(self).contains_id(k) && (ok
                    ==> final(self).lookup_spec(k) == old(self).lookup_spec(k)),
    {
        if self.contains(id) {
            return false;
        }
        let ghost pre = self.entries@;
        self.entries.push((id, e));
        proof {
            let keys = self.key_seq();
            let prekeys = pre.map(|_i: int, p: (i64, Element)| p.0);
            assert(keys =~= prekeys.push(id));
            assert(keys.no_duplicates()) by {
                assert(forall|i: int, j: int|
                    0 <= i < j < keys.len() ==> keys[i] != keys[j]) by {
                    assert(forall|i: int|
                        0 <= i < prekeys.len() ==> #[trigger] prekeys[i] != id) by {
                        assert(!prekeys.contains(id));
                    }
                }
            }
            assert(keys[keys.len() - 1] == id);
            assert(self.contains_id(id));
            assert(self.idx_of(id) == keys.index_of(id));
            assert(keys[self.idx_of(id)] == id);
            assert(self.idx_of(id) == prekeys.len()) by {
                if self.idx_of(id) < prekeys.len() {
                    assert(prekeys[self.idx_of(id)] == keys[self.idx_of(id)]);
                    assert(prekeys.contains(id));
                }
            }
            assert(forall|k: i64| prekeys.contains(k) ==> #[trigger] keys.contains(k)) by {
                assert(forall|k: i64|
                    prekeys.contains(k) ==> keys[prekeys.index_of(k)] == k);
            }
            assert forall|k: i64| old(self).contains_id(k) implies #[trigger] self.contains_id(k)
                && self.lookup_spec(k) == old(self).lookup_spec(k) by {
                let oi = prekeys.index_of(k);
                assert(prekeys[oi] == k);
                assert(keys[oi] == k);
                let ni = keys.index_of(k);
                assert(keys[ni] == k);
                if ni == prekeys.len() {
                    assert(keys[ni] == id);
                    assert(prekeys.contains(id));
                }
                assert(ni < prekeys.len());
                assert(ni == oi) by {
                    if ni != oi {
                        assert(keys[ni] == keys[oi]);
                    }
                }
            }
        }
        true
    }

    /// Whether the graph holds an element under `id`.
    pub fn contains(&self, id: i64) -> (r: bool)
        ensures
            r == self.contains_id(id),
    {
        let mut i: usize = 0;
        while i < self.entries.len()
            invariant
                i <= self.entries@.len(),
                forall|j: int| 0 <= j < i ==> (#[trigger] self.entries@[j]).0 != id,
            decreases self.entries@.len() - i,
        {
            if self.entries[i].0 == id {
                proof {
                    assert(self.key_seq()[i as int] == id);
                }
                return true;
            }
            i = i + 1;
        }
        proof {
            if self.contains_id(id) {
                let j = choose|j: int| 0 <= j < self.key_seq().len() && self.key_seq()[j] == id;
                assert(self.entries@[j].0 == id);
            }
        }
        false
    }

    /// Looks an element up by identity.
    pub fn get(&self, id: i64) -> (r: Option<&Element>)
        requires
            self.wf(),
        ensures
            r is Some <==> self.contains_id(id),
            r matches Some(e) ==> *e == self.lookup_spec(id),
    {
        let mut i: usize = 0;
        while i < self.entries.len()
            invariant
                self.wf(),
                i <= self.entries@.len(),
                forall|j: int| 0 <= j < i ==> (#[trigger] self.entries@[j]).0 != id,
            decreases self.entries@.len() - i,
        {
            if self.entries[i].0 == id {
                proof {
                    let keys = self.key_seq();
                    assert(keys[i as int] == id);
                    assert(keys.contains(id));
                    let ni = keys.index_of(id);
                    assert(keys[ni] == id);
                    assert(ni == i as int) by {
                        if ni != i as int {
                            assert(keys[ni] == keys[i as int]);
                        }
                    }
                }
                return Some(&self.entries[i].1);
            }
            i = i + 1;
        }
        proof {
            if self.contains_id(id) {
                let j = choose|j: int| 0 <= j < self.key_seq().len() && self.key_seq()[j] == id;
                assert(self.entries@[j].0 == id);
            }
        }
        None
    }
}

/// Whether two strings hold the same characters.
pub fn str_eq(a: &str, b: &str) -> (r: bool)
    ensures
        r == (a@ == b@),
{
    let la = a.unicode_len();
    let lb = b.unicode_len();
    if la != lb {
        proof {
            if a@ == b@ {
                assert(a@.len() == b@.len());
            }
        }
        return false;
    }
    let mut i: usize = 0;
    while i < la
        invariant
            la == a@.len(),
            lb == b@.len(),
            la == lb,
            i <= la,
            forall|j: int| 0 <= j < i ==> a@[j] == b@[j],
        decreases la - i,
    {
        if a.get_char(i) != b.get_char(i) {
            proof {
                assert(a@[i as int] != b@[i as int]);
            }
            return false;
        }
        i = i + 1;
    }
    proof {
        assert(a@ =~= b@);
    }
    true
}

/// Whether `e` is a relation tagged with the name `name`.
pub fn element_has_name(e: &Element, name: &str) -> (r: bool)
    ensures
        r == is_named_relation(*e, name@),
{
    match e {
        Element::Relation { tags, .. } => {
            let mut i: usize = 0;
            while i < tags.len()
                invariant
                    tags@ == relation_tags(*e),
                    i <= tags@.len(),
                    forall|j: int|
                        0 <= j < i ==> !((#[trigger] tags@[j]).0@ == "name"@ && tags@[j].1@
                            == name@),
                decreases tags@.len() - i,
            {
                let hit = str_eq(tags[i].0.as_str(), "name") && str_eq(tags[i].1.as_str(), name);
                if hit {
                    return true;
                }
                i = i + 1;
            }
            false
        },
        _ => false,
    }
}

/// Finds the relation the requested track name denotes: the first
/// element, in insertion order, that is a relation tagged with that
/// name. A graph without one fails the run.
pub fn find_track<'a>(g: &'a ElementGraph, name: &str) -> (r: Result<
    (i64, &'a Element),
    ModelError,
>)
    requires
        g.wf(),
    ensures
        r is Ok <==> exists|i: int|
            0 <= i < g.entries@.len() && is_named_relation((#[trigger] g.entries@[i]).1, name@),
        r matches Ok((id, e)) ==> exists|i: int|
            {
                &&& 0 <= i < g.entries@.len()
                &&& (#[trigger] g.entries@[i]) == (id, *e)
                &&& is_named_relation(g.entries@[i].1, name@)
                &&& forall|j: int|
                    0 <= j < i ==> !is_named_relation((#[trigger] g.entries@[j]).1, name@)
            },
        r matches Ok((id, e)) ==> g.contains_id(id) && *e == g.lookup_spec(id)
            && is_named_relation(*e, name@),
        r matches Err(err) ==> err == ModelError::TrackNotFound,
{
    let mut i: usize = 0;
    while i < g.entries.len()
        invariant
            g.wf(),
            i <= g.entries@.len(),
            forall|j: int|
                0 <= j < i ==> !is_named_relation((#[trigger] g.entries@[j]).1, name@),
        decreases g.entries@.len() - i,
    {
        let e = &g.entries[i].1;
        if element_has_name(e, name) {
            let id = g.entries[i].0;
            proof {
                let keys = g.key_seq();
                assert(keys[i as int] == id);
                assert(keys.contains(id));
                let ni = keys.index_of(id);
                assert(keys[ni] == id);
                assert(ni == i as int) by {
                    if ni != i as int {
                        assert(keys[ni] == keys[i as int]);
                    }
                }
                assert(g.entries@[i as int] == (id, *e));
            }
            return Ok((id, e));
        }
        i = i + 1;
    }
    Err(ModelError::TrackNotFound)
}

} // verus!
