use vstd::prelude::*;

verus! {

/// Spec-level shape of one record of the model log: a vertex position in
/// fixed-point ticks, or a face listing relative references to vertices
/// emitted before it (`-1` is the most recent vertex).
pub enum MeshEntry {
    Vertex(int, int, int),
    Face(Seq<int>),
}

/// One record of the write-once model log, in fixed-point ticks.
#[derive(Debug, Clone)]
pub enum WavefrontValue {
    Vertex(i64, i64, i64),
    Face(Vec<i64>),
}

impl View for WavefrontValue {
    type V = MeshEntry;

    open spec fn view(&self) -> MeshEntry {
        match self {
            WavefrontValue::Vertex(x, y, z) => MeshEntry::Vertex(
                *x as int,
                *y as int,
                *z as int,
            ),
            WavefrontValue::Face(refs) => MeshEntry::Face(
                refs@.map(|_i: int, v: i64| v as int),
            ),
        }
    }
}

/// How many vertices stand in `entries`.
pub open spec fn vertex_count(entries: Seq<MeshEntry>) -> int
    decreases entries.len(),
{
    if entries.len() == 0 {
        0
    } else {
        vertex_count(entries.drop_last()) + if entries.last() is Vertex {
            1int
        } else {
            0int
        }
    }
}

/// How many faces stand in `entries`.
pub open spec fn face_count(entries: Seq<MeshEntry>) -> int
    decreases entries.len(),
{
    if entries.len() == 0 {
        0
    } else {
        face_count(entries.drop_last()) + if entries.last() is Face {
            1int
        } else {
            0int
        }
    }
}

/// A face may only reach back to vertices already emitted: each reference
/// is a negative offset no deeper than the count of vertices before it.
pub open spec fn entry_wf(entries: Seq<MeshEntry>, i: int) -> bool
    recommends
        0 <= i < entries.len(),
{
    match entries[i] {
        MeshEntry::Face(refs) => forall|j: int|
            0 <= j < refs.len() ==> -vertex_count(entries.subrange(0, i)) <= #[trigger] refs[j]
                <= -1,
        MeshEntry::Vertex(..) => true,
    }
}

/// The whole log is well formed: no face reaches past the vertices
/// emitted before it.
pub open spec fn model_wf(entries: Seq<MeshEntry>) -> bool {
    forall|i: int| 0 <= i < entries.len() ==> #[trigger] entry_wf(entries, i)
}

pub proof fn lemma_vertex_count_nonneg(entries: Seq<MeshEntry>)
    ensures
        vertex_count(entries) >= 0,
    decreases entries.len(),
{
    if entries.len() > 0 {
        lemma_vertex_count_nonneg(entries.drop_last());
    }
}

pub proof fn lemma_vertex_count_push(entries: Seq<MeshEntry>, e: MeshEntry)
    ensures
        vertex_count(entries.push(e)) == vertex_count(entries) + if e is Vertex {
            1int
        } else {
            0int
        },
{
    assert(entries.push(e).drop_last() =~= entries);
    assert(entries.push(e).last() == e);
}

/// Appending an entry never disturbs the well-formedness of what was
/// already emitted; the new entry itself must respect the vertices
/// emitted so far.
pub proof fn lemma_wf_push(entries: Seq<MeshEntry>, e: MeshEntry)
    requires
        model_wf(entries),
        e matches MeshEntry::Face(refs) ==> forall|j: int|
            0 <= j < refs.len() ==> -vertex_count(entries) <= #[trigger] refs[j] <= -1,
    ensures
        model_wf(entries.push(e)),
{
    let pushed = entries.push(e);
    assert forall|i: int| 0 <= i < pushed.len() implies #[trigger] entry_wf(pushed, i) by {
        if i < entries.len() {
            assert(pushed.subrange(0, i) =~= entries.subrange(0, i));
            assert(entry_wf(entries, i));
            assert(pushed[i] == entries[i]);
        } else {
            assert(pushed.subrange(0, i) =~= entries);
            assert(pushed[i] == e);
        }
    }
}

/// The model log: an append-only sequence of vertex and face records,
/// grown by the extruder and consumed once by the serializer.
#[derive(Debug, Clone)]
pub struct Wavefront {
    pub values: Vec<WavefrontValue>,
}

impl View for Wavefront {
    type V = Seq<MeshEntry>;

    open spec fn view(&self) -> Seq<MeshEntry> {
        self.values@.map(|_i: int, v: WavefrontValue| v@)
    }
}

impl Wavefront {
    /// The log never lets a face reach past the vertices before it.
    pub open spec fn wf(&self) -> bool {
        model_wf(self@)
    }

    pub fn new() -> (w: Wavefront)
        ensures
            w@ == Seq::<MeshEntry>::empty(),
            w.wf(),
    {
        let w = Wavefront { values: Vec::new() };
        proof {
            assert(w@ =~= Seq::<MeshEntry>::empty());
        }
        w
    }

    /// Appends one vertex record.
    pub fn add_vertex(&mut self, x: i64, y: i64, z: i64)
        ensures
            final(self)@ == old(self)@.push(MeshEntry::Vertex(x as int, y as int, z as int)),
            old(self).wf() ==> final(self).wf(),
    {
        let ghost pre = self@;
        let v = WavefrontValue::Vertex(x, y, z);
        let ghost e = v@;
        self.values.push(v);
        proof {
            assert(self@ =~= pre.push(e));
            if model_wf(pre) {
                lemma_wf_push(pre, e);
            }
        }
    }

    /// Appends one face record. Its references must stay within the
    /// vertices already emitted.
    pub fn add_face(&mut self, refs: Vec<i64>)
        requires
            forall|j: int|
                0 <= j < refs@.len() ==> -vertex_count(old(self)@) <= #[trigger] refs@[j] as int
                    <= -1,
        ensures
            final(self)@ == old(self)@.push(
                MeshEntry::Face(refs@.map(|_i: int, v: i64| v as int)),
            ),
            old(self).wf() ==> final(self).wf(),
    {
        let ghost pre = self@;
        let v = WavefrontValue::Face(refs);
        let ghost e = v@;
        self.values.push(v);
        proof {
            assert(self@ =~= pre.push(e));
            if model_wf(pre) {
                lemma_wf_push(pre, e);
            }
        }
    }

    /// How many records the log holds.
    pub fn len(&self) -> (n: usize)
        ensures
            n == self@.len(),
    {
        self.values.len()
    }
}

} // verus!
