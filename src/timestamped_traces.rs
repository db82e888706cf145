//! The compact trace store: timestamp, then thread, then interned frame ids.
use vstd::prelude::*;
use crate::interner::{FrameTable, id_in, intern_all, lemma_interned_extends, lemma_interning_stable, unique_names};
use crate::signature::{decimal, decimal_text, frame_signature, signature_of};
use crate::stack_trace::{Frame, StackTrace};

verus! {

/// Entries of the store: each timestamp with its threads, each thread with its frame ids.
pub type Entries = Seq<(u128, Vec<(u64, Vec<u64>)>)>;

/// Why a stack trace was not added.
#[derive(Debug, PartialEq, Eq, Structural)]
pub enum TraceError {
    /// The trace has no OS thread id to key it by.
    MissingThreadId,
    /// The frame table has no ids left for the frames of the trace.
    TableFull,
}

/// Entry `i` is timestamp `ts`, and its thread `j` is `tid`.
pub open spec fn has_slot(v: Entries, ts: u128, tid: u64, i: int, j: int) -> bool {
    &&& 0 <= i < v.len()
    &&& v[i].0 == ts
    &&& 0 <= j < v[i].1@.len()
    &&& v[i].1@[j].0 == tid
}

/// The frame ids recorded for thread `tid` at timestamp `ts`; empty when none are.
pub open spec fn ids_in(v: Entries, ts: u128, tid: u64) -> Seq<u64> {
    if exists|i: int, j: int| has_slot(v, ts, tid, i, j) {
        let (i, j) = choose|i: int, j: int| has_slot(v, ts, tid, i, j);
        v[i].1@[j].1@
    } else {
        seq![]
    }
}

/// Each timestamp once, and each thread once under its timestamp.
pub open spec fn keys_unique(v: Entries) -> bool {
    &&& forall|i: int, k: int| 0 <= i < k < v.len() ==> v[i].0 != v[k].0
    &&& forall|i: int, j: int, k: int|
        0 <= i < v.len() && 0 <= j < k < v[i].1@.len() ==> v[i].1@[j].0 != v[i].1@[k].0
}

/// Every timestamp has a thread, every thread a frame, and every id names one
/// of the first `n` signatures.
pub open spec fn entries_filled(v: Entries, n: int) -> bool {
    forall|i: int|
        0 <= i < v.len() ==> {
            &&& (#[trigger] v[i]).1@.len() > 0
            &&& forall|j: int|
                0 <= j < v[i].1@.len() ==> {
                    &&& (#[trigger] v[i].1@[j]).1@.len() > 0
                    &&& forall|k: int|
                        0 <= k < v[i].1@[j].1@.len() ==> 1 <= #[trigger] v[i].1@[j].1@[k] <= n
                }
        }
}

/// The signatures of a sequence of frames.
pub open spec fn signatures(fs: Seq<Frame>) -> Seq<Seq<char>> {
    fs.map_values(|f: Frame| signature_of(f))
}

/// `after` is `before` followed by the ids that table `t` gives to `sigs`.
pub open spec fn appended_ids(before: Seq<u64>, after: Seq<u64>, t: Seq<Seq<char>>, sigs: Seq<Seq<char>>) -> bool {
    &&& after.len() == before.len() + sigs.len()
    &&& after.subrange(0, before.len() as int) == before
    &&& forall|k: int| 0 <= k < sigs.len() ==> id_in(t, sigs[k], #[trigger] after[before.len() + k])
}

/// The signatures that a sequence of ids stands for in table `t`.
pub open spec fn resolved(t: Seq<Seq<char>>, ids: Seq<u64>) -> Seq<Seq<char>> {
    ids.map_values(|id: u64| t[id - 1])
}

proof fn lemma_slot_ids(v: Entries, ts: u128, tid: u64, i: int, j: int)
    requires
        keys_unique(v),
        has_slot(v, ts, tid, i, j),
    ensures
        ids_in(v, ts, tid) == v[i].1@[j].1@,
{
    let (a, b) = choose|a: int, b: int| has_slot(v, ts, tid, a, b);
    if a != i {
        if a < i {
            assert(v[a].0 != v[i].0);
        } else {
            assert(v[i].0 != v[a].0);
        }
    }
    if b != j {
        if b < j {
            assert(v[i].1@[b].0 != v[i].1@[j].0);
        } else {
            assert(v[i].1@[j].0 != v[i].1@[b].0);
        }
    }
}

proof fn lemma_same_ids(v1: Entries, v2: Entries, ts: u128, tid: u64)
    requires
        keys_unique(v1),
        keys_unique(v2),
        forall|i: int, j: int| has_slot(v1, ts, tid, i, j) <==> has_slot(v2, ts, tid, i, j),
        forall|i: int, j: int| has_slot(v1, ts, tid, i, j) ==> v1[i].1@[j].1@ == v2[i].1@[j].1@,
    ensures
        ids_in(v1, ts, tid) == ids_in(v2, ts, tid),
{
    if exists|i: int, j: int| has_slot(v1, ts, tid, i, j) {
        let (i, j) = choose|i: int, j: int| has_slot(v1, ts, tid, i, j);
        lemma_slot_ids(v1, ts, tid, i, j);
        lemma_slot_ids(v2, ts, tid, i, j);
    }
}

fn find_timestamp(traces: &Vec<(u128, Vec<(u64, Vec<u64>)>)>, ts: u128) -> (r: Option<usize>)
    ensures
        match r {
            Some(i) => i < traces@.len() && traces@[i as int].0 == ts,
            None => forall|k: int| 0 <= k < traces@.len() ==> traces@[k].0 != ts,
        },
{
    let mut i: usize = 0;
    while i < traces.len()
        invariant
            i <= traces@.len(),
            forall|k: int| 0 <= k < i ==> traces@[k].0 != ts,
        decreases traces.len() - i,
    {
        if traces[i].0 == ts {
            return Some(i);
        }
        i += 1;
    }
    None
}

fn find_thread(threads: &Vec<(u64, Vec<u64>)>, tid: u64) -> (r: Option<usize>)
    ensures
        match r {
            Some(j) => j < threads@.len() && threads@[j as int].0 == tid,
            None => forall|k: int| 0 <= k < threads@.len() ==> threads@[k].0 != tid,
        },
{
    let mut j: usize = 0;
    while j < threads.len()
        invariant
            j <= threads@.len(),
            forall|k: int| 0 <= k < j ==> threads@[k].0 != tid,
        decreases threads.len() - j,
    {
        if threads[j].0 == tid {
            return Some(j);
        }
        j += 1;
    }
    None
}

/// Appends `ids` to the frames of thread `tid` at timestamp `ts`, creating the
/// entries that do not exist yet.
fn append_ids(traces: &mut Vec<(u128, Vec<(u64, Vec<u64>)>)>, ts: u128, tid: u64, ids: Vec<u64>, Ghost(n): Ghost<int>)
    requires
        keys_unique(old(traces)@),
        entries_filled(old(traces)@, n),
        ids@.len() > 0,
        forall|k: int| 0 <= k < ids@.len() ==> 1 <= #[trigger] ids@[k] <= n,
    ensures
        keys_unique(final(traces)@),
        entries_filled(final(traces)@, n),
        ids_in(final(traces)@, ts, tid) == ids_in(old(traces)@, ts, tid) + ids@,
        forall|ts2: u128, tid2: u64|
            !(ts2 == ts && tid2 == tid) ==> ids_in(final(traces)@, ts2, tid2) == ids_in(
                old(traces)@,
                ts2,
                tid2,
            ),
{
    let ghost v0 = traces@;
    match find_timestamp(traces, ts) {
        None => {
            let mut threads: Vec<(u64, Vec<u64>)> = Vec::new();
            let ghost fresh = ids@;
            threads.push((tid, ids));
            traces.push((ts, threads));
            let ghost v1 = traces@;
            assert(v1 =~= v0.push((ts, threads)));
            assert(has_slot(v1, ts, tid, v0.len() as int, 0));
            proof {
                lemma_slot_ids(v1, ts, tid, v0.len() as int, 0);
            }
            assert(!exists|i: int, j: int| has_slot(v0, ts, tid, i, j));
            assert(ids_in(v1, ts, tid) =~= ids_in(v0, ts, tid) + fresh);
            assert forall|ts2: u128, tid2: u64| !(ts2 == ts && tid2 == tid) implies ids_in(v1, ts2, tid2)
                == ids_in(v0, ts2, tid2) by {
                lemma_same_ids(v1, v0, ts2, tid2);
            }
        },
        Some(i) => {
            let (t0, mut threads) = traces.remove(i);
            let ghost th0 = threads@;
            let ghost fresh = ids@;
            let ghost mut jslot: int = th0.len() as int;
            let ghost before: Seq<u64> = seq![];
            assert(th0 == v0[i as int].1@);
            match find_thread(&threads, tid) {
                None => {
                    threads.push((tid, ids));
                    assert(threads@ =~= th0.push((tid, threads@[th0.len() as int].1)));
                    assert(threads@[th0.len() as int].1@ == fresh);
                    assert(fresh =~= before + fresh);
                    assert(!exists|a: int, b: int| has_slot(v0, ts, tid, a, b)) by {
                        assert forall|a: int, b: int| !has_slot(v0, ts, tid, a, b) by {
                            if has_slot(v0, ts, tid, a, b) && a != i {
                                if a < i {
                                    assert(v0[a].0 != v0[i as int].0);
                                } else {
                                    assert(v0[i as int].0 != v0[a].0);
                                }
                            }
                        }
                    }
                },
                Some(j) => {
                    let (tj, mut frames) = threads.remove(j);
                    let ghost f0 = frames@;
                    let mut ids = ids;
                    frames.append(&mut ids);
                    threads.insert(j, (tj, frames));
                    assert(threads@ =~= th0.update(j as int, (tid, threads@[j as int].1)));
                    assert(threads@[j as int].1@ == f0 + fresh);
                    assert(has_slot(v0, ts, tid, i as int, j as int));
                    proof {
                        lemma_slot_ids(v0, ts, tid, i as int, j as int);
                    }
                    proof {
                        jslot = j as int;
                        before = f0;
                    }
                },
            }
            let ghost th1 = threads@;
            traces.insert(i, (t0, threads));
            let ghost v1 = traces@;
            assert(v1 =~= v0.update(i as int, (ts, v1[i as int].1)));
            assert(v1[i as int].1@ == th1);
            assert(ids_in(v0, ts, tid) == before);
            assert(has_slot(v1, ts, tid, i as int, jslot));
            assert(keys_unique(v1));
            proof {
                lemma_slot_ids(v1, ts, tid, i as int, jslot);
            }
            assert(entries_filled(v1, n));
            assert forall|ts2: u128, tid2: u64| !(ts2 == ts && tid2 == tid) implies ids_in(v1, ts2, tid2)
                == ids_in(v0, ts2, tid2) by {
                lemma_same_ids(v1, v0, ts2, tid2);
            }
        },
    }
}

/// The compact trace store: for each timestamp and thread, the ids of the
/// frames added, in the order they arrived, and the table of their signatures.
pub struct TimestampedTrace {
    traces: Vec<(u128, Vec<(u64, Vec<u64>)>)>,
    frames: FrameTable,
}

impl TimestampedTrace {
    /// The entries, each timestamp once with its threads.
    pub closed spec fn entries(&self) -> Entries {
        self.traces@
    }

    /// The interned signatures; the one at index `k` has id `k + 1`.
    pub closed spec fn frame_names(&self) -> Seq<Seq<char>> {
        self.frames@
    }

    /// The frame ids recorded for a thread at a timestamp.
    pub open spec fn ids_at(&self, ts: u128, tid: u64) -> Seq<u64> {
        ids_in(self.entries(), ts, tid)
    }

    pub open spec fn wf(&self) -> bool {
        &&& unique_names(self.frame_names())
        &&& keys_unique(self.entries())
        &&& entries_filled(self.entries(), self.frame_names().len() as int)
    }

    pub fn new() -> (t: TimestampedTrace)
        ensures
            t.wf(),
            t.entries() == Seq::<(u128, Vec<(u64, Vec<u64>)>)>::empty(),
            t.frame_names() == Seq::<Seq<char>>::empty(),
    {
        let t = TimestampedTrace { traces: Vec::new(), frames: FrameTable::new() };
        assert(t.entries() =~= Seq::<(u128, Vec<(u64, Vec<u64>)>)>::empty());
        t
    }

    /// How many signatures are interned.
    pub fn frame_count(&self) -> (n: usize)
        ensures
            n == self.frame_names().len(),
    {
        self.frames.len()
    }

    /// Interns the signature of each frame of `trace` and appends the ids to
    /// its thread's frames at `timestamp`. A trace without an OS thread id is
    /// refused and leaves the store as it was.
    pub fn add(&mut self, timestamp: u128, trace: &StackTrace) -> (r: Result<(), TraceError>)
        requires
            old(self).wf(),
            old(self).frame_names().len() + trace.frames@.len() < u64::MAX,
        ensures
            final(self).wf(),
            r is Err <==> trace.os_thread_id is None,
            r is Err ==> *final(self) == *old(self),
            r is Ok ==> final(self).frame_names() == intern_all(
                old(self).frame_names(),
                signatures(trace.frames@),
            ),
            r is Ok ==> old(self).frame_names().is_prefix_of(final(self).frame_names()),
            r is Ok ==> appended_ids(
                old(self).ids_at(timestamp, trace.os_thread_id->0),
                final(self).ids_at(timestamp, trace.os_thread_id->0),
                final(self).frame_names(),
                signatures(trace.frames@),
            ),
            r is Ok ==> forall|ts: u128, tid: u64|
                !(ts == timestamp && tid == trace.os_thread_id->0) ==> final(self).ids_at(ts, tid)
                    == old(self).ids_at(ts, tid),
    {
        let tid = match trace.os_thread_id {
            Some(t) => t,
            None => {
                return Err(TraceError::MissingThreadId);
            },
        };
        let ghost sigs = signatures(trace.frames@);
        let ghost t0 = self.frames@;
        let mut ids: Vec<u64> = Vec::new();
        let mut k: usize = 0;
        while k < trace.frames.len()
            invariant
                k <= trace.frames@.len(),
                sigs == signatures(trace.frames@),
                t0 == old(self).frames@,
                unique_names(self.frames@),
                self.frames.wf(),
                self.frames@ == intern_all(t0, sigs.subrange(0, k as int)),
                t0.is_prefix_of(self.frames@),
                self.frames@.len() <= t0.len() + k,
                t0.len() + trace.frames@.len() < u64::MAX,
                ids@.len() == k,
                forall|m: int| 0 <= m < k ==> id_in(self.frames@, sigs[m], #[trigger] ids@[m]),
                self.traces == old(self).traces,
            decreases trace.frames.len() - k,
        {
            let sig = frame_signature(&trace.frames[k]);
            let ghost prev = self.frames@;
            let id = self.frames.intern(sig);
            proof {
                lemma_interned_extends(prev, sigs[k as int]);
                assert(sigs.subrange(0, k + 1).drop_last() =~= sigs.subrange(0, k as int));
                assert forall|m: int| 0 <= m < k implies id_in(self.frames@, sigs[m], #[trigger] ids@[m]) by {
                    assert(prev[ids@[m] - 1] == self.frames@[ids@[m] - 1]);
                }
                assert forall|q: int| 0 <= q < t0.len() implies t0[q] == self.frames@[q] by {
                    assert(t0[q] == prev[q]);
                    assert(prev[q] == self.frames@[q]);
                }
                assert(t0 =~= self.frames@.subrange(0, t0.len() as int));
            }
            ids.push(id);
            k += 1;
        }
        assert(sigs.subrange(0, trace.frames@.len() as int) =~= sigs);
        let ghost n = self.frames@.len() as int;
        let ghost before = self.ids_at(timestamp, tid);
        proof {
            assert forall|i: int, j: int, q: int|
                0 <= i < self.traces@.len() && 0 <= j < self.traces@[i].1@.len() && 0 <= q
                    < self.traces@[i].1@[j].1@.len() implies 1 <= #[trigger] self.traces@[i].1@[j].1@[q] <= n by {
                assert(1 <= self.traces@[i].1@[j].1@[q] <= t0.len());
            }
            assert(entries_filled(self.traces@, n));
        }
        if ids.len() == 0 {
            assert(self.ids_at(timestamp, tid).subrange(0, before.len() as int) =~= before);
            return Ok(());
        }
        let ghost fresh = ids@;
        append_ids(&mut self.traces, timestamp, tid, ids, Ghost(n));
        assert(self.ids_at(timestamp, tid).subrange(0, before.len() as int) =~= before);
        assert forall|m: int| 0 <= m < sigs.len() implies id_in(
            self.frames@,
            sigs[m],
            #[trigger] self.ids_at(timestamp, tid)[before.len() + m],
        ) by {
            assert(self.ids_at(timestamp, tid)[before.len() + m] == fresh[m]);
        }
        Ok(())
    }
}

/// Resolving a thread's ids through the frame table after an `add` gives the
/// signatures resolved before it followed by the signatures of the added frames.
pub proof fn lemma_add_resolves(
    t0: Seq<Seq<char>>,
    t1: Seq<Seq<char>>,
    before: Seq<u64>,
    after: Seq<u64>,
    sigs: Seq<Seq<char>>,
)
    requires
        t0.is_prefix_of(t1),
        forall|k: int| 0 <= k < before.len() ==> 1 <= #[trigger] before[k] <= t0.len(),
        appended_ids(before, after, t1, sigs),
    ensures
        resolved(t1, after) == resolved(t0, before) + sigs,
{
    assert forall|k: int| 0 <= k < after.len() implies #[trigger] resolved(t1, after)[k] == (
    resolved(t0, before) + sigs)[k] by {
        if k < before.len() {
            assert(after[k] == after.subrange(0, before.len() as int)[k]);
            assert(t0[before[k] - 1] == t1.subrange(0, t0.len() as int)[before[k] - 1]);
        } else {
            assert(id_in(t1, sigs[k - before.len()], after[before.len() + (k - before.len())]));
        }
    }
    assert(resolved(t1, after) =~= resolved(t0, before) + sigs);
}

/// The parts separated by commas.
pub open spec fn comma_joined(ps: Seq<Seq<char>>) -> Seq<char>
    decreases ps.len(),
{
    if ps.len() == 0 {
        seq![]
    } else if ps.len() == 1 {
        ps[0]
    } else {
        comma_joined(ps.drop_last()) + seq![','] + ps.last()
    }
}

/// A JSON array of frame ids.
pub open spec fn ids_text(ids: Seq<u64>) -> Seq<char> {
    seq!['['] + comma_joined(ids.map_values(|id: u64| decimal(id as nat))) + seq![']']
}

/// `"key":` for a numeric key.
pub open spec fn key_text(k: nat) -> Seq<char> {
    seq!['"'] + decimal(k) + seq!['"', ':']
}

/// One thread's member of a timestamp's object.
pub open spec fn thread_text(t: (u64, Vec<u64>)) -> Seq<char> {
    key_text(t.0 as nat) + ids_text(t.1@)
}

/// One timestamp's member of the traces document.
pub open spec fn timestamp_text(e: (u128, Vec<(u64, Vec<u64>)>)) -> Seq<char> {
    key_text(e.0 as nat) + seq!['{'] + comma_joined(e.1@.map_values(|t: (u64, Vec<u64>)| thread_text(t)))
        + seq!['}']
}

/// The members for the timestamps that have a thread, in order.
pub open spec fn shown_timestamps(v: Entries) -> Seq<Seq<char>>
    decreases v.len(),
{
    if v.len() == 0 {
        seq![]
    } else if v.last().1@.len() > 0 {
        shown_timestamps(v.drop_last()).push(timestamp_text(v.last()))
    } else {
        shown_timestamps(v.drop_last())
    }
}

/// The traces document: timestamp to thread to frame ids; timestamps with no
/// thread are left out.
pub open spec fn traces_document(v: Entries) -> Seq<char> {
    seq!['{'] + comma_joined(shown_timestamps(v)) + seq!['}']
}

/// A lower-case hexadecimal digit.
pub open spec fn hex_digit(d: nat) -> char {
    seq!['0', '1', '2', '3', '4', '5', '6', '7', '8', '9', 'a', 'b', 'c', 'd', 'e', 'f'][d as int]
}

/// How one character appears inside a JSON string: quote and backslash
/// escaped, five control characters by their short escapes, the other
/// control characters as `\u00xx`, everything else as it is.
pub open spec fn json_char(c: char) -> Seq<char> {
    if c == '"' {
        seq!['\\', '"']
    } else if c == '\\' {
        seq!['\\', '\\']
    } else if c == '\u{8}' {
        seq!['\\', 'b']
    } else if c == '\t' {
        seq!['\\', 't']
    } else if c == '\n' {
        seq!['\\', 'n']
    } else if c == '\u{c}' {
        seq!['\\', 'f']
    } else if c == '\r' {
        seq!['\\', 'r']
    } else if (c as u32) < 0x20 {
        seq!['\\', 'u', '0', '0', hex_digit((c as u32 / 16) as nat), hex_digit((c as u32 % 16) as nat)]
    } else {
        seq![c]
    }
}

/// The characters of a text, each escaped for a JSON string.
pub open spec fn json_escaped(s: Seq<char>) -> Seq<char>
    decreases s.len(),
{
    if s.len() == 0 {
        seq![]
    } else {
        json_escaped(s.drop_last()) + json_char(s.last())
    }
}

/// The JSON string literal for a text: its escaped characters between quotes.
pub open spec fn json_string_of(s: Seq<char>) -> Seq<char> {
    seq!['"'] + json_escaped(s) + seq!['"']
}

/// One member of the frames document: id to signature.
pub open spec fn frame_text(t: Seq<Seq<char>>, k: int) -> Seq<char> {
    key_text((k + 1) as nat) + json_string_of(t[k])
}

/// The frames document: each id with its signature, in id order.
pub open spec fn frames_document(t: Seq<Seq<char>>) -> Seq<char> {
    seq!['{'] + comma_joined(Seq::new(t.len(), |k: int| frame_text(t, k))) + seq!['}']
}

/// Relies on `serde_json::to_string` on a `str`: the JSON string literal for
/// the text. It always returns one: the only failure is a write error, and it
/// writes into a `Vec`.
#[verifier::external_body]
fn json_string(s: &str) -> (r: Option<String>)
    ensures
        r is Some,
        r matches Some(t) ==> t@ == json_string_of(s@),
{
    serde_json::to_string(s).ok()
}

proof fn lemma_comma_push(ps: Seq<Seq<char>>, p: Seq<char>)
    ensures
        comma_joined(ps.push(p)) == if ps.len() == 0 {
            p
        } else {
            comma_joined(ps) + seq![','] + p
        },
{
    assert(ps.push(p).drop_last() =~= ps);
}

/// Appends `part` to `out`, after a comma unless it is the first part.
fn append_part(out: &mut String, first: bool, part: &str, Ghost(ps): Ghost<Seq<Seq<char>>>)
    requires
        old(out)@ == comma_joined(ps),
        first == (ps.len() == 0),
    ensures
        final(out)@ == comma_joined(ps.push(part@)),
{
    proof {
        lemma_comma_push(ps, part@);
        reveal_strlit(",");
        assert(","@ =~= seq![',']);
    }
    if !first {
        out.append(",");
    }
    out.append(part);
    assert(final(out)@ =~= comma_joined(ps.push(part@)));
}

/// `"key":` for a numeric key.
fn key_string(k: u128) -> (r: String)
    ensures
        r@ == key_text(k as nat),
{
    proof {
        reveal_strlit("\"");
        reveal_strlit("\":");
        assert("\""@ =~= seq!['"']);
        assert("\":"@ =~= seq!['"', ':']);
    }
    let mut r = String::new();
    r.append("\"");
    let d = decimal_text(k);
    r.append(d.as_str());
    r.append("\":");
    assert(r@ =~= key_text(k as nat));
    r
}

fn ids_string(ids: &Vec<u64>) -> (r: String)
    ensures
        r@ == ids_text(ids@),
{
    let ghost texts = ids@.map_values(|id: u64| decimal(id as nat));
    let mut body = String::new();
    let mut i: usize = 0;
    while i < ids.len()
        invariant
            i <= ids@.len(),
            texts == ids@.map_values(|id: u64| decimal(id as nat)),
            body@ == comma_joined(texts.subrange(0, i as int)),
        decreases ids.len() - i,
    {
        let d = decimal_text(ids[i] as u128);
        append_part(&mut body, i == 0, d.as_str(), Ghost(texts.subrange(0, i as int)));
        assert(texts.subrange(0, i as int).push(d@) =~= texts.subrange(0, i + 1));
        i += 1;
    }
    assert(texts.subrange(0, ids@.len() as int) =~= texts);
    proof {
        reveal_strlit("[");
        reveal_strlit("]");
        assert("["@ =~= seq!['[']);
        assert("]"@ =~= seq![']']);
    }
    let mut r = String::new();
    r.append("[");
    r.append(body.as_str());
    r.append("]");
    assert(r@ =~= ids_text(ids@));
    r
}

fn timestamp_string(e: &(u128, Vec<(u64, Vec<u64>)>)) -> (r: String)
    ensures
        r@ == timestamp_text(*e),
{
    let ghost texts = e.1@.map_values(|t: (u64, Vec<u64>)| thread_text(t));
    let mut body = String::new();
    let mut j: usize = 0;
    while j < e.1.len()
        invariant
            j <= e.1@.len(),
            texts == e.1@.map_values(|t: (u64, Vec<u64>)| thread_text(t)),
            body@ == comma_joined(texts.subrange(0, j as int)),
        decreases e.1.len() - j,
    {
        let mut member = key_string(e.1[j].0 as u128);
        let ids = ids_string(&e.1[j].1);
        member.append(ids.as_str());
        append_part(&mut body, j == 0, member.as_str(), Ghost(texts.subrange(0, j as int)));
        assert(texts.subrange(0, j as int).push(member@) =~= texts.subrange(0, j + 1));
        j += 1;
    }
    assert(texts.subrange(0, e.1@.len() as int) =~= texts);
    proof {
        reveal_strlit("{");
        reveal_strlit("}");
        assert("{"@ =~= seq!['{']);
        assert("}"@ =~= seq!['}']);
    }
    let mut r = key_string(e.0);
    r.append("{");
    r.append(body.as_str());
    r.append("}");
    assert(r@ =~= timestamp_text(*e));
    r
}

impl TimestampedTrace {
    /// The traces document: each timestamp that has a thread, mapped to its
    /// threads, each mapped to its frame ids in arrival order.
    pub fn write_traces(&self) -> (r: String)
        ensures
            r@ == traces_document(self.entries()),
    {
        let mut body = String::new();
        let ghost mut parts: Seq<Seq<char>> = seq![];
        let mut first: bool = true;
        let mut i: usize = 0;
        while i < self.traces.len()
            invariant
                i <= self.traces@.len(),
                first == (parts.len() == 0),
                parts == shown_timestamps(self.traces@.subrange(0, i as int)),
                body@ == comma_joined(parts),
            decreases self.traces.len() - i,
        {
            assert(self.traces@.subrange(0, i + 1).drop_last() =~= self.traces@.subrange(0, i as int));
            if self.traces[i].1.len() > 0 {
                let t = timestamp_string(&self.traces[i]);
                append_part(&mut body, first, t.as_str(), Ghost(parts));
                proof {
                    parts = parts.push(t@);
                }
                first = false;
            }
            i += 1;
        }
        assert(self.traces@.subrange(0, self.traces@.len() as int) =~= self.traces@);
        proof {
            reveal_strlit("{");
            reveal_strlit("}");
            assert("{"@ =~= seq!['{']);
            assert("}"@ =~= seq!['}']);
        }
        let mut r = String::new();
        r.append("{");
        r.append(body.as_str());
        r.append("}");
        assert(r@ =~= traces_document(self.entries()));
        r
    }

    /// The frames document: each id mapped to its signature.
    pub fn write_frames(&self) -> (r: String)
        ensures
            r@ == frames_document(self.frame_names()),
    {
        let ghost t = self.frames@;
        let ghost texts = Seq::new(t.len(), |k: int| frame_text(t, k));
        let mut body = String::new();
        let mut k: usize = 0;
        while k < self.frames.len()
            invariant
                k <= t.len(),
                t == self.frames@,
                texts == Seq::new(t.len(), |k: int| frame_text(t, k)),
                body@ == comma_joined(texts.subrange(0, k as int)),
            decreases t.len() - k,
        {
            let mut member = key_string((k as u128) + 1);
            let quoted = json_string(self.frames.name_at(k).as_str()).unwrap();
            member.append(quoted.as_str());
            assert(member@ == frame_text(t, k as int));
            append_part(&mut body, k == 0, member.as_str(), Ghost(texts.subrange(0, k as int)));
            assert(texts.subrange(0, k as int).push(member@) =~= texts.subrange(0, k + 1));
            k += 1;
        }
        assert(texts.subrange(0, t.len() as int) =~= texts);
        proof {
            reveal_strlit("{");
            reveal_strlit("}");
            assert("{"@ =~= seq!['{']);
            assert("}"@ =~= seq!['}']);
        }
        let mut r = String::new();
        r.append("{");
        r.append(body.as_str());
        r.append("}");
        assert(r@ =~= frames_document(self.frame_names()));
        r
    }
}

/// A timestamp at which no thread has a frame is not an entry of the store,
/// so the traces document never shows it.
pub proof fn lemma_silent_timestamp_absent(store: TimestampedTrace, ts: u128)
    requires
        store.wf(),
        forall|tid: u64| store.ids_at(ts, tid).len() == 0,
    ensures
        forall|i: int| 0 <= i < store.entries().len() ==> store.entries()[i].0 != ts,
{
    let v = store.entries();
    assert forall|i: int| 0 <= i < v.len() implies v[i].0 != ts by {
        if v[i].0 == ts {
            assert(v[i].1@.len() > 0);
            let tid = v[i].1@[0].0;
            assert(has_slot(v, ts, tid, i, 0));
            lemma_slot_ids(v, ts, tid, i, 0);
            assert(v[i].1@[0].1@.len() > 0);
            assert(store.ids_at(ts, tid).len() == 0);
        }
    }
}

/// Every id recorded in a well-formed store names one of its signatures.
pub proof fn lemma_ids_in_range(store: TimestampedTrace, ts: u128, tid: u64)
    requires
        store.wf(),
    ensures
        forall|k: int|
            0 <= k < store.ids_at(ts, tid).len() ==> 1 <= #[trigger] store.ids_at(ts, tid)[k] <= store.frame_names().len(),
{
    let v = store.entries();
    if exists|i: int, j: int| has_slot(v, ts, tid, i, j) {
        let (i, j) = choose|i: int, j: int| has_slot(v, ts, tid, i, j);
        lemma_slot_ids(v, ts, tid, i, j);
    }
}

/// Ids that name entries of a table resolve the same in any table it begins.
pub proof fn lemma_resolved_prefix(t0: Seq<Seq<char>>, t1: Seq<Seq<char>>, ids: Seq<u64>)
    requires
        t0.is_prefix_of(t1),
        forall|k: int| 0 <= k < ids.len() ==> 1 <= #[trigger] ids[k] <= t0.len(),
    ensures
        resolved(t1, ids) == resolved(t0, ids),
{
    assert forall|k: int| 0 <= k < ids.len() implies #[trigger] resolved(t1, ids)[k] == resolved(t0, ids)[k] by {
        assert(t0[ids[k] - 1] == t1.subrange(0, t0.len() as int)[ids[k] - 1]);
    }
    assert(resolved(t1, ids) =~= resolved(t0, ids));
}

/// Among the ids that an `add` appends, two are equal exactly when their
/// frames have the same signature.
pub proof fn lemma_add_ids_stable(
    t: Seq<Seq<char>>,
    before: Seq<u64>,
    after: Seq<u64>,
    sigs: Seq<Seq<char>>,
    i: int,
    j: int,
)
    requires
        unique_names(t),
        appended_ids(before, after, t, sigs),
        0 <= i < sigs.len(),
        0 <= j < sigs.len(),
    ensures
        (after[before.len() + i] == after[before.len() + j]) <==> (sigs[i] == sigs[j]),
{
    lemma_interning_stable(t, sigs[i], sigs[j], after[before.len() + i], after[before.len() + j]);
}

} // verus!
