//! The decisions of the collection loop: which traces are kept, the frames
//! added to them, and how a sample reaches the store.
use vstd::prelude::*;
use crate::interner::lemma_intern_all_len;
use crate::signature::{decimal, decimal_text};
use crate::stack_trace::{Frame, ProcessInfo, Sample, StackTrace};
use crate::timestamped_traces::{
    TimestampedTrace, TraceError, lemma_add_resolves, lemma_ids_in_range, lemma_resolved_prefix, resolved,
    signatures,
};

verus! {

/// What the collection loop is told to do.
pub struct Config {
    /// Where the artifacts go; recording needs one.
    pub filename: Option<String>,
    /// Keep traces of threads that are not running.
    pub include_idle: bool,
    /// Keep only traces of threads that hold the interpreter lock.
    pub gil_only: bool,
    /// Add a frame naming the thread to each trace.
    pub include_thread_ids: bool,
}

/// A trace passes the filters: running unless idle ones are wanted, holding
/// the lock when only those are wanted.
pub open spec fn admitted(c: Config, t: StackTrace) -> bool {
    (c.include_idle || t.active) && (!c.gil_only || t.owns_gil)
}

/// The thread's label: its OS thread id where known, else its thread id.
pub open spec fn thread_label(t: StackTrace) -> Seq<char> {
    let id: nat = match t.os_thread_id {
        Some(os) => os as nat,
        None => t.thread_id as nat,
    };
    seq!['t', 'h', 'r', 'e', 'a', 'd', ' ', '('] + decimal(id) + seq![')']
}

/// A process's label: `process <pid>:"<command line>"`.
pub open spec fn process_label(p: ProcessInfo) -> Seq<char> {
    seq!['p', 'r', 'o', 'c', 'e', 's', 's', ' '] + decimal(p.pid as nat) + seq![':', '"'] + p.command_line@
        + seq!['"']
}

/// A process followed by its ancestors, closest first.
pub open spec fn lineage(p: ProcessInfo) -> Seq<ProcessInfo>
    decreases p,
{
    match p.parent {
        Some(q) => seq![p] + lineage(*q),
        None => seq![p],
    }
}

/// A frame made up by the recorder: a label and no location.
pub open spec fn synthetic(f: Frame, label: Seq<char>) -> bool {
    &&& f.name@ == label
    &&& f.filename@.len() == 0
    &&& f.module is None
    &&& f.short_filename is None
    &&& f.line == 0
    &&& f.locals is None
}

/// How many thread-label frames the recorder adds: one when asked to.
pub open spec fn label_frames(include_thread_ids: bool) -> int {
    if include_thread_ids {
        1
    } else {
        0
    }
}

/// How many frames the recorder adds to a trace.
pub open spec fn added_frames(t: StackTrace, include_thread_ids: bool) -> int {
    label_frames(include_thread_ids) + match t.process_info {
        Some(p) => lineage(*p).len(),
        None => 0,
    }
}

/// The signatures that a trace contributes once the recorder's frames are added.
pub open spec fn recorded_sigs(t: StackTrace, include_thread_ids: bool) -> Seq<Seq<char>> {
    signatures(t.frames@) + (if include_thread_ids {
        seq![thread_label(t)]
    } else {
        Seq::<Seq<char>>::empty()
    }) + match t.process_info {
        Some(p) => lineage(*p).map_values(|q: ProcessInfo| process_label(q)),
        None => Seq::<Seq<char>>::empty(),
    }
}

/// The signatures that the traces of a sample contribute to thread `tid`: those
/// of each trace of that thread that passes the filters, in order.
pub open spec fn sample_sigs(ts: Seq<StackTrace>, c: Config, tid: u64) -> Seq<Seq<char>>
    decreases ts.len(),
{
    if ts.len() == 0 {
        seq![]
    } else if admitted(c, ts.last()) && ts.last().os_thread_id == Some(tid) {
        sample_sigs(ts.drop_last(), c, tid) + recorded_sigs(ts.last(), c.include_thread_ids)
    } else {
        sample_sigs(ts.drop_last(), c, tid)
    }
}

/// How many frames the traces of a sample bring to the store: those of each
/// trace that passes the filters and has an OS thread id, once annotated.
pub open spec fn recorded_count(ts: Seq<StackTrace>, c: Config) -> int
    decreases ts.len(),
{
    if ts.len() == 0 {
        0
    } else if admitted(c, ts.last()) && ts.last().os_thread_id is Some {
        recorded_count(ts.drop_last(), c) + recorded_sigs(ts.last(), c.include_thread_ids).len()
    } else {
        recorded_count(ts.drop_last(), c)
    }
}

proof fn lemma_count_prefix(ts: Seq<StackTrace>, c: Config, i: int)
    requires
        0 <= i <= ts.len(),
    ensures
        recorded_count(ts.subrange(0, i), c) <= recorded_count(ts, c),
    decreases ts.len(),
{
    if i == ts.len() {
        assert(ts.subrange(0, i) =~= ts);
    } else {
        lemma_count_prefix(ts.drop_last(), c, i);
        assert(ts.drop_last().subrange(0, i) =~= ts.subrange(0, i));
    }
}

/// Whether a trace passes the filters of `config`.
pub fn admits(config: &Config, trace: &StackTrace) -> (r: bool)
    ensures
        r == admitted(*config, *trace),
{
    (config.include_idle || trace.active) && (!config.gil_only || trace.owns_gil)
}

fn synthetic_frame(name: String) -> (f: Frame)
    ensures
        synthetic(f, name@),
{
    Frame { name, filename: String::new(), module: None, short_filename: None, line: 0, locals: None }
}

fn process_frame(p: &ProcessInfo) -> (f: Frame)
    ensures
        synthetic(f, process_label(*p)),
{
    proof {
        reveal_strlit("process ");
        reveal_strlit(":\"");
        reveal_strlit("\"");
        assert("process "@ =~= seq!['p', 'r', 'o', 'c', 'e', 's', 's', ' ']);
        assert(":\""@ =~= seq![':', '"']);
        assert("\""@ =~= seq!['"']);
    }
    let mut name = String::from_str("process ");
    let d = decimal_text(p.pid as u128);
    name.append(d.as_str());
    name.append(":\"");
    name.append(p.command_line.as_str());
    name.append("\"");
    assert(name@ =~= process_label(*p));
    synthetic_frame(name)
}

fn push_lineage(frames: &mut Vec<Frame>, p: &ProcessInfo)
    ensures
        final(frames)@.len() == old(frames)@.len() + lineage(*p).len(),
        forall|k: int| 0 <= k < old(frames)@.len() ==> final(frames)@[k] == old(frames)@[k],
        forall|k: int|
            0 <= k < lineage(*p).len() ==> synthetic(
                #[trigger] final(frames)@[old(frames)@.len() + k],
                process_label(lineage(*p)[k]),
            ),
    decreases p,
{
    let f = process_frame(p);
    frames.push(f);
    let ghost mid = frames@;
    match &p.parent {
        Some(q) => {
            push_lineage(frames, q);
            assert forall|k: int| 0 <= k < lineage(*p).len() implies synthetic(
                #[trigger] frames@[old(frames)@.len() + k],
                process_label(lineage(*p)[k]),
            ) by {
                if k == 0 {
                    assert(frames@[old(frames)@.len() + k] == mid[old(frames)@.len() as int]);
                } else {
                    assert(lineage(*p)[k] == lineage(**q)[k - 1]);
                    assert(frames@[old(frames)@.len() + k] == frames@[mid.len() + (k - 1)]);
                }
            }
        },
        None => {},
    }
}

/// Adds the recorder's frames to a trace: the thread's label when asked for,
/// then one frame per process of its lineage, closest first.
pub fn annotate(trace: &mut StackTrace, include_thread_ids: bool)
    ensures
        final(trace).frames@.len() == old(trace).frames@.len() + added_frames(*old(trace), include_thread_ids),
        forall|k: int| 0 <= k < old(trace).frames@.len() ==> final(trace).frames@[k] == old(trace).frames@[k],
        include_thread_ids ==> synthetic(final(trace).frames@[old(trace).frames@.len() as int], thread_label(*old(trace))),
        old(trace).process_info matches Some(p) ==> forall|k: int|
            0 <= k < lineage(*p).len() ==> synthetic(
                #[trigger] final(trace).frames@[old(trace).frames@.len() + label_frames(include_thread_ids) + k],
                process_label(lineage(*p)[k]),
            ),
        signatures(final(trace).frames@) == recorded_sigs(*old(trace), include_thread_ids),
        final(trace).os_thread_id == old(trace).os_thread_id,
        final(trace).active == old(trace).active,
        final(trace).owns_gil == old(trace).owns_gil,
        final(trace).process_info == old(trace).process_info,
{
    if include_thread_ids {
        proof {
            reveal_strlit("thread (");
            reveal_strlit(")");
            assert("thread ("@ =~= seq!['t', 'h', 'r', 'e', 'a', 'd', ' ', '(']);
            assert(")"@ =~= seq![')']);
        }
        let id: u64 = match trace.os_thread_id {
            Some(os) => os,
            None => trace.thread_id,
        };
        let mut name = String::from_str("thread (");
        let d = decimal_text(id as u128);
        name.append(d.as_str());
        name.append(")");
        assert(name@ =~= thread_label(*old(trace)));
        let f = synthetic_frame(name);
        trace.frames.push(f);
    }
    let ghost mid = trace.frames@;
    match &trace.process_info {
        Some(p) => {
            push_lineage(&mut trace.frames, p);
            assert forall|k: int| 0 <= k < mid.len() implies trace.frames@[k] == mid[k] by {}
        },
        None => {},
    }
    proof {
        let t0 = *old(trace);
        let n0 = t0.frames@.len() as int;
        let want = recorded_sigs(t0, include_thread_ids);
        let got = signatures(trace.frames@);
        assert forall|k: int| 0 <= k < got.len() implies #[trigger] got[k] == want[k] by {
            if k < n0 {
                assert(trace.frames@[k] == t0.frames@[k]);
            } else if include_thread_ids && k == n0 {
                assert(synthetic(trace.frames@[k], thread_label(t0)));
            } else {
                let p = t0.process_info->0;
                let m = k - n0 - label_frames(include_thread_ids);
                assert(trace.frames@[n0 + label_frames(include_thread_ids) + m] == trace.frames@[k]);
                assert(synthetic(trace.frames@[k], process_label(lineage(*p)[m])));
            }
        }
        assert(got =~= want);
    }
}

proof fn lemma_prefix_trans(a: Seq<Seq<char>>, b: Seq<Seq<char>>, c: Seq<Seq<char>>)
    requires
        a.is_prefix_of(b),
        b.is_prefix_of(c),
    ensures
        a.is_prefix_of(c),
{
    assert forall|k: int| 0 <= k < a.len() implies a[k] == c[k] by {
        assert(a[k] == b.subrange(0, a.len() as int)[k]);
        assert(b[k] == c.subrange(0, b.len() as int)[k]);
    }
    assert(a =~= c.subrange(0, a.len() as int));
}

/// Records one sample taken at `now`: each trace that passes the filters gets
/// the recorder's frames and, when it has an OS thread id, goes to the store.
/// Only entries at `now` change, and only those of threads with a trace that
/// passed the filters; a sample with no such trace leaves the store as it was.
pub fn record_sample(store: &mut TimestampedTrace, sample: Sample, config: &Config, now: u128) -> (r: Result<(), TraceError>)
    requires
        old(store).wf(),
    ensures
        final(store).wf(),
        r matches Err(e) ==> e == TraceError::TableFull,
        old(store).frame_names().len() + recorded_count(sample.traces@, *config) < u64::MAX ==> r is Ok,
        r is Ok ==> forall|tid: u64|
            #[trigger] resolved(final(store).frame_names(), final(store).ids_at(now, tid)) == resolved(
                old(store).frame_names(),
                old(store).ids_at(now, tid),
            ) + sample_sigs(sample.traces@, *config, tid),
        old(store).frame_names().is_prefix_of(final(store).frame_names()),
        forall|ts: u128, tid: u64| ts != now ==> #[trigger] final(store).ids_at(ts, tid) == old(store).ids_at(ts, tid),
        forall|tid: u64|
            (forall|k: int|
                0 <= k < sample.traces@.len() && (#[trigger] sample.traces@[k]).os_thread_id == Some(tid)
                    ==> !admitted(*config, sample.traces@[k])) ==> #[trigger] final(store).ids_at(now, tid)
                == old(store).ids_at(now, tid),
        (forall|k: int|
            0 <= k < sample.traces@.len() ==> !admitted(*config, #[trigger] sample.traces@[k])
                || sample.traces@[k].os_thread_id is None) ==> *final(store) == *old(store),
{
    let mut traces = sample.traces;
    let ghost orig = traces@;
    let ghost start = *store;
    let n: usize = traces.len();
    let mut i: usize = 0;
    while i < n
        invariant
            i <= orig.len(),
            n == orig.len(),
            store.frame_names().len() <= start.frame_names().len() + recorded_count(
                orig.subrange(0, i as int),
                *config,
            ),
            traces@ == orig.subrange(i as int, orig.len() as int),
            orig == sample.traces@,
            start == *old(store),
            store.wf(),
            start.frame_names().is_prefix_of(store.frame_names()),
            forall|tid: u64|
                #[trigger] resolved(store.frame_names(), store.ids_at(now, tid)) == resolved(
                    start.frame_names(),
                    start.ids_at(now, tid),
                ) + sample_sigs(orig.subrange(0, i as int), *config, tid),
            forall|ts: u128, tid: u64| ts != now ==> #[trigger] store.ids_at(ts, tid) == start.ids_at(ts, tid),
            forall|tid: u64|
                (forall|k: int|
                    0 <= k < i && (#[trigger] orig[k]).os_thread_id == Some(tid) ==> !admitted(*config, orig[k]))
                    ==> #[trigger] store.ids_at(now, tid) == start.ids_at(now, tid),
            (forall|k: int| 0 <= k < i ==> !admitted(*config, #[trigger] orig[k]) || orig[k].os_thread_id is None)
                ==> *store == start,
        decreases n - i,
    {
        let mut t = traces.remove(0);
        let ghost t_orig = t;
        assert(t == orig[i as int]);
        assert(traces@ =~= orig.subrange(i + 1, orig.len() as int));
        assert(orig.subrange(0, i + 1).drop_last() =~= orig.subrange(0, i as int));
        i += 1;
        if admits(config, &t) {
            annotate(&mut t, config.include_thread_ids);
            if t.os_thread_id.is_some() {
                let count = store.frame_count();
                proof {
                    assert(signatures(t.frames@).len() == t.frames@.len());
                    assert(recorded_count(orig.subrange(0, i as int), *config) == recorded_count(
                        orig.subrange(0, i - 1),
                        *config,
                    ) + t.frames@.len());
                    lemma_count_prefix(orig, *config, i as int);
                }
                if (count as u128) + (t.frames.len() as u128) >= (u64::MAX as u128) {
                    return Err(TraceError::TableFull);
                }
                let ghost mid = *store;
                let _ = store.add(now, &t);
                proof {
                    lemma_prefix_trans(start.frame_names(), mid.frame_names(), store.frame_names());
                    lemma_intern_all_len(mid.frame_names(), signatures(t.frames@));
                    let x = t.os_thread_id->0;
                    assert forall|tid: u64|
                        #[trigger] resolved(store.frame_names(), store.ids_at(now, tid)) == resolved(
                            start.frame_names(),
                            start.ids_at(now, tid),
                        ) + sample_sigs(orig.subrange(0, i as int), *config, tid) by {
                        lemma_ids_in_range(mid, now, tid);
                        let prev = sample_sigs(orig.subrange(0, i - 1), *config, tid);
                        let base = resolved(start.frame_names(), start.ids_at(now, tid));
                        if tid == x {
                            lemma_add_resolves(
                                mid.frame_names(),
                                store.frame_names(),
                                mid.ids_at(now, tid),
                                store.ids_at(now, tid),
                                signatures(t.frames@),
                            );
                            assert(base + prev + recorded_sigs(t_orig, config.include_thread_ids) =~= base + (prev
                                + recorded_sigs(t_orig, config.include_thread_ids)));
                        } else {
                            lemma_resolved_prefix(mid.frame_names(), store.frame_names(), mid.ids_at(now, tid));
                        }
                    }
                }
            }
        }
    }
    assert(orig.subrange(0, i as int) =~= orig);
    Ok(())
}

/// One collection session: the store being filled, and whether a stop was
/// requested. Once stopped it takes no more samples.
pub struct Session {
    store: TimestampedTrace,
    stopped: bool,
}

impl Session {
    pub closed spec fn store_view(&self) -> TimestampedTrace {
        self.store
    }

    pub closed spec fn is_stopped(&self) -> bool {
        self.stopped
    }

    pub open spec fn wf(&self) -> bool {
        self.store_view().wf()
    }

    pub fn new() -> (s: Session)
        ensures
            s.wf(),
            !s.is_stopped(),
            s.store_view().entries().len() == 0,
            s.store_view().frame_names().len() == 0,
    {
        Session { store: TimestampedTrace::new(), stopped: false }
    }

    /// Whether a stop was requested.
    pub fn stopped(&self) -> (r: bool)
        ensures
            r == self.is_stopped(),
    {
        self.stopped
    }

    /// Handles the next sample, with `keep_running` read from the stop flag
    /// just before it: a session that is or becomes stopped leaves the store
    /// as it is; a running one records the sample at `now`.
    pub fn offer(&mut self, keep_running: bool, sample: Sample, config: &Config, now: u128) -> (r: Result<(), TraceError>)
        requires
            old(self).wf(),
        ensures
            final(self).wf(),
            final(self).is_stopped() == (old(self).is_stopped() || !keep_running),
            final(self).is_stopped() ==> final(self).store_view() == old(self).store_view() && r is Ok,
            !final(self).is_stopped() && r is Ok ==> forall|tid: u64|
                #[trigger] resolved(final(self).store_view().frame_names(), final(self).store_view().ids_at(now, tid))
                    == resolved(old(self).store_view().frame_names(), old(self).store_view().ids_at(now, tid))
                    + sample_sigs(sample.traces@, *config, tid),
            r matches Err(e) ==> e == TraceError::TableFull,
            !old(self).is_stopped() && keep_running && old(self).store_view().frame_names().len()
                + recorded_count(sample.traces@, *config) < u64::MAX ==> r is Ok,
            old(self).store_view().frame_names().is_prefix_of(final(self).store_view().frame_names()),
            forall|ts: u128, tid: u64|
                ts != now ==> #[trigger] final(self).store_view().ids_at(ts, tid) == old(self).store_view().ids_at(ts, tid),
    {
        if self.stopped || !keep_running {
            self.stopped = true;
            proof {
                assert(self.store.frame_names() =~= self.store.frame_names().subrange(0, self.store.frame_names().len() as int));
            }
            return Ok(());
        }
        record_sample(&mut self.store, sample, config, now)
    }

    /// The store, for the encoder that ends the session.
    pub fn store(&self) -> (r: &TimestampedTrace)
        ensures
            *r == self.store_view(),
    {
        &self.store
    }
}

} // verus!
