//! The full-fidelity trace store: whole stack traces, by timestamp.
use vstd::prelude::*;
use crate::stack_trace::StackTrace;

verus! {

/// Entry `i` is timestamp `ts`.
pub open spec fn has_time(v: Seq<(u128, Vec<StackTrace>)>, ts: u128, i: int) -> bool {
    0 <= i < v.len() && v[i].0 == ts
}

/// The traces stored at `ts`, in arrival order; empty when there are none.
pub open spec fn traces_in(v: Seq<(u128, Vec<StackTrace>)>, ts: u128) -> Seq<StackTrace> {
    if exists|i: int| has_time(v, ts, i) {
        v[choose|i: int| has_time(v, ts, i)].1@
    } else {
        seq![]
    }
}

/// Each timestamp at most once.
pub open spec fn times_unique(v: Seq<(u128, Vec<StackTrace>)>) -> bool {
    forall|i: int, k: int| 0 <= i < k < v.len() ==> v[i].0 != v[k].0
}

proof fn lemma_time_slot(v: Seq<(u128, Vec<StackTrace>)>, ts: u128, i: int)
    requires
        times_unique(v),
        has_time(v, ts, i),
    ensures
        traces_in(v, ts) == v[i].1@,
{
    let a = choose|a: int| has_time(v, ts, a);
    if a < i {
        assert(v[a].0 != v[i].0);
    } else if i < a {
        assert(v[i].0 != v[a].0);
    }
}

/// Stack traces by timestamp, kept whole and in arrival order.
pub struct TimeSeries {
    traces: Vec<(u128, Vec<StackTrace>)>,
}

impl TimeSeries {
    /// Each timestamp with its traces, in order of first arrival.
    pub closed spec fn entries(&self) -> Seq<(u128, Vec<StackTrace>)> {
        self.traces@
    }

    /// The traces stored at `ts`.
    pub open spec fn traces_at(&self, ts: u128) -> Seq<StackTrace> {
        traces_in(self.entries(), ts)
    }

    /// Each timestamp at most once, and each with at least one trace.
    pub open spec fn wf(&self) -> bool {
        &&& times_unique(self.entries())
        &&& forall|i: int| 0 <= i < self.entries().len() ==> (#[trigger] self.entries()[i]).1@.len() > 0
    }

    pub fn new() -> (t: TimeSeries)
        ensures
            t.wf(),
            t.entries().len() == 0,
            forall|ts: u128| t.traces_at(ts) == Seq::<StackTrace>::empty(),
    {
        TimeSeries { traces: Vec::new() }
    }

    /// Stores `trace` after the traces already stored at `timestamp`.
    pub fn add(&mut self, timestamp: u128, trace: StackTrace)
        requires
            old(self).wf(),
        ensures
            final(self).wf(),
            final(self).traces_at(timestamp) == old(self).traces_at(timestamp).push(trace),
            forall|ts: u128| ts != timestamp ==> final(self).traces_at(ts) == old(self).traces_at(ts),
    {
        let ghost v0 = self.traces@;
        let mut i: usize = 0;
        while i < self.traces.len()
            invariant
                i <= self.traces@.len(),
                self.traces@ == v0,
                v0 == old(self).traces@,
                old(self).wf(),
                times_unique(v0),
                forall|k: int| 0 <= k < i ==> v0[k].0 != timestamp,
            decreases self.traces.len() - i,
        {
            if self.traces[i].0 == timestamp {
                let (t0, mut list) = self.traces.remove(i);
                let ghost l0 = list@;
                assert(l0 == v0[i as int].1@);
                list.push(trace);
                assert(list@ == l0.push(trace));
                self.traces.insert(i, (t0, list));
                let ghost v1 = self.traces@;
                assert(v1 =~= v0.update(i as int, (timestamp, v1[i as int].1)));
                assert forall|a: int| 0 <= a < v1.len() implies (#[trigger] v1[a]).1@.len() > 0 by {
                    if a != i {
                        assert(v1[a] == v0[a]);
                    }
                }
                proof {
                    lemma_time_slot(v0, timestamp, i as int);
                    lemma_time_slot(v1, timestamp, i as int);
                    assert forall|ts: u128| ts != timestamp implies traces_in(v1, ts) == traces_in(v0, ts) by {
                        if exists|a: int| has_time(v0, ts, a) {
                            let a = choose|a: int| has_time(v0, ts, a);
                            lemma_time_slot(v0, ts, a);
                            lemma_time_slot(v1, ts, a);
                        } else {
                            assert forall|a: int| !has_time(v1, ts, a) by {
                                if 0 <= a < v1.len() && a != i {
                                    assert(v1[a] == v0[a]);
                                    assert(!has_time(v0, ts, a));
                                }
                            }
                        }
                    }
                }
                assert(traces_in(v0, timestamp) == l0);
                assert(v1[i as int].1@ == l0.push(trace));
                assert(traces_in(v1, timestamp) == l0.push(trace));
                return;
            }
            i += 1;
        }
        let mut list: Vec<StackTrace> = Vec::new();
        list.push(trace);
        self.traces.push((timestamp, list));
        let ghost v1 = self.traces@;
        proof {
            assert(v1 =~= v0.push((timestamp, v1[v0.len() as int].1)));
            lemma_time_slot(v1, timestamp, v0.len() as int);
            assert(!exists|a: int| has_time(v0, timestamp, a));
            assert(v1[v0.len() as int].1@ =~= Seq::<StackTrace>::empty().push(trace));
            assert forall|ts: u128| ts != timestamp implies traces_in(v1, ts) == traces_in(v0, ts) by {
                if exists|a: int| has_time(v0, ts, a) {
                    let a = choose|a: int| has_time(v0, ts, a);
                    lemma_time_slot(v0, ts, a);
                    lemma_time_slot(v1, ts, a);
                } else {
                    assert forall|a: int| !has_time(v1, ts, a) by {
                        if 0 <= a < v0.len() {
                            assert(v1[a] == v0[a]);
                            assert(!has_time(v0, ts, a));
                        } else if a == v0.len() {
                            assert(v1[a].0 == timestamp);
                        }
                    }
                }
            }
        }
    }

    /// Each timestamp with its traces, for an encoder.
    pub fn timeline(&self) -> (r: &Vec<(u128, Vec<StackTrace>)>)
        ensures
            r@ == self.entries(),
    {
        &self.traces
    }
}

/// The timeline of a well-formed series holds exactly the timestamps that
/// received a trace: each entry's traces are those stored at its timestamp, and
/// a timestamp with no trace has no entry.
pub proof fn lemma_timeline_keys(series: TimeSeries, ts: u128)
    requires
        series.wf(),
    ensures
        forall|i: int|
            0 <= i < series.entries().len() ==> series.traces_at(#[trigger] series.entries()[i].0)
                == series.entries()[i].1@,
        series.traces_at(ts).len() == 0 ==> forall|i: int|
            0 <= i < series.entries().len() ==> series.entries()[i].0 != ts,
{
    let v = series.entries();
    assert forall|i: int| 0 <= i < v.len() implies traces_in(v, #[trigger] v[i].0) == v[i].1@ by {
        lemma_time_slot(v, v[i].0, i);
    }
    assert forall|i: int| 0 <= i < v.len() && traces_in(v, ts).len() == 0 implies v[i].0 != ts by {
        if v[i].0 == ts {
            lemma_time_slot(v, ts, i);
            assert(v[i].1@.len() > 0);
        }
    }
}

} // verus!
