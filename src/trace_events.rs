//! The Chrome trace-event document: stack frames interned by lineage, and one
//! instant event per stack trace.
use vstd::prelude::*;
use crate::signature::{decimal, decimal_text, display_file};
use crate::stack_trace::{Frame, StackTrace};

verus! {

/// Stack traces by timestamp in microseconds since the epoch.
pub struct TraceEvents(pub Vec<(u128, Vec<StackTrace>)>);

/// One instant event of the document.
pub struct TraceEvent {
    pub name: String,
    pub cat: String,
    pub ph: String,
    pub ts: u128,
    pub pid: u32,
    pub tid: u64,
    pub s: String,
    pub sf: Option<usize>,
}

/// One node of the stack-frame tree; its id is its index in the table.
pub struct StackFrame {
    pub name: String,
    pub category: String,
    pub parent: Option<usize>,
}

/// The whole document: the events, and the stack frames indexed by id.
pub struct TraceEventData {
    pub trace_events: Vec<TraceEvent>,
    pub stack_frames: Vec<StackFrame>,
}

/// How a frame is named in the stack-frame tree: `name (file:line)`.
pub open spec fn display_name(f: Frame) -> Seq<char> {
    f.name@ + seq![' ', '('] + display_file(f) + seq![':'] + decimal(f.line as nat) + seq![')']
}

/// No two nodes share both parent and name, each parent comes before its
/// child, and every category is empty.
pub open spec fn tree_wf(t: Seq<StackFrame>) -> bool {
    &&& forall|i: int| 0 <= i < t.len() ==> (#[trigger] t[i]).category@.len() == 0
    &&& forall|i: int, j: int|
        0 <= i < j < t.len() ==> !(t[i].parent == t[j].parent && t[i].name@ == t[j].name@)
    &&& forall|i: int| 0 <= i < t.len() ==> ((#[trigger] t[i]).parent matches Some(p) ==> p < i)
}

/// The names from the root down to node `id`.
pub open spec fn path(t: Seq<StackFrame>, id: int) -> Seq<Seq<char>>
    decreases id,
    when 0 <= id
{
    if id < t.len() {
        match t[id].parent {
            Some(p) => if p < id {
                path(t, p as int).push(t[id].name@)
            } else {
                seq![t[id].name@]
            },
            None => seq![t[id].name@],
        }
    } else {
        seq![]
    }
}

/// The display names of a trace's frames, in capture order.
pub open spec fn display_names(fs: Seq<Frame>) -> Seq<Seq<char>> {
    fs.map_values(|f: Frame| display_name(f))
}

/// `e` is the instant event of `trace` at `ts` over the tree `t`: its leaf is
/// the node whose path is the trace's frames, or none for a trace without frames.
pub open spec fn event_of(e: TraceEvent, ts: u128, trace: StackTrace, t: Seq<StackFrame>) -> bool {
    &&& e.name@ == match trace.thread_name {
        Some(n) => n@,
        None => Seq::<char>::empty(),
    }
    &&& e.cat@.len() == 0
    &&& e.ph@ == seq!['i']
    &&& e.s@ == seq!['t']
    &&& e.ts == ts
    &&& e.pid == trace.pid
    &&& e.tid == match trace.os_thread_id {
        Some(os) => os,
        None => trace.pid as u64,
    }
    &&& if trace.frames@.len() == 0 {
        e.sf is None
    } else {
        e.sf matches Some(id) && id < t.len() && path(t, id as int) == display_names(trace.frames@)
    }
}

/// Each timestamp's traces paired with it, in order.
pub open spec fn flat_traces(v: Seq<(u128, Vec<StackTrace>)>) -> Seq<(u128, StackTrace)>
    decreases v.len(),
{
    if v.len() == 0 {
        seq![]
    } else {
        flat_traces(v.drop_last()) + v.last().1@.map_values(|t: StackTrace| (v.last().0, t))
    }
}

/// Node `id` lies on the lineage of one of `traces`: its path begins the
/// display names of that trace's frames.
pub open spec fn covered(t: Seq<StackFrame>, id: int, traces: Seq<(u128, StackTrace)>) -> bool {
    exists|k: int| 0 <= k < traces.len() && path(t, id).is_prefix_of(display_names(#[trigger] traces[k].1.frames@))
}

proof fn lemma_covered_grow(
    t0: Seq<StackFrame>,
    t1: Seq<StackFrame>,
    id: int,
    a: Seq<(u128, StackTrace)>,
    b: Seq<(u128, StackTrace)>,
)
    requires
        covered(t0, id, a),
        path(t1, id) == path(t0, id),
        a.len() <= b.len(),
        forall|k: int| 0 <= k < a.len() ==> a[k] == b[k],
    ensures
        covered(t1, id, b),
{
    let k = choose|k: int| 0 <= k < a.len() && path(t0, id).is_prefix_of(display_names(#[trigger] a[k].1.frames@));
    assert(b[k] == a[k]);
}

proof fn lemma_event_kept(e: TraceEvent, ts: u128, tr: StackTrace, t0: Seq<StackFrame>, t1: Seq<StackFrame>)
    requires
        event_of(e, ts, tr, t0),
        t0.len() <= t1.len(),
        forall|id: int| 0 <= id < t0.len() ==> path(t1, id) == path(t0, id),
    ensures
        event_of(e, ts, tr, t1),
{
    if let Some(id) = e.sf {
        if tr.frames@.len() > 0 {
            assert(path(t1, id as int) == path(t0, id as int));
        }
    }
}

proof fn lemma_path_push(t: Seq<StackFrame>, x: StackFrame, id: int)
    requires
        0 <= id < t.len(),
        tree_wf(t),
    ensures
        path(t.push(x), id) == path(t, id),
    decreases id,
{
    assert(t.push(x)[id] == t[id]);
    if let Some(p) = t[id].parent {
        lemma_path_push(t, x, p as int);
    }
}

fn display_string(f: &Frame) -> (r: String)
    ensures
        r@ == display_name(*f),
{
    proof {
        reveal_strlit(" (");
        reveal_strlit(":");
        reveal_strlit(")");
        assert(" ("@ =~= seq![' ', '(']);
        assert(":"@ =~= seq![':']);
        assert(")"@ =~= seq![')']);
    }
    let file: &String = match &f.short_filename {
        Some(s) => s,
        None => &f.filename,
    };
    let mut r = f.name.clone();
    r.append(" (");
    r.append(file.as_str());
    r.append(":");
    let d = decimal_text(f.line as u128);
    r.append(d.as_str());
    r.append(")");
    assert(r@ =~= display_name(*f));
    r
}

fn find_node(t: &Vec<StackFrame>, parent: Option<usize>, name: &String) -> (r: Option<usize>)
    ensures
        match r {
            Some(i) => i < t@.len() && t@[i as int].parent == parent && t@[i as int].name@ == name@,
            None => forall|i: int| 0 <= i < t@.len() ==> !(t@[i].parent == parent && t@[i].name@ == name@),
        },
{
    let mut i: usize = 0;
    while i < t.len()
        invariant
            i <= t@.len(),
            forall|k: int| 0 <= k < i ==> !(t@[k].parent == parent && t@[k].name@ == name@),
        decreases t.len() - i,
    {
        let same_parent = match (t[i].parent, parent) {
            (Some(a), Some(b)) => a == b,
            (None, None) => true,
            _ => false,
        };
        if same_parent && t[i].name == *name {
            return Some(i);
        }
        i += 1;
    }
    None
}

/// Walks the frames of `trace` through the tree, adding the nodes that are
/// missing, and returns the trace's instant event at `ts`. Nodes already in
/// the tree keep their ids.
pub fn trace_event(tree: &mut Vec<StackFrame>, ts: u128, trace: &StackTrace) -> (e: TraceEvent)
    requires
        tree_wf(old(tree)@),
    ensures
        tree_wf(final(tree)@),
        old(tree)@.is_prefix_of(final(tree)@),
        final(tree)@.len() <= old(tree)@.len() + trace.frames@.len(),
        forall|id: int| 0 <= id < old(tree)@.len() ==> path(final(tree)@, id) == path(old(tree)@, id),
        forall|id: int|
            old(tree)@.len() <= id < final(tree)@.len() ==> path(final(tree)@, id).is_prefix_of(
                display_names(trace.frames@),
            ),
        forall|a: int, b: int|
            old(tree)@.len() <= a < b < final(tree)@.len() ==> path(final(tree)@, a).len() < path(
                final(tree)@,
                b,
            ).len(),
        event_of(e, ts, *trace, final(tree)@),
{
    let ghost t0 = tree@;
    let ghost names = display_names(trace.frames@);
    let mut parent: Option<usize> = None;
    let mut k: usize = 0;
    while k < trace.frames.len()
        invariant
            k <= trace.frames@.len(),
            names == display_names(trace.frames@),
            t0 == old(tree)@,
            tree_wf(tree@),
            t0.is_prefix_of(tree@),
            tree@.len() <= t0.len() + k,
            forall|id: int| 0 <= id < t0.len() ==> path(tree@, id) == path(t0, id),
            forall|id: int| t0.len() <= id < tree@.len() ==> path(tree@, id).is_prefix_of(names),
            forall|id: int| t0.len() <= id < tree@.len() ==> path(tree@, id).len() <= k,
            forall|a: int, b: int| t0.len() <= a < b < tree@.len() ==> path(tree@, a).len() < path(tree@, b).len(),
            k == 0 ==> parent is None,
            k > 0 ==> (parent matches Some(p) && p < tree@.len() && path(tree@, p as int) == names.subrange(0, k as int)),
        decreases trace.frames.len() - k,
    {
        let name = display_string(&trace.frames[k]);
        let ghost prev = tree@;
        match find_node(tree, parent, &name) {
            Some(i) => {
                proof {
                    assert(names.subrange(0, k + 1) =~= names.subrange(0, k as int).push(names[k as int]));
                    if k == 0 {
                        assert(names.subrange(0, 1) =~= seq![names[0]]);
                    }
                }
                parent = Some(i);
            },
            None => {
                let node = StackFrame { name, category: String::new(), parent };
                let ghost x = node;
                tree.push(node);
                let i = tree.len() - 1;
                proof {
                    assert(tree@ =~= prev.push(x));
                    assert forall|id: int| 0 <= id < t0.len() implies path(tree@, id) == path(t0, id) by {
                        lemma_path_push(prev, x, id);
                    }
                    assert forall|id: int| t0.len() <= id < prev.len() implies path(tree@, id).is_prefix_of(names) by {
                        lemma_path_push(prev, x, id);
                    }
                    assert forall|id: int| t0.len() <= id < prev.len() implies path(tree@, id) == path(prev, id) by {
                        lemma_path_push(prev, x, id);
                    }
                    if let Some(p) = parent {
                        lemma_path_push(prev, x, p as int);
                    }
                    assert(names.subrange(0, k + 1) =~= names.subrange(0, k as int).push(names[k as int]));
                    if k == 0 {
                        assert(names.subrange(0, 1) =~= seq![names[0]]);
                    }
                    assert forall|a: int| 0 <= a < t0.len() implies t0[a] == tree@[a] by {
                        assert(t0[a] == prev.subrange(0, t0.len() as int)[a]);
                    }
                    assert(t0 =~= tree@.subrange(0, t0.len() as int));
                    assert(path(tree@, i as int) == names.subrange(0, k + 1));
                    assert(path(tree@, i as int).len() == k + 1);
                    assert forall|a: int, b: int| t0.len() <= a < b < tree@.len() implies path(tree@, a).len() < path(
                        tree@,
                        b,
                    ).len() by {
                        if b < prev.len() {
                            assert(path(tree@, a) == path(prev, a));
                            assert(path(tree@, b) == path(prev, b));
                        } else {
                            assert(path(tree@, a) == path(prev, a));
                        }
                    }
                }
                parent = Some(i);
            },
        }
        k += 1;
    }
    assert(names.subrange(0, trace.frames@.len() as int) =~= names);
    proof {
        reveal_strlit("i");
        reveal_strlit("t");
        assert("i"@ =~= seq!['i']);
        assert("t"@ =~= seq!['t']);
    }
    let name = match &trace.thread_name {
        Some(n) => n.clone(),
        None => String::new(),
    };
    let tid = match trace.os_thread_id {
        Some(os) => os,
        None => trace.pid as u64,
    };
    TraceEvent {
        name,
        cat: String::new(),
        ph: String::from_str("i"),
        ts,
        pid: trace.pid,
        tid,
        s: String::from_str("t"),
        sf: parent,
    }
}

/// Two nodes of a well-formed tree are one node exactly when they have the same
/// parent and the same name: a name under two different callers gets two ids,
/// and a name under one caller keeps one id.
pub proof fn lemma_lineage_interning(t: Seq<StackFrame>, a: int, b: int)
    requires
        tree_wf(t),
        0 <= a < t.len(),
        0 <= b < t.len(),
    ensures
        (a == b) <==> (t[a].parent == t[b].parent && t[a].name@ == t[b].name@),
{
}

impl TraceEvents {
    /// The trace-event document: one instant event per stack trace, in order,
    /// each pointing at the node of its lineage in one shared stack-frame tree.
    pub fn trace_event_data(&self) -> (d: TraceEventData)
        ensures
            tree_wf(d.stack_frames@),
            d.trace_events@.len() == flat_traces(self.0@).len(),
            forall|k: int|
                0 <= k < d.trace_events@.len() ==> event_of(
                    #[trigger] d.trace_events@[k],
                    flat_traces(self.0@)[k].0,
                    flat_traces(self.0@)[k].1,
                    d.stack_frames@,
                ),
            forall|id: int| 0 <= id < d.stack_frames@.len() ==> covered(d.stack_frames@, id, flat_traces(self.0@)),
    {
        let mut tree: Vec<StackFrame> = Vec::new();
        let mut events: Vec<TraceEvent> = Vec::new();
        let mut i: usize = 0;
        while i < self.0.len()
            invariant
                i <= self.0@.len(),
                tree_wf(tree@),
                events@.len() == flat_traces(self.0@.subrange(0, i as int)).len(),
                forall|k: int|
                    0 <= k < events@.len() ==> event_of(
                        #[trigger] events@[k],
                        flat_traces(self.0@.subrange(0, i as int))[k].0,
                        flat_traces(self.0@.subrange(0, i as int))[k].1,
                        tree@,
                    ),
                forall|id: int|
                    0 <= id < tree@.len() ==> covered(tree@, id, flat_traces(self.0@.subrange(0, i as int))),
            decreases self.0.len() - i,
        {
            let ghost done = flat_traces(self.0@.subrange(0, i as int));
            let ghost here = self.0@[i as int];
            let ghost tail = here.1@.map_values(|t: StackTrace| (here.0, t));
            assert(done + tail.subrange(0, 0) =~= done);
            let mut j: usize = 0;
            while j < self.0[i].1.len()
                invariant
                    i < self.0@.len(),
                    here == self.0@[i as int],
                    j <= here.1@.len(),
                    tree_wf(tree@),
                    events@.len() == done.len() + j,
                    forall|k: int|
                        0 <= k < done.len() ==> event_of(#[trigger] events@[k], done[k].0, done[k].1, tree@),
                    forall|m: int|
                        0 <= m < j ==> event_of(#[trigger] events@[done.len() + m], here.0, here.1@[m], tree@),
                    tail == here.1@.map_values(|t: StackTrace| (here.0, t)),
                    forall|id: int| 0 <= id < tree@.len() ==> covered(tree@, id, done + tail.subrange(0, j as int)),
                decreases here.1@.len() - j,
            {
                let ghost before = tree@;
                let ghost evs = events@;
                let e = trace_event(&mut tree, self.0[i].0, &self.0[i].1[j]);
                events.push(e);
                proof {
                    assert forall|k: int| 0 <= k < done.len() implies event_of(
                        #[trigger] events@[k],
                        done[k].0,
                        done[k].1,
                        tree@,
                    ) by {
                        assert(events@[k] == evs[k]);
                        lemma_event_kept(evs[k], done[k].0, done[k].1, before, tree@);
                    }
                    assert forall|m: int| 0 <= m < j + 1 implies event_of(
                        #[trigger] events@[done.len() + m],
                        here.0,
                        here.1@[m],
                        tree@,
                    ) by {
                        if m < j {
                            assert(events@[done.len() + m] == evs[done.len() + m]);
                            lemma_event_kept(evs[done.len() + m], here.0, here.1@[m], before, tree@);
                        }
                    }
                    let cur0 = done + tail.subrange(0, j as int);
                    let cur1 = done + tail.subrange(0, j + 1);
                    assert forall|id: int| 0 <= id < tree@.len() implies covered(tree@, id, cur1) by {
                        if id < before.len() {
                            assert forall|k: int| 0 <= k < cur0.len() implies cur0[k] == cur1[k] by {}
                            lemma_covered_grow(before, tree@, id, cur0, cur1);
                        } else {
                            let k = done.len() + j;
                            assert(cur1[k] == tail[j as int]);
                            assert(path(tree@, id).is_prefix_of(display_names(cur1[k].1.frames@)));
                        }
                    }
                }
                j += 1;
            }
            proof {
                let next = self.0@.subrange(0, i + 1);
                assert(next.drop_last() =~= self.0@.subrange(0, i as int));
                let tail = here.1@.map_values(|t: StackTrace| (here.0, t));
                assert(flat_traces(next) == done + tail);
                assert(tail.subrange(0, tail.len() as int) =~= tail);
                assert forall|k: int| 0 <= k < events@.len() implies event_of(
                    #[trigger] events@[k],
                    flat_traces(next)[k].0,
                    flat_traces(next)[k].1,
                    tree@,
                ) by {
                    if k < done.len() {
                        assert((done + tail)[k] == done[k]);
                    } else {
                        let m = k - done.len();
                        assert((done + tail)[k] == tail[m]);
                        assert(events@[done.len() + m] == events@[k]);
                    }
                }
            }
            i += 1;
        }
        assert(self.0@.subrange(0, self.0@.len() as int) =~= self.0@);
        TraceEventData { trace_events: events, stack_frames: tree }
    }
}

proof fn lemma_path_nonempty(t: Seq<StackFrame>, id: int)
    requires
        tree_wf(t),
        0 <= id < t.len(),
    ensures
        path(t, id).len() >= 1,
        path(t, id).last() == t[id].name@,
        t[id].parent is None ==> path(t, id).len() == 1,
        t[id].parent matches Some(p) ==> path(t, id).drop_last() == path(t, p as int),
    decreases id,
{
    assert(t[id].parent matches Some(p) ==> p < id);
    if let Some(p) = t[id].parent {
        lemma_path_nonempty(t, p as int);
        assert(path(t, id).drop_last() =~= path(t, p as int));
    }
}

/// In a well-formed tree a node is determined by its path: two nodes with the
/// same names from the root down are one node.
pub proof fn lemma_path_determines_node(t: Seq<StackFrame>, a: int, b: int)
    requires
        tree_wf(t),
        0 <= a < t.len(),
        0 <= b < t.len(),
        path(t, a) == path(t, b),
    ensures
        a == b,
    decreases a,
{
    lemma_path_nonempty(t, a);
    lemma_path_nonempty(t, b);
    assert(t[a].parent matches Some(p) ==> p < a);
    assert(t[b].parent matches Some(p) ==> p < b);
    match (t[a].parent, t[b].parent) {
        (Some(pa), Some(pb)) => {
            lemma_path_nonempty(t, pa as int);
            lemma_path_nonempty(t, pb as int);
            lemma_path_determines_node(t, pa as int, pb as int);
        },
        (None, Some(pb)) => {
            lemma_path_nonempty(t, pb as int);
        },
        (Some(pa), None) => {
            lemma_path_nonempty(t, pa as int);
        },
        (None, None) => {},
    }
    if a != b {
        if a < b {
            assert(!(t[a].parent == t[b].parent && t[a].name@ == t[b].name@));
        } else {
            assert(!(t[b].parent == t[a].parent && t[b].name@ == t[a].name@));
        }
    }
}

} // verus!
