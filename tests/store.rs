use sample_recorder::interner::FrameTable;
use sample_recorder::recording::{annotate, record_sample, Config, Session};
use sample_recorder::signature::{clean_repr_text, frame_signature};
use sample_recorder::stack_trace::{Frame, LocalVariable, ProcessInfo, Sample, StackTrace};
use sample_recorder::timestamped_traces::{TimestampedTrace, TraceError};
use sample_recorder::trace_events::{trace_event, TraceEvents};
use sample_recorder::tseries::TimeSeries;

fn frame(name: &str, file: &str, line: u32) -> Frame {
    Frame {
        name: name.to_string(),
        filename: file.to_string(),
        module: None,
        short_filename: None,
        line,
        locals: None,
    }
}

fn trace(tid: Option<u64>, frames: Vec<Frame>) -> StackTrace {
    StackTrace {
        pid: 42,
        thread_id: 1,
        thread_name: None,
        os_thread_id: tid,
        active: true,
        owns_gil: true,
        frames,
        process_info: None,
    }
}

fn config(include_idle: bool, gil_only: bool, include_thread_ids: bool) -> Config {
    Config { filename: Some("out".to_string()), include_idle, gil_only, include_thread_ids }
}

fn json(s: &str) -> serde_json::Value {
    serde_json::from_str(s).unwrap()
}

#[test]
fn three_samples_one_thread() {
    let mut store = TimestampedTrace::new();
    for ts in [100u128, 200, 300] {
        let sample = Sample { traces: vec![trace(Some(7), vec![frame("run", "app.py", 10)])] };
        record_sample(&mut store, sample, &config(true, false, false), ts).unwrap();
    }
    assert_eq!(
        json(&store.write_traces()),
        json(r#"{"100": {"7": [1]}, "200": {"7": [1]}, "300": {"7": [1]}}"#)
    );
    assert_eq!(json(&store.write_frames()), json(r#"{"1": "run() (app.py:10)"}"#));
}

#[test]
fn repr_is_sanitized() {
    assert_eq!(clean_repr_text("\"foo\\\"bar\\\\n\""), "foobar");
    assert_eq!(clean_repr_text("'a'\\nb"), "ab");
}

#[test]
fn signature_forms() {
    let mut f = frame("go", "a.py", 3);
    f.locals = Some(vec![
        LocalVariable { name: "x".to_string(), repr: Some("'hi'".to_string()), arg: true },
        LocalVariable { name: "tmp".to_string(), repr: Some("1".to_string()), arg: false },
        LocalVariable { name: "y".to_string(), repr: None, arg: true },
    ]);
    assert_eq!(frame_signature(&f), "go(x: hi, y) (a.py:3)");
    f.short_filename = Some("s.py".to_string());
    f.line = 0;
    assert_eq!(frame_signature(&f), "go(x: hi, y) (s.py)");
    let bare = frame("main", "", 0);
    assert_eq!(frame_signature(&bare), "main");
}

#[test]
fn interning_is_stable() {
    let mut t = FrameTable::new();
    let a = t.intern("f() (a.py:1)".to_string());
    let b = t.intern("g() (a.py:2)".to_string());
    let a2 = t.intern("f() (a.py:1)".to_string());
    assert_eq!(a, 1);
    assert_eq!(b, 2);
    assert_eq!(a2, a);
    assert_eq!(t.len(), 2);
}

#[test]
fn add_appends_and_reuses_ids() {
    let mut store = TimestampedTrace::new();
    let t = trace(Some(3), vec![frame("a", "m.py", 1), frame("b", "m.py", 2), frame("a", "m.py", 1)]);
    store.add(5, &t).unwrap();
    store.add(5, &t).unwrap();
    assert_eq!(json(&store.write_traces()), json(r#"{"5": {"3": [1, 2, 1, 1, 2, 1]}}"#));
    assert_eq!(json(&store.write_frames()), json(r#"{"1": "a() (m.py:1)", "2": "b() (m.py:2)"}"#));
}

#[test]
fn add_without_thread_id_is_refused() {
    let mut store = TimestampedTrace::new();
    let t = trace(None, vec![frame("a", "m.py", 1)]);
    assert_eq!(store.add(5, &t), Err(TraceError::MissingThreadId));
    assert_eq!(store.write_traces(), "{}");
    assert_eq!(store.write_frames(), "{}");
}

#[test]
fn empty_trace_leaves_no_timestamp() {
    let mut store = TimestampedTrace::new();
    store.add(9, &trace(Some(1), vec![])).unwrap();
    store.add(10, &trace(Some(1), vec![frame("a", "m.py", 1)])).unwrap();
    assert_eq!(json(&store.write_traces()), json(r#"{"10": {"1": [1]}}"#));
}

#[test]
fn frames_document_escapes_text() {
    let mut store = TimestampedTrace::new();
    store.add(1, &trace(Some(1), vec![frame("q\"x", "", 0)])).unwrap();
    let doc = store.write_frames();
    assert_eq!(json(&doc)["1"], serde_json::Value::String("q\"x".to_string()));
}

#[test]
fn idle_and_lockless_traces_are_filtered() {
    let mut store = TimestampedTrace::new();
    let mut idle = trace(Some(1), vec![frame("a", "m.py", 1)]);
    idle.active = false;
    let mut lockless = trace(Some(2), vec![frame("b", "m.py", 2)]);
    lockless.owns_gil = false;
    let sample = Sample { traces: vec![idle, lockless] };
    record_sample(&mut store, sample, &config(false, true, false), 1).unwrap();
    assert_eq!(store.write_traces(), "{}");
    assert_eq!(store.frame_count(), 0);
}

#[test]
fn idle_kept_when_asked() {
    let mut store = TimestampedTrace::new();
    let mut idle = trace(Some(1), vec![frame("a", "m.py", 1)]);
    idle.active = false;
    record_sample(&mut store, Sample { traces: vec![idle] }, &config(true, false, false), 4).unwrap();
    assert_eq!(json(&store.write_traces()), json(r#"{"4": {"1": [1]}}"#));
}

#[test]
fn thread_and_process_frames_are_added() {
    let mut t = trace(Some(77), vec![frame("a", "m.py", 1)]);
    t.process_info = Some(Box::new(ProcessInfo {
        pid: 10,
        command_line: "child".to_string(),
        parent: Some(Box::new(ProcessInfo { pid: 1, command_line: "init".to_string(), parent: None })),
    }));
    annotate(&mut t, true);
    let names: Vec<&str> = t.frames.iter().map(|f| f.name.as_str()).collect();
    assert_eq!(names, vec!["a", "thread (77)", "process 10:\"child\"", "process 1:\"init\""]);
    assert_eq!(t.frames[1].line, 0);
    assert_eq!(t.frames[2].filename, "");
}

#[test]
fn recorded_sample_with_thread_ids() {
    let mut store = TimestampedTrace::new();
    let sample = Sample { traces: vec![trace(Some(7), vec![frame("run", "app.py", 10)])] };
    record_sample(&mut store, sample, &config(true, false, true), 100).unwrap();
    assert_eq!(json(&store.write_traces()), json(r#"{"100": {"7": [1, 2]}}"#));
    assert_eq!(
        json(&store.write_frames()),
        json(r#"{"1": "run() (app.py:10)", "2": "thread (7)"}"#)
    );
}

#[test]
fn samples_before_stop_are_kept() {
    let mut store = TimestampedTrace::new();
    let samples: Vec<u128> = vec![1, 2, 3, 4];
    let stop_after = 2;
    for (n, ts) in samples.into_iter().enumerate() {
        if n >= stop_after {
            break;
        }
        let sample = Sample { traces: vec![trace(Some(1), vec![frame("w", "w.py", 5)])] };
        record_sample(&mut store, sample, &config(true, false, false), ts).unwrap();
    }
    assert_eq!(json(&store.write_traces()), json(r#"{"1": {"1": [1]}, "2": {"1": [1]}}"#));
}

#[test]
fn chrome_frames_are_interned_by_lineage() {
    let mut tree = Vec::new();
    let t1 = trace(Some(1), vec![frame("main", "a.py", 1), frame("work", "a.py", 9)]);
    let t2 = trace(Some(1), vec![frame("other", "a.py", 2), frame("work", "a.py", 9)]);
    let e1 = trace_event(&mut tree, 10, &t1);
    let e2 = trace_event(&mut tree, 20, &t2);
    let e3 = trace_event(&mut tree, 30, &t1);
    assert_eq!(e1.sf, Some(1));
    assert_eq!(e2.sf, Some(3));
    assert_eq!(e3.sf, Some(1));
    assert_eq!(tree.len(), 4);
    assert_eq!(tree[1].name, "work (a.py:9)");
    assert_eq!(tree[1].parent, Some(0));
    assert_eq!(tree[3].parent, Some(2));
}

#[test]
fn chrome_events_carry_trace_fields() {
    let mut t = trace(None, vec![]);
    t.thread_name = Some("worker".to_string());
    let mut t2 = trace(Some(9), vec![frame("f", "b.py", 4)]);
    t2.frames[0].short_filename = Some("b.py".to_string());
    let events = TraceEvents(vec![(1500, vec![t, t2])]);
    let data = events.trace_event_data();
    assert_eq!(data.trace_events.len(), 2);
    let e = &data.trace_events[0];
    assert_eq!(e.name, "worker");
    assert_eq!(e.ph, "i");
    assert_eq!(e.s, "t");
    assert_eq!(e.cat, "");
    assert_eq!(e.ts, 1500);
    assert_eq!(e.tid, 42);
    assert_eq!(e.sf, None);
    assert_eq!(data.trace_events[1].tid, 9);
    assert_eq!(data.trace_events[1].sf, Some(0));
    assert_eq!(data.stack_frames[0].name, "f (b.py:4)");
}

#[test]
fn time_series_keeps_whole_traces() {
    let mut s = TimeSeries::new();
    s.add(1, trace(Some(1), vec![frame("a", "m.py", 1)]));
    s.add(2, trace(Some(2), vec![]));
    s.add(1, trace(None, vec![frame("b", "m.py", 2)]));
    let line = s.timeline();
    assert_eq!(line.len(), 2);
    assert_eq!(line[0].0, 1);
    assert_eq!(line[0].1.len(), 2);
    assert_eq!(line[0].1[1].frames[0].name, "b");
    assert_eq!(line[1].1[0].os_thread_id, Some(2));
}

#[test]
fn stopped_session_takes_no_more_samples() {
    let mut session = Session::new();
    let one = || Sample { traces: vec![trace(Some(1), vec![frame("w", "w.py", 5)])] };
    session.offer(true, one(), &config(true, false, false), 1).unwrap();
    session.offer(true, one(), &config(true, false, false), 2).unwrap();
    assert!(!session.stopped());
    session.offer(false, one(), &config(true, false, false), 3).unwrap();
    assert!(session.stopped());
    session.offer(true, one(), &config(true, false, false), 4).unwrap();
    assert!(session.stopped());
    assert_eq!(json(&session.store().write_traces()), json(r#"{"1": {"1": [1]}, "2": {"1": [1]}}"#));
}

#[test]
fn sanitized_repr_inside_signature() {
    let mut f = frame("f", "a.py", 1);
    f.locals = Some(vec![LocalVariable {
        name: "x".to_string(),
        repr: Some("\"foo\\\"bar\\\\n\"".to_string()),
        arg: true,
    }]);
    assert_eq!(frame_signature(&f), "f(x: foobar) (a.py:1)");
}

#[test]
fn documents_resolve_to_added_signatures() {
    let mut store = TimestampedTrace::new();
    let a = trace(Some(1), vec![frame("a", "m.py", 1), frame("b", "m.py", 2)]);
    let b = trace(Some(2), vec![frame("b", "m.py", 2), frame("c", "", 0)]);
    store.add(10, &a).unwrap();
    store.add(10, &b).unwrap();
    store.add(20, &a).unwrap();
    let traces = json(&store.write_traces());
    let frames = json(&store.write_frames());
    let resolve = |ts: &str, tid: &str| -> Vec<String> {
        traces[ts][tid]
            .as_array()
            .unwrap()
            .iter()
            .map(|id| frames[id.as_u64().unwrap().to_string()].as_str().unwrap().to_string())
            .collect()
    };
    assert_eq!(resolve("10", "1"), vec!["a() (m.py:1)", "b() (m.py:2)"]);
    assert_eq!(resolve("10", "2"), vec!["b() (m.py:2)", "c"]);
    assert_eq!(resolve("20", "1"), vec!["a() (m.py:1)", "b() (m.py:2)"]);
    assert_eq!(frames.as_object().unwrap().len(), 3);
    assert_eq!(traces.as_object().unwrap().len(), 2);
}

#[test]
fn chrome_document_shares_and_splits_nodes() {
    let a = frame("main", "m.py", 1);
    let b = frame("other", "m.py", 1);
    let c = frame("run", "app.py", 10);
    let tr1 = trace(Some(1), vec![a, frame("run", "app.py", 10)]);
    let tr2 = trace(Some(1), vec![b, c]);
    let data = TraceEvents(vec![(1000, vec![tr1, tr2])]).trace_event_data();
    assert_eq!(data.stack_frames.len(), 4);
    assert_eq!(data.trace_events.len(), 2);
    assert_eq!(data.trace_events[0].sf, Some(1));
    assert_eq!(data.trace_events[1].sf, Some(3));
    assert_eq!(data.stack_frames[0].name, "main (m.py:1)");
    assert_eq!(data.stack_frames[2].name, "other (m.py:1)");
    assert_eq!(data.stack_frames[1].parent, Some(0));
    assert_eq!(data.stack_frames[3].parent, Some(2));
    assert!(data.stack_frames.iter().all(|f| f.category.is_empty()));
}

#[test]
fn chrome_document_reuses_lineage_across_samples() {
    let make = || trace(Some(1), vec![frame("main", "m.py", 1), frame("run", "app.py", 10)]);
    let data = TraceEvents(vec![(1000, vec![make()]), (2000, vec![make()])]).trace_event_data();
    assert_eq!(data.stack_frames.len(), 2);
    assert_eq!(data.stack_frames[0].name, "main (m.py:1)");
    assert_eq!(data.stack_frames[0].parent, None);
    assert_eq!(data.stack_frames[1].name, "run (app.py:10)");
    assert_eq!(data.stack_frames[1].parent, Some(0));
    assert_eq!(data.trace_events[0].sf, Some(1));
    assert_eq!(data.trace_events[1].sf, Some(1));
    assert_eq!(data.trace_events[0].ts, 1000);
    assert_eq!(data.trace_events[1].ts, 2000);
}

#[test]
fn trace_without_thread_id_is_skipped_without_error() {
    let mut store = TimestampedTrace::new();
    let sample = Sample { traces: vec![trace(None, vec![frame("a", "m.py", 1)])] };
    assert_eq!(record_sample(&mut store, sample, &config(true, false, false), 1), Ok(()));
    assert_eq!(store.write_traces(), "{}");
    assert_eq!(store.write_frames(), "{}");
}

#[test]
fn new_time_series_has_empty_timeline() {
    let s = TimeSeries::new();
    assert!(s.timeline().is_empty());
}
