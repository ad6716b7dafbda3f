use probing_rl::display::{build_display_spans, filter_display_spans, process_pid_from_attrs};
use probing_rl::fetch::{collect_span_process_pids, processes_to_fetch};
use probing_rl::linking::{link_cross_process_spans, logical_rollout_id, sort_span_tree, submit_link_key};
use probing_rl::model::{SpanInfo, TraceEvent, TraceProcessInfo};
use probing_rl::rl_contract::{
    attr_string, has_trajectory_identity, is_cross_process_child_candidate, is_rollout_worker_role,
    is_step_parent_span, is_train_phase_span, is_train_timeline_span, logical_step_key,
};
use probing_rl::span_tree::{
    build_span_tree_from_events, trace_event_process_pid, trace_event_process_pid_from_start, SpanProcessLookup,
    SpanStartEntry,
};
use probing_rl::trace_api::process_label;

fn event(record_type: &str, span_id: i64, parent: Option<i64>, name: &str, ts: i64, attrs: Option<&str>) -> TraceEvent {
    TraceEvent {
        record_type: record_type.to_string(),
        trace_id: 9,
        span_id,
        parent_id: parent,
        name: name.to_string(),
        timestamp: ts,
        thread_id: 1,
        kind: None,
        location: None,
        attributes: attrs.map(|a| a.to_string()),
        event_attributes: None,
    }
}

fn span(id: i64, name: &str, start: i64, end: Option<i64>, attrs: Option<&str>) -> SpanInfo {
    SpanInfo {
        span_id: id,
        trace_id: 1,
        parent_id: None,
        name: name.to_string(),
        start_timestamp: start,
        end_timestamp: end,
        thread_id: 1,
        kind: None,
        location: None,
        attributes: attrs.map(|a| a.to_string()),
        children: Vec::new(),
        events: Vec::new(),
    }
}

#[test]
fn attributes_are_read_as_text() {
    let attrs = Some("{\"a\":\"x\",\"n\":12,\"b\":true,\"o\":{}}".to_string());
    assert_eq!(attr_string(&attrs, "a"), Some("x".to_string()));
    assert_eq!(attr_string(&attrs, "n"), Some("12".to_string()));
    assert_eq!(attr_string(&attrs, "b"), Some("true".to_string()));
    assert_eq!(attr_string(&attrs, "o"), None);
    assert_eq!(attr_string(&attrs, "missing"), None);
    assert_eq!(attr_string(&Some("not json".to_string()), "a"), None);
    assert_eq!(attr_string(&None, "a"), None);
}

#[test]
fn rl_contract_rules() {
    assert!(has_trajectory_identity(&Some("{\"sample_id\":\"s\"}".to_string())));
    assert!(!has_trajectory_identity(&Some("{\"rollout_id\":1}".to_string())));
    assert!(is_step_parent_span("rollout.step", None));
    assert!(is_step_parent_span("x", Some("rl.step")));
    assert!(!is_step_parent_span("x", Some("rl.phase")));
    assert!(is_rollout_worker_role("rollout"));
    assert!(is_rollout_worker_role("sglang_rollout"));
    assert!(is_rollout_worker_role("my_rollout_worker_3"));
    assert!(!is_rollout_worker_role("trainer"));
    let attrs = Some("{\"actor_role\":\"trainer\"}".to_string());
    assert!(is_train_phase_span("x", "other", None, &attrs));
    assert!(is_train_phase_span("x", "train.loss", None, &None));
    assert!(!is_train_timeline_span("x", "train.loss", None, &None));
    assert!(is_train_timeline_span("x", "train.loss", None, &Some("{\"batch_id\":3}".to_string())));
}

#[test]
fn step_keys_and_submit_keys() {
    let s = span(1, "gen", 0, None, Some("{\"step_id\":4}"));
    let k = logical_step_key(&s).unwrap();
    assert_eq!((k.rollout_id.as_str(), k.step_id.as_str()), ("4", "4"));
    let s2 = span(1, "gen", 0, None, Some("{\"rollout_id\":\"-1\",\"step_id\":4}"));
    assert!(logical_step_key(&s2).is_none());
    let s3 = span(1, "w", 0, None, Some("{\"rollout_id\":2,\"submit_step_id\":5}"));
    let k3 = submit_link_key(&s3).unwrap();
    assert_eq!((k3.rollout_id.as_str(), k3.step_id.as_str()), ("2", "5"));
    assert_eq!(logical_rollout_id(&s3), Some("2".to_string()));
    let worker = span(2, "gen", 0, None, Some("{\"rollout_id\":1,\"step_id\":2,\"actor_role\":\"rollout\"}"));
    assert!(is_cross_process_child_candidate(&worker));
    let parent = span(2, "rollout.step", 0, None, Some("{\"rollout_id\":1,\"step_id\":2,\"actor_role\":\"rollout\"}"));
    assert!(!is_cross_process_child_candidate(&parent));
}

#[test]
fn process_pid_of_events() {
    let mut e = event("span_start", 1, None, "a", 0, Some("{\"pid\":42}"));
    assert_eq!(trace_event_process_pid(&e), 42);
    e.attributes = Some("{\"pid\":0}".to_string());
    assert_eq!(trace_event_process_pid(&e), 9);
    e.attributes = None;
    e.trace_id = -3;
    assert_eq!(trace_event_process_pid(&e), 1);

    let mut lookup = SpanProcessLookup::new();
    lookup.insert(SpanStartEntry { span_id: 5, thread_id: 1, trace_id: 9, pid: 77 });
    let end = event("span_end", 5, None, "a", 3, None);
    assert_eq!(trace_event_process_pid_from_start(&end, &lookup), 77);
    let mut other_thread = event("span_end", 5, None, "a", 3, None);
    other_thread.thread_id = 2;
    assert_eq!(trace_event_process_pid_from_start(&other_thread, &lookup), 77);
    let unknown = event("span_end", 6, None, "a", 3, None);
    assert_eq!(trace_event_process_pid_from_start(&unknown, &lookup), 9);
}

#[test]
fn span_tree_nests_children_and_events() {
    let mut point = event("event", 2, None, "tick", 15, None);
    point.event_attributes = Some("{\"k\":1}".to_string());
    let events = vec![
        event("span_end", 1, None, "root", 100, None),
        event("span_start", 1, None, "root", 0, None),
        event("span_start", 2, Some(1), "child", 10, None),
        point,
        event("span_end", 2, None, "child", 20, None),
        event("span_start", 3, Some(-1), "other", 50, None),
    ];
    let roots = build_span_tree_from_events(events);
    assert_eq!(roots.len(), 2);
    assert_eq!(roots[0].name, "root");
    assert_eq!(roots[0].end_timestamp, Some(100));
    assert_eq!(roots[0].children.len(), 1);
    let child = &roots[0].children[0];
    assert_eq!(child.name, "child");
    assert_eq!(child.end_timestamp, Some(20));
    assert_eq!(child.events.len(), 1);
    assert_eq!(child.events[0].name, "tick");
    assert_eq!(child.events[0].attributes, Some("{\"k\":1}".to_string()));
    assert_eq!(roots[1].name, "other");
    assert_eq!(roots[1].end_timestamp, None);
}

#[test]
fn span_tree_keeps_orphans_as_roots() {
    let events = vec![event("span_start", 4, Some(99), "lost", 5, None)];
    let roots = build_span_tree_from_events(events);
    assert_eq!(roots.len(), 1);
    assert_eq!(roots[0].name, "lost");
}

#[test]
fn sort_span_tree_orders_every_level() {
    let mut a = span(1, "a", 30, None, None);
    a.children = vec![span(3, "c2", 40, None, None), span(2, "c1", 35, None, None)];
    let b = span(4, "b", 10, None, None);
    let sorted = sort_span_tree(vec![a, b]);
    assert_eq!(sorted[0].name, "b");
    assert_eq!(sorted[1].name, "a");
    assert_eq!(sorted[1].children[0].name, "c1");
    assert_eq!(sorted[1].children[1].name, "c2");
}

#[test]
fn worker_spans_attach_to_their_step_parent() {
    let driver = span(1, "rollout.step", 0, Some(100), Some("{\"rollout_id\":1,\"step_id\":2}"));
    let worker = span(7, "gen", 10, Some(20), Some("{\"rollout_id\":1,\"step_id\":2,\"actor_role\":\"rollout\"}"));
    let other = span(8, "misc", 5, Some(6), None);
    let linked = link_cross_process_spans(vec![worker, other, driver]);
    assert_eq!(linked.len(), 2);
    assert_eq!(linked[0].name, "rollout.step");
    assert_eq!(linked[0].children.len(), 1);
    assert_eq!(linked[0].children[0].name, "gen");
    assert_eq!(linked[1].name, "misc");
}

#[test]
fn unmatched_worker_spans_stay_roots() {
    let worker = span(7, "gen", 10, Some(20), Some("{\"rollout_id\":1,\"step_id\":2,\"actor_role\":\"rollout\"}"));
    let linked = link_cross_process_spans(vec![worker]);
    assert_eq!(linked.len(), 1);
    assert_eq!(linked[0].name, "gen");
}

#[test]
fn worker_spans_attach_to_the_tightest_covering_parent() {
    let wide = span(1, "rollout.step", 0, Some(1000), Some("{\"rollout_id\":5,\"step_id\":1}"));
    let tight = span(2, "rollout.step", 100, Some(300), Some("{\"rollout_id\":6,\"step_id\":1}"));
    let worker = span(9, "gen", 150, Some(200), Some("{\"rollout_id\":9,\"step_id\":9,\"actor_role\":\"rollout\"}"));
    let linked = link_cross_process_spans(vec![wide, tight, worker]);
    assert_eq!(linked.len(), 2);
    assert_eq!(linked[1].name, "rollout.step");
    assert_eq!(linked[1].start_timestamp, 100);
    assert_eq!(linked[1].children.len(), 1);
    assert_eq!(linked[1].children[0].span_id, 9);
    assert!(linked[0].children.is_empty());
}

#[test]
fn display_spans_are_labelled_and_numbered() {
    let mut root = span(1, "step", 0, Some(10), Some("{\"process_role\":\"driver\",\"pid\":\"11\"}"));
    root.children = vec![span(2, "step", 5, None, None), span(3, "step", 2, None, None)];
    let shown = build_display_spans(vec![root]);
    assert_eq!(shown.len(), 1);
    assert_eq!(shown[0].display_id, "step#1");
    assert_eq!(shown[0].process_label, "driver:11");
    assert_eq!(shown[0].unique_key, "driver:11:1:1");
    assert_eq!(shown[0].children[0].span_id, 3);
    assert_eq!(shown[0].children[0].display_id, "step#2");
    assert_eq!(shown[0].children[0].process_label, "process:1");
    assert_eq!(shown[0].children[1].display_id, "step#3");
}

#[test]
fn display_spans_filter_by_process_and_name() {
    let mut root = span(1, "outer", 0, Some(10), Some("{\"pid\":\"11\"}"));
    root.children = vec![span(2, "inner", 1, None, Some("{\"pid\":\"12\"}"))];
    let shown = build_display_spans(vec![root]);
    let all = filter_display_spans(build_display_spans(vec![span(5, "x", 0, None, None)]), "", "");
    assert_eq!(all.len(), 1);
    let by_name = filter_display_spans(shown, "", "inner");
    assert_eq!(by_name.len(), 1);
    assert_eq!(by_name[0].name, "inner");
    assert_eq!(process_pid_from_attrs(&Some("{\"pid\":\"0\"}".to_string())), None);
    assert_eq!(process_pid_from_attrs(&Some("{\"pid\":12}".to_string())), Some("12".to_string()));
}

#[test]
fn process_labels() {
    assert_eq!(process_label(&Some("{\"process_role\":\"trainer\",\"pid\":5}".to_string()), 3), "trainer:5");
    assert_eq!(process_label(&Some("{\"pid\":\"\"}".to_string()), 3), "process:3");
    assert_eq!(process_label(&None, -2), "process:-2");
}

#[test]
fn processes_without_spans_are_fetched() {
    let mut root = span(1, "a", 0, None, Some("{\"pid\":\"11\"}"));
    root.children = vec![span(2, "b", 1, None, Some("{\"pid\":12}")), span(3, "c", 2, None, Some("{\"pid\":\"11\"}"))];
    let spans = vec![root, span(4, "d", 3, None, Some("{\"pid\":\"x\"}"))];
    assert_eq!(collect_span_process_pids(&spans), vec![11, 12]);
    let process = |pid: i32| TraceProcessInfo {
        pid,
        process_role: None,
        hostname: None,
        ray_worker_id: None,
        ray_actor_id: None,
        ray_actor_name: None,
    };
    let processes = vec![process(12), process(13), process(11), process(14)];
    assert_eq!(processes_to_fetch(&spans, &processes), vec![13, 14]);
}
