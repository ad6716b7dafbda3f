use probing_rl::display::{build_display_spans, filter_display_spans, DisplaySpan};
use probing_rl::linking::link_cross_process_spans;
use probing_rl::model::{Process, SpanInfo, TraceProcessInfo};
use probing_rl::rollout::build_rl_rollout_views;
use probing_rl::trace_api::merge_local_processes;

fn span(id: i64, name: &str, start: i64, end: Option<i64>, attrs: &str) -> SpanInfo {
    SpanInfo {
        span_id: id,
        trace_id: 1,
        parent_id: None,
        name: name.to_string(),
        start_timestamp: start,
        end_timestamp: end,
        thread_id: 1,
        kind: None,
        location: None,
        attributes: if attrs.is_empty() { None } else { Some(attrs.to_string()) },
        children: Vec::new(),
        events: Vec::new(),
    }
}

fn count_spans(spans: &[SpanInfo]) -> usize {
    spans.iter().map(|s| 1 + count_spans(&s.children)).sum()
}

fn count_display(spans: &[DisplaySpan]) -> usize {
    spans.iter().map(|s| 1 + count_display(&s.children)).sum()
}

fn sample_spans() -> Vec<SpanInfo> {
    let traj = |id: i64, r: &str, t: &str, start: i64, end: i64| {
        span(id, "phase", start, Some(end), &format!("{{\"rollout_id\":\"{r}\",\"trajectory_id\":\"{t}\",\"step_id\":\"1\",\"actor_role\":\"rollout\"}}"))
    };
    let mut parent = span(1, "rollout.step", 0, Some(1_000), "{\"rollout_id\":\"2\",\"step_id\":\"1\"}");
    parent.children = vec![traj(2, "2", "a", 300, 400)];
    vec![
        parent,
        traj(3, "2", "b", 50, 60),
        traj(4, "2", "a", 10, 20),
        traj(5, "1", "a", 500, 900),
        traj(6, "10", "z", 5, 6),
        traj(7, "2", "b", 700, 800),
    ]
}

#[test]
fn linking_keeps_every_span() {
    let spans = sample_spans();
    let before = count_spans(&spans);
    let linked = link_cross_process_spans(spans);
    assert_eq!(count_spans(&linked), before);
    for pair in linked.windows(2) {
        assert!(pair[0].start_timestamp <= pair[1].start_timestamp);
    }
}

#[test]
fn rollout_view_shows_each_sample_once_in_order() {
    let shown = build_display_spans(link_cross_process_spans(sample_spans()));
    let views = build_rl_rollout_views(&shown);
    let ids: Vec<&str> = views.iter().map(|v| v.rollout_id.as_str()).collect();
    assert_eq!(ids, vec!["1", "2", "10"]);
    let mut keys: Vec<String> = views.iter().flat_map(|v| v.samples.iter().map(|s| s.sample_key.clone())).collect();
    keys.sort();
    assert_eq!(keys, vec!["10:z", "1:a", "2:a", "2:b"]);
    for v in &views {
        for pair in v.samples.windows(2) {
            assert!(pair[0].start <= pair[1].start);
        }
        for s in &v.samples {
            assert!(v.start <= s.start && s.end <= v.end);
            for pair in s.segments.windows(2) {
                assert!(pair[0].start <= pair[1].start);
            }
        }
    }
    let two = &views[1];
    assert_eq!((two.start, two.end), (10, 800));
    assert_eq!(two.samples[0].sample_key, "2:a");
    assert_eq!(two.samples[0].segments.len(), 2);
}

#[test]
fn no_filter_keeps_every_span() {
    let shown = build_display_spans(sample_spans());
    let total = count_display(&shown);
    let all = filter_display_spans(build_display_spans(sample_spans()), "", "");
    assert_eq!(count_display(&all), total);
    let all2 = filter_display_spans(shown, "all", "");
    assert_eq!(count_display(&all2), total);
}

#[test]
fn merging_lists_each_process_once() {
    let known = TraceProcessInfo {
        pid: 4,
        process_role: Some("driver".to_string()),
        hostname: None,
        ray_worker_id: None,
        ray_actor_id: None,
        ray_actor_name: None,
    };
    let mut processes = vec![known];
    let local = |pid: i32, cmd: &str| Process { pid, cmd: cmd.to_string() };
    merge_local_processes(
        &mut processes,
        vec![local(4, "x"), local(5, "ray::SGLangEngine"), local(0, "y"), local(5, "z"), local(-2, "w"), local(6, "python train_async.py")],
    );
    let pids: Vec<i32> = processes.iter().map(|p| p.pid).collect();
    assert_eq!(pids, vec![4, 5, 6]);
    assert_eq!(processes[1].process_role, Some("sglang_engine".to_string()));
    assert_eq!(processes[1].ray_actor_name, Some("ray::SGLangEngine".to_string()));
    assert_eq!(processes[2].process_role, Some("driver".to_string()));
    assert_eq!(processes[2].ray_actor_name, None);
}

fn find<'a>(spans: &'a [SpanInfo], id: i64) -> Option<&'a SpanInfo> {
    for s in spans {
        if s.span_id == id {
            return Some(s);
        }
        if let Some(f) = find(&s.children, id) {
            return Some(f);
        }
    }
    None
}

fn child_ids(span: &SpanInfo) -> Vec<i64> {
    span.children.iter().map(|c| c.span_id).collect()
}

#[test]
fn linking_puts_worker_under_its_step_parent() {
    let step = span(1, "rollout.step", 0, Some(1_000), "{\"rollout_id\":\"2\",\"step_id\":\"1\"}");
    let mut worker_root = span(10, "worker.main", 0, Some(2_000), "");
    worker_root.children = vec![span(
        11,
        "generate",
        100,
        Some(200),
        "{\"rollout_id\":\"2\",\"step_id\":\"1\",\"actor_role\":\"rollout\"}",
    )];
    let linked = link_cross_process_spans(vec![step, worker_root]);
    assert_eq!(linked.len(), 2);
    assert_eq!(child_ids(find(&linked, 1).unwrap()), vec![11]);
    assert!(find(&linked, 10).unwrap().children.is_empty());
}

#[test]
fn linking_leaves_worker_without_parent_at_the_root() {
    let other = span(1, "rollout.step", 0, Some(50), "{\"rollout_id\":\"7\",\"step_id\":\"3\"}");
    let worker = span(
        11,
        "generate",
        100,
        Some(200),
        "{\"rollout_id\":\"2\",\"step_id\":\"1\",\"actor_role\":\"rollout\"}",
    );
    let linked = link_cross_process_spans(vec![worker, other]);
    let roots: Vec<i64> = linked.iter().map(|s| s.span_id).collect();
    assert_eq!(roots, vec![1, 11]);
    assert!(linked[0].children.is_empty());
}

#[test]
fn linking_adds_no_link_to_spans_that_are_not_candidates() {
    let step = span(1, "rollout.step", 0, Some(1_000), "{\"rollout_id\":\"2\",\"step_id\":\"1\"}");
    let plain = span(5, "plain", 10, Some(20), "{\"rollout_id\":\"2\",\"step_id\":\"1\"}");
    let linked = link_cross_process_spans(vec![plain, step]);
    assert_eq!(linked.len(), 2);
    assert!(find(&linked, 1).unwrap().children.is_empty());
}
