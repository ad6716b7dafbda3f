use probing_rl::display::{build_display_spans, filter_display_spans, DisplaySpan};
use probing_rl::model::{SpanInfo, TraceProcessInfo};
use probing_rl::sample_panel::rollout_window;
use probing_rl::span_detail::{attribute_text, AttributeText};
use probing_rl::span_load::{finish_load, on_process_tree, on_processes, on_tree, start_load, SpanFetch};
use probing_rl::timeline::{collect_batch_options, select_batch};
use probing_rl::trace_api::events_query_for_span_ids;

fn span(id: i64, name: &str, start: i64, end: Option<i64>, attrs: Option<&str>) -> SpanInfo {
    SpanInfo {
        span_id: id,
        trace_id: 1,
        parent_id: None,
        name: name.to_string(),
        start_timestamp: start,
        end_timestamp: end,
        thread_id: 1,
        kind: None,
        location: None,
        attributes: attrs.map(|a| a.to_string()),
        children: Vec::new(),
        events: Vec::new(),
    }
}

fn process(pid: i32) -> TraceProcessInfo {
    TraceProcessInfo {
        pid,
        process_role: None,
        hostname: None,
        ray_worker_id: None,
        ray_actor_id: None,
        ray_actor_name: None,
    }
}

fn shape(spans: &[DisplaySpan]) -> String {
    spans
        .iter()
        .map(|s| if s.children.is_empty() { s.name.clone() } else { format!("{}({})", s.name, shape(&s.children)) })
        .collect::<Vec<_>>()
        .join(" ")
}

#[test]
fn filtering_keeps_the_tree_of_kept_spans() {
    let mut a = span(1, "f", 0, Some(100), None);
    let mut b = span(2, "g", 1, Some(50), None);
    b.children = vec![span(3, "f", 2, Some(3), None), span(4, "f", 4, Some(5), None)];
    let mut c = span(5, "f", 60, Some(70), None);
    c.children = vec![span(6, "f", 61, Some(62), None)];
    a.children = vec![b, c];
    let shown = build_display_spans(vec![a]);
    let kept = filter_display_spans(shown, "", "f");
    assert_eq!(shape(&kept), "f(f f f(f))");
}

#[test]
fn rollout_lookup_stops_without_span_ids() {
    assert_eq!(events_query_for_span_ids(&Vec::new()), None);
    assert!(events_query_for_span_ids(&vec![7]).unwrap().contains("IN (7)"));
}

#[test]
fn batch_choice_falls_back_to_all_batches() {
    let mut step = span(1, "train.step", 0, Some(10), None);
    step.children = vec![span(2, "batch", 1, Some(5), None)];
    let shown = build_display_spans(vec![step]);
    let options = collect_batch_options(&shown);
    assert_eq!(options.len(), 2);
    let key = options[1].unique_key.clone();
    let label = options[1].display_id.clone();
    assert_eq!(select_batch(&options, &key), (key.clone(), label));
    assert_eq!(select_batch(&options, "gone"), (String::new(), "All batches".to_string()));
}

#[test]
fn window_is_at_least_one() {
    assert_eq!(rollout_window(10, 30), 20);
    assert_eq!(rollout_window(10, 10), 1);
    assert_eq!(rollout_window(10, 5), 1);
}

#[test]
fn loader_fetches_unnamed_processes_and_skips_failures() {
    let (state, first) = start_load(100, "");
    assert!(matches!(first, SpanFetch::Processes));
    let (state, tree) = on_processes(state, Some(vec![process(5), process(6), process(7)]));
    assert!(matches!(tree, SpanFetch::Tree { limit: 500 }));
    let root = span(1, "root", 0, Some(10), Some("{\"pid\":\"5\"}"));
    let (state, next) = on_tree(state, vec![root]);
    assert!(matches!(next, Some(SpanFetch::PidTree { pid: 6, limit: 500 })));
    let (state, next) = on_process_tree(state, None);
    assert!(matches!(next, Some(SpanFetch::PidTree { pid: 7, .. })));
    let (state, next) = on_process_tree(state, Some(vec![span(2, "more", 5, Some(6), Some("{\"pid\":\"7\"}"))]));
    assert!(next.is_none());
    let (processes, spans) = finish_load(state);
    assert_eq!(processes.len(), 3);
    assert_eq!(spans.len(), 2);
}

#[test]
fn loader_asks_for_the_rollout() {
    let (state, _) = start_load(100, "r1");
    let (_, tree) = on_processes(state, None);
    match tree {
        SpanFetch::TreeForRollout { rollout_id } => assert_eq!(rollout_id, "r1"),
        _ => panic!("expected the rollout's tree"),
    }
}

#[test]
fn attribute_block_of_a_span() {
    match attribute_text(&Some("{\"b\":1,\"a\":\"x\",\"c\":null}".to_string())) {
        AttributeText::Entries(e) => {
            let mut e = e;
            e.sort();
            assert_eq!(
                e,
                vec![
                    ("a".to_string(), "x".to_string()),
                    ("b".to_string(), "1".to_string()),
                    ("c".to_string(), "null".to_string())
                ]
            );
        }
        _ => panic!("expected entries"),
    }
    assert!(matches!(attribute_text(&Some("[1]".to_string())), AttributeText::Raw(_)));
    assert!(matches!(attribute_text(&Some(String::new())), AttributeText::Nothing));
    assert!(matches!(attribute_text(&None), AttributeText::Nothing));
}
