use probing_rl::client::{
    check_ray_timeline_response, join_strings, ray_timeline_chrome_path, ray_timeline_path, ray_timeline_query,
    timeline_outcome, ApiClient, TimelineError,
};
use probing_rl::inference::{normalized_metrics_query, raw_metrics_query};
use probing_rl::trace_api::{
    local_actor_name, local_process_role, span_ids_for_rollout_query, sql_string_literal, trace_events_for_span_ids_query,
    trace_events_query,
};

fn expected_trace_events_query(limit: Option<usize>) -> String {
    let limit_clause = if let Some(limit) = limit { format!("LIMIT {}", limit) } else { String::new() };
    format!(
        r#"
            SELECT
                record_type,
                trace_id,
                span_id,
                COALESCE(parent_id, -1) as parent_id,
                name,
                time as timestamp,
                COALESCE(thread_id, 0) as thread_id,
                kind,
                location,
                attributes,
                event_attributes
            FROM python.trace_event
            ORDER BY timestamp DESC
            {}
        "#,
        limit_clause
    )
}

#[test]
fn trace_events_query_with_and_without_limit() {
    assert_eq!(trace_events_query(Some(25)), expected_trace_events_query(Some(25)));
    assert_eq!(trace_events_query(None), expected_trace_events_query(None));
}

#[test]
fn sql_literal_doubles_quotes() {
    assert_eq!(sql_string_literal("abc"), "'abc'");
    assert_eq!(sql_string_literal("it's"), "'it''s'");
    assert_eq!(sql_string_literal(""), "''");
}

#[test]
fn span_ids_for_rollout_query_matches_all_attribute_spellings() {
    let id = "7";
    let lit = |s: String| format!("'{}'", s.replace('\'', "''"));
    let expected = format!(
        r#"
            SELECT DISTINCT span_id
            FROM python.trace_event
            WHERE record_type = 'span_start'
              AND (
                attributes LIKE {}
                OR attributes LIKE {}
                OR attributes LIKE {}
                OR attributes LIKE {}
                OR attributes LIKE {}
                OR attributes LIKE {}
                OR attributes LIKE {}
                OR attributes LIKE {}
              )
            ORDER BY span_id ASC
        "#,
        lit(format!("%\"rollout_id\":{},%", id)),
        lit(format!("%\"rollout_id\":{}}}%", id)),
        lit(format!("%\"rollout_id\": {},%", id)),
        lit(format!("%\"rollout_id\": {}}}%", id)),
        lit(format!("%\"rollout_id\":\"{}\",%", id)),
        lit(format!("%\"rollout_id\":\"{}\"}}%", id)),
        lit(format!("%\"rollout_id\": \"{}\",%", id)),
        lit(format!("%\"rollout_id\": \"{}\"}}%", id)),
    );
    assert_eq!(span_ids_for_rollout_query(id), expected);
    assert!(span_ids_for_rollout_query("a'b").contains("a''b"));
}

#[test]
fn trace_events_for_span_ids_lists_ids() {
    let q = trace_events_for_span_ids_query(&[3, -4, 5]);
    assert!(q.contains("WHERE span_id IN (3, -4, 5)\n            ORDER BY timestamp DESC\n        "));
    assert!(q.starts_with("\n            SELECT\n                record_type,"));
    let empty = trace_events_for_span_ids_query(&[]);
    assert!(empty.contains("WHERE span_id IN ()"));
}

#[test]
fn local_process_roles_and_actor_names() {
    assert_eq!(local_process_role("ray::RolloutManager.generate"), "rollout_actor");
    assert_eq!(local_process_role("ray::MegatronTrainRayActor.train"), "train_actor");
    assert_eq!(local_process_role("SGLangEngine x"), "sglang_engine");
    assert_eq!(local_process_role("ray::JobSupervisor"), "ray_job_supervisor");
    assert_eq!(local_process_role("ray::Lock"), "ray_lock");
    assert_eq!(local_process_role("python train_async.py"), "driver");
    assert_eq!(local_process_role("bash"), "process");
    assert_eq!(local_actor_name("x SGLangEngine y"), Some("ray::SGLangEngine".to_string()));
    assert_eq!(local_actor_name("RolloutManager.generate Lock"), Some("ray::RolloutManager.generate".to_string()));
    assert_eq!(local_actor_name("python"), None);
}

#[test]
fn inference_metric_queries() {
    assert_eq!(
        normalized_metrics_query(500),
        "SELECT timestamp_ns, engine_id, engine_type, metric_name, metric_value, labels \
         FROM python.inference_engine_metric \
         WHERE metric_name LIKE 'normalized.%' \
         ORDER BY timestamp_ns DESC LIMIT 500"
    );
    assert_eq!(
        raw_metrics_query(-3),
        "SELECT timestamp_ns, engine_id, engine_type, metric_name, metric_value, labels \
         FROM python.inference_engine_metric \
         WHERE metric_name NOT LIKE 'normalized.%' \
         ORDER BY timestamp_ns DESC LIMIT -3"
    );
}

#[test]
fn ray_timeline_query_encodes_filters() {
    assert_eq!(ray_timeline_query(None, None, None, None), "");
    assert_eq!(
        ray_timeline_query(Some("a b&c"), Some("actor/1"), Some(10), Some(-2)),
        "?task_filter=a%20b%26c&actor_filter=actor%2F1&start_time=10&end_time=-2"
    );
    assert_eq!(ray_timeline_query(None, None, Some(5), None), "?start_time=5");
    assert_eq!(ray_timeline_query(Some("é"), None, None, None), "?task_filter=%C3%A9");
    assert_eq!(ray_timeline_path(None, Some("x"), None, None), "/apis/python/ray/timeline?actor_filter=x");
    assert_eq!(ray_timeline_chrome_path(None, None, None, Some(1)), "/apis/python/ray/timeline/chrome?end_time=1");
}

#[test]
fn ray_timeline_response_is_checked() {
    let ok = check_ray_timeline_response("{\"traceEvents\":[]}".to_string());
    assert!(matches!(ok, Ok(ref s) if s == "{\"traceEvents\":[]}"));
    match check_ray_timeline_response("{\"error\":\"no ray\"}".to_string()) {
        Err(TimelineError::Backend(m)) => assert_eq!(m, "Backend error: \"no ray\""),
        _ => panic!("expected a backend error"),
    }
    match check_ray_timeline_response("{\"error\":{\"code\":1}}".to_string()) {
        Err(TimelineError::Backend(m)) => assert_eq!(m, "Backend error: {\"code\":1}"),
        _ => panic!("expected a backend error"),
    }
    assert!(matches!(check_ray_timeline_response("not json".to_string()), Err(TimelineError::Parse(_))));
}

#[test]
fn timeline_outcome_of_each_parse_result() {
    assert!(matches!(timeline_outcome("r".to_string(), Ok(None)), Ok(ref s) if s == "r"));
    match timeline_outcome("r".to_string(), Ok(Some("1".to_string()))) {
        Err(TimelineError::Backend(m)) => assert_eq!(m, "Backend error: 1"),
        _ => panic!("expected a backend error"),
    }
    match timeline_outcome("r".to_string(), Err("bad".to_string())) {
        Err(TimelineError::Parse(m)) => assert_eq!(m, "bad"),
        _ => panic!("expected a parse error"),
    }
}

#[test]
fn client_urls_and_joins() {
    let _client = ApiClient::new();
    assert_eq!(ApiClient::build_url("http://h:1", "/apis/x"), "http://h:1/apis/x");
    assert_eq!(join_strings(&vec!["a".to_string(), "b".to_string()], ", "), "a, b");
    assert_eq!(join_strings(&Vec::new(), ", "), "");
}
