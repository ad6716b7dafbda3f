use probing_rl::chrome::{chrome_trace_records, ChromeRecord};
use probing_rl::display::{build_display_spans, DisplaySpan};
use probing_rl::frame::{span_ids_from_df, trace_events_from_df, trace_processes_from_df, DataFrame, Ele, FloatCell};
use probing_rl::inference::{
    chart_engine_ids, ele_i64, ele_str, engine_color, engine_color_map, metric_rows, series_color,
};
use probing_rl::local::{command_line, local_process_pids, local_query_error_message, local_socket_name};
use probing_rl::model::{SpanInfo, TraceEvent, TraceProcessInfo};
use probing_rl::options::{
    collect_function_options, collect_process_options, collect_process_options_checked, short_id, trace_process_label,
    worker_id_ok,
};
use probing_rl::order::TextPair;
use probing_rl::perfetto::{build_perfetto_records, perfetto_process_label, perfetto_track_label, PerfettoRecord};
use probing_rl::rollout::{build_rl_rollout_views, build_train_rollout_views, sample_duration_ns};
use probing_rl::summary::cross_process_link_summary_view;
use probing_rl::timeline::{build_timeline_spans, collect_batch_options, find_display_span};
use probing_rl::ui::{
    estimate_detail_panel_height, expanded_trace_fetch_limit, numeric_string_sort_key, rl_phase_bar_class,
    rl_phase_dot_class, RlViewMode,
};

fn span(id: i64, name: &str, start: i64, end: Option<i64>, attrs: &str) -> SpanInfo {
    SpanInfo {
        span_id: id,
        trace_id: 1,
        parent_id: None,
        name: name.to_string(),
        start_timestamp: start,
        end_timestamp: end,
        thread_id: 2,
        kind: None,
        location: None,
        attributes: if attrs.is_empty() { None } else { Some(attrs.to_string()) },
        children: Vec::new(),
        events: Vec::new(),
    }
}

fn shown(spans: Vec<SpanInfo>) -> Vec<DisplaySpan> {
    build_display_spans(spans)
}

#[test]
fn rollout_view_has_one_row_per_trajectory() {
    let a = "{\"rollout_id\":\"3\",\"trajectory_id\":\"t1\",\"phase\":\"inference\",\"process_role\":\"rollout\",\"pid\":\"5\",\"group_id\":\"g\",\"attempt\":\"0\",\"turn_id\":\"1\"}";
    let b = "{\"rollout_id\":\"3\",\"trajectory_id\":\"t1\",\"phase\":\"reward\",\"process_role\":\"reward\",\"pid\":\"6\"}";
    let c = "{\"rollout_id\":\"3\",\"sample_id\":\"s2\",\"phase\":\"env.step\"}";
    let d = "{\"rollout_id\":\"10\",\"group_id\":\"1\",\"group_index\":\"2\",\"sample_id\":\"q\"}";
    let e = "{\"step_id\":\"x\",\"sample_id\":\"s9\"}";
    let spans = shown(vec![
        span(1, "gen", 100, Some(200), a),
        span(2, "rew", 50, Some(300), b),
        span(3, "env", 10, Some(20), c),
        span(4, "other", 0, Some(5), d),
        span(5, "open", 0, None, a),
        span(6, "loose", 7, Some(8), e),
        span(7, "plain", 1, Some(2), ""),
    ]);
    let views = build_rl_rollout_views(&spans);
    assert_eq!(views.len(), 3);
    assert_eq!(views[0].rollout_id, "3");
    assert_eq!(views[1].rollout_id, "10");
    assert_eq!(views[2].rollout_id, "x");
    let r3 = &views[0];
    assert_eq!(r3.start, 10);
    assert_eq!(r3.end, 300);
    assert_eq!(r3.samples.len(), 2);
    assert_eq!(r3.samples[0].sample_key, "3:s2");
    assert_eq!(r3.samples[0].detail, "1 phases");
    assert_eq!(r3.samples[0].process_labels, "process:1");
    let t1 = &r3.samples[1];
    assert_eq!(t1.sample_key, "3:t1");
    assert_eq!(t1.label, "t1");
    assert_eq!(t1.detail, "group:g attempt:0 2 phases");
    assert_eq!((t1.start, t1.end), (50, 300));
    assert_eq!(t1.process_labels, "reward:6, rollout:5");
    assert_eq!(t1.segments.len(), 2);
    assert_eq!(t1.segments[0].phase, "reward");
    assert_eq!(t1.segments[1].phase, "inference");
    assert_eq!(t1.segments[1].turn_id, Some("1".to_string()));
    assert_eq!(t1.segments[1].env_step_id, None);
    assert_eq!(views[1].samples[0].sample_key, "10:r10-g1-i2");
    assert_eq!(views[1].samples[0].segments[0].phase, "other");
    assert_eq!(sample_duration_ns(t1), 250);
}

#[test]
fn train_view_has_one_row_per_batch() {
    let a = "{\"rollout_id\":1,\"train_step_id\":\"7\",\"batch_id\":\"b\",\"phase\":\"train.loss\",\"role\":\"actor\",\"rank\":\"0\"}";
    let b = "{\"rollout_id\":1,\"train_step_id\":\"7\",\"phase\":\"optimizer.step\",\"actor_role\":\"trainer\"}";
    let c = "{\"rollout_id\":1,\"batch_id\":\"z\",\"phase\":\"train.prepare\"}";
    let d = "{\"rollout_id\":1,\"phase\":\"train.loss\"}";
    let views = build_train_rollout_views(&shown(vec![
        span(1, "loss", 10, Some(20), a),
        span(2, "opt", 30, Some(35), b),
        span(3, "prep", 0, Some(4), c),
        span(4, "nokey", 0, Some(4), d),
    ]));
    assert_eq!(views.len(), 1);
    let r = &views[0];
    assert_eq!(r.rollout_id, "1");
    assert_eq!((r.start, r.end), (0, 35));
    assert_eq!(r.samples.len(), 2);
    assert_eq!(r.samples[0].sample_key, "1:z");
    assert_eq!(r.samples[0].label, "batch:z");
    assert_eq!(r.samples[1].sample_key, "1:7");
    assert_eq!(r.samples[1].label, "train_step:7 batch:b");
    assert_eq!(r.samples[1].detail, "role:actor rank:0 2 phases");
    assert_eq!(r.samples[1].segments[0].phase, "train.loss");
    assert_eq!(r.samples[1].segments[0].turn_id, None);
}

#[test]
fn timeline_rows_and_batches() {
    let mut root = span(1, "rollout.step", 100, Some(500), "");
    root.children = vec![span(2, "batch", 150, Some(140), ""), span(3, "work", 120, None, "")];
    let spans = shown(vec![root, span(4, "late", 50, Some(60), "")]);
    let rows = build_timeline_spans(&spans, 4, "");
    assert_eq!(rows.len(), 3);
    assert_eq!(rows[0].name, "late");
    assert_eq!(rows[1].name, "rollout.step");
    assert_eq!(rows[1].duration, 400);
    assert_eq!(rows[2].name, "batch");
    assert_eq!(rows[2].duration, 0);
    assert_eq!(rows[2].depth, 1);
    let shallow = build_timeline_spans(&spans, 1, "");
    assert_eq!(shallow.len(), 2);
    let key = spans[1].unique_key.clone();
    let only = build_timeline_spans(&spans, 4, &key);
    assert_eq!(only.len(), 2);
    assert!(build_timeline_spans(&spans, 4, "missing").is_empty());
    assert_eq!(find_display_span(&spans, &spans[1].children[0].unique_key).unwrap().name, "work");
    let batches = collect_batch_options(&spans);
    assert_eq!(batches.len(), 2);
    assert_eq!(batches[0].name, "rollout.step");
    assert_eq!(batches[1].name, "batch");
    assert_eq!(batches[1].duration, 0);
}

#[test]
fn perfetto_labels_and_records() {
    let a = "{\"rollout_id\":\"2\",\"trajectory_id\":\"t\"}";
    let b = "{\"rollout_id\":\"2\"}";
    let c = "{\"batch_id\":\"9\"}";
    let spans = shown(vec![
        span(1, "gen", 2_000, Some(5_000), a),
        span(2, "rollout.step", 1_000, Some(9_000), b),
        span(3, "train", 3_000, Some(4_000), c),
        span(4, "open", 0, None, ""),
    ]);
    assert_eq!(perfetto_process_label(&spans[1]), "rollout:2");
    assert_eq!(perfetto_track_label(&spans[2]), "rollout:2 / t");
    assert_eq!(perfetto_track_label(&spans[1]), "rollout:2 / control");
    assert_eq!(perfetto_track_label(&spans[3]), "train:9");
    assert_eq!(perfetto_track_label(&spans[0]), "process:1 / thread:2");
    let records = build_perfetto_records(&spans).unwrap();
    assert_eq!(records.len(), 2 + 3 + 3);
    match &records[0] {
        PerfettoRecord::ProcessName { pid, name } => assert_eq!((*pid, name.as_str()), (1, "process:1")),
        _ => panic!("expected a process name"),
    }
    match &records[1] {
        PerfettoRecord::ProcessName { pid, name } => assert_eq!((*pid, name.as_str()), (2, "rollout:2")),
        _ => panic!("expected a process name"),
    }
    match &records[2] {
        PerfettoRecord::ThreadName { pid, tid, name } => assert_eq!((*pid, *tid, name.as_str()), (1, 1, "train:9")),
        _ => panic!("expected a thread name"),
    }
    match &records[5] {
        PerfettoRecord::Span(s) => {
            assert_eq!(s.name, "rollout.step");
            assert_eq!((s.ts, s.dur, s.pid, s.tid), (0, 8, 2, 2));
            assert_eq!(s.track, "rollout:2 / control");
        },
        _ => panic!("expected a span"),
    }
    match &records[6] {
        PerfettoRecord::Span(s) => assert_eq!((s.name.as_str(), s.ts, s.dur, s.tid), ("gen", 1, 3, 3)),
        _ => panic!("expected a span"),
    }
    assert!(build_perfetto_records(&shown(vec![span(9, "open", 0, None, "")])).is_none());
}

#[test]
fn chrome_trace_records_pair_starts_and_ends() {
    let attrs = "{\"pid\":42,\"process_role\":\"driver\"}";
    let ev = |rt: &str, ts: i64| TraceEvent {
        record_type: rt.to_string(),
        trace_id: 9,
        span_id: 1,
        parent_id: None,
        name: "step".to_string(),
        timestamp: ts,
        thread_id: 3,
        kind: Some("rl.step".to_string()),
        location: Some("a.py:1".to_string()),
        attributes: Some(attrs.to_string()),
        event_attributes: None,
    };
    let records = chrome_trace_records(vec![ev("span_end", 5_000), ev("span_start", 1_000)]);
    assert_eq!(records.len(), 3);
    match &records[0] {
        ChromeRecord::ProcessName { pid, name } => assert_eq!((*pid, name.as_str()), (42, "driver:42")),
        _ => panic!("expected a process name"),
    }
    match &records[1] {
        ChromeRecord::Begin { name, cat, ts, pid, tid, location, attributes } => {
            assert_eq!((name.as_str(), cat.as_str(), *ts, *pid, *tid), ("step", "rl.step", 0, 42, 3));
            assert_eq!(location.as_deref(), Some("a.py:1"));
            assert_eq!(attributes.as_deref(), Some(attrs));
        },
        _ => panic!("expected a begin record"),
    }
    match &records[2] {
        ChromeRecord::End { name, ts, pid, dur, .. } => {
            assert_eq!((name.as_str(), *ts, *pid, *dur), ("step", 4, 42, Some(4)));
        },
        _ => panic!("expected an end record"),
    }
}

#[test]
fn link_summary_counts_orphans() {
    let parent = span(1, "rollout.step", 0, Some(10), "{\"rollout_id\":1,\"step_id\":1}");
    let mut parent = parent;
    parent.children = vec![span(2, "gen", 1, Some(2), "{\"rollout_id\":1,\"step_id\":1,\"actor_role\":\"rollout\"}")];
    let orphan = |id: i64, step: i64| {
        span(id, "gen", 3, Some(4), &format!("{{\"rollout_id\":2,\"step_id\":{step},\"actor_role\":\"rollout\"}}"))
    };
    let spans = shown(vec![parent, orphan(3, 5), orphan(4, 5), orphan(5, 6), orphan(6, 7), orphan(7, 8)]);
    let summary = cross_process_link_summary_view(&spans);
    assert_eq!(summary.linked, 1);
    assert_eq!(summary.orphan, 5);
    assert_eq!(summary.parents, 1);
    assert_eq!(summary.orphan_keys, "2/5:2, 2/6:1, 2/7:1");
}

#[test]
fn filter_options() {
    let discovered = vec![TraceProcessInfo {
        pid: 7,
        process_role: Some("trainer".to_string()),
        hostname: None,
        ray_worker_id: Some("0123456789abcdef".to_string()),
        ray_actor_id: None,
        ray_actor_name: Some("Trainer".to_string()),
    }];
    assert_eq!(trace_process_label(&discovered[0]), "trainer:7 | Trainer | worker:01234567");
    assert_eq!(short_id("abc"), "abc");
    let spans = shown(vec![
        span(1, "a", 0, None, "{\"pid\":\"7\",\"process_role\":\"other\"}"),
        span(2, "b", 1, None, "{\"pid\":\"8\",\"process_role\":\"rollout\"}"),
        span(3, "a", 2, None, "{\"pid\":\"9\",\"process_role\":\"driver\"}"),
    ]);
    let options = collect_process_options(&spans, &discovered);
    let labels: Vec<&str> = options.iter().map(|o| o.label.as_str()).collect();
    assert_eq!(labels, vec!["driver:9", "rollout:8", "trainer:7 | Trainer | worker:01234567"]);
    assert_eq!(options[0].filter_key, "pid:9");
    assert_eq!(collect_process_options_checked(&spans, &discovered).map(|o| o.len()), Some(3));
    assert!(worker_id_ok("abcdefgh-ijk"));
    assert!(worker_id_ok("abcdefé"));
    assert!(!worker_id_ok("abcdefgé-x"));
    assert!(!worker_id_ok("abcdefgé"));
    let bad = shown(vec![span(8, "w", 0, None, "{\"pid\":\"3\",\"ray_worker_id\":\"abcdefgé-x\"}")]);
    assert!(collect_process_options_checked(&bad, &Vec::new()).is_none());
    let no_pid = shown(vec![span(9, "w", 0, None, "{\"ray_worker_id\":\"abcdefgé-x\"}")]);
    assert_eq!(collect_process_options_checked(&no_pid, &Vec::new()).map(|o| o.len()), Some(0));
    let functions = collect_function_options(&spans);
    let f: Vec<(&str, &str)> = functions.iter().map(|o| (o.filter_key.as_str(), o.label.as_str())).collect();
    assert_eq!(f, vec![("a", "a (2)"), ("b", "b (1)")]);
}

#[test]
fn ui_rules() {
    assert_eq!(RlViewMode::Rollout.title(), "Rollout");
    assert_eq!(RlViewMode::Perfetto.internal_key(), "rollout-perfetto");
    assert!(RlViewMode::Rollout.shows_rollout_filter());
    assert!(!RlViewMode::Perfetto.shows_rollout_filter());
    assert!(RlViewMode::Perfetto.uses_rollout_filter());
    assert!(!RlViewMode::Train.uses_rollout_filter());
    assert_eq!(estimate_detail_panel_height(0), 120);
    assert_eq!(estimate_detail_panel_height(3), 240);
    assert_eq!(estimate_detail_panel_height(100), 1200);
    assert_eq!(expanded_trace_fetch_limit(10), 50);
    assert_eq!(expanded_trace_fetch_limit(5_000), 10_000);
    assert_eq!(expanded_trace_fetch_limit(20_000), 20_000);
    assert_eq!(expanded_trace_fetch_limit(usize::MAX), usize::MAX);
    assert_eq!(numeric_string_sort_key("12"), 12);
    assert_eq!(numeric_string_sort_key("-3"), -3);
    assert_eq!(numeric_string_sort_key("abc"), i64::MAX);
    assert_eq!(rl_phase_bar_class("inference"), "absolute top-1 bottom-1 rounded bg-blue-500");
    assert_eq!(rl_phase_bar_class("env.step"), "absolute top-1 bottom-1 rounded bg-amber-500");
    assert_eq!(rl_phase_dot_class("optimizer.step"), "h-2.5 w-2.5 flex-shrink-0 rounded-full bg-emerald-500");
    assert_eq!(rl_phase_dot_class("misc"), "h-2.5 w-2.5 flex-shrink-0 rounded-full bg-slate-500");
}

#[test]
fn local_process_helpers() {
    assert_eq!(local_socket_name(42), "\0probing-42");
    assert_eq!(local_query_error_message(3, "refused"), "Failed to query local pid 3: refused");
    assert_eq!(local_process_pids(&vec![(5, true), (3, true), (4, false), (5, true)]), vec![3, 5]);
    assert_eq!(command_line("python\0a.py\0", "py"), "python a.py");
    assert_eq!(command_line("", " bash\n"), "bash");
}

#[test]
fn metric_cells_are_coerced() {
    let float = Ele::F64(FloatCell { truncated: 0, text: "0.5".to_string() });
    assert_eq!(ele_i64(Some(&Ele::Text("99".to_string()))), Some(99));
    assert_eq!(ele_i64(Some(&Ele::Url("x".to_string()))), None);
    assert_eq!(ele_i64(Some(&Ele::DataTime(7))), Some(7));
    assert_eq!(ele_i64(Some(&Ele::DataTime(u64::MAX))), None);
    assert_eq!(ele_i64(Some(&float)), Some(0));
    assert_eq!(ele_i64(None), None);
    assert_eq!(ele_str(Some(&Ele::I64(42))), Some("42".to_string()));
    assert_eq!(ele_str(Some(&float)), Some("0.5".to_string()));
    assert_eq!(ele_str(Some(&Ele::Nil)), None);
}

#[test]
fn metric_rows_and_chart_series() {
    let df = DataFrame {
        names: vec![
            "timestamp_ns".to_string(),
            "engine_id".to_string(),
            "metric_name".to_string(),
            "metric_value".to_string(),
        ],
        cols: vec![
            vec![Ele::I64(1_000), Ele::I64(2_000), Ele::Text("bad".to_string())],
            vec![Ele::I64(0), Ele::Text("e1".to_string()), Ele::I64(0)],
            vec![
                Ele::Text("normalized.queue_depth".to_string()),
                Ele::Text("raw.x".to_string()),
                Ele::Text("normalized.ttft_ms".to_string()),
            ],
            vec![Ele::Text("1".to_string()), Ele::Text("2".to_string()), Ele::Text("3".to_string())],
        ],
    };
    let rows = metric_rows(&df);
    assert_eq!(rows.len(), 1);
    assert_eq!((rows[0].row, rows[0].timestamp_ns), (0, 1_000));
    assert_eq!(rows[0].engine_id, "0");
    let no_value = DataFrame { names: df.names[..3].to_vec(), cols: df.cols[..3].to_vec() };
    assert!(metric_rows(&no_value).is_empty());

    let colors = engine_color_map(vec!["b".to_string(), "a".to_string(), "b".to_string()]);
    assert_eq!(colors.len(), 2);
    assert_eq!((colors[0].engine_id.as_str(), colors[0].color.as_str()), ("a", "#2563eb"));
    assert_eq!((colors[1].engine_id.as_str(), colors[1].color.as_str()), ("b", "#dc2626"));
    assert_eq!(engine_color(&colors, "b"), "#dc2626");
    assert_eq!(engine_color(&colors, "zzz"), "#64748b");
    assert_eq!(series_color(7), "#dc2626");
    let pair = |m: &str, e: &str| TextPair { first: m.to_string(), second: e.to_string() };
    let keys = vec![pair("m", "z"), pair("n", "y"), pair("m", "a")];
    assert_eq!(chart_engine_ids(&keys, "m"), vec!["a", "z"]);
}

#[test]
fn query_results_become_events_ids_and_processes() {
    let df = DataFrame {
        names: vec!["span_id".to_string()],
        cols: vec![vec![Ele::I64(3), Ele::Text("4".to_string()), Ele::I32(-1), Ele::Nil]],
    };
    let ids = span_ids_from_df(&df);
    assert_eq!(ids, vec![3, 4, -1]);
    let procs = DataFrame {
        names: vec!["pid".to_string(), "process_role".to_string()],
        cols: vec![vec![Ele::I64(8), Ele::I64(2)], vec![Ele::Text("rollout".to_string()), Ele::Text("driver".to_string())]],
    };
    let p = trace_processes_from_df(&procs);
    assert_eq!(p.len(), 2);
    assert_eq!(p[0].pid, 2);
    assert_eq!(p[0].process_role, Some("driver".to_string()));
    let events = DataFrame {
        names: vec!["record_type".to_string(), "span_id".to_string(), "name".to_string()],
        cols: vec![
            vec![Ele::Text("span_start".to_string())],
            vec![Ele::I64(5)],
            vec![Ele::Text("n".to_string())],
        ],
    };
    let evs = trace_events_from_df(&events);
    assert_eq!(evs.len(), 1);
    assert_eq!(evs[0].record_type, "span_start");
    assert_eq!(evs[0].span_id, 5);
    assert_eq!(evs[0].name, "n");
}
