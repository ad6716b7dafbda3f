use probing_rl::rollout::{RlPhaseSegment, RlRolloutView, RlSampleRow};
use probing_rl::sample_panel::{
    ordered_samples, segment_count, selected_rollout_index, selected_sample_index, slowest_sample,
};

fn sample(key: &str, start: i64, end: i64) -> RlSampleRow {
    RlSampleRow {
        sample_key: key.to_string(),
        label: key.to_string(),
        detail: String::new(),
        start,
        end,
        process_labels: String::new(),
        segments: Vec::new(),
    }
}

fn keys(samples: &[RlSampleRow]) -> Vec<&str> {
    samples.iter().map(|s| s.sample_key.as_str()).collect()
}

fn samples() -> Vec<RlSampleRow> {
    vec![sample("a", 10, 20), sample("b", 0, 40), sample("c", 5, 45), sample("d", 1, 11), sample("e", 30, 25)]
}

#[test]
fn samples_in_timeline_order() {
    let ordered = ordered_samples(samples(), false);
    assert_eq!(keys(&ordered), vec!["b", "d", "c", "a", "e"]);
}

#[test]
fn samples_slowest_first() {
    let ordered = ordered_samples(samples(), true);
    assert_eq!(keys(&ordered), vec!["b", "c", "d", "a", "e"]);
}

#[test]
fn slowest_is_the_last_of_equally_slow() {
    assert_eq!(slowest_sample(&samples()), Some(2));
    assert_eq!(slowest_sample(&Vec::new()), None);
}

#[test]
fn selection_falls_back_to_the_first() {
    let s = vec![sample("a", 0, 1), sample("b", 0, 1), sample("b", 2, 3)];
    assert_eq!(selected_sample_index(&s, "b"), Some(1));
    assert_eq!(selected_sample_index(&s, "zzz"), Some(0));
    assert_eq!(selected_sample_index(&Vec::new(), "a"), None);
    let rollouts = vec![
        RlRolloutView { rollout_id: "1".to_string(), start: 0, end: 1, samples: Vec::new() },
        RlRolloutView { rollout_id: "2".to_string(), start: 0, end: 1, samples: Vec::new() },
    ];
    assert_eq!(selected_rollout_index(&rollouts, "2"), Some(1));
    assert_eq!(selected_rollout_index(&rollouts, ""), Some(0));
}

fn segment(start: i64) -> RlPhaseSegment {
    RlPhaseSegment {
        name: "phase".to_string(),
        phase: "generate".to_string(),
        start,
        end: start + 1,
        process_label: String::new(),
        span_id: start,
        attributes: None,
        turn_id: None,
        env_step_id: None,
    }
}

#[test]
fn counts_segments() {
    let mut s = samples();
    assert_eq!(segment_count(&s), 0);
    s[0].segments = vec![segment(1), segment(2)];
    s[3].segments = vec![segment(3)];
    assert_eq!(segment_count(&s), 3);
}
