//! Small rules of the RL views: the view modes, fetch limits, panel sizes,
//! phase colours and rollout ordering.

use vstd::prelude::*;
use crate::text::{parse_i64, parse_i64_spec, seq_contains, str_contains};

verus! {

/// RL observability view selected from the sidebar route.
#[derive(Clone, Copy, PartialEq, Eq, Debug)]
pub enum RlViewMode {
    Rollout,
    Train,
    Spans,
    ProcessTimeline,
    Perfetto,
}

impl RlViewMode {
    /// The heading of the view.
    pub fn title(self) -> (r: &'static str)
        ensures
            r@ == match self {
                RlViewMode::Rollout => "Rollout"@,
                RlViewMode::Train => "Train"@,
                RlViewMode::Spans => "Spans"@,
                RlViewMode::ProcessTimeline => "Process Timeline"@,
                RlViewMode::Perfetto => "Perfetto"@,
            },
    {
        match self {
            RlViewMode::Rollout => "Rollout",
            RlViewMode::Train => "Train",
            RlViewMode::Spans => "Spans",
            RlViewMode::ProcessTimeline => "Process Timeline",
            RlViewMode::Perfetto => "Perfetto",
        }
    }

    /// The line under the heading.
    pub fn subtitle(self) -> (r: &'static str)
        ensures
            r@ == match self {
                RlViewMode::Rollout => "Per-trajectory phase timing across rollout workers"@,
                RlViewMode::Train => "Training batch phases keyed by train step"@,
                RlViewMode::Spans => "Distributed span hierarchy with cross-process linking"@,
                RlViewMode::ProcessTimeline => "Per-process span timing and batch drill-down"@,
                RlViewMode::Perfetto => "Chrome trace export for the loaded span set"@,
            },
    {
        match self {
            RlViewMode::Rollout => "Per-trajectory phase timing across rollout workers",
            RlViewMode::Train => "Training batch phases keyed by train step",
            RlViewMode::Spans => "Distributed span hierarchy with cross-process linking",
            RlViewMode::ProcessTimeline => "Per-process span timing and batch drill-down",
            RlViewMode::Perfetto => "Chrome trace export for the loaded span set",
        }
    }

    /// The key the view's state is stored under.
    pub fn internal_key(self) -> (r: &'static str)
        ensures
            r@ == match self {
                RlViewMode::Rollout => "rl"@,
                RlViewMode::Train => "train"@,
                RlViewMode::Spans => "tree"@,
                RlViewMode::ProcessTimeline => "profiling"@,
                RlViewMode::Perfetto => "rollout-perfetto"@,
            },
    {
        match self {
            RlViewMode::Rollout => "rl",
            RlViewMode::Train => "train",
            RlViewMode::Spans => "tree",
            RlViewMode::ProcessTimeline => "profiling",
            RlViewMode::Perfetto => "rollout-perfetto",
        }
    }

    /// Whether the view shows the rollout filter box.
    pub fn shows_rollout_filter(self) -> (r: bool)
        ensures
            r == (self == RlViewMode::Rollout),
    {
        match self {
            RlViewMode::Rollout => true,
            _ => false,
        }
    }

    /// Whether the view narrows its data to the rollout filter.
    pub fn uses_rollout_filter(self) -> (r: bool)
        ensures
            r == (self == RlViewMode::Rollout || self == RlViewMode::Perfetto),
    {
        match self {
            RlViewMode::Rollout | RlViewMode::Perfetto => true,
            _ => false,
        }
    }
}

/// Default height of the pinned detail panel (px).
pub const RL_DETAIL_PANEL_HEIGHT_DEFAULT: u32 = 256;

/// Smallest height of the pinned detail panel (px).
pub const RL_DETAIL_PANEL_HEIGHT_MIN: u32 = 120;

/// Largest height of the pinned detail panel (px).
pub const RL_DETAIL_PANEL_HEIGHT_MAX: u32 = 1200;

/// The panel height for `segment_count` phase rows: 108 px plus 44 px per
/// row (the count taken as a `u32`), kept within the panel's bounds.
pub open spec fn panel_height_spec(segment_count: usize) -> int {
    let estimated = 108 + (segment_count as u32) * 44;
    let sat = if estimated > u32::MAX { u32::MAX as int } else { estimated };
    if sat < 120 {
        120
    } else if sat > 1200 {
        1200
    } else {
        sat
    }
}

/// The height of the pinned detail panel for `segment_count` phase rows.
pub fn estimate_detail_panel_height(segment_count: usize) -> (r: u32)
    requires
        (segment_count as u32) * 44 <= u32::MAX,
    ensures
        r == panel_height_spec(segment_count),
{
    let rows = segment_count as u32;
    let estimated = 108u32.saturating_add(rows * 44);
    let at_least = if estimated < RL_DETAIL_PANEL_HEIGHT_MIN { RL_DETAIL_PANEL_HEIGHT_MIN } else { estimated };
    if at_least > RL_DETAIL_PANEL_HEIGHT_MAX {
        RL_DETAIL_PANEL_HEIGHT_MAX
    } else {
        at_least
    }
}

/// How many trace records to fetch for a view of `limit` spans: five times
/// as many, at most 10 000, and never fewer than `limit`.
pub open spec fn fetch_limit_spec(limit: usize) -> int {
    let times = if limit * 5 > usize::MAX { usize::MAX as int } else { limit * 5 };
    let capped = if times > 10_000 { 10_000 } else { times };
    if capped < limit {
        limit as int
    } else {
        capped
    }
}

/// How many trace records to fetch for a view of `limit` spans.
pub fn expanded_trace_fetch_limit(limit: usize) -> (r: usize)
    ensures
        r == fetch_limit_spec(limit),
{
    let times = if limit <= usize::MAX / 5 {
        assert(limit * 5 <= usize::MAX) by (nonlinear_arith)
            requires
                limit <= usize::MAX / 5,
        ;
        limit * 5
    } else {
        assert(limit * 5 > usize::MAX) by (nonlinear_arith)
            requires
                limit > usize::MAX / 5,
        ;
        usize::MAX
    };
    let capped = if times > 10_000 { 10_000 } else { times };
    if capped < limit {
        limit
    } else {
        capped
    }
}

/// The ordering key of a rollout id: its value as a number, or `i64::MAX`
/// when it is not one.
pub open spec fn numeric_sort_key_spec(value: Seq<char>) -> i64 {
    match parse_i64_spec(value) {
        Some(v) => v,
        None => i64::MAX,
    }
}

/// The ordering key of a rollout id.
pub fn numeric_string_sort_key(value: &str) -> (r: i64)
    ensures
        r == numeric_sort_key_spec(value@),
{
    match parse_i64(value) {
        Some(v) => v,
        None => i64::MAX,
    }
}

/// The colour family of a phase: inference/generation, environment, tool,
/// reward, training/optimizer, or other.
pub open spec fn phase_family(phase: Seq<char>) -> u8 {
    if seq_contains(phase, "inference"@) || seq_contains(phase, "generate"@) {
        0
    } else if seq_contains(phase, "env"@) {
        1
    } else if seq_contains(phase, "tool"@) {
        2
    } else if seq_contains(phase, "reward"@) {
        3
    } else if seq_contains(phase, "train"@) || seq_contains(phase, "optimizer"@) {
        4
    } else {
        5
    }
}

fn phase_family_of(phase: &str) -> (r: u8)
    ensures
        r == phase_family(phase@),
{
    if str_contains(phase, "inference") || str_contains(phase, "generate") {
        0
    } else if str_contains(phase, "env") {
        1
    } else if str_contains(phase, "tool") {
        2
    } else if str_contains(phase, "reward") {
        3
    } else if str_contains(phase, "train") || str_contains(phase, "optimizer") {
        4
    } else {
        5
    }
}

/// The CSS classes of a phase's bar in the timeline.
pub fn rl_phase_bar_class(phase: &str) -> (r: &'static str)
    ensures
        r@ == match phase_family(phase@) {
            0 => "absolute top-1 bottom-1 rounded bg-blue-500"@,
            1 => "absolute top-1 bottom-1 rounded bg-amber-500"@,
            2 => "absolute top-1 bottom-1 rounded bg-violet-500"@,
            3 => "absolute top-1 bottom-1 rounded bg-pink-500"@,
            4 => "absolute top-1 bottom-1 rounded bg-emerald-500"@,
            _ => "absolute top-1 bottom-1 rounded bg-slate-500"@,
        },
{
    match phase_family_of(phase) {
        0 => "absolute top-1 bottom-1 rounded bg-blue-500",
        1 => "absolute top-1 bottom-1 rounded bg-amber-500",
        2 => "absolute top-1 bottom-1 rounded bg-violet-500",
        3 => "absolute top-1 bottom-1 rounded bg-pink-500",
        4 => "absolute top-1 bottom-1 rounded bg-emerald-500",
        _ => "absolute top-1 bottom-1 rounded bg-slate-500",
    }
}

/// The CSS classes of a phase's dot in the legend and details.
pub fn rl_phase_dot_class(phase: &str) -> (r: &'static str)
    ensures
        r@ == match phase_family(phase@) {
            0 => "h-2.5 w-2.5 flex-shrink-0 rounded-full bg-blue-500"@,
            1 => "h-2.5 w-2.5 flex-shrink-0 rounded-full bg-amber-500"@,
            2 => "h-2.5 w-2.5 flex-shrink-0 rounded-full bg-violet-500"@,
            3 => "h-2.5 w-2.5 flex-shrink-0 rounded-full bg-pink-500"@,
            4 => "h-2.5 w-2.5 flex-shrink-0 rounded-full bg-emerald-500"@,
            _ => "h-2.5 w-2.5 flex-shrink-0 rounded-full bg-slate-500"@,
        },
{
    match phase_family_of(phase) {
        0 => "h-2.5 w-2.5 flex-shrink-0 rounded-full bg-blue-500",
        1 => "h-2.5 w-2.5 flex-shrink-0 rounded-full bg-amber-500",
        2 => "h-2.5 w-2.5 flex-shrink-0 rounded-full bg-violet-500",
        3 => "h-2.5 w-2.5 flex-shrink-0 rounded-full bg-pink-500",
        4 => "h-2.5 w-2.5 flex-shrink-0 rounded-full bg-emerald-500",
        _ => "h-2.5 w-2.5 flex-shrink-0 rounded-full bg-slate-500",
    }
}

} // verus!
