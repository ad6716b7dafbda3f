//! Framework-neutral RL span classification rules.
//!
//! Any RL framework can drive the views by attaching standard span
//! attributes; only these generic fields are interpreted.

use vstd::prelude::*;
use crate::model::SpanInfo;
use crate::text::{seq_contains, seq_ends_with, seq_starts_with, str_contains, str_ends_with,
    str_eq, str_starts_with};

verus! {

/// The text serde_json gives for the field `key` of the JSON object `json`:
/// a string field as is, a number or a boolean in its JSON rendering; `None`
/// when `json` does not parse, is no object, lacks `key`, or holds another
/// kind of value there.
pub uninterp spec fn json_field_text(json: Seq<char>, key: Seq<char>) -> Option<Seq<char>>;

/// Calls `serde_json::from_str::<serde_json::Value>` and `Value::get`, and
/// renders a string, number or boolean field as text. The contract only
/// names the result (`json_field_text`); what JSON parsing accepts is not
/// stated.
#[verifier::external_body]
fn json_field(json: &str, key: &str) -> (res: Option<String>)
    ensures
        res.deep_view() == json_field_text(json@, key@),
{
    let value = serde_json::from_str::<serde_json::Value>(json).ok()?;
    match value.get(key)? {
        serde_json::Value::String(s) => Some(s.clone()),
        serde_json::Value::Number(n) => Some(n.to_string()),
        serde_json::Value::Bool(b) => Some(b.to_string()),
        _ => None,
    }
}

/// The attribute `key` of a span's JSON attributes, as text.
pub open spec fn attr_spec(attributes: Option<Seq<char>>, key: Seq<char>) -> Option<Seq<char>> {
    match attributes {
        Some(json) => json_field_text(json, key),
        None => None,
    }
}

/// `a`, or `b` when `a` is `None`.
pub open spec fn opt_or<T>(a: Option<T>, b: Option<T>) -> Option<T> {
    match a {
        Some(x) => Some(x),
        None => b,
    }
}

/// Reads the attribute `key` from JSON-encoded span attributes.
pub fn attr_string(attributes: &Option<String>, key: &str) -> (res: Option<String>)
    ensures
        res.deep_view() == attr_spec(attributes.deep_view(), key@),
{
    match attributes {
        Some(json) => json_field(json.as_str(), key),
        None => None,
    }
}

/// `attr_string(attributes, first)`, or else `attr_string(attributes, second)`.
pub fn attr_string_or(attributes: &Option<String>, first: &str, second: &str) -> (res: Option<
    String,
>)
    ensures
        res.deep_view() == opt_or(
            attr_spec(attributes.deep_view(), first@),
            attr_spec(attributes.deep_view(), second@),
        ),
{
    match attr_string(attributes, first) {
        Some(v) => Some(v),
        None => attr_string(attributes, second),
    }
}

pub open spec fn has_trajectory_identity_spec(attrs: Option<Seq<char>>) -> bool {
    attr_spec(attrs, "trajectory_id"@) is Some || attr_spec(attrs, "sample_id"@) is Some
}

/// Rollout/sample timeline requires trajectory or sample identity on each span.
pub fn has_trajectory_identity(attributes: &Option<String>) -> (r: bool)
    ensures
        r == has_trajectory_identity_spec(attributes.deep_view()),
{
    attr_string(attributes, "trajectory_id").is_some() || attr_string(attributes, "sample_id").is_some()
}

pub open spec fn is_train_kind(kind: Option<Seq<char>>) -> bool {
    kind == Some("rl.train"@) || kind == Some("train.step"@) || kind == Some("rl.phase"@)
}

pub open spec fn is_train_phase_span_spec(
    name: Seq<char>,
    phase: Seq<char>,
    kind: Option<Seq<char>>,
    attrs: Option<Seq<char>>,
) -> bool {
    ||| seq_starts_with(phase, "train"@)
    ||| seq_starts_with(name, "train."@)
    ||| attr_spec(attrs, "actor_role"@) == Some("trainer"@)
    ||| is_train_kind(kind) && (seq_contains(phase, "train"@) || seq_contains(name, "train"@))
}

/// Whether an optional string slice equals `lit`.
fn opt_str_is(o: Option<&str>, lit: &str) -> (r: bool)
    ensures
        r == (o.deep_view() == Some(lit@)),
{
    match o {
        Some(s) => str_eq(s, lit),
        None => false,
    }
}

/// Whether an optional string equals `lit`.
pub fn opt_string_is(o: &Option<String>, lit: &str) -> (r: bool)
    ensures
        r == (o.deep_view() == Some(lit@)),
{
    match o {
        Some(s) => str_eq(s.as_str(), lit),
        None => false,
    }
}

/// The borrowed form of an optional string.
pub fn opt_as_str(o: &Option<String>) -> (r: Option<&str>)
    ensures
        r.deep_view() == o.deep_view(),
{
    match o {
        Some(s) => Some(s.as_str()),
        None => None,
    }
}

/// Training timeline spans must be tagged as train phases and keyed by step/batch.
pub fn is_train_phase_span(
    name: &str,
    phase: &str,
    kind: Option<&str>,
    attributes: &Option<String>,
) -> (r: bool)
    ensures
        r == is_train_phase_span_spec(name@, phase@, kind.deep_view(), attributes.deep_view()),
{
    if str_starts_with(phase, "train") || str_starts_with(name, "train.") {
        return true;
    }
    let role = attr_string(attributes, "actor_role");
    if opt_string_is(&role, "trainer") {
        return true;
    }
    (opt_str_is(kind, "rl.train") || opt_str_is(kind, "train.step") || opt_str_is(kind, "rl.phase"))
        && (str_contains(phase, "train") || str_contains(name, "train"))
}

pub open spec fn is_train_timeline_span_spec(
    name: Seq<char>,
    phase: Seq<char>,
    kind: Option<Seq<char>>,
    attrs: Option<Seq<char>>,
) -> bool {
    &&& (attr_spec(attrs, "train_step_id"@) is Some || attr_spec(attrs, "batch_id"@) is Some)
    &&& is_train_phase_span_spec(name, phase, kind, attrs)
}

/// A train-phase span that carries a train step or batch id.
pub fn is_train_timeline_span(
    name: &str,
    phase: &str,
    kind: Option<&str>,
    attributes: &Option<String>,
) -> (r: bool)
    ensures
        r == is_train_timeline_span_spec(name@, phase@, kind.deep_view(), attributes.deep_view()),
{
    if attr_string(attributes, "train_step_id").is_none() && attr_string(attributes, "batch_id").is_none() {
        return false;
    }
    is_train_phase_span(name, phase, kind, attributes)
}

pub open spec fn is_step_parent_span_spec(name: Seq<char>, kind: Option<Seq<char>>) -> bool {
    ||| name == "rollout.step"@
    ||| name == "train.step"@
    ||| name == "rollout.submit"@
    ||| name == "rollout.submit_next"@
    ||| kind == Some("rl.step"@)
    ||| kind == Some("train.step"@)
}

/// Parent span that groups a distributed rollout/train step across processes.
pub fn is_step_parent_span(name: &str, kind: Option<&str>) -> (r: bool)
    ensures
        r == is_step_parent_span_spec(name@, kind.deep_view()),
{
    str_eq(name, "rollout.step") || str_eq(name, "train.step") || str_eq(name, "rollout.submit")
        || str_eq(name, "rollout.submit_next") || opt_str_is(kind, "rl.step") || opt_str_is(
        kind,
        "train.step",
    )
}

pub open spec fn is_rollout_submit_parent_span_spec(name: Seq<char>) -> bool {
    name == "rollout.submit"@ || name == "rollout.submit_next"@
}

/// A rollout submission span.
pub fn is_rollout_submit_parent_span(name: &str) -> (r: bool)
    ensures
        r == is_rollout_submit_parent_span_spec(name@),
{
    str_eq(name, "rollout.submit") || str_eq(name, "rollout.submit_next")
}

pub open spec fn is_rollout_worker_role_spec(role: Seq<char>) -> bool {
    ||| role == "rollout"@
    ||| role == "rollout_actor"@
    ||| seq_ends_with(role, "_rollout"@)
    ||| seq_contains(role, "rollout_worker"@)
}

/// Worker process that executes rollout logic (framework sets `actor_role` or `process_role`).
pub fn is_rollout_worker_role(role: &str) -> (r: bool)
    ensures
        r == is_rollout_worker_role_spec(role@),
{
    str_eq(role, "rollout") || str_eq(role, "rollout_actor") || str_ends_with(role, "_rollout")
        || str_contains(role, "rollout_worker")
}

/// The key that groups spans of one logical rollout step across processes.
#[derive(Debug, Clone, PartialEq, Eq)]
pub struct LogicalStepKey {
    pub rollout_id: String,
    pub step_id: String,
}

impl View for LogicalStepKey {
    type V = (Seq<char>, Seq<char>);

    open spec fn view(&self) -> (Seq<char>, Seq<char>) {
        (self.rollout_id@, self.step_id@)
    }
}

/// The view of an optional key.
pub open spec fn key_view(k: Option<LogicalStepKey>) -> Option<(Seq<char>, Seq<char>)> {
    match k {
        Some(k) => Some(k@),
        None => None,
    }
}

/// Whether two keys hold the same ids.
pub fn same_step_key(a: &LogicalStepKey, b: &LogicalStepKey) -> (r: bool)
    ensures
        r == (a@ == b@),
{
    str_eq(a.rollout_id.as_str(), b.rollout_id.as_str()) && str_eq(
        a.step_id.as_str(),
        b.step_id.as_str(),
    )
}

/// The logical step key an attribute set names: the rollout id (or else the
/// step id) and the step id (or else the train step id), unless either is
/// missing or `-1`.
pub open spec fn step_key_spec(attrs: Option<Seq<char>>) -> Option<(Seq<char>, Seq<char>)> {
    let rollout = opt_or(attr_spec(attrs, "rollout_id"@), attr_spec(attrs, "step_id"@));
    let step = opt_or(attr_spec(attrs, "step_id"@), attr_spec(attrs, "train_step_id"@));
    match (rollout, step) {
        (Some(r), Some(s)) => if r == "-1"@ || s == "-1"@ {
            None
        } else {
            Some((r, s))
        },
        _ => None,
    }
}

/// The logical step key of a span, if it has one.
pub fn logical_step_key(span: &SpanInfo) -> (r: Option<LogicalStepKey>)
    ensures
        key_view(r) == step_key_spec(span.attributes.deep_view()),
{
    let rollout_id = match attr_string_or(&span.attributes, "rollout_id", "step_id") {
        Some(v) => v,
        None => return None,
    };
    let step_id = match attr_string_or(&span.attributes, "step_id", "train_step_id") {
        Some(v) => v,
        None => return None,
    };
    if str_eq(rollout_id.as_str(), "-1") || str_eq(step_id.as_str(), "-1") {
        return None;
    }
    Some(LogicalStepKey { rollout_id, step_id })
}

pub open spec fn is_cross_process_parent_span_spec(span: SpanInfo) -> bool {
    is_step_parent_span_spec(span.name@, span.kind.deep_view())
}

/// A span that groups work of one step across processes.
pub fn is_cross_process_parent_span(span: &SpanInfo) -> (r: bool)
    ensures
        r == is_cross_process_parent_span_spec(*span),
{
    is_step_parent_span(span.name.as_str(), opt_as_str(&span.kind))
}

/// The role a span's attributes give its process (`process_role`, else
/// `actor_role`, else empty).
pub open spec fn span_role_spec(attrs: Option<Seq<char>>) -> Seq<char> {
    match opt_or(attr_spec(attrs, "process_role"@), attr_spec(attrs, "actor_role"@)) {
        Some(r) => r,
        None => Seq::empty(),
    }
}

pub open spec fn is_cross_process_child_candidate_spec(span: SpanInfo) -> bool {
    &&& step_key_spec(span.attributes.deep_view()) is Some
    &&& !is_cross_process_parent_span_spec(span)
    &&& (is_rollout_worker_role_spec(span_role_spec(span.attributes.deep_view()))
        || seq_starts_with(span.name@, "custom.generate"@))
}

/// The role a span's attributes give its process.
pub fn span_role(attributes: &Option<String>) -> (r: String)
    ensures
        r@ == span_role_spec(attributes.deep_view()),
{
    match attr_string_or(attributes, "process_role", "actor_role") {
        Some(r) => r,
        None => String::new(),
    }
}

/// A worker-side span that belongs under a cross-process step parent.
pub fn is_cross_process_child_candidate(span: &SpanInfo) -> (r: bool)
    ensures
        r == is_cross_process_child_candidate_spec(*span),
{
    if logical_step_key(span).is_none() || is_cross_process_parent_span(span) {
        return false;
    }
    let role = span_role(&span.attributes);
    is_rollout_worker_role(role.as_str()) || str_starts_with(span.name.as_str(), "custom.generate")
}

/// User-facing hint when train timeline has no matching spans.
pub const TRAIN_TIMELINE_EMPTY_HINT: &'static str =
    "No train batch spans found. Tag spans with rollout_id, train_step_id or batch_id, and phase=train.* via probing.rl.";

/// User-facing hint when rollout timeline has no matching spans.
pub const ROLLOUT_TIMELINE_EMPTY_HINT: &'static str =
    "No rollout trajectory spans found. Tag spans with rollout_id plus trajectory_id or sample_id via probing.rl.";

} // verus!
