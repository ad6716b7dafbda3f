//! Span, trace and process logic behind the RL observability views: attribute
//! lookups, span-tree assembly, cross-process linking and timeline summaries.

pub mod text;
pub mod model;
pub mod rl_contract;
pub mod order;
pub mod trace_api;
pub mod frame;
pub mod span_tree;
pub mod links;
pub mod linking;
pub mod display;
pub mod span_detail;
pub mod client;
pub mod chrome;
pub mod perfetto;
pub mod ui;
pub mod timeline;
pub mod summary;
pub mod python;
pub mod local;
pub mod options;
pub mod rollout;
pub mod sample_panel;
pub mod inference;
pub mod fetch;
pub mod span_load;
