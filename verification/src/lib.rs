//! A3S Apofasi — typed System-1 decisions for A3S hosts.
//!
//! *Apófasi* (απόφαση) means **decision**. This crate owns fast, non-generative
//! typed decisions (`choice`, `score`, `noul`) that hosts can route, gate, and
//! specialize without parsing free-form model text: question schemas, sequence
//! packing, wide-choice grouping, checkpoint routing and publishing, each with
//! its contract proved by Verus.

pub mod cli;
pub mod confidence;
pub mod decode;
pub mod detect;
pub mod engine;
pub mod error;
pub mod gate;
pub mod index_map;
pub mod infer;
pub mod primitive;
pub mod route;
pub mod router;
pub mod schema;
pub mod sequence;
pub mod text;
pub mod train;
pub mod wide_choice;

pub use confidence::temp_bucket;
pub use detect::{analyse, analyse_text, detect_script, Detection};
pub use engine::estimate_tokens;
pub use error::{Error, Result};
pub use gate::{any_escalate, GateAction};
pub use infer::{BatchItem, CheckpointPaths, DeviceRequest};
pub use primitive::DecisionKind;
pub use route::{CheckpointId, RouteDecision};
pub use router::Router;
pub use schema::{
    criterion_text, instructions_text, Criteria, Instructions, Json, JsonValue, Question, State,
    SystemOneRequest, TokenUsage,
};
pub use sequence::{
    pack_question, render_options, ByteTokenizer, PackedQuestion, SequenceConfig, SpecialTokens,
    Tokenize,
};
pub use train::PublishLayout;
pub use wide_choice::{plan_choice_groups, survivor_count};

use vstd::prelude::*;

verus! {

/// Crate version string.
pub const VERSION: &'static str = "0.1.2";

} // verus!
