//! Smart router for language-model requests: every request is sorted into one
//! of four complexity tiers (R0 to R3) by rules, a classifier and a
//! post-processing rule stack, and the classifier improves itself from
//! labelled traffic behind an accuracy gate.

pub mod adam;
pub mod bindings;
pub mod bounds;
pub mod builtin;
pub mod config;
pub mod distribution;
pub mod engine;
pub mod evolution;
pub mod finetune;
pub mod gateway;
pub mod head;
pub mod json;
pub mod mlp;
pub mod postprocess;
pub mod repeat;
pub mod router;
pub mod rules;
pub mod session;
pub mod single;
pub mod text;
pub mod tier;
pub mod training;
pub mod widths;

pub use builtin::classify::ClassifyEngineConfig;
pub use builtin::generate::{GenOutput, GenParams, TierModelPaths};
pub use builtin::pool::{GenerateEngineConfig, RwkvGenerateEngine};
pub use config::{RouterConfig, RouterTierModels};
pub use engine::ClassifyEngine;
pub use evolution::capture::{
    CaptureItem, CaptureRecord, CaptureStats, Evolution, EvolutionConfig,
};
pub use evolution::events::{EvolutionEvent, EvolutionEventSink};
pub use evolution::run::EvolveResult;
pub use finetune::finetune_head;
pub use head::RouterHead;
pub use postprocess::{
    fallback_decision, softmax, trivial_ack_decision, DecisionSource, RoutingDecision,
};
pub use router::{RouteCapture, SmartRouter};
pub use rules::{is_short_message, is_trivial_ack};
pub use session::RouterSession;
pub use single::Single;
pub use tier::RouteClass;
pub use training::{FinetuneOptions, FinetuneReport, TrainingSample};
