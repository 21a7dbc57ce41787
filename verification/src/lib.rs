//! Decision logic of a parallel, resumable Git bisection engine: exit-code
//! classification, k-section probe placement and interval narrowing, scan
//! selection, the bisect and worker-pool state machines, configuration
//! precedence, evaluation and pin layouts, artifact comparison, cache keys,
//! and the reports.

pub mod oracle;
pub mod state;
pub mod bisect;
pub mod util;
pub mod cli;
pub mod scheduler;
pub mod bisection;
pub mod scan;
pub mod plan;
pub mod report;
pub mod env;
pub mod hooks;
pub mod normalize;
pub mod config;
pub mod hashing;
pub mod cache;
pub mod compare;
pub mod evaluation;
pub mod pins;
pub mod mirror;
pub mod worktree;
pub mod markdown;
pub mod progress;
pub mod history;
