pub mod ai;
pub mod cli;
pub mod config;
pub mod level;
pub mod lingua;
pub mod masker;
pub mod pipeline;
pub mod properties;
pub mod squeeze;
pub mod text;

pub use config::{GeneralConfig, ThresholdsConfig};
pub use level::LogLevel;
pub use lingua::run_builtin_token_pruner;
pub use masker::Masker;
pub use squeeze::{run_fast_squeeze, FastSqueezeResult};
