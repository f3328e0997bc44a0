//! Recolors keywords and patterns in lines of text with terminal escapes.
//!
//! The library holds the rule model, the resolution of a configuration whose
//! documents import other documents, and the engine that renders one line.
pub mod cli;
pub mod color;
pub mod config;
pub mod highlight;
pub mod rules;

pub use cli::{CliArgs, UsageError};
pub use color::{Color, PresetColor};
pub use config::{load_rules_from_file, ConfigNode, FileConfig};
pub use highlight::{CompileError, HighlightingEngine};
pub use rules::Rule;
