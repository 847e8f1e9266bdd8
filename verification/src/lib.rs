//! Search core for i3 window-manager keybinding metadata.
//!
//! Configuration text is scanned for tagged comment lines of the form
//! `## group // description // keys ##`; the resulting entries can then be
//! fuzzily filtered against a query string, gated by the modifier keys that
//! are currently held, and annotated with the character spans that matched,
//! for highlighting.

pub mod chars;
pub mod config;
pub mod matcher;
pub mod parse;
pub mod spans;

pub use config::{ConfigEntry, ConfigMetadata, I3ConfigError, Modifiers};
pub use spans::{MatchElement, split_to_groups_by_indices};
