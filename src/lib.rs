//! Fuzzy file finding over a workspace: root discovery, minimal match
//! windows, class-aware scoring and adaptive ranking.

mod text;
mod window;
mod score;
mod workspace;
mod quick_open;

pub use text::{chars_of, classify, chars_match, is_ascii_digit, CharClass};
pub use window::locate_window;
pub use workspace::{ancestors, dedup_paths, resolve_root, same_path};
pub use quick_open::{fuzzy_match, relative_path_of, FuzzyResult, QuickOpen};
pub use score::{calculate_score, class_table, score_window};
