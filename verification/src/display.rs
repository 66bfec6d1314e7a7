//! Displays: what they can do, which rule drives which of them, and how each kind of
//! desktop is asked to change one.

pub mod assign;
pub mod detect;
pub mod gnome;
pub mod gnome_plan;
pub mod gnome_row;
pub mod kde;
pub mod mode;
pub mod wlroots;
pub mod x11;
pub mod x11_plan;

pub use assign::{assign_rules, resolve_settings, Assignment, OutputSetting};
pub use detect::BackendKind;
pub use mode::{format_mode_id, parse_mode_id, Mode, Output};
