//! Decides which display modes and which power profile belong to a power source, and when
//! to switch to them.

pub mod autostart;
pub mod big;
pub mod config;
pub mod control;
pub mod daemon;
pub mod display;
pub mod double;
pub mod engine;
pub mod events;
pub mod instance;
pub mod number;
pub mod page;
pub mod paths;
pub mod power;
pub mod precision;
pub mod rate;
pub mod sandbox;
pub mod text;
pub mod watch;
pub mod window;

pub use config::{Config, PowerState, Profile};
pub use control::Controller;
pub use display::{Mode, Output, OutputSetting};
pub use engine::ApplyReport;
pub use events::Event;
