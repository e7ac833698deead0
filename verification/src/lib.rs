//! Signal timeline engine.
//!
//! Timestamped, named events are turned into per-signal "on" intervals,
//! grouped, laid out vertically and drawn as step-function polylines.
//! All times are whole milliseconds since the Unix epoch.

pub mod sorting;
pub mod interval;
pub mod text;
pub mod named;
pub mod timestamp;
pub mod event;
pub mod signal;
pub mod group;
pub mod dataset;
pub mod visibility;
pub mod layout;
pub mod wave;
pub mod settings;
