//! Verified core of a vertical tmux window sidebar.
pub mod text;
pub mod sections;
pub mod json;
pub mod model;
pub mod layout;
pub mod app;
pub mod tmux;
pub mod agent;
pub mod control;
pub mod descriptions;
pub mod theme;
pub mod runtime;
pub mod roundtrip;
pub mod grouping;
pub mod records;
