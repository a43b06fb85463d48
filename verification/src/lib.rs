//! Timeline model of a GPU trace viewer.
pub mod align;
pub mod app;
pub mod clipboard;
pub mod csv;
pub mod diff;
pub mod input;
pub mod labels;
pub mod lane;
pub mod laws;
pub mod layout;
pub mod mcp;
pub mod mcp_core;
pub mod names;
pub mod panels;
pub mod picker;
pub mod scalar;
pub mod sort;
pub mod stage;
pub mod text;
pub mod timemap;
pub mod trace;
pub mod ui;
