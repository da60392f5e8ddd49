//! Bala: a task tracker's domain library — tasks nested under any number of
//! parents, soft deletion, completion with cascade, and the command and
//! terminal-view logic built on them.

pub mod text;
pub mod ids;
pub mod model;
pub mod error;
pub mod store;
pub mod hierarchy;
pub mod rollup;
pub mod facade;
pub mod laws;
pub mod command_laws;
pub mod mode;
pub mod keymap;
pub mod cli;
pub mod codec;
pub mod render;
pub mod tui_app;
pub mod config;
pub mod screen_text;
