//! Routing of i3-style window commands between Emacs and i3.
//!
//! The library holds the decisions: how a command line is tokenised and
//! typed, how aliases expand, how arguments travel over the Emacs server
//! protocol, and when a command falls back to i3.

pub mod text;
pub mod aliases;
pub mod config;
pub mod command;
pub mod emacs;
pub mod routing;
pub mod tree_laws;
