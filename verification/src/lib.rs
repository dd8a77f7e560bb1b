//! Lists the TCP servers a developer runs on their own machine and
//! decides which processes to stop for each of them.
use vstd::prelude::*;

pub mod config_patch;
pub mod diagnostics;
pub mod display;
pub mod doctor;
pub mod filter;
pub mod group;
pub mod kill;
pub mod listener;
pub mod menu;
pub mod output;
pub mod proc;
pub mod project;
pub mod setup;
pub mod setup_gnome;
pub mod text;
pub mod tui;

verus! {
} // verus!
