//! Grove: a featherweight version-control tool for lists of files and folders.
//!
//! This crate holds the logic of Grove: how names are cleaned, how snapshots
//! and chapters are named and counted, how stored paths are laid out in flat
//! and labyrinth mode, and how the interactive screens read their commands.
//! Reading and writing files, terminals and dialogs is left to the caller.

pub mod text;
pub mod names;
pub mod paths;
pub mod flat;
pub mod menu;
pub mod lists;
pub mod chapters;
pub mod config;
pub mod plans;
pub mod restore;
pub mod screens;
pub mod setup;
pub mod order;
