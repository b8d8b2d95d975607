//! Finding flake inputs that are declared identically across projects but
//! pinned to different revisions, and planning how to converge them.
use vstd::prelude::*;

pub mod app;
pub mod command;
pub mod diff;
pub mod execute;
pub mod indices;
pub mod keyed;
pub mod keys;
pub mod lock;
pub mod nix_edit;
pub mod numbers;
pub mod order;
pub mod paths;
pub mod progress;
pub mod report;
pub mod scan;
pub mod store;
pub mod sync;
pub mod text;
pub mod ui;

verus! {

} // verus!
