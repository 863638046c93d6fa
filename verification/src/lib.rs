//! Workspace authorization, launch-directory selection and WSL path handling
//! for a terminal application.
use vstd::prelude::*;

pub mod appimage;
pub mod decode;
pub mod env;
pub mod launch;
pub mod paths;
pub mod registry;
pub mod spawn;
pub mod split;
pub mod text;
pub mod wsl;
pub mod wsl_cli;

verus! {
} // verus!
