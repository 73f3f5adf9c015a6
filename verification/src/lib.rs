//! Reading and changing the git state of a workspace: the commands that are
//! run, and what is made of their output.
pub mod branches;
pub mod commands;
pub mod commits;
pub mod diff;
pub mod refs;
pub mod state;
pub mod status;
pub mod text;
pub mod types;
