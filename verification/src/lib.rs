//! Core logic of a JavaScript package manager: reading package requests,
//! choosing package versions, flattening dependency trees into lockfile
//! entries, and keeping `package.json` up to date.
pub mod order;
pub mod str_map;
pub mod semver;
pub mod cli;
pub mod definitions;
pub mod package;
pub mod packument;
pub mod utils;
pub mod add;
pub mod init;
pub mod install;
