//! A verified core for a local-machine tool installer.
//!
//! Tools are declared in a catalog together with their artifacts (a binary,
//! an optional configuration, an optional shared library) and the names of
//! other tools they depend on.  The library resolves which tools can be
//! acted on (`config::Config::get_dependencies`), explains why the others
//! cannot, and turns every install or removal decision into an explicit
//! plan of filesystem operations (`package`).  Performing those operations,
//! prompting the user, and parsing the configuration file are left to the
//! surrounding binary; everything that decides is here, with a contract.

pub mod args;
pub mod config;
pub mod dependencies;
pub mod editor;
pub mod graph;
pub mod group;
pub mod keys;
pub mod laws;
pub mod language;
pub mod package;
pub mod tool;
pub mod tools;
pub mod utils;
