//! An incremental build orchestrator for small C/C++ projects, with its
//! core verified: the reversible action chain that composes build stages,
//! the dependency graph built from quoted header references, and the
//! staleness propagation that turns one timestamp plus the graph into the
//! minimal rebuild set. The thin shell that touches the file system, the
//! toolchain and the configuration file lives outside this crate and hands
//! each stage the plain values it needs.

pub mod action;
pub mod bytes;
pub mod paths;
pub mod config;
pub mod args;
pub mod state;
pub mod read_config;
pub mod has_file;
pub mod gen_src_paths;
pub mod gen_dep_graph;
pub mod fetch_edited_files;
pub mod build_step;
pub mod build_project;
pub mod compile_files;
pub mod commands;
pub mod graph;
pub mod action_chain;

pub use action::{Action, Error};
pub use action_chain::ActionChain;
pub use args::{ArgRetriever, ArgRule};
pub use build_project::BuildProject;
pub use build_step::BuildStep;
pub use commands::Command;
pub use compile_files::CompileFiles;
pub use config::{Config, Lang};
pub use fetch_edited_files::FetchEditedFiles;
pub use gen_dep_graph::GenDepGraph;
pub use gen_src_paths::GenSrcPaths;
pub use graph::Graph;
pub use has_file::HasFile;
pub use read_config::ReadConfig;
pub use state::BuildState;
