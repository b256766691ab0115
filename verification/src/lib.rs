//! Core data engine of a desktop Git client: a per-repository snapshot cache
//! of the commit/reference graph, graph queries (ancestry, commit ranges,
//! unpushed commits) answered cache-first with an authoritative fallback,
//! a filesystem-watcher bookkeeping layer, and a small on-disk patch cache.
//!
//! Everything here is plain computation: the process that runs the external
//! tool, the filesystem, and the change-notification subscription live in the
//! surrounding application, which feeds their results into these functions.

pub mod git_types;
pub mod store;
pub mod commit_map;
pub mod commit_calcs;
pub mod text;
pub mod git_request;
pub mod run_git;
pub mod commit_filters;
pub mod refs;
pub mod commits;
pub mod repo_watcher;
pub mod patches_cache;
pub mod scan_workspace;
pub mod wip_diff;
pub mod packed_refs;
