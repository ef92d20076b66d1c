//! Verified core of the workspace and Codex-continuation services: string and path
//! handling, the continuation store's state transitions, the request bridge's
//! decisions, and the workspace MCP / skills / hooks / daily-memory logic.

pub mod text;
pub mod timestamp;
pub mod continuation_store;
pub mod continuation_bridge;
pub mod workspace_mcp;
pub mod sorting;
pub mod workspace_skills;
pub mod workspace_hooks;
pub mod workspace_files;
pub mod workspace_paths;
