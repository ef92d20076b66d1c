//! Where the workspace keeps its data under the user's home directory, what the
//! workspace layout consists of, and how an existing path is cleared away.

use vstd::prelude::*;
use crate::text::{path_join, join_path};

verus! {

/// `{home}/.cc-switch/data`.
pub open spec fn workspace_root_of(home: Seq<char>) -> Seq<char> {
    path_join(path_join(home, ".cc-switch"@), "data"@)
}

/// The workspace's paths, computed from the user's home directory.
pub struct WorkspaceService;

impl WorkspaceService {
    /// The workspace root: `{home}/.cc-switch/data`.
    pub fn workspace_root(home: &str) -> (r: String)
        ensures
            r@ == workspace_root_of(home@),
    {
        let base = join_path(home, ".cc-switch");
        join_path(base.as_str(), "data")
    }

    /// The skills directory: `skills` under the root.
    pub fn skills_dir(home: &str) -> (r: String)
        ensures
            r@ == path_join(workspace_root_of(home@), "skills"@),
    {
        join_path(Self::workspace_root(home).as_str(), "skills")
    }

    /// The MCP directory: `mcp` under the root.
    pub fn mcp_dir(home: &str) -> (r: String)
        ensures
            r@ == path_join(workspace_root_of(home@), "mcp"@),
    {
        join_path(Self::workspace_root(home).as_str(), "mcp")
    }

    /// The MCP configuration: `mcp.json` in the MCP directory.
    pub fn mcp_file_path(home: &str) -> (r: String)
        ensures
            r@ == path_join(path_join(workspace_root_of(home@), "mcp"@), "mcp.json"@),
    {
        join_path(Self::mcp_dir(home).as_str(), "mcp.json")
    }

    /// The hooks directory: `hooks` under the root.
    pub fn hooks_root(home: &str) -> (r: String)
        ensures
            r@ == path_join(workspace_root_of(home@), "hooks"@),
    {
        join_path(Self::workspace_root(home).as_str(), "hooks")
    }

    /// The hooks directory of application `app`.
    pub fn hooks_app_dir(home: &str, app: &str) -> (r: String)
        ensures
            r@ == path_join(path_join(workspace_root_of(home@), "hooks"@), app@),
    {
        join_path(Self::hooks_root(home).as_str(), app)
    }

    /// The skills configuration: `skills.json` under the root.
    pub fn skills_file_path(home: &str) -> (r: String)
        ensures
            r@ == path_join(workspace_root_of(home@), "skills.json"@),
    {
        join_path(Self::workspace_root(home).as_str(), "skills.json")
    }

    /// The directories of the workspace layout, in the order they are made: the
    /// skills and MCP directories, then the hooks directory of each application
    /// named in `app_dirs`.
    pub fn layout_dirs(home: &str, app_dirs: &Vec<String>) -> (r: Vec<String>)
        ensures
            r@.len() == app_dirs@.len() + 2,
            r@[0]@ == path_join(workspace_root_of(home@), "skills"@),
            r@[1]@ == path_join(workspace_root_of(home@), "mcp"@),
            forall|i: int|
                0 <= i < app_dirs@.len() ==> (#[trigger] r@[i + 2])@ == path_join(
                    path_join(workspace_root_of(home@), "hooks"@),
                    app_dirs@[i]@,
                ),
    {
        let mut r: Vec<String> = Vec::new();
        r.push(Self::skills_dir(home));
        r.push(Self::mcp_dir(home));
        let mut i: usize = 0;
        while i < app_dirs.len()
            invariant
                i <= app_dirs@.len(),
                r@.len() == i + 2,
                r@[0]@ == path_join(workspace_root_of(home@), "skills"@),
                r@[1]@ == path_join(workspace_root_of(home@), "mcp"@),
                forall|j: int|
                    0 <= j < i ==> (#[trigger] r@[j + 2])@ == path_join(
                        path_join(workspace_root_of(home@), "hooks"@),
                        app_dirs@[j]@,
                    ),
            decreases app_dirs@.len() - i,
        {
            r.push(Self::hooks_app_dir(home, app_dirs[i].as_str()));
            i = i + 1;
        }
        r
    }
}

/// How to clear a path before a link is put there.
#[derive(Debug, Clone, Copy, PartialEq, Eq, Structural)]
pub enum RemovalAction {
    /// Nothing is there.
    Nothing,
    /// A symbolic link: remove the link itself.
    RemoveLink,
    /// A directory: remove it with its contents.
    RemoveDirAll,
    /// Anything else: remove the file.
    RemoveFile,
}

/// What clearing a path does, from what is there: nothing where the path neither
/// exists nor is a link, the link where it is one, otherwise the directory tree or
/// the file.
pub open spec fn removal_for(exists: bool, is_symlink: bool, is_dir: bool) -> RemovalAction {
    if !exists && !is_symlink {
        RemovalAction::Nothing
    } else if is_symlink {
        RemovalAction::RemoveLink
    } else if is_dir {
        RemovalAction::RemoveDirAll
    } else {
        RemovalAction::RemoveFile
    }
}

/// How to clear a path that exists (following links), is a link, or is a directory.
pub fn removal_action(exists: bool, is_symlink: bool, is_dir: bool) -> (r: RemovalAction)
    ensures
        r == removal_for(exists, is_symlink, is_dir),
{
    if !exists && !is_symlink {
        RemovalAction::Nothing
    } else if is_symlink {
        RemovalAction::RemoveLink
    } else if is_dir {
        RemovalAction::RemoveDirAll
    } else {
        RemovalAction::RemoveFile
    }
}

/// `{openclaw_dir}/workspace`.
pub open spec fn openclaw_workspace_of(openclaw_dir: Seq<char>) -> Seq<char> {
    path_join(openclaw_dir, "workspace"@)
}

/// The OpenClaw workspace directory.
pub fn openclaw_workspace_dir(openclaw_dir: &str) -> (r: String)
    ensures
        r@ == openclaw_workspace_of(openclaw_dir@),
{
    join_path(openclaw_dir, "workspace")
}

/// The daily memory directory: `memory` in the OpenClaw workspace.
pub fn daily_memory_dir(openclaw_dir: &str) -> (r: String)
    ensures
        r@ == path_join(openclaw_workspace_of(openclaw_dir@), "memory"@),
{
    join_path(openclaw_workspace_dir(openclaw_dir).as_str(), "memory")
}

/// The daily memory file `filename`.
pub fn daily_memory_path(openclaw_dir: &str, filename: &str) -> (r: String)
    ensures
        r@ == path_join(path_join(openclaw_workspace_of(openclaw_dir@), "memory"@), filename@),
{
    join_path(daily_memory_dir(openclaw_dir).as_str(), filename)
}

/// The workspace file `filename`.
pub fn workspace_file_path(openclaw_dir: &str, filename: &str) -> (r: String)
    ensures
        r@ == path_join(openclaw_workspace_of(openclaw_dir@), filename@),
{
    join_path(openclaw_workspace_dir(openclaw_dir).as_str(), filename)
}

} // verus!
