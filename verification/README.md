# cc_workspace

The workspace and Codex-continuation services of a desktop switcher for coding
assistants, with their logic verified by Verus.

- `src/` is the verified library:
  - `text`, `timestamp`, `sorting`: trimming, path joining, instants and their
    arithmetic (through chrono), and a stable sort by a string key;
  - `continuation_store`: conversation scopes, continuation records and the store
    file's state transitions (load, save, remove, pruning of expired records);
  - `continuation_bridge`: request metadata, envelope hashing (through sha2), and
    the lookup and recording of the response to continue from;
  - `workspace_mcp`, `workspace_skills`, `workspace_hooks`, `workspace_files`,
    `workspace_paths`: the workspace's MCP servers, skills, hooks, daily memory
    files and directory layout.
- `app/` is the file-system, JSON and command layer around the library; it is
  not verified.
- `tests/` exercises the library on concrete values.
