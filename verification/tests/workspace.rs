use cc_workspace::sorting::{key_sorts_before, str_lt};
use cc_workspace::text::{char_is_whitespace, join_path, trim_str};
use cc_workspace::workspace_files::{
    allowed_files, byte_len, ceil_char_boundary, date_of, find_all, floor_char_boundary,
    is_markdown_name, list_daily_memory_files, preview, search_daily_memory_files,
    validate_daily_memory_filename, validate_filename, DailyMemoryFileData,
};
use cc_workspace::workspace_hooks::{
    hook_app_entry, hook_apps, is_skipped_hook_name, is_typescript_hook, merge_hooks_config,
    HookEntry, HookGroup, HookSlot, MergeHooksError, WorkspaceHookFile, WorkspaceHookGroup,
};
use cc_workspace::workspace_mcp::{
    app_enabled, default_mcp_config, opencode_ids_to_remove, plan_for_app, plan_mcp_sync, McpApp,
    McpApps, WorkspaceMcpEntry, WorkspaceMcpFile,
};
use cc_workspace::workspace_paths::{
    daily_memory_dir, daily_memory_path, openclaw_workspace_dir, removal_action,
    workspace_file_path, RemovalAction, WorkspaceService,
};
use cc_workspace::workspace_skills::{
    configured_apps_of, default_skills_config, is_valid_skill_name, skill_apps_for_sync, skill_link_flags,
    SkillDirEntry, WorkspaceSkill, WorkspaceSkillsFile,
};
use serde_json::Value;

fn entry(id: &str, name: Option<&str>, enabled: Option<bool>, apps: Option<McpApps>) -> WorkspaceMcpEntry {
    WorkspaceMcpEntry {
        id: id.to_string(),
        name: name.map(|n| n.to_string()),
        enabled,
        apps,
        server: Value::String(format!("server-{}", id)),
    }
}

fn ids(config: &WorkspaceMcpFile) -> Vec<String> {
    config.servers.iter().map(|s| s.id.clone()).collect()
}

fn only(claude: bool, codex: bool, gemini: bool, opencode: bool) -> McpApps {
    McpApps { claude, codex, gemini, opencode }
}

fn day(name: &str, content: &str) -> DailyMemoryFileData {
    DailyMemoryFileData {
        name: name.to_string(),
        content: content.to_string(),
        size_bytes: content.len() as u64,
        modified_at: 42,
    }
}

// ---- paths ----

#[test]
fn workspace_paths_are_under_home() {
    assert_eq!(WorkspaceService::workspace_root("/home/u"), "/home/u/.cc-switch/data");
    assert_eq!(WorkspaceService::skills_dir("/home/u"), "/home/u/.cc-switch/data/skills");
    assert_eq!(WorkspaceService::mcp_dir("/home/u"), "/home/u/.cc-switch/data/mcp");
    assert_eq!(WorkspaceService::mcp_file_path("/home/u"), "/home/u/.cc-switch/data/mcp/mcp.json");
    assert_eq!(WorkspaceService::hooks_root("/home/u"), "/home/u/.cc-switch/data/hooks");
    assert_eq!(WorkspaceService::hooks_app_dir("/home/u", "codex"), "/home/u/.cc-switch/data/hooks/codex");
    assert_eq!(WorkspaceService::skills_file_path("/home/u"), "/home/u/.cc-switch/data/skills.json");
    let dirs = WorkspaceService::layout_dirs("/home/u", &vec!["codex".to_string(), "opencode".to_string()]);
    assert_eq!(
        dirs,
        vec![
            "/home/u/.cc-switch/data/skills".to_string(),
            "/home/u/.cc-switch/data/mcp".to_string(),
            "/home/u/.cc-switch/data/hooks/codex".to_string(),
            "/home/u/.cc-switch/data/hooks/opencode".to_string(),
        ]
    );
}

#[test]
fn join_path_follows_path_push() {
    assert_eq!(join_path("/a", "b"), "/a/b");
    assert_eq!(join_path("/a/", "b"), "/a/b");
    assert_eq!(join_path("", "b"), "b");
    assert_eq!(join_path("/a", "/abs"), "/abs");
}

#[test]
fn openclaw_paths() {
    assert_eq!(openclaw_workspace_dir("/o"), "/o/workspace");
    assert_eq!(daily_memory_dir("/o"), "/o/workspace/memory");
    assert_eq!(daily_memory_path("/o", "2024-01-02.md"), "/o/workspace/memory/2024-01-02.md");
    assert_eq!(workspace_file_path("/o", "SOUL.md"), "/o/workspace/SOUL.md");
}

#[test]
fn removal_action_by_kind() {
    assert_eq!(removal_action(false, false, false), RemovalAction::Nothing);
    assert_eq!(removal_action(false, true, false), RemovalAction::RemoveLink);
    assert_eq!(removal_action(true, true, true), RemovalAction::RemoveLink);
    assert_eq!(removal_action(true, false, true), RemovalAction::RemoveDirAll);
    assert_eq!(removal_action(true, false, false), RemovalAction::RemoveFile);
}

// ---- text ----

#[test]
fn trim_removes_unicode_whitespace_on_both_ends() {
    assert_eq!(trim_str("  a b \t\n"), "a b");
    assert_eq!(trim_str("\u{3000}x\u{a0}"), "x");
    assert_eq!(trim_str("   "), "");
    assert_eq!(trim_str(trim_str(" q ")), trim_str(" q "));
    assert!(char_is_whitespace('\u{2028}'));
    assert!(!char_is_whitespace('x'));
}

#[test]
fn string_order_is_by_characters() {
    assert!(str_lt("a", "b"));
    assert!(str_lt("ab", "abc"));
    assert!(!str_lt("b", "a"));
    assert!(!str_lt("a", "a"));
    assert!(key_sorts_before("2024-01-02.md", "2024-01-01.md", true));
    assert!(key_sorts_before("alpha", "beta", false));
}

// ---- MCP ----

#[test]
fn default_mcp_config_is_version_one_and_empty() {
    let c = default_mcp_config();
    assert_eq!(c.version, Some(1));
    assert!(c.servers.is_empty());
    assert_eq!(McpApps::default(), McpApps::none());
    assert_eq!(McpApps::all(), only(true, true, true, true));
}

#[test]
fn upsert_replaces_first_of_id_or_appends() {
    let mut c = WorkspaceMcpFile {
        version: Some(1),
        servers: vec![entry("a", None, None, None), entry("b", None, None, None), entry("a", None, None, None)],
    };
    WorkspaceService::upsert_mcp_server(&mut c, "a".to_string(), Some("A".to_string()), Some(false), None, Value::Null);
    assert_eq!(ids(&c), vec!["a", "b", "a"]);
    assert_eq!(c.servers[0].name.as_deref(), Some("A"));
    assert_eq!(c.servers[0].enabled, Some(false));
    assert_eq!(c.servers[0].server, Value::Null);
    assert_eq!(c.servers[2].name, None);

    WorkspaceService::upsert_mcp_server(&mut c, "c".to_string(), None, None, Some(McpApps::all()), Value::Bool(true));
    assert_eq!(ids(&c), vec!["a", "b", "a", "c"]);
    assert_eq!(c.servers[3].apps, Some(McpApps::all()));
    assert_eq!(c.version, Some(1));
}

#[test]
fn delete_removes_every_entry_of_the_id() {
    let mut c = WorkspaceMcpFile {
        version: None,
        servers: vec![entry("a", None, None, None), entry("b", None, None, None), entry("a", None, None, None)],
    };
    WorkspaceService::delete_mcp_server(&mut c, "a");
    assert_eq!(ids(&c), vec!["b"]);
    WorkspaceService::delete_mcp_server(&mut c, "zzz");
    assert_eq!(ids(&c), vec!["b"]);
    assert_eq!(c.version, None);
}

#[test]
fn reorder_puts_named_servers_first() {
    let mut c = WorkspaceMcpFile {
        version: Some(1),
        servers: vec![
            entry("a", None, None, None),
            entry("b", None, None, None),
            entry("c", None, None, None),
            entry("d", None, None, None),
        ],
    };
    WorkspaceService::reorder_mcp_servers(&mut c, vec!["c".to_string(), "x".to_string(), "a".to_string()]);
    assert_eq!(ids(&c), vec!["c", "a", "b", "d"]);
}

#[test]
fn reorder_keeps_the_last_of_a_repeated_id() {
    let mut c = WorkspaceMcpFile {
        version: Some(1),
        servers: vec![
            entry("a", Some("first"), None, None),
            entry("b", None, None, None),
            entry("a", Some("second"), None, None),
        ],
    };
    WorkspaceService::reorder_mcp_servers(&mut c, vec!["a".to_string(), "a".to_string()]);
    assert_eq!(ids(&c), vec!["a", "b"]);
    assert_eq!(c.servers[0].name.as_deref(), Some("second"));
}

#[test]
fn sync_plan_selects_enabled_servers_per_app() {
    let ws = WorkspaceMcpFile {
        version: Some(1),
        servers: vec![
            entry("a", Some("Alpha"), None, Some(only(true, false, false, true))),
            entry("b", None, Some(false), Some(McpApps::all())),
            entry("c", None, Some(true), Some(only(false, true, false, false))),
            entry("d", None, None, None),
        ],
    };
    let plan = plan_mcp_sync(&ws);
    let claude: Vec<&str> = plan.claude.iter().map(|p| p.id.as_str()).collect();
    let codex: Vec<&str> = plan.codex.iter().map(|p| p.id.as_str()).collect();
    assert_eq!(claude, vec!["a"]);
    assert_eq!(codex, vec!["c"]);
    assert!(plan.gemini.is_empty());
    assert_eq!(plan.opencode.len(), 1);
    assert_eq!(plan.claude[0].name, "Alpha");
    assert_eq!(plan.claude[0].index, 0);
    assert_eq!(plan.codex[0].name, "c");
    assert_eq!(plan.codex[0].index, 2);

    let direct = plan_for_app(&ws.servers, McpApp::Opencode);
    assert_eq!(direct.len(), 1);
    assert!(app_enabled(only(false, false, true, false), McpApp::Gemini));
    assert!(!app_enabled(only(false, false, true, false), McpApp::Claude));
}

#[test]
fn sync_plan_uses_the_last_entry_of_an_id() {
    let ws = WorkspaceMcpFile {
        version: Some(1),
        servers: vec![
            entry("a", Some("old"), None, Some(McpApps::all())),
            entry("a", Some("new"), None, Some(McpApps::all())),
        ],
    };
    let plan = plan_for_app(&ws.servers, McpApp::Claude);
    assert_eq!(plan.len(), 1);
    assert_eq!(plan[0].name, "new");
    assert_eq!(plan[0].index, 1);
}

#[test]
fn opencode_removes_servers_no_longer_planned() {
    let ws = WorkspaceMcpFile {
        version: Some(1),
        servers: vec![entry("keep", None, None, Some(McpApps::all()))],
    };
    let plan = plan_for_app(&ws.servers, McpApp::Opencode);
    let current = vec!["keep".to_string(), "gone".to_string()];
    assert_eq!(opencode_ids_to_remove(&current, &plan), vec!["gone".to_string()]);
}

// ---- skills ----

#[test]
fn skill_names_and_apps() {
    assert!(is_valid_skill_name("my-skill"));
    assert!(!is_valid_skill_name(".hidden"));
    assert!(!is_valid_skill_name("   "));
    assert!(!is_valid_skill_name(""));
    let apps = only(true, false, true, false);
    assert!(app_enabled(apps, McpApp::Claude));
    assert!(!app_enabled(apps, McpApp::Codex));
    assert!(app_enabled(apps, McpApp::Gemini));
    assert!(!app_enabled(apps, McpApp::Opencode));
    let config = default_skills_config();
    assert_eq!(config.version, Some(1));
    assert!(config.skills.is_empty());
    assert_eq!(skill_apps_for_sync(&config, "x"), McpApps::all());
}

#[test]
fn update_skill_apps_changes_or_adds_an_entry() {
    let mut config = WorkspaceSkillsFile {
        version: Some(1),
        skills: vec![WorkspaceSkill { name: "a".to_string(), path: "/s/a".to_string(), apps: McpApps::all() }],
    };
    let none = McpApps::none();
    WorkspaceService::update_skill_apps(&mut config, "/s", "a".to_string(), none);
    assert_eq!(config.skills.len(), 1);
    assert_eq!(config.skills[0].apps, none);
    assert_eq!(config.skills[0].path, "/s/a");

    WorkspaceService::update_skill_apps(&mut config, "/skills", "b".to_string(), only(true, false, false, false));
    assert_eq!(config.skills.len(), 2);
    assert_eq!(config.skills[1].name, "b");
    assert_eq!(config.skills[1].path, "/skills/b");
    assert_eq!(configured_apps_of(&config.skills, "b"), Some(only(true, false, false, false)));
    assert_eq!(configured_apps_of(&config.skills, "c"), None);
}

#[test]
fn get_skills_lists_valid_dirs_sorted_with_configured_apps() {
    let config = WorkspaceSkillsFile {
        version: Some(1),
        skills: vec![WorkspaceSkill { name: "beta".to_string(), path: "/s/beta".to_string(), apps: McpApps::none() }],
    };
    let dirs = vec![
        SkillDirEntry { name: "gamma".to_string(), path: "/s/gamma".to_string() },
        SkillDirEntry { name: ".git".to_string(), path: "/s/.git".to_string() },
        SkillDirEntry { name: "beta".to_string(), path: "/s/beta".to_string() },
        SkillDirEntry { name: "alpha".to_string(), path: "/s/alpha".to_string() },
    ];
    let skills = WorkspaceService::get_skills(&config, dirs);
    let names: Vec<&str> = skills.iter().map(|s| s.name.as_str()).collect();
    assert_eq!(names, vec!["alpha", "beta", "gamma"]);
    assert_eq!(skills[0].apps, McpApps::all());
    assert_eq!(skills[1].apps, McpApps::none());
    assert_eq!(skills[2].path, "/s/gamma");
}

// ---- hooks ----

fn hook(matcher: Option<&str>, tag: &str) -> HookEntry {
    HookEntry { matcher: matcher.map(|m| m.to_string()), value: Value::String(tag.to_string()) }
}

fn tags(group: &HookGroup) -> Vec<String> {
    match &group.slot {
        HookSlot::Entries(v) => v.iter().map(|e| e.value.as_str().unwrap_or("").to_string()).collect(),
        HookSlot::Other(_) => vec![],
    }
}

#[test]
fn hook_listing_rules() {
    assert_eq!(hook_apps(), vec![McpApp::Claude, McpApp::Codex, McpApp::Gemini, McpApp::Opencode]);
    assert!(is_skipped_hook_name(".DS_Store"));
    assert!(is_skipped_hook_name("hooks.json"));
    assert!(!is_skipped_hook_name("pre.sh"));
    assert!(is_typescript_hook(Some("ts")));
    assert!(!is_typescript_hook(Some("js")));
    assert!(!is_typescript_hook(None));
    assert!(hook_app_entry("codex", vec![], None).is_none());
    let files = vec![WorkspaceHookFile { name: "a.sh".to_string(), path: "a.sh".to_string(), full_path: "/h/a.sh".to_string(), size: 3 }];
    let e = hook_app_entry("codex", files, None).unwrap();
    assert_eq!(e.app, "codex");
    assert_eq!(e.files.len(), 1);
    assert!(hook_app_entry("gemini", vec![], Some(Value::Null)).is_some());
}

#[test]
fn merge_appends_new_entries_and_skips_known_matchers() {
    let settings = vec![HookGroup {
        key: "PreToolUse".to_string(),
        slot: HookSlot::Entries(vec![hook(Some("Bash"), "existing")]),
    }];
    let workspace = vec![
        WorkspaceHookGroup {
            key: "PreToolUse".to_string(),
            entries: Some(vec![hook(Some("Bash"), "dup"), hook(Some("Edit"), "edit"), hook(None, "plain"), hook(Some("Edit"), "dup2")]),
        },
        WorkspaceHookGroup { key: "Stop".to_string(), entries: Some(vec![hook(None, "stop")]) },
        WorkspaceHookGroup { key: "Note".to_string(), entries: None },
    ];
    let merged = merge_hooks_config(Some(workspace), Some(settings)).unwrap();
    assert_eq!(merged.len(), 2);
    assert_eq!(merged[0].key, "PreToolUse");
    assert_eq!(tags(&merged[0]), vec!["existing", "edit", "plain"]);
    assert_eq!(merged[1].key, "Stop");
    assert_eq!(tags(&merged[1]), vec!["stop"]);
}

#[test]
fn merge_refuses_missing_hooks_and_non_arrays() {
    let ws = || vec![WorkspaceHookGroup { key: "Stop".to_string(), entries: Some(vec![hook(None, "x")]) }];
    match merge_hooks_config(Some(ws()), None) {
        Err(MergeHooksError::MissingHooksField) => {}
        other => panic!("unexpected {:?}", other),
    }
    let settings = vec![HookGroup { key: "Stop".to_string(), slot: HookSlot::Other(Value::Bool(true)) }];
    match merge_hooks_config(Some(ws()), Some(settings)) {
        Err(MergeHooksError::NotArray(k)) => assert_eq!(k, "Stop"),
        other => panic!("unexpected {:?}", other),
    }
    let settings = vec![HookGroup { key: "Stop".to_string(), slot: HookSlot::Entries(vec![]) }];
    let unchanged = merge_hooks_config(None, Some(settings)).unwrap();
    assert_eq!(unchanged.len(), 1);
}

// ---- workspace files ----

#[test]
fn workspace_filenames_are_checked_against_the_allowed_list() {
    assert_eq!(allowed_files().len(), 9);
    assert!(validate_filename("SOUL.md").is_ok());
    assert_eq!(
        validate_filename("evil.md"),
        Err("Invalid workspace filename: evil.md. Allowed: AGENTS.md, SOUL.md, USER.md, IDENTITY.md, TOOLS.md, MEMORY.md, HEARTBEAT.md, BOOTSTRAP.md, BOOT.md".to_string())
    );
}

#[test]
fn daily_memory_filenames_follow_the_date_pattern() {
    assert!(validate_daily_memory_filename("2024-01-31.md").is_ok());
    assert_eq!(
        validate_daily_memory_filename("../x.md"),
        Err("Invalid daily memory filename: ../x.md. Expected: YYYY-MM-DD.md".to_string())
    );
    assert!(validate_daily_memory_filename("2024-1-31.md").is_err());
    assert!(validate_daily_memory_filename("2024-01-31.md.bak").is_err());
}

#[test]
fn markdown_names_and_dates() {
    assert!(is_markdown_name("2024-01-01.md"));
    assert!(!is_markdown_name("notes.txt"));
    assert_eq!(date_of("2024-01-01.md"), "2024-01-01");
    assert_eq!(date_of("x.md.md"), "x");
    assert_eq!(preview("short"), "short");
    let long: String = std::iter::repeat('é').take(250).collect();
    assert_eq!(preview(&long).chars().count(), 200);
}

#[test]
fn listing_keeps_markdown_files_newest_first() {
    let files = vec![
        day("2024-01-01.md", "first day"),
        day("readme.txt", "skip"),
        day("2024-03-01.md", "third"),
        day("2024-02-01.md", "second"),
    ];
    let listed = list_daily_memory_files(files);
    let names: Vec<&str> = listed.iter().map(|f| f.filename.as_str()).collect();
    assert_eq!(names, vec!["2024-03-01.md", "2024-02-01.md", "2024-01-01.md"]);
    assert_eq!(listed[0].date, "2024-03-01");
    assert_eq!(listed[0].preview, "third");
    assert_eq!(listed[0].modified_at, 42);
    assert_eq!(listed[2].size_bytes, 9);
}

#[test]
fn search_counts_matches_ignoring_case_and_cuts_a_snippet() {
    let long_before = "x".repeat(60);
    let content = format!("{}Hello world, hello again", long_before);
    let files = vec![
        day("2024-01-01.md", &content),
        day("2024-01-02.md", "nothing here"),
        day("2024-01-03.txt", "hello"),
    ];
    let hits = search_daily_memory_files("HELLO", files);
    assert_eq!(hits.len(), 1);
    assert_eq!(hits[0].filename, "2024-01-01.md");
    assert_eq!(hits[0].match_count, 2);
    let expected = format!("...{}", &content[10..]);
    assert_eq!(hits[0].snippet, expected);
}

#[test]
fn search_matches_the_date_and_sorts_newest_first() {
    let files = vec![
        day("2024-01-05.md", "a"),
        day("2024-02-05.md", "b"),
        day("2023-12-05.md", "c"),
    ];
    let hits = search_daily_memory_files("2024", files);
    let names: Vec<&str> = hits.iter().map(|h| h.filename.as_str()).collect();
    assert_eq!(names, vec!["2024-02-05.md", "2024-01-05.md"]);
    assert_eq!(hits[0].match_count, 0);
    assert_eq!(hits[0].snippet, "b");
    assert!(search_daily_memory_files("", vec![day("2024-01-01.md", "x")]).is_empty());
    let upper = search_daily_memory_files("ÀB", vec![day("2024-01-01.md", "xàbx")]);
    assert_eq!(upper.len(), 1);
    assert_eq!(upper[0].match_count, 1);
}

#[test]
fn search_snippet_without_content_match_is_the_start() {
    let content = "y".repeat(130);
    let hits = search_daily_memory_files("2024", vec![day("2024-01-01.md", &content)]);
    assert_eq!(hits[0].snippet, format!("{}...", "y".repeat(120)));
}

#[test]
fn byte_helpers() {
    let s = "aé b";
    assert_eq!(byte_len(s), 5);
    assert_eq!(floor_char_boundary(s, 2), 1);
    assert_eq!(ceil_char_boundary(s, 2), 3);
    assert_eq!(ceil_char_boundary(s, 99), 5);
    assert_eq!(find_all(b"abcabc", b"bc"), vec![1, 4]);
    assert_eq!(find_all(b"aaaa", b"aa"), vec![0, 2]);
}

#[test]
fn merging_the_same_hooks_twice_changes_nothing() {
    let ws = || {
        vec![
            WorkspaceHookGroup {
                key: "PreToolUse".to_string(),
                entries: Some(vec![hook(Some("Bash"), "bash"), hook(Some("Edit"), "edit")]),
            },
            WorkspaceHookGroup { key: "Stop".to_string(), entries: Some(vec![hook(Some("*"), "stop")]) },
        ]
    };
    let settings = vec![HookGroup { key: "Stop".to_string(), slot: HookSlot::Entries(vec![hook(None, "keep")]) }];
    let once = merge_hooks_config(Some(ws()), Some(settings)).unwrap();
    let once_tags: Vec<Vec<String>> = once.iter().map(tags).collect();
    let twice = merge_hooks_config(Some(ws()), Some(once)).unwrap();
    let twice_tags: Vec<Vec<String>> = twice.iter().map(tags).collect();
    assert_eq!(once_tags, twice_tags);
    assert_eq!(twice_tags, vec![vec!["keep".to_string(), "stop".to_string()], vec!["bash".to_string(), "edit".to_string()]]);
}

#[test]
fn deleting_after_an_upsert_undoes_it() {
    let start = || WorkspaceMcpFile {
        version: Some(1),
        servers: vec![entry("a", None, None, None), entry("b", None, None, None)],
    };
    let mut direct = start();
    WorkspaceService::delete_mcp_server(&mut direct, "a");
    let mut via_upsert = start();
    WorkspaceService::upsert_mcp_server(&mut via_upsert, "a".to_string(), Some("new".to_string()), None, None, Value::Null);
    WorkspaceService::delete_mcp_server(&mut via_upsert, "a");
    assert_eq!(ids(&direct), ids(&via_upsert));
    let mut fresh = start();
    WorkspaceService::upsert_mcp_server(&mut fresh, "z".to_string(), None, None, None, Value::Null);
    WorkspaceService::delete_mcp_server(&mut fresh, "z");
    assert_eq!(ids(&fresh), vec!["a", "b"]);
}

#[test]
fn skill_links_follow_configured_apps() {
    let config = WorkspaceSkillsFile {
        version: Some(1),
        skills: vec![WorkspaceSkill { name: "s".to_string(), path: "/s".to_string(), apps: only(false, true, false, false) }],
    };
    let targets = vec![Some(McpApp::Claude), Some(McpApp::Codex), None];
    assert_eq!(skill_link_flags(&config, "s", &targets), vec![false, true, false]);
    assert_eq!(skill_link_flags(&config, "other", &targets), vec![true, true, false]);
}

#[test]
fn sync_uses_the_apps_just_set() {
    let mut config = default_skills_config();
    let chosen = only(false, true, true, false);
    WorkspaceService::update_skill_apps(&mut config, "/s", "k".to_string(), chosen);
    assert_eq!(skill_apps_for_sync(&config, "k"), chosen);
    let again = only(true, false, false, false);
    WorkspaceService::update_skill_apps(&mut config, "/s", "k".to_string(), again);
    assert_eq!(skill_apps_for_sync(&config, "k"), again);
    assert_eq!(config.skills.len(), 1);
}

#[test]
fn search_snippet_follows_the_match_when_lowering_shrinks_text() {
    let kelvin = "\u{212A}".repeat(60);
    let content = format!("{}x", kelvin);
    let hits = search_daily_memory_files("x", vec![day("2024-01-01.md", &content)]);
    assert_eq!(hits.len(), 1);
    assert_eq!(hits[0].match_count, 1);
    assert!(hits[0].snippet.ends_with('x'));
    assert_eq!(hits[0].snippet, format!("...{}x", "\u{212A}".repeat(17)));
}
