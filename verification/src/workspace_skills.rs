//! The workspace's skills: the per-skill application choices kept in
//! `skills.json`, the listing of the skill directories with those choices, and which
//! applications a skill is linked into.

use vstd::prelude::*;
use crate::text::{trim, trim_str, path_join, join_path};
use crate::continuation_store::str_eq;
use crate::workspace_mcp::{McpApps, McpApp, app_flag, app_enabled};
use crate::sorting::{Keyed, sort_stable, sorted_stable, key_of};
use crate::workspace_paths::WorkspaceService;

verus! {

/// A skill of the workspace: its name, its directory and its applications.
#[derive(Debug)]
pub struct WorkspaceSkill {
    pub name: String,
    pub path: String,
    pub apps: McpApps,
}

impl Keyed for WorkspaceSkill {
    open spec fn key(&self) -> Seq<char> {
        self.name@
    }

    fn key_str(&self) -> (r: &str) {
        self.name.as_str()
    }
}

/// The workspace's `skills.json`.
#[derive(Debug)]
pub struct WorkspaceSkillsFile {
    pub version: Option<u32>,
    pub skills: Vec<WorkspaceSkill>,
}

/// The configuration of a workspace without `skills.json`: version 1, no skills.
pub fn default_skills_config() -> (r: WorkspaceSkillsFile)
    ensures
        r.version == Some(1u32),
        r.skills@.len() == 0,
{
    WorkspaceSkillsFile { version: Some(1), skills: Vec::new() }
}

/// Enabled for every application, as a skill without a configuration entry is.
pub open spec fn all_apps() -> McpApps {
    McpApps { claude: true, codex: true, gemini: true, opencode: true }
}

/// A directory name is a skill: it is not blank and does not start with a dot.
pub open spec fn valid_skill_name(name: Seq<char>) -> bool {
    trim(name).len() > 0 && !(name.len() > 0 && name[0] == '.')
}

/// Whether the directory name `name` is a skill.
pub fn is_valid_skill_name(name: &str) -> (r: bool)
    ensures
        r == valid_skill_name(name@),
{
    let blank = trim_str(name).is_empty();
    let dotted = name.unicode_len() > 0 && name.get_char(0) == '.';
    !blank && !dotted
}

/// The applications the configuration gives skill `name`: those of its last entry
/// of that name, if any.
pub open spec fn configured_apps(skills: Seq<WorkspaceSkill>, name: Seq<char>) -> Option<McpApps>
    decreases skills.len(),
{
    if skills.len() == 0 {
        None
    } else if skills.last().name@ == name {
        Some(skills.last().apps)
    } else {
        configured_apps(skills.drop_last(), name)
    }
}

/// The applications the configuration gives skill `name`.
pub fn configured_apps_of(skills: &Vec<WorkspaceSkill>, name: &str) -> (r: Option<McpApps>)
    ensures
        r == configured_apps(skills@, name@),
{
    let mut i: usize = skills.len();
    proof {
        assert(skills@.take(i as int) =~= skills@);
    }
    while i > 0
        invariant
            i <= skills@.len(),
            configured_apps(skills@, name@) == configured_apps(skills@.take(i as int), name@),
        decreases i,
    {
        proof {
            assert(skills@.take(i as int).drop_last() =~= skills@.take(i - 1));
            assert(skills@.take(i as int).last() == skills@[i - 1]);
        }
        if str_eq(skills[i - 1].name.as_str(), name) {
            return Some(skills[i - 1].apps);
        }
        i = i - 1;
    }
    proof {
        assert(skills@.take(0) =~= Seq::<WorkspaceSkill>::empty());
    }
    None
}

/// The applications skill `name` is linked into when the workspace is synchronised:
/// its configured ones, or all.
pub open spec fn sync_apps(skills: Seq<WorkspaceSkill>, name: Seq<char>) -> McpApps {
    match configured_apps(skills, name) {
        Some(a) => a,
        None => all_apps(),
    }
}

/// The applications a skill is linked into when the workspace is synchronised: its
/// configured ones, or all.
pub fn skill_apps_for_sync(config: &WorkspaceSkillsFile, name: &str) -> (r: McpApps)
    ensures
        r == sync_apps(config.skills@, name@),
{
    match configured_apps_of(&config.skills, name) {
        Some(a) => a,
        None => McpApps::all(),
    }
}

/// Whether a skill with the applications `apps` is linked into the application
/// `target` (`None` for one that no workspace skill can be enabled for).
pub open spec fn links_into(apps: McpApps, target: Option<McpApp>) -> bool {
    match target {
        Some(a) => app_flag(apps, a),
        None => false,
    }
}

proof fn lemma_configured_apps(skills: Seq<WorkspaceSkill>, name: Seq<char>)
    ensures
        configured_apps(skills, name) is None <==> forall|i: int| 0 <= i < skills.len() ==> (#[trigger] skills[i]).name@ != name,
        configured_apps(skills, name) matches Some(c) ==> exists|k: int|
            0 <= k < skills.len() && #[trigger] skills[k].name@ == name && skills[k].apps == c && forall|j: int|
                k < j < skills.len() ==> (#[trigger] skills[j]).name@ != name,
    decreases skills.len(),
{
    if skills.len() > 0 {
        let d = skills.drop_last();
        lemma_configured_apps(d, name);
        if skills.last().name@ != name {
            assert forall|i: int| 0 <= i < d.len() implies skills[i] == #[trigger] d[i] by {}
            if configured_apps(d, name) is Some {
                let k = choose|k: int|
                    0 <= k < d.len() && #[trigger] d[k].name@ == name && d[k].apps == configured_apps(d, name)->0
                        && forall|j: int| k < j < d.len() ==> (#[trigger] d[j]).name@ != name;
                assert(skills[k] == d[k]);
                assert forall|j: int| k < j < skills.len() implies (#[trigger] skills[j]).name@ != name by {
                    if j < d.len() {
                        assert(skills[j] == d[j]);
                    }
                }
            } else {
                assert forall|i: int| 0 <= i < skills.len() implies (#[trigger] skills[i]).name@ != name by {
                    if i < d.len() {
                        assert(skills[i] == d[i]);
                    }
                }
            }
        } else {
            assert(skills[skills.len() - 1].name@ == name);
        }
    }
}

/// Synchronisation links a skill into one of the four applications exactly when
/// the skill's applications name it, and into no other application. The skill's
/// applications are those of its last configuration entry, and all four where it
/// has none.
pub proof fn law_skill_links(skills: Seq<WorkspaceSkill>, name: Seq<char>, apps: McpApps)
    ensures
        links_into(apps, Some(McpApp::Claude)) == apps.claude,
        links_into(apps, Some(McpApp::Codex)) == apps.codex,
        links_into(apps, Some(McpApp::Gemini)) == apps.gemini,
        links_into(apps, Some(McpApp::Opencode)) == apps.opencode,
        !links_into(apps, None),
        (forall|i: int| 0 <= i < skills.len() ==> (#[trigger] skills[i]).name@ != name) ==> {
            &&& links_into(sync_apps(skills, name), Some(McpApp::Claude))
            &&& links_into(sync_apps(skills, name), Some(McpApp::Codex))
            &&& links_into(sync_apps(skills, name), Some(McpApp::Gemini))
            &&& links_into(sync_apps(skills, name), Some(McpApp::Opencode))
        },
        forall|k: int|
            0 <= k < skills.len() && #[trigger] skills[k].name@ == name && (forall|j: int|
                k < j < skills.len() ==> (#[trigger] skills[j]).name@ != name) ==> sync_apps(skills, name)
                == skills[k].apps,
{
    lemma_configured_apps(skills, name);
    assert forall|k: int|
        0 <= k < skills.len() && #[trigger] skills[k].name@ == name && (forall|j: int|
            k < j < skills.len() ==> (#[trigger] skills[j]).name@ != name) implies sync_apps(skills, name)
            == skills[k].apps by {
        let c = configured_apps(skills, name)->0;
        let k2 = choose|k2: int|
            0 <= k2 < skills.len() && #[trigger] skills[k2].name@ == name && skills[k2].apps == c && forall|j: int|
                k2 < j < skills.len() ==> (#[trigger] skills[j]).name@ != name;
        if k < k2 {
            assert(skills[k2].name@ != name);
        } else if k2 < k {
            assert(skills[k].name@ != name);
        }
    }
}

/// For each of the applications `targets`, whether the synchronisation links skill
/// `name` into it (otherwise it only clears the skill's place there).
pub fn skill_link_flags(config: &WorkspaceSkillsFile, name: &str, targets: &Vec<Option<McpApp>>) -> (r: Vec<bool>)
    ensures
        r@.len() == targets@.len(),
        forall|i: int| 0 <= i < r@.len() ==> r@[i] == links_into(sync_apps(config.skills@, name@), #[trigger] targets@[i]),
{
    let apps = skill_apps_for_sync(config, name);
    let mut r: Vec<bool> = Vec::new();
    let mut i: usize = 0;
    while i < targets.len()
        invariant
            i <= targets@.len(),
            apps == sync_apps(config.skills@, name@),
            r@.len() == i,
            forall|j: int| 0 <= j < i ==> r@[j] == links_into(apps, #[trigger] targets@[j]),
        decreases targets@.len() - i,
    {
        let flag = match targets[i] {
            Some(a) => app_enabled(apps, a),
            None => false,
        };
        r.push(flag);
        i = i + 1;
    }
    r
}

/// Whether some skill of `s` is named `name`.
pub open spec fn has_skill_named(s: Seq<WorkspaceSkill>, name: Seq<char>) -> bool {
    exists|i: int| 0 <= i < s.len() && #[trigger] s[i].name@ == name
}

/// The first skill of `s` named `name`, if any.
pub open spec fn first_named(s: Seq<WorkspaceSkill>, name: Seq<char>) -> Option<int> {
    if has_skill_named(s, name) {
        Some(
            choose|i: int|
                0 <= i < s.len() && #[trigger] s[i].name@ == name && forall|j: int|
                    0 <= j < i ==> (#[trigger] s[j]).name@ != name,
        )
    } else {
        None
    }
}

fn position_of_name(s: &Vec<WorkspaceSkill>, name: &str) -> (r: Option<usize>)
    ensures
        r matches Some(i) ==> first_named(s@, name@) == Some(i as int) && i < s@.len()
            && s@[i as int].name@ == name@,
        r is None ==> first_named(s@, name@) is None,
{
    let mut i: usize = 0;
    while i < s.len()
        invariant
            i <= s@.len(),
            forall|j: int| 0 <= j < i ==> (#[trigger] s@[j]).name@ != name@,
        decreases s@.len() - i,
    {
        if str_eq(s[i].name.as_str(), name) {
            proof {
                let c = choose|c: int|
                    0 <= c < s@.len() && #[trigger] s@[c].name@ == name@ && forall|j: int|
                        0 <= j < c ==> (#[trigger] s@[j]).name@ != name@;
                assert(s@[i as int].name@ == name@);
                if c > i {
                    assert(s@[i as int].name@ != name@);
                }
            }
            return Some(i);
        }
        i = i + 1;
    }
    None
}

/// `after` is `before` with the applications of skill `name` set to `apps`: on its
/// first entry, or on a new last entry whose path is `name` under `skills_dir`.
pub open spec fn skill_apps_updated(
    before: Seq<WorkspaceSkill>,
    after: Seq<WorkspaceSkill>,
    skills_dir: Seq<char>,
    name: String,
    apps: McpApps,
) -> bool {
    match first_named(before, name@) {
        Some(i) => after.len() == before.len() && after[i].apps == apps && after[i].name == before[i].name
            && after[i].path == before[i].path && forall|j: int|
            0 <= j < before.len() && j != i ==> #[trigger] after[j] == before[j],
        None => after.len() == before.len() + 1 && after.take(before.len() as int) == before && after.last().name
            == name && after.last().path@ == path_join(skills_dir, name@) && after.last().apps == apps,
    }
}

proof fn lemma_min_named(s: Seq<WorkspaceSkill>, name: Seq<char>) -> (i: int)
    requires
        has_skill_named(s, name),
    ensures
        0 <= i < s.len(),
        s[i].name@ == name,
        forall|j: int| 0 <= j < i ==> (#[trigger] s[j]).name@ != name,
    decreases s.len(),
{
    if s[0].name@ == name {
        0
    } else {
        let t = s.drop_first();
        let w = choose|w: int| 0 <= w < s.len() && #[trigger] s[w].name@ == name;
        assert(t[w - 1].name@ == name);
        let i = lemma_min_named(t, name);
        assert(s[i + 1] == t[i]);
        assert forall|j: int| 0 <= j < i + 1 implies (#[trigger] s[j]).name@ != name by {
            if j > 0 {
                assert(s[j] == t[j - 1]);
            }
        }
        i + 1
    }
}

proof fn lemma_first_named(s: Seq<WorkspaceSkill>, name: Seq<char>)
    ensures
        first_named(s, name) matches Some(i) ==> 0 <= i < s.len() && s[i].name@ == name,
        first_named(s, name) is None ==> forall|j: int| 0 <= j < s.len() ==> (#[trigger] s[j]).name@ != name,
{
    if has_skill_named(s, name) {
        let _ = lemma_min_named(s, name);
    }
}

proof fn lemma_configured_apps_single(s: Seq<WorkspaceSkill>, name: Seq<char>, k: int)
    requires
        0 <= k < s.len(),
        s[k].name@ == name,
        forall|j: int| 0 <= j < s.len() && (#[trigger] s[j]).name@ == name ==> j == k,
    ensures
        configured_apps(s, name) == Some(s[k].apps),
    decreases s.len(),
{
    if k < s.len() - 1 {
        let d = s.drop_last();
        assert(s[s.len() - 1].name@ != name);
        assert forall|j: int| 0 <= j < d.len() && (#[trigger] d[j]).name@ == name implies j == k by {
            assert(d[j] == s[j]);
        }
        lemma_configured_apps_single(d, name, k);
    }
}

/// Once the applications of a skill are set, synchronising links it into exactly
/// those applications, where the configuration held at most one entry of its name.
pub proof fn law_update_then_sync_apps(
    before: Seq<WorkspaceSkill>,
    after: Seq<WorkspaceSkill>,
    skills_dir: Seq<char>,
    name: String,
    apps: McpApps,
)
    requires
        skill_apps_updated(before, after, skills_dir, name, apps),
        forall|i: int, j: int|
            0 <= i < before.len() && 0 <= j < before.len() && (#[trigger] before[i]).name@ == name@
                && (#[trigger] before[j]).name@ == name@ ==> i == j,
    ensures
        sync_apps(after, name@) == apps,
{
    lemma_first_named(before, name@);
    match first_named(before, name@) {
        Some(i) => {
            assert forall|j: int| 0 <= j < after.len() && (#[trigger] after[j]).name@ == name@ implies j == i by {
                if j != i {
                    assert(after[j] == before[j]);
                }
            }
            lemma_configured_apps_single(after, name@, i);
        },
        None => {
            assert(after.last().name@ == name@);
        },
    }
}

impl WorkspaceService {
    /// Sets the applications of skill `name`: on its first entry, or on a new entry
    /// whose path is `name` under the skills directory `skills_dir`.
    #[verifier::rlimit(30)]
    pub fn update_skill_apps(config: &mut WorkspaceSkillsFile, skills_dir: &str, name: String, apps: McpApps)
        ensures
            final(config).version == old(config).version,
            skill_apps_updated(old(config).skills@, final(config).skills@, skills_dir@, name, apps),
    {
        match position_of_name(&config.skills, name.as_str()) {
            Some(i) => {
                let mut skills: Vec<WorkspaceSkill> = Vec::new();
                std::mem::swap(&mut skills, &mut config.skills);
                let ghost before = skills@;
                let mut last = skills.remove(i);
                last.apps = apps;
                skills.insert(i, last);
                proof {
                    assert forall|j: int| 0 <= j < before.len() && j != i implies #[trigger] skills@[j] == before[j] by {}
                    assert(skills@[i as int].apps == apps);
                    assert(skills@[i as int].name == before[i as int].name);
                    assert(skills@[i as int].path == before[i as int].path);
                }
                config.skills = skills;
            },
            None => {
                let ghost before = config.skills@;
                let path = join_path(skills_dir, name.as_str());
                config.skills.push(WorkspaceSkill { name, path, apps });
                assert(config.skills@.take(before.len() as int) =~= before);
            },
        }
    }
}

/// A subdirectory of the skills directory: its file name and its full path.
#[derive(Debug)]
pub struct SkillDirEntry {
    pub name: String,
    pub path: String,
}

/// The skills of the directories `dirs`, in their order: those with a valid name,
/// each with its configured applications (all where it has none); a directory whose
/// name an earlier one already took gets all applications.
pub open spec fn listed_skills(skills: Seq<WorkspaceSkill>, dirs: Seq<SkillDirEntry>) -> Seq<WorkspaceSkill>
    decreases dirs.len(),
{
    if dirs.len() == 0 {
        seq![]
    } else {
        let prev = listed_skills(skills, dirs.drop_last());
        let d = dirs.last();
        if valid_skill_name(d.name@) {
            let apps = if has_skill_named(prev, d.name@) {
                all_apps()
            } else {
                match configured_apps(skills, d.name@) {
                    Some(a) => a,
                    None => all_apps(),
                }
            };
            prev.push(WorkspaceSkill { name: d.name, path: d.path, apps })
        } else {
            prev
        }
    }
}

impl WorkspaceService {
    /// The workspace's skills from its configuration and the subdirectories of its
    /// skills directory, sorted by name.
    pub fn get_skills(config: &WorkspaceSkillsFile, dirs: Vec<SkillDirEntry>) -> (r: Vec<WorkspaceSkill>)
        ensures
            r@ == sorted_stable(listed_skills(config.skills@, dirs@), key_of::<WorkspaceSkill>(), false),
    {
        let mut rest = dirs;
        let ghost orig = rest@;
        let mut out: Vec<WorkspaceSkill> = Vec::new();
        let ghost mut k: int = 0;
        while rest.len() > 0
            invariant
                0 <= k <= orig.len(),
                rest@ == orig.skip(k),
                out@ == listed_skills(config.skills@, orig.take(k)),
            decreases rest@.len(),
        {
            let d = rest.remove(0);
            proof {
                assert(d == orig[k]);
                assert(orig.take(k + 1).drop_last() =~= orig.take(k));
                assert(orig.take(k + 1).last() == orig[k]);
            }
            if is_valid_skill_name(d.name.as_str()) {
                let taken = position_of_name(&out, d.name.as_str()).is_some();
                let apps = if taken {
                    McpApps::all()
                } else {
                    match configured_apps_of(&config.skills, d.name.as_str()) {
                        Some(a) => a,
                        None => McpApps::all(),
                    }
                };
                proof {
                    if !taken {
                        assert(!has_skill_named(out@, d.name@));
                    }
                }
                out.push(WorkspaceSkill { name: d.name, path: d.path, apps });
            }
            proof {
                assert(rest@ =~= orig.skip(k + 1));
                k = k + 1;
            }
        }
        proof {
            assert(orig.take(k) =~= orig);
        }
        sort_stable(out, false)
    }
}

} // verus!
