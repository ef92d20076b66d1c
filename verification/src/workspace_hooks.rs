//! The workspace's hooks: which applications have hooks, which files of a hooks
//! directory are listed and linked, and the merge of workspace hook entries into
//! an application's settings.

use vstd::prelude::*;
use crate::continuation_store::str_eq;
use crate::workspace_mcp::McpApp;

verus! {

broadcast use vstd::seq_lib::group_seq_properties;

/// The applications that have a hooks directory in the workspace, in order.
pub open spec fn hook_app_list() -> Seq<McpApp> {
    seq![McpApp::Claude, McpApp::Codex, McpApp::Gemini, McpApp::Opencode]
}

/// The applications that have a hooks directory in the workspace.
pub fn hook_apps() -> (r: Vec<McpApp>)
    ensures
        r@ == hook_app_list(),
{
    let r = vec![McpApp::Claude, McpApp::Codex, McpApp::Gemini, McpApp::Opencode];
    assert(r@ =~= hook_app_list());
    r
}

/// A file of an application's hooks directory.
#[derive(Debug)]
pub struct WorkspaceHookFile {
    pub name: String,
    pub path: String,
    pub full_path: String,
    pub size: u64,
}

/// An application's hooks: its files and the parsed `hooks.json`, if any.
#[derive(Debug)]
pub struct WorkspaceHookApp {
    pub app: String,
    pub files: Vec<WorkspaceHookFile>,
    pub config: Option<serde_json::Value>,
}

/// The hooks entry of an application, listed when it has files or a `hooks.json`.
pub fn hook_app_entry(app: &str, files: Vec<WorkspaceHookFile>, config: Option<serde_json::Value>) -> (r:
    Option<WorkspaceHookApp>)
    ensures
        r is Some <==> (files@.len() > 0 || config is Some),
        r matches Some(h) ==> h.app@ == app@ && h.files@ == files@ && h.config == config,
{
    if files.len() > 0 || config.is_some() {
        Some(WorkspaceHookApp { app: app.to_owned(), files, config })
    } else {
        None
    }
}

/// A directory entry the hooks listing passes over: hidden, or the `hooks.json`
/// configuration itself.
pub open spec fn skipped_hook_name(name: Seq<char>) -> bool {
    (name.len() > 0 && name[0] == '.') || name == "hooks.json"@
}

/// Whether the hooks listing passes over the entry called `name`.
pub fn is_skipped_hook_name(name: &str) -> (r: bool)
    ensures
        r == skipped_hook_name(name@),
{
    (name.unicode_len() > 0 && name.get_char(0) == '.') || str_eq(name, "hooks.json")
}

/// Whether a file with extension `extension` is an opencode hook plugin (`ts`).
pub fn is_typescript_hook(extension: Option<&str>) -> (r: bool)
    ensures
        r == (match extension {
            Some(e) => e@ == "ts"@,
            None => false,
        }),
{
    match extension {
        Some(e) => str_eq(e, "ts"),
        None => false,
    }
}

/// One hook entry: its `matcher` string, if it has one, and the entry itself.
#[derive(Debug)]
pub struct HookEntry {
    pub matcher: Option<String>,
    pub value: serde_json::Value,
}

/// A field of the workspace's `hooks.json`: its key and, when the value is an
/// array, its entries.
#[derive(Debug)]
pub struct WorkspaceHookGroup {
    pub key: String,
    pub entries: Option<Vec<HookEntry>>,
}

/// The value of a field of the settings' `hooks` object.
#[derive(Debug)]
pub enum HookSlot {
    Entries(Vec<HookEntry>),
    Other(serde_json::Value),
}

/// A field of the settings' `hooks` object.
#[derive(Debug)]
pub struct HookGroup {
    pub key: String,
    pub slot: HookSlot,
}

/// Why hooks could not be merged.
#[derive(Debug)]
pub enum MergeHooksError {
    /// The settings have no `hooks` object.
    MissingHooksField,
    /// The settings' hooks field of this key is not an array.
    NotArray(String),
}

/// A slot as a sequence of entries or an opaque value.
pub enum SlotView {
    Entries(Seq<HookEntry>),
    Other(serde_json::Value),
}

/// A settings field as text and entries.
pub struct GroupView {
    pub key: Seq<char>,
    pub slot: SlotView,
}

/// A merge error as text.
pub enum MergeErrorView {
    MissingHooksField,
    NotArray(Seq<char>),
}

/// The view of a settings field.
pub open spec fn group_view(g: HookGroup) -> GroupView {
    GroupView {
        key: g.key@,
        slot: match g.slot {
            HookSlot::Entries(v) => SlotView::Entries(v@),
            HookSlot::Other(v) => SlotView::Other(v),
        },
    }
}

/// The views of settings fields.
pub open spec fn groups_view(gs: Seq<HookGroup>) -> Seq<GroupView> {
    gs.map_values(|g: HookGroup| group_view(g))
}

/// An entry of `existing` has the matcher `x` has.
pub open spec fn duplicate_matcher(existing: Seq<HookEntry>, x: HookEntry) -> bool {
    match x.matcher {
        Some(m) => exists|i: int| 0 <= i < existing.len() && #[trigger] existing[i].matcher.deep_view() == Some(m@),
        None => false,
    }
}

/// `arr` appended to `existing` in order, each entry skipped where an entry already
/// there (or appended before it) has its matcher.
pub open spec fn merge_entries(existing: Seq<HookEntry>, arr: Seq<HookEntry>) -> Seq<HookEntry>
    decreases arr.len(),
{
    if arr.len() == 0 {
        existing
    } else {
        let e = merge_entries(existing, arr.drop_last());
        if duplicate_matcher(e, arr.last()) {
            e
        } else {
            e.push(arr.last())
        }
    }
}

/// The first settings field with key `key`, if any.
pub open spec fn first_group(gs: Seq<GroupView>, key: Seq<char>) -> Option<int> {
    if exists|i: int| 0 <= i < gs.len() && #[trigger] gs[i].key == key {
        Some(
            choose|i: int|
                0 <= i < gs.len() && #[trigger] gs[i].key == key && forall|j: int|
                    0 <= j < i ==> (#[trigger] gs[j]).key != key,
        )
    } else {
        None
    }
}

/// The settings fields after merging one workspace field: a field that is not an
/// array is passed over; an array's entries join the settings field of its key (a
/// new empty array where there is none), which must be an array.
#[verifier::opaque]
pub open spec fn merge_group(
    state: Result<Seq<GroupView>, MergeErrorView>,
    key: Seq<char>,
    entries: Option<Seq<HookEntry>>,
) -> Result<Seq<GroupView>, MergeErrorView> {
    match state {
        Err(e) => Err(e),
        Ok(gs) => match entries {
            None => Ok(gs),
            Some(arr) => match first_group(gs, key) {
                Some(i) => match gs[i].slot {
                    SlotView::Entries(ex) => Ok(
                        gs.update(i, GroupView { key: gs[i].key, slot: SlotView::Entries(merge_entries(ex, arr)) }),
                    ),
                    SlotView::Other(_) => Err(MergeErrorView::NotArray(key)),
                },
                None => Ok(gs.push(GroupView { key, slot: SlotView::Entries(merge_entries(seq![], arr)) })),
            },
        },
    }
}

/// A workspace field's entries as a sequence.
pub open spec fn entries_view(e: Option<Vec<HookEntry>>) -> Option<Seq<HookEntry>> {
    match e {
        Some(v) => Some(v@),
        None => None,
    }
}

/// The workspace fields folded into the settings fields, in order.
pub open spec fn merge_all(
    settings: Seq<GroupView>,
    workspace: Seq<WorkspaceHookGroup>,
) -> Result<Seq<GroupView>, MergeErrorView>
    decreases workspace.len(),
{
    if workspace.len() == 0 {
        Ok(settings)
    } else {
        let g = workspace.last();
        merge_group(merge_all(settings, workspace.drop_last()), g.key@, entries_view(g.entries))
    }
}

/// The outcome of merging hooks, in views.
pub open spec fn merged_hooks(
    workspace: Option<Seq<WorkspaceHookGroup>>,
    settings: Option<Seq<GroupView>>,
) -> Result<Seq<GroupView>, MergeErrorView> {
    match settings {
        None => Err(MergeErrorView::MissingHooksField),
        Some(gs) => match workspace {
            None => Ok(gs),
            Some(w) => merge_all(gs, w),
        },
    }
}

/// A merge result's view.
pub open spec fn result_view(r: Result<Vec<HookGroup>, MergeHooksError>) -> Result<Seq<GroupView>, MergeErrorView> {
    match r {
        Ok(v) => Ok(groups_view(v@)),
        Err(MergeHooksError::MissingHooksField) => Err(MergeErrorView::MissingHooksField),
        Err(MergeHooksError::NotArray(k)) => Err(MergeErrorView::NotArray(k@)),
    }
}

proof fn lemma_merge_error_sticks(settings: Seq<GroupView>, w: Seq<WorkspaceHookGroup>, n: int)
    requires
        0 <= n <= w.len(),
        merge_all(settings, w.take(n)) is Err,
    ensures
        merge_all(settings, w) == merge_all(settings, w.take(n)),
    decreases w.len() - n,
{
    reveal(merge_group);
    if n == w.len() {
        assert(w.take(n) =~= w);
    } else {
        let d = w.drop_last();
        assert(d.take(n) =~= w.take(n));
        lemma_merge_error_sticks(settings, d, n);
    }
}

fn has_matcher(existing: &Vec<HookEntry>, m: &str) -> (r: bool)
    ensures
        r == exists|i: int| 0 <= i < existing@.len() && #[trigger] existing@[i].matcher.deep_view() == Some(m@),
{
    let mut i: usize = 0;
    while i < existing.len()
        invariant
            i <= existing@.len(),
            forall|j: int| 0 <= j < i ==> (#[trigger] existing@[j]).matcher.deep_view() != Some(m@),
        decreases existing@.len() - i,
    {
        match &existing[i].matcher {
            Some(x) => {
                if str_eq(x.as_str(), m) {
                    return true;
                }
            },
            None => {},
        }
        i = i + 1;
    }
    false
}

/// Appends the entries of `arr` to `existing`, skipping those whose matcher is
/// already there.
fn merge_entries_into(existing: &mut Vec<HookEntry>, arr: Vec<HookEntry>)
    ensures
        final(existing)@ == merge_entries(old(existing)@, arr@),
{
    let mut rest = arr;
    let ghost orig = rest@;
    let ghost start = existing@;
    let ghost mut k: int = 0;
    while rest.len() > 0
        invariant
            0 <= k <= orig.len(),
            rest@ == orig.skip(k),
            existing@ == merge_entries(start, orig.take(k)),
        decreases rest@.len(),
    {
        let x = rest.remove(0);
        proof {
            assert(x == orig[k]);
            assert(orig.take(k + 1).drop_last() =~= orig.take(k));
            assert(orig.take(k + 1).last() == orig[k]);
        }
        let dup = match &x.matcher {
            Some(m) => has_matcher(existing, m.as_str()),
            None => false,
        };
        if !dup {
            existing.push(x);
        }
        proof {
            assert(rest@ =~= orig.skip(k + 1));
            k = k + 1;
        }
    }
    proof {
        assert(orig.take(k) =~= orig);
    }
}

fn position_of_key(gs: &Vec<HookGroup>, key: &str) -> (r: Option<usize>)
    ensures
        r matches Some(i) ==> first_group(groups_view(gs@), key@) == Some(i as int) && i < gs@.len(),
        r is None ==> first_group(groups_view(gs@), key@) is None,
{
    let ghost v = groups_view(gs@);
    let mut i: usize = 0;
    while i < gs.len()
        invariant
            i <= gs@.len(),
            v == groups_view(gs@),
            forall|j: int| 0 <= j < i ==> (#[trigger] v[j]).key != key@,
        decreases gs@.len() - i,
    {
        assert(v[i as int].key == gs@[i as int].key@);
        if str_eq(gs[i].key.as_str(), key) {
            proof {
                let c = choose|c: int|
                    0 <= c < v.len() && #[trigger] v[c].key == key@ && forall|j: int|
                        0 <= j < c ==> (#[trigger] v[j]).key != key@;
                assert(v[i as int].key == key@);
                if c > i {
                    assert(v[i as int].key != key@);
                }
            }
            return Some(i);
        }
        i = i + 1;
    }
    proof {
        if exists|j: int| 0 <= j < v.len() && #[trigger] v[j].key == key@ {
            let j = choose|j: int| 0 <= j < v.len() && #[trigger] v[j].key == key@;
            assert(v[j].key != key@);
        }
    }
    None
}

/// Merges one workspace field into the settings fields `groups`; after an error
/// nothing is said of `groups`.
fn merge_one_group(groups: &mut Vec<HookGroup>, g: WorkspaceHookGroup) -> (r: Result<(), MergeHooksError>)
    ensures
        match r {
            Ok(()) => merge_group(
                Ok(groups_view(old(groups)@)),
                g.key@,
                entries_view(g.entries),
            ) == Ok::<Seq<GroupView>, MergeErrorView>(groups_view(final(groups)@)),
            Err(e) => merge_group(
                Ok(groups_view(old(groups)@)),
                g.key@,
                entries_view(g.entries),
            ) == result_view(Err(e)) && e is NotArray,
        },
{
    reveal(merge_group);
    let ghost gv = groups_view(groups@);
    let WorkspaceHookGroup { key, entries } = g;
    match entries {
        None => Ok(()),
        Some(arr) => {
            match position_of_key(groups, key.as_str()) {
                Some(i) => {
                    let group = groups.remove(i);
                    let ghost gg = group;
                    let HookGroup { key: gkey, slot } = group;
                    match slot {
                        HookSlot::Entries(mut ex) => {
                            merge_entries_into(&mut ex, arr);
                            groups.insert(i, HookGroup { key: gkey, slot: HookSlot::Entries(ex) });
                            proof {
                                assert(groups_view(groups@) =~= gv.update(
                                    i as int,
                                    GroupView { key: gv[i as int].key, slot: SlotView::Entries(ex@) },
                                ));
                            }
                            Ok(())
                        },
                        HookSlot::Other(_) => {
                            proof {
                                assert(gv[i as int] == group_view(gg));
                            }
                            Err(MergeHooksError::NotArray(key))
                        },
                    }
                },
                None => {
                    let mut ex: Vec<HookEntry> = Vec::new();
                    merge_entries_into(&mut ex, arr);
                    groups.push(HookGroup { key, slot: HookSlot::Entries(ex) });
                    proof {
                        assert(groups_view(groups@) =~= gv.push(
                            GroupView { key: key@, slot: SlotView::Entries(ex@) },
                        ));
                    }
                    Ok(())
                },
            }
        },
    }
}

/// Merges the workspace's `hooks.json` fields (`None` where it is not an object)
/// into the settings' `hooks` object (`None` where the settings have none): each
/// array's entries are appended to the settings array of the same key, skipping
/// those whose matcher is already there.
#[verifier::rlimit(40)]
pub fn merge_hooks_config(
    workspace: Option<Vec<WorkspaceHookGroup>>,
    settings_hooks: Option<Vec<HookGroup>>,
) -> (r: Result<Vec<HookGroup>, MergeHooksError>)
    ensures
        result_view(r) == merged_hooks(
            match workspace {
                Some(w) => Some(w@),
                None => None,
            },
            match settings_hooks {
                Some(s) => Some(groups_view(s@)),
                None => None,
            },
        ),
{
    let mut groups = match settings_hooks {
        Some(g) => g,
        None => return Err(MergeHooksError::MissingHooksField),
    };
    let mut rest = match workspace {
        Some(w) => w,
        None => return Ok(groups),
    };
    let ghost orig = rest@;
    let ghost start = groups_view(groups@);
    let ghost mut k: int = 0;
    while rest.len() > 0
        invariant
            0 <= k <= orig.len(),
            workspace matches Some(w) && w@ == orig,
            settings_hooks matches Some(sh) && groups_view(sh@) == start,
            rest@ == orig.skip(k),
            merge_all(start, orig.take(k)) == Ok::<Seq<GroupView>, MergeErrorView>(groups_view(groups@)),
        decreases rest@.len(),
    {
        let g = rest.remove(0);
        proof {
            assert(g == orig[k]);
            assert(orig.take(k + 1).drop_last() =~= orig.take(k));
            assert(orig.take(k + 1).last() == orig[k]);
        }
        let ghost before = groups_view(groups@);
        let ghost gg = g;
        let merged = merge_one_group(&mut groups, g);
        match merged {
            Ok(()) => {},
            Err(e) => {
                proof {
                    assert(merge_all(start, orig.take(k + 1)) == merge_group(Ok(before), gg.key@, entries_view(gg.entries)));
                    lemma_merge_error_sticks(start, orig, k + 1);
                }
                return Err(e);
            },
        }
        proof {
            assert(rest@ =~= orig.skip(k + 1));
            k = k + 1;
        }
    }
    proof {
        assert(orig.take(k) =~= orig);
    }
    Ok(groups)
}


/// Every entry of `arr` names a matcher.
pub open spec fn has_matchers(arr: Seq<HookEntry>) -> bool {
    forall|j: int| 0 <= j < arr.len() ==> (#[trigger] arr[j]).matcher is Some
}

/// Every entry in the arrays of the workspace fields `w` names a matcher.
pub open spec fn all_have_matchers(w: Seq<WorkspaceHookGroup>) -> bool {
    forall|k: int|
        0 <= k < w.len() ==> match #[trigger] entries_view(w[k].entries) {
            Some(arr) => has_matchers(arr),
            None => true,
        }
}

/// `a` is a prefix of `b`.
spec fn entries_prefix(a: Seq<HookEntry>, b: Seq<HookEntry>) -> bool {
    a.len() <= b.len() && forall|i: int| 0 <= i < a.len() ==> #[trigger] b[i] == a[i]
}

/// Each settings field of `gs` is still in `gs2` at its place, under its key, an
/// array only grown at its end and any other value unchanged.
spec fn groups_grow(gs: Seq<GroupView>, gs2: Seq<GroupView>) -> bool {
    &&& gs.len() <= gs2.len()
    &&& forall|i: int|
        0 <= i < gs.len() ==> {
            &&& (#[trigger] gs2[i]).key == gs[i].key
            &&& match gs[i].slot {
                SlotView::Entries(e) => gs2[i].slot matches SlotView::Entries(e2) && entries_prefix(e, e2),
                SlotView::Other(v) => gs2[i].slot == SlotView::Other(v),
            }
        }
}

/// The first settings field of key `key` is an array that already holds an entry
/// with the matcher of each entry of `arr`.
spec fn covers(gs: Seq<GroupView>, key: Seq<char>, arr: Seq<HookEntry>) -> bool {
    match first_group(gs, key) {
        Some(i) => match gs[i].slot {
            SlotView::Entries(e) => forall|j: int| 0 <= j < arr.len() ==> duplicate_matcher(e, #[trigger] arr[j]),
            SlotView::Other(_) => false,
        },
        None => false,
    }
}

proof fn lemma_first_group(gs: Seq<GroupView>, key: Seq<char>)
    ensures
        first_group(gs, key) matches Some(i) ==> 0 <= i < gs.len() && gs[i].key == key && forall|j: int|
            0 <= j < i ==> (#[trigger] gs[j]).key != key,
        first_group(gs, key) is None ==> forall|j: int| 0 <= j < gs.len() ==> (#[trigger] gs[j]).key != key,
        forall|i: int|
            0 <= i < gs.len() && gs[i].key == key && (forall|j: int| 0 <= j < i ==> (#[trigger] gs[j]).key != key)
                ==> first_group(gs, key) == Some(i),
    decreases gs.len(),
{
    if exists|i: int| 0 <= i < gs.len() && #[trigger] gs[i].key == key {
        let w = choose|i: int| 0 <= i < gs.len() && #[trigger] gs[i].key == key;
        if gs[0].key == key {
            assert(forall|j: int| 0 <= j < 0 ==> (#[trigger] gs[j]).key != key);
        } else {
            let t = gs.drop_first();
            assert(t[w - 1].key == key);
            lemma_first_group(t, key);
            let c = first_group(t, key)->0;
            assert(gs[c + 1].key == key);
            assert forall|j: int| 0 <= j < c + 1 implies (#[trigger] gs[j]).key != key by {
                if j > 0 {
                    assert(gs[j] == t[j - 1]);
                }
            }
        }
        let f = first_group(gs, key)->0;
        assert forall|i: int|
            0 <= i < gs.len() && gs[i].key == key && (forall|j: int| 0 <= j < i ==> (#[trigger] gs[j]).key != key)
                implies first_group(gs, key) == Some(i) by {
            if f < i {
                assert(gs[f].key == key);
            } else if i < f {
                assert(gs[i].key != key);
            }
        }
    }
}

proof fn lemma_duplicate_grows(e: Seq<HookEntry>, e2: Seq<HookEntry>, x: HookEntry)
    requires
        entries_prefix(e, e2),
        duplicate_matcher(e, x),
    ensures
        duplicate_matcher(e2, x),
{
    let m = x.matcher->0;
    let i = choose|i: int| 0 <= i < e.len() && #[trigger] e[i].matcher.deep_view() == Some(m@);
    assert(e2[i] == e[i]);
}

proof fn lemma_merge_entries_cover(ex: Seq<HookEntry>, arr: Seq<HookEntry>)
    ensures
        entries_prefix(ex, merge_entries(ex, arr)),
        forall|j: int|
            0 <= j < arr.len() && (#[trigger] arr[j]).matcher is Some ==> duplicate_matcher(
                merge_entries(ex, arr),
                arr[j],
            ),
    decreases arr.len(),
{
    if arr.len() > 0 {
        let d = arr.drop_last();
        let e = merge_entries(ex, d);
        let r = merge_entries(ex, arr);
        lemma_merge_entries_cover(ex, d);
        assert(entries_prefix(e, r));
        assert forall|j: int| 0 <= j < arr.len() && (#[trigger] arr[j]).matcher is Some implies duplicate_matcher(
            r,
            arr[j],
        ) by {
            if j < arr.len() - 1 {
                assert(arr[j] == d[j]);
                lemma_duplicate_grows(e, r, arr[j]);
            } else if !duplicate_matcher(e, arr.last()) {
                assert(r[e.len() as int] == arr.last());
                assert(r[e.len() as int].matcher.deep_view() == Some(arr.last().matcher->0@));
            }
        }
    }
}

/// `x` is one of the entries of `arr`.
spec fn entry_in(arr: Seq<HookEntry>, x: HookEntry) -> bool {
    exists|j: int| 0 <= j < arr.len() && #[trigger] arr[j] == x
}

proof fn lemma_merge_entries_from(ex: Seq<HookEntry>, arr: Seq<HookEntry>)
    ensures
        forall|i: int|
            ex.len() <= i < merge_entries(ex, arr).len() ==> entry_in(arr, #[trigger] merge_entries(ex, arr)[i]),
    decreases arr.len(),
{
    if arr.len() > 0 {
        let d = arr.drop_last();
        let e = merge_entries(ex, d);
        let r = merge_entries(ex, arr);
        lemma_merge_entries_from(ex, d);
        assert forall|i: int| ex.len() <= i < r.len() implies entry_in(arr, #[trigger] r[i]) by {
            if i < e.len() {
                assert(r[i] == e[i]);
                assert(entry_in(d, e[i]));
                let j = choose|j: int| 0 <= j < d.len() && #[trigger] d[j] == e[i];
                assert(arr[j] == d[j]);
            } else {
                assert(r[i] == arr[arr.len() - 1]);
            }
        }
    }
}

/// Merging a workspace array into a settings array appends the workspace entries
/// in order after the settings' own: an entry without a matcher is always appended;
/// an entry with a matcher is skipped exactly when an entry of the settings array
/// or an earlier workspace entry has that matcher, and appended otherwise.
pub proof fn law_merge_entries_step(existing: Seq<HookEntry>, arr: Seq<HookEntry>, x: HookEntry)
    ensures
        merge_entries(existing, seq![]) == existing,
        x.matcher is None ==> merge_entries(existing, arr.push(x)) == merge_entries(existing, arr).push(x),
        x.matcher matches Some(m) ==> merge_entries(existing, arr.push(x)) == (if (exists|i: int|
            0 <= i < existing.len() && #[trigger] existing[i].matcher.deep_view() == Some(m@)) || (exists|j: int|
            0 <= j < arr.len() && #[trigger] arr[j].matcher.deep_view() == Some(m@)) {
            merge_entries(existing, arr)
        } else {
            merge_entries(existing, arr).push(x)
        }),
{
    let a2 = arr.push(x);
    assert(a2.drop_last() =~= arr);
    assert(a2.last() == x);
    let e = merge_entries(existing, arr);
    lemma_merge_entries_cover(existing, arr);
    lemma_merge_entries_from(existing, arr);
    match x.matcher {
        None => {},
        Some(m) => {
            let in_existing = exists|i: int| 0 <= i < existing.len() && #[trigger] existing[i].matcher.deep_view() == Some(m@);
            let in_arr = exists|j: int| 0 <= j < arr.len() && #[trigger] arr[j].matcher.deep_view() == Some(m@);
            if in_existing {
                let i = choose|i: int| 0 <= i < existing.len() && #[trigger] existing[i].matcher.deep_view() == Some(m@);
                assert(e[i] == existing[i]);
                assert(duplicate_matcher(e, x));
            } else if in_arr {
                let j = choose|j: int| 0 <= j < arr.len() && #[trigger] arr[j].matcher.deep_view() == Some(m@);
                assert(arr[j].matcher is Some);
                assert(duplicate_matcher(e, arr[j]));
                let i = choose|i: int| 0 <= i < e.len() && #[trigger] e[i].matcher.deep_view() == Some(arr[j].matcher->0@);
                assert(e[i].matcher.deep_view() == Some(m@));
                assert(duplicate_matcher(e, x));
            } else {
                if duplicate_matcher(e, x) {
                    let i = choose|i: int| 0 <= i < e.len() && #[trigger] e[i].matcher.deep_view() == Some(m@);
                    if i < existing.len() {
                        assert(e[i] == existing[i]);
                    } else {
                        assert(entry_in(arr, e[i]));
                        let j = choose|j: int| 0 <= j < arr.len() && #[trigger] arr[j] == e[i];
                        assert(arr[j].matcher.deep_view() == Some(m@));
                    }
                }
            }
        },
    }
}

proof fn lemma_merge_entries_noop(e: Seq<HookEntry>, arr: Seq<HookEntry>)
    requires
        forall|j: int| 0 <= j < arr.len() ==> duplicate_matcher(e, #[trigger] arr[j]),
    ensures
        merge_entries(e, arr) == e,
    decreases arr.len(),
{
    if arr.len() > 0 {
        let d = arr.drop_last();
        assert forall|j: int| 0 <= j < d.len() implies duplicate_matcher(e, #[trigger] d[j]) by {
            assert(d[j] == arr[j]);
        }
        lemma_merge_entries_noop(e, d);
        assert(duplicate_matcher(e, arr[arr.len() - 1]));
    }
}

proof fn lemma_covers_grow(gs: Seq<GroupView>, gs2: Seq<GroupView>, key: Seq<char>, arr: Seq<HookEntry>)
    requires
        groups_grow(gs, gs2),
        covers(gs, key, arr),
    ensures
        covers(gs2, key, arr),
{
    lemma_first_group(gs, key);
    lemma_first_group(gs2, key);
    let i = first_group(gs, key)->0;
    assert(gs2[i].key == key);
    assert forall|j: int| 0 <= j < i implies (#[trigger] gs2[j]).key != key by {
        assert(gs2[j].key == gs[j].key);
    }
    assert(first_group(gs2, key) == Some(i));
    match gs[i].slot {
        SlotView::Entries(e) => {
            let e2 = gs2[i].slot->Entries_0;
            assert forall|j: int| 0 <= j < arr.len() implies duplicate_matcher(e2, #[trigger] arr[j]) by {
                lemma_duplicate_grows(e, e2, arr[j]);
            }
        },
        SlotView::Other(_) => {},
    }
}

proof fn lemma_grow_update(gs: Seq<GroupView>, i: int, ex: Seq<HookEntry>, e2: Seq<HookEntry>)
    requires
        0 <= i < gs.len(),
        gs[i].slot == SlotView::Entries(ex),
        entries_prefix(ex, e2),
    ensures
        groups_grow(gs, gs.update(i, GroupView { key: gs[i].key, slot: SlotView::Entries(e2) })),
{
    let gs2 = gs.update(i, GroupView { key: gs[i].key, slot: SlotView::Entries(e2) });
    assert forall|j: int| 0 <= j < gs.len() implies {
        &&& (#[trigger] gs2[j]).key == gs[j].key
        &&& match gs[j].slot {
            SlotView::Entries(e) => gs2[j].slot matches SlotView::Entries(f) && entries_prefix(e, f),
            SlotView::Other(v) => gs2[j].slot == SlotView::Other(v),
        }
    } by {
        if j != i {
            assert(gs2[j] == gs[j]);
            match gs[j].slot {
                SlotView::Entries(e) => {
                    assert(entries_prefix(e, e));
                },
                SlotView::Other(_) => {},
            }
        }
    }
}

proof fn lemma_grow_push(gs: Seq<GroupView>, g: GroupView)
    ensures
        groups_grow(gs, gs.push(g)),
{
    let gs2 = gs.push(g);
    assert forall|j: int| 0 <= j < gs.len() implies {
        &&& (#[trigger] gs2[j]).key == gs[j].key
        &&& match gs[j].slot {
            SlotView::Entries(e) => gs2[j].slot matches SlotView::Entries(f) && entries_prefix(e, f),
            SlotView::Other(v) => gs2[j].slot == SlotView::Other(v),
        }
    } by {
        assert(gs2[j] == gs[j]);
        match gs[j].slot {
            SlotView::Entries(e) => {
                assert(entries_prefix(e, e));
            },
            SlotView::Other(_) => {},
        }
    }
}

proof fn lemma_merge_group_grows(gs: Seq<GroupView>, key: Seq<char>, entries: Option<Seq<HookEntry>>)
    requires
        merge_group(Ok(gs), key, entries) is Ok,
    ensures
        merge_group(Ok(gs), key, entries) matches Ok(gs2) && groups_grow(gs, gs2),
        merge_group(Ok(gs), key, entries) matches Ok(gs2) ==> (entries matches Some(arr) ==> (has_matchers(
            arr,
        ) ==> covers(gs2, key, arr))),
{
    lemma_first_group(gs, key);
    match entries {
        None => {
            assert(merge_group(Ok(gs), key, entries) == Ok::<Seq<GroupView>, MergeErrorView>(gs)) by {
                reveal(merge_group);
            }
            assert(groups_grow(gs, gs)) by {
                assert forall|j: int| 0 <= j < gs.len() implies {
                    &&& (#[trigger] gs[j]).key == gs[j].key
                    &&& match gs[j].slot {
                        SlotView::Entries(e) => gs[j].slot matches SlotView::Entries(f) && entries_prefix(e, f),
                        SlotView::Other(v) => gs[j].slot == SlotView::Other(v),
                    }
                } by {
                    match gs[j].slot {
                        SlotView::Entries(e) => {
                            assert(entries_prefix(e, e));
                        },
                        SlotView::Other(_) => {},
                    }
                }
            }
        },
        Some(arr) => {
            match first_group(gs, key) {
                Some(i) => {
                    match gs[i].slot {
                        SlotView::Entries(ex) => {
                            let merged = merge_entries(ex, arr);
                            let gs2 = gs.update(i, GroupView { key: gs[i].key, slot: SlotView::Entries(merged) });
                            assert(merge_group(Ok(gs), key, entries) == Ok::<Seq<GroupView>, MergeErrorView>(gs2)) by {
                                reveal(merge_group);
                            }
                            lemma_merge_entries_cover(ex, arr);
                            lemma_grow_update(gs, i, ex, merged);
                            lemma_first_group(gs2, key);
                            assert forall|j: int| 0 <= j < i implies (#[trigger] gs2[j]).key != key by {
                                assert(gs2[j] == gs[j]);
                            }
                            assert(gs2[i].key == key);
                            assert(first_group(gs2, key) == Some(i));
                        },
                        SlotView::Other(_) => {
                            assert(merge_group(Ok(gs), key, entries) is Err) by {
                                reveal(merge_group);
                            }
                        },
                    }
                },
                None => {
                    let merged = merge_entries(seq![], arr);
                    let gs2 = gs.push(GroupView { key, slot: SlotView::Entries(merged) });
                    assert(merge_group(Ok(gs), key, entries) == Ok::<Seq<GroupView>, MergeErrorView>(gs2)) by {
                        reveal(merge_group);
                    }
                    lemma_merge_entries_cover(seq![], arr);
                    lemma_grow_push(gs, GroupView { key, slot: SlotView::Entries(merged) });
                    lemma_first_group(gs2, key);
                    assert forall|j: int| 0 <= j < gs.len() implies (#[trigger] gs2[j]).key != key by {
                        assert(gs2[j] == gs[j]);
                    }
                    assert(gs2[gs.len() as int].key == key);
                    assert(first_group(gs2, key) == Some(gs.len() as int));
                },
            }
        },
    }
}

proof fn lemma_merge_all_covers(settings: Seq<GroupView>, w: Seq<WorkspaceHookGroup>)
    requires
        merge_all(settings, w) is Ok,
        all_have_matchers(w),
    ensures
        merge_all(settings, w) matches Ok(s1) && forall|k: int|
            0 <= k < w.len() ==> (#[trigger] entries_view(w[k].entries) matches Some(arr) ==> covers(
                s1,
                w[k].key@,
                arr,
            )),
    decreases w.len(),
{
    if w.len() > 0 {
        reveal(merge_group);
        let d = w.drop_last();
        let g = w.last();
        assert(merge_all(settings, d) is Ok);
        assert forall|k: int| 0 <= k < d.len() implies match #[trigger] entries_view(d[k].entries) {
            Some(arr) => has_matchers(arr),
            None => true,
        } by {
            assert(d[k] == w[k]);
            assert(match entries_view(w[k].entries) {
                Some(arr) => has_matchers(arr),
                None => true,
            });
        }
        lemma_merge_all_covers(settings, d);
        let sd = merge_all(settings, d)->Ok_0;
        assert(match entries_view(w[w.len() - 1].entries) {
            Some(arr) => has_matchers(arr),
            None => true,
        });
        lemma_merge_group_grows(sd, g.key@, entries_view(g.entries));
        let s1 = merge_all(settings, w)->Ok_0;
        assert forall|k: int| 0 <= k < w.len() implies (#[trigger] entries_view(w[k].entries) matches Some(
            arr,
        ) ==> covers(s1, w[k].key@, arr)) by {
            if k < d.len() {
                assert(d[k] == w[k]);
                match entries_view(w[k].entries) {
                    Some(arr) => {
                        assert(entries_view(d[k].entries) == Some(arr));
                        lemma_covers_grow(sd, s1, w[k].key@, arr);
                    },
                    None => {},
                }
            }
        }
    }
}

proof fn lemma_merge_all_noop(t: Seq<GroupView>, w: Seq<WorkspaceHookGroup>)
    requires
        forall|k: int|
            0 <= k < w.len() ==> (#[trigger] entries_view(w[k].entries) matches Some(arr) ==> covers(
                t,
                w[k].key@,
                arr,
            )),
    ensures
        merge_all(t, w) == Ok::<Seq<GroupView>, MergeErrorView>(t),
    decreases w.len(),
{
    if w.len() > 0 {
        reveal(merge_group);
        let d = w.drop_last();
        let g = w.last();
        assert forall|k: int| 0 <= k < d.len() implies (#[trigger] entries_view(d[k].entries) matches Some(
            arr,
        ) ==> covers(t, d[k].key@, arr)) by {
            assert(d[k] == w[k]);
            assert(entries_view(w[k].entries) matches Some(arr) ==> covers(t, w[k].key@, arr));
        }
        lemma_merge_all_noop(t, d);
        assert(entries_view(w[w.len() - 1].entries) matches Some(arr) ==> covers(t, w[w.len() - 1].key@, arr));
        match entries_view(g.entries) {
            None => {},
            Some(arr) => {
                lemma_first_group(t, g.key@);
                let i = first_group(t, g.key@)->0;
                let e = t[i].slot->Entries_0;
                lemma_merge_entries_noop(e, arr);
                assert(t.update(i, GroupView { key: t[i].key, slot: SlotView::Entries(e) }) =~= t);
            },
        }
    }
}

/// Merging the same workspace hooks a second time into the settings the first
/// merge produced changes nothing, when every workspace entry names a matcher.
pub proof fn law_merge_hooks_idempotent(w: Seq<WorkspaceHookGroup>, settings: Seq<GroupView>)
    requires
        all_have_matchers(w),
    ensures
        merged_hooks(Some(w), Some(settings)) matches Ok(s1) ==> merged_hooks(Some(w), Some(s1)) == Ok::<
            Seq<GroupView>,
            MergeErrorView,
        >(s1),
{
    if merged_hooks(Some(w), Some(settings)) is Ok {
        lemma_merge_all_covers(settings, w);
        let s1 = merge_all(settings, w)->Ok_0;
        lemma_merge_all_noop(s1, w);
    }
}

} // verus!
