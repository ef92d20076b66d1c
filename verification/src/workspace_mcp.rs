//! The workspace's MCP server list: the entries kept in `mcp.json`, their upsert,
//! deletion and reordering, and the plan of which servers each application gets.

use vstd::prelude::*;
use crate::continuation_store::str_eq;
use crate::workspace_paths::WorkspaceService;

verus! {

broadcast use vstd::seq_lib::group_seq_properties;

/// A JSON value (`serde_json::Value`), carried through unchanged.
#[verifier::external_type_specification]
#[verifier::external_body]
pub struct ExJsonValue(serde_json::Value);

/// Which applications an MCP server or skill is enabled for.
#[derive(Debug, Clone, Copy, PartialEq, Eq, Structural)]
pub struct McpApps {
    pub claude: bool,
    pub codex: bool,
    pub gemini: bool,
    pub opencode: bool,
}

impl McpApps {
    /// Enabled for every application.
    pub fn all() -> (r: Self)
        ensures
            r.claude && r.codex && r.gemini && r.opencode,
    {
        McpApps { claude: true, codex: true, gemini: true, opencode: true }
    }

    /// Enabled for no application.
    pub fn none() -> (r: Self)
        ensures
            !r.claude && !r.codex && !r.gemini && !r.opencode,
    {
        McpApps { claude: false, codex: false, gemini: false, opencode: false }
    }
}

impl Default for McpApps {
    fn default() -> (r: Self)
        ensures
            !r.claude && !r.codex && !r.gemini && !r.opencode,
    {
        McpApps::none()
    }
}

/// One MCP server of the workspace.
#[derive(Debug)]
pub struct WorkspaceMcpEntry {
    pub id: String,
    pub name: Option<String>,
    pub enabled: Option<bool>,
    pub apps: Option<McpApps>,
    pub server: serde_json::Value,
}

/// The workspace's `mcp.json`.
#[derive(Debug)]
pub struct WorkspaceMcpFile {
    pub version: Option<u32>,
    pub servers: Vec<WorkspaceMcpEntry>,
}

/// The configuration of a workspace without `mcp.json`: version 1, no servers.
pub fn default_mcp_config() -> (r: WorkspaceMcpFile)
    ensures
        r.version == Some(1u32),
        r.servers@.len() == 0,
{
    WorkspaceMcpFile { version: Some(1), servers: Vec::new() }
}

/// Some entry of `s` has id `id`.
pub open spec fn has_id(s: Seq<WorkspaceMcpEntry>, id: Seq<char>) -> bool {
    exists|i: int| 0 <= i < s.len() && #[trigger] s[i].id@ == id
}

/// The first entry of `s` with id `id`, if any.
pub open spec fn first_with_id(s: Seq<WorkspaceMcpEntry>, id: Seq<char>) -> Option<int> {
    if has_id(s, id) {
        Some(
            choose|i: int|
                0 <= i < s.len() && #[trigger] s[i].id@ == id && forall|j: int|
                    0 <= j < i ==> (#[trigger] s[j]).id@ != id,
        )
    } else {
        None
    }
}

proof fn lemma_first_with_id(s: Seq<WorkspaceMcpEntry>, id: Seq<char>)
    ensures
        first_with_id(s, id) matches Some(i) ==> 0 <= i < s.len() && s[i].id@ == id && forall|j: int|
            0 <= j < i ==> (#[trigger] s[j]).id@ != id,
        first_with_id(s, id) is None ==> forall|j: int| 0 <= j < s.len() ==> (#[trigger] s[j]).id@ != id,
    decreases s.len(),
{
    if has_id(s, id) {
        if s[0].id@ == id {
            assert(forall|j: int| 0 <= j < 0 ==> (#[trigger] s[j]).id@ != id);
        } else {
            let t = s.drop_first();
            let w = choose|w: int| 0 <= w < s.len() && #[trigger] s[w].id@ == id;
            assert(t[w - 1].id@ == id);
            lemma_first_with_id(t, id);
            let i = first_with_id(t, id)->0;
            assert(s[i + 1].id@ == id);
            assert forall|j: int| 0 <= j < i + 1 implies (#[trigger] s[j]).id@ != id by {
                if j > 0 {
                    assert(s[j] == t[j - 1]);
                }
            }
        }
    }
}

/// The index of the first entry with id `id`.
fn position_of_id(s: &Vec<WorkspaceMcpEntry>, id: &str) -> (r: Option<usize>)
    ensures
        r matches Some(i) ==> first_with_id(s@, id@) == Some(i as int) && i < s@.len() && s@[i as int].id@ == id@,
        r is None ==> first_with_id(s@, id@) is None,
{
    let mut i: usize = 0;
    while i < s.len()
        invariant
            i <= s@.len(),
            forall|j: int| 0 <= j < i ==> (#[trigger] s@[j]).id@ != id@,
        decreases s@.len() - i,
    {
        if str_eq(s[i].id.as_str(), id) {
            proof {
                let c = choose|c: int|
                    0 <= c < s@.len() && #[trigger] s@[c].id@ == id@ && forall|j: int|
                        0 <= j < c ==> (#[trigger] s@[j]).id@ != id@;
                assert(s@[i as int].id@ == id@);
                if c < i {
                } else if c > i {
                    assert(s@[i as int].id@ != id@);
                }
            }
            return Some(i);
        }
        i = i + 1;
    }
    None
}

/// The servers after an upsert of `entry`: it replaces the first server of the same
/// id, or joins the end of the list.
pub open spec fn upserted(s: Seq<WorkspaceMcpEntry>, entry: WorkspaceMcpEntry) -> Seq<WorkspaceMcpEntry> {
    match first_with_id(s, entry.id@) {
        Some(i) => s.update(i, entry),
        None => s.push(entry),
    }
}

impl WorkspaceService {
    /// Puts a server into the configuration: it replaces the first server with the same
    /// id, or is appended.
    pub fn upsert_mcp_server(
        config: &mut WorkspaceMcpFile,
        id: String,
        name: Option<String>,
        enabled: Option<bool>,
        apps: Option<McpApps>,
        server: serde_json::Value,
    )
        ensures
            final(config).version == old(config).version,
            final(config).servers@ == upserted(
                old(config).servers@,
                WorkspaceMcpEntry { id, name, enabled, apps, server },
            ),
    {
        let pos = position_of_id(&config.servers, id.as_str());
        let entry = WorkspaceMcpEntry { id, name, enabled, apps, server };
        match pos {
            Some(i) => config.servers.set(i, entry),
            None => config.servers.push(entry),
        }
    }
}

impl WorkspaceService {
    /// Removes every server with id `id`, keeping the order of the others.
    pub fn delete_mcp_server(config: &mut WorkspaceMcpFile, id: &str)
        ensures
            final(config).version == old(config).version,
            final(config).servers@ == old(config).servers@.filter(|e: WorkspaceMcpEntry| e.id@ != id@),
    {
        let mut rest: Vec<WorkspaceMcpEntry> = Vec::new();
        std::mem::swap(&mut rest, &mut config.servers);
        let ghost orig = rest@;
        let ghost pred = |e: WorkspaceMcpEntry| e.id@ != id@;
        let mut kept: Vec<WorkspaceMcpEntry> = Vec::new();
        let ghost mut k: int = 0;
        while rest.len() > 0
            invariant
                0 <= k <= orig.len(),
                pred == (|e: WorkspaceMcpEntry| e.id@ != id@),
                rest@ == orig.skip(k),
                kept@ == orig.take(k).filter(pred),
            decreases rest@.len(),
        {
            let e = rest.remove(0);
            proof {
                assert(e == orig[k]);
                assert(orig.take(k + 1).drop_last() =~= orig.take(k));
                assert(orig.take(k + 1).last() == orig[k]);
            }
            let ghost before = kept@;
            let ghost cur = e;
            let same = str_eq(e.id.as_str(), id);
            assert(same == (cur.id@ == id@));
            assert(pred(cur) == (cur.id@ != id@));
            if !same {
                kept.push(e);
            }
            assert(kept@ == (if pred(cur) { before.push(cur) } else { before }));
            proof {
                let t = orig.take(k + 1);
                reveal(Seq::filter);
                assert(t.filter(pred) == (if pred(t.last()) {
                    t.drop_last().filter(pred).push(t.last())
                } else {
                    t.drop_last().filter(pred)
                }));
                assert(t.last() == cur);
                assert(t.drop_last() == orig.take(k));
                assert(rest@ =~= orig.skip(k + 1));
                k = k + 1;
            }
        }
        proof {
            assert(orig.take(k) =~= orig);
        }
        config.servers = kept;
    }
}

/// An upsert makes the entry the first server with its id, leaves every other
/// position as it was, and grows the list exactly when no server had that id.
pub proof fn law_upsert_then_find(s: Seq<WorkspaceMcpEntry>, entry: WorkspaceMcpEntry)
    ensures
        first_with_id(upserted(s, entry), entry.id@) matches Some(i) && upserted(s, entry)[i] == entry
            && (first_with_id(s, entry.id@) matches Some(k) ==> k == i),
        upserted(s, entry).len() == (if has_id(s, entry.id@) { s.len() } else { s.len() + 1 }),
        forall|j: int|
            0 <= j < s.len() && s[j].id@ != entry.id@ ==> (#[trigger] upserted(s, entry)[j]) == s[j],
{
    let id = entry.id@;
    let u = upserted(s, entry);
    lemma_first_with_id(s, id);
    let pos: int = match first_with_id(s, id) {
        Some(i) => i,
        None => s.len() as int,
    };
    assert(u[pos] == entry);
    assert(u[pos].id@ == id);
    assert(has_id(u, id));
    lemma_first_with_id(u, id);
    let k = first_with_id(u, id)->0;
    if k < pos {
        assert(u[k] == s[k]);
    } else if k > pos {
        assert(u[pos].id@ != id);
    }
}

proof fn lemma_filter_update_dropped(
    s: Seq<WorkspaceMcpEntry>,
    i: int,
    e: WorkspaceMcpEntry,
    pred: spec_fn(WorkspaceMcpEntry) -> bool,
)
    requires
        0 <= i < s.len(),
        !pred(s[i]),
        !pred(e),
    ensures
        s.update(i, e).filter(pred) == s.filter(pred),
    decreases s.len(),
{
    reveal(Seq::filter);
    let u = s.update(i, e);
    if i == s.len() - 1 {
        assert(u.drop_last() =~= s.drop_last());
    } else {
        lemma_filter_update_dropped(s.drop_last(), i, e, pred);
        assert(u.drop_last() =~= s.drop_last().update(i, e));
        assert(u.last() == s.last());
    }
}

/// Deleting an id right after upserting a server of that id leaves what deleting
/// the id alone leaves.
pub proof fn law_delete_undoes_upsert(s: Seq<WorkspaceMcpEntry>, entry: WorkspaceMcpEntry)
    ensures
        upserted(s, entry).filter(|e: WorkspaceMcpEntry| e.id@ != entry.id@) == s.filter(
            |e: WorkspaceMcpEntry| e.id@ != entry.id@,
        ),
{
    lemma_first_with_id(s, entry.id@);
    let pred = |e: WorkspaceMcpEntry| e.id@ != entry.id@;
    match first_with_id(s, entry.id@) {
        Some(i) => lemma_filter_update_dropped(s, i, entry, pred),
        None => s.lemma_filter_push(entry, pred),
    }
}

/// After a deletion no server has the deleted id.
pub proof fn law_delete_leaves_no_such_id(s: Seq<WorkspaceMcpEntry>, id: Seq<char>)
    ensures
        !has_id(s.filter(|e: WorkspaceMcpEntry| e.id@ != id), id),
{
    let pred = |e: WorkspaceMcpEntry| e.id@ != id;
    let f = s.filter(pred);
    assert forall|i: int| 0 <= i < f.len() implies #[trigger] f[i].id@ != id by {
        s.lemma_filter_pred(pred, i);
    }
}


/// The servers with the last entry of each id kept and the earlier ones of the same
/// id dropped, in list order (what keying the list by id keeps).
pub open spec fn last_of_each_id(s: Seq<WorkspaceMcpEntry>) -> Seq<WorkspaceMcpEntry>
    decreases s.len(),
{
    if s.len() == 0 {
        s
    } else if has_id(s.drop_first(), s[0].id@) {
        last_of_each_id(s.drop_first())
    } else {
        seq![s[0]] + last_of_each_id(s.drop_first())
    }
}

/// One step of reordering: the server with id `id`, if still in the pool, moves to
/// the end of the picked list.
pub open spec fn pick_step(
    state: (Seq<WorkspaceMcpEntry>, Seq<WorkspaceMcpEntry>),
    id: Seq<char>,
) -> (Seq<WorkspaceMcpEntry>, Seq<WorkspaceMcpEntry>) {
    match first_with_id(state.1, id) {
        Some(i) => (state.0.push(state.1[i]), state.1.remove(i)),
        None => state,
    }
}

/// The servers picked from `pool` in the order of `ids`, and what is left of it.
pub open spec fn pick_in_order(pool: Seq<WorkspaceMcpEntry>, ids: Seq<Seq<char>>) -> (
    Seq<WorkspaceMcpEntry>,
    Seq<WorkspaceMcpEntry>,
)
    decreases ids.len(),
{
    if ids.len() == 0 {
        (seq![], pool)
    } else {
        pick_step(pick_in_order(pool, ids.drop_last()), ids.last())
    }
}

/// The servers reordered by `ids`: the named ones first, in the order named, then
/// the rest in list order; of several entries with one id only the last is kept.
pub open spec fn reordered(s: Seq<WorkspaceMcpEntry>, ids: Seq<Seq<char>>) -> Seq<WorkspaceMcpEntry> {
    let (picked, rest) = pick_in_order(last_of_each_id(s), ids);
    picked + rest
}

/// A list of strings as text.
pub open spec fn string_views(v: Seq<String>) -> Seq<Seq<char>> {
    v.map_values(|s: String| s@)
}

impl WorkspaceService {
    /// Reorders the servers: those named in `server_ids` first, in that order, then the
    /// others; of several entries with one id only the last is kept.
    pub fn reorder_mcp_servers(config: &mut WorkspaceMcpFile, server_ids: Vec<String>)
        ensures
            final(config).version == old(config).version,
            final(config).servers@ == reordered(old(config).servers@, string_views(server_ids@)),
    {
        let mut rest: Vec<WorkspaceMcpEntry> = Vec::new();
        std::mem::swap(&mut rest, &mut config.servers);
        let ghost orig = rest@;
        let mut pool: Vec<WorkspaceMcpEntry> = Vec::new();
        while rest.len() > 0
            invariant
                pool@ + last_of_each_id(rest@) == last_of_each_id(orig),
            decreases rest@.len(),
        {
            let ghost before = rest@;
            let ghost pool_before = pool@;
            let e = rest.remove(0);
            proof {
                assert(rest@ =~= before.drop_first());
                assert(e == before[0]);
            }
            if position_of_id(&rest, e.id.as_str()).is_none() {
                pool.push(e);
                proof {
                    assert(pool@ + last_of_each_id(rest@) =~= pool_before + last_of_each_id(before));
                }
            } else {
                proof {
                    let i = choose|i: int|
                        0 <= i < rest@.len() && #[trigger] rest@[i].id@ == e.id@ && forall|j: int|
                            0 <= j < i ==> (#[trigger] rest@[j]).id@ != e.id@;
                    assert(has_id(rest@, e.id@));
                }
            }
        }
        proof {
            assert(pool@ + Seq::<WorkspaceMcpEntry>::empty() =~= pool@);
        }
        let ghost ids = string_views(server_ids@);
        let ghost pool0 = pool@;
        let mut picked: Vec<WorkspaceMcpEntry> = Vec::new();
        let mut i: usize = 0;
        while i < server_ids.len()
            invariant
                i <= server_ids@.len(),
                ids == string_views(server_ids@),
                (picked@, pool@) == pick_in_order(pool0, ids.take(i as int)),
            decreases server_ids@.len() - i,
        {
            proof {
                assert(ids.take(i + 1).drop_last() =~= ids.take(i as int));
                assert(ids.take(i + 1).last() == server_ids@[i as int]@);
            }
            match position_of_id(&pool, server_ids[i].as_str()) {
                Some(j) => {
                    let e = pool.remove(j);
                    picked.push(e);
                },
                None => {},
            }
            i = i + 1;
        }
        proof {
            assert(ids.take(server_ids@.len() as int) =~= ids);
        }
        let ghost p = picked@;
        let ghost r = pool@;
        picked.append(&mut pool);
        assert(picked@ == p + r);
        config.servers = picked;
    }
}

/// No two entries share an id.
pub open spec fn ids_unique(s: Seq<WorkspaceMcpEntry>) -> bool {
    forall|i: int, j: int|
        0 <= i < s.len() && 0 <= j < s.len() && #[trigger] s[i].id@ == #[trigger] s[j].id@ ==> i == j
}

/// Keeping the last entry of each id leaves each id once, and no id is lost or
/// made up.
pub proof fn law_last_of_each_id(s: Seq<WorkspaceMcpEntry>)
    ensures
        ids_unique(last_of_each_id(s)),
        forall|id: Seq<char>| has_id(last_of_each_id(s), id) <==> #[trigger] has_id(s, id),
        forall|e: WorkspaceMcpEntry| #[trigger] last_of_each_id(s).contains(e) ==> s.contains(e),
    decreases s.len(),
{
    if s.len() > 0 {
        let t = s.drop_first();
        law_last_of_each_id(t);
        let l = last_of_each_id(s);
        let lt = last_of_each_id(t);
        assert forall|id: Seq<char>| has_id(l, id) <==> #[trigger] has_id(s, id) by {
            if has_id(s, id) {
                let i = choose|i: int| 0 <= i < s.len() && #[trigger] s[i].id@ == id;
                if i > 0 {
                    assert(t[i - 1].id@ == id);
                    assert(has_id(t, id));
                    let k = choose|k: int| 0 <= k < lt.len() && #[trigger] lt[k].id@ == id;
                    if !has_id(t, s[0].id@) {
                        assert(l[k + 1] == lt[k]);
                    }
                } else {
                    if has_id(t, s[0].id@) {
                        let k = choose|k: int| 0 <= k < lt.len() && #[trigger] lt[k].id@ == id;
                    } else {
                        assert(l[0] == s[0]);
                    }
                }
            }
            if has_id(l, id) {
                let k = choose|k: int| 0 <= k < l.len() && #[trigger] l[k].id@ == id;
                if has_id(t, s[0].id@) {
                    assert(has_id(t, id));
                    let j = choose|j: int| 0 <= j < t.len() && #[trigger] t[j].id@ == id;
                    assert(s[j + 1].id@ == id);
                } else if k == 0 {
                    assert(s[0].id@ == id);
                } else {
                    assert(l[k] == lt[k - 1]);
                    assert(has_id(lt, id));
                    assert(has_id(t, id));
                    let j = choose|j: int| 0 <= j < t.len() && #[trigger] t[j].id@ == id;
                    assert(s[j + 1].id@ == id);
                }
            }
        }
        assert forall|e: WorkspaceMcpEntry| #[trigger] l.contains(e) implies s.contains(e) by {
            let k = choose|k: int| 0 <= k < l.len() && l[k] == e;
            if !has_id(t, s[0].id@) && k == 0 {
                assert(s[0] == e);
            } else {
                let kk = if has_id(t, s[0].id@) { k } else { k - 1 };
                assert(lt[kk] == e);
                assert(lt.contains(e));
                let j = choose|j: int| 0 <= j < t.len() && t[j] == e;
                assert(s[j + 1] == e);
            }
        }
        assert forall|a: int, b: int|
            0 <= a < l.len() && 0 <= b < l.len() && #[trigger] l[a].id@ == #[trigger] l[b].id@ implies a
            == b by {
            if !has_id(t, s[0].id@) {
                if a == 0 && b > 0 {
                    assert(l[b] == lt[b - 1]);
                    assert(has_id(lt, s[0].id@));
                } else if b == 0 && a > 0 {
                    assert(l[a] == lt[a - 1]);
                    assert(has_id(lt, s[0].id@));
                } else if a > 0 && b > 0 {
                    assert(l[a] == lt[a - 1] && l[b] == lt[b - 1]);
                }
            }
        }
    }
}

proof fn lemma_pick_in_order_permutes(pool: Seq<WorkspaceMcpEntry>, ids: Seq<Seq<char>>)
    ensures
        (pick_in_order(pool, ids).0 + pick_in_order(pool, ids).1).to_multiset() == pool.to_multiset(),
    decreases ids.len(),
{
    if ids.len() == 0 {
        assert(Seq::<WorkspaceMcpEntry>::empty() + pool =~= pool);
    } else {
        lemma_pick_in_order_permutes(pool, ids.drop_last());
        let (p, r) = pick_in_order(pool, ids.drop_last());
        lemma_first_with_id(r, ids.last());
        match first_with_id(r, ids.last()) {
            Some(i) => {
                vstd::seq_lib::lemma_multiset_commutative(p, r);
                vstd::seq_lib::lemma_multiset_commutative(p.push(r[i]), r.remove(i));
                p.to_multiset_ensures();
                r.to_multiset_ensures();
                assert(r.contains(r[i]));
                assert(r.to_multiset().count(r[i]) > 0);
                assert(r.to_multiset().remove(r[i]).insert(r[i]) =~= r.to_multiset());
                assert(p.to_multiset().insert(r[i]).add(r.to_multiset().remove(r[i])) =~= p.to_multiset().add(
                    r.to_multiset(),
                ));
            },
            None => {},
        }
    }
}

/// Reordering neither loses nor duplicates a server: the result holds exactly the
/// last entry of each id.
pub proof fn law_reorder_is_a_permutation(s: Seq<WorkspaceMcpEntry>, ids: Seq<Seq<char>>)
    ensures
        reordered(s, ids).to_multiset() == last_of_each_id(s).to_multiset(),
{
    lemma_pick_in_order_permutes(last_of_each_id(s), ids);
}

proof fn lemma_pick_in_order_split(pool: Seq<WorkspaceMcpEntry>, ids: Seq<Seq<char>>)
    requires
        ids_unique(pool),
    ensures
        ids_unique(pick_in_order(pool, ids).1),
        forall|k: int|
            0 <= k < pick_in_order(pool, ids).0.len() ==> ids.contains(
                (#[trigger] pick_in_order(pool, ids).0[k]).id@,
            ),
        forall|k: int|
            0 <= k < pick_in_order(pool, ids).1.len() ==> !ids.contains(
                (#[trigger] pick_in_order(pool, ids).1[k]).id@,
            ),
    decreases ids.len(),
{
    if ids.len() > 0 {
        let d = ids.drop_last();
        lemma_pick_in_order_split(pool, d);
        let (p, r) = pick_in_order(pool, d);
        let id = ids.last();
        assert forall|x: Seq<char>| #[trigger] d.contains(x) implies ids.contains(x) by {
            let j = choose|j: int| 0 <= j < d.len() && d[j] == x;
            assert(ids[j] == x);
        }
        assert(ids[ids.len() - 1] == id);
        lemma_first_with_id(r, id);
        match first_with_id(r, id) {
            Some(i) => {
                let r2 = r.remove(i);
                assert forall|a: int, b: int|
                    0 <= a < r2.len() && 0 <= b < r2.len() && #[trigger] r2[a].id@ == #[trigger] r2[b].id@ implies a
                    == b by {
                    let aa = if a < i { a } else { a + 1 };
                    let bb = if b < i { b } else { b + 1 };
                    assert(r2[a] == r[aa] && r2[b] == r[bb]);
                }
                assert forall|k: int| 0 <= k < r2.len() implies !ids.contains((#[trigger] r2[k]).id@) by {
                    let kk = if k < i { k } else { k + 1 };
                    assert(r2[k] == r[kk]);
                    assert(kk != i);
                    if ids.contains(r2[k].id@) {
                        let j = choose|j: int| 0 <= j < ids.len() && ids[j] == r2[k].id@;
                        if j < d.len() {
                            assert(d[j] == ids[j]);
                            assert(d.contains(r[kk].id@));
                        } else {
                            assert(r[kk].id@ == r[i].id@);
                        }
                    }
                }
                assert forall|k: int| 0 <= k < p.push(r[i]).len() implies ids.contains(
                    (#[trigger] p.push(r[i])[k]).id@,
                ) by {
                    if k < p.len() {
                        assert(p.push(r[i])[k] == p[k]);
                        assert(d.contains(p[k].id@));
                    }
                }
            },
            None => {
                assert forall|k: int| 0 <= k < r.len() implies !ids.contains((#[trigger] r[k]).id@) by {
                    if ids.contains(r[k].id@) {
                        let j = choose|j: int| 0 <= j < ids.len() && ids[j] == r[k].id@;
                        if j < d.len() {
                            assert(d[j] == ids[j]);
                            assert(d.contains(r[k].id@));
                        } else {
                            assert(has_id(r, id));
                        }
                    }
                }
            },
        }
    }
}

/// After reordering, the servers named in the request come first and every other
/// server follows them.
pub proof fn law_reorder_named_first(s: Seq<WorkspaceMcpEntry>, ids: Seq<Seq<char>>)
    ensures
        forall|k: int|
            0 <= k < pick_in_order(last_of_each_id(s), ids).0.len() ==> ids.contains(
                (#[trigger] reordered(s, ids)[k]).id@,
            ),
        forall|k: int|
            pick_in_order(last_of_each_id(s), ids).0.len() <= k < reordered(s, ids).len() ==> !ids.contains(
                (#[trigger] reordered(s, ids)[k]).id@,
            ),
{
    law_last_of_each_id(s);
    lemma_pick_in_order_split(last_of_each_id(s), ids);
    let (p, r) = pick_in_order(last_of_each_id(s), ids);
    assert forall|k: int| 0 <= k < p.len() implies ids.contains((#[trigger] reordered(s, ids)[k]).id@) by {
        assert(reordered(s, ids)[k] == p[k]);
    }
    assert forall|k: int| p.len() <= k < reordered(s, ids).len() implies !ids.contains(
        (#[trigger] reordered(s, ids)[k]).id@,
    ) by {
        assert(reordered(s, ids)[k] == r[k - p.len()]);
    }
}


/// The applications that receive MCP servers from the workspace.
#[derive(Debug, Clone, Copy, PartialEq, Eq, Structural)]
pub enum McpApp {
    Claude,
    Codex,
    Gemini,
    Opencode,
}

/// Whether `apps` enables application `app`.
pub open spec fn app_flag(apps: McpApps, app: McpApp) -> bool {
    match app {
        McpApp::Claude => apps.claude,
        McpApp::Codex => apps.codex,
        McpApp::Gemini => apps.gemini,
        McpApp::Opencode => apps.opencode,
    }
}

/// Whether `apps` enables application `app`.
pub fn app_enabled(apps: McpApps, app: McpApp) -> (r: bool)
    ensures
        r == app_flag(apps, app),
{
    match app {
        McpApp::Claude => apps.claude,
        McpApp::Codex => apps.codex,
        McpApp::Gemini => apps.gemini,
        McpApp::Opencode => apps.opencode,
    }
}

/// The entry goes to `app`: it is enabled (the default) and its applications (none
/// by default) include `app`.
pub open spec fn entry_goes_to(e: WorkspaceMcpEntry, app: McpApp) -> bool {
    (match e.enabled {
        Some(b) => b,
        None => true,
    }) && match e.apps {
        Some(a) => app_flag(a, app),
        None => false,
    }
}

/// Entry `i` is what `app` ends up with for its id: it goes to `app` and no later
/// entry of the same id does.
pub open spec fn selected_for(s: Seq<WorkspaceMcpEntry>, app: McpApp, i: int) -> bool {
    &&& 0 <= i < s.len()
    &&& entry_goes_to(s[i], app)
    &&& forall|j: int| i < j < s.len() && #[trigger] s[j].id@ == s[i].id@ ==> !entry_goes_to(s[j], app)
}

/// The indices of the entries `app` ends up with, in list order.
pub open spec fn selection(s: Seq<WorkspaceMcpEntry>, app: McpApp) -> Seq<int> {
    Seq::new(s.len(), |i: int| i).filter(|i: int| selected_for(s, app, i))
}

/// A server as it is handed to an application: its id, its name (the id where it has
/// none) and where it stands in the workspace list.
#[derive(Debug)]
pub struct McpServerPlan {
    pub id: String,
    pub name: String,
    pub index: usize,
}

/// The name a server is shown under: its own, or its id.
pub open spec fn display_name(e: WorkspaceMcpEntry) -> Seq<char> {
    match e.name {
        Some(n) => n@,
        None => e.id@,
    }
}

/// The plan lists exactly the selected entries of `s` for `app`, in order, each
/// with its id and display name.
pub open spec fn plan_matches(plan: Seq<McpServerPlan>, s: Seq<WorkspaceMcpEntry>, app: McpApp) -> bool {
    &&& plan.len() == selection(s, app).len()
    &&& forall|k: int|
        0 <= k < plan.len() ==> {
            &&& (#[trigger] plan[k]).index == selection(s, app)[k]
            &&& plan[k].id@ == s[plan[k].index as int].id@
            &&& plan[k].name@ == display_name(s[plan[k].index as int])
        }
}

/// The servers each application receives.
#[derive(Debug)]
pub struct McpSyncPlan {
    pub claude: Vec<McpServerPlan>,
    pub codex: Vec<McpServerPlan>,
    pub gemini: Vec<McpServerPlan>,
    pub opencode: Vec<McpServerPlan>,
}

fn clone_name(e: &WorkspaceMcpEntry) -> (r: String)
    ensures
        r@ == display_name(*e),
{
    match &e.name {
        Some(n) => n.clone(),
        None => e.id.clone(),
    }
}

fn goes_to(e: &WorkspaceMcpEntry, app: McpApp) -> (r: bool)
    ensures
        r == entry_goes_to(*e, app),
{
    let enabled = match e.enabled {
        Some(b) => b,
        None => true,
    };
    enabled && match e.apps {
        Some(a) => app_enabled(a, app),
        None => false,
    }
}

/// The servers of `servers` that application `app` receives.
pub fn plan_for_app(servers: &Vec<WorkspaceMcpEntry>, app: McpApp) -> (r: Vec<McpServerPlan>)
    ensures
        plan_matches(r@, servers@, app),
{
    let ghost s = servers@;
    let ghost pred = |i: int| selected_for(s, app, i);
    let ghost all = Seq::new(s.len(), |i: int| i);
    let mut out: Vec<McpServerPlan> = Vec::new();
    let mut i: usize = 0;
    while i < servers.len()
        invariant
            i <= s.len(),
            s == servers@,
            pred == (|i: int| selected_for(s, app, i)),
            all == Seq::new(s.len(), |i: int| i),
            out@.len() == all.take(i as int).filter(pred).len(),
            forall|k: int|
                0 <= k < out@.len() ==> {
                    &&& (#[trigger] out@[k]).index == all.take(i as int).filter(pred)[k]
                    &&& out@[k].index < s.len()
                    &&& out@[k].id@ == s[out@[k].index as int].id@
                    &&& out@[k].name@ == display_name(s[out@[k].index as int])
                },
        decreases s.len() - i,
    {
        let e = &servers[i];
        let mut keep = goes_to(e, app);
        if keep {
            let mut j: usize = i + 1;
            while j < servers.len()
                invariant
                    i < j <= s.len(),
                    s == servers@,
                    e == s[i as int],
                    keep == (entry_goes_to(s[i as int], app) && forall|q: int|
                        i < q < j && #[trigger] s[q].id@ == s[i as int].id@ ==> !entry_goes_to(s[q], app)),
                decreases s.len() - j,
            {
                if str_eq(servers[j].id.as_str(), e.id.as_str()) && goes_to(&servers[j], app) {
                    keep = false;
                }
                j = j + 1;
            }
        }
        let ghost before = out@;
        proof {
            reveal(Seq::filter);
            let t = all.take(i + 1);
            assert(t.drop_last() =~= all.take(i as int));
            assert(t.last() == i as int);
            assert(keep == pred(i as int));
        }
        if keep {
            out.push(McpServerPlan { id: e.id.clone(), name: clone_name(e), index: i });
        }
        proof {
            reveal(Seq::filter);
            let t = all.take(i + 1);
            assert(t.drop_last() =~= all.take(i as int));
            assert forall|k: int| 0 <= k < out@.len() implies (#[trigger] out@[k]).index == t.filter(pred)[k] by {
                if k < before.len() {
                    assert(out@[k] == before[k]);
                }
            }
        }
        i = i + 1;
    }
    proof {
        assert(all.take(s.len() as int) =~= all);
    }
    out
}

/// The servers every application receives from the workspace list.
pub fn plan_mcp_sync(workspace: &WorkspaceMcpFile) -> (r: McpSyncPlan)
    ensures
        plan_matches(r.claude@, workspace.servers@, McpApp::Claude),
        plan_matches(r.codex@, workspace.servers@, McpApp::Codex),
        plan_matches(r.gemini@, workspace.servers@, McpApp::Gemini),
        plan_matches(r.opencode@, workspace.servers@, McpApp::Opencode),
{
    McpSyncPlan {
        claude: plan_for_app(&workspace.servers, McpApp::Claude),
        codex: plan_for_app(&workspace.servers, McpApp::Codex),
        gemini: plan_for_app(&workspace.servers, McpApp::Gemini),
        opencode: plan_for_app(&workspace.servers, McpApp::Opencode),
    }
}

/// The ids among `current` that no planned server has.
pub open spec fn stale_ids(current: Seq<Seq<char>>, plan: Seq<McpServerPlan>) -> Seq<Seq<char>> {
    current.filter(|k: Seq<char>| !(exists|p: int| 0 <= p < plan.len() && #[trigger] plan[p].id@ == k))
}

/// The opencode servers to remove: those currently configured whose id the plan
/// does not hold.
pub fn opencode_ids_to_remove(current: &Vec<String>, plan: &Vec<McpServerPlan>) -> (r: Vec<String>)
    ensures
        string_views(r@) == stale_ids(string_views(current@), plan@),
{
    let ghost cur = string_views(current@);
    let ghost pred = |k: Seq<char>| !(exists|p: int| 0 <= p < plan@.len() && #[trigger] plan@[p].id@ == k);
    let mut out: Vec<String> = Vec::new();
    let mut i: usize = 0;
    while i < current.len()
        invariant
            i <= current@.len(),
            cur == string_views(current@),
            pred == (|k: Seq<char>| !(exists|p: int| 0 <= p < plan@.len() && #[trigger] plan@[p].id@ == k)),
            string_views(out@) == cur.take(i as int).filter(pred),
        decreases current@.len() - i,
    {
        let mut found = false;
        let mut p: usize = 0;
        while p < plan.len()
            invariant
                p <= plan@.len(),
                i < current@.len(),
                found == (exists|q: int| 0 <= q < p && #[trigger] plan@[q].id@ == current@[i as int]@),
            decreases plan@.len() - p,
        {
            if str_eq(plan[p].id.as_str(), current[i].as_str()) {
                found = true;
            }
            p = p + 1;
        }
        let ghost before = out@;
        if !found {
            out.push(current[i].clone());
        }
        proof {
            reveal(Seq::filter);
            let t = cur.take(i + 1);
            assert(t.drop_last() =~= cur.take(i as int));
            assert(t.last() == current@[i as int]@);
            assert(found == !pred(current@[i as int]@));
            if !found {
                assert(string_views(out@) =~= string_views(before).push(current@[i as int]@));
            } else {
                assert(string_views(out@) =~= string_views(before));
            }
        }
        i = i + 1;
    }
    proof {
        assert(cur.take(current@.len() as int) =~= cur);
    }
    out
}

/// The opencode servers removed are exactly the current ones that no server of the
/// plan has: every removed id is a current one and no planned server's id, and every
/// current id that the plan lacks is removed.
pub proof fn law_stale_ids_exact(current: Seq<Seq<char>>, plan: Seq<McpServerPlan>)
    ensures
        forall|i: int| 0 <= i < stale_ids(current, plan).len() ==> current.contains(#[trigger] stale_ids(current, plan)[i]),
        forall|i: int, p: int|
            0 <= i < stale_ids(current, plan).len() && 0 <= p < plan.len() ==> #[trigger] stale_ids(current, plan)[i]
                != #[trigger] plan[p].id@,
        forall|i: int|
            0 <= i < current.len() && (forall|p: int| 0 <= p < plan.len() ==> #[trigger] plan[p].id@ != current[i])
                ==> stale_ids(current, plan).contains(#[trigger] current[i]),
{
    let pred = |k: Seq<char>| !(exists|p: int| 0 <= p < plan.len() && #[trigger] plan[p].id@ == k);
    let r = stale_ids(current, plan);
    assert(r == current.filter(pred));
    assert forall|i: int| 0 <= i < r.len() implies current.contains(#[trigger] r[i]) by {
        assert(r.contains(r[i]));
        current.lemma_filter_contains_rev(pred, r[i]);
    }
    assert forall|i: int, p: int| 0 <= i < r.len() && 0 <= p < plan.len() implies #[trigger] r[i] != #[trigger] plan[p].id@ by {
        current.lemma_filter_pred(pred, i);
    }
    assert forall|i: int|
        0 <= i < current.len() && (forall|p: int| 0 <= p < plan.len() ==> #[trigger] plan[p].id@ != current[i])
            implies r.contains(#[trigger] current[i]) by {
        current.lemma_filter_contains(pred, i);
    }
}

} // verus!
