//! The Codex continuation store: for each conversation, provider and model it keeps
//! the latest response id and the hash of the request envelope it answered, with a
//! time to live. The state transitions of the store file (load, save, remove, and
//! the pruning of expired records) are here; reading and writing the file is the
//! application's.

use vstd::prelude::*;
use crate::text::{trim, trim_str, to_owned_string, path_join, join_path};
use crate::timestamp::{Timestamp, ts_le, at_or_before, datetime_plus_days, plus_days, SECS_PER_DAY};

verus! {

/// Version written into a new store file.
pub const STORE_VERSION: u32 = 1;

/// Days a record lives after it was last updated.
pub const DEFAULT_TTL_DAYS: i64 = 7;

/// The separator between the parts of a storage key.
pub open spec fn key_sep() -> Seq<char> {
    seq![':', ':']
}

/// The namespace of one conversation with one provider and model.
#[derive(Debug)]
pub struct ContinuationScope {
    pub conversation_id: String,
    pub provider_id: String,
    pub model: String,
    pub storage_key: String,
    pub prompt_cache_key: String,
}

/// A scope as text.
pub struct ScopeView {
    pub conversation_id: Seq<char>,
    pub provider_id: Seq<char>,
    pub model: Seq<char>,
    pub storage_key: Seq<char>,
    pub prompt_cache_key: Seq<char>,
}

impl View for ContinuationScope {
    type V = ScopeView;

    open spec fn view(&self) -> ScopeView {
        ScopeView {
            conversation_id: self.conversation_id@,
            provider_id: self.provider_id@,
            model: self.model@,
            storage_key: self.storage_key@,
            prompt_cache_key: self.prompt_cache_key@,
        }
    }
}

/// The storage key of a namespace: `{provider}::{model}::{conversation}`.
pub open spec fn storage_key_of(provider: Seq<char>, model: Seq<char>, conversation: Seq<char>) -> Seq<char> {
    provider + key_sep() + model + key_sep() + conversation
}

/// The scope of a conversation, provider and model: each trimmed, the storage key
/// built from the three, and the conversation id as the prompt cache key.
pub open spec fn scope_of(conversation_id: Seq<char>, provider_id: Seq<char>, model: Seq<char>) -> ScopeView {
    let c = trim(conversation_id);
    let p = trim(provider_id);
    let m = trim(model);
    ScopeView {
        conversation_id: c,
        provider_id: p,
        model: m,
        storage_key: storage_key_of(p, m, c),
        prompt_cache_key: c,
    }
}

impl ContinuationScope {
    /// The scope of `conversation_id` with `provider_id` and `model`.
    pub fn new(conversation_id: &str, provider_id: &str, model: &str) -> (r: Self)
        ensures
            r@ == scope_of(conversation_id@, provider_id@, model@),
    {
        let conversation_id = to_owned_string(trim_str(conversation_id));
        let provider_id = to_owned_string(trim_str(provider_id));
        let model = to_owned_string(trim_str(model));
        let sep = "::";
        proof {
            reveal_strlit("::");
            assert(sep@ =~= key_sep());
        }
        let mut storage_key = provider_id.clone();
        storage_key.append(sep);
        storage_key.append(model.as_str());
        storage_key.append(sep);
        storage_key.append(conversation_id.as_str());
        let prompt_cache_key = conversation_id.clone();
        ContinuationScope { conversation_id, provider_id, model, storage_key, prompt_cache_key }
    }
}


/// What the store remembers of one namespace.
#[derive(Debug)]
pub struct ContinuationRecord {
    pub conversation_id: String,
    pub provider_id: String,
    pub model: String,
    pub prompt_cache_key: String,
    pub latest_response_id: Option<String>,
    pub envelope_hash: Option<String>,
    pub updated_at: Timestamp,
    pub expires_at: Option<Timestamp>,
}

/// A record as text and instants.
pub struct RecordView {
    pub conversation_id: Seq<char>,
    pub provider_id: Seq<char>,
    pub model: Seq<char>,
    pub prompt_cache_key: Seq<char>,
    pub latest_response_id: Option<Seq<char>>,
    pub envelope_hash: Option<Seq<char>>,
    pub updated_at: Timestamp,
    pub expires_at: Option<Timestamp>,
}

impl View for ContinuationRecord {
    type V = RecordView;

    open spec fn view(&self) -> RecordView {
        RecordView {
            conversation_id: self.conversation_id@,
            provider_id: self.provider_id@,
            model: self.model@,
            prompt_cache_key: self.prompt_cache_key@,
            latest_response_id: self.latest_response_id.deep_view(),
            envelope_hash: self.envelope_hash.deep_view(),
            updated_at: self.updated_at,
            expires_at: self.expires_at,
        }
    }
}

/// `t` plus the records' time to live, where chrono can represent it.
pub open spec fn ttl_end(t: Timestamp) -> Option<Timestamp> {
    match datetime_plus_days(t.secs, t.nanos, DEFAULT_TTL_DAYS) {
        Some(v) => Some(Timestamp { secs: v.0, nanos: v.1 }),
        None => None,
    }
}

/// A fresh record of `scope` made at `now`: no response id or envelope hash yet,
/// updated at `now`, expiring a time to live later.
pub open spec fn fresh_record(scope: ScopeView, now: Timestamp) -> RecordView {
    RecordView {
        conversation_id: scope.conversation_id,
        provider_id: scope.provider_id,
        model: scope.model,
        prompt_cache_key: scope.prompt_cache_key,
        latest_response_id: None,
        envelope_hash: None,
        updated_at: now,
        expires_at: ttl_end(now),
    }
}

/// The record belongs to the scope's conversation, provider and model.
pub open spec fn record_matches(r: RecordView, scope: ScopeView) -> bool {
    r.conversation_id == scope.conversation_id && r.provider_id == scope.provider_id && r.model
        == scope.model
}

/// The record has an expiry and it is at or before `now`.
pub open spec fn record_expired(r: RecordView, now: Timestamp) -> bool {
    match r.expires_at {
        Some(e) => ts_le(e, now),
        None => false,
    }
}

/// A copy of an optional string.
pub fn clone_opt_string(o: &Option<String>) -> (r: Option<String>)
    ensures
        r.deep_view() == o.deep_view(),
{
    match o {
        Some(s) => Some(s.clone()),
        None => None,
    }
}

impl ContinuationRecord {
    /// A copy of the record.
    pub fn duplicate(&self) -> (r: Self)
        ensures
            r@ == self@,
    {
        ContinuationRecord {
            conversation_id: self.conversation_id.clone(),
            provider_id: self.provider_id.clone(),
            model: self.model.clone(),
            prompt_cache_key: self.prompt_cache_key.clone(),
            latest_response_id: clone_opt_string(&self.latest_response_id),
            envelope_hash: clone_opt_string(&self.envelope_hash),
            updated_at: self.updated_at,
            expires_at: self.expires_at,
        }
    }

    /// A fresh record of `scope` made at `now`. Adding the time to live to `now`
    /// must stay within chrono's range (chrono panics otherwise).
    pub fn with_timestamp(scope: &ContinuationScope, now: Timestamp) -> (r: Self)
        requires
            ttl_end(now) is Some,
        ensures
            r@ == fresh_record(scope@, now),
    {
        let expires = plus_days(now, DEFAULT_TTL_DAYS);
        ContinuationRecord {
            conversation_id: scope.conversation_id.clone(),
            provider_id: scope.provider_id.clone(),
            model: scope.model.clone(),
            prompt_cache_key: scope.prompt_cache_key.clone(),
            latest_response_id: None,
            envelope_hash: None,
            updated_at: now,
            expires_at: expires,
        }
    }

    /// A fresh record of `scope` made at `now` (the caller's reading of the clock),
    /// or `None` where its expiry would be out of chrono's range.
    pub fn new(scope: &ContinuationScope, now: Timestamp) -> (r: Option<Self>)
        ensures
            r is Some <==> ttl_end(now) is Some,
            r matches Some(v) ==> v@ == fresh_record(scope@, now),
    {
        match plus_days(now, DEFAULT_TTL_DAYS) {
            Some(_) => Some(Self::with_timestamp(scope, now)),
            None => None,
        }
    }

    /// Whether the record belongs to the scope's conversation, provider and model.
    pub fn matches_scope(&self, scope: &ContinuationScope) -> (r: bool)
        ensures
            r == record_matches(self@, scope@),
    {
        self.conversation_id == scope.conversation_id && self.provider_id == scope.provider_id
            && self.model == scope.model
    }

    /// Whether the record has expired at `now`.
    pub fn is_expired(&self, now: Timestamp) -> (r: bool)
        ensures
            r == record_expired(self@, now),
    {
        match self.expires_at {
            Some(e) => at_or_before(e, now),
            None => false,
        }
    }
}


/// A record under its storage key.
#[derive(Debug)]
pub struct StoredRecord {
    pub key: String,
    pub record: ContinuationRecord,
}

/// No two entries share a key.
pub open spec fn keys_unique(es: Seq<StoredRecord>) -> bool {
    forall|i: int, j: int|
        0 <= i < es.len() && 0 <= j < es.len() && #[trigger] es[i].key@ == #[trigger] es[j].key@
            ==> i == j
}

/// Some entry has key `k`.
pub open spec fn has_key(es: Seq<StoredRecord>, k: Seq<char>) -> bool {
    exists|i: int| 0 <= i < es.len() && #[trigger] es[i].key@ == k
}

/// The entries as a map from key to record.
pub open spec fn map_of(es: Seq<StoredRecord>) -> Map<Seq<char>, RecordView> {
    Map::new(
        |k: Seq<char>| has_key(es, k),
        |k: Seq<char>| es[choose|i: int| 0 <= i < es.len() && #[trigger] es[i].key@ == k].record@,
    )
}

/// The map built by inserting the entries one after the other, a later entry
/// replacing an earlier one of the same key.
pub open spec fn map_from_entries(es: Seq<StoredRecord>) -> Map<Seq<char>, RecordView>
    decreases es.len(),
{
    if es.len() == 0 {
        Map::empty()
    } else {
        map_from_entries(es.drop_last()).insert(es.last().key@, es.last().record@)
    }
}

/// The records of `m` that have not expired at `now`.
pub open spec fn prune_map(m: Map<Seq<char>, RecordView>, now: Timestamp) -> Map<Seq<char>, RecordView> {
    Map::new(|k: Seq<char>| m.contains_key(k) && !record_expired(m[k], now), |k: Seq<char>| m[k])
}

/// The contents of a store file: its version and its records by storage key.
pub struct StoreView {
    pub version: u32,
    pub records: Map<Seq<char>, RecordView>,
}

/// The store file: a version and the records keyed by storage key.
pub struct ContinuationStoreFile {
    version: u32,
    records: Vec<StoredRecord>,
}

proof fn lemma_map_of_index(es: Seq<StoredRecord>, i: int)
    requires
        keys_unique(es),
        0 <= i < es.len(),
    ensures
        map_of(es).contains_key(es[i].key@),
        map_of(es)[es[i].key@] == es[i].record@,
{
    let k = es[i].key@;
    assert(has_key(es, k));
    let c = choose|j: int| 0 <= j < es.len() && #[trigger] es[j].key@ == k;
    assert(es[c].key@ == es[i].key@);
}

proof fn lemma_map_of_push(es: Seq<StoredRecord>, e: StoredRecord)
    requires
        keys_unique(es.push(e)),
    ensures
        map_of(es.push(e)) =~= map_of(es).insert(e.key@, e.record@),
        !has_key(es, e.key@),
{
    let n = es.push(e);
    if has_key(es, e.key@) {
        let i = choose|i: int| 0 <= i < es.len() && #[trigger] es[i].key@ == e.key@;
        assert(n[i].key@ == n[es.len() as int].key@);
    }
    assert forall|k: Seq<char>| #[trigger] map_of(n).contains_key(k) <==> map_of(es).insert(
        e.key@,
        e.record@,
    ).contains_key(k) by {
        if has_key(n, k) {
            let i = choose|i: int| 0 <= i < n.len() && #[trigger] n[i].key@ == k;
            if i < es.len() {
                assert(es[i].key@ == k);
            }
        }
        if has_key(es, k) {
            let i = choose|i: int| 0 <= i < es.len() && #[trigger] es[i].key@ == k;
            assert(n[i].key@ == k);
        }
        if k == e.key@ {
            assert(n[es.len() as int].key@ == k);
        }
    }
    assert forall|k: Seq<char>| #[trigger] map_of(n).contains_key(k) implies map_of(n)[k]
        == map_of(es).insert(e.key@, e.record@)[k] by {
        let i = choose|i: int| 0 <= i < n.len() && #[trigger] n[i].key@ == k;
        lemma_map_of_index(n, i);
        if i < es.len() {
            assert(es[i] == n[i]);
            assert forall|a: int, b: int|
                0 <= a < es.len() && 0 <= b < es.len() && #[trigger] es[a].key@
                    == #[trigger] es[b].key@ implies a == b by {
                assert(n[a] == es[a] && n[b] == es[b]);
            }
            lemma_map_of_index(es, i);
        }
    }
}

proof fn lemma_map_of_update(es: Seq<StoredRecord>, i: int, e: StoredRecord)
    requires
        keys_unique(es),
        0 <= i < es.len(),
        es[i].key@ == e.key@,
    ensures
        keys_unique(es.update(i, e)),
        map_of(es.update(i, e)) =~= map_of(es).insert(e.key@, e.record@),
{
    let n = es.update(i, e);
    assert forall|a: int, b: int|
        0 <= a < n.len() && 0 <= b < n.len() && #[trigger] n[a].key@ == #[trigger] n[b].key@ implies a
        == b by {
        assert(n[a].key@ == es[a].key@ && n[b].key@ == es[b].key@);
    }
    assert forall|k: Seq<char>| #[trigger] map_of(n).contains_key(k) <==> map_of(es).insert(
        e.key@,
        e.record@,
    ).contains_key(k) by {
        if has_key(n, k) {
            let j = choose|j: int| 0 <= j < n.len() && #[trigger] n[j].key@ == k;
            assert(es[j].key@ == k);
        }
        if has_key(es, k) {
            let j = choose|j: int| 0 <= j < es.len() && #[trigger] es[j].key@ == k;
            assert(n[j].key@ == k);
        }
    }
    assert forall|k: Seq<char>| #[trigger] map_of(n).contains_key(k) implies map_of(n)[k]
        == map_of(es).insert(e.key@, e.record@)[k] by {
        let j = choose|j: int| 0 <= j < n.len() && #[trigger] n[j].key@ == k;
        lemma_map_of_index(n, j);
        lemma_map_of_index(es, j);
    }
}

proof fn lemma_map_of_remove(es: Seq<StoredRecord>, i: int)
    requires
        keys_unique(es),
        0 <= i < es.len(),
    ensures
        keys_unique(es.remove(i)),
        map_of(es.remove(i)) =~= map_of(es).remove(es[i].key@),
{
    let n = es.remove(i);
    let k0 = es[i].key@;
    assert forall|a: int| 0 <= a < n.len() implies #[trigger] n[a] == es[if a < i { a } else { a + 1 }] by {}
    assert forall|a: int, b: int|
        0 <= a < n.len() && 0 <= b < n.len() && #[trigger] n[a].key@ == #[trigger] n[b].key@ implies a
        == b by {
        assert(n[a] == es[if a < i { a } else { a + 1 }]);
        assert(n[b] == es[if b < i { b } else { b + 1 }]);
    }
    assert forall|k: Seq<char>| #[trigger] map_of(n).contains_key(k) <==> map_of(es).remove(
        k0,
    ).contains_key(k) by {
        if has_key(n, k) {
            let j = choose|j: int| 0 <= j < n.len() && #[trigger] n[j].key@ == k;
            let jj = if j < i { j } else { j + 1 };
            assert(n[j] == es[jj]);
            assert(es[jj].key@ == k);
            assert(jj != i);
        }
        if has_key(es, k) && k != k0 {
            let j = choose|j: int| 0 <= j < es.len() && #[trigger] es[j].key@ == k;
            assert(j != i);
            let jj = if j < i { j } else { j - 1 };
            assert(n[jj] == es[j]);
            assert(n[jj].key@ == k);
        }
    }
    assert forall|k: Seq<char>| #[trigger] map_of(n).contains_key(k) implies map_of(n)[k]
        == map_of(es).remove(k0)[k] by {
        let j = choose|j: int| 0 <= j < n.len() && #[trigger] n[j].key@ == k;
        let jj = if j < i { j } else { j + 1 };
        assert(n[j] == es[jj]);
        lemma_map_of_index(n, j);
        lemma_map_of_index(es, jj);
    }
}

/// The index of the entry with key `key`, if any.
fn find_key(es: &Vec<StoredRecord>, key: &str) -> (r: Option<usize>)
    ensures
        r matches Some(i) ==> i < es@.len() && es@[i as int].key@ == key@,
        r is None ==> !has_key(es@, key@),
{
    let mut i: usize = 0;
    while i < es.len()
        invariant
            i <= es@.len(),
            forall|j: int| 0 <= j < i ==> (#[trigger] es@[j]).key@ != key@,
        decreases es@.len() - i,
    {
        if str_eq(es[i].key.as_str(), key) {
            return Some(i);
        }
        i = i + 1;
    }
    None
}

/// Whether two strings are equal.
pub fn str_eq(a: &str, b: &str) -> (r: bool)
    ensures
        r == (a@ == b@),
{
    let n = a.unicode_len();
    if n != b.unicode_len() {
        return false;
    }
    let mut i: usize = 0;
    while i < n
        invariant
            n == a@.len(),
            n == b@.len(),
            i <= n,
            forall|j: int| 0 <= j < i ==> a@[j] == b@[j],
        decreases n - i,
    {
        if a.get_char(i) != b.get_char(i) {
            return false;
        }
        i = i + 1;
    }
    assert(a@ =~= b@);
    true
}

impl ContinuationStoreFile {
    #[verifier::type_invariant]
    spec fn keys_are_unique(&self) -> bool {
        keys_unique(self.records@)
    }

    /// An empty store file of version 0, what a missing or unreadable file reads as.
    pub fn empty() -> (r: Self)
        ensures
            r@.version == 0,
            r@.records == Map::<Seq<char>, RecordView>::empty(),
    {
        let r = ContinuationStoreFile { version: 0, records: Vec::new() };
        assert(map_of(r.records@) =~= Map::<Seq<char>, RecordView>::empty());
        r
    }

    /// A store file of `version` holding `entries`, a later entry replacing an
    /// earlier one of the same key (as a JSON object read into a map).
    pub fn from_entries(version: u32, entries: Vec<StoredRecord>) -> (r: Self)
        ensures
            r@.version == version,
            r@.records == map_from_entries(entries@),
    {
        let mut out = ContinuationStoreFile::empty();
        let mut i: usize = 0;
        while i < entries.len()
            invariant
                i <= entries@.len(),
                out@.version == 0,
                out@.records == map_from_entries(entries@.take(i as int)),
            decreases entries@.len() - i,
        {
            let e = &entries[i];
            out.insert(e.key.clone(), e.record.duplicate());
            assert(entries@.take(i + 1).drop_last() =~= entries@.take(i as int));
            i = i + 1;
        }
        assert(entries@.take(entries@.len() as int) =~= entries@);
        proof {
            use_type_invariant(&out);
        }
        ContinuationStoreFile { version, records: out.records }
    }

    /// The file's version.
    pub fn version(&self) -> (r: u32)
        ensures
            r == self@.version,
    {
        self.version
    }

    /// The entries, each key once, for writing the file out.
    pub fn entries(&self) -> (r: &Vec<StoredRecord>)
        ensures
            keys_unique(r@),
            map_of(r@) == self@.records,
    {
        proof {
            use_type_invariant(self);
        }
        &self.records
    }

    /// The number of records.
    pub fn len(&self) -> (r: usize)
        ensures
            r == self@.records.len(),
    {
        proof {
            use_type_invariant(self);
            self.lemma_len();
        }
        self.records.len()
    }

    proof fn lemma_len(&self)
        requires
            keys_unique(self.records@),
        ensures
            map_of(self.records@).dom().finite(),
            map_of(self.records@).len() == self.records@.len(),
        decreases self.records@.len(),
    {
        lemma_unique_len(self.records@);
    }

    /// The record under `key`, if any.
    pub fn get(&self, key: &str) -> (r: Option<ContinuationRecord>)
        ensures
            r is Some <==> self@.records.contains_key(key@),
            r matches Some(v) ==> v@ == self@.records[key@],
    {
        proof {
            use_type_invariant(self);
        }
        match find_key(&self.records, key) {
            Some(i) => {
                proof {
                    lemma_map_of_index(self.records@, i as int);
                }
                Some(self.records[i].record.duplicate())
            },
            None => None,
        }
    }

    /// Puts `record` under `key`, replacing what was there.
    pub fn insert(&mut self, key: String, record: ContinuationRecord)
        ensures
            final(self)@.version == old(self)@.version,
            final(self)@.records == old(self)@.records.insert(key@, record@),
    {
        proof {
            use_type_invariant(&*self);
        }
        let mut records: Vec<StoredRecord> = Vec::new();
        std::mem::swap(&mut records, &mut self.records);
        let ghost old_records = records@;
        let e = StoredRecord { key, record };
        match find_key(&records, e.key.as_str()) {
            Some(i) => {
                proof {
                    lemma_map_of_update(old_records, i as int, e);
                }
                records.set(i, e);
            },
            None => {
                proof {
                    assert forall|a: int, b: int|
                        0 <= a < old_records.push(e).len() && 0 <= b < old_records.push(e).len()
                            && #[trigger] old_records.push(e)[a].key@ == #[trigger] old_records.push(
                            e,
                        )[b].key@ implies a == b by {
                        if a < old_records.len() && b == old_records.len() {
                            assert(old_records[a].key@ == e.key@);
                        }
                        if b < old_records.len() && a == old_records.len() {
                            assert(old_records[b].key@ == e.key@);
                        }
                    }
                    lemma_map_of_push(old_records, e);
                }
                records.push(e);
            },
        }
        self.records = records;
    }

    /// Takes the record under `key` out, if there is one.
    pub fn remove(&mut self, key: &str)
        ensures
            final(self)@.version == old(self)@.version,
            final(self)@.records == old(self)@.records.remove(key@),
    {
        proof {
            use_type_invariant(&*self);
        }
        let mut records: Vec<StoredRecord> = Vec::new();
        std::mem::swap(&mut records, &mut self.records);
        let ghost old_records = records@;
        match find_key(&records, key) {
            Some(i) => {
                proof {
                    lemma_map_of_remove(old_records, i as int);
                }
                records.remove(i);
            },
            None => {
                proof {
                    assert(map_of(old_records) =~= map_of(old_records).remove(key@));
                }
            },
        }
        self.records = records;
    }

    /// Drops every record that has expired at `now`.
    pub fn prune_expired_records(&mut self, now: Timestamp)
        ensures
            final(self)@.version == old(self)@.version,
            final(self)@.records == prune_map(old(self)@.records, now),
    {
        proof {
            use_type_invariant(&*self);
        }
        let mut records: Vec<StoredRecord> = Vec::new();
        std::mem::swap(&mut records, &mut self.records);
        let mut kept: Vec<StoredRecord> = Vec::new();
        let mut i: usize = 0;
        while i < records.len()
            invariant
                i <= records@.len(),
                keys_unique(records@),
                keys_unique(kept@),
                forall|j: int| 0 <= j < kept@.len() ==> has_key(records@.take(i as int), #[trigger] kept@[j].key@),
                map_of(kept@) == prune_map(map_of(records@.take(i as int)), now),
            decreases records@.len() - i,
        {
            let ghost prefix = records@.take(i as int);
            let ghost next = records@.take(i + 1);
            proof {
                assert(next =~= prefix.push(records@[i as int]));
                assert forall|a: int, b: int|
                    0 <= a < next.len() && 0 <= b < next.len() && #[trigger] next[a].key@
                        == #[trigger] next[b].key@ implies a == b by {
                    assert(next[a] == records@[a] && next[b] == records@[b]);
                }
                lemma_map_of_push(prefix, records@[i as int]);
            }
            let e = &records[i];
            if !e.record.is_expired(now) {
                let ghost old_kept = kept@;
                let copy = StoredRecord { key: e.key.clone(), record: e.record.duplicate() };
                kept.push(copy);
                proof {
                    assert forall|a: int, b: int|
                        0 <= a < kept@.len() && 0 <= b < kept@.len() && #[trigger] kept@[a].key@
                            == #[trigger] kept@[b].key@ implies a == b by {
                        if a < old_kept.len() && b == old_kept.len() {
                            assert(has_key(prefix, old_kept[a].key@));
                        }
                        if b < old_kept.len() && a == old_kept.len() {
                            assert(has_key(prefix, old_kept[b].key@));
                        }
                    }
                    assert(kept@ =~= old_kept.push(copy));
                    lemma_map_of_push(old_kept, copy);
                    assert forall|j: int| 0 <= j < kept@.len() implies has_key(
                        next,
                        #[trigger] kept@[j].key@,
                    ) by {
                        if j < old_kept.len() {
                            let w = choose|w: int| 0 <= w < prefix.len() && #[trigger] prefix[w].key@ == kept@[j].key@;
                            assert(next[w] == prefix[w]);
                        } else {
                            assert(next[i as int] == records@[i as int]);
                        }
                    }
                    assert(map_of(kept@) =~= prune_map(map_of(next), now));
                }
            } else {
                proof {
                    assert forall|j: int| 0 <= j < kept@.len() implies has_key(
                        next,
                        #[trigger] kept@[j].key@,
                    ) by {
                        let w = choose|w: int| 0 <= w < prefix.len() && #[trigger] prefix[w].key@ == kept@[j].key@;
                        assert(next[w] == prefix[w]);
                    }
                    assert(map_of(kept@) =~= prune_map(map_of(next), now));
                }
            }
            i = i + 1;
        }
        proof {
            assert(records@.take(records@.len() as int) =~= records@);
        }
        self.records = kept;
    }
}

proof fn lemma_unique_len(es: Seq<StoredRecord>)
    requires
        keys_unique(es),
    ensures
        map_of(es).dom().finite(),
        map_of(es).len() == es.len(),
    decreases es.len(),
{
    if es.len() == 0 {
        assert(map_of(es).dom() =~= Set::<Seq<char>>::empty());
    } else {
        let p = es.drop_last();
        assert(es =~= p.push(es.last()));
        assert forall|a: int, b: int|
            0 <= a < p.len() && 0 <= b < p.len() && #[trigger] p[a].key@ == #[trigger] p[b].key@ implies a
            == b by {
            assert(p[a] == es[a] && p[b] == es[b]);
        }
        lemma_unique_len(p);
        lemma_map_of_push(p, es.last());
    }
}

impl View for ContinuationStoreFile {
    type V = StoreView;

    closed spec fn view(&self) -> StoreView {
        StoreView { version: self.version, records: map_of(self.records@) }
    }
}


/// An optional record's view.
pub open spec fn opt_record_view(o: Option<ContinuationRecord>) -> Option<RecordView> {
    match o {
        Some(r) => Some(r@),
        None => None,
    }
}

/// The version a store file has when it names none.
pub fn default_store_version() -> (r: u32)
    ensures
        r == STORE_VERSION,
{
    STORE_VERSION
}

/// Where the store lives under the application's configuration directory:
/// `{config_dir}/proxy/codex_continuation_store.json`.
pub open spec fn store_path_in(config_dir: Seq<char>) -> Seq<char> {
    path_join(path_join(config_dir, "proxy"@), "codex_continuation_store.json"@)
}

/// The default store path under the configuration directory `config_dir`.
pub fn default_store_path(config_dir: &str) -> (r: String)
    ensures
        r@ == store_path_in(config_dir@),
{
    let proxy = join_path(config_dir, "proxy");
    join_path(proxy.as_str(), "codex_continuation_store.json")
}

/// What loading a scope gives and leaves: the record under the scope's key when it
/// belongs to the scope and has not expired; an expired record is dropped from the
/// file and nothing is returned; a record of another namespace is left alone.
pub open spec fn load_outcome(m: Map<Seq<char>, RecordView>, scope: ScopeView, now: Timestamp) -> (
    Option<RecordView>,
    Map<Seq<char>, RecordView>,
) {
    let key = scope.storage_key;
    if m.contains_key(key) {
        let r = m[key];
        if record_matches(r, scope) && !record_expired(r, now) {
            (Some(r), m)
        } else if record_expired(r, now) {
            (None, m.remove(key))
        } else {
            (None, m)
        }
    } else {
        (None, m)
    }
}

/// When a record counts as updated: its own update time, or `now` where that time
/// lies in the epoch's first second.
pub open spec fn effective_update(r: RecordView, now: Timestamp) -> Timestamp {
    if r.updated_at.secs == 0 {
        now
    } else {
        r.updated_at
    }
}

/// Saving can fill in the record's expiry: it has one, or a time to live after its
/// update is within chrono's range.
pub open spec fn save_ok(r: RecordView, now: Timestamp) -> bool {
    r.expires_at is Some || ttl_end(effective_update(r, now)) is Some
}

/// The record as saved under `scope`: the scope's conversation, provider, model and
/// prompt cache key; its response id and envelope hash; its update time (or `now`);
/// its expiry, or a time to live after the update.
pub open spec fn saved_record(scope: ScopeView, r: RecordView, now: Timestamp) -> RecordView {
    let updated = effective_update(r, now);
    RecordView {
        conversation_id: scope.conversation_id,
        provider_id: scope.provider_id,
        model: scope.model,
        prompt_cache_key: scope.prompt_cache_key,
        latest_response_id: r.latest_response_id,
        envelope_hash: r.envelope_hash,
        updated_at: updated,
        expires_at: if r.expires_at is Some {
            r.expires_at
        } else {
            ttl_end(updated)
        },
    }
}

/// The records after saving: the expired ones dropped, then the saved record put
/// under the scope's key.
pub open spec fn save_outcome(
    m: Map<Seq<char>, RecordView>,
    scope: ScopeView,
    r: RecordView,
    now: Timestamp,
) -> Map<Seq<char>, RecordView> {
    prune_map(m, now).insert(scope.storage_key, saved_record(scope, r, now))
}

/// The continuation store kept at `path`.
#[derive(Debug)]
pub struct CodexContinuationStore {
    path: String,
}

impl CodexContinuationStore {
    /// The store at its default place under the configuration directory.
    pub fn new(config_dir: &str) -> (r: Self)
        ensures
            r.spec_path() == store_path_in(config_dir@),
    {
        Self::with_path(default_store_path(config_dir))
    }

    /// The store kept at `path`.
    pub fn with_path(path: String) -> (r: Self)
        ensures
            r.spec_path() == path@,
    {
        CodexContinuationStore { path }
    }

    /// The store's path as text.
    pub closed spec fn spec_path(&self) -> Seq<char> {
        self.path@
    }

    /// The store's path.
    pub fn path(&self) -> (r: &str)
        ensures
            r@ == self.spec_path(),
    {
        self.path.as_str()
    }

    /// The scope of `conversation_id` with `provider_id` and `model`.
    pub fn scope_for(&self, conversation_id: &str, provider_id: &str, model: &str) -> (r:
        ContinuationScope)
        ensures
            r@ == scope_of(conversation_id@, provider_id@, model@),
    {
        ContinuationScope::new(conversation_id, provider_id, model)
    }

    /// Loads the scope's record from the file's contents `file` at `now`. The flag
    /// says whether `file` changed (an expired record was dropped) and must be
    /// written back.
    pub fn load(&self, file: &mut ContinuationStoreFile, scope: &ContinuationScope, now: Timestamp) -> (r: (
        Option<ContinuationRecord>,
        bool,
    ))
        ensures
            opt_record_view(r.0) == load_outcome(old(file)@.records, scope@, now).0,
            final(file)@.records == load_outcome(old(file)@.records, scope@, now).1,
            final(file)@.version == old(file)@.version,
            r.1 == (old(file)@.records.contains_key(scope@.storage_key) && record_expired(
                old(file)@.records[scope@.storage_key],
                now,
            )),
    {
        let key = scope.storage_key.as_str();
        match file.get(key) {
            Some(record) => {
                if record.matches_scope(scope) && !record.is_expired(now) {
                    (Some(record), false)
                } else if record.is_expired(now) {
                    file.remove(key);
                    (None, true)
                } else {
                    (None, false)
                }
            },
            None => (None, false),
        }
    }

    /// Saves `record` under the scope into the file's contents `file` at `now`:
    /// the record takes the scope's names, an update time in the epoch's first
    /// second becomes `now`, a missing expiry becomes a time to live after the
    /// update, expired records are dropped and the record is put under the
    /// scope's key.
    pub fn save(
        &self,
        file: &mut ContinuationStoreFile,
        scope: &ContinuationScope,
        record: ContinuationRecord,
        now: Timestamp,
    )
        requires
            save_ok(record@, now),
        ensures
            final(file)@.records == save_outcome(old(file)@.records, scope@, record@, now),
            final(file)@.version == old(file)@.version,
    {
        let mut record = record;
        record.conversation_id = scope.conversation_id.clone();
        record.provider_id = scope.provider_id.clone();
        record.model = scope.model.clone();
        record.prompt_cache_key = scope.prompt_cache_key.clone();
        if record.updated_at.secs == 0 {
            record.updated_at = now;
        }
        if record.expires_at.is_none() {
            record.expires_at = plus_days(record.updated_at, DEFAULT_TTL_DAYS);
        }
        file.prune_expired_records(now);
        file.insert(scope.storage_key.clone(), record);
    }

    /// Saves `record` as `save` does where its expiry can be filled in; otherwise
    /// leaves `file` alone and says so with `false`.
    pub fn try_save(
        &self,
        file: &mut ContinuationStoreFile,
        scope: &ContinuationScope,
        record: ContinuationRecord,
        now: Timestamp,
    ) -> (r: bool)
        ensures
            r == save_ok(record@, now),
            r ==> final(file)@.records == save_outcome(old(file)@.records, scope@, record@, now),
            !r ==> final(file)@.records == old(file)@.records,
            final(file)@.version == old(file)@.version,
    {
        let updated = if record.updated_at.secs == 0 {
            now
        } else {
            record.updated_at
        };
        if record.expires_at.is_none() && plus_days(updated, DEFAULT_TTL_DAYS).is_none() {
            return false;
        }
        self.save(file, scope, record, now);
        true
    }

    /// Takes the scope's record out of the file's contents `file`.
    pub fn remove(&self, file: &mut ContinuationStoreFile, scope: &ContinuationScope)
        ensures
            final(file)@.records == old(file)@.records.remove(scope@.storage_key),
            final(file)@.version == old(file)@.version,
    {
        file.remove(scope.storage_key.as_str());
    }
}


/// Loading right after a save gives the saved record back, for as long as it has
/// not expired: with the response id and envelope hash it was saved with and the
/// scope's prompt cache key; the file stays as the save left it.
pub proof fn law_save_then_load(
    m: Map<Seq<char>, RecordView>,
    scope: ScopeView,
    r: RecordView,
    now: Timestamp,
    later: Timestamp,
)
    requires
        !record_expired(saved_record(scope, r, now), later),
    ensures
        load_outcome(save_outcome(m, scope, r, now), scope, later) == (
            Some(saved_record(scope, r, now)),
            save_outcome(m, scope, r, now),
        ),
        saved_record(scope, r, now).latest_response_id == r.latest_response_id,
        saved_record(scope, r, now).envelope_hash == r.envelope_hash,
        saved_record(scope, r, now).prompt_cache_key == scope.prompt_cache_key,
{
}

/// After a scope's record is removed, loading the scope gives nothing and changes
/// nothing.
pub proof fn law_remove_then_load(m: Map<Seq<char>, RecordView>, scope: ScopeView, now: Timestamp)
    ensures
        load_outcome(m.remove(scope.storage_key), scope, now) == (
            None::<RecordView>,
            m.remove(scope.storage_key),
        ),
{
}

/// A loaded record is the one under the scope's key, belongs to the scope and has
/// not expired.
pub proof fn law_load_returns_own_live_record(m: Map<Seq<char>, RecordView>, scope: ScopeView, now: Timestamp)
    ensures
        load_outcome(m, scope, now).0 matches Some(x) ==> m.contains_key(scope.storage_key) && m[scope.storage_key]
            == x && record_matches(x, scope) && !record_expired(x, now),
{
}

/// Loading a scope whose record has expired drops that record and gives nothing;
/// loading never touches another key.
pub proof fn law_load_drops_expired(m: Map<Seq<char>, RecordView>, scope: ScopeView, now: Timestamp)
    ensures
        m.contains_key(scope.storage_key) && record_expired(m[scope.storage_key], now) ==> load_outcome(m, scope, now)
            == (None::<RecordView>, m.remove(scope.storage_key)),
        forall|k: Seq<char>|
            k != scope.storage_key ==> (#[trigger] load_outcome(m, scope, now).1.contains_key(k)
                == m.contains_key(k) && (m.contains_key(k) ==> load_outcome(m, scope, now).1[k]
                == m[k])),
{
}

/// After a save no other record in the file has expired, every other record that
/// had not expired is kept as it was, and the scope's key holds the saved record.
pub proof fn law_save_prunes_and_keeps(
    m: Map<Seq<char>, RecordView>,
    scope: ScopeView,
    r: RecordView,
    now: Timestamp,
)
    ensures
        save_outcome(m, scope, r, now).contains_key(scope.storage_key),
        save_outcome(m, scope, r, now)[scope.storage_key] == saved_record(scope, r, now),
        forall|k: Seq<char>|
            k != scope.storage_key && #[trigger] save_outcome(m, scope, r, now).contains_key(k)
                ==> m.contains_key(k) && !record_expired(m[k], now) && save_outcome(m, scope, r, now)[k]
                == m[k],
        forall|k: Seq<char>|
            k != scope.storage_key && m.contains_key(k) && !record_expired(m[k], now)
                ==> #[trigger] save_outcome(m, scope, r, now).contains_key(k),
{
}

proof fn lemma_split_at_sep(a: Seq<char>, x: Seq<char>, b: Seq<char>, y: Seq<char>)
    requires
        !a.contains(':'),
        !b.contains(':'),
        a + key_sep() + x == b + key_sep() + y,
    ensures
        a == b,
        x == y,
{
    let l = a + key_sep() + x;
    let r = b + key_sep() + y;
    if a.len() < b.len() {
        assert(l[a.len() as int] == ':');
        assert(r[a.len() as int] == b[a.len() as int]);
        assert(b.contains(':'));
    } else if b.len() < a.len() {
        assert(r[b.len() as int] == ':');
        assert(l[b.len() as int] == a[b.len() as int]);
        assert(a.contains(':'));
    } else {
        assert(a =~= l.subrange(0, a.len() as int));
        assert(b =~= r.subrange(0, b.len() as int));
        assert(x =~= l.subrange(a.len() + 2int, l.len() as int));
        assert(y =~= r.subrange(b.len() + 2int, r.len() as int));
    }
}

/// Where no trimmed provider id or model holds a `:`, two scopes share a storage
/// key exactly when their trimmed conversation, provider and model agree; the
/// prompt cache key is the trimmed conversation id whatever the provider and model.
pub proof fn law_storage_key_separates_namespaces(
    c1: Seq<char>,
    p1: Seq<char>,
    m1: Seq<char>,
    c2: Seq<char>,
    p2: Seq<char>,
    m2: Seq<char>,
)
    requires
        !trim(p1).contains(':'),
        !trim(m1).contains(':'),
        !trim(p2).contains(':'),
        !trim(m2).contains(':'),
    ensures
        scope_of(c1, p1, m1).storage_key == scope_of(c2, p2, m2).storage_key <==> (trim(c1) == trim(c2)
            && trim(p1) == trim(p2) && trim(m1) == trim(m2)),
        scope_of(c1, p1, m1).prompt_cache_key == trim(c1),
{
    let (tc1, tp1, tm1) = (trim(c1), trim(p1), trim(m1));
    let (tc2, tp2, tm2) = (trim(c2), trim(p2), trim(m2));
    if storage_key_of(tp1, tm1, tc1) == storage_key_of(tp2, tm2, tc2) {
        assert(storage_key_of(tp1, tm1, tc1) =~= tp1 + key_sep() + (tm1 + key_sep() + tc1));
        assert(storage_key_of(tp2, tm2, tc2) =~= tp2 + key_sep() + (tm2 + key_sep() + tc2));
        lemma_split_at_sep(tp1, tm1 + key_sep() + tc1, tp2, tm2 + key_sep() + tc2);
        lemma_split_at_sep(tm1, tc1, tm2, tc2);
    }
}

} // verus!
