//! The bridge between Messages-style requests and the Responses API's continuation:
//! the metadata that names a request's namespace and envelope, the lookup of the
//! response id to continue from, and the recording of a new response id.

use vstd::prelude::*;
use vstd::string::StringSliceAdditionalSpecFns;
use crate::text::{trim, trim_str, to_owned_string, is_ws, lemma_trim_idempotent};
use crate::timestamp::{Timestamp, plus_days};
use crate::continuation_store::{
    ScopeView, RecordView, ContinuationScope, ContinuationRecord, ContinuationStoreFile,
    CodexContinuationStore, scope_of, load_outcome, save_outcome, save_ok, fresh_record, ttl_end,
    record_matches, record_expired, saved_record, opt_record_view, effective_update, DEFAULT_TTL_DAYS,
};

verus! {

/// Name of the request field that carries the prompt cache key privately.
pub const PRIVATE_PROMPT_CACHE_KEY_FIELD: &'static str = "_cc_switch_prompt_cache_key";

/// Name of the request field that carries the previous response id privately.
pub const PRIVATE_PREVIOUS_RESPONSE_ID_FIELD: &'static str = "_cc_switch_previous_response_id";

/// The SHA-256 digest of `data`.
pub uninterp spec fn sha256_of(data: Seq<u8>) -> Seq<u8>;

/// SHA-256 of `data` (`sha2::Sha256::digest`). Trusted: the result is the value
/// named `sha256_of` and is 32 bytes long.
#[verifier::external_body]
fn sha256_digest(data: &[u8]) -> (r: Vec<u8>)
    ensures
        r@ == sha256_of(data@),
        r@.len() == 32,
{
    <sha2::Sha256 as sha2::Digest>::digest(data).to_vec()
}

/// The lower-case hexadecimal digit of `n`.
pub open spec fn hex_char(n: u8) -> char {
    if n < 10 {
        (('0' as u8) + n) as char
    } else {
        (('a' as u8) + (n - 10)) as char
    }
}

/// `data` in lower-case hexadecimal, two digits per byte, high nibble first.
pub open spec fn hex_lower(data: Seq<u8>) -> Seq<char>
    decreases data.len(),
{
    if data.len() == 0 {
        seq![]
    } else {
        seq![hex_char(data[0] / 16), hex_char(data[0] % 16)] + hex_lower(data.drop_first())
    }
}

fn hex_digit(n: u8) -> (r: &'static str)
    requires
        n < 16,
    ensures
        r@ == seq![hex_char(n)],
{
    match n {
        0 => { proof { reveal_strlit("0"); } "0" },
        1 => { proof { reveal_strlit("1"); } "1" },
        2 => { proof { reveal_strlit("2"); } "2" },
        3 => { proof { reveal_strlit("3"); } "3" },
        4 => { proof { reveal_strlit("4"); } "4" },
        5 => { proof { reveal_strlit("5"); } "5" },
        6 => { proof { reveal_strlit("6"); } "6" },
        7 => { proof { reveal_strlit("7"); } "7" },
        8 => { proof { reveal_strlit("8"); } "8" },
        9 => { proof { reveal_strlit("9"); } "9" },
        10 => { proof { reveal_strlit("a"); } "a" },
        11 => { proof { reveal_strlit("b"); } "b" },
        12 => { proof { reveal_strlit("c"); } "c" },
        13 => { proof { reveal_strlit("d"); } "d" },
        14 => { proof { reveal_strlit("e"); } "e" },
        _ => { proof { reveal_strlit("f"); } "f" },
    }
}

proof fn lemma_hex_lower_push(data: Seq<u8>, b: u8)
    ensures
        hex_lower(data.push(b)) == hex_lower(data) + seq![hex_char(b / 16), hex_char(b % 16)],
    decreases data.len(),
{
    if data.len() == 0 {
        assert(data.push(b).drop_first() =~= Seq::<u8>::empty());
        assert(data.push(b)[0] == b);
        assert(hex_lower(Seq::<u8>::empty()) =~= Seq::<char>::empty());
        assert(hex_lower(data.push(b)) =~= seq![hex_char(b / 16), hex_char(b % 16)]);
    } else {
        lemma_hex_lower_push(data.drop_first(), b);
        assert(data.push(b).drop_first() =~= data.drop_first().push(b));
        assert(hex_lower(data.push(b)) =~= hex_lower(data) + seq![hex_char(b / 16), hex_char(b % 16)]);
    }
}

/// `data` in lower-case hexadecimal.
pub fn to_hex_lower(data: &[u8]) -> (r: String)
    ensures
        r@ == hex_lower(data@),
{
    let mut r = String::new();
    let mut i: usize = 0;
    while i < data.len()
        invariant
            i <= data@.len(),
            r@ == hex_lower(data@.take(i as int)),
        decreases data@.len() - i,
    {
        let b = data[i];
        r.append(hex_digit(b / 16));
        r.append(hex_digit(b % 16));
        proof {
            lemma_hex_lower_push(data@.take(i as int), b);
            assert(data@.take(i + 1) =~= data@.take(i as int).push(b));
        }
        i = i + 1;
    }
    assert(data@.take(data@.len() as int) =~= data@);
    r
}

/// The SHA-256 digest of `bytes` in lower-case hexadecimal.
pub fn sha256_hex(bytes: &[u8]) -> (r: String)
    ensures
        r@ == hex_lower(sha256_of(bytes@)),
        r@.len() == 64,
{
    let digest = sha256_digest(bytes);
    proof {
        lemma_hex_lower_len(digest@);
    }
    to_hex_lower(digest.as_slice())
}

proof fn lemma_hex_lower_len(data: Seq<u8>)
    ensures
        hex_lower(data).len() == 2 * data.len(),
    decreases data.len(),
{
    if data.len() > 0 {
        lemma_hex_lower_len(data.drop_first());
    }
}

/// The request fields that make up its envelope, in the order its JSON text lists
/// them: sorted by name, as serde_json writes the keys of an object.
pub open spec fn envelope_field_names() -> Seq<Seq<char>> {
    seq!["instructions"@, "model"@, "reasoning"@, "temperature"@, "tool_choice"@, "tools"@, "top_p"@]
}

/// The request fields that make up its envelope, in the order of its JSON text.
pub fn envelope_fields() -> (r: Vec<&'static str>)
    ensures
        r@.len() == envelope_field_names().len(),
        forall|i: int| 0 <= i < r@.len() ==> (#[trigger] r@[i])@ == envelope_field_names()[i],
{
    let r = vec!["instructions", "model", "reasoning", "temperature", "tool_choice", "tools", "top_p"];
    proof {
        reveal_strlit("instructions");
        reveal_strlit("model");
        reveal_strlit("reasoning");
        reveal_strlit("temperature");
        reveal_strlit("tool_choice");
        reveal_strlit("tools");
        reveal_strlit("top_p");
    }
    r
}

/// The JSON text of envelope field `i`, given the JSON texts of the values
/// `values` (in the order of the field names; `None` or a missing entry where the
/// request lacks the field).
pub open spec fn field_value(values: Seq<Option<Seq<char>>>, i: int) -> Option<Seq<char>> {
    if 0 <= i < values.len() {
        values[i]
    } else {
        None
    }
}

/// One member of the envelope object: `"name":value`, with `null` for a field the
/// request lacks.
pub open spec fn envelope_member(name: Seq<char>, value: Option<Seq<char>>) -> Seq<char> {
    seq!['"'] + name + seq!['"', ':'] + match value {
        Some(v) => v,
        None => "null"@,
    }
}

/// The first `n` members of the envelope object, separated by commas.
pub open spec fn envelope_members(values: Seq<Option<Seq<char>>>, n: int) -> Seq<char>
    decreases n,
{
    if n <= 0 {
        seq![]
    } else if n == 1 {
        envelope_member(envelope_field_names()[0], field_value(values, 0))
    } else {
        envelope_members(values, n - 1) + seq![','] + envelope_member(
            envelope_field_names()[n - 1],
            field_value(values, n - 1),
        )
    }
}

/// The envelope's JSON text, as serde_json writes the object of the envelope fields
/// without spaces.
pub open spec fn envelope_text_of(values: Seq<Option<Seq<char>>>) -> Seq<char> {
    seq!['{'] + envelope_members(values, envelope_field_names().len() as int) + seq!['}']
}

/// The JSON texts of optional values.
pub open spec fn opt_texts(values: Seq<Option<String>>) -> Seq<Option<Seq<char>>> {
    values.map_values(|v: Option<String>| v.deep_view())
}

/// The JSON text of a request's envelope, from the JSON texts of the envelope
/// fields' values in the order of `envelope_fields` (`None` for a field the request
/// lacks).
pub fn envelope_json(values: &Vec<Option<String>>) -> (r: String)
    ensures
        r@ == envelope_text_of(opt_texts(values@)),
{
    let names = envelope_fields();
    let ghost vs = opt_texts(values@);
    let mut members = String::new();
    let mut i: usize = 0;
    while i < names.len()
        invariant
            i <= names@.len(),
            names@.len() == envelope_field_names().len(),
            forall|k: int| 0 <= k < names@.len() ==> (#[trigger] names@[k])@ == envelope_field_names()[k],
            vs == opt_texts(values@),
            members@ == envelope_members(vs, i as int),
        decreases names@.len() - i,
    {
        let ghost before = members@;
        if i > 0 {
            members.append(",");
        }
        members.append("\"");
        members.append(names[i]);
        members.append("\":");
        let value: Option<&String> = if i < values.len() {
            match &values[i] {
                Some(v) => Some(v),
                None => None,
            }
        } else {
            None
        };
        match value {
            Some(v) => members.append(v.as_str()),
            None => members.append("null"),
        }
        proof {
            reveal_strlit(",");
            reveal_strlit("\"");
            reveal_strlit("\":");
            reveal_strlit("null");
            assert(field_value(vs, i as int) == match value {
                Some(v) => Some(v@),
                None => None::<Seq<char>>,
            });
            if i == 0 {
                assert(members@ =~= envelope_member(envelope_field_names()[0], field_value(vs, 0)));
            } else {
                assert(members@ =~= before + seq![','] + envelope_member(
                    envelope_field_names()[i as int],
                    field_value(vs, i as int),
                ));
            }
        }
        i = i + 1;
    }
    let mut r = String::new();
    r.append("{");
    r.append(members.as_str());
    r.append("}");
    proof {
        reveal_strlit("{");
        reveal_strlit("}");
        assert(r@ =~= envelope_text_of(vs));
    }
    r
}

/// The hash of a request envelope: SHA-256 of its JSON text, in hexadecimal.
pub fn hash_request_envelope(envelope_json: &str) -> (r: String)
    ensures
        r@ == hex_lower(sha256_of(envelope_json.spec_bytes())),
        r@.len() == 64,
{
    sha256_hex(envelope_json.as_bytes())
}

/// What names a request: its (trimmed) conversation and provider, the prompt cache
/// key to send, the hash of its envelope and its model.
#[derive(Debug)]
pub struct BridgeMetadata {
    pub conversation_id: String,
    pub provider_id: String,
    pub prompt_cache_key: String,
    pub envelope_hash: String,
    pub model: String,
}

/// Bridge metadata as text.
pub struct BridgeMetadataView {
    pub conversation_id: Seq<char>,
    pub provider_id: Seq<char>,
    pub prompt_cache_key: Seq<char>,
    pub envelope_hash: Seq<char>,
    pub model: Seq<char>,
}

impl View for BridgeMetadata {
    type V = BridgeMetadataView;

    open spec fn view(&self) -> BridgeMetadataView {
        BridgeMetadataView {
            conversation_id: self.conversation_id@,
            provider_id: self.provider_id@,
            prompt_cache_key: self.prompt_cache_key@,
            envelope_hash: self.envelope_hash@,
            model: self.model@,
        }
    }
}

/// An optional string slice as text.
pub open spec fn opt_str(o: Option<&str>) -> Option<Seq<char>> {
    match o {
        Some(s) => Some(s@),
        None => None,
    }
}

/// The model a request is namespaced under: the override, else the request's
/// model, else `unknown`.
pub open spec fn chosen_model(request_model: Option<Seq<char>>, model_override: Option<Seq<char>>) -> Seq<
    char,
> {
    match model_override {
        Some(m) => m,
        None => match request_model {
            Some(m) => m,
            None => "unknown"@,
        },
    }
}

/// The metadata of a request whose model field is `request_model` and whose
/// envelope serialises to `envelope`: the scope's trimmed conversation and provider,
/// the explicit prompt cache key or else the scope's, the envelope's hash, and the
/// chosen model as given.
pub open spec fn metadata_of(
    request_model: Option<Seq<char>>,
    envelope: Seq<u8>,
    session_id: Seq<char>,
    provider_id: Seq<char>,
    explicit_prompt_cache_key: Option<Seq<char>>,
    model_override: Option<Seq<char>>,
) -> BridgeMetadataView {
    let model = chosen_model(request_model, model_override);
    let scope = scope_of(session_id, provider_id, model);
    BridgeMetadataView {
        conversation_id: scope.conversation_id,
        provider_id: scope.provider_id,
        prompt_cache_key: match explicit_prompt_cache_key {
            Some(k) => k,
            None => scope.prompt_cache_key,
        },
        envelope_hash: hex_lower(sha256_of(envelope)),
        model,
    }
}

fn opt_str_to_string(o: Option<&str>) -> (r: Option<String>)
    ensures
        r.deep_view() == opt_str(o),
{
    match o {
        Some(s) => Some(to_owned_string(s)),
        None => None,
    }
}

/// The metadata of a request, namespaced by `model_override` where given.
pub fn bridge_metadata_for_model(
    request_model: Option<&str>,
    envelope_json: &str,
    session_id: &str,
    provider_id: &str,
    explicit_prompt_cache_key: Option<&str>,
    model_override: Option<&str>,
) -> (r: BridgeMetadata)
    ensures
        r@ == metadata_of(
            opt_str(request_model),
            envelope_json.spec_bytes(),
            session_id@,
            provider_id@,
            opt_str(explicit_prompt_cache_key),
            opt_str(model_override),
        ),
{
    let unknown = "unknown";
    let model_str: &str = match model_override {
        Some(m) => m,
        None => match request_model {
            Some(m) => m,
            None => unknown,
        },
    };
    let model = to_owned_string(model_str);
    let scope = ContinuationScope::new(session_id, provider_id, model_str);
    let prompt_cache_key = match explicit_prompt_cache_key {
        Some(k) => to_owned_string(k),
        None => scope.prompt_cache_key,
    };
    let envelope_hash = hash_request_envelope(envelope_json);
    BridgeMetadata {
        conversation_id: scope.conversation_id,
        provider_id: scope.provider_id,
        prompt_cache_key,
        envelope_hash,
        model,
    }
}

/// The metadata of a Responses request under its own model.
pub fn bridge_metadata_for_responses_request(
    request_model: Option<&str>,
    envelope_json: &str,
    session_id: &str,
    provider_id: &str,
    explicit_prompt_cache_key: Option<&str>,
) -> (r: BridgeMetadata)
    ensures
        r@ == metadata_of(
            opt_str(request_model),
            envelope_json.spec_bytes(),
            session_id@,
            provider_id@,
            opt_str(explicit_prompt_cache_key),
            None,
        ),
{
    bridge_metadata_for_model(
        request_model,
        envelope_json,
        session_id,
        provider_id,
        explicit_prompt_cache_key,
        None,
    )
}


/// The scope that metadata names.
pub open spec fn metadata_scope_of(md: BridgeMetadataView) -> ScopeView {
    scope_of(md.conversation_id, md.provider_id, md.model)
}

/// The scope that `metadata` names, as the store computes it.
pub fn metadata_scope(store: &CodexContinuationStore, metadata: &BridgeMetadata) -> (r:
    ContinuationScope)
    ensures
        r@ == metadata_scope_of(metadata@),
{
    store.scope_for(
        metadata.conversation_id.as_str(),
        metadata.provider_id.as_str(),
        metadata.model.as_str(),
    )
}

/// The response id to continue from, given what loading the metadata's scope
/// gave: the record's latest response id, when the record was made for the same
/// envelope and the id is not blank.
pub open spec fn continuation_from(loaded: Option<RecordView>, md: BridgeMetadataView) -> Option<Seq<char>> {
    match loaded {
        Some(r) => if r.envelope_hash == Some(md.envelope_hash) {
            match r.latest_response_id {
                Some(id) => if trim(id).len() > 0 {
                    Some(id)
                } else {
                    None
                },
                None => None,
            }
        } else {
            None
        },
        None => None,
    }
}

/// An optional owned string as text.
pub open spec fn opt_string(o: Option<String>) -> Option<Seq<char>> {
    o.deep_view()
}

/// Looks up the response id to continue from in the store's contents `file` at
/// `now`. Loading may drop an expired record; the flag says whether `file`
/// changed and must be written back.
pub fn load_previous_response_id(
    store: &CodexContinuationStore,
    file: &mut ContinuationStoreFile,
    metadata: &BridgeMetadata,
    now: Timestamp,
) -> (r: (Option<String>, bool))
    ensures
        opt_string(r.0) == continuation_from(
            load_outcome(old(file)@.records, metadata_scope_of(metadata@), now).0,
            metadata@,
        ),
        final(file)@.records == load_outcome(old(file)@.records, metadata_scope_of(metadata@), now).1,
        final(file)@.version == old(file)@.version,
        r.1 == (final(file)@.records != old(file)@.records),
{
    let scope = metadata_scope(store, metadata);
    let ghost before = file@.records;
    let (loaded, changed) = store.load(file, &scope, now);
    proof {
        if changed {
            assert(!file@.records.contains_key(scope@.storage_key));
            assert(before.contains_key(scope@.storage_key));
        }
    }
    let record = match loaded {
        Some(r) => r,
        None => return (None, changed),
    };
    let matches = match &record.envelope_hash {
        Some(h) => *h == metadata.envelope_hash,
        None => false,
    };
    if !matches {
        return (None, changed);
    }
    match record.latest_response_id {
        Some(id) => {
            if trim_str(id.as_str()).is_empty() {
                (None, changed)
            } else {
                (Some(id), changed)
            }
        },
        None => (None, changed),
    }
}

/// The record to save for a new response id: the loaded record (or a fresh one
/// made at `now`) with the metadata's prompt cache key, the trimmed response id and
/// the metadata's envelope hash.
pub open spec fn persisted_record(
    loaded: Option<RecordView>,
    scope: ScopeView,
    md: BridgeMetadataView,
    response_id: Seq<char>,
    now: Timestamp,
) -> RecordView {
    let base = match loaded {
        Some(r) => r,
        None => fresh_record(scope, now),
    };
    RecordView {
        prompt_cache_key: md.prompt_cache_key,
        latest_response_id: Some(trim(response_id)),
        envelope_hash: Some(md.envelope_hash),
        ..base
    }
}

/// Recording the response id cannot overflow chrono: it is blank, or the record it
/// goes into can be given an expiry.
pub open spec fn persist_ok(
    m: Map<Seq<char>, RecordView>,
    md: BridgeMetadataView,
    response_id: Seq<char>,
    now: Timestamp,
) -> bool {
    trim(response_id).len() == 0 || match load_outcome(m, metadata_scope_of(md), now).0 {
        Some(r) => save_ok(r, now),
        None => ttl_end(now) is Some,
    }
}

/// The records after recording a response id: nothing changes for a blank id;
/// otherwise the metadata's scope is loaded and the updated record saved.
pub open spec fn persist_outcome(
    m: Map<Seq<char>, RecordView>,
    md: BridgeMetadataView,
    response_id: Seq<char>,
    now: Timestamp,
) -> Map<Seq<char>, RecordView> {
    if trim(response_id).len() == 0 {
        m
    } else {
        let scope = metadata_scope_of(md);
        let (loaded, m1) = load_outcome(m, scope, now);
        save_outcome(m1, scope, persisted_record(loaded, scope, md, response_id, now), now)
    }
}

/// Records `response_id` as the latest response of the metadata's namespace in the
/// store's contents `file` at `now`; a blank id is ignored.
pub fn persist_metadata_response(
    store: &CodexContinuationStore,
    file: &mut ContinuationStoreFile,
    metadata: &BridgeMetadata,
    response_id: &str,
    now: Timestamp,
)
    requires
        persist_ok(old(file)@.records, metadata@, response_id@, now),
    ensures
        final(file)@.records == persist_outcome(old(file)@.records, metadata@, response_id@, now),
        final(file)@.version == old(file)@.version,
{
    let trimmed = trim_str(response_id);
    if trimmed.is_empty() {
        return;
    }
    let scope = metadata_scope(store, metadata);
    let (loaded, _) = store.load(file, &scope, now);
    let mut record = match loaded {
        Some(r) => r,
        None => ContinuationRecord::with_timestamp(&scope, now),
    };
    record.prompt_cache_key = metadata.prompt_cache_key.clone();
    record.latest_response_id = Some(to_owned_string(trimmed));
    record.envelope_hash = Some(metadata.envelope_hash.clone());
    store.save(file, &scope, record, now);
}

/// Records `response_id` as `persist_metadata_response` does where that cannot
/// overflow chrono; otherwise leaves `file` alone and says so with `false`.
pub fn try_persist_metadata_response(
    store: &CodexContinuationStore,
    file: &mut ContinuationStoreFile,
    metadata: &BridgeMetadata,
    response_id: &str,
    now: Timestamp,
) -> (r: bool)
    ensures
        r == persist_ok(old(file)@.records, metadata@, response_id@, now),
        r ==> final(file)@.records == persist_outcome(old(file)@.records, metadata@, response_id@, now),
        !r ==> final(file)@.records == old(file)@.records,
        final(file)@.version == old(file)@.version,
{
    let trimmed = trim_str(response_id);
    if trimmed.is_empty() {
        persist_metadata_response(store, file, metadata, response_id, now);
        return true;
    }
    let scope = metadata_scope(store, metadata);
    let fresh_ok = plus_days(now, DEFAULT_TTL_DAYS).is_some();
    let ok = match file.get(scope.storage_key.as_str()) {
        Some(rec) => {
            if rec.matches_scope(&scope) && !rec.is_expired(now) {
                let updated = if rec.updated_at.secs == 0 {
                    now
                } else {
                    rec.updated_at
                };
                rec.expires_at.is_some() || plus_days(updated, DEFAULT_TTL_DAYS).is_some()
            } else {
                fresh_ok
            }
        },
        None => fresh_ok,
    };
    if ok {
        persist_metadata_response(store, file, metadata, response_id, now);
    }
    ok
}

/// Once a response id is recorded, looking up the same metadata later gives that
/// id (trimmed) back, for as long as the record has not expired.
pub proof fn law_persist_then_lookup(
    m: Map<Seq<char>, RecordView>,
    md: BridgeMetadataView,
    response_id: Seq<char>,
    now: Timestamp,
    later: Timestamp,
)
    requires
        trim(response_id).len() > 0,
        !record_expired(
            saved_record(
                metadata_scope_of(md),
                persisted_record(
                    load_outcome(m, metadata_scope_of(md), now).0,
                    metadata_scope_of(md),
                    md,
                    response_id,
                    now,
                ),
                now,
            ),
            later,
        ),
    ensures
        continuation_from(load_outcome(persist_outcome(m, md, response_id, now), metadata_scope_of(md), later).0, md)
            == Some(trim(response_id)),
{
    let scope = metadata_scope_of(md);
    let (loaded, m1) = load_outcome(m, scope, now);
    let rec = persisted_record(loaded, scope, md, response_id, now);
    crate::continuation_store::law_save_then_load(m1, scope, rec, now, later);
    lemma_trim_idempotent(response_id);
}

/// A response id is handed out only from a record of the same envelope whose id is
/// not blank: when the envelope drifts, nothing is continued.
pub proof fn law_lookup_needs_same_envelope(m: Map<Seq<char>, RecordView>, md: BridgeMetadataView, now: Timestamp)
    ensures
        continuation_from(load_outcome(m, metadata_scope_of(md), now).0, md) matches Some(id) ==> {
            let key = metadata_scope_of(md).storage_key;
            &&& m.contains_key(key)
            &&& m[key].envelope_hash == Some(md.envelope_hash)
            &&& m[key].latest_response_id == Some(id)
            &&& trim(id).len() > 0
        },
{
}

/// Recording a blank response id leaves the store as it was, and recording any id
/// touches no namespace but the metadata's own, except to drop expired records.
pub proof fn law_persist_touches_only_its_namespace(
    m: Map<Seq<char>, RecordView>,
    md: BridgeMetadataView,
    response_id: Seq<char>,
    now: Timestamp,
)
    ensures
        trim(response_id).len() == 0 ==> persist_outcome(m, md, response_id, now) == m,
        forall|k: Seq<char>|
            k != metadata_scope_of(md).storage_key && #[trigger] persist_outcome(m, md, response_id, now).contains_key(k)
                ==> m.contains_key(k) && persist_outcome(m, md, response_id, now)[k] == m[k],
{
}

/// The envelope of a request decides only its hash: two requests of one
/// conversation, provider, explicit key and model share their conversation,
/// provider, prompt cache key, model and so their namespace, whatever their
/// envelopes; equal envelopes give equal metadata.
pub proof fn law_envelope_changes_only_the_hash(
    request_model: Option<Seq<char>>,
    envelope1: Seq<u8>,
    envelope2: Seq<u8>,
    session_id: Seq<char>,
    provider_id: Seq<char>,
    explicit_prompt_cache_key: Option<Seq<char>>,
    model_override: Option<Seq<char>>,
)
    ensures
        ({
            let a = metadata_of(request_model, envelope1, session_id, provider_id, explicit_prompt_cache_key, model_override);
            let b = metadata_of(request_model, envelope2, session_id, provider_id, explicit_prompt_cache_key, model_override);
            &&& a.conversation_id == b.conversation_id
            &&& a.provider_id == b.provider_id
            &&& a.prompt_cache_key == b.prompt_cache_key
            &&& a.model == b.model
            &&& metadata_scope_of(a) == metadata_scope_of(b)
            &&& (envelope1 == envelope2 ==> a == b)
        }),
{
}

} // verus!
