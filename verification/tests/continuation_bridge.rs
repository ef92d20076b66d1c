use cc_workspace::continuation_bridge::{
    bridge_metadata_for_model, bridge_metadata_for_responses_request, envelope_fields,
    envelope_json as library_envelope_json, hash_request_envelope,
    load_previous_response_id, metadata_scope, persist_metadata_response, sha256_hex,
    to_hex_lower, try_persist_metadata_response, BridgeMetadata,
};
use cc_workspace::continuation_store::{
    CodexContinuationStore, ContinuationRecord, ContinuationScope, ContinuationStoreFile,
    StoredRecord, STORE_VERSION,
};
use cc_workspace::timestamp::Timestamp;
use serde_json::Value;

fn utc_now() -> Timestamp {
    let now = chrono::Utc::now();
    Timestamp { secs: now.timestamp(), nanos: now.timestamp_subsec_nanos() }
}

fn object(pairs: Vec<(&str, Value)>) -> Value {
    let mut map = serde_json::Map::new();
    for (k, v) in pairs {
        map.insert(k.to_string(), v);
    }
    Value::Object(map)
}

fn text(s: &str) -> Value {
    Value::String(s.to_string())
}

fn sample_request() -> Value {
    object(vec![
        ("model", text("gpt-5")),
        ("instructions", text("You are helpful.")),
        (
            "tools",
            Value::Array(vec![object(vec![
                ("type", text("function")),
                ("name", text("get_weather")),
                ("parameters", object(vec![("type", text("object"))])),
            ])]),
        ),
        ("tool_choice", text("auto")),
    ])
}

/// The JSON text of a request's envelope, from the JSON texts of its fields.
fn envelope_json(request: &Value) -> String {
    let values: Vec<Option<String>> = envelope_fields()
        .into_iter()
        .map(|field| request.get(field).map(|v| serde_json::to_string(v).unwrap()))
        .collect();
    library_envelope_json(&values)
}

fn metadata_for(request: &Value, session: &str, provider: &str) -> BridgeMetadata {
    bridge_metadata_for_responses_request(
        request.get("model").and_then(|v| v.as_str()),
        envelope_json(request).as_str(),
        session,
        provider,
        None,
    )
}

fn test_store() -> CodexContinuationStore {
    CodexContinuationStore::with_path("/tmp/test-home/proxy/codex_continuation_store.json".to_string())
}

#[test]
fn metadata_is_stable_for_same_conversation_namespace() {
    let request = sample_request();
    let first = metadata_for(&request, "session-1", "provider-a");
    let second = metadata_for(&request, "session-1", "provider-a");

    assert_eq!(first.conversation_id, second.conversation_id);
    assert_eq!(first.provider_id, second.provider_id);
    assert_eq!(first.prompt_cache_key, second.prompt_cache_key);
    assert_eq!(first.envelope_hash, second.envelope_hash);
}

#[test]
fn apply_request_bridge_injects_previous_response_id_when_envelope_matches() {
    let store = test_store();
    let mut file = ContinuationStoreFile::empty();
    let now = utc_now();
    let request = sample_request();
    let metadata = metadata_for(&request, "session-1", "provider-a");

    persist_metadata_response(&store, &mut file, &metadata, "resp_123", now);

    let follow_up = request.clone();
    let follow_up_metadata = metadata_for(&follow_up, "session-1", "provider-a");
    let (injected, _) = load_previous_response_id(&store, &mut file, &follow_up_metadata, now);

    assert_eq!(injected.as_deref(), Some("resp_123"));
    assert_eq!(follow_up_metadata.prompt_cache_key, metadata.prompt_cache_key);
    assert_eq!(follow_up_metadata.prompt_cache_key, "session-1");
}

#[test]
fn apply_request_bridge_skips_injection_when_envelope_drifts() {
    let store = test_store();
    let mut file = ContinuationStoreFile::empty();
    let now = utc_now();
    let request = sample_request();
    let metadata = metadata_for(&request, "session-1", "provider-a");

    persist_metadata_response(&store, &mut file, &metadata, "resp_123", now);

    let mut changed = sample_request();
    changed["instructions"] = text("You are more strict now.");
    let changed_metadata = metadata_for(&changed, "session-1", "provider-a");
    let (injected, _) = load_previous_response_id(&store, &mut file, &changed_metadata, now);

    assert!(injected.is_none());
    assert_ne!(changed_metadata.envelope_hash, metadata.envelope_hash);
    assert_eq!(changed_metadata.prompt_cache_key, metadata.prompt_cache_key);
}

#[test]
fn test_persist_response_uses_response_model_namespace() {
    let store = test_store();
    let mut file = ContinuationStoreFile::empty();
    let now = utc_now();
    let body = object(vec![
        ("model", text("gpt-5")),
        ("system", text("same")),
        (
            "messages",
            Value::Array(vec![object(vec![("role", text("user")), ("content", text("hello"))])]),
        ),
    ]);

    let metadata = bridge_metadata_for_model(
        body.get("model").and_then(|v| v.as_str()),
        envelope_json(&body).as_str(),
        "session-1",
        "provider-a",
        None,
        Some("gpt-5-mini"),
    );
    assert!(try_persist_metadata_response(&store, &mut file, &metadata, "resp_new", now));

    let mini_scope = store.scope_for("session-1", "provider-a", "gpt-5-mini");
    let default_scope = store.scope_for("session-1", "provider-a", "gpt-5");

    let mini_record = store.load(&mut file, &mini_scope, now).0.unwrap();
    assert_eq!(mini_record.latest_response_id.as_deref(), Some("resp_new"));
    assert!(store.load(&mut file, &default_scope, now).0.is_none());
}

#[test]
fn test_persist_response_ignores_empty_response_id() {
    let store = test_store();
    let mut file = ContinuationStoreFile::empty();
    let now = utc_now();
    let body = object(vec![
        ("model", text("gpt-5")),
        (
            "messages",
            Value::Array(vec![object(vec![("role", text("user")), ("content", text("hello"))])]),
        ),
    ]);
    let metadata = bridge_metadata_for_model(
        body.get("model").and_then(|v| v.as_str()),
        envelope_json(&body).as_str(),
        "session-1",
        "provider-a",
        None,
        Some("gpt-5"),
    );

    assert!(try_persist_metadata_response(&store, &mut file, &metadata, "   ", now));

    let scope = store.scope_for("session-1", "provider-a", "gpt-5");
    assert!(store.load(&mut file, &scope, now).0.is_none());
    assert_eq!(file.len(), 0);
}

#[test]
fn sha256_hex_matches_known_digests() {
    assert_eq!(
        sha256_hex(b"abc"),
        "ba7816bf8f01cfea414140de5dae2223b00361a396177a9cb410ff61f20015ad"
    );
    assert_eq!(
        sha256_hex(b""),
        "e3b0c44298fc1c149afbf4c8996fb92427ae41e4649b934ca495991b7852b855"
    );
    assert_eq!(hash_request_envelope("abc"), sha256_hex(b"abc"));
}

#[test]
fn to_hex_lower_writes_two_digits_per_byte() {
    assert_eq!(to_hex_lower(&[0x00, 0x0f, 0xa0, 0xff]), "000fa0ff");
    assert_eq!(to_hex_lower(&[]), "");
}

#[test]
fn metadata_prefers_override_then_request_model_then_unknown() {
    let explicit = bridge_metadata_for_model(Some("m1"), "{}", " s ", " p ", Some("key"), Some("m2"));
    assert_eq!(explicit.model, "m2");
    assert_eq!(explicit.conversation_id, "s");
    assert_eq!(explicit.provider_id, "p");
    assert_eq!(explicit.prompt_cache_key, "key");
    assert_eq!(explicit.envelope_hash, sha256_hex(b"{}"));

    let from_request = bridge_metadata_for_model(Some("m1"), "{}", "s", "p", None, None);
    assert_eq!(from_request.model, "m1");
    assert_eq!(from_request.prompt_cache_key, "s");

    let unknown = bridge_metadata_for_model(None, "{}", "s", "p", None, None);
    assert_eq!(unknown.model, "unknown");
    let scope = metadata_scope(&test_store(), &unknown);
    assert_eq!(scope.storage_key, "p::unknown::s");
}

#[test]
fn persist_keeps_existing_record_and_updates_it() {
    let store = test_store();
    let now = Timestamp { secs: 2_000_000, nanos: 0 };
    let metadata = bridge_metadata_for_model(Some("m"), "{}", "s", "p", Some("explicit"), None);
    let scope = ContinuationScope::new("s", "p", "m");
    let mut record = ContinuationRecord::with_timestamp(&scope, Timestamp { secs: 1_900_000, nanos: 0 });
    record.latest_response_id = Some("old".to_string());
    let mut file = ContinuationStoreFile::from_entries(
        STORE_VERSION,
        vec![StoredRecord { key: scope.storage_key.clone(), record }],
    );

    persist_metadata_response(&store, &mut file, &metadata, "  resp_2  ", now);

    let saved = file.get("p::m::s").unwrap();
    assert_eq!(saved.latest_response_id.as_deref(), Some("resp_2"));
    assert_eq!(saved.envelope_hash.as_deref(), Some(sha256_hex(b"{}").as_str()));
    assert_eq!(saved.prompt_cache_key, "s");
    assert_eq!(saved.updated_at, Timestamp { secs: 1_900_000, nanos: 0 });
}

#[test]
fn lookup_ignores_a_blank_stored_response_id() {
    let store = test_store();
    let now = Timestamp { secs: 2_000_000, nanos: 0 };
    let metadata = bridge_metadata_for_model(Some("m"), "{}", "s", "p", None, None);
    let scope = ContinuationScope::new("s", "p", "m");
    let mut record = ContinuationRecord::with_timestamp(&scope, now);
    record.latest_response_id = Some("  ".to_string());
    record.envelope_hash = Some(metadata.envelope_hash.clone());
    let mut file = ContinuationStoreFile::from_entries(
        STORE_VERSION,
        vec![StoredRecord { key: scope.storage_key.clone(), record }],
    );
    let (found, changed) = load_previous_response_id(&store, &mut file, &metadata, now);
    assert!(found.is_none());
    assert!(!changed);
}

#[test]
fn envelope_text_matches_serde_json_object_text() {
    let request = sample_request();
    let mut map = serde_json::Map::new();
    for field in envelope_fields() {
        map.insert(field.to_string(), request.get(field).cloned().unwrap_or(Value::Null));
    }
    let expected = serde_json::to_string(&Value::Object(map)).unwrap();
    assert_eq!(envelope_json(&request), expected);
    assert_eq!(
        library_envelope_json(&vec![Some("1".to_string()), None]),
        "{\"instructions\":1,\"model\":null,\"reasoning\":null,\"temperature\":null,\"tool_choice\":null,\"tools\":null,\"top_p\":null}"
    );
}
