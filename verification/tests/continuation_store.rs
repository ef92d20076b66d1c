use cc_workspace::continuation_store::{
    default_store_path, CodexContinuationStore, ContinuationRecord, ContinuationScope,
    ContinuationStoreFile, StoredRecord, DEFAULT_TTL_DAYS, STORE_VERSION,
};
use cc_workspace::timestamp::{Timestamp, CHRONO_MAX_SECS, CHRONO_MIN_SECS, SECS_PER_DAY};

fn utc_now() -> Timestamp {
    let now = chrono::Utc::now();
    Timestamp { secs: now.timestamp(), nanos: now.timestamp_subsec_nanos() }
}

fn days_before(t: Timestamp, days: i64) -> Timestamp {
    Timestamp { secs: t.secs - days * SECS_PER_DAY, nanos: t.nanos }
}

#[test]
fn test_scope_is_stable_for_same_namespace() {
    let scope1 = ContinuationScope::new("session-1", "provider-a", "gpt-5");
    let scope2 = ContinuationScope::new("session-1", "provider-a", "gpt-5");

    assert_eq!(scope1.storage_key, scope2.storage_key);
    assert_eq!(scope1.prompt_cache_key, scope2.prompt_cache_key);
    assert_eq!(scope1.prompt_cache_key, "session-1");
}

#[test]
fn test_scope_changes_when_provider_or_model_changes() {
    let base = ContinuationScope::new("session-1", "provider-a", "gpt-5");
    let other_provider = ContinuationScope::new("session-1", "provider-b", "gpt-5");
    let other_model = ContinuationScope::new("session-1", "provider-a", "gpt-5-mini");

    assert_ne!(base.storage_key, other_provider.storage_key);
    assert_ne!(base.storage_key, other_model.storage_key);
    assert_eq!(base.prompt_cache_key, other_provider.prompt_cache_key);
    assert_eq!(base.prompt_cache_key, other_model.prompt_cache_key);
}

#[test]
fn test_store_round_trip() {
    let store = CodexContinuationStore::with_path("/tmp/store/continuations.json".to_string());
    let mut file = ContinuationStoreFile::empty();
    let scope = store.scope_for("chat-session-1", "provider-a", "gpt-5");
    let mut record = ContinuationRecord::new(&scope, utc_now()).unwrap();
    record.latest_response_id = Some("resp_123".to_string());
    record.envelope_hash = Some("hash_abc".to_string());

    let now = utc_now();
    store.save(&mut file, &scope, record.duplicate(), now);
    let (loaded, changed) = store.load(&mut file, &scope, now);
    let loaded = loaded.unwrap();

    assert!(!changed);
    assert_eq!(loaded.latest_response_id, Some("resp_123".to_string()));
    assert_eq!(loaded.envelope_hash, Some("hash_abc".to_string()));
    assert_eq!(loaded.prompt_cache_key, scope.prompt_cache_key);
}

#[test]
fn test_store_prunes_expired_record_on_load() {
    let store = CodexContinuationStore::with_path("/tmp/store/continuations.json".to_string());
    let mut file = ContinuationStoreFile::empty();
    let scope = store.scope_for("chat-session-1", "provider-a", "gpt-5");
    let now = utc_now();
    let mut record = ContinuationRecord::with_timestamp(&scope, days_before(now, 10));
    record.expires_at = Some(days_before(now, 1));

    store.save(&mut file, &scope, record, now);

    let (loaded, changed) = store.load(&mut file, &scope, now);
    assert!(loaded.is_none());
    assert!(changed);
    assert_eq!(file.len(), 0);
}

#[test]
fn test_store_remove() {
    let store = CodexContinuationStore::with_path("/tmp/store/continuations.json".to_string());
    let mut file = ContinuationStoreFile::empty();
    let scope = store.scope_for("chat-session-1", "provider-a", "gpt-5");
    let now = utc_now();

    store.save(&mut file, &scope, ContinuationRecord::new(&scope, now).unwrap(), now);
    store.remove(&mut file, &scope);

    assert!(store.load(&mut file, &scope, now).0.is_none());
}

#[test]
fn scope_trims_and_builds_storage_key() {
    let scope = ContinuationScope::new("  session-1 ", "\tprovider-a", "gpt-5\n");
    assert_eq!(scope.conversation_id, "session-1");
    assert_eq!(scope.provider_id, "provider-a");
    assert_eq!(scope.model, "gpt-5");
    assert_eq!(scope.storage_key, "provider-a::gpt-5::session-1");
    assert_eq!(scope.prompt_cache_key, "session-1");
}

#[test]
fn default_store_path_is_under_config_dir() {
    assert_eq!(default_store_path("/home/u/.cc-switch"), "/home/u/.cc-switch/proxy/codex_continuation_store.json");
    let store = CodexContinuationStore::new("/home/u/.cc-switch");
    assert_eq!(store.path(), "/home/u/.cc-switch/proxy/codex_continuation_store.json");
}

#[test]
fn empty_file_has_version_zero_and_no_records() {
    let file = ContinuationStoreFile::empty();
    assert_eq!(file.version(), 0);
    assert_eq!(file.len(), 0);
    assert_eq!(STORE_VERSION, 1);
}

#[test]
fn fresh_record_expires_after_ttl() {
    let scope = ContinuationScope::new("c", "p", "m");
    let now = Timestamp { secs: 1_700_000_000, nanos: 5 };
    let record = ContinuationRecord::with_timestamp(&scope, now);
    assert_eq!(record.updated_at, now);
    assert_eq!(
        record.expires_at,
        Some(Timestamp { secs: 1_700_000_000 + DEFAULT_TTL_DAYS * 86_400, nanos: 5 })
    );
    assert!(record.latest_response_id.is_none());
    assert!(record.envelope_hash.is_none());
    assert!(record.matches_scope(&scope));
    assert!(!record.is_expired(now));
    assert!(record.is_expired(Timestamp { secs: 1_700_000_000 + 7 * 86_400, nanos: 5 }));
}

#[test]
fn fresh_record_needs_an_expiry_in_range() {
    let scope = ContinuationScope::new("c", "p", "m");
    let t = Timestamp { secs: 100, nanos: 7 };
    let r = ContinuationRecord::new(&scope, t).unwrap();
    assert_eq!(r.expires_at, Some(Timestamp { secs: 100 + 7 * 86_400, nanos: 7 }));
    assert!(ContinuationRecord::new(&scope, Timestamp { secs: i64::MAX, nanos: 0 }).is_none());
    assert!(ContinuationRecord::new(&scope, utc_now()).is_some());
}

#[test]
fn save_fills_in_update_time_expiry_and_scope_names() {
    let store = CodexContinuationStore::with_path("x.json".to_string());
    let mut file = ContinuationStoreFile::empty();
    let scope = ContinuationScope::new("conv", "prov", "model");
    let now = Timestamp { secs: 1_000_000, nanos: 0 };
    let record = ContinuationRecord {
        conversation_id: "other".to_string(),
        provider_id: "other".to_string(),
        model: "other".to_string(),
        prompt_cache_key: "custom-key".to_string(),
        latest_response_id: Some("resp_1".to_string()),
        envelope_hash: None,
        updated_at: Timestamp { secs: 0, nanos: 0 },
        expires_at: None,
    };
    assert!(store.try_save(&mut file, &scope, record, now));
    let saved = file.get("prov::model::conv").unwrap();
    assert_eq!(saved.conversation_id, "conv");
    assert_eq!(saved.provider_id, "prov");
    assert_eq!(saved.model, "model");
    assert_eq!(saved.prompt_cache_key, "conv");
    assert_eq!(saved.updated_at, now);
    assert_eq!(saved.expires_at, Some(Timestamp { secs: 1_000_000 + 7 * 86_400, nanos: 0 }));
    assert_eq!(saved.latest_response_id, Some("resp_1".to_string()));
}

#[test]
fn try_save_refuses_an_expiry_out_of_range() {
    let store = CodexContinuationStore::with_path("x.json".to_string());
    let mut file = ContinuationStoreFile::empty();
    let scope = ContinuationScope::new("conv", "prov", "model");
    let now = Timestamp { secs: i64::MAX - 10, nanos: 0 };
    let record = ContinuationRecord {
        conversation_id: String::new(),
        provider_id: String::new(),
        model: String::new(),
        prompt_cache_key: String::new(),
        latest_response_id: None,
        envelope_hash: None,
        updated_at: now,
        expires_at: None,
    };
    assert!(!store.try_save(&mut file, &scope, record, now));
    assert_eq!(file.len(), 0);
}

#[test]
fn save_prunes_other_expired_records() {
    let store = CodexContinuationStore::with_path("x.json".to_string());
    let now = Timestamp { secs: 10_000_000, nanos: 0 };
    let old_scope = ContinuationScope::new("old", "p", "m");
    let mut old = ContinuationRecord::with_timestamp(&old_scope, days_before(now, 30));
    old.expires_at = Some(days_before(now, 2));
    let live_scope = ContinuationScope::new("live", "p", "m");
    let live = ContinuationRecord::with_timestamp(&live_scope, now);
    let mut file = ContinuationStoreFile::from_entries(
        STORE_VERSION,
        vec![
            StoredRecord { key: old_scope.storage_key.clone(), record: old },
            StoredRecord { key: live_scope.storage_key.clone(), record: live },
        ],
    );
    assert_eq!(file.len(), 2);
    let scope = ContinuationScope::new("new", "p", "m");
    store.save(&mut file, &scope, ContinuationRecord::with_timestamp(&scope, now), now);
    assert_eq!(file.len(), 2);
    assert!(file.get(old_scope.storage_key.as_str()).is_none());
    assert!(file.get(live_scope.storage_key.as_str()).is_some());
    assert!(file.get(scope.storage_key.as_str()).is_some());
    assert_eq!(file.version(), STORE_VERSION);
}

#[test]
fn load_ignores_a_record_of_another_scope_under_the_key() {
    let store = CodexContinuationStore::with_path("x.json".to_string());
    let now = Timestamp { secs: 10_000_000, nanos: 0 };
    let scope = ContinuationScope::new("c", "p", "m");
    let stranger = ContinuationScope::new("c2", "p", "m");
    let record = ContinuationRecord::with_timestamp(&stranger, now);
    let mut file = ContinuationStoreFile::from_entries(
        STORE_VERSION,
        vec![StoredRecord { key: scope.storage_key.clone(), record }],
    );
    let (loaded, changed) = store.load(&mut file, &scope, now);
    assert!(loaded.is_none());
    assert!(!changed);
    assert_eq!(file.len(), 1);
}

#[test]
fn from_entries_keeps_the_last_of_a_repeated_key() {
    let now = Timestamp { secs: 10_000_000, nanos: 0 };
    let scope = ContinuationScope::new("c", "p", "m");
    let mut first = ContinuationRecord::with_timestamp(&scope, now);
    first.latest_response_id = Some("first".to_string());
    let mut second = ContinuationRecord::with_timestamp(&scope, now);
    second.latest_response_id = Some("second".to_string());
    let file = ContinuationStoreFile::from_entries(
        STORE_VERSION,
        vec![
            StoredRecord { key: "k".to_string(), record: first },
            StoredRecord { key: "k".to_string(), record: second },
        ],
    );
    assert_eq!(file.len(), 1);
    assert_eq!(file.get("k").unwrap().latest_response_id, Some("second".to_string()));
    assert_eq!(file.entries().len(), 1);
}

#[test]
fn expiry_follows_chrono_range_and_leap_seconds() {
    let scope = ContinuationScope::new("c", "p", "m");
    let last_ok = Timestamp { secs: CHRONO_MAX_SECS - 7 * 86_400, nanos: 0 };
    assert!(ContinuationRecord::new(&scope, last_ok).is_some());
    let too_late = Timestamp { secs: CHRONO_MAX_SECS - 7 * 86_400 + 1, nanos: 0 };
    assert!(ContinuationRecord::new(&scope, too_late).is_none());
    let earliest = Timestamp { secs: CHRONO_MIN_SECS, nanos: 0 };
    assert!(ContinuationRecord::new(&scope, earliest).is_some());
    let before_range = Timestamp { secs: CHRONO_MIN_SECS - 1, nanos: 0 };
    assert!(ContinuationRecord::new(&scope, before_range).is_none());
    let leap = Timestamp { secs: 59, nanos: 1_500_000_000 };
    let r = ContinuationRecord::new(&scope, leap).unwrap();
    assert_eq!(r.expires_at, Some(Timestamp { secs: 59 + 7 * 86_400, nanos: 500_000_000 }));
    let bad_leap = Timestamp { secs: 58, nanos: 1_500_000_000 };
    assert!(ContinuationRecord::new(&scope, bad_leap).is_none());
}
