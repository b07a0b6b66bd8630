use kanban_planner::card::Card;
use kanban_planner::error::DomainError;
use kanban_planner::ids::CardId;
use kanban_planner::logging::{
    feature_name, target_name, DiagnosticEntry, DiagnosticsBuffer, LevelOverrides, LoggingConfig,
};
use kanban_planner::registry::CardRegistry;
use kanban_planner::repository::{
    contains_legacy_bucket_model, AppPersistence, JsonRepository, JsonValue,
};

fn entry(target: &str, message: String) -> DiagnosticEntry {
    DiagnosticEntry {
        timestamp_unix_secs: 0,
        level: "INFO".to_string(),
        target: target.to_string(),
        message,
    }
}

fn to_json_value(value: &serde_json::Value) -> JsonValue {
    match value {
        serde_json::Value::Null => JsonValue::Null,
        serde_json::Value::Bool(b) => JsonValue::Bool(*b),
        serde_json::Value::Number(n) => JsonValue::Number(n.as_u64()),
        serde_json::Value::String(s) => JsonValue::Text(s.clone()),
        serde_json::Value::Array(items) => JsonValue::Array(items.iter().map(to_json_value).collect()),
        serde_json::Value::Object(map) => JsonValue::Object(
            map.keys().cloned().collect(),
            map.values().map(to_json_value).collect(),
        ),
    }
}

fn parse(text: &str) -> Result<JsonValue, String> {
    serde_json::from_str::<serde_json::Value>(text)
        .map(|v| to_json_value(&v))
        .map_err(|e| e.to_string())
}

#[test]
fn diagnostics_ring_buffer_keeps_latest_entries() {
    let mut buffer = DiagnosticsBuffer::new();
    let target = "logging-test";
    let capacity = buffer.capacity_limit();

    for index in 0..(capacity + 5) {
        buffer.record_diagnostic(entry(target, format!("entry-{index}")));
    }

    let snapshot: Vec<_> = buffer
        .diagnostics_snapshot()
        .into_iter()
        .filter(|entry| entry.target == target)
        .collect();
    assert!(snapshot.len() <= capacity);
    assert!(
        !snapshot.iter().any(|entry| entry.message == "entry-0"),
        "oldest entries should be rotated out"
    );
    assert_eq!(
        snapshot
            .first()
            .map(|entry| entry.message.starts_with("entry-")),
        Some(true)
    );
    let expected_last = format!("entry-{}", capacity + 4);
    assert_eq!(
        snapshot.last().map(|entry| entry.message.as_str()),
        Some(expected_last.as_str())
    );
}

#[test]
fn small_ring_buffer_keeps_exactly_the_latest() {
    let mut buffer = DiagnosticsBuffer::new();
    buffer.set_capacity(2);
    for index in 0..4 {
        buffer.record_diagnostic(entry("t", format!("m{index}")));
    }
    let messages: Vec<String> = buffer.diagnostics_snapshot().into_iter().map(|e| e.message).collect();
    assert_eq!(messages, vec!["m2".to_string(), "m3".to_string()]);
}

#[test]
fn filter_string_lists_global_level_then_overrides() {
    let config = LoggingConfig::default();
    assert_eq!(config.to_filter_string(), "info");
    let mut overrides = LevelOverrides::new();
    overrides.set("kanban".into(), "trace".into());
    overrides.set("web".into(), "warn".into());
    let config = LoggingConfig {
        global_level: Some("debug".into()),
        overrides: Some(overrides),
        max_buffer_capacity: None,
    };
    assert_eq!(config.to_filter_string(), "debug,kanban=trace,web=warn");
}

#[test]
fn test_deserialize_registry_rejects_legacy_bucket_payload() {
    let legacy_json = r#"{
  "store": {
    "01ARZ3NDEKTSV4RRFFQ69G5FAV": {
      "id": "01ARZ3NDEKTSV4RRFFQ69G5FAV",
      "title": "Legacy",
      "parent_id": null,
      "children_ids": [],
      "bucket_id": null,
      "buckets": []
    }
  }
}"#;

    assert!(matches!(
        JsonRepository::check_payload_text(legacy_json),
        Err(DomainError::IncompatibleLegacyData(_))
    ));
}

#[test]
fn test_deserialize_registry_rejects_invalid_json_payload() {
    assert!(matches!(
        JsonRepository::check_payload_text("{ definitely not json }"),
        Err(DomainError::IncompatibleLegacyData(_))
    ));
}

#[test]
fn payload_checks_give_their_reasons() {
    let reason = |text: &str| match JsonRepository::check_payload_text(text) {
        Err(DomainError::IncompatibleLegacyData(m)) => m,
        other => panic!("unexpected result: {:?}", other),
    };
    assert_eq!(reason(r#"{"registry": {}}"#), "Persisted registry is missing the schema envelope");
    assert_eq!(reason(r#"{"schema_version": 3, "registry": {}}"#), "Unsupported persisted schema version 3");
    assert_eq!(reason(r#"{"schema_version": "2"}"#), "Persisted schema version must be a positive integer");
    assert_eq!(reason(r#"{"schema_version": -2}"#), "Persisted schema version must be a positive integer");
    assert_eq!(
        reason(r#"[{"a": {"buckets": 1}}]"#),
        "Older bucket-based data is incompatible with the card-only model."
    );
    assert!(JsonRepository::check_payload(&parse(r#"{"schema_version": 2, "registry": {"store": {}}}"#)).is_ok());
    assert!(JsonRepository::check_payload(&parse(r#"{"schema_version": 258}"#)).is_ok());
}

#[test]
fn legacy_keys_are_found_at_any_depth() {
    assert!(!contains_legacy_bucket_model(&JsonValue::Null));
    let nested = parse(r#"{"a": [1, {"b": {"bucket_id": null}}]}"#).unwrap();
    assert!(contains_legacy_bucket_model(&nested));
    let clean = parse(r#"{"a": [1, {"b": {"bucket": null}}]}"#).unwrap();
    assert!(!contains_legacy_bucket_model(&clean));
}

#[test]
fn decoded_registries_are_checked() {
    let registry = CardRegistry::new();
    let ok = JsonRepository::accept_decoded(Ok(registry.clone())).unwrap();
    assert_eq!(ok, registry);
    assert_eq!(
        JsonRepository::accept_decoded(Err("bad field".into())),
        Err(DomainError::IncompatibleLegacyData(
            "Failed to decode persisted registry payload: bad field".into()
        ))
    );
    let blank = CardRegistry::from_cards(vec![Card::from_parts(
        CardId(1),
        "   ".into(),
        None,
        None,
        vec![],
        vec![],
        None,
        None,
        vec![],
    )]);
    match JsonRepository::accept_decoded(Ok(blank)) {
        Err(DomainError::IncompatibleLegacyData(m)) => {
            assert!(m.starts_with("Registry validation failed after deserialization: Invalid operation: "))
        }
        other => panic!("unexpected result: {:?}", other),
    }
}

#[test]
fn test_app_persistence_non_web_load_is_explicitly_unsupported() {
    assert!(matches!(
        AppPersistence::load_registry(),
        Err(DomainError::InvalidOperation(_))
    ));
}

#[test]
fn test_app_persistence_non_web_save_is_explicitly_unsupported() {
    let registry = CardRegistry::new();
    assert!(matches!(
        AppPersistence::save_registry(&registry),
        Err(DomainError::InvalidOperation(_))
    ));
}

#[test]
fn test_app_persistence_non_web_clear_is_explicitly_unsupported() {
    assert!(matches!(
        AppPersistence::clear_registry(),
        Err(DomainError::InvalidOperation(_))
    ));
}

#[test]
fn test_deserialize_registry_rejects_blank_titles() {
    let mut original = CardRegistry::new();
    let workspace_id = original.workspace_card_id().unwrap();
    original
        .create_child_card("My Project".into(), workspace_id)
        .unwrap();

    // The stored payload, with the project's title replaced by blanks, decodes
    // into these cards.
    let tampered: Vec<Card> = original
        .cards()
        .into_iter()
        .map(|card| {
            let title = if card.title() == "My Project" { "   ".to_string() } else { card.title().to_string() };
            Card::from_parts(
                card.id(),
                title,
                card.description().map(|d| d.to_string()),
                card.parent_id(),
                card.children_ids().to_vec(),
                card.notes().to_vec(),
                card.due_date().cloned(),
                card.bucket_id(),
                card.buckets().to_vec(),
            )
        })
        .collect();
    let envelope = r#"{"schema_version": 2, "registry": {"store": {}}}"#;
    assert!(JsonRepository::check_payload_text(envelope).is_ok());

    assert!(matches!(
        JsonRepository::accept_decoded(Ok(CardRegistry::from_cards(tampered))),
        Err(DomainError::IncompatibleLegacyData(_))
    ));
}

#[test]
fn feature_name_prefers_desktop_then_mobile_then_web() {
    assert_eq!(feature_name(true, true, true), "desktop");
    assert_eq!(feature_name(false, true, true), "mobile");
    assert_eq!(feature_name(false, false, true), "web");
    assert_eq!(feature_name(false, false, false), "unknown");
}

#[test]
fn target_name_names_the_platform() {
    assert_eq!(target_name(true, false, false, true), "wasm32");
    assert_eq!(target_name(false, true, false, false), "windows");
    assert_eq!(target_name(false, false, true, false), "macos");
    assert_eq!(target_name(false, false, false, true), "linux");
    assert_eq!(target_name(false, false, false, false), "unknown");
}

#[test]
fn an_override_set_twice_keeps_one_entry() {
    let mut overrides = LevelOverrides::new();
    overrides.set("kanban".into(), "trace".into());
    overrides.set("web".into(), "warn".into());
    overrides.set("kanban".into(), "debug".into());
    assert_eq!(
        overrides.entries(),
        &vec![("kanban".to_string(), "debug".to_string()), ("web".to_string(), "warn".to_string())]
    );
    let config = LoggingConfig { global_level: None, overrides: Some(overrides), max_buffer_capacity: None };
    assert_eq!(config.to_filter_string(), "info,kanban=debug,web=warn");
}

#[test]
fn checking_the_text_is_checking_its_parse() {
    for text in [
        r#"{"schema_version": 2}"#,
        r#"{"schema_version": 3}"#,
        r#"{"schema_version": 2, "store": {"a": {"buckets": []}}}"#,
        "[1, 2",
        "null",
    ] {
        assert_eq!(JsonRepository::check_payload_text(text), JsonRepository::check_payload(&parse(text)));
    }
    assert!(matches!(
        JsonRepository::check_payload_text("[1, 2"),
        Err(DomainError::IncompatibleLegacyData(m)) if m.starts_with("Failed to deserialize registry from JSON: ")
    ));
}

#[test]
fn unsupported_persistence_is_recorded_as_an_error() {
    let mut buffer = DiagnosticsBuffer::new();
    let registry = CardRegistry::new();
    let expected = "Invalid operation: Persistence is not yet supported on this platform";
    assert!(matches!(
        AppPersistence::load_registry_recorded(&mut buffer, 1),
        Err(DomainError::InvalidOperation(_))
    ));
    assert!(matches!(
        AppPersistence::save_registry_recorded(&registry, &mut buffer, 2),
        Err(DomainError::InvalidOperation(_))
    ));
    assert!(matches!(
        AppPersistence::clear_registry_recorded(&mut buffer, 3),
        Err(DomainError::InvalidOperation(_))
    ));
    let entries = buffer.diagnostics_snapshot();
    assert_eq!(entries.len(), 3);
    for (entry, (op, at)) in entries.iter().zip([("load", 1), ("save", 2), ("clear", 3)]) {
        assert_eq!(entry.level, "ERROR");
        assert_eq!(entry.target, "persistence");
        assert_eq!(entry.timestamp_unix_secs, at);
        assert_eq!(entry.message, format!("Persistence {op} unsupported: {expected}"));
    }
}
