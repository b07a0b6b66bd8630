//! Persistence decisions: which stored payloads are accepted, and what the
//! platform supports. Turning text into values and back is the caller's part.

use crate::error::DomainError;
use crate::logging::{after_record, DiagnosticEntry, DiagnosticModel, DiagnosticsBuffer};
use crate::registry::model::well_formed;
use crate::registry::validation::validation_fault_text;
use crate::registry::CardRegistry;
use crate::text::{decimal, texts_equal, usize_text};
use vstd::prelude::*;
use vstd::string::*;

verus! {

/// The version of the stored envelope this build writes and reads.
pub const CURRENT_SCHEMA_VERSION: u8 = 2;

/// A JSON value, as much of it as the checks on a stored payload read.
#[derive(Debug)]
pub enum JsonValue {
    Null,
    Bool(bool),
    /// A number, with its value when it is an integer from 0 to `u64::MAX`.
    Number(Option<u64>),
    Text(String),
    Array(Vec<JsonValue>),
    /// An object: its keys, each once, and the value under each, in the same
    /// order.
    Object(Vec<String>, Vec<JsonValue>),
}

/// A key of the bucket-based model that this version no longer reads.
pub open spec fn is_legacy_key(k: Seq<char>) -> bool {
    k == "bucket_id"@ || k == "buckets"@
}

/// Somewhere in `v` an object has a key of the bucket-based model.
pub open spec fn has_legacy_key(v: JsonValue) -> bool
    decreases v,
{
    match v {
        JsonValue::Array(items) => exists|i: int|
            #![trigger items@[i]]
            0 <= i < items.len() && has_legacy_key(items@[i]),
        JsonValue::Object(keys, values) => exists|i: int|
            #![trigger keys@[i]]
            #![trigger values@[i]]
            0 <= i < keys.len() && i < values.len() && (is_legacy_key(keys@[i]@) || has_legacy_key(
                values@[i],
            )),
        _ => false,
    }
}

/// Whether some object in `value` has a key of the bucket-based model.
pub fn contains_legacy_bucket_model(value: &JsonValue) -> (r: bool)
    ensures
        r == has_legacy_key(*value),
    decreases value,
{
    match value {
        JsonValue::Object(keys, values) => {
            let mut i: usize = 0;
            while i < keys.len() && i < values.len()
                invariant
                    i <= keys@.len(),
                    i <= values@.len(),
                    *value == JsonValue::Object(*keys, *values),
                    keys@ == value->Object_0@,
                    values@ == value->Object_1@,
                    forall|j: int|
                        #![trigger value->Object_0@[j]]
                        #![trigger value->Object_1@[j]]
                        0 <= j < i ==> !is_legacy_key(value->Object_0@[j]@) && !has_legacy_key(
                            value->Object_1@[j],
                        ),
                decreases keys@.len() - i,
            {
                let k = keys[i].as_str();
                let first = texts_equal(k, "bucket_id");
                let second = texts_equal(k, "buckets");
                let legacy = first || second;
                assert(keys@[i as int] == value->Object_0@[i as int]);
                assert(legacy == is_legacy_key(value->Object_0@[i as int]@));
                if legacy {
                    proof {
                        assert(is_legacy_key(value->Object_0@[i as int]@));
                    }
                    return true;
                }
                proof {
                    assert(decreases_to!(*value => value->Object_1));
                    assert(decreases_to!(value->Object_1 => value->Object_1@));
                    assert(decreases_to!(value->Object_1@ => values@[i as int]));
                }
                if contains_legacy_bucket_model(&values[i]) {
                    assert(has_legacy_key(value->Object_1@[i as int]));
                    return true;
                }
                i = i + 1;
            }
            proof {
                assert forall|j: int|
                    0 <= j < value->Object_0@.len() && j < value->Object_1@.len() implies !is_legacy_key(
                    (#[trigger] value->Object_0@[j])@,
                ) && !has_legacy_key(value->Object_1@[j]) by {
                    assert(j < i);
                }
            }
            false
        },
        JsonValue::Array(items) => {
            let mut i: usize = 0;
            while i < items.len()
                invariant
                    i <= items@.len(),
                    *value == JsonValue::Array(*items),
                    forall|j: int| 0 <= j < i ==> !has_legacy_key(items@[j]),
                decreases items@.len() - i,
            {
                proof {
                    assert(decreases_to!(*value => value->Array_0));
                    assert(decreases_to!(value->Array_0 => value->Array_0@));
                    assert(decreases_to!(value->Array_0@ => items@[i as int]));
                }
                if contains_legacy_bucket_model(&items[i]) {
                    assert(has_legacy_key(items@[i as int]));
                    return true;
                }
                i = i + 1;
            }
            false
        },
        _ => false,
    }
}

/// The value under `key` among an object's keys and values, if any.
pub open spec fn member(keys: Seq<String>, values: Seq<JsonValue>, key: Seq<char>) -> Option<
    JsonValue,
>
    decreases keys.len(),
{
    if keys.len() == 0 || values.len() == 0 {
        None
    } else if keys[0]@ == key {
        Some(values[0])
    } else {
        member(keys.drop_first(), values.drop_first(), key)
    }
}

/// The value under `key` in `v` when `v` is an object.
pub open spec fn lookup(v: JsonValue, key: Seq<char>) -> Option<JsonValue> {
    match v {
        JsonValue::Object(keys, values) => member(keys@, values@, key),
        _ => None,
    }
}

/// Why a stored payload is refused before it is decoded, if it is.
pub open spec fn payload_fault(parsed: Result<JsonValue, Seq<char>>) -> Option<Seq<char>> {
    match parsed {
        Err(e) => Some("Failed to deserialize registry from JSON: "@ + e),
        Ok(v) => if has_legacy_key(v) {
            Some("Older bucket-based data is incompatible with the card-only model."@)
        } else {
            match lookup(v, "schema_version"@) {
                None => Some("Persisted registry is missing the schema envelope"@),
                Some(JsonValue::Number(Some(n))) => if n % 256 == CURRENT_SCHEMA_VERSION {
                    None
                } else {
                    Some("Unsupported persisted schema version "@ + decimal((n % 256) as nat))
                },
                Some(_) => Some("Persisted schema version must be a positive integer"@),
            }
        },
    }
}

/// A stored payload gets through the checks before decoding exactly when it
/// parsed, has no key of the bucket-based model anywhere, and its
/// "schema_version" is an integer whose low byte (`as u8`) is the current
/// version. Any other version, older ones included, is refused.
pub proof fn lemma_payload_accepted_exactly(parsed: Result<JsonValue, Seq<char>>)
    ensures
        payload_fault(parsed) is None <==> (parsed matches Ok(v) && !has_legacy_key(v) && (lookup(
            v,
            "schema_version"@,
        ) matches Some(JsonValue::Number(Some(n))) && n % 256 == CURRENT_SCHEMA_VERSION)),
{
}

/// The value under a key of an object is the one paired with the first
/// occurrence of the key.
pub proof fn lemma_member_is_first_occurrence(
    keys: Seq<String>,
    values: Seq<JsonValue>,
    key: Seq<char>,
    x: JsonValue,
)
    ensures
        member(keys, values, key) == Some(x) <==> exists|i: int|
            0 <= i < keys.len() && i < values.len() && (#[trigger] keys[i])@ == key && values[i]
                == x && forall|j: int| 0 <= j < i ==> (#[trigger] keys[j])@ != key,
    decreases keys.len(),
{
    if keys.len() > 0 && values.len() > 0 {
        lemma_member_is_first_occurrence(keys.drop_first(), values.drop_first(), key, x);
        if keys[0]@ == key {
            if member(keys, values, key) == Some(x) {
                assert(forall|j: int| 0 <= j < 0 ==> (#[trigger] keys[j])@ != key);
            }
            assert forall|i: int|
                0 <= i < keys.len() && i < values.len() && (#[trigger] keys[i])@ == key && values[i]
                    == x && (forall|j: int| 0 <= j < i ==> (#[trigger] keys[j])@ != key) implies i
                == 0 by {
                if i > 0 {
                    assert(keys[0]@ != key);
                }
            }
        } else {
            let k1 = keys.drop_first();
            let v1 = values.drop_first();
            if member(keys, values, key) == Some(x) {
                let i = choose|i: int|
                    0 <= i < k1.len() && i < v1.len() && (#[trigger] k1[i])@ == key && v1[i] == x
                        && forall|j: int| 0 <= j < i ==> (#[trigger] k1[j])@ != key;
                assert(keys[i + 1] == k1[i]);
                assert forall|j: int| 0 <= j < i + 1 implies (#[trigger] keys[j])@ != key by {
                    if j > 0 {
                        assert(keys[j] == k1[j - 1]);
                    }
                }
            }
            if exists|i: int|
                0 <= i < keys.len() && i < values.len() && (#[trigger] keys[i])@ == key && values[i]
                    == x && forall|j: int| 0 <= j < i ==> (#[trigger] keys[j])@ != key {
                let i = choose|i: int|
                    0 <= i < keys.len() && i < values.len() && (#[trigger] keys[i])@ == key
                        && values[i] == x && forall|j: int| 0 <= j < i ==> (#[trigger] keys[j])@
                        != key;
                assert(i > 0);
                assert(k1[i - 1] == keys[i]);
                assert forall|j: int| 0 <= j < i - 1 implies (#[trigger] k1[j])@ != key by {
                    assert(k1[j] == keys[j + 1]);
                }
            }
        }
    }
}

/// A parse result with its error message taken as text.
pub open spec fn parsed_view(parsed: Result<JsonValue, String>) -> Result<JsonValue, Seq<char>> {
    match parsed {
        Ok(v) => Ok(v),
        Err(e) => Err(e@),
    }
}

/// serde_json's parsed value, carried through unread.
#[verifier::external_type_specification]
#[verifier::external_body]
pub struct ExSerdeJsonValue(serde_json::Value);

/// What `serde_json::from_str::<serde_json::Value>` makes of a text: the parsed
/// value, as a `JsonValue`, or the text of its error.
pub uninterp spec fn serde_json_parse(text: Seq<char>) -> Result<JsonValue, Seq<char>>;

/// Parses a text with `serde_json::from_str::<serde_json::Value>` and gives the
/// value as a `JsonValue` (through `json_value_from`), or the error's text from
/// its `to_string`. The contract only ties the result to the name
/// `serde_json_parse`; which texts serde_json accepts is left unsaid.
#[verifier::external_body]
fn parse_json(text: &str) -> (r: Result<JsonValue, String>)
    ensures
        parsed_view(r) == serde_json_parse(text@),
{
    match serde_json::from_str::<serde_json::Value>(text) {
        Ok(v) => Ok(json_value_from(&v)),
        Err(e) => Err(e.to_string()),
    }
}

/// The conversion half of `parse_json`: serde_json's value as a `JsonValue`,
/// one arm for each variant, fields moved across, a number kept as its value
/// when `as_u64` gives one. It has no contract of its own; what it gives is
/// covered by the name that `parse_json` states.
#[verifier::external_body]
fn json_value_from(v: &serde_json::Value) -> JsonValue {
    match v {
        serde_json::Value::Null => JsonValue::Null,
        serde_json::Value::Bool(b) => JsonValue::Bool(*b),
        serde_json::Value::Number(n) => JsonValue::Number(n.as_u64()),
        serde_json::Value::String(t) => JsonValue::Text(t.clone()),
        serde_json::Value::Array(items) => JsonValue::Array(items.iter().map(json_value_from).collect()),
        serde_json::Value::Object(map) => JsonValue::Object(
            map.keys().cloned().collect(),
            map.values().map(json_value_from).collect(),
        ),
    }
}

/// Reads and decodes stored registries; writing them is the caller's part.
pub struct JsonRepository;

impl JsonRepository {
    /// The value under `key` when `value` is an object.
    fn member_value<'a>(value: &'a JsonValue, key: &str) -> (r: Option<&'a JsonValue>)
        ensures
            match r {
                Some(x) => lookup(*value, key@) == Some(*x),
                None => lookup(*value, key@) is None,
            },
    {
        match value {
            JsonValue::Object(keys, values) => {
                let mut i: usize = 0;
                assert(keys@.skip(0) =~= keys@);
                assert(values@.skip(0) =~= values@);
                while i < keys.len() && i < values.len()
                    invariant
                        i <= keys@.len(),
                        i <= values@.len(),
                        *value == JsonValue::Object(*keys, *values),
                        member(keys@, values@, key@) == member(
                            keys@.skip(i as int),
                            values@.skip(i as int),
                            key@,
                        ),
                    decreases keys@.len() - i,
                {
                    assert(keys@.skip(i as int).drop_first() =~= keys@.skip(i + 1));
                    assert(values@.skip(i as int).drop_first() =~= values@.skip(i + 1));
                    if texts_equal(keys[i].as_str(), key) {
                        assert(keys@.skip(i as int)[0] == keys@[i as int]);
                        assert(values@.skip(i as int)[0] == values@[i as int]);
                        assert(member(keys@.skip(i as int), values@.skip(i as int), key@) == Some(
                            values@[i as int],
                        ));
                        assert(lookup(*value, key@) == member(keys@, values@, key@));
                        return Some(&values[i]);
                    }
                    assert(keys@.skip(i as int)[0] == keys@[i as int]);
                    i = i + 1;
                }
                None
            },
            _ => None,
        }
    }

    /// Checks a parsed payload before it is decoded: it must have parsed, hold
    /// nothing of the bucket-based model and carry the current schema version.
    /// Every refusal is `IncompatibleLegacyData` with its reason.
    pub fn check_payload(parsed: &Result<JsonValue, String>) -> (r: Result<(), DomainError>)
        ensures
            match payload_fault(parsed_view(*parsed)) {
                None => r is Ok,
                Some(reason) => r matches Err(DomainError::IncompatibleLegacyData(m)) && m@ == reason,
            },
    {
        let value = match parsed {
            Err(e) => {
                let mut m = String::from_str("Failed to deserialize registry from JSON: ");
                m.append(e.as_str());
                return Err(DomainError::IncompatibleLegacyData(m));
            },
            Ok(v) => v,
        };
        if contains_legacy_bucket_model(value) {
            return Err(
                DomainError::IncompatibleLegacyData(
                    String::from_str(
                        "Older bucket-based data is incompatible with the card-only model.",
                    ),
                ),
            );
        }
        match Self::member_value(value, "schema_version") {
            None => Err(
                DomainError::IncompatibleLegacyData(
                    String::from_str("Persisted registry is missing the schema envelope"),
                ),
            ),
            Some(JsonValue::Number(Some(n))) => {
                let version: u64 = *n % 256;
                if version == CURRENT_SCHEMA_VERSION as u64 {
                    Ok(())
                } else {
                    let mut m = String::from_str("Unsupported persisted schema version ");
                    let t = usize_text(version as usize);
                    m.append(t.as_str());
                    Err(DomainError::IncompatibleLegacyData(m))
                }
            },
            Some(_) => Err(
                DomainError::IncompatibleLegacyData(
                    String::from_str("Persisted schema version must be a positive integer"),
                ),
            ),
        }
    }

    /// Checks a stored text before it is decoded: it is parsed as JSON, and the
    /// result is checked as `check_payload` does.
    pub fn check_payload_text(json: &str) -> (r: Result<(), DomainError>)
        ensures
            match payload_fault(serde_json_parse(json@)) {
                None => r is Ok,
                Some(reason) => r matches Err(DomainError::IncompatibleLegacyData(m)) && m@ == reason,
            },
    {
        let parsed = parse_json(json);
        Self::check_payload(&parsed)
    }

    /// Accepts a decoded registry when it is well formed. A decoding failure,
    /// or a registry that fails its check, is `IncompatibleLegacyData` with the
    /// reason.
    pub fn accept_decoded(decoded: Result<CardRegistry, String>) -> (r: Result<
        CardRegistry,
        DomainError,
    >)
        ensures
            match decoded {
                Err(e) => r matches Err(DomainError::IncompatibleLegacyData(m)) && m@
                    == "Failed to decode persisted registry payload: "@ + e@,
                Ok(reg) => if well_formed(reg@) {
                    r matches Ok(out) && out@ == reg@
                } else {
                    r matches Err(DomainError::IncompatibleLegacyData(m)) && exists|detail: Seq<char>|
                        #[trigger] validation_fault_text(reg@, detail) && m@
                            == "Registry validation failed after deserialization: "@
                            + "Invalid operation: "@ + detail
                },
            },
    {
        match decoded {
            Err(e) => {
                let mut m = String::from_str("Failed to decode persisted registry payload: ");
                m.append(e.as_str());
                Err(DomainError::IncompatibleLegacyData(m))
            },
            Ok(registry) => {
                match registry.validate() {
                    Ok(()) => Ok(registry),
                    Err(e) => {
                        let mut m = String::from_str(
                            "Registry validation failed after deserialization: ",
                        );
                        let t = e.message();
                        m.append(t.as_str());
                        proof {
                            if let DomainError::InvalidOperation(d) = e {
                                assert(m@ =~= "Registry validation failed after deserialization: "@
                                    + "Invalid operation: "@ + d@);
                            }
                        }
                        Err(DomainError::IncompatibleLegacyData(m))
                    },
                }
            },
        }
    }
}

/// The text of the error for persistence on a platform without it.
pub open spec fn unsupported_text() -> Seq<char> {
    "Persistence is not yet supported on this platform"@
}

/// The diagnostic message for a persistence operation (`load`, `save` or
/// `clear`) that this platform does not support.
pub open spec fn unsupported_diagnostic_text(operation: Seq<char>) -> Seq<char> {
    "Persistence "@ + operation + " unsupported: "@ + "Invalid operation: "@ + unsupported_text()
}

/// The error for an unsupported persistence operation, recorded as an error
/// diagnostic of the persistence layer at `timestamp_unix_secs`.
fn unsupported_recorded(
    operation: &str,
    diagnostics: &mut DiagnosticsBuffer,
    timestamp_unix_secs: u64,
) -> (r: DomainError)
    ensures
        r matches DomainError::InvalidOperation(m) && m@ == unsupported_text(),
        final(diagnostics).capacity() == old(diagnostics).capacity(),
        final(diagnostics).entries() == after_record(
            old(diagnostics).entries(),
            old(diagnostics).capacity(),
            persistence_diagnostic(timestamp_unix_secs, operation@),
        ),
{
    let error = DomainError::InvalidOperation(
        String::from_str("Persistence is not yet supported on this platform"),
    );
    let mut message = String::from_str("Persistence ");
    message.append(operation);
    message.append(" unsupported: ");
    let t = error.message();
    message.append(t.as_str());
    assert(message@ =~= unsupported_diagnostic_text(operation@));
    diagnostics.record_diagnostic(
        DiagnosticEntry {
            timestamp_unix_secs,
            level: String::from_str("ERROR"),
            target: String::from_str("persistence"),
            message,
        },
    );
    error
}

/// The error diagnostic of the persistence layer for an unsupported operation.
pub open spec fn persistence_diagnostic(timestamp_unix_secs: u64, operation: Seq<char>) -> DiagnosticModel {
    DiagnosticModel {
        timestamp_unix_secs,
        level: "ERROR"@,
        target: "persistence"@,
        message: unsupported_diagnostic_text(operation),
    }
}

/// Persistence as this platform offers it: none, outside a browser.
pub struct AppPersistence;

impl AppPersistence {
    /// Loading a stored registry: not supported here.
    pub fn load_registry() -> (r: Result<Option<CardRegistry>, DomainError>)
        ensures
            r matches Err(DomainError::InvalidOperation(m)) && m@ == unsupported_text(),
    {
        Err(
            DomainError::InvalidOperation(
                String::from_str("Persistence is not yet supported on this platform"),
            ),
        )
    }

    /// Storing a registry: not supported here.
    pub fn save_registry(registry: &CardRegistry) -> (r: Result<(), DomainError>)
        ensures
            r matches Err(DomainError::InvalidOperation(m)) && m@ == unsupported_text(),
    {
        Err(
            DomainError::InvalidOperation(
                String::from_str("Persistence is not yet supported on this platform"),
            ),
        )
    }

    /// Loading, as `load_registry` does, with the error diagnostic for the
    /// unsupported platform recorded at `timestamp_unix_secs`.
    pub fn load_registry_recorded(diagnostics: &mut DiagnosticsBuffer, timestamp_unix_secs: u64) -> (r:
        Result<Option<CardRegistry>, DomainError>)
        ensures
            r matches Err(DomainError::InvalidOperation(m)) && m@ == unsupported_text(),
            final(diagnostics).capacity() == old(diagnostics).capacity(),
            final(diagnostics).entries() == after_record(
                old(diagnostics).entries(),
                old(diagnostics).capacity(),
                persistence_diagnostic(timestamp_unix_secs, "load"@),
            ),
    {
        Err(unsupported_recorded("load", diagnostics, timestamp_unix_secs))
    }

    /// Storing, as `save_registry` does, with the error diagnostic for the
    /// unsupported platform recorded at `timestamp_unix_secs`.
    pub fn save_registry_recorded(
        registry: &CardRegistry,
        diagnostics: &mut DiagnosticsBuffer,
        timestamp_unix_secs: u64,
    ) -> (r: Result<(), DomainError>)
        ensures
            r matches Err(DomainError::InvalidOperation(m)) && m@ == unsupported_text(),
            final(diagnostics).capacity() == old(diagnostics).capacity(),
            final(diagnostics).entries() == after_record(
                old(diagnostics).entries(),
                old(diagnostics).capacity(),
                persistence_diagnostic(timestamp_unix_secs, "save"@),
            ),
    {
        Err(unsupported_recorded("save", diagnostics, timestamp_unix_secs))
    }

    /// Clearing, as `clear_registry` does, with the error diagnostic for the
    /// unsupported platform recorded at `timestamp_unix_secs`.
    pub fn clear_registry_recorded(diagnostics: &mut DiagnosticsBuffer, timestamp_unix_secs: u64) -> (r:
        Result<(), DomainError>)
        ensures
            r matches Err(DomainError::InvalidOperation(m)) && m@ == unsupported_text(),
            final(diagnostics).capacity() == old(diagnostics).capacity(),
            final(diagnostics).entries() == after_record(
                old(diagnostics).entries(),
                old(diagnostics).capacity(),
                persistence_diagnostic(timestamp_unix_secs, "clear"@),
            ),
    {
        Err(unsupported_recorded("clear", diagnostics, timestamp_unix_secs))
    }

    /// Clearing the stored registry: not supported here.
    pub fn clear_registry() -> (r: Result<(), DomainError>)
        ensures
            r matches Err(DomainError::InvalidOperation(m)) && m@ == unsupported_text(),
    {
        Err(
            DomainError::InvalidOperation(
                String::from_str("Persistence is not yet supported on this platform"),
            ),
        )
    }
}

} // verus!
