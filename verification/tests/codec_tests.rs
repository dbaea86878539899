use storage_service::StoreError;
use storage_service::record::Record;
use storage_service::store::SaveEvent;
use storage_service::store::SaveTask;
use storage_service::store::LoadEvent;
use storage_service::store::LoadTask;
use storage_service::store::Storable;
use storage_service::store::load_from_read;
use storage_service::store::load_task_step;
use storage_service::store::save_task_step;

#[test]
fn save_test() {
    let data = Record {
        name: "test".to_string(),
        value: 42,
    };

    let result = data.encode();
    assert!(result.is_ok());

    let content = result.unwrap();
    assert!(content.contains("test"));
    assert!(content.contains("42"));
}

#[test]
fn save_async_test() {
    let data = Record {
        name: "async_test".to_string(),
        value: 100,
    };

    let state = save_task_step(SaveTask::Encoding, SaveEvent::Encoded(data.encode()));
    let content = match state {
        SaveTask::Writing(content) => content,
        _ => panic!("encoding did not reach the writing phase"),
    };
    assert!(content.contains("async_test"));
    assert!(content.contains("100"));

    let state = save_task_step(SaveTask::Writing(content), SaveEvent::Wrote(Ok(())));
    assert!(matches!(state, SaveTask::Done(Ok(()))));
}

#[test]
fn load_test() {
    let original_data = Record {
        name: "load_test".to_string(),
        value: 77,
    };

    let content = original_data.encode().unwrap();

    let loaded_data: Record = load_from_read(Ok(content)).unwrap();
    assert_eq!(loaded_data.name, original_data.name);
    assert_eq!(loaded_data.value, original_data.value);
}

#[test]
fn load_async_test() {
    let original_data = Record {
        name: "async_load_test".to_string(),
        value: 55,
    };

    let content = original_data.encode().unwrap();

    let state = load_task_step(LoadTask::<Record>::Reading, LoadEvent::ReadFinished(Ok(content)));
    let state = match state {
        LoadTask::Decoding(text) => {
            let verdict = Record::decode(&text);
            load_task_step(LoadTask::Decoding(text), LoadEvent::DecodeFinished(verdict))
        }
        _ => panic!("the read did not reach the decoding phase"),
    };
    let loaded_data = match state {
        LoadTask::Done(Ok(record)) => record,
        _ => panic!("the load did not finish with a record"),
    };
    assert_eq!(loaded_data.name, "async_load_test");
    assert_eq!(loaded_data.value, 55);
}

#[test]
fn exact_encoding() {
    let record = Record {
        name: "Bob".to_string(),
        value: 25,
    };
    assert_eq!(record.encode().unwrap(), "{\"name\":\"Bob\",\"value\":25}");
}

#[test]
fn encoding_agrees_with_json_parser() {
    let record = Record {
        name: "Alice".to_string(),
        value: 30,
    };
    let content = record.encode().unwrap();
    let parsed: serde_json::Value = serde_json::from_str(&content).unwrap();
    assert_eq!(parsed["name"], serde_json::Value::String("Alice".to_string()));
    assert_eq!(parsed["value"], serde_json::Value::from(30i64));

    let tricky = Record {
        name: "quo\"te and back\\slash".to_string(),
        value: -1,
    };
    let content = tricky.encode().unwrap();
    let parsed: serde_json::Value = serde_json::from_str(&content).unwrap();
    assert_eq!(
        parsed["name"],
        serde_json::Value::String("quo\"te and back\\slash".to_string())
    );
    assert_eq!(parsed["value"], serde_json::Value::from(-1i64));
}

#[test]
fn negative_value() {
    let record = Record {
        name: "n".to_string(),
        value: -5,
    };
    let content = record.encode().unwrap();
    assert_eq!(content, "{\"name\":\"n\",\"value\":-5}");
    let loaded = Record::decode(&content).unwrap();
    assert_eq!(loaded.value, -5);
}

#[test]
fn extreme_values() {
    for value in [i64::MAX, i64::MIN, 0] {
        let record = Record {
            name: "edge".to_string(),
            value,
        };
        let content = record.encode().unwrap();
        let loaded = Record::decode(&content).unwrap();
        assert_eq!(loaded.name, "edge");
        assert_eq!(loaded.value, value);
    }
}

#[test]
fn empty_name() {
    let record = Record {
        name: String::new(),
        value: 1,
    };
    let content = record.encode().unwrap();
    assert_eq!(content, "{\"name\":\"\",\"value\":1}");
    let loaded = Record::decode(&content).unwrap();
    assert_eq!(loaded.name, "");
    assert_eq!(loaded.value, 1);
}

#[test]
fn unicode_name() {
    let record = Record {
        name: "héllo wörld".to_string(),
        value: 7,
    };
    let content = record.encode().unwrap();
    let loaded = Record::decode(&content).unwrap();
    assert_eq!(loaded.name, "héllo wörld");
    assert_eq!(loaded.value, 7);
}

#[test]
fn escaped_name_round_trip() {
    let record = Record {
        name: "a\"b".to_string(),
        value: 3,
    };
    let content = record.encode().unwrap();
    assert_eq!(content, "{\"name\":\"a\\\"b\",\"value\":3}");
    let loaded = Record::decode(&content).unwrap();
    assert_eq!(loaded, record);

    let record = Record {
        name: "back\\slash".to_string(),
        value: 4,
    };
    let content = record.encode().unwrap();
    assert_eq!(content, "{\"name\":\"back\\\\slash\",\"value\":4}");
    let loaded = Record::decode(&content).unwrap();
    assert_eq!(loaded, record);
}

#[test]
fn control_character_name_round_trip() {
    let record = Record {
        name: "a\tb".to_string(),
        value: 1,
    };
    let content = record.encode().unwrap();
    assert_eq!(content, "{\"name\":\"a\\tb\",\"value\":1}");
    assert_eq!(Record::decode(&content).unwrap(), record);

    let record = Record {
        name: "\u{1}".to_string(),
        value: 2,
    };
    let content = record.encode().unwrap();
    assert_eq!(content, "{\"name\":\"\\u0001\",\"value\":2}");
    assert_eq!(Record::decode(&content).unwrap(), record);

    for name in ["a\nb", "a\rb", "\u{8}x", "\u{c}", "\u{1f}"] {
        let record = Record {
            name: name.to_string(),
            value: 3,
        };
        let content = record.encode().unwrap();
        assert_eq!(Record::decode(&content).unwrap(), record);
    }
}

#[test]
fn whitespace_tolerant_load() {
    let loaded = Record::decode(" {\t\"name\" : \"x\" ,\n \"value\" : 42 }\r\n").unwrap();
    assert_eq!(loaded.name, "x");
    assert_eq!(loaded.value, 42);
}

#[test]
fn reordered_fields_load() {
    let loaded = Record::decode("{\"value\":1,\"name\":\"x\"}").unwrap();
    assert_eq!(loaded.name, "x");
    assert_eq!(loaded.value, 1);
}

#[test]
fn escaped_forms_load() {
    let loaded = Record::decode("{\"name\":\"\\u0041\\/\\u00e9\",\"value\":5}").unwrap();
    assert_eq!(loaded.name, "A/\u{e9}");
    assert_eq!(loaded.value, 5);
}

#[test]
fn pretty_printed_json_loads() {
    let mut fields = serde_json::Map::new();
    fields.insert("name".to_owned(), serde_json::Value::String("spread out".to_owned()));
    fields.insert("value".to_owned(), serde_json::Value::from(-7i64));
    let pretty = serde_json::to_string_pretty(&serde_json::Value::Object(fields)).unwrap();
    assert!(pretty.contains('\n'));
    let loaded = Record::decode(&pretty).unwrap();
    assert_eq!(loaded.name, "spread out");
    assert_eq!(loaded.value, -7);
}

#[test]
fn malformed_content() {
    assert_eq!(Record::decode("not json"), Err(StoreError::DecodeFailure));
    assert_eq!(
        load_from_read::<Record>(Ok("not json".to_string())),
        Err(StoreError::DecodeFailure)
    );
}

#[test]
fn shape_mismatch() {
    for text in [
        "[1,2]",
        "{\"name\":\"x\"}",
        "{\"name\":\"x\",\"value\":\"y\"}",
        "{\"name\":\"a\\qb\",\"value\":1}",
        "{\"name\":\"a\\\",\"value\":1}",
        "{\"name\":\"a",
        "42",
        "null",
        "{}",
        "",
    ] {
        assert_eq!(Record::decode(text), Err(StoreError::DecodeFailure));
    }
}

#[test]
fn only_canonical_numbers_load() {
    for text in [
        "{\"name\":\"a\",\"value\":007}",
        "{\"name\":\"a\",\"value\":-0}",
        "{\"name\":\"a\",\"value\":+1}",
        "{\"name\":\"a\",\"value\":1.5}",
        "{\"name\":\"a\",\"value\":9223372036854775808}",
        "{\"name\":\"a\",\"value\":-9223372036854775809}",
        "{\"name\":\"a\",\"value\":99999999999999999999999999}",
    ] {
        assert_eq!(Record::decode(text), Err(StoreError::DecodeFailure));
    }
    let boundary = Record::decode("{\"name\":\"a\",\"value\":-9223372036854775808}").unwrap();
    assert_eq!(boundary.value, i64::MIN);
}

#[test]
fn decoded_text_reencodes_identically() {
    let text = "{\"name\":\"stable\",\"value\":-321}";
    let record = Record::decode(text).unwrap();
    assert_eq!(record.encode().unwrap(), text);
}
