use gdron::errors::FrameError;
use gdron::frame::{decode_outcome, frame_blob, load_frame, save_frame};
use gdron::header::build_header;

use ron::value::{Number, Value};

fn weapon_record() -> Value {
    let mut fields = ron::value::Map::new();
    fields.insert(
        Value::String(String::from("name")),
        Value::String(String::from("Sword")),
    );
    fields.insert(
        Value::String(String::from("damage")),
        Value::Number(Number::Integer(10)),
    );
    Value::Map(fields)
}

#[test]
fn round_trip_through_ron_body() {
    let value = weapon_record();
    let body = ron::ser::to_string_pretty(&value, ron::ser::PrettyConfig::default()).unwrap();
    let blob = frame_blob("Weapon", &body);

    let handed = load_frame(Some(&blob), "Weapon").unwrap();
    assert_eq!(handed, body);

    let decoded = decode_outcome(
        ron::de::from_str::<Value>(&handed).map_err(|e| e.to_string()),
    )
    .unwrap();
    assert_eq!(decoded, value);
}

#[test]
fn saved_blob_is_header_line_then_body() {
    let value = weapon_record();
    let body = ron::ser::to_string_pretty(&value, ron::ser::PrettyConfig::default()).unwrap();
    let blob = save_frame(true, Ok(body.clone()), "Weapon").unwrap();

    let (first_line, rest) = blob.split_once('\n').unwrap();
    assert_eq!(first_line, build_header("Weapon"));
    assert_eq!(rest, body);

    let decoded: Value = ron::de::from_str(rest).unwrap();
    assert_eq!(decoded, weapon_record());
}

#[test]
fn tamper_detection_names_both_identifiers() {
    let blob = frame_blob("Weapon", "(damage: 10)");
    match load_frame(Some(&blob), "Armor") {
        Err(FrameError::HeaderMismatch { expected, found }) => {
            assert_eq!(expected, "Armor");
            assert_eq!(found, "Weapon");
        }
        other => panic!("expected a header mismatch, got {:?}", other),
    }
}

#[test]
fn unwrapped_header_line_is_a_mismatch() {
    match load_frame(Some("Weapon\n(damage: 10)"), "Weapon") {
        Err(FrameError::HeaderMismatch { expected, found }) => {
            assert_eq!(expected, "Weapon");
            assert_eq!(found, "Weapon");
        }
        other => panic!("expected a header mismatch, got {:?}", other),
    }
}

#[test]
fn blob_without_newline_is_malformed() {
    assert_eq!(
        load_frame(Some("[gd_ron]Weapon[/gd_ron] no boundary"), "Weapon"),
        Err(FrameError::MalformedBlob)
    );
    assert_eq!(load_frame(Some(""), "Weapon"), Err(FrameError::MalformedBlob));
}

#[test]
fn unopenable_source_cannot_be_loaded() {
    assert_eq!(load_frame(None, "Weapon"), Err(FrameError::CannotOpen));
}

#[test]
fn unopenable_destination_cannot_be_saved() {
    assert_eq!(
        save_frame(false, Ok(String::from("(damage: 10)")), "Weapon"),
        Err(FrameError::CannotOpenForWrite)
    );
}

#[test]
fn encode_failure_is_reported_with_its_diagnostic() {
    assert_eq!(
        save_frame(true, Err(String::from("value cannot be represented")), "Weapon"),
        Err(FrameError::EncodeError {
            diagnostic: String::from("value cannot be represented")
        })
    );
}

#[test]
fn decode_failure_is_isolated() {
    let blob = frame_blob("Weapon", "((( not ron at all");
    let body = load_frame(Some(&blob), "Weapon").unwrap();
    let mapped = decode_outcome(ron::de::from_str::<Value>(&body).map_err(|e| e.to_string()));
    match mapped {
        Err(FrameError::DecodeError { diagnostic }) => assert!(!diagnostic.is_empty()),
        other => panic!("expected a decode error, got {:?}", other),
    }
}

#[test]
fn body_may_hold_further_newlines() {
    let body = "(\n    name: \"Sword\",\n    damage: 10,\n)";
    let blob = frame_blob("Weapon", body);
    assert_eq!(load_frame(Some(&blob), "Weapon").unwrap(), body);
}

#[test]
fn empty_body_round_trips() {
    let blob = frame_blob("Weapon", "");
    assert_eq!(blob, "[gd_ron]Weapon[/gd_ron]\n");
    assert_eq!(load_frame(Some(&blob), "Weapon").unwrap(), "");
}

#[test]
fn empty_identifier_round_trips() {
    let blob = frame_blob("", "(damage: 10)");
    assert_eq!(load_frame(Some(&blob), "").unwrap(), "(damage: 10)");
}

#[test]
fn decode_success_passes_the_value_through() {
    let value = weapon_record();
    let ok: Result<Value, String> = Ok(value.clone());
    assert_eq!(decode_outcome(ok), Ok(value));
}
