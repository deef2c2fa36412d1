use ha_rs::client::decode_state_response;
use ha_rs::entity::{Context, Entity, encode_entity, entity_from_json, entity_to_json};
use ha_rs::json::{JsonValue, parse_json};

fn sample_body() -> &'static str {
    "{\"entity_id\":\"switch.smart_plug\",\"state\":\"off\",\
     \"attributes\":{\"friendly_name\":\"Smart Plug\",\"power_w\":12.5,\
     \"flags\":[true,null,{\"nested\":\"yes\"}]},\
     \"last_changed\":\"2024-01-01T00:00:00+00:00\",\
     \"last_reported\":\"2024-01-02T00:00:00+00:00\",\
     \"last_updated\":\"2024-01-03T00:00:00+00:00\",\
     \"context\":{\"id\":\"01HV\",\"parent_id\":null,\"user_id\":\"u1\"}}"
}

#[test]
fn decode_well_formed_entity() {
    let e = decode_state_response(sample_body()).unwrap();
    assert_eq!(e.entity_id, "switch.smart_plug");
    assert_eq!(e.state, "off");
    assert_eq!(e.last_changed, "2024-01-01T00:00:00+00:00");
    assert_eq!(e.last_reported, "2024-01-02T00:00:00+00:00");
    assert_eq!(e.last_updated, "2024-01-03T00:00:00+00:00");
    assert_eq!(e.context.id, "01HV");
    assert_eq!(e.context.parent_id, None);
    assert_eq!(e.context.user_id, Some("u1".to_owned()));
    assert_eq!(e.attributes.len(), 3);
    assert_eq!(e.attributes[0].0, "friendly_name");
    assert_eq!(e.attributes[0].1, JsonValue::Str("Smart Plug".to_owned()));
    assert_eq!(e.attributes[1].1, JsonValue::Num("12.5".to_owned()));
    assert_eq!(
        e.attributes[2].1,
        JsonValue::Arr(vec![
            JsonValue::Bool(true),
            JsonValue::Null,
            JsonValue::Obj(vec![("nested".to_owned(), JsonValue::Str("yes".to_owned()))]),
        ])
    );
}

#[test]
fn omitted_optional_context_fields_stay_absent() {
    let body = "{\"entity_id\":\"switch.smart_plug\",\"state\":\"on\",\"attributes\":{},\
                \"last_changed\":\"a\",\"last_reported\":\"b\",\"last_updated\":\"c\",\
                \"context\":{\"id\":\"x\"}}";
    let e = decode_state_response(body).unwrap();
    assert_eq!(e.context.parent_id, None);
    assert_eq!(e.context.user_id, None);
}

#[test]
fn unknown_members_are_ignored() {
    let body = "{\"entity_id\":\"switch.smart_plug\",\"extra\":7,\"state\":\"on\",\
                \"attributes\":{},\"last_changed\":\"a\",\"last_reported\":\"b\",\
                \"last_updated\":\"c\",\"context\":{\"id\":\"x\",\"other\":[]}}";
    assert!(decode_state_response(body).is_ok());
}

#[test]
fn missing_required_field_fails() {
    let body = "{\"state\":\"off\",\"attributes\":{},\"last_changed\":\"a\",\
                \"last_reported\":\"b\",\"last_updated\":\"c\",\"context\":{\"id\":\"x\"}}";
    assert!(decode_state_response(body).is_err());
}

#[test]
fn wrong_field_type_fails() {
    let body = "{\"entity_id\":42,\"state\":\"off\",\"attributes\":{},\"last_changed\":\"a\",\
                \"last_reported\":\"b\",\"last_updated\":\"c\",\"context\":{\"id\":\"x\"}}";
    assert!(decode_state_response(body).is_err());
    let body2 = "{\"entity_id\":\"e\",\"state\":\"off\",\"attributes\":[],\"last_changed\":\"a\",\
                 \"last_reported\":\"b\",\"last_updated\":\"c\",\"context\":{\"id\":\"x\"}}";
    assert!(decode_state_response(body2).is_err());
    let body3 = "{\"entity_id\":\"e\",\"state\":\"off\",\"attributes\":{},\"last_changed\":\"a\",\
                 \"last_reported\":\"b\",\"last_updated\":\"c\",\
                 \"context\":{\"id\":\"x\",\"user_id\":7}}";
    assert!(decode_state_response(body3).is_err());
}

#[test]
fn non_object_and_malformed_bodies_fail() {
    assert!(decode_state_response("[1,2]").is_err());
    assert!(decode_state_response("\"just a string\"").is_err());
    assert!(decode_state_response("not json at all").is_err());
    assert!(decode_state_response("").is_err());
}

#[test]
fn entity_encode_decode_round_trip() {
    let original = decode_state_response(sample_body()).unwrap();
    let text = encode_entity(&original);
    let again = decode_state_response(text.as_str()).unwrap();
    assert_eq!(again, original);
}

#[test]
fn entity_to_json_matches_parsed_document_shape() {
    let e = Entity {
        entity_id: "switch.smart_plug".to_owned(),
        state: "on".to_owned(),
        attributes: vec![("k".to_owned(), JsonValue::Num("1".to_owned()))],
        last_changed: "a".to_owned(),
        last_reported: "b".to_owned(),
        last_updated: "c".to_owned(),
        context: Context { id: "x".to_owned(), parent_id: Some("p".to_owned()), user_id: None },
    };
    let j = entity_to_json(&e);
    let decoded = entity_from_json(&j).unwrap();
    assert_eq!(decoded, e);
    let text = encode_entity(&e);
    assert_eq!(parse_json(text.as_str()), Some(j));
    let via_serde: serde_json::Value = serde_json::from_str(text.as_str()).unwrap();
    assert_eq!(via_serde["context"]["parent_id"], serde_json::Value::String("p".to_owned()));
    assert_eq!(via_serde["context"]["user_id"], serde_json::Value::Null);
}
