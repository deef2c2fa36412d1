use ha_rs::client::{HaClient, HaError, HttpMethod, domain_of, service_name, set_state_body, toggle_intent, toggle_report};

#[test]
fn domain_of_well_formed_identifier() {
    assert_eq!(domain_of("switch.smart_plug"), "switch");
}

#[test]
fn domain_of_takes_prefix_before_first_dot() {
    assert_eq!(domain_of("light.kitchen.lamp"), "light");
}

#[test]
fn domain_of_without_separator_falls_back_to_switch() {
    assert_eq!(domain_of("smartplug"), "switch");
}

#[test]
fn domain_of_empty_identifier_falls_back_to_switch() {
    assert_eq!(domain_of(""), "switch");
}

#[test]
fn domain_of_leading_dot_gives_empty_domain() {
    assert_eq!(domain_of(".smart_plug"), "");
}

#[test]
fn service_name_follows_intent() {
    assert_eq!(service_name(true), "turn_on");
    assert_eq!(service_name(false), "turn_off");
}

#[test]
fn toggle_intent_is_on_only_for_off() {
    assert!(toggle_intent("off"));
    assert!(!toggle_intent("on"));
    assert!(!toggle_intent(""));
    assert!(!toggle_intent("OFF"));
    assert!(!toggle_intent("unavailable"));
}

#[test]
fn toggle_report_text() {
    assert_eq!(toggle_report(true), "Turned ON.");
    assert_eq!(toggle_report(false), "Turned OFF.");
}

#[test]
fn get_state_request_shape() {
    let client = HaClient::new("http://ha.local:8123".to_owned(), "SECRET-REDACTED".to_owned());
    let r = client.get_state_request("switch.smart_plug");
    assert_eq!(r.method, HttpMethod::Get);
    assert_eq!(r.url, "http://ha.local:8123/api/states/switch.smart_plug");
    assert_eq!(r.authorization, "Bearer SECRET-REDACTED");
    assert_eq!(r.content_type, "application/json");
    assert!(r.body.is_none());
}

#[test]
fn set_state_request_turn_on() {
    let client = HaClient::new("http://ha.local:8123".to_owned(), "SECRET-REDACTED".to_owned());
    let r = client.set_state_request("switch.smart_plug", true);
    assert_eq!(r.method, HttpMethod::Post);
    assert_eq!(r.url, "http://ha.local:8123/api/services/switch/turn_on");
    assert_eq!(r.authorization, "Bearer SECRET-REDACTED");
    assert_eq!(r.content_type, "application/json");
    assert_eq!(r.body.as_deref(), Some("{\"entity_id\":\"switch.smart_plug\"}"));
}

#[test]
fn set_state_request_turn_off() {
    let client = HaClient::new("http://ha.local:8123".to_owned(), "t".to_owned());
    let r = client.set_state_request("switch.smart_plug", false);
    assert_eq!(r.url, "http://ha.local:8123/api/services/switch/turn_off");
}

#[test]
fn set_state_request_fallback_domain() {
    let client = HaClient::new("http://ha.local:8123".to_owned(), "t".to_owned());
    let r = client.set_state_request("smartplug", true);
    assert_eq!(r.url, "http://ha.local:8123/api/services/switch/turn_on");
    assert_eq!(r.body.as_deref(), Some("{\"entity_id\":\"smartplug\"}"));
}

#[test]
fn set_state_body_escapes_identifier() {
    assert_eq!(set_state_body("a\"b"), "{\"entity_id\":\"a\\\"b\"}");
}

#[test]
fn error_messages() {
    assert_eq!(
        HaError::Config("HA_URL".to_owned()).message(),
        "missing configuration value: HA_URL"
    );
    assert_eq!(
        HaError::Transport("connection refused".to_owned()).message(),
        "transport error: connection refused"
    );
    assert_eq!(HaError::Protocol(401).message(), "service returned an unsuccessful status");
    assert_eq!(HaError::Decode.message(), "response body did not match the entity schema");
}

#[test]
fn toggle_scenario_from_off_turns_on() {
    let client = HaClient::new("http://ha.local:8123".to_owned(), "t".to_owned());
    let body = "{\"entity_id\":\"switch.smart_plug\",\"state\":\"off\",\"attributes\":{},\
                \"last_changed\":\"2024-01-01T00:00:00+00:00\",\
                \"last_reported\":\"2024-01-01T00:00:00+00:00\",\
                \"last_updated\":\"2024-01-01T00:00:00+00:00\",\
                \"context\":{\"id\":\"ctx1\"}}";
    let entity = ha_rs::client::decode_state_response(body).unwrap();
    let intent = toggle_intent(entity.state.as_str());
    assert!(intent);
    let r = client.set_state_request("switch.smart_plug", intent);
    assert_eq!(r.url, "http://ha.local:8123/api/services/switch/turn_on");
    assert_eq!(toggle_report(intent), "Turned ON.");
}

#[test]
fn toggle_scenario_from_on_turns_off() {
    let client = HaClient::new("http://ha.local:8123".to_owned(), "t".to_owned());
    let body = "{\"entity_id\":\"switch.smart_plug\",\"state\":\"on\",\"attributes\":{},\
                \"last_changed\":\"x\",\"last_reported\":\"x\",\"last_updated\":\"x\",\
                \"context\":{\"id\":\"ctx1\"}}";
    let entity = ha_rs::client::decode_state_response(body).unwrap();
    let intent = toggle_intent(entity.state.as_str());
    assert!(!intent);
    let r = client.set_state_request("switch.smart_plug", intent);
    assert_eq!(r.url, "http://ha.local:8123/api/services/switch/turn_off");
    assert_eq!(toggle_report(intent), "Turned OFF.");
}
