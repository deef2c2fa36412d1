//! Request-building and decision logic of the remote client.
//!
//! The client holds a base URL and a bearer token verbatim and builds the
//! authenticated requests for the two operations: fetching an entity's state
//! (`GET {base}/api/states/{entity_id}`) and invoking a turn-on / turn-off
//! service call (`POST {base}/api/services/{domain}/{service}`). The HTTP
//! transport itself lives outside this library; callers send the built
//! request and hand the response body back to the decoding functions.

use vstd::prelude::*;
use vstd::string::*;
use crate::strutil::str_eq;
use crate::entity::{Entity, spec_decode_entity};
use crate::json::{JsonVal, JsonValue, render, ser};

verus! {

/// The error taxonomy: a required configuration value was absent, the
/// transport failed, the service answered with an unsuccessful status, or
/// the response body did not decode as an entity record. No error is
/// retried or recovered.
#[derive(Debug, PartialEq, Eq)]
pub enum HaError {
    Config(String),
    Transport(String),
    Protocol(u16),
    Decode,
}

impl HaError {
    /// A human-readable account of the failure.
    pub fn message(&self) -> (msg: String)
        ensures
            match self {
                HaError::Config(name) => msg@ == "missing configuration value: "@ + name@,
                HaError::Transport(detail) => msg@ == "transport error: "@ + detail@,
                HaError::Protocol(_) => msg@ == "service returned an unsuccessful status"@,
                HaError::Decode => msg@ == "response body did not match the entity schema"@,
            },
    {
        match self {
            HaError::Config(name) => {
                let mut m = "missing configuration value: ".to_owned();
                m.append(name.as_str());
                m
            },
            HaError::Transport(detail) => {
                let mut m = "transport error: ".to_owned();
                m.append(detail.as_str());
                m
            },
            HaError::Protocol(_) => "service returned an unsuccessful status".to_owned(),
            HaError::Decode => "response body did not match the entity schema".to_owned(),
        }
    }
}

/// Index of the first `.` in `id`, or `id.len()` when there is none.
pub open spec fn first_dot(id: Seq<char>) -> int
    decreases id.len(),
{
    if id.len() == 0 {
        0
    } else if id[0] == '.' {
        0
    } else {
        1 + first_dot(id.subrange(1, id.len() as int))
    }
}

pub proof fn lemma_first_dot(id: Seq<char>)
    ensures
        0 <= first_dot(id) <= id.len(),
        first_dot(id) < id.len() ==> id[first_dot(id)] == '.',
        forall|j: int| 0 <= j < first_dot(id) ==> id[j] != '.',
    decreases id.len(),
{
    if id.len() == 0 {
    } else if id[0] == '.' {
    } else {
        let tail = id.subrange(1, id.len() as int);
        lemma_first_dot(tail);
        assert forall|j: int| 0 <= j < first_dot(id) implies id[j] != '.' by {
            if j > 0 {
                assert(tail[j - 1] == id[j]);
            }
        }
    }
}

/// The domain of an entity identifier: the part before the first `.`,
/// or the literal `switch` when the identifier has no `.`.
pub open spec fn spec_domain(id: Seq<char>) -> Seq<char> {
    if first_dot(id) < id.len() {
        id.subrange(0, first_dot(id))
    } else {
        "switch"@
    }
}

/// The service name selected by the boolean intent.
pub open spec fn spec_service(turn_on: bool) -> Seq<char> {
    if turn_on {
        "turn_on"@
    } else {
        "turn_off"@
    }
}

/// Derives the service domain from an entity identifier: the substring
/// before the first `.`, falling back to `"switch"` when no `.` occurs.
pub fn domain_of(entity_id: &str) -> (d: String)
    ensures
        d@ == spec_domain(entity_id@),
{
    proof {
        lemma_first_dot(entity_id@);
    }
    let n = entity_id.unicode_len();
    let mut i: usize = 0;
    while i < n
        invariant
            n == entity_id@.len(),
            i <= n,
            forall|j: int| 0 <= j < i ==> entity_id@[j] != '.',
        decreases n - i,
    {
        if entity_id.get_char(i) == '.' {
            proof {
                lemma_first_dot(entity_id@);
                assert(first_dot(entity_id@) == i) by {
                    if first_dot(entity_id@) < i {
                        assert(entity_id@[first_dot(entity_id@)] != '.');
                    }
                }
            }
            let prefix = entity_id.substring_char(0, i);
            return prefix.to_owned();
        }
        i += 1;
    }
    proof {
        assert(first_dot(entity_id@) == entity_id@.len()) by {
            if first_dot(entity_id@) < entity_id@.len() {
                assert(entity_id@[first_dot(entity_id@)] != '.');
            }
        }
    }
    "switch".to_owned()
}

/// The name of the service invoked for a boolean intent:
/// `turn_on` for true, `turn_off` for false.
pub fn service_name(turn_on: bool) -> (s: &'static str)
    ensures
        s@ == spec_service(turn_on),
{
    if turn_on {
        "turn_on"
    } else {
        "turn_off"
    }
}

/// The intent the toggle command sends for an observed state: turn on
/// exactly when the state is `"off"`.
pub open spec fn spec_toggle_intent(state: Seq<char>) -> bool {
    state == "off"@
}

/// Decision rule of the toggle command: turn the device on exactly when the
/// observed state string is `"off"`; every other state turns it off.
pub fn toggle_intent(state: &str) -> (turn_on: bool)
    ensures
        turn_on == spec_toggle_intent(state@),
{
    str_eq(state, "off")
}

/// The report printed after a toggle, chosen by the intent that was sent.
pub fn toggle_report(turn_on: bool) -> (msg: &'static str)
    ensures
        turn_on ==> msg@ == "Turned ON."@,
        !turn_on ==> msg@ == "Turned OFF."@,
{
    if turn_on {
        "Turned ON."
    } else {
        "Turned OFF."
    }
}

#[derive(PartialEq, Eq, Structural, Clone, Copy, Debug)]
pub enum HttpMethod {
    Get,
    Post,
}

/// One authenticated request against the remote service, ready to be sent by
/// a transport: method, full URL, the two headers, and an optional JSON body.
pub struct HttpRequest {
    pub method: HttpMethod,
    pub url: String,
    /// Full value of the `Authorization` header.
    pub authorization: String,
    /// Full value of the `Content-Type` header.
    pub content_type: String,
    pub body: Option<String>,
}

/// The remote client configuration: base URL and bearer token, stored
/// verbatim with no validation or normalization.
pub struct HaClient {
    pub base_url: String,
    pub token: String,
}

impl HaClient {
    /// Builds a client that keeps both configuration strings unchanged.
    pub fn new(base_url: String, token: String) -> (c: HaClient)
        ensures
            c.base_url@ == base_url@,
            c.token@ == token@,
    {
        HaClient { base_url, token }
    }

    /// The `Authorization` header value presented on every request.
    pub fn auth_header(&self) -> (h: String)
        ensures
            h@ == "Bearer "@ + self.token@,
    {
        let mut h = "Bearer ".to_owned();
        h.append(self.token.as_str());
        h
    }

    /// The request that fetches the current state of `entity_id`:
    /// `GET {base_url}/api/states/{entity_id}` with the bearer token.
    pub fn get_state_request(&self, entity_id: &str) -> (r: HttpRequest)
        ensures
            r.method == HttpMethod::Get,
            r.url@ == self.base_url@ + "/api/states/"@ + entity_id@,
            r.authorization@ == "Bearer "@ + self.token@,
            r.content_type@ == "application/json"@,
            r.body is None,
    {
        let mut url = self.base_url.clone();
        url.append("/api/states/");
        url.append(entity_id);
        HttpRequest {
            method: HttpMethod::Get,
            url,
            authorization: self.auth_header(),
            content_type: "application/json".to_owned(),
            body: None,
        }
    }

    /// The request that invokes the turn-on / turn-off service for
    /// `entity_id`: `POST {base_url}/api/services/{domain}/{service}` with
    /// body `{"entity_id": <entity_id>}`.
    pub fn set_state_request(&self, entity_id: &str, turn_on: bool) -> (r: HttpRequest)
        ensures
            r.method == HttpMethod::Post,
            r.url@ == self.base_url@ + "/api/services/"@ + spec_domain(entity_id@) + "/"@
                + spec_service(turn_on),
            r.authorization@ == "Bearer "@ + self.token@,
            r.content_type@ == "application/json"@,
            r.body matches Some(b) && b@ == spec_set_state_body(entity_id@),
    {
        let domain = domain_of(entity_id);
        let service = service_name(turn_on);
        let mut url = self.base_url.clone();
        url.append("/api/services/");
        url.append(domain.as_str());
        url.append("/");
        url.append(service);
        HttpRequest {
            method: HttpMethod::Post,
            url,
            authorization: self.auth_header(),
            content_type: "application/json".to_owned(),
            body: Some(set_state_body(entity_id)),
        }
    }
}

/// The JSON body sent with a service call.
pub open spec fn spec_set_state_body(entity_id: Seq<char>) -> Seq<char> {
    ser(JsonVal::Obj(seq![("entity_id"@, JsonVal::Str(entity_id))]))
}

/// Builds the service-call body `{"entity_id": <entity_id>}`.
pub fn set_state_body(entity_id: &str) -> (r: String)
    ensures
        r@ == spec_set_state_body(entity_id@),
{
    let mut ms: Vec<(String, JsonValue)> = Vec::new();
    let pair = ("entity_id".to_owned(), JsonValue::Str(entity_id.to_owned()));
    ms.push(pair);
    let j = JsonValue::Obj(ms);
    proof {
        let mv = crate::json::member_views_of(ms@);
        assert(ms@.len() == 1);
        assert(ms@[0] == pair);
        assert(crate::json::jval_view(ms@[0].1) == JsonVal::Str(entity_id@));
        assert(ms@[0].0@ == "entity_id"@);
        assert(ms@.drop_first() =~= Seq::<(String, JsonValue)>::empty());
        assert(crate::json::member_views_of(Seq::<(String, JsonValue)>::empty())
            =~= Seq::<(Seq<char>, JsonVal)>::empty());
        assert(mv =~= seq![("entity_id"@, JsonVal::Str(entity_id@))]);
    }
    render(&j)
}

/// Law: the decision rule is a pure function of the observed state string.
/// The state `"off"` yields the intent to turn on; every other state,
/// `"on"`, the empty string or anything unrecognized, yields the intent to
/// turn off.
pub proof fn lemma_toggle_rule(state: Seq<char>)
    ensures
        (state == "off"@) ==> spec_toggle_intent(state),
        (state != "off"@) ==> !spec_toggle_intent(state),
{
}

/// Law: for an identifier with at least one `.` the domain is the prefix
/// before the first `.`; for one without any `.` it is the literal
/// `"switch"`.
pub proof fn lemma_domain_rule(id: Seq<char>)
    ensures
        (exists|i: int| 0 <= i < id.len() && id[i] == '.') ==> {
            &&& spec_domain(id) == id.subrange(0, first_dot(id))
            &&& id[first_dot(id)] == '.'
            &&& forall|j: int| 0 <= j < first_dot(id) ==> id[j] != '.'
        },
        !(exists|i: int| 0 <= i < id.len() && id[i] == '.') ==> spec_domain(id) == "switch"@,
{
    lemma_first_dot(id);
    if exists|i: int| 0 <= i < id.len() && id[i] == '.' {
        let i = choose|i: int| 0 <= i < id.len() && id[i] == '.';
        assert(first_dot(id) < id.len()) by {
            if first_dot(id) == id.len() {
                assert(id[i] != '.');
            }
        }
    } else {
        if first_dot(id) < id.len() {
            assert(id[first_dot(id)] == '.');
        }
    }
}

/// Decodes the body of a successful fetch into an entity record. It returns
/// the entity exactly when the body is one JSON document of the entity
/// schema; every other body is a decode error.
pub fn decode_state_response(body: &str) -> (r: Result<Entity, HaError>)
    ensures
        match r {
            Ok(e) => spec_decode_entity(body@) == Some(e@),
            Err(err) => spec_decode_entity(body@) is None && err is Decode,
        },
{
    match crate::json::parse_json(body) {
        None => Err(HaError::Decode),
        Some(j) => match crate::entity::entity_from_json(&j) {
            Some(e) => Ok(e),
            None => Err(HaError::Decode),
        },
    }
}

} // verus!
