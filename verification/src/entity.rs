//! The entity data model and its wire schema.
//!
//! An entity is the remote service's representation of one controllable
//! device: identifier, current state string, an open-ended attribute map,
//! three timestamp strings, and a provenance context. Entities arrive as the
//! JSON body of a successful fetch; this module decodes that body and states
//! exactly which documents decode and to what.

use vstd::prelude::*;
use crate::json::{
    JsonVal, JsonValue, clone_members, jval_view, lemma_member_views_of, lemma_parse_of_ser,
    member_views_of, ser, sp_json, wf_json, wf_members,
};
use crate::strutil::str_eq;

verus! {

/// Provenance of the last state change.
#[derive(Debug, PartialEq, Eq)]
pub struct Context {
    pub id: String,
    pub parent_id: Option<String>,
    pub user_id: Option<String>,
}

/// Model of a context record.
pub struct ContextVal {
    pub id: Seq<char>,
    pub parent_id: Option<Seq<char>>,
    pub user_id: Option<Seq<char>>,
}

impl View for Context {
    type V = ContextVal;

    open spec fn view(&self) -> ContextVal {
        ContextVal {
            id: self.id@,
            parent_id: match self.parent_id {
                Some(s) => Some(s@),
                None => None,
            },
            user_id: match self.user_id {
                Some(s) => Some(s@),
                None => None,
            },
        }
    }
}

/// One controllable device as reported by the remote service.
#[derive(Debug, PartialEq, Eq)]
pub struct Entity {
    pub entity_id: String,
    pub state: String,
    pub attributes: Vec<(String, JsonValue)>,
    pub last_changed: String,
    pub last_reported: String,
    pub last_updated: String,
    pub context: Context,
}

/// Model of an entity record.
pub struct EntityVal {
    pub entity_id: Seq<char>,
    pub state: Seq<char>,
    pub attributes: Seq<(Seq<char>, JsonVal)>,
    pub last_changed: Seq<char>,
    pub last_reported: Seq<char>,
    pub last_updated: Seq<char>,
    pub context: ContextVal,
}

impl View for Entity {
    type V = EntityVal;

    open spec fn view(&self) -> EntityVal {
        EntityVal {
            entity_id: self.entity_id@,
            state: self.state@,
            attributes: member_views_of(self.attributes@),
            last_changed: self.last_changed@,
            last_reported: self.last_reported@,
            last_updated: self.last_updated@,
            context: self.context@,
        }
    }
}

// ---------------------------------------------------------------------------
// The schema, as functions on the JSON model
// ---------------------------------------------------------------------------

/// First member with the given key, if any.
pub open spec fn lookup(members: Seq<(Seq<char>, JsonVal)>, key: Seq<char>) -> Option<JsonVal>
    decreases members.len(),
{
    if members.len() == 0 {
        None
    } else if members[0].0 == key {
        Some(members[0].1)
    } else {
        lookup(members.drop_first(), key)
    }
}

/// A required string field: present with a string value, or the record is
/// rejected.
pub open spec fn req_str_field(members: Seq<(Seq<char>, JsonVal)>, key: Seq<char>) -> Option<
    Seq<char>,
> {
    match lookup(members, key) {
        Some(JsonVal::Str(s)) => Some(s),
        _ => None,
    }
}

/// An optional string field: an absent member and a null value both mean
/// "no value"; a string is kept; any other type rejects the record.
pub open spec fn opt_str_field(members: Seq<(Seq<char>, JsonVal)>, key: Seq<char>) -> Option<
    Option<Seq<char>>,
> {
    match lookup(members, key) {
        None => Some(None),
        Some(JsonVal::Null) => Some(None),
        Some(JsonVal::Str(s)) => Some(Some(s)),
        Some(_) => None,
    }
}

/// The context record described by an object's members, if well-shaped.
pub open spec fn context_of_members(members: Seq<(Seq<char>, JsonVal)>) -> Option<ContextVal> {
    match (req_str_field(members, "id"@), opt_str_field(members, "parent_id"@), opt_str_field(
        members,
        "user_id"@,
    )) {
        (Some(id), Some(parent_id), Some(user_id)) => Some(
            ContextVal { id, parent_id, user_id },
        ),
        _ => None,
    }
}

/// The entity described by an object's members, if well-shaped: the five
/// string fields and the context are required, `attributes` must be an
/// object, unknown members are ignored.
pub open spec fn entity_of_members(members: Seq<(Seq<char>, JsonVal)>) -> Option<EntityVal> {
    match (req_str_field(members, "entity_id"@), req_str_field(members, "state"@), req_str_field(
        members,
        "last_changed"@,
    ), req_str_field(members, "last_reported"@), req_str_field(members, "last_updated"@)) {
        (Some(entity_id), Some(state), Some(last_changed), Some(last_reported), Some(
            last_updated,
        )) => {
            match (lookup(members, "attributes"@), lookup(members, "context"@)) {
                (Some(JsonVal::Obj(attributes)), Some(JsonVal::Obj(cms))) => {
                    match context_of_members(cms) {
                        Some(context) => Some(
                            EntityVal {
                                entity_id,
                                state,
                                attributes,
                                last_changed,
                                last_reported,
                                last_updated,
                                context,
                            },
                        ),
                        None => None,
                    }
                },
                _ => None,
            }
        },
        _ => None,
    }
}

/// The entity described by a JSON document: it must be an object of the
/// entity schema.
pub open spec fn entity_of_json(j: JsonVal) -> Option<EntityVal> {
    match j {
        JsonVal::Obj(members) => entity_of_members(members),
        _ => None,
    }
}

/// The entity described by a response body: the text must be one JSON
/// document of the entity schema.
pub open spec fn spec_decode_entity(s: Seq<char>) -> Option<EntityVal> {
    match sp_json(s) {
        Some(j) => entity_of_json(j),
        None => None,
    }
}

// ---------------------------------------------------------------------------
// Executable decoding
// ---------------------------------------------------------------------------

proof fn lemma_lookup_skip_step(ms: Seq<(Seq<char>, JsonVal)>, k: int, key: Seq<char>)
    requires
        0 <= k < ms.len(),
        ms[k].0 != key,
    ensures
        lookup(ms.skip(k), key) == lookup(ms.skip(k + 1), key),
{
    assert(ms.skip(k)[0] == ms[k]);
    assert(ms.skip(k).drop_first() =~= ms.skip(k + 1));
}

/// Index of the first member with the given key.
fn lookup_idx(members: &Vec<(String, JsonValue)>, key: &str) -> (r: Option<usize>)
    ensures
        match r {
            Some(k) => k < members@.len() && lookup(member_views_of(members@), key@) == Some(
                jval_view(members@[k as int].1),
            ),
            None => lookup(member_views_of(members@), key@) is None,
        },
{
    let n = members.len();
    let mut k: usize = 0;
    proof {
        lemma_member_views_of(members@);
        assert(member_views_of(members@).skip(0) =~= member_views_of(members@));
    }
    while k < n
        invariant
            n == members@.len(),
            k <= n,
            member_views_of(members@).len() == n,
            forall|i: int| 0 <= i < n ==> member_views_of(members@)[i]
                == ((#[trigger] members@[i]).0@, jval_view(members@[i].1)),
            lookup(member_views_of(members@), key@) == lookup(
                member_views_of(members@).skip(k as int),
                key@,
            ),
        decreases n - k,
    {
        let m = &members[k];
        if str_eq(m.0.as_str(), key) {
            proof {
                assert(member_views_of(members@).skip(k as int)[0]
                    == member_views_of(members@)[k as int]);
            }
            return Some(k);
        }
        proof {
            lemma_lookup_skip_step(member_views_of(members@), k as int, key@);
        }
        k += 1;
    }
    proof {
        assert(member_views_of(members@).skip(n as int)
            =~= Seq::<(Seq<char>, JsonVal)>::empty());
        assert(lookup(Seq::<(Seq<char>, JsonVal)>::empty(), key@) is None);
    }
    None
}

/// The value of a required string field.
fn get_req_str(members: &Vec<(String, JsonValue)>, key: &str) -> (r: Option<String>)
    ensures
        match r {
            Some(s) => req_str_field(member_views_of(members@), key@) == Some(s@),
            None => req_str_field(member_views_of(members@), key@) is None,
        },
{
    match lookup_idx(members, key) {
        None => None,
        Some(k) => {
            let m = &members[k];
            match &m.1 {
                JsonValue::Str(s) => Some(s.clone()),
                _ => None,
            }
        },
    }
}

/// The value of an optional string field.
fn get_opt_str(members: &Vec<(String, JsonValue)>, key: &str) -> (r: Option<Option<String>>)
    ensures
        match r {
            Some(Some(s)) => opt_str_field(member_views_of(members@), key@) == Some(Some(s@)),
            Some(None) => opt_str_field(member_views_of(members@), key@) == Some(
                None::<Seq<char>>,
            ),
            None => opt_str_field(member_views_of(members@), key@) is None,
        },
{
    match lookup_idx(members, key) {
        None => Some(None),
        Some(k) => {
            let m = &members[k];
            match &m.1 {
                JsonValue::Str(s) => Some(Some(s.clone())),
                JsonValue::Null => Some(None),
                _ => None,
            }
        },
    }
}

/// Decodes a context record from an object's members.
fn context_from_members(members: &Vec<(String, JsonValue)>) -> (r: Option<Context>)
    ensures
        match r {
            Some(c) => context_of_members(member_views_of(members@)) == Some(c@),
            None => context_of_members(member_views_of(members@)) is None,
        },
{
    let id = match get_req_str(members, "id") {
        Some(s) => s,
        None => {
            return None;
        },
    };
    let parent_id = match get_opt_str(members, "parent_id") {
        Some(o) => o,
        None => {
            return None;
        },
    };
    let user_id = match get_opt_str(members, "user_id") {
        Some(o) => o,
        None => {
            return None;
        },
    };
    Some(Context { id, parent_id, user_id })
}

/// Decodes an entity from a JSON document, exactly when the document fits
/// the entity schema.
pub fn entity_from_json(j: &JsonValue) -> (r: Option<Entity>)
    ensures
        match r {
            Some(e) => entity_of_json(j@) == Some(e@),
            None => entity_of_json(j@) is None,
        },
{
    let members = match j {
        JsonValue::Obj(members) => members,
        _ => {
            return None;
        },
    };
    let entity_id = match get_req_str(members, "entity_id") {
        Some(s) => s,
        None => {
            return None;
        },
    };
    let state = match get_req_str(members, "state") {
        Some(s) => s,
        None => {
            return None;
        },
    };
    let last_changed = match get_req_str(members, "last_changed") {
        Some(s) => s,
        None => {
            return None;
        },
    };
    let last_reported = match get_req_str(members, "last_reported") {
        Some(s) => s,
        None => {
            return None;
        },
    };
    let last_updated = match get_req_str(members, "last_updated") {
        Some(s) => s,
        None => {
            return None;
        },
    };
    let attributes = match lookup_idx(members, "attributes") {
        Some(k) => {
            let m = &members[k];
            match &m.1 {
                JsonValue::Obj(attrs) => clone_members(attrs),
                _ => {
                    return None;
                },
            }
        },
        None => {
            return None;
        },
    };
    let context = match lookup_idx(members, "context") {
        Some(k) => {
            let m = &members[k];
            match &m.1 {
                JsonValue::Obj(cms) => {
                    match context_from_members(cms) {
                        Some(c) => c,
                        None => {
                            return None;
                        },
                    }
                },
                _ => {
                    return None;
                },
            }
        },
        None => {
            return None;
        },
    };
    Some(Entity { entity_id, state, attributes, last_changed, last_reported, last_updated, context })
}

// ---------------------------------------------------------------------------
// Encoding
// ---------------------------------------------------------------------------

/// The canonical JSON document of a context record: absent optional fields
/// are written as `null`.
pub open spec fn context_json(c: ContextVal) -> JsonVal {
    JsonVal::Obj(
        seq![
            ("id"@, JsonVal::Str(c.id)),
            (
                "parent_id"@,
                match c.parent_id {
                    Some(s) => JsonVal::Str(s),
                    None => JsonVal::Null,
                },
            ),
            (
                "user_id"@,
                match c.user_id {
                    Some(s) => JsonVal::Str(s),
                    None => JsonVal::Null,
                },
            ),
        ],
    )
}

/// The canonical JSON document of an entity record.
pub open spec fn entity_json(e: EntityVal) -> JsonVal {
    JsonVal::Obj(
        seq![
            ("entity_id"@, JsonVal::Str(e.entity_id)),
            ("state"@, JsonVal::Str(e.state)),
            ("attributes"@, JsonVal::Obj(e.attributes)),
            ("last_changed"@, JsonVal::Str(e.last_changed)),
            ("last_reported"@, JsonVal::Str(e.last_reported)),
            ("last_updated"@, JsonVal::Str(e.last_updated)),
            ("context"@, context_json(e.context)),
        ],
    )
}

/// Builds the canonical JSON document of an entity.
pub fn entity_to_json(e: &Entity) -> (r: JsonValue)
    ensures
        r@ == entity_json(e@),
{
    let mut cms: Vec<(String, JsonValue)> = Vec::new();
    cms.push(("id".to_owned(), JsonValue::Str(e.context.id.clone())));
    cms.push(
        (
            "parent_id".to_owned(),
            match &e.context.parent_id {
                Some(s) => JsonValue::Str(s.clone()),
                None => JsonValue::Null,
            },
        ),
    );
    cms.push(
        (
            "user_id".to_owned(),
            match &e.context.user_id {
                Some(s) => JsonValue::Str(s.clone()),
                None => JsonValue::Null,
            },
        ),
    );
    proof {
        lemma_member_views_of(cms@);
        assert(cms@.len() == 3);
        assert((cms@[0].0@, jval_view(cms@[0].1)) == ("id"@, JsonVal::Str(e.context.id@)));
        assert((cms@[1].0@, jval_view(cms@[1].1)) == ("parent_id"@, match e.context@.parent_id {
            Some(s) => JsonVal::Str(s),
            None => JsonVal::Null,
        }));
        assert((cms@[2].0@, jval_view(cms@[2].1)) == ("user_id"@, match e.context@.user_id {
            Some(s) => JsonVal::Str(s),
            None => JsonVal::Null,
        }));
        assert(member_views_of(cms@) =~= context_json(e.context@)->Obj_0);
    }
    let mut ms: Vec<(String, JsonValue)> = Vec::new();
    ms.push(("entity_id".to_owned(), JsonValue::Str(e.entity_id.clone())));
    ms.push(("state".to_owned(), JsonValue::Str(e.state.clone())));
    ms.push(("attributes".to_owned(), JsonValue::Obj(clone_members(&e.attributes))));
    ms.push(("last_changed".to_owned(), JsonValue::Str(e.last_changed.clone())));
    ms.push(("last_reported".to_owned(), JsonValue::Str(e.last_reported.clone())));
    ms.push(("last_updated".to_owned(), JsonValue::Str(e.last_updated.clone())));
    ms.push(("context".to_owned(), JsonValue::Obj(cms)));
    proof {
        lemma_member_views_of(ms@);
        assert(ms@.len() == 7);
        assert((ms@[0].0@, jval_view(ms@[0].1)) == ("entity_id"@, JsonVal::Str(e.entity_id@)));
        assert((ms@[1].0@, jval_view(ms@[1].1)) == ("state"@, JsonVal::Str(e.state@)));
        assert((ms@[2].0@, jval_view(ms@[2].1))
            == ("attributes"@, JsonVal::Obj(member_views_of(e.attributes@))));
        assert((ms@[3].0@, jval_view(ms@[3].1))
            == ("last_changed"@, JsonVal::Str(e.last_changed@)));
        assert((ms@[4].0@, jval_view(ms@[4].1))
            == ("last_reported"@, JsonVal::Str(e.last_reported@)));
        assert((ms@[5].0@, jval_view(ms@[5].1))
            == ("last_updated"@, JsonVal::Str(e.last_updated@)));
        assert((ms@[6].0@, jval_view(ms@[6].1)) == ("context"@, context_json(e.context@)));
        assert(member_views_of(ms@) =~= entity_json(e@)->Obj_0);
    }
    JsonValue::Obj(ms)
}

/// The compact JSON text of an entity record.
pub fn encode_entity(e: &Entity) -> (r: String)
    ensures
        r@ == crate::json::ser(entity_json(e@)),
{
    let j = entity_to_json(e);
    crate::json::render(&j)
}

// ---------------------------------------------------------------------------
// Round trip
// ---------------------------------------------------------------------------

/// Law: decoding the canonical document of any entity record gives back that
/// record unchanged — nothing is lost on the way through the wire format,
/// and omitted optional context fields stay absent.
pub proof fn lemma_entity_json_round_trip(e: EntityVal)
    ensures
        entity_of_json(entity_json(e)) == Some(e),
{
    reveal_strlit("entity_id");
    reveal_strlit("state");
    reveal_strlit("attributes");
    reveal_strlit("last_changed");
    reveal_strlit("last_reported");
    reveal_strlit("last_updated");
    reveal_strlit("context");
    reveal_strlit("id");
    reveal_strlit("parent_id");
    reveal_strlit("user_id");
    let ms = entity_json(e)->Obj_0;
    let ms1 = ms.drop_first();
    let ms2 = ms1.drop_first();
    let ms3 = ms2.drop_first();
    let ms4 = ms3.drop_first();
    let ms5 = ms4.drop_first();
    assert(ms.len() == 7);
    assert(ms[0] == ("entity_id"@, JsonVal::Str(e.entity_id)));
    assert(ms1[0] == ms[1] && ms[1] == ("state"@, JsonVal::Str(e.state)));
    assert(ms2[0] == ms[2] && ms[2] == ("attributes"@, JsonVal::Obj(e.attributes)));
    assert(ms3[0] == ms[3] && ms[3] == ("last_changed"@, JsonVal::Str(e.last_changed)));
    assert(ms4[0] == ms[4] && ms[4] == ("last_reported"@, JsonVal::Str(e.last_reported)));
    assert(ms5[0] == ms[5] && ms[5] == ("last_updated"@, JsonVal::Str(e.last_updated)));
    assert(ms5[1] == ms[6] && ms[6] == ("context"@, context_json(e.context)));

    assert("entity_id"@.len() == 9);
    assert("state"@.len() == 5);
    assert("attributes"@.len() == 10);
    assert("last_changed"@.len() == 12);
    assert("last_reported"@.len() == 13);
    assert("last_updated"@.len() == 12);
    assert("context"@.len() == 7);
    assert("id"@.len() == 2);
    assert("parent_id"@.len() == 9);
    assert("user_id"@.len() == 7);
    assert(("last_changed"@)[5] == 'c' && ("last_updated"@)[5] == 'u');
    assert(("entity_id"@)[0] == 'e' && ("parent_id"@)[0] == 'p');
    assert("entity_id"@ != "state"@);
    assert("entity_id"@ != "attributes"@);
    assert("entity_id"@ != "last_changed"@);
    assert("entity_id"@ != "last_reported"@);
    assert("entity_id"@ != "last_updated"@);
    assert("entity_id"@ != "context"@);
    assert("state"@ != "attributes"@);
    assert("state"@ != "last_changed"@);
    assert("state"@ != "last_reported"@);
    assert("state"@ != "last_updated"@);
    assert("state"@ != "context"@);
    assert("attributes"@ != "last_changed"@);
    assert("attributes"@ != "last_reported"@);
    assert("attributes"@ != "last_updated"@);
    assert("attributes"@ != "context"@);
    assert("last_changed"@ != "last_reported"@);
    assert("last_changed"@ != "last_updated"@);
    assert("last_changed"@ != "context"@);
    assert("last_reported"@ != "last_updated"@);
    assert("last_reported"@ != "context"@);
    assert("last_updated"@ != "context"@);
    assert("id"@ != "parent_id"@);
    assert("id"@ != "user_id"@);
    assert("parent_id"@ != "user_id"@);

    assert(lookup(ms, "entity_id"@) == Some(JsonVal::Str(e.entity_id)));

    assert(lookup(ms, "state"@) == lookup(ms1, "state"@));
    assert(lookup(ms1, "state"@) == Some(JsonVal::Str(e.state)));

    assert(lookup(ms, "attributes"@) == lookup(ms1, "attributes"@));
    assert(lookup(ms1, "attributes"@) == lookup(ms2, "attributes"@));
    assert(lookup(ms2, "attributes"@) == Some(JsonVal::Obj(e.attributes)));

    assert(lookup(ms, "last_changed"@) == lookup(ms1, "last_changed"@));
    assert(lookup(ms1, "last_changed"@) == lookup(ms2, "last_changed"@));
    assert(lookup(ms2, "last_changed"@) == lookup(ms3, "last_changed"@));
    assert(lookup(ms3, "last_changed"@) == Some(JsonVal::Str(e.last_changed)));

    assert(lookup(ms, "last_reported"@) == lookup(ms1, "last_reported"@));
    assert(lookup(ms1, "last_reported"@) == lookup(ms2, "last_reported"@));
    assert(lookup(ms2, "last_reported"@) == lookup(ms3, "last_reported"@));
    assert(lookup(ms3, "last_reported"@) == lookup(ms4, "last_reported"@));
    assert(lookup(ms4, "last_reported"@) == Some(JsonVal::Str(e.last_reported)));

    assert(lookup(ms, "last_updated"@) == lookup(ms1, "last_updated"@));
    assert(lookup(ms1, "last_updated"@) == lookup(ms2, "last_updated"@));
    assert(lookup(ms2, "last_updated"@) == lookup(ms3, "last_updated"@));
    assert(("last_changed"@)[5] != ("last_updated"@)[5]);
    assert(lookup(ms3, "last_updated"@) == lookup(ms4, "last_updated"@));
    assert(lookup(ms4, "last_updated"@) == lookup(ms5, "last_updated"@));
    assert(lookup(ms5, "last_updated"@) == Some(JsonVal::Str(e.last_updated)));

    assert(lookup(ms, "context"@) == lookup(ms1, "context"@));
    assert(lookup(ms1, "context"@) == lookup(ms2, "context"@));
    assert(lookup(ms2, "context"@) == lookup(ms3, "context"@));
    assert(lookup(ms3, "context"@) == lookup(ms4, "context"@));
    assert(lookup(ms4, "context"@) == lookup(ms5, "context"@));
    assert(lookup(ms5, "context"@) == lookup(ms5.drop_first(), "context"@));
    assert(ms5.drop_first()[0] == ms[6]);
    assert(lookup(ms5.drop_first(), "context"@) == Some(context_json(e.context)));

    let cms = context_json(e.context)->Obj_0;
    let cms1 = cms.drop_first();
    assert(cms.len() == 3);
    assert(cms[0].0 == "id"@);
    assert(cms1[0] == cms[1] && cms[1].0 == "parent_id"@);
    assert(cms1[1] == cms[2] && cms[2].0 == "user_id"@);
    assert(lookup(cms, "id"@) == Some(JsonVal::Str(e.context.id)));
    assert(lookup(cms, "parent_id"@) == lookup(cms1, "parent_id"@));
    assert(lookup(cms1, "parent_id"@) == Some(cms[1].1));
    assert(lookup(cms, "user_id"@) == lookup(cms1, "user_id"@));
    assert(lookup(cms1, "user_id"@) == lookup(cms1.drop_first(), "user_id"@));
    assert(cms1.drop_first()[0] == cms[2]);
    assert(lookup(cms1.drop_first(), "user_id"@) == Some(cms[2].1));
    assert(opt_str_field(cms, "parent_id"@) == Some(e.context.parent_id));
    assert(opt_str_field(cms, "user_id"@) == Some(e.context.user_id));
    assert(context_of_members(cms) == Some(e.context));
    assert(entity_of_members(ms) == Some(e));
}

/// Law: the fetch operation round-trips an entity through the wire format
/// losslessly. Rendering the canonical document of any entity record whose
/// attribute numbers hold valid literals, and decoding that text, gives back
/// the record unchanged.
pub proof fn lemma_entity_wire_round_trip(e: EntityVal)
    requires
        wf_members(e.attributes),
    ensures
        spec_decode_entity(ser(entity_json(e))) == Some(e),
{
    let cms = context_json(e.context)->Obj_0;
    let cms1 = cms.drop_first();
    let cms2 = cms1.drop_first();
    assert(context_json(e.context) == JsonVal::Obj(cms));
    assert(cms.len() == 3);
    assert(cms1[0] == cms[1] && cms2[0] == cms[2]);
    assert(cms2.drop_first() =~= Seq::<(Seq<char>, JsonVal)>::empty());
    assert(wf_members(Seq::<(Seq<char>, JsonVal)>::empty()));
    assert(wf_json(cms[0].1));
    assert(wf_json(cms[1].1));
    assert(wf_json(cms[2].1));
    assert(wf_members(cms2));
    assert(wf_members(cms1));
    assert(wf_members(cms));
    assert(wf_json(JsonVal::Obj(cms)));

    let ms = entity_json(e)->Obj_0;
    let ms1 = ms.drop_first();
    let ms2 = ms1.drop_first();
    let ms3 = ms2.drop_first();
    let ms4 = ms3.drop_first();
    let ms5 = ms4.drop_first();
    let ms6 = ms5.drop_first();
    assert(entity_json(e) == JsonVal::Obj(ms));
    assert(ms.len() == 7);
    assert(ms1[0] == ms[1] && ms2[0] == ms[2] && ms3[0] == ms[3] && ms4[0] == ms[4]
        && ms5[0] == ms[5] && ms6[0] == ms[6]);
    assert(ms6.drop_first() =~= Seq::<(Seq<char>, JsonVal)>::empty());
    assert(wf_json(ms[0].1));
    assert(wf_json(ms[1].1));
    assert(wf_json(ms[2].1));
    assert(wf_json(ms[3].1));
    assert(wf_json(ms[4].1));
    assert(wf_json(ms[5].1));
    assert(ms[6].1 == JsonVal::Obj(cms));
    assert(wf_json(ms[6].1));
    assert(wf_members(ms6));
    assert(wf_members(ms5));
    assert(wf_members(ms4));
    assert(wf_members(ms3));
    assert(wf_members(ms2));
    assert(wf_members(ms1));
    assert(wf_members(ms));
    assert(wf_json(entity_json(e)));

    lemma_parse_of_ser(entity_json(e));
    lemma_entity_json_round_trip(e);
}

/// Law: a record whose required identifier member is absent is rejected.
pub proof fn lemma_missing_field_rejected(members: Seq<(Seq<char>, JsonVal)>)
    ensures
        lookup(members, "entity_id"@) is None ==> entity_of_members(members) is None,
{
}

} // verus!
