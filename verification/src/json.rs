//! JSON values and the wire codec.
//!
//! The remote service speaks JSON over HTTP. This module holds the library's
//! own JSON value type, a serializer that renders a value as compact JSON
//! text, and (further below) a parser for the response bodies. Numbers keep
//! their literal text, so a decoded document can be re-rendered without loss.

use vstd::prelude::*;
use vstd::string::*;
use crate::strutil::push_char;

verus! {

broadcast use
    vstd::seq::axiom_seq_index_decreases,
    vstd::seq::axiom_seq_subrange_decreases,
    vstd::std_specs::vec::axiom_vec_index_decreases;

/// Mathematical model of a JSON value. An object is the sequence of its
/// members in source order; duplicate keys are kept as they appear.
pub enum JsonVal {
    Null,
    Bool(bool),
    Num(Seq<char>),
    Str(Seq<char>),
    Arr(Seq<JsonVal>),
    Obj(Seq<(Seq<char>, JsonVal)>),
}

/// A JSON value as carried at run time. A number holds its literal text
/// (for example `-12.5e3`), never a converted binary form.
#[derive(Debug, PartialEq, Eq)]
pub enum JsonValue {
    Null,
    Bool(bool),
    Num(String),
    Str(String),
    Arr(Vec<JsonValue>),
    Obj(Vec<(String, JsonValue)>),
}

/// The model of one runtime value.
pub open spec fn jval_view(v: JsonValue) -> JsonVal
    decreases v, 1int,
    via jval_view_dec
{
    match v {
        JsonValue::Null => JsonVal::Null,
        JsonValue::Bool(b) => JsonVal::Bool(b),
        JsonValue::Num(s) => JsonVal::Num(s@),
        JsonValue::Str(s) => JsonVal::Str(s@),
        JsonValue::Arr(items) => JsonVal::Arr(views_of(items@)),
        JsonValue::Obj(members) => JsonVal::Obj(member_views_of(members@)),
    }
}

#[via_fn]
proof fn jval_view_dec(v: JsonValue) {
    broadcast use vstd::std_specs::vec::axiom_vec_decreases_to_view;
    match v {
        JsonValue::Arr(items) => {
            assert(decreases_to!(v => items));
            assert(decreases_to!(items => items@));
        },
        JsonValue::Obj(members) => {
            assert(decreases_to!(v => members));
            assert(decreases_to!(members => members@));
        },
        _ => {},
    }
}

/// The models of a sequence of runtime values.
pub open spec fn views_of(items: Seq<JsonValue>) -> Seq<JsonVal>
    decreases items, 0int,
{
    if items.len() == 0 {
        Seq::empty()
    } else {
        seq![jval_view(items[0])] + views_of(items.drop_first())
    }
}

/// The models of a sequence of runtime object members.
pub open spec fn member_views_of(members: Seq<(String, JsonValue)>) -> Seq<(Seq<char>, JsonVal)>
    decreases members, 0int,
{
    if members.len() == 0 {
        Seq::empty()
    } else {
        seq![(members[0].0@, jval_view(members[0].1))] + member_views_of(members.drop_first())
    }
}

impl View for JsonValue {
    type V = JsonVal;

    open spec fn view(&self) -> JsonVal {
        jval_view(*self)
    }
}

/// Pointwise reading of `views_of`.
pub proof fn lemma_views_of(items: Seq<JsonValue>)
    ensures
        views_of(items).len() == items.len(),
        forall|i: int| 0 <= i < items.len() ==> views_of(items)[i] == jval_view(#[trigger] items[i]),
    decreases items.len(),
{
    if items.len() > 0 {
        lemma_views_of(items.drop_first());
        assert forall|i: int| 0 <= i < items.len() implies views_of(items)[i]
            == jval_view(#[trigger] items[i]) by {
            if i > 0 {
                assert(items.drop_first()[i - 1] == items[i]);
                assert(views_of(items)[i] == views_of(items.drop_first())[i - 1]);
            }
        }
    }
}

/// Pointwise reading of `member_views_of`.
pub proof fn lemma_member_views_of(members: Seq<(String, JsonValue)>)
    ensures
        member_views_of(members).len() == members.len(),
        forall|i: int| 0 <= i < members.len() ==> member_views_of(members)[i]
            == ((#[trigger] members[i]).0@, jval_view(members[i].1)),
    decreases members.len(),
{
    if members.len() > 0 {
        lemma_member_views_of(members.drop_first());
        assert forall|i: int| 0 <= i < members.len() implies member_views_of(members)[i]
            == ((#[trigger] members[i]).0@, jval_view(members[i].1)) by {
            if i > 0 {
                assert(members.drop_first()[i - 1] == members[i]);
                assert(member_views_of(members)[i] == member_views_of(members.drop_first())[i - 1]);
            }
        }
    }
}

// ---------------------------------------------------------------------------
// Serialization
// ---------------------------------------------------------------------------

/// The lower-case hexadecimal digit for a value below sixteen.
pub open spec fn hex_digit(n: int) -> char {
    if n == 0 { '0' }
    else if n == 1 { '1' }
    else if n == 2 { '2' }
    else if n == 3 { '3' }
    else if n == 4 { '4' }
    else if n == 5 { '5' }
    else if n == 6 { '6' }
    else if n == 7 { '7' }
    else if n == 8 { '8' }
    else if n == 9 { '9' }
    else if n == 10 { 'a' }
    else if n == 11 { 'b' }
    else if n == 12 { 'c' }
    else if n == 13 { 'd' }
    else if n == 14 { 'e' }
    else { 'f' }
}

/// How one character of string content is written: quotes and backslashes get
/// a two-character escape, control characters a `\u00XX` escape, and every
/// other character stands for itself.
pub open spec fn esc_seq(c: char) -> Seq<char> {
    if c == '"' {
        seq!['\\', '"']
    } else if c == '\\' {
        seq!['\\', '\\']
    } else if (c as u32) < 32 {
        seq!['\\', 'u', '0', '0', hex_digit((c as u32) as int / 16), hex_digit((c as u32) as int % 16)]
    } else {
        seq![c]
    }
}

/// The escaped form of a whole string body (without the surrounding quotes).
pub open spec fn ser_str_body(s: Seq<char>) -> Seq<char>
    decreases s.len(),
{
    if s.len() == 0 {
        Seq::empty()
    } else {
        esc_seq(s[0]) + ser_str_body(s.drop_first())
    }
}

/// Compact JSON text of a value: no added whitespace, members and elements in
/// order, numbers rendered as their stored literal.
pub open spec fn ser(j: JsonVal) -> Seq<char>
    decreases j, 1int,
{
    match j {
        JsonVal::Null => seq!['n', 'u', 'l', 'l'],
        JsonVal::Bool(b) => if b {
            seq!['t', 'r', 'u', 'e']
        } else {
            seq!['f', 'a', 'l', 's', 'e']
        },
        JsonVal::Num(s) => s,
        JsonVal::Str(s) => seq!['"'] + ser_str_body(s) + seq!['"'],
        JsonVal::Arr(items) => seq!['['] + ser_items(items) + seq![']'],
        JsonVal::Obj(members) => seq!['{'] + ser_members(members) + seq!['}'],
    }
}

/// The comma-separated elements of an array.
pub open spec fn ser_items(items: Seq<JsonVal>) -> Seq<char>
    decreases items, 0int,
{
    if items.len() == 0 {
        Seq::empty()
    } else if items.len() == 1 {
        ser(items[0])
    } else {
        ser(items[0]) + seq![','] + ser_items(items.drop_first())
    }
}

/// One `"key":value` member.
pub open spec fn ser_member(m: (Seq<char>, JsonVal)) -> Seq<char>
    decreases m, 1int,
{
    seq!['"'] + ser_str_body(m.0) + seq!['"', ':'] + ser(m.1)
}

/// The comma-separated members of an object.
pub open spec fn ser_members(members: Seq<(Seq<char>, JsonVal)>) -> Seq<char>
    decreases members, 0int,
{
    if members.len() == 0 {
        Seq::empty()
    } else if members.len() == 1 {
        ser_member(members[0])
    } else {
        ser_member(members[0]) + seq![','] + ser_members(members.drop_first())
    }
}

// ---------------------------------------------------------------------------
// Number lexemes and well-formedness
// ---------------------------------------------------------------------------

pub open spec fn is_digit(c: char) -> bool {
    ('0' as u32) <= (c as u32) && (c as u32) <= ('9' as u32)
}

/// Length of the run of decimal digits starting at `i`.
pub open spec fn digits_len(s: Seq<char>, i: int) -> int
    decreases s.len() - i,
{
    if 0 <= i < s.len() && is_digit(s[i]) {
        1 + digits_len(s, i + 1)
    } else {
        0
    }
}

/// Whether `s` is a JSON number literal: an optional minus sign, an integer
/// part without a superfluous leading zero, an optional fraction, and an
/// optional exponent.
pub open spec fn is_num_lexeme(s: Seq<char>) -> bool {
    let i0: int = if s.len() > 0 && s[0] == '-' { 1 } else { 0 };
    let d = digits_len(s, i0);
    if d == 0 {
        false
    } else if s[i0] == '0' && d != 1 {
        false
    } else {
        let i1 = i0 + d;
        let i2: int = if i1 < s.len() && s[i1] == '.' {
            let f = digits_len(s, i1 + 1);
            if f == 0 { -1 } else { i1 + 1 + f }
        } else {
            i1
        };
        if i2 < 0 {
            false
        } else {
            let i3: int = if i2 < s.len() && (s[i2] == 'e' || s[i2] == 'E') {
                let istart: int = if i2 + 2 < s.len() + 1 && (s[i2 + 1] == '+' || s[i2 + 1] == '-') {
                    i2 + 2
                } else {
                    i2 + 1
                };
                let g = digits_len(s, istart);
                if g == 0 { -1 } else { istart + g }
            } else {
                i2
            };
            i3 == s.len()
        }
    }
}

/// The characters a number literal may consist of.
pub open spec fn is_num_char(c: char) -> bool {
    is_digit(c) || c == '-' || c == '+' || c == '.' || c == 'e' || c == 'E'
}

/// A well-formed document: every number holds a valid literal. Such a value
/// renders as parseable JSON text.
pub open spec fn wf_json(j: JsonVal) -> bool
    decreases j, 1int,
{
    match j {
        JsonVal::Null => true,
        JsonVal::Bool(_) => true,
        JsonVal::Num(s) => is_num_lexeme(s),
        JsonVal::Str(_) => true,
        JsonVal::Arr(items) => wf_items(items),
        JsonVal::Obj(members) => wf_members(members),
    }
}

pub open spec fn wf_items(items: Seq<JsonVal>) -> bool
    decreases items, 0int,
{
    if items.len() == 0 {
        true
    } else {
        wf_json(items[0]) && wf_items(items.drop_first())
    }
}

pub open spec fn wf_members(members: Seq<(Seq<char>, JsonVal)>) -> bool
    decreases members, 0int,
{
    if members.len() == 0 {
        true
    } else {
        wf_json(members[0].1) && wf_members(members.drop_first())
    }
}

// ---------------------------------------------------------------------------
// Rendering (executable serializer)
// ---------------------------------------------------------------------------

proof fn lemma_ser_str_body_snoc(a: Seq<char>, c: char)
    ensures
        ser_str_body(a.push(c)) == ser_str_body(a) + esc_seq(c),
    decreases a.len(),
{
    if a.len() == 0 {
        assert(a.push(c).drop_first() =~= Seq::<char>::empty());
        assert(a.push(c)[0] == c);
        assert(ser_str_body(Seq::<char>::empty()) == Seq::<char>::empty());
        assert(ser_str_body(a.push(c)) == esc_seq(c) + Seq::<char>::empty());
        assert(ser_str_body(a.push(c)) =~= ser_str_body(a) + esc_seq(c));
    } else {
        assert(a.push(c).drop_first() =~= a.drop_first().push(c));
        assert(a.push(c)[0] == a[0]);
        lemma_ser_str_body_snoc(a.drop_first(), c);
        assert(ser_str_body(a.push(c))
            == esc_seq(a[0]) + (ser_str_body(a.drop_first()) + esc_seq(c)));
        assert(esc_seq(a[0]) + (ser_str_body(a.drop_first()) + esc_seq(c))
            =~= (esc_seq(a[0]) + ser_str_body(a.drop_first())) + esc_seq(c));
        assert(ser_str_body(a.push(c)) =~= ser_str_body(a) + esc_seq(c));
    }
}

proof fn lemma_ser_items_snoc(s: Seq<JsonVal>, v: JsonVal)
    ensures
        ser_items(s.push(v)) == if s.len() == 0 {
            ser(v)
        } else {
            (ser_items(s) + seq![','] + ser(v))
        },
    decreases s.len(),
{
    if s.len() == 0 {
        assert(s.push(v)[0] == v);
        assert(ser_items(s.push(v)) == ser(v));
    } else {
        assert(s.push(v).drop_first() =~= s.drop_first().push(v));
        lemma_ser_items_snoc(s.drop_first(), v);
        assert(ser_items(s.push(v)) =~= ser_items(s) + seq![','] + ser(v));
    }
}

proof fn lemma_ser_members_snoc(s: Seq<(Seq<char>, JsonVal)>, m: (Seq<char>, JsonVal))
    ensures
        ser_members(s.push(m)) == if s.len() == 0 {
            ser_member(m)
        } else {
            (ser_members(s) + seq![','] + ser_member(m))
        },
    decreases s.len(),
{
    if s.len() == 0 {
        assert(s.push(m)[0] == m);
        assert(ser_members(s.push(m)) == ser_member(m));
    } else {
        assert(s.push(m).drop_first() =~= s.drop_first().push(m));
        lemma_ser_members_snoc(s.drop_first(), m);
        assert(ser_members(s.push(m)) =~= ser_members(s) + seq![','] + ser_member(m));
    }
}

proof fn lemma_views_of_snoc(s: Seq<JsonValue>, v: JsonValue)
    ensures
        views_of(s.push(v)) == views_of(s).push(jval_view(v)),
{
    lemma_views_of(s.push(v));
    lemma_views_of(s);
    assert forall|i: int| 0 <= i < s.len() + 1 implies views_of(s.push(v))[i]
        == views_of(s).push(jval_view(v))[i] by {
        assert(views_of(s.push(v))[i] == jval_view(s.push(v)[i]));
        if i < s.len() {
            assert(s.push(v)[i] == s[i]);
            assert(views_of(s)[i] == jval_view(s[i]));
        } else {
            assert(s.push(v)[i] == v);
        }
    }
    assert(views_of(s.push(v)) =~= views_of(s).push(jval_view(v)));
}

proof fn lemma_member_views_of_snoc(s: Seq<(String, JsonValue)>, m: (String, JsonValue))
    ensures
        member_views_of(s.push(m)) == member_views_of(s).push((m.0@, jval_view(m.1))),
{
    lemma_member_views_of(s.push(m));
    lemma_member_views_of(s);
    assert forall|i: int| 0 <= i < s.len() + 1 implies member_views_of(s.push(m))[i]
        == member_views_of(s).push((m.0@, jval_view(m.1)))[i] by {
        assert(member_views_of(s.push(m))[i] == (s.push(m)[i].0@, jval_view(s.push(m)[i].1)));
        if i < s.len() {
            assert(s.push(m)[i] == s[i]);
            assert(member_views_of(s)[i] == (s[i].0@, jval_view(s[i].1)));
        } else {
            assert(s.push(m)[i] == m);
        }
    }
    assert(member_views_of(s.push(m)) =~= member_views_of(s).push((m.0@, jval_view(m.1))));
}

/// The lower-case hexadecimal digit character for a value below sixteen.
fn hex_digit_char(n: u32) -> (c: char)
    requires
        n < 16,
    ensures
        c == hex_digit(n as int),
{
    if n == 0 { '0' }
    else if n == 1 { '1' }
    else if n == 2 { '2' }
    else if n == 3 { '3' }
    else if n == 4 { '4' }
    else if n == 5 { '5' }
    else if n == 6 { '6' }
    else if n == 7 { '7' }
    else if n == 8 { '8' }
    else if n == 9 { '9' }
    else if n == 10 { 'a' }
    else if n == 11 { 'b' }
    else if n == 12 { 'c' }
    else if n == 13 { 'd' }
    else if n == 14 { 'e' }
    else { 'f' }
}

/// Appends `"` + escaped body + `"` for the given string content.
fn write_string(s: &str, out: &mut String)
    ensures
        final(out)@ == old(out)@ + seq!['"'] + ser_str_body(s@) + seq!['"'],
{
    push_char(out, '"');
    let n = s.unicode_len();
    let mut k: usize = 0;
    while k < n
        invariant
            n == s@.len(),
            k <= n,
            out@ == old(out)@ + seq!['"'] + ser_str_body(s@.subrange(0, k as int)),
        decreases n - k,
    {
        let c = s.get_char(k);
        if c == '"' {
            proof {
                reveal_strlit("\\\"");
            }
            out.append("\\\"");
        } else if c == '\\' {
            proof {
                reveal_strlit("\\\\");
            }
            out.append("\\\\");
        } else if (c as u32) < 32 {
            proof {
                reveal_strlit("\\u00");
            }
            out.append("\\u00");
            let code = c as u32;
            push_char(out, hex_digit_char(code / 16));
            push_char(out, hex_digit_char(code % 16));
        } else {
            push_char(out, c);
        }
        proof {
            lemma_ser_str_body_snoc(s@.subrange(0, k as int), s@[k as int]);
            assert(s@.subrange(0, k as int + 1) =~= s@.subrange(0, k as int).push(s@[k as int]));
            assert(out@ == old(out)@ + seq!['"'] + ser_str_body(s@.subrange(0, k as int + 1)));
        }
        k += 1;
    }
    proof {
        assert(s@.subrange(0, n as int) =~= s@);
    }
    push_char(out, '"');
}

/// Appends the compact JSON text of `j`, exactly `ser` of its model.
pub fn render_into(j: &JsonValue, out: &mut String)
    ensures
        final(out)@ == old(out)@ + ser(j@),
    decreases *j,
{
    match j {
        JsonValue::Null => {
            proof {
                reveal_strlit("null");
                assert("null"@ =~= seq!['n', 'u', 'l', 'l']);
            }
            out.append("null");
        },
        JsonValue::Bool(b) => {
            if *b {
                proof {
                    reveal_strlit("true");
                    assert("true"@ =~= seq!['t', 'r', 'u', 'e']);
                }
                out.append("true");
            } else {
                proof {
                    reveal_strlit("false");
                    assert("false"@ =~= seq!['f', 'a', 'l', 's', 'e']);
                }
                out.append("false");
            }
        },
        JsonValue::Num(s) => {
            out.append(s.as_str());
        },
        JsonValue::Str(s) => {
            write_string(s.as_str(), out);
            proof {
                assert(old(out)@ + seq!['"'] + ser_str_body(s@) + seq!['"']
                    =~= old(out)@ + ser(j@));
            }
        },
        JsonValue::Arr(items) => {
            push_char(out, '[');
            let n = items.len();
            let mut k: usize = 0;
            while k < n
                invariant
                    n == items@.len(),
                    k <= n,
                    out@ == old(out)@ + seq!['['] + ser_items(views_of(items@.subrange(0, k as int))),
                    decreases_to!(*j => items@),
                decreases n - k,
            {
                if k > 0 {
                    push_char(out, ',');
                }
                proof {
                    assert(decreases_to!(items@ => items@[k as int]));
                }
                render_into(&items[k], out);
                proof {
                    lemma_views_of_snoc(items@.subrange(0, k as int), items@[k as int]);
                    lemma_ser_items_snoc(
                        views_of(items@.subrange(0, k as int)),
                        jval_view(items@[k as int]),
                    );
                    lemma_views_of(items@.subrange(0, k as int));
                    assert(items@.subrange(0, k as int + 1)
                        =~= items@.subrange(0, k as int).push(items@[k as int]));
                    assert(out@ == old(out)@ + seq!['[']
                        + ser_items(views_of(items@.subrange(0, k as int + 1))));
                }
                k += 1;
            }
            proof {
                assert(items@.subrange(0, n as int) =~= items@);
            }
            push_char(out, ']');
            proof {
                assert(old(out)@ + seq!['['] + ser_items(views_of(items@)) + seq![']']
                    =~= old(out)@ + ser(j@));
            }
        },
        JsonValue::Obj(members) => {
            push_char(out, '{');
            let n = members.len();
            let mut k: usize = 0;
            while k < n
                invariant
                    n == members@.len(),
                    k <= n,
                    out@ == old(out)@ + seq!['{']
                        + ser_members(member_views_of(members@.subrange(0, k as int))),
                    decreases_to!(*j => members@),
                decreases n - k,
            {
                if k > 0 {
                    push_char(out, ',');
                }
                write_string(members[k].0.as_str(), out);
                push_char(out, ':');
                proof {
                    assert(decreases_to!(members@ => members@[k as int]));
                }
                render_into(&members[k].1, out);
                proof {
                    lemma_member_views_of_snoc(members@.subrange(0, k as int), members@[k as int]);
                    lemma_ser_members_snoc(
                        member_views_of(members@.subrange(0, k as int)),
                        (members@[k as int].0@, jval_view(members@[k as int].1)),
                    );
                    assert(members@.subrange(0, k as int + 1)
                        =~= members@.subrange(0, k as int).push(members@[k as int]));
                    assert(ser_member((members@[k as int].0@, jval_view(members@[k as int].1)))
                        =~= seq!['"'] + ser_str_body(members@[k as int].0@) + seq!['"', ':']
                        + ser(jval_view(members@[k as int].1)));
                    assert(out@ == old(out)@ + seq!['{']
                        + ser_members(member_views_of(members@.subrange(0, k as int + 1))));
                }
                k += 1;
            }
            proof {
                assert(members@.subrange(0, n as int) =~= members@);
            }
            push_char(out, '}');
            proof {
                assert(old(out)@ + seq!['{'] + ser_members(member_views_of(members@)) + seq!['}']
                    =~= old(out)@ + ser(j@));
            }
        },
    }
}

/// The compact JSON text of a value.
pub fn render(j: &JsonValue) -> (r: String)
    ensures
        r@ == ser(j@),
{
    let mut out = String::new();
    render_into(j, &mut out);
    out
}

// ---------------------------------------------------------------------------
// The parser's specification
// ---------------------------------------------------------------------------

pub open spec fn is_ws(c: char) -> bool {
    c == ' ' || c == '\t' || c == '\n' || c == '\r'
}

/// Length of the run of whitespace starting at `i`.
pub open spec fn ws_len(s: Seq<char>, i: int) -> nat
    decreases s.len() - i,
{
    if 0 <= i < s.len() && is_ws(s[i]) {
        1 + ws_len(s, i + 1)
    } else {
        0
    }
}

/// Length of the run of number-literal characters starting at `i`.
pub open spec fn num_scan_len(s: Seq<char>, i: int) -> nat
    decreases s.len() - i,
{
    if 0 <= i < s.len() && is_num_char(s[i]) {
        1 + num_scan_len(s, i + 1)
    } else {
        0
    }
}

/// Whether the literal `lit` occurs in `s` at position `i`.
pub open spec fn lit_at(s: Seq<char>, i: int, lit: Seq<char>) -> bool {
    0 <= i && i + lit.len() <= s.len() && s.subrange(i, i + lit.len()) == lit
}

pub open spec fn is_hex(c: char) -> bool {
    is_digit(c)
    || (('a' as u32) <= (c as u32) && (c as u32) <= ('f' as u32))
    || (('A' as u32) <= (c as u32) && (c as u32) <= ('F' as u32))
}

/// Numeric value of a hexadecimal digit.
pub open spec fn hex_val(c: char) -> int {
    if is_digit(c) {
        c as u32 - '0' as u32
    } else if ('a' as u32) <= (c as u32) && (c as u32) <= ('f' as u32) {
        c as u32 - 'a' as u32 + 10
    } else {
        c as u32 - 'A' as u32 + 10
    }
}

/// The unicode scalar with the given code.
pub open spec fn char_of(code: u32) -> char {
    choose|c: char| (#[trigger] (c as u32)) == code
}

/// A code a `\uXXXX` escape may denote: the basic plane without surrogates.
pub open spec fn valid_scalar(code: int) -> bool {
    (0 <= code && code < 0xD800) || (0xE000 <= code && code <= 0xFFFF)
}

/// The character denoted by a two-character escape, if the second character
/// is one of the eight simple escapes.
pub open spec fn simple_esc(e: char) -> Option<char> {
    if e == '"' { Some('"') }
    else if e == '\\' { Some('\\') }
    else if e == '/' { Some('/') }
    else if e == 'b' { Some('\u{0008}') }
    else if e == 'f' { Some('\u{000C}') }
    else if e == 'n' { Some('\n') }
    else if e == 'r' { Some('\r') }
    else if e == 't' { Some('\t') }
    else { None }
}

/// Parses string content from `i` up to (not including) the closing quote.
/// Returns the decoded content and the count of source characters consumed.
/// Unescaped control characters, bad escapes, and an unterminated string
/// give `None`.
pub open spec fn sp_str_body(s: Seq<char>, i: int) -> Option<(Seq<char>, nat)>
    decreases s.len() - i,
{
    if !(0 <= i && i < s.len()) {
        None
    } else if s[i] == '"' {
        Some((Seq::empty(), 0))
    } else if s[i] == '\\' {
        if i + 1 < s.len() {
            let e = s[i + 1];
            if simple_esc(e) is Some {
                match sp_str_body(s, i + 2) {
                    None => None,
                    Some((rest, n)) => Some((seq![simple_esc(e)->Some_0] + rest, (2 + n) as nat)),
                }
            } else if e == 'u' {
                if i + 6 <= s.len() && is_hex(s[i + 2]) && is_hex(s[i + 3]) && is_hex(s[i + 4])
                    && is_hex(s[i + 5]) {
                    let code = hex_val(s[i + 2]) * 4096 + hex_val(s[i + 3]) * 256
                        + hex_val(s[i + 4]) * 16 + hex_val(s[i + 5]);
                    if valid_scalar(code) {
                        match sp_str_body(s, i + 6) {
                            None => None,
                            Some((rest, n)) => Some(
                                (seq![char_of(code as u32)] + rest, (6 + n) as nat),
                            ),
                        }
                    } else {
                        None
                    }
                } else {
                    None
                }
            } else {
                None
            }
        } else {
            None
        }
    } else if (s[i] as u32) >= 32 {
        match sp_str_body(s, i + 1) {
            None => None,
            Some((rest, n)) => Some((seq![s[i]] + rest, (1 + n) as nat)),
        }
    } else {
        None
    }
}

/// Parses one JSON value at `i`, allowing leading whitespace. Returns the
/// value and the count of characters consumed, or `None` when no value can
/// be read there.
pub open spec fn sp_value(s: Seq<char>, i: int) -> Option<(JsonVal, nat)>
    decreases s.len() - i, 3int,
{
    if !(0 <= i) {
        None
    } else {
        let w = ws_len(s, i);
        let k = i + w;
        if !(k < s.len()) {
            None
        } else {
            let c = s[k];
            if c == 'n' {
                if lit_at(s, k, seq!['n', 'u', 'l', 'l']) {
                    Some((JsonVal::Null, (w + 4) as nat))
                } else {
                    None
                }
            } else if c == 't' {
                if lit_at(s, k, seq!['t', 'r', 'u', 'e']) {
                    Some((JsonVal::Bool(true), (w + 4) as nat))
                } else {
                    None
                }
            } else if c == 'f' {
                if lit_at(s, k, seq!['f', 'a', 'l', 's', 'e']) {
                    Some((JsonVal::Bool(false), (w + 5) as nat))
                } else {
                    None
                }
            } else if c == '"' {
                match sp_str_body(s, k + 1) {
                    None => None,
                    Some((content, n)) => Some((JsonVal::Str(content), (w + n + 2) as nat)),
                }
            } else if c == '[' {
                let w2 = ws_len(s, k + 1);
                if k + 1 + w2 < s.len() && s[k + 1 + w2] == ']' {
                    Some((JsonVal::Arr(Seq::empty()), (w + 1 + w2 + 1) as nat))
                } else {
                    match sp_arr_tail(s, k + 1) {
                        None => None,
                        Some((items, n)) => Some((JsonVal::Arr(items), (w + 1 + n) as nat)),
                    }
                }
            } else if c == '{' {
                let w2 = ws_len(s, k + 1);
                if k + 1 + w2 < s.len() && s[k + 1 + w2] == '}' {
                    Some((JsonVal::Obj(Seq::empty()), (w + 1 + w2 + 1) as nat))
                } else {
                    match sp_obj_tail(s, k + 1) {
                        None => None,
                        Some((members, n)) => Some((JsonVal::Obj(members), (w + 1 + n) as nat)),
                    }
                }
            } else if c == '-' || is_digit(c) {
                let m = num_scan_len(s, k);
                let lex = s.subrange(k, k + m);
                if is_num_lexeme(lex) {
                    Some((JsonVal::Num(lex), (w + m) as nat))
                } else {
                    None
                }
            } else {
                None
            }
        }
    }
}

/// Parses the elements of a non-empty array from just after the `[` through
/// the closing `]`.
pub open spec fn sp_arr_tail(s: Seq<char>, i: int) -> Option<(Seq<JsonVal>, nat)>
    decreases s.len() - i, 4int,
{
    if !(0 <= i && i <= s.len()) {
        None
    } else {
        match sp_value(s, i) {
            None => None,
            Some((v, n)) => {
                let j = i + n;
                let w = ws_len(s, j);
                let k = j + w;
                if k < s.len() && s[k] == ',' {
                    match sp_arr_tail(s, k + 1) {
                        None => None,
                        Some((rest, m)) => Some((seq![v] + rest, (n + w + 1 + m) as nat)),
                    }
                } else if k < s.len() && s[k] == ']' {
                    Some((seq![v], (n + w + 1) as nat))
                } else {
                    None
                }
            },
        }
    }
}

/// Parses the members of a non-empty object from just after the `{` through
/// the closing `}`.
pub open spec fn sp_obj_tail(s: Seq<char>, i: int) -> Option<(Seq<(Seq<char>, JsonVal)>, nat)>
    decreases s.len() - i, 4int,
{
    if !(0 <= i && i <= s.len()) {
        None
    } else {
        let w = ws_len(s, i);
        let k = i + w;
        if k < s.len() && s[k] == '"' {
            match sp_str_body(s, k + 1) {
                None => None,
                Some((key, n)) => {
                    let j = k + 1 + n + 1;
                    let w2 = ws_len(s, j);
                    let k2 = j + w2;
                    if k2 < s.len() && s[k2] == ':' {
                        match sp_value(s, k2 + 1) {
                            None => None,
                            Some((v, m)) => {
                                let j2 = k2 + 1 + m;
                                let w3 = ws_len(s, j2);
                                let k3 = j2 + w3;
                                if k3 < s.len() && s[k3] == ',' {
                                    match sp_obj_tail(s, k3 + 1) {
                                        None => None,
                                        Some((rest, q)) => Some(
                                            (seq![(key, v)] + rest, (k3 + 1 - i + q) as nat),
                                        ),
                                    }
                                } else if k3 < s.len() && s[k3] == '}' {
                                    Some((seq![(key, v)], (k3 + 1 - i) as nat))
                                } else {
                                    None
                                }
                            },
                        }
                    } else {
                        None
                    }
                },
            }
        } else {
            None
        }
    }
}

/// Parses a whole document: one value with whitespace around it, consuming
/// the entire text.
pub open spec fn sp_json(s: Seq<char>) -> Option<JsonVal> {
    match sp_value(s, 0) {
        None => None,
        Some((v, n)) => {
            if n + ws_len(s, n as int) == s.len() {
                Some(v)
            } else {
                None
            }
        },
    }
}

// ---------------------------------------------------------------------------
// The executable parser
// ---------------------------------------------------------------------------

fn is_ws_c(c: char) -> (r: bool)
    ensures
        r == is_ws(c),
{
    c == ' ' || c == '\t' || c == '\n' || c == '\r'
}

fn is_digit_c(c: char) -> (r: bool)
    ensures
        r == is_digit(c),
{
    let u = c as u32;
    ('0' as u32) <= u && u <= ('9' as u32)
}

fn is_num_char_c(c: char) -> (r: bool)
    ensures
        r == is_num_char(c),
{
    is_digit_c(c) || c == '-' || c == '+' || c == '.' || c == 'e' || c == 'E'
}

fn is_hex_c(c: char) -> (r: bool)
    ensures
        r == is_hex(c),
{
    let u = c as u32;
    is_digit_c(c) || (('a' as u32) <= u && u <= ('f' as u32)) || (('A' as u32) <= u && u <= ('F' as u32))
}

fn hex_val_c(c: char) -> (r: u32)
    requires
        is_hex(c),
    ensures
        r as int == hex_val(c),
        r < 16,
{
    let u = c as u32;
    if ('0' as u32) <= u && u <= ('9' as u32) {
        u - ('0' as u32)
    } else if ('a' as u32) <= u && u <= ('f' as u32) {
        u - ('a' as u32) + 10
    } else {
        u - ('A' as u32) + 10
    }
}

fn simple_esc_c(e: char) -> (r: Option<char>)
    ensures
        r == simple_esc(e),
{
    if e == '"' { Some('"') }
    else if e == '\\' { Some('\\') }
    else if e == '/' { Some('/') }
    else if e == 'b' { Some('\u{0008}') }
    else if e == 'f' { Some('\u{000C}') }
    else if e == 'n' { Some('\n') }
    else if e == 'r' { Some('\r') }
    else if e == 't' { Some('\t') }
    else { None }
}

/// Relies on char::from_u32: a code below the surrogate range, or above it and
/// at most 0x10FFFF, is the code of exactly one character.
#[verifier::external_body]
fn char_from_code(code: u32) -> (c: char)
    requires
        code < 0xD800 || (0xE000 <= code && code <= 0x10FFFF),
    ensures
        c as u32 == code,
{
    char::from_u32(code).unwrap_or(' ')
}

fn ws_scan(s: &str, i: usize) -> (r: usize)
    requires
        i <= s@.len(),
    ensures
        r == ws_len(s@, i as int),
        i + r <= s@.len(),
    decreases s@.len() - i,
{
    let n = s.unicode_len();
    if i < n {
        let c = s.get_char(i);
        if is_ws_c(c) {
            let rest = ws_scan(s, i + 1);
            return 1 + rest;
        }
    }
    0
}

fn num_scan(s: &str, i: usize) -> (r: usize)
    requires
        i <= s@.len(),
    ensures
        r == num_scan_len(s@, i as int),
        i + r <= s@.len(),
    decreases s@.len() - i,
{
    let n = s.unicode_len();
    if i < n {
        let c = s.get_char(i);
        if is_num_char_c(c) {
            let rest = num_scan(s, i + 1);
            return 1 + rest;
        }
    }
    0
}

fn digit_scan(s: &str, i: usize) -> (r: usize)
    requires
        i <= s@.len(),
    ensures
        r == digits_len(s@, i as int),
        i + r <= s@.len(),
    decreases s@.len() - i,
{
    let n = s.unicode_len();
    if i < n {
        let c = s.get_char(i);
        if is_digit_c(c) {
            let rest = digit_scan(s, i + 1);
            return 1 + rest;
        }
    }
    0
}

/// Whether `s` as a whole is a JSON number literal.
fn check_num_lexeme(s: &str) -> (r: bool)
    ensures
        r == is_num_lexeme(s@),
{
    let n = s.unicode_len();
    let i0: usize = if n > 0 && s.get_char(0) == '-' { 1 } else { 0 };
    let d = digit_scan(s, i0);
    if d == 0 {
        return false;
    }
    proof {
        assert(i0 < s@.len() && is_digit(s@[i0 as int]));
    }
    if s.get_char(i0) == '0' && d != 1 {
        return false;
    }
    let i1 = i0 + d;
    let i2: usize = if i1 < n && s.get_char(i1) == '.' {
        let f = digit_scan(s, i1 + 1);
        if f == 0 {
            return false;
        }
        i1 + 1 + f
    } else {
        i1
    };
    let i3: usize = if i2 < n && (s.get_char(i2) == 'e' || s.get_char(i2) == 'E') {
        let istart: usize = if i2 + 1 < n && (s.get_char(i2 + 1) == '+' || s.get_char(i2 + 1) == '-') {
            i2 + 2
        } else {
            i2 + 1
        };
        if istart > n {
            return false;
        }
        let g = digit_scan(s, istart);
        if g == 0 {
            return false;
        }
        istart + g
    } else {
        i2
    };
    i3 == n
}

/// Parses string content from `i` up to the closing quote, decoding escapes.
fn parse_str_body(s: &str, i: usize) -> (r: Option<(String, usize)>)
    requires
        i <= s@.len(),
    ensures
        match r {
            Some(p) => {
                &&& sp_str_body(s@, i as int) == Some((p.0@, p.1 as nat))
                &&& i + p.1 < s@.len()
                &&& s@[i as int + p.1 as int] == '"'
            },
            None => sp_str_body(s@, i as int) is None,
        },
{
    let n = s.unicode_len();
    let mut acc = String::new();
    let mut cur = i;
    loop
        invariant
            i <= cur <= n,
            n == s@.len(),
            sp_str_body(s@, i as int) == (match sp_str_body(s@, cur as int) {
                Some((rest, m)) => Some((acc@ + rest, ((cur - i) + m) as nat)),
                None => None::<(Seq<char>, nat)>,
            }),
        decreases n - cur,
    {
        if cur >= n {
            return None;
        }
        let c = s.get_char(cur);
        if c == '"' {
            proof {
                assert(sp_str_body(s@, cur as int) == Some((Seq::<char>::empty(), 0nat)));
                assert(acc@ + Seq::<char>::empty() =~= acc@);
            }
            return Some((acc, cur - i));
        } else if c == '\\' {
            if cur + 1 >= n {
                return None;
            }
            let e = s.get_char(cur + 1);
            let ghost acc0 = acc@;
            let ghost prev = cur as int;
            match simple_esc_c(e) {
                Some(d) => {
                    push_char(&mut acc, d);
                    cur = cur + 2;
                    proof {
                        if sp_str_body(s@, cur as int) is Some {
                            let pair = sp_str_body(s@, cur as int)->Some_0;
                            assert(sp_str_body(s@, prev)
                                == Some((seq![d] + pair.0, (2 + pair.1) as nat)));
                            assert(acc0 + (seq![d] + pair.0) =~= acc@ + pair.0);
                        } else {
                            assert(sp_str_body(s@, prev) is None);
                        }
                    }
                },
                None => {
                    if e != 'u' {
                        return None;
                    }
                    if n - (cur + 2) < 4 {
                        return None;
                    }
                    let h0 = s.get_char(cur + 2);
                    let h1 = s.get_char(cur + 3);
                    let h2 = s.get_char(cur + 4);
                    let h3 = s.get_char(cur + 5);
                    if !(is_hex_c(h0) && is_hex_c(h1) && is_hex_c(h2) && is_hex_c(h3)) {
                        return None;
                    }
                    let code = hex_val_c(h0) * 4096 + hex_val_c(h1) * 256 + hex_val_c(h2) * 16
                        + hex_val_c(h3);
                    if !(code < 0xD800 || 0xE000 <= code) {
                        return None;
                    }
                    let d = char_from_code(code);
                    proof {
                        assert(char_of(code) as u32 == code) by {
                            assert((d as u32) == code);
                        }
                        assert(char_of(code) == d);
                    }
                    push_char(&mut acc, d);
                    cur = cur + 6;
                    proof {
                        if sp_str_body(s@, cur as int) is Some {
                            let pair = sp_str_body(s@, cur as int)->Some_0;
                            assert(sp_str_body(s@, prev)
                                == Some((seq![d] + pair.0, (6 + pair.1) as nat)));
                            assert(acc0 + (seq![d] + pair.0) =~= acc@ + pair.0);
                        } else {
                            assert(sp_str_body(s@, prev) is None);
                        }
                    }
                },
            }
        } else if (c as u32) >= 32 {
            let ghost acc0 = acc@;
            let ghost prev = cur as int;
            push_char(&mut acc, c);
            cur = cur + 1;
            proof {
                if sp_str_body(s@, cur as int) is Some {
                    let pair = sp_str_body(s@, cur as int)->Some_0;
                    assert(sp_str_body(s@, prev) == Some((seq![c] + pair.0, (1 + pair.1) as nat)));
                    assert(acc0 + (seq![c] + pair.0) =~= acc@ + pair.0);
                } else {
                    assert(sp_str_body(s@, prev) is None);
                }
            }
        } else {
            return None;
        }
    }
}

/// Parses one JSON value at `i`, allowing leading whitespace.
fn parse_value(s: &str, i: usize) -> (r: Option<(JsonValue, usize)>)
    requires
        i <= s@.len(),
    ensures
        match r {
            Some(p) => sp_value(s@, i as int) == Some((p.0@, p.1 as nat)) && i + p.1 <= s@.len(),
            None => sp_value(s@, i as int) is None,
        },
    decreases s@.len() - i, 3int,
{
    let n = s.unicode_len();
    let w = ws_scan(s, i);
    let k = i + w;
    if k >= n {
        return None;
    }
    let c = s.get_char(k);
    if c == 'n' {
        if n - k >= 4 && s.get_char(k + 1) == 'u' && s.get_char(k + 2) == 'l'
            && s.get_char(k + 3) == 'l' {
            proof {
                assert(s@.subrange(k as int, k as int + 4) =~= seq!['n', 'u', 'l', 'l']);
            }
            Some((JsonValue::Null, w + 4))
        } else {
            proof {
                if lit_at(s@, k as int, seq!['n', 'u', 'l', 'l']) {
                    assert(s@.subrange(k as int, k as int + 4)[1] == 'u');
                    assert(s@.subrange(k as int, k as int + 4)[2] == 'l');
                    assert(s@.subrange(k as int, k as int + 4)[3] == 'l');
                }
            }
            None
        }
    } else if c == 't' {
        if n - k >= 4 && s.get_char(k + 1) == 'r' && s.get_char(k + 2) == 'u'
            && s.get_char(k + 3) == 'e' {
            proof {
                assert(s@.subrange(k as int, k as int + 4) =~= seq!['t', 'r', 'u', 'e']);
            }
            Some((JsonValue::Bool(true), w + 4))
        } else {
            proof {
                if lit_at(s@, k as int, seq!['t', 'r', 'u', 'e']) {
                    assert(s@.subrange(k as int, k as int + 4)[1] == 'r');
                    assert(s@.subrange(k as int, k as int + 4)[2] == 'u');
                    assert(s@.subrange(k as int, k as int + 4)[3] == 'e');
                }
            }
            None
        }
    } else if c == 'f' {
        if n - k >= 5 && s.get_char(k + 1) == 'a' && s.get_char(k + 2) == 'l'
            && s.get_char(k + 3) == 's' && s.get_char(k + 4) == 'e' {
            proof {
                assert(s@.subrange(k as int, k as int + 5) =~= seq!['f', 'a', 'l', 's', 'e']);
            }
            Some((JsonValue::Bool(false), w + 5))
        } else {
            proof {
                if lit_at(s@, k as int, seq!['f', 'a', 'l', 's', 'e']) {
                    assert(s@.subrange(k as int, k as int + 5)[1] == 'a');
                    assert(s@.subrange(k as int, k as int + 5)[2] == 'l');
                    assert(s@.subrange(k as int, k as int + 5)[3] == 's');
                    assert(s@.subrange(k as int, k as int + 5)[4] == 'e');
                }
            }
            None
        }
    } else if c == '"' {
        match parse_str_body(s, k + 1) {
            None => None,
            Some((content, nn)) => Some((JsonValue::Str(content), w + nn + 2)),
        }
    } else if c == '[' {
        let w2 = ws_scan(s, k + 1);
        let k2 = k + 1 + w2;
        if k2 < n && s.get_char(k2) == ']' {
            let items: Vec<JsonValue> = Vec::new();
            Some((JsonValue::Arr(items), w + 1 + w2 + 1))
        } else {
            match parse_arr_tail(s, k + 1) {
                None => None,
                Some((items, m)) => Some((JsonValue::Arr(items), w + 1 + m)),
            }
        }
    } else if c == '{' {
        let w2 = ws_scan(s, k + 1);
        let k2 = k + 1 + w2;
        if k2 < n && s.get_char(k2) == '}' {
            let members: Vec<(String, JsonValue)> = Vec::new();
            Some((JsonValue::Obj(members), w + 1 + w2 + 1))
        } else {
            match parse_obj_tail(s, k + 1) {
                None => None,
                Some((members, m)) => Some((JsonValue::Obj(members), w + 1 + m)),
            }
        }
    } else if c == '-' || is_digit_c(c) {
        let m = num_scan(s, k);
        let lex = s.substring_char(k, k + m);
        if check_num_lexeme(lex) {
            Some((JsonValue::Num(lex.to_owned()), w + m))
        } else {
            None
        }
    } else {
        None
    }
}

/// Parses the elements of a non-empty array from just after the `[` through
/// the closing `]`.
fn parse_arr_tail(s: &str, i: usize) -> (r: Option<(Vec<JsonValue>, usize)>)
    requires
        i <= s@.len(),
    ensures
        match r {
            Some(p) => sp_arr_tail(s@, i as int) == Some((views_of(p.0@), p.1 as nat))
                && i + p.1 <= s@.len(),
            None => sp_arr_tail(s@, i as int) is None,
        },
    decreases s@.len() - i, 4int,
{
    let n = s.unicode_len();
    match parse_value(s, i) {
        None => None,
        Some((v, nn)) => {
            let j = i + nn;
            let w = ws_scan(s, j);
            let k = j + w;
            if k < n && s.get_char(k) == ',' {
                match parse_arr_tail(s, k + 1) {
                    None => None,
                    Some((mut rest, m)) => {
                        let ghost rest0 = rest@;
                        rest.insert(0, v);
                        proof {
                            assert(rest@ =~= seq![v] + rest0);
                            assert((seq![v] + rest0)[0] == v);
                            assert((seq![v] + rest0).drop_first() =~= rest0);
                            assert(views_of(rest@) == seq![jval_view(v)] + views_of(rest0));
                        }
                        Some((rest, nn + w + 1 + m))
                    },
                }
            } else if k < n && s.get_char(k) == ']' {
                let mut items: Vec<JsonValue> = Vec::new();
                items.push(v);
                proof {
                    assert(items@ =~= seq![v]);
                    assert(items@.drop_first() =~= Seq::<JsonValue>::empty());
                    assert(items@[0] == v);
                    assert(views_of(Seq::<JsonValue>::empty()) =~= Seq::<JsonVal>::empty());
                    assert(views_of(items@) =~= seq![jval_view(v)]);
                }
                Some((items, nn + w + 1))
            } else {
                None
            }
        },
    }
}

/// Parses the members of a non-empty object from just after the `{` through
/// the closing `}`.
fn parse_obj_tail(s: &str, i: usize) -> (r: Option<(Vec<(String, JsonValue)>, usize)>)
    requires
        i <= s@.len(),
    ensures
        match r {
            Some(p) => sp_obj_tail(s@, i as int) == Some((member_views_of(p.0@), p.1 as nat))
                && i + p.1 <= s@.len(),
            None => sp_obj_tail(s@, i as int) is None,
        },
    decreases s@.len() - i, 4int,
{
    let n = s.unicode_len();
    let w = ws_scan(s, i);
    let k = i + w;
    if !(k < n && s.get_char(k) == '"') {
        return None;
    }
    match parse_str_body(s, k + 1) {
        None => None,
        Some((key, nn)) => {
            let j = k + 1 + nn + 1;
            let w2 = ws_scan(s, j);
            let k2 = j + w2;
            if !(k2 < n && s.get_char(k2) == ':') {
                return None;
            }
            match parse_value(s, k2 + 1) {
                None => None,
                Some((v, m)) => {
                    let j2 = k2 + 1 + m;
                    let w3 = ws_scan(s, j2);
                    let k3 = j2 + w3;
                    if k3 < n && s.get_char(k3) == ',' {
                        match parse_obj_tail(s, k3 + 1) {
                            None => None,
                            Some((mut rest, q)) => {
                                let ghost rest0 = rest@;
                                let ghost kv = (key@, jval_view(v));
                                let pair = (key, v);
                                rest.insert(0, pair);
                                proof {
                                    assert(rest@ =~= seq![pair] + rest0);
                                    assert((seq![pair] + rest0)[0] == pair);
                                    assert((seq![pair] + rest0).drop_first() =~= rest0);
                                    assert(member_views_of(rest@)
                                        == seq![kv] + member_views_of(rest0));
                                }
                                Some((rest, (k3 + 1 - i) + q))
                            },
                        }
                    } else if k3 < n && s.get_char(k3) == '}' {
                        let mut members: Vec<(String, JsonValue)> = Vec::new();
                        let pair = (key, v);
                        members.push(pair);
                        proof {
                            assert(members@ =~= seq![pair]);
                            assert(members@.drop_first() =~= Seq::<(String, JsonValue)>::empty());
                            assert(members@[0] == pair);
                            assert(member_views_of(Seq::<(String, JsonValue)>::empty())
                                =~= Seq::<(Seq<char>, JsonVal)>::empty());
                            assert(member_views_of(members@) =~= seq![(key@, jval_view(v))]);
                        }
                        Some((members, k3 + 1 - i))
                    } else {
                        None
                    }
                },
            }
        },
    }
}

/// A copy of a value, equal to the original under the model.
pub fn clone_json(j: &JsonValue) -> (r: JsonValue)
    ensures
        r@ == j@,
    decreases *j,
{
    match j {
        JsonValue::Null => JsonValue::Null,
        JsonValue::Bool(b) => JsonValue::Bool(*b),
        JsonValue::Num(s) => JsonValue::Num(s.clone()),
        JsonValue::Str(s) => JsonValue::Str(s.clone()),
        JsonValue::Arr(items) => {
            let n = items.len();
            let mut out: Vec<JsonValue> = Vec::new();
            let mut k: usize = 0;
            while k < n
                invariant
                    n == items@.len(),
                    k <= n,
                    views_of(out@) == views_of(items@.subrange(0, k as int)),
                    decreases_to!(*j => items@),
                decreases n - k,
            {
                proof {
                    assert(decreases_to!(items@ => items@[k as int]));
                }
                let ghost out0 = out@;
                let c = clone_json(&items[k]);
                out.push(c);
                proof {
                    lemma_views_of_snoc(out0, c);
                    lemma_views_of_snoc(items@.subrange(0, k as int), items@[k as int]);
                    assert(items@.subrange(0, k as int + 1)
                        =~= items@.subrange(0, k as int).push(items@[k as int]));
                }
                k += 1;
            }
            proof {
                assert(items@.subrange(0, n as int) =~= items@);
            }
            JsonValue::Arr(out)
        },
        JsonValue::Obj(members) => {
            let n = members.len();
            let mut out: Vec<(String, JsonValue)> = Vec::new();
            let mut k: usize = 0;
            while k < n
                invariant
                    n == members@.len(),
                    k <= n,
                    member_views_of(out@) == member_views_of(members@.subrange(0, k as int)),
                    decreases_to!(*j => members@),
                decreases n - k,
            {
                proof {
                    assert(decreases_to!(members@ => members@[k as int]));
                }
                let ghost out0 = out@;
                let m = &members[k];
                let c = clone_json(&m.1);
                let key = m.0.clone();
                out.push((key, c));
                proof {
                    lemma_member_views_of_snoc(out0, (key, c));
                    lemma_member_views_of_snoc(members@.subrange(0, k as int), members@[k as int]);
                    assert(members@.subrange(0, k as int + 1)
                        =~= members@.subrange(0, k as int).push(members@[k as int]));
                }
                k += 1;
            }
            proof {
                assert(members@.subrange(0, n as int) =~= members@);
            }
            JsonValue::Obj(out)
        },
    }
}

/// A copy of an object's member list, equal to the original under the model.
pub fn clone_members(members: &Vec<(String, JsonValue)>) -> (r: Vec<(String, JsonValue)>)
    ensures
        member_views_of(r@) == member_views_of(members@),
{
    let n = members.len();
    let mut out: Vec<(String, JsonValue)> = Vec::new();
    let mut k: usize = 0;
    while k < n
        invariant
            n == members@.len(),
            k <= n,
            member_views_of(out@) == member_views_of(members@.subrange(0, k as int)),
        decreases n - k,
    {
        let ghost out0 = out@;
        let m = &members[k];
        let c = clone_json(&m.1);
        let key = m.0.clone();
        out.push((key, c));
        proof {
            lemma_member_views_of_snoc(out0, (key, c));
            lemma_member_views_of_snoc(members@.subrange(0, k as int), members@[k as int]);
            assert(members@.subrange(0, k as int + 1)
                =~= members@.subrange(0, k as int).push(members@[k as int]));
        }
        k += 1;
    }
    proof {
        assert(members@.subrange(0, n as int) =~= members@);
    }
    out
}

// ---------------------------------------------------------------------------
// Round trip: parsing undoes serialization
// ---------------------------------------------------------------------------

proof fn lemma_digits_chars(s: Seq<char>, i: int)
    ensures
        0 <= digits_len(s, i),
        0 <= i <= s.len() ==> i + digits_len(s, i) <= s.len(),
        forall|j: int| i <= j < i + digits_len(s, i) ==> is_digit(s[j]),
    decreases s.len() - i,
{
    if 0 <= i < s.len() && is_digit(s[i]) {
        lemma_digits_chars(s, i + 1);
    }
}

/// Every character of a number literal is a number character, and it starts
/// with a minus sign or a digit.
proof fn lemma_num_lexeme_chars(s: Seq<char>)
    requires
        is_num_lexeme(s),
    ensures
        s.len() > 0,
        forall|j: int| 0 <= j < s.len() ==> is_num_char(#[trigger] s[j]),
        s[0] == '-' || is_digit(s[0]),
{
    let i0: int = if s.len() > 0 && s[0] == '-' { 1 } else { 0 };
    let d = digits_len(s, i0);
    lemma_digits_chars(s, i0);
    assert(d > 0);
    assert(0 <= i0 < s.len() && is_digit(s[i0]));
    let i1 = i0 + d;
    let has_frac = i1 < s.len() && s[i1] == '.';
    let f = digits_len(s, i1 + 1);
    lemma_digits_chars(s, i1 + 1);
    let i2: int = if has_frac { i1 + 1 + f } else { i1 };
    let has_exp = i2 < s.len() && (s[i2] == 'e' || s[i2] == 'E');
    let istart: int = if has_exp {
        if i2 + 2 < s.len() + 1 && (s[i2 + 1] == '+' || s[i2 + 1] == '-') {
            i2 + 2
        } else {
            i2 + 1
        }
    } else {
        i2
    };
    let g = digits_len(s, istart);
    lemma_digits_chars(s, istart);
    let i3: int = if has_exp { istart + g } else { i2 };
    assert(i3 == s.len());
    assert forall|j: int| 0 <= j < s.len() implies is_num_char(#[trigger] s[j]) by {
        if j < i0 {
            assert(s[j] == '-');
        } else if j < i1 {
            assert(is_digit(s[j]));
        } else if has_frac && j == i1 {
            assert(s[j] == '.');
        } else if has_frac && j < i2 {
            assert(is_digit(s[j]));
        } else if has_exp && j == i2 {
        } else if has_exp && j < istart {
            assert(s[j] == '+' || s[j] == '-');
        } else {
            assert(is_digit(s[j]));
        }
    }
}

/// A greedy scan over number characters stops exactly at the first character
/// outside the class.
proof fn lemma_num_scan_stops(s: Seq<char>, i: int, len: int)
    requires
        0 <= i,
        0 <= len,
        i + len <= s.len(),
        forall|j: int| i <= j < i + len ==> is_num_char(#[trigger] s[j]),
        i + len == s.len() || !is_num_char(s[i + len]),
    ensures
        num_scan_len(s, i) == len,
    decreases len,
{
    if len == 0 {
    } else {
        assert(is_num_char(s[i]));
        lemma_num_scan_stops(s, i + 1, len - 1);
    }
}

proof fn lemma_hex_round(d: int)
    requires
        0 <= d < 16,
    ensures
        is_hex(hex_digit(d)),
        hex_val(hex_digit(d)) == d,
{
}

/// Decoding an escaped string body gives back the original content and stops
/// at the closing quote.
proof fn lemma_ser_str_parse(content: Seq<char>, s: Seq<char>, i: int)
    requires
        0 <= i,
        i + ser_str_body(content).len() < s.len(),
        s.subrange(i, i + ser_str_body(content).len() as int) == ser_str_body(content),
        s[i + ser_str_body(content).len() as int] == '"',
    ensures
        sp_str_body(s, i) == Some((content, ser_str_body(content).len() as nat)),
    decreases content.len(),
{
    let ghost L = ser_str_body(content).len() as int;
    if content.len() == 0 {
        assert(L == 0);
        assert(s[i] == '"');
        assert(sp_str_body(s, i) == Some((Seq::<char>::empty(), 0nat)));
        assert(content =~= Seq::<char>::empty());
    } else {
        let ghost c = content[0];
        let ghost rest = content.drop_first();
        let ghost e = esc_seq(c);
        let ghost lr = ser_str_body(rest).len() as int;
        assert(ser_str_body(content) == e + ser_str_body(rest));
        assert(L == e.len() + lr);
        assert(s.subrange(i + e.len(), i + L) =~= ser_str_body(rest)) by {
            assert forall|t: int| 0 <= t < lr implies s.subrange(i + e.len() as int, i + L)[t]
                == ser_str_body(rest)[t] by {
                assert(s.subrange(i + e.len() as int, i + L)[t] == s[i + e.len() + t]);
                assert(s.subrange(i, i + L)[e.len() + t] == s[i + e.len() + t]);
                assert(ser_str_body(content)[e.len() + t] == ser_str_body(rest)[t]);
            }
        }
        assert(s[i + L] == '"');
        lemma_ser_str_parse(rest, s, i + e.len());
        if c == '"' {
            assert(e =~= seq!['\\', '"']);
            assert(s.subrange(i, i + L)[0] == '\\' && s.subrange(i, i + L)[1] == '"');
            assert(s[i] == '\\' && s[i + 1] == '"');
            assert(simple_esc(s[i + 1]) == Some('"'));
            assert(sp_str_body(s, i) == Some((seq![c] + rest, (2 + lr) as nat)));
            assert(seq![c] + rest =~= content);
        } else if c == '\\' {
            assert(e =~= seq!['\\', '\\']);
            assert(s.subrange(i, i + L)[0] == '\\' && s.subrange(i, i + L)[1] == '\\');
            assert(s[i] == '\\' && s[i + 1] == '\\');
            assert(simple_esc(s[i + 1]) == Some('\\'));
            assert(sp_str_body(s, i) == Some((seq![c] + rest, (2 + lr) as nat)));
            assert(seq![c] + rest =~= content);
        } else if (c as u32) < 32 {
            let ghost cu = (c as u32) as int;
            assert(e == seq!['\\', 'u', '0', '0', hex_digit(cu / 16), hex_digit(cu % 16)]);
            assert(s.subrange(i, i + L)[0] == '\\' && s.subrange(i, i + L)[1] == 'u');
            assert(s.subrange(i, i + L)[2] == '0' && s.subrange(i, i + L)[3] == '0');
            assert(s.subrange(i, i + L)[4] == hex_digit(cu / 16)
                && s.subrange(i, i + L)[5] == hex_digit(cu % 16));
            assert(s[i] == '\\' && s[i + 1] == 'u');
            assert(s[i + 2] == '0' && s[i + 3] == '0');
            assert(s[i + 4] == hex_digit(cu / 16) && s[i + 5] == hex_digit(cu % 16));
            assert(simple_esc('u') is None);
            lemma_hex_round(0);
            lemma_hex_round(cu / 16);
            lemma_hex_round(cu % 16);
            assert(hex_val('0') == 0);
            assert(is_hex(s[i + 2]) && is_hex(s[i + 3]) && is_hex(s[i + 4]) && is_hex(s[i + 5]));
            let ghost code = hex_val(s[i + 2]) * 4096 + hex_val(s[i + 3]) * 256 + hex_val(
                s[i + 4],
            ) * 16 + hex_val(s[i + 5]);
            assert(code == cu);
            assert(valid_scalar(code));
            let ghost codeu: u32 = code as u32;
            assert((c as u32) == codeu);
            assert(char_of(codeu) as u32 == codeu);
            vstd::utf8::char_u32_cast(c, codeu);
            vstd::utf8::char_u32_cast(char_of(codeu), codeu);
            assert(char_of(codeu) == c);
            assert(char_of(code as u32) == c);
            assert(sp_str_body(s, i) == Some((seq![c] + rest, (6 + lr) as nat)));
            assert(seq![c] + rest =~= content);
        } else {
            assert(e =~= seq![c]);
            assert(s.subrange(i, i + L)[0] == c);
            assert(s[i] == c);
            assert(c != '"' && c != '\\' && (c as u32) >= 32);
            assert(sp_str_body(s, i) == Some((seq![c] + rest, (1 + lr) as nat)));
            assert(seq![c] + rest =~= content);
        }
    }
}

/// The first character of serialized text: never whitespace, never a
/// closing bracket or separator.
proof fn lemma_ser_first(j: JsonVal)
    requires
        wf_json(j),
    ensures
        ser(j).len() > 0,
        !is_ws(ser(j)[0]),
        ser(j)[0] != ']',
        ser(j)[0] != '}',
        ser(j)[0] != ',',
        ser(j)[0] != ':',
{
    match j {
        JsonVal::Null => {
            assert(ser(j)[0] == 'n');
        },
        JsonVal::Bool(b) => {
            assert(ser(j)[0] == 't' || ser(j)[0] == 'f');
        },
        JsonVal::Num(s) => {
            lemma_num_lexeme_chars(s);
            assert(ser(j)[0] == s[0]);
        },
        JsonVal::Str(_) => {
            assert(ser(j)[0] == '"');
        },
        JsonVal::Arr(_) => {
            assert(ser(j)[0] == '[');
        },
        JsonVal::Obj(_) => {
            assert(ser(j)[0] == '{');
        },
    }
}

proof fn lemma_char_at(s: Seq<char>, i: int, t: Seq<char>, p: int)
    requires
        0 <= i,
        i + t.len() <= s.len(),
        s.subrange(i, i + t.len() as int) == t,
        0 <= p < t.len(),
    ensures
        s[i + p] == t[p],
{
    assert(s.subrange(i, i + t.len() as int)[p] == s[i + p]);
}

proof fn lemma_subrange_part(s: Seq<char>, i: int, t: Seq<char>, a: int, b: int)
    requires
        0 <= i,
        i + t.len() <= s.len(),
        s.subrange(i, i + t.len() as int) == t,
        0 <= a <= b <= t.len(),
    ensures
        s.subrange(i + a, i + b) == t.subrange(a, b),
{
    assert forall|k: int| 0 <= k < b - a implies s.subrange(i + a, i + b)[k]
        == t.subrange(a, b)[k] by {
        assert(s.subrange(i + a, i + b)[k] == s[i + a + k]);
        assert(s.subrange(i, i + t.len() as int)[a + k] == s[i + a + k]);
        assert(t.subrange(a, b)[k] == t[a + k]);
    }
    assert(s.subrange(i + a, i + b) =~= t.subrange(a, b));
}

/// Parsing undoes serialization: at a position where the text carries the
/// serialized form of a well-formed value, followed by the end of the text or
/// by a separator or closing bracket, the parser reads back exactly that
/// value.
#[verifier::rlimit(100)]
#[verifier::spinoff_prover]
proof fn lemma_parse_ser_value(j: JsonVal, s: Seq<char>, i: int)
    requires
        wf_json(j),
        0 <= i,
        i + ser(j).len() <= s.len(),
        s.subrange(i, i + ser(j).len() as int) == ser(j),
        i + ser(j).len() == s.len() || s[i + ser(j).len() as int] == ','
            || s[i + ser(j).len() as int] == ']' || s[i + ser(j).len() as int] == '}',
    ensures
        sp_value(s, i) == Some((j, ser(j).len() as nat)),
    decreases j, 1int,
{
    let ghost t = ser(j);
    let ghost lt = t.len() as int;
    lemma_ser_first(j);
    lemma_char_at(s, i, t, 0);
    assert(ws_len(s, i) == 0);
    match j {
        JsonVal::Null => {
            assert(s[i] == 'n');
            assert(lit_at(s, i, seq!['n', 'u', 'l', 'l']));
            assert(sp_value(s, i) == Some((j, ser(j).len() as nat)));
        },
        JsonVal::Bool(b) => {
            if b {
                assert(s[i] == 't');
                assert(lit_at(s, i, seq!['t', 'r', 'u', 'e']));
                assert(sp_value(s, i) == Some((j, ser(j).len() as nat)));
            } else {
                assert(s[i] == 'f');
                assert(lit_at(s, i, seq!['f', 'a', 'l', 's', 'e']));
                assert(sp_value(s, i) == Some((j, ser(j).len() as nat)));
            }
        },
        JsonVal::Num(lex) => {
            lemma_num_lexeme_chars(lex);
            assert(s[i] == lex[0]);
            assert(s[i] == '-' || is_digit(s[i]));
            assert forall|p: int| i <= p < i + lt implies is_num_char(s[p]) by {
                lemma_char_at(s, i, t, p - i);
                assert(is_num_char(lex[p - i]));
            }
            assert(i + lt == s.len() || !is_num_char(s[i + lt]));
            lemma_num_scan_stops(s, i, lt);
            assert(s.subrange(i, i + lt) == lex);
            assert(sp_value(s, i) == Some((j, ser(j).len() as nat)));
        },
        JsonVal::Str(content) => {
            let ghost body = ser_str_body(content);
            assert(t == seq!['"'] + body + seq!['"']);
            assert(s[i] == '"');
            lemma_subrange_part(s, i, t, 1, 1 + body.len() as int);
            assert(t.subrange(1, 1 + body.len() as int) =~= body);
            lemma_char_at(s, i, t, lt - 1);
            assert(t[lt - 1] == '"');
            lemma_ser_str_parse(content, s, i + 1);
            assert(sp_value(s, i) == Some((JsonVal::Str(content), (0 + body.len() + 2) as nat)));
            assert(sp_value(s, i) == Some((j, ser(j).len() as nat)));
        },
        JsonVal::Arr(items) => {
            assert(s[i] == '[');
            let ghost si = ser_items(items);
            assert(t == seq!['['] + si + seq![']']);
            lemma_char_at(s, i, t, lt - 1);
            assert(t[lt - 1] == ']');
            if items.len() == 0 {
                assert(si =~= Seq::<char>::empty());
                assert(lt == 2);
                assert(s[i + 1] == ']');
                assert(ws_len(s, i + 1) == 0);
                assert(sp_value(s, i) == Some((JsonVal::Arr(Seq::empty()), 2nat)));
                assert(items =~= Seq::<JsonVal>::empty());
                assert(sp_value(s, i) == Some((j, ser(j).len() as nat)));
            } else {
                assert(wf_json(items[0]));
                lemma_ser_first(items[0]);
                assert(si == (if items.len() == 1 {
                    ser(items[0])
                } else {
                    ser(items[0]) + seq![','] + ser_items(items.drop_first())
                }));
                lemma_char_at(s, i, t, 1);
                assert(t[1] == ser(items[0])[0]);
                assert(s[i + 1] == ser(items[0])[0]);
                assert(ws_len(s, i + 1) == 0);
                assert(s[i + 1] != ']');
                lemma_subrange_part(s, i, t, 1, 1 + si.len() as int);
                assert(t.subrange(1, 1 + si.len() as int) =~= si);
                lemma_parse_ser_items(items, s, i + 1);
                assert(sp_value(s, i) == Some((JsonVal::Arr(items), (1 + si.len() + 1) as nat)));
                assert(sp_value(s, i) == Some((j, ser(j).len() as nat)));
            }
        },
        JsonVal::Obj(members) => {
            assert(s[i] == '{');
            let ghost sm = ser_members(members);
            assert(t == seq!['{'] + sm + seq!['}']);
            lemma_char_at(s, i, t, lt - 1);
            assert(t[lt - 1] == '}');
            if members.len() == 0 {
                assert(sm =~= Seq::<char>::empty());
                assert(lt == 2);
                assert(s[i + 1] == '}');
                assert(ws_len(s, i + 1) == 0);
                assert(sp_value(s, i) == Some((JsonVal::Obj(Seq::empty()), 2nat)));
                assert(members =~= Seq::<(Seq<char>, JsonVal)>::empty());
                assert(sp_value(s, i) == Some((j, ser(j).len() as nat)));
            } else {
                assert(sm == (if members.len() == 1 {
                    ser_member(members[0])
                } else {
                    ser_member(members[0]) + seq![','] + ser_members(members.drop_first())
                }));
                assert(ser_member(members[0])[0] == '"');
                lemma_char_at(s, i, t, 1);
                assert(s[i + 1] == '"');
                assert(ws_len(s, i + 1) == 0);
                assert(s[i + 1] != '}');
                lemma_subrange_part(s, i, t, 1, 1 + sm.len() as int);
                assert(t.subrange(1, 1 + sm.len() as int) =~= sm);
                lemma_parse_ser_members(members, s, i + 1);
                assert(sp_value(s, i) == Some((JsonVal::Obj(members), (1 + sm.len() + 1) as nat)));
                assert(sp_value(s, i) == Some((j, ser(j).len() as nat)));
            }
        },
    }
}

/// Parsing undoes serialization for the elements of a non-empty array.
proof fn lemma_parse_ser_items(items: Seq<JsonVal>, s: Seq<char>, i: int)
    requires
        wf_items(items),
        items.len() > 0,
        0 <= i,
        i + ser_items(items).len() + 1 <= s.len(),
        s.subrange(i, i + ser_items(items).len() as int) == ser_items(items),
        s[i + ser_items(items).len() as int] == ']',
    ensures
        sp_arr_tail(s, i) == Some((items, (ser_items(items).len() + 1) as nat)),
    decreases items, 0int,
{
    let ghost t = ser_items(items);
    let ghost lt = t.len() as int;
    let ghost e0 = items[0];
    let ghost l0 = ser(e0).len() as int;
    assert(wf_json(e0));
    if items.len() == 1 {
        assert(t == ser(e0));
        lemma_parse_ser_value(e0, s, i);
        assert(ws_len(s, i + l0) == 0);
        assert(seq![e0] =~= items);
        assert(sp_arr_tail(s, i) == Some((items, (l0 + 0 + 1) as nat)));
    } else {
        let ghost rest = items.drop_first();
        let ghost lr = ser_items(rest).len() as int;
        assert(t == ser(e0) + seq![','] + ser_items(rest));
        assert(lt == l0 + 1 + lr);
        lemma_subrange_part(s, i, t, 0, l0);
        assert(t.subrange(0, l0) =~= ser(e0));
        lemma_char_at(s, i, t, l0);
        assert(t[l0] == ',');
        lemma_parse_ser_value(e0, s, i);
        assert(ws_len(s, i + l0) == 0);
        lemma_subrange_part(s, i, t, l0 + 1, lt);
        assert(t.subrange(l0 + 1, lt) =~= ser_items(rest));
        lemma_parse_ser_items(rest, s, i + l0 + 1);
        assert(seq![e0] + rest =~= items);
        assert(sp_arr_tail(s, i) == Some((items, (l0 + 0 + 1 + (lr + 1)) as nat)));
    }
}

/// Parsing undoes serialization for the members of a non-empty object.
proof fn lemma_parse_ser_members(members: Seq<(Seq<char>, JsonVal)>, s: Seq<char>, i: int)
    requires
        wf_members(members),
        members.len() > 0,
        0 <= i,
        i + ser_members(members).len() + 1 <= s.len(),
        s.subrange(i, i + ser_members(members).len() as int) == ser_members(members),
        s[i + ser_members(members).len() as int] == '}',
    ensures
        sp_obj_tail(s, i) == Some((members, (ser_members(members).len() + 1) as nat)),
    decreases members, 0int,
{
    let ghost t = ser_members(members);
    let ghost lt = t.len() as int;
    let ghost m0 = members[0];
    let ghost sm0 = ser_member(m0);
    let ghost lk = ser_str_body(m0.0).len() as int;
    let ghost lv = ser(m0.1).len() as int;
    let ghost l0 = sm0.len() as int;
    assert(wf_json(m0.1));
    assert(sm0 == seq!['"'] + ser_str_body(m0.0) + seq!['"', ':'] + ser(m0.1));
    assert(l0 == lk + lv + 3);
    if members.len() == 1 {
        assert(t == sm0);
    } else {
        assert(t == sm0 + seq![','] + ser_members(members.drop_first()));
        lemma_char_at(s, i, t, l0);
        assert(t[l0] == ',');
    }
    // the member's own characters
    lemma_char_at(s, i, t, 0);
    assert(t[0] == '"');
    assert(s[i] == '"');
    assert(ws_len(s, i) == 0);
    lemma_subrange_part(s, i, t, 1, 1 + lk);
    assert(t.subrange(1, 1 + lk) =~= ser_str_body(m0.0));
    lemma_char_at(s, i, t, 1 + lk);
    assert(t[1 + lk] == '"');
    lemma_ser_str_parse(m0.0, s, i + 1);
    lemma_char_at(s, i, t, 2 + lk);
    assert(t[2 + lk] == ':');
    assert(ws_len(s, i + 2 + lk) == 0);
    lemma_subrange_part(s, i, t, 3 + lk, 3 + lk + lv);
    assert(t.subrange(3 + lk, 3 + lk + lv) =~= ser(m0.1));
    if members.len() == 1 {
        lemma_parse_ser_value(m0.1, s, i + 3 + lk);
        assert(ws_len(s, i + 3 + lk + lv) == 0);
        assert(s[i + 3 + lk + lv] == '}');
        assert(seq![m0] =~= members);
        assert(sp_obj_tail(s, i) == Some((members, (i + 3 + lk + lv + 1 - i) as nat)));
    } else {
        let ghost rest = members.drop_first();
        let ghost lr = ser_members(rest).len() as int;
        assert(lt == l0 + 1 + lr);
        lemma_parse_ser_value(m0.1, s, i + 3 + lk);
        assert(ws_len(s, i + 3 + lk + lv) == 0);
        assert(s[i + 3 + lk + lv] == ',');
        lemma_subrange_part(s, i, t, l0 + 1, lt);
        assert(t.subrange(l0 + 1, lt) =~= ser_members(rest));
        lemma_parse_ser_members(rest, s, i + l0 + 1);
        assert(seq![m0] + rest =~= members);
        assert(sp_obj_tail(s, i) == Some((members, (lt + 1) as nat)));
    }
}

/// Law: the serialized text of any well-formed value parses back to exactly
/// that value.
pub proof fn lemma_parse_of_ser(j: JsonVal)
    requires
        wf_json(j),
    ensures
        sp_json(ser(j)) == Some(j),
{
    let s = ser(j);
    assert(s.subrange(0, s.len() as int) =~= s);
    lemma_parse_ser_value(j, s, 0);
    assert(ws_len(s, s.len() as int) == 0);
}

/// Parses a whole JSON document. Returns the value exactly when the text is
/// one well-formed JSON value with nothing but whitespace around it.
pub fn parse_json(s: &str) -> (r: Option<JsonValue>)
    ensures
        match r {
            Some(v) => sp_json(s@) == Some(v@),
            None => sp_json(s@) is None,
        },
{
    let n = s.unicode_len();
    match parse_value(s, 0) {
        None => None,
        Some((v, m)) => {
            let w = ws_scan(s, m);
            if m + w == n {
                Some(v)
            } else {
                None
            }
        },
    }
}

} // verus!
