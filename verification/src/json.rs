//! JSON rendering of values and of parse outcomes.
use vstd::prelude::*;
use crate::value::{Value, SValue, value_view, items_view, fields_view, lemma_items_view, lemma_fields_view};
use crate::number::{is_spine_number, exec_is_spine_number, short_number, push_number};
use crate::text::{chars_of, extend_str, extend_chars, string_from_chars};

verus! {

/// The lowercase hexadecimal digit for `d < 16`.
pub open spec fn hex_digit(d: int) -> char {
    if d < 10 { ((d + '0' as int) as u32) as char } else { ((d - 10 + 'a' as int) as u32) as char }
}

/// The JSON escape of one character: quotes, backslashes, newlines and
/// tabs are escaped by a backslash, other control characters as
/// `\u00XX` (lowercase hex), everything else is kept.
pub open spec fn json_char(c: char) -> Seq<char> {
    if c == '"' {
        seq!['\\', '"']
    } else if c == '\\' {
        seq!['\\', '\\']
    } else if c == '\n' {
        seq!['\\', 'n']
    } else if c == '\t' {
        seq!['\\', 't']
    } else if (c as int) < 0x20 {
        seq!['\\', 'u', '0', '0', hex_digit(c as int / 16), hex_digit(c as int % 16)]
    } else {
        seq![c]
    }
}

/// The JSON escape of a string's characters.
pub open spec fn json_escape(s: Seq<char>) -> Seq<char>
    decreases s.len(),
{
    if s.len() == 0 { seq![] } else { json_escape(s.drop_last()) + json_char(s.last()) }
}

/// A JSON string literal.
pub open spec fn json_string(s: Seq<char>) -> Seq<char> {
    seq!['"'] + json_escape(s) + seq!['"']
}

/// A JSON number: the shortest decimal form of a number literal; text
/// that is not a number literal is written as `0`.
pub open spec fn json_number(n: Seq<char>) -> Seq<char> {
    if is_spine_number(n) { short_number(n) } else { seq!['0'] }
}

/// The JSON text of a value. A tagged literal is an object with `tag`
/// and `content`; object fields keep their order.
pub open spec fn json_value(v: SValue) -> Seq<char>
    decreases v,
{
    match v {
        SValue::Null => "null"@,
        SValue::Bool(b) => if b { "true"@ } else { "false"@ },
        SValue::Number(n) => json_number(n),
        SValue::Str(s) => json_string(s),
        SValue::Tagged(t, c) => "{\"tag\":"@ + json_string(t) + ",\"content\":"@ + json_string(c) + "}"@,
        SValue::Array(items) => "["@ + json_items(items) + "]"@,
        SValue::Object(fields) => "{"@ + json_fields(fields) + "}"@,
    }
}

/// JSON values separated by commas.
pub open spec fn json_items(s: Seq<SValue>) -> Seq<char>
    decreases s,
{
    if s.len() == 0 {
        seq![]
    } else if s.len() == 1 {
        json_value(s[0])
    } else {
        json_items(s.drop_last()) + ","@ + json_value(s.last())
    }
}

/// JSON members (`"key":value`) separated by commas.
pub open spec fn json_fields(s: Seq<(Seq<char>, SValue)>) -> Seq<char>
    decreases s,
{
    if s.len() == 0 {
        seq![]
    } else if s.len() == 1 {
        json_string(s[0].0) + ":"@ + json_value(s[0].1)
    } else {
        json_fields(s.drop_last()) + ","@ + json_string(s.last().0) + ":"@ + json_value(s.last().1)
    }
}

/// JSON strings separated by commas.
pub open spec fn json_strings(s: Seq<Seq<char>>) -> Seq<char>
    decreases s.len(),
{
    if s.len() == 0 {
        seq![]
    } else if s.len() == 1 {
        json_string(s[0])
    } else {
        json_strings(s.drop_last()) + ","@ + json_string(s.last())
    }
}

/// The opening of a parse outcome: the format details, as written.
pub open spec fn json_header(version: Seq<char>, spec: Seq<char>, backend: Seq<char>) -> Seq<char> {
    "{\"version\":\""@ + version + "\",\"spec\":\""@ + spec + "\",\"backend\":\""@ + backend + "\""@
}

/// The format details of this library's JSON outcomes.
pub open spec fn details_header() -> Seq<char> {
    json_header("0.1.0"@, "1.0-rc.2"@, "native"@)
}

/// The JSON text of a parse outcome after `header`: whether it
/// succeeded, the value (or `null`) and the error messages.
pub open spec fn json_outcome(header: Seq<char>, r: Result<SValue, Seq<Seq<char>>>) -> Seq<char> {
    match r {
        Ok(v) => header + ",\"ok\":true,\"value\":"@ + json_value(v) + ",\"errors\":[]}"@,
        Err(errors) => header + ",\"ok\":false,\"value\":null,\"errors\":["@ + json_strings(errors) + "]}"@,
    }
}

/// The JSON text of a successful parse.
pub open spec fn json_success(v: SValue) -> Seq<char> {
    json_outcome(details_header(), Ok(v))
}

/// The JSON text of a failed parse with these error messages.
pub open spec fn json_failure(errors: Seq<Seq<char>>) -> Seq<char> {
    json_outcome(details_header(), Err(errors))
}

/// The model of a parse result whose errors are strings.
pub open spec fn result_view(r: Result<Value, Vec<String>>) -> Result<SValue, Seq<Seq<char>>> {
    match r {
        Ok(v) => Ok(v@),
        Err(errors) => Err(errors@.map_values(|e: String| e@)),
    }
}

fn exec_hex_digit(d: u32) -> (c: char)
    requires
        d < 16,
    ensures
        c == hex_digit(d as int),
{
    if d < 10 {
        char_of(d + 48)
    } else {
        char_of(d - 10 + 97)
    }
}

/// The ASCII character with code `v < 128`.
fn char_of(v: u32) -> (c: char)
    requires
        v < 128,
    ensures
        c == (v as u32) as char,
{
    (v as u8) as char
}

/// Appends the JSON escape of one character.
fn push_json_char(buf: &mut Vec<char>, c: char)
    ensures
        final(buf)@ == old(buf)@ + json_char(c),
{
    let ghost before = buf@;
    if c == '"' {
        buf.push('\\');
        buf.push('"');
    } else if c == '\\' {
        buf.push('\\');
        buf.push('\\');
    } else if c == '\n' {
        buf.push('\\');
        buf.push('n');
    } else if c == '\t' {
        buf.push('\\');
        buf.push('t');
    } else if (c as u32) < 0x20 {
        let v = c as u32;
        buf.push('\\');
        buf.push('u');
        buf.push('0');
        buf.push('0');
        buf.push(exec_hex_digit(v / 16));
        buf.push(exec_hex_digit(v % 16));
    } else {
        buf.push(c);
    }
    assert(buf@ =~= before + json_char(c));
}

/// Appends a JSON string literal.
pub fn write_json_string(s: &str, buf: &mut Vec<char>)
    ensures
        final(buf)@ == old(buf)@ + json_string(s@),
{
    let cs = chars_of(s);
    let ghost base = buf@;
    buf.push('"');
    let mut i: usize = 0;
    while i < cs.len()
        invariant
            i <= cs.len(),
            buf@ == base + seq!['"'] + json_escape(cs@.subrange(0, i as int)),
        decreases cs.len() - i,
    {
        let ghost pre = cs@.subrange(0, i as int);
        push_json_char(buf, cs[i]);
        proof {
            let nxt = cs@.subrange(0, i + 1);
            assert(nxt.drop_last() =~= pre);
            assert(nxt.last() == cs@[i as int]);
        }
        i = i + 1;
    }
    assert(cs@.subrange(0, cs.len() as int) =~= s@);
    buf.push('"');
    assert(buf@ =~= base + json_string(s@));
}

/// Appends a JSON number.
fn write_json_number(n: &String, buf: &mut Vec<char>)
    ensures
        final(buf)@ == old(buf)@ + json_number(n@),
{
    let cs = chars_of(n.as_str());
    if exec_is_spine_number(&cs) {
        push_number(buf, &cs, false);
    } else {
        buf.push('0');
        assert(buf@ =~= old(buf)@ + seq!['0']);
    }
}

/// Appends the JSON text of a value.
pub fn write_json_value(v: &Value, buf: &mut Vec<char>)
    ensures
        final(buf)@ == old(buf)@ + json_value(v@),
    decreases v,
{
    let ghost base = buf@;
    match v {
        Value::Null => extend_str(buf, "null"),
        Value::Bool(b) => if *b { extend_str(buf, "true") } else { extend_str(buf, "false") },
        Value::Number(n) => write_json_number(n, buf),
        Value::String(s) => write_json_string(s.as_str(), buf),
        Value::Tagged(t, c) => {
            extend_str(buf, "{\"tag\":");
            write_json_string(t.as_str(), buf);
            extend_str(buf, ",\"content\":");
            write_json_string(c.as_str(), buf);
            extend_str(buf, "}");
            assert(buf@ =~= base + json_value(v@));
        },
        Value::Array(arr) => {
            extend_str(buf, "[");
            let ghost iv = items_view(arr@);
            proof { lemma_items_view(arr@); }
            let mut i: usize = 0;
            assert(iv.subrange(0, 0) =~= Seq::<SValue>::empty());
            while i < arr.len()
                invariant
                    i <= arr.len(),
                    *v == Value::Array(*arr),
                    iv == items_view(arr@),
                    iv.len() == arr@.len(),
                    forall|j: int| 0 <= j < arr@.len() ==> #[trigger] iv[j] == value_view(arr@[j]),
                    buf@ == base + "["@ + json_items(iv.subrange(0, i as int)),
                decreases arr.len() - i,
            {
                proof { vstd::std_specs::vec::axiom_vec_index_decreases(*arr, i as int); }
                assert(decreases_to!(*v => (*v)->Array_0));
                let ghost pre = buf@;
                if i > 0 {
                    extend_str(buf, ",");
                }
                write_json_value(&arr[i], buf);
                proof {
                    let nxt = iv.subrange(0, i + 1);
                    assert(nxt.drop_last() =~= iv.subrange(0, i as int));
                    assert(nxt.last() == value_view(arr@[i as int]));
                    if i == 0 {
                        assert(buf@ =~= base + "["@ + json_items(nxt));
                    } else {
                        assert(buf@ =~= base + "["@ + json_items(nxt));
                    }
                }
                i = i + 1;
            }
            assert(iv.subrange(0, arr.len() as int) =~= iv);
            extend_str(buf, "]");
            assert(buf@ =~= base + json_value(v@));
        },
        Value::Object(fields) => {
            extend_str(buf, "{");
            let ghost fv = fields_view(fields@);
            proof { lemma_fields_view(fields@); }
            let mut i: usize = 0;
            assert(fv.subrange(0, 0) =~= Seq::<(Seq<char>, SValue)>::empty());
            while i < fields.len()
                invariant
                    i <= fields.len(),
                    *v == Value::Object(*fields),
                    fv == fields_view(fields@),
                    fv.len() == fields@.len(),
                    forall|j: int| 0 <= j < fields@.len() ==> #[trigger] fv[j] == (fields@[j].0@, value_view(fields@[j].1)),
                    buf@ == base + "{"@ + json_fields(fv.subrange(0, i as int)),
                decreases fields.len() - i,
            {
                proof { vstd::std_specs::vec::axiom_vec_index_decreases(*fields, i as int); }
                assert(decreases_to!(*v => (*v)->Object_0));
                if i > 0 {
                    extend_str(buf, ",");
                }
                write_json_string(fields[i].0.as_str(), buf);
                extend_str(buf, ":");
                write_json_value(&fields[i].1, buf);
                proof {
                    let nxt = fv.subrange(0, i + 1);
                    assert(nxt.drop_last() =~= fv.subrange(0, i as int));
                    assert(nxt.last() == fv[i as int]);
                    assert(buf@ =~= base + "{"@ + json_fields(nxt));
                }
                i = i + 1;
            }
            assert(fv.subrange(0, fields.len() as int) =~= fv);
            extend_str(buf, "}");
            assert(buf@ =~= base + json_value(v@));
        },
    }
}

/// The JSON text of a parse outcome under the given format details (see
/// `json_outcome`).
pub fn outcome_json(version: &str, spec: &str, backend: &str, result: &Result<Value, Vec<String>>) -> (r: String)
    ensures
        r@ == json_outcome(json_header(version@, spec@, backend@), result_view(*result)),
{
    let mut json: Vec<char> = Vec::new();
    extend_str(&mut json, "{\"version\":\"");
    extend_str(&mut json, version);
    extend_str(&mut json, "\",\"spec\":\"");
    extend_str(&mut json, spec);
    extend_str(&mut json, "\",\"backend\":\"");
    extend_str(&mut json, backend);
    extend_str(&mut json, "\"");
    let ghost h = json_header(version@, spec@, backend@);
    assert(json@ =~= h);
    match result {
        Ok(value) => {
            extend_str(&mut json, ",\"ok\":true,\"value\":");
            write_json_value(value, &mut json);
            extend_str(&mut json, ",\"errors\":[]}");
            assert(json@ =~= json_outcome(h, Ok(value@)));
        },
        Err(errors) => {
            extend_str(&mut json, ",\"ok\":false,\"value\":null,\"errors\":[");
            let ghost base = json@;
            let ghost texts = errors@.map_values(|e: String| e@);
            let mut i: usize = 0;
            assert(texts.subrange(0, 0) =~= Seq::<Seq<char>>::empty());
            while i < errors.len()
                invariant
                    i <= errors.len(),
                    texts == errors@.map_values(|e: String| e@),
                    json@ == base + json_strings(texts.subrange(0, i as int)),
                decreases errors.len() - i,
            {
                if i > 0 {
                    extend_str(&mut json, ",");
                }
                write_json_string(errors[i].as_str(), &mut json);
                proof {
                    let nxt = texts.subrange(0, i + 1);
                    assert(nxt.drop_last() =~= texts.subrange(0, i as int));
                    assert(nxt.last() == errors@[i as int]@);
                    assert(json@ =~= base + json_strings(nxt));
                }
                i = i + 1;
            }
            assert(texts.subrange(0, errors.len() as int) =~= texts);
            extend_str(&mut json, "]}");
            assert(json@ =~= json_outcome(h, Err(texts)));
        },
    }
    string_from_chars(&json)
}

} // verus!
