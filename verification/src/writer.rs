//! Writing values back as Spine text.
use vstd::prelude::*;
use crate::value::{Value, SValue, value_view, items_view, fields_view, lemma_items_view, lemma_fields_view};
use crate::number::{is_spine_number, exec_is_spine_number, fixed_number, push_number};
use crate::text::{chars_of, extend_str, extend_chars};

verus! {

/// A number as the writer prints it: a number literal with at least one
/// fraction digit (`8080.0`); other text as it is.
pub open spec fn written_number(n: Seq<char>) -> Seq<char> {
    if is_spine_number(n) { fixed_number(n) } else { n }
}

/// The text of a scalar after `=` or `- `: `null`, `true`, `false`, the
/// number, the string as it is, or `tag"content"`; nothing for arrays
/// and objects.
pub open spec fn scalar_text(v: SValue) -> Seq<char> {
    match v {
        SValue::Null => "null"@,
        SValue::Bool(b) => if b { "true"@ } else { "false"@ },
        SValue::Number(n) => written_number(n),
        SValue::Str(s) => s,
        SValue::Tagged(t, c) => t + seq!['"'] + c + seq!['"'],
        _ => seq![],
    }
}

/// The indentation one level deeper than `prefix`.
pub open spec fn deeper(prefix: Seq<char>) -> Seq<char> {
    prefix + seq!['|', ' ']
}

/// The lines of a value under `key` at indentation `prefix`: a scalar is
/// `key = text`; an object is `key` followed by its fields one level
/// deeper; an array is `key` followed by its entries. Without a key, only
/// the nested lines are written.
pub open spec fn write_value(v: SValue, prefix: Seq<char>, key: Option<Seq<char>>) -> Seq<char>
    decreases v,
{
    let head = match key {
        Some(k) => prefix + k + seq!['\n'],
        None => seq![],
    };
    match v {
        SValue::Object(fs) => head + write_fields(fs, deeper(prefix)),
        SValue::Array(items) => head + write_items(items, prefix),
        _ => match key {
            Some(k) => prefix + k + " = "@ + scalar_text(v) + seq!['\n'],
            None => seq![],
        },
    }
}

/// The fields of an object, in order, at indentation `prefix`.
pub open spec fn write_fields(fs: Seq<(Seq<char>, SValue)>, prefix: Seq<char>) -> Seq<char>
    decreases fs,
{
    if fs.len() == 0 {
        seq![]
    } else {
        write_fields(fs.drop_last(), prefix) + write_value(fs.last().1, prefix, Some(fs.last().0))
    }
}

/// The entries of an array under a key at indentation `prefix`.
pub open spec fn write_items(items: Seq<SValue>, prefix: Seq<char>) -> Seq<char>
    decreases items,
{
    if items.len() == 0 {
        seq![]
    } else {
        write_items(items.drop_last(), prefix) + write_item(items.last(), prefix)
    }
}

/// One array entry: `- ` and the scalar, or `-` and the object's fields
/// two levels deeper.
pub open spec fn write_item(item: SValue, prefix: Seq<char>) -> Seq<char>
    decreases item,
{
    match item {
        SValue::Object(fs) => prefix + "| -\n"@ + write_fields(fs, deeper(deeper(prefix))),
        _ => prefix + "| - "@ + scalar_text(item) + seq!['\n'],
    }
}

/// The Spine text of a document root: the fields of an object at the top
/// level, or the lines of any other value.
pub open spec fn document_text(v: SValue) -> Seq<char> {
    match v {
        SValue::Object(fs) => write_fields(fs, seq![]),
        _ => write_value(v, seq![], None),
    }
}

fn push_scalar(v: &Value, buf: &mut Vec<char>)
    ensures
        final(buf)@ == old(buf)@ + scalar_text(v@),
{
    match v {
        Value::Null => extend_str(buf, "null"),
        Value::Bool(b) => if *b { extend_str(buf, "true") } else { extend_str(buf, "false") },
        Value::Number(n) => {
            let cs = chars_of(n.as_str());
            if exec_is_spine_number(&cs) {
                push_number(buf, &cs, true);
            } else {
                extend_chars(buf, &cs);
            }
        },
        Value::String(s) => extend_str(buf, s.as_str()),
        Value::Tagged(t, c) => {
            let ghost before = buf@;
            extend_str(buf, t.as_str());
            buf.push('"');
            extend_str(buf, c.as_str());
            buf.push('"');
            assert(buf@ =~= before + scalar_text(v@));
        },
        Value::Array(_) => {
            assert(buf@ =~= old(buf)@ + scalar_text(v@));
        },
        Value::Object(_) => {
            assert(buf@ =~= old(buf)@ + scalar_text(v@));
        },
    }
}

fn deeper_prefix(prefix: &Vec<char>) -> (r: Vec<char>)
    ensures
        r@ == deeper(prefix@),
{
    let mut r: Vec<char> = Vec::new();
    extend_chars(&mut r, prefix);
    r.push('|');
    r.push(' ');
    assert(r@ =~= deeper(prefix@));
    r
}

fn write_fields_exec(fields: &Vec<(String, Value)>, prefix: &Vec<char>, buf: &mut Vec<char>, Ghost(outer): Ghost<Value>)
    requires
        decreases_to!(outer => *fields),
    ensures
        final(buf)@ == old(buf)@ + write_fields(fields_view(fields@), prefix@),
    decreases outer, 0int,
{
    let ghost fv = fields_view(fields@);
    let ghost base = buf@;
    proof { lemma_fields_view(fields@); }
    let mut i: usize = 0;
    assert(fv.subrange(0, 0) =~= Seq::<(Seq<char>, SValue)>::empty());
    while i < fields.len()
        invariant
            i <= fields.len(),
            fv == fields_view(fields@),
            fv.len() == fields@.len(),
            forall|j: int| 0 <= j < fields@.len() ==> #[trigger] fv[j] == (fields@[j].0@, value_view(fields@[j].1)),
            decreases_to!(outer => *fields),
            buf@ == base + write_fields(fv.subrange(0, i as int), prefix@),
        decreases fields.len() - i,
    {
        proof { vstd::std_specs::vec::axiom_vec_index_decreases(*fields, i as int); }
        let key = chars_of(fields[i].0.as_str());
        write_value_exec(&fields[i].1, prefix, Some(&key), buf);
        proof {
            let nxt = fv.subrange(0, i + 1);
            assert(nxt.drop_last() =~= fv.subrange(0, i as int));
            assert(nxt.last() == fv[i as int]);
        }
        i = i + 1;
    }
    assert(fv.subrange(0, fields.len() as int) =~= fv);
}

fn write_items_exec(items: &Vec<Value>, prefix: &Vec<char>, buf: &mut Vec<char>, Ghost(outer): Ghost<Value>)
    requires
        decreases_to!(outer => *items),
    ensures
        final(buf)@ == old(buf)@ + write_items(items_view(items@), prefix@),
    decreases outer, 0int,
{
    let ghost iv = items_view(items@);
    let ghost base = buf@;
    proof { lemma_items_view(items@); }
    let mut i: usize = 0;
    assert(iv.subrange(0, 0) =~= Seq::<SValue>::empty());
    while i < items.len()
        invariant
            i <= items.len(),
            iv == items_view(items@),
            iv.len() == items@.len(),
            forall|j: int| 0 <= j < items@.len() ==> #[trigger] iv[j] == value_view(items@[j]),
            decreases_to!(outer => *items),
            buf@ == base + write_items(iv.subrange(0, i as int), prefix@),
        decreases items.len() - i,
    {
        proof { vstd::std_specs::vec::axiom_vec_index_decreases(*items, i as int); }
        let item = &items[i];
        let ghost pre = buf@;
        match item {
            Value::Object(fs) => {
                extend_chars(buf, prefix);
                extend_str(buf, "| -\n");
                let p2 = deeper_prefix(&deeper_prefix(prefix));
                assert(decreases_to!(*item => (*item)->Object_0));
                write_fields_exec(fs, &p2, buf, Ghost(*item));
                assert(buf@ =~= pre + write_item(iv[i as int], prefix@));
            },
            _ => {
                extend_chars(buf, prefix);
                extend_str(buf, "| - ");
                push_scalar(item, buf);
                buf.push('\n');
                assert(buf@ =~= pre + write_item(iv[i as int], prefix@));
            },
        }
        proof {
            let nxt = iv.subrange(0, i + 1);
            assert(nxt.drop_last() =~= iv.subrange(0, i as int));
            assert(nxt.last() == iv[i as int]);
        }
        i = i + 1;
    }
    assert(iv.subrange(0, items.len() as int) =~= iv);
}

fn write_value_exec(v: &Value, prefix: &Vec<char>, key: Option<&Vec<char>>, buf: &mut Vec<char>)
    ensures
        final(buf)@ == old(buf)@ + write_value(v@, prefix@, match key { Some(k) => Some(k@), None => None }),
    decreases v, 1int,
{
    let ghost base = buf@;
    let ghost k = match key { Some(k) => Some(k@), None => None::<Seq<char>> };
    match v {
        Value::Object(fs) => {
            match key {
                Some(kk) => {
                    extend_chars(buf, prefix);
                    extend_chars(buf, kk);
                    buf.push('\n');
                },
                None => {},
            }
            let ghost mid = buf@;
            let p2 = deeper_prefix(prefix);
            assert(decreases_to!(*v => (*v)->Object_0));
            write_fields_exec(fs, &p2, buf, Ghost(*v));
            assert(buf@ =~= base + write_value(v@, prefix@, k));
        },
        Value::Array(items) => {
            match key {
                Some(kk) => {
                    extend_chars(buf, prefix);
                    extend_chars(buf, kk);
                    buf.push('\n');
                },
                None => {},
            }
            assert(decreases_to!(*v => (*v)->Array_0));
            write_items_exec(items, prefix, buf, Ghost(*v));
            assert(buf@ =~= base + write_value(v@, prefix@, k));
        },
        _ => {
            match key {
                Some(kk) => {
                    extend_chars(buf, prefix);
                    extend_chars(buf, kk);
                    extend_str(buf, " = ");
                    push_scalar(v, buf);
                    buf.push('\n');
                },
                None => {},
            }
            assert(buf@ =~= base + write_value(v@, prefix@, k));
        },
    }
}

/// The Spine text of a document root.
pub fn to_string_inner(value: &Value) -> (r: Vec<char>)
    ensures
        r@ == document_text(value@),
{
    let mut buf: Vec<char> = Vec::new();
    let top: Vec<char> = Vec::new();
    match value {
        Value::Object(fields) => {
            assert(decreases_to!(*value => (*value)->Object_0));
            write_fields_exec(fields, &top, &mut buf, Ghost(*value));
        },
        _ => {
            write_value_exec(value, &top, None, &mut buf);
        },
    }
    assert(buf@ =~= document_text(value@));
    buf
}

} // verus!
