//! Properties of the parser, the value accessors and the JSON rendering
//! that hold for every input.
use vstd::prelude::*;
use crate::value::SValue;
use crate::json::{json_outcome, json_escape, json_char, hex_digit};
use crate::writer::{write_value, write_fields, write_items, write_item, scalar_text, deeper, document_text};
use crate::number::{is_spine_number, unsigned_number, short_number, fixed_number, number_parts, strip_leading_zeros, strip_trailing_zeros, dot_index};
use crate::text::{is_digit, is_hex, hex_val, hex_value};
use crate::token::{SToken, SSpanned};
use crate::parser::{
    Fields, Spans, Diag, find_key, lemma_find_key, merge, merge_all, span_pos, inner_spans, find_span, conflict_diag, append_at, value_of, p_statement, p_block,
    p_array, p_ident, p_append, p_top, parse_from, line_after, lemma_line_after, shallow_diag, skip_cn, lemma_skip_cn, lemma_pipes_end, depth_at, tok_at,
    entry_has_children, is_array_block, read_path, lemma_read_path, path_width, lexical_diags,
    unknown_diags, error_diags, pipes_end, PR,
};

verus! {

/// The keys of an object's fields are pairwise distinct.
pub open spec fn distinct_keys(fs: Fields) -> bool {
    forall|i: int, j: int| 0 <= i < j < fs.len() ==> fs[i].0 != fs[j].0
}

/// Every object inside a value, the value itself included, has distinct keys.
pub open spec fn well_keyed(v: SValue) -> bool
    decreases v,
{
    match v {
        SValue::Object(fs) => distinct_keys(fs) && fields_keyed(fs),
        SValue::Array(items) => items_keyed(items),
        _ => true,
    }
}

/// Every field value is well keyed.
pub open spec fn fields_keyed(fs: Fields) -> bool
    decreases fs,
{
    fs.len() == 0 || (fields_keyed(fs.drop_last()) && well_keyed(fs.last().1))
}

/// Every element is well keyed.
pub open spec fn items_keyed(items: Seq<SValue>) -> bool
    decreases items,
{
    items.len() == 0 || (items_keyed(items.drop_last()) && well_keyed(items.last()))
}

proof fn lemma_fields_keyed(fs: Fields)
    ensures
        fields_keyed(fs) <==> forall|i: int| 0 <= i < fs.len() ==> well_keyed(#[trigger] fs[i].1),
    decreases fs.len(),
{
    if fs.len() > 0 {
        let d = fs.drop_last();
        lemma_fields_keyed(d);
        assert(forall|i: int| 0 <= i < d.len() ==> d[i] == fs[i]);
        if forall|i: int| 0 <= i < fs.len() ==> well_keyed(#[trigger] fs[i].1) {
            assert(well_keyed(fs[fs.len() - 1].1));
        }
    }
}

proof fn lemma_items_keyed(items: Seq<SValue>)
    ensures
        items_keyed(items) <==> forall|i: int| 0 <= i < items.len() ==> well_keyed(#[trigger] items[i]),
    decreases items.len(),
{
    if items.len() > 0 {
        let d = items.drop_last();
        lemma_items_keyed(d);
        assert(forall|i: int| 0 <= i < d.len() ==> d[i] == items[i]);
        if forall|i: int| 0 <= i < items.len() ==> well_keyed(#[trigger] items[i]) {
            assert(well_keyed(items[items.len() - 1]));
        }
    }
}

/// A well-keyed object stays well keyed when a field is added under a new
/// key or a field's value is replaced by a well-keyed one.
proof fn lemma_keyed_edit(fs: Fields)
    requires
        distinct_keys(fs),
        fields_keyed(fs),
    ensures
        forall|key: Seq<char>, v: SValue| find_key(fs, key) is None && well_keyed(v) ==>
            distinct_keys(#[trigger] fs.push((key, v))) && fields_keyed(fs.push((key, v))),
        forall|i: int, v: SValue| 0 <= i < fs.len() && well_keyed(v) ==>
            distinct_keys(#[trigger] fs.update(i, (fs[i].0, v))) && fields_keyed(fs.update(i, (fs[i].0, v))),
{
    lemma_fields_keyed(fs);
    assert forall|key: Seq<char>, v: SValue| find_key(fs, key) is None && well_keyed(v) implies
        distinct_keys(#[trigger] fs.push((key, v))) && fields_keyed(fs.push((key, v))) by {
        lemma_find_key(fs, key);
        let f2 = fs.push((key, v));
        lemma_fields_keyed(f2);
        assert forall|i: int| 0 <= i < f2.len() implies well_keyed(#[trigger] f2[i].1) by {
            if i < fs.len() { assert(f2[i] == fs[i]); }
        }
        assert forall|i: int, j: int| 0 <= i < j < f2.len() implies f2[i].0 != f2[j].0 by {
            if j < fs.len() { assert(f2[i] == fs[i] && f2[j] == fs[j]); } else { assert(f2[i] == fs[i]); }
        }
    }
    assert forall|i: int, v: SValue| 0 <= i < fs.len() && well_keyed(v) implies
        distinct_keys(#[trigger] fs.update(i, (fs[i].0, v))) && fields_keyed(fs.update(i, (fs[i].0, v))) by {
        let f2 = fs.update(i, (fs[i].0, v));
        lemma_fields_keyed(f2);
        assert forall|k: int| 0 <= k < f2.len() implies well_keyed(#[trigger] f2[k].1) by {
            if k != i { assert(f2[k] == fs[k]); }
        }
        assert forall|a: int, b: int| 0 <= a < b < f2.len() implies f2[a].0 != f2[b].0 by {
            assert(f2[a].0 == fs[a].0 && f2[b].0 == fs[b].0);
        }
    }
}

proof fn lemma_merge_keyed(fs: Fields, sp: Spans, key: Seq<char>, v: SValue, vsp: Spans, line: int, col: int, ds: Seq<Diag>)
    requires
        distinct_keys(fs),
        fields_keyed(fs),
        well_keyed(v),
    ensures
        distinct_keys(merge(fs, sp, key, v, vsp, line, col, ds).fields),
        fields_keyed(merge(fs, sp, key, v, vsp, line, col, ds).fields),
    decreases v,
{
    lemma_keyed_edit(fs);
    lemma_find_key(fs, key);
    match find_key(fs, key) {
        None => {},
        Some(i) => {
            let old = fs[i].1;
            if old is Object && v is Object {
                lemma_fields_keyed(fs);
                assert(well_keyed(fs[i].1));
                lemma_merge_all_keyed(old->Object_0, inner_spans(sp, key), v->Object_0, vsp, line, col, ds);
                let r = merge_all(old->Object_0, inner_spans(sp, key), v->Object_0, vsp, line, col, ds);
                assert(well_keyed(SValue::Object(r.fields)));
                assert(fs[i].0 == key);
            }
        },
    }
}

proof fn lemma_merge_all_keyed(a: Fields, sp: Spans, b: Fields, bsp: Spans, line: int, col: int, ds: Seq<Diag>)
    requires
        distinct_keys(a),
        fields_keyed(a),
        fields_keyed(b),
    ensures
        distinct_keys(merge_all(a, sp, b, bsp, line, col, ds).fields),
        fields_keyed(merge_all(a, sp, b, bsp, line, col, ds).fields),
    decreases b,
{
    if b.len() > 0 {
        lemma_merge_all_keyed(a, sp, b.drop_last(), bsp, line, col, ds);
        let r = merge_all(a, sp, b.drop_last(), bsp, line, col, ds);
        let k = b.last().0;
        match span_pos(bsp, k) {
            Some(j) => lemma_merge_keyed(r.fields, r.spans, k, b.last().1, bsp[j].inner, bsp[j].line, bsp[j].col, r.diags),
            None => lemma_merge_keyed(r.fields, r.spans, k, b.last().1, seq![], line, col, r.diags),
        }
    }
}

proof fn lemma_append_keyed(fs: Fields, sp: Spans, path: Seq<Seq<char>>, i: int, entry: SValue, line: int, col: int, width: int)
    requires
        distinct_keys(fs),
        fields_keyed(fs),
        well_keyed(entry),
    ensures
        distinct_keys(append_at(fs, sp, path, i, entry, line, col, width).0),
        fields_keyed(append_at(fs, sp, path, i, entry, line, col, width).0),
    decreases path.len() - i,
{
    lemma_keyed_edit(fs);
    lemma_fields_keyed(fs);
    if 0 <= i < path.len() {
        let key = path[i];
        lemma_find_key(fs, key);
        if i == path.len() - 1 {
            match find_key(fs, key) {
                Some(j) => {
                    if fs[j].1 is Array {
                        let arr = fs[j].1->Array_0;
                        assert(well_keyed(fs[j].1));
                        lemma_items_keyed(arr);
                        lemma_items_keyed(arr.push(entry));
                        assert forall|k: int| 0 <= k < arr.push(entry).len() implies well_keyed(#[trigger] arr.push(entry)[k]) by {
                            if k < arr.len() { assert(arr.push(entry)[k] == arr[k]); }
                        }
                        assert(well_keyed(SValue::Array(arr.push(entry))));
                    }
                },
                None => {
                    lemma_items_keyed(seq![entry]);
                    assert(well_keyed(SValue::Array(seq![entry])));
                },
            }
        } else {
            let empty: Fields = seq![];
            assert(well_keyed(SValue::Object(empty)));
            let fs1 = if find_key(fs, key) is None { fs.push((key, SValue::Object(seq![]))) } else { fs };
            assert(distinct_keys(fs1) && fields_keyed(fs1));
            lemma_find_key(fs1, key);
            lemma_keyed_edit(fs1);
            lemma_fields_keyed(fs1);
            if find_key(fs, key) is None {
                assert(fs1[fs1.len() - 1].0 == key);
            }
            let j = match find_key(fs1, key) { Some(j) => j, None => fs1.len() - 1 };
            assert(0 <= j < fs1.len());
            if fs1[j].1 is Object {
                assert(well_keyed(fs1[j].1));
                lemma_append_keyed(fs1[j].1->Object_0, inner_spans(sp, key), path, i + 1, entry, line, col, width);
                let r = append_at(fs1[j].1->Object_0, inner_spans(sp, key), path, i + 1, entry, line, col, width);
                assert(well_keyed(SValue::Object(r.0)));
                assert(fs1[j].0 == key);
            }
        }
    }
}

proof fn lemma_scalar_keyed(t: Option<SToken>)
    ensures
        well_keyed(value_of(t).0),
{
}

proof fn lemma_empty_keyed()
    ensures
        distinct_keys(Seq::<(Seq<char>, SValue)>::empty()),
        fields_keyed(Seq::<(Seq<char>, SValue)>::empty()),
        items_keyed(Seq::<SValue>::empty()),
{
}

proof fn lemma_statement_keyed(ts: Seq<SSpanned>, pos: int, fs: Fields, sp: Spans, ds: Seq<Diag>, depth: int)
    requires
        distinct_keys(fs),
        fields_keyed(fs),
    ensures
        distinct_keys(p_statement(ts, pos, fs, sp, ds, depth).fields),
        fields_keyed(p_statement(ts, pos, fs, sp, ds, depth).fields),
    decreases ts.len() - pos, 0int,
{
    if !(pos < 0 || pos > ts.len() || depth < 0 || depth_at(ts, pos) < depth) {
        let p = pos + depth;
        lemma_pipes_end(ts, pos);
        match tok_at(ts, p) {
            Some(SToken::Tilde) => {
                lemma_append_stmt_keyed(ts, p + 1, fs, sp, ds, depth, ts[p].line, ts[p].col);
            },
            Some(SToken::Ident(name)) => {
                lemma_ident_keyed(ts, p + 1, name, fs, sp, ds, depth, ts[p].line, ts[p].col);
            },
            _ => {},
        }
    }
}

proof fn lemma_block_keyed(ts: Seq<SSpanned>, pos: int, fs: Fields, sp: Spans, ds: Seq<Diag>, d: int)
    requires
        distinct_keys(fs),
        fields_keyed(fs),
    ensures
        distinct_keys(p_block(ts, pos, fs, sp, ds, d).fields),
        fields_keyed(p_block(ts, pos, fs, sp, ds, d).fields),
    decreases ts.len() - pos, 1int,
{
    if !(pos < 0 || pos > ts.len() || depth_at(ts, pos) != d) {
        lemma_statement_keyed(ts, pos, fs, sp, ds, d);
        let r = p_statement(ts, pos, fs, sp, ds, d);
        let p2 = skip_cn(ts, r.pos);
        if pos < p2 <= ts.len() {
            lemma_block_keyed(ts, p2, r.fields, r.spans, r.diags, d);
        }
    }
}

proof fn lemma_array_keyed(ts: Seq<SSpanned>, pos: int, items: Seq<SValue>, ds: Seq<Diag>, depth: int)
    requires
        items_keyed(items),
    ensures
        items_keyed(p_array(ts, pos, items, ds, depth).items),
    decreases ts.len() - pos, 2int,
{
    if !(pos < 0 || pos > ts.len() || depth < 0 || depth_at(ts, pos) != depth + 1) {
        let p = pos + depth + 1;
        lemma_pipes_end(ts, pos);
        lemma_empty_keyed();
        match tok_at(ts, p) {
            Some(SToken::Dash) => {
                lemma_skip_cn(ts, p + 1);
                let p1 = skip_cn(ts, p + 1);
                let e = if depth_at(ts, p1) == depth + 2 {
                    lemma_block_keyed(ts, p1, seq![], seq![], ds, depth + 2);
                    let r = p_block(ts, p1, seq![], seq![], ds, depth + 2);
                    (r.pos, SValue::Object(r.fields), r.diags)
                } else {
                    match tok_at(ts, p1) {
                        Some(SToken::Newline) | None => (p1, SValue::Null, ds),
                        Some(SToken::Ident(name)) | Some(SToken::Str(name)) => {
                            if entry_has_children(ts, p1, depth) {
                                lemma_ident_keyed(ts, p1 + 1, name, seq![], seq![], ds, depth + 1, ts[p1].line, ts[p1].col);
                                let r = p_ident(ts, p1 + 1, name, seq![], seq![], ds, depth + 1, ts[p1].line, ts[p1].col);
                                (r.pos, SValue::Object(r.fields), r.diags)
                            } else {
                                (p1 + 1, SValue::Str(name), ds)
                            }
                        },
                        t => {
                            lemma_scalar_keyed(t);
                            let v = value_of(t);
                            (if v.1 { p1 + 1 } else { p1 }, v.0, ds)
                        },
                    }
                };
                assert(well_keyed(e.1));
                lemma_items_keyed(items);
                lemma_items_keyed(items.push(e.1));
                assert forall|k: int| 0 <= k < items.push(e.1).len() implies well_keyed(#[trigger] items.push(e.1)[k]) by {
                    if k < items.len() { assert(items.push(e.1)[k] == items[k]); }
                }
                let p3 = skip_cn(ts, e.0);
                if pos < p3 <= ts.len() {
                    lemma_array_keyed(ts, p3, items.push(e.1), e.2, depth);
                }
            },
            Some(SToken::Newline) => {
                lemma_skip_cn(ts, p + 1);
                let p1 = skip_cn(ts, p + 1);
                if p1 <= ts.len() {
                    lemma_array_keyed(ts, p1, items, ds, depth);
                }
            },
            _ => {},
        }
    }
}

proof fn lemma_ident_keyed(ts: Seq<SSpanned>, pos: int, name: Seq<char>, fs: Fields, sp: Spans, ds: Seq<Diag>,
    depth: int, line: int, col: int)
    requires
        distinct_keys(fs),
        fields_keyed(fs),
    ensures
        distinct_keys(p_ident(ts, pos, name, fs, sp, ds, depth, line, col).fields),
        fields_keyed(p_ident(ts, pos, name, fs, sp, ds, depth, line, col).fields),
    decreases ts.len() - pos, 3int,
{
    lemma_empty_keyed();
    if !(pos < 0 || pos > ts.len() || depth < 0) {
        match tok_at(ts, pos) {
            Some(SToken::Dot) => match tok_at(ts, pos + 1) {
                Some(SToken::Ident(next)) => {
                    lemma_ident_keyed(ts, pos + 2, next, seq![], seq![], ds, depth, line, col);
                    let r = p_ident(ts, pos + 2, next, seq![], seq![], ds, depth, line, col);
                    assert(well_keyed(SValue::Object(r.fields)));
                    lemma_merge_keyed(fs, sp, name, SValue::Object(r.fields), r.spans, line, col, r.diags);
                },
                _ => {},
            },
            Some(SToken::Equals) => {
                lemma_scalar_keyed(tok_at(ts, pos + 1));
                let v = value_of(tok_at(ts, pos + 1));
                lemma_merge_keyed(fs, sp, name, v.0, seq![], line, col, ds);
            },
            Some(SToken::Newline) | None => {
                lemma_skip_cn(ts, pos);
                let p1 = skip_cn(ts, pos);
                if is_array_block(ts, p1, depth + 1) {
                    lemma_array_keyed(ts, p1, seq![], ds, depth);
                    let r = p_array(ts, p1, seq![], ds, depth);
                    assert(well_keyed(SValue::Array(r.items)));
                    lemma_merge_keyed(fs, sp, name, SValue::Array(r.items), seq![], line, col, r.diags);
                } else {
                    lemma_block_keyed(ts, p1, seq![], seq![], ds, depth + 1);
                    let r = p_block(ts, p1, seq![], seq![], ds, depth + 1);
                    assert(well_keyed(SValue::Object(r.fields)));
                    lemma_merge_keyed(fs, sp, name, SValue::Object(r.fields), r.spans, line, col, r.diags);
                }
            },
            _ => {},
        }
    }
}

proof fn lemma_append_stmt_keyed(ts: Seq<SSpanned>, pos: int, fs: Fields, sp: Spans, ds: Seq<Diag>, depth: int, tl: int, tc: int)
    requires
        distinct_keys(fs),
        fields_keyed(fs),
    ensures
        distinct_keys(p_append(ts, pos, fs, sp, ds, depth, tl, tc).fields),
        fields_keyed(p_append(ts, pos, fs, sp, ds, depth, tl, tc).fields),
    decreases ts.len() - pos, 3int,
{
    lemma_empty_keyed();
    if !(pos < 0 || pos > ts.len() || depth < 0) {
        match tok_at(ts, pos) {
            Some(SToken::Ident(name)) => {
                let rp = read_path(ts, pos + 1, seq![name]);
                lemma_read_path(ts, pos + 1, seq![name]);
                lemma_skip_cn(ts, rp.1);
                let p2 = skip_cn(ts, rp.1);
                lemma_block_keyed(ts, p2, seq![], seq![], ds, depth + 1);
                let r = p_block(ts, p2, seq![], seq![], ds, depth + 1);
                let entry = if r.fields.len() == 0 { SValue::Null } else { SValue::Object(r.fields) };
                assert(well_keyed(entry));
                lemma_append_keyed(fs, sp, rp.0, 0, entry, tl, tc, path_width(rp.0));
            },
            _ => {},
        }
    }
}

proof fn lemma_top_keyed(ts: Seq<SSpanned>, pos: int, fs: Fields, sp: Spans, ds: Seq<Diag>, base: int)
    requires
        distinct_keys(fs),
        fields_keyed(fs),
    ensures
        distinct_keys(p_top(ts, pos, fs, sp, ds, base).fields),
        fields_keyed(p_top(ts, pos, fs, sp, ds, base).fields),
    decreases ts.len() - pos,
{
    if !(pos < 0 || pos >= ts.len()) {
        lemma_statement_keyed(ts, pos, fs, sp, ds, base);
        let r = p_statement(ts, pos, fs, sp, ds, base);
        let p2 = skip_cn(ts, r.pos);
        if p2 <= pos {
            lemma_line_after(ts, pos);
            lemma_skip_cn(ts, line_after(ts, pos));
            let q = skip_cn(ts, line_after(ts, pos));
            if q < ts.len() {
                lemma_top_keyed(ts, q, r.fields, r.spans, r.diags.push(shallow_diag(ts[pos].line, ts[pos].col)), base);
            }
        } else if p2 < ts.len() {
            lemma_top_keyed(ts, p2, r.fields, r.spans, r.diags, base);
        }
    }
}

/// Every object that parsing produces — the top-level object and every
/// object nested in it, through arrays too — has pairwise distinct keys:
/// a key defined twice is merged (two objects) or reported, never stored
/// twice.
pub proof fn law_parse_keys_distinct(ts: Seq<SSpanned>, pos: int, ds: Seq<Diag>)
    ensures
        well_keyed(SValue::Object(parse_from(ts, pos, ds).0)),
{
    lemma_empty_keyed();
    let p0 = skip_cn(ts, pos);
    lemma_top_keyed(ts, p0, seq![], seq![], ds + lexical_diags(ts), depth_at(ts, p0));
}

/// In an object with distinct keys, looking up the key stored at position
/// `i` finds position `i`: `get(key_at(i))` reads the `i`-th field.
pub proof fn law_lookup_by_position(fs: Fields, i: int)
    requires
        distinct_keys(fs),
        0 <= i < fs.len(),
    ensures
        find_key(fs, fs[i].0) == Some(i),
{
    lemma_find_key(fs, fs[i].0);
}


/// The JSON outcome says whether parsing succeeded: right after the
/// format details comes `,"ok":true` for a success and `,"ok":false` for
/// a failure, so no success reads as a failure or the reverse.
pub proof fn law_json_ok_flag(header: Seq<char>, v: SValue, errors: Seq<Seq<char>>)
    ensures
        json_outcome(header, Ok(v)).subrange(0, header.len() + 10int) == header + ",\"ok\":true"@,
        json_outcome(header, Err(errors)).subrange(0, header.len() + 11int) == header + ",\"ok\":false"@,
        json_outcome(header, Ok(v)) != json_outcome(header, Err(errors)),
{
    reveal_strlit(",\"ok\":true,\"value\":");
    reveal_strlit(",\"ok\":true");
    reveal_strlit(",\"ok\":false,\"value\":null,\"errors\":[");
    reveal_strlit(",\"ok\":false");
    let h = header;
    let s = json_outcome(header, Ok(v));
    let f = json_outcome(header, Err(errors));
    assert(s.subrange(0, h.len() + 10int) =~= h + ",\"ok\":true"@);
    assert(f.subrange(0, h.len() + 11int) =~= h + ",\"ok\":false"@);
    assert(s[h.len() + 6int] == 't');
    assert(f[h.len() + 6int] == 'f');
}

proof fn lemma_json_char_printable(c: char)
    ensures
        forall|i: int| 0 <= i < json_char(c).len() ==> (#[trigger] json_char(c)[i]) as int >= 0x20,
{
    if (c as int) < 0x20 && c != '\n' && c != '\t' {
        let d1 = c as int / 16;
        let d2 = c as int % 16;
        assert(hex_digit(d1) as int >= 0x20);
        assert(hex_digit(d2) as int >= 0x20);
    }
}

/// JSON string contents never hold a raw control character: every
/// character below U+0020 is written as an escape.
pub proof fn law_json_escape_printable(s: Seq<char>)
    ensures
        forall|i: int| 0 <= i < json_escape(s).len() ==> (#[trigger] json_escape(s)[i]) as int >= 0x20,
    decreases s.len(),
{
    if s.len() > 0 {
        law_json_escape_printable(s.drop_last());
        lemma_json_char_printable(s.last());
        let a = json_escape(s.drop_last());
        let b = json_char(s.last());
        assert forall|i: int| 0 <= i < json_escape(s).len() implies (#[trigger] json_escape(s)[i]) as int >= 0x20 by {
            if i < a.len() {
                assert(json_escape(s)[i] == a[i]);
            } else {
                assert(json_escape(s)[i] == b[i - a.len()]);
            }
        }
    }
}

/// Defining a key that already holds a value which cannot be merged with
/// the new one (they are not both objects) keeps the first value and
/// records one diagnostic: `duplicate-key` for two non-objects,
/// `type-conflict` when one of them is an object.
pub proof fn law_redefinition_keeps_first(fs: Fields, sp: Spans, key: Seq<char>, v: SValue, vsp: Spans, line: int, col: int, ds: Seq<Diag>)
    requires
        find_key(fs, key) is Some,
        !(fs[find_key(fs, key)->Some_0].1 is Object && v is Object),
    ensures
        merge(fs, sp, key, v, vsp, line, col, ds).fields == fs,
        merge(fs, sp, key, v, vsp, line, col, ds).diags.len() == ds.len() + 1,
        merge(fs, sp, key, v, vsp, line, col, ds).diags.subrange(0, ds.len() as int) == ds,
        merge(fs, sp, key, v, vsp, line, col, ds).diags.last().kind == if fs[find_key(fs, key)->Some_0].1 is Object || v is Object {
            "type-conflict"@
        } else {
            "duplicate-key"@
        },
        merge(fs, sp, key, v, vsp, line, col, ds).diags.last()
            == conflict_diag(key, fs[find_key(fs, key)->Some_0].1, v, find_span(sp, key), line, col),
{
    let m = merge(fs, sp, key, v, vsp, line, col, ds);
    assert(m.diags.subrange(0, ds.len() as int) =~= ds);
}

/// Defining again, inside an object that is defined again, a key of that
/// object that cannot be merged reports it where it is redefined and
/// cites where it was first defined in the first definition of the
/// object: the merge of the two objects keeps the records of the keys
/// below them.
pub proof fn law_nested_redefinition_cites_first(fs: Fields, sp: Spans, key: Seq<char>, k: Seq<char>, w: SValue,
    vsp: Spans, line: int, col: int, ds: Seq<Diag>)
    requires
        find_key(fs, key) is Some,
        fs[find_key(fs, key)->Some_0].1 is Object,
        find_key(fs[find_key(fs, key)->Some_0].1->Object_0, k) is Some,
        !(fs[find_key(fs, key)->Some_0].1->Object_0[find_key(fs[find_key(fs, key)->Some_0].1->Object_0, k)->Some_0].1 is Object
            && w is Object),
    ensures
        ({
            let inner = fs[find_key(fs, key)->Some_0].1->Object_0;
            let old = inner[find_key(inner, k)->Some_0].1;
            let m = merge(fs, sp, key, SValue::Object(seq![(k, w)]), vsp, line, col, ds);
            let here = match span_pos(vsp, k) {
                Some(j) => (vsp[j].line, vsp[j].col),
                None => (line, col),
            };
            &&& m.fields == fs
            &&& m.diags == ds.push(conflict_diag(k, old, w, find_span(inner_spans(sp, key), k), here.0, here.1))
        }),
{
    let i = find_key(fs, key)->Some_0;
    let inner = fs[i].1->Object_0;
    let b = seq![(k, w)];
    lemma_find_key(fs, key);
    assert(b.drop_last() =~= Seq::<(Seq<char>, SValue)>::empty());
    let r0 = merge_all(inner, inner_spans(sp, key), b.drop_last(), vsp, line, col, ds);
    assert(r0.fields == inner && r0.spans == inner_spans(sp, key) && r0.diags == ds);
    let (vs, l, c) = match span_pos(vsp, k) {
        Some(j) => (vsp[j].inner, vsp[j].line, vsp[j].col),
        None => (seq![], line, col),
    };
    assert(b.last() == (k, w));
    let r = merge_all(inner, inner_spans(sp, key), b, vsp, line, col, ds);
    assert(r == merge(inner, inner_spans(sp, key), k, w, vs, l, c, ds));
    lemma_find_key(inner, k);
    let old = inner[find_key(inner, k)->Some_0].1;
    assert(r.fields == inner);
    assert(r.diags == ds.push(conflict_diag(k, old, w, find_span(inner_spans(sp, key), k), l, c)));
    assert(SValue::Object(b)->Object_0 == b);
    assert(fs.update(i, (key, SValue::Object(inner))) =~= fs) by {
        assert(fs[i] == (key, SValue::Object(inner)));
    }
}

/// Merging fields whose keys are distinct and absent from the target
/// appends them, in order, after the target's fields, with no diagnostic:
/// an object defined again with new keys gains them at its end.
pub proof fn law_merge_new_keys(a: Fields, sp: Spans, b: Fields, bsp: Spans, line: int, col: int, ds: Seq<Diag>)
    requires
        distinct_keys(b),
        forall|i: int, j: int| 0 <= i < a.len() && 0 <= j < b.len() ==> a[i].0 != b[j].0,
    ensures
        merge_all(a, sp, b, bsp, line, col, ds).fields == a + b,
        merge_all(a, sp, b, bsp, line, col, ds).diags == ds,
    decreases b.len(),
{
    if b.len() == 0 {
        assert(a + b =~= a);
    } else {
        let d = b.drop_last();
        assert(distinct_keys(d)) by {
            assert forall|i: int, j: int| 0 <= i < j < d.len() implies d[i].0 != d[j].0 by {
                assert(d[i] == b[i] && d[j] == b[j]);
            }
        }
        assert forall|i: int, j: int| 0 <= i < a.len() && 0 <= j < d.len() implies a[i].0 != d[j].0 by {
            assert(d[j] == b[j]);
        }
        law_merge_new_keys(a, sp, d, bsp, line, col, ds);
        let r = merge_all(a, sp, d, bsp, line, col, ds);
        let k = b.last().0;
        lemma_find_key(r.fields, k);
        assert forall|j: int| 0 <= j < r.fields.len() implies r.fields[j].0 != k by {
            if j < a.len() {
                assert(r.fields[j] == a[j]);
                assert(a[j].0 != b[b.len() - 1].0);
            } else {
                assert(r.fields[j] == d[j - a.len()]);
                assert(d[j - a.len()] == b[j - a.len()]);
            }
        }
        assert(find_key(r.fields, k) is None) by {
            match find_key(r.fields, k) {
                Some(x) => {
                    assert(r.fields[x].0 == k);
                },
                None => {},
            }
        }
        let (vs, l, c) = match span_pos(bsp, k) {
            Some(j) => (bsp[j].inner, bsp[j].line, bsp[j].col),
            None => (seq![], line, col),
        };
        let m = merge(r.fields, r.spans, k, b.last().1, vs, l, c, r.diags);
        assert(m.fields == r.fields.push((k, b.last().1)));
        assert((k, b.last().1) == b.last());
        assert(r.fields.push(b.last()) =~= a + b);
        assert(merge_all(a, sp, b, bsp, line, col, ds) == m);
    }
}

/// A non-empty run of digits.
pub open spec fn digit_run(t: Seq<char>) -> bool {
    t.len() > 0 && forall|i: int| 0 <= i < t.len() ==> is_digit(#[trigger] t[i])
}

proof fn lemma_strip_leading_run(t: Seq<char>)
    requires
        digit_run(t),
    ensures
        digit_run(strip_leading_zeros(t)),
    decreases t.len(),
{
    if t.len() > 1 && t[0] == '0' {
        let r = t.drop_first();
        assert forall|i: int| 0 <= i < r.len() implies is_digit(#[trigger] r[i]) by {
            assert(r[i] == t[i + 1]);
        }
        lemma_strip_leading_run(r);
    }
}

proof fn lemma_strip_trailing_digits(f: Seq<char>)
    requires
        forall|i: int| 0 <= i < f.len() ==> is_digit(#[trigger] f[i]),
    ensures
        forall|i: int| 0 <= i < strip_trailing_zeros(f).len() ==> is_digit(#[trigger] strip_trailing_zeros(f)[i]),
    decreases f.len(),
{
    if f.len() > 0 && f.last() == '0' {
        let r = f.drop_last();
        assert forall|i: int| 0 <= i < r.len() implies is_digit(#[trigger] r[i]) by {
            assert(r[i] == f[i]);
        }
        lemma_strip_trailing_digits(r);
        assert(strip_trailing_zeros(f) == strip_trailing_zeros(r));
    } else {
        assert(strip_trailing_zeros(f) == f);
    }
}

proof fn lemma_dot_bounds(t: Seq<char>, i: int)
    requires
        0 <= i <= t.len(),
    ensures
        i <= dot_index(t, i) <= t.len(),
        dot_index(t, i) < t.len() ==> t[dot_index(t, i)] == '.',
        forall|j: int| i <= j < dot_index(t, i) ==> t[j] != '.',
    decreases t.len() - i,
{
    if i < t.len() && t[i] != '.' {
        lemma_dot_bounds(t, i + 1);
    }
}

/// An unsigned number literal built from an integer digit run and an
/// optional fraction digit run.
proof fn lemma_unsigned_from_parts(i: Seq<char>, f: Seq<char>)
    requires
        digit_run(i),
        forall|k: int| 0 <= k < f.len() ==> is_digit(#[trigger] f[k]),
    ensures
        unsigned_number(i + (if f.len() > 0 { seq!['.'] + f } else { seq![] })),
        f.len() == 0 ==> unsigned_number(i),
{
    let t = i + (if f.len() > 0 { seq!['.'] + f } else { seq![] });
    if f.len() == 0 {
        assert(t =~= i);
    } else {
        assert(t.len() == i.len() + 1 + f.len());
        assert forall|k: int| 0 <= k < t.len() implies is_digit(#[trigger] t[k]) || t[k] == '.' by {
            if k < i.len() { assert(t[k] == i[k]); } else if k > i.len() { assert(t[k] == f[k - i.len() - 1]); }
        }
        assert(t[0] == i[0]);
        assert(t.last() == f.last());
        assert forall|a: int, b: int| #![trigger t[a], t[b]] 0 <= a < b < t.len() && t[a] == '.' implies t[b] != '.' by {
            if a < i.len() { assert(t[a] == i[a]); }
            if a > i.len() { assert(t[a] == f[a - i.len() - 1]); }
            if a == i.len() { assert(t[b] == f[b - i.len() - 1]); }
        }
    }
}

/// The canonical forms of a number literal are number literals again:
/// the JSON rendering and the Spine writer only ever print numbers that
/// the lexer reads back as numbers.
pub proof fn law_number_forms_are_numbers(s: Seq<char>)
    requires
        is_spine_number(s),
    ensures
        is_spine_number(short_number(s)),
        is_spine_number(fixed_number(s)),
{
    let neg = s.len() > 0 && s[0] == '-';
    let body = if neg { s.drop_first() } else { s };
    assert(unsigned_number(body));
    lemma_dot_bounds(body, 0);
    let d = dot_index(body, 0);
    let int_digits = body.subrange(0, d);
    assert(d >= 1) by {
        if d == 0 { assert(body[0] == '.'); }
    }
    assert(digit_run(int_digits)) by {
        assert forall|k: int| 0 <= k < int_digits.len() implies is_digit(#[trigger] int_digits[k]) by {
            assert(int_digits[k] == body[k]);
            assert(body[k] != '.');
        }
    }
    let frac = if d < body.len() { body.subrange(d + 1, body.len() as int) } else { seq![] };
    assert forall|k: int| 0 <= k < frac.len() implies is_digit(#[trigger] frac[k]) by {
        assert(frac[k] == body[d + 1 + k]);
        assert(body[d] == '.');
        assert(body[d + 1 + k] != '.');
    }
    lemma_strip_leading_run(int_digits);
    lemma_strip_trailing_digits(frac);
    let p = number_parts(s);
    assert(p.1 == strip_leading_zeros(int_digits));
    assert(p.2 == strip_trailing_zeros(frac));
    lemma_unsigned_from_parts(p.1, p.2);
    let f2 = if p.2.len() > 0 { p.2 } else { seq!['0'] };
    assert forall|k: int| 0 <= k < f2.len() implies is_digit(#[trigger] f2[k]) by {}
    lemma_unsigned_from_parts(p.1, f2);
    let u1 = p.1 + (if p.2.len() > 0 { seq!['.'] + p.2 } else { seq![] });
    let u2 = p.1 + (seq!['.'] + f2);
    assert(p.1 + seq!['.'] + f2 =~= u2);
    let sign: Seq<char> = if p.0 { seq!['-'] } else { seq![] };
    assert(short_number(s) =~= sign + u1);
    assert(fixed_number(s) =~= sign + u2);
    if p.0 {
        assert((sign + u1).drop_first() =~= u1);
        assert((sign + u2).drop_first() =~= u2);
    } else {
        assert(u1[0] != '-');
        assert(u2[0] != '-');
        assert(sign + u1 =~= u1);
        assert(sign + u2 =~= u2);
    }
}

/// A token at line 1, column 1 (positions do not affect the fields).
pub open spec fn tk(t: SToken) -> SSpanned {
    SSpanned { tok: t, line: 1, col: 1 }
}

/// The fields that a key path `ks[i..]` holding `v` denotes: `ks[i]`
/// holding `ks[i + 1]` holding … holding `v`.
pub open spec fn nest(ks: Seq<Seq<char>>, i: int, v: SValue) -> Fields
    decreases ks.len() - i,
{
    if i >= ks.len() - 1 {
        seq![(ks[i], v)]
    } else {
        seq![(ks[i], SValue::Object(nest(ks, i + 1, v)))]
    }
}

/// The token at `p` of `ks[0].ks[1]. … = t` and a newline.
pub open spec fn dotted_tok(ks: Seq<Seq<char>>, t: SToken, p: int) -> SToken {
    let n = ks.len() as int;
    if p == 2 * n - 1 {
        SToken::Equals
    } else if p == 2 * n {
        t
    } else if p == 2 * n + 1 {
        SToken::Newline
    } else if p % 2 == 0 {
        SToken::Ident(ks[p / 2])
    } else {
        SToken::Dot
    }
}

/// The tokens of `ks[0].ks[1]. … = t` and a newline.
pub open spec fn dotted_path_stream(ks: Seq<Seq<char>>, t: SToken) -> Seq<SSpanned> {
    Seq::new((2 * ks.len() + 2) as nat, |p: int| tk(dotted_tok(ks, t, p)))
}

/// A token that no diagnostic comes from before parsing.
pub open spec fn clean(t: SToken) -> bool {
    !(t is Unknown) && !(t is Error)
}

proof fn lemma_no_lexical(ts: Seq<SSpanned>, m: int)
    requires
        0 <= m <= ts.len(),
        forall|p: int| 0 <= p < ts.len() ==> clean(#[trigger] ts[p].tok),
    ensures
        unknown_diags(ts, m) == Seq::<Diag>::empty(),
        error_diags(ts, m) == Seq::<Diag>::empty(),
    decreases m,
{
    if m > 0 {
        lemma_no_lexical(ts, m - 1);
        assert(clean(ts[m - 1].tok));
        assert(unknown_diags(ts, m) =~= Seq::<Diag>::empty());
        assert(error_diags(ts, m) =~= Seq::<Diag>::empty());
    }
}

proof fn lemma_dotted_ident(ks: Seq<Seq<char>>, t: SToken, i: int)
    requires
        0 <= i < ks.len(),
        value_of(Some(t)).1,
    ensures
        ({
            let d = dotted_path_stream(ks, t);
            let r = p_ident(d, 2 * i + 1, ks[i], seq![], seq![], seq![], 0, 1, 1);
            r.fields == nest(ks, i, value_of(Some(t)).0) && r.diags == Seq::<Diag>::empty() && r.pos == d.len()
        }),
    decreases ks.len() - i,
{
    let d = dotted_path_stream(ks, t);
    let n = ks.len() as int;
    let e = Seq::<Diag>::empty();
    let v = value_of(Some(t)).0;
    assert(find_key(Seq::<(Seq<char>, SValue)>::empty(), ks[i]) is None);
    if i == n - 1 {
        assert(tok_at(d, 2 * i + 1) == Some(SToken::Equals));
        assert(tok_at(d, 2 * i + 2) == Some(t));
        assert(d[2 * n + 1].tok == SToken::Newline);
        assert(skip_cn(d, 2 * n + 2) == 2 * n + 2);
        assert(skip_cn(d, 2 * n + 1) == 2 * n + 2);
        let r = p_ident(d, 2 * i + 1, ks[i], seq![], seq![], e, 0, 1, 1);
        assert(r.fields =~= nest(ks, i, v));
    } else {
        lemma_dotted_ident(ks, t, i + 1);
        assert(tok_at(d, 2 * i + 1) == Some(SToken::Dot));
        assert((2 * i + 2) % 2 == 0 && (2 * i + 2) / 2 == i + 1);
        assert(tok_at(d, 2 * i + 2) == Some(SToken::Ident(ks[i + 1])));
        assert(2 * i + 3 == 2 * (i + 1) + 1);
        let r = p_ident(d, 2 * i + 1, ks[i], seq![], seq![], e, 0, 1, 1);
        assert(r.fields =~= nest(ks, i, v));
    }
}

/// Where line `i` of the nested form of a key path starts: line `j`
/// holds `j` pipes, a key and a newline.
pub open spec fn line_start(i: int) -> int
    decreases i,
{
    if i <= 0 { 0 } else { line_start(i - 1) + (i - 1) + 2 }
}

/// The token at offset `o` of line `i` of the nested form: `i` pipes, the
/// key `ks[i]`, then a newline, or `= t` and a newline on the last line.
pub open spec fn line_tok(ks: Seq<Seq<char>>, t: SToken, i: int, o: int) -> SToken {
    if o < i {
        SToken::Pipe
    } else if o == i {
        SToken::Ident(ks[i])
    } else if i < ks.len() - 1 {
        SToken::Newline
    } else if o == i + 1 {
        SToken::Equals
    } else if o == i + 2 {
        t
    } else {
        SToken::Newline
    }
}

/// The token at `p` of the nested form, looking from line `i` on.
pub open spec fn nested_tok_from(ks: Seq<Seq<char>>, t: SToken, i: int, p: int) -> SToken
    decreases ks.len() - i,
{
    if i >= ks.len() - 1 || p < line_start(i) + i + 2 {
        line_tok(ks, t, i, p - line_start(i))
    } else {
        nested_tok_from(ks, t, i + 1, p)
    }
}

/// The tokens of `ks[0]`, `| ks[1]`, `| | ks[2]`, …, the last line ending
/// in `= t`, each line ended by a newline.
pub open spec fn nested_path_stream(ks: Seq<Seq<char>>, t: SToken) -> Seq<SSpanned> {
    Seq::new((line_start(ks.len() - 1) + ks.len() + 3) as nat, |p: int| tk(nested_tok_from(ks, t, 0, p)))
}

proof fn lemma_line_start_mono(m: int, i: int)
    requires
        0 <= m <= i,
    ensures
        line_start(m) <= line_start(i),
        m < i ==> line_start(m) + m + 2 <= line_start(i),
    decreases i - m,
{
    if m < i {
        lemma_line_start_mono(m, i - 1);
    }
}

proof fn lemma_nested_tok(ks: Seq<Seq<char>>, t: SToken, m: int, i: int, o: int)
    requires
        0 <= m <= i < ks.len(),
        0 <= o,
        i < ks.len() - 1 ==> o < i + 2,
    ensures
        nested_tok_from(ks, t, m, line_start(i) + o) == line_tok(ks, t, i, o),
    decreases i - m,
{
    if m < i {
        lemma_line_start_mono(m, i);
        lemma_nested_tok(ks, t, m + 1, i, o);
    }
}

proof fn lemma_nested_clean(ks: Seq<Seq<char>>, t: SToken, m: int, p: int)
    requires
        0 <= m,
        clean(t),
    ensures
        clean(nested_tok_from(ks, t, m, p)),
    decreases ks.len() - m,
{
    if !(m >= ks.len() - 1 || p < line_start(m) + m + 2) {
        lemma_nested_clean(ks, t, m + 1, p);
    }
}

/// The token at offset `o` of line `i` of the nested stream.
proof fn lemma_nested_at(ks: Seq<Seq<char>>, t: SToken, i: int, o: int)
    requires
        0 <= i < ks.len(),
        0 <= o,
        i < ks.len() - 1 ==> o < i + 2,
        i == ks.len() - 1 ==> o < i + 4,
    ensures
        line_start(i) + o < nested_path_stream(ks, t).len(),
        nested_path_stream(ks, t)[line_start(i) + o].tok == line_tok(ks, t, i, o),
{
    let n = ks.len() as int;
    lemma_line_start_mono(i, n - 1);
    lemma_line_start_mono(0, i);
    lemma_nested_tok(ks, t, 0, i, o);
    let len = line_start(n - 1) + n + 3;
    assert(line_start(i) + o < len);
    assert(nested_path_stream(ks, t).len() == len);
    assert(nested_path_stream(ks, t)[line_start(i) + o] == tk(nested_tok_from(ks, t, 0, line_start(i) + o)));
}

proof fn lemma_nested_pipes(ks: Seq<Seq<char>>, t: SToken, i: int, j: int)
    requires
        0 <= j <= i < ks.len(),
    ensures
        pipes_end(nested_path_stream(ks, t), line_start(i) + j) == line_start(i) + i,
    decreases i - j,
{
    lemma_nested_at(ks, t, i, j);
    lemma_line_start_mono(0, i);
    let ts = nested_path_stream(ks, t);
    if j < i {
        lemma_nested_pipes(ks, t, i, j + 1);
        assert(ts[line_start(i) + j].tok is Pipe);
        assert(pipes_end(ts, line_start(i) + j) == pipes_end(ts, line_start(i) + j + 1));
    } else {
        assert(!(ts[line_start(i) + j].tok is Pipe));
    }
}

proof fn lemma_nested_ident(ks: Seq<Seq<char>>, t: SToken, i: int)
    requires
        0 <= i < ks.len(),
        value_of(Some(t)).1,
    ensures
        ({
            let ts = nested_path_stream(ks, t);
            let r = p_ident(ts, line_start(i) + i + 1, ks[i], seq![], seq![], seq![], i, 1, 1);
            r.fields == nest(ks, i, value_of(Some(t)).0) && r.diags == Seq::<Diag>::empty() && r.pos == ts.len()
        }),
    decreases ks.len() - i,
{
    let ts = nested_path_stream(ks, t);
    let n = ks.len() as int;
    let e = Seq::<Diag>::empty();
    let v = value_of(Some(t)).0;
    let q = line_start(i);
    lemma_line_start_mono(0, i);
    assert(find_key(Seq::<(Seq<char>, SValue)>::empty(), ks[i]) is None);
    if i == n - 1 {
        lemma_nested_at(ks, t, i, i + 1);
        lemma_nested_at(ks, t, i, i + 2);
        lemma_nested_at(ks, t, i, i + 3);
        assert(ts.len() == q + i + 4);
        assert(tok_at(ts, q + i + 1) == Some(SToken::Equals));
        assert(tok_at(ts, q + i + 2) == Some(t));
        assert(skip_cn(ts, q + i + 4) == q + i + 4);
        assert(skip_cn(ts, q + i + 3) == q + i + 4);
        let r = p_ident(ts, q + i + 1, ks[i], seq![], seq![], e, i, 1, 1);
        assert(r.fields =~= nest(ks, i, v));
    } else {
        lemma_nested_ident(ks, t, i + 1);
        let q1 = line_start(i + 1);
        assert(q1 == q + i + 2);
        lemma_nested_at(ks, t, i, i + 1);
        lemma_nested_at(ks, t, i + 1, 0);
        lemma_nested_at(ks, t, i + 1, i + 1);
        lemma_nested_pipes(ks, t, i + 1, 0);
        assert(tok_at(ts, q + i + 1) == Some(SToken::Newline));
        assert(ts[q1].tok is Pipe);
        assert(pipes_end(ts, q1) == q1 + i + 1);
        assert(ts[q1 + i + 1].tok == SToken::Ident(ks[i + 1]));
        assert(skip_cn(ts, q1) == q1);
        assert(skip_cn(ts, q + i + 1) == q1);
        assert(depth_at(ts, q1) == i + 1);
        assert(!is_array_block(ts, q1, i + 1));
        let ri = p_ident(ts, q1 + (i + 1) + 1, ks[i + 1], seq![], seq![], e, i + 1, 1, 1);
        assert(p_statement(ts, q1, seq![], seq![], e, i + 1) == ri);
        assert(pipes_end(ts, ts.len() as int) == ts.len());
        assert(skip_cn(ts, ts.len() as int) == ts.len());
        assert(p_block(ts, ts.len() as int, ri.fields, ri.spans, e, i + 1)
            == PR { pos: ts.len() as int, fields: ri.fields, spans: ri.spans, diags: e });
        let blk = p_block(ts, q1, seq![], seq![], e, i + 1);
        assert(blk.fields == ri.fields && blk.diags == e && blk.pos == ts.len());
        let r = p_ident(ts, q + i + 1, ks[i], seq![], seq![], e, i, 1, 1);
        assert(r.fields =~= nest(ks, i, v));
    }
}

/// A dotted key path is the same as nested blocks, for any path and any
/// value: `ks[0].ks[1]. … = v` and `ks[0]` / `| ks[1]` / `| | ks[2]` / …
/// `= v` both give the object `ks[0]` holding `ks[1]` holding … holding
/// `v`, with no diagnostic.
pub proof fn law_dotted_path_is_nesting(ks: Seq<Seq<char>>, t: SToken)
    requires
        ks.len() >= 1,
        value_of(Some(t)).1,
    ensures
        parse_from(dotted_path_stream(ks, t), 0, seq![]).0 == parse_from(nested_path_stream(ks, t), 0, seq![]).0,
        parse_from(dotted_path_stream(ks, t), 0, seq![]).0 == nest(ks, 0, value_of(Some(t)).0),
        parse_from(dotted_path_stream(ks, t), 0, seq![]).1.len() == 0,
        parse_from(nested_path_stream(ks, t), 0, seq![]).1.len() == 0,
{
    let e = Seq::<Diag>::empty();
    assert(clean(t));

    let d = dotted_path_stream(ks, t);
    assert forall|p: int| 0 <= p < d.len() implies clean(#[trigger] d[p].tok) by {}
    lemma_no_lexical(d, d.len() as int);
    assert(lexical_diags(d) =~= e);
    assert(d[0].tok == SToken::Ident(ks[0]));
    assert(skip_cn(d, 0) == 0);
    assert(pipes_end(d, 0) == 0);
    lemma_dotted_ident(ks, t, 0);
    let ra = p_ident(d, 1, ks[0], seq![], seq![], e, 0, 1, 1);
    assert(p_statement(d, 0, seq![], seq![], e, 0) == ra);
    assert(skip_cn(d, d.len() as int) == d.len());
    assert(p_top(d, 0, seq![], seq![], e, 0) == PR { pos: d.len() as int, fields: ra.fields, spans: ra.spans, diags: e });

    let n = nested_path_stream(ks, t);
    assert forall|p: int| 0 <= p < n.len() implies clean(#[trigger] n[p].tok) by {
        lemma_nested_clean(ks, t, 0, p);
    }
    lemma_no_lexical(n, n.len() as int);
    assert(lexical_diags(n) =~= e);
    lemma_nested_at(ks, t, 0, 0);
    assert(line_start(0) == 0);
    assert(n[0].tok == SToken::Ident(ks[0]));
    assert(skip_cn(n, 0) == 0);
    assert(pipes_end(n, 0) == 0);
    lemma_nested_ident(ks, t, 0);
    let na = p_ident(n, 1, ks[0], seq![], seq![], e, 0, 1, 1);
    assert(p_statement(n, 0, seq![], seq![], e, 0) == na);
    assert(skip_cn(n, n.len() as int) == n.len());
    assert(p_top(n, 0, seq![], seq![], e, 0) == PR { pos: n.len() as int, fields: na.fields, spans: na.spans, diags: e });
}

/// Reading array entries only adds entries after those already read.
proof fn lemma_array_prefix(ts: Seq<SSpanned>, pos: int, items: Seq<SValue>, ds: Seq<Diag>, depth: int)
    ensures
        p_array(ts, pos, items, ds, depth).items.len() >= items.len(),
        p_array(ts, pos, items, ds, depth).items.subrange(0, items.len() as int) == items,
    decreases ts.len() - pos,
{
    if pos < 0 || pos > ts.len() || depth < 0 || depth_at(ts, pos) != depth + 1 {
        assert(items.subrange(0, items.len() as int) =~= items);
    } else {
        let p = pos + depth + 1;
        lemma_pipes_end(ts, pos);
        match tok_at(ts, p) {
            Some(SToken::Dash) => {
                lemma_skip_cn(ts, p + 1);
                let p1 = skip_cn(ts, p + 1);
                let e = if depth_at(ts, p1) == depth + 2 {
                    let r = p_block(ts, p1, seq![], seq![], ds, depth + 2);
                    (r.pos, SValue::Object(r.fields), r.diags)
                } else {
                    match tok_at(ts, p1) {
                        Some(SToken::Newline) | None => (p1, SValue::Null, ds),
                        Some(SToken::Ident(name)) | Some(SToken::Str(name)) => {
                            if entry_has_children(ts, p1, depth) {
                                let r = p_ident(ts, p1 + 1, name, seq![], seq![], ds, depth + 1, ts[p1].line, ts[p1].col);
                                (r.pos, SValue::Object(r.fields), r.diags)
                            } else {
                                (p1 + 1, SValue::Str(name), ds)
                            }
                        },
                        t => {
                            let v = value_of(t);
                            (if v.1 { p1 + 1 } else { p1 }, v.0, ds)
                        },
                    }
                };
                let p3 = skip_cn(ts, e.0);
                let it2 = items.push(e.1);
                if pos < p3 <= ts.len() {
                    lemma_array_prefix(ts, p3, it2, e.2, depth);
                    assert(it2.subrange(0, items.len() as int) =~= items);
                    let r = p_array(ts, p3, it2, e.2, depth);
                    assert(r.items.subrange(0, items.len() as int) =~= r.items.subrange(0, it2.len() as int).subrange(0, items.len() as int));
                } else {
                    assert(it2.subrange(0, items.len() as int) =~= items);
                }
            },
            Some(SToken::Newline) => {
                lemma_skip_cn(ts, p + 1);
                let p1 = skip_cn(ts, p + 1);
                if p1 <= ts.len() {
                    lemma_array_prefix(ts, p1, items, ds, depth);
                } else {
                    assert(items.subrange(0, items.len() as int) =~= items);
                }
            },
            _ => {
                assert(items.subrange(0, items.len() as int) =~= items);
            },
        }
    }
}

/// An array entry `- name` that has children (`=`, `.`, or lines one
/// level deeper follow the name) is the object that `name` with the same
/// children makes as a statement of a block: the key statement is read
/// from the name on, one level deeper than the array's key, into an empty
/// object, and that object is the entry; none of the entry's content is
/// dropped. Entries read before stay in front of it.
pub proof fn law_array_entry_with_children(ts: Seq<SSpanned>, pos: int, items: Seq<SValue>, ds: Seq<Diag>,
    depth: int, name: Seq<char>)
    requires
        0 <= depth,
        0 <= pos <= ts.len(),
        depth_at(ts, pos) == depth + 1,
        tok_at(ts, pos + depth + 1) == Some(SToken::Dash),
        depth_at(ts, skip_cn(ts, pos + depth + 2)) != depth + 2,
        tok_at(ts, skip_cn(ts, pos + depth + 2)) == Some(SToken::Ident(name))
            || tok_at(ts, skip_cn(ts, pos + depth + 2)) == Some(SToken::Str(name)),
        entry_has_children(ts, skip_cn(ts, pos + depth + 2), depth),
    ensures
        ({
            let p1 = skip_cn(ts, pos + depth + 2);
            let r = p_array(ts, pos, items, ds, depth);
            let stmt = p_ident(ts, p1 + 1, name, seq![], seq![], ds, depth + 1, ts[p1].line, ts[p1].col);
            &&& r.items.len() > items.len()
            &&& r.items.subrange(0, items.len() as int) == items
            &&& r.items[items.len() as int] == SValue::Object(stmt.fields)
        }),
{
    let p = pos + depth + 1;
    lemma_pipes_end(ts, pos);
    lemma_skip_cn(ts, p + 1);
    let p1 = skip_cn(ts, p + 1);
    let stmt = p_ident(ts, p1 + 1, name, seq![], seq![], ds, depth + 1, ts[p1].line, ts[p1].col);
    let e = (stmt.pos, SValue::Object(stmt.fields), stmt.diags);
    let p3 = skip_cn(ts, e.0);
    let it2 = items.push(e.1);
    let r = p_array(ts, pos, items, ds, depth);
    if pos < p3 <= ts.len() {
        assert(r == p_array(ts, p3, it2, e.2, depth));
        lemma_array_prefix(ts, p3, it2, e.2, depth);
        assert(r.items[items.len() as int] == r.items.subrange(0, it2.len() as int)[items.len() as int]);
        assert(r.items.subrange(0, items.len() as int) =~= r.items.subrange(0, it2.len() as int).subrange(0, items.len() as int));
        assert(it2.subrange(0, items.len() as int) =~= items);
    } else {
        assert(r.items == it2);
        assert(it2.subrange(0, items.len() as int) =~= items);
    }
}

/// The character a two-character JSON escape `\\e` stands for.
pub open spec fn json_short_unescape(e: char) -> Option<char> {
    if e == '"' {
        Some('"')
    } else if e == '\\' {
        Some('\\')
    } else if e == '/' {
        Some('/')
    } else if e == 'b' {
        Some('\x08')
    } else if e == 'f' {
        Some('\x0c')
    } else if e == 'n' {
        Some('\n')
    } else if e == 'r' {
        Some('\r')
    } else if e == 't' {
        Some('\t')
    } else {
        None
    }
}

/// `c` in front of a decoded text.
pub open spec fn prepend(c: char, r: Option<Seq<char>>) -> Option<Seq<char>> {
    match r {
        Some(x) => Some(seq![c] + x),
        None => None,
    }
}

/// Reading the body of a JSON string literal (RFC 8259): the characters
/// it denotes, or `None` when it is not a valid body (an unescaped quote
/// or control character, or a bad escape).
pub open spec fn json_unescape(e: Seq<char>) -> Option<Seq<char>>
    decreases e.len(),
{
    if e.len() == 0 {
        Some(seq![])
    } else if e[0] == '\\' {
        if e.len() >= 2 && json_short_unescape(e[1]) is Some {
            prepend(json_short_unescape(e[1])->Some_0, json_unescape(e.subrange(2, e.len() as int)))
        } else if e.len() >= 6 && e[1] == 'u' && is_hex(e[2]) && is_hex(e[3]) && is_hex(e[4]) && is_hex(e[5]) {
            let v = hex_value(e.subrange(2, 6));
            if 0xD800 <= v <= 0xDFFF {
                None
            } else {
                prepend(v as char, json_unescape(e.subrange(6, e.len() as int)))
            }
        } else {
            None
        }
    } else if e[0] == '"' || (e[0] as int) < 0x20 {
        None
    } else {
        prepend(e[0], json_unescape(e.subrange(1, e.len() as int)))
    }
}

proof fn lemma_json_escape_concat(a: Seq<char>, b: Seq<char>)
    ensures
        json_escape(a + b) == json_escape(a) + json_escape(b),
    decreases b.len(),
{
    if b.len() == 0 {
        assert(a + b =~= a);
        assert(json_escape(a) + json_escape(b) =~= json_escape(a));
    } else {
        lemma_json_escape_concat(a, b.drop_last());
        assert((a + b).drop_last() =~= a + b.drop_last());
        assert((a + b).last() == b.last());
        assert(json_escape(a + b) =~= json_escape(a) + json_escape(b));
    }
}

proof fn lemma_hex_digit_val(d: int)
    requires
        0 <= d < 16,
    ensures
        is_hex(hex_digit(d)),
        hex_val(hex_digit(d)) == d,
{
    if d < 10 {
        assert((((d + '0' as int) as u32) as char) as int == d + '0' as int);
    } else {
        assert((((d - 10 + 'a' as int) as u32) as char) as int == d - 10 + 'a' as int);
    }
}

proof fn lemma_unescape_char(c: char, t: Seq<char>)
    ensures
        json_unescape(json_char(c) + t) == prepend(c, json_unescape(t)),
{
    let e = json_char(c) + t;
    if c == '"' || c == '\\' || c == '\n' || c == '\t' {
        assert(e.subrange(2, e.len() as int) =~= t);
    } else if (c as int) < 0x20 {
        let v = c as int;
        lemma_hex_digit_val(v / 16);
        lemma_hex_digit_val(v % 16);
        let h = e.subrange(2, 6);
        assert(h =~= seq!['0', '0', hex_digit(v / 16), hex_digit(v % 16)]);
        reveal_with_fuel(hex_value, 5);
        assert(h.drop_last().drop_last() =~= seq!['0', '0']);
        assert(h.drop_last().drop_last().drop_last() =~= seq!['0']);
        assert(h.drop_last().drop_last().drop_last().drop_last() =~= Seq::<char>::empty());
        assert(hex_value(h) == (v / 16) * 16 + v % 16);
        assert(hex_value(h) == v);
        assert((v as char) == c);
        assert(e.subrange(6, e.len() as int) =~= t);
    } else {
        assert(e[0] == c);
        assert(e.subrange(1, e.len() as int) =~= t);
    }
}

/// The JSON string escape is lossless: reading the escaped text back as
/// the body of a JSON string gives exactly the original characters (and
/// the escaped text is a valid body).
pub proof fn law_json_escape_lossless(s: Seq<char>)
    ensures
        json_unescape(json_escape(s)) == Some(s),
    decreases s.len(),
{
    if s.len() > 0 {
        let rest = s.subrange(1, s.len() as int);
        assert(s =~= seq![s[0]] + rest);
        lemma_json_escape_concat(seq![s[0]], rest);
        let one = seq![s[0]];
        assert(one.drop_last() =~= Seq::<char>::empty());
        assert(json_escape(one.drop_last()) == Seq::<char>::empty());
        assert(one.last() == s[0]);
        assert(json_escape(one) == json_escape(one.drop_last()) + json_char(one.last()));
        assert(json_escape(one) =~= json_char(s[0]));
        law_json_escape_lossless(rest);
        lemma_unescape_char(s[0], json_escape(rest));
    } else {
        assert(json_escape(s) =~= Seq::<char>::empty());
    }
}

/// `l` begins with `q`.
pub open spec fn has_prefix(l: Seq<char>, q: Seq<char>) -> bool {
    q.len() <= l.len() && l.subrange(0, q.len() as int) == q
}

/// `s` holds no newline.
pub open spec fn no_nl(s: Seq<char>) -> bool {
    forall|j: int| 0 <= j < s.len() ==> s[j] != '\n'
}

/// `l` is one line: it ends with its only newline.
pub open spec fn one_line(l: Seq<char>) -> bool {
    l.len() > 0 && l.last() == '\n' && no_nl(l.drop_last())
}

/// The lines `ls` one after another.
pub open spec fn join(ls: Seq<Seq<char>>) -> Seq<char>
    decreases ls.len(),
{
    if ls.len() == 0 { seq![] } else { join(ls.drop_last()) + ls.last() }
}

/// Each of `ls` is a line that begins with `q` and goes on after it.
pub open spec fn lines_under(ls: Seq<Seq<char>>, q: Seq<char>) -> bool {
    forall|i: int| 0 <= i < ls.len() ==> one_line(#[trigger] ls[i]) && has_prefix(ls[i], q) && ls[i].len() > q.len()
}

/// How many of `ls` hold `c` at `n`.
pub open spec fn count_at(ls: Seq<Seq<char>>, n: int, c: char) -> int
    decreases ls.len(),
{
    if ls.len() == 0 { 0 } else { count_at(ls.drop_last(), n, c) + if ls.last()[n] == c { 1int } else { 0 } }
}

/// How many of `ls` do not hold `c` at `n`.
pub open spec fn count_not_at(ls: Seq<Seq<char>>, n: int, c: char) -> int
    decreases ls.len(),
{
    if ls.len() == 0 { 0 } else { count_not_at(ls.drop_last(), n, c) + if ls.last()[n] != c { 1int } else { 0 } }
}

/// A key the writer can write on a line of its own and read back: not
/// empty, not starting with a pipe, without newline.
pub open spec fn key_ok(k: Seq<char>) -> bool {
    k.len() > 0 && k[0] != '|' && no_nl(k)
}

/// A value whose keys are all `key_ok` and whose scalars print without a
/// newline.
pub open spec fn writable(v: SValue) -> bool
    decreases v,
{
    match v {
        SValue::Object(fs) => fields_writable(fs),
        SValue::Array(items) => items_writable(items),
        _ => no_nl(scalar_text(v)),
    }
}

pub open spec fn fields_writable(fs: Seq<(Seq<char>, SValue)>) -> bool
    decreases fs,
{
    if fs.len() == 0 {
        true
    } else {
        fields_writable(fs.drop_last()) && key_ok(fs.last().0) && writable(fs.last().1)
    }
}

pub open spec fn items_writable(items: Seq<SValue>) -> bool
    decreases items,
{
    if items.len() == 0 {
        true
    } else {
        items_writable(items.drop_last()) && writable(items.last())
    }
}

proof fn lemma_join_concat(a: Seq<Seq<char>>, b: Seq<Seq<char>>)
    ensures
        join(a + b) == join(a) + join(b),
    decreases b.len(),
{
    if b.len() == 0 {
        assert(a + b =~= a);
        assert(join(a) + join(b) =~= join(a));
    } else {
        lemma_join_concat(a, b.drop_last());
        assert((a + b).drop_last() =~= a + b.drop_last());
        assert(join(a + b) =~= join(a) + join(b));
    }
}

proof fn lemma_count_concat(a: Seq<Seq<char>>, b: Seq<Seq<char>>, n: int, c: char)
    ensures
        count_at(a + b, n, c) == count_at(a, n, c) + count_at(b, n, c),
        count_not_at(a + b, n, c) == count_not_at(a, n, c) + count_not_at(b, n, c),
    decreases b.len(),
{
    if b.len() == 0 {
        assert(a + b =~= a);
    } else {
        lemma_count_concat(a, b.drop_last(), n, c);
        assert((a + b).drop_last() =~= a + b.drop_last());
    }
}

proof fn lemma_join_one(l: Seq<char>)
    ensures
        join(seq![l]) == l,
{
    let one = seq![l];
    assert(one.drop_last() =~= Seq::<Seq<char>>::empty());
    assert(join(one.drop_last()) == Seq::<char>::empty());
    assert(one.last() == l);
    assert(join(one) =~= l);
}

proof fn lemma_count_one(l: Seq<char>, n: int, c: char)
    ensures
        count_at(seq![l], n, c) == if l[n] == c { 1int } else { 0 },
        count_not_at(seq![l], n, c) == if l[n] != c { 1int } else { 0 },
{
    let one = seq![l];
    assert(one.drop_last() =~= Seq::<Seq<char>>::empty());
    assert(count_at(one.drop_last(), n, c) == 0);
    assert(count_not_at(one.drop_last(), n, c) == 0);
    assert(one.last() == l);
}

proof fn lemma_count_none(ls: Seq<Seq<char>>, n: int, c: char)
    ensures
        (forall|i: int| 0 <= i < ls.len() ==> (#[trigger] ls[i])[n] == c) ==> count_not_at(ls, n, c) == 0,
        (forall|i: int| 0 <= i < ls.len() ==> (#[trigger] ls[i])[n] != c) ==> count_at(ls, n, c) == 0,
    decreases ls.len(),
{
    if ls.len() > 0 {
        lemma_count_none(ls.drop_last(), n, c);
        assert(forall|i: int| 0 <= i < ls.drop_last().len() ==> ls.drop_last()[i] == ls[i]);
        assert(ls.last() == ls[ls.len() - 1]);
    }
}

proof fn lemma_prefix_concat(a: Seq<char>, b: Seq<char>)
    ensures
        has_prefix(a + b, a),
{
    assert((a + b).subrange(0, a.len() as int) =~= a);
}

proof fn lemma_prefix_deeper(l: Seq<char>, q: Seq<char>)
    requires
        has_prefix(l, deeper(q)),
    ensures
        has_prefix(l, q),
        l[q.len() as int] == '|',
        l.len() > q.len(),
{
    assert(deeper(q).subrange(0, q.len() as int) =~= q);
    assert(deeper(q)[q.len() as int] == '|');
    assert(l.subrange(0, q.len() as int) =~= l.subrange(0, deeper(q).len() as int).subrange(0, q.len() as int));
    assert(l[q.len() as int] == l.subrange(0, deeper(q).len() as int)[q.len() as int]);
}

proof fn lemma_line(x: Seq<char>)
    requires
        no_nl(x),
    ensures
        one_line(x + seq!['\n']),
{
    assert((x + seq!['\n']).drop_last() =~= x);
}

proof fn lemma_no_nl_concat(a: Seq<char>, b: Seq<char>)
    requires
        no_nl(a),
        no_nl(b),
    ensures
        no_nl(a + b),
{
    assert forall|j: int| 0 <= j < (a + b).len() implies (a + b)[j] != '\n' by {
        if j < a.len() { assert((a + b)[j] == a[j]); } else { assert((a + b)[j] == b[j - a.len()]); }
    }
}

/// The lines of an object's fields at `q`: each begins with `q`; a line
/// with no pipe right after `q` starts a field (one per field); every
/// other line lies one level deeper.
pub open spec fn object_body(ls: Seq<Seq<char>>, q: Seq<char>, n: int) -> bool {
    &&& lines_under(ls, q)
    &&& count_not_at(ls, q.len() as int, '|') == n
    &&& forall|i: int| 0 <= i < ls.len() ==> (#[trigger] ls[i])[q.len() as int] != '|' || has_prefix(ls[i], deeper(q))
}

/// The lines of an array's entries under a key at `p`: each begins one
/// level deeper than the key, `deeper(p)`; a line with `-` right after
/// that starts an entry (one per entry); every other line lies deeper.
pub open spec fn array_body(ls: Seq<Seq<char>>, p: Seq<char>, n: int) -> bool {
    let q = deeper(p);
    &&& lines_under(ls, q)
    &&& count_at(ls, q.len() as int, '-') == n
    &&& forall|i: int| 0 <= i < ls.len() ==> (#[trigger] ls[i])[q.len() as int] == '-' || has_prefix(ls[i], deeper(q))
}

proof fn lemma_body_concat_object(a: Seq<Seq<char>>, b: Seq<Seq<char>>, q: Seq<char>, n: int, m: int)
    requires
        object_body(a, q, n),
        object_body(b, q, m),
    ensures
        object_body(a + b, q, n + m),
{
    lemma_count_concat(a, b, q.len() as int, '|');
    assert forall|i: int| 0 <= i < (a + b).len() implies #[trigger] (a + b)[i] == if i < a.len() { a[i] } else { b[i - a.len()] } by {}
}

proof fn lemma_body_concat_array(a: Seq<Seq<char>>, b: Seq<Seq<char>>, p: Seq<char>, n: int, m: int)
    requires
        array_body(a, p, n),
        array_body(b, p, m),
    ensures
        array_body(a + b, p, n + m),
{
    lemma_count_concat(a, b, deeper(p).len() as int, '-');
    assert forall|i: int| 0 <= i < (a + b).len() implies #[trigger] (a + b)[i] == if i < a.len() { a[i] } else { b[i - a.len()] } by {}
}

proof fn lemma_deeper_no_nl(q: Seq<char>)
    requires
        no_nl(q),
    ensures
        no_nl(deeper(q)),
{
    lemma_no_nl_concat(q, seq!['|', ' ']);
}

/// The lines of the fields `fs` written at `q`.
proof fn fields_lines(fs: Seq<(Seq<char>, SValue)>, q: Seq<char>) -> (ls: Seq<Seq<char>>)
    requires
        fields_writable(fs),
        no_nl(q),
    ensures
        join(ls) == write_fields(fs, q),
        object_body(ls, q, fs.len() as int),
    decreases fs,
{
    if fs.len() == 0 {
        let ls = Seq::<Seq<char>>::empty();
        assert(join(ls) == Seq::<char>::empty());
        ls
    } else {
        let a = fields_lines(fs.drop_last(), q);
        let k = fs.last().0;
        let b = value_lines(fs.last().1, q, k);
        lemma_join_concat(a, b);
        // b starts a single field: its first line is the key's, the rest lie deeper.
        let rest = b.drop_first();
        assert(b =~= seq![b[0]] + rest);
        lemma_count_concat(seq![b[0]], rest, q.len() as int, '|');
        lemma_count_one(b[0], q.len() as int, '|');
        assert(has_prefix(b[0], q + k));
        assert(b[0].subrange(0, q.len() as int) =~= b[0].subrange(0, (q + k).len() as int).subrange(0, q.len() as int));
        assert((q + k).subrange(0, q.len() as int) =~= q);
        assert(b[0][q.len() as int] == b[0].subrange(0, (q + k).len() as int)[q.len() as int]);
        assert((q + k)[q.len() as int] == k[0]);
        assert forall|i: int| 0 <= i < rest.len() implies
            (#[trigger] rest[i])[q.len() as int] == '|' && has_prefix(rest[i], q) && has_prefix(rest[i], deeper(q))
            && one_line(rest[i]) && rest[i].len() > q.len() by {
            assert(rest[i] == b[i + 1]);
            lemma_prefix_deeper(rest[i], q);
        }
        lemma_count_none(rest, q.len() as int, '|');
        assert(object_body(b, q, 1)) by {
            assert forall|i: int| 0 <= i < b.len() implies one_line(#[trigger] b[i]) && has_prefix(b[i], q) && b[i].len() > q.len()
                && (b[i][q.len() as int] != '|' || has_prefix(b[i], deeper(q))) by {
                if i > 0 { assert(b[i] == rest[i - 1]); }
            }
        }
        lemma_body_concat_object(a, b, q, fs.len() - 1, 1);
        a + b
    }
}

/// The lines of `v` written under `k` at `q`: the key's line, then the
/// nested lines.
proof fn value_lines(v: SValue, q: Seq<char>, k: Seq<char>) -> (ls: Seq<Seq<char>>)
    requires
        writable(v),
        key_ok(k),
        no_nl(q),
    ensures
        join(ls) == write_value(v, q, Some(k)),
        ls.len() >= 1,
        one_line(ls[0]),
        has_prefix(ls[0], q + k),
        match v {
            SValue::Object(fs) => object_body(ls.drop_first(), deeper(q), fs.len() as int),
            SValue::Array(items) => array_body(ls.drop_first(), q, items.len() as int),
            _ => ls.len() == 1,
        },
    decreases v,
{
    lemma_no_nl_concat(q, k);
    lemma_deeper_no_nl(q);
    let h = q + k + seq!['\n'];
    lemma_line(q + k);
    lemma_prefix_concat(q + k, seq!['\n']);
    match v {
        SValue::Object(fs) => {
            let b = fields_lines(fs, deeper(q));
            let ls = seq![h] + b;
            lemma_join_concat(seq![h], b);
            lemma_join_one(h);
            assert(ls.drop_first() =~= b);
            assert(ls[0] == h);
            ls
        },
        SValue::Array(items) => {
            let b = items_lines(items, q);
            let ls = seq![h] + b;
            lemma_join_concat(seq![h], b);
            lemma_join_one(h);
            assert(ls.drop_first() =~= b);
            assert(ls[0] == h);
            ls
        },
        _ => {
            let x = q + k + " = "@ + scalar_text(v);
            reveal_strlit(" = ");
            assert(no_nl(" = "@));
            lemma_no_nl_concat(q + k, " = "@);
            lemma_no_nl_concat(q + k + " = "@, scalar_text(v));
            lemma_line(x);
            let l = x + seq!['\n'];
            assert(l =~= (q + k) + (" = "@ + scalar_text(v) + seq!['\n']));
            lemma_prefix_concat(q + k, " = "@ + scalar_text(v) + seq!['\n']);
            lemma_join_one(l);
            seq![l]
        },
    }
}

/// The lines of the entries `items` of an array under a key at `p`.
proof fn items_lines(items: Seq<SValue>, p: Seq<char>) -> (ls: Seq<Seq<char>>)
    requires
        items_writable(items),
        no_nl(p),
    ensures
        join(ls) == write_items(items, p),
        array_body(ls, p, items.len() as int),
    decreases items,
{
    if items.len() == 0 {
        let ls = Seq::<Seq<char>>::empty();
        assert(join(ls) == Seq::<char>::empty());
        ls
    } else {
        let a = items_lines(items.drop_last(), p);
        let b = item_lines(items.last(), p);
        lemma_join_concat(a, b);
        lemma_body_concat_array(a, b, p, items.len() - 1, 1);
        a + b
    }
}

/// The lines of one array entry under a key at `p`.
proof fn item_lines(item: SValue, p: Seq<char>) -> (ls: Seq<Seq<char>>)
    requires
        writable(item),
        no_nl(p),
    ensures
        join(ls) == write_item(item, p),
        array_body(ls, p, 1),
    decreases item,
{
    let q = deeper(p);
    lemma_deeper_no_nl(p);
    lemma_deeper_no_nl(q);
    match item {
        SValue::Object(fs) => {
            reveal_strlit("| -\n");
            let h = p + "| -\n"@;
            assert(h =~= (q + seq!['-']) + seq!['\n']);
            lemma_no_nl_concat(q, seq!['-']);
            lemma_line(q + seq!['-']);
            lemma_prefix_concat(q, seq!['-', '\n']);
            assert(h =~= q + seq!['-', '\n']);
            assert(h[q.len() as int] == '-');
            let b = fields_lines(fs, deeper(q));
            let ls = seq![h] + b;
            lemma_join_concat(seq![h], b);
            lemma_join_one(h);
            assert forall|i: int| 0 <= i < b.len() implies
                (#[trigger] b[i])[q.len() as int] == '|' && has_prefix(b[i], q) && b[i].len() > q.len() by {
                lemma_prefix_deeper(b[i], q);
            }
            lemma_count_none(b, q.len() as int, '-');
            lemma_count_concat(seq![h], b, q.len() as int, '-');
            lemma_count_one(h, q.len() as int, '-');
            assert forall|i: int| 0 <= i < ls.len() implies one_line(#[trigger] ls[i]) && has_prefix(ls[i], q) && ls[i].len() > q.len()
                && (ls[i][q.len() as int] == '-' || has_prefix(ls[i], deeper(q))) by {
                if i > 0 { assert(ls[i] == b[i - 1]); } else { assert(ls[i] == h); }
            }
            ls
        },
        _ => {
            reveal_strlit("| - ");
            let t = scalar_text(item);
            assert(no_nl(t)) by {
                if item is Array {
                    assert(t =~= Seq::<char>::empty());
                }
            }
            let x = p + "| - "@ + t;
            assert(x =~= q + (seq!['-', ' '] + t));
            assert(no_nl(seq!['-', ' ']));
            lemma_no_nl_concat(seq!['-', ' '], t);
            lemma_no_nl_concat(q, seq!['-', ' '] + t);
            lemma_line(x);
            let l = x + seq!['\n'];
            assert(l =~= q + (seq!['-', ' '] + t + seq!['\n']));
            lemma_prefix_concat(q, seq!['-', ' '] + t + seq!['\n']);
            assert(l[q.len() as int] == '-');
            lemma_join_one(l);
            lemma_count_one(l, q.len() as int, '-');
            seq![l]
        },
    }
}

/// Written Spine text nests as the value does, so that reading it back
/// finds each value where it was: the text of `v` under the key `k` at
/// indentation `p` is made of whole lines; the first is the key's line
/// and begins with `p` and `k`; every other line begins one level deeper
/// (`p` and `| `). Below an object there is one line per field that
/// begins right at that level (the field's key line), and every other line
/// lies deeper still; below an array there is one line per entry that
/// begins at that level with `-`, and every other line lies deeper still.
/// This holds for values whose keys are not empty, do not start with a
/// pipe and hold no newline, and whose scalars print without a newline
/// (a string holding a newline is written across lines).
pub proof fn law_written_nesting(v: SValue, p: Seq<char>, k: Seq<char>)
    requires
        writable(v),
        key_ok(k),
        no_nl(p),
    ensures
        exists|ls: Seq<Seq<char>>| #[trigger] join(ls) == write_value(v, p, Some(k))
            && ls.len() >= 1
            && one_line(ls[0])
            && has_prefix(ls[0], p + k)
            && match v {
                SValue::Object(fs) => object_body(ls.drop_first(), deeper(p), fs.len() as int),
                SValue::Array(items) => array_body(ls.drop_first(), p, items.len() as int),
                _ => ls.len() == 1,
            },
{
    let ls = value_lines(v, p, k);
    assert(join(ls) == write_value(v, p, Some(k)));
}

/// The text of a document whose root is an object is made of whole
/// lines, one per top-level field that begins at the left margin (its key
/// line), every other line nested at least one level (`| `).
pub proof fn law_document_nesting(fs: Seq<(Seq<char>, SValue)>)
    requires
        fields_writable(fs),
    ensures
        exists|ls: Seq<Seq<char>>| #[trigger] join(ls) == document_text(SValue::Object(fs))
            && object_body(ls, seq![], fs.len() as int),
{
    assert(no_nl(Seq::<char>::empty()));
    let ls = fields_lines(fs, seq![]);
    assert(join(ls) == document_text(SValue::Object(fs)));
}

} // verus!
