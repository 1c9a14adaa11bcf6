//! The Spine parser: builds a value from a token stream, collecting
//! diagnostics for every problem it finds.
//!
//! The behaviour is specified by spec functions over the model of the
//! token stream (`Seq<SSpanned>`). An object under construction is a
//! sequence of `(key, value)` fields, with a sequence of spans recording
//! where each key of that object was first defined, and, for a key that
//! names an object, where the keys below it were.
use vstd::prelude::*;
use vstd::utf8::encode_utf8;
use crate::token::{Token, SToken, SSpanned, SpannedToken, spanned_view, tokens_view};
use crate::value::{Value, SValue, value_view, items_view, fields_view, copy_value, lemma_fields_view, lemma_items_view};
use crate::text::{extend_str, extend_chars, string_from_chars, chars_of, push_decimal, decimal, sub_chars, lemma_decimal_digits, is_digit};

verus! {

// ---------------------------------------------------------------------------
// Diagnostics
// ---------------------------------------------------------------------------

/// A labelled source location of a diagnostic: line, column, the width of
/// the underline and an optional note.
pub struct Label {
    pub line: int,
    pub col: int,
    pub width: int,
    pub note: Option<Seq<char>>,
}

/// A diagnostic: its kind (such as `duplicate-key`), its message and its
/// labelled locations.
pub struct Diag {
    pub kind: Seq<char>,
    pub message: Seq<char>,
    pub labels: Seq<Label>,
}

/// The byte length of the UTF-8 encoding of `s` (`str::len`).
pub open spec fn byte_len(s: Seq<char>) -> int {
    (encode_utf8(s).len() as usize) as int
}

/// `a + b`, saturated at the largest `usize`.
pub open spec fn sat_add(a: int, b: int) -> int {
    if a + b > usize::MAX { usize::MAX as int } else { a + b }
}

/// `'` + `s` + `'`.
pub open spec fn quoted(s: Seq<char>) -> Seq<char> {
    seq!['\''] + s + seq!['\'']
}

pub open spec fn label(line: int, col: int, width: int, note: Seq<char>) -> Label {
    Label { line: line, col: col, width: width, note: Some(note) }
}

/// A `.` not followed by an identifier in a dotted key.
pub open spec fn dotted_diag(name: Seq<char>, line: int, col: int) -> Diag {
    Diag {
        kind: "syntax-error"@,
        message: "expected identifier after '.' in '"@ + name + ".'"@,
        labels: seq![label(line, col, sat_add(byte_len(name), 1), "incomplete dotted path"@)],
    }
}

/// A key followed by something other than `=`, `.` or a newline.
pub open spec fn unexpected_diag(name: Seq<char>, line: int, col: int) -> Diag {
    Diag {
        kind: "syntax-error"@,
        message: "unexpected token after "@ + quoted(name),
        labels: seq![label(line, col, byte_len(name), "expected '=', '.', or newline"@)],
    }
}

/// An append path with no child statements, where more input follows (at
/// the end of the input the entry is `null`).
pub open spec fn append_children_diag(line: int, col: int, width: int) -> Diag {
    Diag {
        kind: "syntax-error"@,
        message: "append requires child statements after the path"@,
        labels: seq![label(line, col, width, "append path ends here"@)],
    }
}

/// A `~` not followed by a path.
pub open spec fn append_no_path_diag(line: int, col: int) -> Diag {
    Diag {
        kind: "syntax-error"@,
        message: "append requires a path after '~'"@,
        labels: seq![label(line, col, 1, "'~' used here"@)],
    }
}

/// An append path segment that names a non-object.
pub open spec fn not_object_diag(seg: Seq<char>, line: int, col: int, width: int) -> Diag {
    Diag {
        kind: "type-conflict"@,
        message: quoted(seg) + " is not an object"@,
        labels: seq![label(line, col, width, "append attempted here"@)],
    }
}

/// An append target that is not an array; `first` is where the key was
/// first defined, when that is recorded.
pub open spec fn not_array_diag(key: Seq<char>, first: Option<(int, int)>, line: int, col: int, width: int) -> Diag {
    let here = label(line, col, width, "append attempted here"@);
    Diag {
        kind: "type-conflict"@,
        message: quoted(key) + " is not an array"@,
        labels: match first {
            Some(f) => seq![label(f.0, f.1, byte_len(key), "first defined here as scalar"@), here],
            None => seq![here],
        },
    }
}

/// A key defined again with a value that cannot be merged with the first.
pub open spec fn conflict_diag(key: Seq<char>, old: SValue, new: SValue, first: Option<(int, int)>, line: int, col: int) -> Diag {
    let object = old is Object || new is Object;
    let here = label(line, col, byte_len(key), "redefined here"@);
    Diag {
        kind: if object { "type-conflict"@ } else { "duplicate-key"@ },
        message: if object {
            quoted(key) + " cannot be both a scalar and an object"@
        } else {
            quoted(key) + " was already defined"@
        },
        labels: match first {
            Some(f) => seq![label(f.0, f.1, byte_len(key), "first defined here"@), here],
            None => seq![here],
        },
    }
}

/// The diagnostic for a character with no meaning in Spine.
pub open spec fn unknown_char_diag(c: char, line: int, col: int) -> Diag {
    Diag {
        kind: "unexpected-character"@,
        message: "unexpected character '"@ + seq![c] + "', is this a Spine file?"@,
        labels: seq![Label { line: line, col: col, width: 1, note: None }],
    }
}

/// The diagnostic for a lexical error token.
pub open spec fn lexer_diag(msg: Seq<char>, line: int, col: int) -> Diag {
    Diag {
        kind: "lexer-error"@,
        message: msg,
        labels: seq![Label { line: line, col: col, width: 1, note: None }],
    }
}

// ---------------------------------------------------------------------------
// Objects under construction
// ---------------------------------------------------------------------------

/// The fields of an object.
pub type Fields = Seq<(Seq<char>, SValue)>;

/// Where a key of an object was first defined, with the same record for
/// the keys of the object it names, when it names one.
pub struct SSpan {
    pub key: Seq<char>,
    pub line: int,
    pub col: int,
    pub inner: Seq<SSpan>,
}

/// Where the keys of an object were first defined.
pub type Spans = Seq<SSpan>;

/// The index of the first field named `key`.
pub open spec fn find_key(fs: Fields, key: Seq<char>) -> Option<int>
    decreases fs.len(),
{
    if fs.len() == 0 {
        None
    } else {
        match find_key(fs.drop_last(), key) {
            Some(i) => Some(i),
            None => if fs.last().0 == key { Some(fs.len() - 1) } else { None },
        }
    }
}

/// The index of the first record of `key`.
pub open spec fn span_pos(sp: Spans, key: Seq<char>) -> Option<int>
    decreases sp.len(),
{
    if sp.len() == 0 {
        None
    } else {
        match span_pos(sp.drop_last(), key) {
            Some(i) => Some(i),
            None => if sp.last().key == key { Some(sp.len() - 1) } else { None },
        }
    }
}

/// Where `key` was first defined, if recorded.
pub open spec fn find_span(sp: Spans, key: Seq<char>) -> Option<(int, int)> {
    match span_pos(sp, key) {
        Some(i) => Some((sp[i].line, sp[i].col)),
        None => None,
    }
}

/// The records of the keys below `key`, if recorded.
pub open spec fn inner_spans(sp: Spans, key: Seq<char>) -> Spans {
    match span_pos(sp, key) {
        Some(i) => sp[i].inner,
        None => seq![],
    }
}

/// `sp` with the records below `key` replaced by `inner`.
pub open spec fn with_inner(sp: Spans, key: Seq<char>, inner: Spans) -> Spans {
    match span_pos(sp, key) {
        Some(i) => sp.update(i, SSpan { key: sp[i].key, line: sp[i].line, col: sp[i].col, inner: inner }),
        None => sp,
    }
}

/// The outcome of a merge: the fields, the spans and the diagnostics.
pub struct Merged {
    pub fields: Fields,
    pub spans: Spans,
    pub diags: Seq<Diag>,
}

/// Defines `key` as `v` (whose keys were first defined at `vsp`) in an
/// object, at `line:col`. A new key is added at the end; two objects are
/// merged field by field; any other redefinition leaves the object
/// unchanged and adds a diagnostic that cites the first definition.
pub open spec fn merge(fs: Fields, sp: Spans, key: Seq<char>, v: SValue, vsp: Spans, line: int, col: int, ds: Seq<Diag>) -> Merged
    decreases v,
{
    match find_key(fs, key) {
        None => Merged { fields: fs.push((key, v)), spans: sp.push(SSpan { key: key, line: line, col: col, inner: vsp }), diags: ds },
        Some(i) => {
            let old = fs[i].1;
            if old is Object && v is Object {
                let r = merge_all(old->Object_0, inner_spans(sp, key), v->Object_0, vsp, line, col, ds);
                Merged { fields: fs.update(i, (key, SValue::Object(r.fields))), spans: with_inner(sp, key, r.spans), diags: r.diags }
            } else {
                Merged { fields: fs, spans: sp, diags: ds.push(conflict_diag(key, old, v, find_span(sp, key), line, col)) }
            }
        },
    }
}

/// Merges the fields `b` (whose keys were first defined at `bsp`), in
/// order, into `a`; a key of `b` with no record is placed at `line:col`.
pub open spec fn merge_all(a: Fields, sp: Spans, b: Fields, bsp: Spans, line: int, col: int, ds: Seq<Diag>) -> Merged
    decreases b,
{
    if b.len() == 0 {
        Merged { fields: a, spans: sp, diags: ds }
    } else {
        let r = merge_all(a, sp, b.drop_last(), bsp, line, col, ds);
        let k = b.last().0;
        match span_pos(bsp, k) {
            Some(j) => merge(r.fields, r.spans, k, b.last().1, bsp[j].inner, bsp[j].line, bsp[j].col, r.diags),
            None => merge(r.fields, r.spans, k, b.last().1, seq![], line, col, r.diags),
        }
    }
}

// ---------------------------------------------------------------------------
// Token positions
// ---------------------------------------------------------------------------

/// The token at `i`, if any.
pub open spec fn tok_at(ts: Seq<SSpanned>, i: int) -> Option<SToken> {
    if 0 <= i < ts.len() { Some(ts[i].tok) } else { None }
}

/// Newlines and comments.
pub open spec fn is_trivia(t: SToken) -> bool {
    t is Newline || t is LineComment || t is BlockComment
}

/// The first position at or after `i` that does not hold a pipe.
pub open spec fn pipes_end(ts: Seq<SSpanned>, i: int) -> int
    decreases ts.len() - i,
{
    if 0 <= i < ts.len() && ts[i].tok is Pipe { pipes_end(ts, i + 1) } else { i }
}

/// The number of pipes starting at `i` (the indentation depth there).
pub open spec fn depth_at(ts: Seq<SSpanned>, i: int) -> int {
    pipes_end(ts, i) - i
}

/// The first position at or after `i` that does not hold a newline or a comment.
pub open spec fn trivia_end(ts: Seq<SSpanned>, i: int) -> int
    decreases ts.len() - i,
{
    if 0 <= i < ts.len() && is_trivia(ts[i].tok) { trivia_end(ts, i + 1) } else { i }
}

/// Skips newlines, comments, and lines holding only pipes (and comments).
pub open spec fn skip_cn(ts: Seq<SSpanned>, i: int) -> int
    decreases ts.len() - i,
{
    if 0 <= i < ts.len() && is_trivia(ts[i].tok) {
        skip_cn(ts, i + 1)
    } else if 0 <= i < ts.len() && ts[i].tok is Pipe {
        let k = pipes_end(ts, i);
        proof { lemma_pipes_end(ts, i); }
        if k < ts.len() && is_trivia(ts[k].tok) {
            skip_cn(ts, k + 1)
        } else if k >= ts.len() {
            k
        } else {
            i
        }
    } else {
        i
    }
}

pub proof fn lemma_pipes_end(ts: Seq<SSpanned>, i: int)
    requires
        0 <= i,
    ensures
        i <= pipes_end(ts, i),
        i <= ts.len() ==> pipes_end(ts, i) <= ts.len(),
        i > ts.len() ==> pipes_end(ts, i) == i,
        forall|j: int| i <= j < pipes_end(ts, i) ==> ts[j].tok is Pipe,
        pipes_end(ts, i) < ts.len() ==> !(ts[pipes_end(ts, i)].tok is Pipe),
    decreases ts.len() - i,
{
    if 0 <= i < ts.len() && ts[i].tok is Pipe {
        lemma_pipes_end(ts, i + 1);
    }
}

pub proof fn lemma_skip_cn(ts: Seq<SSpanned>, i: int)
    requires
        0 <= i,
    ensures
        i <= skip_cn(ts, i),
        i <= ts.len() ==> skip_cn(ts, i) <= ts.len(),
        i > ts.len() ==> skip_cn(ts, i) == i,
    decreases ts.len() - i,
{
    if 0 <= i < ts.len() && is_trivia(ts[i].tok) {
        lemma_skip_cn(ts, i + 1);
    } else if 0 <= i < ts.len() && ts[i].tok is Pipe {
        lemma_pipes_end(ts, i);
        let k = pipes_end(ts, i);
        if k < ts.len() && is_trivia(ts[k].tok) {
            lemma_skip_cn(ts, k + 1);
        }
    }
}

/// Whether the next line is an array entry at depth `depth`: exactly
/// `depth` pipes followed by `-`.
pub open spec fn is_array_block(ts: Seq<SSpanned>, i: int, depth: int) -> bool {
    depth_at(ts, i) == depth && tok_at(ts, pipes_end(ts, i)) == Some(SToken::Dash)
}

/// The scalar value of a token, and whether the token is consumed; any
/// other token gives `null` and is not consumed.
pub open spec fn value_of(t: Option<SToken>) -> (SValue, bool) {
    match t {
        Some(SToken::Str(s)) => (SValue::Str(s), true),
        Some(SToken::Ident(s)) => (SValue::Str(s), true),
        Some(SToken::Number(n)) => (SValue::Number(n), true),
        Some(SToken::Bool(b)) => (SValue::Bool(b), true),
        Some(SToken::Null) => (SValue::Null, true),
        Some(SToken::Tagged(t, c)) => (SValue::Tagged(t, c), true),
        _ => (SValue::Null, false),
    }
}

// ---------------------------------------------------------------------------
// Statements
// ---------------------------------------------------------------------------

/// The parser's state after a step: the position, the fields and spans of
/// the object being filled, and the diagnostics so far.
pub struct PR {
    pub pos: int,
    pub fields: Fields,
    pub spans: Spans,
    pub diags: Seq<Diag>,
}

/// The state with a merge applied.
pub open spec fn with_merge(pos: int, m: Merged) -> PR {
    PR { pos: pos, fields: m.fields, spans: m.spans, diags: m.diags }
}

/// One statement at indentation `depth` from `pos`: nothing when the line
/// is less indented; otherwise its pipes are consumed and an append, a
/// key, or any other (skipped) token follows.
pub open spec fn p_statement(ts: Seq<SSpanned>, pos: int, fs: Fields, sp: Spans, ds: Seq<Diag>, depth: int) -> PR
    decreases ts.len() - pos, 0int,
{
    if pos < 0 || pos > ts.len() || depth < 0 || depth_at(ts, pos) < depth {
        PR { pos: pos, fields: fs, spans: sp, diags: ds }
    } else {
        let p = pos + depth;
        proof { lemma_pipes_end(ts, pos); }
        match tok_at(ts, p) {
            Some(SToken::Tilde) => p_append(ts, p + 1, fs, sp, ds, depth, ts[p].line, ts[p].col),
            Some(SToken::Ident(name)) => p_ident(ts, p + 1, name, fs, sp, ds, depth, ts[p].line, ts[p].col),
            _ => PR { pos: p + 1, fields: fs, spans: sp, diags: ds },
        }
    }
}

/// The statements of a block at indentation `d` from `pos`: one after
/// another while the next line has exactly `d` pipes.
pub open spec fn p_block(ts: Seq<SSpanned>, pos: int, fs: Fields, sp: Spans, ds: Seq<Diag>, d: int) -> PR
    decreases ts.len() - pos, 1int,
{
    if pos < 0 || pos > ts.len() || depth_at(ts, pos) != d {
        PR { pos: pos, fields: fs, spans: sp, diags: ds }
    } else {
        let r = p_statement(ts, pos, fs, sp, ds, d);
        let p2 = skip_cn(ts, r.pos);
        if pos < p2 <= ts.len() {
            p_block(ts, p2, r.fields, r.spans, r.diags, d)
        } else {
            PR { pos: p2, fields: r.fields, spans: r.spans, diags: r.diags }
        }
    }
}

/// The outcome of reading array entries.
pub struct AR {
    pub pos: int,
    pub items: Seq<SValue>,
    pub diags: Seq<Diag>,
}

/// Whether a string or key entry at `i` (after a `-`) opens an object:
/// `=` or `.` follows, or the next line is indented to `depth + 2`.
pub open spec fn entry_has_children(ts: Seq<SSpanned>, i: int, depth: int) -> bool {
    match tok_at(ts, i + 1) {
        Some(SToken::Equals) | Some(SToken::Dot) => true,
        Some(SToken::Newline) | None => depth_at(ts, trivia_end(ts, i + 1)) == depth + 2,
        _ => false,
    }
}

/// The entries of an array block (at indentation `depth + 1`) from `pos`.
pub open spec fn p_array(ts: Seq<SSpanned>, pos: int, items: Seq<SValue>, ds: Seq<Diag>, depth: int) -> AR
    decreases ts.len() - pos, 2int,
{
    if pos < 0 || pos > ts.len() || depth < 0 || depth_at(ts, pos) != depth + 1 {
        AR { pos: pos, items: items, diags: ds }
    } else {
        let p = pos + depth + 1;
        proof { lemma_pipes_end(ts, pos); }
        match tok_at(ts, p) {
            Some(SToken::Dash) => {
                proof { lemma_skip_cn(ts, p + 1); }
                let p1 = skip_cn(ts, p + 1);
                let e = if depth_at(ts, p1) == depth + 2 {
                    let r = p_block(ts, p1, seq![], seq![], ds, depth + 2);
                    (r.pos, SValue::Object(r.fields), r.diags)
                } else {
                    match tok_at(ts, p1) {
                        Some(SToken::Newline) | None => (p1, SValue::Null, ds),
                        Some(SToken::Ident(name)) | Some(SToken::Str(name)) => {
                            if entry_has_children(ts, p1, depth) {
                                let r = p_ident(ts, p1 + 1, name, seq![], seq![], ds, depth + 1, ts[p1].line, ts[p1].col);
                                (r.pos, SValue::Object(r.fields), r.diags)
                            } else {
                                (p1 + 1, SValue::Str(name), ds)
                            }
                        },
                        t => {
                            let v = value_of(t);
                            (if v.1 { p1 + 1 } else { p1 }, v.0, ds)
                        },
                    }
                };
                let p3 = skip_cn(ts, e.0);
                if pos < p3 <= ts.len() {
                    p_array(ts, p3, items.push(e.1), e.2, depth)
                } else {
                    AR { pos: p3, items: items.push(e.1), diags: e.2 }
                }
            },
            Some(SToken::Newline) => {
                proof { lemma_skip_cn(ts, p + 1); }
                let p1 = skip_cn(ts, p + 1);
                if p1 <= ts.len() {
                    p_array(ts, p1, items, ds, depth)
                } else {
                    AR { pos: p1, items: items, diags: ds }
                }
            },
            _ => AR { pos: p, items: items, diags: ds },
        }
    }
}

/// What follows a key `name` (read at `line:col`) at `pos`: a dotted
/// path, `= value`, a nested block (an array when its first line is an
/// entry, an object otherwise; nothing at all when no line follows one
/// level deeper), or anything else (a diagnostic).
pub open spec fn p_ident(ts: Seq<SSpanned>, pos: int, name: Seq<char>, fs: Fields, sp: Spans, ds: Seq<Diag>, depth: int, line: int, col: int) -> PR
    decreases ts.len() - pos, 3int,
{
    if pos < 0 || pos > ts.len() || depth < 0 {
        PR { pos: pos, fields: fs, spans: sp, diags: ds }
    } else {
        match tok_at(ts, pos) {
            Some(SToken::Dot) => match tok_at(ts, pos + 1) {
                Some(SToken::Ident(next)) => {
                    let r = p_ident(ts, pos + 2, next, seq![], seq![], ds, depth, line, col);
                    with_merge(r.pos, merge(fs, sp, name, SValue::Object(r.fields), r.spans, line, col, r.diags))
                },
                _ => PR { pos: pos + 1, fields: fs, spans: sp, diags: ds.push(dotted_diag(name, line, col)) },
            },
            Some(SToken::Equals) => {
                let v = value_of(tok_at(ts, pos + 1));
                let p3 = skip_cn(ts, if v.1 { pos + 2 } else { pos + 1 });
                with_merge(p3, merge(fs, sp, name, v.0, seq![], line, col, ds))
            },
            Some(SToken::Newline) | None => {
                proof { lemma_skip_cn(ts, pos); }
                let p1 = skip_cn(ts, pos);
                if is_array_block(ts, p1, depth + 1) {
                    let r = p_array(ts, p1, seq![], ds, depth);
                    with_merge(r.pos, merge(fs, sp, name, SValue::Array(r.items), seq![], line, col, r.diags))
                } else if depth_at(ts, p1) != depth + 1 {
                    PR { pos: p1, fields: fs, spans: sp, diags: ds }
                } else {
                    let r = p_block(ts, p1, seq![], seq![], ds, depth + 1);
                    with_merge(r.pos, merge(fs, sp, name, SValue::Object(r.fields), r.spans, line, col, r.diags))
                }
            },
            _ => PR { pos: pos, fields: fs, spans: sp, diags: ds.push(unexpected_diag(name, line, col)) },
        }
    }
}

/// A dotted append path from `i`: further `.name` segments are added to
/// `path`; the path and the position after it.
pub open spec fn read_path(ts: Seq<SSpanned>, i: int, path: Seq<Seq<char>>) -> (Seq<Seq<char>>, int)
    decreases ts.len() - i,
{
    if tok_at(ts, i) == Some(SToken::Dot) {
        match tok_at(ts, i + 1) {
            Some(SToken::Ident(next)) => read_path(ts, i + 2, path.push(next)),
            _ => (path, i + 1),
        }
    } else {
        (path, i)
    }
}

/// The width of an append path: its segments' byte lengths plus one per
/// segment, saturated.
pub open spec fn path_width(path: Seq<Seq<char>>) -> int
    decreases path.len(),
{
    if path.len() == 0 {
        0
    } else {
        sat_add(path_width(path.drop_last()), byte_len(path.last()) + 1)
    }
}

/// Appends `entry` to the array at `path[i..]` below the object `fs`
/// (whose spans are `sp`): missing objects on the way are created; a
/// non-object on the way or a non-array at the end gives a diagnostic.
pub open spec fn append_at(fs: Fields, sp: Spans, path: Seq<Seq<char>>, i: int, entry: SValue,
    line: int, col: int, width: int) -> (Fields, Option<Diag>)
    decreases path.len() - i,
{
    if i < 0 || i >= path.len() {
        (fs, None)
    } else if i == path.len() - 1 {
        let key = path[i];
        match find_key(fs, key) {
            Some(j) => if fs[j].1 is Array {
                (fs.update(j, (key, SValue::Array(fs[j].1->Array_0.push(entry)))), None)
            } else {
                (fs, Some(not_array_diag(key, find_span(sp, key), line, col, width)))
            },
            None => (fs.push((key, SValue::Array(seq![entry]))), None),
        }
    } else {
        let seg = path[i];
        let fs1 = if find_key(fs, seg) is None { fs.push((seg, SValue::Object(seq![]))) } else { fs };
        let j = match find_key(fs1, seg) { Some(j) => j, None => fs1.len() - 1 };
        if fs1[j].1 is Object {
            let r = append_at(fs1[j].1->Object_0, inner_spans(sp, seg), path, i + 1, entry, line, col, width);
            (fs1.update(j, (seg, SValue::Object(r.0))), r.1)
        } else {
            (fs1, Some(not_object_diag(seg, line, col, width)))
        }
    }
}

/// An append whose `~` was read at `tl:tc`, with its path from `pos`: the
/// path, then a block of child statements at `depth + 1` whose object (or
/// `null` when the block is empty) is appended.
pub open spec fn p_append(ts: Seq<SSpanned>, pos: int, fs: Fields, sp: Spans, ds: Seq<Diag>, depth: int, tl: int, tc: int) -> PR
    decreases ts.len() - pos, 3int,
{
    if pos < 0 || pos > ts.len() || depth < 0 {
        PR { pos: pos, fields: fs, spans: sp, diags: ds }
    } else {
        match tok_at(ts, pos) {
            Some(SToken::Ident(name)) => {
                let rp = read_path(ts, pos + 1, seq![name]);
                let path = rp.0;
                proof { lemma_read_path(ts, pos + 1, seq![name]); lemma_skip_cn(ts, rp.1); }
                let p2 = skip_cn(ts, rp.1);
                let r = p_block(ts, p2, seq![], seq![], ds, depth + 1);
                if r.fields.len() == 0 && p2 < ts.len() {
                    PR { pos: r.pos, fields: fs, spans: sp, diags: r.diags.push(append_children_diag(tl, tc, path_width(path))) }
                } else {
                    let entry = if r.fields.len() == 0 { SValue::Null } else { SValue::Object(r.fields) };
                    let a = append_at(fs, sp, path, 0, entry, tl, tc, path_width(path));
                    PR {
                        pos: r.pos,
                        fields: a.0,
                        spans: sp,
                        diags: match a.1 { Some(d) => r.diags.push(d), None => r.diags },
                    }
                }
            },
            _ => PR { pos: pos, fields: fs, spans: sp, diags: ds.push(append_no_path_diag(tl, tc)) },
        }
    }
}

pub proof fn lemma_read_path(ts: Seq<SSpanned>, i: int, path: Seq<Seq<char>>)
    requires
        0 <= i,
    ensures
        i <= read_path(ts, i, path).1,
        i <= ts.len() ==> read_path(ts, i, path).1 <= ts.len(),
        read_path(ts, i, path).0.len() >= path.len(),
        read_path(ts, i, path).0.subrange(0, path.len() as int) == path,
    decreases ts.len() - i,
{
    if tok_at(ts, i) == Some(SToken::Dot) {
        match tok_at(ts, i + 1) {
            Some(SToken::Ident(next)) => {
                lemma_read_path(ts, i + 2, path.push(next));
                assert(read_path(ts, i, path).0.subrange(0, path.len() as int)
                    == read_path(ts, i + 2, path.push(next)).0.subrange(0, path.len() + 1int).subrange(0, path.len() as int));
            },
            _ => {
                assert(path.subrange(0, path.len() as int) =~= path);
            },
        }
    } else {
        assert(path.subrange(0, path.len() as int) =~= path);
    }
}

// ---------------------------------------------------------------------------
// The whole stream
// ---------------------------------------------------------------------------

/// The position after the first newline at or after `i`, or the end.
pub open spec fn line_after(ts: Seq<SSpanned>, i: int) -> int
    decreases ts.len() - i,
{
    if i < 0 || i >= ts.len() {
        ts.len() as int
    } else if ts[i].tok is Newline {
        i + 1
    } else {
        line_after(ts, i + 1)
    }
}

pub proof fn lemma_line_after(ts: Seq<SSpanned>, i: int)
    requires
        0 <= i < ts.len(),
    ensures
        i < line_after(ts, i) <= ts.len(),
    decreases ts.len() - i,
{
    if !(ts[i].tok is Newline) {
        if i + 1 < ts.len() {
            lemma_line_after(ts, i + 1);
        } else {
            assert(line_after(ts, i + 1) == ts.len());
        }
    }
}

/// A line that yields no statement at the top level: it is indented less
/// than the first statement.
pub open spec fn shallow_diag(line: int, col: int) -> Diag {
    Diag {
        kind: "syntax-error"@,
        message: "line is indented less than the first statement"@,
        labels: seq![label(line, col, 1, "indentation ends here"@)],
    }
}

/// The statements of the top level from `pos` at the base depth. A line
/// that yields no statement (one indented less than the first statement)
/// is reported and skipped.
pub open spec fn p_top(ts: Seq<SSpanned>, pos: int, fs: Fields, sp: Spans, ds: Seq<Diag>, base: int) -> PR
    decreases ts.len() - pos,
{
    if pos < 0 || pos >= ts.len() {
        PR { pos: pos, fields: fs, spans: sp, diags: ds }
    } else {
        let r = p_statement(ts, pos, fs, sp, ds, base);
        let p2 = skip_cn(ts, r.pos);
        if p2 <= pos {
            proof { lemma_line_after(ts, pos); lemma_skip_cn(ts, line_after(ts, pos)); }
            let q = skip_cn(ts, line_after(ts, pos));
            let d = r.diags.push(shallow_diag(ts[pos].line, ts[pos].col));
            if q >= ts.len() {
                PR { pos: q, fields: r.fields, spans: r.spans, diags: d }
            } else {
                p_top(ts, q, r.fields, r.spans, d, base)
            }
        } else if p2 >= ts.len() {
            PR { pos: p2, fields: r.fields, spans: r.spans, diags: r.diags }
        } else {
            p_top(ts, p2, r.fields, r.spans, r.diags, base)
        }
    }
}

/// The diagnostics of the `Unknown` tokens among the first `n` tokens,
/// in order.
pub open spec fn unknown_diags(ts: Seq<SSpanned>, n: int) -> Seq<Diag>
    decreases n,
{
    if n <= 0 {
        seq![]
    } else {
        let t = ts[n - 1];
        unknown_diags(ts, n - 1) + if t.tok is Unknown {
            seq![unknown_char_diag(t.tok->Unknown_0, t.line, t.col)]
        } else {
            seq![]
        }
    }
}

/// The diagnostics of the `Error` tokens among the first `n` tokens, in
/// order.
pub open spec fn error_diags(ts: Seq<SSpanned>, n: int) -> Seq<Diag>
    decreases n,
{
    if n <= 0 {
        seq![]
    } else {
        let t = ts[n - 1];
        error_diags(ts, n - 1) + if t.tok is Error {
            seq![lexer_diag(t.tok->Error_0, t.line, t.col)]
        } else {
            seq![]
        }
    }
}

/// The diagnostics reported before parsing: every unexpected character,
/// then every lexical error, each in source order.
pub open spec fn lexical_diags(ts: Seq<SSpanned>) -> Seq<Diag> {
    unknown_diags(ts, ts.len() as int) + error_diags(ts, ts.len() as int)
}

// ---------------------------------------------------------------------------
// Executable diagnostics and objects
// ---------------------------------------------------------------------------

/// A labelled location of a diagnostic.
pub struct Mark {
    pub line: usize,
    pub col: usize,
    pub width: usize,
    pub note: Option<String>,
}

/// A diagnostic, before rendering.
pub struct Report {
    pub kind: String,
    pub message: String,
    pub labels: Vec<Mark>,
}

impl View for Mark {
    type V = Label;

    open spec fn view(&self) -> Label {
        Label {
            line: self.line as int,
            col: self.col as int,
            width: self.width as int,
            note: match self.note {
                Some(n) => Some(n@),
                None => None,
            },
        }
    }
}

impl View for Report {
    type V = Diag;

    open spec fn view(&self) -> Diag {
        Diag { kind: self.kind@, message: self.message@, labels: self.labels@.map_values(|m: Mark| m@) }
    }
}

/// Where a key of an object under construction was first defined, with
/// the same record for the keys of the object it names.
pub struct Span {
    pub key: String,
    pub line: usize,
    pub col: usize,
    pub inner: Vec<Span>,
}

/// The model of a span.
pub open spec fn span_view(s: Span) -> SSpan
    decreases s,
{
    proof { assert(decreases_to!(s.inner => s.inner@)); }
    SSpan { key: s.key@, line: s.line as int, col: s.col as int, inner: spans_view(s.inner@) }
}

/// The model of the spans of an object under construction.
pub open spec fn spans_view(s: Seq<Span>) -> Spans
    decreases s,
{
    if s.len() == 0 {
        seq![]
    } else {
        spans_view(s.drop_last()).push(span_view(s.last()))
    }
}

pub proof fn lemma_spans_view(s: Seq<Span>)
    ensures
        spans_view(s).len() == s.len(),
        forall|i: int| 0 <= i < s.len() ==> #[trigger] spans_view(s)[i] == span_view(s[i]),
    decreases s.len(),
{
    if s.len() > 0 {
        lemma_spans_view(s.drop_last());
    }
}

/// A deep copy of a span; the copy has the same model.
fn copy_span(s: &Span) -> (r: Span)
    ensures
        span_view(r) == span_view(*s),
    decreases s,
{
    let mut out: Vec<Span> = Vec::new();
    let mut i: usize = 0;
    while i < s.inner.len()
        invariant
            i <= s.inner.len(),
            spans_view(out@) == spans_view(s.inner@.subrange(0, i as int)),
        decreases s.inner.len() - i,
    {
        proof { vstd::std_specs::vec::axiom_vec_index_decreases(s.inner, i as int); }
        assert(decreases_to!(*s => s.inner));
        let c = copy_span(&s.inner[i]);
        let ghost pre = out@;
        out.push(c);
        assert(out@.drop_last() =~= pre);
        assert(s.inner@.subrange(0, i + 1).drop_last() =~= s.inner@.subrange(0, i as int));
        i = i + 1;
    }
    assert(s.inner@.subrange(0, s.inner.len() as int) =~= s.inner@);
    Span { key: s.key.clone(), line: s.line, col: s.col, inner: out }
}

pub proof fn lemma_find_key(fs: Fields, key: Seq<char>)
    ensures
        match find_key(fs, key) {
            Some(i) => 0 <= i < fs.len() && fs[i].0 == key && forall|j: int| 0 <= j < i ==> fs[j].0 != key,
            None => forall|j: int| 0 <= j < fs.len() ==> fs[j].0 != key,
        },
    decreases fs.len(),
{
    if fs.len() > 0 {
        let d = fs.drop_last();
        lemma_find_key(d, key);
        assert(forall|j: int| 0 <= j < d.len() ==> d[j] == fs[j]);
    }
}

pub proof fn lemma_span_pos(sp: Spans, key: Seq<char>)
    ensures
        match span_pos(sp, key) {
            Some(i) => 0 <= i < sp.len() && sp[i].key == key && forall|j: int| 0 <= j < i ==> sp[j].key != key,
            None => forall|j: int| 0 <= j < sp.len() ==> sp[j].key != key,
        },
    decreases sp.len(),
{
    if sp.len() > 0 {
        let d = sp.drop_last();
        lemma_span_pos(d, key);
        assert(forall|j: int| 0 <= j < d.len() ==> d[j] == sp[j]);
    }
}

/// The index of the field named `key`, if any.
fn field_index(fields: &Vec<(String, Value)>, key: &String) -> (r: Option<usize>)
    ensures
        match r {
            Some(i) => find_key(fields_view(fields@), key@) == Some(i as int),
            None => find_key(fields_view(fields@), key@) is None,
        },
{
    proof {
        lemma_fields_view(fields@);
        lemma_find_key(fields_view(fields@), key@);
    }
    let mut i: usize = 0;
    while i < fields.len()
        invariant
            i <= fields.len(),
            fields_view(fields@).len() == fields.len(),
            forall|j: int| 0 <= j < fields.len() ==> #[trigger] fields_view(fields@)[j] == (fields@[j].0@, value_view(fields@[j].1)),
            forall|j: int| 0 <= j < i ==> fields@[j].0@ != key@,
        decreases fields.len() - i,
    {
        if fields[i].0 == *key {
            proof {
                let fv = fields_view(fields@);
                lemma_find_key(fv, key@);
                assert(fv[i as int].0 == key@);
                match find_key(fv, key@) {
                    Some(k) => {
                        if k < i { assert(fv[k].0 == key@); }
                        if k > i { assert(fv[i as int].0 == key@); }
                    },
                    None => { assert(fv[i as int].0 == key@); },
                }
            }
            return Some(i);
        }
        i = i + 1;
    }
    proof {
        let fv = fields_view(fields@);
        lemma_find_key(fv, key@);
        match find_key(fv, key@) {
            Some(k) => { assert(fv[k].0 == fields@[k].0@); },
            None => {},
        }
    }
    None
}

/// The index of the first record of `key`, if any.
fn span_index(spans: &Vec<Span>, key: &String) -> (r: Option<usize>)
    ensures
        match r {
            Some(i) => i < spans@.len() && span_pos(spans_view(spans@), key@) == Some(i as int),
            None => span_pos(spans_view(spans@), key@) is None,
        },
{
    proof {
        lemma_spans_view(spans@);
        lemma_span_pos(spans_view(spans@), key@);
    }
    let mut i: usize = 0;
    while i < spans.len()
        invariant
            i <= spans.len(),
            spans_view(spans@).len() == spans.len(),
            forall|j: int| 0 <= j < spans.len() ==> #[trigger] spans_view(spans@)[j] == span_view(spans@[j]),
            forall|j: int| 0 <= j < i ==> spans@[j].key@ != key@,
        decreases spans.len() - i,
    {
        if spans[i].key == *key {
            proof {
                let sv = spans_view(spans@);
                lemma_span_pos(sv, key@);
                assert(sv[i as int].key == key@);
                match span_pos(sv, key@) {
                    Some(k) => {
                        if k < i { assert(sv[k].key == key@); }
                        if k > i { assert(sv[i as int].key == key@); }
                    },
                    None => { assert(sv[i as int].key == key@); },
                }
            }
            return Some(i);
        }
        i = i + 1;
    }
    proof {
        let sv = spans_view(spans@);
        lemma_span_pos(sv, key@);
        match span_pos(sv, key@) {
            Some(k) => { assert(sv[k].key == spans@[k].key@); },
            None => {},
        }
    }
    None
}

/// Where `key` was first defined, if recorded.
fn span_of(spans: &Vec<Span>, key: &String) -> (r: Option<(usize, usize)>)
    ensures
        find_span(spans_view(spans@), key@) == opt_pos(r),
{
    proof { lemma_spans_view(spans@); }
    match span_index(spans, key) {
        Some(i) => Some((spans[i].line, spans[i].col)),
        None => None,
    }
}

/// `'` + `s` + `'`, as characters appended to `out`.
fn push_quoted(out: &mut Vec<char>, s: &String)
    ensures
        final(out)@ == old(out)@ + quoted(s@),
{
    out.push('\'');
    extend_str(out, s.as_str());
    out.push('\'');
    assert(final(out)@ =~= old(out)@ + quoted(s@));
}

/// The byte length of a string (`str::len`).
fn byte_length(s: &String) -> (r: usize)
    ensures
        r as int == byte_len(s@),
{
    s.as_str().len()
}

fn exec_sat_add(a: usize, b: usize) -> (r: usize)
    ensures
        r as int == sat_add(a as int, b as int),
{
    if a > usize::MAX - b { usize::MAX } else { a + b }
}

/// Whether no label note of a diagnostic holds a bracket or an escape
/// character.
pub open spec fn notes_plain(d: Diag) -> bool {
    forall|i: int| 0 <= i < d.labels.len() ==> match (#[trigger] d.labels[i]).note {
        Some(n) => plain(n),
        None => true,
    }
}

fn mark(line: usize, col: usize, width: usize, note: &str) -> (r: Mark)
    requires
        plain(note@),
    ensures
        r@ == label(line as int, col as int, width as int, note@),
{
    Mark { line: line, col: col, width: width, note: Some(note.to_owned()) }
}

fn one_label(m: Mark) -> (r: Vec<Mark>)
    ensures
        r@.map_values(|x: Mark| x@) == seq![m@],
{
    let mut v: Vec<Mark> = Vec::new();
    v.push(m);
    assert(v@.map_values(|x: Mark| x@) =~= seq![m@]);
    v
}

fn two_labels(a: Mark, b: Mark) -> (r: Vec<Mark>)
    ensures
        r@.map_values(|x: Mark| x@) == seq![a@, b@],
{
    let mut v: Vec<Mark> = Vec::new();
    v.push(a);
    v.push(b);
    assert(v@.map_values(|x: Mark| x@) =~= seq![a@, b@]);
    v
}

/// The model of an optional `(line, column)` pair.
pub open spec fn opt_pos(p: Option<(usize, usize)>) -> Option<(int, int)> {
    match p {
        Some(f) => Some((f.0 as int, f.1 as int)),
        None => None,
    }
}

fn conflict_report(key: &String, old_is_object: bool, new_is_object: bool, first: Option<(usize, usize)>,
    line: usize, col: usize) -> (r: Report)
    ensures
        forall|old: SValue, new: SValue| old is Object == old_is_object && new is Object == new_is_object ==>
            r@ == #[trigger] conflict_diag(key@, old, new, opt_pos(first), line as int, col as int),
        notes_plain(r@),
{
    proof {
        reveal_strlit("redefined here");
        reveal_strlit("first defined here");
    }
    let object = old_is_object || new_is_object;
    let width = byte_length(key);
    let mut msg: Vec<char> = Vec::new();
    push_quoted(&mut msg, key);
    let kind;
    if object {
        extend_str(&mut msg, " cannot be both a scalar and an object");
        kind = "type-conflict".to_owned();
    } else {
        extend_str(&mut msg, " was already defined");
        kind = "duplicate-key".to_owned();
    }
    let here = mark(line, col, width, "redefined here");
    let labels = match first {
        Some(f) => two_labels(mark(f.0, f.1, width, "first defined here"), here),
        None => one_label(here),
    };
    Report { kind: kind, message: string_from_chars(&msg), labels: labels }
}

// ---------------------------------------------------------------------------
// The parser state
// ---------------------------------------------------------------------------

/// Builds a value tree from a token stream.
///
/// Every problem found adds a diagnostic, rendered as one string in
/// `errors`; parsing goes on after an error.
pub struct Parser {
    tokens: Vec<SpannedToken>,
    pos: usize,
    pub errors: Vec<String>,
    source: Option<String>,
    source_lines: Vec<String>,
    diags: Ghost<Seq<Diag>>,
}

impl Parser {
    /// The model of the token stream.
    pub closed spec fn stream(&self) -> Seq<SSpanned> {
        tokens_view(self.tokens@)
    }

    /// The diagnostics recorded so far, in order.
    pub closed spec fn diagnostics(&self) -> Seq<Diag> {
        self.diags@
    }

    /// The lines of the source text (as `str::lines` splits it).
    pub closed spec fn lines(&self) -> Seq<Seq<char>> {
        self.source_lines@.map_values(|l: String| l@)
    }

    /// The file name shown in diagnostics, if set.
    pub closed spec fn file_name(&self) -> Option<Seq<char>> {
        match self.source {
            Some(s) => Some(s@),
            None => None,
        }
    }

    /// The rendered errors, one per diagnostic (see `errors_rendered`).
    pub closed spec fn rendered(&self) -> Seq<String> {
        self.errors@
    }

    /// The position in the token stream.
    pub closed spec fn position(&self) -> int {
        self.pos as int
    }

    /// One rendered error per diagnostic, each the rendering of that
    /// diagnostic.
    pub open spec fn wf(&self) -> bool {
        self.counted() && self.errors_rendered()
    }

    /// One rendered error per diagnostic.
    pub open spec fn counted(&self) -> bool {
        self.rendered().len() == self.diagnostics().len() && self.inner_wf()
    }

    /// Each rendered error is farben's rendering of its diagnostic's
    /// markup (`diag_markup` with the shown file name and the source lines).
    pub open spec fn errors_rendered(&self) -> bool {
        all_rendered(self.diagnostics(), self.rendered(), shown_file(self.file_name()), self.lines())
    }

    /// The position is at most one past the last token.
    pub closed spec fn inner_wf(&self) -> bool {
        self.pos <= self.tokens@.len() + 1
    }

    /// Records a diagnostic and its rendering.
    fn report(&mut self, d: Report)
        requires
            old(self).wf(),
            notes_plain(d@),
        ensures
            final(self).wf(),
            final(self).diags@ == old(self).diags@.push(d@),
            final(self).tokens == old(self).tokens,
            final(self).pos == old(self).pos,
            final(self).source == old(self).source,
            final(self).source_lines == old(self).source_lines,
    {
        let text = self.format_error(&d);
        let ghost e0 = self.errors@;
        let ghost d0 = self.diags@;
        self.errors.push(text);
        proof {
            self.diags@ = self.diags@.push(d@);
            let file = shown_file(self.file_name());
            let lines = self.lines();
            assert(all_rendered(d0, e0, file, lines));
            assert forall|i: int| 0 <= i < self.diagnostics().len() && i < self.rendered().len() implies
                #[trigger] renders_diag(self.diagnostics()[i], self.rendered()[i]@, file, lines) by {
                if i < d0.len() {
                    assert(self.diagnostics()[i] == d0[i]);
                    assert(self.rendered()[i] == e0[i]);
                    assert(renders_diag(d0[i], e0[i]@, file, lines));
                }
            }
        }
    }

    /// Defines `key` as `value` (whose keys were first defined at `vspans`)
    /// in the object `fields` (with spans `spans`), merging objects and
    /// reporting any other redefinition.
    fn merge_into(&mut self, fields: &mut Vec<(String, Value)>, spans: &mut Vec<Span>,
        key: String, value: Value, vspans: Vec<Span>, line: usize, col: usize)
        requires
            old(self).wf(),
        ensures
            final(self).wf(),
            final(self).tokens == old(self).tokens,
            final(self).pos == old(self).pos,
            final(self).source == old(self).source,
            final(self).source_lines == old(self).source_lines,
            ({
                let m = merge(fields_view(old(fields)@), spans_view(old(spans)@), key@, value@, spans_view(vspans@),
                    line as int, col as int, old(self).diags@);
                fields_view(final(fields)@) == m.fields && spans_view(final(spans)@) == m.spans && final(self).diags@ == m.diags
            }),
        decreases value,
    {
        let ghost fv0 = fields_view(fields@);
        let ghost sp0 = spans_view(spans@);
        let ghost vsp = spans_view(vspans@);
        proof { lemma_fields_view(fields@); }
        match field_index(fields, &key) {
            None => {
                let kc = key.clone();
                let ghost sv = Span { key: kc, line: line, col: col, inner: vspans };
                assert(span_view(sv) == SSpan { key: key@, line: line as int, col: col as int, inner: vsp });
                spans.push(Span { key: kc, line: line, col: col, inner: vspans });
                assert(spans@.drop_last() =~= old(spans)@);
                assert(spans@.last() == sv);
                assert(spans_view(spans@) =~= sp0.push(SSpan { key: key@, line: line as int, col: col as int, inner: vsp }));
                fields.push((key, value));
                proof { lemma_fields_view(fields@); }
                assert(fields_view(fields@) =~= fv0.push((key@, value@)));
            },
            Some(i) => {
                proof {
                    lemma_fields_view(fields@);
                    lemma_find_key(fv0, key@);
                }
                assert(i < fields.len());
                let (k, prev) = fields.remove(i);
                let ghost rest = fields@;
                let old_is_object = match &prev { Value::Object(_) => true, _ => false };
                let new_is_object = match &value { Value::Object(_) => true, _ => false };
                assert(fv0[i as int] == (key@, prev@));
                if old_is_object && new_is_object {
                    let mut a = match prev { Value::Object(a) => a, _ => Vec::new() };
                    let ghost b0 = value->Object_0;
                    let mut b = match value { Value::Object(b) => b, _ => Vec::new() };
                    let si = span_index(spans, &key);
                    proof { lemma_spans_view(spans@); lemma_span_pos(sp0, key@); }
                    let mut child_spans: Vec<Span> = Vec::new();
                    let mut head: Option<(String, usize, usize)> = None;
                    match si {
                        Some(t) => {
                            let e = spans.remove(t);
                            assert(span_view(e) == sp0[t as int]);
                            child_spans = e.inner;
                            head = Some((e.key, e.line, e.col));
                        },
                        None => {
                            assert(spans_view(child_spans@) =~= Seq::<SSpan>::empty());
                        },
                    }
                    let ghost sp1 = spans@;
                    let ghost c0 = spans_view(child_spans@);
                    assert(c0 == inner_spans(sp0, key@));
                    let mut j: usize = 0;
                    let nb = b.len();
                    let ghost a0 = fields_view(a@);
                    assert(fields_view(b0@).subrange(0, 0) =~= Seq::<(Seq<char>, SValue)>::empty());
                    while j < nb
                        invariant
                            self.wf(),
                            self.tokens == old(self).tokens,
                            self.pos == old(self).pos,
                            self.source == old(self).source,
                            self.source_lines == old(self).source_lines,
                            value == Value::Object(b0),
                            nb == b0.len(),
                            j <= b0.len(),
                            b@ == b0@.subrange(j as int, b0.len() as int),
                            vsp == spans_view(vspans@),
                            spans@ == sp1,
                            ({
                                let r = merge_all(a0, c0, fields_view(b0@).subrange(0, j as int), vsp, line as int, col as int, old(self).diags@);
                                fields_view(a@) == r.fields && spans_view(child_spans@) == r.spans && self.diags@ == r.diags
                            }),
                        decreases b0.len() - j,
                    {
                        proof {
                            vstd::std_specs::vec::axiom_vec_index_decreases(b0, j as int);
                            lemma_fields_view(b0@);
                            lemma_spans_view(vspans@);
                        }
                        assert(decreases_to!(value => value->Object_0));
                        let (bk, bv) = b.remove(0);
                        assert(b0@[j as int] == (bk, bv));
                        let (sub, l, c) = match span_index(&vspans, &bk) {
                            Some(t) => {
                                let e = copy_span(&vspans[t]);
                                (e.inner, e.line, e.col)
                            },
                            None => {
                                let none: Vec<Span> = Vec::new();
                                assert(spans_view(none@) =~= Seq::<SSpan>::empty());
                                (none, line, col)
                            },
                        };
                        self.merge_into(&mut a, &mut child_spans, bk, bv, sub, l, c);
                        proof {
                            let fb = fields_view(b0@);
                            assert(fb.subrange(0, j + 1).drop_last() =~= fb.subrange(0, j as int));
                            assert(fb.subrange(0, j + 1).last() == fb[j as int]);
                            assert(b@ =~= b0@.subrange(j + 1, b0.len() as int));
                        }
                        j = j + 1;
                    }
                    proof {
                        lemma_fields_view(b0@);
                        assert(j == b0@.len());
                        assert(fields_view(b0@).subrange(0, j as int) =~= fields_view(b0@));
                    }
                    let ghost merged = fields_view(a@);
                    let ghost inner = spans_view(child_spans@);
                    match head {
                        Some((hk, hl, hc)) => {
                            let t = si.unwrap();
                            spans.insert(t, Span { key: hk, line: hl, col: hc, inner: child_spans });
                            proof {
                                lemma_spans_view(spans@);
                                lemma_spans_view(sp1);
                                assert(spans_view(spans@) =~= with_inner(sp0, key@, inner));
                            }
                        },
                        None => {
                            assert(spans@ == old(spans)@);
                        },
                    }
                    fields.insert(i, (k, Value::Object(a)));
                    proof {
                        lemma_fields_view(fields@);
                        lemma_fields_view(rest);
                        assert(fields_view(fields@) =~= fv0.update(i as int, (key@, SValue::Object(merged))));
                    }
                } else {
                    let first = span_of(spans, &key);
                    let d = conflict_report(&key, old_is_object, new_is_object, first, line, col);
                    self.report(d);
                    fields.insert(i, (k, prev));
                    proof {
                        lemma_fields_view(fields@);
                        assert(fields@ =~= old(fields)@);
                    }
                }
            },
        }
    }
}

// ---------------------------------------------------------------------------
// Reading the token stream
// ---------------------------------------------------------------------------

/// The model of an append path.
pub open spec fn path_view(p: Seq<String>) -> Seq<Seq<char>> {
    p.map_values(|s: String| s@)
}

/// The model of an optional diagnostic.
pub open spec fn opt_diag(r: Option<Report>) -> Option<Diag> {
    match r {
        Some(d) => Some(d@),
        None => None,
    }
}

fn is_trivia_token(t: &Token) -> (r: bool)
    ensures
        r == is_trivia(t@),
{
    match t {
        Token::Newline | Token::LineComment(_) | Token::BlockComment(_) => true,
        _ => false,
    }
}

fn is_pipe_token(t: &Token) -> (r: bool)
    ensures
        r == (t@ is Pipe),
{
    match t {
        Token::Pipe => true,
        _ => false,
    }
}

/// Appends `entry` to the array at `path[i..]` below `fields`.
fn append_path(fields: &mut Vec<(String, Value)>, spans: &Vec<Span>, path: &Vec<String>,
    i: usize, entry: Value, line: usize, col: usize, width: usize) -> (r: Option<Report>)
    requires
        i < path.len(),
    ensures
        r matches Some(d) ==> notes_plain(d@),
        (fields_view(final(fields)@), opt_diag(r)) == append_at(fields_view(old(fields)@), spans_view(spans@),
            path_view(path@), i as int, entry@, line as int, col as int, width as int),
    decreases path.len() - i,
{
    let ghost fv0 = fields_view(fields@);
    proof { lemma_fields_view(fields@); lemma_find_key(fv0, path@[i as int]@); }
    let key = &path[i];
    if i == path.len() - 1 {
        match field_index(fields, key) {
            Some(j) => {
                let (k, prev) = fields.remove(j);
                let ghost rest = fields@;
                assert(fv0[j as int] == (key@, prev@));
                match prev {
                    Value::Array(mut arr) => {
                        let ghost a0 = arr@;
                        let ghost ev = entry@;
                        arr.push(entry);
                        proof {
                            lemma_items_view(a0);
                            lemma_items_view(arr@);
                            assert(items_view(arr@) =~= items_view(a0).push(ev));
                        }
                        fields.insert(j, (k, Value::Array(arr)));
                        proof {
                            lemma_fields_view(fields@);
                            assert(fields_view(fields@) =~= fv0.update(j as int, (key@, SValue::Array(items_view(a0).push(ev)))));
                        }
                        None
                    },
                    other => {
                        let first = span_of(spans, key);
                        let d = not_array_report(key, first, line, col, width);
                        fields.insert(j, (k, other));
                        proof {
                            lemma_fields_view(fields@);
                            assert(fields@ =~= old(fields)@);
                        }
                        Some(d)
                    },
                }
            },
            None => {
                let ghost ev = entry@;
                let mut arr: Vec<Value> = Vec::new();
                arr.push(entry);
                proof { lemma_items_view(arr@); assert(items_view(arr@) =~= seq![ev]); }
                fields.push((key.clone(), Value::Array(arr)));
                proof {
                    lemma_fields_view(fields@);
                    assert(fields_view(fields@) =~= fv0.push((key@, SValue::Array(seq![ev]))));
                }
                None
            },
        }
    } else {
        let j = match field_index(fields, key) {
            Some(j) => j,
            None => {
                let empty: Vec<(String, Value)> = Vec::new();
                assert(fields_view(empty@) =~= Seq::<(Seq<char>, SValue)>::empty());
                fields.push((key.clone(), Value::Object(empty)));
                proof {
                    lemma_fields_view(fields@);
                    assert(fields_view(fields@) =~= fv0.push((key@, SValue::Object(seq![]))));
                    lemma_find_key(fields_view(fields@), key@);
                    assert(fields_view(fields@)[fields.len() - 1].0 == key@);
                }
                fields.len() - 1
            },
        };
        let ghost fv1 = fields_view(fields@);
        proof {
            lemma_fields_view(fields@);
            lemma_find_key(fv1, key@);
        }
        assert(find_key(fv1, key@) == Some(j as int)) by {
            if find_key(fv0, key@) is None {
                assert(fv1 == fv0.push((key@, SValue::Object(seq![]))));
                assert forall|x: int| 0 <= x < j implies fv1[x].0 != key@ by {
                    assert(fv1[x] == fv0[x]);
                }
            }
        }
        let (k, prev) = fields.remove(j);
        assert(fv1[j as int] == (key@, prev@));
        match prev {
            Value::Object(mut inner) => {
                let no_spans: Vec<Span> = Vec::new();
                assert(spans_view(no_spans@) =~= Seq::<SSpan>::empty());
                proof { lemma_spans_view(spans@); }
                let below: &Vec<Span> = match span_index(spans, key) {
                    Some(t) => &spans[t].inner,
                    None => &no_spans,
                };
                assert(spans_view(below@) == inner_spans(spans_view(spans@), key@));
                let r = append_path(&mut inner, below, path, i + 1, entry, line, col, width);
                let ghost iv = fields_view(inner@);
                fields.insert(j, (k, Value::Object(inner)));
                proof {
                    lemma_fields_view(fields@);
                    assert(fields_view(fields@) =~= fv1.update(j as int, (key@, SValue::Object(iv))));
                }
                r
            },
            other => {
                let d = not_object_report(key, line, col, width);
                fields.insert(j, (k, other));
                proof {
                    lemma_fields_view(fields@);
                    assert(fields_view(fields@) =~= fv1);
                }
                Some(d)
            },
        }
    }
}

fn not_array_report(key: &String, first: Option<(usize, usize)>, line: usize, col: usize, width: usize) -> (r: Report)
    ensures
        r@ == not_array_diag(key@, opt_pos(first), line as int, col as int, width as int),
        notes_plain(r@),
{
    proof {
        reveal_strlit("append attempted here");
        reveal_strlit("first defined here as scalar");
    }
    let mut msg: Vec<char> = Vec::new();
    push_quoted(&mut msg, key);
    extend_str(&mut msg, " is not an array");
    let here = mark(line, col, width, "append attempted here");
    let labels = match first {
        Some(f) => two_labels(mark(f.0, f.1, byte_length(key), "first defined here as scalar"), here),
        None => one_label(here),
    };
    Report { kind: "type-conflict".to_owned(), message: string_from_chars(&msg), labels: labels }
}

fn not_object_report(seg: &String, line: usize, col: usize, width: usize) -> (r: Report)
    ensures
        r@ == not_object_diag(seg@, line as int, col as int, width as int),
        notes_plain(r@),
{
    proof { reveal_strlit("append attempted here"); }
    let mut msg: Vec<char> = Vec::new();
    push_quoted(&mut msg, seg);
    extend_str(&mut msg, " is not an object");
    let here = mark(line, col, width, "append attempted here");
    Report { kind: "type-conflict".to_owned(), message: string_from_chars(&msg), labels: one_label(here) }
}

fn dotted_report(name: &String, line: usize, col: usize) -> (r: Report)
    ensures
        r@ == dotted_diag(name@, line as int, col as int),
        notes_plain(r@),
{
    proof { reveal_strlit("incomplete dotted path"); }
    let mut msg: Vec<char> = chars_of("expected identifier after '.' in '");
    extend_str(&mut msg, name.as_str());
    extend_str(&mut msg, ".'");
    let w = exec_sat_add(byte_length(name), 1);
    Report { kind: "syntax-error".to_owned(), message: string_from_chars(&msg),
        labels: one_label(mark(line, col, w, "incomplete dotted path")) }
}

fn unexpected_report(name: &String, line: usize, col: usize) -> (r: Report)
    ensures
        r@ == unexpected_diag(name@, line as int, col as int),
        notes_plain(r@),
{
    proof { reveal_strlit("expected '=', '.', or newline"); }
    let mut msg: Vec<char> = chars_of("unexpected token after ");
    push_quoted(&mut msg, name);
    Report { kind: "syntax-error".to_owned(), message: string_from_chars(&msg),
        labels: one_label(mark(line, col, byte_length(name), "expected '=', '.', or newline")) }
}

fn append_no_path_report(line: usize, col: usize) -> (r: Report)
    ensures
        r@ == append_no_path_diag(line as int, col as int),
        notes_plain(r@),
{
    proof { reveal_strlit("'~' used here"); }
    Report { kind: "syntax-error".to_owned(), message: "append requires a path after '~'".to_owned(),
        labels: one_label(mark(line, col, 1, "'~' used here")) }
}

fn append_children_report(line: usize, col: usize, width: usize) -> (r: Report)
    ensures
        r@ == append_children_diag(line as int, col as int, width as int),
        notes_plain(r@),
{
    proof { reveal_strlit("append path ends here"); }
    Report { kind: "syntax-error".to_owned(), message: "append requires child statements after the path".to_owned(),
        labels: one_label(mark(line, col, width, "append path ends here")) }
}

fn shallow_report(line: usize, col: usize) -> (r: Report)
    ensures
        r@ == shallow_diag(line as int, col as int),
        notes_plain(r@),
{
    proof { reveal_strlit("indentation ends here"); }
    Report { kind: "syntax-error".to_owned(), message: "line is indented less than the first statement".to_owned(),
        labels: one_label(mark(line, col, 1, "indentation ends here")) }
}

fn is_newline_token(t: &Token) -> (r: bool)
    ensures
        r == (t@ is Newline),
{
    match t {
        Token::Newline => true,
        _ => false,
    }
}

fn path_width_of(path: &Vec<String>) -> (r: usize)
    ensures
        r as int == path_width(path_view(path@)),
{
    let mut w: usize = 0;
    let mut i: usize = 0;
    while i < path.len()
        invariant
            i <= path.len(),
            w as int == path_width(path_view(path@.subrange(0, i as int))),
        decreases path.len() - i,
    {
        let b = byte_length(&path[i]);
        let step = exec_sat_add(b, 1);
        proof {
            let pv = path_view(path@.subrange(0, i + 1));
            assert(pv.drop_last() =~= path_view(path@.subrange(0, i as int)));
            assert(pv.last() == path@[i as int]@);
        }
        w = exec_sat_add(w, step);
        i = i + 1;
    }
    assert(path@.subrange(0, path.len() as int) =~= path@);
    w
}

impl Parser {
    fn pipes_end_at(&self, i: usize) -> (r: usize)
        requires
            i <= self.tokens@.len(),
        ensures
            r as int == pipes_end(self.stream(), i as int),
            i <= r <= self.tokens@.len(),
    {
        let mut j = i;
        while j < self.tokens.len() && is_pipe_token(&self.tokens[j].0)
            invariant
                i <= j <= self.tokens@.len(),
                pipes_end(self.stream(), j as int) == pipes_end(self.stream(), i as int),
            decreases self.tokens@.len() - j,
        {
            j = j + 1;
        }
        j
    }

    fn depth_from(&self, i: usize) -> (r: usize)
        requires
            i <= self.tokens@.len(),
        ensures
            r as int == depth_at(self.stream(), i as int),
            i + r <= self.tokens@.len(),
    {
        let e = self.pipes_end_at(i);
        e - i
    }

    fn current_depth(&self) -> (r: usize)
        requires
            self.pos <= self.tokens@.len(),
        ensures
            r as int == depth_at(self.stream(), self.pos as int),
            self.pos + r <= self.tokens@.len(),
    {
        self.depth_from(self.pos)
    }

    fn trivia_end_at(&self, i: usize) -> (r: usize)
        requires
            i <= self.tokens@.len(),
        ensures
            r as int == trivia_end(self.stream(), i as int),
            i <= r <= self.tokens@.len(),
    {
        let mut j = i;
        while j < self.tokens.len() && is_trivia_token(&self.tokens[j].0)
            invariant
                i <= j <= self.tokens@.len(),
                trivia_end(self.stream(), j as int) == trivia_end(self.stream(), i as int),
            decreases self.tokens@.len() - j,
        {
            j = j + 1;
        }
        j
    }

    /// The position after the first newline at or after `i`, or the end.
    fn line_after_at(&self, i: usize) -> (r: usize)
        requires
            i < self.tokens@.len(),
        ensures
            r as int == line_after(self.stream(), i as int),
            i < r <= self.tokens@.len(),
    {
        let ghost ts = self.stream();
        let n = self.tokens.len();
        let mut j = i;
        while j < n && !is_newline_token(&self.tokens[j].0)
            invariant
                i <= j <= n,
                n == self.tokens@.len(),
                ts == self.stream(),
                line_after(ts, j as int) == line_after(ts, i as int),
            decreases n - j,
        {
            assert(ts[j as int] == spanned_view(self.tokens@[j as int]));
            j = j + 1;
        }
        proof { lemma_line_after(ts, i as int); }
        if j < n {
            assert(ts[j as int] == spanned_view(self.tokens@[j as int]));
            j + 1
        } else {
            n
        }
    }

    fn skip_comments_and_newlines(&mut self)
        requires
            old(self).wf(),
            old(self).pos <= old(self).tokens@.len(),
        ensures
            final(self).wf(),
            final(self).pos as int == skip_cn(old(self).stream(), old(self).pos as int),
            final(self).pos <= final(self).tokens@.len(),
            final(self).pos >= old(self).pos,
            final(self).tokens == old(self).tokens,
            final(self).diags == old(self).diags,
            final(self).errors == old(self).errors,
            final(self).source == old(self).source,
            final(self).source_lines == old(self).source_lines,
    {
        let ghost ts = self.stream();
        let n = self.tokens.len();
        loop
            invariant
                self.wf(),
                ts == self.stream(),
                n == self.tokens@.len(),
                old(self).pos <= self.pos <= n,
                skip_cn(ts, self.pos as int) == skip_cn(ts, old(self).pos as int),
                self.tokens == old(self).tokens,
                self.diags == old(self).diags,
                self.errors == old(self).errors,
                self.source == old(self).source,
                self.source_lines == old(self).source_lines,
            ensures
                self.wf(),
                old(self).pos <= self.pos <= n,
                skip_cn(ts, old(self).pos as int) == self.pos,
                self.tokens == old(self).tokens,
                self.diags == old(self).diags,
                self.errors == old(self).errors,
                self.source == old(self).source,
                self.source_lines == old(self).source_lines,
            decreases n - self.pos,
        {
            if self.pos >= n {
                break;
            }
            if is_trivia_token(&self.tokens[self.pos].0) {
                self.pos = self.pos + 1;
            } else if is_pipe_token(&self.tokens[self.pos].0) {
                let k = self.pipes_end_at(self.pos);
                proof { lemma_pipes_end(ts, self.pos as int); }
                if k < n && is_trivia_token(&self.tokens[k].0) {
                    self.pos = k + 1;
                } else if k >= n {
                    self.pos = k;
                    break;
                } else {
                    break;
                }
            } else {
                break;
            }
        }
    }

    fn parse_value(&mut self) -> (r: Value)
        requires
            old(self).wf(),
            old(self).pos <= old(self).tokens@.len(),
        ensures
            final(self).wf(),
            ({
                let v = value_of(tok_at(old(self).stream(), old(self).pos as int));
                r@ == v.0 && final(self).pos == if v.1 { old(self).pos + 1 } else { old(self).pos as int }
            }),
            final(self).tokens == old(self).tokens,
            final(self).diags == old(self).diags,
            final(self).errors == old(self).errors,
            final(self).source == old(self).source,
            final(self).source_lines == old(self).source_lines,
    {
        if self.pos >= self.tokens.len() {
            return Value::Null;
        }
        let v = match &self.tokens[self.pos].0 {
            Token::Str(s) => Value::String(s.clone()),
            Token::Ident(s) => Value::String(s.clone()),
            Token::Number(n) => Value::Number(n.clone()),
            Token::Bool(b) => Value::Bool(*b),
            Token::Null => Value::Null,
            Token::Tagged(t, c) => Value::Tagged(t.clone(), c.clone()),
            _ => {
                return Value::Null;
            },
        };
        self.pos = self.pos + 1;
        v
    }
}

/// The parser has reached the state `r` with these fields and spans.
pub open spec fn reached(p: Parser, fields: Seq<(String, Value)>, spans: Seq<Span>, r: PR) -> bool {
    p.position() == r.pos && fields_view(fields) == r.fields && spans_view(spans) == r.spans && p.diagnostics() == r.diags
}

impl Parser {
    /// The parts of the parser that parsing never changes.
    pub closed spec fn same_input(&self, other: Parser) -> bool {
        &&& self.tokens == other.tokens
        &&& self.source == other.source
        &&& self.source_lines == other.source_lines
    }

    /// Whether the token stream is small enough for position arithmetic.
    pub closed spec fn bounded(&self) -> bool {
        self.tokens@.len() + 8 <= usize::MAX
    }

    fn empty_object() -> (r: (Vec<(String, Value)>, Vec<Span>))
        ensures
            fields_view(r.0@) == Seq::<(Seq<char>, SValue)>::empty(),
            spans_view(r.1@) == Seq::<SSpan>::empty(),
    {
        let f: Vec<(String, Value)> = Vec::new();
        let s: Vec<Span> = Vec::new();
        assert(spans_view(s@) =~= Seq::<SSpan>::empty());
        (f, s)
    }

    fn parse_statement(&mut self, fields: &mut Vec<(String, Value)>, spans: &mut Vec<Span>, depth: usize)
        requires
            old(self).wf(),
            old(self).bounded(),
            old(self).pos <= old(self).tokens@.len(),
            depth <= old(self).tokens@.len(),
        ensures
            final(self).wf(),
            final(self).bounded(),
            final(self).same_input(*old(self)),
            old(self).pos <= final(self).pos <= final(self).tokens@.len() + 1,
            depth_at(old(self).stream(), old(self).pos as int) >= depth ==> final(self).pos > old(self).pos,
            reached(*final(self), final(fields)@, final(spans)@, p_statement(old(self).stream(), old(self).pos as int,
                fields_view(old(fields)@), spans_view(old(spans)@), old(self).diags@, depth as int)),
        decreases old(self).tokens@.len() - old(self).pos, 0int,
    {
        let ghost ts = self.stream();
        let d = self.current_depth();
        if d < depth {
            return;
        }
        proof { lemma_pipes_end(ts, self.pos as int); }
        self.pos = self.pos + depth;
        if self.pos >= self.tokens.len() {
            self.pos = self.pos + 1;
            return;
        }
        let p = self.pos;
        let line = self.tokens[p].1;
        let col = self.tokens[p].2;
        match &self.tokens[p].0 {
            Token::Tilde => {
                self.pos = p + 1;
                self.parse_append(fields, spans, depth, line, col);
            },
            Token::Ident(name) => {
                let name = name.clone();
                self.pos = p + 1;
                self.parse_ident(name, fields, spans, depth, line, col);
            },
            _ => {
                self.pos = p + 1;
            },
        }
    }

    fn parse_block(&mut self, fields: &mut Vec<(String, Value)>, spans: &mut Vec<Span>, d: usize)
        requires
            old(self).wf(),
            old(self).bounded(),
            old(self).pos <= old(self).tokens@.len(),
            1 <= d <= old(self).tokens@.len() + 1,
        ensures
            final(self).wf(),
            final(self).bounded(),
            final(self).same_input(*old(self)),
            old(self).pos <= final(self).pos <= final(self).tokens@.len() + 1,
            reached(*final(self), final(fields)@, final(spans)@, p_block(old(self).stream(), old(self).pos as int,
                fields_view(old(fields)@), spans_view(old(spans)@), old(self).diags@, d as int)),
        decreases old(self).tokens@.len() - old(self).pos, 1int,
    {
        let ghost ts = self.stream();
        let ghost target = p_block(ts, self.pos as int, fields_view(fields@), spans_view(spans@), self.diags@, d as int);
        loop
            invariant
                self.wf(),
                self.bounded(),
                self.same_input(*old(self)),
                ts == self.stream(),
                1 <= d <= self.tokens@.len() + 1,
                old(self).pos <= self.pos <= self.tokens@.len() + 1,
                target == p_block(ts, old(self).pos as int, fields_view(old(fields)@), spans_view(old(spans)@), old(self).diags@, d as int),
                p_block(ts, self.pos as int, fields_view(fields@), spans_view(spans@), self.diags@, d as int) == target,
            ensures
                self.wf(),
                self.bounded(),
                self.same_input(*old(self)),
                old(self).pos <= self.pos <= self.tokens@.len() + 1,
                reached(*self, fields@, spans@, target),
            decreases self.tokens@.len() - self.pos,
        {
            let ghost p0 = self.pos as int;
            if self.pos > self.tokens.len() {
                break;
            }
            let cd = self.current_depth();
            if cd != d {
                break;
            }
            self.parse_statement(fields, spans, d);
            if self.pos > self.tokens.len() {
                proof { lemma_skip_cn(ts, self.pos as int); }
                break;
            }
            self.skip_comments_and_newlines();
        }
    }
}

/// The parser has read the array entries `r`.
pub open spec fn read_items(p: Parser, items: Seq<Value>, r: AR) -> bool {
    p.position() == r.pos && items_view(items) == r.items && p.diagnostics() == r.diags
}

impl Parser {
    fn parse_ident(&mut self, name: String, fields: &mut Vec<(String, Value)>, spans: &mut Vec<Span>,
        depth: usize, line: usize, col: usize)
        requires
            old(self).wf(),
            old(self).bounded(),
            old(self).pos <= old(self).tokens@.len(),
            depth <= old(self).tokens@.len(),
        ensures
            final(self).wf(),
            final(self).bounded(),
            final(self).same_input(*old(self)),
            old(self).pos <= final(self).pos <= final(self).tokens@.len() + 1,
            reached(*final(self), final(fields)@, final(spans)@, p_ident(old(self).stream(), old(self).pos as int, name@,
                fields_view(old(fields)@), spans_view(old(spans)@), old(self).diags@, depth as int, line as int, col as int)),
        decreases old(self).tokens@.len() - old(self).pos, 3int,
    {
        let ghost ts = self.stream();
        let n = self.tokens.len();
        let p = self.pos;
        let kind: u8 = if p >= n {
            3
        } else {
            match &self.tokens[p].0 {
                Token::Dot => 1,
                Token::Equals => 2,
                Token::Newline => 3,
                _ => 4,
            }
        };
        if kind == 1 {
            self.pos = p + 1;
            let next: Option<String> = if p + 1 < n {
                match &self.tokens[p + 1].0 {
                    Token::Ident(x) => Some(x.clone()),
                    _ => None,
                }
            } else {
                None
            };
            match next {
                Some(x) => {
                    self.pos = p + 2;
                    let (mut cf, mut cs) = Self::empty_object();
                    self.parse_ident(x, &mut cf, &mut cs, depth, line, col);
                    let ghost cv = fields_view(cf@);
                    self.merge_into(fields, spans, name, Value::Object(cf), cs, line, col);
                },
                None => {
                    let d = dotted_report(&name, line, col);
                    self.report(d);
                },
            }
        } else if kind == 2 {
            self.pos = p + 1;
            let v = self.parse_value();
            self.skip_comments_and_newlines();
            let none: Vec<Span> = Vec::new();
            assert(spans_view(none@) =~= Seq::<SSpan>::empty());
            self.merge_into(fields, spans, name, v, none, line, col);
        } else if kind == 3 {
            self.skip_comments_and_newlines();
            proof { lemma_skip_cn(ts, p as int); lemma_pipes_end(ts, self.pos as int); }
            let p1 = self.pos;
            let d1 = self.depth_from(p1);
            let e = self.pipes_end_at(p1);
            let is_array = d1 == depth + 1 && e < n && match &self.tokens[e].0 { Token::Dash => true, _ => false };
            if is_array {
                let mut entries: Vec<Value> = Vec::new();
                proof { lemma_items_view(entries@); }
                assert(items_view(entries@) =~= Seq::<SValue>::empty());
                self.parse_array(&mut entries, depth);
                let none: Vec<Span> = Vec::new();
                assert(spans_view(none@) =~= Seq::<SSpan>::empty());
                self.merge_into(fields, spans, name, Value::Array(entries), none, line, col);
            } else if d1 != depth + 1 {
            } else {
                let (mut cf, mut cs) = Self::empty_object();
                self.parse_block(&mut cf, &mut cs, depth + 1);
                self.merge_into(fields, spans, name, Value::Object(cf), cs, line, col);
            }
        } else {
            let d = unexpected_report(&name, line, col);
            self.report(d);
        }
    }

    #[verifier::rlimit(40)]
    #[verifier::spinoff_prover]
    fn parse_array(&mut self, entries: &mut Vec<Value>, depth: usize)
        requires
            old(self).wf(),
            old(self).bounded(),
            old(self).pos <= old(self).tokens@.len(),
            depth + 1 <= old(self).tokens@.len(),
        ensures
            final(self).wf(),
            final(self).bounded(),
            final(self).same_input(*old(self)),
            old(self).pos <= final(self).pos <= final(self).tokens@.len() + 1,
            read_items(*final(self), final(entries)@, p_array(old(self).stream(), old(self).pos as int,
                items_view(old(entries)@), old(self).diags@, depth as int)),
        decreases old(self).tokens@.len() - old(self).pos, 2int,
    {
        let ghost ts = self.stream();
        let ghost target = p_array(ts, self.pos as int, items_view(entries@), self.diags@, depth as int);
        let n = self.tokens.len();
        loop
            invariant
                self.wf(),
                self.bounded(),
                self.same_input(*old(self)),
                ts == self.stream(),
                n == self.tokens@.len(),
                depth + 1 <= n,
                old(self).pos <= self.pos <= n + 1,
                target == p_array(ts, old(self).pos as int, items_view(old(entries)@), old(self).diags@, depth as int),
                p_array(ts, self.pos as int, items_view(entries@), self.diags@, depth as int) == target,
            ensures
                self.wf(),
                self.bounded(),
                self.same_input(*old(self)),
                old(self).pos <= self.pos <= n + 1,
                read_items(*self, entries@, target),
            decreases n - self.pos,
        {
            let ghost p0 = self.pos as int;
            if self.pos > n {
                break;
            }
            let cd = self.current_depth();
            if cd != depth + 1 {
                break;
            }
            proof { lemma_pipes_end(ts, self.pos as int); }
            let p = self.pos + depth + 1;
            self.pos = p;
            let kind: u8 = if p >= n {
                0
            } else {
                match &self.tokens[p].0 {
                    Token::Dash => 1,
                    Token::Newline => 2,
                    _ => 0,
                }
            };
            if kind == 0 {
                break;
            } else if kind == 2 {
                self.pos = p + 1;
                self.skip_comments_and_newlines();
                proof { lemma_skip_cn(ts, p + 1); }
            } else {
                self.pos = p + 1;
                self.skip_comments_and_newlines();
                proof { lemma_skip_cn(ts, p + 1); }
                let p1 = self.pos;
                let d1 = self.current_depth();
                let ghost before_seq = entries@;
                let e: Value;
                if d1 == depth + 2 {
                    let (mut cf, mut cs) = Self::empty_object();
                    self.parse_block(&mut cf, &mut cs, depth + 2);
                    e = Value::Object(cf);
                } else if p1 >= n {
                    e = Value::Null;
                } else {
                    let entry_name: Option<String> = match &self.tokens[p1].0 {
                        Token::Ident(x) => Some(x.clone()),
                        Token::Str(x) => Some(x.clone()),
                        _ => None,
                    };
                    let is_newline = match &self.tokens[p1].0 { Token::Newline => true, _ => false };
                    if is_newline {
                        e = Value::Null;
                    } else {
                        match entry_name {
                            Some(x) => {
                                let el = self.tokens[p1].1;
                                let ec = self.tokens[p1].2;
                                let kids: bool = if p1 + 1 >= n {
                                    let te = self.trivia_end_at(p1 + 1);
                                    self.depth_from(te) == depth + 2
                                } else {
                                    match &self.tokens[p1 + 1].0 {
                                        Token::Equals | Token::Dot => true,
                                        Token::Newline => {
                                            let te = self.trivia_end_at(p1 + 1);
                                            self.depth_from(te) == depth + 2
                                        },
                                        _ => false,
                                    }
                                };
                                if kids {
                                    self.pos = p1 + 1;
                                    let (mut cf, mut cs) = Self::empty_object();
                                    self.parse_ident(x, &mut cf, &mut cs, depth + 1, el, ec);
                                    e = Value::Object(cf);
                                } else {
                                    self.pos = p1 + 1;
                                    e = Value::String(x);
                                }
                            },
                            None => {
                                e = self.parse_value();
                            },
                        }
                    }
                }
                let ghost ev = e@;
                entries.push(e);
                assert(entries@.drop_last() =~= before_seq);
                assert(items_view(entries@) == items_view(before_seq).push(ev));
                if self.pos > n {
                    proof { lemma_skip_cn(ts, self.pos as int); }
                    break;
                }
                self.skip_comments_and_newlines();
            }
        }
    }
}

impl Parser {
    fn parse_append(&mut self, fields: &mut Vec<(String, Value)>, spans: &mut Vec<Span>,
        depth: usize, tl: usize, tc: usize)
        requires
            old(self).wf(),
            old(self).bounded(),
            old(self).pos <= old(self).tokens@.len(),
            depth <= old(self).tokens@.len(),
        ensures
            final(self).wf(),
            final(self).bounded(),
            final(self).same_input(*old(self)),
            old(self).pos <= final(self).pos <= final(self).tokens@.len() + 1,
            reached(*final(self), final(fields)@, final(spans)@, p_append(old(self).stream(), old(self).pos as int,
                fields_view(old(fields)@), spans_view(old(spans)@), old(self).diags@, depth as int, tl as int, tc as int)),
        decreases old(self).tokens@.len() - old(self).pos, 3int,
    {
        let ghost ts = self.stream();
        let n = self.tokens.len();
        let p = self.pos;
        let first: Option<String> = if p < n {
            match &self.tokens[p].0 {
                Token::Ident(x) => Some(x.clone()),
                _ => None,
            }
        } else {
            None
        };
        let name = match first {
            Some(x) => x,
            None => {
                let d = append_no_path_report(tl, tc);
                self.report(d);
                return;
            },
        };
        let ghost name0 = name@;
        let mut path: Vec<String> = Vec::new();
        path.push(name);
        self.pos = p + 1;
        assert(path_view(path@) =~= seq![name0]);
        loop
            invariant_except_break
                read_path(ts, p + 1, seq![name0]) == read_path(ts, self.pos as int, path_view(path@)),
            invariant
                self.wf(),
                self.bounded(),
                self.same_input(*old(self)),
                ts == self.stream(),
                n == self.tokens@.len(),
                p + 1 <= self.pos <= n,
                path@.len() >= 1,
                path@[0]@ == name0,
                self.diags == old(self).diags,
                self.errors == old(self).errors,
                self.pos == old(self).pos + 1 || p + 1 < self.pos,
            ensures
                self.wf(),
                self.bounded(),
                self.same_input(*old(self)),
                p + 1 <= self.pos <= n,
                self.diags == old(self).diags,
                read_path(ts, p + 1, seq![name0]) == (path_view(path@), self.pos as int),
            decreases n - self.pos,
        {
            let q = self.pos;
            let is_dot = q < n && match &self.tokens[q].0 { Token::Dot => true, _ => false };
            if !is_dot {
                break;
            }
            let next: Option<String> = if q + 1 < n {
                match &self.tokens[q + 1].0 {
                    Token::Ident(x) => Some(x.clone()),
                    _ => None,
                }
            } else {
                None
            };
            match next {
                Some(x) => {
                    let ghost pv = path_view(path@);
                    path.push(x);
                    assert(path_view(path@) =~= pv.push(path@[path@.len() - 1]@));
                    self.pos = q + 2;
                },
                None => {
                    self.pos = q + 1;
                    break;
                },
            }
        }
        proof { lemma_skip_cn(ts, self.pos as int); }
        self.skip_comments_and_newlines();
        let p2 = self.pos;
        let (mut cf, mut cs) = Self::empty_object();
        self.parse_block(&mut cf, &mut cs, depth + 1);
        proof { lemma_fields_view(cf@); }
        let width = path_width_of(&path);
        if cf.len() == 0 && p2 < self.tokens.len() {
            self.report(append_children_report(tl, tc, width));
            return;
        }
        let entry = if cf.len() == 0 { Value::Null } else { Value::Object(cf) };
        match append_path(fields, spans, &path, 0, entry, tl, tc, width) {
            Some(d) => {
                self.report(d);
            },
            None => {},
        }
    }
}

// ---------------------------------------------------------------------------
// Source lines
// ---------------------------------------------------------------------------

/// The lines of `s` from index `i`, as `str::lines` gives them: split at
/// `\n`, a `\r` before the `\n` removed, no empty line after a final `\n`.
pub open spec fn lines_from(s: Seq<char>, i: int) -> Seq<Seq<char>>
    decreases s.len() - i,
{
    if i < 0 || i >= s.len() {
        seq![]
    } else {
        let e = crate::lexer::line_end(s, i);
        proof { crate::lexer::lemma_line_end(s, i); }
        let l = s.subrange(i, e);
        let l2 = if e < s.len() && l.len() > 0 && l.last() == '\r' { l.drop_last() } else { l };
        if e < s.len() { seq![l2] + lines_from(s, e + 1) } else { seq![l2] }
    }
}

/// The lines of a source text.
pub open spec fn source_lines(s: Seq<char>) -> Seq<Seq<char>> {
    lines_from(s, 0)
}

/// The text of source line `line` (1-based; line 0 is taken as line 1),
/// or nothing past the last line.
pub open spec fn source_line(ls: Seq<Seq<char>>, line: int) -> Seq<char> {
    let k = if line <= 0 { 0 } else { line - 1 };
    if k < ls.len() { ls[k] } else { seq![] }
}

fn split_source_lines(text: &str) -> (r: Vec<String>)
    ensures
        r@.map_values(|l: String| l@) == source_lines(text@),
{
    let s = chars_of(text);
    let n = s.len();
    let mut out: Vec<String> = Vec::new();
    let mut i: usize = 0;
    assert(out@.map_values(|l: String| l@) + lines_from(s@, 0) =~= source_lines(text@));
    while i < n
        invariant
            n == s@.len(),
            s@ == text@,
            i <= n,
            out@.map_values(|l: String| l@) + lines_from(s@, i as int) == source_lines(text@),
        decreases n - i,
    {
        let mut e = i;
        while e < n && s[e] != '\n'
            invariant
                i <= e <= n,
                n == s@.len(),
                crate::lexer::line_end(s@, e as int) == crate::lexer::line_end(s@, i as int),
            decreases n - e,
        {
            e = e + 1;
        }
        let mut stop = e;
        if e < n && e > i && s[e - 1] == '\r' {
            stop = e - 1;
        }
        let piece = sub_chars(&s, i, stop);
        let ghost before = out@.map_values(|l: String| l@);
        out.push(string_from_chars(&piece));
        proof {
            let l = s@.subrange(i as int, e as int);
            if e < n && e > i && s@[e - 1] == '\r' {
                assert(l.drop_last() =~= s@.subrange(i as int, stop as int));
            } else {
                assert(s@.subrange(i as int, stop as int) =~= l);
            }
            assert(out@.map_values(|l: String| l@) =~= before.push(piece@));
            if e < n {
                assert(before.push(piece@) + lines_from(s@, e + 1) =~= before + (seq![piece@] + lines_from(s@, e + 1)));
            } else {
                assert(before.push(piece@) + lines_from(s@, n as int) =~= before + seq![piece@]);
            }
        }
        if e < n {
            i = e + 1;
        } else {
            i = n;
        }
    }
    assert(lines_from(s@, n as int) == Seq::<Seq<char>>::empty());
    assert(out@.map_values(|l: String| l@) + Seq::<Seq<char>>::empty() =~= out@.map_values(|l: String| l@));
    out
}

// ---------------------------------------------------------------------------
// Parsing a whole stream
// ---------------------------------------------------------------------------

/// Parsing from position `pos` with diagnostics `ds` already recorded:
/// the lexical diagnostics are added, then the statements are read at the
/// depth of the first one. The top-level fields and all diagnostics.
pub open spec fn parse_from(ts: Seq<SSpanned>, pos: int, ds: Seq<Diag>) -> (Fields, Seq<Diag>) {
    let p0 = skip_cn(ts, pos);
    let r = p_top(ts, p0, seq![], seq![], ds + lexical_diags(ts), depth_at(ts, p0));
    (r.fields, r.diags)
}

/// The outcome of `parse` as a value: an object of the top-level fields
/// when there is no diagnostic, the diagnostics otherwise.
pub open spec fn parse_outcome(r: (Fields, Seq<Diag>)) -> Result<SValue, Seq<Diag>> {
    if r.1.len() == 0 { Ok(SValue::Object(r.0)) } else { Err(r.1) }
}

impl Parser {
    /// Creates a parser for `tokens`, read from `source_text` (whose lines
    /// appear in diagnostics).
    pub fn new(tokens: Vec<SpannedToken>, source_text: &str) -> (r: Self)
        requires
            tokens@.len() + 8 <= usize::MAX,
        ensures
            r.wf(),
            r.bounded(),
            r.stream() == tokens_view(tokens@),
            r.position() == 0,
            r.diagnostics() == Seq::<Diag>::empty(),
            r.rendered() == Seq::<String>::empty(),
            r.lines() == source_lines(source_text@),
            r.file_name() is None,
    {
        Parser {
            tokens: tokens,
            pos: 0,
            errors: Vec::new(),
            source: None,
            source_lines: split_source_lines(source_text),
            diags: Ghost(Seq::empty()),
        }
    }

    /// Sets the file name shown in diagnostics.
    pub fn with_source(self, source: &str) -> (r: Self)
        requires
            self.wf(),
        ensures
            r.counted(),
            self.rendered().len() == 0 ==> r.wf(),
            r.bounded() == self.bounded(),
            r.stream() == self.stream(),
            r.position() == self.position(),
            r.diagnostics() == self.diagnostics(),
            r.rendered() == self.rendered(),
            r.lines() == self.lines(),
            r.file_name() == Some(source@),
    {
        let mut p = self;
        p.source = Some(source.to_owned());
        p
    }

    fn report_lexical(&mut self)
        requires
            old(self).wf(),
        ensures
            final(self).wf(),
            final(self).same_input(*old(self)),
            final(self).pos == old(self).pos,
            final(self).diags@ == old(self).diags@ + lexical_diags(old(self).stream()),
    {
        let ghost ts = self.stream();
        let n = self.tokens.len();
        let ghost d0 = self.diags@;
        let mut i: usize = 0;
        while i < n
            invariant
                self.wf(),
                self.same_input(*old(self)),
                self.pos == old(self).pos,
                n == self.tokens@.len(),
                ts == self.stream(),
                i <= n,
                self.diags@ == d0 + unknown_diags(ts, i as int),
            decreases n - i,
        {
            assert(ts[i as int] == spanned_view(self.tokens@[i as int]));
            let ghost before = self.diags@;
            if let Token::Unknown(c) = &self.tokens[i].0 {
                let c = *c;
                let line = self.tokens[i].1;
                let col = self.tokens[i].2;
                let mut msg: Vec<char> = chars_of("unexpected character '");
                msg.push(c);
                extend_str(&mut msg, "', is this a Spine file?");
                assert(msg@ =~= "unexpected character '"@ + seq![c] + "', is this a Spine file?"@);
                let d = Report {
                    kind: "unexpected-character".to_owned(),
                    message: string_from_chars(&msg),
                    labels: one_label(Mark { line: line, col: col, width: 1, note: None }),
                };
                assert(d@ == unknown_char_diag(c, line as int, col as int));
                self.report(d);
                assert(self.diags@ =~= d0 + unknown_diags(ts, i + 1));
            } else {
                assert(self.diags@ =~= d0 + unknown_diags(ts, i + 1));
            }
            i = i + 1;
        }
        let ghost d1 = self.diags@;
        let mut j: usize = 0;
        while j < n
            invariant
                self.wf(),
                self.same_input(*old(self)),
                self.pos == old(self).pos,
                n == self.tokens@.len(),
                ts == self.stream(),
                j <= n,
                self.diags@ == d1 + error_diags(ts, j as int),
            decreases n - j,
        {
            assert(ts[j as int] == spanned_view(self.tokens@[j as int]));
            if let Token::Error(m) = &self.tokens[j].0 {
                let msg = m.clone();
                let line = self.tokens[j].1;
                let col = self.tokens[j].2;
                let d = Report {
                    kind: "lexer-error".to_owned(),
                    message: msg,
                    labels: one_label(Mark { line: line, col: col, width: 1, note: None }),
                };
                assert(d@ == lexer_diag(ts[j as int].tok->Error_0, line as int, col as int));
                self.report(d);
                assert(self.diags@ =~= d1 + error_diags(ts, j + 1));
            } else {
                assert(self.diags@ =~= d1 + error_diags(ts, j + 1));
            }
            j = j + 1;
        }
        assert(self.diags@ =~= d0 + lexical_diags(ts));
    }

    /// Parses the statements.
    fn run(&mut self) -> (r: Result<Value, Vec<String>>)
        requires
            old(self).wf(),
            old(self).bounded(),
        ensures
            final(self).wf(),
            final(self).same_input(*old(self)),
            ({
                let res = parse_from(old(self).stream(), old(self).pos as int, old(self).diags@);
                &&& final(self).diags@ == res.1
                &&& match (r, parse_outcome(res)) {
                    (Ok(v), Ok(sv)) => v@ == sv,
                    (Err(e), Err(_)) => e@ == final(self).errors@,
                    _ => false,
                }
            }),
    {
        let ghost ts = self.stream();
        let ghost pos0 = self.pos as int;
        let ghost ds0 = self.diags@;
        let n = self.tokens.len();
        self.report_lexical();
        let ghost ds1 = self.diags@;
        if self.pos <= n {
            self.skip_comments_and_newlines();
        } else {
            proof { lemma_skip_cn(ts, self.pos as int); }
        }
        let base = if self.pos <= n { self.current_depth() } else { 0 };
        proof {
            if self.pos > n {
                lemma_pipes_end(ts, self.pos as int);
            }
        }
        let ghost p0 = self.pos as int;
        let (mut fields, mut spans) = Self::empty_object();
        let ghost target = p_top(ts, p0, seq![], seq![], ds1, base as int);
        while self.pos < n
            invariant
                self.wf(),
                self.bounded(),
                self.same_input(*old(self)),
                ts == self.stream(),
                n == self.tokens@.len(),
                base <= n,
                self.pos <= n + 1,
                p0 == skip_cn(ts, pos0),
                ds1 == ds0 + lexical_diags(ts),
                base == depth_at(ts, p0),
                pos0 == old(self).pos,
                ds0 == old(self).diags@,
                target == p_top(ts, p0, seq![], seq![], ds1, base as int),
                p_top(ts, self.pos as int, fields_view(fields@), spans_view(spans@), self.diags@, base as int) == target,
            decreases n + 1 - self.pos,
        {
            let before = self.pos;
            self.parse_statement(&mut fields, &mut spans, base);
            if self.pos <= n {
                self.skip_comments_and_newlines();
            } else {
                proof { lemma_skip_cn(ts, self.pos as int); }
            }
            if self.pos <= before {
                let line = self.tokens[before].1;
                let col = self.tokens[before].2;
                assert(ts[before as int] == spanned_view(self.tokens@[before as int]));
                self.report(shallow_report(line, col));
                let q = self.line_after_at(before);
                self.pos = q;
                self.skip_comments_and_newlines();
            }
        }
        proof {
            assert(p_top(ts, self.pos as int, fields_view(fields@), spans_view(spans@), self.diags@, base as int)
                == PR { pos: self.pos as int, fields: fields_view(fields@), spans: spans_view(spans@), diags: self.diags@ });
        }
        if self.errors.len() == 0 {
            Ok(Value::Object(fields))
        } else {
            let mut copy: Vec<String> = Vec::new();
            let mut k: usize = 0;
            while k < self.errors.len()
                invariant
                    k <= self.errors@.len(),
                    copy@ == self.errors@.subrange(0, k as int),
                decreases self.errors@.len() - k,
            {
                copy.push(self.errors[k].clone());
                k = k + 1;
                assert(copy@ =~= self.errors@.subrange(0, k as int));
            }
            assert(copy@ =~= self.errors@);
            Err(copy)
        }
    }

    /// Parses the token stream: an object of the top-level fields when no
    /// diagnostic was recorded, one rendered error per diagnostic otherwise.
    pub fn parse(&mut self) -> (r: Result<Value, Vec<String>>)
        requires
            old(self).wf(),
            old(self).bounded(),
        ensures
            final(self).wf(),
            final(self).stream() == old(self).stream(),
            final(self).file_name() == old(self).file_name(),
            final(self).lines() == old(self).lines(),
            ({
                let res = parse_from(old(self).stream(), old(self).position(), old(self).diagnostics());
                &&& final(self).diagnostics() == res.1
                &&& match (r, parse_outcome(res)) {
                    (Ok(v), Ok(sv)) => v@ == sv,
                    (Err(e), Err(_)) => e@ == final(self).rendered(),
                    _ => false,
                }
            }),
    {
        self.run()
    }
}

// ---------------------------------------------------------------------------
// Rendering diagnostics
// ---------------------------------------------------------------------------

/// The escape character, which farben keeps with a following `[` as text.
pub open spec fn esc_char() -> char {
    '\x1b'
}

/// The style names used in diagnostics.
pub open spec fn known_style(t: Seq<char>) -> bool {
    t == "dim"@ || t == "/"@ || t == "bold red"@ || t == "/red"@ || t == "cyan"@ || t == "red"@ || t == "bold"@
}

/// A tag of a known style.
pub open spec fn known_tag(t: Seq<char>) -> bool {
    t == "[dim]"@ || t == "[/]"@ || t == "[bold red]"@ || t == "[/red]"@ || t == "[cyan]"@ || t == "[red]"@ || t == "[bold]"@
}

/// The first position at or after `j` that holds `]`, or the end.
pub open spec fn close_from(m: Seq<char>, j: int) -> int
    decreases m.len() - j,
{
    if j < 0 || j >= m.len() || m[j] == ']' { j } else { close_from(m, j + 1) }
}

/// Farben markup from `i` that farben reads without error: text, `[[` and
/// `]]` (a literal bracket), an escape character followed by `[` (kept as
/// text), and tags `[style]` of the known styles.
pub open spec fn markup_ok(m: Seq<char>, i: int) -> bool
    decreases m.len() - i,
{
    if i < 0 {
        false
    } else if i >= m.len() {
        true
    } else if m[i] == esc_char() && is_at_char(m, i + 1, '[') {
        markup_ok(m, i + 2)
    } else if m[i] == '[' && is_at_char(m, i + 1, '[') {
        markup_ok(m, i + 2)
    } else if m[i] == ']' && is_at_char(m, i + 1, ']') {
        markup_ok(m, i + 2)
    } else if m[i] == '[' {
        let k = close_from(m, i + 1);
        proof { lemma_close_from(m, i + 1); }
        k < m.len() && known_style(m.subrange(i + 1, k)) && markup_ok(m, k + 1)
    } else if m[i] == ']' {
        false
    } else {
        markup_ok(m, i + 1)
    }
}

/// Whether position `i` holds `c`.
pub open spec fn is_at_char(m: Seq<char>, i: int, c: char) -> bool {
    0 <= i < m.len() && m[i] == c
}

/// Text escaped for farben: brackets doubled, except a `[` right after
/// an escape character, which farben already reads as text.
pub open spec fn esc_text(t: Seq<char>) -> Seq<char>
    decreases t.len(),
{
    if t.len() == 0 {
        seq![]
    } else if t[0] == esc_char() && t.len() > 1 && t[1] == '[' {
        seq![esc_char(), '['] + esc_text(t.subrange(2, t.len() as int))
    } else if t[0] == '[' {
        seq!['[', '['] + esc_text(t.drop_first())
    } else if t[0] == ']' {
        seq![']', ']'] + esc_text(t.drop_first())
    } else {
        seq![t[0]] + esc_text(t.drop_first())
    }
}

/// Characters with no meaning in farben markup.
pub open spec fn plain(t: Seq<char>) -> bool {
    forall|i: int| 0 <= i < t.len() ==> t[i] != '[' && t[i] != ']' && t[i] != esc_char()
}

/// Markup that can be followed by anything: it is empty or does not end
/// with an escape character.
pub open spec fn clean_end(m: Seq<char>) -> bool {
    m.len() == 0 || m.last() != esc_char()
}

pub proof fn lemma_close_from(m: Seq<char>, j: int)
    requires
        0 <= j,
    ensures
        j <= close_from(m, j),
        j <= m.len() ==> close_from(m, j) <= m.len(),
        close_from(m, j) < m.len() ==> m[close_from(m, j)] == ']',
        forall|x: int| j <= x < close_from(m, j) && x < m.len() ==> m[x] != ']',
    decreases m.len() - j,
{
    if 0 <= j < m.len() && m[j] != ']' {
        lemma_close_from(m, j + 1);
    }
}

proof fn lemma_close_shift(a: Seq<char>, b: Seq<char>, j: int)
    requires
        0 <= j <= b.len(),
    ensures
        close_from(a + b, a.len() + j) == a.len() + close_from(b, j),
    decreases b.len() - j,
{
    if j < b.len() && b[j] != ']' {
        lemma_close_shift(a, b, j + 1);
    }
}

proof fn lemma_close_prefix(a: Seq<char>, b: Seq<char>, j: int)
    requires
        0 <= j <= a.len(),
        close_from(a, j) < a.len(),
    ensures
        close_from(a + b, j) == close_from(a, j),
    decreases a.len() - j,
{
    if a[j] != ']' {
        lemma_close_prefix(a, b, j + 1);
    }
}

/// Markup checks from position `a.len() + j` of `a + b` as from `j` of `b`.
proof fn lemma_markup_shift(a: Seq<char>, b: Seq<char>, j: int)
    requires
        0 <= j <= b.len(),
    ensures
        markup_ok(a + b, a.len() + j) == markup_ok(b, j),
    decreases b.len() - j,
{
    let m = a + b;
    let i = a.len() + j;
    if j < b.len() {
        assert(m[i] == b[j]);
        if j + 1 < b.len() {
            assert(m[i + 1] == b[j + 1]);
        }
        if j + 2 <= b.len() {
            lemma_markup_shift(a, b, j + 2);
        }
        lemma_markup_shift(a, b, j + 1);
        if m[i] == '[' && !is_at_char(m, i + 1, '[') && !(m[i] == esc_char()) {
            lemma_close_shift(a, b, j + 1);
            lemma_close_from(b, j + 1);
            let k = close_from(b, j + 1);
            if k < b.len() {
                lemma_markup_shift(a, b, k + 1);
                assert(m.subrange(i + 1, a.len() + k) =~= b.subrange(j + 1, k));
            }
        }
    }
}

/// Markup that reads to its end, followed by markup that reads, reads
/// as a whole, unless an escape character meets a `[` at the seam.
proof fn lemma_markup_concat(a: Seq<char>, b: Seq<char>, i: int)
    requires
        0 <= i <= a.len(),
        markup_ok(a, i),
        markup_ok(b, 0),
        clean_end(a) || b.len() == 0 || b[0] != '[',
    ensures
        markup_ok(a + b, i),
    decreases a.len() - i,
{
    let m = a + b;
    if i == a.len() {
        lemma_markup_shift(a, b, 0);
    } else {
        assert(m[i] == a[i]);
        if i + 1 < a.len() {
            assert(m[i + 1] == a[i + 1]);
        } else if b.len() > 0 {
            assert(m[i + 1] == b[0]);
        }
        if a[i] == esc_char() && is_at_char(a, i + 1, '[') {
            lemma_markup_concat(a, b, i + 2);
        } else if a[i] == '[' && is_at_char(a, i + 1, '[') {
            lemma_markup_concat(a, b, i + 2);
        } else if a[i] == ']' && is_at_char(a, i + 1, ']') {
            lemma_markup_concat(a, b, i + 2);
        } else if a[i] == '[' {
            lemma_close_from(a, i + 1);
            let k = close_from(a, i + 1);
            lemma_close_prefix(a, b, i + 1);
            assert(m.subrange(i + 1, k) =~= a.subrange(i + 1, k));
            lemma_markup_concat(a, b, k + 1);
        } else {
            lemma_markup_concat(a, b, i + 1);
        }
    }
}

proof fn lemma_plain_ok(t: Seq<char>, i: int)
    requires
        plain(t),
        0 <= i <= t.len(),
    ensures
        markup_ok(t, i),
    decreases t.len() - i,
{
    if i < t.len() {
        lemma_plain_ok(t, i + 1);
    }
}

proof fn lemma_esc_ok(t: Seq<char>)
    ensures
        markup_ok(esc_text(t), 0),
    decreases t.len(),
{
    if t.len() > 0 {
        let e = esc_text(t);
        if t[0] == esc_char() && t.len() > 1 && t[1] == '[' {
            let rest = t.subrange(2, t.len() as int);
            lemma_esc_ok(rest);
            lemma_markup_shift(seq![esc_char(), '['], esc_text(rest), 0);
            assert(e == seq![esc_char(), '['] + esc_text(rest));
        } else {
            let rest = t.drop_first();
            lemma_esc_ok(rest);
            let head = if t[0] == '[' { seq!['[', '['] } else if t[0] == ']' { seq![']', ']'] } else { seq![t[0]] };
            assert(e == head + esc_text(rest));
            lemma_markup_shift(head, esc_text(rest), 0);
            if t[0] == esc_char() {
                assert(rest.len() == 0 || rest[0] != '[');
                lemma_esc_first(rest);
            }
        }
    }
}

proof fn lemma_esc_first(t: Seq<char>)
    ensures
        esc_text(t).len() == 0 <==> t.len() == 0,
        t.len() > 0 ==> esc_text(t)[0] == t[0],
    decreases t.len(),
{
    if t.len() > 0 {
        if t[0] == esc_char() && t.len() > 1 && t[1] == '[' {
        } else {
        }
    }
}

/// A buffer of farben markup that reads without error.
pub open spec fn markup_buf(m: Seq<char>) -> bool {
    markup_ok(m, 0)
}

fn push_tag(out: &mut Vec<char>, t: &str)
    requires
        markup_buf(old(out)@),
        clean_end(old(out)@),
        known_tag(t@),
    ensures
        final(out)@ == old(out)@ + t@,
        markup_buf(final(out)@),
        clean_end(final(out)@),
{
    proof {
        reveal_strlit("[dim]");
        reveal_strlit("[/]");
        reveal_strlit("[bold red]");
        reveal_strlit("[/red]");
        reveal_strlit("[cyan]");
        reveal_strlit("[red]");
        reveal_strlit("[bold]");
        reveal_strlit("dim");
        reveal_strlit("/");
        reveal_strlit("bold red");
        reveal_strlit("/red");
        reveal_strlit("cyan");
        reveal_strlit("red");
        reveal_strlit("bold");
        let s = t@;
        let k = s.len() - 1;
        assert(close_from(s, 1) == k) by {
            lemma_close_from(s, 1);
            reveal_with_fuel(close_from, 12);
        }
        if s == "[dim]"@ {
            assert(s.subrange(1, k) =~= "dim"@);
        } else if s == "[/]"@ {
            assert(s.subrange(1, k) =~= "/"@);
        } else if s == "[bold red]"@ {
            assert(s.subrange(1, k) =~= "bold red"@);
        } else if s == "[/red]"@ {
            assert(s.subrange(1, k) =~= "/red"@);
        } else if s == "[cyan]"@ {
            assert(s.subrange(1, k) =~= "cyan"@);
        } else if s == "[red]"@ {
            assert(s.subrange(1, k) =~= "red"@);
        } else {
            assert(s.subrange(1, k) =~= "bold"@);
        }
        assert(known_style(s.subrange(1, k)));
        assert(markup_ok(s, k + 1));
        assert(markup_ok(s, 0));
        lemma_markup_concat(old(out)@, s, 0);
    }
    extend_str(out, t);
}

fn push_plain(out: &mut Vec<char>, t: &str)
    requires
        markup_buf(old(out)@),
        clean_end(old(out)@),
        plain(t@),
    ensures
        final(out)@ == old(out)@ + t@,
        markup_buf(final(out)@),
        clean_end(final(out)@),
{
    proof {
        lemma_plain_ok(t@, 0);
        lemma_markup_concat(old(out)@, t@, 0);
    }
    extend_str(out, t);
}

fn push_plain_char(out: &mut Vec<char>, c: char)
    requires
        markup_buf(old(out)@),
        c != '[' && c != ']' && c != esc_char(),
    ensures
        final(out)@ == old(out)@.push(c),
        markup_buf(final(out)@),
        clean_end(final(out)@),
{
    proof {
        lemma_plain_ok(seq![c], 0);
        lemma_markup_concat(old(out)@, seq![c], 0);
        assert(old(out)@ + seq![c] =~= old(out)@.push(c));
    }
    out.push(c);
}

fn push_escaped(out: &mut Vec<char>, t: &Vec<char>)
    requires
        markup_buf(old(out)@),
        clean_end(old(out)@),
    ensures
        final(out)@ == old(out)@ + esc_text(t@),
        markup_buf(final(out)@),
{
    let n = t.len();
    let mut i: usize = 0;
    let ghost base = out@;
    assert(t@.subrange(0, n as int) =~= t@);
    assert(out@ + esc_text(t@.subrange(0, n as int)) =~= base + esc_text(t@));
    while i < n
        invariant
            n == t.len(),
            i <= n,
            out@ + esc_text(t@.subrange(i as int, n as int)) == base + esc_text(t@),
        decreases n - i,
    {
        let ghost rest = t@.subrange(i as int, n as int);
        let c = t[i];
        if c == '\x1b' && i + 1 < n && t[i + 1] == '[' {
            out.push('\x1b');
            out.push('[');
            proof {
                assert(rest.subrange(2, rest.len() as int) =~= t@.subrange(i + 2, n as int));
                assert(esc_text(rest) == seq![esc_char(), '['] + esc_text(t@.subrange(i + 2, n as int)));
            }
            assert(out@ + esc_text(t@.subrange(i + 2, n as int)) =~= base + esc_text(t@));
            i = i + 2;
        } else {
            proof {
                assert(rest.drop_first() =~= t@.subrange(i + 1, n as int));
            }
            let ghost before = out@;
            if c == '[' {
                out.push('[');
                out.push('[');
                assert(out@ =~= before + seq!['[', '[']);
            } else if c == ']' {
                out.push(']');
                out.push(']');
                assert(out@ =~= before + seq![']', ']']);
            } else {
                out.push(c);
                assert(out@ =~= before + seq![c]);
            }
            assert(out@ + esc_text(t@.subrange(i + 1, n as int)) =~= base + esc_text(t@));
            i = i + 1;
        }
    }
    assert(t@.subrange(n as int, n as int) =~= Seq::<char>::empty());
    assert(out@ =~= base + esc_text(t@));
    proof {
        lemma_esc_ok(t@);
        lemma_markup_concat(base, esc_text(t@), 0);
    }
}

/// Whether no escape character stands right before a `[` in `m`.
pub open spec fn no_esc_bracket(m: Seq<char>) -> bool {
    forall|i: int| 0 <= i < m.len() - 1 ==> !(#[trigger] m[i] == esc_char() && m[i + 1] == '[')
}

/// The visible text runs of farben markup from `i`, `cur` being the run
/// read so far: text is kept, `[[` and `]]` stand for one bracket, an
/// escape character before `[` is kept with it, and each tag `[style]`
/// ends a run.
pub open spec fn runs_from(m: Seq<char>, i: int, cur: Seq<char>) -> Seq<Seq<char>>
    decreases m.len() - i,
{
    if i < 0 || i >= m.len() {
        seq![cur]
    } else if m[i] == esc_char() && is_at_char(m, i + 1, '[') {
        runs_from(m, i + 2, cur + seq![esc_char(), '['])
    } else if m[i] == '[' && is_at_char(m, i + 1, '[') {
        runs_from(m, i + 2, cur.push('['))
    } else if m[i] == ']' && is_at_char(m, i + 1, ']') {
        runs_from(m, i + 2, cur.push(']'))
    } else if m[i] == '[' {
        let k = close_from(m, i + 1);
        proof { lemma_close_from(m, i + 1); }
        if k < m.len() {
            seq![cur] + runs_from(m, k + 1, seq![])
        } else {
            seq![cur]
        }
    } else {
        runs_from(m, i + 1, cur.push(m[i]))
    }
}

/// The visible text runs of farben markup, one more than it has tags.
pub open spec fn markup_runs(m: Seq<char>) -> Seq<Seq<char>> {
    runs_from(m, 0, seq![])
}

/// Each run followed by its code: `runs[0] + codes[0] + runs[1] + codes[1]
/// + … + runs[n-1] + codes[n-1]`.
pub open spec fn woven(runs: Seq<Seq<char>>, codes: Seq<Seq<char>>) -> Seq<char>
    decreases runs.len(),
{
    if runs.len() == 0 {
        seq![]
    } else {
        woven(runs.drop_last(), codes.subrange(0, runs.len() - 1)) + runs.last() + codes[runs.len() - 1]
    }
}

/// The first position at or after `i` that holds neither a digit nor `;`.
pub open spec fn sgr_params_end(c: Seq<char>, i: int) -> int
    decreases c.len() - i,
{
    if 0 <= i < c.len() && (is_digit(c[i]) || c[i] == ';') { sgr_params_end(c, i + 1) } else { i }
}

pub proof fn lemma_sgr_params_end(c: Seq<char>, i: int)
    requires
        0 <= i,
    ensures
        i <= sgr_params_end(c, i),
        i <= c.len() ==> sgr_params_end(c, i) <= c.len(),
    decreases c.len() - i,
{
    if 0 <= i < c.len() && (is_digit(c[i]) || c[i] == ';') {
        lemma_sgr_params_end(c, i + 1);
    }
}

/// Style codes: nothing, or SGR sequences one after another, each an
/// escape character, `[`, digits and `;`, then `m`.
pub open spec fn sgr_codes(c: Seq<char>) -> bool
    decreases c.len(),
{
    if c.len() == 0 {
        true
    } else {
        let j = sgr_params_end(c, 2);
        proof { lemma_sgr_params_end(c, 2); }
        &&& c.len() >= 3
        &&& c[0] == esc_char()
        &&& c[1] == '['
        &&& j < c.len()
        &&& c[j] == 'm'
        &&& sgr_codes(c.subrange(j + 1, c.len() as int))
    }
}

/// `out` is a rendering of the markup `m`: where no escape character stands
/// before a `[`, it is the visible text runs of `m` in order, each
/// followed by style codes (`sgr_codes`; nothing when colour is off).
pub open spec fn renders(m: Seq<char>, out: Seq<char>) -> bool {
    no_esc_bracket(m) ==> exists|codes: Seq<Seq<char>>|
        codes.len() == markup_runs(m).len()
        && (forall|k: int| 0 <= k < codes.len() ==> #[trigger] sgr_codes(codes[k]))
        && out == #[trigger] woven(markup_runs(m), codes)
}

/// Each error `es[i]` is a rendering of the diagnostic `ds[i]`.
pub open spec fn all_rendered(ds: Seq<Diag>, es: Seq<String>, file: Seq<char>, lines: Seq<Seq<char>>) -> bool {
    forall|i: int| 0 <= i < ds.len() && i < es.len() ==> #[trigger] renders_diag(ds[i], es[i]@, file, lines)
}

/// The concatenation of texts, in order.
pub open spec fn concat_all(outs: Seq<Seq<char>>) -> Seq<char>
    decreases outs.len(),
{
    if outs.len() == 0 { seq![] } else { concat_all(outs.drop_last()) + outs.last() }
}

/// `e` is a rendering of the diagnostic `d` shown for `file` with source
/// lines `lines`: the renderings of its markup lines, concatenated.
pub open spec fn renders_diag(d: Diag, e: Seq<char>, file: Seq<char>, lines: Seq<Seq<char>>) -> bool {
    let ms = diag_markup(d, file, lines);
    exists|outs: Seq<Seq<char>>| outs.len() == ms.len() && e == #[trigger] concat_all(outs)
        && forall|j: int| 0 <= j < ms.len() ==> #[trigger] renders(ms[j], outs[j])
}

/// Calls `farben::color_runtime`, to which `color_fmt!` expands, on one
/// line of markup (no style bleeds past it). It panics on malformed markup,
/// which `markup_buf` excludes. Whether colour is on depends on the
/// environment (`NO_COLOR`, `FORCE_COLOR`, a terminal on standard output),
/// and the style codes also on styles left active by earlier calls; so
/// what is claimed holds in both modes: where no escape character stands
/// right before a `[`, the result is the visible text runs of the markup,
/// verbatim and in order, each followed by SGR style sequences (what a tag
/// or the final reset writes; nothing when colour is off) (`renders`). Of
/// markup with an escape character before `[` nothing is claimed.
#[verifier::external_body]
fn colorize(markup: &Vec<char>) -> (r: Vec<char>)
    requires
        markup_buf(markup@),
    ensures
        renders(markup@, r@),
{
    let s: String = markup.iter().collect();
    farben::color_runtime(s, false).chars().collect()
}

/// Calls `UnicodeWidthStr::width`; the crate gives every printable ASCII
/// character (`' '` to `'~'`) a width of one column.
#[verifier::external_body]
fn display_width(s: &Vec<char>) -> (r: usize)
    ensures
        (forall|i: int| 0 <= i < s@.len() ==> ' ' <= #[trigger] s@[i] && s@[i] <= '~') ==> r == s@.len(),
{
    let t: String = s.iter().collect();
    unicode_width::UnicodeWidthStr::width(t.as_str())
}

pub proof fn lemma_clean_concat(a: Seq<char>, b: Seq<char>)
    requires
        clean_end(a),
        clean_end(b),
    ensures
        clean_end(a + b),
{
    if b.len() == 0 {
        assert(a + b =~= a);
    }
}

/// `n` spaces.
pub open spec fn spaces(n: int) -> Seq<char>
    decreases n,
{
    if n <= 0 { seq![] } else { spaces(n - 1).push(' ') }
}

/// `n` carets.
pub open spec fn carets(n: int) -> Seq<char>
    decreases n,
{
    if n <= 0 { seq![] } else { carets(n - 1).push('^') }
}

/// The file name shown in a diagnostic: the one set, else `<input>`.
pub open spec fn shown_file(f: Option<Seq<char>>) -> Seq<char> {
    match f {
        Some(s) => s,
        None => "<input>"@,
    }
}

/// The `line:column` gutter of a label.
pub open spec fn gutter_of(l: Label) -> Seq<char> {
    decimal(l.line as nat) + seq![':'] + decimal(l.col as nat)
}

/// The markup of the heading line: `┌─ error: kind`.
pub open spec fn head_markup(kind: Seq<char>) -> Seq<char> {
    "[dim]"@ + "┌─"@ + "[/]"@ + " "@ + "[bold red]"@ + "error"@ + "[/red]"@ + ": "@ + esc_text(kind) + seq!['\n']
}

/// The markup of the file line: `│  file`.
pub open spec fn file_markup(file: Seq<char>) -> Seq<char> {
    "[dim]"@ + "│"@ + "[/]"@ + "  "@ + esc_text(file) + seq!['\n']
}

/// The markup of a label's source line: `├─ line:col source text`.
pub open spec fn source_markup(l: Label, src: Seq<char>) -> Seq<char> {
    "[dim]"@ + "├─"@ + "[/]"@ + " "@ + "[cyan]"@ + gutter_of(l) + "[/]"@ + " "@ + esc_text(src) + seq!['\n']
}

/// The markup of a label's caret line: carets under the labelled text
/// (at least one), aligned past the gutter, then the note if any.
pub open spec fn caret_markup(l: Label, src: Seq<char>) -> Seq<char> {
    let start = if l.col <= 0 { 0 } else { l.col - 1 };
    let prefix = if start < src.len() { start } else { src.len() as int };
    let n = if l.width == 0 { 1 } else { l.width };
    "[dim]"@ + "│"@ + "[/]"@ + "  "@ + "[red]"@ + spaces(gutter_of(l).len() as int) + seq![' '] + spaces(prefix)
        + carets(n) + (match l.note {
            Some(t) => seq![' '] + esc_text(t),
            None => seq![],
        }) + "[/]"@ + seq!['\n']
}

/// The markup of the closing line: `└─ message`.
pub open spec fn tail_markup(message: Seq<char>) -> Seq<char> {
    "[dim]"@ + "└─"@ + "[/]"@ + " "@ + "[bold]"@ + esc_text(message)
}

/// The markup lines of the labels, two per label.
pub open spec fn labels_markup(ls: Seq<Label>, lines: Seq<Seq<char>>) -> Seq<Seq<char>>
    decreases ls.len(),
{
    if ls.len() == 0 {
        seq![]
    } else {
        let l = ls.last();
        let src = source_line(lines, l.line);
        labels_markup(ls.drop_last(), lines) + seq![source_markup(l, src), caret_markup(l, src)]
    }
}

/// The farben markup of a diagnostic, line by line: the heading, the
/// file, two lines per label and the message.
pub open spec fn diag_markup(d: Diag, file: Seq<char>, lines: Seq<Seq<char>>) -> Seq<Seq<char>> {
    seq![head_markup(d.kind), file_markup(file)] + labels_markup(d.labels, lines) + seq![tail_markup(d.message)]
}

impl Parser {
    /// The text of source line `line`.
    fn source_line_text(&self, line: usize) -> (r: Vec<char>)
        ensures
            r@ == source_line(self.lines(), line as int),
    {
        let k = if line == 0 { 0 } else { line - 1 };
        if k < self.source_lines.len() {
            chars_of(self.source_lines[k].as_str())
        } else {
            Vec::new()
        }
    }

    /// The two markup lines of a label: its source line behind the
    /// `line:col` gutter, and the carets under the labelled text with the
    /// note.
    fn label_markup(&self, lab: &Mark) -> (r: (Vec<char>, Vec<char>))
        requires
            lab@.note matches Some(n) ==> plain(n),
        ensures
            r.0@ == source_markup(lab@, source_line(self.lines(), lab.line as int)),
            r.1@ == caret_markup(lab@, source_line(self.lines(), lab.line as int)),
            markup_buf(r.0@),
            markup_buf(r.1@),
    {
        let gutter = gutter_text(lab);
        let src = self.source_line_text(lab.line);
        let first = source_line_markup(lab, &gutter, &src);
        let gw = display_width(&gutter);
        let second = caret_line_markup(lab, gw, &src);
        (first, second)
    }
}

/// The gutter of a label, `line:col`: printable ASCII with no bracket.
fn gutter_text(lab: &Mark) -> (g: Vec<char>)
    ensures
        g@ == gutter_of(lab@),
        forall|i: int| 0 <= i < g@.len() ==> ' ' <= #[trigger] g@[i] && g@[i] <= '~'
            && g@[i] != '[' && g@[i] != ']' && g@[i] != esc_char(),
{
    let mut gutter: Vec<char> = Vec::new();
    push_decimal(&mut gutter, lab.line);
    gutter.push(':');
    push_decimal(&mut gutter, lab.col);
    assert(gutter@ =~= gutter_of(lab@));
    proof {
        lemma_decimal_digits(lab.line as nat);
        lemma_decimal_digits(lab.col as nat);
        assert forall|i: int| 0 <= i < gutter@.len() implies
            ' ' <= #[trigger] gutter@[i] && gutter@[i] <= '~' && gutter@[i] != '[' && gutter@[i] != ']'
            && gutter@[i] != esc_char() by {
            let a = decimal(lab.line as nat);
            if i < a.len() {
                assert(gutter@[i] == a[i]);
            } else if i > a.len() {
                assert(gutter@[i] == decimal(lab.col as nat)[i - a.len() - 1]);
            }
        }
    }
    gutter
}

/// The markup of a label's source line, given its gutter.
fn source_line_markup(lab: &Mark, gutter: &Vec<char>, src: &Vec<char>) -> (r: Vec<char>)
    requires
        gutter@ == gutter_of(lab@),
        forall|i: int| 0 <= i < gutter@.len() ==> ' ' <= #[trigger] gutter@[i] && gutter@[i] <= '~'
            && gutter@[i] != '[' && gutter@[i] != ']' && gutter@[i] != esc_char(),
    ensures
        r@ == source_markup(lab@, src@),
        markup_buf(r@),
{
    proof {
        reveal_strlit(" ");
        reveal_strlit("├─");
    }
    let mut m: Vec<char> = Vec::new();
    push_tag(&mut m, "[dim]");
    push_plain(&mut m, "├─");
    push_tag(&mut m, "[/]");
    push_plain(&mut m, " ");
    push_tag(&mut m, "[cyan]");
    let ghost b0 = m@;
    let mut g: usize = 0;
    while g < gutter.len()
        invariant
            g <= gutter@.len(),
            m@ == b0 + gutter@.subrange(0, g as int),
            markup_buf(m@),
            clean_end(m@),
            forall|i: int| 0 <= i < gutter@.len() ==> ' ' <= #[trigger] gutter@[i] && gutter@[i] <= '~'
                && gutter@[i] != '[' && gutter@[i] != ']' && gutter@[i] != esc_char(),
        decreases gutter@.len() - g,
    {
        push_plain_char(&mut m, gutter[g]);
        g = g + 1;
        assert(m@ =~= b0 + gutter@.subrange(0, g as int));
    }
    assert(gutter@.subrange(0, gutter@.len() as int) =~= gutter@);
    push_tag(&mut m, "[/]");
    push_plain(&mut m, " ");
    push_escaped(&mut m, src);
    push_plain_char(&mut m, '\n');
    assert(m@ =~= source_markup(lab@, src@));
    m
}

/// Appends `n` copies of the plain character `c`.
fn push_repeated(m: &mut Vec<char>, c: char, n: usize)
    requires
        markup_buf(old(m)@),
        clean_end(old(m)@),
        c == ' ' || c == '^',
    ensures
        final(m)@ == old(m)@ + if c == ' ' { spaces(n as int) } else { carets(n as int) },
        markup_buf(final(m)@),
        clean_end(final(m)@),
{
    let ghost b = m@;
    assert(m@ =~= b + spaces(0));
    assert(m@ =~= b + carets(0));
    let mut s: usize = 0;
    while s < n
        invariant
            s <= n,
            c == ' ' || c == '^',
            m@ == b + if c == ' ' { spaces(s as int) } else { carets(s as int) },
            markup_buf(m@),
            clean_end(m@),
        decreases n - s,
    {
        push_plain_char(m, c);
        s = s + 1;
        proof {
            if c == ' ' {
                assert(spaces(s as int) == spaces(s - 1).push(' '));
                assert(m@ =~= b + spaces(s as int));
            } else {
                assert(carets(s as int) == carets(s - 1).push('^'));
                assert(m@ =~= b + carets(s as int));
            }
        }
    }
}

/// The markup of a label's caret line, given the display width of its
/// gutter.
fn caret_line_markup(lab: &Mark, gw: usize, src: &Vec<char>) -> (r: Vec<char>)
    requires
        gw == gutter_of(lab@).len(),
        lab@.note matches Some(n) ==> plain(n),
    ensures
        r@ == caret_markup(lab@, src@),
        markup_buf(r@),
{
    proof {
        reveal_strlit("│");
        reveal_strlit("  ");
    }
    let start = if lab.col == 0 { 0 } else { lab.col - 1 };
    let prefix = if start < src.len() { start } else { src.len() };
    let n_carets = if lab.width == 0 { 1 } else { lab.width };
    let mut m: Vec<char> = Vec::new();
    push_tag(&mut m, "[dim]");
    push_plain(&mut m, "│");
    push_tag(&mut m, "[/]");
    push_plain(&mut m, "  ");
    push_tag(&mut m, "[red]");
    let ghost p0 = m@;
    assert(p0 =~= "[dim]"@ + "│"@ + "[/]"@ + "  "@ + "[red]"@);
    push_repeated(&mut m, ' ', gw);
    push_plain_char(&mut m, ' ');
    let ghost p1 = m@;
    assert(p1 =~= p0 + spaces(gw as int) + seq![' ']);
    push_repeated(&mut m, ' ', prefix);
    push_repeated(&mut m, '^', n_carets);
    let ghost b4 = m@;
    assert(b4 =~= p1 + spaces(prefix as int) + carets(n_carets as int));
    match &lab.note {
        Some(note) => {
            push_plain_char(&mut m, ' ');
            let ghost before = m@;
            let nc = chars_of(note.as_str());
            proof {
                assert(plain(nc@));
                lemma_plain_esc(nc@);
            }
            push_escaped(&mut m, &nc);
            proof {
                lemma_esc_clean(nc@);
                lemma_clean_concat(before, esc_text(nc@));
            }
            assert(m@ =~= b4 + (seq![' '] + esc_text(nc@)));
        },
        None => {
            assert(m@ =~= b4 + Seq::<char>::empty());
        },
    }
    let ghost b5 = m@;
    push_tag(&mut m, "[/]");
    push_plain_char(&mut m, '\n');
    assert(m@ =~= b5 + "[/]"@ + seq!['\n']);
    assert(m@ =~= caret_markup(lab@, src@));
    m
}

impl Parser {
    /// The farben markup of a diagnostic, one entry per line (see
    /// `diag_markup`).
    fn error_markup(&self, d: &Report) -> (r: Vec<Vec<char>>)
        requires
            notes_plain(d@),
        ensures
            r@.map_values(|v: Vec<char>| v@) == diag_markup(d@, shown_file(self.file_name()), self.lines()),
            forall|i: int| 0 <= i < r@.len() ==> markup_buf(#[trigger] r@[i]@),
    {
        proof {
            reveal_strlit("┌─");
            reveal_strlit(" ");
            reveal_strlit("error");
            reveal_strlit(": ");
            reveal_strlit("│");
            reveal_strlit("  ");
            reveal_strlit("└─");
        }
        let ghost lines = self.lines();
        let filename: Vec<char> = match &self.source {
            Some(s) => chars_of(s.as_str()),
            None => chars_of("<input>"),
        };
        assert(filename@ == shown_file(self.file_name()));
        let mut res: Vec<Vec<char>> = Vec::new();

        let mut m: Vec<char> = Vec::new();
        push_tag(&mut m, "[dim]");
        push_plain(&mut m, "┌─");
        push_tag(&mut m, "[/]");
        push_plain(&mut m, " ");
        push_tag(&mut m, "[bold red]");
        push_plain(&mut m, "error");
        push_tag(&mut m, "[/red]");
        push_plain(&mut m, ": ");
        push_escaped(&mut m, &chars_of(d.kind.as_str()));
        push_plain_char(&mut m, '\n');
        assert(m@ =~= head_markup(d@.kind));
        res.push(m);

        let mut m: Vec<char> = Vec::new();
        push_tag(&mut m, "[dim]");
        push_plain(&mut m, "│");
        push_tag(&mut m, "[/]");
        push_plain(&mut m, "  ");
        push_escaped(&mut m, &filename);
        push_plain_char(&mut m, '\n');
        assert(m@ =~= file_markup(filename@));
        res.push(m);

        let ghost hdr = seq![head_markup(d@.kind), file_markup(filename@)];
        let ghost ls = d@.labels;
        assert(ls.subrange(0, 0) =~= Seq::<Label>::empty());
        assert(res@.map_values(|v: Vec<char>| v@) =~= hdr + labels_markup(ls.subrange(0, 0), lines));
        let mut li: usize = 0;
        while li < d.labels.len()
            invariant
                li <= d.labels@.len(),
                notes_plain(d@),
                ls == d@.labels,
                lines == self.lines(),
                res@.map_values(|v: Vec<char>| v@) == hdr + labels_markup(ls.subrange(0, li as int), lines),
                forall|i: int| 0 <= i < res@.len() ==> markup_buf(#[trigger] res@[i]@),
            decreases d.labels@.len() - li,
        {
            let lab = &d.labels[li];
            assert(ls[li as int] == lab@);
            assert(match ls[li as int].note { Some(n) => plain(n), None => true });
            let (first, second) = self.label_markup(lab);
            let ghost before = res@.map_values(|v: Vec<char>| v@);
            res.push(first);
            res.push(second);
            proof {
                let sub = ls.subrange(0, li + 1);
                assert(sub.drop_last() =~= ls.subrange(0, li as int));
                assert(sub.last() == lab@);
                assert(res@.map_values(|v: Vec<char>| v@) =~= before.push(first@).push(second@));
                assert(labels_markup(sub, lines) == labels_markup(ls.subrange(0, li as int), lines)
                    + seq![first@, second@]);
                assert(res@.map_values(|v: Vec<char>| v@) =~= hdr + labels_markup(sub, lines));
            }
            li = li + 1;
        }
        assert(ls.subrange(0, ls.len() as int) =~= ls);

        let mut m: Vec<char> = Vec::new();
        push_tag(&mut m, "[dim]");
        push_plain(&mut m, "└─");
        push_tag(&mut m, "[/]");
        push_plain(&mut m, " ");
        push_tag(&mut m, "[bold]");
        push_escaped(&mut m, &chars_of(d.message.as_str()));
        assert(m@ =~= tail_markup(d@.message));
        let ghost before = res@.map_values(|v: Vec<char>| v@);
        res.push(m);
        assert(res@.map_values(|v: Vec<char>| v@) =~= before.push(tail_markup(d@.message)));
        assert(res@.map_values(|v: Vec<char>| v@) =~= diag_markup(d@, filename@, lines));
        res
    }

    /// Renders a diagnostic: each line of its markup (`error_markup`) as
    /// farben renders it, concatenated.
    fn format_error(&self, d: &Report) -> (r: String)
        requires
            notes_plain(d@),
        ensures
            renders_diag(d@, r@, shown_file(self.file_name()), self.lines()),
    {
        let lines = self.error_markup(d);
        let ghost ms = diag_markup(d@, shown_file(self.file_name()), self.lines());
        let mut out: Vec<char> = Vec::new();
        let ghost mut outs: Seq<Seq<char>> = seq![];
        let mut i: usize = 0;
        while i < lines.len()
            invariant
                i <= lines@.len(),
                forall|j: int| 0 <= j < lines@.len() ==> markup_buf(#[trigger] lines@[j]@),
                lines@.map_values(|v: Vec<char>| v@) == ms,
                outs.len() == i,
                out@ == concat_all(outs),
                forall|j: int| 0 <= j < i ==> #[trigger] renders(ms[j], outs[j]),
            decreases lines@.len() - i,
        {
            let c = colorize(&lines[i]);
            extend_chars(&mut out, &c);
            proof {
                let prev = outs;
                outs = outs.push(c@);
                assert(outs.drop_last() =~= prev);
                assert(ms[i as int] == lines@[i as int]@);
                assert forall|j: int| 0 <= j < i + 1 implies #[trigger] renders(ms[j], outs[j]) by {
                    if j < i {
                        assert(outs[j] == prev[j]);
                    }
                }
            }
            i = i + 1;
        }
        let r = string_from_chars(&out);
        assert(outs.len() == ms.len() && r@ == concat_all(outs) && forall|j: int| 0 <= j < ms.len() ==> #[trigger] renders(ms[j], outs[j]));
        r
    }
}

proof fn lemma_plain_esc(t: Seq<char>)
    requires
        plain(t),
    ensures
        esc_text(t) == t,
    decreases t.len(),
{
    if t.len() > 0 {
        assert(t[0] != '[' && t[0] != ']' && t[0] != esc_char());
        let r = t.drop_first();
        assert(plain(r)) by {
            assert forall|i: int| 0 <= i < r.len() implies r[i] != '[' && r[i] != ']' && r[i] != esc_char() by {
                assert(r[i] == t[i + 1]);
            }
        }
        lemma_plain_esc(r);
        assert(seq![t[0]] + r =~= t);
    }
}

proof fn lemma_esc_clean(t: Seq<char>)
    requires
        plain(t),
    ensures
        clean_end(esc_text(t)),
{
    lemma_plain_esc(t);
    if t.len() > 0 {
        assert(t[t.len() - 1] != esc_char());
    }
}
} // verus!
