//! Documents: the whole pipeline from source text to a value, the value
//! accessors, and the JSON rendering of a parse.
use vstd::prelude::*;
use crate::value::{SValue, value_view, items_view, fields_view, copy_value, lemma_items_view, lemma_fields_view};
use crate::lexer::{Lexer, tokenize_spec, lemma_tokenize_len};
use crate::parser::{Parser, Fields, Diag, parse_from, parse_outcome, find_key, lemma_find_key, all_rendered, source_lines};
use crate::token::tokens_view;
use crate::json::{json_success, json_failure, outcome_json};
use crate::writer::{document_text, to_string_inner};
use crate::text::{extend_str, string_from_chars, chars_of};

verus! {

/// The outcome of lexing and parsing a source text: the top-level fields
/// and the diagnostics (`Lexer::tokenize` shows that the tokens always
/// exist, so this is always `Some`).
pub open spec fn parse_source(s: Seq<char>) -> Option<(Fields, Seq<Diag>)> {
    match tokenize_spec(s) {
        Some(ts) => Some(parse_from(ts, 0, seq![])),
        None => None,
    }
}

/// Declares `std::io::Error` to Verus as an opaque type, so that the
/// `Io` variant of `DocError` can carry it; nothing is claimed of its contents.
#[verifier::external_type_specification]
#[verifier::external_body]
pub struct ExIoError(std::io::Error);

/// Errors that can occur when loading a Spine document.
#[derive(Debug)]
pub enum DocError {
    /// An I/O error (file not found, permission denied, etc.).
    Io(std::io::Error),
    /// One or more parse errors.
    Parse(Vec<String>),
}

/// A parsed Spine document.
#[derive(Debug)]
pub struct Document {
    root: Option<crate::value::Value>,
}

/// The type of a Spine value.
#[derive(Debug, Clone, Copy, PartialEq, Eq, Structural)]
pub enum ValueType {
    /// The `null` value.
    Null,
    /// A boolean (`true` or `false`).
    Bool,
    /// A numeric literal.
    Number,
    /// A string literal.
    String,
    /// An ordered list of values.
    Array,
    /// A key-value mapping.
    Object,
    /// A tagged literal.
    Tagged,
}

/// The type of a value.
pub open spec fn type_of(v: SValue) -> ValueType {
    match v {
        SValue::Null => ValueType::Null,
        SValue::Bool(_) => ValueType::Bool,
        SValue::Number(_) => ValueType::Number,
        SValue::Str(_) => ValueType::String,
        SValue::Array(_) => ValueType::Array,
        SValue::Object(_) => ValueType::Object,
        SValue::Tagged(_, _) => ValueType::Tagged,
    }
}

/// The number of elements of an array or fields of an object; 0 otherwise.
pub open spec fn size_of(v: SValue) -> int {
    match v {
        SValue::Array(items) => items.len() as int,
        SValue::Object(fields) => fields.len() as int,
        _ => 0,
    }
}

/// A Spine value with accessor methods.
pub struct Value {
    inner: crate::value::Value,
}

impl View for Value {
    type V = SValue;

    closed spec fn view(&self) -> SValue {
        self.inner@
    }
}

impl Value {
    /// Wraps a value.
    pub fn from_inner(inner: crate::value::Value) -> (r: Self)
        ensures
            r@ == inner@,
    {
        Value { inner: inner }
    }

    /// The wrapped value.
    pub fn into_inner(self) -> (r: crate::value::Value)
        ensures
            r@ == self@,
    {
        self.inner
    }

    /// The wrapped value, borrowed.
    pub fn inner(&self) -> (r: &crate::value::Value)
        ensures
            r@ == self@,
    {
        &self.inner
    }

    /// Returns the variant type of this value.
    pub fn value_type(&self) -> (r: ValueType)
        ensures
            r == type_of(self@),
    {
        match &self.inner {
            crate::value::Value::Null => ValueType::Null,
            crate::value::Value::Bool(_) => ValueType::Bool,
            crate::value::Value::Number(_) => ValueType::Number,
            crate::value::Value::String(_) => ValueType::String,
            crate::value::Value::Array(_) => ValueType::Array,
            crate::value::Value::Object(_) => ValueType::Object,
            crate::value::Value::Tagged(_, _) => ValueType::Tagged,
        }
    }

    /// Returns the boolean value if this is a `Bool`, otherwise `None`.
    pub fn as_bool(&self) -> (r: Option<bool>)
        ensures
            match self@ {
                SValue::Bool(b) => r == Some(b),
                _ => r is None,
            },
    {
        match &self.inner {
            crate::value::Value::Bool(b) => Some(*b),
            _ => None,
        }
    }

    /// Returns the number literal if this is a `Number`, otherwise `None`.
    pub fn as_number(&self) -> (r: Option<String>)
        ensures
            match self@ {
                SValue::Number(n) => r matches Some(s) && s@ == n,
                _ => r is None,
            },
    {
        match &self.inner {
            crate::value::Value::Number(n) => Some(n.clone()),
            _ => None,
        }
    }

    /// Returns the string value if this is a `String`, otherwise `None`.
    pub fn as_str(&self) -> (r: Option<String>)
        ensures
            match self@ {
                SValue::Str(s) => r matches Some(x) && x@ == s,
                _ => r is None,
            },
    {
        match &self.inner {
            crate::value::Value::String(s) => Some(s.clone()),
            _ => None,
        }
    }

    /// Returns the `(tag, content)` pair if this is a `Tagged`, otherwise `None`.
    pub fn tag(&self) -> (r: Option<(String, String)>)
        ensures
            match self@ {
                SValue::Tagged(t, c) => r matches Some(p) && p.0@ == t && p.1@ == c,
                _ => r is None,
            },
    {
        match &self.inner {
            crate::value::Value::Tagged(t, c) => Some((t.clone(), c.clone())),
            _ => None,
        }
    }

    /// Returns the number of elements for arrays and objects, or `0` for
    /// all other types.
    pub fn len(&self) -> (r: usize)
        ensures
            r as int == size_of(self@),
    {
        proof {
            match &self.inner {
                crate::value::Value::Array(a) => lemma_items_view(a@),
                crate::value::Value::Object(f) => lemma_fields_view(f@),
                _ => {},
            }
        }
        match &self.inner {
            crate::value::Value::Array(arr) => arr.len(),
            crate::value::Value::Object(fields) => fields.len(),
            _ => 0,
        }
    }

    /// Returns `true` if this value is an empty array or empty object, or
    /// any other value (which has no elements).
    pub fn is_empty(&self) -> (r: bool)
        ensures
            r == (size_of(self@) == 0),
    {
        self.len() == 0
    }

    /// Returns the element at `index` if this is an array.
    pub fn get_index(&self, index: usize) -> (r: Option<Value>)
        ensures
            match self@ {
                SValue::Array(items) => if index < items.len() {
                    r matches Some(x) && x@ == items[index as int]
                } else {
                    r is None
                },
                _ => r is None,
            },
    {
        match &self.inner {
            crate::value::Value::Array(arr) => {
                proof { lemma_items_view(arr@); }
                if index < arr.len() {
                    Some(Value { inner: copy_value(&arr[index]) })
                } else {
                    None
                }
            },
            _ => None,
        }
    }

    /// Returns the value of the first field named `key` if this is an object.
    pub fn get(&self, key: &str) -> (r: Option<Value>)
        ensures
            match self@ {
                SValue::Object(fields) => match find_key(fields, key@) {
                    Some(i) => r matches Some(x) && x@ == fields[i].1,
                    None => r is None,
                },
                _ => r is None,
            },
    {
        match &self.inner {
            crate::value::Value::Object(fields) => {
                let ghost fv = fields_view(fields@);
                proof {
                    lemma_fields_view(fields@);
                    lemma_find_key(fv, key@);
                }
                let ks = key.to_owned();
                assert(self@ == SValue::Object(fv));
                let mut i: usize = 0;
                while i < fields.len()
                    invariant
                        i <= fields.len(),
                        ks@ == key@,
                        self@ == SValue::Object(fv),
                        fv == fields_view(fields@),
                        fv.len() == fields@.len(),
                        forall|j: int| 0 <= j < fields@.len() ==> #[trigger] fv[j] == (fields@[j].0@, value_view(fields@[j].1)),
                        forall|j: int| 0 <= j < i ==> fv[j].0 != key@,
                    decreases fields.len() - i,
                {
                    if fields[i].0 == ks {
                        proof {
                            lemma_find_key(fv, key@);
                            assert(fv[i as int].0 == key@);
                            match find_key(fv, key@) {
                                Some(k) => {
                                    if k < i { assert(fv[k].0 == key@); }
                                    if k > i { assert(fv[i as int].0 == key@); }
                                },
                                None => {},
                            }
                        }
                        return Some(Value { inner: copy_value(&fields[i].1) });
                    }
                    i = i + 1;
                }
                None
            },
            _ => None,
        }
    }

    /// Returns the key at `index` if this is an object.
    pub fn key_at(&self, index: usize) -> (r: Option<String>)
        ensures
            match self@ {
                SValue::Object(fields) => if index < fields.len() {
                    r matches Some(k) && k@ == fields[index as int].0
                } else {
                    r is None
                },
                _ => r is None,
            },
    {
        match &self.inner {
            crate::value::Value::Object(fields) => {
                proof { lemma_fields_view(fields@); }
                if index < fields.len() {
                    Some(fields[index].0.clone())
                } else {
                    None
                }
            },
            _ => None,
        }
    }
}

impl Document {
    /// The model of the root value, if any.
    pub closed spec fn root_view(&self) -> Option<SValue> {
        match self.root {
            Some(v) => Some(v@),
            None => None,
        }
    }

    /// Creates a document from a value.
    pub fn from_value(value: crate::value::Value) -> (r: Self)
        ensures
            r.root_view() == Some(value@),
    {
        Document { root: Some(value) }
    }

    /// Serializes the document back to Spine text; `None` if the document
    /// has no root value.
    pub fn to_string(&self) -> (r: Option<String>)
        ensures
            match self.root_view() {
                Some(v) => r matches Some(s) && s@ == document_text(v),
                None => r is None,
            },
    {
        match &self.root {
            Some(v) => Some(string_from_chars(&to_string_inner(v))),
            None => None,
        }
    }

    /// Returns the root value, if present.
    pub fn root(&self) -> (r: Option<Value>)
        ensures
            match self.root_view() {
                Some(v) => r matches Some(x) && x@ == v,
                None => r is None,
            },
    {
        match &self.root {
            Some(v) => Some(Value { inner: copy_value(v) }),
            None => None,
        }
    }

    /// Parses a Spine source text into a document: `Ok` with the object of
    /// the top-level fields when there is no diagnostic, `Parse` with one
    /// error per diagnostic otherwise, each its rendering for `<input>`.
    pub fn from_str(input: &str) -> (r: Result<Document, DocError>)
        requires
            input@.len() + 8 <= usize::MAX,
        ensures
            parse_source(input@) is Some,
            ({
                let res = parse_source(input@).unwrap();
                match r {
                    Ok(doc) => res.1.len() == 0 && doc.root_view() == Some(SValue::Object(res.0)),
                    Err(DocError::Parse(errors)) => res.1.len() > 0 && errors@.len() == res.1.len()
                        && all_rendered(res.1, errors@, "<input>"@, source_lines(input@)),
                    Err(DocError::Io(_)) => false,
                }
            }),
    {
        let mut lexer = Lexer::new(input);
        proof { lemma_tokenize_len(input@, 0, false); }
        let tokens = lexer.tokenize();
        let mut parser = Parser::new(tokens, input);
        let r = parser.parse();
        match r {
            Ok(v) => Ok(Document { root: Some(v) }),
            Err(e) => Err(DocError::Parse(e)),
        }
    }
}

/// The texts of error strings.
pub open spec fn texts_of(es: Seq<String>) -> Seq<Seq<char>> {
    es.map_values(|e: String| e@)
}

/// Build-time metadata about the parser.
#[derive(Debug, PartialEq)]
pub struct FormatDetails {
    /// The parser version.
    pub version: String,
    /// The version of the Spine format this parser targets.
    pub spec: String,
    /// Whether the backend is native or WASM.
    pub backend: String,
}

/// Returns metadata about the parser.
pub fn format_details() -> (r: FormatDetails)
    ensures
        r.version@ == "0.1.0"@,
        r.spec@ == "1.0-rc.2"@,
        r.backend@ == "native"@,
{
    FormatDetails { version: "0.1.0".to_owned(), spec: "1.0-rc.2".to_owned(), backend: "native".to_owned() }
}

/// Parses Spine source and returns the outcome as JSON: the format
/// details, whether parsing succeeded, the value (or `null`) and the
/// error messages.
pub fn parse_to_json(input: &str) -> (r: String)
    requires
        input@.len() + 8 <= usize::MAX,
    ensures
        parse_source(input@) is Some,
        ({
            let res = parse_source(input@).unwrap();
            if res.1.len() == 0 {
                r@ == json_success(SValue::Object(res.0))
            } else {
                exists|errors: Seq<String>| errors.len() == res.1.len()
                    && all_rendered(res.1, errors, "<input>"@, source_lines(input@))
                    && r@ == #[trigger] json_failure(texts_of(errors))
            }
        }),
{
    let mut lexer = Lexer::new(input);
    proof { lemma_tokenize_len(input@, 0, false); }
    let tokens = lexer.tokenize();
    let mut parser = Parser::new(tokens, input);
    let result = parser.parse();
    let r = outcome_json("0.1.0", "1.0-rc.2", "native", &result);
    proof {
        match result {
            Ok(v) => {},
            Err(errors) => {
                let texts = errors@.map_values(|e: String| e@);
                assert(texts_of(errors@) == texts);
                assert(r@ == json_failure(texts_of(errors@)));
                assert(all_rendered(parse_source(input@).unwrap().1, errors@, "<input>"@, source_lines(input@)));
            },
        }
    }
    r
}

} // verus!
