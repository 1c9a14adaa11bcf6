//! The values a Spine document denotes, and their mathematical model.
use vstd::prelude::*;

verus! {

/// A parsed Spine value.
///
/// A number keeps the exact text of its literal (a match of the number
/// grammar `['-'] digit {digit} ['.' digit {digit}]`); objects keep their
/// fields in insertion order.
#[derive(Debug, PartialEq)]
pub enum Value {
    /// The absence of a value.
    Null,
    /// A boolean (`true` or `false`).
    Bool(bool),
    /// A number, as written.
    Number(String),
    /// A string.
    String(String),
    /// An ordered list of values.
    Array(Vec<Value>),
    /// A mapping of string keys to values, preserving insertion order.
    Object(Vec<(String, Value)>),
    /// A tagged literal consisting of a tag name and string content.
    Tagged(String, String),
}

impl Default for Value {
    /// The default value is `Null`.
    fn default() -> (r: Self)
        ensures
            r@ == SValue::Null,
    {
        Value::Null
    }
}

/// The mathematical model of a value.
pub enum SValue {
    Null,
    Bool(bool),
    Number(Seq<char>),
    Str(Seq<char>),
    Array(Seq<SValue>),
    Object(Seq<(Seq<char>, SValue)>),
    Tagged(Seq<char>, Seq<char>),
}

/// The model of a value.
pub open spec fn value_view(v: Value) -> SValue
    decreases v,
{
    match v {
        Value::Null => SValue::Null,
        Value::Bool(b) => SValue::Bool(b),
        Value::Number(n) => SValue::Number(n@),
        Value::String(s) => SValue::Str(s@),
        Value::Array(items) => {
            proof { assert(decreases_to!(items => items@)); }
            SValue::Array(items_view(items@))
        },
        Value::Object(fields) => {
            proof { assert(decreases_to!(fields => fields@)); }
            SValue::Object(fields_view(fields@))
        },
        Value::Tagged(t, c) => SValue::Tagged(t@, c@),
    }
}

/// The models of a sequence of values.
pub open spec fn items_view(s: Seq<Value>) -> Seq<SValue>
    decreases s,
{
    if s.len() == 0 {
        seq![]
    } else {
        items_view(s.drop_last()).push(value_view(s.last()))
    }
}

/// The models of a sequence of object fields.
pub open spec fn fields_view(s: Seq<(String, Value)>) -> Seq<(Seq<char>, SValue)>
    decreases s,
{
    if s.len() == 0 {
        seq![]
    } else {
        fields_view(s.drop_last()).push((s.last().0@, value_view(s.last().1)))
    }
}

impl View for Value {
    type V = SValue;

    open spec fn view(&self) -> SValue {
        value_view(*self)
    }
}


/// A deep copy of a value; the copy has the same model.
pub fn copy_value(v: &Value) -> (r: Value)
    ensures
        r@ == v@,
    decreases v,
{
    match v {
        Value::Null => Value::Null,
        Value::Bool(b) => Value::Bool(*b),
        Value::Number(n) => Value::Number(n.clone()),
        Value::String(s) => Value::String(s.clone()),
        Value::Tagged(t, c) => Value::Tagged(t.clone(), c.clone()),
        Value::Array(items) => {
            let mut out: Vec<Value> = Vec::new();
            let mut i: usize = 0;
            while i < items.len()
                invariant
                    i <= items.len(),
                    *v == Value::Array(*items),
                    items_view(out@) == items_view(items@.subrange(0, i as int)),
                decreases items.len() - i,
            {
                proof { vstd::std_specs::vec::axiom_vec_index_decreases(*items, i as int); }
                assert(decreases_to!(*v => (*v)->Array_0));
                let c = copy_value(&items[i]);
                let ghost pre = out@;
                out.push(c);
                assert(out@.drop_last() =~= pre);
                assert(items@.subrange(0, i + 1).drop_last() =~= items@.subrange(0, i as int));
                i = i + 1;
            }
            assert(items@.subrange(0, items.len() as int) =~= items@);
            Value::Array(out)
        },
        Value::Object(fields) => {
            let mut out: Vec<(String, Value)> = Vec::new();
            let mut i: usize = 0;
            while i < fields.len()
                invariant
                    i <= fields.len(),
                    *v == Value::Object(*fields),
                    fields_view(out@) == fields_view(fields@.subrange(0, i as int)),
                decreases fields.len() - i,
            {
                proof { vstd::std_specs::vec::axiom_vec_index_decreases(*fields, i as int); }
                assert(decreases_to!(*v => (*v)->Object_0));
                let c = copy_value(&fields[i].1);
                let k = fields[i].0.clone();
                let ghost pre = out@;
                out.push((k, c));
                assert(out@.drop_last() =~= pre);
                assert(fields@.subrange(0, i + 1).drop_last() =~= fields@.subrange(0, i as int));
                i = i + 1;
            }
            assert(fields@.subrange(0, fields.len() as int) =~= fields@);
            Value::Object(out)
        },
    }
}


pub proof fn lemma_fields_view(s: Seq<(String, Value)>)
    ensures
        fields_view(s).len() == s.len(),
        forall|i: int| 0 <= i < s.len() ==> #[trigger] fields_view(s)[i] == (s[i].0@, value_view(s[i].1)),
    decreases s.len(),
{
    if s.len() > 0 {
        lemma_fields_view(s.drop_last());
    }
}

pub proof fn lemma_items_view(s: Seq<Value>)
    ensures
        items_view(s).len() == s.len(),
        forall|i: int| 0 <= i < s.len() ==> #[trigger] items_view(s)[i] == value_view(s[i]),
    decreases s.len(),
{
    if s.len() > 0 {
        lemma_items_view(s.drop_last());
    }
}

} // verus!
