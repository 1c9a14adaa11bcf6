//! The state of converting between values and Rust data: error types, the
//! deserializer's input, and the builders that collect serialized arrays
//! and objects.
use vstd::prelude::*;
use crate::value::{Value, SValue, items_view, fields_view};

verus! {

/// Errors that can occur during Spine deserialization.
#[derive(Debug)]
pub enum DeError {
    /// A custom error message.
    Custom(String),
}

/// Errors that can occur during Spine serialization.
#[derive(Debug)]
pub enum SerError {
    /// A custom error message.
    Custom(String),
}

/// Deserializer for Spine values: holds the value to read.
pub struct Deserializer {
    value: Value,
}

impl Deserializer {
    /// The model of the value to read.
    pub closed spec fn input(&self) -> SValue {
        self.value@
    }

    /// Creates a new deserializer from a value.
    pub fn from_value(value: Value) -> (r: Self)
        ensures
            r.input() == value@,
    {
        Deserializer { value: value }
    }

    /// The value to read.
    pub fn into_value(self) -> (r: Value)
        ensures
            r@ == self.input(),
    {
        self.value
    }
}

/// The deserialization error for a document without a root value.
pub fn empty_document_error() -> (r: DeError)
    ensures
        r matches DeError::Custom(m) && m@ == "empty document"@,
{
    DeError::Custom("empty document".to_owned())
}

/// Collects the elements of a serialized sequence, tuple or tuple struct.
pub struct SeqSerializer {
    items: Vec<Value>,
}

impl SeqSerializer {
    /// The models of the elements collected so far.
    pub closed spec fn elements(&self) -> Seq<SValue> {
        items_view(self.items@)
    }

    /// An empty sequence.
    pub fn new() -> (r: Self)
        ensures
            r.elements() == Seq::<SValue>::empty(),
    {
        SeqSerializer { items: Vec::new() }
    }

    /// Adds an element at the end.
    pub fn push(&mut self, v: Value)
        ensures
            final(self).elements() == old(self).elements().push(v@),
    {
        let ghost before = self.items@;
        self.items.push(v);
        assert(self.items@.drop_last() =~= before);
    }

    /// The array of the collected elements.
    pub fn end(self) -> (r: Value)
        ensures
            r@ == SValue::Array(self.elements()),
    {
        Value::Array(self.items)
    }
}

/// Collects the fields of a serialized map or struct.
pub struct MapSerializer {
    fields: Vec<(String, Value)>,
    current_key: Option<String>,
}

impl MapSerializer {
    /// The models of the fields collected so far.
    pub closed spec fn entries(&self) -> Seq<(Seq<char>, SValue)> {
        fields_view(self.fields@)
    }

    /// The key waiting for its value, if any.
    pub closed spec fn pending(&self) -> Option<Seq<char>> {
        match self.current_key {
            Some(k) => Some(k@),
            None => None,
        }
    }

    /// An empty map.
    pub fn new() -> (r: Self)
        ensures
            r.entries() == Seq::<(Seq<char>, SValue)>::empty(),
            r.pending() is None,
    {
        MapSerializer { fields: Vec::new(), current_key: None }
    }

    /// Adds a struct field at the end.
    pub fn field(&mut self, key: String, v: Value)
        ensures
            final(self).entries() == old(self).entries().push((key@, v@)),
            final(self).pending() == old(self).pending(),
    {
        let ghost before = self.fields@;
        self.fields.push((key, v));
        assert(self.fields@.drop_last() =~= before);
    }

    /// Records the serialized form of a map key, which must be a string.
    pub fn key(&mut self, k: Value) -> (r: Result<(), SerError>)
        ensures
            match k@ {
                SValue::Str(s) => r is Ok && final(self).pending() == Some(s),
                _ => r matches Err(SerError::Custom(m)) && m@ == "map keys must be strings"@
                    && final(self).pending() == old(self).pending(),
            },
            final(self).entries() == old(self).entries(),
    {
        match k {
            Value::String(s) => {
                self.current_key = Some(s);
                Ok(())
            },
            _ => Err(SerError::Custom("map keys must be strings".to_owned())),
        }
    }

    /// Adds the value of the pending key as a field.
    pub fn value(&mut self, v: Value) -> (r: Result<(), SerError>)
        ensures
            match old(self).pending() {
                Some(k) => r is Ok && final(self).entries() == old(self).entries().push((k, v@))
                    && final(self).pending() is None,
                None => r matches Err(SerError::Custom(m)) && m@ == "value before key"@
                    && final(self).entries() == old(self).entries() && final(self).pending() is None,
            },
    {
        match self.current_key.take() {
            Some(k) => {
                let ghost before = self.fields@;
                self.fields.push((k, v));
                assert(self.fields@.drop_last() =~= before);
                Ok(())
            },
            None => Err(SerError::Custom("value before key".to_owned())),
        }
    }

    /// The object of the collected fields.
    pub fn end(self) -> (r: Value)
        ensures
            r@ == SValue::Object(self.entries()),
    {
        Value::Object(self.fields)
    }
}

/// The serializer: turns Rust data into values.
pub struct Serializer;

/// The error for data that Spine cannot represent as bytes.
pub fn bytes_unsupported() -> (r: SerError)
    ensures
        r matches SerError::Custom(m) && m@ == "bytes not supported in Spine"@,
{
    SerError::Custom("bytes not supported in Spine".to_owned())
}

} // verus!
