//! Compact request-local values.
//!
//! Scalars are stored inline. Byte strings, vectors and maps are immutable
//! shared storage: a clone shares it, and a mutation detaches the mutated
//! value first (copy on write). Objects, streams and exceptions have
//! identity; a value refers to them by a handle into the request heap.

use vstd::prelude::*;
use std::rc::Rc;
use vstd::utf8::{decode_utf8, encode_utf8, valid_utf8};
use crate::runtime::error::{RuntimeErrorKind, bounds_error, bounds_failure, is_type_error, type_error, type_failure};
use crate::text::{all_digits, digits_value, lemma_decimal_round_trip, decimal, push_decimal, push_signed_decimal, push_str, signed_decimal, string_of, utf8_bytes, push_chars, chars_of};
use crate::compare::{bytes_equal, lossy_text, utf8_lossy};

verus! {

broadcast use vstd::std_specs::vec::group_vec_axioms;

/// The identity of a declared class.
#[derive(Clone, Copy, Debug, PartialEq, Eq, Structural)]
pub struct ClassId(pub u32);

/// A handle on an object, stream or exception cell of a request heap,
/// with the class it was created with.
#[derive(Clone, Copy, Debug, PartialEq, Eq, Structural)]
pub struct HeapRef {
    pub index: u32,
    pub class: ClassId,
}

impl HeapRef {
    /// The cell's position in its heap.
    pub open spec fn cell(self) -> int {
        self.index as int
    }
}

/// The static type of a collection's elements.
#[derive(Debug)]
pub enum Type {
    Void,
    Bool,
    Int,
    Float,
    Str,
    Object(String),
    Vector(Box<Type>),
    Mapping(Box<Type>, Box<Type>),
}

/// Whether two types are the same type.
pub open spec fn same_type(a: Type, b: Type) -> bool
    decreases a,
{
    match a {
        Type::Void => b is Void,
        Type::Bool => b is Bool,
        Type::Int => b is Int,
        Type::Float => b is Float,
        Type::Str => b is Str,
        Type::Object(x) => b matches Type::Object(y) && x@ == y@,
        Type::Vector(x) => match b {
            Type::Vector(y) => same_type(*x, *y),
            _ => false,
        },
        Type::Mapping(k, v) => match b {
            Type::Mapping(k2, v2) => same_type(*k, *k2) && same_type(*v, *v2),
            _ => false,
        },
    }
}

impl Clone for Type {
    fn clone(&self) -> (copy: Self)
        ensures
            copy == *self,
        decreases *self,
    {
        match self {
            Type::Void => Type::Void,
            Type::Bool => Type::Bool,
            Type::Int => Type::Int,
            Type::Float => Type::Float,
            Type::Str => Type::Str,
            Type::Object(name) => Type::Object(name.clone()),
            Type::Vector(element) => {
                let inner: &Type = &**element;
                Type::Vector(Box::new(inner.clone()))
            },
            Type::Mapping(key, value) => {
                let k: &Type = &**key;
                let v: &Type = &**value;
                Type::Mapping(Box::new(k.clone()), Box::new(v.clone()))
            },
        }
    }
}

impl Type {
    /// Compares two types.
    pub fn same(&self, other: &Type) -> (same: bool)
        ensures
            same == same_type(*self, *other),
        decreases *self,
    {
        match self {
            Type::Void => matches!(other, Type::Void),
            Type::Bool => matches!(other, Type::Bool),
            Type::Int => matches!(other, Type::Int),
            Type::Float => matches!(other, Type::Float),
            Type::Str => matches!(other, Type::Str),
            Type::Object(x) => match other {
                Type::Object(y) => {
                    let a = chars_of(x.as_str());
                    let b = chars_of(y.as_str());
                    chars_equal(a.as_slice(), b.as_slice())
                },
                _ => false,
            },
            Type::Vector(x) => match other {
                Type::Vector(y) => {
                    let a: &Type = &**x;
                    let b: &Type = &**y;
                    a.same(b)
                },
                _ => false,
            },
            Type::Mapping(k, v) => match other {
                Type::Mapping(k2, v2) => {
                    let a: &Type = &**k;
                    let b: &Type = &**k2;
                    let c: &Type = &**v;
                    let d: &Type = &**v2;
                    a.same(b) && c.same(d)
                },
                _ => false,
            },
        }
    }
}

fn chars_equal(a: &[char], b: &[char]) -> (same: bool)
    ensures
        same == (a@ == b@),
{
    if a.len() != b.len() {
        return false;
    }
    let mut i: usize = 0;
    while i < a.len()
        invariant
            i <= a.len(),
            a.len() == b.len(),
            forall|k: int| 0 <= k < i ==> a@[k] == b@[k],
        decreases a.len() - i,
    {
        if a[i] != b[i] {
            assert(a@[i as int] != b@[i as int]);
            return false;
        }
        i = i + 1;
    }
    assert(a@ =~= b@);
    true
}

/// A vector's element type and elements.
#[derive(Debug)]
pub struct VectorData {
    pub element_type: Type,
    pub values: Vec<Value>,
}

/// A map's key and value types and its entries in insertion order.
#[derive(Debug)]
pub struct MapData {
    pub key_type: Type,
    pub value_type: Type,
    pub entries: Vec<(Value, Value)>,
}

/// A request-local runtime value.
#[derive(Debug)]
pub enum Value {
    Null,
    Int(i64),
    Bool(bool),
    Bytes(Rc<Vec<u8>>),
    Vector(Rc<VectorData>),
    Mapping(Rc<MapData>),
    Object(HeapRef),
    Stream(HeapRef),
    Exception(HeapRef),
}

impl Clone for Value {
    /// Shares heap storage; the copy is the same value.
    fn clone(&self) -> (copy: Self)
        ensures
            copy == *self,
    {
        match self {
            Value::Null => Value::Null,
            Value::Int(i) => Value::Int(*i),
            Value::Bool(b) => Value::Bool(*b),
            Value::Bytes(b) => Value::Bytes(Rc::clone(b)),
            Value::Vector(v) => Value::Vector(Rc::clone(v)),
            Value::Mapping(m) => Value::Mapping(Rc::clone(m)),
            Value::Object(r) => Value::Object(*r),
            Value::Stream(r) => Value::Stream(*r),
            Value::Exception(r) => Value::Exception(*r),
        }
    }
}

/// Value equality: scalars and byte strings by content, vectors and maps
/// by their types and elements, objects, streams and exceptions by
/// identity.
pub open spec fn value_eq(a: Value, b: Value) -> bool
    decreases a,
{
    match a {
        Value::Null => b is Null,
        Value::Int(x) => b matches Value::Int(y) && x == y,
        Value::Bool(x) => b matches Value::Bool(y) && x == y,
        Value::Bytes(x) => b matches Value::Bytes(y) && x@ == y@,
        Value::Vector(x) => match b {
            Value::Vector(y) => same_type(x.element_type, y.element_type) && values_eq(x.values@, y.values@),
            _ => false,
        },
        Value::Mapping(x) => match b {
            Value::Mapping(y) => same_type(x.key_type, y.key_type) && same_type(x.value_type, y.value_type)
                && entries_eq(x.entries@, y.entries@),
            _ => false,
        },
        Value::Object(x) => b matches Value::Object(y) && x == y,
        Value::Stream(x) => b matches Value::Stream(y) && x == y,
        Value::Exception(x) => b matches Value::Exception(y) && x == y,
    }
}

/// Element-wise equality of value sequences.
pub open spec fn values_eq(xs: Seq<Value>, ys: Seq<Value>) -> bool
    decreases xs,
{
    xs.len() == ys.len() && (xs.len() == 0 || (value_eq(xs.last(), ys.last()) && values_eq(
        xs.drop_last(),
        ys.drop_last(),
    )))
}

/// Entry-wise equality of map entries.
pub open spec fn entries_eq(xs: Seq<(Value, Value)>, ys: Seq<(Value, Value)>) -> bool
    decreases xs,
{
    xs.len() == ys.len() && (xs.len() == 0 || (value_eq(xs.last().0, ys.last().0) && value_eq(
        xs.last().1,
        ys.last().1,
    ) && entries_eq(xs.drop_last(), ys.drop_last())))
}

/// `values_eq` holds exactly when the lengths agree and each pair is equal.
pub proof fn lemma_values_eq(xs: Seq<Value>, ys: Seq<Value>)
    ensures
        values_eq(xs, ys) <==> (xs.len() == ys.len() && forall|i: int|
            0 <= i < xs.len() ==> #[trigger] value_eq(xs[i], ys[i])),
    decreases xs.len(),
{
    if xs.len() == ys.len() && xs.len() > 0 {
        lemma_values_eq(xs.drop_last(), ys.drop_last());
        if values_eq(xs, ys) {
            assert forall|i: int| 0 <= i < xs.len() implies #[trigger] value_eq(xs[i], ys[i]) by {
                if i < xs.len() - 1 {
                    assert(xs.drop_last()[i] == xs[i]);
                    assert(ys.drop_last()[i] == ys[i]);
                }
            }
        }
        if forall|i: int| 0 <= i < xs.len() ==> #[trigger] value_eq(xs[i], ys[i]) {
            assert forall|i: int| 0 <= i < xs.drop_last().len() implies #[trigger] value_eq(
                xs.drop_last()[i],
                ys.drop_last()[i],
            ) by {
                assert(value_eq(xs[i], ys[i]));
            }
            assert(value_eq(xs[xs.len() - 1], ys[ys.len() - 1]));
        }
    }
}

/// Both halves of every entry pair are equal.
pub open spec fn entry_eq(a: (Value, Value), b: (Value, Value)) -> bool {
    value_eq(a.0, b.0) && value_eq(a.1, b.1)
}

/// `entries_eq` holds exactly when the lengths agree and each entry is equal.
pub proof fn lemma_entries_eq(xs: Seq<(Value, Value)>, ys: Seq<(Value, Value)>)
    ensures
        entries_eq(xs, ys) <==> (xs.len() == ys.len() && forall|i: int|
            0 <= i < xs.len() ==> #[trigger] entry_eq(xs[i], ys[i])),
    decreases xs.len(),
{
    if xs.len() == ys.len() && xs.len() > 0 {
        lemma_entries_eq(xs.drop_last(), ys.drop_last());
        if entries_eq(xs, ys) {
            assert forall|i: int| 0 <= i < xs.len() implies #[trigger] entry_eq(xs[i], ys[i]) by {
                if i < xs.len() - 1 {
                    assert(xs.drop_last()[i] == xs[i]);
                    assert(ys.drop_last()[i] == ys[i]);
                }
            }
        }
        if forall|i: int| 0 <= i < xs.len() ==> #[trigger] entry_eq(xs[i], ys[i]) {
            assert forall|i: int| 0 <= i < xs.drop_last().len() implies #[trigger] entry_eq(
                xs.drop_last()[i],
                ys.drop_last()[i],
            ) by {
                assert(entry_eq(xs[i], ys[i]));
            }
            assert(entry_eq(xs[xs.len() - 1], ys[ys.len() - 1]));
        }
    }
}

/// The name of a value's runtime type.
pub open spec fn type_label_of(v: Value) -> Seq<char> {
    match v {
        Value::Null => "null"@,
        Value::Int(_) => "int"@,
        Value::Bool(_) => "bool"@,
        Value::Bytes(_) => "string"@,
        Value::Vector(_) => "vector"@,
        Value::Mapping(_) => "map"@,
        Value::Object(_) => "object"@,
        Value::Stream(_) => "stream"@,
        Value::Exception(_) => "exception"@,
    }
}

/// The number of elements of a byte string, vector or map.
pub open spec fn element_count(v: Value) -> Option<nat> {
    match v {
        Value::Bytes(b) => Some(b@.len()),
        Value::Vector(d) => Some(d.values@.len()),
        Value::Mapping(m) => Some(m.entries@.len()),
        _ => None,
    }
}

/// The position of the first entry whose key equals `key`, from `i` on.
pub open spec fn find_key_from(entries: Seq<(Value, Value)>, key: Value, i: int) -> Option<int>
    decreases entries.len() - i,
{
    if i < 0 || i >= entries.len() {
        None
    } else if value_eq(entries[i].0, key) {
        Some(i)
    } else {
        find_key_from(entries, key, i + 1)
    }
}

/// The position of the first entry whose key equals `key`.
pub open spec fn find_key(entries: Seq<(Value, Value)>, key: Value) -> Option<int> {
    find_key_from(entries, key, 0)
}

pub proof fn lemma_find_key_from(entries: Seq<(Value, Value)>, key: Value, i: int)
    requires
        0 <= i <= entries.len(),
    ensures
        match find_key_from(entries, key, i) {
            Some(k) => i <= k < entries.len() && value_eq(entries[k].0, key) && forall|j: int|
                i <= j < k ==> !value_eq(#[trigger] entries[j].0, key),
            None => forall|j: int| i <= j < entries.len() ==> !value_eq(#[trigger] entries[j].0, key),
        },
    decreases entries.len() - i,
{
    if i < entries.len() && !value_eq(entries[i].0, key) {
        lemma_find_key_from(entries, key, i + 1);
    }
}

/// The entries after assigning `value` to `key`: the first equal key keeps
/// its place and takes the value, or a new entry is appended.
pub open spec fn assign_entry(entries: Seq<(Value, Value)>, key: Value, value: Value) -> Seq<(Value, Value)> {
    match find_key(entries, key) {
        Some(i) => entries.update(i, (entries[i].0, value)),
        None => entries.push((key, value)),
    }
}

/// The text `output` writes for a scalar or byte string.
pub open spec fn output_text(v: Value) -> Option<Seq<u8>> {
    match v {
        Value::Int(i) => Some(encode_utf8(signed_decimal(i as int))),
        Value::Bool(b) => Some(encode_utf8(if b { "true"@ } else { "false"@ })),
        Value::Bytes(b) => Some(b@),
        _ => None,
    }
}

/// The debugging dump of a value, one line.
pub open spec fn dump_text(v: Value) -> Seq<u8> {
    encode_utf8(
        match v {
            Value::Null => "NULL\n"@,
            Value::Int(i) => "int("@ + signed_decimal(i as int) + ")\n"@,
            Value::Bool(b) => "bool("@ + (if b { "true"@ } else { "false"@ }) + ")\n"@,
            Value::Bytes(b) => "string("@ + decimal(b@.len()) + ") \""@ + utf8_lossy(b@) + "\"\n"@,
            Value::Vector(d) => "vector("@ + decimal(d.values@.len()) + ")\n"@,
            Value::Mapping(m) => "map("@ + decimal(m.entries@.len()) + ")\n"@,
            Value::Object(r) => "object(class#"@ + decimal(r.class.0 as nat) + ")\n"@,
            Value::Stream(r) => "stream(class#"@ + decimal(r.class.0 as nat) + ")\n"@,
            Value::Exception(r) => "exception(class#"@ + decimal(r.class.0 as nat) + ")\n"@,
        },
    )
}

impl Value {
    pub fn integer(value: i64) -> (v: Value)
        ensures
            v == Value::Int(value),
    {
        Value::Int(value)
    }

    pub fn bool(value: bool) -> (v: Value)
        ensures
            v == Value::Bool(value),
    {
        Value::Bool(value)
    }

    /// A byte string holding `value`.
    pub fn bytes(value: Vec<u8>) -> (v: Value)
        ensures
            v matches Value::Bytes(b) && b@ == value@,
    {
        Value::Bytes(Rc::new(value))
    }

    /// A vector of `values`.
    pub fn vector(element_type: Type, values: Vec<Value>) -> (v: Value)
        ensures
            v matches Value::Vector(d) && d.element_type == element_type && d.values@ == values@,
    {
        Value::Vector(Rc::new(VectorData { element_type, values }))
    }

    /// A map of `entries`, in the given order.
    pub fn map(key_type: Type, value_type: Type, entries: Vec<(Value, Value)>) -> (v: Value)
        ensures
            v matches Value::Mapping(m) && m.key_type == key_type && m.value_type == value_type
                && m.entries@ == entries@,
    {
        Value::Mapping(Rc::new(MapData { key_type, value_type, entries }))
    }

    pub fn is_null(&self) -> (null: bool)
        ensures
            null == (*self is Null),
    {
        matches!(self, Value::Null)
    }

    pub fn as_int(&self) -> (i: Option<i64>)
        ensures
            i == (match *self {
                Value::Int(x) => Some(x),
                _ => None,
            }),
    {
        match self {
            Value::Int(x) => Some(*x),
            _ => None,
        }
    }

    pub fn as_bool(&self) -> (b: Option<bool>)
        ensures
            b == (match *self {
                Value::Bool(x) => Some(x),
                _ => None,
            }),
    {
        match self {
            Value::Bool(x) => Some(*x),
            _ => None,
        }
    }

    /// The bytes of a byte string.
    pub fn as_bytes(&self) -> (bytes: Option<&[u8]>)
        ensures
            match *self {
                Value::Bytes(b) => bytes matches Some(s) && s@ == b@,
                _ => bytes is None,
            },
    {
        match self {
            Value::Bytes(b) => {
                let v: &Vec<u8> = &**b;
                Some(v.as_slice())
            },
            _ => None,
        }
    }

    /// The elements of a vector.
    pub fn vector_values(&self) -> (values: Option<&[Value]>)
        ensures
            match *self {
                Value::Vector(d) => values matches Some(s) && s@ == d.values@,
                _ => values is None,
            },
    {
        match self {
            Value::Vector(d) => {
                let data: &VectorData = &**d;
                Some(data.values.as_slice())
            },
            _ => None,
        }
    }

    /// The entries of a map, in insertion order.
    pub fn map_entries(&self) -> (entries: Option<&[(Value, Value)]>)
        ensures
            match *self {
                Value::Mapping(m) => entries matches Some(s) && s@ == m.entries@,
                _ => entries is None,
            },
    {
        match self {
            Value::Mapping(m) => {
                let data: &MapData = &**m;
                Some(data.entries.as_slice())
            },
            _ => None,
        }
    }

    /// The class an object, stream or exception was created with.
    pub fn class_id(&self) -> (class: Option<ClassId>)
        ensures
            class == (match *self {
                Value::Object(r) | Value::Stream(r) | Value::Exception(r) => Some(r.class),
                _ => None,
            }),
    {
        match self {
            Value::Object(r) | Value::Stream(r) | Value::Exception(r) => Some(r.class),
            _ => None,
        }
    }

    /// The name of this value's runtime type.
    pub fn type_label(&self) -> (name: &'static str)
        ensures
            name@ == type_label_of(*self),
    {
        match self {
            Value::Null => "null",
            Value::Int(_) => "int",
            Value::Bool(_) => "bool",
            Value::Bytes(_) => "string",
            Value::Vector(_) => "vector",
            Value::Mapping(_) => "map",
            Value::Object(_) => "object",
            Value::Stream(_) => "stream",
            Value::Exception(_) => "exception",
        }
    }

    /// The length of a byte string, vector or map.
    pub fn count(&self) -> (n: Option<usize>)
        ensures
            match element_count(*self) {
                Some(c) => n == Some(c as usize),
                None => n is None,
            },
    {
        match self {
            Value::Bytes(b) => {
                let v: &Vec<u8> = &**b;
                Some(v.len())
            },
            Value::Vector(d) => Some(d.values.len()),
            Value::Mapping(m) => Some(m.entries.len()),
            _ => None,
        }
    }

    /// Compares two values as the language's `==` does.
    pub fn equals(&self, other: &Value) -> (same: bool)
        ensures
            same == value_eq(*self, *other),
        decreases *self,
    {
        match self {
            Value::Null => matches!(other, Value::Null),
            Value::Int(x) => match other {
                Value::Int(y) => *x == *y,
                _ => false,
            },
            Value::Bool(x) => match other {
                Value::Bool(y) => *x == *y,
                _ => false,
            },
            Value::Bytes(x) => match other {
                Value::Bytes(y) => {
                    let a: &Vec<u8> = &**x;
                    let b: &Vec<u8> = &**y;
                    bytes_equal(a.as_slice(), b.as_slice())
                },
                _ => false,
            },
            Value::Vector(x) => match other {
                Value::Vector(y) => {
                    let a: &VectorData = &**x;
                    let b: &VectorData = &**y;
                    a.element_type.same(&b.element_type) && values_equal(&a.values, &b.values)
                },
                _ => false,
            },
            Value::Mapping(x) => match other {
                Value::Mapping(y) => {
                    let a: &MapData = &**x;
                    let b: &MapData = &**y;
                    a.key_type.same(&b.key_type) && a.value_type.same(&b.value_type) && entries_equal(
                        &a.entries,
                        &b.entries,
                    )
                },
                _ => false,
            },
            Value::Object(x) => match other {
                Value::Object(y) => *x == *y,
                _ => false,
            },
            Value::Stream(x) => match other {
                Value::Stream(y) => *x == *y,
                _ => false,
            },
            Value::Exception(x) => match other {
                Value::Exception(y) => *x == *y,
                _ => false,
            },
        }
    }
}

impl Value {
    /// The number of elements of a vector or map.
    pub fn collection_len(&self) -> (n: Result<usize, RuntimeErrorKind>)
        ensures
            match *self {
                Value::Vector(d) => n == Ok::<usize, RuntimeErrorKind>(d.values@.len() as usize),
                Value::Mapping(m) => n == Ok::<usize, RuntimeErrorKind>(m.entries@.len() as usize),
                _ => type_failure(n, type_label_of(*self) + " is not an iterable collection"@),
            },
    {
        match self {
            Value::Vector(d) => Ok(d.values.len()),
            Value::Mapping(m) => Ok(m.entries.len()),
            _ => Err(self.not_iterable()),
        }
    }

    fn not_iterable(&self) -> (e: RuntimeErrorKind)
        ensures
            is_type_error(e, type_label_of(*self) + " is not an iterable collection"@),
    {
        let mut text: Vec<char> = Vec::new();
        push_str(&mut text, self.type_label());
        push_str(&mut text, " is not an iterable collection");
        RuntimeErrorKind::TypeError(string_of(text.as_slice()))
    }

    /// The key at an insertion-order offset; a vector's keys are its
    /// offsets.
    pub fn collection_key_at(&self, offset: usize) -> (key: Result<Value, RuntimeErrorKind>)
        ensures
            match *self {
                Value::Vector(d) => if offset >= d.values@.len() {
                    bounds_failure(key, "collection iteration offset out of bounds"@)
                } else if offset > i64::MAX {
                    bounds_failure(key, "collection iteration offset exceeds the signed 64-bit range"@)
                } else {
                    key == Ok::<Value, RuntimeErrorKind>(Value::Int(offset as i64))
                },
                Value::Mapping(m) => if offset < m.entries@.len() {
                    key == Ok::<Value, RuntimeErrorKind>(m.entries@[offset as int].0)
                } else {
                    bounds_failure(key, "collection iteration offset out of bounds"@)
                },
                _ => type_failure(key, type_label_of(*self) + " is not an iterable collection"@),
            },
    {
        match self {
            Value::Vector(d) => {
                if offset >= d.values.len() {
                    return Err(bounds_error("collection iteration offset out of bounds"));
                }
                if (offset as u64) > 9223372036854775807u64 {
                    return Err(bounds_error("collection iteration offset exceeds the signed 64-bit range"));
                }
                Ok(Value::Int(offset as i64))
            },
            Value::Mapping(m) => {
                if offset < m.entries.len() {
                    Ok(m.entries[offset].0.clone())
                } else {
                    Err(bounds_error("collection iteration offset out of bounds"))
                }
            },
            _ => Err(self.not_iterable()),
        }
    }

    /// The value at an insertion-order offset.
    pub fn collection_value_at(&self, offset: usize) -> (value: Result<Value, RuntimeErrorKind>)
        ensures
            match *self {
                Value::Vector(d) => if offset < d.values@.len() {
                    value == Ok::<Value, RuntimeErrorKind>(d.values@[offset as int])
                } else {
                    bounds_failure(value, "collection iteration offset out of bounds"@)
                },
                Value::Mapping(m) => if offset < m.entries@.len() {
                    value == Ok::<Value, RuntimeErrorKind>(m.entries@[offset as int].1)
                } else {
                    bounds_failure(value, "collection iteration offset out of bounds"@)
                },
                _ => type_failure(value, type_label_of(*self) + " is not an iterable collection"@),
            },
    {
        match self {
            Value::Vector(d) => {
                if offset < d.values.len() {
                    Ok(d.values[offset].clone())
                } else {
                    Err(bounds_error("collection iteration offset out of bounds"))
                }
            },
            Value::Mapping(m) => {
                if offset < m.entries.len() {
                    Ok(m.entries[offset].1.clone())
                } else {
                    Err(bounds_error("collection iteration offset out of bounds"))
                }
            },
            _ => Err(self.not_iterable()),
        }
    }

    /// Reads a vector element, a map entry or a byte of a byte string.
    pub fn index(&self, index: &Value) -> (element: Result<Value, RuntimeErrorKind>)
        ensures
            match *self {
                Value::Vector(d) => match *index {
                    Value::Int(i) => if i < 0 {
                        bounds_failure(element, "negative vector index"@)
                    } else if i < d.values@.len() {
                        element == Ok::<Value, RuntimeErrorKind>(d.values@[i as int])
                    } else {
                        bounds_failure(element, "vector index out of bounds"@)
                    },
                    _ => type_failure(element, "vector index must be int"@),
                },
                Value::Mapping(m) => match find_key(m.entries@, *index) {
                    Some(k) => element == Ok::<Value, RuntimeErrorKind>(m.entries@[k].1),
                    None => bounds_failure(element, "map key does not exist"@),
                },
                Value::Bytes(b) => match *index {
                    Value::Int(i) => if i < 0 {
                        bounds_failure(element, "negative string offset"@)
                    } else if i < b@.len() {
                        element matches Ok(Value::Bytes(c)) && c@ == seq![b@[i as int]]
                    } else {
                        bounds_failure(element, "string offset out of bounds"@)
                    },
                    _ => type_failure(element, "string offset must be int"@),
                },
                _ => type_failure(element, type_label_of(*self) + " cannot be indexed"@),
            },
    {
        match self {
            Value::Vector(d) => {
                let i = match index {
                    Value::Int(i) => *i,
                    _ => return Err(type_error("vector index must be int")),
                };
                if i < 0 {
                    return Err(bounds_error("negative vector index"));
                }
                if (i as u64) < (d.values.len() as u64) {
                    Ok(d.values[i as usize].clone())
                } else {
                    Err(bounds_error("vector index out of bounds"))
                }
            },
            Value::Mapping(m) => {
                match position_of_key(&m.entries, index) {
                    Some(k) => Ok(m.entries[k].1.clone()),
                    None => Err(bounds_error("map key does not exist")),
                }
            },
            Value::Bytes(b) => {
                let i = match index {
                    Value::Int(i) => *i,
                    _ => return Err(type_error("string offset must be int")),
                };
                if i < 0 {
                    return Err(bounds_error("negative string offset"));
                }
                let bytes: &Vec<u8> = &**b;
                if (i as u64) < (bytes.len() as u64) {
                    let mut one: Vec<u8> = Vec::new();
                    one.push(bytes[i as usize]);
                    assert(one@ =~= seq![bytes@[i as int]]);
                    Ok(Value::bytes(one))
                } else {
                    Err(bounds_error("string offset out of bounds"))
                }
            },
            _ => {
                let mut text: Vec<char> = Vec::new();
                push_str(&mut text, self.type_label());
                push_str(&mut text, " cannot be indexed");
                Err(RuntimeErrorKind::TypeError(string_of(text.as_slice())))
            },
        }
    }

    /// Appends to a vector and returns its new length; the vector is
    /// detached from other values that shared it.
    pub fn vector_push(&mut self, value: Value) -> (length: Result<usize, RuntimeErrorKind>)
        ensures
            match *old(self) {
                Value::Vector(d) => length == Ok::<usize, RuntimeErrorKind>((d.values@.len() + 1) as usize)
                    && (*final(self) matches Value::Vector(n) && n.element_type == d.element_type
                    && n.values@ == d.values@.push(value)),
                _ => *final(self) == *old(self) && type_failure(length, "array_push requires a vector"@),
            },
    {
        if !matches!(self, Value::Vector(_)) {
            return Err(type_error("array_push requires a vector"));
        }
        let mut taken = Value::Null;
        std::mem::swap(self, &mut taken);
        match taken {
            Value::Vector(shared) => {
                let mut data = detach_vector(shared);
                data.values.push(value);
                let n = data.values.len();
                *self = Value::Vector(Rc::new(data));
                Ok(n)
            },
            other => {
                *self = other;
                Err(type_error("array_push requires a vector"))
            },
        }
    }

    /// Replaces a vector element, or assigns a map entry (replacing the
    /// value of an equal key in place or appending a new entry); the
    /// collection is detached from other values that shared it.
    pub fn set_index(&mut self, index: &Value, value: Value) -> (done: Result<(), RuntimeErrorKind>)
        ensures
            match *old(self) {
                Value::Vector(d) => match *index {
                    Value::Int(i) => if i < 0 {
                        *final(self) == *old(self) && bounds_failure(done, "negative vector index"@)
                    } else if i < d.values@.len() {
                        done is Ok && (*final(self) matches Value::Vector(n) && n.element_type == d.element_type
                            && n.values@ == d.values@.update(i as int, value))
                    } else {
                        *final(self) == *old(self) && bounds_failure(done, "vector index out of bounds"@)
                    },
                    _ => *final(self) == *old(self) && type_failure(done, "vector index must be int"@),
                },
                Value::Mapping(m) => done is Ok && (*final(self) matches Value::Mapping(n) && n.key_type == m.key_type
                    && n.value_type == m.value_type && n.entries@ == assign_entry(m.entries@, *index, value)),
                _ => *final(self) == *old(self) && type_failure(done, type_label_of(*old(self)) + " does not support element assignment"@),
            },
    {
        match self {
            Value::Vector(d) => {
                let i = match index {
                    Value::Int(i) => *i,
                    _ => return Err(type_error("vector index must be int")),
                };
                if i < 0 {
                    return Err(bounds_error("negative vector index"));
                }
                if (i as u64) >= (d.values.len() as u64) {
                    return Err(bounds_error("vector index out of bounds"));
                }
                let mut taken = Value::Null;
                std::mem::swap(self, &mut taken);
                match taken {
                    Value::Vector(shared) => {
                        let mut data = detach_vector(shared);
                        data.values.set(i as usize, value);
                        *self = Value::Vector(Rc::new(data));
                        Ok(())
                    },
                    other => {
                        *self = other;
                        Ok(())
                    },
                }
            },
            Value::Mapping(_) => {
                let mut taken = Value::Null;
                std::mem::swap(self, &mut taken);
                match taken {
                    Value::Mapping(shared) => {
                        let mut data = detach_map(shared);
                        let ghost before = data.entries@;
                        match position_of_key(&data.entries, index) {
                            Some(k) => {
                                let key = data.entries[k].0.clone();
                                data.entries.set(k, (key, value));
                                assert(data.entries@ =~= before.update(k as int, (before[k as int].0, value)));
                            },
                            None => {
                                let key = index.clone();
                                data.entries.push((key, value));
                                assert(data.entries@ =~= before.push((*index, value)));
                            },
                        }
                        *self = Value::Mapping(Rc::new(data));
                        Ok(())
                    },
                    other => {
                        *self = other;
                        Ok(())
                    },
                }
            },
            _ => {
                let mut text: Vec<char> = Vec::new();
                push_str(&mut text, self.type_label());
                push_str(&mut text, " does not support element assignment");
                Err(RuntimeErrorKind::TypeError(string_of(text.as_slice())))
            },
        }
    }

    /// The text written when a scalar or byte string is output.
    pub fn output_bytes(&self) -> (text: Option<Vec<u8>>)
        ensures
            match output_text(*self) {
                Some(t) => text matches Some(v) && v@ == t,
                None => text is None,
            },
    {
        match self {
            Value::Int(i) => {
                let mut t: Vec<char> = Vec::new();
                push_signed_decimal(&mut t, *i as i128);
                Some(utf8_bytes(t.as_slice()))
            },
            Value::Bool(b) => {
                let word = if *b { "true" } else { "false" };
                Some(vstd::slice::slice_to_vec(word.as_bytes()))
            },
            Value::Bytes(b) => {
                let bytes: &Vec<u8> = &**b;
                Some(bytes.clone())
            },
            _ => None,
        }
    }

    /// A one-line debugging dump of this value.
    pub fn dump(&self) -> (text: Vec<u8>)
        ensures
            text@ == dump_text(*self),
            self matches Value::Bytes(b) ==> (valid_utf8(b@) ==> text@ == encode_utf8(
                "string("@ + decimal(b@.len()) + ") \""@ + decode_utf8(b@) + "\"\n"@,
            )),
    {
        let mut t: Vec<char> = Vec::new();
        match self {
            Value::Null => push_str(&mut t, "NULL\n"),
            Value::Int(i) => {
                push_str(&mut t, "int(");
                push_signed_decimal(&mut t, *i as i128);
                push_str(&mut t, ")\n");
            },
            Value::Bool(b) => {
                push_str(&mut t, "bool(");
                push_str(&mut t, if *b { "true" } else { "false" });
                push_str(&mut t, ")\n");
            },
            Value::Bytes(b) => {
                let bytes: &Vec<u8> = &**b;
                push_str(&mut t, "string(");
                push_decimal(&mut t, bytes.len() as u128);
                push_str(&mut t, ") \"");
                let shown = lossy_text(bytes.as_slice());
                push_str(&mut t, shown.as_str());
                push_str(&mut t, "\"\n");
            },
            Value::Vector(d) => {
                push_str(&mut t, "vector(");
                push_decimal(&mut t, d.values.len() as u128);
                push_str(&mut t, ")\n");
            },
            Value::Mapping(m) => {
                push_str(&mut t, "map(");
                push_decimal(&mut t, m.entries.len() as u128);
                push_str(&mut t, ")\n");
            },
            Value::Object(r) => {
                push_str(&mut t, "object(class#");
                push_decimal(&mut t, r.class.0 as u128);
                push_str(&mut t, ")\n");
            },
            Value::Stream(r) => {
                push_str(&mut t, "stream(class#");
                push_decimal(&mut t, r.class.0 as u128);
                push_str(&mut t, ")\n");
            },
            Value::Exception(r) => {
                push_str(&mut t, "exception(class#");
                push_decimal(&mut t, r.class.0 as u128);
                push_str(&mut t, ")\n");
            },
        }
        utf8_bytes(t.as_slice())
    }
}

/// The vector's data, owned: moved out when unshared, copied otherwise.
fn detach_vector(shared: Rc<VectorData>) -> (data: VectorData)
    ensures
        data.element_type == shared.element_type,
        data.values@ == shared.values@,
{
    match Rc::try_unwrap(shared) {
        Ok(data) => data,
        Err(shared) => {
            let values = shared.values.clone();
            assert(values@ =~= shared.values@);
            VectorData { element_type: shared.element_type.clone(), values }
        },
    }
}

/// The map's data, owned: moved out when unshared, copied otherwise.
fn detach_map(shared: Rc<MapData>) -> (data: MapData)
    ensures
        data.key_type == shared.key_type,
        data.value_type == shared.value_type,
        data.entries@ == shared.entries@,
{
    match Rc::try_unwrap(shared) {
        Ok(data) => data,
        Err(shared) => {
            let entries = clone_entries(&shared.entries);
            MapData { key_type: shared.key_type.clone(), value_type: shared.value_type.clone(), entries }
        },
    }
}

fn clone_entries(entries: &Vec<(Value, Value)>) -> (copy: Vec<(Value, Value)>)
    ensures
        copy@ == entries@,
{
    let mut copy: Vec<(Value, Value)> = Vec::new();
    let mut i: usize = 0;
    while i < entries.len()
        invariant
            i <= entries.len(),
            copy@ == entries@.subrange(0, i as int),
        decreases entries.len() - i,
    {
        let entry = (entries[i].0.clone(), entries[i].1.clone());
        copy.push(entry);
        i = i + 1;
        assert(copy@ =~= entries@.subrange(0, i as int));
    }
    assert(entries@.subrange(0, entries@.len() as int) =~= entries@);
    copy
}

/// The position of the first entry whose key equals `key`.
fn position_of_key(entries: &Vec<(Value, Value)>, key: &Value) -> (position: Option<usize>)
    ensures
        match find_key(entries@, *key) {
            Some(k) => position matches Some(p) && p == k && 0 <= k < entries@.len(),
            None => position is None,
        },
{
    proof {
        lemma_find_key_from(entries@, *key, 0);
    }
    let mut i: usize = 0;
    while i < entries.len()
        invariant
            i <= entries.len(),
            find_key_from(entries@, *key, 0) == find_key_from(entries@, *key, i as int),
        decreases entries.len() - i,
    {
        if entries[i].0.equals(key) {
            return Some(i);
        }
        i = i + 1;
    }
    None
}

fn values_equal(xs: &Vec<Value>, ys: &Vec<Value>) -> (same: bool)
    ensures
        same == values_eq(xs@, ys@),
    decreases xs@,
{
    proof {
        lemma_values_eq(xs@, ys@);
    }
    if xs.len() != ys.len() {
        return false;
    }
    let mut i: usize = 0;
    while i < xs.len()
        invariant
            i <= xs.len(),
            xs.len() == ys.len(),
            forall|k: int| 0 <= k < i ==> #[trigger] value_eq(xs@[k], ys@[k]),
        decreases xs.len() - i,
    {
        if !xs[i].equals(&ys[i]) {
            proof {
                lemma_values_eq(xs@, ys@);
                assert(!value_eq(xs@[i as int], ys@[i as int]));
            }
            return false;
        }
        i = i + 1;
    }
    true
}

fn entries_equal(xs: &Vec<(Value, Value)>, ys: &Vec<(Value, Value)>) -> (same: bool)
    ensures
        same == entries_eq(xs@, ys@),
    decreases xs@,
{
    proof {
        lemma_entries_eq(xs@, ys@);
    }
    if xs.len() != ys.len() {
        return false;
    }
    let mut i: usize = 0;
    while i < xs.len()
        invariant
            i <= xs.len(),
            xs.len() == ys.len(),
            forall|k: int| 0 <= k < i ==> #[trigger] entry_eq(xs@[k], ys@[k]),
        decreases xs.len() - i,
    {
        if !xs[i].0.equals(&ys[i].0) || !xs[i].1.equals(&ys[i].1) {
            proof {
                lemma_entries_eq(xs@, ys@);
                assert(!entry_eq(xs@[i as int], ys@[i as int]));
            }
            return false;
        }
        i = i + 1;
    }
    true
}

/// Every type is the same as itself.
pub proof fn lemma_same_type_reflexive(t: &Type)
    ensures
        same_type(*t, *t),
    decreases *t,
{
    match t {
        Type::Vector(x) => lemma_same_type_reflexive(&**x),
        Type::Mapping(k, v) => {
            lemma_same_type_reflexive(&**k);
            lemma_same_type_reflexive(&**v);
        },
        _ => {},
    }
}

/// Every value equals itself.
pub proof fn lemma_value_eq_reflexive(v: Value)
    ensures
        value_eq(v, v),
    decreases v,
{
    match v {
        Value::Vector(x) => {
            lemma_same_type_reflexive(&x.element_type);
            lemma_values_eq_reflexive(x.values@);
        },
        Value::Mapping(x) => {
            lemma_same_type_reflexive(&x.key_type);
            lemma_same_type_reflexive(&x.value_type);
            lemma_entries_eq_reflexive(x.entries@);
        },
        _ => {},
    }
}

/// Every value sequence equals itself.
pub proof fn lemma_values_eq_reflexive(xs: Seq<Value>)
    ensures
        values_eq(xs, xs),
    decreases xs,
{
    if xs.len() > 0 {
        lemma_value_eq_reflexive(xs.last());
        lemma_values_eq_reflexive(xs.drop_last());
    }
}

/// Every entry sequence equals itself.
pub proof fn lemma_entries_eq_reflexive(xs: Seq<(Value, Value)>)
    ensures
        entries_eq(xs, xs),
    decreases xs,
{
    if xs.len() > 0 {
        lemma_value_eq_reflexive(xs.last().0);
        lemma_value_eq_reflexive(xs.last().1);
        lemma_entries_eq_reflexive(xs.drop_last());
    }
}

/// Scalars are equal exactly when their contents are: two booleans when
/// they are the same boolean, two integers when they are the same
/// integer, two byte strings when they hold the same bytes; `null`
/// equals `null`, and no scalar of one kind equals one of another.
pub proof fn lemma_scalar_equality(x: bool, y: bool, m: i64, n: i64, a: Rc<Vec<u8>>, b: Rc<Vec<u8>>)
    ensures
        value_eq(Value::Bool(x), Value::Bool(y)) <==> x == y,
        value_eq(Value::Int(m), Value::Int(n)) <==> m == n,
        value_eq(Value::Bytes(a), Value::Bytes(b)) <==> a@ == b@,
        value_eq(Value::Null, Value::Null),
        !value_eq(Value::Bool(x), Value::Int(m)),
        !value_eq(Value::Int(m), Value::Bool(x)),
        !value_eq(Value::Bool(x), Value::Null),
        !value_eq(Value::Null, Value::Bool(x)),
        !value_eq(Value::Int(m), Value::Null),
        !value_eq(Value::Null, Value::Int(m)),
        !value_eq(Value::Bytes(a), Value::Bool(x)),
        !value_eq(Value::Bytes(a), Value::Int(m)),
        !value_eq(Value::Bytes(a), Value::Null),
{
}

/// A boolean, integer, byte string or `null`.
pub open spec fn is_scalar(v: Value) -> bool {
    v is Null || v is Int || v is Bool || v is Bytes
}

/// Two scalar keys that are not equal values are separate entries:
/// assigning one leaves the entry the other finds, and what it reads,
/// unchanged. So the keys `true` and `false`, or `1` and `2`, never
/// overwrite one another.
pub proof fn lemma_map_write_keeps_other_keys(entries: Seq<(Value, Value)>, key: Value, other: Value, value: Value)
    requires
        is_scalar(key),
        is_scalar(other),
        !value_eq(key, other),
    ensures
        find_key(assign_entry(entries, key, value), other) == find_key(entries, other),
        find_key(entries, other) matches Some(k) ==> assign_entry(entries, key, value)[k] == entries[k],
{
    lemma_find_key_from(entries, key, 0);
    lemma_find_key_from(entries, other, 0);
    let after = assign_entry(entries, key, value);
    lemma_find_key_from(after, other, 0);
    lemma_map_assignment_keeps_order(entries, key, value);
    match find_key(entries, other) {
        Some(k) => {
            if find_key(entries, key) == Some(k) {
                assert(value_eq(entries[k].0, key));
                assert(value_eq(entries[k].0, other));
                assert(false);
            }
            assert forall|j: int| 0 <= j < k implies !value_eq(#[trigger] after[j].0, other) by {
                assert(after[j].0 == entries[j].0);
            }
            assert(after[k].0 == entries[k].0);
            if find_key(after, other) != Some(k) {
                let f = find_key(after, other)->0;
                if f < k {
                    assert(after[f].0 == entries[f].0);
                }
            }
        },
        None => {
            assert forall|j: int| 0 <= j < after.len() implies !value_eq(#[trigger] after[j].0, other) by {
                if j < entries.len() {
                    assert(after[j].0 == entries[j].0);
                }
            }
        },
    }
}

/// Reading a map key after assigning it gives the assigned value: the
/// entry found for `key` holds `value`.
pub proof fn lemma_map_read_after_write(entries: Seq<(Value, Value)>, key: Value, value: Value)
    ensures
        find_key(assign_entry(entries, key, value), key) matches Some(k)
            && assign_entry(entries, key, value)[k].1 == value,
{
    lemma_find_key_from(entries, key, 0);
    lemma_value_eq_reflexive(key);
    let after = assign_entry(entries, key, value);
    lemma_find_key_from(after, key, 0);
    match find_key(entries, key) {
        Some(i) => {
            assert forall|j: int| 0 <= j < i implies !value_eq(#[trigger] after[j].0, key) by {
                assert(after[j] == entries[j]);
            }
            assert(value_eq(after[i].0, key));
            assert(find_key(after, key) == Some(i)) by {
                if find_key(after, key) != Some(i) {
                    let f = find_key(after, key)->0;
                    if f < i {
                        assert(!value_eq(after[f].0, key));
                    }
                }
            }
        },
        None => {
            let n = entries.len() as int;
            assert forall|j: int| 0 <= j < n implies !value_eq(#[trigger] after[j].0, key) by {
                assert(after[j] == entries[j]);
            }
            assert(after[n].0 == key);
            assert(find_key(after, key) == Some(n)) by {
                if find_key(after, key) != Some(n) {
                    let f = find_key(after, key)->0;
                    if f < n {
                        assert(!value_eq(after[f].0, key));
                    }
                }
            }
        },
    }
}

/// Assigning a map entry keeps every other entry in its place: the map
/// grows by one entry exactly when no key equal to `key` was present.
pub proof fn lemma_map_assignment_keeps_order(entries: Seq<(Value, Value)>, key: Value, value: Value)
    ensures
        find_key(entries, key) is Some ==> assign_entry(entries, key, value).len() == entries.len(),
        find_key(entries, key) is None ==> assign_entry(entries, key, value).len() == entries.len() + 1,
        forall|j: int|
            0 <= j < entries.len() && !value_eq(#[trigger] entries[j].0, key) ==> assign_entry(entries, key, value)[j]
                == entries[j],
        forall|j: int|
            0 <= j < entries.len() ==> #[trigger] assign_entry(entries, key, value)[j].0 == entries[j].0,
{
    lemma_find_key_from(entries, key, 0);
}


/// An integer value is an integer, of type `int`, neither null nor a
/// boolean, and prints as its decimal text: a `-` exactly when negative,
/// then digits that read back as its magnitude, with no leading zero.
pub proof fn lemma_integer_prints_as_decimal(v: i64)
    ensures
        Value::Int(v) is Int,
        type_label_of(Value::Int(v)) == "int"@,
        !(Value::Int(v) is Null),
        !(Value::Int(v) is Bool),
        output_text(Value::Int(v)) == Some(encode_utf8(signed_decimal(v as int))),
        v < 0 ==> signed_decimal(v as int)[0] == '-' && signed_decimal(v as int).drop_first() == decimal((-v) as nat),
        v >= 0 ==> signed_decimal(v as int) == decimal(v as nat),
        all_digits(decimal(if v < 0 { (-v) as nat } else { v as nat })),
        digits_value(decimal(if v < 0 { (-v) as nat } else { v as nat })) == if v < 0 { -v } else { v as int },
        decimal(if v < 0 { (-v) as nat } else { v as nat })[0] == '0' ==> v == 0,
{
    let n: nat = if v < 0 { (-v) as nat } else { v as nat };
    lemma_decimal_round_trip(n);
    if v < 0 {
        assert(signed_decimal(v as int).drop_first() =~= decimal((-v) as nat));
    }
    if n >= 10 {
        lemma_leading_digit(n);
    }
}

proof fn lemma_leading_digit(n: nat)
    requires
        n >= 1,
    ensures
        decimal(n)[0] != '0',
    decreases n,
{
    if n >= 10 {
        lemma_leading_digit(n / 10);
        assert(decimal(n)[0] == decimal(n / 10)[0]);
    }
}

/// A boolean value is a boolean, of type `bool`, not an integer, and
/// prints as `true` or `false`.
pub proof fn lemma_boolean_prints_as_word(b: bool)
    ensures
        type_label_of(Value::Bool(b)) == "bool"@,
        !(Value::Bool(b) is Int),
        !(Value::Bool(b) is Null),
        output_text(Value::Bool(b)) == Some(encode_utf8(if b { "true"@ } else { "false"@ })),
{
}

} // verus!
