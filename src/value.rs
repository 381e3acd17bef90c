use crate::grammar::tree_tag;
use crate::tag::FieldType;
use vstd::prelude::*;

verus! {

/// Mathematical model of a value tree: what a [`Value`] means, and what the
/// wire grammar describes.
pub enum Tree {
    Byte(i8),
    Short(i16),
    Int(i32),
    Long(i64),
    Float(u32),
    Double(u64),
    ByteArray(Seq<u8>),
    String(Seq<char>),
    List(Seq<Tree>),
    Compound(Seq<(Seq<char>, Tree)>),
    IntArray(Seq<i32>),
    LongArray(Seq<i64>),
}

/// General NBT value that can represent any value of the format.
///
/// Floating-point payloads are held as their IEEE-754 bit patterns. A
/// compound holds its entries in order, with unique keys.
#[derive(Debug)]
pub enum Value {
    Byte(i8),
    Short(i16),
    Int(i32),
    Long(i64),
    Float(u32),
    Double(u64),
    ByteArray(Vec<u8>),
    String(String),
    List(Vec<Value>),
    Compound(Vec<(String, Value)>),
    IntArray(Vec<i32>),
    LongArray(Vec<i64>),
}

impl View for Value {
    type V = Tree;

    open spec fn view(&self) -> Tree {
        tree_of(*self)
    }
}

/// The model of a value.
pub open spec fn tree_of(v: Value) -> Tree
    decreases v,
{
    match v {
        Value::Byte(b) => Tree::Byte(b),
        Value::Short(n) => Tree::Short(n),
        Value::Int(n) => Tree::Int(n),
        Value::Long(n) => Tree::Long(n),
        Value::Float(bits) => Tree::Float(bits),
        Value::Double(bits) => Tree::Double(bits),
        Value::ByteArray(b) => Tree::ByteArray(b@),
        Value::String(s) => Tree::String(s@),
        Value::List(items) => Tree::List(trees_of(items@)),
        Value::Compound(m) => Tree::Compound(entry_trees_of(m@)),
        Value::IntArray(xs) => Tree::IntArray(xs@),
        Value::LongArray(xs) => Tree::LongArray(xs@),
    }
}

/// The models of a list's elements.
pub open spec fn trees_of(s: Seq<Value>) -> Seq<Tree>
    decreases s,
{
    if s.len() == 0 {
        seq![]
    } else {
        trees_of(s.subrange(0, s.len() - 1)).push(tree_of(s[s.len() - 1]))
    }
}

/// The models of a compound's entries.
pub open spec fn entry_trees_of(s: Seq<(String, Value)>) -> Seq<(Seq<char>, Tree)>
    decreases s,
{
    if s.len() == 0 {
        seq![]
    } else {
        entry_trees_of(s.subrange(0, s.len() - 1)).push(
            (s[s.len() - 1].0@, tree_of(s[s.len() - 1].1)),
        )
    }
}

impl Value {
    /// The tag that this value is written with.
    pub fn tag(&self) -> (r: FieldType)
        ensures
            r == tree_tag(self@),
    {
        match self {
            Value::Byte(_) => FieldType::Byte,
            Value::Short(_) => FieldType::Short,
            Value::Int(_) => FieldType::Int,
            Value::Long(_) => FieldType::Long,
            Value::Float(_) => FieldType::Float,
            Value::Double(_) => FieldType::Double,
            Value::ByteArray(_) => FieldType::ByteArray,
            Value::String(_) => FieldType::String,
            Value::List(_) => FieldType::List,
            Value::Compound(_) => FieldType::Compound,
            Value::IntArray(_) => FieldType::IntArray,
            Value::LongArray(_) => FieldType::LongArray,
        }
    }

    /// The wire number of this value's tag, from 1 (Byte) to 12 (LongArray).
    pub fn discriminant(&self) -> (r: u8)
        ensures
            r == tree_tag(self@).spec_byte(),
            1 <= r <= 12,
    {
        self.tag().to_byte()
    }
}

impl Value {
    /// The payload if this is a Byte, else the value itself.
    pub fn into_byte(self) -> (r: Result<i8, Value>)
        ensures
            self is Byte ==> r == Ok::<i8, Value>(self->Byte_0),
            !(self is Byte) ==> r == Err::<i8, Value>(self),
    {
        match self {
            Value::Byte(x) => Ok(x),
            other => Err(other),
        }
    }

    /// A reference to the payload if this is a Byte.
    pub fn as_byte(&self) -> (r: Option<&i8>)
        ensures
            r is Some <==> self is Byte,
            r is Some ==> *r->Some_0 == self->Byte_0,
    {
        match self {
            Value::Byte(x) => Some(x),
            _ => None,
        }
    }

    /// Whether this is a Byte.
    pub fn is_byte(&self) -> (r: bool)
        ensures
            r == self is Byte,
    {
        match self {
            Value::Byte(_) => true,
            _ => false,
        }
    }

    /// The payload if this is a Short, else the value itself.
    pub fn into_short(self) -> (r: Result<i16, Value>)
        ensures
            self is Short ==> r == Ok::<i16, Value>(self->Short_0),
            !(self is Short) ==> r == Err::<i16, Value>(self),
    {
        match self {
            Value::Short(x) => Ok(x),
            other => Err(other),
        }
    }

    /// A reference to the payload if this is a Short.
    pub fn as_short(&self) -> (r: Option<&i16>)
        ensures
            r is Some <==> self is Short,
            r is Some ==> *r->Some_0 == self->Short_0,
    {
        match self {
            Value::Short(x) => Some(x),
            _ => None,
        }
    }

    /// Whether this is a Short.
    pub fn is_short(&self) -> (r: bool)
        ensures
            r == self is Short,
    {
        match self {
            Value::Short(_) => true,
            _ => false,
        }
    }

    /// The payload if this is a Int, else the value itself.
    pub fn into_int(self) -> (r: Result<i32, Value>)
        ensures
            self is Int ==> r == Ok::<i32, Value>(self->Int_0),
            !(self is Int) ==> r == Err::<i32, Value>(self),
    {
        match self {
            Value::Int(x) => Ok(x),
            other => Err(other),
        }
    }

    /// A reference to the payload if this is a Int.
    pub fn as_int(&self) -> (r: Option<&i32>)
        ensures
            r is Some <==> self is Int,
            r is Some ==> *r->Some_0 == self->Int_0,
    {
        match self {
            Value::Int(x) => Some(x),
            _ => None,
        }
    }

    /// Whether this is a Int.
    pub fn is_int(&self) -> (r: bool)
        ensures
            r == self is Int,
    {
        match self {
            Value::Int(_) => true,
            _ => false,
        }
    }

    /// The payload if this is a Long, else the value itself.
    pub fn into_long(self) -> (r: Result<i64, Value>)
        ensures
            self is Long ==> r == Ok::<i64, Value>(self->Long_0),
            !(self is Long) ==> r == Err::<i64, Value>(self),
    {
        match self {
            Value::Long(x) => Ok(x),
            other => Err(other),
        }
    }

    /// A reference to the payload if this is a Long.
    pub fn as_long(&self) -> (r: Option<&i64>)
        ensures
            r is Some <==> self is Long,
            r is Some ==> *r->Some_0 == self->Long_0,
    {
        match self {
            Value::Long(x) => Some(x),
            _ => None,
        }
    }

    /// Whether this is a Long.
    pub fn is_long(&self) -> (r: bool)
        ensures
            r == self is Long,
    {
        match self {
            Value::Long(_) => true,
            _ => false,
        }
    }

    /// The payload (its IEEE-754 bit pattern) if this is a Float, else the value itself.
    pub fn into_float(self) -> (r: Result<u32, Value>)
        ensures
            self is Float ==> r == Ok::<u32, Value>(self->Float_0),
            !(self is Float) ==> r == Err::<u32, Value>(self),
    {
        match self {
            Value::Float(x) => Ok(x),
            other => Err(other),
        }
    }

    /// A reference to the payload (its IEEE-754 bit pattern) if this is a Float.
    pub fn as_float(&self) -> (r: Option<&u32>)
        ensures
            r is Some <==> self is Float,
            r is Some ==> *r->Some_0 == self->Float_0,
    {
        match self {
            Value::Float(x) => Some(x),
            _ => None,
        }
    }

    /// Whether this is a Float.
    pub fn is_float(&self) -> (r: bool)
        ensures
            r == self is Float,
    {
        match self {
            Value::Float(_) => true,
            _ => false,
        }
    }

    /// The payload (its IEEE-754 bit pattern) if this is a Double, else the value itself.
    pub fn into_double(self) -> (r: Result<u64, Value>)
        ensures
            self is Double ==> r == Ok::<u64, Value>(self->Double_0),
            !(self is Double) ==> r == Err::<u64, Value>(self),
    {
        match self {
            Value::Double(x) => Ok(x),
            other => Err(other),
        }
    }

    /// A reference to the payload (its IEEE-754 bit pattern) if this is a Double.
    pub fn as_double(&self) -> (r: Option<&u64>)
        ensures
            r is Some <==> self is Double,
            r is Some ==> *r->Some_0 == self->Double_0,
    {
        match self {
            Value::Double(x) => Some(x),
            _ => None,
        }
    }

    /// Whether this is a Double.
    pub fn is_double(&self) -> (r: bool)
        ensures
            r == self is Double,
    {
        match self {
            Value::Double(_) => true,
            _ => false,
        }
    }

    /// The payload if this is a ByteArray, else the value itself.
    pub fn into_byte_array(self) -> (r: Result<Vec<u8>, Value>)
        ensures
            self is ByteArray ==> r == Ok::<Vec<u8>, Value>(self->ByteArray_0),
            !(self is ByteArray) ==> r == Err::<Vec<u8>, Value>(self),
    {
        match self {
            Value::ByteArray(x) => Ok(x),
            other => Err(other),
        }
    }

    /// A reference to the payload if this is a ByteArray.
    pub fn as_byte_array(&self) -> (r: Option<&Vec<u8>>)
        ensures
            r is Some <==> self is ByteArray,
            r is Some ==> *r->Some_0 == self->ByteArray_0,
    {
        match self {
            Value::ByteArray(x) => Some(x),
            _ => None,
        }
    }

    /// Whether this is a ByteArray.
    pub fn is_byte_array(&self) -> (r: bool)
        ensures
            r == self is ByteArray,
    {
        match self {
            Value::ByteArray(_) => true,
            _ => false,
        }
    }

    /// The payload if this is a String, else the value itself.
    pub fn into_string(self) -> (r: Result<String, Value>)
        ensures
            self is String ==> r == Ok::<String, Value>(self->String_0),
            !(self is String) ==> r == Err::<String, Value>(self),
    {
        match self {
            Value::String(x) => Ok(x),
            other => Err(other),
        }
    }

    /// A reference to the payload if this is a String.
    pub fn as_string(&self) -> (r: Option<&String>)
        ensures
            r is Some <==> self is String,
            r is Some ==> *r->Some_0 == self->String_0,
    {
        match self {
            Value::String(x) => Some(x),
            _ => None,
        }
    }

    /// Whether this is a String.
    pub fn is_string(&self) -> (r: bool)
        ensures
            r == self is String,
    {
        match self {
            Value::String(_) => true,
            _ => false,
        }
    }

    /// The payload if this is a List, else the value itself.
    pub fn into_list(self) -> (r: Result<Vec<Value>, Value>)
        ensures
            self is List ==> r == Ok::<Vec<Value>, Value>(self->List_0),
            !(self is List) ==> r == Err::<Vec<Value>, Value>(self),
    {
        match self {
            Value::List(x) => Ok(x),
            other => Err(other),
        }
    }

    /// A reference to the payload if this is a List.
    pub fn as_list(&self) -> (r: Option<&Vec<Value>>)
        ensures
            r is Some <==> self is List,
            r is Some ==> *r->Some_0 == self->List_0,
    {
        match self {
            Value::List(x) => Some(x),
            _ => None,
        }
    }

    /// Whether this is a List.
    pub fn is_list(&self) -> (r: bool)
        ensures
            r == self is List,
    {
        match self {
            Value::List(_) => true,
            _ => false,
        }
    }

    /// The payload if this is a Compound, else the value itself.
    pub fn into_compound(self) -> (r: Result<Vec<(String, Value)>, Value>)
        ensures
            self is Compound ==> r == Ok::<Vec<(String, Value)>, Value>(self->Compound_0),
            !(self is Compound) ==> r == Err::<Vec<(String, Value)>, Value>(self),
    {
        match self {
            Value::Compound(x) => Ok(x),
            other => Err(other),
        }
    }

    /// A reference to the payload if this is a Compound.
    pub fn as_compound(&self) -> (r: Option<&Vec<(String, Value)>>)
        ensures
            r is Some <==> self is Compound,
            r is Some ==> *r->Some_0 == self->Compound_0,
    {
        match self {
            Value::Compound(x) => Some(x),
            _ => None,
        }
    }

    /// Whether this is a Compound.
    pub fn is_compound(&self) -> (r: bool)
        ensures
            r == self is Compound,
    {
        match self {
            Value::Compound(_) => true,
            _ => false,
        }
    }

    /// The payload if this is a IntArray, else the value itself.
    pub fn into_int_array(self) -> (r: Result<Vec<i32>, Value>)
        ensures
            self is IntArray ==> r == Ok::<Vec<i32>, Value>(self->IntArray_0),
            !(self is IntArray) ==> r == Err::<Vec<i32>, Value>(self),
    {
        match self {
            Value::IntArray(x) => Ok(x),
            other => Err(other),
        }
    }

    /// A reference to the payload if this is a IntArray.
    pub fn as_int_array(&self) -> (r: Option<&Vec<i32>>)
        ensures
            r is Some <==> self is IntArray,
            r is Some ==> *r->Some_0 == self->IntArray_0,
    {
        match self {
            Value::IntArray(x) => Some(x),
            _ => None,
        }
    }

    /// Whether this is a IntArray.
    pub fn is_int_array(&self) -> (r: bool)
        ensures
            r == self is IntArray,
    {
        match self {
            Value::IntArray(_) => true,
            _ => false,
        }
    }

    /// The payload if this is a LongArray, else the value itself.
    pub fn into_long_array(self) -> (r: Result<Vec<i64>, Value>)
        ensures
            self is LongArray ==> r == Ok::<Vec<i64>, Value>(self->LongArray_0),
            !(self is LongArray) ==> r == Err::<Vec<i64>, Value>(self),
    {
        match self {
            Value::LongArray(x) => Ok(x),
            other => Err(other),
        }
    }

    /// A reference to the payload if this is a LongArray.
    pub fn as_long_array(&self) -> (r: Option<&Vec<i64>>)
        ensures
            r is Some <==> self is LongArray,
            r is Some ==> *r->Some_0 == self->LongArray_0,
    {
        match self {
            Value::LongArray(x) => Some(x),
            _ => None,
        }
    }

    /// Whether this is a LongArray.
    pub fn is_long_array(&self) -> (r: bool)
        ensures
            r == self is LongArray,
    {
        match self {
            Value::LongArray(_) => true,
            _ => false,
        }
    }
}

/// The models of a list's elements, element by element.
pub proof fn lemma_trees_of(s: Seq<Value>)
    ensures
        trees_of(s).len() == s.len(),
        forall|i: int| 0 <= i < s.len() ==> #[trigger] trees_of(s)[i] == tree_of(s[i]),
    decreases s.len(),
{
    if s.len() > 0 {
        lemma_trees_of(s.subrange(0, s.len() - 1));
    }
}

/// The models of a compound's entries, entry by entry.
pub proof fn lemma_entry_trees_of(s: Seq<(String, Value)>)
    ensures
        entry_trees_of(s).len() == s.len(),
        forall|i: int|
            0 <= i < s.len() ==> #[trigger] entry_trees_of(s)[i] == (s[i].0@, tree_of(s[i].1)),
    decreases s.len(),
{
    if s.len() > 0 {
        lemma_entry_trees_of(s.subrange(0, s.len() - 1));
    }
}

/// Adding an element at the end adds its model at the end.
pub proof fn lemma_trees_of_push(s: Seq<Value>, v: Value)
    ensures
        trees_of(s.push(v)) == trees_of(s).push(tree_of(v)),
{
    assert(s.push(v).subrange(0, s.len() as int) =~= s);
}

/// Adding an entry at the end adds its model at the end.
pub proof fn lemma_entry_trees_of_push(s: Seq<(String, Value)>, e: (String, Value))
    ensures
        entry_trees_of(s.push(e)) == entry_trees_of(s).push((e.0@, tree_of(e.1))),
{
    assert(s.push(e).subrange(0, s.len() as int) =~= s);
}

/// Replacing an entry replaces its model.
pub proof fn lemma_entry_trees_of_update(s: Seq<(String, Value)>, i: int, e: (String, Value))
    requires
        0 <= i < s.len(),
    ensures
        entry_trees_of(s.update(i, e)) == entry_trees_of(s).update(i, (e.0@, tree_of(e.1))),
{
    lemma_entry_trees_of(s);
    lemma_entry_trees_of(s.update(i, e));
    assert(entry_trees_of(s.update(i, e)) =~= entry_trees_of(s).update(i, (e.0@, tree_of(e.1))));
}

/// Whether a Float bit pattern is a NaN.
pub open spec fn is_nan32(x: u32) -> bool {
    (x & 0x7f80_0000u32) == 0x7f80_0000u32 && (x & 0x007f_ffffu32) != 0
}

/// Whether a Double bit pattern is a NaN.
pub open spec fn is_nan64(x: u64) -> bool {
    (x & 0x7ff0_0000_0000_0000u64) == 0x7ff0_0000_0000_0000u64 && (x & 0x000f_ffff_ffff_ffffu64)
        != 0
}

/// IEEE-754 equality of two Float bit patterns: NaN equals nothing, the two
/// zeros are equal, other values are equal when their bits are.
pub open spec fn float_eq(a: u32, b: u32) -> bool {
    !is_nan32(a) && !is_nan32(b) && (a == b || ((a & 0x7fff_ffffu32) == 0 && (b & 0x7fff_ffffu32)
        == 0))
}

/// IEEE-754 equality of two Double bit patterns.
pub open spec fn double_eq(a: u64, b: u64) -> bool {
    !is_nan64(a) && !is_nan64(b) && (a == b || ((a & 0x7fff_ffff_ffff_ffffu64) == 0 && (b
        & 0x7fff_ffff_ffff_ffffu64) == 0))
}

/// Equality of value trees: the same kind and equal payloads; floats by
/// IEEE-754 equality, lists element by element, compounds by key whatever the
/// order of their entries.
pub open spec fn tree_eq(a: Tree, b: Tree) -> bool
    decreases a, 0nat,
{
    match a {
        Tree::Float(x) => b is Float && float_eq(x, b->Float_0),
        Tree::Double(x) => b is Double && double_eq(x, b->Double_0),
        Tree::List(xs) => b is List && trees_eq(xs, b->List_0),
        Tree::Compound(es) => b is Compound && es.len() == b->Compound_0.len() && entries_found(
            es,
            b->Compound_0,
        ),
        _ => a == b,
    }
}

/// Lists of equal length whose elements are pairwise equal.
pub open spec fn trees_eq(xs: Seq<Tree>, ys: Seq<Tree>) -> bool
    decreases xs, 0nat,
{
    if xs.len() == 0 {
        ys.len() == 0
    } else {
        ys.len() > 0 && tree_eq(xs[0], ys[0]) && trees_eq(
            xs.subrange(1, xs.len() as int),
            ys.subrange(1, ys.len() as int),
        )
    }
}

/// Every entry of `es` has a match in `fs`.
pub open spec fn entries_found(es: Seq<(Seq<char>, Tree)>, fs: Seq<(Seq<char>, Tree)>) -> bool
    decreases es, 0nat,
{
    if es.len() == 0 {
        true
    } else {
        entry_found(es[0], fs) && entries_found(es.subrange(1, es.len() as int), fs)
    }
}

/// `fs` has an entry with the key of `e` and a value equal to that of `e`.
pub open spec fn entry_found(e: (Seq<char>, Tree), fs: Seq<(Seq<char>, Tree)>) -> bool
    decreases e, fs.len(),
{
    if fs.len() == 0 {
        false
    } else {
        (fs[0].0 == e.0 && tree_eq(e.1, fs[0].1)) || entry_found(e, fs.subrange(1, fs.len() as int))
    }
}

fn f32_bits_eq(a: u32, b: u32) -> (r: bool)
    ensures
        r == float_eq(a, b),
{
    let nan_a = (a & 0x7f80_0000u32) == 0x7f80_0000u32 && (a & 0x007f_ffffu32) != 0;
    let nan_b = (b & 0x7f80_0000u32) == 0x7f80_0000u32 && (b & 0x007f_ffffu32) != 0;
    !nan_a && !nan_b && (a == b || ((a & 0x7fff_ffffu32) == 0 && (b & 0x7fff_ffffu32) == 0))
}

fn f64_bits_eq(a: u64, b: u64) -> (r: bool)
    ensures
        r == double_eq(a, b),
{
    let nan_a = (a & 0x7ff0_0000_0000_0000u64) == 0x7ff0_0000_0000_0000u64 && (a
        & 0x000f_ffff_ffff_ffffu64) != 0;
    let nan_b = (b & 0x7ff0_0000_0000_0000u64) == 0x7ff0_0000_0000_0000u64 && (b
        & 0x000f_ffff_ffff_ffffu64) != 0;
    !nan_a && !nan_b && (a == b || ((a & 0x7fff_ffff_ffff_ffffu64) == 0 && (b
        & 0x7fff_ffff_ffff_ffffu64) == 0))
}

fn bytes_eq(a: &Vec<u8>, b: &Vec<u8>) -> (r: bool)
    ensures
        r == (a@ == b@),
{
    if a.len() != b.len() {
        return false;
    }
    let mut i: usize = 0;
    while i < a.len()
        invariant
            a@.len() == b@.len(),
            i <= a@.len(),
            forall|j: int| 0 <= j < i ==> a@[j] == b@[j],
        decreases a@.len() - i,
    {
        if a[i] != b[i] {
            return false;
        }
        i = i + 1;
    }
    assert(a@ =~= b@);
    true
}

fn ints_eq(a: &Vec<i32>, b: &Vec<i32>) -> (r: bool)
    ensures
        r == (a@ == b@),
{
    if a.len() != b.len() {
        return false;
    }
    let mut i: usize = 0;
    while i < a.len()
        invariant
            a@.len() == b@.len(),
            i <= a@.len(),
            forall|j: int| 0 <= j < i ==> a@[j] == b@[j],
        decreases a@.len() - i,
    {
        if a[i] != b[i] {
            return false;
        }
        i = i + 1;
    }
    assert(a@ =~= b@);
    true
}

fn longs_eq(a: &Vec<i64>, b: &Vec<i64>) -> (r: bool)
    ensures
        r == (a@ == b@),
{
    if a.len() != b.len() {
        return false;
    }
    let mut i: usize = 0;
    while i < a.len()
        invariant
            a@.len() == b@.len(),
            i <= a@.len(),
            forall|j: int| 0 <= j < i ==> a@[j] == b@[j],
        decreases a@.len() - i,
    {
        if a[i] != b[i] {
            return false;
        }
        i = i + 1;
    }
    assert(a@ =~= b@);
    true
}

/// Whether two values are equal in the sense of [`tree_eq`].
pub fn value_eq(a: &Value, b: &Value) -> (r: bool)
    ensures
        r == tree_eq(a@, b@),
    decreases a,
{
    match (a, b) {
        (Value::Byte(x), Value::Byte(y)) => *x == *y,
        (Value::Short(x), Value::Short(y)) => *x == *y,
        (Value::Int(x), Value::Int(y)) => *x == *y,
        (Value::Long(x), Value::Long(y)) => *x == *y,
        (Value::Float(x), Value::Float(y)) => f32_bits_eq(*x, *y),
        (Value::Double(x), Value::Double(y)) => f64_bits_eq(*x, *y),
        (Value::ByteArray(x), Value::ByteArray(y)) => bytes_eq(x, y),
        (Value::String(x), Value::String(y)) => x.eq(y),
        (Value::List(xs), Value::List(ys)) => list_eq(xs, ys),
        (Value::Compound(es), Value::Compound(fs)) => {
            proof {
                lemma_entry_trees_of(es@);
                lemma_entry_trees_of(fs@);
            }
            compound_eq(es, fs)
        },
        (Value::IntArray(x), Value::IntArray(y)) => ints_eq(x, y),
        (Value::LongArray(x), Value::LongArray(y)) => longs_eq(x, y),
        _ => false,
    }
}

fn list_eq(xs: &Vec<Value>, ys: &Vec<Value>) -> (r: bool)
    ensures
        r == trees_eq(trees_of(xs@), trees_of(ys@)),
    decreases xs,
{
    let ghost a = trees_of(xs@);
    let ghost b = trees_of(ys@);
    proof {
        lemma_trees_of(xs@);
        lemma_trees_of(ys@);
    }
    if xs.len() != ys.len() {
        proof {
            lemma_trees_eq_len(a, b);
        }
        return false;
    }
    let mut i: usize = 0;
    assert(a.subrange(0, a.len() as int) =~= a);
    assert(b.subrange(0, b.len() as int) =~= b);
    while i < xs.len()
        invariant
            xs@.len() == ys@.len(),
            i <= xs@.len(),
            a == trees_of(xs@),
            b == trees_of(ys@),
            a.len() == xs@.len(),
            b.len() == ys@.len(),
            forall|j: int| 0 <= j < xs@.len() ==> #[trigger] a[j] == xs@[j]@,
            forall|j: int| 0 <= j < ys@.len() ==> #[trigger] b[j] == ys@[j]@,
            trees_eq(a, b) == trees_eq(
                a.subrange(i as int, a.len() as int),
                b.subrange(i as int, b.len() as int),
            ),
        decreases xs@.len() - i,
    {
        let ghost ra = a.subrange(i as int, a.len() as int);
        let ghost rb = b.subrange(i as int, b.len() as int);
        assert(ra.subrange(1, ra.len() as int) =~= a.subrange(i + 1, a.len() as int));
        assert(rb.subrange(1, rb.len() as int) =~= b.subrange(i + 1, b.len() as int));
        assert(ra[0] == xs@[i as int]@ && rb[0] == ys@[i as int]@);
        if !value_eq(&xs[i], &ys[i]) {
            assert(!trees_eq(ra, rb));
            return false;
        }
        assert(trees_eq(ra, rb) == trees_eq(ra.subrange(1, ra.len() as int), rb.subrange(1, rb.len() as int)));
        i = i + 1;
    }
    assert(a.subrange(i as int, a.len() as int).len() == 0);
    true
}

proof fn lemma_trees_eq_len(xs: Seq<Tree>, ys: Seq<Tree>)
    ensures
        trees_eq(xs, ys) ==> xs.len() == ys.len(),
    decreases xs.len(),
{
    if xs.len() > 0 && ys.len() > 0 {
        lemma_trees_eq_len(xs.subrange(1, xs.len() as int), ys.subrange(1, ys.len() as int));
    }
}

/// Whether `fs` has an entry matching `e`.
fn find_entry(e: &(String, Value), fs: &Vec<(String, Value)>) -> (r: bool)
    ensures
        r == entry_found((e.0@, e.1@), entry_trees_of(fs@)),
    decreases e,
{
    let ghost b = entry_trees_of(fs@);
    let ghost key = (e.0@, e.1@);
    proof {
        lemma_entry_trees_of(fs@);
    }
    let mut j: usize = 0;
    assert(b.subrange(0, b.len() as int) =~= b);
    while j < fs.len()
        invariant
            j <= fs@.len(),
            key == (e.0@, e.1@),
            b == entry_trees_of(fs@),
            b.len() == fs@.len(),
            forall|m: int| 0 <= m < fs@.len() ==> #[trigger] b[m] == (fs@[m].0@, fs@[m].1@),
            entry_found(key, b) == entry_found(key, b.subrange(j as int, b.len() as int)),
        decreases fs@.len() - j,
    {
        let ghost rb = b.subrange(j as int, b.len() as int);
        assert(rb.subrange(1, rb.len() as int) =~= b.subrange(j + 1, b.len() as int));
        assert(rb[0] == (fs@[j as int].0@, fs@[j as int].1@));
        if e.0 == fs[j].0 && value_eq(&e.1, &fs[j].1) {
            assert(entry_found(key, rb));
            return true;
        }
        assert(entry_found(key, rb) == entry_found(key, rb.subrange(1, rb.len() as int)));
        j = j + 1;
    }
    false
}

fn compound_eq(es: &Vec<(String, Value)>, fs: &Vec<(String, Value)>) -> (r: bool)
    ensures
        r == (es@.len() == fs@.len() && entries_found(entry_trees_of(es@), entry_trees_of(fs@))),
    decreases es,
{
    let ghost a = entry_trees_of(es@);
    let ghost b = entry_trees_of(fs@);
    proof {
        lemma_entry_trees_of(es@);
        lemma_entry_trees_of(fs@);
    }
    if es.len() != fs.len() {
        return false;
    }
    let mut i: usize = 0;
    assert(a.subrange(0, a.len() as int) =~= a);
    while i < es.len()
        invariant
            es@.len() == fs@.len(),
            i <= es@.len(),
            a == entry_trees_of(es@),
            a.len() == es@.len(),
            b == entry_trees_of(fs@),
            forall|m: int| 0 <= m < es@.len() ==> #[trigger] a[m] == (es@[m].0@, es@[m].1@),
            entries_found(a, b) == entries_found(a.subrange(i as int, a.len() as int), b),
        decreases es@.len() - i,
    {
        let ghost ra = a.subrange(i as int, a.len() as int);
        assert(ra.subrange(1, ra.len() as int) =~= a.subrange(i + 1, a.len() as int));
        assert(ra[0] == (es@[i as int].0@, es@[i as int].1@));
        if !find_entry(&es[i], fs) {
            assert(!entries_found(ra, b));
            return false;
        }
        assert(entries_found(ra, b) == entries_found(ra.subrange(1, ra.len() as int), b));
        i = i + 1;
    }
    true
}

/// A copy of a value, equal in every part.
pub fn deep_clone(v: &Value) -> (r: Value)
    ensures
        r@ == v@,
    decreases v,
{
    match v {
        Value::Byte(x) => Value::Byte(*x),
        Value::Short(x) => Value::Short(*x),
        Value::Int(x) => Value::Int(*x),
        Value::Long(x) => Value::Long(*x),
        Value::Float(x) => Value::Float(*x),
        Value::Double(x) => Value::Double(*x),
        Value::ByteArray(b) => Value::ByteArray(vstd::slice::slice_to_vec(b.as_slice())),
        Value::String(s) => Value::String(s.clone()),
        Value::List(items) => Value::List(clone_list(items)),
        Value::Compound(es) => Value::Compound(clone_entries(es)),
        Value::IntArray(xs) => Value::IntArray(vstd::slice::slice_to_vec(xs.as_slice())),
        Value::LongArray(xs) => Value::LongArray(vstd::slice::slice_to_vec(xs.as_slice())),
    }
}

fn clone_list(items: &Vec<Value>) -> (r: Vec<Value>)
    ensures
        trees_of(r@) == trees_of(items@),
    decreases items,
{
    let mut out: Vec<Value> = Vec::new();
    let mut i: usize = 0;
    while i < items.len()
        invariant
            i <= items@.len(),
            trees_of(out@) == trees_of(items@.subrange(0, i as int)),
        decreases items@.len() - i,
    {
        let c = deep_clone(&items[i]);
        proof {
            lemma_trees_of_push(out@, c);
            lemma_trees_of_push(items@.subrange(0, i as int), items@[i as int]);
            assert(items@.subrange(0, i as int).push(items@[i as int]) =~= items@.subrange(
                0,
                i + 1,
            ));
        }
        out.push(c);
        i = i + 1;
    }
    assert(items@.subrange(0, i as int) =~= items@);
    out
}

fn clone_entries(es: &Vec<(String, Value)>) -> (r: Vec<(String, Value)>)
    ensures
        entry_trees_of(r@) == entry_trees_of(es@),
    decreases es,
{
    let mut out: Vec<(String, Value)> = Vec::new();
    let mut i: usize = 0;
    while i < es.len()
        invariant
            i <= es@.len(),
            entry_trees_of(out@) == entry_trees_of(es@.subrange(0, i as int)),
        decreases es@.len() - i,
    {
        let entry = (es[i].0.clone(), deep_clone(&es[i].1));
        proof {
            lemma_entry_trees_of_push(out@, entry);
            lemma_entry_trees_of_push(es@.subrange(0, i as int), es@[i as int]);
            assert(es@.subrange(0, i as int).push(es@[i as int]) =~= es@.subrange(0, i + 1));
        }
        out.push(entry);
        i = i + 1;
    }
    assert(es@.subrange(0, i as int) =~= es@);
    out
}

impl Clone for Value {
    fn clone(&self) -> Self {
        deep_clone(self)
    }
}

impl PartialEq for Value {
    fn eq(&self, other: &Value) -> (r: bool) {
        value_eq(self, other)
    }
}

impl vstd::std_specs::cmp::PartialEqSpecImpl for Value {
    open spec fn obeys_eq_spec() -> bool {
        false
    }

    open spec fn eq_spec(&self, other: &Value) -> bool {
        tree_eq(self@, other@)
    }
}

} // verus!
