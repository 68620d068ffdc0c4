//! Named, typed registry values.
use vstd::prelude::*;
use crate::order::{lemma_text_order, text_less, text_lt};

verus! {

/// The name of a value: the unnamed default value, or a named one.
#[derive(Debug, PartialEq, Eq)]
pub enum ValueName {
    Default,
    Named(String),
}

/// Mathematical form of a value name: `None` for the default value.
pub type NameV = Option<Seq<char>>;

impl View for ValueName {
    type V = NameV;

    open spec fn view(&self) -> NameV {
        match self {
            ValueName::Default => None,
            ValueName::Named(s) => Some(s@),
        }
    }
}

impl ValueName {
    /// A named value name.
    pub fn named(name: String) -> (r: ValueName)
        ensures
            r@ == Some(name@),
    {
        ValueName::Named(name)
    }

    /// Whether two names are the same (exact, case-sensitive comparison).
    pub fn same_as(&self, other: &ValueName) -> (r: bool)
        ensures
            r == (self@ == other@),
    {
        match (self, other) {
            (ValueName::Default, ValueName::Default) => true,
            (ValueName::Named(a), ValueName::Named(b)) => *a == *b,
            _ => false,
        }
    }
}

/// Order of value names: the default value first, then named values by text order.
pub open spec fn name_lt(a: NameV, b: NameV) -> bool {
    match (a, b) {
        (None, Some(_)) => true,
        (Some(x), Some(y)) => text_lt(x, y),
        _ => false,
    }
}

/// The order on value names is strict, total and transitive.
pub proof fn lemma_name_order(a: NameV, b: NameV, c: NameV)
    ensures
        !name_lt(a, a),
        a != b ==> name_lt(a, b) || name_lt(b, a),
        name_lt(a, b) && name_lt(b, c) ==> name_lt(a, c),
{
    match (a, b, c) {
        (Some(x), Some(y), Some(z)) => lemma_text_order(x, y, z),
        (Some(x), Some(y), None) => lemma_text_order(x, y, x),
        (Some(x), None, _) => lemma_text_order(x, x, x),
        _ => {},
    }
}

impl ValueName {
    /// Whether this name comes before `other` in the order of `name_lt`.
    pub fn less_than(&self, other: &ValueName) -> (r: bool)
        ensures
            r == name_lt(self@, other@),
    {
        match (self, other) {
            (ValueName::Default, ValueName::Named(_)) => true,
            (ValueName::Named(a), ValueName::Named(b)) => text_less(a.as_str(), b.as_str()),
            _ => false,
        }
    }
}

impl Clone for ValueName {
    fn clone(&self) -> (r: Self)
        ensures
            r@ == self@,
    {
        match self {
            ValueName::Default => ValueName::Default,
            ValueName::Named(s) => ValueName::Named(s.clone()),
        }
    }
}

/// The typed payload of a value. `Delete` is the sentinel that marks a value for removal.
#[derive(Debug, PartialEq, Eq)]
pub enum Data {
    Delete,
    Sz(String),
    ExpandSz(String),
    Binary(Vec<u8>),
    Dword(u32),
    DwordBigEndian(u32),
    MultiSz(Vec<String>),
    Qword(u64),
    Hex { kind: u8, bytes: Vec<u8> },
}

/// Mathematical form of a payload.
pub enum DataV {
    Delete,
    Sz(Seq<char>),
    ExpandSz(Seq<char>),
    Binary(Seq<u8>),
    Dword(u32),
    DwordBigEndian(u32),
    MultiSz(Seq<Seq<char>>),
    Qword(u64),
    Hex { kind: u8, bytes: Seq<u8> },
}

/// The character sequences of a list of strings.
pub open spec fn strings_view(v: Seq<String>) -> Seq<Seq<char>> {
    v.map_values(|s: String| s@)
}

impl View for Data {
    type V = DataV;

    open spec fn view(&self) -> DataV {
        match self {
            Data::Delete => DataV::Delete,
            Data::Sz(s) => DataV::Sz(s@),
            Data::ExpandSz(s) => DataV::ExpandSz(s@),
            Data::Binary(b) => DataV::Binary(b@),
            Data::Dword(x) => DataV::Dword(*x),
            Data::DwordBigEndian(x) => DataV::DwordBigEndian(*x),
            Data::MultiSz(v) => DataV::MultiSz(strings_view(v@)),
            Data::Qword(x) => DataV::Qword(*x),
            Data::Hex { kind, bytes } => DataV::Hex { kind: *kind, bytes: bytes@ },
        }
    }
}

fn bytes_equal(a: &Vec<u8>, b: &Vec<u8>) -> (r: bool)
    ensures
        r == (a@ == b@),
{
    if a.len() != b.len() {
        return false;
    }
    let mut i: usize = 0;
    while i < a.len()
        invariant
            a.len() == b.len(),
            i <= a.len(),
            a@.subrange(0, i as int) == b@.subrange(0, i as int),
        decreases a.len() - i,
    {
        if a[i] != b[i] {
            assert(a@[i as int] != b@[i as int]);
            return false;
        }
        assert(a@.subrange(0, i + 1) == a@.subrange(0, i as int).push(a@[i as int]));
        assert(b@.subrange(0, i + 1) == b@.subrange(0, i as int).push(b@[i as int]));
        i = i + 1;
    }
    assert(a@ == a@.subrange(0, a.len() as int));
    assert(b@ == b@.subrange(0, b.len() as int));
    true
}

fn strings_equal(a: &Vec<String>, b: &Vec<String>) -> (r: bool)
    ensures
        r == (strings_view(a@) == strings_view(b@)),
{
    if a.len() != b.len() {
        assert(strings_view(a@).len() != strings_view(b@).len());
        return false;
    }
    let mut i: usize = 0;
    while i < a.len()
        invariant
            a.len() == b.len(),
            i <= a.len(),
            forall|j: int| 0 <= j < i ==> a@[j]@ == b@[j]@,
        decreases a.len() - i,
    {
        if a[i] != b[i] {
            assert(strings_view(a@)[i as int] != strings_view(b@)[i as int]);
            return false;
        }
        i = i + 1;
    }
    assert(strings_view(a@) =~= strings_view(b@));
    true
}

fn strings_clone(a: &Vec<String>) -> (r: Vec<String>)
    ensures
        strings_view(r@) == strings_view(a@),
{
    let mut r: Vec<String> = Vec::new();
    let mut i: usize = 0;
    while i < a.len()
        invariant
            i <= a.len(),
            r@.len() == i,
            forall|j: int| 0 <= j < i ==> r@[j]@ == a@[j]@,
        decreases a.len() - i,
    {
        r.push(a[i].clone());
        i = i + 1;
    }
    assert(strings_view(r@) =~= strings_view(a@));
    r
}

fn bytes_clone(a: &Vec<u8>) -> (r: Vec<u8>)
    ensures
        r@ == a@,
{
    let r = a.clone();
    assert(r@ =~= a@);
    r
}

impl Data {
    /// Structural equality: same kind and same payload.
    pub fn same_as(&self, other: &Data) -> (r: bool)
        ensures
            r == (self@ == other@),
    {
        match (self, other) {
            (Data::Delete, Data::Delete) => true,
            (Data::Sz(a), Data::Sz(b)) => *a == *b,
            (Data::ExpandSz(a), Data::ExpandSz(b)) => *a == *b,
            (Data::Binary(a), Data::Binary(b)) => bytes_equal(a, b),
            (Data::Dword(a), Data::Dword(b)) => *a == *b,
            (Data::DwordBigEndian(a), Data::DwordBigEndian(b)) => *a == *b,
            (Data::MultiSz(a), Data::MultiSz(b)) => strings_equal(a, b),
            (Data::Qword(a), Data::Qword(b)) => *a == *b,
            (Data::Hex { kind: k1, bytes: b1 }, Data::Hex { kind: k2, bytes: b2 }) => *k1 == *k2
                && bytes_equal(b1, b2),
            _ => false,
        }
    }
}

impl Clone for Data {
    fn clone(&self) -> (r: Self)
        ensures
            r@ == self@,
    {
        match self {
            Data::Delete => Data::Delete,
            Data::Sz(s) => Data::Sz(s.clone()),
            Data::ExpandSz(s) => Data::ExpandSz(s.clone()),
            Data::Binary(b) => Data::Binary(bytes_clone(b)),
            Data::Dword(x) => Data::Dword(*x),
            Data::DwordBigEndian(x) => Data::DwordBigEndian(*x),
            Data::MultiSz(v) => Data::MultiSz(strings_clone(v)),
            Data::Qword(x) => Data::Qword(*x),
            Data::Hex { kind, bytes } => Data::Hex { kind: *kind, bytes: bytes_clone(bytes) },
        }
    }
}

/// A named, typed value of a registry key.
#[derive(Debug, PartialEq, Eq)]
pub struct Value {
    name: ValueName,
    value: Data,
}

/// Mathematical form of a value: its name and its payload.
pub type ValueV = (NameV, DataV);

impl View for Value {
    type V = ValueV;

    closed spec fn view(&self) -> ValueV {
        (self.name@, self.value@)
    }
}

impl Value {
    /// A value with the given name and payload.
    pub fn new(name: ValueName, value: Data) -> (r: Value)
        ensures
            r@ == (name@, value@),
    {
        Value { name, value }
    }

    /// The value's name.
    pub fn name(&self) -> (r: &ValueName)
        ensures
            r@ == self@.0,
    {
        &self.name
    }

    /// The value's payload.
    pub fn value(&self) -> (r: &Data)
        ensures
            r@ == self@.1,
    {
        &self.value
    }

    /// The value split into its name and payload.
    pub fn into_parts(self) -> (r: (ValueName, Data))
        ensures
            r.0@ == self@.0,
            r.1@ == self@.1,
    {
        (self.name, self.value)
    }

    /// The value's name with the delete sentinel in place of its payload.
    pub fn into_deleted_value(self) -> (r: (ValueName, Data))
        ensures
            r.0@ == self@.0,
            r.1@ == DataV::Delete,
    {
        (self.name, Data::Delete)
    }

    /// Whether two values have the same name and the same payload.
    pub fn same_as(&self, other: &Value) -> (r: bool)
        ensures
            r == (self@ == other@),
    {
        self.name.same_as(&other.name) && self.value.same_as(&other.value)
    }
}

impl Clone for Value {
    fn clone(&self) -> (r: Self)
        ensures
            r@ == self@,
    {
        Value { name: self.name.clone(), value: self.value.clone() }
    }
}

} // verus!
