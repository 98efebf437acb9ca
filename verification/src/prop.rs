//! Property values and their kinds.

use std::collections::HashMap;
use std::sync::Arc;
use vstd::prelude::*;

verus! {

/// The kind of a property value. `Empty` is the kind of a property that
/// has no value yet.
#[derive(Copy, Clone, Debug, PartialEq, Eq, Hash, Structural)]
pub enum PropType {
    Empty,
    Str,
    U8,
    U16,
    I32,
    I64,
    U32,
    U64,
    F32,
    F64,
    Bool,
    List,
    Dict,
    NDTime,
    Graph,
    PersistentGraph,
    Document,
    DTime,
}

/// A single-precision number, held as its IEEE 754 bit pattern.
#[derive(Copy, Clone, Debug, PartialEq, Eq, Hash, Structural)]
pub struct Float32 {
    pub bits: u32,
}

impl Float32 {
    pub fn from_bits(bits: u32) -> (r: Float32)
        ensures
            r.bits == bits,
    {
        Float32 { bits }
    }

    pub fn to_bits(&self) -> (bits: u32)
        ensures
            bits == self.bits,
    {
        self.bits
    }
}

/// A double-precision number, held as its IEEE 754 bit pattern.
#[derive(Copy, Clone, Debug, PartialEq, Eq, Hash, Structural)]
pub struct Float64 {
    pub bits: u64,
}

impl Float64 {
    pub fn from_bits(bits: u64) -> (r: Float64)
        ensures
            r.bits == bits,
    {
        Float64 { bits }
    }

    pub fn to_bits(&self) -> (bits: u64)
        ensures
            bits == self.bits,
    {
        self.bits
    }
}

/// A date and time in UTC: whole seconds since the Unix epoch and the
/// nanoseconds into that second.
#[derive(Copy, Clone, Debug, PartialEq, Eq, Hash, Structural)]
pub struct DTime {
    pub secs: i64,
    pub nanos: u32,
}

/// A date and time without a time zone, counted like `DTime`.
#[derive(Copy, Clone, Debug, PartialEq, Eq, Hash, Structural)]
pub struct NDTime {
    pub secs: i64,
    pub nanos: u32,
}

/// Names a graph that is stored as a property value. The graph itself is
/// owned by whoever handed out the handle.
#[derive(Copy, Clone, Debug, PartialEq, Eq, Hash, Structural)]
pub struct GraphHandle(pub u64);

/// Names a graph with deletions that is stored as a property value.
#[derive(Copy, Clone, Debug, PartialEq, Eq, Hash, Structural)]
pub struct PersistentGraphHandle(pub u64);

/// For how long a document is valid.
#[derive(Copy, Clone, Debug, PartialEq, Eq, Hash, Structural)]
pub enum Lifespan {
    Interval { start: i64, end: i64 },
    Event { time: i64 },
    Inherited,
}

/// A text document with its lifespan.
#[derive(Debug, PartialEq, Eq, Hash)]
pub struct DocumentInput {
    pub content: String,
    pub life: Lifespan,
}

impl Clone for DocumentInput {
    fn clone(&self) -> (r: Self)
        ensures
            r == *self,
    {
        DocumentInput { content: self.content.clone(), life: self.life }
    }
}

/// `Arc::clone`: a second handle to the value that `a` points to.
#[verifier::external_body]
pub(crate) fn share<T>(a: &Arc<T>) -> (r: Arc<T>)
    ensures
        r == *a,
{
    Arc::clone(a)
}

/// A property value: one variant per supported kind.
#[derive(Debug, PartialEq)]
pub enum Prop {
    Str(String),
    U8(u8),
    U16(u16),
    I32(i32),
    I64(i64),
    U32(u32),
    U64(u64),
    F32(Float32),
    F64(Float64),
    Bool(bool),
    List(Arc<Vec<Prop>>),
    Dict(Arc<HashMap<String, Prop>>),
    NDTime(NDTime),
    DTime(DTime),
    Graph(GraphHandle),
    PersistentGraph(PersistentGraphHandle),
    Document(DocumentInput),
}

impl Clone for Prop {
    fn clone(&self) -> (r: Self)
        ensures
            r == *self,
    {
        match self {
            Prop::Str(v) => Prop::Str(v.clone()),
            Prop::U8(v) => Prop::U8(*v),
            Prop::U16(v) => Prop::U16(*v),
            Prop::I32(v) => Prop::I32(*v),
            Prop::I64(v) => Prop::I64(*v),
            Prop::U32(v) => Prop::U32(*v),
            Prop::U64(v) => Prop::U64(*v),
            Prop::F32(v) => Prop::F32(*v),
            Prop::F64(v) => Prop::F64(*v),
            Prop::Bool(v) => Prop::Bool(*v),
            Prop::List(v) => Prop::List(share(v)),
            Prop::Dict(v) => Prop::Dict(share(v)),
            Prop::NDTime(v) => Prop::NDTime(*v),
            Prop::DTime(v) => Prop::DTime(*v),
            Prop::Graph(v) => Prop::Graph(*v),
            Prop::PersistentGraph(v) => Prop::PersistentGraph(*v),
            Prop::Document(v) => Prop::Document(v.clone()),
        }
    }
}

impl Prop {
    /// The kind of the value.
    pub open spec fn spec_dtype(self) -> PropType {
        match self {
            Prop::Str(_) => PropType::Str,
            Prop::U8(_) => PropType::U8,
            Prop::U16(_) => PropType::U16,
            Prop::I32(_) => PropType::I32,
            Prop::I64(_) => PropType::I64,
            Prop::U32(_) => PropType::U32,
            Prop::U64(_) => PropType::U64,
            Prop::F32(_) => PropType::F32,
            Prop::F64(_) => PropType::F64,
            Prop::Bool(_) => PropType::Bool,
            Prop::List(_) => PropType::List,
            Prop::Dict(_) => PropType::Dict,
            Prop::NDTime(_) => PropType::NDTime,
            Prop::DTime(_) => PropType::DTime,
            Prop::Graph(_) => PropType::Graph,
            Prop::PersistentGraph(_) => PropType::PersistentGraph,
            Prop::Document(_) => PropType::Document,
        }
    }

    pub fn dtype(&self) -> (k: PropType)
        ensures
            k == self.spec_dtype(),
            k != PropType::Empty,
    {
        match self {
            Prop::Str(_) => PropType::Str,
            Prop::U8(_) => PropType::U8,
            Prop::U16(_) => PropType::U16,
            Prop::I32(_) => PropType::I32,
            Prop::I64(_) => PropType::I64,
            Prop::U32(_) => PropType::U32,
            Prop::U64(_) => PropType::U64,
            Prop::F32(_) => PropType::F32,
            Prop::F64(_) => PropType::F64,
            Prop::Bool(_) => PropType::Bool,
            Prop::List(_) => PropType::List,
            Prop::Dict(_) => PropType::Dict,
            Prop::NDTime(_) => PropType::NDTime,
            Prop::DTime(_) => PropType::DTime,
            Prop::Graph(_) => PropType::Graph,
            Prop::PersistentGraph(_) => PropType::PersistentGraph,
            Prop::Document(_) => PropType::Document,
        }
    }

    /// Whether `p` is a text value that spells `s`.
    pub open spec fn spells(p: Prop, s: Seq<char>) -> bool {
        p matches Prop::Str(v) && v@ == s
    }

    /// The text value that spells `s`.
    pub fn str(s: &str) -> (p: Prop)
        ensures
            Prop::spells(p, s@),
    {
        Prop::Str(s.to_owned())
    }
}

/// A type that is the content of exactly one kind of property value.
pub trait PropValue: Sized {
    /// The property value that holds `self`.
    spec fn wrap(self) -> Prop;

    /// A property value that holds a copy of `self`.
    fn to_prop(&self) -> (p: Prop)
        ensures
            p == self.wrap(),
    ;
}

impl PropValue for String {
    open spec fn wrap(self) -> Prop {
        Prop::Str(self)
    }

    fn to_prop(&self) -> (p: Prop) {
        Prop::Str(self.clone())
    }
}

impl PropValue for u8 {
    open spec fn wrap(self) -> Prop {
        Prop::U8(self)
    }

    fn to_prop(&self) -> (p: Prop) {
        Prop::U8(*self)
    }
}

impl PropValue for u16 {
    open spec fn wrap(self) -> Prop {
        Prop::U16(self)
    }

    fn to_prop(&self) -> (p: Prop) {
        Prop::U16(*self)
    }
}

impl PropValue for i32 {
    open spec fn wrap(self) -> Prop {
        Prop::I32(self)
    }

    fn to_prop(&self) -> (p: Prop) {
        Prop::I32(*self)
    }
}

impl PropValue for i64 {
    open spec fn wrap(self) -> Prop {
        Prop::I64(self)
    }

    fn to_prop(&self) -> (p: Prop) {
        Prop::I64(*self)
    }
}

impl PropValue for u32 {
    open spec fn wrap(self) -> Prop {
        Prop::U32(self)
    }

    fn to_prop(&self) -> (p: Prop) {
        Prop::U32(*self)
    }
}

impl PropValue for u64 {
    open spec fn wrap(self) -> Prop {
        Prop::U64(self)
    }

    fn to_prop(&self) -> (p: Prop) {
        Prop::U64(*self)
    }
}

impl PropValue for Float32 {
    open spec fn wrap(self) -> Prop {
        Prop::F32(self)
    }

    fn to_prop(&self) -> (p: Prop) {
        Prop::F32(*self)
    }
}

impl PropValue for Float64 {
    open spec fn wrap(self) -> Prop {
        Prop::F64(self)
    }

    fn to_prop(&self) -> (p: Prop) {
        Prop::F64(*self)
    }
}

impl PropValue for bool {
    open spec fn wrap(self) -> Prop {
        Prop::Bool(self)
    }

    fn to_prop(&self) -> (p: Prop) {
        Prop::Bool(*self)
    }
}

impl PropValue for Arc<Vec<Prop>> {
    open spec fn wrap(self) -> Prop {
        Prop::List(self)
    }

    fn to_prop(&self) -> (p: Prop) {
        Prop::List(share(self))
    }
}

impl PropValue for Arc<HashMap<String, Prop>> {
    open spec fn wrap(self) -> Prop {
        Prop::Dict(self)
    }

    fn to_prop(&self) -> (p: Prop) {
        Prop::Dict(share(self))
    }
}

impl PropValue for NDTime {
    open spec fn wrap(self) -> Prop {
        Prop::NDTime(self)
    }

    fn to_prop(&self) -> (p: Prop) {
        Prop::NDTime(*self)
    }
}

impl PropValue for DTime {
    open spec fn wrap(self) -> Prop {
        Prop::DTime(self)
    }

    fn to_prop(&self) -> (p: Prop) {
        Prop::DTime(*self)
    }
}

impl PropValue for GraphHandle {
    open spec fn wrap(self) -> Prop {
        Prop::Graph(self)
    }

    fn to_prop(&self) -> (p: Prop) {
        Prop::Graph(*self)
    }
}

impl PropValue for PersistentGraphHandle {
    open spec fn wrap(self) -> Prop {
        Prop::PersistentGraph(self)
    }

    fn to_prop(&self) -> (p: Prop) {
        Prop::PersistentGraph(*self)
    }
}

impl PropValue for DocumentInput {
    open spec fn wrap(self) -> Prop {
        Prop::Document(self)
    }

    fn to_prop(&self) -> (p: Prop) {
        Prop::Document(self.clone())
    }
}

impl From<String> for Prop {
    fn from(value: String) -> (r: Prop) {
        Prop::Str(value)
    }
}

impl vstd::std_specs::convert::FromSpecImpl<String> for Prop {
    open spec fn obeys_from_spec() -> bool {
        true
    }

    open spec fn from_spec(value: String) -> Prop {
        Prop::Str(value)
    }
}

impl From<u8> for Prop {
    fn from(value: u8) -> (r: Prop) {
        Prop::U8(value)
    }
}

impl vstd::std_specs::convert::FromSpecImpl<u8> for Prop {
    open spec fn obeys_from_spec() -> bool {
        true
    }

    open spec fn from_spec(value: u8) -> Prop {
        Prop::U8(value)
    }
}

impl From<u16> for Prop {
    fn from(value: u16) -> (r: Prop) {
        Prop::U16(value)
    }
}

impl vstd::std_specs::convert::FromSpecImpl<u16> for Prop {
    open spec fn obeys_from_spec() -> bool {
        true
    }

    open spec fn from_spec(value: u16) -> Prop {
        Prop::U16(value)
    }
}

impl From<i32> for Prop {
    fn from(value: i32) -> (r: Prop) {
        Prop::I32(value)
    }
}

impl vstd::std_specs::convert::FromSpecImpl<i32> for Prop {
    open spec fn obeys_from_spec() -> bool {
        true
    }

    open spec fn from_spec(value: i32) -> Prop {
        Prop::I32(value)
    }
}

impl From<i64> for Prop {
    fn from(value: i64) -> (r: Prop) {
        Prop::I64(value)
    }
}

impl vstd::std_specs::convert::FromSpecImpl<i64> for Prop {
    open spec fn obeys_from_spec() -> bool {
        true
    }

    open spec fn from_spec(value: i64) -> Prop {
        Prop::I64(value)
    }
}

impl From<u32> for Prop {
    fn from(value: u32) -> (r: Prop) {
        Prop::U32(value)
    }
}

impl vstd::std_specs::convert::FromSpecImpl<u32> for Prop {
    open spec fn obeys_from_spec() -> bool {
        true
    }

    open spec fn from_spec(value: u32) -> Prop {
        Prop::U32(value)
    }
}

impl From<u64> for Prop {
    fn from(value: u64) -> (r: Prop) {
        Prop::U64(value)
    }
}

impl vstd::std_specs::convert::FromSpecImpl<u64> for Prop {
    open spec fn obeys_from_spec() -> bool {
        true
    }

    open spec fn from_spec(value: u64) -> Prop {
        Prop::U64(value)
    }
}

impl From<bool> for Prop {
    fn from(value: bool) -> (r: Prop) {
        Prop::Bool(value)
    }
}

impl vstd::std_specs::convert::FromSpecImpl<bool> for Prop {
    open spec fn obeys_from_spec() -> bool {
        true
    }

    open spec fn from_spec(value: bool) -> Prop {
        Prop::Bool(value)
    }
}

impl<'a> From<&'a str> for Prop {
    /// The text value that spells `value`.
    fn from(value: &'a str) -> (r: Prop) {
        Prop::str(value)
    }
}

impl<'a> vstd::std_specs::convert::FromSpecImpl<&'a str> for Prop {
    /// Two strings of the same characters need not be the same value, so
    /// the conversion is described only up to the characters.
    open spec fn obeys_from_spec() -> bool {
        false
    }

    /// Some text value that spells `value`.
    open spec fn from_spec(value: &'a str) -> Prop {
        choose|p: Prop| Prop::spells(p, value@)
    }
}

} // verus!
