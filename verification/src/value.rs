//! Values that pass between a virtual machine and its host.
use crate::error::{Error, ErrorModel};
use vstd::prelude::*;

verus! {

/// A Luau value. Floating-point payloads are kept as their bit patterns, and
/// what lives in the machine by the number of its reference.
#[derive(Debug)]
pub enum Value {
    Nil,
    Boolean(bool),
    LightUserData(u64),
    Integer(i64),
    Number(u64),
    Vector([u32; 3]),
    String(Vec<u8>),
    Table(u64),
    Function(u64),
    Thread(u64),
    UserData(u64),
    Buffer(Vec<u8>),
    Error(Box<Error>),
}

/// Model of a [`Value`].
pub enum HostValue {
    Nil,
    Boolean(bool),
    LightUserData(u64),
    Integer(i64),
    Number(u64),
    Vector([u32; 3]),
    String(Seq<u8>),
    Table(u64),
    Function(u64),
    Thread(u64),
    UserData(u64),
    Buffer(Seq<u8>),
    Error(ErrorModel),
}

impl Value {
    pub open spec fn view(&self) -> HostValue {
        match self {
            Value::Nil => HostValue::Nil,
            Value::Boolean(b) => HostValue::Boolean(*b),
            Value::LightUserData(p) => HostValue::LightUserData(*p),
            Value::Integer(i) => HostValue::Integer(*i),
            Value::Number(n) => HostValue::Number(*n),
            Value::Vector(v) => HostValue::Vector(*v),
            Value::String(b) => HostValue::String(b@),
            Value::Table(t) => HostValue::Table(*t),
            Value::Function(f) => HostValue::Function(*f),
            Value::Thread(t) => HostValue::Thread(*t),
            Value::UserData(u) => HostValue::UserData(*u),
            Value::Buffer(b) => HostValue::Buffer(b@),
            Value::Error(e) => HostValue::Error(e@),
        }
    }

    /// The value that stands for an absent one where `nil` cannot.
    pub fn null() -> (r: Self)
        ensures
            r@ == HostValue::LightUserData(0),
    {
        Value::LightUserData(0)
    }
}

/// The models of a list of values.
pub open spec fn host_values(v: Seq<Value>) -> Seq<HostValue> {
    v.map_values(|x: Value| x@)
}

} // verus!
