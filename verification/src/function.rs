//! Functions: what is known of them, how arguments are bound, and what a
//! protected call gives back.
use crate::error::{Error, ErrorModel};
use crate::multi::{value_or_nil, MultiValue};
use crate::value::{host_values, HostValue, Value};
use vstd::prelude::*;

verus! {

/// What is known of a function.
#[derive(Debug)]
pub struct FunctionInfo {
    /// A (reasonable) name of the function (`None` if the name cannot be found).
    pub name: Option<String>,
    /// A string `Lua` if the function is a Luau-defined function, `C` if it is
    /// a C function, `main` if it is the main part of a chunk.
    pub what: &'static str,
    /// Source of the chunk that created the function.
    pub source: Option<String>,
    /// A "printable" version of `source`, to be used in error messages.
    pub short_src: Option<String>,
    /// The line number where the definition of the function starts.
    pub line_defined: Option<usize>,
    /// The number of upvalues of the function.
    pub num_upvalues: u8,
    /// The number of parameters of the function (always 0 for C).
    pub num_params: u8,
    /// Whether the function is a variadic function (always true for C).
    pub is_vararg: bool,
}

/// How often the lines of a function were run.
#[derive(Debug)]
pub struct CoverageInfo {
    pub function: Option<String>,
    pub line_defined: i32,
    pub depth: i32,
    pub hits: Vec<i32>,
}

/// What a protected call failed with.
#[derive(Debug)]
pub struct ProtectedCallError {
    /// The value that was raised.
    pub error: Value,
    /// The traceback at the place where it was raised.
    pub traceback: String,
}

/// What the wrapper of a protected call packs into a table.
#[derive(Debug)]
pub struct PackedCall {
    /// Whether the call went well.
    pub ok: bool,
    /// The value that was raised.
    pub error: Value,
    /// The traceback at the place where it was raised.
    pub traceback: String,
    /// The number of packed values, the flag of the call included.
    pub count: Option<usize>,
    /// The packed values behind the flag.
    pub values: Vec<Value>,
}

/// How arguments are bound to a function.
#[derive(Clone, Copy, Debug, PartialEq, Eq, Structural)]
pub enum Binding {
    /// There are none: the function itself is the result.
    Same,
    /// They are captured by a wrapper, so many of them.
    Captured(i32),
}

/// Decides how arguments are bound: no more than a closure can capture.
pub fn bind(args: usize, max_upvalues: usize) -> (r: Result<Binding, Error>)
    ensures
        match r {
            Ok(Binding::Same) => args == 0,
            Ok(Binding::Captured(n)) => 0 < args && args < max_upvalues && n == args,
            Err(e) => 0 < args && (args >= max_upvalues || args > i32::MAX) && e@
                == ErrorModel::BindError,
        },
{
    if args == 0 {
        return Ok(Binding::Same);
    }
    if args >= max_upvalues || args > i32::MAX as usize {
        return Err(Error::BindError);
    }
    Ok(Binding::Captured(args as i32))
}

/// Whether a raised value is handed back as it is; any other one is handed
/// back as the text of its message.
pub open spec fn handed_back(value: HostValue) -> bool {
    value is Nil || value is Boolean || value is Integer || value is Number || value is String
        || value is Table
}

/// Takes the value that a protected call raised.
pub fn captured_error(value: Value, message: Vec<u8>) -> (r: Value)
    ensures
        r@ == (if handed_back(value@) {
            value@
        } else {
            HostValue::String(message@)
        }),
{
    match value {
        Value::Nil => Value::Nil,
        Value::Boolean(b) => Value::Boolean(b),
        Value::Integer(i) => Value::Integer(i),
        Value::Number(n) => Value::Number(n),
        Value::String(s) => Value::String(s),
        Value::Table(t) => Value::Table(t),
        _ => Value::String(message),
    }
}

/// How many values a call returned, by the number of packed ones.
pub open spec fn packed_count(packed: Option<usize>) -> int {
    match packed {
        Some(n) => if n > 0 {
            n - 1
        } else {
            0
        },
        None => 0,
    }
}

/// How many values a protected call returned: the packed result counts its
/// flag too, and says nothing where it was packed without a count.
pub fn returned_count(packed: Option<usize>) -> (r: usize)
    ensures
        r == packed_count(packed),
{
    match packed {
        Some(n) => if n > 0 {
            n - 1
        } else {
            0
        },
        None => 0,
    }
}

/// The result of a protected call: the values that the function returned, with
/// `nil` for the missing ones, or what it raised.
pub fn protected_call(packed: PackedCall) -> (r: Result<MultiValue, ProtectedCallError>)
    ensures
        match r {
            Ok(values) => packed.ok && values@ == Seq::new(
                packed_count(packed.count) as nat,
                |i: int| value_or_nil(host_values(packed.values@), i),
            ),
            Err(e) => !packed.ok && e.error == packed.error && e.traceback == packed.traceback,
        },
{
    if !packed.ok {
        return Err(ProtectedCallError { error: packed.error, traceback: packed.traceback });
    }
    let count: usize = returned_count(packed.count);
    let ghost all = host_values(packed.values@);
    let mut rest = MultiValue::from_vec(packed.values);
    let mut out = MultiValue::new();
    let mut i: usize = 0;
    assert(rest@ =~= all.skip(0));
    assert(out@ =~= Seq::new(0, |k: int| value_or_nil(all, k)));
    while i < count
        invariant
            i <= count,
            rest@ == all.skip(if i < all.len() {
                i as int
            } else {
                all.len() as int
            }),
            out@ == Seq::new(i as nat, |k: int| value_or_nil(all, k)),
        decreases count - i,
    {
        let value = rest.pop_front_or_nil();
        assert(value@ == value_or_nil(all, i as int));
        out.push_back(value);
        i += 1;
        assert(rest@ =~= all.skip(if i < all.len() {
            i as int
        } else {
            all.len() as int
        }));
        assert(out@ =~= Seq::new(i as nat, |k: int| value_or_nil(all, k)));
    }
    Ok(out)
}

} // verus!
