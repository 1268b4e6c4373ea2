//! Conversions between Luau values and Rust values: what is accepted, and how
//! a refusal is reported.
//!
//! What only the machine can do to a value, such as writing a number as a
//! string, is an argument here; so is the name of the value's type.
use crate::error::{Error, ErrorModel};
use crate::text::{chars_of, decimal, decimal_text, string_of, utf8_fault, utf8_text};
use crate::value::{HostValue, Value};
use num_traits::cast;
use vstd::prelude::*;
use vstd::string::*;
use vstd::utf8::{
    decode_utf8, encode_utf8, encode_utf8_decode_utf8, encode_utf8_valid_utf8, valid_utf8,
};

verus! {

/// A refused conversion.
pub open spec fn refused(from: Seq<char>, to: Seq<char>, message: Seq<char>) -> ErrorModel {
    ErrorModel::FromLuauConversionError { from, to, message: Some(message) }
}

/// A refused conversion without more to say of it.
pub open spec fn refused_plainly(from: Seq<char>, to: Seq<char>) -> ErrorModel {
    ErrorModel::FromLuauConversionError { from, to, message: None }
}

/// Builds a refusal.
fn refuse(from: &'static str, to: &str, message: &str) -> (r: Error)
    ensures
        r@ == refused(from@, to@, message@),
{
    Error::from_luau_conversion(from, to, Some(message.to_owned()))
}

/// An integer type of Rust.
#[derive(Clone, Copy, Debug, PartialEq, Eq, Structural)]
pub enum IntType {
    I8,
    U8,
    I16,
    U16,
    I32,
    U32,
    I64,
    U64,
    I128,
    U128,
    Isize,
    Usize,
}

impl IntType {
    /// The least value of the type.
    pub open spec fn least(self) -> int {
        match self {
            IntType::I8 => i8::MIN as int,
            IntType::I16 => i16::MIN as int,
            IntType::I32 => i32::MIN as int,
            IntType::I64 => i64::MIN as int,
            IntType::I128 => i128::MIN as int,
            IntType::Isize => isize::MIN as int,
            _ => 0,
        }
    }

    /// The greatest value of the type.
    pub open spec fn greatest(self) -> int {
        match self {
            IntType::I8 => i8::MAX as int,
            IntType::U8 => u8::MAX as int,
            IntType::I16 => i16::MAX as int,
            IntType::U16 => u16::MAX as int,
            IntType::I32 => i32::MAX as int,
            IntType::U32 => u32::MAX as int,
            IntType::I64 => i64::MAX as int,
            IntType::U64 => u64::MAX as int,
            IntType::I128 => i128::MAX as int,
            IntType::U128 => u128::MAX as int,
            IntType::Isize => isize::MAX as int,
            IntType::Usize => usize::MAX as int,
        }
    }

    /// The name of the type.
    pub open spec fn label(self) -> Seq<char> {
        match self {
            IntType::I8 => "i8"@,
            IntType::U8 => "u8"@,
            IntType::I16 => "i16"@,
            IntType::U16 => "u16"@,
            IntType::I32 => "i32"@,
            IntType::U32 => "u32"@,
            IntType::I64 => "i64"@,
            IntType::U64 => "u64"@,
            IntType::I128 => "i128"@,
            IntType::U128 => "u128"@,
            IntType::Isize => "isize"@,
            IntType::Usize => "usize"@,
        }
    }

    /// The name of the type.
    pub fn name(self) -> (r: &'static str)
        ensures
            r@ == self.label(),
    {
        match self {
            IntType::I8 => "i8",
            IntType::U8 => "u8",
            IntType::I16 => "i16",
            IntType::U16 => "u16",
            IntType::I32 => "i32",
            IntType::U32 => "u32",
            IntType::I64 => "i64",
            IntType::U64 => "u64",
            IntType::I128 => "i128",
            IntType::U128 => "u128",
            IntType::Isize => "isize",
            IntType::Usize => "usize",
        }
    }

    /// Tests whether the type holds an integer.
    pub fn holds(self, i: i64) -> (r: bool)
        ensures
            r == (self.least() <= i <= self.greatest()),
    {
        match self {
            IntType::I8 => -128 <= i && i <= 127,
            IntType::U8 => 0 <= i && i <= 255,
            IntType::I16 => -32768 <= i && i <= 32767,
            IntType::U16 => 0 <= i && i <= 65535,
            IntType::I32 => -2147483648 <= i && i <= 2147483647,
            IntType::U32 => 0 <= i && i <= 4294967295,
            IntType::I64 => true,
            IntType::U64 => 0 <= i,
            IntType::I128 => true,
            IntType::U128 => 0 <= i,
            IntType::Isize => isize::MIN as i64 <= i && i <= isize::MAX as i64,
            IntType::Usize => 0 <= i && i as u64 <= usize::MAX as u64,
        }
    }
}

/// What the machine makes of a value that is no number, where an integer or a
/// number is wanted.
#[derive(Clone, Copy, Debug)]
pub struct Coerced {
    pub integer: Option<i64>,
    pub number: Option<u64>,
}

/// What an integer is converted from.
#[derive(Clone, Copy, Debug, PartialEq, Eq, Structural)]
pub enum IntegerSource {
    /// An integer that the wanted type holds.
    Integer(i64),
    /// The bits of a floating-point number, which is still to be converted.
    Number(u64),
}

/// What an integer is converted from, if anything.
pub open spec fn integer_source(value: HostValue, coerced: Coerced) -> Option<IntegerSource> {
    match value {
        HostValue::Integer(i) => Some(IntegerSource::Integer(i)),
        HostValue::Number(n) => Some(IntegerSource::Number(n)),
        _ => match (coerced.integer, coerced.number) {
            (Some(i), _) => Some(IntegerSource::Integer(i)),
            (None, Some(n)) => Some(IntegerSource::Number(n)),
            (None, None) => None,
        },
    }
}

/// What converting a value to an integer type gives.
pub open spec fn integer_of(
    value: HostValue,
    ty: Seq<char>,
    target: IntType,
    coerced: Coerced,
) -> Result<IntegerSource, ErrorModel> {
    match integer_source(value, coerced) {
        None => Err(
            refused(ty, target.label(), "expected number or string coercible to number"@),
        ),
        Some(IntegerSource::Number(n)) => Ok(IntegerSource::Number(n)),
        Some(IntegerSource::Integer(i)) => if target.least() <= i <= target.greatest() {
            Ok(IntegerSource::Integer(i))
        } else {
            Err(refused(ty, target.label(), "out of range"@))
        },
    }
}

/// The failure of a number that an integer type does not hold.
pub fn out_of_range(ty: &'static str, target: IntType) -> (r: Error)
    ensures
        r@ == refused(ty@, target.label(), "out of range"@),
{
    refuse(ty, target.name(), "out of range")
}

/// Converts a value to an integer type.
pub fn integer_from_luau(value: &Value, ty: &'static str, target: IntType, coerced: Coerced) -> (r:
    Result<IntegerSource, Error>)
    ensures
        match r {
            Ok(source) => integer_of(value@, ty@, target, coerced) == Ok::<_, ErrorModel>(source),
            Err(e) => integer_of(value@, ty@, target, coerced) == Err::<IntegerSource, _>(e@),
        },
{
    let i: i64 = match value {
        Value::Integer(i) => *i,
        Value::Number(n) => {
            return Ok(IntegerSource::Number(*n));
        },
        _ => match (coerced.integer, coerced.number) {
            (Some(i), _) => i,
            (None, Some(n)) => {
                return Ok(IntegerSource::Number(n));
            },
            (None, None) => {
                return Err(
                    refuse(ty, target.name(), "expected number or string coercible to number"),
                );
            },
        },
    };
    if target.holds(i) {
        Ok(IntegerSource::Integer(i))
    } else {
        Err(out_of_range(ty, target))
    }
}

/// The value of an integer, unless it takes a floating-point number.
pub fn integer_into_luau(n: i128) -> (r: Option<Value>)
    ensures
        match r {
            Some(v) => i64::MIN <= n <= i64::MAX && v@ == HostValue::Integer(n as i64),
            None => !(i64::MIN <= n <= i64::MAX),
        },
{
    if i64::MIN as i128 <= n && n <= i64::MAX as i128 {
        Some(Value::Integer(n as i64))
    } else {
        None
    }
}

/// A number that a Rust integer was converted to and that is converted back to
/// its type is the same number.
pub proof fn law_integer_round_trip(n: i64, ty: Seq<char>, target: IntType, coerced: Coerced)
    requires
        target.least() <= n <= target.greatest(),
    ensures
        integer_of(HostValue::Integer(n), ty, target, coerced) == Ok::<_, ErrorModel>(
            IntegerSource::Integer(n),
        ),
{
}

/// Calls `num_traits::cast` from `i64` to `u32`: the same number, where the
/// type holds it.
#[verifier::external_body]
fn cast_to_u32(i: i64) -> (r: Option<u32>)
    ensures
        match r {
            Some(n) => n == i,
            None => i < 0 || i > u32::MAX,
        },
{
    cast::<i64, u32>(i)
}

/// Whether a number is that of a character.
pub open spec fn scalar_value(n: int) -> bool {
    0 <= n <= 0xd7ff || 0xe000 <= n <= 0x10ffff
}

/// Calls `char::from_u32`: the character of a Unicode scalar value.
#[verifier::external_body]
fn char_of(n: u32) -> (r: Option<char>)
    ensures
        match r {
            Some(c) => scalar_value(n as int) && c as int == n,
            None => !scalar_value(n as int),
        },
{
    char::from_u32(n)
}

/// What a character is converted from.
pub enum CharSource<'a> {
    Integer(i64),
    Text(&'a str),
    Other,
}

/// What converting to a character gives.
pub open spec fn char_result(source: CharSource<'_>, ty: Seq<char>) -> Result<char, ErrorModel> {
    match source {
        CharSource::Integer(i) => if scalar_value(i as int) {
            Ok(i as char)
        } else {
            Err(refused(ty, "char"@, "integer out of range when converting to char"@))
        },
        CharSource::Text(s) => if s@.len() == 1 {
            Ok(s@[0])
        } else {
            Err(
                refused(
                    ty,
                    "char"@,
                    "expected string to have exactly one char when converting to char"@,
                ),
            )
        },
        CharSource::Other => Err(refused(ty, "char"@, "expected string or integer"@)),
    }
}

/// Converts to a character: from the number of one, or from a text of one.
pub fn char_from_luau(source: CharSource<'_>, ty: &'static str) -> (r: Result<char, Error>)
    ensures
        match r {
            Ok(c) => char_result(source, ty@) == Ok::<_, ErrorModel>(c),
            Err(e) => char_result(source, ty@) == Err::<char, _>(e@),
        },
{
    match source {
        CharSource::Integer(i) => {
            let found = match cast_to_u32(i) {
                Some(n) => char_of(n),
                None => None,
            };
            match found {
                Some(c) => {
                    assert(c as int == i);
                    Ok(c)
                },
                None => Err(
                    refuse(ty, "char", "integer out of range when converting to char"),
                ),
            }
        },
        CharSource::Text(s) => {
            let chars: Vec<char> = chars_of(s);
            if chars.len() == 1 {
                Ok(chars[0])
            } else {
                Err(
                    refuse(
                        ty,
                        "char",
                        "expected string to have exactly one char when converting to char",
                    ),
                )
            }
        },
        CharSource::Other => Err(refuse(ty, "char", "expected string or integer")),
    }
}

/// The value of a character: a string of it alone.
pub fn char_into_luau(c: char) -> (r: Value)
    ensures
        r@ == HostValue::String(encode_utf8(seq![c])),
{
    let mut chars: Vec<char> = Vec::new();
    chars.push(c);
    let text = string_of(chars.as_slice());
    assert(text@ =~= seq![c]);
    Value::String(text.as_str().as_bytes_vec())
}

/// A character that was converted to a string comes back.
pub proof fn law_char_round_trip(c: char, ty: Seq<char>, s: &str)
    requires
        s@ == seq![c],
    ensures
        char_result(CharSource::Text(s), ty) == Ok::<_, ErrorModel>(c),
{
}

/// Converts to a boolean: only `nil` and `false` are false.
pub fn bool_from_luau(value: &Value) -> (r: bool)
    ensures
        r == !(value@ == HostValue::Nil || value@ == HostValue::Boolean(false)),
{
    match value {
        Value::Nil => false,
        Value::Boolean(b) => *b,
        _ => true,
    }
}

/// What converting the bytes of a string to a text gives; `None` stands for a
/// value that the machine does not write as a string.
pub open spec fn text_result(bytes: Option<Seq<u8>>, ty: Seq<char>, target: Seq<char>) -> Result<
    Seq<char>,
    ErrorModel,
> {
    match bytes {
        None => Err(refused(ty, target, "expected string or number"@)),
        Some(b) => if valid_utf8(b) {
            Ok(decode_utf8(b))
        } else {
            Err(refused("string"@, target, utf8_fault(b)))
        },
    }
}

/// Converts the bytes of a string to a text.
pub fn string_from_luau(bytes: Option<&[u8]>, ty: &'static str, target: &str) -> (r: Result<
    String,
    Error,
>)
    ensures
        ({
            let given = match bytes {
                Some(b) => Some(b@),
                None => None,
            };
            match r {
                Ok(s) => text_result(given, ty@, target@) == Ok::<_, ErrorModel>(s@),
                Err(e) => text_result(given, ty@, target@) == Err::<Seq<char>, _>(e@),
            }
        }),
{
    match bytes {
        None => Err(refuse(ty, target, "expected string or number")),
        Some(b) => match utf8_text(b) {
            Ok(s) => Ok(s),
            Err(e) => Err(refuse("string", target, e.as_str())),
        },
    }
}

/// What converting a value to bytes gives; `coerced` is what the machine writes
/// a number as.
pub open spec fn bytes_result(
    value: HostValue,
    coerced: Option<Seq<u8>>,
    ty: Seq<char>,
    target: Seq<char>,
) -> Result<Seq<u8>, ErrorModel> {
    match value {
        HostValue::String(b) => Ok(b),
        HostValue::Buffer(b) => Ok(b),
        _ => match coerced {
            Some(b) => Ok(b),
            None => Err(refused(ty, target, "expected string or number"@)),
        },
    }
}

/// Converts a value to bytes: those of a string or of a buffer.
pub fn bytes_from_luau(
    value: Value,
    coerced: Option<Vec<u8>>,
    ty: &'static str,
    target: &str,
) -> (r: Result<Vec<u8>, Error>)
    ensures
        ({
            let given = match coerced {
                Some(b) => Some(b@),
                None => None,
            };
            match r {
                Ok(b) => bytes_result(value@, given, ty@, target@) == Ok::<_, ErrorModel>(b@),
                Err(e) => bytes_result(value@, given, ty@, target@) == Err::<Seq<u8>, _>(e@),
            }
        }),
{
    match value {
        Value::String(b) => Ok(b),
        Value::Buffer(b) => Ok(b),
        _ => match coerced {
            Some(b) => Ok(b),
            None => Err(refuse(ty, target, "expected string or number")),
        },
    }
}

/// What converting the bytes of a string to a C string gives: the bytes,
/// unless one of them is zero. `fault` says then what is wrong.
pub open spec fn c_string_result(
    bytes: Option<Seq<u8>>,
    ty: Seq<char>,
    target: Seq<char>,
    fault: Seq<char>,
) -> Result<Seq<u8>, ErrorModel> {
    match bytes {
        None => Err(refused(ty, target, "expected string or number"@)),
        Some(b) => if b.contains(0u8) {
            Err(refused(ty, target, fault))
        } else {
            Ok(b)
        },
    }
}

/// Converts the bytes of a string to those of a C string, without the zero
/// byte that ends it.
pub fn c_string_from_luau(
    bytes: Option<Vec<u8>>,
    ty: &'static str,
    target: &str,
    fault: &str,
) -> (r: Result<Vec<u8>, Error>)
    ensures
        ({
            let given = match bytes {
                Some(b) => Some(b@),
                None => None,
            };
            match r {
                Ok(b) => c_string_result(given, ty@, target@, fault@) == Ok::<_, ErrorModel>(b@),
                Err(e) => c_string_result(given, ty@, target@, fault@) == Err::<Seq<u8>, _>(e@),
            }
        }),
{
    let content = match bytes {
        Some(content) => content,
        None => {
            return Err(refuse(ty, target, "expected string or number"));
        },
    };
    let mut i: usize = 0;
    while i < content.len()
        invariant
            i <= content.len(),
            bytes == Some(content),
            forall|k: int| 0 <= k < i ==> content@[k] != 0u8,
        decreases content.len() - i,
    {
        if content[i] == 0 {
            return Err(refuse(ty, target, fault));
        }
        i += 1;
    }
    Ok(content)
}

/// Converts to an optional value: `nil` is none, and of any other value the
/// conversion to the inner type decides.
pub fn option_from_luau<T>(value: &Value, converted: Result<T, Error>) -> (r: Result<
    Option<T>,
    Error,
>)
    ensures
        r == (if value@ is Nil {
            Ok::<Option<T>, Error>(None)
        } else {
            match converted {
                Ok(inner) => Ok(Some(inner)),
                Err(e) => Err(e),
            }
        }),
{
    match value {
        Value::Nil => Ok(None),
        _ => match converted {
            Ok(inner) => Ok(Some(inner)),
            Err(e) => Err(e),
        },
    }
}

/// The value of an optional one: none is `nil`.
pub fn option_into_luau(value: Option<Value>) -> (r: Value)
    ensures
        r@ == (match value {
            Some(v) => v@,
            None => HostValue::Nil,
        }),
{
    match value {
        Some(value) => value,
        None => Value::Nil,
    }
}

/// Converts to a table.
pub fn table_from_luau(value: &Value, ty: &'static str) -> (r: Result<u64, Error>)
    ensures
        match r {
            Ok(t) => value@ == HostValue::Table(t),
            Err(e) => !(value@ is Table) && e@ == refused_plainly(ty@, "table"@),
        },
{
    match value {
        Value::Table(t) => Ok(*t),
        _ => Err(Error::from_luau_conversion(ty, "table", None)),
    }
}

/// Converts to a function.
pub fn function_from_luau(value: &Value, ty: &'static str) -> (r: Result<u64, Error>)
    ensures
        match r {
            Ok(f) => value@ == HostValue::Function(f),
            Err(e) => !(value@ is Function) && e@ == refused_plainly(ty@, "function"@),
        },
{
    match value {
        Value::Function(f) => Ok(*f),
        _ => Err(Error::from_luau_conversion(ty, "function", None)),
    }
}

/// Converts to a thread.
pub fn thread_from_luau(value: &Value, ty: &'static str) -> (r: Result<u64, Error>)
    ensures
        match r {
            Ok(t) => value@ == HostValue::Thread(t),
            Err(e) => !(value@ is Thread) && e@ == refused_plainly(ty@, "thread"@),
        },
{
    match value {
        Value::Thread(t) => Ok(*t),
        _ => Err(Error::from_luau_conversion(ty, "thread", None)),
    }
}

/// Converts to a userdata.
pub fn userdata_from_luau(value: &Value, ty: &'static str) -> (r: Result<u64, Error>)
    ensures
        match r {
            Ok(u) => value@ == HostValue::UserData(u),
            Err(e) => !(value@ is UserData) && e@ == refused_plainly(ty@, "userdata"@),
        },
{
    match value {
        Value::UserData(u) => Ok(*u),
        _ => Err(Error::from_luau_conversion(ty, "userdata", None)),
    }
}

/// Converts to a light userdata.
pub fn light_userdata_from_luau(value: &Value, ty: &'static str) -> (r: Result<u64, Error>)
    ensures
        match r {
            Ok(u) => value@ == HostValue::LightUserData(u),
            Err(e) => !(value@ is LightUserData) && e@ == refused_plainly(ty@, "lightuserdata"@),
        },
{
    match value {
        Value::LightUserData(u) => Ok(*u),
        _ => Err(Error::from_luau_conversion(ty, "lightuserdata", None)),
    }
}

/// Converts to a vector.
pub fn vector_from_luau(value: &Value, ty: &'static str) -> (r: Result<[u32; 3], Error>)
    ensures
        match r {
            Ok(v) => value@ == HostValue::Vector(v),
            Err(e) => !(value@ is Vector) && e@ == refused_plainly(ty@, "vector"@),
        },
{
    match value {
        Value::Vector(v) => Ok(*v),
        _ => Err(Error::from_luau_conversion(ty, "vector", None)),
    }
}

/// Converts to a buffer.
pub fn buffer_from_luau(value: Value, ty: &'static str) -> (r: Result<Vec<u8>, Error>)
    ensures
        match r {
            Ok(b) => value@ == HostValue::Buffer(b@),
            Err(e) => !(value@ is Buffer) && e@ == refused_plainly(ty@, "buffer"@),
        },
{
    match value {
        Value::Buffer(b) => Ok(b),
        _ => Err(Error::from_luau_conversion(ty, "buffer", None)),
    }
}

/// Converts to an error: an error is taken as it is, and any other value by
/// the text that the machine writes it as.
pub fn error_from_luau(value: Value, displayed: &str) -> (r: Error)
    ensures
        r@ == (match value@ {
            HostValue::Error(e) => e,
            _ => ErrorModel::RuntimeError(displayed@),
        }),
{
    match value {
        Value::Error(e) => *e,
        _ => Error::runtime(displayed),
    }
}

/// Converts to a table whose items make a list or a map.
pub fn collection_from_luau(value: &Value, ty: &'static str, target: &str) -> (r: Result<
    u64,
    Error,
>)
    ensures
        match r {
            Ok(t) => value@ == HostValue::Table(t),
            Err(e) => !(value@ is Table) && e@ == refused(ty@, target@, "expected table"@),
        },
{
    match value {
        Value::Table(t) => Ok(*t),
        _ => Err(refuse(ty, target, "expected table")),
    }
}

/// Which part of a table makes a set.
#[derive(Clone, Copy, Debug, PartialEq, Eq, Structural)]
pub enum SetPart {
    /// The values of its sequence.
    Sequence,
    /// Its keys.
    Keys,
}

/// Chooses the part of a table that makes a set: its sequence, unless that is
/// empty.
pub fn set_part(raw_len: usize) -> (r: SetPart)
    ensures
        r == (if raw_len > 0 {
            SetPart::Sequence
        } else {
            SetPart::Keys
        }),
{
    if raw_len > 0 {
        SetPart::Sequence
    } else {
        SetPart::Keys
    }
}

/// Accepts the length of a table as that of an array.
pub fn array_length(expected: usize, found: usize, target: &str) -> (r: Result<(), Error>)
    ensures
        match r {
            Ok(_) => found == expected,
            Err(e) => found != expected && e@ == refused(
                "table"@,
                target@,
                "expected table of length "@ + decimal(expected as nat) + ", got "@ + decimal(
                    found as nat,
                ),
            ),
        },
{
    if found == expected {
        Ok(())
    } else {
        let message = "expected table of length ".to_owned().concat(
            decimal_text(expected as u64).as_str(),
        ).concat(", got ").concat(decimal_text(found as u64).as_str());
        Err(refuse("table", target, message.as_str()))
    }
}

/// The refusal of a value that is no table where an array is wanted.
pub fn no_array(expected: usize, ty: &'static str, target: &str) -> (r: Error)
    ensures
        r@ == refused(
            ty@,
            target@,
            "expected table of length "@ + decimal(expected as nat),
        ),
{
    let message = "expected table of length ".to_owned().concat(
        decimal_text(expected as u64).as_str(),
    );
    refuse(ty, target, message.as_str())
}

/// A value of one of two types.
#[derive(Debug)]
pub enum Choice<L, R> {
    Left(L),
    Right(R),
}

/// Converts to one of two types: to the left one if that can be, else to the
/// right one, whose conversion is asked for only where the left one failed.
pub fn choice_from_luau<L, R>(
    left: Result<L, Error>,
    right: Option<Result<R, Error>>,
    ty: &'static str,
    target: &str,
) -> (r: Result<Choice<L, R>, Error>)
    ensures
        match r {
            Ok(Choice::Left(l)) => left == Ok::<L, Error>(l),
            Ok(Choice::Right(x)) => left is Err && right == Some(Ok::<R, Error>(x)),
            Err(e) => left is Err && !(right matches Some(Ok(_))) && e@ == refused_plainly(
                ty@,
                target@,
            ),
        },
{
    match left {
        Ok(l) => Ok(Choice::Left(l)),
        Err(_) => match right {
            Some(Ok(x)) => Ok(Choice::Right(x)),
            _ => Err(Error::from_luau_conversion(ty, target, None)),
        },
    }
}

/// Whether a string is pushed onto the stack directly: only where no memory
/// error is to be expected and the string is not too long.
pub fn push_directly(unlikely_memory_error: bool, len: usize) -> (r: bool)
    ensures
        r == (unlikely_memory_error && len < 0x4000_0000),
{
    unlikely_memory_error && len < 0x4000_0000
}

/// Accepts a registry key for a machine: it must be its own.
pub fn registry_key(owned: bool) -> (r: Result<(), Error>)
    ensures
        match r {
            Ok(_) => owned,
            Err(e) => !owned && e@ == ErrorModel::MismatchedRegistryKey,
        },
{
    if owned {
        Ok(())
    } else {
        Err(Error::MismatchedRegistryKey)
    }
}

/// A text that became a string in the machine comes back as the same text, and
/// bytes that are no text are refused.
pub proof fn law_text_round_trip(s: Seq<char>, bytes: Seq<u8>, ty: Seq<char>, target: Seq<char>)
    ensures
        text_result(Some(encode_utf8(s)), ty, target) == Ok::<_, ErrorModel>(s),
        text_result(Some(bytes), ty, target) is Ok <==> valid_utf8(bytes),
        text_result(None, ty, target) is Err,
{
    encode_utf8_decode_utf8(s);
    encode_utf8_valid_utf8(s);
}

/// The bytes of a string and of a buffer come back as they are, and those of a
/// C string where none of them is zero.
pub proof fn law_bytes_round_trip(
    bytes: Seq<u8>,
    coerced: Option<Seq<u8>>,
    ty: Seq<char>,
    target: Seq<char>,
    fault: Seq<char>,
)
    ensures
        bytes_result(HostValue::String(bytes), coerced, ty, target) == Ok::<_, ErrorModel>(bytes),
        bytes_result(HostValue::Buffer(bytes), coerced, ty, target) == Ok::<_, ErrorModel>(bytes),
        c_string_result(Some(bytes), ty, target, fault) is Ok <==> !bytes.contains(0u8),
        c_string_result(Some(bytes), ty, target, fault) matches Ok(b) ==> b == bytes,
{
}

/// An integer that the wanted type holds is converted to itself, and one that
/// it does not hold is refused as out of range.
pub proof fn law_integers_are_kept_or_refused(
    n: i64,
    ty: Seq<char>,
    target: IntType,
    coerced: Coerced,
)
    ensures
        target.least() <= n <= target.greatest() ==> integer_of(
            HostValue::Integer(n),
            ty,
            target,
            coerced,
        ) == Ok::<_, ErrorModel>(IntegerSource::Integer(n)),
        !(target.least() <= n <= target.greatest()) ==> integer_of(
            HostValue::Integer(n),
            ty,
            target,
            coerced,
        ) == Err::<IntegerSource, _>(refused(ty, target.label(), "out of range"@)),
{
}

} // verus!
