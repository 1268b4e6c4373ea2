//! Values, lists of values and their conversions.
use std::collections::VecDeque;

use ruau::conversion::{
    array_length, bool_from_luau, buffer_from_luau, bytes_from_luau, c_string_from_luau,
    char_from_luau, char_into_luau, choice_from_luau, collection_from_luau, error_from_luau, function_from_luau,
    integer_from_luau, integer_into_luau, light_userdata_from_luau, no_array, option_from_luau, option_into_luau, out_of_range,
    push_directly, registry_key, set_part, string_from_luau, table_from_luau, thread_from_luau,
    userdata_from_luau, vector_from_luau, CharSource, Choice, Coerced, IntType, IntegerSource,
    SetPart,
};
use ruau::error::Error;
use ruau::function::{
    bind, captured_error, protected_call, returned_count, Binding, PackedCall,
};
use ruau::multi::{argument_index, result_values, MultiValue, Variadic};
use ruau::value::Value;

const PLAIN: Coerced = Coerced { integer: None, number: None };

#[test]
fn lists_of_values_work_at_both_ends() {
    let mut list = MultiValue::new();
    list.push_back(Value::Integer(1));
    list.push_front(Value::Boolean(true));
    assert_eq!(2, list.len());
    assert!(matches!(list.pop_front_or_nil(), Value::Boolean(true)));
    assert!(matches!(list.pop_front_or_nil(), Value::Integer(1)));
    assert!(matches!(list.pop_front_or_nil(), Value::Nil));
    let list = MultiValue::from_vec(vec![Value::Integer(1), Value::Integer(2)]);
    assert!(matches!(
        list.into_vec().as_slice(),
        [Value::Integer(1), Value::Integer(2)]
    ));
    assert_eq!(0, MultiValue::with_capacity(4).len());
}

#[test]
fn fixed_arguments_come_back() {
    let rest = MultiValue::from_vec(vec![Value::Integer(3)]);
    let mut all = rest.prepend(vec![Value::Integer(1), Value::Integer(2)]);
    assert!(matches!(
        all.take_fixed(2).as_slice(),
        [Value::Integer(1), Value::Integer(2)]
    ));
    assert!(matches!(
        all.take_fixed(2).as_slice(),
        [Value::Integer(3), Value::Nil]
    ));
    assert_eq!(0, all.len());
}

#[test]
fn results_are_collected_up_to_the_first_failure() {
    let good = VecDeque::from([Ok(Value::Integer(1)), Ok(Value::Nil)]);
    assert_eq!(2, MultiValue::from_results(good).expect("values").len());
    let bad = VecDeque::from([
        Ok(Value::Nil),
        Err(Error::runtime("first")),
        Err(Error::runtime("second")),
    ]);
    assert_eq!(
        "runtime error: first",
        MultiValue::from_results(bad).expect_err("failure").message()
    );
    assert_eq!(1, result_values(Ok(Value::Nil)).len());
    assert!(matches!(
        result_values(Err(Value::Integer(4))).into_vec().as_slice(),
        [Value::Nil, Value::Integer(4)]
    ));
}

#[test]
fn arguments_are_counted_from_the_top() {
    assert_eq!(Some(-3), argument_index(3, 0));
    assert_eq!(Some(-1), argument_index(3, 2));
    assert_eq!(None, argument_index(3, 3));
    assert!(Variadic::<u8>::new().items.is_empty());
    assert!(Variadic::<u8>::with_capacity(3).items.is_empty());
}

#[test]
fn integers_come_back_or_are_out_of_range() {
    let convert = |i: i64, target: IntType| {
        integer_from_luau(&Value::Integer(i), "integer", target, PLAIN)
    };
    assert!(matches!(convert(-128, IntType::I8), Ok(IntegerSource::Integer(-128))));
    assert!(matches!(convert(255, IntType::U8), Ok(IntegerSource::Integer(255))));
    assert!(matches!(convert(i64::MAX, IntType::U64), Ok(IntegerSource::Integer(i64::MAX))));
    assert!(matches!(convert(i64::MIN, IntType::I128), Ok(IntegerSource::Integer(i64::MIN))));
    assert_eq!(
        "error converting Luau integer to u8 (out of range)",
        convert(256, IntType::U8).expect_err("large").message()
    );
    for target in [IntType::U16, IntType::U32, IntType::U64, IntType::U128, IntType::Usize] {
        assert_eq!(
            out_of_range("integer", target).message(),
            convert(-1, target).expect_err("negative").message()
        );
    }
    assert!(convert(40000, IntType::I16).is_err());
    assert!(convert(3_000_000_000, IntType::I32).is_err());
    assert!(convert(-1, IntType::Isize).is_ok());
}

#[test]
fn other_values_are_coerced_to_integers() {
    let text = Value::String(b"12".to_vec());
    let coerced = Coerced { integer: Some(12), number: Some(1) };
    assert!(matches!(
        integer_from_luau(&text, "string", IntType::U8, coerced),
        Ok(IntegerSource::Integer(12))
    ));
    let bits = 1.5_f64.to_bits();
    assert!(matches!(
        integer_from_luau(&Value::Number(bits), "number", IntType::U8, PLAIN),
        Ok(IntegerSource::Number(n)) if n == bits
    ));
    let coerced = Coerced { integer: None, number: Some(bits) };
    assert!(matches!(
        integer_from_luau(&text, "string", IntType::U8, coerced),
        Ok(IntegerSource::Number(n)) if n == bits
    ));
    assert_eq!(
        "error converting Luau nil to i32 (expected number or string coercible to number)",
        integer_from_luau(&Value::Nil, "nil", IntType::I32, PLAIN).expect_err("nil").message()
    );
    assert!(matches!(integer_into_luau(-3), Some(Value::Integer(-3))));
    assert!(integer_into_luau(i128::from(i64::MAX) + 1).is_none());
}

#[test]
fn characters_come_back() {
    for c in ['a', '\u{e9}', '\u{10ffff}'] {
        let Value::String(bytes) = char_into_luau(c) else {
            panic!("characters are strings");
        };
        let text = String::from_utf8(bytes).expect("text");
        let back = char_from_luau(CharSource::Text(&text), "string").expect("one character");
        assert_eq!(c, back);
    }
    assert_eq!('a', char_from_luau(CharSource::Integer(97), "integer").expect("scalar"));
    let out = "error converting Luau integer to char (integer out of range when converting to char)";
    for i in [-1, 0xd800, 0x11_0000, 1 << 40] {
        let error = char_from_luau(CharSource::Integer(i), "integer").expect_err("no scalar");
        assert_eq!(out, error.message());
    }
    for text in ["", "ab"] {
        assert_eq!(
            "error converting Luau string to char \
             (expected string to have exactly one char when converting to char)",
            char_from_luau(CharSource::Text(text), "string").expect_err("length").message()
        );
    }
    assert_eq!(
        "error converting Luau nil to char (expected string or integer)",
        char_from_luau(CharSource::Other, "nil").expect_err("nil").message()
    );
}

#[test]
fn only_nil_and_false_are_false() {
    assert!(!bool_from_luau(&Value::Nil));
    assert!(!bool_from_luau(&Value::Boolean(false)));
    assert!(bool_from_luau(&Value::Integer(0)));
    assert!(matches!(Value::null(), Value::LightUserData(0)));
}

#[test]
fn strings_are_checked_for_their_encoding() {
    assert_eq!("h\u{e9}", string_from_luau(Some("h\u{e9}".as_bytes()), "string", "String").expect("text"));
    assert_eq!(
        "error converting Luau string to String (invalid utf-8 sequence of 1 bytes from index 0)",
        string_from_luau(Some(&[0xff]), "string", "String").expect_err("bytes").message()
    );
    assert_eq!(
        "error converting Luau table to String (expected string or number)",
        string_from_luau(None, "table", "String").expect_err("table").message()
    );
    let buffer = bytes_from_luau(Value::Buffer(vec![1]), None, "buffer", "BString");
    assert_eq!(vec![1], buffer.expect("buffer"));
    let text = bytes_from_luau(Value::Integer(7), Some(b"7".to_vec()), "integer", "BString");
    assert_eq!(b"7".to_vec(), text.expect("coerced"));
    assert!(bytes_from_luau(Value::Nil, None, "nil", "BString").is_err());
}

#[test]
fn references_are_told_apart() {
    assert_eq!(1, table_from_luau(&Value::Table(1), "table").expect("table"));
    assert_eq!(2, function_from_luau(&Value::Function(2), "function").expect("function"));
    assert_eq!(3, thread_from_luau(&Value::Thread(3), "thread").expect("thread"));
    assert_eq!(4, userdata_from_luau(&Value::UserData(4), "userdata").expect("userdata"));
    assert_eq!(5, light_userdata_from_luau(&Value::LightUserData(5), "l").expect("light"));
    assert_eq!([6, 7, 8], vector_from_luau(&Value::Vector([6, 7, 8]), "vector").expect("vector"));
    assert_eq!(vec![9], buffer_from_luau(Value::Buffer(vec![9]), "buffer").expect("buffer"));
    let refused = table_from_luau(&Value::Nil, "nil").expect_err("nil").message();
    assert_eq!("error converting Luau nil to table", refused);
    assert!(function_from_luau(&Value::Nil, "nil").is_err());
    assert!(thread_from_luau(&Value::Nil, "nil").is_err());
    assert!(userdata_from_luau(&Value::Nil, "nil").is_err());
    assert!(light_userdata_from_luau(&Value::Nil, "nil").is_err());
    assert!(vector_from_luau(&Value::Nil, "nil").is_err());
    assert!(buffer_from_luau(Value::Nil, "nil").is_err());
}

#[test]
fn errors_are_taken_from_values() {
    let error = error_from_luau(Value::Error(Box::new(Error::StackError)), "unused");
    assert!(matches!(error, Error::StackError));
    assert_eq!("runtime error: shown", error_from_luau(Value::Integer(1), "shown").message());
}

#[test]
fn collections_come_from_tables() {
    assert_eq!(1, collection_from_luau(&Value::Table(1), "table", "Vec").expect("table"));
    assert_eq!(
        "error converting Luau nil to Vec (expected table)",
        collection_from_luau(&Value::Nil, "nil", "Vec").expect_err("nil").message()
    );
    assert_eq!((SetPart::Keys, SetPart::Sequence), (set_part(0), set_part(2)));
    assert!(array_length(3, 3, "Array").is_ok());
    assert_eq!(
        "error converting Luau table to Array (expected table of length 3, got 2)",
        array_length(3, 2, "Array").expect_err("short").message()
    );
    assert_eq!(
        "error converting Luau nil to Array (expected table of length 3)",
        no_array(3, "nil", "Array").message()
    );
}

#[test]
fn the_left_choice_is_tried_first() {
    let left: Result<Choice<u8, u8>, Error> = choice_from_luau(Ok(1), None, "nil", "Either");
    assert!(matches!(left, Ok(Choice::Left(1))));
    let right: Result<Choice<u8, u8>, Error> =
        choice_from_luau(Err(Error::StackError), Some(Ok(2)), "nil", "Either");
    assert!(matches!(right, Ok(Choice::Right(2))));
    let neither: Result<Choice<u8, u8>, Error> = choice_from_luau(
        Err(Error::StackError),
        Some(Err(Error::BindError)),
        "nil",
        "Either",
    );
    assert_eq!("error converting Luau nil to Either", neither.expect_err("neither").message());
}

#[test]
fn stack_pushes_and_keys_are_checked() {
    assert!(push_directly(true, 1 << 20));
    assert!(!push_directly(false, 1 << 20));
    assert!(registry_key(true).is_ok());
    assert!(matches!(registry_key(false), Err(Error::MismatchedRegistryKey)));
}

#[test]
fn bindings_are_bounded() {
    assert!(matches!(bind(0, 255), Ok(Binding::Same)));
    assert!(matches!(bind(2, 255), Ok(Binding::Captured(2))));
    assert!(matches!(bind(255, 255), Err(Error::BindError)));
    assert!(matches!(
        captured_error(Value::Integer(1), b"x".to_vec()),
        Value::Integer(1)
    ));
    assert!(matches!(
        captured_error(Value::Function(1), b"x".to_vec()),
        Value::String(text) if text == b"x"
    ));
    assert_eq!((2, 0, 0), (returned_count(Some(3)), returned_count(Some(0)), returned_count(None)));
}

#[test]
fn c_strings_hold_no_zero() {
    let fine = c_string_from_luau(Some(b"abc".to_vec()), "string", "CString", "nul");
    assert_eq!(b"abc".to_vec(), fine.expect("no zero"));
    assert_eq!(
        "error converting Luau string to CString (interior nul)",
        c_string_from_luau(Some(b"a\0c".to_vec()), "string", "CString", "interior nul")
            .expect_err("zero")
            .message()
    );
    assert!(c_string_from_luau(None, "nil", "CString", "").is_err());
}

#[test]
fn nil_is_no_value() {
    assert!(matches!(
        option_from_luau(&Value::Nil, Err::<u8, Error>(Error::StackError)),
        Ok(None)
    ));
    assert!(matches!(option_from_luau(&Value::Integer(1), Ok(1_u8)), Ok(Some(1))));
    assert!(option_from_luau(&Value::Integer(1), Err::<u8, Error>(Error::StackError)).is_err());
    assert!(matches!(option_into_luau(None), Value::Nil));
    assert!(matches!(option_into_luau(Some(Value::Integer(2))), Value::Integer(2)));
}

fn packed(ok: bool, count: Option<usize>, values: Vec<Value>) -> PackedCall {
    PackedCall { ok, error: Value::Integer(7), traceback: "at x".to_owned(), count, values }
}

#[test]
fn protected_calls_give_values_or_what_was_raised() {
    let values = vec![Value::Integer(1), Value::Nil, Value::Integer(3)];
    let returned = protected_call(packed(true, Some(6), values)).expect("values").into_vec();
    assert_eq!(5, returned.len());
    assert!(matches!(
        returned[..],
        [Value::Integer(1), Value::Nil, Value::Integer(3), Value::Nil, Value::Nil]
    ));
    let fewer = protected_call(packed(true, Some(2), vec![Value::Nil, Value::Nil]));
    assert_eq!(1, fewer.expect("values").len());
    let none = protected_call(packed(true, None, vec![Value::Nil]));
    assert_eq!(0, none.expect("values").len());
    let raised = protected_call(packed(false, Some(2), Vec::new())).expect_err("raised");
    assert!(matches!(raised.error, Value::Integer(7)));
    assert_eq!("at x", raised.traceback);
}
