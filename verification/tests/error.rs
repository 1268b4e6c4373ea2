//! Errors: texts, chains, context and conversions.
use ruau::error::{
    ChainItem, Error, ErrorContext, ErrorType, ExternalError, ExternalResult, Foreign,
};
use ruau::resolver::ModuleResolveError;

fn boxed(message: &str) -> Box<Error> {
    Box::new(Error::runtime(message))
}

#[test]
fn plain_errors_have_their_texts() {
    let cases: Vec<(Error, &str)> = vec![
        (
            Error::SyntaxError { message: "bad".to_owned(), incomplete_input: true },
            "syntax error: bad",
        ),
        (Error::runtime("boom"), "runtime error: boom"),
        (Error::MemoryError("full".to_owned()), "memory error: full"),
        (Error::SafetyError("no".to_owned()), "safety error: no"),
        (Error::MemoryControlNotAvailable, "memory control is not available"),
        (Error::RecursiveMutCallback, "mutable callback called recursively"),
        (
            Error::CallbackDestructed,
            "a destructed callback or destructed userdata method was called",
        ),
        (
            Error::StackError,
            "out of Luau stack, too many arguments to a Luau function or too many return values \
             from a callback",
        ),
        (Error::BindError, "too many arguments to Function::bind"),
        (Error::CoroutineUnresumable, "coroutine is non-resumable"),
        (Error::UserDataTypeMismatch, "userdata is not expected type"),
        (Error::UserDataDestructed, "userdata has been destructed"),
        (Error::UserDataBorrowError, "error borrowing userdata"),
        (Error::UserDataBorrowMutError, "error mutably borrowing userdata"),
        (Error::MetaMethodRestricted("__gc".to_owned()), "metamethod __gc is restricted"),
        (Error::MismatchedRegistryKey, "RegistryKey used from different Luau state"),
        (Error::PreviouslyResumedPanic, "previously resumed panic returned again"),
        (Error::AsyncCallbackCancelled, "async callback was cancelled"),
        (Error::SerializeError("s".to_owned()), "serialize error: s"),
        (Error::DeserializeError("d".to_owned()), "deserialize error: d"),
        (Error::external("outside"), "outside"),
    ];
    for (error, text) in cases {
        assert_eq!(text, error.message());
    }
}

#[test]
fn bad_arguments_name_what_is_known() {
    let unnamed = Error::BadArgument { to: None, pos: 3, name: None, cause: boxed("x") };
    assert_eq!("bad argument #3: runtime error: x", unnamed.message());
    let receiver = Error::bad_self_argument("greet", Error::UserDataTypeMismatch);
    assert_eq!(
        "bad argument `self` to `greet`: userdata is not expected type",
        receiver.message()
    );
}

#[test]
fn conversion_errors_append_their_detail() {
    let plain = Error::from_luau_conversion("nil", "String", None);
    assert_eq!("error converting Luau nil to String", plain.message());
    let detailed =
        Error::from_luau_conversion("nil", "String", Some("expected string".to_owned()));
    assert_eq!("error converting Luau nil to String (expected string)", detailed.message());
    let method = Error::MetaMethodTypeError {
        method: "__index".to_owned(),
        value_type: "number",
        message: Some("expected function".to_owned()),
    };
    assert_eq!(
        "metamethod __index has unsupported type number (expected function)",
        method.message()
    );
}

#[test]
fn nested_callback_errors_mark_the_outer_start() {
    let single = Error::CallbackError {
        traceback: "stack traceback:\nfoo:1\n".to_owned(),
        cause: boxed("boom"),
    };
    assert_eq!("runtime error: boom\nstack traceback:\nfoo:1\n", single.message());
    let nested = Error::CallbackError {
        traceback: "stack traceback:\nouter:2\n".to_owned(),
        cause: Box::new(Error::CallbackError {
            traceback: "stack traceback:\ninner:1\nouter:2\n".to_owned(),
            cause: boxed("boom"),
        }),
    };
    assert_eq!(
        "runtime error: boom\nstack traceback:\ninner:1\n>outer:2\n",
        nested.message()
    );
}

#[test]
fn context_is_replaced_when_added_twice() {
    let error = Error::runtime("root").context("first").context("second");
    assert_eq!("second\nruntime error: root", error.message());
    let lazy = Error::runtime("root").with_context(|e| format!("<{}>", e.message()));
    assert_eq!("<runtime error: root>\nruntime error: root", lazy.message());
    let fine: Result<u8, Error> = Ok(1);
    assert!(matches!(fine.context("unused"), Ok(1)));
    let failed: Result<u8, Error> = Err(Error::StackError);
    assert!(failed.with_context(|_| "ctx".to_owned()).is_err());
}

#[test]
fn chains_end_at_external_errors() {
    let error = Error::CallbackError {
        traceback: String::new(),
        cause: Box::new(Error::external("io").context("reading")),
    };
    let chain = error.chain();
    assert_eq!(3, chain.len());
    assert!(matches!(chain[0], ChainItem::Error(Error::CallbackError { .. })));
    assert!(matches!(chain[1], ChainItem::Error(Error::WithContext { .. })));
    assert!(matches!(chain[2], ChainItem::External(Foreign::Text(text)) if text == "io"));
    assert!(matches!(error.parent(), Some(Error::WithContext { .. })));
    assert!(Error::StackError.parent().is_none());
}

#[test]
fn own_errors_are_not_wrapped_again() {
    assert!(matches!(
        Error::external(Error::runtime("x")),
        Error::RuntimeError(text) if text == "x"
    ));
    let failed: Result<u8, Error> = Err(Error::StackError);
    assert!(matches!(failed.into_luau_err(), Err(Error::StackError)));
}

#[test]
fn wrapped_errors_come_back_by_type() {
    let lost = ModuleResolveError::NotFound("a".to_owned());
    let error = Error::external(lost).context("first").context("second");
    assert!(matches!(
        error.downcast_ref(ErrorType::Resolve),
        Some(Foreign::Resolve(ModuleResolveError::NotFound(id))) if id == "a"
    ));
    assert_eq!("second\nmodule not found: a", error.message());
    assert!(error.downcast_ref(ErrorType::Other(1)).is_none());
    let other = Foreign::Other { kind: 4, object: 9, message: "io".to_owned() };
    let error = Error::external(other);
    assert!(matches!(
        error.downcast_ref(ErrorType::Other(4)),
        Some(Foreign::Other { object: 9, .. })
    ));
    assert!(error.downcast_ref(ErrorType::Other(5)).is_none());
    assert!(Error::external("io").downcast_ref(ErrorType::Resolve).is_none());
    let hidden = Error::CallbackError {
        traceback: String::new(),
        cause: Box::new(Error::external(ModuleResolveError::NotFound("a".to_owned()))),
    };
    assert!(hidden.downcast_ref(ErrorType::Resolve).is_none());
    let argument = Error::bad_self_argument("f", hidden);
    assert!(argument.downcast_ref(ErrorType::Resolve).is_none());
}

#[test]
fn outside_errors_are_wrapped_by_their_message() {
    assert_eq!("lost", "lost".into_luau_err().message());
    let failed: Result<u8, String> = Err("gone".to_owned());
    assert_eq!("gone", failed.into_luau_err().expect_err("error").message());
    let fine: Result<u8, String> = Ok(7);
    assert_eq!(7, fine.into_luau_err().expect("value"));
}

#[test]
fn anyhow_chains_keep_root_and_outermost_context() {
    let lone = anyhow::Error::msg("root");
    assert_eq!("runtime error: root", Error::from_anyhow(&lone).message());
    let wrapped = anyhow::Error::msg("root").context("middle").context("outer");
    assert_eq!("outer\nruntime error: root", Error::from_anyhow(&wrapped).message());
}

#[test]
fn message_chains_fold_like_error_chains() {
    assert_eq!("runtime error: ", Error::from_messages(&Vec::new()).message());
    let messages = vec!["a".to_owned(), "b".to_owned(), "c".to_owned()];
    assert_eq!("a\nruntime error: c", Error::from_messages(&messages).message());
}
