//! Luau error handling.
use crate::resolver::{resolve_message, ModuleResolveError, ResolveFault};
use crate::text::{
    chars_of, decimal, decimal_text, ends, find, find_text, has_prefix, starts, string_of, texts,
    trim_end, trim_start, trimmed, trimmed_end,
};
use anyhow::Error as AnyhowError;
use vstd::prelude::*;
use vstd::slice::slice_subrange;
use vstd::string::*;

verus! {

/// The type of an error of another kind, as far as it can be asked for.
#[derive(Debug, Clone, Copy, PartialEq, Eq, Structural)]
pub enum ErrorType {
    /// [`ModuleResolveError`].
    Resolve,
    /// A type of the embedder's, by its number.
    Other(u64),
}

/// An error of another kind.
#[derive(Debug)]
pub enum Foreign {
    /// A bare text, which has no type to ask for.
    Text(String),
    /// A failed module resolution.
    Resolve(ModuleResolveError),
    /// An error of the embedder's.
    Other {
        /// The number of its type.
        kind: u64,
        /// The number of the error itself.
        object: u64,
        /// Its text.
        message: String,
    },
}

/// Model of a [`Foreign`].
pub enum ForeignModel {
    Text(Seq<char>),
    Resolve(ResolveFault),
    Other { kind: u64, object: u64, message: Seq<char> },
}

/// The type of an error of another kind.
pub open spec fn type_of(f: ForeignModel) -> Option<ErrorType> {
    match f {
        ForeignModel::Text(_) => None,
        ForeignModel::Resolve(_) => Some(ErrorType::Resolve),
        ForeignModel::Other { kind, .. } => Some(ErrorType::Other(kind)),
    }
}

/// The text of an error of another kind.
pub open spec fn foreign_text(f: ForeignModel) -> Seq<char> {
    match f {
        ForeignModel::Text(m) => m,
        ForeignModel::Resolve(fault) => resolve_message(fault),
        ForeignModel::Other { message, .. } => message,
    }
}

impl Foreign {
    pub open spec fn view(&self) -> ForeignModel {
        match self {
            Foreign::Text(m) => ForeignModel::Text(m@),
            Foreign::Resolve(e) => ForeignModel::Resolve(e@),
            Foreign::Other { kind, object, message } => ForeignModel::Other {
                kind: *kind,
                object: *object,
                message: message@,
            },
        }
    }

    /// Tests whether the error is of a given type.
    pub fn is_of(&self, wanted: ErrorType) -> (r: bool)
        ensures
            r == (type_of(self@) == Some(wanted)),
    {
        match (self, wanted) {
            (Foreign::Resolve(_), ErrorType::Resolve) => true,
            (Foreign::Other { kind, .. }, ErrorType::Other(other)) => *kind == other,
            _ => false,
        }
    }

    /// The error as a sentence.
    pub fn message(&self) -> (r: String)
        ensures
            r@ == foreign_text(self@),
    {
        match self {
            Foreign::Text(m) => m.clone(),
            Foreign::Resolve(e) => e.message(),
            Foreign::Other { message, .. } => message.clone(),
        }
    }
}

/// Error type of this crate.
#[derive(Debug)]
pub enum Error {
    /// Syntax error while parsing Luau source code.
    SyntaxError {
        /// The error message as returned by Luau.
        message: String,
        /// `true` if the error can likely be fixed by appending more input.
        incomplete_input: bool,
    },
    /// Luau runtime error.
    RuntimeError(String),
    /// Luau memory error.
    MemoryError(String),
    /// Potentially unsafe action in safe mode.
    SafetyError(String),
    /// Memory control is not available.
    MemoryControlNotAvailable,
    /// A mutable callback has triggered itself again.
    RecursiveMutCallback,
    /// A destructed callback or userdata method has been called.
    CallbackDestructed,
    /// Not enough stack space for arguments or return values.
    StackError,
    /// Too many arguments to a bind.
    BindError,
    /// Bad argument received from Luau.
    BadArgument {
        /// Function that was called.
        to: Option<String>,
        /// Argument position, usually from 1.
        pos: usize,
        /// Argument name.
        name: Option<String>,
        /// Underlying error of the conversion.
        cause: Box<Error>,
    },
    /// A Luau value could not be converted to the expected Rust type.
    FromLuauConversionError {
        /// Name of the Luau type that could not be converted.
        from: &'static str,
        /// Name of the Rust type that could not be created.
        to: String,
        /// More detailed error information.
        message: Option<String>,
    },
    /// A coroutine cannot be resumed.
    CoroutineUnresumable,
    /// A userdata is not the expected type in a borrow.
    UserDataTypeMismatch,
    /// A userdata borrow failed because it has been destructed.
    UserDataDestructed,
    /// An immutable userdata borrow failed.
    UserDataBorrowError,
    /// A mutable userdata borrow failed.
    UserDataBorrowMutError,
    /// A metamethod operation is restricted.
    MetaMethodRestricted(String),
    /// A metamethod has an invalid type.
    MetaMethodTypeError {
        /// Name of the metamethod.
        method: String,
        /// Passed value type.
        value_type: &'static str,
        /// More detailed error information.
        message: Option<String>,
    },
    /// A registry key of a different Luau state was used.
    MismatchedRegistryKey,
    /// A Rust callback returned an error, raised as a Luau error.
    CallbackError {
        /// Luau call stack backtrace.
        traceback: String,
        /// Original error returned by the Rust code.
        cause: Box<Error>,
    },
    /// A Rust panic that was previously resumed, returned again.
    PreviouslyResumedPanic,
    /// A pending async callback was cancelled before it completed.
    AsyncCallbackCancelled,
    /// Serialization error.
    SerializeError(String),
    /// Deserialization error.
    DeserializeError(String),
    /// An error of another kind.
    ExternalError(Foreign),
    /// An error with additional context.
    WithContext {
        /// Additional context.
        context: String,
        /// Underlying error.
        cause: Box<Error>,
    },
}

/// Model of an [`Error`].
pub enum ErrorModel {
    SyntaxError { message: Seq<char>, incomplete_input: bool },
    RuntimeError(Seq<char>),
    MemoryError(Seq<char>),
    SafetyError(Seq<char>),
    MemoryControlNotAvailable,
    RecursiveMutCallback,
    CallbackDestructed,
    StackError,
    BindError,
    BadArgument {
        to: Option<Seq<char>>,
        pos: nat,
        name: Option<Seq<char>>,
        cause: Box<ErrorModel>,
    },
    FromLuauConversionError { from: Seq<char>, to: Seq<char>, message: Option<Seq<char>> },
    CoroutineUnresumable,
    UserDataTypeMismatch,
    UserDataDestructed,
    UserDataBorrowError,
    UserDataBorrowMutError,
    MetaMethodRestricted(Seq<char>),
    MetaMethodTypeError { method: Seq<char>, value_type: Seq<char>, message: Option<Seq<char>> },
    MismatchedRegistryKey,
    CallbackError { traceback: Seq<char>, cause: Box<ErrorModel> },
    PreviouslyResumedPanic,
    AsyncCallbackCancelled,
    SerializeError(Seq<char>),
    DeserializeError(Seq<char>),
    ExternalError(ForeignModel),
    WithContext { context: Seq<char>, cause: Box<ErrorModel> },
}

/// The text of an optional string.
pub open spec fn opt_str(s: Option<String>) -> Option<Seq<char>> {
    match s {
        Some(t) => Some(t@),
        None => None,
    }
}

impl Error {
    pub open spec fn view(&self) -> ErrorModel
        decreases self,
    {
        match self {
            Error::SyntaxError { message, incomplete_input } => ErrorModel::SyntaxError {
                message: message@,
                incomplete_input: *incomplete_input,
            },
            Error::RuntimeError(m) => ErrorModel::RuntimeError(m@),
            Error::MemoryError(m) => ErrorModel::MemoryError(m@),
            Error::SafetyError(m) => ErrorModel::SafetyError(m@),
            Error::MemoryControlNotAvailable => ErrorModel::MemoryControlNotAvailable,
            Error::RecursiveMutCallback => ErrorModel::RecursiveMutCallback,
            Error::CallbackDestructed => ErrorModel::CallbackDestructed,
            Error::StackError => ErrorModel::StackError,
            Error::BindError => ErrorModel::BindError,
            Error::BadArgument { to, pos, name, cause } => ErrorModel::BadArgument {
                to: opt_str(*to),
                pos: *pos as nat,
                name: opt_str(*name),
                cause: Box::new(cause.view()),
            },
            Error::FromLuauConversionError { from, to, message } =>
                ErrorModel::FromLuauConversionError {
                from: from@,
                to: to@,
                message: opt_str(*message),
            },
            Error::CoroutineUnresumable => ErrorModel::CoroutineUnresumable,
            Error::UserDataTypeMismatch => ErrorModel::UserDataTypeMismatch,
            Error::UserDataDestructed => ErrorModel::UserDataDestructed,
            Error::UserDataBorrowError => ErrorModel::UserDataBorrowError,
            Error::UserDataBorrowMutError => ErrorModel::UserDataBorrowMutError,
            Error::MetaMethodRestricted(m) => ErrorModel::MetaMethodRestricted(m@),
            Error::MetaMethodTypeError { method, value_type, message } =>
                ErrorModel::MetaMethodTypeError {
                method: method@,
                value_type: value_type@,
                message: opt_str(*message),
            },
            Error::MismatchedRegistryKey => ErrorModel::MismatchedRegistryKey,
            Error::CallbackError { traceback, cause } => ErrorModel::CallbackError {
                traceback: traceback@,
                cause: Box::new(cause.view()),
            },
            Error::PreviouslyResumedPanic => ErrorModel::PreviouslyResumedPanic,
            Error::AsyncCallbackCancelled => ErrorModel::AsyncCallbackCancelled,
            Error::SerializeError(m) => ErrorModel::SerializeError(m@),
            Error::DeserializeError(m) => ErrorModel::DeserializeError(m@),
            Error::ExternalError(f) => ErrorModel::ExternalError(f@),
            Error::WithContext { context, cause } => ErrorModel::WithContext {
                context: context@,
                cause: Box::new(cause.view()),
            },
        }
    }
}

/// A detail in brackets behind a text, where there is one.
pub open spec fn detailed(text: Seq<char>, message: Option<Seq<char>>) -> Seq<char> {
    match message {
        None => text,
        Some(m) => text + " ("@ + m + ")"@,
    }
}

/// `s` without `p` at its start, as often as it stands there.
pub open spec fn strip_prefixes(s: Seq<char>, p: Seq<char>) -> Seq<char>
    decreases s.len(),
{
    if p.len() > 0 && starts(s, p) {
        strip_prefixes(s.skip(p.len() as int), p)
    } else {
        s
    }
}

/// Cause and innermost traceback below nested callback errors.
pub open spec fn innermost(cause: ErrorModel, traceback: Option<Seq<char>>) -> (
    ErrorModel,
    Option<Seq<char>>,
)
    decreases cause,
{
    match cause {
        ErrorModel::CallbackError { traceback: inner, cause: next } => innermost(
            *next,
            Some(inner),
        ),
        other => (other, traceback),
    }
}

/// The traceback lines of a callback error: where it wraps another one, the
/// full inner traceback with a mark at the place where the outer one starts.
pub open spec fn traceback_text(outer: Seq<char>, inner: Option<Seq<char>>) -> Seq<char> {
    match inner {
        None => trim_end(outer) + "\n"@,
        Some(full) => {
            let wanted = trim_end(trim_start(strip_prefixes(outer, "stack traceback:"@)));
            let pos = find(full, wanted);
            if pos >= 0 {
                full.take(pos) + ">"@ + trim_end(full.skip(pos)) + "\n"@
            } else {
                trim_end(full) + "\n"@
            }
        },
    }
}

/// The cause below nested callback errors is no larger than the outer cause.
pub proof fn lemma_innermost(cause: ErrorModel, traceback: Option<Seq<char>>)
    ensures
        innermost(cause, traceback).0 == cause || decreases_to!(cause => innermost(
            cause,
            traceback,
        ).0),
        !(innermost(cause, traceback).0 is CallbackError),
    decreases cause,
{
    if let ErrorModel::CallbackError { traceback: inner, cause: next } = cause {
        lemma_innermost(*next, Some(inner));
    }
}

/// The text of an error.
pub open spec fn error_text(e: ErrorModel) -> Seq<char>
    decreases e,
{
    match e {
        ErrorModel::SyntaxError { message, .. } => "syntax error: "@ + message,
        ErrorModel::RuntimeError(m) => "runtime error: "@ + m,
        ErrorModel::MemoryError(m) => "memory error: "@ + m,
        ErrorModel::SafetyError(m) => "safety error: "@ + m,
        ErrorModel::MemoryControlNotAvailable => "memory control is not available"@,
        ErrorModel::RecursiveMutCallback => "mutable callback called recursively"@,
        ErrorModel::CallbackDestructed =>
            "a destructed callback or destructed userdata method was called"@,
        ErrorModel::StackError =>
            "out of Luau stack, too many arguments to a Luau function or too many return values from a callback"@,
        ErrorModel::BindError => "too many arguments to Function::bind"@,
        ErrorModel::BadArgument { to, pos, name, cause } => (match name {
            Some(n) => "bad argument `"@ + n + "`"@,
            None => "bad argument #"@ + decimal(pos),
        }) + (match to {
            Some(t) => " to `"@ + t + "`"@,
            None => Seq::empty(),
        }) + ": "@ + error_text(*cause),
        ErrorModel::FromLuauConversionError { from, to, message } => detailed(
            "error converting Luau "@ + from + " to "@ + to,
            message,
        ),
        ErrorModel::CoroutineUnresumable => "coroutine is non-resumable"@,
        ErrorModel::UserDataTypeMismatch => "userdata is not expected type"@,
        ErrorModel::UserDataDestructed => "userdata has been destructed"@,
        ErrorModel::UserDataBorrowError => "error borrowing userdata"@,
        ErrorModel::UserDataBorrowMutError => "error mutably borrowing userdata"@,
        ErrorModel::MetaMethodRestricted(m) => "metamethod "@ + m + " is restricted"@,
        ErrorModel::MetaMethodTypeError { method, value_type, message } => detailed(
            "metamethod "@ + method + " has unsupported type "@ + value_type,
            message,
        ),
        ErrorModel::MismatchedRegistryKey => "RegistryKey used from different Luau state"@,
        ErrorModel::CallbackError { traceback, cause } => {
            let inner = innermost(*cause, None);
            proof {
                lemma_innermost(*cause, None);
            }
            error_text(inner.0) + "\n"@ + traceback_text(traceback, inner.1)
        },
        ErrorModel::PreviouslyResumedPanic => "previously resumed panic returned again"@,
        ErrorModel::AsyncCallbackCancelled => "async callback was cancelled"@,
        ErrorModel::SerializeError(m) => "serialize error: "@ + m,
        ErrorModel::DeserializeError(m) => "deserialize error: "@ + m,
        ErrorModel::ExternalError(f) => foreign_text(f),
        ErrorModel::WithContext { context, cause } => context + "\n"@ + error_text(*cause),
    }
}

/// Appends a detail in brackets.
fn with_detail(text: String, message: &Option<String>) -> (r: String)
    ensures
        r@ == detailed(text@, opt_str(*message)),
{
    match message {
        None => text,
        Some(m) => text.concat(" (").concat(m.as_str()).concat(")"),
    }
}

/// Drops a prefix as often as it stands there.
fn stripped_prefixes<'a>(s: &'a [char], p: &str) -> (r: &'a [char])
    ensures
        r@ == strip_prefixes(s@, p@),
{
    let n: usize = chars_of(p).len();
    let mut rest: &'a [char] = s;
    while n > 0 && has_prefix(rest, p)
        invariant
            n == p@.len(),
            strip_prefixes(rest@, p@) == strip_prefixes(s@, p@),
        decreases rest@.len(),
    {
        let total: usize = rest.len();
        let next = slice_subrange(rest, n, total);
        assert(next@ =~= rest@.skip(n as int));
        rest = next;
    }
    rest
}

/// Writes the traceback lines of a callback error.
fn write_traceback(outer: &str, inner: Option<&String>) -> (r: String)
    ensures
        r@ == traceback_text(
            outer@,
            match inner {
                Some(t) => Some(t@),
                None => None,
            },
        ),
{
    let outer_chars: Vec<char> = chars_of(outer);
    match inner {
        None => string_of(trimmed_end(outer_chars.as_slice())).concat("\n"),
        Some(full) => {
            let wanted = string_of(
                trimmed(stripped_prefixes(outer_chars.as_slice(), "stack traceback:")),
            );
            let chars: Vec<char> = chars_of(full.as_str());
            match find_text(chars.as_slice(), wanted.as_str()) {
                Some(pos) => {
                    let total: usize = chars.len();
                    let head = slice_subrange(chars.as_slice(), 0, pos);
                    let tail = slice_subrange(chars.as_slice(), pos, total);
                    assert(head@ =~= full@.take(pos as int));
                    assert(tail@ =~= full@.skip(pos as int));
                    string_of(head).concat(">").concat(
                        string_of(trimmed_end(tail)).as_str(),
                    ).concat("\n")
                },
                None => string_of(trimmed_end(chars.as_slice())).concat("\n"),
            }
        },
    }
}

/// One entry of the chain of nested errors.
#[derive(Debug, Clone, Copy)]
pub enum ChainItem<'a> {
    /// An error of this crate.
    Error(&'a Error),
    /// An error of another kind.
    External(&'a Foreign),
}

/// Model of a [`ChainItem`].
pub enum ChainModel {
    Error(ErrorModel),
    External(ForeignModel),
}

impl ChainItem<'_> {
    pub open spec fn view(&self) -> ChainModel {
        match self {
            ChainItem::Error(e) => ChainModel::Error(e@),
            ChainItem::External(f) => ChainModel::External(f@),
        }
    }
}

/// The chain of an error: itself and then its causes. The wrapper of an error
/// of another kind is left out, and nothing follows that error.
pub open spec fn chain_of(e: ErrorModel) -> Seq<ChainModel>
    decreases e,
{
    match e {
        ErrorModel::ExternalError(f) => seq![ChainModel::External(f)],
        ErrorModel::BadArgument { cause, .. } => seq![ChainModel::Error(e)] + chain_of(*cause),
        ErrorModel::CallbackError { cause, .. } => seq![ChainModel::Error(e)] + chain_of(*cause),
        ErrorModel::WithContext { cause, .. } => seq![ChainModel::Error(e)] + chain_of(*cause),
        _ => seq![ChainModel::Error(e)],
    }
}

/// The error with a context: one that it has is replaced.
pub open spec fn in_context(e: ErrorModel, context: Seq<char>) -> ErrorModel {
    match e {
        ErrorModel::WithContext { cause, .. } => ErrorModel::WithContext { context, cause },
        other => ErrorModel::WithContext { context, cause: Box::new(other) },
    }
}

impl Error {
    /// Creates a new `RuntimeError` with the given message.
    pub fn runtime(message: &str) -> (r: Self)
        ensures
            r@ == ErrorModel::RuntimeError(message@),
    {
        Error::RuntimeError(message.to_owned())
    }

    /// Wraps an error of another kind. An error of this crate is handed back as
    /// it is.
    pub fn external<E: ExternalError>(err: E) -> (r: Self)
        ensures
            r@ == luau_error(err.any_error()),
    {
        err.into_luau_err()
    }

    /// The error of another kind that this error wraps, below any context, where
    /// it is of the wanted type.
    pub fn downcast_ref(&self, wanted: ErrorType) -> (r: Option<&Foreign>)
        ensures
            match r {
                Some(f) => downcast_of(self@, wanted) == Some(f@),
                None => downcast_of(self@, wanted) is None,
            },
        decreases self,
    {
        match self {
            Error::ExternalError(f) => if f.is_of(wanted) {
                Some(f)
            } else {
                None
            },
            Error::WithContext { cause, .. } => cause.downcast_ref(wanted),
            _ => None,
        }
    }

    /// Returns the parent of this error.
    pub fn parent(&self) -> (r: Option<&Self>)
        ensures
            match r {
                Some(p) => parent_error(self@) == Some(p@),
                None => parent_error(self@) is None,
            },
    {
        match self {
            Error::CallbackError { cause, .. } => Some(&**cause),
            Error::WithContext { cause, .. } => Some(&**cause),
            _ => None,
        }
    }

    /// The chain of nested errors wrapped by this error.
    pub fn chain(&self) -> (r: Vec<ChainItem<'_>>)
        ensures
            r@.map_values(|i: ChainItem<'_>| i@) == chain_of(self@),
    {
        let mut out: Vec<ChainItem<'_>> = Vec::new();
        let mut current: &Error = self;
        let ghost goal = chain_of(self@);
        assert(out@.map_values(|i: ChainItem<'_>| i@) + chain_of(current@) =~= goal);
        loop
            invariant
                goal == chain_of(self@),
                out@.map_values(|i: ChainItem<'_>| i@) + chain_of(current@) == goal,
            decreases current,
        {
            let ghost before = out@.map_values(|i: ChainItem<'_>| i@);
            let ghost here = current@;
            match current {
                Error::ExternalError(f) => {
                    out.push(ChainItem::External(f));
                    assert(out@.map_values(|i: ChainItem<'_>| i@) =~= goal);
                    return out;
                },
                Error::BadArgument { cause, .. } => {
                    out.push(ChainItem::Error(current));
                    proof {
                        assert(out@.map_values(|i: ChainItem<'_>| i@) + chain_of(cause@) =~= before
                            + (seq![ChainModel::Error(here)] + chain_of(cause@)));
                    }
                    current = &**cause;
                },
                Error::CallbackError { cause, .. } => {
                    out.push(ChainItem::Error(current));
                    proof {
                        assert(out@.map_values(|i: ChainItem<'_>| i@) + chain_of(cause@) =~= before
                            + (seq![ChainModel::Error(here)] + chain_of(cause@)));
                    }
                    current = &**cause;
                },
                Error::WithContext { cause, .. } => {
                    out.push(ChainItem::Error(current));
                    proof {
                        assert(out@.map_values(|i: ChainItem<'_>| i@) + chain_of(cause@) =~= before
                            + (seq![ChainModel::Error(here)] + chain_of(cause@)));
                    }
                    current = &**cause;
                },
                _ => {
                    out.push(ChainItem::Error(current));
                    assert(out@.map_values(|i: ChainItem<'_>| i@) =~= goal);
                    return out;
                },
            }
        }
    }

    /// A bad receiver of a method.
    pub fn bad_self_argument(to: &str, cause: Error) -> (r: Self)
        ensures
            r@ == (ErrorModel::BadArgument {
                to: Some(to@),
                pos: 1,
                name: Some("self"@),
                cause: Box::new(cause@),
            }),
    {
        Error::BadArgument {
            to: Some(to.to_owned()),
            pos: 1,
            name: Some("self".to_owned()),
            cause: Box::new(cause),
        }
    }

    /// A failed conversion of a Luau value.
    pub fn from_luau_conversion(from: &'static str, to: &str, message: Option<String>) -> (r: Self)
        ensures
            r@ == (ErrorModel::FromLuauConversionError {
                from: from@,
                to: to@,
                message: opt_str(message),
            }),
    {
        Error::FromLuauConversionError { from, to: to.to_owned(), message }
    }

    /// The error as text.
    pub fn message(&self) -> (r: String)
        ensures
            r@ == error_text(self@),
        decreases self,
    {
        match self {
            Error::SyntaxError { message, .. } => "syntax error: ".to_owned().concat(
                message.as_str(),
            ),
            Error::RuntimeError(m) => "runtime error: ".to_owned().concat(m.as_str()),
            Error::MemoryError(m) => "memory error: ".to_owned().concat(m.as_str()),
            Error::SafetyError(m) => "safety error: ".to_owned().concat(m.as_str()),
            Error::MemoryControlNotAvailable => "memory control is not available".to_owned(),
            Error::RecursiveMutCallback => "mutable callback called recursively".to_owned(),
            Error::CallbackDestructed => "a destructed callback or destructed userdata method was called".to_owned(),
            Error::StackError => "out of Luau stack, too many arguments to a Luau function or too many return values from a callback".to_owned(),
            Error::BindError => "too many arguments to Function::bind".to_owned(),
            Error::BadArgument { to, pos, name, cause } => {
                let head = match name {
                    Some(n) => "bad argument `".to_owned().concat(n.as_str()).concat("`"),
                    None => "bad argument #".to_owned().concat(decimal_text(*pos as u64).as_str()),
                };
                let target = match to {
                    Some(t) => " to `".to_owned().concat(t.as_str()).concat("`"),
                    None => String::new(),
                };
                let inner = cause.message();
                head.concat(target.as_str()).concat(": ").concat(inner.as_str())
            },
            Error::FromLuauConversionError { from, to, message } => with_detail(
                "error converting Luau ".to_owned().concat(from).concat(" to ").concat(to.as_str()),
                message,
            ),
            Error::CoroutineUnresumable => "coroutine is non-resumable".to_owned(),
            Error::UserDataTypeMismatch => "userdata is not expected type".to_owned(),
            Error::UserDataDestructed => "userdata has been destructed".to_owned(),
            Error::UserDataBorrowError => "error borrowing userdata".to_owned(),
            Error::UserDataBorrowMutError => "error mutably borrowing userdata".to_owned(),
            Error::MetaMethodRestricted(m) => "metamethod ".to_owned().concat(m.as_str()).concat(
                " is restricted",
            ),
            Error::MetaMethodTypeError { method, value_type, message } => with_detail(
                "metamethod ".to_owned().concat(method.as_str()).concat(
                    " has unsupported type ",
                ).concat(value_type),
                message,
            ),
            Error::MismatchedRegistryKey => "RegistryKey used from different Luau state".to_owned(),
            Error::CallbackError { traceback, cause } => {
                let mut at: &Error = &**cause;
                let mut full: Option<&String> = None;
                let ghost goal = innermost(cause@, None);
                loop
                    invariant
                        goal == innermost(cause@, None),
                        innermost(
                            at@,
                            match full {
                                Some(t) => Some(t@),
                                None => None,
                            },
                        ) == goal,
                        at == **cause || decreases_to!(**cause => at),
                    ensures
                        !(at is CallbackError),
                        goal == (at@, match full {
                            Some(t) => Some(t@),
                            None => None,
                        }),
                        at == **cause || decreases_to!(**cause => at),
                    decreases at,
                {
                    match at {
                        Error::CallbackError { cause: inner, traceback: inner_trace } => {
                            at = &**inner;
                            full = Some(inner_trace);
                        },
                        _ => {
                            break;
                        },
                    }
                }
                let head = at.message();
                head.concat("\n").concat(write_traceback(traceback.as_str(), full).as_str())
            },
            Error::PreviouslyResumedPanic => "previously resumed panic returned again".to_owned(),
            Error::AsyncCallbackCancelled => "async callback was cancelled".to_owned(),
            Error::SerializeError(m) => "serialize error: ".to_owned().concat(m.as_str()),
            Error::DeserializeError(m) => "deserialize error: ".to_owned().concat(m.as_str()),
            Error::ExternalError(f) => f.message(),
            Error::WithContext { context, cause } => {
                let inner = cause.message();
                context.clone().concat("\n").concat(inner.as_str())
            },
        }
    }
}

/// The error of another kind below any context, where it is of the wanted type.
pub open spec fn downcast_of(e: ErrorModel, wanted: ErrorType) -> Option<ForeignModel>
    decreases e,
{
    match e {
        ErrorModel::ExternalError(f) => if type_of(f) == Some(wanted) {
            Some(f)
        } else {
            None
        },
        ErrorModel::WithContext { cause, .. } => downcast_of(*cause, wanted),
        _ => None,
    }
}

/// An error of a type that can be asked for comes back when it is asked for,
/// and for no other type.
pub proof fn law_wrapped_error_comes_back(f: ForeignModel, wanted: ErrorType)
    ensures
        downcast_of(luau_error(AnyModel::Foreign(f)), wanted) == (if type_of(f) == Some(wanted) {
            Some(f)
        } else {
            None
        }),
{
}

/// A context hides no wrapped error and adds none.
pub proof fn law_context_keeps_wrapped_error(e: ErrorModel, context: Seq<char>, wanted: ErrorType)
    ensures
        downcast_of(in_context(e, context), wanted) == downcast_of(e, wanted),
{
}

/// The cause of a callback error or of an error with context.
pub open spec fn parent_error(e: ErrorModel) -> Option<ErrorModel> {
    match e {
        ErrorModel::CallbackError { cause, .. } => Some(*cause),
        ErrorModel::WithContext { cause, .. } => Some(*cause),
        _ => None,
    }
}

/// An error of any kind.
pub enum AnyModel {
    Own(ErrorModel),
    Foreign(ForeignModel),
}

/// An error of any kind as one of this crate: its own errors as they are, and
/// others wrapped.
pub open spec fn luau_error(e: AnyModel) -> ErrorModel {
    match e {
        AnyModel::Own(own) => own,
        AnyModel::Foreign(f) => ErrorModel::ExternalError(f),
    }
}

/// Conversion of an error of any kind into a Luau [`Error`].
pub trait ExternalError: Sized {
    /// The error.
    spec fn any_error(&self) -> AnyModel;

    /// Converts this error into a Luau [`Error`].
    fn into_luau_err(self) -> (r: Error)
        ensures
            r@ == luau_error(self.any_error()),
    ;
}

impl ExternalError for Error {
    open spec fn any_error(&self) -> AnyModel {
        AnyModel::Own(self@)
    }

    fn into_luau_err(self) -> (r: Error)
        ensures
            r == self,
    {
        self
    }
}

impl ExternalError for Foreign {
    open spec fn any_error(&self) -> AnyModel {
        AnyModel::Foreign(self@)
    }

    fn into_luau_err(self) -> (r: Error) {
        Error::ExternalError(self)
    }
}

impl ExternalError for ModuleResolveError {
    open spec fn any_error(&self) -> AnyModel {
        AnyModel::Foreign(ForeignModel::Resolve(self@))
    }

    fn into_luau_err(self) -> (r: Error) {
        Error::ExternalError(Foreign::Resolve(self))
    }
}

impl From<ModuleResolveError> for Error {
    fn from(error: ModuleResolveError) -> (r: Self) {
        Error::ExternalError(Foreign::Resolve(error))
    }
}

impl vstd::std_specs::convert::FromSpecImpl<ModuleResolveError> for Error {
    open spec fn obeys_from_spec() -> bool {
        true
    }

    open spec fn from_spec(error: ModuleResolveError) -> Self {
        Error::ExternalError(Foreign::Resolve(error))
    }
}

impl ExternalError for String {
    open spec fn any_error(&self) -> AnyModel {
        AnyModel::Foreign(ForeignModel::Text(self@))
    }

    fn into_luau_err(self) -> (r: Error) {
        Error::ExternalError(Foreign::Text(self))
    }
}

impl ExternalError for &str {
    open spec fn any_error(&self) -> AnyModel {
        AnyModel::Foreign(ForeignModel::Text(self@))
    }

    fn into_luau_err(self) -> (r: Error) {
        Error::ExternalError(Foreign::Text(self.to_owned()))
    }
}

/// Conversion of a result with an error of any kind into one with a Luau
/// [`Error`].
pub trait ExternalResult<T>: Sized {
    /// The value, or the error.
    spec fn outcome(&self) -> Result<T, AnyModel>;

    /// Converts this result's error into a Luau [`Error`].
    fn into_luau_err(self) -> (r: Result<T, Error>)
        ensures
            match r {
                Ok(value) => self.outcome() == Ok::<T, AnyModel>(value),
                Err(e) => self.outcome() matches Err(error) && e@ == luau_error(error),
            },
    ;
}

impl<T, E: ExternalError> ExternalResult<T> for Result<T, E> {
    open spec fn outcome(&self) -> Result<T, AnyModel> {
        match self {
            Ok(value) => Ok(*value),
            Err(e) => Err(e.any_error()),
        }
    }

    fn into_luau_err(self) -> (r: Result<T, Error>) {
        match self {
            Ok(value) => Ok(value),
            Err(e) => Err(e.into_luau_err()),
        }
    }
}

/// Adds context to errors.
pub trait ErrorContext: Sized {
    /// Wraps the error value with additional context.
    fn context(self, context: &str) -> Self;

    /// Wraps the error value with context that is made only where there is an
    /// error.
    fn with_context<F: FnOnce(&Error) -> String>(self, f: F) -> Self
        requires
            forall|e: &Error| #[trigger] call_requires(f, (e,)),
    ;
}

impl ErrorContext for Error {
    fn context(self, context: &str) -> (r: Self)
        ensures
            r@ == in_context(self@, context@),
    {
        match self {
            Error::WithContext { cause, .. } => Error::WithContext {
                context: context.to_owned(),
                cause,
            },
            other => Error::WithContext { context: context.to_owned(), cause: Box::new(other) },
        }
    }

    fn with_context<F: FnOnce(&Error) -> String>(self, f: F) -> (r: Self)
        ensures
            exists|context: String|
                call_ensures(f, (&self,), context) && r@ == in_context(self@, #[trigger] context@),
    {
        let context = f(&self);
        let ghost text = context;
        match self {
            Error::WithContext { cause, .. } => {
                let r = Error::WithContext { context, cause };
                assert(r@ == in_context(self@, text@));
                r
            },
            other => {
                let r = Error::WithContext { context, cause: Box::new(other) };
                assert(r@ == in_context(self@, text@));
                r
            },
        }
    }
}

impl<T> ErrorContext for Result<T, Error> {
    fn context(self, context: &str) -> (r: Self)
        ensures
            match self {
                Ok(v) => r == Ok::<T, Error>(v),
                Err(e) => r matches Err(f) && f@ == in_context(e@, context@),
            },
    {
        match self {
            Ok(v) => Ok(v),
            Err(e) => Err(e.context(context)),
        }
    }

    fn with_context<F: FnOnce(&Error) -> String>(self, f: F) -> (r: Self)
        ensures
            match self {
                Ok(v) => r == Ok::<T, Error>(v),
                Err(e) => r matches Err(g) && exists|context: String|
                    call_ensures(f, (&e,), context) && g@ == in_context(e@, #[trigger] context@),
            },
    {
        match self {
            Ok(v) => Ok(v),
            Err(e) => Err(e.with_context(f)),
        }
    }
}

/// Adding a context a second time replaces the first one.
pub proof fn law_context_is_replaced(e: ErrorModel, first: Seq<char>, second: Seq<char>)
    ensures
        in_context(in_context(e, first), second) == in_context(e, second),
{
}

/// The error that a chain of messages stands for, outermost first: the last
/// message is the error, and the first one its context.
pub open spec fn error_of_messages(messages: Seq<Seq<char>>) -> ErrorModel {
    if messages.len() == 0 {
        ErrorModel::RuntimeError(Seq::empty())
    } else if messages.len() == 1 {
        ErrorModel::RuntimeError(messages[0])
    } else {
        ErrorModel::WithContext {
            context: messages[0],
            cause: Box::new(ErrorModel::RuntimeError(messages.last())),
        }
    }
}

/// Errors of the `anyhow` crate.
#[verifier::external_type_specification]
#[verifier::external_body]
pub struct ExAnyhow(AnyhowError);

/// The displayed messages of `anyhow::Error::chain`, outermost first. The
/// chain starts with the error itself, so it has at least one message; what
/// the messages say depends on the errors that were wrapped.
#[verifier::external_body]
pub fn chain_messages(error: &AnyhowError) -> (r: Vec<String>)
    ensures
        r@.len() > 0,
{
    error.chain().map(|cause| cause.to_string()).collect()
}

impl Error {
    /// Folds a chain of messages into an error: the last one is the error
    /// itself, and the ones before it are its context, innermost first.
    pub fn from_messages(messages: &Vec<String>) -> (r: Self)
        ensures
            r@ == error_of_messages(texts(messages@)),
    {
        let n: usize = messages.len();
        if n == 0 {
            let r = Error::RuntimeError(String::new());
            return r;
        }
        let ghost all = texts(messages@);
        let mut err = Error::RuntimeError(messages[n - 1].clone());
        let mut i: usize = n - 1;
        while i > 0
            invariant
                i < n,
                n == messages@.len(),
                all == texts(messages@),
                err@ == (if i + 1 == n {
                    ErrorModel::RuntimeError(all.last())
                } else {
                    ErrorModel::WithContext {
                        context: all[i as int],
                        cause: Box::new(ErrorModel::RuntimeError(all.last())),
                    }
                }),
            decreases i,
        {
            i -= 1;
            err = err.context(messages[i].as_str());
        }
        err
    }

    /// Turns an `anyhow` error into an error of this crate, by the messages of
    /// its chain.
    pub fn from_anyhow(error: &AnyhowError) -> (r: Self)
        ensures
            exists|messages: Vec<String>| #[trigger]
                call_ensures(chain_messages, (error,), messages) && r@ == error_of_messages(
                    texts(messages@),
                ),
    {
        let messages: Vec<String> = chain_messages(error);
        Self::from_messages(&messages)
    }
}

/// A context stands on a line of its own in front of the text of the error,
/// and in front of the error in its chain.
pub proof fn law_context_comes_first(e: ErrorModel, context: Seq<char>)
    requires
        !(e is WithContext),
    ensures
        error_text(in_context(e, context)) == context + "\n"@ + error_text(e),
        chain_of(in_context(e, context)) == seq![ChainModel::Error(in_context(e, context))]
            + chain_of(e),
        parent_error(in_context(e, context)) == Some(e),
{
}

/// A callback error is told by its cause and then by its traceback, and its
/// chain goes on with that of its cause.
pub proof fn law_callback_error_tells_its_cause(traceback: Seq<char>, cause: ErrorModel)
    requires
        !(cause is CallbackError),
    ensures
        error_text((ErrorModel::CallbackError { traceback, cause: Box::new(cause) })) == error_text(
            cause,
        ) + "\n"@ + trim_end(traceback) + "\n"@,
        chain_of((ErrorModel::CallbackError { traceback, cause: Box::new(cause) })).len()
            == chain_of(cause).len() + 1,
        parent_error((ErrorModel::CallbackError { traceback, cause: Box::new(cause) })) == Some(
            cause,
        ),
{
    let e = ErrorModel::CallbackError { traceback, cause: Box::new(cause) };
    let inner = innermost(cause, None);
    assert(inner == (cause, None::<Seq<char>>));
    assert(error_text(e) =~= error_text(cause) + "\n"@ + trim_end(traceback) + "\n"@);
}

/// A bad argument is told by its name where it has one, else by its number,
/// and then by its cause.
pub proof fn law_bad_argument_tells_its_place(
    to: Option<Seq<char>>,
    pos: nat,
    name: Option<Seq<char>>,
    cause: ErrorModel,
)
    ensures
        name matches Some(n) ==> starts(
            error_text((ErrorModel::BadArgument { to, pos, name, cause: Box::new(cause) })),
            "bad argument `"@ + n + "`"@,
        ),
        name is None ==> starts(
            error_text((ErrorModel::BadArgument { to, pos, name, cause: Box::new(cause) })),
            "bad argument #"@ + decimal(pos),
        ),
        ends(
            error_text((ErrorModel::BadArgument { to, pos, name, cause: Box::new(cause) })),
            ": "@ + error_text(cause),
        ),
{
    let e = ErrorModel::BadArgument { to, pos, name, cause: Box::new(cause) };
    let head = match name {
        Some(n) => "bad argument `"@ + n + "`"@,
        None => "bad argument #"@ + decimal(pos),
    };
    let tail = ": "@ + error_text(cause);
    let whole = error_text(e);
    assert(whole.take(head.len() as int) =~= head);
    assert(whole.skip(whole.len() - tail.len()) =~= tail);
}

/// A chain of messages is told by its first and its last message.
pub proof fn law_messages_are_told(messages: Seq<Seq<char>>)
    requires
        messages.len() > 0,
    ensures
        ends(error_text(error_of_messages(messages)), messages.last()),
        messages.len() > 1 ==> starts(error_text(error_of_messages(messages)), messages[0]),
{
    let whole = error_text(error_of_messages(messages));
    let last = ErrorModel::RuntimeError(messages.last());
    assert(error_text(last) == "runtime error: "@ + messages.last());
    assert(whole.skip(whole.len() - messages.last().len()) =~= messages.last());
    if messages.len() > 1 {
        assert(whole.take(messages[0].len() as int) =~= messages[0]);
    }
}

} // verus!
