//! Results of requests as owned values, and errors on one line.
use crate::analyzer::native::{lossy_string, lossy_text};
use crate::marshaled::{MarshaledValue, ValueModel};
use crate::text::{
    chars_of, decimal, decimal_text, law_decimal_reads_back, signed_of, starts, string_of,
};
use vstd::prelude::*;
use vstd::string::*;

verus! {

/// An owned value of a result. Floating-point payloads are kept as their bit
/// patterns.
#[derive(Debug)]
pub enum ResultValue {
    Nil,
    Boolean(bool),
    Number(u64),
    Integer(i64),
    Vector([u32; 3]),
    String(Vec<u8>),
    Buffer(Vec<u8>),
    Table(Vec<(ResultValue, ResultValue)>),
    Opaque(&'static str),
}

/// Model of a [`ResultValue`].
pub enum ResultModel {
    Nil,
    Boolean(bool),
    Number(u64),
    Integer(i64),
    Vector([u32; 3]),
    String(Seq<u8>),
    Buffer(Seq<u8>),
    Table(Seq<(ResultModel, ResultModel)>),
    Opaque(Seq<char>),
}

impl ResultValue {
    pub open spec fn view(&self) -> ResultModel
        decreases self,
    {
        match self {
            ResultValue::Nil => ResultModel::Nil,
            ResultValue::Boolean(b) => ResultModel::Boolean(*b),
            ResultValue::Number(n) => ResultModel::Number(*n),
            ResultValue::Integer(i) => ResultModel::Integer(*i),
            ResultValue::Vector(v) => ResultModel::Vector(*v),
            ResultValue::String(b) => ResultModel::String(b@),
            ResultValue::Buffer(b) => ResultModel::Buffer(b@),
            ResultValue::Table(pairs) => ResultModel::Table(
                Seq::new(
                    pairs@.len(),
                    |i: int|
                        if 0 <= i < pairs@.len() {
                            (pairs@[i].0.view(), pairs@[i].1.view())
                        } else {
                            arbitrary()
                        },
                ),
            ),
            ResultValue::Opaque(kind) => ResultModel::Opaque(kind@),
        }
    }
}

/// What a value that has left the machine is reported as: values that cannot
/// leave it are reduced to their type name.
pub open spec fn reported(value: ValueModel) -> ResultModel
    decreases value,
{
    match value {
        ValueModel::Nil => ResultModel::Nil,
        ValueModel::Boolean(b) => ResultModel::Boolean(b),
        ValueModel::Number(n) => ResultModel::Number(n),
        ValueModel::Integer(i) => ResultModel::Integer(i),
        ValueModel::Vector(v) => ResultModel::Vector(v),
        ValueModel::LightUserdata { .. } => ResultModel::Opaque("userdata"@),
        ValueModel::String(b) => ResultModel::String(b),
        ValueModel::Buffer(b) => ResultModel::Buffer(b),
        ValueModel::Table(pairs) => ResultModel::Table(
            Seq::new(
                pairs.len(),
                |i: int|
                    if 0 <= i < pairs.len() {
                        (reported(pairs[i].0), reported(pairs[i].1))
                    } else {
                        arbitrary()
                    },
            ),
        ),
        ValueModel::Opaque(kind) => ResultModel::Opaque(kind),
    }
}

/// Renders a raw heap value into owned data.
pub fn result_value(value: &MarshaledValue) -> (r: ResultValue)
    ensures
        r@ == reported(value@),
    decreases value,
{
    match value {
        MarshaledValue::Nil => ResultValue::Nil,
        MarshaledValue::Boolean(b) => ResultValue::Boolean(*b),
        MarshaledValue::Number(n) => ResultValue::Number(*n),
        MarshaledValue::Integer(i) => ResultValue::Integer(*i),
        MarshaledValue::Vector(v) => ResultValue::Vector(*v),
        MarshaledValue::LightUserdata { .. } => ResultValue::Opaque("userdata"),
        MarshaledValue::String(b) => ResultValue::String(
            vstd::slice::slice_to_vec(b.as_slice()),
        ),
        MarshaledValue::Buffer(b) => ResultValue::Buffer(
            vstd::slice::slice_to_vec(b.as_slice()),
        ),
        MarshaledValue::Table(pairs) => {
            let mut out: Vec<(ResultValue, ResultValue)> = Vec::new();
            let mut i: usize = 0;
            while i < pairs.len()
                invariant
                    i <= pairs.len(),
                    out@.len() == i,
                    decreases_to!(value => pairs),
                    forall|k: int|
                        0 <= k < i ==> (#[trigger] out@[k]).0@ == reported(pairs@[k].0@)
                            && out@[k].1@ == reported(pairs@[k].1@),
                decreases pairs.len() - i,
            {
                let pair = &pairs[i];
                proof {
                    assert(decreases_to!(pairs => pairs@));
                    assert(decreases_to!(pairs@ => pairs@[i as int]));
                    assert(decreases_to!(pairs@[i as int] => pairs@[i as int].0));
                    assert(decreases_to!(pairs@[i as int] => pairs@[i as int].1));
                }
                out.push((result_value(&pair.0), result_value(&pair.1)));
                i += 1;
            }
            let r = ResultValue::Table(out);
            assert(r@->Table_0 =~= reported(value@)->Table_0);
            r
        },
        MarshaledValue::Opaque(kind) => ResultValue::Opaque(*kind),
    }
}

/// The most characters of an error text that are shown.
pub const MAX_CHARS: usize = 200;

/// Whether a character is a control character.
pub open spec fn control(c: char) -> bool {
    c <= '\u{1f}' || '\u{7f}' <= c <= '\u{9f}'
}

/// A character as it is shown: control characters are spaces.
pub open spec fn shown(c: char) -> char {
    if control(c) {
        ' '
    } else {
        c
    }
}

/// A text on one line of bounded length; a longer one ends with an ellipsis.
pub open spec fn summary(text: Seq<char>) -> Seq<char> {
    if text.len() > MAX_CHARS {
        text.take(MAX_CHARS as int).map_values(|c: char| shown(c)).push('\u{2026}')
    } else {
        text.map_values(|c: char| shown(c))
    }
}

/// Collapses control characters to spaces and truncates to a bounded length, so
/// that no text can break a one-line message.
pub fn summarize_error_text(text: &str) -> (r: String)
    ensures
        r@ == summary(text@),
{
    let chars: Vec<char> = chars_of(text);
    let mut out: Vec<char> = Vec::new();
    let mut i: usize = 0;
    while i < chars.len() && i < MAX_CHARS
        invariant
            i <= chars.len(),
            i <= MAX_CHARS,
            chars@ == text@,
            out@ == text@.take(i as int).map_values(|c: char| shown(c)),
        decreases chars.len() - i,
    {
        let c = chars[i];
        if c <= '\u{1f}' || ('\u{7f}' <= c && c <= '\u{9f}') {
            out.push(' ');
        } else {
            out.push(c);
        }
        assert(out@ =~= text@.take(i + 1).map_values(|c: char| shown(c)));
        i += 1;
    }
    if i < chars.len() {
        out.push('\u{2026}');
    } else {
        assert(text@.take(i as int) =~= text@);
    }
    assert(out@ =~= summary(text@));
    string_of(out.as_slice())
}

/// A summary never holds a control character and is never longer than the
/// bound and its ellipsis.
pub proof fn law_summary_is_one_line(text: Seq<char>)
    ensures
        summary(text).len() <= MAX_CHARS + 1,
        forall|i: int| 0 <= i < summary(text).len() ==> !control(#[trigger] summary(text)[i]),
{
}

/// An integer in decimal.
pub open spec fn signed_decimal(i: int) -> Seq<char> {
    if i < 0 {
        "-"@ + decimal((-i) as nat)
    } else {
        decimal(i as nat)
    }
}

/// Writes an integer in decimal.
fn signed_text(i: i64) -> (r: String)
    ensures
        r@ == signed_decimal(i as int),
{
    if i < 0 {
        let n: u64 = (-(i as i128)) as u64;
        "-".to_owned().concat(decimal_text(n).as_str())
    } else {
        decimal_text(i as u64)
    }
}

/// An error value on one line. Floating-point numbers are left to the caller.
pub open spec fn error_line(value: ResultModel) -> Option<Seq<char>> {
    match value {
        ResultModel::Nil => Some("nil"@),
        ResultModel::Boolean(true) => Some("true"@),
        ResultModel::Boolean(false) => Some("false"@),
        ResultModel::Number(_) => None,
        ResultModel::Integer(i) => Some(signed_decimal(i as int)),
        ResultModel::Vector(_) => None,
        ResultModel::String(b) => Some(summary(lossy_text(b))),
        ResultModel::Buffer(b) => Some("<buffer: "@ + decimal(b.len()) + " bytes>"@),
        ResultModel::Table(_) => Some("<table>"@),
        ResultModel::Opaque(ty) => Some("<"@ + ty + ">"@),
    }
}

/// Renders an error value for a one-line message; `None` for a floating-point
/// number or vector, which the caller writes.
pub fn render_error_value(value: &ResultValue) -> (r: Option<String>)
    ensures
        match r {
            Some(s) => error_line(value@) == Some(s@),
            None => error_line(value@) is None,
        },
{
    match value {
        ResultValue::Nil => Some("nil".to_owned()),
        ResultValue::Boolean(b) => if *b {
            Some("true".to_owned())
        } else {
            Some("false".to_owned())
        },
        ResultValue::Number(_) => None,
        ResultValue::Integer(i) => Some(signed_text(*i)),
        ResultValue::Vector(_) => None,
        ResultValue::String(b) => Some(
            summarize_error_text(lossy_string(b.as_slice()).as_str()),
        ),
        ResultValue::Buffer(b) => Some(
            "<buffer: ".to_owned().concat(decimal_text(b.len() as u64).as_str()).concat(" bytes>"),
        ),
        ResultValue::Table(_) => Some("<table>".to_owned()),
        ResultValue::Opaque(ty) => Some("<".to_owned().concat(*ty).concat(">")),
    }
}

/// A request that failed. What lives outside is held by number.
#[derive(Clone, Copy, Debug, PartialEq, Eq, Structural)]
pub struct RequestFailure {
    pub error: u64,
    /// The category of the error.
    pub category: u64,
    /// Why the machine was stopped, if it was.
    pub stop_reason: Option<u64>,
}

/// How a request ended.
#[derive(Debug)]
pub enum RequestReportOutcome {
    Success { values: Vec<ResultValue> },
    Failure { error: u64 },
}

/// The report of a request. What lives outside is held by number.
#[derive(Debug)]
pub struct RequestReport {
    pub tenant: u64,
    pub outcome: RequestReportOutcome,
    pub metrics: u64,
    pub metadata: u64,
    pub failure_category: Option<u64>,
    pub stop_reason: Option<u64>,
}

/// The report of a request that returned values.
pub fn request_report_success(
    values: Vec<ResultValue>,
    metrics: u64,
    metadata: u64,
    tenant: u64,
) -> (r: RequestReport)
    ensures
        r == (RequestReport {
            tenant,
            outcome: RequestReportOutcome::Success { values },
            metrics,
            metadata,
            failure_category: None,
            stop_reason: None,
        }),
{
    RequestReport {
        tenant,
        outcome: RequestReportOutcome::Success { values },
        metrics,
        metadata,
        failure_category: None,
        stop_reason: None,
    }
}

/// The report of a request that failed: with the category of its error and
/// the reason of a stop.
pub fn request_report_error(
    failure: RequestFailure,
    metrics: u64,
    metadata: u64,
    tenant: u64,
) -> (r: RequestReport)
    ensures
        r == (RequestReport {
            tenant,
            outcome: RequestReportOutcome::Failure { error: failure.error },
            metrics,
            metadata,
            failure_category: Some(failure.category),
            stop_reason: failure.stop_reason,
        }),
{
    RequestReport {
        tenant,
        outcome: RequestReportOutcome::Failure { error: failure.error },
        metrics,
        metadata,
        failure_category: Some(failure.category),
        stop_reason: failure.stop_reason,
    }
}

/// A summary shows the text itself, character by character, with a space for
/// each control character; only what is longer than the bound is cut, and
/// ends with an ellipsis.
pub proof fn law_summary_shows_the_text(text: Seq<char>, i: int)
    ensures
        text.len() <= MAX_CHARS ==> summary(text).len() == text.len(),
        text.len() > MAX_CHARS ==> summary(text).len() == MAX_CHARS + 1 && summary(text).last()
            == '\u{2026}',
        0 <= i < text.len() && i < MAX_CHARS && !control(text[i]) ==> summary(text)[i] == text[i],
        0 <= i < text.len() && i < MAX_CHARS && control(text[i]) ==> summary(text)[i] == ' ',
{
}

/// A table is reported pair by pair, in its order, each key with its own
/// value; plain values are reported as they are.
pub proof fn law_values_are_reported(pairs: Seq<(ValueModel, ValueModel)>, bytes: Seq<u8>, n: i64)
    ensures
        reported(ValueModel::Table(pairs)) matches ResultModel::Table(out) && out.len()
            == pairs.len() && forall|i: int|
            0 <= i < pairs.len() ==> (#[trigger] out[i]).0 == reported(pairs[i].0) && out[i].1
                == reported(pairs[i].1),
        reported(ValueModel::String(bytes)) == ResultModel::String(bytes),
        reported(ValueModel::Buffer(bytes)) == ResultModel::Buffer(bytes),
        reported(ValueModel::Integer(n)) == ResultModel::Integer(n),
{
    let out = reported(ValueModel::Table(pairs))->Table_0;
    assert forall|i: int| 0 <= i < pairs.len() implies (#[trigger] out[i]).0 == reported(pairs[i].0)
        && out[i].1 == reported(pairs[i].1) by {}
}

/// An integer error reads back as the integer.
pub proof fn law_integer_error_reads_back(n: i64)
    ensures
        error_line(ResultModel::Integer(n)) matches Some(s) && signed_of(s) == Some(n as int),
{
    reveal_strlit("-");
    let s = signed_decimal(n as int);
    if n < 0 {
        let d = decimal((-(n as int)) as nat);
        law_decimal_reads_back((-(n as int)) as nat);
        assert(s.take(1) =~= "-"@);
        assert(s.skip(1) =~= d);
    } else {
        law_decimal_reads_back(n as nat);
        if starts(s, "-"@) {
            assert(s.take(1)[0] == s[0]);
        }
    }
}

} // verus!
