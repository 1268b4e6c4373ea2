//! Static `require(...)` specifiers of a source.
use super::{ModuleId, ModuleResolveError, ResolveFault, SourceSpan};
use crate::analyzer::native::{fits, lossy_string, lossy_text};
use crate::text::{decimal, decimal_text, texts};
use vstd::prelude::*;
use vstd::string::*;
use vstd::utf8::{decode_utf8, encode_utf8, valid_utf8};

verus! {

/// Literal require specifier with its source span.
#[derive(Debug)]
pub struct RequireSpecifier {
    /// Required module specifier.
    pub specifier: String,
    /// Location of the literal specifier in source.
    pub span: SourceSpan,
}

/// Model of a [`RequireSpecifier`].
#[verifier::ext_equal]
pub struct RequireModel {
    pub specifier: Seq<char>,
    pub span: SourceSpan,
}

impl RequireSpecifier {
    pub open spec fn view(&self) -> RequireModel {
        RequireModel { specifier: self.specifier@, span: self.span }
    }
}

/// Row of the native require trace.
#[derive(Debug)]
pub struct RawRequire {
    pub specifier: Vec<u8>,
    pub line: u32,
    pub col: u32,
    pub end_line: u32,
    pub end_col: u32,
}

/// Native require trace of a source: an error, or rows in source order.
#[derive(Debug)]
pub struct RawRequireTrace {
    pub error: Vec<u8>,
    pub specifiers: Vec<RawRequire>,
}

/// The specifier that a row stands for.
pub open spec fn row_require(row: RawRequire) -> RequireModel {
    RequireModel {
        specifier: lossy_text(row.specifier@),
        span: SourceSpan {
            line: row.line,
            column: row.col,
            end_line: row.end_line,
            end_column: row.end_col,
        },
    }
}

/// The literal requires of a source whose trace is given, or why it cannot be
/// read: it is too large, or the parser refused it.
pub open spec fn requires_of(
    module: Seq<char>,
    source: Seq<char>,
    trace: RawRequireTrace,
) -> Result<Seq<RequireModel>, ResolveFault> {
    let len = encode_utf8(source).len();
    if !fits(len) {
        Err(
            ResolveFault::Parse {
                module,
                message: "source is too large: "@ + decimal(len) + " bytes"@,
            },
        )
    } else if trace.error@.len() != 0 {
        Err(ResolveFault::Parse { module, message: lossy_text(trace.error@) })
    } else {
        Ok(trace.specifiers@.map_values(|row: RawRequire| row_require(row)))
    }
}

/// Decodes the literal requires of a source.
pub fn require_specifiers(module: &ModuleId, source: &str, trace: &RawRequireTrace) -> (r: Result<
    Vec<RequireSpecifier>,
    ModuleResolveError,
>)
    ensures
        match r {
            Ok(v) => requires_of(module@, source@, *trace) == Ok::<
                Seq<RequireModel>,
                ResolveFault,
            >(v@.map_values(|s: RequireSpecifier| s@)),
            Err(e) => requires_of(module@, source@, *trace) == Err::<
                Seq<RequireModel>,
                ResolveFault,
            >(e@),
        },
        r is Ok <==> encode_utf8(source@).len() <= u32::MAX && trace.error@.len() == 0,
        r matches Ok(v) ==> v@.len() == trace.specifiers@.len() && forall|k: int|
            0 <= k < v@.len() ==> {
                &&& valid_utf8(trace.specifiers@[k].specifier@) ==> (#[trigger] v@[k]).specifier@
                    == decode_utf8(trace.specifiers@[k].specifier@)
                &&& v@[k].span.line == trace.specifiers@[k].line
                &&& v@[k].span.column == trace.specifiers@[k].col
                &&& v@[k].span.end_line == trace.specifiers@[k].end_line
                &&& v@[k].span.end_column == trace.specifiers@[k].end_col
            },
{
    let len: usize = source.as_bytes().len();
    if len > 0xffff_ffff {
        return Err(
            ModuleResolveError::Parse {
                module: module.label.clone(),
                message: "source is too large: ".to_owned().concat(
                    decimal_text(len as u64).as_str(),
                ).concat(" bytes"),
            },
        );
    }
    if trace.error.len() != 0 {
        return Err(
            ModuleResolveError::Parse {
                module: module.label.clone(),
                message: lossy_string(trace.error.as_slice()),
            },
        );
    }
    let rows = &trace.specifiers;
    let mut out: Vec<RequireSpecifier> = Vec::new();
    let mut i: usize = 0;
    while i < rows.len()
        invariant
            i <= rows.len(),
            out@.len() == i,
            forall|k: int| 0 <= k < i ==> (#[trigger] out@[k])@ == row_require(rows@[k]),
            forall|k: int|
                0 <= k < i && valid_utf8(rows@[k].specifier@) ==> (#[trigger] out@[k]).specifier@
                    == decode_utf8(rows@[k].specifier@),
        decreases rows.len() - i,
    {
        let row = &rows[i];
        out.push(
            RequireSpecifier {
                specifier: lossy_string(row.specifier.as_slice()),
                span: SourceSpan {
                    line: row.line,
                    column: row.col,
                    end_line: row.end_line,
                    end_column: row.end_col,
                },
            },
        );
        i += 1;
    }
    assert(out@.map_values(|s: RequireSpecifier| s@) =~= rows@.map_values(
        |row: RawRequire| row_require(row),
    ));
    Ok(out)
}

/// Returns the direct string-literal `require(...)` specifiers of a source, in
/// source order.
pub fn required_specifiers(module: &ModuleId, source: &str, trace: &RawRequireTrace) -> (r: Result<
    Vec<String>,
    ModuleResolveError,
>)
    ensures
        match r {
            Ok(v) => requires_of(module@, source@, *trace) matches Ok(rows) && texts(v@)
                == rows.map_values(|m: RequireModel| m.specifier),
            Err(e) => requires_of(module@, source@, *trace) == Err::<
                Seq<RequireModel>,
                ResolveFault,
            >(e@),
        },
        r matches Ok(v) ==> v@.len() == trace.specifiers@.len() && forall|k: int|
            0 <= k < v@.len() && valid_utf8(trace.specifiers@[k].specifier@) ==> (
            #[trigger] v@[k])@ == decode_utf8(trace.specifiers@[k].specifier@),
{
    let rows = match require_specifiers(module, source, trace) {
        Ok(rows) => rows,
        Err(e) => {
            return Err(e);
        },
    };
    let mut out: Vec<String> = Vec::new();
    let mut i: usize = 0;
    while i < rows.len()
        invariant
            i <= rows.len(),
            out@.len() == i,
            forall|k: int| 0 <= k < i ==> (#[trigger] out@[k])@ == rows@[k].specifier@,
        decreases rows.len() - i,
    {
        out.push(rows[i].specifier.clone());
        i += 1;
    }
    assert(texts(out@) =~= rows@.map_values(|s: RequireSpecifier| s@).map_values(
        |m: RequireModel| m.specifier,
    ));
    Ok(out)
}

/// Returns the direct string-literal `require(...)` specifiers of a source
/// with their spans, in source order.
pub fn required_specifiers_with_spans(
    module: &ModuleId,
    source: &str,
    trace: &RawRequireTrace,
) -> (r: Result<Vec<RequireSpecifier>, ModuleResolveError>)
    ensures
        match r {
            Ok(v) => requires_of(module@, source@, *trace) == Ok::<
                Seq<RequireModel>,
                ResolveFault,
            >(v@.map_values(|s: RequireSpecifier| s@)),
            Err(e) => requires_of(module@, source@, *trace) == Err::<
                Seq<RequireModel>,
                ResolveFault,
            >(e@),
        },
{
    require_specifiers(module, source, trace)
}

} // verus!
