//! Packing of checker inputs and decoding of native results.
use super::interfaces::{virtual_models, VirtualModel};
use super::{
    diagnostic_models, AnalysisError, AnalysisFault, CancellationToken, CheckOptions,
    CheckerOptions, Diagnostic, DiagnosticModel, Severity,
};
use crate::resolver::{ModuleId, SourceSpan};
use crate::sorted::{compare_text, lemma_text_less_order, text_less, Side};
use vstd::multiset::Multiset;
use vstd::prelude::*;
use vstd::seq_lib::*;
use vstd::slice::slice_to_vec;
use vstd::string::*;
use vstd::utf8::{decode_utf8, encode_utf8, valid_utf8};

verus! {

/// What `String::from_utf8_lossy` makes of bytes.
pub uninterp spec fn lossy_text(bytes: Seq<u8>) -> Seq<char>;

/// Decodes bytes through `String::from_utf8_lossy`: the text of valid UTF-8,
/// and otherwise a text in which invalid sequences are replaced, which is a
/// function of the bytes.
#[verifier::external_body]
pub(crate) fn lossy_string(bytes: &[u8]) -> (r: String)
    ensures
        r@ == lossy_text(bytes@),
        valid_utf8(bytes@) ==> r@ == decode_utf8(bytes@),
{
    String::from_utf8_lossy(bytes).into_owned()
}

/// Whether a length fits the native length type.
pub open spec fn fits(len: nat) -> bool {
    len <= u32::MAX
}

/// The failure of an input that does not fit.
pub open spec fn too_large(kind: Seq<char>, len: nat) -> AnalysisFault {
    AnalysisFault::InputTooLarge { kind, len }
}

/// Checks that a text fits the native length type.
pub fn ffi_len(value: &str, kind: &'static str) -> (r: Result<u32, AnalysisError>)
    ensures
        match r {
            Ok(n) => n == encode_utf8(value@).len(),
            Err(e) => !fits(encode_utf8(value@).len()) && e@ == too_large(
                kind@,
                encode_utf8(value@).len(),
            ),
        },
{
    let len: usize = value.as_bytes().len();
    if len > 0xffff_ffff {
        return Err(AnalysisError::InputTooLarge { kind, len });
    }
    Ok(len as u32)
}

/// One owned virtual module.
#[derive(Debug)]
pub struct OwnedVirtualModule {
    pub name: Vec<u8>,
    pub name_len: u32,
    pub source: Vec<u8>,
    pub source_len: u32,
}

/// Model of an [`OwnedVirtualModule`]: its bytes, whose lengths are as given.
#[verifier::ext_equal]
pub struct VirtualBytes {
    pub name: Seq<u8>,
    pub source: Seq<u8>,
}

impl OwnedVirtualModule {
    pub open spec fn view(&self) -> VirtualBytes {
        VirtualBytes { name: self.name@, source: self.source@ }
    }

    /// The stored lengths are those of the bytes.
    pub open spec fn wf(&self) -> bool {
        self.name_len == self.name@.len() && self.source_len == self.source@.len()
    }
}

/// Owned inputs of one native check.
#[derive(Debug)]
pub struct OwnedCheckInputs {
    pub module_id: ModuleId,
    pub source: Vec<u8>,
    pub source_len: u32,
    pub module_name: Vec<u8>,
    pub module_name_len: u32,
    pub timeout: Option<std::time::Duration>,
    pub virtual_modules: Vec<OwnedVirtualModule>,
}

/// Model of [`OwnedCheckInputs`].
#[verifier::ext_equal]
pub struct InputsModel {
    pub module_id: Seq<char>,
    pub source: Seq<u8>,
    pub module_name: Seq<u8>,
    pub timeout: Option<std::time::Duration>,
    pub virtual_modules: Seq<VirtualBytes>,
}

impl OwnedCheckInputs {
    pub open spec fn view(&self) -> InputsModel {
        InputsModel {
            module_id: self.module_id@,
            source: self.source@,
            module_name: self.module_name@,
            timeout: self.timeout,
            virtual_modules: self.virtual_modules@.map_values(|m: OwnedVirtualModule| m@),
        }
    }

    /// The stored lengths are those of the bytes, and the modules can be
    /// counted in the native length type.
    pub open spec fn wf(&self) -> bool {
        &&& self.source_len == self.source@.len()
        &&& self.module_name_len == self.module_name@.len()
        &&& fits(self.virtual_modules@.len())
        &&& forall|i: int|
            0 <= i < self.virtual_modules@.len() ==> (#[trigger] self.virtual_modules@[i]).wf()
    }
}

/// What a call asks of a check.
#[verifier::ext_equal]
pub struct CheckCall {
    pub timeout: Option<std::time::Duration>,
    pub module_name: Option<Seq<char>>,
    pub cancellation_token: Option<CancellationToken>,
    pub virtual_modules: Seq<VirtualModel>,
}

impl CheckOptions<'_> {
    pub open spec fn view(&self) -> CheckCall {
        CheckCall {
            timeout: self.timeout,
            module_name: match self.module_name {
                Some(name) => Some(name@),
                None => None,
            },
            cancellation_token: self.cancellation_token,
            virtual_modules: virtual_models(self.virtual_modules@),
        }
    }
}

/// The first of `n` virtual modules that does not fit, with its name checked
/// before its source.
pub open spec fn virtual_fault(modules: Seq<VirtualModel>, n: int) -> Option<AnalysisFault>
    decreases n,
{
    if n <= 0 {
        None
    } else {
        let m = modules[n - 1];
        match virtual_fault(modules, n - 1) {
            Some(e) => Some(e),
            None => if !fits(encode_utf8(m.name).len()) {
                Some(too_large("virtual module name"@, encode_utf8(m.name).len()))
            } else if !fits(encode_utf8(m.source).len()) {
                Some(too_large("virtual module source"@, encode_utf8(m.source).len()))
            } else {
                None
            },
        }
    }
}

/// The module label of a check: the one of the call, or the default one.
pub open spec fn label_of(call: CheckCall, defaults: CheckerOptions) -> Seq<char> {
    match call.module_name {
        Some(name) => name,
        None => defaults.default_module_name@,
    }
}

/// A virtual module as bytes.
pub open spec fn as_bytes(m: VirtualModel) -> VirtualBytes {
    VirtualBytes { name: encode_utf8(m.name), source: encode_utf8(m.source) }
}

/// The owned inputs of a check, or the first input that is too large: the
/// source, the module name, each virtual module, and their number.
pub open spec fn inputs_of(
    source: Seq<char>,
    call: CheckCall,
    defaults: CheckerOptions,
) -> Result<InputsModel, AnalysisFault> {
    let modules = call.virtual_modules;
    let label = label_of(call, defaults);
    if !fits(encode_utf8(source).len()) {
        Err(too_large("source"@, encode_utf8(source).len()))
    } else if !fits(encode_utf8(label).len()) {
        Err(too_large("module name"@, encode_utf8(label).len()))
    } else {
        match virtual_fault(modules, modules.len() as int) {
            Some(e) => Err(e),
            None => if !fits(modules.len()) {
                Err(too_large("virtual modules"@, modules.len()))
            } else {
                Ok(
                    InputsModel {
                        module_id: label,
                        source: encode_utf8(source),
                        module_name: encode_utf8(label),
                        timeout: match call.timeout {
                            Some(t) => Some(t),
                            None => defaults.default_timeout,
                        },
                        virtual_modules: modules.map_values(|m: VirtualModel| as_bytes(m)),
                    },
                )
            },
        }
    }
}

proof fn lemma_virtual_fault(modules: Seq<VirtualModel>, i: int, n: int)
    requires
        0 <= i <= n,
        virtual_fault(modules, i) is Some,
    ensures
        virtual_fault(modules, n) == virtual_fault(modules, i),
    decreases n - i,
{
    if i < n {
        lemma_virtual_fault(modules, i, n - 1);
    }
}

proof fn lemma_no_virtual_fault(modules: Seq<VirtualModel>, n: int)
    requires
        0 <= n <= modules.len(),
    ensures
        virtual_fault(modules, n) is None <==> forall|i: int|
            0 <= i < n ==> encode_utf8((#[trigger] modules[i]).name).len() <= u32::MAX
                && encode_utf8(modules[i].source).len() <= u32::MAX,
    decreases n,
{
    if n > 0 {
        lemma_no_virtual_fault(modules, n - 1);
        assert(virtual_fault(modules, n) is None <==> virtual_fault(modules, n - 1) is None
            && encode_utf8(modules[n - 1].name).len() <= u32::MAX && encode_utf8(
            modules[n - 1].source,
        ).len() <= u32::MAX);
    }
}

/// Inputs are refused only where one of them is too large: the source, the
/// label, the name or the source of a virtual module, or their number.
pub proof fn law_inputs_are_taken(source: Seq<char>, call: CheckCall, defaults: CheckerOptions)
    ensures
        inputs_of(source, call, defaults) is Ok <==> encode_utf8(source).len() <= u32::MAX
            && encode_utf8(
            match call.module_name {
                Some(name) => name,
                None => defaults.default_module_name@,
            },
        ).len() <= u32::MAX && call.virtual_modules.len() <= u32::MAX && forall|i: int|
            0 <= i < call.virtual_modules.len() ==> encode_utf8(
                (#[trigger] call.virtual_modules[i]).name,
            ).len() <= u32::MAX && encode_utf8(call.virtual_modules[i].source).len() <= u32::MAX,
{
    lemma_no_virtual_fault(call.virtual_modules, call.virtual_modules.len() as int);
}

/// What the checker reads is what the caller gave: the packed bytes decode to
/// the source, to the label of the call or else the default one, and module by
/// module, in order, to the names and the sources of the virtual modules.
pub proof fn law_inputs_read_back(source: Seq<char>, call: CheckCall, defaults: CheckerOptions)
    ensures
        inputs_of(source, call, defaults) matches Ok(inputs) ==> {
            &&& decode_utf8(inputs.source) == source
            &&& decode_utf8(inputs.module_name) == inputs.module_id
            &&& call.module_name matches Some(name) ==> inputs.module_id == name
            &&& call.module_name is None ==> inputs.module_id == defaults.default_module_name@
            &&& call.timeout is Some ==> inputs.timeout == call.timeout
            &&& call.timeout is None ==> inputs.timeout == defaults.default_timeout
            &&& inputs.virtual_modules.len() == call.virtual_modules.len()
            &&& forall|i: int|
                0 <= i < call.virtual_modules.len() ==> decode_utf8(
                    (#[trigger] inputs.virtual_modules[i]).name,
                ) == call.virtual_modules[i].name && decode_utf8(inputs.virtual_modules[i].source)
                    == call.virtual_modules[i].source
        },
{
    broadcast use vstd::utf8::encode_utf8_decode_utf8;

}

impl OwnedCheckInputs {
    /// Copies borrowed inputs, after checking that each fits the native
    /// length type.
    pub fn from_borrowed(
        source: &str,
        options: &CheckOptions<'_>,
        defaults: &CheckerOptions,
    ) -> (r: Result<Self, AnalysisError>)
        ensures
            match r {
                Ok(inputs) => inputs.wf() && inputs_of(source@, options@, *defaults) == Ok::<
                    InputsModel,
                    AnalysisFault,
                >(inputs@),
                Err(e) => inputs_of(source@, options@, *defaults) == Err::<
                    InputsModel,
                    AnalysisFault,
                >(e@),
            },
            r matches Ok(inputs) ==> decode_utf8(inputs.source@) == source@,
            r matches Ok(inputs) ==> decode_utf8(inputs.module_name@) == inputs.module_id@
                && inputs.module_id@ == (match options.module_name {
                Some(name) => name@,
                None => defaults.default_module_name@,
            }),
            r matches Ok(inputs) ==> inputs.timeout == (match options.timeout {
                Some(t) => Some(t),
                None => defaults.default_timeout,
            }),
            r matches Ok(inputs) ==> inputs.virtual_modules@.len() == options.virtual_modules@.len()
                && forall|i: int|
                0 <= i < options.virtual_modules@.len() ==> decode_utf8(
                    (#[trigger] inputs.virtual_modules@[i]).name@,
                ) == options.virtual_modules@[i].name@ && decode_utf8(
                    inputs.virtual_modules@[i].source@,
                ) == options.virtual_modules@[i].source@,
            r is Ok <==> encode_utf8(source@).len() <= u32::MAX && encode_utf8(
                match options.module_name {
                    Some(name) => name@,
                    None => defaults.default_module_name@,
                },
            ).len() <= u32::MAX && options.virtual_modules@.len() <= u32::MAX && forall|i: int|
                0 <= i < options.virtual_modules@.len() ==> encode_utf8(
                    (#[trigger] options.virtual_modules@[i]).name@,
                ).len() <= u32::MAX && encode_utf8(options.virtual_modules@[i].source@).len()
                    <= u32::MAX,
    {
        proof {
            law_inputs_read_back(source@, options@, *defaults);
            law_inputs_are_taken(source@, options@, *defaults);
            assert forall|i: int| 0 <= i < options.virtual_modules@.len() implies (
            #[trigger] options.virtual_modules@[i])@ == options@.virtual_modules[i] by {}
            assert forall|i: int| 0 <= i < options.virtual_modules@.len() implies (
            #[trigger] options@.virtual_modules[i]) == options.virtual_modules@[i]@ by {}
        }
        let source_len: u32 = match ffi_len(source, "source") {
            Ok(n) => n,
            Err(e) => {
                return Err(e);
            },
        };
        let module_name = match options.module_name {
            Some(name) => name,
            None => defaults.default_module_name.as_str(),
        };
        let module_name_len: u32 = match ffi_len(module_name, "module name") {
            Ok(n) => n,
            Err(e) => {
                return Err(e);
            },
        };
        let modules = options.virtual_modules;
        let ghost all = virtual_models(modules@);
        let mut storage: Vec<OwnedVirtualModule> = Vec::new();
        let mut i: usize = 0;
        while i < modules.len()
            invariant
                i <= modules.len(),
                all == virtual_models(modules@),
                all == options@.virtual_modules,
                virtual_fault(all, i as int) is None,
                virtual_fault(all, all.len() as int) matches Some(e) ==> inputs_of(
                    source@,
                    options@,
                    *defaults,
                ) == Err::<InputsModel, AnalysisFault>(e),
                storage@.len() == i,
                forall|k: int| 0 <= k < i ==> (#[trigger] storage@[k]).wf(),
                forall|k: int| 0 <= k < i ==> (#[trigger] storage@[k])@ == as_bytes(all[k]),
            decreases modules.len() - i,
        {
            let module = modules[i];
            proof {
                assert(all[i as int] == module@);
                if virtual_fault(all, i + 1) is Some {
                    lemma_virtual_fault(all, i + 1, all.len() as int);
                }
            }
            let name_len: u32 = match ffi_len(module.name, "virtual module name") {
                Ok(n) => n,
                Err(e) => {
                    return Err(e);
                },
            };
            let source_len: u32 = match ffi_len(module.source, "virtual module source") {
                Ok(n) => n,
                Err(e) => {
                    return Err(e);
                },
            };
            storage.push(
                OwnedVirtualModule {
                    name: slice_to_vec(module.name.as_bytes()),
                    name_len,
                    source: slice_to_vec(module.source.as_bytes()),
                    source_len,
                },
            );
            i += 1;
        }
        if modules.len() > 0xffff_ffff {
            return Err(
                AnalysisError::InputTooLarge { kind: "virtual modules", len: modules.len() },
            );
        }
        let inputs = OwnedCheckInputs {
            module_id: ModuleId::new(module_name),
            source: slice_to_vec(source.as_bytes()),
            source_len,
            module_name: slice_to_vec(module_name.as_bytes()),
            module_name_len,
            timeout: match options.timeout {
                Some(t) => Some(t),
                None => defaults.default_timeout,
            },
            virtual_modules: storage,
        };
        proof {
            assert(inputs@.virtual_modules =~= all.map_values(|m: VirtualModel| as_bytes(m)));
            assert forall|k: int| 0 <= k < storage@.len() implies (
            #[trigger] inputs.virtual_modules@[k])@ == inputs@.virtual_modules[k] by {}
        }
        Ok(inputs)
    }
}

/// A diagnostic row of the native checker.
#[derive(Debug)]
pub struct RawDiagnostic {
    pub line: u32,
    pub col: u32,
    pub end_line: u32,
    pub end_col: u32,
    pub severity: u32,
    pub message: Vec<u8>,
}

/// The diagnostic that a native row stands for.
pub open spec fn row_diagnostic(row: RawDiagnostic, module: Seq<char>) -> DiagnosticModel {
    DiagnosticModel {
        module,
        span: SourceSpan {
            line: row.line,
            column: row.col,
            end_line: row.end_line,
            end_column: row.end_col,
        },
        severity: if row.severity == 0 {
            Severity::Error
        } else {
            Severity::Warning
        },
        message: lossy_text(row.message@),
    }
}

/// The diagnostics that native rows stand for.
pub open spec fn row_diagnostics(rows: Seq<RawDiagnostic>, module: Seq<char>) -> Seq<
    DiagnosticModel,
> {
    rows.map_values(|row: RawDiagnostic| row_diagnostic(row, module))
}

/// Converts native rows into diagnostics of a module.
pub fn collect_diagnostics(rows: &[RawDiagnostic], module: &ModuleId) -> (r: Vec<Diagnostic>)
    ensures
        diagnostic_models(r@) == row_diagnostics(rows@, module@),
        r@.len() == rows@.len(),
        forall|k: int|
            0 <= k < rows@.len() ==> {
                &&& (#[trigger] r@[k]).module@ == module@
                &&& r@[k].span.line == rows@[k].line
                &&& r@[k].span.column == rows@[k].col
                &&& r@[k].span.end_line == rows@[k].end_line
                &&& r@[k].span.end_column == rows@[k].end_col
                &&& r@[k].severity == Severity::Error <==> rows@[k].severity == 0
                &&& valid_utf8(rows@[k].message@) ==> r@[k].message@ == decode_utf8(
                    rows@[k].message@,
                )
            },
{
    let mut out: Vec<Diagnostic> = Vec::new();
    let mut i: usize = 0;
    while i < rows.len()
        invariant
            i <= rows.len(),
            out@.len() == i,
            forall|k: int| 0 <= k < i ==> (#[trigger] out@[k])@ == row_diagnostic(rows@[k], module@),
            forall|k: int|
                0 <= k < i && valid_utf8(rows@[k].message@) ==> (#[trigger] out@[k]).message@
                    == decode_utf8(rows@[k].message@),
        decreases rows.len() - i,
    {
        let row = &rows[i];
        out.push(
            Diagnostic {
                module: module.clone(),
                span: SourceSpan {
                    line: row.line,
                    column: row.col,
                    end_line: row.end_line,
                    end_column: row.end_col,
                },
                severity: Severity::from_ffi(row.severity),
                message: lossy_string(row.message.as_slice()),
            },
        );
        i += 1;
    }
    assert(diagnostic_models(out@) =~= row_diagnostics(rows@, module@));
    out
}

/// Spans in lexicographic order of their positions.
pub open spec fn span_less(a: SourceSpan, b: SourceSpan) -> bool {
    if a.line != b.line {
        a.line < b.line
    } else if a.column != b.column {
        a.column < b.column
    } else if a.end_line != b.end_line {
        a.end_line < b.end_line
    } else {
        a.end_column < b.end_column
    }
}

/// Errors stand before warnings.
pub open spec fn severity_less(a: Severity, b: Severity) -> bool {
    a == Severity::Error && b == Severity::Warning
}

/// Diagnostics by module, location, severity and message.
pub open spec fn diagnostic_less(a: DiagnosticModel, b: DiagnosticModel) -> bool {
    if a.module != b.module {
        text_less(a.module, b.module)
    } else if a.span != b.span {
        span_less(a.span, b.span)
    } else if a.severity != b.severity {
        severity_less(a.severity, b.severity)
    } else {
        text_less(a.message, b.message)
    }
}

/// Whether no diagnostic stands after one that comes before it in the order.
pub open spec fn sorted_diagnostics(v: Seq<DiagnosticModel>) -> bool {
    forall|i: int, j: int|
        #![trigger v[i], v[j]]
        0 <= i < j < v.len() ==> !diagnostic_less(v[j], v[i])
}

/// The order of diagnostics is a strict total order.
pub proof fn lemma_diagnostic_order(a: DiagnosticModel, b: DiagnosticModel, c: DiagnosticModel)
    ensures
        !diagnostic_less(a, a),
        diagnostic_less(a, b) && diagnostic_less(b, c) ==> diagnostic_less(a, c),
        diagnostic_less(a, b) || diagnostic_less(b, a) || a == b,
        !(diagnostic_less(a, b) && diagnostic_less(b, a)),
{
    lemma_text_less_order(a.module, b.module, c.module);
    lemma_text_less_order(a.message, b.message, c.message);
    lemma_text_less_order(b.module, a.module, c.module);
    lemma_text_less_order(b.message, a.message, c.message);
    lemma_text_less_order(b.module, c.module, b.module);
    lemma_text_less_order(b.message, c.message, b.message);
}

/// Compares two diagnostics.
fn comes_before(a: &Diagnostic, b: &Diagnostic) -> (r: bool)
    ensures
        r == diagnostic_less(a@, b@),
{
    proof {
        lemma_text_less_order(a@.module, b@.module, a@.module);
        lemma_text_less_order(a@.message, b@.message, a@.message);
    }
    match compare_text(a.module.as_str(), b.module.as_str()) {
        Side::Before => true,
        Side::After => false,
        Side::Same => {
            if a.span.line != b.span.line {
                a.span.line < b.span.line
            } else if a.span.column != b.span.column {
                a.span.column < b.span.column
            } else if a.span.end_line != b.span.end_line {
                a.span.end_line < b.span.end_line
            } else if a.span.end_column != b.span.end_column {
                a.span.end_column < b.span.end_column
            } else if a.severity != b.severity {
                a.severity == Severity::Error
            } else {
                matches!(compare_text(a.message.as_str(), b.message.as_str()), Side::Before)
            }
        },
    }
}

/// Puts a diagnostic at its place in a sorted list.
fn insert_sorted(out: &mut Vec<Diagnostic>, d: Diagnostic)
    requires
        sorted_diagnostics(diagnostic_models(old(out)@)),
    ensures
        sorted_diagnostics(diagnostic_models(final(out)@)),
        diagnostic_models(final(out)@).to_multiset() == diagnostic_models(
            old(out)@,
        ).to_multiset().insert(d@),
        final(out)@.len() == old(out)@.len() + 1,
{
    let ghost before = diagnostic_models(out@);
    let mut i: usize = 0;
    while i < out.len() && comes_before(&out[i], &d)
        invariant
            i <= out.len(),
            before == diagnostic_models(out@),
            before == diagnostic_models(old(out)@),
            forall|k: int| 0 <= k < i ==> diagnostic_less(#[trigger] before[k], d@),
        decreases out.len() - i,
    {
        assert(before[i as int] == out@[i as int]@);
        i += 1;
    }
    let ghost m = d@;
    proof {
        if i < out.len() {
            assert(before[i as int] == out@[i as int]@);
        }
    }
    out.insert(i, d);
    let ghost after = diagnostic_models(out@);
    proof {
        assert(after =~= before.insert(i as int, m));
        to_multiset_insert(before, i as int, m);
        assert forall|x: int, y: int|
            #![trigger after[x], after[y]]
            0 <= x < y < after.len() implies !diagnostic_less(after[y], after[x]) by {
            let a = if x < i {
                before[x]
            } else {
                before[x - 1]
            };
            let b = if y < i {
                before[y]
            } else {
                before[y - 1]
            };
            if x == i {
                // The new one stands before `b`: nothing before it comes after it.
                let at = before[i as int];
                lemma_diagnostic_order(b, at, m);
                lemma_diagnostic_order(at, b, m);
                lemma_diagnostic_order(b, m, at);
                lemma_diagnostic_order(m, at, b);
                assert(after[y] == b);
                if y - 1 > i {
                    assert(!diagnostic_less(before[y - 1], before[i as int]));
                }
            } else if y == i {
                assert(after[x] == a);
                assert(diagnostic_less(before[x], m));
                lemma_diagnostic_order(a, m, a);
            } else {
                assert(after[x] == a && after[y] == b);
            }
        }
    }
}

/// Sorts diagnostics by module, location, severity and message.
pub fn sort_diagnostics(mut v: Vec<Diagnostic>) -> (r: Vec<Diagnostic>)
    ensures
        sorted_diagnostics(diagnostic_models(r@)),
        diagnostic_models(r@).to_multiset() == diagnostic_models(v@).to_multiset(),
        r@.len() == v@.len(),
{
    let ghost all = diagnostic_models(v@);
    let mut out: Vec<Diagnostic> = Vec::new();
    proof {
        assert(diagnostic_models(out@) =~= Seq::empty());
        broadcast use vstd::seq_lib::group_to_multiset_ensures;

        assert(diagnostic_models(out@).to_multiset().add(all.to_multiset())
            =~= all.to_multiset());
    }
    while v.len() > 0
        invariant
            sorted_diagnostics(diagnostic_models(out@)),
            diagnostic_models(out@).to_multiset().add(diagnostic_models(v@).to_multiset())
                == all.to_multiset(),
            out@.len() + v@.len() == all.len(),
        decreases v.len(),
    {
        let ghost rest = diagnostic_models(v@);
        let ghost had = diagnostic_models(out@).to_multiset();
        match v.pop() {
            None => {},
            Some(d) => {
                insert_sorted(&mut out, d);
                proof {
                    broadcast use vstd::seq_lib::group_to_multiset_ensures;

                    assert(rest =~= diagnostic_models(v@).push(d@));
                    to_multiset_build(diagnostic_models(v@), d@);
                    assert(had.insert(d@).add(diagnostic_models(v@).to_multiset()) =~= had.add(
                        rest.to_multiset(),
                    ));
                }
            },
        }
    }
    proof {
        broadcast use vstd::seq_lib::group_to_multiset_ensures;

        assert(diagnostic_models(v@) =~= Seq::empty());
        assert(diagnostic_models(out@).to_multiset().add(Multiset::empty()) =~= diagnostic_models(
            out@,
        ).to_multiset());
    }
    out
}

/// The order in which native rows arrive does not matter: a list of
/// diagnostics has one sorted form.
pub proof fn law_sorted_once(x: Seq<DiagnosticModel>, y: Seq<DiagnosticModel>)
    requires
        sorted_diagnostics(x),
        sorted_diagnostics(y),
        x.to_multiset() == y.to_multiset(),
    ensures
        x == y,
{
    let leq = |a: DiagnosticModel, b: DiagnosticModel| !diagnostic_less(b, a);
    assert forall|a: DiagnosticModel, b: DiagnosticModel|
        #![trigger leq(a, b), leq(b, a)]
        leq(a, b) && leq(b, a) implies a == b by {
        lemma_diagnostic_order(a, b, a);
    }
    assert forall|a: DiagnosticModel, b: DiagnosticModel, c: DiagnosticModel|
        #![trigger leq(a, b), leq(b, c)]
        leq(a, b) && leq(b, c) implies leq(a, c) by {
        lemma_diagnostic_order(c, b, a);
        lemma_diagnostic_order(b, a, c);
        lemma_diagnostic_order(b, c, a);
        lemma_diagnostic_order(a, b, c);
        lemma_diagnostic_order(c, a, b);
    }
    assert forall|a: DiagnosticModel, b: DiagnosticModel|
        #![trigger leq(a, b)]
        #![trigger leq(b, a)]
        leq(a, b) || leq(b, a) by {
        lemma_diagnostic_order(a, b, a);
    }
    assert forall|a: DiagnosticModel| #[trigger] leq(a, a) by {
        lemma_diagnostic_order(a, a, a);
    }
    assert(vstd::relations::total_ordering(leq));
    lemma_sorted_unique(x, y, leq);
}

/// Sorted diagnostics of one module follow its text: by line, within a line by
/// column, and an error stands in front of a warning at the same place.
/// Modules stand in the order of their names.
pub proof fn law_diagnostics_follow_source(v: Seq<DiagnosticModel>, i: int, j: int)
    requires
        sorted_diagnostics(v),
        0 <= i < j < v.len(),
    ensures
        !text_less(v[j].module, v[i].module),
        v[i].module == v[j].module ==> v[i].span.line <= v[j].span.line,
        v[i].module == v[j].module && v[i].span.line == v[j].span.line ==> v[i].span.column
            <= v[j].span.column,
        v[i].module == v[j].module && v[i].span == v[j].span && v[j].severity == Severity::Error
            ==> v[i].severity == Severity::Error,
{
    lemma_text_less_order(v[i].module, v[j].module, v[i].module);
}

/// Parameter row of the native entrypoint extraction.
#[derive(Debug)]
pub struct RawParam {
    pub name: Vec<u8>,
    pub annotation: Vec<u8>,
    pub optional: u32,
}

/// A parameter extracted from a direct functional entrypoint.
#[derive(Debug)]
pub struct EntrypointParam {
    /// Parameter name in source order.
    pub name: String,
    /// Type annotation text as written.
    pub annotation: String,
    /// Whether the parameter is syntactically optional.
    pub optional: bool,
}

/// Parsed schema for a direct `return function(...) ... end` chunk.
#[derive(Debug)]
pub struct EntrypointSchema {
    /// Ordered parameter list for the returned function literal.
    pub params: Vec<EntrypointParam>,
}

/// Model of an [`EntrypointParam`].
#[verifier::ext_equal]
pub struct ParamModel {
    pub name: Seq<char>,
    pub annotation: Seq<char>,
    pub optional: bool,
}

impl EntrypointParam {
    pub open spec fn view(&self) -> ParamModel {
        ParamModel { name: self.name@, annotation: self.annotation@, optional: self.optional }
    }
}

impl EntrypointSchema {
    /// The parameters in order.
    pub open spec fn view(&self) -> Seq<ParamModel> {
        self.params@.map_values(|p: EntrypointParam| p@)
    }
}

impl Default for EntrypointSchema {
    fn default() -> (r: Self)
        ensures
            r@ == Seq::<ParamModel>::empty(),
    {
        let r = EntrypointSchema { params: Vec::new() };
        assert(r@ =~= Seq::<ParamModel>::empty());
        r
    }
}

/// The parameter that a native row stands for.
pub open spec fn row_param(row: RawParam) -> ParamModel {
    ParamModel {
        name: lossy_text(row.name@),
        annotation: lossy_text(row.annotation@),
        optional: row.optional != 0,
    }
}

/// Converts parameter rows.
pub fn collect_entrypoint_params(rows: &[RawParam]) -> (r: Vec<EntrypointParam>)
    ensures
        r@.map_values(|p: EntrypointParam| p@) == rows@.map_values(|row: RawParam| row_param(row)),
        r@.len() == rows@.len(),
        forall|k: int|
            0 <= k < rows@.len() ==> {
                &&& valid_utf8(rows@[k].name@) ==> (#[trigger] r@[k]).name@ == decode_utf8(
                    rows@[k].name@,
                )
                &&& valid_utf8(rows@[k].annotation@) ==> r@[k].annotation@ == decode_utf8(
                    rows@[k].annotation@,
                )
                &&& r@[k].optional <==> rows@[k].optional != 0
            },
{
    let mut out: Vec<EntrypointParam> = Vec::new();
    let mut i: usize = 0;
    while i < rows.len()
        invariant
            i <= rows.len(),
            out@.len() == i,
            forall|k: int| 0 <= k < i ==> (#[trigger] out@[k])@ == row_param(rows@[k]),
            forall|k: int|
                0 <= k < i ==> {
                    &&& valid_utf8(rows@[k].name@) ==> (#[trigger] out@[k]).name@ == decode_utf8(
                        rows@[k].name@,
                    )
                    &&& valid_utf8(rows@[k].annotation@) ==> out@[k].annotation@ == decode_utf8(
                        rows@[k].annotation@,
                    )
                },
        decreases rows.len() - i,
    {
        out.push(
            EntrypointParam {
                name: lossy_string(rows[i].name.as_slice()),
                annotation: lossy_string(rows[i].annotation.as_slice()),
                optional: rows[i].optional != 0,
            },
        );
        i += 1;
    }
    assert(out@.map_values(|p: EntrypointParam| p@) =~= rows@.map_values(
        |row: RawParam| row_param(row),
    ));
    out
}

/// Reply of the native entrypoint extraction.
#[derive(Debug)]
pub struct RawEntrypoint {
    pub error: Vec<u8>,
    pub params: Vec<RawParam>,
}

/// Turns the native reply for a chunk into its entrypoint schema: a source
/// that is too large is refused, then an error of the parser is passed on.
pub fn extract_entrypoint_schema(source: &str, reply: &RawEntrypoint) -> (r: Result<
    EntrypointSchema,
    AnalysisError,
>)
    ensures
        match r {
            Ok(schema) => fits(encode_utf8(source@).len()) && reply.error@.len() == 0 && schema@
                == reply.params@.map_values(|row: RawParam| row_param(row)),
            Err(e) => e@ == (if !fits(encode_utf8(source@).len()) {
                too_large("source"@, encode_utf8(source@).len())
            } else {
                AnalysisFault::EntrypointSchema(lossy_text(reply.error@))
            }) && (!fits(encode_utf8(source@).len()) || reply.error@.len() != 0),
        },
{
    match ffi_len(source, "source") {
        Err(e) => {
            return Err(e);
        },
        Ok(_) => {},
    }
    if reply.error.len() != 0 {
        return Err(AnalysisError::EntrypointSchema(lossy_string(reply.error.as_slice())));
    }
    Ok(EntrypointSchema { params: collect_entrypoint_params(reply.params.as_slice()) })
}

/// The first text of a definition load that is too large.
pub open spec fn definitions_fault(defs: Seq<char>, module_name: Seq<char>) -> Option<
    AnalysisFault,
> {
    if !fits(encode_utf8(defs).len()) {
        Some(too_large("definitions"@, encode_utf8(defs).len()))
    } else if !fits(encode_utf8(module_name).len()) {
        Some(too_large("definition module name"@, encode_utf8(module_name).len()))
    } else {
        None
    }
}

/// Checks the inputs of a definition load.
pub fn definition_inputs(defs: &str, module_name: &str) -> (r: Result<(u32, u32), AnalysisError>)
    ensures
        match r {
            Ok(lens) => definitions_fault(defs@, module_name@) is None && lens.0 == encode_utf8(
                defs@,
            ).len() && lens.1 == encode_utf8(module_name@).len(),
            Err(e) => definitions_fault(defs@, module_name@) == Some(e@),
        },
{
    let defs_len: u32 = match ffi_len(defs, "definitions") {
        Ok(n) => n,
        Err(e) => {
            return Err(e);
        },
    };
    match ffi_len(module_name, "definition module name") {
        Ok(n) => Ok((defs_len, n)),
        Err(e) => Err(e),
    }
}

/// Turns the native reply of a definition load into its result: an empty
/// reply is success.
pub fn definitions_result(reply: &[u8]) -> (r: Result<(), AnalysisError>)
    ensures
        r is Ok <==> reply@.len() == 0,
        r matches Err(e) ==> e@ == AnalysisFault::Definitions(lossy_text(reply@)),
{
    if reply.len() == 0 {
        Ok(())
    } else {
        Err(AnalysisError::Definitions(lossy_string(reply)))
    }
}

/// Adds a file label to a definitions failure; any other result is kept.
pub fn prefix_definitions_error(label: &str, result: Result<(), AnalysisError>) -> (r: Result<
    (),
    AnalysisError,
>)
    ensures
        result is Ok <==> r is Ok,
        result matches Err(e) ==> r matches Err(f) && f@ == (match e@ {
            AnalysisFault::Definitions(m) => AnalysisFault::Definitions(label@ + ": "@ + m),
            other => other,
        }),
{
    match result {
        Err(AnalysisError::Definitions(message)) => Err(
            AnalysisError::Definitions(label.to_owned().concat(": ").concat(message.as_str())),
        ),
        other => other,
    }
}

/// Definitions are refused only where their text or their label is too large,
/// the text first.
pub proof fn law_definitions_are_taken(defs: Seq<char>, module_name: Seq<char>)
    ensures
        definitions_fault(defs, module_name) is None <==> encode_utf8(defs).len() <= u32::MAX
            && encode_utf8(module_name).len() <= u32::MAX,
        encode_utf8(defs).len() > u32::MAX ==> definitions_fault(defs, module_name) == Some(
            (AnalysisFault::InputTooLarge {
                kind: "definitions"@,
                len: encode_utf8(defs).len(),
            }),
        ),
{
}

/// The input that is refused is the first one that is too large, by its kind
/// and its size: the source, then the label, then module by module the name
/// and the source.
pub proof fn law_too_large_input_is_named(
    source: Seq<char>,
    call: CheckCall,
    defaults: CheckerOptions,
    label: Seq<char>,
    k: int,
)
    requires
        label == (match call.module_name {
            Some(name) => name,
            None => defaults.default_module_name@,
        }),
        0 <= k < call.virtual_modules.len(),
        forall|i: int|
            0 <= i < k ==> encode_utf8((#[trigger] call.virtual_modules[i]).name).len() <= u32::MAX
                && encode_utf8(call.virtual_modules[i].source).len() <= u32::MAX,
    ensures
        encode_utf8(source).len() > u32::MAX ==> inputs_of(source, call, defaults) == Err::<
            InputsModel,
            _,
        >(
            (AnalysisFault::InputTooLarge { kind: "source"@, len: encode_utf8(source).len() }),
        ),
        encode_utf8(source).len() <= u32::MAX && encode_utf8(label).len() > u32::MAX ==> inputs_of(
            source,
            call,
            defaults,
        ) == Err::<InputsModel, _>(
            (AnalysisFault::InputTooLarge { kind: "module name"@, len: encode_utf8(label).len() }),
        ),
        encode_utf8(source).len() <= u32::MAX && encode_utf8(label).len() <= u32::MAX
            && encode_utf8(call.virtual_modules[k].name).len() > u32::MAX ==> inputs_of(
            source,
            call,
            defaults,
        ) == Err::<InputsModel, _>(
            (AnalysisFault::InputTooLarge {
                kind: "virtual module name"@,
                len: encode_utf8(call.virtual_modules[k].name).len(),
            }),
        ),
        encode_utf8(source).len() <= u32::MAX && encode_utf8(label).len() <= u32::MAX
            && encode_utf8(call.virtual_modules[k].name).len() <= u32::MAX && encode_utf8(
            call.virtual_modules[k].source,
        ).len() > u32::MAX ==> inputs_of(source, call, defaults) == Err::<InputsModel, _>(
            (AnalysisFault::InputTooLarge {
                kind: "virtual module source"@,
                len: encode_utf8(call.virtual_modules[k].source).len(),
            }),
        ),
{
    let modules = call.virtual_modules;
    lemma_no_virtual_fault(modules, k);
    if virtual_fault(modules, k + 1) is Some {
        lemma_virtual_fault(modules, k + 1, modules.len() as int);
    }
}

} // verus!
