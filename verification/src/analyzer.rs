//! Type checking of Luau sources: inputs, results and declaration schemas.
use crate::module_schema;
use crate::resolver::{
    opt_text, resolve_message, ModuleId, ModuleResolveError, ResolveFault, SourceSpan,
};
use crate::sorted::{entries_view, get_entry, lemma_same_keys, lookup, mapped, ordered, rank, SortedMap};
use crate::text::{decimal, decimal_text, ends, starts, texts};
use vstd::prelude::*;
use vstd::string::*;

pub mod checker;
pub mod docs;
pub mod handle;
pub mod interfaces;
pub mod native;
pub mod plan;
pub mod render;
pub mod schema;
pub use checker::Checker;
pub use handle::CheckerHandle;
pub use interfaces::{ModuleInterface, ModuleInterfaceKind, ModuleInterfaceSet};
pub use native::{extract_entrypoint_schema, EntrypointParam, EntrypointSchema};

verus! {

/// Opaque Luau type expression text.
#[derive(Debug)]
pub struct TypeSlice {
    /// Type expression as written, trimmed.
    pub source: String,
    /// Span of the type expression when known.
    pub span: Option<SourceSpan>,
}

/// One callable argument.
#[derive(Debug)]
pub struct ArgumentSchema {
    /// Argument name.
    pub name: String,
    /// Argument type source slice.
    pub ty: TypeSlice,
    /// Whether the argument used Luau optional syntax.
    pub optional: bool,
    /// Source span for the argument declaration when known.
    pub span: Option<SourceSpan>,
}

/// Callable signature extracted from a declaration source.
#[derive(Debug)]
pub struct CallableSchema {
    /// Arguments in source order.
    pub args: Vec<ArgumentSchema>,
    /// Return type source slice.
    pub returns: TypeSlice,
    /// Whether the callable was declared as a method taking `self`.
    pub method: bool,
    /// Source span for the callable declaration when known.
    pub span: Option<SourceSpan>,
    /// Doc comment immediately above the callable, when present.
    pub docs: Option<String>,
}

/// Class field declaration extracted from source.
#[derive(Debug)]
pub struct FieldSchema {
    /// Field name.
    pub name: String,
    /// Field type source slice.
    pub ty: TypeSlice,
    /// Source span for the field declaration when known.
    pub span: Option<SourceSpan>,
    /// Doc comment immediately above the field, when present.
    pub docs: Option<String>,
}

/// Members declared inside a `declare class ... end` block.
#[derive(Debug)]
pub struct ClassSchema {
    /// Method names.
    pub methods: Vec<String>,
    /// Method signatures keyed by method name.
    pub method_signatures: SortedMap<CallableSchema>,
    /// Non-method fields keyed by field name.
    pub fields: SortedMap<FieldSchema>,
    /// Source span for the class declaration when known.
    pub span: Option<SourceSpan>,
}

/// Exported type alias source slice.
#[derive(Debug)]
pub struct TypeAliasSchema {
    /// Alias name.
    pub name: String,
    /// Alias body source slice.
    pub ty: TypeSlice,
    /// Full source text for the alias declaration.
    pub source: String,
    /// Source span for the alias when known.
    pub span: Option<SourceSpan>,
    /// Doc comment immediately above the alias, when present.
    pub docs: Option<String>,
}

/// One namespace level: function names plus nested child namespaces.
#[derive(Debug)]
pub struct NamespaceSchema {
    /// Function-typed members callable directly at this level.
    pub functions: Vec<String>,
    /// Callable signatures keyed by member name.
    pub callables: SortedMap<CallableSchema>,
    /// Nested namespace members in name order.
    pub children: Vec<(String, NamespaceSchema)>,
}

/// The module root: an exported `Module` alias or a declared global.
#[derive(Debug)]
pub struct ModuleRoot {
    /// Name of the root.
    pub name: String,
    /// Function and namespace shape rooted at the module table.
    pub namespace: NamespaceSchema,
    /// Source span for the root declaration when known.
    pub span: Option<SourceSpan>,
}

/// Aggregated declaration schema extracted from a `.d.luau` module manifest.
#[derive(Debug)]
pub struct ModuleSchema {
    /// Top-of-file module description comment, when present.
    pub module_description: Option<String>,
    /// Module root, if any.
    pub root: Option<ModuleRoot>,
    /// `declare class` declarations by name.
    pub classes: SortedMap<ClassSchema>,
    /// Exported type aliases by name.
    pub type_aliases: SortedMap<TypeAliasSchema>,
}

/// Model of a [`TypeSlice`].
#[verifier::ext_equal]
pub struct TypeModel {
    pub source: Seq<char>,
    pub span: Option<SourceSpan>,
}

/// Model of an [`ArgumentSchema`].
#[verifier::ext_equal]
pub struct ArgumentModel {
    pub name: Seq<char>,
    pub ty: TypeModel,
    pub optional: bool,
    pub span: Option<SourceSpan>,
}

/// Model of a [`CallableSchema`].
#[verifier::ext_equal]
pub struct CallableModel {
    pub args: Seq<ArgumentModel>,
    pub returns: TypeModel,
    pub method: bool,
    pub span: Option<SourceSpan>,
    pub docs: Option<Seq<char>>,
}

/// Model of a [`FieldSchema`].
#[verifier::ext_equal]
pub struct FieldModel {
    pub name: Seq<char>,
    pub ty: TypeModel,
    pub span: Option<SourceSpan>,
    pub docs: Option<Seq<char>>,
}

/// Model of a [`ClassSchema`].
#[verifier::ext_equal]
pub struct ClassModel {
    pub methods: Seq<Seq<char>>,
    pub method_signatures: Seq<(Seq<char>, CallableModel)>,
    pub fields: Seq<(Seq<char>, FieldModel)>,
    pub span: Option<SourceSpan>,
}

/// Model of a [`TypeAliasSchema`].
#[verifier::ext_equal]
pub struct AliasModel {
    pub name: Seq<char>,
    pub ty: TypeModel,
    pub source: Seq<char>,
    pub span: Option<SourceSpan>,
    pub docs: Option<Seq<char>>,
}

/// Model of a [`NamespaceSchema`].
#[verifier::ext_equal]
pub struct NamespaceModel {
    pub functions: Seq<Seq<char>>,
    pub callables: Seq<(Seq<char>, CallableModel)>,
    pub children: Seq<(Seq<char>, NamespaceModel)>,
}

/// Model of a [`ModuleRoot`].
#[verifier::ext_equal]
pub struct RootModel {
    pub name: Seq<char>,
    pub namespace: NamespaceModel,
    pub span: Option<SourceSpan>,
}

/// Model of a [`ModuleSchema`].
#[verifier::ext_equal]
pub struct SchemaModel {
    pub module_description: Option<Seq<char>>,
    pub root: Option<RootModel>,
    pub classes: Seq<(Seq<char>, ClassModel)>,
    pub type_aliases: Seq<(Seq<char>, AliasModel)>,
}

impl TypeSlice {
    pub open spec fn view(&self) -> TypeModel {
        TypeModel { source: self.source@, span: self.span }
    }
}

impl ArgumentSchema {
    pub open spec fn view(&self) -> ArgumentModel {
        ArgumentModel {
            name: self.name@,
            ty: self.ty@,
            optional: self.optional,
            span: self.span,
        }
    }
}

impl CallableSchema {
    pub open spec fn view(&self) -> CallableModel {
        CallableModel {
            args: self.args@.map_values(|a: ArgumentSchema| a@),
            returns: self.returns@,
            method: self.method,
            span: self.span,
            docs: opt_text(self.docs),
        }
    }
}

impl FieldSchema {
    pub open spec fn view(&self) -> FieldModel {
        FieldModel { name: self.name@, ty: self.ty@, span: self.span, docs: opt_text(self.docs) }
    }
}

/// The callables of a map with their models.
pub open spec fn callable_models(e: Seq<(Seq<char>, CallableSchema)>) -> Seq<
    (Seq<char>, CallableModel),
> {
    mapped(e, |c: CallableSchema| c@)
}

impl ClassSchema {
    pub open spec fn view(&self) -> ClassModel {
        ClassModel {
            methods: texts(self.methods@),
            method_signatures: callable_models(self.method_signatures@),
            fields: mapped(self.fields@, |f: FieldSchema| f@),
            span: self.span,
        }
    }

    /// Signatures and fields stand in key order.
    pub open spec fn wf(&self) -> bool {
        self.method_signatures.wf() && self.fields.wf()
    }
}

impl TypeAliasSchema {
    pub open spec fn view(&self) -> AliasModel {
        AliasModel {
            name: self.name@,
            ty: self.ty@,
            source: self.source@,
            span: self.span,
            docs: opt_text(self.docs),
        }
    }
}

impl NamespaceSchema {
    pub open spec fn view(&self) -> NamespaceModel
        decreases self,
    {
        NamespaceModel {
            functions: texts(self.functions@),
            callables: callable_models(self.callables@),
            children: Seq::new(
                self.children@.len(),
                |i: int|
                    if 0 <= i < self.children@.len() {
                        (self.children@[i].0@, self.children@[i].1.view())
                    } else {
                        arbitrary()
                    },
            ),
        }
    }

    /// Callables and children stand in key order, on every level.
    pub open spec fn wf(&self) -> bool
        decreases self,
    {
        &&& self.callables.wf()
        &&& ordered(entries_view(self.children@))
        &&& forall|i: int|
            0 <= i < self.children@.len() ==> (#[trigger] self.children@[i]).1.wf()
    }

    /// The child namespace with the given name.
    pub fn child(&self, name: &str) -> (r: Option<&NamespaceSchema>)
        requires
            self.wf(),
        ensures
            match r {
                Some(c) => c.wf() && lookup(self@.children, name@) == Some(c@),
                None => lookup(self@.children, name@) is None,
            },
    {
        let r = get_entry(self.children.as_slice(), name);
        proof {
            lemma_same_keys(entries_view(self.children@), self@.children, name@);
            if let Some(c) = r {
                let i = rank(self@.children, name@);
                assert(self@.children[i].1 == self.children@[i].1.view());
                assert(entries_view(self.children@)[i].1 == self.children@[i].1);
            }
        }
        r
    }
}

impl ModuleRoot {
    pub open spec fn view(&self) -> RootModel {
        RootModel { name: self.name@, namespace: self.namespace@, span: self.span }
    }
}

impl ModuleSchema {
    pub open spec fn view(&self) -> SchemaModel {
        SchemaModel {
            module_description: opt_text(self.module_description),
            root: match self.root {
                Some(r) => Some(r@),
                None => None,
            },
            classes: mapped(self.classes@, |c: ClassSchema| c@),
            type_aliases: mapped(self.type_aliases@, |a: TypeAliasSchema| a@),
        }
    }

    /// Every map of the schema stands in key order.
    pub open spec fn wf(&self) -> bool {
        &&& self.classes.wf()
        &&& self.type_aliases.wf()
        &&& forall|i: int|
            0 <= i < self.classes@.len() ==> (#[trigger] self.classes@[i]).1.wf()
        &&& self.root matches Some(r) ==> r.namespace.wf()
    }
}

/// Model of a schema with nothing in it but a description.
pub open spec fn bare_schema(module_description: Option<Seq<char>>) -> SchemaModel {
    SchemaModel {
        module_description,
        root: None,
        classes: Seq::empty(),
        type_aliases: Seq::empty(),
    }
}

impl Default for ModuleSchema {
    fn default() -> (r: Self)
        ensures
            r.wf(),
            r@ == bare_schema(None),
    {
        let r = ModuleSchema {
            module_description: None,
            root: None,
            classes: SortedMap::new(),
            type_aliases: SortedMap::new(),
        };
        assert(r@ =~= bare_schema(None));
        r
    }
}

/// Diagnostic severity emitted by the checker.
#[derive(Debug, Clone, Copy, PartialEq, Eq, Structural, PartialOrd, Ord)]
pub enum Severity {
    /// Type-check or lint error.
    Error,
    /// Lint warning.
    Warning,
}

/// A diagnostic produced by checking Luau source.
#[derive(Debug)]
pub struct Diagnostic {
    /// Module that produced this diagnostic.
    pub module: ModuleId,
    /// Source span for this diagnostic.
    pub span: SourceSpan,
    /// Severity level.
    pub severity: Severity,
    /// Human-readable diagnostic message.
    pub message: String,
}

/// Model of a [`Diagnostic`].
#[verifier::ext_equal]
pub struct DiagnosticModel {
    pub module: Seq<char>,
    pub span: SourceSpan,
    pub severity: Severity,
    pub message: Seq<char>,
}

impl Diagnostic {
    pub open spec fn view(&self) -> DiagnosticModel {
        DiagnosticModel {
            module: self.module@,
            span: self.span,
            severity: self.severity,
            message: self.message@,
        }
    }
}

/// Result of a checker run.
#[derive(Debug)]
pub struct CheckResult {
    /// Collected diagnostics sorted by location and severity.
    pub diagnostics: Vec<Diagnostic>,
    /// Whether the check hit any time limit.
    pub timed_out: bool,
    /// Whether a cancellation request arrived during the check.
    pub cancelled: bool,
}

/// Model of a [`CheckResult`].
#[verifier::ext_equal]
pub struct CheckModel {
    pub diagnostics: Seq<DiagnosticModel>,
    pub timed_out: bool,
    pub cancelled: bool,
}

/// The models of a list of diagnostics.
pub open spec fn diagnostic_models(v: Seq<Diagnostic>) -> Seq<DiagnosticModel> {
    v.map_values(|d: Diagnostic| d@)
}

impl CheckResult {
    pub open spec fn view(&self) -> CheckModel {
        CheckModel {
            diagnostics: diagnostic_models(self.diagnostics@),
            timed_out: self.timed_out,
            cancelled: self.cancelled,
        }
    }
}

/// Errors of checker construction, source checking, and definition loading.
#[derive(Debug)]
pub enum AnalysisError {
    /// The native layer failed to create the checker.
    CreateCheckerFailed,
    /// The native layer failed to create the cancellation token.
    CreateCancellationTokenFailed,
    /// Definitions failed to parse or type-check.
    Definitions(String),
    /// A checked load was rejected by analyzer diagnostics.
    CheckFailed(CheckResult),
    /// A checked-load snapshot did not contain its root module.
    MissingSnapshotRoot(String),
    /// A checked-load resolver failed to resolve a module.
    Resolve(ModuleResolveError),
    /// Checked-load runtime setup failed after analysis passed.
    Load(String),
    /// Entrypoint schema extraction failed.
    EntrypointSchema(String),
    /// Module declaration schema extraction failed.
    ModuleSchema(String),
    /// Failed to read a UTF-8 text file for checking or definition loading.
    ReadFile {
        /// Logical input category such as `"source"` or `"definitions"`.
        kind: &'static str,
        /// Display label for the file path.
        path: String,
        /// Human-readable I/O error message.
        message: String,
    },
    /// Checker input is too large for the native length type.
    InputTooLarge {
        /// Logical input category such as `"source"` or `"definitions"`.
        kind: &'static str,
        /// Original input byte length or item count.
        len: usize,
    },
    /// A previous check is still in flight.
    Busy,
    /// The blocking analysis task panicked or was cancelled by the runtime.
    BlockingTask(String),
}

/// Model of an [`AnalysisError`].
pub enum AnalysisFault {
    CreateCheckerFailed,
    CreateCancellationTokenFailed,
    Definitions(Seq<char>),
    CheckFailed(CheckModel),
    MissingSnapshotRoot(Seq<char>),
    Resolve(ResolveFault),
    Load(Seq<char>),
    EntrypointSchema(Seq<char>),
    ModuleSchema(Seq<char>),
    ReadFile { kind: Seq<char>, path: Seq<char>, message: Seq<char> },
    InputTooLarge { kind: Seq<char>, len: nat },
    Busy,
    BlockingTask(Seq<char>),
}

impl AnalysisError {
    pub open spec fn view(&self) -> AnalysisFault {
        match self {
            AnalysisError::CreateCheckerFailed => AnalysisFault::CreateCheckerFailed,
            AnalysisError::CreateCancellationTokenFailed => AnalysisFault::CreateCancellationTokenFailed,
            AnalysisError::Definitions(m) => AnalysisFault::Definitions(m@),
            AnalysisError::CheckFailed(r) => AnalysisFault::CheckFailed(r@),
            AnalysisError::MissingSnapshotRoot(m) => AnalysisFault::MissingSnapshotRoot(m@),
            AnalysisError::Resolve(e) => AnalysisFault::Resolve(e@),
            AnalysisError::Load(m) => AnalysisFault::Load(m@),
            AnalysisError::EntrypointSchema(m) => AnalysisFault::EntrypointSchema(m@),
            AnalysisError::ModuleSchema(m) => AnalysisFault::ModuleSchema(m@),
            AnalysisError::ReadFile { kind, path, message } => AnalysisFault::ReadFile {
                kind: kind@,
                path: path@,
                message: message@,
            },
            AnalysisError::InputTooLarge { kind, len } => AnalysisFault::InputTooLarge {
                kind: kind@,
                len: *len as nat,
            },
            AnalysisError::Busy => AnalysisFault::Busy,
            AnalysisError::BlockingTask(m) => AnalysisFault::BlockingTask(m@),
        }
    }
}

/// Default checker configuration used by a checker.
#[derive(Debug)]
pub struct CheckerOptions {
    /// Optional timeout applied to checks that do not override it.
    pub default_timeout: Option<std::time::Duration>,
    /// Default module label used for source checks.
    pub default_module_name: String,
    /// Default module label used for definition loading.
    pub default_definitions_module_name: String,
}

impl Default for CheckerOptions {
    fn default() -> (r: Self)
        ensures
            r.default_timeout is None,
            r.default_module_name@ == "main"@,
            r.default_definitions_module_name@ == "@definitions"@,
    {
        CheckerOptions {
            default_timeout: None,
            default_module_name: "main".to_owned(),
            default_definitions_module_name: "@definitions".to_owned(),
        }
    }
}

/// Identity of a native cancellation token.
#[derive(Debug, Clone, Copy, PartialEq, Eq, Structural)]
pub struct CancellationToken {
    pub id: u64,
}

/// A host-provided virtual module visible to a single check.
#[derive(Debug, Clone, Copy)]
pub struct VirtualModule<'a> {
    /// Module name used by `require(...)`, for example `"term"`.
    pub name: &'a str,
    /// Source code returned by the host for that module.
    pub source: &'a str,
}

/// Per-call options of a check.
#[derive(Debug, Clone, Copy)]
pub struct CheckOptions<'a> {
    /// Optional timeout override for this call.
    pub timeout: Option<std::time::Duration>,
    /// Optional module label override for this call.
    ///
    /// For source that uses relative `require(...)`, this must identify a real
    /// filesystem module path so the checker can resolve adjacent files.
    pub module_name: Option<&'a str>,
    /// Optional cancellation token for this call.
    pub cancellation_token: Option<CancellationToken>,
    /// Host-provided virtual modules visible to this call.
    pub virtual_modules: &'a [VirtualModule<'a>],
}

impl Default for CheckOptions<'_> {
    fn default() -> (r: Self)
        ensures
            r.timeout is None,
            r.module_name is None,
            r.cancellation_token is None,
            r.virtual_modules@.len() == 0,
    {
        CheckOptions {
            timeout: None,
            module_name: None,
            cancellation_token: None,
            virtual_modules: &[],
        }
    }
}

impl<'a> CheckOptions<'a> {
    /// Supplies a module name only when the caller did not provide one.
    pub fn with_fallback_module_name(self, module_name: &'a str) -> (r: Self)
        ensures
            r.module_name == (match self.module_name {
                Some(name) => Some(name),
                None => Some(module_name),
            }),
            r.timeout == self.timeout,
            r.cancellation_token == self.cancellation_token,
            r.virtual_modules == self.virtual_modules,
    {
        CheckOptions {
            module_name: match self.module_name {
                Some(name) => Some(name),
                None => Some(module_name),
            },
            ..self
        }
    }
}

impl Severity {
    /// The name of a severity.
    pub open spec fn name(self) -> Seq<char> {
        match self {
            Severity::Error => "error"@,
            Severity::Warning => "warning"@,
        }
    }

    /// Returns the severity as a stable lowercase string.
    pub fn as_str(self) -> (r: &'static str)
        ensures
            r@ == self.name(),
    {
        match self {
            Severity::Error => "error",
            Severity::Warning => "warning",
        }
    }

    /// Converts a native severity code.
    pub fn from_ffi(code: u32) -> (r: Self)
        ensures
            r == (if code == 0 {
                Severity::Error
            } else {
                Severity::Warning
            }),
    {
        if code == 0 {
            Severity::Error
        } else {
            Severity::Warning
        }
    }
}

/// The diagnostics of one severity, in order.
pub open spec fn of_severity(v: Seq<DiagnosticModel>, severity: Severity) -> Seq<DiagnosticModel> {
    v.filter(|d: DiagnosticModel| d.severity == severity)
}

/// Whether a result contains a diagnostic of the given severity.
pub open spec fn has_some(v: Seq<DiagnosticModel>, severity: Severity) -> bool {
    exists|i: int| 0 <= i < v.len() && (#[trigger] v[i]).severity == severity
}

impl Default for CheckResult {
    fn default() -> (r: Self)
        ensures
            r@ == (CheckModel { diagnostics: Seq::empty(), timed_out: false, cancelled: false }),
    {
        let r = CheckResult { diagnostics: Vec::new(), timed_out: false, cancelled: false };
        assert(r@.diagnostics =~= Seq::empty());
        r
    }
}

impl CheckResult {
    /// Returns `true` when the result completed and contains no errors.
    pub fn is_ok(&self) -> (r: bool)
        ensures
            r == (!self@.timed_out && !self@.cancelled && !has_some(
                self@.diagnostics,
                Severity::Error,
            )),
    {
        !self.timed_out && !self.cancelled && !self.has_errors()
    }

    /// Returns `true` when the result contains any error.
    pub fn has_errors(&self) -> (r: bool)
        ensures
            r == has_some(self@.diagnostics, Severity::Error),
    {
        self.has_severity(Severity::Error)
    }

    /// Returns `true` when the result contains any warning.
    pub fn has_warnings(&self) -> (r: bool)
        ensures
            r == has_some(self@.diagnostics, Severity::Warning),
    {
        self.has_severity(Severity::Warning)
    }

    /// Returns all error diagnostics in order.
    pub fn errors(&self) -> (r: Vec<&Diagnostic>)
        ensures
            r@.map_values(|d: &Diagnostic| d@) == of_severity(self@.diagnostics, Severity::Error),
    {
        self.diagnostics_with_severity(Severity::Error)
    }

    /// Returns all warning diagnostics in order.
    pub fn warnings(&self) -> (r: Vec<&Diagnostic>)
        ensures
            r@.map_values(|d: &Diagnostic| d@) == of_severity(self@.diagnostics, Severity::Warning),
    {
        self.diagnostics_with_severity(Severity::Warning)
    }

    /// Returns all diagnostics matching the requested severity.
    fn diagnostics_with_severity(&self, severity: Severity) -> (r: Vec<&Diagnostic>)
        ensures
            r@.map_values(|d: &Diagnostic| d@) == of_severity(self@.diagnostics, severity),
    {
        let mut out: Vec<&Diagnostic> = Vec::new();
        let mut i: usize = 0;
        let ghost all = self@.diagnostics;
        let ghost p = |d: DiagnosticModel| d.severity == severity;
        proof {
            reveal(Seq::filter);
            assert(out@.map_values(|d: &Diagnostic| d@) =~= all.take(0).filter(p));
        }
        while i < self.diagnostics.len()
            invariant
                i <= self.diagnostics.len(),
                all == self@.diagnostics,
                p == (|d: DiagnosticModel| d.severity == severity),
                out@.map_values(|d: &Diagnostic| d@) == all.take(i as int).filter(p),
            decreases self.diagnostics.len() - i,
        {
            let ghost before = out@;
            proof {
                reveal(Seq::filter);
                assert(all.take(i + 1).drop_last() =~= all.take(i as int));
                assert(all.take(i + 1).last() == self.diagnostics@[i as int]@);
            }
            if self.diagnostics[i].severity == severity {
                out.push(&self.diagnostics[i]);
                assert(out@.map_values(|d: &Diagnostic| d@) =~= before.map_values(
                    |d: &Diagnostic| d@,
                ).push(all[i as int]));
            }
            i += 1;
        }
        assert(all.take(i as int) =~= all);
        out
    }

    /// Returns whether any diagnostic matches the requested severity.
    fn has_severity(&self, severity: Severity) -> (r: bool)
        ensures
            r == has_some(self@.diagnostics, severity),
    {
        let mut i: usize = 0;
        while i < self.diagnostics.len()
            invariant
                i <= self.diagnostics.len(),
                forall|k: int| 0 <= k < i ==> (#[trigger] self@.diagnostics[k]).severity != severity,
            decreases self.diagnostics.len() - i,
        {
            assert(self@.diagnostics[i as int] == self.diagnostics@[i as int]@);
            if self.diagnostics[i].severity == severity {
                return true;
            }
            i += 1;
        }
        false
    }
}

/// The text of an analysis error.
pub open spec fn analysis_message(fault: AnalysisFault) -> Seq<char> {
    match fault {
        AnalysisFault::CreateCheckerFailed => "failed to create Luau checker"@,
        AnalysisFault::CreateCancellationTokenFailed => "failed to create Luau cancellation token"@,
        AnalysisFault::Definitions(m) => "failed to load Luau definitions: "@ + m,
        AnalysisFault::CheckFailed(r) => "checked load failed with "@ + decimal(r.diagnostics.len())
            + " diagnostic(s)"@,
        AnalysisFault::MissingSnapshotRoot(m) => "resolver snapshot is missing root module `"@ + m
            + "`"@,
        AnalysisFault::Resolve(e) => "module resolution failed: "@ + resolve_message(e),
        AnalysisFault::Load(m) => "failed to prepare checked load: "@ + m,
        AnalysisFault::EntrypointSchema(m) => "failed to extract Luau entrypoint schema: "@ + m,
        AnalysisFault::ModuleSchema(m) => "failed to extract Luau module schema: "@ + m,
        AnalysisFault::ReadFile { kind, path, message } => "failed to read "@ + kind + " `"@ + path
            + "`: "@ + message,
        AnalysisFault::InputTooLarge { kind, len } => kind
            + " input is too large for checker FFI boundary ("@ + decimal(len) + ")"@,
        AnalysisFault::Busy => "checker is busy with a previous in-flight check"@,
        AnalysisFault::BlockingTask(m) => "blocking analysis task failed: "@ + m,
    }
}

impl AnalysisError {
    /// The error as a sentence.
    pub fn message(&self) -> (r: String)
        ensures
            r@ == analysis_message(self@),
    {
        match self {
            AnalysisError::CreateCheckerFailed => "failed to create Luau checker".to_owned(),
            AnalysisError::CreateCancellationTokenFailed => "failed to create Luau cancellation token".to_owned(),
            AnalysisError::Definitions(m) => "failed to load Luau definitions: ".to_owned().concat(
                m.as_str(),
            ),
            AnalysisError::CheckFailed(r) => "checked load failed with ".to_owned().concat(
                decimal_text(r.diagnostics.len() as u64).as_str(),
            ).concat(" diagnostic(s)"),
            AnalysisError::MissingSnapshotRoot(m) => "resolver snapshot is missing root module `".to_owned().concat(
                m.as_str(),
            ).concat("`"),
            AnalysisError::Resolve(e) => "module resolution failed: ".to_owned().concat(
                e.message().as_str(),
            ),
            AnalysisError::Load(m) => "failed to prepare checked load: ".to_owned().concat(
                m.as_str(),
            ),
            AnalysisError::EntrypointSchema(m) => "failed to extract Luau entrypoint schema: ".to_owned().concat(
                m.as_str(),
            ),
            AnalysisError::ModuleSchema(m) => "failed to extract Luau module schema: ".to_owned().concat(
                m.as_str(),
            ),
            AnalysisError::ReadFile { kind, path, message } => "failed to read ".to_owned().concat(
                kind,
            ).concat(" `").concat(path.as_str()).concat("`: ").concat(message.as_str()),
            AnalysisError::InputTooLarge { kind, len } => (*kind).to_owned().concat(
                " input is too large for checker FFI boundary (",
            ).concat(decimal_text(*len as u64).as_str()).concat(")"),
            AnalysisError::Busy => "checker is busy with a previous in-flight check".to_owned(),
            AnalysisError::BlockingTask(m) => "blocking analysis task failed: ".to_owned().concat(
                m.as_str(),
            ),
        }
    }
}

/// The message of a declaration fault inside an analysis error.
pub open spec fn declaration_fault(fault: module_schema::SchemaFault) -> AnalysisFault {
    AnalysisFault::ModuleSchema(
        match fault {
            module_schema::SchemaFault::MultipleRoots { first, second } =>
                "multiple module-root declarations: `"@ + first + "` and `"@ + second + "`"@,
            module_schema::SchemaFault::Malformed(message) => message,
        },
    )
}

/// Extracts the top-level module declaration and the class methods of a
/// declaration source from its text alone.
pub fn extract_module_schema(source: &str) -> (r: Result<
    module_schema::ModuleSchema,
    AnalysisError,
>)
    ensures
        match r {
            Ok(schema) => schema.wf() && module_schema::schema_of(source@) == Ok::<
                module_schema::SchemaModel,
                module_schema::SchemaFault,
            >(schema@),
            Err(e) => module_schema::schema_of(source@) matches Err(fault) && e@
                == declaration_fault(fault),
        },
{
    match module_schema::extract_module_schema(source) {
        Ok(schema) => Ok(schema),
        Err(module_schema::ModuleSchemaError::MultipleRoots { first, second }) => Err(
            AnalysisError::ModuleSchema(
                "multiple module-root declarations: `".to_owned().concat(first.as_str()).concat(
                    "` and `",
                ).concat(second.as_str()).concat("`"),
            ),
        ),
        Err(module_schema::ModuleSchemaError::Malformed(message)) => Err(
            AnalysisError::ModuleSchema(message),
        ),
    }
}

/// Errors and warnings together are all diagnostics: each one is listed under
/// its own severity, and none is listed twice or left out.
pub proof fn law_severities_part_diagnostics(v: Seq<DiagnosticModel>, i: int)
    ensures
        of_severity(v, Severity::Error).len() + of_severity(v, Severity::Warning).len() == v.len(),
        0 <= i < v.len() ==> of_severity(v, v[i].severity).contains(v[i]),
        has_some(v, Severity::Error) <==> of_severity(v, Severity::Error).len() > 0,
    decreases v.len(),
{
    lemma_severity_counts(v);
    if 0 <= i < v.len() {
        let s = v[i].severity;
        v.lemma_filter_contains(|d: DiagnosticModel| d.severity == s, i);
    }
}

proof fn lemma_severity_counts(v: Seq<DiagnosticModel>)
    ensures
        of_severity(v, Severity::Error).len() + of_severity(v, Severity::Warning).len() == v.len(),
        has_some(v, Severity::Error) <==> of_severity(v, Severity::Error).len() > 0,
    decreases v.len(),
{
    reveal(Seq::filter);
    if v.len() > 0 {
        let before = v.drop_last();
        lemma_severity_counts(before);
        if has_some(before, Severity::Error) {
            let i = choose|i: int|
                0 <= i < before.len() && (#[trigger] before[i]).severity == Severity::Error;
            assert(v[i].severity == Severity::Error);
        }
        if has_some(v, Severity::Error) && v.last().severity != Severity::Error {
            let i = choose|i: int|
                0 <= i < v.len() && (#[trigger] v[i]).severity == Severity::Error;
            assert(before[i].severity == Severity::Error);
        }
    }
}

/// The text of an analysis error tells what it is about: the message that it
/// carries, the file that could not be read, or the input that is too large
/// with its size.
pub proof fn law_analysis_messages_tell_details(
    message: Seq<char>,
    kind: Seq<char>,
    path: Seq<char>,
    len: nat,
    fault: ResolveFault,
)
    ensures
        ends(analysis_message(AnalysisFault::Definitions(message)), message),
        ends(analysis_message(AnalysisFault::Load(message)), message),
        ends(analysis_message(AnalysisFault::EntrypointSchema(message)), message),
        ends(analysis_message(AnalysisFault::ModuleSchema(message)), message),
        ends(analysis_message(AnalysisFault::BlockingTask(message)), message),
        ends(analysis_message(AnalysisFault::Resolve(fault)), resolve_message(fault)),
        ends(
            analysis_message((AnalysisFault::ReadFile { kind, path, message })),
            kind + " `"@ + path + "`: "@ + message,
        ),
        starts(analysis_message((AnalysisFault::InputTooLarge { kind, len })), kind),
        ends(
            analysis_message((AnalysisFault::InputTooLarge { kind, len })),
            "("@ + decimal(len) + ")"@,
        ),
{
    reveal_strlit(" input is too large for checker FFI boundary (");
    reveal_strlit("(");
    reveal_strlit(")");
    let a = analysis_message(AnalysisFault::Definitions(message));
    assert(a.skip(a.len() - message.len()) =~= message);
    let b = analysis_message(AnalysisFault::Load(message));
    assert(b.skip(b.len() - message.len()) =~= message);
    let c = analysis_message(AnalysisFault::EntrypointSchema(message));
    assert(c.skip(c.len() - message.len()) =~= message);
    let d = analysis_message(AnalysisFault::ModuleSchema(message));
    assert(d.skip(d.len() - message.len()) =~= message);
    let e = analysis_message(AnalysisFault::BlockingTask(message));
    assert(e.skip(e.len() - message.len()) =~= message);
    let f = analysis_message(AnalysisFault::Resolve(fault));
    assert(f.skip(f.len() - resolve_message(fault).len()) =~= resolve_message(fault));
    let g = analysis_message((AnalysisFault::ReadFile { kind, path, message }));
    let tail = kind + " `"@ + path + "`: "@ + message;
    assert(g.skip(g.len() - tail.len()) =~= tail);
    let h = analysis_message((AnalysisFault::InputTooLarge { kind, len }));
    assert(h.take(kind.len() as int) =~= kind);
    let size = "("@ + decimal(len) + ")"@;
    assert(h.skip(h.len() - size.len()) =~= size);
}

} // verus!
