//! Module identities, sources and the errors of module resolution.
//!
//! Interface-only declarations are not runtime modules: a snapshot refuses a
//! module of kind [`ModuleSourceKind::Interface`] with
//! [`ModuleResolveError::NotExecutable`].
use crate::text::{ends, same_text, starts};
use vstd::prelude::*;
use vstd::string::*;

pub mod builder;
pub mod filesystem;
pub mod in_memory;
pub mod paths;
pub mod require_spec;
pub mod snapshot;
pub use builder::{SnapshotBuilder, SnapshotStep};
pub use filesystem::FilesystemResolver;
pub use in_memory::InMemoryResolver;
pub use require_spec::{required_specifiers, required_specifiers_with_spans, RequireSpecifier};
pub use snapshot::{RequireEdge, ResolverSnapshot};

verus! {

/// Stable module identity used by runtime loading and analysis diagnostics.
#[derive(Debug)]
pub struct ModuleId {
    /// The stable label.
    pub label: String,
}

impl ModuleId {
    pub open spec fn view(&self) -> Seq<char> {
        self.label@
    }

    /// Creates a module id from a stable label.
    pub fn new(id: &str) -> (r: Self)
        ensures
            r@ == id@,
    {
        ModuleId { label: id.to_owned() }
    }

    /// Returns the stable module label.
    pub fn as_str(&self) -> (r: &str)
        ensures
            r@ == self@,
    {
        self.label.as_str()
    }

    /// Creates a module id from the display form of a filesystem path.
    pub fn from_path(path: &str) -> (r: Self)
        ensures
            r@ == path@,
    {
        Self::new(path)
    }

    /// Tests whether two ids carry the same label.
    pub fn same(&self, other: &ModuleId) -> (r: bool)
        ensures
            r == (self@ == other@),
    {
        same_text(self.as_str(), other.as_str())
    }
}

impl Clone for ModuleId {
    fn clone(&self) -> (r: Self)
        ensures
            r@ == self@,
    {
        ModuleId { label: self.label.clone() }
    }
}

/// Kind of source represented by a resolved module record.
#[derive(Debug, Clone, Copy, PartialEq, Eq, Structural)]
pub enum ModuleSourceKind {
    /// Executable Luau source that can be loaded at runtime.
    Executable,
    /// Interface-only declaration source used for analysis and documentation.
    Interface,
}

impl Default for ModuleSourceKind {
    fn default() -> (r: Self)
        ensures
            r == ModuleSourceKind::Executable,
    {
        ModuleSourceKind::Executable
    }
}

/// Source text and optional filesystem path for one resolved module.
#[derive(Debug)]
pub struct ModuleSource {
    /// Stable module id.
    pub id: ModuleId,
    /// Source text.
    pub source: String,
    /// Filesystem path when this module came from disk.
    pub path: Option<String>,
    /// Whether this record is executable source or an interface declaration.
    pub kind: ModuleSourceKind,
}

/// Model of a [`ModuleSource`].
#[verifier::ext_equal]
pub struct SourceModel {
    pub id: Seq<char>,
    pub source: Seq<char>,
    pub path: Option<Seq<char>>,
    pub kind: ModuleSourceKind,
}

/// The text of an optional string.
pub open spec fn opt_text(s: Option<String>) -> Option<Seq<char>> {
    match s {
        Some(t) => Some(t@),
        None => None,
    }
}

impl ModuleSource {
    pub open spec fn view(&self) -> SourceModel {
        SourceModel {
            id: self.id@,
            source: self.source@,
            path: opt_text(self.path),
            kind: self.kind,
        }
    }

    /// Creates source for a logical module.
    pub fn new(id: ModuleId, source: String) -> (r: Self)
        ensures
            r@ == (SourceModel {
                id: id@,
                source: source@,
                path: None,
                kind: ModuleSourceKind::Executable,
            }),
    {
        ModuleSource { id, source, path: None, kind: ModuleSourceKind::Executable }
    }

    /// Creates source for a logical interface-only module.
    pub fn interface(id: ModuleId, source: String) -> (r: Self)
        ensures
            r@ == (SourceModel {
                id: id@,
                source: source@,
                path: None,
                kind: ModuleSourceKind::Interface,
            }),
    {
        ModuleSource { id, source, path: None, kind: ModuleSourceKind::Interface }
    }

    /// Creates source for a module read from disk.
    pub fn with_path(id: ModuleId, source: String, path: String) -> (r: Self)
        ensures
            r@ == (SourceModel {
                id: id@,
                source: source@,
                path: Some(path@),
                kind: ModuleSourceKind::Executable,
            }),
    {
        ModuleSource { id, source, path: Some(path), kind: ModuleSourceKind::Executable }
    }

    /// Returns this source with a different source kind.
    pub fn with_kind(self, kind: ModuleSourceKind) -> (r: Self)
        ensures
            r@ == (SourceModel { kind, ..self@ }),
    {
        ModuleSource { kind, ..self }
    }

    /// Returns this module's stable id.
    pub fn id(&self) -> (r: &ModuleId)
        ensures
            r@ == self@.id,
    {
        &self.id
    }

    /// Returns this module's source text.
    pub fn source(&self) -> (r: &str)
        ensures
            r@ == self@.source,
    {
        self.source.as_str()
    }

    /// Returns the source path when this module came from disk.
    pub fn path(&self) -> (r: Option<&str>)
        ensures
            match r {
                Some(p) => self@.path == Some(p@),
                None => self@.path is None,
            },
    {
        match &self.path {
            Some(p) => Some(p.as_str()),
            None => None,
        }
    }

    /// Returns whether this source is executable or interface-only.
    pub fn kind(&self) -> (r: ModuleSourceKind)
        ensures
            r == self@.kind,
    {
        self.kind
    }

    /// Returns true if this source can be loaded at runtime.
    pub fn is_executable(&self) -> (r: bool)
        ensures
            r == (self@.kind == ModuleSourceKind::Executable),
    {
        matches!(self.kind, ModuleSourceKind::Executable)
    }

    /// Returns true if this source is an interface declaration.
    pub fn is_interface(&self) -> (r: bool)
        ensures
            r == (self@.kind == ModuleSourceKind::Interface),
    {
        matches!(self.kind, ModuleSourceKind::Interface)
    }
}

impl Clone for ModuleSource {
    fn clone(&self) -> (r: Self)
        ensures
            r@ == self@,
    {
        ModuleSource {
            id: self.id.clone(),
            source: self.source.clone(),
            path: match &self.path {
                Some(p) => Some(p.clone()),
                None => None,
            },
            kind: self.kind,
        }
    }
}

/// Diagnostic source span, with zero-based lines and columns.
#[derive(Debug, Clone, Copy, PartialEq, Eq, Structural, PartialOrd, Ord, Hash)]
pub struct SourceSpan {
    /// Start line.
    pub line: u32,
    /// Start column.
    pub column: u32,
    /// End line.
    pub end_line: u32,
    /// End column.
    pub end_column: u32,
}

/// Module resolution failure.
#[derive(Debug)]
pub enum ModuleResolveError {
    /// The requested module was not found.
    NotFound(String),
    /// The requested module path is ambiguous.
    Ambiguous(String),
    /// The requested filesystem module resolved outside the configured root.
    OutsideRoot {
        /// Require specifier that resolved outside the configured root.
        specifier: String,
    },
    /// The module could not be read.
    Read {
        /// Module label or path.
        module: String,
        /// Human-readable read error.
        message: String,
    },
    /// The module could not be parsed for dependency discovery.
    Parse {
        /// Module label or path.
        module: String,
        /// Human-readable parse error.
        message: String,
    },
    /// An interface-only module came where runtime-loadable source is needed.
    NotExecutable(String),
}

/// Model of a [`ModuleResolveError`].
pub enum ResolveFault {
    NotFound(Seq<char>),
    Ambiguous(Seq<char>),
    OutsideRoot { specifier: Seq<char> },
    Read { module: Seq<char>, message: Seq<char> },
    Parse { module: Seq<char>, message: Seq<char> },
    NotExecutable(Seq<char>),
}

/// The text of a resolution failure.
pub open spec fn resolve_message(fault: ResolveFault) -> Seq<char> {
    match fault {
        ResolveFault::NotFound(m) => "module not found: "@ + m,
        ResolveFault::Ambiguous(m) => "module is ambiguous: "@ + m,
        ResolveFault::OutsideRoot { specifier } => "module outside resolver root: "@ + specifier,
        ResolveFault::Read { module, message } => "failed to read "@ + module + ": "@ + message,
        ResolveFault::Parse { module, message } => "failed to parse "@ + module + ": "@ + message,
        ResolveFault::NotExecutable(m) => "module is not executable: "@ + m
            + "; register declaration-only modules with ModuleInterfaceSet"@,
    }
}

impl ModuleResolveError {
    pub open spec fn view(&self) -> ResolveFault {
        match self {
            ModuleResolveError::NotFound(m) => ResolveFault::NotFound(m@),
            ModuleResolveError::Ambiguous(m) => ResolveFault::Ambiguous(m@),
            ModuleResolveError::OutsideRoot { specifier } => ResolveFault::OutsideRoot {
                specifier: specifier@,
            },
            ModuleResolveError::Read { module, message } => ResolveFault::Read {
                module: module@,
                message: message@,
            },
            ModuleResolveError::Parse { module, message } => ResolveFault::Parse {
                module: module@,
                message: message@,
            },
            ModuleResolveError::NotExecutable(m) => ResolveFault::NotExecutable(m@),
        }
    }

    /// The failure as a sentence.
    pub fn message(&self) -> (r: String)
        ensures
            r@ == resolve_message(self@),
    {
        match self {
            ModuleResolveError::NotFound(m) => "module not found: ".to_owned().concat(m.as_str()),
            ModuleResolveError::Ambiguous(m) => "module is ambiguous: ".to_owned().concat(
                m.as_str(),
            ),
            ModuleResolveError::OutsideRoot { specifier } => "module outside resolver root: ".to_owned().concat(
                specifier.as_str(),
            ),
            ModuleResolveError::Read { module, message } => "failed to read ".to_owned().concat(
                module.as_str(),
            ).concat(": ").concat(message.as_str()),
            ModuleResolveError::Parse { module, message } => "failed to parse ".to_owned().concat(
                module.as_str(),
            ).concat(": ").concat(message.as_str()),
            ModuleResolveError::NotExecutable(m) => "module is not executable: ".to_owned().concat(
                m.as_str(),
            ).concat("; register declaration-only modules with ModuleInterfaceSet"),
        }
    }
}

/// The text of a resolution failure names the module that it is about, and
/// tells what the system or the parser said.
pub proof fn law_resolve_messages_name_modules(module: Seq<char>, message: Seq<char>)
    ensures
        ends(resolve_message(ResolveFault::NotFound(module)), module),
        ends(resolve_message(ResolveFault::Ambiguous(module)), module),
        ends(resolve_message((ResolveFault::OutsideRoot { specifier: module })), module),
        ends(
            resolve_message((ResolveFault::Read { module, message })),
            module + ": "@ + message,
        ),
        ends(
            resolve_message((ResolveFault::Parse { module, message })),
            module + ": "@ + message,
        ),
        starts(
            resolve_message(ResolveFault::NotExecutable(module)),
            "module is not executable: "@ + module,
        ),
{
    let a = resolve_message(ResolveFault::NotFound(module));
    assert(a.skip(a.len() - module.len()) =~= module);
    let b = resolve_message(ResolveFault::Ambiguous(module));
    assert(b.skip(b.len() - module.len()) =~= module);
    let c = resolve_message((ResolveFault::OutsideRoot { specifier: module }));
    assert(c.skip(c.len() - module.len()) =~= module);
    let tail = module + ": "@ + message;
    let d = resolve_message((ResolveFault::Read { module, message }));
    assert(d.skip(d.len() - tail.len()) =~= tail);
    let e = resolve_message((ResolveFault::Parse { module, message }));
    assert(e.skip(e.len() - tail.len()) =~= tail);
    let f = resolve_message(ResolveFault::NotExecutable(module));
    let head = "module is not executable: "@ + module;
    assert(f.take(head.len() as int) =~= head);
}

} // verus!
