//! High-level checked host composition: host definitions, runtime installers,
//! preambles and requireable interfaces, and whether they fit together.
//!
//! Luau declarations and runtime installation are two halves of one host
//! contract: a tracked global that is declared must be installed, by an
//! installer or by the export of a preamble, and the other way round.
use crate::analyzer::checker::{plain_call, Checker};
use crate::analyzer::handle::CheckStep;
use crate::analyzer::interfaces::{
    declared, implemented, requireable_modules, InterfaceModel, ModuleInterface,
    ModuleInterfaceSet,
};
use crate::analyzer::native::CheckCall;
use crate::analyzer::plan::{
    assertion_module, assertion_of, implementation_specifier, scoped_set,
};
use crate::analyzer::schema::schema_of_json;
use crate::analyzer::{analysis_message, AnalysisError, AnalysisFault, SchemaModel};
use crate::error::{Error, ErrorModel};
use crate::host::{definitions_of, no_host, HostApi};
use crate::resolver::snapshot::other_modules;
use crate::resolver::{
    resolve_message, ModuleId, ModuleResolveError, ResolveFault, ResolverSnapshot,
};
use crate::sorted::{least_missing, lookup, put, SortedSet};
use crate::text::{debug_text, texts};
use vstd::prelude::*;
use vstd::string::*;

verus! {

/// A host-owned Luau preamble that returns helper globals to install.
#[derive(Debug)]
pub struct HostPreamble {
    /// Name used in diagnostics and chunk labels.
    pub name: String,
    /// Luau source evaluated at install time.
    pub source: String,
    /// Returned table fields copied into globals.
    pub exported: Vec<String>,
}

impl HostPreamble {
    /// Creates a preamble that returns a table of exported helper globals.
    pub fn new(name: &str, source: &str, exports: Vec<String>) -> (r: Self)
        ensures
            r.name@ == name@,
            r.source@ == source@,
            r.exported@ == exports@,
    {
        HostPreamble { name: name.to_owned(), source: source.to_owned(), exported: exports }
    }

    /// Returns exported global names.
    pub fn exports(&self) -> (r: &Vec<String>)
        ensures
            r@ == self.exported@,
    {
        &self.exported
    }

    /// Accepts the value that the preamble returned for one export: it must
    /// not be nil.
    pub fn accept_export(&self, export: &str, is_nil: bool) -> (r: Result<(), Error>)
        ensures
            match r {
                Ok(_) => !is_nil,
                Err(e) => is_nil && e@ == ErrorModel::RuntimeError(
                    "host preamble `"@ + self.name@ + "` did not export `"@ + export@ + "`"@,
                ),
            },
    {
        if is_nil {
            let message = "host preamble `".to_owned().concat(self.name.as_str()).concat(
                "` did not export `",
            ).concat(export).concat("`");
            return Err(Error::runtime(message.as_str()));
        }
        Ok(())
    }
}

/// Error returned while validating or using a [`CheckedHost`].
#[derive(Debug)]
pub enum CheckedHostError {
    /// A declaration was tracked, but no runtime installer was tracked for it.
    DeclaredButNotInstalled(String),
    /// A runtime installer was tracked, but no declaration was tracked for it.
    InstalledButNotDeclared(String),
    /// Analyzer setup or checking failed.
    Analysis(AnalysisError),
    /// Module resolution failed before checked loading.
    Resolve(ModuleResolveError),
}

/// Model of a [`CheckedHostError`].
pub enum CheckedHostFault {
    DeclaredButNotInstalled(Seq<char>),
    InstalledButNotDeclared(Seq<char>),
    Analysis(AnalysisFault),
    Resolve(ResolveFault),
}

/// A checked host error in words.
pub open spec fn checked_host_text(e: CheckedHostFault) -> Seq<char> {
    match e {
        CheckedHostFault::DeclaredButNotInstalled(global) => "host global `"@ + global
            + "` is declared but not installed"@,
        CheckedHostFault::InstalledButNotDeclared(global) => "host global `"@ + global
            + "` is installed but not declared"@,
        CheckedHostFault::Analysis(e) => analysis_message(e),
        CheckedHostFault::Resolve(e) => resolve_message(e),
    }
}

impl CheckedHostError {
    pub open spec fn view(&self) -> CheckedHostFault {
        match self {
            CheckedHostError::DeclaredButNotInstalled(g) =>
                CheckedHostFault::DeclaredButNotInstalled(g@),
            CheckedHostError::InstalledButNotDeclared(g) =>
                CheckedHostFault::InstalledButNotDeclared(g@),
            CheckedHostError::Analysis(e) => CheckedHostFault::Analysis(e@),
            CheckedHostError::Resolve(e) => CheckedHostFault::Resolve(e@),
        }
    }

    /// The error in words.
    pub fn message(&self) -> (r: String)
        ensures
            r@ == checked_host_text(self@),
    {
        match self {
            CheckedHostError::DeclaredButNotInstalled(g) => "host global `".to_owned().concat(
                g.as_str(),
            ).concat("` is declared but not installed"),
            CheckedHostError::InstalledButNotDeclared(g) => "host global `".to_owned().concat(
                g.as_str(),
            ).concat("` is installed but not declared"),
            CheckedHostError::Analysis(e) => e.message(),
            CheckedHostError::Resolve(e) => e.message(),
        }
    }
}

/// Checked host surface assembled from definitions, installers, and interfaces.
#[derive(Debug)]
pub struct CheckedHost {
    /// Runtime host declarations and installers.
    pub api: HostApi,
    /// Requireable host interfaces and implementation modules.
    pub catalog: ModuleInterfaceSet,
    /// Runtime preambles that install globals from returned helper tables.
    pub preambles: Vec<HostPreamble>,
}

/// The globals that the first `n` preambles export.
pub open spec fn exported_globals(preambles: Seq<HostPreamble>, n: int) -> Set<Seq<char>>
    decreases n,
{
    if n <= 0 {
        Set::empty()
    } else {
        exported_globals(preambles, n - 1).union(texts(preambles[n - 1].exported@).to_set())
    }
}

impl CheckedHost {
    pub open spec fn wf(&self) -> bool {
        self.api.wf() && self.catalog.wf()
    }

    /// The globals that are declared.
    pub open spec fn declared(&self) -> Set<Seq<char>> {
        self.api@.declared
    }

    /// The globals that are installed, by the host API or by a preamble.
    pub open spec fn installed(&self) -> Set<Seq<char>> {
        self.api@.installed.union(exported_globals(self.preambles@, self.preambles@.len() as int))
    }

    /// Creates an empty checked host.
    pub fn new() -> (r: Self)
        ensures
            r.wf(),
            r.api@ == no_host(),
            r.catalog@ == Seq::<(Seq<char>, InterfaceModel)>::empty(),
            r.preambles@ == Seq::<HostPreamble>::empty(),
    {
        CheckedHost::from_host_api(HostApi::new())
    }

    /// Creates a checked host from an existing [`HostApi`].
    pub fn from_host_api(host_api: HostApi) -> (r: Self)
        requires
            host_api.wf(),
        ensures
            r.wf(),
            r.api@ == host_api@,
            r.catalog@ == Seq::<(Seq<char>, InterfaceModel)>::empty(),
            r.preambles@ == Seq::<HostPreamble>::empty(),
    {
        CheckedHost { api: host_api, catalog: ModuleInterfaceSet::new(), preambles: Vec::new() }
    }

    /// Returns the underlying host API bundle.
    pub fn host_api(&self) -> (r: &HostApi)
        ensures
            *r == self.api,
    {
        &self.api
    }

    /// Returns the interface set used for requireable host modules.
    pub fn interfaces(&self) -> (r: &ModuleInterfaceSet)
        ensures
            *r == self.catalog,
    {
        &self.catalog
    }

    /// Mutably borrows the interface set for advanced catalog construction.
    pub fn interfaces_mut(&mut self) -> (r: &mut ModuleInterfaceSet)
        ensures
            *r == old(self).catalog,
            *final(self) == (CheckedHost { catalog: *final(r), ..*old(self) }),
    {
        &mut self.catalog
    }

    /// Replaces the host API bundle.
    pub fn with_host_api(self, host_api: HostApi) -> (r: Self)
        requires
            self.wf(),
            host_api.wf(),
        ensures
            r.wf(),
            r == (CheckedHost { api: host_api, ..self }),
    {
        CheckedHost { api: host_api, ..self }
    }

    /// Inserts a declaration interface with its syntax tree.
    pub fn with_interface(self, specifier: &str, source: &str, ast_json: &str) -> (r: Result<
        Self,
        AnalysisError,
    >)
        requires
            self.wf(),
        ensures
            match r {
                Ok(h) => {
                    &&& h.wf()
                    &&& h.api == self.api
                    &&& h.preambles == self.preambles
                    &&& schema_of_json(ast_json@, source@) matches Ok(schema) && h.catalog@ == put(
                        self.catalog@,
                        specifier@,
                        declared(specifier@, source@, schema),
                    )
                },
                Err(e) => e@ is ModuleSchema && schema_of_json(ast_json@, source@) == Err::<
                    SchemaModel,
                    Seq<char>,
                >(e@->ModuleSchema_0),
            },
    {
        let mut catalog = self.catalog;
        match catalog.insert(specifier, source, ast_json) {
            Ok(_) => Ok(CheckedHost { api: self.api, catalog, preambles: self.preambles }),
            Err(e) => Err(e),
        }
    }

    /// Inserts a pre-resolved interface.
    pub fn with_interface_value(self, interface: ModuleInterface) -> (r: Self)
        requires
            self.wf(),
        ensures
            r.wf(),
            r.api == self.api,
            r.preambles == self.preambles,
            r.catalog@ == put(self.catalog@, interface@.specifier, interface@),
    {
        let mut catalog = self.catalog;
        catalog.insert_interface(interface);
        CheckedHost { api: self.api, catalog, preambles: self.preambles }
    }

    /// Inserts implementation source as a requireable virtual module.
    pub fn with_implementation(self, specifier: &str, source: &str) -> (r: Self)
        requires
            self.wf(),
        ensures
            r.wf(),
            r.api == self.api,
            r.preambles == self.preambles,
            r.catalog@ == put(self.catalog@, specifier@, implemented(specifier@, source@)),
    {
        let mut catalog = self.catalog;
        catalog.insert_implementation(specifier, source);
        CheckedHost { api: self.api, catalog, preambles: self.preambles }
    }

    /// Adds a runtime preamble that returns helper globals.
    pub fn with_preamble(self, preamble: HostPreamble) -> (r: Self)
        requires
            self.wf(),
        ensures
            r.wf(),
            r.api == self.api,
            r.catalog == self.catalog,
            r.preambles@ == self.preambles@.push(preamble),
    {
        let mut preambles = self.preambles;
        preambles.push(preamble);
        CheckedHost { api: self.api, catalog: self.catalog, preambles }
    }

    /// Collects the globals that are installed.
    fn installed_set(&self) -> (r: SortedSet)
        requires
            self.wf(),
        ensures
            r.wf(),
            r@ == self.installed(),
    {
        let mut all = SortedSet::new();
        let own = self.api.installed.to_vec();
        insert_all(&mut all, &own);
        assert(all@ =~= self.api@.installed) by {
            assert forall|k: Seq<char>| all@.contains(k) <==> self.api@.installed.contains(k) by {
                assert(texts(own@).to_set().contains(k) <==> texts(own@).contains(k));
            }
        }
        let mut i: usize = 0;
        assert(all@ =~= self.api@.installed.union(exported_globals(self.preambles@, 0)));
        while i < self.preambles.len()
            invariant
                i <= self.preambles.len(),
                all.wf(),
                all@ == self.api@.installed.union(exported_globals(self.preambles@, i as int)),
            decreases self.preambles.len() - i,
        {
            insert_all(&mut all, &self.preambles[i].exported);
            assert(all@ =~= self.api@.installed.union(exported_globals(self.preambles@, i + 1)));
            i += 1;
        }
        all
    }

    /// Checks known declaration/runtime bindings for drift. The first global
    /// in order that is declared and not installed is reported, and where
    /// there is none, the first that is installed and not declared.
    pub fn validate_bindings(&self) -> (r: Result<(), CheckedHostError>)
        requires
            self.wf(),
        ensures
            match r {
                Ok(_) => self.declared() == self.installed(),
                Err(CheckedHostError::DeclaredButNotInstalled(g)) => least_missing(
                    self.declared(),
                    self.installed(),
                    g@,
                ),
                Err(CheckedHostError::InstalledButNotDeclared(g)) => self.declared().subset_of(
                    self.installed(),
                ) && least_missing(self.installed(), self.declared(), g@),
                Err(_) => false,
            },
    {
        let installed = self.installed_set();
        match self.api.declared.first_missing(&installed) {
            Some(g) => {
                return Err(CheckedHostError::DeclaredButNotInstalled(g.to_owned()));
            },
            None => {},
        }
        match installed.first_missing(&self.api.declared) {
            Some(g) => {
                return Err(CheckedHostError::InstalledButNotDeclared(g.to_owned()));
            },
            None => {},
        }
        assert(self.declared() =~= self.installed());
        Ok(())
    }

    /// The definitions to install into a checker, once the known bindings are
    /// validated.
    pub fn install_definitions(&self) -> (r: Result<&str, CheckedHostError>)
        requires
            self.wf(),
        ensures
            match r {
                Ok(text) => self.declared() == self.installed() && text@ == definitions_of(
                    self.api@,
                ),
                Err(CheckedHostError::DeclaredButNotInstalled(g)) => least_missing(
                    self.declared(),
                    self.installed(),
                    g@,
                ),
                Err(CheckedHostError::InstalledButNotDeclared(g)) => self.declared().subset_of(
                    self.installed(),
                ) && least_missing(self.installed(), self.declared(), g@),
                Err(_) => false,
            },
    {
        match self.validate_bindings() {
            Ok(_) => Ok(self.api.definitions()),
            Err(e) => Err(e),
        }
    }

    /// Starts the check of a script against this host's interfaces, once its
    /// definitions are in the checker. `installed` says how loading them ended.
    pub fn check_script(
        &self,
        checker: &mut Checker,
        source: &str,
        installed: Result<(), AnalysisError>,
    ) -> (r: Result<CheckStep, CheckedHostError>)
        requires
            self.wf(),
        ensures
            match r {
                Ok(step) => self.declared() == self.installed() && installed is Ok && old(
                    checker,
                ).started(
                    *final(checker),
                    step,
                    source@,
                    CheckCall {
                        virtual_modules: requireable_modules(
                            self.catalog@,
                            self.catalog@.len() as int,
                        ),
                        ..plain_call()
                    },
                ),
                Err(e) => *final(checker) == *old(checker) && self.refused(e, installed),
            },
    {
        match self.ready(installed) {
            Ok(()) => Ok(checker.check_with_interfaces(source, &self.catalog)),
            Err(e) => Err(e),
        }
    }

    /// Starts the check of an implementation against a declaration of this
    /// host, once its definitions are in the checker.
    pub fn check_implementation(
        &self,
        checker: &mut Checker,
        impl_source: &str,
        impl_module_id: &ModuleId,
        declaration_specifier: &str,
        installed: Result<(), AnalysisError>,
    ) -> (r: Result<CheckStep, CheckedHostError>)
        requires
            self.wf(),
        ensures
            match r {
                Ok(step) => self.declared() == self.installed() && installed is Ok && ({
                    let specifier = implementation_specifier(impl_module_id@);
                    let scoped = scoped_set(self.catalog@, specifier, impl_source@);
                    old(checker).started(
                        *final(checker),
                        step,
                        assertion_of(debug_text(declaration_specifier@), debug_text(specifier)),
                        CheckCall {
                            module_name: Some(assertion_module(impl_module_id@)),
                            virtual_modules: requireable_modules(scoped, scoped.len() as int),
                            ..plain_call()
                        },
                    )
                }),
                Err(e) => *final(checker) == *old(checker) && self.refused(e, installed),
            },
    {
        match self.ready(installed) {
            Ok(()) => Ok(
                checker.check_implementation(
                    impl_source,
                    impl_module_id,
                    &self.catalog,
                    declaration_specifier,
                ),
            ),
            Err(e) => Err(e),
        }
    }

    /// Starts the check of a resolved graph against this host's interfaces,
    /// once its definitions are in the checker and the graph is resolved.
    pub fn check_resolved(
        &self,
        checker: &mut Checker,
        snapshot: Result<&ResolverSnapshot, ModuleResolveError>,
        installed: Result<(), AnalysisError>,
    ) -> (r: Result<CheckStep, CheckedHostError>)
        requires
            self.wf(),
            snapshot matches Ok(s) ==> s.wf(),
        ensures
            match r {
                Ok(step) => self.declared() == self.installed() && installed is Ok && (
                snapshot matches Ok(s) && lookup(s@.modules, s@.root) matches Some(root) && old(
                    checker,
                ).started(
                    *final(checker),
                    step,
                    root.source,
                    CheckCall {
                        module_name: Some(root.id),
                        virtual_modules: other_modules(
                            s@.modules,
                            s@.root,
                            s@.modules.len() as int,
                        ) + requireable_modules(self.catalog@, self.catalog@.len() as int),
                        ..plain_call()
                    },
                )),
                Err(CheckedHostError::Resolve(e)) => *final(checker) == *old(checker)
                    && self.declared() == self.installed() && installed is Ok && snapshot == Err::<
                    &ResolverSnapshot,
                    ModuleResolveError,
                >(e),
                Err(e) => *final(checker) == *old(checker) && self.refused(e, installed),
            },
    {
        match self.ready(installed) {
            Ok(()) => {},
            Err(e) => {
                return Err(e);
            },
        }
        match snapshot {
            Ok(snapshot) => Ok(checker.check_snapshot_with_interfaces(snapshot, &self.catalog)),
            Err(e) => Err(CheckedHostError::Resolve(e)),
        }
    }

    /// Why a check does not start: bindings that drift, or definitions that
    /// were not loaded.
    pub open spec fn refused(
        &self,
        e: CheckedHostError,
        installed: Result<(), AnalysisError>,
    ) -> bool {
        match e {
            CheckedHostError::DeclaredButNotInstalled(g) => least_missing(
                self.declared(),
                self.installed(),
                g@,
            ),
            CheckedHostError::InstalledButNotDeclared(g) => self.declared().subset_of(
                self.installed(),
            ) && least_missing(self.installed(), self.declared(), g@),
            CheckedHostError::Analysis(own) => self.declared() == self.installed() && installed
                == Err::<(), AnalysisError>(own),
            CheckedHostError::Resolve(_) => false,
        }
    }

    /// Validates the bindings and takes how loading the definitions ended.
    fn ready(&self, installed: Result<(), AnalysisError>) -> (r: Result<(), CheckedHostError>)
        requires
            self.wf(),
        ensures
            match r {
                Ok(_) => self.declared() == self.installed() && installed is Ok,
                Err(e) => self.refused(e, installed),
            },
    {
        match self.validate_bindings() {
            Ok(_) => {},
            Err(e) => {
                return Err(e);
            },
        }
        match installed {
            Ok(_) => Ok(()),
            Err(e) => Err(CheckedHostError::Analysis(e)),
        }
    }
}

/// Adds every text of a list.
fn insert_all(all: &mut SortedSet, names: &Vec<String>)
    requires
        old(all).wf(),
    ensures
        final(all).wf(),
        final(all)@ == old(all)@.union(texts(names@).to_set()),
{
    let ghost before = all@;
    let ghost list = texts(names@);
    let mut i: usize = 0;
    assert(all@ =~= before.union(list.take(0).to_set()));
    while i < names.len()
        invariant
            i <= names.len(),
            all.wf(),
            list == texts(names@),
            all@ == before.union(list.take(i as int).to_set()),
        decreases names.len() - i,
    {
        all.insert(names[i].clone());
        proof {
            let short = list.take(i as int);
            let long = list.take(i + 1);
            let name = list[i as int];
            assert(long =~= short.push(name));
            assert forall|k: Seq<char>| long.contains(k) <==> (k == name || short.contains(k)) by {
                if short.contains(k) {
                    assert(long[short.index_of(k)] == k);
                }
                if k == name {
                    assert(long[i as int] == k);
                }
                if long.contains(k) && k != name {
                    assert(short[long.index_of(k)] == k);
                }
            }
            assert(all@ =~= before.union(long.to_set()));
        }
        i += 1;
    }
    assert(list.take(i as int) =~= list);
}

/// The exports of a preamble count as installed globals, and adding a preamble
/// takes no other installed global away.
pub proof fn law_exports_count_as_installed(
    before: CheckedHost,
    after: CheckedHost,
    preamble: HostPreamble,
)
    requires
        after.api == before.api,
        after.preambles@ == before.preambles@.push(preamble),
    ensures
        after.declared() == before.declared(),
        after.installed() == before.installed().union(texts(preamble.exported@).to_set()),
{
    let n = before.preambles@.len() as int;
    lemma_exported_prefix(before.preambles@, preamble, n);
    assert(after.preambles@[n] == preamble);
    assert(after.installed() =~= before.installed().union(texts(preamble.exported@).to_set()));
}

/// What the first preambles export does not depend on a later one.
proof fn lemma_exported_prefix(preambles: Seq<HostPreamble>, last: HostPreamble, n: int)
    requires
        n <= preambles.len(),
    ensures
        exported_globals(preambles.push(last), n) == exported_globals(preambles, n),
    decreases n,
{
    if n > 0 {
        lemma_exported_prefix(preambles, last, n - 1);
    }
}

/// The globals that preambles export are all that any one of them exports, and
/// nothing else.
pub proof fn law_every_export_is_a_global(preambles: Seq<HostPreamble>, n: int, global: Seq<char>)
    requires
        0 <= n <= preambles.len(),
    ensures
        exported_globals(preambles, n).contains(global) <==> exists|k: int|
            0 <= k < n && texts((#[trigger] preambles[k]).exported@).contains(global),
    decreases n,
{
    if n > 0 {
        law_every_export_is_a_global(preambles, n - 1, global);
        let last = texts(preambles[n - 1].exported@);
        assert(last.to_set().contains(global) <==> last.contains(global));
        if exists|k: int|
            0 <= k < n && texts((#[trigger] preambles[k]).exported@).contains(global) {
            let k = choose|k: int|
                0 <= k < n && texts((#[trigger] preambles[k]).exported@).contains(global);
            assert(k == n - 1 || k < n - 1);
        }
    }
}

} // verus!
