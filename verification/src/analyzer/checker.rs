//! A checker: its defaults, its busy slot, and what each kind of check hands
//! to the native checker.
//!
//! A check is started here and goes on as its [`CheckStep`] says; the native
//! job itself runs elsewhere.
use super::handle::{begin_check, first_step, CheckStep, CheckerHandle, StepModel};
use super::interfaces::{
    catalog, law_requireable_interfaces_are_visible, requireable_modules, InterfaceModel,
    ModuleInterfaceSet, VirtualModel,
};
use super::native::{
    as_bytes, definition_inputs, definitions_fault, definitions_result, law_inputs_read_back,
    lossy_text, prefix_definitions_error, CheckCall, InputsModel,
};
use super::plan::{
    assertion_module, assertion_of, implementation_check, implementation_specifier,
    interface_modules, scoped_modules, scoped_set, snapshot_check,
};
use super::{AnalysisError, AnalysisFault, CheckOptions, CheckerOptions};
use crate::resolver::snapshot::{
    closed, law_all_other_modules_are_visible, other_modules, GraphModel,
};
use crate::resolver::{ModuleId, ResolverSnapshot, SourceModel};
use crate::sorted::lookup;
use crate::text::debug_text;
use vstd::prelude::*;
use vstd::string::*;
use vstd::utf8::{decode_utf8, encode_utf8};

verus! {

/// A text file that was loaded for the checker.
#[derive(Debug)]
pub struct LoadedInput {
    /// Display label used for diagnostics and module names.
    pub label: String,
    /// Contents loaded from disk.
    pub contents: String,
}

impl LoadedInput {
    /// Takes what reading a file gave: its contents, or the message of the
    /// failure.
    pub fn read(label: String, kind: &'static str, outcome: Result<String, String>) -> (r: Result<
        Self,
        AnalysisError,
    >)
        ensures
            match (outcome, r) {
                (Ok(contents), Ok(loaded)) => loaded.label@ == label@ && loaded.contents@
                    == contents@,
                (Err(message), Err(e)) => e@ == (AnalysisFault::ReadFile {
                    kind: kind@,
                    path: label@,
                    message: message@,
                }),
                _ => false,
            },
    {
        match outcome {
            Ok(contents) => Ok(LoadedInput { label, contents }),
            Err(message) => Err(AnalysisError::ReadFile { kind, path: label, message }),
        }
    }
}

/// Reusable checker with persistent global definitions.
#[derive(Debug)]
pub struct Checker {
    /// Whether something is in flight.
    pub handle: CheckerHandle,
    /// Default checker behavior options.
    pub defaults: CheckerOptions,
}

/// The call that says nothing.
pub open spec fn plain_call() -> CheckCall {
    CheckCall {
        timeout: None,
        module_name: None,
        cancellation_token: None,
        virtual_modules: Seq::empty(),
    }
}

impl Checker {
    /// How a check of this checker starts.
    pub open spec fn start(&self, source: Seq<char>, call: CheckCall) -> super::handle::StepModel {
        first_step(self.handle.busy, source, call, self.defaults)
    }

    /// Whether `r` is that start, and `after` is the checker behind it.
    pub open spec fn started(
        &self,
        after: Checker,
        r: CheckStep,
        source: Seq<char>,
        call: CheckCall,
    ) -> bool {
        &&& r.wf()
        &&& r@ == self.start(source, call)
        &&& after.defaults == self.defaults
        &&& after.handle.busy == (self.handle.busy || !(r is Fail))
    }

    /// Creates a checker with default options. `created` says whether the
    /// native checker could be made.
    pub fn new(created: bool) -> (r: Result<Self, AnalysisError>)
        ensures
            match r {
                Ok(c) => created && !c.handle.busy && c.defaults.default_timeout is None
                    && c.defaults.default_module_name@ == "main"@
                    && c.defaults.default_definitions_module_name@ == "@definitions"@,
                Err(e) => !created && e@ == AnalysisFault::CreateCheckerFailed,
            },
    {
        Self::with_options(CheckerOptions::default(), created)
    }

    /// Creates a checker with explicit defaults. `created` says whether the
    /// native checker could be made.
    pub fn with_options(options: CheckerOptions, created: bool) -> (r: Result<Self, AnalysisError>)
        ensures
            match r {
                Ok(c) => created && !c.handle.busy && c.defaults == options,
                Err(e) => !created && e@ == AnalysisFault::CreateCheckerFailed,
            },
    {
        if !created {
            return Err(AnalysisError::CreateCheckerFailed);
        }
        Ok(Checker { handle: CheckerHandle::new(), defaults: options })
    }

    /// Returns the checker's default options.
    pub fn options(&self) -> (r: &CheckerOptions)
        ensures
            *r == self.defaults,
    {
        &self.defaults
    }

    /// Starts loading definitions under a module label, and gives the lengths
    /// of both texts. The slot is taken where that succeeds.
    pub fn add_definitions_with_name(&mut self, defs: &str, module_name: &str) -> (r: Result<
        (u32, u32),
        AnalysisError,
    >)
        ensures
            final(self).defaults == old(self).defaults,
            match r {
                Ok(lens) => !old(self).handle.busy && final(self).handle.busy && definitions_fault(
                    defs@,
                    module_name@,
                ) is None && lens.0 == encode_utf8(defs@).len() && lens.1 == encode_utf8(
                    module_name@,
                ).len(),
                Err(e) => if old(self).handle.busy {
                    final(self).handle.busy && e@ == AnalysisFault::Busy
                } else {
                    !final(self).handle.busy && definitions_fault(defs@, module_name@) == Some(e@)
                },
            },
    {
        match self.handle.claim() {
            Ok(()) => {},
            Err(e) => {
                return Err(e);
            },
        }
        let lens = definition_inputs(defs, module_name);
        if lens.is_err() {
            self.handle.clear_busy();
        }
        lens
    }

    /// Starts loading definitions under the default module label.
    pub fn add_definitions(&mut self, defs: &str) -> (r: Result<(u32, u32), AnalysisError>)
        ensures
            final(self).defaults == old(self).defaults,
            ({
                let name = old(self).defaults.default_definitions_module_name@;
                match r {
                    Ok(lens) => !old(self).handle.busy && final(self).handle.busy
                        && definitions_fault(defs@, name) is None && lens.0 == encode_utf8(
                        defs@,
                    ).len() && lens.1 == encode_utf8(name).len(),
                    Err(e) => if old(self).handle.busy {
                        final(self).handle.busy && e@ == AnalysisFault::Busy
                    } else {
                        !final(self).handle.busy && definitions_fault(defs@, name) == Some(e@)
                    },
                }
            }),
    {
        let name = self.defaults.default_definitions_module_name.clone();
        self.add_definitions_with_name(defs, name.as_str())
    }

    /// Takes the native reply to loading definitions and frees the slot.
    pub fn finish_definitions(&mut self, reply: &[u8]) -> (r: Result<(), AnalysisError>)
        requires
            old(self).handle.busy,
        ensures
            !final(self).handle.busy,
            final(self).defaults == old(self).defaults,
            r is Ok <==> reply@.len() == 0,
            r matches Err(e) ==> e@ == AnalysisFault::Definitions(lossy_text(reply@)),
    {
        self.handle.clear_busy();
        definitions_result(reply)
    }

    /// The same for definitions of a file, whose label stands in front of the
    /// message of a failure.
    pub fn finish_definitions_path(&mut self, label: &str, reply: &[u8]) -> (r: Result<
        (),
        AnalysisError,
    >)
        requires
            old(self).handle.busy,
        ensures
            !final(self).handle.busy,
            final(self).defaults == old(self).defaults,
            r is Ok <==> reply@.len() == 0,
            r matches Err(e) ==> e@ == AnalysisFault::Definitions(
                label@ + ": "@ + lossy_text(reply@),
            ),
    {
        let result = self.finish_definitions(reply);
        prefix_definitions_error(label, result)
    }

    /// Starts a check with explicit per-call options.
    pub fn check_with_options(&mut self, source: &str, options: &CheckOptions<'_>) -> (r: CheckStep)
        ensures
            old(self).started(*final(self), r, source@, options@),
    {
        begin_check(&mut self.handle, source, options, &self.defaults)
    }

    /// Starts a check with default options.
    pub fn check(&mut self, source: &str) -> (r: CheckStep)
        ensures
            old(self).started(*final(self), r, source@, plain_call()),
    {
        let options = CheckOptions::default();
        assert(options@ =~= plain_call());
        self.check_with_options(source, &options)
    }

    /// Starts the check of a file. Its label is the module label, unless the
    /// call names another one.
    pub fn check_path_with_options(&mut self, loaded: &LoadedInput, options: CheckOptions<'_>) -> (r:
        CheckStep)
        ensures
            old(self).started(
                *final(self),
                r,
                loaded.contents@,
                CheckCall {
                    module_name: Some(
                        match options@.module_name {
                            Some(name) => name,
                            None => loaded.label@,
                        },
                    ),
                    ..options@
                },
            ),
    {
        let named = options.with_fallback_module_name(loaded.label.as_str());
        self.check_with_options(loaded.contents.as_str(), &named)
    }

    /// Starts the check of a file with default options.
    pub fn check_path(&mut self, loaded: &LoadedInput) -> (r: CheckStep)
        ensures
            old(self).started(
                *final(self),
                r,
                loaded.contents@,
                CheckCall { module_name: Some(loaded.label@), ..plain_call() },
            ),
    {
        let options = CheckOptions::default();
        assert(options@ =~= plain_call());
        self.check_path_with_options(loaded, options)
    }

    /// Starts the check of a resolved module graph against host interfaces:
    /// of the root module, with the other modules and then the interfaces.
    pub fn check_snapshot_with_interfaces(
        &mut self,
        snapshot: &ResolverSnapshot,
        interfaces: &ModuleInterfaceSet,
    ) -> (r: CheckStep)
        requires
            snapshot.wf(),
        ensures
            lookup(snapshot@.modules, snapshot@.root) matches Some(root) && old(self).started(
                *final(self),
                r,
                root.source,
                CheckCall {
                    module_name: Some(root.id),
                    virtual_modules: other_modules(
                        snapshot@.modules,
                        snapshot@.root,
                        snapshot@.modules.len() as int,
                    ) + requireable_modules(interfaces@, interfaces@.len() as int),
                    ..plain_call()
                },
            ),
    {
        match snapshot_check(snapshot, interfaces) {
            Err(e) => CheckStep::Fail(e),
            Ok(plan) => {
                let options = CheckOptions {
                    module_name: Some(plan.module_name),
                    virtual_modules: plan.virtual_modules.as_slice(),
                    ..CheckOptions::default()
                };
                self.check_with_options(plan.source, &options)
            },
        }
    }

    /// Starts the check of a resolved module graph.
    pub fn check_snapshot(&mut self, snapshot: &ResolverSnapshot) -> (r: CheckStep)
        requires
            snapshot.wf(),
        ensures
            lookup(snapshot@.modules, snapshot@.root) matches Some(root) && old(self).started(
                *final(self),
                r,
                root.source,
                CheckCall {
                    module_name: Some(root.id),
                    virtual_modules: other_modules(
                        snapshot@.modules,
                        snapshot@.root,
                        snapshot@.modules.len() as int,
                    ),
                    ..plain_call()
                },
            ),
    {
        let none = ModuleInterfaceSet::new();
        let ghost others = other_modules(
            snapshot@.modules,
            snapshot@.root,
            snapshot@.modules.len() as int,
        );
        assert(others + requireable_modules(none@, none@.len() as int) =~= others);
        self.check_snapshot_with_interfaces(snapshot, &none)
    }

    /// Starts a check against interfaces plus explicit per-call options.
    pub fn check_with_interfaces_options(
        &mut self,
        source: &str,
        interfaces: &ModuleInterfaceSet,
        options: CheckOptions<'_>,
    ) -> (r: CheckStep)
        ensures
            old(self).started(
                *final(self),
                r,
                source@,
                CheckCall {
                    virtual_modules: requireable_modules(interfaces@, interfaces@.len() as int)
                        + options@.virtual_modules,
                    ..options@
                },
            ),
    {
        let modules = interface_modules(interfaces, options.virtual_modules);
        let merged = CheckOptions { virtual_modules: modules.as_slice(), ..options };
        self.check_with_options(source, &merged)
    }

    /// Starts a check against interfaces.
    pub fn check_with_interfaces(&mut self, source: &str, interfaces: &ModuleInterfaceSet) -> (r:
        CheckStep)
        ensures
            old(self).started(
                *final(self),
                r,
                source@,
                CheckCall {
                    virtual_modules: requireable_modules(interfaces@, interfaces@.len() as int),
                    ..plain_call()
                },
            ),
    {
        let options = CheckOptions::default();
        assert(options@ =~= plain_call());
        assert(requireable_modules(interfaces@, interfaces@.len() as int)
            + Seq::<super::interfaces::VirtualModel>::empty() =~= requireable_modules(
            interfaces@,
            interfaces@.len() as int,
        ));
        self.check_with_interfaces_options(source, interfaces, options)
    }

    /// Starts the check of an implementation against a declaration of a set:
    /// of an assignment of the one to the type of the other.
    pub fn check_implementation(
        &mut self,
        impl_source: &str,
        impl_module_id: &ModuleId,
        interfaces: &ModuleInterfaceSet,
        declaration_specifier: &str,
    ) -> (r: CheckStep)
        requires
            interfaces.wf(),
        ensures
            ({
                let specifier = implementation_specifier(impl_module_id@);
                let scoped = scoped_set(interfaces@, specifier, impl_source@);
                old(self).started(
                    *final(self),
                    r,
                    assertion_of(debug_text(declaration_specifier@), debug_text(specifier)),
                    CheckCall {
                        module_name: Some(assertion_module(impl_module_id@)),
                        virtual_modules: requireable_modules(scoped, scoped.len() as int),
                        ..plain_call()
                    },
                )
            }),
    {
        let plan = implementation_check(impl_module_id, declaration_specifier);
        let modules = scoped_modules(interfaces, plan.specifier.as_str(), impl_source);
        let options = CheckOptions {
            module_name: Some(plan.module_name.as_str()),
            virtual_modules: modules.as_slice(),
            ..CheckOptions::default()
        };
        self.check_with_options(plan.assertion.as_str(), &options)
    }
}

/// What reaches the native checker from a check against interfaces: the source
/// of the call, and for each interface that can be required a module whose
/// name decodes to its specifier and whose source to what was generated for
/// it. Returns the place of that module.
pub proof fn law_checker_reads_interfaces(
    e: Seq<(Seq<char>, InterfaceModel)>,
    source: Seq<char>,
    defaults: CheckerOptions,
    inputs: InputsModel,
    i: int,
) -> (at: int)
    requires
        catalog(e),
        0 <= i < e.len(),
        e[i].1.requireable,
        first_step(
            false,
            source,
            (CheckCall {
                virtual_modules: requireable_modules(e, e.len() as int),
                ..plain_call()
            }),
            defaults,
        ) == StepModel::CreateToken(inputs),
    ensures
        decode_utf8(inputs.source) == source,
        0 <= at < inputs.virtual_modules.len(),
        decode_utf8(inputs.virtual_modules[at].name) == e[i].1.specifier,
        decode_utf8(inputs.virtual_modules[at].source) == e[i].1.checker_source,
{
    let modules = requireable_modules(e, e.len() as int);
    let call = CheckCall { virtual_modules: modules, ..plain_call() };
    law_inputs_read_back(source, call, defaults);
    law_requireable_interfaces_are_visible(e, i, 0);
    let m = choose|m: VirtualModel| #[trigger]
        modules.contains(m) && m.name == e[i].1.specifier && m.source == e[i].1.checker_source;
    let at = modules.index_of(m);
    assert(inputs.virtual_modules[at] == as_bytes(modules[at]));
    at
}

/// What reaches the native checker from the check of a module graph: the
/// source of the root under its id, and for each other module one whose name
/// decodes to its id and whose source to its source. Returns the place of that
/// module.
pub proof fn law_checker_reads_modules(
    g: GraphModel,
    root: SourceModel,
    more: Seq<VirtualModel>,
    defaults: CheckerOptions,
    inputs: InputsModel,
    i: int,
) -> (at: int)
    requires
        closed(g),
        lookup(g.modules, g.root) == Some(root),
        0 <= i < g.modules.len(),
        g.modules[i].0 != g.root,
        first_step(
            false,
            root.source,
            (CheckCall {
                module_name: Some(root.id),
                virtual_modules: other_modules(g.modules, g.root, g.modules.len() as int) + more,
                ..plain_call()
            }),
            defaults,
        ) == StepModel::CreateToken(inputs),
    ensures
        decode_utf8(inputs.source) == root.source,
        decode_utf8(inputs.module_name) == root.id,
        0 <= at < inputs.virtual_modules.len(),
        decode_utf8(inputs.virtual_modules[at].name) == g.modules[i].0,
        decode_utf8(inputs.virtual_modules[at].source) == g.modules[i].1.source,
{
    let others = other_modules(g.modules, g.root, g.modules.len() as int);
    let modules = others + more;
    let call = CheckCall {
        module_name: Some(root.id),
        virtual_modules: modules,
        ..plain_call()
    };
    law_inputs_read_back(root.source, call, defaults);
    law_all_other_modules_are_visible(g, i, 0);
    let m = VirtualModel { name: g.modules[i].0, source: g.modules[i].1.source };
    let at = others.index_of(m);
    assert(modules[at] == m);
    assert(inputs.virtual_modules[at] == as_bytes(modules[at]));
    at
}

} // verus!
