//! `require` at run time: which module is loaded, what is kept of it, and when
//! a load is refused.
use crate::error::{Error, ErrorModel};
use crate::resolver::{
    resolve_message, ModuleResolveError, ModuleSource, ModuleSourceKind, ResolveFault, SourceModel,
};
use crate::sorted::{lemma_put, lemma_without, lookup, ordered, put, without, SortedMap};
use vstd::prelude::*;
use vstd::string::*;

verus! {

/// A value that a module returned: a handle of the machine's, or `true` where
/// the module returned nothing.
#[derive(Clone, Copy, Debug, PartialEq, Eq, Structural)]
pub enum ModuleValue {
    True,
    Handle(u64),
}

/// Runtime loading state for one resolved module.
#[derive(Clone, Copy, Debug, PartialEq, Eq, Structural)]
pub enum RuntimeModuleState {
    /// The module is currently executing.
    Loading,
    /// The module finished and returned this cached value.
    Loaded(ModuleValue),
}

/// Per-resolver module cache shared across requester-specific `require`
/// functions.
#[derive(Debug)]
pub struct RuntimeModuleCache {
    pub states: SortedMap<RuntimeModuleState>,
}

/// What the cache says of a module: its value, nothing, or the refusal of a
/// module that is still loading.
pub open spec fn cached_value(state: Option<RuntimeModuleState>, id: Seq<char>) -> Result<
    Option<ModuleValue>,
    ErrorModel,
> {
    match state {
        Some(RuntimeModuleState::Loaded(value)) => Ok(Some(value)),
        Some(RuntimeModuleState::Loading) => Err(
            ErrorModel::RuntimeError("cyclic module require: "@ + id),
        ),
        None => Ok(None),
    }
}

impl RuntimeModuleCache {
    pub open spec fn view(&self) -> Seq<(Seq<char>, RuntimeModuleState)> {
        self.states@
    }

    pub open spec fn wf(&self) -> bool {
        self.states.wf()
    }

    /// Creates an empty module cache.
    pub fn new() -> (r: Self)
        ensures
            r.wf(),
            r@ == Seq::<(Seq<char>, RuntimeModuleState)>::empty(),
    {
        RuntimeModuleCache { states: SortedMap::new() }
    }

    /// Returns a loaded module value, or an error when a cyclic load is in progress.
    pub fn loaded(&self, module_id: &str) -> (r: Result<Option<ModuleValue>, Error>)
        requires
            self.wf(),
        ensures
            match r {
                Ok(value) => cached_value(lookup(self@, module_id@), module_id@) == Ok::<
                    _,
                    ErrorModel,
                >(value),
                Err(e) => cached_value(lookup(self@, module_id@), module_id@) == Err::<
                    Option<ModuleValue>,
                    _,
                >(e@),
            },
    {
        match self.states.get(module_id) {
            Some(RuntimeModuleState::Loaded(value)) => Ok(Some(*value)),
            Some(RuntimeModuleState::Loading) => Err(
                Error::runtime("cyclic module require: ".to_owned().concat(module_id).as_str()),
            ),
            None => Ok(None),
        }
    }

    /// Marks a module as currently loading.
    pub fn start_loading(&mut self, module_id: &str)
        requires
            old(self).wf(),
        ensures
            final(self).wf(),
            final(self)@ == put(old(self)@, module_id@, RuntimeModuleState::Loading),
    {
        self.states.insert(module_id.to_owned(), RuntimeModuleState::Loading);
    }

    /// Stores a loaded module result.
    pub fn mark_loaded(&mut self, module_id: &str, value: ModuleValue)
        requires
            old(self).wf(),
        ensures
            final(self).wf(),
            final(self)@ == put(old(self)@, module_id@, RuntimeModuleState::Loaded(value)),
    {
        self.states.insert(module_id.to_owned(), RuntimeModuleState::Loaded(value));
    }

    /// Removes a module from the cache after load failure.
    pub fn remove(&mut self, module_id: &str)
        requires
            old(self).wf(),
        ensures
            final(self).wf(),
            final(self)@ == without(old(self)@, module_id@),
    {
        self.states.remove(module_id);
    }
}

/// The name of a module's chunk: its path behind `@`, or its id behind `=`.
pub open spec fn chunk_name(module: SourceModel) -> Seq<char> {
    match module.path {
        Some(path) => "@"@ + path,
        None => "="@ + module.id,
    }
}

/// Names the chunk of a module.
pub fn module_name(module: &ModuleSource) -> (r: String)
    ensures
        r@ == chunk_name(module@),
{
    match module.path() {
        Some(path) => "@".to_owned().concat(path),
        None => "=".to_owned().concat(module.id().as_str()),
    }
}

/// What to do for a `require`.
#[derive(Clone, Copy, Debug, PartialEq, Eq, Structural)]
pub enum RequireStep {
    /// The module was loaded before; this is its value.
    Cached(ModuleValue),
    /// The module is to be run now, in an environment of its own; the result
    /// is handed to [`finish_require`].
    Run,
}

/// What a `require` starts with, once the module is resolved: the step to
/// take, or the refusal.
pub open spec fn require_step(
    cache: Seq<(Seq<char>, RuntimeModuleState)>,
    module: Result<SourceModel, ResolveFault>,
) -> Result<RequireStep, ErrorModel> {
    match module {
        Err(e) => Err(ErrorModel::RuntimeError(resolve_message(e))),
        Ok(m) => if m.kind != ModuleSourceKind::Executable {
            Err(
                ErrorModel::RuntimeError(
                    "module is not executable: "@ + m.id
                        + "; register declaration-only modules with ModuleInterfaceSet"@,
                ),
            )
        } else {
            match cached_value(lookup(cache, m.id), m.id) {
                Ok(Some(value)) => Ok(RequireStep::Cached(value)),
                Ok(None) => Ok(RequireStep::Run),
                Err(e) => Err(e),
            }
        },
    }
}

/// The result of a resolution by its model.
pub open spec fn resolution(module: Result<&ModuleSource, &ModuleResolveError>) -> Result<
    SourceModel,
    ResolveFault,
> {
    match module {
        Ok(m) => Ok(m@),
        Err(e) => Err(e@),
    }
}

/// Starts a `require` once the module is resolved. A module that is to be run
/// is marked as loading.
pub fn begin_require(
    cache: &mut RuntimeModuleCache,
    module: Result<&ModuleSource, &ModuleResolveError>,
) -> (r: Result<RequireStep, Error>)
    requires
        old(cache).wf(),
    ensures
        final(cache).wf(),
        match r {
            Ok(step) => require_step(old(cache)@, resolution(module)) == Ok::<_, ErrorModel>(step),
            Err(e) => require_step(old(cache)@, resolution(module)) == Err::<RequireStep, _>(e@),
        },
        final(cache)@ == (if r matches Ok(RequireStep::Run) {
            put(old(cache)@, resolution(module)->Ok_0.id, RuntimeModuleState::Loading)
        } else {
            old(cache)@
        }),
{
    let module = match module {
        Ok(module) => module,
        Err(e) => {
            return Err(Error::runtime(e.message().as_str()));
        },
    };
    if !module.is_executable() {
        let message = "module is not executable: ".to_owned().concat(module.id().as_str()).concat(
            "; register declaration-only modules with ModuleInterfaceSet",
        );
        return Err(Error::runtime(message.as_str()));
    }
    match cache.loaded(module.id().as_str()) {
        Ok(Some(value)) => Ok(RequireStep::Cached(value)),
        Ok(None) => {
            cache.start_loading(module.id().as_str());
            Ok(RequireStep::Run)
        },
        Err(e) => Err(e),
    }
}

/// What running a module gives: its only value, or `true` where it returned
/// none.
pub open spec fn run_value(outcome: Result<Seq<u64>, ErrorModel>) -> Result<
    ModuleValue,
    ErrorModel,
> {
    match outcome {
        Err(e) => Err(e),
        Ok(values) => if values.len() > 1 {
            Err(ErrorModel::RuntimeError("module must return a single value"@))
        } else if values.len() == 1 {
            Ok(ModuleValue::Handle(values[0]))
        } else {
            Ok(ModuleValue::True)
        },
    }
}

/// The outcome of a run by its model.
pub open spec fn run_outcome(outcome: Result<Vec<u64>, Error>) -> Result<Seq<u64>, ErrorModel> {
    match outcome {
        Ok(values) => Ok(values@),
        Err(e) => Err(e@),
    }
}

/// Takes the outcome of running a module: the value is kept, and after a
/// failure the module counts as not loaded again.
pub fn finish_require(
    cache: &mut RuntimeModuleCache,
    module_id: &str,
    outcome: Result<Vec<u64>, Error>,
) -> (r: Result<ModuleValue, Error>)
    requires
        old(cache).wf(),
    ensures
        final(cache).wf(),
        match r {
            Ok(value) => run_value(run_outcome(outcome)) == Ok::<_, ErrorModel>(value)
                && final(cache)@ == put(
                old(cache)@,
                module_id@,
                RuntimeModuleState::Loaded(value),
            ),
            Err(e) => run_value(run_outcome(outcome)) == Err::<ModuleValue, _>(e@) && final(cache)@
                == without(old(cache)@, module_id@),
        },
{
    let values = match outcome {
        Ok(values) => values,
        Err(e) => {
            cache.remove(module_id);
            return Err(e);
        },
    };
    if values.len() > 1 {
        cache.remove(module_id);
        return Err(Error::runtime("module must return a single value"));
    }
    let value = if values.len() == 1 {
        ModuleValue::Handle(values[0])
    } else {
        ModuleValue::True
    };
    cache.mark_loaded(module_id, value);
    Ok(value)
}

/// The failure of a `require` where no resolver is installed.
pub fn no_resolver_error(specifier: &str) -> (r: Error)
    ensures
        r@ == ErrorModel::RuntimeError(
            "no module resolver installed; cannot require `"@ + specifier@
                + "`. Use Luau::set_module_resolver(...) to install one."@,
        ),
{
    let message = "no module resolver installed; cannot require `".to_owned().concat(
        specifier,
    ).concat("`. Use Luau::set_module_resolver(...) to install one.");
    Error::runtime(message.as_str())
}

/// A module runs once: after it was run with success, every later `require` of
/// it gets the value that it returned.
pub proof fn law_module_runs_once(
    cache: Seq<(Seq<char>, RuntimeModuleState)>,
    module: SourceModel,
    value: ModuleValue,
)
    requires
        ordered(cache),
        module.kind == ModuleSourceKind::Executable,
    ensures
        require_step(put(cache, module.id, RuntimeModuleState::Loaded(value)), Ok(module)) == Ok::<
            _,
            ErrorModel,
        >(RequireStep::Cached(value)),
{
    lemma_put(cache, module.id, RuntimeModuleState::Loaded(value));
}

/// While a module runs, a `require` of it is refused as a cycle.
pub proof fn law_cycles_are_refused(
    cache: Seq<(Seq<char>, RuntimeModuleState)>,
    module: SourceModel,
)
    requires
        ordered(cache),
        module.kind == ModuleSourceKind::Executable,
    ensures
        require_step(put(cache, module.id, RuntimeModuleState::Loading), Ok(module)) == Err::<
            RequireStep,
            _,
        >(ErrorModel::RuntimeError("cyclic module require: "@ + module.id)),
{
    lemma_put(cache, module.id, RuntimeModuleState::Loading);
}

/// After a failure the module can be tried again, and every other module is as
/// the run left it.
pub proof fn law_failure_can_be_retried(
    cache: Seq<(Seq<char>, RuntimeModuleState)>,
    module: SourceModel,
)
    requires
        ordered(cache),
        module.kind == ModuleSourceKind::Executable,
    ensures
        require_step(without(cache, module.id), Ok(module)) == Ok::<_, ErrorModel>(
            RequireStep::Run,
        ),
        forall|other: Seq<char>|
            other != module.id ==> #[trigger] lookup(without(cache, module.id), other) == lookup(
                cache,
                other,
            ),
{
    lemma_without(cache, module.id);
}

/// What a module gives to those that require it: the one value that it
/// returned, or `true` where it returned none. More than one value is refused,
/// and a failure is handed on.
pub proof fn law_module_value_is_what_it_returned(
    values: Seq<u64>,
    fault: ErrorModel,
)
    ensures
        values.len() == 0 ==> run_value(Ok(values)) == Ok::<_, ErrorModel>(ModuleValue::True),
        values.len() == 1 ==> run_value(Ok(values)) == Ok::<_, ErrorModel>(
            ModuleValue::Handle(values[0]),
        ),
        values.len() > 1 ==> run_value(Ok(values)) is Err,
        run_value(Err(fault)) == Err::<ModuleValue, _>(fault),
{
}

/// A module that was not required before is run, one that is no executable is
/// refused, and one that was not found is refused with the reason.
pub proof fn law_require_runs_executables_only(
    cache: Seq<(Seq<char>, RuntimeModuleState)>,
    module: SourceModel,
    fault: ResolveFault,
)
    requires
        ordered(cache),
    ensures
        module.kind == ModuleSourceKind::Executable && lookup(cache, module.id) is None
            ==> require_step(cache, Ok(module)) == Ok::<_, ErrorModel>(RequireStep::Run),
        module.kind != ModuleSourceKind::Executable ==> require_step(cache, Ok(module)) is Err,
        require_step(cache, Err(fault)) == Err::<RequireStep, _>(
            ErrorModel::RuntimeError(resolve_message(fault)),
        ),
{
}

/// A chunk is named after the file of its module, where it has one, and else
/// after its id.
pub proof fn law_chunk_is_named_after_module(module: SourceModel, path: Seq<char>)
    ensures
        module.path == Some(path) ==> chunk_name(module) == "@"@ + path,
        module.path is None ==> chunk_name(module) == "="@ + module.id,
{
}

} // verus!
