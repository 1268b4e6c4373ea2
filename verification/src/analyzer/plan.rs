//! What a checker hands to the native layer for its composite checks.
use super::interfaces::{
    as_virtual, implemented, requireable_modules, virtual_models, InterfaceModel,
    ModuleInterfaceSet, VirtualModel,
};
use super::{AnalysisError, AnalysisFault, CheckModel, CheckResult, Severity, VirtualModule};
use crate::error::{error_text, Error};
use crate::resolver::snapshot::other_modules;
use crate::resolver::{ModuleId, ModuleSource, ResolverSnapshot};
use crate::sorted::{
    compare_text, holds, lemma_put, lemma_rank, lemma_text_less_order, lookup, ordered, put, rank,
    text_less, Side,
};
use crate::text::{debug_quoted, debug_text, ends, starts};
use vstd::prelude::*;
use vstd::string::*;

verus! {

/// Appends virtual modules to a list.
fn extend_modules<'a>(out: &mut Vec<VirtualModule<'a>>, more: &[VirtualModule<'a>])
    ensures
        virtual_models(final(out)@) == virtual_models(old(out)@) + virtual_models(more@),
{
    let mut i: usize = 0;
    assert(virtual_models(out@) =~= virtual_models(old(out)@) + virtual_models(more@).take(0));
    while i < more.len()
        invariant
            i <= more.len(),
            virtual_models(out@) == virtual_models(old(out)@) + virtual_models(more@).take(i as int),
        decreases more.len() - i,
    {
        let ghost before = out@;
        out.push(more[i]);
        assert(virtual_models(out@) =~= virtual_models(before).push(more@[i as int]@));
        assert(virtual_models(out@) =~= virtual_models(old(out)@) + virtual_models(more@).take(
            i + 1,
        ));
        i += 1;
    }
    assert(virtual_models(more@).take(i as int) =~= virtual_models(more@));
}

/// The virtual modules of a check against interfaces: those of the
/// interfaces, then those of the call.
pub fn interface_modules<'a>(
    interfaces: &'a ModuleInterfaceSet,
    more: &[VirtualModule<'a>],
) -> (r: Vec<VirtualModule<'a>>)
    ensures
        virtual_models(r@) == requireable_modules(interfaces@, interfaces@.len() as int)
            + virtual_models(more@),
{
    let mut out: Vec<VirtualModule<'a>> = interfaces.virtual_modules();
    extend_modules(&mut out, more);
    out
}

/// Inputs of the check of a snapshot.
#[derive(Debug)]
pub struct SnapshotCheck<'a> {
    /// Source of the root module.
    pub source: &'a str,
    /// Label of the root module.
    pub module_name: &'a str,
    /// The other modules of the snapshot, then the interfaces.
    pub virtual_modules: Vec<VirtualModule<'a>>,
}

/// Lays out the check of a snapshot against interfaces. A snapshot always has
/// its root, so this never fails.
pub fn snapshot_check<'a>(
    snapshot: &'a ResolverSnapshot,
    interfaces: &'a ModuleInterfaceSet,
) -> (r: Result<SnapshotCheck<'a>, AnalysisError>)
    requires
        snapshot.wf(),
    ensures
        r matches Ok(plan) && (lookup(snapshot@.modules, snapshot@.root) matches Some(root)
            && plan.source@ == root.source && plan.module_name@ == root.id && virtual_models(
            plan.virtual_modules@,
        ) == other_modules(snapshot@.modules, snapshot@.root, snapshot@.modules.len() as int)
            + requireable_modules(interfaces@, interfaces@.len() as int)),
{
    match snapshot.root_source() {
        None => Err(AnalysisError::MissingSnapshotRoot(snapshot.root().label.clone())),
        Some(root) => {
            let mut virtual_modules: Vec<VirtualModule<'a>> = snapshot.virtual_modules();
            let more: Vec<VirtualModule<'a>> = interfaces.virtual_modules();
            extend_modules(&mut virtual_modules, more.as_slice());
            Ok(
                SnapshotCheck {
                    source: root.source(),
                    module_name: root.id().as_str(),
                    virtual_modules,
                },
            )
        },
    }
}

/// The root that a checked load may hand to the runtime: only after a check
/// that passed.
pub fn checked_root<'a>(snapshot: &'a ResolverSnapshot, result: CheckResult) -> (r: Result<
    &'a ModuleSource,
    AnalysisError,
>)
    requires
        snapshot.wf(),
    ensures
        match r {
            Ok(root) => passes(result@) && lookup(snapshot@.modules, snapshot@.root) == Some(root@),
            Err(e) => !passes(result@) && e@ == AnalysisFault::CheckFailed(result@),
        },
{
    if !result.is_ok() {
        return Err(AnalysisError::CheckFailed(result));
    }
    match snapshot.root_source() {
        Some(root) => Ok(root),
        None => Err(AnalysisError::MissingSnapshotRoot(snapshot.root().label.clone())),
    }
}

/// The chunk that a checked load hands to the runtime.
#[derive(Debug)]
pub struct RootChunk {
    /// Name of the chunk: the id of the root module.
    pub name: String,
    /// Source of the root module.
    pub source: String,
}

/// Ends a checked load, given how the check of the snapshot ended: an error of
/// the check itself is handed on, a check that did not pass is refused, and
/// only after one that passed is there a chunk, of the root module.
pub fn checked_load(
    snapshot: &ResolverSnapshot,
    check: Result<CheckResult, AnalysisError>,
) -> (r: Result<RootChunk, AnalysisError>)
    requires
        snapshot.wf(),
    ensures
        match check {
            Err(e) => r == Err::<RootChunk, AnalysisError>(e),
            Ok(result) => if passes(result@) {
                r matches Ok(chunk) && (lookup(snapshot@.modules, snapshot@.root) matches Some(root)
                    && chunk.name@ == snapshot@.root && chunk.source@ == root.source)
            } else {
                r matches Err(e) && e@ == AnalysisFault::CheckFailed(result@)
            },
        },
{
    let result = match check {
        Ok(result) => result,
        Err(e) => {
            return Err(e);
        },
    };
    match checked_root(snapshot, result) {
        Ok(root) => {
            proof {
                lemma_rank(snapshot@.modules, snapshot@.root);
            }
            Ok(RootChunk { name: root.id().label.clone(), source: root.source().to_owned() })
        },
        Err(e) => Err(e),
    }
}

/// Gives a checked chunk its environment, by the number of its table. Where the
/// environment could not be made, the load fails.
pub fn prepared_load(chunk: RootChunk, environment: Result<u64, Error>) -> (r: Result<
    (RootChunk, u64),
    AnalysisError,
>)
    ensures
        match environment {
            Ok(table) => r == Ok::<(RootChunk, u64), AnalysisError>((chunk, table)),
            Err(e) => r matches Err(f) && f@ == AnalysisFault::Load(error_text(e@)),
        },
{
    match environment {
        Ok(table) => Ok((chunk, table)),
        Err(e) => Err(AnalysisError::Load(e.message())),
    }
}

/// Whether a check passed: it completed and found no errors.
pub open spec fn passes(m: CheckModel) -> bool {
    !m.timed_out && !m.cancelled && !super::has_some(m.diagnostics, Severity::Error)
}

/// The hidden module name under which an implementation is checked.
pub open spec fn implementation_specifier(module_id: Seq<char>) -> Seq<char> {
    module_id + "$implementation"@
}

/// The module label of the assertion that checks an implementation.
pub open spec fn assertion_module(module_id: Seq<char>) -> Seq<char> {
    module_id + "$check"@
}

/// The assignment that holds where an implementation conforms, given the
/// quoted specifiers.
pub open spec fn assertion_of(declaration: Seq<char>, implementation: Seq<char>) -> Seq<char> {
    "local _: typeof(require("@ + declaration + ")) = require("@ + implementation + ")"@
}

/// Returns the hidden checker-only name of an implementation, which keeps the
/// parent path of the module.
pub fn implementation_check_specifier(module_id: &str) -> (r: String)
    ensures
        r@ == implementation_specifier(module_id@),
{
    module_id.to_owned().concat("$implementation")
}

/// Writes the assignment that checks an implementation, from quoted
/// specifiers.
pub fn assertion_text(declaration: &str, implementation: &str) -> (r: String)
    ensures
        r@ == assertion_of(declaration@, implementation@),
{
    "local _: typeof(require(".to_owned().concat(declaration).concat(")) = require(").concat(
        implementation,
    ).concat(")")
}

/// Inputs of the check of an implementation.
#[derive(Debug)]
pub struct ImplementationCheck {
    /// The synthetic assignment.
    pub assertion: String,
    /// Label of the synthetic module.
    pub module_name: String,
    /// Name under which the implementation is visible.
    pub specifier: String,
}

/// Lays out the check of an implementation against a declaration.
pub fn implementation_check(impl_module_id: &ModuleId, declaration_specifier: &str) -> (r:
    ImplementationCheck)
    ensures
        r.specifier@ == implementation_specifier(impl_module_id@),
        r.module_name@ == assertion_module(impl_module_id@),
        r.assertion@ == assertion_of(
            debug_text(declaration_specifier@),
            debug_text(implementation_specifier(impl_module_id@)),
        ),
{
    let specifier = implementation_check_specifier(impl_module_id.as_str());
    let declared = debug_quoted(declaration_specifier);
    let implemented = debug_quoted(specifier.as_str());
    ImplementationCheck {
        assertion: assertion_text(declared.as_str(), implemented.as_str()),
        module_name: impl_module_id.label.clone().concat("$check"),
        specifier,
    }
}

/// Requireable modules of a list that ends with another.
proof fn lemma_requireable_split(
    e: Seq<(Seq<char>, InterfaceModel)>,
    f: Seq<(Seq<char>, InterfaceModel)>,
    n: int,
)
    requires
        0 <= n <= e.len(),
        n <= f.len(),
        forall|i: int| 0 <= i < n ==> e[i] == f[i],
    ensures
        requireable_modules(e, n) == requireable_modules(f, n),
    decreases n,
{
    if n > 0 {
        lemma_requireable_split(e, f, n - 1);
    }
}

/// The requireable modules among entries `from..n`.
spec fn requireable_between(e: Seq<(Seq<char>, InterfaceModel)>, from: int, n: int) -> Seq<
    VirtualModel,
>
    decreases n - from,
{
    if n <= from {
        Seq::empty()
    } else if e[n - 1].1.requireable {
        requireable_between(e, from, n - 1).push(as_virtual(e[n - 1].1))
    } else {
        requireable_between(e, from, n - 1)
    }
}

proof fn lemma_between(e: Seq<(Seq<char>, InterfaceModel)>, from: int, n: int)
    requires
        0 <= from <= n <= e.len(),
    ensures
        requireable_modules(e, n) == requireable_modules(e, from) + requireable_between(e, from, n),
    decreases n - from,
{
    if n > from {
        lemma_between(e, from, n - 1);
        let a = requireable_modules(e, from);
        let b = requireable_between(e, from, n - 1);
        if e[n - 1].1.requireable {
            let v = as_virtual(e[n - 1].1);
            assert((a + b).push(v) =~= a + b.push(v));
        }
    } else {
        assert(requireable_modules(e, from) + Seq::<VirtualModel>::empty() =~= requireable_modules(
            e,
            from,
        ));
    }
}

proof fn lemma_between_shift(
    e: Seq<(Seq<char>, InterfaceModel)>,
    f: Seq<(Seq<char>, InterfaceModel)>,
    from: int,
    n: int,
    d: int,
)
    requires
        0 <= from <= n <= e.len(),
        0 <= d,
        n + d <= f.len(),
        forall|i: int| from <= i < n ==> #[trigger] e[i] == f[i + d],
    ensures
        requireable_between(e, from, n) == requireable_between(f, from + d, n + d),
    decreases n - from,
{
    if n > from {
        lemma_between_shift(e, f, from, n - 1, d);
        assert(e[n - 1] == f[n - 1 + d]);
    }
}

/// A set with an implementation inserted into it.
pub open spec fn scoped_set(
    set: Seq<(Seq<char>, InterfaceModel)>,
    specifier: Seq<char>,
    source: Seq<char>,
) -> Seq<(Seq<char>, InterfaceModel)> {
    put(set, specifier, implemented(specifier, source))
}

/// The virtual modules of an interface set as if an implementation had been
/// inserted into it.
#[verifier::spinoff_prover]
#[verifier::rlimit(60)]
pub fn scoped_modules<'a>(
    interfaces: &'a ModuleInterfaceSet,
    specifier: &'a str,
    source: &'a str,
) -> (r: Vec<VirtualModule<'a>>)
    requires
        interfaces.wf(),
    ensures
        ({
            let scoped = scoped_set(interfaces@, specifier@, source@);
            virtual_models(r@) == requireable_modules(scoped, scoped.len() as int)
        }),
{
    let ghost e = interfaces@;
    let ghost new = implemented(specifier@, source@);
    let ghost scoped = put(e, specifier@, new);
    let ghost at = rank(e, specifier@);
    proof {
        assert forall|i: int, j: int|
            #![trigger e[i], e[j]]
            0 <= i < j < e.len() implies text_less(e[i].0, e[j].0) by {
            assert(interfaces.interfaces@[i].0 == e[i].0);
            assert(interfaces.interfaces@[j].0 == e[j].0);
        }
        lemma_rank(e, specifier@);
        lemma_text_less_order(specifier@, specifier@, specifier@);
    }
    let own = VirtualModule { name: specifier, source };
    let entries = &interfaces.interfaces.entries;
    let mut out: Vec<VirtualModule<'a>> = Vec::new();
    let mut i: usize = 0;
    assert(virtual_models(out@) =~= requireable_modules(e, 0));
    while i < entries.len() && matches!(
        compare_text(entries[i].0.as_str(), specifier),
        Side::Before
    )
        invariant
            i <= entries.len(),
            e == interfaces@,
            *entries == interfaces.interfaces.entries,
            ordered(e),
            at == rank(e, specifier@),
            i <= at <= e.len(),
            virtual_models(out@) == requireable_modules(e, i as int),
        decreases entries.len() - i,
    {
        let interface = &entries[i].1;
        proof {
            assert(e[i as int] == (entries@[i as int].0@, interface@));
            lemma_rank(e, specifier@);
            if at <= i {
                assert(!text_less(e[i as int].0, specifier@));
            }
        }
        if interface.requireable {
            let ghost before = out@;
            out.push(interface.virtual_module());
            assert(virtual_models(out@) =~= virtual_models(before).push(as_virtual(interface@)));
        }
        i += 1;
    }
    proof {
        if i < e.len() {
            assert(e[i as int].0 == entries@[i as int].0@);
            lemma_text_less_order(e[i as int].0, specifier@, e[i as int].0);
            if i < at {
                assert(text_less(e[i as int].0, specifier@));
            }
        }
        assert(i == at);
    }
    let ghost before = out@;
    out.push(own);
    proof {
        lemma_requireable_split(e, scoped, at);
        assert(scoped[at] == (specifier@, new));
        assert(virtual_models(out@) =~= virtual_models(before).push(as_virtual(new)));
        assert(virtual_models(out@) == requireable_modules(scoped, at + 1));
    }
    let ghost head = virtual_models(out@);
    if i < entries.len() && matches!(
        compare_text(entries[i].0.as_str(), specifier),
        Side::Same
    ) {
        proof {
            assert(e[at].0 == entries@[at].0@);
        }
        i += 1;
    } else {
        proof {
            if at < e.len() {
                assert(e[at].0 == entries@[at].0@);
                lemma_text_less_order(e[at].0, specifier@, e[at].0);
            }
        }
    }
    let ghost from = i as int;
    let ghost d = if holds(e, specifier@) {
        0int
    } else {
        1int
    };
    assert(from + d == at + 1);
    assert(head + requireable_between(e, from, from) =~= head);
    while i < entries.len()
        invariant
            i <= entries.len(),
            0 <= from <= i,
            e == interfaces@,
            *entries == interfaces.interfaces.entries,
            virtual_models(out@) == head + requireable_between(e, from, i as int),
        decreases entries.len() - i,
    {
        let interface = &entries[i].1;
        assert(e[i as int] == (entries@[i as int].0@, interface@));
        if interface.requireable {
            let ghost had = out@;
            out.push(interface.virtual_module());
            proof {
                let v = as_virtual(interface@);
                let b = requireable_between(e, from, i as int);
                assert(virtual_models(out@) =~= virtual_models(had).push(v));
                assert((head + b).push(v) =~= head + b.push(v));
            }
        }
        i += 1;
    }
    proof {
        let n = e.len() as int;
        assert forall|k: int| from <= k < n implies #[trigger] e[k] == scoped[k + d] by {}
        lemma_between_shift(e, scoped, from, n, d);
        lemma_between(scoped, at + 1, scoped.len() as int);
    }
    out
}

/// A check passes only where it came to its end and none of its diagnostics is
/// an error; warnings do not stop it.
pub proof fn law_passing_means_no_errors(m: CheckModel)
    ensures
        passes(m) <==> !m.timed_out && !m.cancelled && forall|i: int|
            0 <= i < m.diagnostics.len() ==> (#[trigger] m.diagnostics[i]).severity
                != Severity::Error,
{
}

/// The assertion assigns the implementation to the type of the declaration,
/// and both are checked under names of their own: the hidden name of an
/// implementation and the label of its check begin with the id of the module
/// and are neither that id nor each other.
pub proof fn law_implementation_is_held_to_declaration(
    declaration: Seq<char>,
    implementation: Seq<char>,
    module_id: Seq<char>,
    other: Seq<char>,
)
    ensures
        starts(
            assertion_of(declaration, implementation),
            "local _: typeof(require("@ + declaration,
        ),
        ends(assertion_of(declaration, implementation), "= require("@ + implementation + ")"@),
        starts(implementation_specifier(module_id), module_id),
        starts(assertion_module(module_id), module_id),
        implementation_specifier(module_id) != module_id,
        assertion_module(module_id) != module_id,
        assertion_module(module_id) != implementation_specifier(module_id),
        implementation_specifier(module_id) == implementation_specifier(other) ==> module_id
            == other,
{
    reveal_strlit("local _: typeof(require(");
    reveal_strlit(")) = require(");
    reveal_strlit("= require(");
    reveal_strlit(")");
    reveal_strlit("$implementation");
    reveal_strlit("$check");
    let whole = assertion_of(declaration, implementation);
    let head = "local _: typeof(require("@ + declaration;
    assert(whole.take(head.len() as int) =~= head);
    let tail = "= require("@ + implementation + ")"@;
    assert(whole.skip(whole.len() - tail.len()) =~= tail);
    let hidden = implementation_specifier(module_id);
    assert(hidden.take(module_id.len() as int) =~= module_id);
    assert(assertion_module(module_id).take(module_id.len() as int) =~= module_id);
    assert(hidden.len() != assertion_module(module_id).len());
    let twin = implementation_specifier(other);
    if hidden == twin {
        assert(twin.take(other.len() as int) =~= other);
    }
}

/// The implementation that is checked is visible under its hidden name, as it
/// is written, and every other interface of the set stays what it was.
pub proof fn law_implementation_is_visible(
    set: Seq<(Seq<char>, InterfaceModel)>,
    specifier: Seq<char>,
    source: Seq<char>,
    other: Seq<char>,
)
    requires
        ordered(set),
    ensures
        lookup(scoped_set(set, specifier, source), specifier) matches Some(i) && i.specifier
            == specifier && i.checker_source == source && i.requireable,
        other != specifier ==> lookup(scoped_set(set, specifier, source), other) == lookup(
            set,
            other,
        ),
{
    lemma_put(set, specifier, implemented(specifier, source));
}

} // verus!
