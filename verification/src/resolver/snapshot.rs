//! Resolved module graph snapshots.
//!
//! A snapshot is closed: every edge leads to a module of the graph, and every
//! module is executable. It is built by the walk of [`super::builder`].
use super::{ModuleId, ModuleResolveError, ModuleSource, ModuleSourceKind, ResolveFault, SourceModel};
use crate::analyzer::interfaces::{virtual_models, VirtualModel};
use crate::analyzer::VirtualModule;
use crate::resolver::in_memory::opt_id;
use crate::sorted::{
    holds, lemma_put, lemma_rank, lemma_same_keys, lemma_text_less_order, lookup, mapped, ordered,
    put, rank, text_less, SortedMap,
};
use vstd::prelude::*;
use vstd::string::*;

verus! {

/// One resolved literal require edge.
#[derive(Debug, Clone, Copy)]
pub struct RequireEdge<'a> {
    /// Module containing the literal require call.
    pub requester: &'a ModuleId,
    /// Original string literal passed to `require`.
    pub specifier: &'a str,
    /// Module selected by the resolver for this edge.
    pub dependency: &'a ModuleId,
}

/// Model of a [`RequireEdge`].
#[verifier::ext_equal]
pub struct EdgeModel {
    pub requester: Seq<char>,
    pub specifier: Seq<char>,
    pub dependency: Seq<char>,
}

impl RequireEdge<'_> {
    pub open spec fn view(&self) -> EdgeModel {
        EdgeModel {
            requester: self.requester@,
            specifier: self.specifier@,
            dependency: self.dependency@,
        }
    }
}

/// Dependency ids by specifier.
pub type EdgeModels = Seq<(Seq<char>, Seq<char>)>;

/// A graph of modules and their require edges.
#[verifier::ext_equal]
pub struct GraphModel {
    pub root: Seq<char>,
    pub modules: Seq<(Seq<char>, SourceModel)>,
    pub edges: Seq<(Seq<char>, EdgeModels)>,
}

/// The dependencies of one module.
pub open spec fn edge_models(m: SortedMap<ModuleId>) -> EdgeModels {
    mapped(m@, |id: ModuleId| id@)
}

/// The module that a specifier names from a requester: the recorded edge, or
/// else the module with that very id.
pub open spec fn dependency_of(g: GraphModel, requester: Seq<char>, specifier: Seq<char>) -> Option<
    SourceModel,
> {
    let direct = match lookup(g.edges, requester) {
        Some(out) => match lookup(out, specifier) {
            Some(id) => lookup(g.modules, id),
            None => None,
        },
        None => None,
    };
    match direct {
        Some(m) => Some(m),
        None => lookup(g.modules, specifier),
    }
}

/// The dependencies that a module has so far.
pub open spec fn edges_from(g: GraphModel, requester: Seq<char>) -> EdgeModels {
    match lookup(g.edges, requester) {
        Some(out) => out,
        None => Seq::empty(),
    }
}

/// Whether the graph is closed: the root and both ends of every edge are
/// modules, modules stand under their own ids and are executable.
pub open spec fn closed(g: GraphModel) -> bool {
    &&& ordered(g.modules)
    &&& ordered(g.edges)
    &&& holds(g.modules, g.root)
    &&& forall|i: int|
        0 <= i < g.modules.len() ==> (#[trigger] g.modules[i]).1.id == g.modules[i].0
            && g.modules[i].1.kind == ModuleSourceKind::Executable
    &&& forall|i: int|
        0 <= i < g.edges.len() ==> ordered((#[trigger] g.edges[i]).1) && holds(
            g.modules,
            g.edges[i].0,
        )
    &&& forall|i: int, j: int|
        #![trigger g.edges[i].1[j]]
        0 <= i < g.edges.len() && 0 <= j < g.edges[i].1.len() ==> holds(
            g.modules,
            g.edges[i].1[j].1,
        )
}

/// Immutable resolved graph used by checked loading.
#[derive(Debug)]
pub struct ResolverSnapshot {
    /// Root module id.
    pub root: ModuleId,
    /// Resolved modules by id.
    pub modules: SortedMap<ModuleSource>,
    /// Resolved dependency edges by requesting module and specifier.
    pub edges: SortedMap<SortedMap<ModuleId>>,
}

impl ResolverSnapshot {
    pub open spec fn view(&self) -> GraphModel {
        GraphModel {
            root: self.root@,
            modules: mapped(self.modules@, |m: ModuleSource| m@),
            edges: mapped(self.edges@, |e: SortedMap<ModuleId>| edge_models(e)),
        }
    }

    /// The maps are in order and the graph is closed.
    pub open spec fn wf(&self) -> bool {
        &&& self.modules.wf()
        &&& self.edges.wf()
        &&& forall|i: int| 0 <= i < self.edges.entries@.len() ==> (
        #[trigger] self.edges.entries@[i]).1.wf()
        &&& closed(self@)
    }

    /// Returns the root module id.
    pub fn root(&self) -> (r: &ModuleId)
        ensures
            r@ == self@.root,
    {
        &self.root
    }

    /// The module with the given id.
    pub(crate) fn module(&self, id: &str) -> (r: Option<&ModuleSource>)
        requires
            self.wf(),
        ensures
            match r {
                Some(m) => lookup(self@.modules, id@) == Some(m@),
                None => lookup(self@.modules, id@) is None,
            },
    {
        proof {
            lemma_same_keys(self.modules@, self@.modules, id@);
        }
        self.modules.get(id)
    }

    /// Returns the root module source.
    pub fn root_source(&self) -> (r: Option<&ModuleSource>)
        requires
            self.wf(),
        ensures
            r matches Some(m) && lookup(self@.modules, self@.root) == Some(m@),
    {
        self.module(self.root.as_str())
    }

    /// Returns all resolved module sources in id order.
    pub fn modules(&self) -> (r: Vec<&ModuleSource>)
        ensures
            r@.map_values(|m: &ModuleSource| m@) == self@.modules.map_values(
                |e: (Seq<char>, SourceModel)| e.1,
            ),
    {
        let mut out: Vec<&ModuleSource> = Vec::new();
        let mut i: usize = 0;
        while i < self.modules.entries.len()
            invariant
                i <= self.modules.entries.len(),
                out@.len() == i,
                forall|k: int| 0 <= k < i ==> (#[trigger] out@[k])@ == self@.modules[k].1,
            decreases self.modules.entries.len() - i,
        {
            assert(self@.modules[i as int].1 == self.modules.entries@[i as int].1@);
            out.push(&self.modules.entries[i].1);
            i += 1;
        }
        assert(out@.map_values(|m: &ModuleSource| m@) =~= self@.modules.map_values(
            |e: (Seq<char>, SourceModel)| e.1,
        ));
        out
    }

    /// Returns the module source for a specifier as resolved from a requester.
    pub fn dependency(&self, requester: &ModuleId, specifier: &str) -> (r: Option<&ModuleSource>)
        requires
            self.wf(),
        ensures
            match r {
                Some(m) => dependency_of(self@, requester@, specifier@) == Some(m@),
                None => dependency_of(self@, requester@, specifier@) is None,
            },
    {
        proof {
            lemma_same_keys(self.edges@, self@.edges, requester@);
            assert(self.edges@.len() == self.edges.entries@.len());
        }
        if let Some(out) = self.edges.get(requester.as_str()) {
            proof {
                let at = rank(self.edges@, requester@);
                assert(self.edges@[at].1 == self.edges.entries@[at].1);
                assert(self@.edges[at].1 == edge_models(*out));
                lemma_same_keys(out@, edge_models(*out), specifier@);
            }
            if let Some(id) = out.get(specifier) {
                assert(lookup(edge_models(*out), specifier@) == Some(id@));
                if let Some(m) = self.module(id.as_str()) {
                    return Some(m);
                }
            }
        }
        self.module(specifier)
    }

    /// Resolves a specifier within the snapshot; what is not in it is not
    /// found.
    pub fn resolve(&self, requester: Option<&ModuleId>, specifier: &str) -> (r: Result<
        ModuleSource,
        ModuleResolveError,
    >)
        requires
            self.wf(),
        ensures
            match (match opt_id(requester) {
                Some(req) => dependency_of(self@, req, specifier@),
                None => lookup(self@.modules, specifier@),
            }) {
                Some(m) => r matches Ok(s) && s@ == m,
                None => r matches Err(e) && e@ == ResolveFault::NotFound(specifier@),
            },
    {
        let found = match requester {
            Some(requester) => self.dependency(requester, specifier),
            None => self.module(specifier),
        };
        match found {
            Some(m) => Ok(m.clone()),
            None => Err(ModuleResolveError::NotFound(specifier.to_owned())),
        }
    }

    /// Returns all literal require edges, by requester and specifier.
    pub fn require_edges(&self) -> (r: Vec<RequireEdge<'_>>)
        requires
            self.wf(),
        ensures
            r@.map_values(|e: RequireEdge<'_>| e@) == all_edges(self@.edges, self@.edges.len() as int),
    {
        let mut out: Vec<RequireEdge<'_>> = Vec::new();
        let ghost edges = self@.edges;
        let mut i: usize = 0;
        assert(out@.map_values(|e: RequireEdge<'_>| e@) =~= all_edges(edges, 0));
        while i < self.edges.entries.len()
            invariant
                i <= self.edges.entries.len(),
                self.wf(),
                edges == self@.edges,
                out@.map_values(|e: RequireEdge<'_>| e@) == all_edges(edges, i as int),
            decreases self.edges.entries.len() - i,
        {
            let entry = &self.edges.entries[i];
            let ghost list = edges[i as int].1;
            let ghost from = edges[i as int].0;
            let ghost had = out@.map_values(|e: RequireEdge<'_>| e@);
            proof {
                assert(self.edges@[i as int] == (entry.0@, entry.1));
                assert(list == edge_models(entry.1));
                assert(had + out_edges(from, list, 0) =~= had);
                assert(ordered(edges[i as int].1) && holds(self@.modules, from));
                lemma_rank(self@.modules, from);
            }
            let requester = match self.module(entry.0.as_str()) {
                Some(m) => &m.id,
                None => &self.root,
            };
            assert(requester@ == from);
            let mut j: usize = 0;
            while j < entry.1.entries.len()
                invariant
                    j <= entry.1.entries.len(),
                    from == requester@,
                    list == edge_models(entry.1),
                    out@.map_values(|e: RequireEdge<'_>| e@) == had + out_edges(
                        from,
                        list,
                        j as int,
                    ),
                decreases entry.1.entries.len() - j,
            {
                let ghost before = out@;
                let pair = &entry.1.entries[j];
                out.push(
                    RequireEdge {
                        requester,
                        specifier: pair.0.as_str(),
                        dependency: &pair.1,
                    },
                );
                proof {
                    let edge = EdgeModel { requester: from, specifier: pair.0@, dependency: pair.1@ };
                    assert(list[j as int] == (pair.0@, pair.1@));
                    assert(out@.map_values(|e: RequireEdge<'_>| e@) =~= before.map_values(
                        |e: RequireEdge<'_>| e@,
                    ).push(edge));
                    assert((had + out_edges(from, list, j as int)).push(edge) =~= had + out_edges(
                        from,
                        list,
                        j as int,
                    ).push(edge));
                }
                j += 1;
            }
            i += 1;
        }
        out
    }

    /// Returns the modules other than the root as virtual modules.
    pub fn virtual_modules(&self) -> (r: Vec<VirtualModule<'_>>)
        ensures
            virtual_models(r@) == other_modules(
                self@.modules,
                self@.root,
                self@.modules.len() as int,
            ),
    {
        let mut out: Vec<VirtualModule<'_>> = Vec::new();
        let mut i: usize = 0;
        assert(virtual_models(out@) =~= Seq::empty());
        while i < self.modules.entries.len()
            invariant
                i <= self.modules.entries.len(),
                virtual_models(out@) == other_modules(self@.modules, self@.root, i as int),
            decreases self.modules.entries.len() - i,
        {
            let entry = &self.modules.entries[i];
            assert(self@.modules[i as int] == (entry.0@, entry.1@));
            if !crate::text::same_text(entry.0.as_str(), self.root.as_str()) {
                let ghost before = out@;
                out.push(VirtualModule { name: entry.0.as_str(), source: entry.1.source() });
                assert(virtual_models(out@) =~= virtual_models(before).push(
                    VirtualModel { name: entry.0@, source: entry.1@.source },
                ));
            }
            i += 1;
        }
        out
    }
}

/// The first `n` edges out of one module.
pub open spec fn out_edges(requester: Seq<char>, list: EdgeModels, n: int) -> Seq<EdgeModel>
    decreases n,
{
    if n <= 0 {
        Seq::empty()
    } else {
        out_edges(requester, list, n - 1).push(
            EdgeModel { requester, specifier: list[n - 1].0, dependency: list[n - 1].1 },
        )
    }
}

/// The edges out of the first `n` modules that have any.
pub open spec fn all_edges(edges: Seq<(Seq<char>, EdgeModels)>, n: int) -> Seq<EdgeModel>
    decreases n,
{
    if n <= 0 {
        Seq::empty()
    } else {
        all_edges(edges, n - 1) + out_edges(
            edges[n - 1].0,
            edges[n - 1].1,
            edges[n - 1].1.len() as int,
        )
    }
}

/// The modules other than the root among the first `n`.
pub open spec fn other_modules(
    modules: Seq<(Seq<char>, SourceModel)>,
    root: Seq<char>,
    n: int,
) -> Seq<VirtualModel>
    decreases n,
{
    if n <= 0 {
        Seq::empty()
    } else if modules[n - 1].0 == root {
        other_modules(modules, root, n - 1)
    } else {
        other_modules(modules, root, n - 1).push(
            VirtualModel { name: modules[n - 1].0, source: modules[n - 1].1.source },
        )
    }
}

/// The graph after a dependency was recorded: its edge, and the module itself
/// where its id is new.
pub open spec fn with_dependency(
    g: GraphModel,
    requester: Seq<char>,
    specifier: Seq<char>,
    dependency: SourceModel,
) -> GraphModel {
    GraphModel {
        root: g.root,
        modules: if holds(g.modules, dependency.id) {
            g.modules
        } else {
            put(g.modules, dependency.id, dependency)
        },
        edges: put(g.edges, requester, put(edges_from(g, requester), specifier, dependency.id)),
    }
}

/// Recording a dependency keeps a graph closed.
pub proof fn law_dependency_keeps_graph_closed(
    g: GraphModel,
    requester: Seq<char>,
    specifier: Seq<char>,
    dependency: SourceModel,
)
    requires
        closed(g),
        holds(g.modules, requester),
        dependency.kind == ModuleSourceKind::Executable,
    ensures
        closed(with_dependency(g, requester, specifier, dependency)),
        dependency_of(
            with_dependency(g, requester, specifier, dependency),
            requester,
            specifier,
        ) == Some(
            match lookup(g.modules, dependency.id) {
                Some(known) => known,
                None => dependency,
            },
        ),
{
    let id = dependency.id;
    let w = with_dependency(g, requester, specifier, dependency);
    let out = edges_from(g, requester);
    lemma_rank(g.edges, requester);
    lemma_same_keys(g.edges, g.edges, requester);
    assert(ordered(out));
    lemma_put(out, specifier, id);
    lemma_put(g.edges, requester, put(out, specifier, id));
    lemma_put(g.modules, id, dependency);
    lemma_rank(g.modules, id);
    lemma_rank(w.modules, g.root);
    lemma_rank(w.modules, id);
    let r = rank(g.modules, id);
    assert forall|i: int| 0 <= i < w.modules.len() implies (#[trigger] w.modules[i]).1.id
        == w.modules[i].0 && w.modules[i].1.kind == ModuleSourceKind::Executable by {
        if holds(g.modules, id) || i < r {
            assert(w.modules[i] == g.modules[i]);
        } else if i > r {
            assert(w.modules[i] == g.modules[i - 1]);
        }
    }
    assert forall|k: Seq<char>| holds(g.modules, k) implies #[trigger] holds(w.modules, k) by {
        if k != id {
            assert(lookup(put(g.modules, id, dependency), k) == lookup(g.modules, k));
        }
    }
    assert(holds(w.modules, id)) by {
        assert(lookup(put(g.modules, id, dependency), id) == Some(dependency));
    }
    let at = rank(g.edges, requester);
    let inner = put(out, specifier, id);
    assert forall|i: int|
        0 <= i < w.edges.len() implies (w.edges[i] == (requester, inner) || exists|k: int|
        0 <= k < g.edges.len() && g.edges[k] == #[trigger] w.edges[i]) by {
        if holds(g.edges, requester) || i < at {
            if i != at {
                assert(w.edges[i] == g.edges[i]);
            }
        } else if i > at {
            assert(w.edges[i] == g.edges[i - 1]);
        }
    }
    assert forall|i: int| 0 <= i < w.edges.len() implies ordered((#[trigger] w.edges[i]).1)
        && holds(w.modules, w.edges[i].0) by {
        if w.edges[i] != (requester, inner) {
            let k = choose|k: int| 0 <= k < g.edges.len() && g.edges[k] == w.edges[i];
            assert(ordered(g.edges[k].1));
        }
    }
    lemma_same_keys(out, out, specifier);
    let place = rank(out, specifier);
    assert forall|i: int, j: int|
        #![trigger w.edges[i].1[j]]
        0 <= i < w.edges.len() && 0 <= j < w.edges[i].1.len() implies holds(
        w.modules,
        w.edges[i].1[j].1,
    ) by {
        if w.edges[i] != (requester, inner) {
            let k = choose|k: int| 0 <= k < g.edges.len() && g.edges[k] == w.edges[i];
            assert(holds(g.modules, g.edges[k].1[j].1));
        } else {
            if inner[j].1 != id {
                let jj = if holds(out, specifier) || j < place {
                    j
                } else {
                    j - 1
                };
                assert(inner[j] == out[jj]);
                let k = rank(g.edges, requester);
                assert(g.edges[k].1 == out);
                assert(holds(g.modules, g.edges[k].1[jj].1));
            }
        }
    }
}

/// A module of the first `n` that is not the root is among the others.
proof fn lemma_other_modules(
    modules: Seq<(Seq<char>, SourceModel)>,
    root: Seq<char>,
    n: int,
    i: int,
)
    requires
        0 <= i < n <= modules.len(),
        modules[i].0 != root,
    ensures
        other_modules(modules, root, n).contains(
            VirtualModel { name: modules[i].0, source: modules[i].1.source },
        ),
    decreases n,
{
    let wanted = VirtualModel { name: modules[i].0, source: modules[i].1.source };
    let all = other_modules(modules, root, n);
    if i == n - 1 {
        assert(all.last() == wanted);
    } else {
        lemma_other_modules(modules, root, n - 1, i);
        let before = other_modules(modules, root, n - 1);
        let at = before.index_of(wanted);
        assert(all[at] == wanted);
    }
}

/// What a require finds at run time is what was analyzed: an executable module
/// that is the root itself or one of the virtual modules of the check, with
/// the same source.
pub proof fn law_runtime_loads_what_was_checked(
    g: GraphModel,
    requester: Seq<char>,
    specifier: Seq<char>,
)
    requires
        closed(g),
    ensures
        dependency_of(g, requester, specifier) matches Some(m) ==> {
            &&& m.kind == ModuleSourceKind::Executable
            &&& lookup(g.modules, m.id) == Some(m)
            &&& m.id == g.root || other_modules(g.modules, g.root, g.modules.len() as int).contains(
                VirtualModel { name: m.id, source: m.source },
            )
        },
{
    if let Some(m) = dependency_of(g, requester, specifier) {
        let direct = match lookup(g.edges, requester) {
            Some(out) => lookup(out, specifier),
            None => None,
        };
        let key = match direct {
            Some(id) => if lookup(g.modules, id) is Some {
                id
            } else {
                specifier
            },
            None => specifier,
        };
        assert(lookup(g.modules, key) == Some(m));
        let i = rank(g.modules, key);
        lemma_rank(g.modules, key);
        assert(g.modules[i].1 == m && g.modules[i].0 == key);
        if m.id != g.root {
            lemma_other_modules(g.modules, g.root, g.modules.len() as int, i);
        }
    }
}

/// A module keeps its source however the graph grows.
pub proof fn law_recorded_modules_stay(
    g: GraphModel,
    requester: Seq<char>,
    specifier: Seq<char>,
    dependency: SourceModel,
    id: Seq<char>,
)
    requires
        closed(g),
        holds(g.modules, id),
    ensures
        lookup(with_dependency(g, requester, specifier, dependency).modules, id) == lookup(
            g.modules,
            id,
        ),
{
    lemma_put(g.modules, dependency.id, dependency);
    if id != dependency.id {
        assert(lookup(put(g.modules, dependency.id, dependency), id) == lookup(g.modules, id));
    }
}

/// Recording a dependency sets its own edge and no other one.
pub proof fn law_other_edges_stay(
    g: GraphModel,
    requester: Seq<char>,
    specifier: Seq<char>,
    dependency: SourceModel,
    from: Seq<char>,
    name: Seq<char>,
)
    requires
        closed(g),
    ensures
        lookup(edges_from(with_dependency(g, requester, specifier, dependency), from), name) == (
        if from == requester && name == specifier {
            Some(dependency.id)
        } else {
            lookup(edges_from(g, from), name)
        }),
{
    let out = edges_from(g, requester);
    lemma_rank(g.edges, requester);
    assert(ordered(out));
    let inner = put(out, specifier, dependency.id);
    lemma_put(out, specifier, dependency.id);
    lemma_put(g.edges, requester, inner);
    if from != requester {
        assert(lookup(put(g.edges, requester, inner), from) == lookup(g.edges, from));
    } else if name != specifier {
        assert(lookup(inner, name) == lookup(out, name));
    }
}

/// The virtual modules of a snapshot are all its modules but the root, each
/// under its id and with its source, and nothing else.
pub proof fn law_all_other_modules_are_visible(g: GraphModel, i: int, k: int)
    requires
        closed(g),
    ensures
        0 <= i < g.modules.len() && g.modules[i].0 != g.root ==> other_modules(
            g.modules,
            g.root,
            g.modules.len() as int,
        ).contains((VirtualModel { name: g.modules[i].0, source: g.modules[i].1.source })),
        0 <= k < other_modules(g.modules, g.root, g.modules.len() as int).len() ==> exists|j: int|
            0 <= j < g.modules.len() && (#[trigger] g.modules[j]).0 != g.root && other_modules(
                g.modules,
                g.root,
                g.modules.len() as int,
            )[k].name == g.modules[j].0 && other_modules(
                g.modules,
                g.root,
                g.modules.len() as int,
            )[k].source == g.modules[j].1.source,
        other_modules(g.modules, g.root, g.modules.len() as int).len() == g.modules.len() - 1,
{
    let n = g.modules.len() as int;
    if 0 <= i < n && g.modules[i].0 != g.root {
        lemma_other_modules(g.modules, g.root, n, i);
    }
    let all = other_modules(g.modules, g.root, n);
    if 0 <= k < all.len() {
        lemma_others_are_modules(g.modules, g.root, n, k);
    }
    lemma_rank(g.modules, g.root);
    lemma_other_count(g.modules, g.root, n);
}

proof fn lemma_others_are_modules(
    modules: Seq<(Seq<char>, SourceModel)>,
    root: Seq<char>,
    n: int,
    k: int,
)
    requires
        0 <= n <= modules.len(),
        0 <= k < other_modules(modules, root, n).len(),
    ensures
        exists|j: int|
            0 <= j < n && (#[trigger] modules[j]).0 != root && other_modules(modules, root, n)[k].name
                == modules[j].0 && other_modules(modules, root, n)[k].source == modules[j].1.source,
    decreases n,
{
    let all = other_modules(modules, root, n);
    if n > 0 {
        let before = other_modules(modules, root, n - 1);
        if k < before.len() {
            lemma_others_are_modules(modules, root, n - 1, k);
            assert(all[k] == before[k]);
        } else {
            assert(modules[n - 1].0 != root);
        }
    }
}

proof fn lemma_other_count(modules: Seq<(Seq<char>, SourceModel)>, root: Seq<char>, n: int)
    requires
        0 <= n <= modules.len(),
        ordered(modules),
        holds(modules, root),
    ensures
        other_modules(modules, root, n).len() == (if rank(modules, root) < n {
            n - 1
        } else {
            n
        }),
    decreases n,
{
    lemma_rank(modules, root);
    lemma_text_less_order(root, root, root);
    if n > 0 {
        lemma_other_count(modules, root, n - 1);
        let r = rank(modules, root);
        if n - 1 < r {
            assert(text_less(modules[n - 1].0, root));
        } else if n - 1 > r {
            assert(text_less(root, modules[n - 1].0));
        }
    }
}

/// Every recorded edge is listed with its requester, its specifier and its
/// dependency.
pub proof fn law_edges_are_listed(edges: Seq<(Seq<char>, EdgeModels)>, n: int, i: int, j: int)
    requires
        0 <= i < n <= edges.len(),
        0 <= j < edges[i].1.len(),
    ensures
        all_edges(edges, n).contains(
            (EdgeModel {
                requester: edges[i].0,
                specifier: edges[i].1[j].0,
                dependency: edges[i].1[j].1,
            }),
        ),
    decreases n,
{
    let edge = EdgeModel {
        requester: edges[i].0,
        specifier: edges[i].1[j].0,
        dependency: edges[i].1[j].1,
    };
    let before = all_edges(edges, n - 1);
    let own = out_edges(edges[n - 1].0, edges[n - 1].1, edges[n - 1].1.len() as int);
    let all = all_edges(edges, n);
    if i == n - 1 {
        lemma_out_edges(edges[i].0, edges[i].1, edges[i].1.len() as int);
        assert(all[before.len() + j] == own[j]);
        assert(own[j] == edge);
    } else {
        law_edges_are_listed(edges, n - 1, i, j);
        let at = before.index_of(edge);
        assert(all[at] == before[at]);
    }
}

proof fn lemma_out_edges(requester: Seq<char>, list: EdgeModels, n: int)
    requires
        0 <= n <= list.len(),
    ensures
        out_edges(requester, list, n).len() == n,
        forall|j: int|
            0 <= j < n ==> (#[trigger] out_edges(requester, list, n)[j]) == (EdgeModel {
                requester,
                specifier: list[j].0,
                dependency: list[j].1,
            }),
    decreases n,
{
    if n > 0 {
        lemma_out_edges(requester, list, n - 1);
    }
}

} // verus!
