//! Walking a module graph.
//!
//! A walk takes the next queued module, traces its literal requires, and
//! resolves each of them. [`SnapshotBuilder::step`] says what comes next; the
//! caller does it and hands back the outcome. A walk that is done has an edge
//! for each literal require of each module, and no other edge.
use super::require_spec::{required_specifiers, requires_of, RawRequireTrace, RequireModel};
use super::snapshot::{
    closed, edge_models, edges_from, law_dependency_keeps_graph_closed, law_other_edges_stay,
    law_recorded_modules_stay, with_dependency, GraphModel, ResolverSnapshot,
};
use super::{ModuleId, ModuleResolveError, ModuleSource, ModuleSourceKind, ResolveFault, SourceModel};
use crate::sorted::{
    holds, lemma_mapped, lemma_put, lemma_put_all, lemma_put_without, lemma_rank,
    lemma_same_keys, lemma_without, lookup, ordered, put, rank, value_at, SortedMap,
};
use crate::text::texts;
use vstd::prelude::*;
use vstd::string::*;

verus! {

/// What a walk has to do next.
#[derive(Debug)]
pub enum SnapshotStep<'a> {
    /// Trace the literal requires of this module.
    Trace(&'a ModuleSource),
    /// Resolve this specifier as seen from its requester.
    Resolve { requester: &'a ModuleId, specifier: &'a str },
    /// Every require is resolved.
    Done,
}

/// Model of a [`SnapshotStep`].
pub enum StepModel {
    Trace(SourceModel),
    Resolve { requester: Seq<char>, specifier: Seq<char> },
    Done,
}

impl SnapshotStep<'_> {
    pub open spec fn view(&self) -> StepModel {
        match self {
            SnapshotStep::Trace(m) => StepModel::Trace(m@),
            SnapshotStep::Resolve { requester, specifier } => StepModel::Resolve {
                requester: requester@,
                specifier: specifier@,
            },
            SnapshotStep::Done => StepModel::Done,
        }
    }
}

/// A walk: the graph so far, the modules still to be traced, and the module
/// whose requires are being resolved with those that are open.
#[verifier::ext_equal]
pub struct WalkModel {
    pub graph: GraphModel,
    pub queue: Seq<Seq<char>>,
    pub current: Seq<char>,
    pub open: Seq<Seq<char>>,
    /// What was traced, by module.
    pub traces: Map<Seq<char>, RawRequireTrace>,
    /// Whether every specifier that a module requires again was resolved to
    /// the module that it was resolved to before.
    pub steady: bool,
}

/// The specifiers that a module requires, by its trace.
pub open spec fn traced_names(m: SourceModel, trace: RawRequireTrace) -> Seq<Seq<char>> {
    match requires_of(m.id, m.source, trace) {
        Ok(rows) => rows.map_values(|r: RequireModel| r.specifier),
        Err(_) => Seq::empty(),
    }
}

/// The specifiers that a traced module requires.
pub open spec fn names_of(w: WalkModel, id: Seq<char>) -> Seq<Seq<char>> {
    traced_names(value_at(w.graph.modules, id), w.traces[id])
}

/// The specifiers of a traced module that are resolved: all, or, of the
/// current module, those in front of the open ones.
pub open spec fn resolved_names(w: WalkModel, id: Seq<char>) -> Seq<Seq<char>> {
    if id == w.current {
        names_of(w, id).take(names_of(w, id).len() - w.open.len())
    } else {
        names_of(w, id)
    }
}

/// Whether a module has an edge to another.
pub open spec fn has_edge(g: GraphModel, from: Seq<char>, to: Seq<char>) -> bool {
    exists|s: Seq<char>| #[trigger] lookup(edges_from(g, from), s) == Some(to)
}

/// Whether some ids lead from the root over edges.
pub open spec fn is_path(g: GraphModel, path: Seq<Seq<char>>) -> bool {
    &&& path.len() > 0
    &&& path[0] == g.root
    &&& forall|i: int, j: int|
        0 <= i && j == i + 1 && j < path.len() ==> #[trigger] has_edge(g, path[i], path[j])
}

/// Whether a module is reached from the root over edges.
pub open spec fn reached(g: GraphModel, id: Seq<char>) -> bool {
    exists|path: Seq<Seq<char>>| #[trigger] is_path(g, path) && path.last() == id
}

/// What holds of a walk at every step: each module is queued or traced, once;
/// a module has edges for its resolved specifiers and no others; and, where
/// the walk is steady, each module is reached from the root.
pub open spec fn sound(w: WalkModel) -> bool {
    &&& closed(w.graph)
    &&& w.queue.no_duplicates()
    &&& forall|i: int|
        0 <= i < w.queue.len() ==> holds(w.graph.modules, #[trigger] w.queue[i])
            && !w.traces.dom().contains(w.queue[i])
    &&& forall|id: Seq<char>| #[trigger]
        holds(w.graph.modules, id) ==> w.traces.dom().contains(id) || w.queue.contains(id)
    &&& forall|id: Seq<char>| #[trigger]
        w.traces.dom().contains(id) ==> holds(w.graph.modules, id) && requires_of(
            id,
            value_at(w.graph.modules, id).source,
            w.traces[id],
        ) is Ok
    &&& w.traces.dom().finite()
    &&& w.open.len() > 0 ==> {
        let all = names_of(w, w.current);
        &&& w.traces.dom().contains(w.current)
        &&& w.open.len() <= all.len()
        &&& w.open == all.skip(all.len() - w.open.len())
    }
    &&& forall|id: Seq<char>, s: Seq<char>|
        #![trigger lookup(edges_from(w.graph, id), s)]
        lookup(edges_from(w.graph, id), s) is Some <==> w.traces.dom().contains(id)
            && resolved_names(w, id).contains(s)
    &&& w.steady ==> forall|id: Seq<char>| #[trigger]
        holds(w.graph.modules, id) ==> reached(w.graph, id)
}

/// The walk from a root module.
pub open spec fn started(root: SourceModel) -> WalkModel {
    WalkModel {
        graph: GraphModel {
            root: root.id,
            modules: seq![(root.id, root)],
            edges: Seq::empty(),
        },
        queue: seq![root.id],
        current: root.id,
        open: Seq::empty(),
        traces: Map::empty(),
        steady: true,
    }
}

/// The next step of a walk: an open specifier is resolved, else the next
/// module is traced.
pub open spec fn next_step(w: WalkModel) -> StepModel {
    if w.open.len() > 0 {
        StepModel::Resolve { requester: w.current, specifier: w.open[0] }
    } else if w.queue.len() > 0 {
        StepModel::Trace(value_at(w.graph.modules, w.queue[0]))
    } else {
        StepModel::Done
    }
}

/// The walk after the next module was traced: its specifiers are open.
pub open spec fn after_trace(w: WalkModel, trace: RawRequireTrace) -> WalkModel {
    WalkModel {
        queue: w.queue.drop_first(),
        current: w.queue[0],
        open: traced_names(value_at(w.graph.modules, w.queue[0]), trace),
        traces: w.traces.insert(w.queue[0], trace),
        ..w
    }
}

/// The walk after the first open specifier was resolved.
pub open spec fn after_answer(w: WalkModel, dependency: SourceModel) -> WalkModel {
    WalkModel {
        graph: with_dependency(w.graph, w.current, w.open[0], dependency),
        queue: if holds(w.graph.modules, dependency.id) {
            w.queue
        } else {
            w.queue.push(dependency.id)
        },
        open: w.open.drop_first(),
        steady: w.steady && (match lookup(edges_from(w.graph, w.current), w.open[0]) {
            Some(id) => id == dependency.id,
            None => true,
        }),
        ..w
    }
}

/// Whether a graph holds the literal requires of its modules: each module was
/// traced, it has an edge for each specifier of its trace and for no other,
/// and nothing else has edges.
pub open spec fn complete(g: GraphModel, traces: Map<Seq<char>, RawRequireTrace>) -> bool {
    &&& closed(g)
    &&& forall|id: Seq<char>| #[trigger]
        holds(g.modules, id) ==> traces.dom().contains(id) && requires_of(
            id,
            value_at(g.modules, id).source,
            traces[id],
        ) is Ok
    &&& forall|id: Seq<char>, s: Seq<char>|
        #![trigger lookup(edges_from(g, id), s)]
        lookup(edges_from(g, id), s) is Some <==> holds(g.modules, id) && traced_names(
            value_at(g.modules, id),
            traces[id],
        ).contains(s)
}

/// A walk starts out sound.
proof fn lemma_started(root: SourceModel)
    requires
        root.kind == ModuleSourceKind::Executable,
    ensures
        sound(started(root)),
{
    let w = started(root);
    let g = w.graph;
    assert(ordered(g.modules));
    lemma_rank(g.modules, root.id);
    assert(g.modules[0].0 == root.id);
    assert(w.queue[0] == root.id);
    assert(w.queue.contains(root.id));
    assert forall|id: Seq<char>| #[trigger] holds(g.modules, id) implies w.queue.contains(id)
        && reached(g, id) by {
        lemma_rank(g.modules, id);
        assert(g.modules[rank(g.modules, id)].0 == root.id);
        assert(is_path(g, seq![root.id]));
        assert(seq![root.id].last() == id);
    }
    assert forall|id: Seq<char>, s: Seq<char>|
        #![trigger lookup(edges_from(g, id), s)]
        lookup(edges_from(g, id), s) is None by {
        assert(lookup(g.edges, id) is None);
    }
}

/// Tracing the next module keeps a walk sound.
pub proof fn law_trace_keeps_walk_sound(w: WalkModel, trace: RawRequireTrace)
    requires
        sound(w),
        next_step(w) is Trace,
        requires_of(w.queue[0], value_at(w.graph.modules, w.queue[0]).source, trace) is Ok,
    ensures
        sound(after_trace(w, trace)),
{
    let a = after_trace(w, trace);
    let id0 = w.queue[0];
    assert(holds(w.graph.modules, id0));
    lemma_rank(w.graph.modules, id0);
    let m = value_at(w.graph.modules, id0);
    assert(m.id == id0);
    let all = traced_names(m, trace);
    assert(names_of(a, id0) == all);
    assert(all.skip(0) =~= all);
    assert(all.take(0) =~= Seq::empty());
    assert forall|i: int| 0 <= i < a.queue.len() implies holds(
        a.graph.modules,
        #[trigger] a.queue[i],
    ) && !a.traces.dom().contains(a.queue[i]) by {
        assert(a.queue[i] == w.queue[i + 1]);
    }
    assert(a.queue.no_duplicates()) by {
        assert forall|i: int, j: int|
            0 <= i < a.queue.len() && 0 <= j < a.queue.len() && i != j implies a.queue[i]
            != a.queue[j] by {
            assert(a.queue[i] == w.queue[i + 1] && a.queue[j] == w.queue[j + 1]);
        }
    }
    assert forall|id: Seq<char>| #[trigger] holds(a.graph.modules, id) implies a.traces.dom().contains(
        id,
    ) || a.queue.contains(id) by {
        if !w.traces.dom().contains(id) && id != id0 {
            let k = w.queue.index_of(id);
            assert(w.queue[k] == id);
            assert(a.queue[k - 1] == id);
        }
    }
    assert forall|id: Seq<char>, s: Seq<char>|
        #![trigger lookup(edges_from(a.graph, id), s)]
        lookup(edges_from(a.graph, id), s) is Some <==> a.traces.dom().contains(id)
            && resolved_names(a, id).contains(s) by {
        assert(lookup(edges_from(w.graph, id), s) is Some <==> w.traces.dom().contains(id)
            && resolved_names(w, id).contains(s));
        if id != id0 && w.traces.dom().contains(id) {
            assert(names_of(a, id) == names_of(w, id));
            let n = names_of(w, id);
            assert(n.take(n.len() as int) =~= n);
        }
    }
}

/// What is reached stays reached where no edge is taken away.
proof fn lemma_reached_grows(g: GraphModel, w: GraphModel, id: Seq<char>)
    requires
        reached(g, id),
        g.root == w.root,
        forall|a: Seq<char>, b: Seq<char>| #[trigger] has_edge(g, a, b) ==> has_edge(w, a, b),
    ensures
        reached(w, id),
{
    let path = choose|path: Seq<Seq<char>>| #[trigger] is_path(g, path) && path.last() == id;
    assert forall|i: int, j: int| 0 <= i && j == i + 1 && j < path.len() implies #[trigger] has_edge(
        w,
        path[i],
        path[j],
    ) by {
        assert(has_edge(g, path[i], path[j]));
    }
    assert(is_path(w, path));
}

/// What a reached module has an edge to is reached.
proof fn lemma_reached_next(g: GraphModel, from: Seq<char>, to: Seq<char>)
    requires
        reached(g, from),
        has_edge(g, from, to),
    ensures
        reached(g, to),
{
    let path = choose|path: Seq<Seq<char>>| #[trigger] is_path(g, path) && path.last() == from;
    let longer = path.push(to);
    assert forall|i: int, j: int| 0 <= i && j == i + 1 && j < longer.len() implies #[trigger] has_edge(
        g,
        longer[i],
        longer[j],
    ) by {
        if j < path.len() {
            assert(has_edge(g, path[i], path[j]));
        }
    }
    assert(is_path(g, longer));
    assert(longer.last() == to);
}

/// Resolving an open specifier to an executable module keeps a walk sound.
pub proof fn law_answer_keeps_walk_sound(w: WalkModel, dependency: SourceModel)
    requires
        sound(w),
        next_step(w) is Resolve,
        dependency.kind == ModuleSourceKind::Executable,
    ensures
        sound(after_answer(w, dependency)),
{
    let a = after_answer(w, dependency);
    let g = w.graph;
    let d = dependency.id;
    let name = w.open[0];
    let cur = w.current;
    assert(holds(g.modules, cur));
    law_dependency_keeps_graph_closed(g, cur, name, dependency);
    lemma_put(g.modules, d, dependency);
    assert(holds(a.graph.modules, d));
    assert forall|id: Seq<char>| id != d implies #[trigger] holds(a.graph.modules, id) == holds(
        g.modules,
        id,
    ) by {
        assert(holds(g.modules, d) || lookup(a.graph.modules, id) == lookup(g.modules, id));
    }
    assert forall|id: Seq<char>| holds(g.modules, id) implies holds(a.graph.modules, id)
        && #[trigger] value_at(a.graph.modules, id) == value_at(g.modules, id) by {
        law_recorded_modules_stay(g, cur, name, dependency, id);
        assert(lookup(a.graph.modules, id) == lookup(g.modules, id));
    }
    assert forall|i: int| 0 <= i < a.queue.len() implies holds(
        a.graph.modules,
        #[trigger] a.queue[i],
    ) && !a.traces.dom().contains(a.queue[i]) by {
        if i < w.queue.len() {
            assert(a.queue[i] == w.queue[i]);
        }
    }
    assert(a.queue.no_duplicates()) by {
        if !holds(g.modules, d) {
            assert forall|i: int, j: int|
                0 <= i < a.queue.len() && 0 <= j < a.queue.len() && i != j implies a.queue[i]
                != a.queue[j] by {
                assert(i < w.queue.len() ==> holds(g.modules, w.queue[i]));
                assert(j < w.queue.len() ==> holds(g.modules, w.queue[j]));
            }
        }
    }
    assert forall|id: Seq<char>| #[trigger] holds(a.graph.modules, id) implies a.traces.dom().contains(
        id,
    ) || a.queue.contains(id) by {
        if holds(g.modules, id) {
            if w.queue.contains(id) {
                let k = w.queue.index_of(id);
                assert(a.queue[k] == id);
            }
        } else {
            assert(id == d);
            assert(a.queue.last() == d);
        }
    }
    let all = names_of(w, cur);
    let done = all.len() - w.open.len();
    assert(w.open[0] == all[done]);
    assert(a.open =~= all.skip(done + 1));
    assert(all.take(done + 1) =~= all.take(done).push(name));
    assert forall|id: Seq<char>, s: Seq<char>|
        #![trigger lookup(edges_from(a.graph, id), s)]
        lookup(edges_from(a.graph, id), s) is Some <==> a.traces.dom().contains(id)
            && resolved_names(a, id).contains(s) by {
        law_other_edges_stay(g, cur, name, dependency, id, s);
        assert(lookup(edges_from(g, id), s) is Some <==> w.traces.dom().contains(id)
            && resolved_names(w, id).contains(s));
        if w.traces.dom().contains(id) {
            assert(value_at(a.graph.modules, id) == value_at(g.modules, id));
            assert(names_of(a, id) == names_of(w, id));
            if id == cur {
                let before = all.take(done);
                let after = before.push(name);
                assert(after.last() == name);
                if before.contains(s) {
                    let k = before.index_of(s);
                    assert(after[k] == s);
                }
                if after.contains(s) && s != name {
                    let k = after.index_of(s);
                    assert(before[k] == s);
                }
            }
        }
    }
    if a.steady {
        assert forall|x: Seq<char>, y: Seq<char>| #[trigger] has_edge(g, x, y) implies has_edge(
            a.graph,
            x,
            y,
        ) by {
            let s = choose|s: Seq<char>| #[trigger] lookup(edges_from(g, x), s) == Some(y);
            law_other_edges_stay(g, cur, name, dependency, x, s);
            assert(lookup(edges_from(a.graph, x), s) == Some(y));
        }
        law_other_edges_stay(g, cur, name, dependency, cur, name);
        assert(has_edge(a.graph, cur, d));
        assert forall|id: Seq<char>| #[trigger] holds(a.graph.modules, id) implies reached(
            a.graph,
            id,
        ) by {
            if holds(g.modules, id) {
                lemma_reached_grows(g, a.graph, id);
            } else {
                assert(holds(g.modules, cur));
                lemma_reached_grows(g, a.graph, cur);
                lemma_reached_next(a.graph, cur, id);
            }
        }
    }
}

/// A walk that is done has resolved every literal require of every module: the
/// graph has an edge for each of them and no other, and, where the resolver
/// answered alike whenever it was asked again, each module is reached from the
/// root.
pub proof fn law_finished_graph_is_complete(w: WalkModel)
    requires
        sound(w),
        next_step(w) is Done,
    ensures
        complete(w.graph, w.traces),
        w.steady ==> forall|id: Seq<char>| #[trigger]
            holds(w.graph.modules, id) ==> reached(w.graph, id),
{
    assert forall|id: Seq<char>| #[trigger] holds(
        w.graph.modules,
        id,
    ) implies w.traces.dom().contains(id) by {
        assert(!w.queue.contains(id));
    }
    assert forall|id: Seq<char>, s: Seq<char>|
        #![trigger lookup(edges_from(w.graph, id), s)]
        lookup(edges_from(w.graph, id), s) is Some <==> holds(w.graph.modules, id)
            && traced_names(value_at(w.graph.modules, id), w.traces[id]).contains(s) by {
        let n = names_of(w, id);
        assert(n.take(n.len() as int) =~= n);
    }
}

/// Whether a walk is one step behind another.
pub open spec fn follows(before: WalkModel, after: WalkModel) -> bool {
    match next_step(before) {
        StepModel::Trace(m) => exists|trace: RawRequireTrace|
            requires_of(m.id, m.source, trace) is Ok && after == #[trigger] after_trace(
                before,
                trace,
            ),
        StepModel::Resolve { .. } => exists|dependency: SourceModel|
            dependency.kind == ModuleSourceKind::Executable && after == #[trigger] after_answer(
                before,
                dependency,
            ),
        StepModel::Done => false,
    }
}

/// How many steps a walk can still take, where there are `known` modules with
/// at most `width` requires each.
spec fn steps_left(w: WalkModel, known: int, width: int) -> int {
    (known - w.traces.dom().len()) * (width + 1) + w.open.len()
}

/// A step keeps a walk sound and leaves fewer steps to take.
proof fn lemma_step(w: WalkModel, next: WalkModel, known: Set<Seq<char>>, width: int)
    requires
        sound(w),
        follows(w, next),
        known.finite(),
        forall|id: Seq<char>| #[trigger] holds(w.graph.modules, id) ==> known.contains(id),
        next.open.len() <= width,
    ensures
        sound(next),
        steps_left(next, known.len() as int, width) < steps_left(w, known.len() as int, width),
        steps_left(w, known.len() as int, width) >= 0,
{
    let dom = w.traces.dom();
    assert(dom.subset_of(known));
    vstd::set_lib::lemma_len_subset(dom, known);
    let rest = known.len() - dom.len();
    assert(rest * (width + 1) >= 0) by (nonlinear_arith)
        requires
            rest >= 0,
            width >= 0,
    ;
    if next_step(w) is Trace {
        let id = w.queue[0];
        assert(holds(w.graph.modules, id) && !dom.contains(id));
        lemma_rank(w.graph.modules, id);
        let trace = choose|trace: RawRequireTrace|
            requires_of(id, value_at(w.graph.modules, id).source, trace) is Ok && next
                == #[trigger] after_trace(w, trace);
        law_trace_keeps_walk_sound(w, trace);
        assert(next.traces.dom() =~= dom.insert(id));
        assert((rest - 1) * (width + 1) == rest * (width + 1) - (width + 1)) by (nonlinear_arith);
        assert(known.len() - next.traces.dom().len() == rest - 1);
    } else {
        let dependency = choose|dependency: SourceModel|
            dependency.kind == ModuleSourceKind::Executable && next == #[trigger] after_answer(
                w,
                dependency,
            );
        law_answer_keeps_walk_sound(w, dependency);
    }
}

/// A walk ends, cyclic requires or not: through finitely many modules that each
/// require no more than `width` others it takes at most as many steps as it can
/// trace modules and resolve their requires.
pub proof fn law_walk_ends(
    root: SourceModel,
    walk: Seq<WalkModel>,
    known: Set<Seq<char>>,
    width: int,
)
    requires
        root.kind == ModuleSourceKind::Executable,
        walk.len() > 0,
        walk[0] == started(root),
        forall|i: int, j: int|
            #![trigger walk[i], walk[j]]
            0 <= i && j == i + 1 && j < walk.len() ==> follows(walk[i], walk[j]),
        known.finite(),
        forall|i: int, id: Seq<char>|
            #![trigger holds(walk[i].graph.modules, id)]
            0 <= i < walk.len() && holds(walk[i].graph.modules, id) ==> known.contains(id),
        forall|i: int| 0 <= i < walk.len() ==> (#[trigger] walk[i]).open.len() <= width,
    ensures
        walk.len() - 1 <= known.len() * (width + 1),
        sound(walk.last()),
{
    lemma_started(root);
    lemma_walk_prefix(walk, known, width, walk.len() - 1);
}

/// The first steps of a walk use up what is left to do.
proof fn lemma_walk_prefix(walk: Seq<WalkModel>, known: Set<Seq<char>>, width: int, n: int)
    requires
        0 <= n < walk.len(),
        sound(walk[0]),
        walk[0].traces.dom() =~= Set::<Seq<char>>::empty(),
        walk[0].open.len() == 0,
        forall|i: int, j: int|
            #![trigger walk[i], walk[j]]
            0 <= i && j == i + 1 && j < walk.len() ==> follows(walk[i], walk[j]),
        known.finite(),
        forall|i: int, id: Seq<char>|
            #![trigger holds(walk[i].graph.modules, id)]
            0 <= i < walk.len() && holds(walk[i].graph.modules, id) ==> known.contains(id),
        forall|i: int| 0 <= i < walk.len() ==> (#[trigger] walk[i]).open.len() <= width,
    ensures
        sound(walk[n]),
        n + steps_left(walk[n], known.len() as int, width) <= known.len() * (width + 1),
        steps_left(walk[n], known.len() as int, width) >= 0,
    decreases n,
{
    if n > 0 {
        lemma_walk_prefix(walk, known, width, n - 1);
        lemma_step(walk[n - 1], walk[n], known, width);
    }
    let w = walk[n];
    assert(w.traces.dom().subset_of(known));
    vstd::set_lib::lemma_len_subset(w.traces.dom(), known);
    let rest = known.len() - w.traces.dom().len();
    assert(w.open.len() <= width);
    assert(rest * (width + 1) >= 0) by (nonlinear_arith)
        requires
            rest >= 0,
            width >= 0,
    ;
}

/// Mutable graph assembly state.
pub struct SnapshotBuilder {
    /// The graph so far.
    pub graph: ResolverSnapshot,
    /// Modules whose literal requires still need to be walked, in order.
    pub queue: Vec<ModuleId>,
    /// The module that was traced last.
    pub current: ModuleId,
    /// Its specifiers that are not resolved yet, in order.
    pub open: Vec<String>,
    /// What was traced, by module.
    pub traces: Ghost<Map<Seq<char>, RawRequireTrace>>,
    /// Whether the answers to repeated questions were the same.
    pub steady: Ghost<bool>,
}

/// The ids of a queue.
pub open spec fn queue_ids(v: Seq<ModuleId>) -> Seq<Seq<char>> {
    v.map_values(|id: ModuleId| id@)
}

/// Rejects interface-only modules.
fn ensure_executable(source: &ModuleSource) -> (r: Result<(), ModuleResolveError>)
    ensures
        r is Ok <==> source@.kind == ModuleSourceKind::Executable,
        r matches Err(e) ==> e@ == ResolveFault::NotExecutable(source@.id),
{
    if source.is_executable() {
        Ok(())
    } else {
        Err(ModuleResolveError::NotExecutable(source.id.label.clone()))
    }
}

impl SnapshotBuilder {
    pub open spec fn view(&self) -> WalkModel {
        WalkModel {
            graph: self.graph@,
            queue: queue_ids(self.queue@),
            current: self.current@,
            open: texts(self.open@),
            traces: self.traces@,
            steady: self.steady@,
        }
    }

    /// The maps of the graph are in order and the walk is sound.
    pub open spec fn wf(&self) -> bool {
        &&& self.graph.wf()
        &&& sound(self@)
    }

    /// Creates a builder seeded with an executable root module.
    pub fn new(root: ModuleSource) -> (r: Result<Self, ModuleResolveError>)
        ensures
            match r {
                Ok(b) => b.wf() && root@.kind == ModuleSourceKind::Executable && b@ == started(
                    root@,
                ),
                Err(e) => root@.kind != ModuleSourceKind::Executable && e@
                    == ResolveFault::NotExecutable(root@.id),
            },
    {
        match ensure_executable(&root) {
            Ok(()) => {},
            Err(e) => {
                return Err(e);
            },
        }
        let ghost model = root@;
        let id = root.id.clone();
        let mut modules: SortedMap<ModuleSource> = SortedMap::new();
        modules.insert(id.label.clone(), root);
        let mut queue: Vec<ModuleId> = Vec::new();
        queue.push(id.clone());
        let b = SnapshotBuilder {
            current: id.clone(),
            graph: ResolverSnapshot { root: id, modules, edges: SortedMap::new() },
            queue,
            open: Vec::new(),
            traces: Ghost(Map::empty()),
            steady: Ghost(true),
        };
        proof {
            lemma_started(model);
            assert(b.graph@.modules =~= seq![(model.id, model)]);
            assert(b.graph@.edges =~= Seq::empty());
            assert(b@ =~= started(model));
        }
        Ok(b)
    }

    /// Says what the walk has to do next.
    pub fn step(&self) -> (r: SnapshotStep<'_>)
        requires
            self.wf(),
        ensures
            r@ == next_step(self@),
    {
        if self.open.len() > 0 {
            assert(self@.open[0] == self.open@[0]@);
            return SnapshotStep::Resolve {
                requester: &self.current,
                specifier: self.open[0].as_str(),
            };
        }
        if self.queue.len() > 0 {
            assert(self@.queue[0] == self.queue@[0]@);
            assert(holds(self@.graph.modules, self@.queue[0]));
            if let Some(m) = self.graph.module(self.queue[0].as_str()) {
                return SnapshotStep::Trace(m);
            }
        }
        SnapshotStep::Done
    }

    /// Opens the specifiers of the next module, given the trace of its source.
    /// A source that cannot be read is refused and changes nothing.
    pub fn traced(&mut self, trace: &RawRequireTrace) -> (r: Result<(), ModuleResolveError>)
        requires
            old(self).wf(),
            next_step(old(self)@) is Trace,
        ensures
            final(self).wf(),
            ({
                let m = next_step(old(self)@)->Trace_0;
                match requires_of(m.id, m.source, *trace) {
                    Ok(_) => r is Ok && final(self)@ == after_trace(old(self)@, *trace),
                    Err(fault) => r matches Err(e) && e@ == fault && *final(self) == *old(self),
                }
            }),
    {
        let ghost before = self@;
        let ghost at = before.queue[0];
        let ghost m = value_at(before.graph.modules, at);
        proof {
            assert(at == self.queue@[0]@);
            assert(holds(before.graph.modules, at));
            lemma_rank(before.graph.modules, at);
            assert(m.id == at);
        }
        let names = match self.graph.module(self.queue[0].as_str()) {
            Some(module) => match required_specifiers(module.id(), module.source(), trace) {
                Ok(names) => names,
                Err(e) => {
                    return Err(e);
                },
            },
            None => Vec::new(),
        };
        proof {
            law_trace_keeps_walk_sound(before, *trace);
        }
        let ghost queued = self.queue@;
        self.current = self.queue.remove(0);
        self.open = names;
        self.traces = Ghost(self.traces@.insert(at, *trace));
        proof {
            assert(queue_ids(self.queue@) =~= queue_ids(queued).drop_first());
            assert(self@ =~= after_trace(before, *trace));
        }
        Ok(())
    }

    /// Records what the first open specifier was resolved to, and queues it
    /// where it is seen for the first time. An interface-only module is refused
    /// and changes nothing.
    pub fn add_dependency(&mut self, dependency: ModuleSource) -> (r: Result<
        (),
        ModuleResolveError,
    >)
        requires
            old(self).wf(),
            next_step(old(self)@) is Resolve,
        ensures
            final(self).wf(),
            match r {
                Ok(()) => dependency@.kind == ModuleSourceKind::Executable && final(self)@
                    == after_answer(old(self)@, dependency@),
                Err(e) => dependency@.kind != ModuleSourceKind::Executable && e@
                    == ResolveFault::NotExecutable(dependency@.id) && *final(self) == *old(self),
            },
    {
        match ensure_executable(&dependency) {
            Ok(()) => {},
            Err(e) => {
                return Err(e);
            },
        }
        let ghost w = self@;
        let ghost g = self.graph@;
        let ghost opened = self.open@;
        let requester = self.current.clone();
        let specifier = self.open.remove(0);
        proof {
            assert(w.open[0] == opened[0]@);
            assert(texts(self.open@) =~= texts(opened).drop_first());
            law_answer_keeps_walk_sound(w, dependency@);
        }
        self.steady = Ghost(after_answer(w, dependency@).steady);
        let ghost model = dependency@;
        let ghost edges_before = self.graph.edges;
        let id = dependency.id.clone();
        proof {
            assert(holds(g.modules, requester@));
            law_dependency_keeps_graph_closed(g, requester@, specifier@, model);
            lemma_same_keys(self.graph.edges@, g.edges, requester@);
            lemma_same_keys(self.graph.modules@, g.modules, model.id);
            lemma_without(self.graph.edges@, requester@);
        }
        let mut out = match self.graph.edges.remove(requester.as_str()) {
            Some(out) => {
                proof {
                    let at = rank(edges_before@, requester@);
                    assert(edges_before@[at].1 == edges_before.entries@[at].1);
                    assert(g.edges[at].1 == edge_models(out));
                }
                out
            },
            None => {
                let fresh: SortedMap<ModuleId> = SortedMap::new();
                assert(edge_models(fresh) =~= Seq::empty());
                fresh
            },
        };
        assert(edge_models(out) == edges_from(g, requester@));
        let ghost middle = self.graph.edges;
        proof {
            assert forall|k: int| 0 <= k < middle.entries@.len() implies (
            #[trigger] middle.entries@[k]).1.wf() by {
                assert(middle@[k].1 == middle.entries@[k].1);
                let at = rank(edges_before@, requester@);
                let kk = if !holds(edges_before@, requester@) || k < at {
                    k
                } else {
                    k + 1
                };
                assert(middle@[k] == edges_before@[kk]);
                assert(edges_before@[kk].1 == edges_before.entries@[kk].1);
            }
        }
        let target = id.clone();
        proof {
            lemma_mapped(out@, |id: ModuleId| id@, specifier@, target);
        }
        out.insert(specifier, target);
        assert(edge_models(out) == put(edges_from(g, requester@), specifier@, model.id));
        proof {
            lemma_mapped(
                edges_before@,
                |e: SortedMap<ModuleId>| edge_models(e),
                requester@,
                out,
            );
            lemma_put_without(edges_before@, requester@, out);
        }
        self.graph.edges.insert(requester.label.clone(), out);
        proof {
            lemma_put_all(
                middle.entries@,
                self.graph.edges.entries@,
                requester@,
                out,
                |m: SortedMap<ModuleId>| m.wf(),
            );
        }
        if !self.graph.modules.contains_key(id.as_str()) {
            proof {
                lemma_mapped(
                    self.graph.modules@,
                    |m: ModuleSource| m@,
                    model.id,
                    dependency,
                );
                lemma_put(g.modules, model.id, model);
            }
            let ghost before = self.queue@;
            self.graph.modules.insert(id.label.clone(), dependency);
            self.queue.push(id);
            assert(queue_ids(self.queue@) =~= queue_ids(before).push(model.id));
        }
        assert(self.graph@.edges == with_dependency(g, requester@, specifier@, model).edges);
        assert(self.graph@.modules == with_dependency(g, requester@, specifier@, model).modules);
        assert(self@ =~= after_answer(w, model));
        Ok(())
    }

    /// Finishes graph assembly. The graph has an edge for each literal require
    /// of each module and no other. Where no repeated require was resolved
    /// differently than before, each module is reached from the root.
    pub fn finish(self) -> (r: ResolverSnapshot)
        requires
            self.wf(),
            next_step(self@) is Done,
        ensures
            r.wf(),
            r@ == self@.graph,
            complete(r@, self@.traces),
            self@.steady ==> forall|id: Seq<char>| #[trigger]
                holds(r@.modules, id) ==> reached(r@, id),
    {
        proof {
            law_finished_graph_is_complete(self@);
        }
        self.graph
    }
}

/// An answer is recorded for the specifier that was asked for, under the
/// module that requires it, and a module that is new is queued behind the
/// others to be traced in its turn.
pub proof fn law_answer_is_recorded(w: WalkModel, dependency: SourceModel)
    requires
        sound(w),
        w.open.len() > 0,
    ensures
        next_step(w) == (StepModel::Resolve { requester: w.current, specifier: w.open[0] }),
        lookup(edges_from(after_answer(w, dependency).graph, w.current), w.open[0]) == Some(
            dependency.id,
        ),
        !holds(w.graph.modules, dependency.id) ==> lookup(
            after_answer(w, dependency).graph.modules,
            dependency.id,
        ) == Some(dependency) && after_answer(w, dependency).queue == w.queue.push(dependency.id),
        holds(w.graph.modules, dependency.id) ==> after_answer(w, dependency).queue == w.queue
            && after_answer(w, dependency).graph.modules == w.graph.modules,
        after_answer(w, dependency).open == w.open.skip(1),
        after_answer(w, dependency).graph.root == w.graph.root,
{
    law_other_edges_stay(w.graph, w.current, w.open[0], dependency, w.current, w.open[0]);
    lemma_put(w.graph.modules, dependency.id, dependency);
    assert(w.open.drop_first() =~= w.open.skip(1));
}

/// A walk starts with its root alone, traces it first, and goes on with the
/// modules in the order in which they were found.
pub proof fn law_walk_starts_with_root(root: SourceModel)
    ensures
        next_step(started(root)) == StepModel::Trace(root),
        started(root).graph.root == root.id,
        lookup(started(root).graph.modules, root.id) == Some(root),
        started(root).graph.edges.len() == 0,
{
    let modules = seq![(root.id, root)];
    assert(modules.len() == 1);
    assert forall|i: int, j: int|
        #![trigger modules[i], modules[j]]
        0 <= i < j < modules.len() implies crate::sorted::text_less(modules[i].0, modules[j].0) by {
    }
    lemma_rank(modules, root.id);
    assert(modules[0].0 == root.id);
}

} // verus!
