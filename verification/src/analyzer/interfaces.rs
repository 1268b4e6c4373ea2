//! Catalog of typed module interfaces.
use super::render::{checker_source_for_interface, checker_text};
use super::schema::{extract_module_schema, schema_of_json};
use super::{
    bare_schema, diagnostic_models, AnalysisError, Diagnostic, DiagnosticModel, ModuleSchema,
    SchemaModel, VirtualModule,
};
use crate::resolver::ModuleSource;
use crate::sorted::{
    holds, increasing, lemma_mapped, lemma_put, lemma_rank, lemma_same_keys, lookup, mapped,
    ordered, put, rank, text_less, SortedMap,
};
use vstd::prelude::*;
use vstd::string::*;

verus! {

/// How an interface source contributes to type checking.
#[derive(Debug, Clone, Copy, PartialEq, Eq, Structural)]
pub enum ModuleInterfaceKind {
    /// `.d.luau` declaration source; the schema is populated.
    Declaration,
    /// `.luau` implementation source; the analyzer infers the exported type.
    Implementation,
}

impl Default for ModuleInterfaceKind {
    fn default() -> (r: Self)
        ensures
            r == ModuleInterfaceKind::Declaration,
    {
        ModuleInterfaceKind::Declaration
    }
}

/// Parsed, reusable interface entry for one require specifier.
#[derive(Debug)]
pub struct ModuleInterface {
    /// Require specifier used by scripts, for example `rust/cargo`.
    pub specifier: String,
    /// Original source.
    pub source: String,
    /// Diagnostics produced while validating this interface.
    pub diagnostics: Vec<Diagnostic>,
    /// Rich schema extracted from the declaration source.
    pub schema: ModuleSchema,
    /// Generated Luau module source used by the checker.
    pub checker_source: String,
    /// Whether this interface can be required as a value.
    pub requireable: bool,
    /// Whether the interface is declaration or implementation source.
    pub kind: ModuleInterfaceKind,
}

/// Model of a [`ModuleInterface`].
#[verifier::ext_equal]
pub struct InterfaceModel {
    pub specifier: Seq<char>,
    pub source: Seq<char>,
    pub diagnostics: Seq<DiagnosticModel>,
    pub schema: SchemaModel,
    pub checker_source: Seq<char>,
    pub requireable: bool,
    pub kind: ModuleInterfaceKind,
}

/// Model of a [`VirtualModule`].
#[verifier::ext_equal]
pub struct VirtualModel {
    pub name: Seq<char>,
    pub source: Seq<char>,
}

impl VirtualModule<'_> {
    pub open spec fn view(&self) -> VirtualModel {
        VirtualModel { name: self.name@, source: self.source@ }
    }
}

/// The models of a list of virtual modules.
pub open spec fn virtual_models(v: Seq<VirtualModule<'_>>) -> Seq<VirtualModel> {
    v.map_values(|m: VirtualModule<'_>| m@)
}

/// The interface of a declaration source with the given schema: it can be
/// required where the schema has a root.
pub open spec fn declared(
    specifier: Seq<char>,
    source: Seq<char>,
    schema: SchemaModel,
) -> InterfaceModel {
    InterfaceModel {
        specifier,
        source,
        diagnostics: Seq::empty(),
        schema,
        checker_source: checker_text(schema, source),
        requireable: schema.root is Some,
        kind: ModuleInterfaceKind::Declaration,
    }
}

/// The interface of an implementation source: always requireable, with the
/// source itself as what the checker sees and no schema.
pub open spec fn implemented(specifier: Seq<char>, source: Seq<char>) -> InterfaceModel {
    InterfaceModel {
        specifier,
        source,
        diagnostics: Seq::empty(),
        schema: bare_schema(None),
        checker_source: source,
        requireable: true,
        kind: ModuleInterfaceKind::Implementation,
    }
}

impl ModuleInterface {
    pub open spec fn view(&self) -> InterfaceModel {
        InterfaceModel {
            specifier: self.specifier@,
            source: self.source@,
            diagnostics: diagnostic_models(self.diagnostics@),
            schema: self.schema@,
            checker_source: self.checker_source@,
            requireable: self.requireable,
            kind: self.kind,
        }
    }

    /// Builds a declaration-backed interface from a source and its syntax
    /// tree.
    pub fn declaration(specifier: String, source: String, ast_json: &str) -> (r: Result<
        Self,
        AnalysisError,
    >)
        ensures
            match r {
                Ok(i) => i.schema.wf() && (schema_of_json(ast_json@, source@) matches Ok(schema)
                    && i@ == declared(specifier@, source@, schema)),
                Err(e) => e@ is ModuleSchema && schema_of_json(ast_json@, source@) == Err::<
                    SchemaModel,
                    Seq<char>,
                >(e@->ModuleSchema_0),
            },
    {
        let schema = match extract_module_schema(source.as_str(), ast_json) {
            Ok(schema) => schema,
            Err(e) => {
                return Err(e);
            },
        };
        let checker_source = checker_source_for_interface(&schema, source.as_str());
        let requireable = schema.root.is_some();
        let r = ModuleInterface {
            specifier,
            source,
            diagnostics: Vec::new(),
            schema,
            checker_source,
            requireable,
            kind: ModuleInterfaceKind::Declaration,
        };
        assert(r@.diagnostics =~= Seq::empty());
        Ok(r)
    }

    /// Builds an implementation-backed interface from source.
    pub fn implementation(specifier: String, source: String) -> (r: Self)
        ensures
            r.schema.wf(),
            r@ == implemented(specifier@, source@),
    {
        let r = ModuleInterface {
            specifier,
            checker_source: source.clone(),
            source,
            diagnostics: Vec::new(),
            schema: ModuleSchema::default(),
            requireable: true,
            kind: ModuleInterfaceKind::Implementation,
        };
        assert(r@.diagnostics =~= Seq::empty());
        r
    }

    /// Returns the require specifier used by scripts.
    pub fn specifier(&self) -> (r: &str)
        ensures
            r@ == self@.specifier,
    {
        self.specifier.as_str()
    }

    /// Returns the original source used to create this interface.
    pub fn source(&self) -> (r: &str)
        ensures
            r@ == self@.source,
    {
        self.source.as_str()
    }

    /// Returns diagnostics produced while validating this interface.
    pub fn diagnostics(&self) -> (r: &[Diagnostic])
        ensures
            diagnostic_models(r@) == self@.diagnostics,
    {
        self.diagnostics.as_slice()
    }

    /// Returns the schema extracted from declaration source.
    pub fn schema(&self) -> (r: &ModuleSchema)
        ensures
            r@ == self@.schema,
    {
        &self.schema
    }

    /// Returns the checker-facing Luau module source of this interface.
    pub fn checker_source(&self) -> (r: &str)
        ensures
            r@ == self@.checker_source,
    {
        self.checker_source.as_str()
    }

    /// Returns whether this interface can be required as a value.
    pub fn is_requireable(&self) -> (r: bool)
        ensures
            r == self@.requireable,
    {
        self.requireable
    }

    /// Returns whether the interface is declaration or implementation source.
    pub fn kind(&self) -> (r: ModuleInterfaceKind)
        ensures
            r == self@.kind,
    {
        self.kind
    }

    /// Returns this interface as a checker virtual module.
    pub fn virtual_module(&self) -> (r: VirtualModule<'_>)
        ensures
            r@ == as_virtual(self@),
            r.name@ == self.specifier@,
            r.source@ == self.checker_source@,
    {
        VirtualModule { name: self.specifier.as_str(), source: self.checker_source.as_str() }
    }
}

/// An interface as a virtual module.
pub open spec fn as_virtual(i: InterfaceModel) -> VirtualModel {
    VirtualModel { name: i.specifier, source: i.checker_source }
}

/// The requireable ones among the first `n` interfaces, as virtual modules.
pub open spec fn requireable_modules(e: Seq<(Seq<char>, InterfaceModel)>, n: int) -> Seq<
    VirtualModel,
>
    decreases n,
{
    if n <= 0 {
        Seq::empty()
    } else if e[n - 1].1.requireable {
        requireable_modules(e, n - 1).push(as_virtual(e[n - 1].1))
    } else {
        requireable_modules(e, n - 1)
    }
}

/// Whether the entries of a catalog stand in order, each under the specifier of
/// its interface.
pub open spec fn catalog(e: Seq<(Seq<char>, InterfaceModel)>) -> bool {
    &&& ordered(e)
    &&& forall|i: int| 0 <= i < e.len() ==> (#[trigger] e[i]).1.specifier == e[i].0
}

/// The names of some virtual modules.
pub open spec fn module_names(v: Seq<VirtualModel>) -> Seq<Seq<char>> {
    v.map_values(|m: VirtualModel| m.name)
}

/// Storing an interface under its specifier keeps a catalog.
proof fn lemma_catalog_put(e: Seq<(Seq<char>, InterfaceModel)>, interface: InterfaceModel)
    requires
        catalog(e),
    ensures
        catalog(put(e, interface.specifier, interface)),
{
    let k = interface.specifier;
    let p = put(e, k, interface);
    let r = rank(e, k);
    lemma_put(e, k, interface);
    lemma_rank(e, k);
    assert forall|i: int| 0 <= i < p.len() implies (#[trigger] p[i]).1.specifier == p[i].0 by {
        if holds(e, k) || i < r {
            if i != r {
                assert(p[i] == e[i]);
            }
        } else if i > r {
            assert(p[i] == e[i - 1]);
        }
    }
}

/// The virtual modules of the first entries: their names ascend, and they are
/// below that of every later entry.
proof fn lemma_names_ascend(e: Seq<(Seq<char>, InterfaceModel)>, n: int)
    requires
        catalog(e),
        0 <= n <= e.len(),
    ensures
        increasing(module_names(requireable_modules(e, n))),
        forall|k: int, i: int|
            #![trigger requireable_modules(e, n)[k], e[i]]
            0 <= k < requireable_modules(e, n).len() && n <= i < e.len() ==> text_less(
                requireable_modules(e, n)[k].name,
                e[i].0,
            ),
        forall|m: VirtualModel| #[trigger]
            requireable_modules(e, n).contains(m) <==> exists|i: int|
                0 <= i < n && (#[trigger] e[i]).1.requireable && m == as_virtual(e[i].1),
    decreases n,
{
    if n > 0 {
        lemma_names_ascend(e, n - 1);
        let before = requireable_modules(e, n - 1);
        let all = requireable_modules(e, n);
        if e[n - 1].1.requireable {
            let last = as_virtual(e[n - 1].1);
            assert(last.name == e[n - 1].0);
            assert forall|k: int, i: int|
                #![trigger all[k], e[i]]
                0 <= k < all.len() && n <= i < e.len() implies text_less(all[k].name, e[i].0) by {
                if k < before.len() {
                    assert(all[k] == before[k]);
                } else {
                    assert(all[k] == last);
                }
            }
            let names = module_names(all);
            assert forall|a: int, b: int|
                #![trigger names[a], names[b]]
                0 <= a < b < names.len() implies text_less(names[a], names[b]) by {
                assert(all[a] == before[a]);
                if b < before.len() {
                    assert(all[b] == before[b]);
                    assert(module_names(before)[a] == names[a]);
                    assert(module_names(before)[b] == names[b]);
                } else {
                    assert(text_less(before[a].name, e[n - 1].0));
                }
            }
            assert forall|m: VirtualModel| #[trigger] all.contains(m) <==> exists|i: int|
                0 <= i < n && (#[trigger] e[i]).1.requireable && m == as_virtual(e[i].1) by {
                if all.contains(m) {
                    let k = all.index_of(m);
                    if k < before.len() {
                        assert(before[k] == m);
                        assert(before.contains(m));
                    } else {
                        assert(m == as_virtual(e[n - 1].1));
                    }
                }
                if exists|i: int|
                    0 <= i < n && (#[trigger] e[i]).1.requireable && m == as_virtual(e[i].1) {
                    let i = choose|i: int|
                        0 <= i < n && (#[trigger] e[i]).1.requireable && m == as_virtual(e[i].1);
                    if i < n - 1 {
                        assert(before.contains(m));
                        let k = before.index_of(m);
                        assert(all[k] == m);
                    } else {
                        assert(all[before.len() as int] == m);
                    }
                }
            }
        } else {
            assert forall|m: VirtualModel| #[trigger] all.contains(m) <==> exists|i: int|
                0 <= i < n && (#[trigger] e[i]).1.requireable && m == as_virtual(e[i].1) by {
                assert(before.contains(m) == all.contains(m));
            }
        }
    }
}

/// The virtual modules of a catalog are those of its requireable interfaces,
/// with their specifiers as names in strictly ascending order.
pub proof fn law_virtual_names_ascend(e: Seq<(Seq<char>, InterfaceModel)>)
    requires
        catalog(e),
    ensures
        increasing(module_names(requireable_modules(e, e.len() as int))),
        forall|m: VirtualModel| #[trigger]
            requireable_modules(e, e.len() as int).contains(m) <==> exists|i: int|
                0 <= i < e.len() && (#[trigger] e[i]).1.requireable && m == as_virtual(e[i].1),
{
    lemma_names_ascend(e, e.len() as int);
}

/// Named collection of typed module interfaces, in specifier order.
#[derive(Debug)]
pub struct ModuleInterfaceSet {
    pub interfaces: SortedMap<ModuleInterface>,
}

impl ModuleInterfaceSet {
    /// The interfaces in specifier order.
    pub open spec fn view(&self) -> Seq<(Seq<char>, InterfaceModel)> {
        mapped(self.interfaces@, |i: ModuleInterface| i@)
    }

    /// The interfaces stand in order under their specifiers.
    pub open spec fn wf(&self) -> bool {
        &&& self.interfaces.wf()
        &&& catalog(self@)
    }

    /// Creates an empty interface set.
    pub fn new() -> (r: Self)
        ensures
            r.wf(),
            r@ == Seq::<(Seq<char>, InterfaceModel)>::empty(),
    {
        let r = ModuleInterfaceSet { interfaces: SortedMap::new() };
        assert(r@ =~= Seq::<(Seq<char>, InterfaceModel)>::empty());
        r
    }

    /// Stores an interface under its own specifier and returns the previous
    /// entry, if any.
    pub fn insert_interface(&mut self, interface: ModuleInterface) -> (r: Option<ModuleInterface>)
        requires
            old(self).wf(),
        ensures
            final(self).wf(),
            final(self)@ == put(old(self)@, interface@.specifier, interface@),
            match r {
                Some(i) => lookup(old(self)@, interface@.specifier) == Some(i@),
                None => lookup(old(self)@, interface@.specifier) is None,
            },
    {
        proof {
            lemma_mapped(
                self.interfaces@,
                |i: ModuleInterface| i@,
                interface@.specifier,
                interface,
            );
            lemma_catalog_put(self@, interface@);
        }
        self.interfaces.insert(interface.specifier.clone(), interface)
    }

    /// Inserts one declaration source with its syntax tree and returns the
    /// previous entry, if any. A source without a schema leaves the set as it
    /// was.
    pub fn insert(&mut self, specifier: &str, source: &str, ast_json: &str) -> (r: Result<
        Option<ModuleInterface>,
        AnalysisError,
    >)
        requires
            old(self).wf(),
        ensures
            final(self).wf(),
            match r {
                Ok(previous) => (schema_of_json(ast_json@, source@) matches Ok(schema)
                    && final(self)@ == put(
                    old(self)@,
                    specifier@,
                    declared(specifier@, source@, schema),
                )) && (match previous {
                    Some(i) => lookup(old(self)@, specifier@) == Some(i@),
                    None => lookup(old(self)@, specifier@) is None,
                }),
                Err(e) => final(self)@ == old(self)@ && e@ is ModuleSchema && schema_of_json(
                    ast_json@,
                    source@,
                ) == Err::<SchemaModel, Seq<char>>(e@->ModuleSchema_0),
            },
    {
        match ModuleInterface::declaration(specifier.to_owned(), source.to_owned(), ast_json) {
            Err(e) => Err(e),
            Ok(interface) => Ok(self.insert_interface(interface)),
        }
    }

    /// Inserts implementation source as a requireable virtual module and
    /// returns the previous entry, if any.
    pub fn insert_implementation(&mut self, specifier: &str, source: &str) -> (r: Option<
        ModuleInterface,
    >)
        requires
            old(self).wf(),
        ensures
            final(self).wf(),
            final(self)@ == put(old(self)@, specifier@, implemented(specifier@, source@)),
            match r {
                Some(i) => lookup(old(self)@, specifier@) == Some(i@),
                None => lookup(old(self)@, specifier@) is None,
            },
    {
        self.insert_interface(
            ModuleInterface::implementation(specifier.to_owned(), source.to_owned()),
        )
    }

    /// Inserts a resolved declaration source under its module id.
    pub fn insert_source(&mut self, source: &ModuleSource, ast_json: &str) -> (r: Result<
        Option<ModuleInterface>,
        AnalysisError,
    >)
        requires
            old(self).wf(),
        ensures
            final(self).wf(),
            match r {
                Ok(previous) => (schema_of_json(ast_json@, source@.source) matches Ok(schema)
                    && final(self)@ == put(
                    old(self)@,
                    source@.id,
                    declared(source@.id, source@.source, schema),
                )) && (match previous {
                    Some(i) => lookup(old(self)@, source@.id) == Some(i@),
                    None => lookup(old(self)@, source@.id) is None,
                }),
                Err(e) => final(self)@ == old(self)@ && e@ is ModuleSchema && schema_of_json(
                    ast_json@,
                    source@.source,
                ) == Err::<SchemaModel, Seq<char>>(e@->ModuleSchema_0),
            },
    {
        self.insert(source.id().as_str(), source.source(), ast_json)
    }

    /// Stores an interface that a checker has validated, with the diagnostics
    /// of that check.
    pub fn insert_checked(
        &mut self,
        interface: ModuleInterface,
        diagnostics: Vec<Diagnostic>,
    ) -> (r: Option<ModuleInterface>)
        requires
            old(self).wf(),
        ensures
            final(self).wf(),
            final(self)@ == put(
                old(self)@,
                interface@.specifier,
                InterfaceModel { diagnostics: diagnostic_models(diagnostics@), ..interface@ },
            ),
            match r {
                Some(i) => lookup(old(self)@, interface@.specifier) == Some(i@),
                None => lookup(old(self)@, interface@.specifier) is None,
            },
    {
        let mut interface = interface;
        interface.diagnostics = diagnostics;
        self.insert_interface(interface)
    }

    /// Returns the interface for one specifier.
    pub fn get(&self, specifier: &str) -> (r: Option<&ModuleInterface>)
        requires
            self.wf(),
        ensures
            match r {
                Some(i) => lookup(self@, specifier@) == Some(i@),
                None => lookup(self@, specifier@) is None,
            },
    {
        proof {
            lemma_same_keys(self.interfaces@, self@, specifier@);
        }
        self.interfaces.get(specifier)
    }

    /// Returns the interfaces in specifier order.
    pub fn interfaces(&self) -> (r: Vec<&ModuleInterface>)
        ensures
            r@.map_values(|i: &ModuleInterface| i@) == self@.map_values(
                |e: (Seq<char>, InterfaceModel)| e.1,
            ),
    {
        let mut out: Vec<&ModuleInterface> = Vec::new();
        let mut i: usize = 0;
        while i < self.interfaces.entries.len()
            invariant
                i <= self.interfaces.entries.len(),
                out@.len() == i,
                forall|k: int| 0 <= k < i ==> (#[trigger] out@[k])@ == self@[k].1,
            decreases self.interfaces.entries.len() - i,
        {
            assert(self@[i as int].1 == self.interfaces.entries@[i as int].1@);
            out.push(&self.interfaces.entries[i].1);
            i += 1;
        }
        assert(out@.map_values(|i: &ModuleInterface| i@) =~= self@.map_values(
            |e: (Seq<char>, InterfaceModel)| e.1,
        ));
        out
    }

    /// Returns checker virtual modules for requireable interfaces.
    pub fn virtual_modules(&self) -> (r: Vec<VirtualModule<'_>>)
        ensures
            virtual_models(r@) == requireable_modules(self@, self@.len() as int),
            self.wf() ==> increasing(module_names(virtual_models(r@))),
    {
        let mut out: Vec<VirtualModule<'_>> = Vec::new();
        let mut i: usize = 0;
        assert(virtual_models(out@) =~= Seq::empty());
        while i < self.interfaces.entries.len()
            invariant
                i <= self.interfaces.entries.len(),
                virtual_models(out@) == requireable_modules(self@, i as int),
            decreases self.interfaces.entries.len() - i,
        {
            let interface = &self.interfaces.entries[i].1;
            assert(self@[i as int].1 == interface@);
            if interface.requireable {
                let ghost before = out@;
                out.push(interface.virtual_module());
                assert(virtual_models(out@) =~= virtual_models(before).push(
                    as_virtual(interface@),
                ));
            }
            i += 1;
        }
        proof {
            if self.wf() {
                law_virtual_names_ascend(self@);
            }
        }
        out
    }
}

impl Default for ModuleInterfaceSet {
    fn default() -> (r: Self)
        ensures
            r.wf(),
            r@ == Seq::<(Seq<char>, InterfaceModel)>::empty(),
    {
        Self::new()
    }
}

/// What a set holds after an insertion is found again under its specifier,
/// and every other specifier finds what it found before.
pub proof fn law_insert_then_get(
    set: Seq<(Seq<char>, InterfaceModel)>,
    specifier: Seq<char>,
    interface: InterfaceModel,
)
    requires
        ordered(set),
    ensures
        lookup(put(set, specifier, interface), specifier) == Some(interface),
        forall|other: Seq<char>|
            other != specifier ==> #[trigger] lookup(put(set, specifier, interface), other)
                == lookup(set, other),
{
    lemma_put(set, specifier, interface);
}

/// What a check can require from a catalog: each requireable interface, under
/// its specifier and with the source that was generated for the checker, and
/// nothing else.
pub proof fn law_requireable_interfaces_are_visible(
    e: Seq<(Seq<char>, InterfaceModel)>,
    i: int,
    k: int,
)
    requires
        catalog(e),
    ensures
        0 <= i < e.len() && e[i].1.requireable ==> exists|m: VirtualModel| #[trigger]
            requireable_modules(e, e.len() as int).contains(m) && m.name == e[i].1.specifier
                && m.source == e[i].1.checker_source,
        0 <= k < requireable_modules(e, e.len() as int).len() ==> exists|j: int|
            0 <= j < e.len() && (#[trigger] e[j]).1.requireable && requireable_modules(
                e,
                e.len() as int,
            )[k].name == e[j].1.specifier && requireable_modules(e, e.len() as int)[k].source
                == e[j].1.checker_source,
{
    law_virtual_names_ascend(e);
    let all = requireable_modules(e, e.len() as int);
    if 0 <= i < e.len() && e[i].1.requireable {
        assert(all.contains(as_virtual(e[i].1)));
    }
    if 0 <= k < all.len() {
        assert(all.contains(all[k]));
    }
}

/// A declaration is kept with its specifier and its source; the checker sees
/// what its schema declares, and it can be required where it has a root. An
/// implementation is seen as it is written, and can always be required.
pub proof fn law_interfaces_keep_their_source(
    specifier: Seq<char>,
    source: Seq<char>,
    schema: SchemaModel,
)
    ensures
        declared(specifier, source, schema).specifier == specifier,
        declared(specifier, source, schema).source == source,
        declared(specifier, source, schema).schema == schema,
        declared(specifier, source, schema).diagnostics.len() == 0,
        declared(specifier, source, schema).checker_source == checker_text(schema, source),
        declared(specifier, source, schema).requireable <==> schema.root is Some,
        declared(specifier, source, schema).kind == ModuleInterfaceKind::Declaration,
        implemented(specifier, source).specifier == specifier,
        implemented(specifier, source).source == source,
        implemented(specifier, source).checker_source == source,
        implemented(specifier, source).diagnostics.len() == 0,
        implemented(specifier, source).requireable,
        implemented(specifier, source).kind == ModuleInterfaceKind::Implementation,
{
}

} // verus!
