//! In-memory module resolution.
use super::paths::{
    below, law_parent_takes_back_one_name, normalized, parent_of, path_of, path_text, PathModel,
    PathText,
};
use super::{ModuleId, ModuleResolveError, ModuleSource, ModuleSourceKind, ResolveFault, SourceModel};
use crate::sorted::{
    lemma_mapped, lemma_put, lemma_same_keys, lookup, mapped, ordered, put, SortedMap,
};
use crate::text::{chars_of, has_prefix, starts};
use vstd::prelude::*;
use vstd::string::*;

verus! {

/// In-memory resolver for tests and embedders.
#[derive(Debug)]
pub struct InMemoryResolver {
    /// Source text by module id.
    pub modules: SortedMap<String>,
}

/// Whether a specifier is relative to its requester.
pub open spec fn is_relative(specifier: Seq<char>) -> bool {
    starts(specifier, "./"@) || starts(specifier, "../"@)
}

/// The id that a specifier names: itself, or, where it is relative, its place
/// next to the requester. A relative specifier without a requester names
/// nothing.
pub open spec fn named_id(requester: Option<Seq<char>>, specifier: Seq<char>) -> Option<Seq<char>> {
    if !is_relative(specifier) {
        Some(specifier)
    } else {
        match requester {
            None => None,
            Some(r) => Some(
                path_text(
                    normalized(
                        below(
                            match parent_of(path_of(r)) {
                                Some(p) => p,
                                None => PathModel { absolute: false, segments: Seq::empty() },
                            },
                            path_of(specifier),
                        ),
                    ),
                ),
            ),
        }
    }
}

/// The text of an optional module id.
pub open spec fn opt_id(id: Option<&ModuleId>) -> Option<Seq<char>> {
    match id {
        Some(i) => Some(i@),
        None => None,
    }
}

impl InMemoryResolver {
    /// Source text by module id, in id order.
    pub open spec fn view(&self) -> Seq<(Seq<char>, Seq<char>)> {
        mapped(self.modules@, |s: String| s@)
    }

    /// The ids stand in order.
    pub open spec fn wf(&self) -> bool {
        self.modules.wf()
    }

    /// Creates an empty in-memory resolver.
    pub fn new() -> (r: Self)
        ensures
            r.wf(),
            r@ == Seq::<(Seq<char>, Seq<char>)>::empty(),
    {
        let r = InMemoryResolver { modules: SortedMap::new() };
        assert(r@ =~= Seq::<(Seq<char>, Seq<char>)>::empty());
        r
    }

    /// Inserts a module by id and returns the previous source for that id.
    pub fn insert_module(&mut self, id: &str, source: &str) -> (r: Option<String>)
        requires
            old(self).wf(),
        ensures
            final(self).wf(),
            final(self)@ == put(old(self)@, id@, source@),
            match r {
                Some(s) => lookup(old(self)@, id@) == Some(s@),
                None => lookup(old(self)@, id@) is None,
            },
    {
        let text = source.to_owned();
        proof {
            lemma_mapped(self.modules@, |s: String| s@, id@, text);
        }
        self.modules.insert(id.to_owned(), text)
    }

    /// Inserts a module by id, discarding a previous source.
    pub fn with_module(self, id: &str, source: &str) -> (r: Self)
        requires
            self.wf(),
        ensures
            r.wf(),
            r@ == put(self@, id@, source@),
    {
        let mut r = self;
        r.insert_module(id, source);
        r
    }

    /// Resolves a specifier from an optional requesting module.
    pub fn resolve(&self, requester: Option<&ModuleId>, specifier: &str) -> (r: Result<
        ModuleSource,
        ModuleResolveError,
    >)
        requires
            self.wf(),
        ensures
            match named_id(opt_id(requester), specifier@) {
                None => r matches Err(e) && e@ == ResolveFault::NotFound(specifier@),
                Some(id) => match lookup(self@, id) {
                    None => r matches Err(e) && e@ == ResolveFault::NotFound(id),
                    Some(source) => r matches Ok(m) && m@ == (SourceModel {
                        id,
                        source,
                        path: None,
                        kind: ModuleSourceKind::Executable,
                    }),
                },
            },
    {
        let chars: Vec<char> = chars_of(specifier);
        let id = if has_prefix(chars.as_slice(), "./") || has_prefix(chars.as_slice(), "../") {
            let requester = match requester {
                Some(requester) => requester,
                None => {
                    return Err(ModuleResolveError::NotFound(specifier.to_owned()));
                },
            };
            let parent = match PathText::parse(requester.as_str()).parent() {
                Some(parent) => parent,
                None => PathText { absolute: false, segments: Vec::new() },
            };
            assert(parent_of(path_of(requester@)) is None ==> parent@.segments =~= Seq::empty());
            ModuleId {
                label: parent.join(PathText::parse(specifier)).normalize().text(),
            }
        } else {
            ModuleId::new(specifier)
        };
        proof {
            lemma_same_keys(self.modules@, self@, id@);
        }
        match self.modules.get(id.as_str()) {
            None => Err(ModuleResolveError::NotFound(id.label)),
            Some(source) => {
                assert(lookup(self@, id@) == Some(source@));
                Ok(ModuleSource::new(id, source.clone()))
            },
        }
    }
}

impl Default for InMemoryResolver {
    fn default() -> (r: Self)
        ensures
            r.wf(),
            r@ == Seq::<(Seq<char>, Seq<char>)>::empty(),
    {
        Self::new()
    }
}

/// A specifier that is not relative names the module of that id, whoever asks.
/// A relative one names the module beside the requester: its segments behind
/// those of the requester's directory, with one directory taken back for a
/// leading `..`. Without a requester it names nothing.
pub proof fn law_named_ids(
    requester: Seq<char>,
    specifier: Seq<char>,
    names: Seq<Seq<char>>,
    dir: Seq<Seq<char>>,
    last: Seq<char>,
)
    requires
        path_of(requester).segments.len() > 0,
        forall|k: int| 0 <= k < dir.len() ==> #[trigger] dir[k] != ".."@,
        forall|k: int| 0 <= k < names.len() ==> #[trigger] names[k] != ".."@,
        last != ".."@,
    ensures
        !is_relative(specifier) ==> named_id(Some(requester), specifier) == Some(specifier)
            && named_id(None, specifier) == Some(specifier),
        is_relative(specifier) ==> named_id(None, specifier) is None,
        is_relative(specifier) && path_of(specifier).segments == names
            && path_of(requester).segments.drop_last() == dir ==> named_id(
            Some(requester),
            specifier,
        ) == Some(
            path_text(
                (PathModel { absolute: path_of(requester).absolute, segments: dir + names }),
            ),
        ),
        is_relative(specifier) && path_of(specifier).segments == seq![".."@] + names
            && path_of(requester).segments.drop_last() == dir.push(last) ==> named_id(
            Some(requester),
            specifier,
        ) == Some(
            path_text(
                (PathModel { absolute: path_of(requester).absolute, segments: dir + names }),
            ),
        ),
{
    reveal_strlit("./");
    reveal_strlit("../");
    law_parent_takes_back_one_name(path_of(requester).absolute, dir, last, names);
    if is_relative(specifier) {
        assert(specifier.take(2)[0] == specifier[0] || specifier.take(3)[0] == specifier[0]);
        assert(!path_of(specifier).absolute) by {
            if starts(specifier, "./"@) {
                assert(specifier.take(2)[0] == '.');
            } else {
                assert(specifier.take(3)[0] == '.');
            }
        }
        assert(dir.push(last) + (seq![".."@] + names) =~= dir.push(last).push(".."@) + names);
    }
}

/// A module that was inserted is found under its id, and every other module
/// stays what it was.
pub proof fn law_inserted_module_is_found(
    modules: Seq<(Seq<char>, Seq<char>)>,
    id: Seq<char>,
    source: Seq<char>,
    other: Seq<char>,
)
    requires
        ordered(modules),
    ensures
        lookup(put(modules, id, source), id) == Some(source),
        other != id ==> lookup(put(modules, id, source), other) == lookup(modules, other),
{
    lemma_put(modules, id, source);
}

} // verus!
