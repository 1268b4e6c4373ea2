//! Path policy of filesystem-backed module resolution.
//!
//! The resolver turns a specifier into a logical path, lists the files that
//! may stand for it, and accepts a canonical file only inside the canonical
//! root. Looking at the disk is left to the caller.
use super::paths::{
    file_name, file_name_of, inside, is_inside, is_segment, law_file_name_is_last_segment,
    law_parent_drops_last_segment, law_parent_takes_back_one_name, law_pushed_segments,
    law_suffix_extends_name, lemma_empty_path, lemma_last_segment, lemma_one_segment, normalized,
    parent_path, parent_text, path_of, path_text, push_path, pushed, trim_path, trimmed_path,
    PathModel, PathText,
};
use super::{ModuleId, ModuleResolveError, ResolveFault};
use crate::resolver::in_memory::opt_id;
use crate::text::{chars_of, ends, has_prefix, has_suffix, same_text, split_on, starts, string_of, texts};
use vstd::prelude::*;
use vstd::slice::slice_subrange;
use vstd::string::*;

verus! {

/// Configured resolver root, either canonicalized early or on each use.
#[derive(Debug)]
pub enum FilesystemRoot {
    Deferred(String),
    Checked(String),
}

/// Filesystem resolver for rooted plain Luau path loading. It resolves `.luau`
/// files only, unless it is told otherwise.
#[derive(Debug)]
pub struct FilesystemResolver {
    /// Filesystem root used for relative specifiers.
    pub root: FilesystemRoot,
    /// Extensions of module files, the preferred one first.
    pub extensions: Vec<String>,
}

/// The extensions of a resolver that was not told otherwise.
fn default_extensions() -> (r: Vec<String>)
    ensures
        texts(r@) == seq!["luau"@],
{
    let mut extensions: Vec<String> = Vec::new();
    extensions.push("luau".to_owned());
    assert(texts(extensions@) =~= seq!["luau"@]);
    extensions
}

/// A canonical path of the filesystem, or why it could not be had.
pub type Canonical = Result<String, String>;

impl FilesystemResolver {
    /// Creates a resolver whose root is canonicalized when a module is
    /// resolved.
    pub fn new(root: &str) -> (r: Self)
        ensures
            r.root matches FilesystemRoot::Deferred(p) && p@ == root@,
            texts(r.extensions@) == seq!["luau"@],
    {
        FilesystemResolver {
            root: FilesystemRoot::Deferred(root.to_owned()),
            extensions: default_extensions(),
        }
    }

    /// Replaces the extensions of module files; those that come first are
    /// preferred.
    pub fn with_extensions(self, extensions: Vec<String>) -> (r: Self)
        ensures
            r.root == self.root,
            r.extensions@ == extensions@,
    {
        FilesystemResolver { root: self.root, extensions }
    }

    /// Creates a resolver from a root and what canonicalizing it gave.
    pub fn try_new(root: &str, canonical: Canonical) -> (r: Result<Self, ModuleResolveError>)
        ensures
            match canonical {
                Ok(path) => r matches Ok(f) && f.root == FilesystemRoot::Checked(path) && texts(
                    f.extensions@,
                ) == seq!["luau"@],
                Err(message) => r matches Err(e) && e@ == (ResolveFault::Read {
                    module: root@,
                    message: message@,
                }),
            },
    {
        match canonical {
            Ok(path) => Ok(
                FilesystemResolver {
                    root: FilesystemRoot::Checked(path),
                    extensions: default_extensions(),
                },
            ),
            Err(message) => Err(
                ModuleResolveError::Read { module: root.to_owned(), message },
            ),
        }
    }
}

/// Canonical resolver root.
#[derive(Debug)]
pub struct ResolvedRoot {
    pub path: String,
}

/// The path part of an `@self/...` specifier.
pub open spec fn self_path(specifier: Seq<char>) -> Option<Seq<char>> {
    if !starts(specifier, "@self"@) {
        None
    } else {
        let rest = specifier.skip(5);
        if rest.len() == 0 {
            Some(rest)
        } else if rest[0] == '/' {
            Some(rest.skip(1))
        } else {
            None
        }
    }
}

/// Reads the path part of an `@self/...` specifier.
fn self_relative_path(specifier: &str) -> (r: Option<String>)
    ensures
        match r {
            Some(p) => self_path(specifier@) == Some(p@),
            None => self_path(specifier@) is None,
        },
{
    proof {
        reveal_strlit("@self");
    }
    let chars: Vec<char> = chars_of(specifier);
    if !has_prefix(chars.as_slice(), "@self") {
        return None;
    }
    let total: usize = chars.len();
    if total == 5 {
        assert(specifier@.skip(5) =~= Seq::<char>::empty());
        return Some(String::new());
    }
    if chars[5] != '/' {
        return None;
    }
    let rest = slice_subrange(chars.as_slice(), 6, total);
    assert(rest@ =~= specifier@.skip(5).skip(1));
    Some(string_of(rest))
}

/// The directory from which a requester's specifiers are resolved: its own
/// directory, below the root where it is relative, or else the root.
pub open spec fn base_dir(root: Seq<char>, requester: Option<Seq<char>>) -> Seq<char> {
    match requester {
        Some(r) => match parent_text(r) {
            Some(parent) => pushed(root, parent),
            None => root,
        },
        None => root,
    }
}

/// The logical path of a specifier: `@self/...` is taken from the requester's
/// directory and needs one, an absolute path is kept, and any other path is
/// taken from the requester's directory.
pub open spec fn logical_of(root: Seq<char>, requester: Option<Seq<char>>, specifier: Seq<char>) -> Result<
    Seq<char>,
    ResolveFault,
> {
    match self_path(specifier) {
        Some(p) => if requester is None {
            Err(ResolveFault::NotFound(specifier))
        } else {
            Ok(pushed(base_dir(root, requester), p))
        },
        None => Ok(pushed(base_dir(root, requester), specifier)),
    }
}

impl ResolvedRoot {
    /// Returns the directory used as the base for requester-relative
    /// specifiers.
    fn requester_base_dir(&self, requester: Option<&ModuleId>) -> (r: String)
        ensures
            r@ == base_dir(self.path@, opt_id(requester)),
    {
        match requester {
            Some(requester) => match parent_path(requester.as_str()) {
                Some(parent) => push_path(self.path.as_str(), parent.as_str()),
                None => self.path.clone(),
            },
            None => self.path.clone(),
        }
    }

    /// Converts a require specifier into the logical path to probe.
    pub fn logical_path(&self, requester: Option<&ModuleId>, specifier: &str) -> (r: Result<
        String,
        ModuleResolveError,
    >)
        ensures
            match r {
                Ok(p) => logical_of(self.path@, opt_id(requester), specifier@) == Ok::<
                    Seq<char>,
                    ResolveFault,
                >(p@),
                Err(e) => logical_of(self.path@, opt_id(requester), specifier@) == Err::<
                    Seq<char>,
                    ResolveFault,
                >(e@),
            },
    {
        if let Some(path) = self_relative_path(specifier) {
            if requester.is_none() {
                return Err(ModuleResolveError::NotFound(specifier.to_owned()));
            }
            return Ok(push_path(self.requester_base_dir(requester).as_str(), path.as_str()));
        }
        Ok(push_path(self.requester_base_dir(requester).as_str(), specifier))
    }

    /// Accepts the canonical form of a selected file only inside the root.
    pub fn canonicalize_child(&self, canonical: Canonical, specifier: &str) -> (r: Result<
        String,
        ModuleResolveError,
    >)
        ensures
            match canonical {
                Err(message) => r matches Err(e) && e@ == (ResolveFault::Read {
                    module: specifier@,
                    message: message@,
                }),
                Ok(path) => if inside(path@, self.path@) {
                    r == Ok::<String, ModuleResolveError>(path)
                } else {
                    r matches Err(e) && e@ == (ResolveFault::OutsideRoot { specifier: specifier@ })
                },
            },
    {
        match canonical {
            Err(message) => Err(
                ModuleResolveError::Read { module: specifier.to_owned(), message },
            ),
            Ok(path) => {
                if is_inside(path.as_str(), self.path.as_str()) {
                    Ok(path)
                } else {
                    Err(ModuleResolveError::OutsideRoot { specifier: specifier.to_owned() })
                }
            },
        }
    }
}

impl FilesystemRoot {
    /// The canonical root, given what canonicalizing a deferred root gave.
    pub fn resolve(&self, canonical: Canonical) -> (r: Result<ResolvedRoot, ModuleResolveError>)
        ensures
            match self {
                FilesystemRoot::Checked(path) => r matches Ok(root) && root.path@ == path@,
                FilesystemRoot::Deferred(path) => match canonical {
                    Ok(c) => r matches Ok(root) && root.path == c,
                    Err(message) => r matches Err(e) && e@ == (ResolveFault::Read {
                        module: path@,
                        message: message@,
                    }),
                },
            },
    {
        match self {
            FilesystemRoot::Checked(path) => Ok(ResolvedRoot { path: path.clone() }),
            FilesystemRoot::Deferred(path) => match canonical {
                Ok(c) => Ok(ResolvedRoot { path: c }),
                Err(message) => Err(
                    ModuleResolveError::Read { module: path.clone(), message },
                ),
            },
        }
    }
}

/// Whether a file name has an extension.
pub open spec fn has_extension(name: Seq<char>, extension: Seq<char>) -> bool {
    name.len() > extension.len() + 1 && ends(name, "."@ + extension)
}

/// Whether a file name has one of some extensions.
pub open spec fn has_some_extension(name: Seq<char>, extensions: Seq<Seq<char>>) -> bool {
    exists|i: int| 0 <= i < extensions.len() && has_extension(name, #[trigger] extensions[i])
}

/// A file that may stand for a module.
#[verifier::ext_equal]
pub struct CandidateModel {
    /// The file itself.
    pub path: Seq<char>,
    /// A path that must be a directory for the file to be considered.
    pub directory: Option<Seq<char>>,
}

/// The path with each extension appended to its name.
pub open spec fn extended(p: Seq<char>, extensions: Seq<Seq<char>>) -> Seq<CandidateModel> {
    extensions.map_values(
        |e: Seq<char>| CandidateModel { path: trimmed_path(p) + "."@ + e, directory: None },
    )
}

/// The init files in a path that is a directory.
pub open spec fn init_files(p: Seq<char>, extensions: Seq<Seq<char>>) -> Seq<CandidateModel> {
    extensions.map_values(
        |e: Seq<char>| CandidateModel { path: pushed(p, "init."@ + e), directory: Some(p) },
    )
}

/// The files that may stand for a logical path, best first: the path itself
/// where it has one of the extensions, the path with an extension appended
/// unless it is named `init`, and an init file in it where it is a directory.
pub open spec fn candidates_of(p: Seq<char>, extensions: Seq<Seq<char>>) -> Seq<CandidateModel> {
    (match file_name(p) {
        Some(name) if has_some_extension(name, extensions) => seq![
            CandidateModel { path: p, directory: None },
        ],
        _ => Seq::empty(),
    }) + (match file_name(p) {
        Some(name) if name != "init"@ => extended(p, extensions),
        _ => Seq::empty(),
    }) + init_files(p, extensions)
}

/// A file that may stand for a module, as texts.
#[derive(Debug)]
pub struct Candidate {
    /// The file itself.
    pub path: String,
    /// A path that must be a directory for the file to be considered.
    pub directory: Option<String>,
}

impl Candidate {
    pub open spec fn view(&self) -> CandidateModel {
        CandidateModel {
            path: self.path@,
            directory: match self.directory {
                Some(d) => Some(d@),
                None => None,
            },
        }
    }
}

/// Tests whether a file name has one of some extensions.
fn has_listed_extension(name: &str, extensions: &Vec<String>) -> (r: bool)
    ensures
        r == has_some_extension(name@, texts(extensions@)),
{
    let chars: Vec<char> = chars_of(name);
    let mut i: usize = 0;
    while i < extensions.len()
        invariant
            i <= extensions.len(),
            chars@ == name@,
            forall|k: int|
                0 <= k < i ==> !has_extension(name@, #[trigger] texts(extensions@)[k]),
        decreases extensions.len() - i,
    {
        let dotted = ".".to_owned().concat(extensions[i].as_str());
        let width: usize = chars_of(dotted.as_str()).len();
        proof {
            reveal_strlit(".");
            assert(texts(extensions@)[i as int] == extensions@[i as int]@);
        }
        if chars.len() > width && has_suffix(chars.as_slice(), dotted.as_str()) {
            return true;
        }
        i += 1;
    }
    false
}

/// Lists the files that may stand for a logical path, best first.
pub fn module_candidates(path: &str, extensions: &Vec<String>) -> (r: Vec<Candidate>)
    ensures
        r@.map_values(|c: Candidate| c@) == candidates_of(path@, texts(extensions@)),
{
    let mut out: Vec<Candidate> = Vec::new();
    let ghost p = path@;
    let ghost all = texts(extensions@);
    let ghost view = |c: Candidate| c@;
    let named = file_name_of(path);
    let mut plain = false;
    if let Some(name) = &named {
        if has_listed_extension(name.as_str(), extensions) {
            out.push(Candidate { path: path.to_owned(), directory: None });
        }
        plain = !same_text(name.as_str(), "init");
    }
    let ghost first = out@.map_values(view);
    proof {
        assert(first =~= (match file_name(p) {
            Some(name) if has_some_extension(name, all) => seq![
                CandidateModel { path: p, directory: None },
            ],
            _ => Seq::empty(),
        }));
    }
    let ghost mut second = Seq::<CandidateModel>::empty();
    if plain {
        let stem = trim_path(path);
        let ghost wanted = extended(p, all);
        let mut i: usize = 0;
        assert(first + wanted.take(0) =~= first);
        while i < extensions.len()
            invariant
                i <= extensions.len(),
                all == texts(extensions@),
                stem@ == trimmed_path(p),
                wanted == extended(p, all),
                view == (|c: Candidate| c@),
                out@.map_values(view) == first + wanted.take(i as int),
            decreases extensions.len() - i,
        {
            let ghost before = out@;
            let candidate = Candidate {
                path: stem.clone().concat(".").concat(extensions[i].as_str()),
                directory: None,
            };
            assert(all[i as int] == extensions@[i as int]@);
            out.push(candidate);
            assert(out@.map_values(view) =~= before.map_values(view).push(candidate@));
            assert(first + wanted.take(i + 1) =~= (first + wanted.take(i as int)).push(
                wanted[i as int],
            ));
            i += 1;
        }
        assert(wanted.take(i as int) =~= wanted);
        proof {
            second = wanted;
        }
    }
    assert(out@.map_values(view) =~= first + second);
    let ghost wanted = init_files(p, all);
    let mut i: usize = 0;
    assert(first + second + wanted.take(0) =~= first + second);
    while i < extensions.len()
        invariant
            i <= extensions.len(),
            all == texts(extensions@),
            p == path@,
            wanted == init_files(p, all),
            view == (|c: Candidate| c@),
            out@.map_values(view) == first + second + wanted.take(i as int),
        decreases extensions.len() - i,
    {
        let ghost before = out@;
        let file = "init.".to_owned().concat(extensions[i].as_str());
        let candidate = Candidate {
            path: push_path(path, file.as_str()),
            directory: Some(path.to_owned()),
        };
        assert(all[i as int] == extensions@[i as int]@);
        out.push(candidate);
        assert(out@.map_values(view) =~= before.map_values(view).push(candidate@));
        assert(first + second + wanted.take(i + 1) =~= (first + second + wanted.take(
            i as int,
        )).push(wanted[i as int]));
        i += 1;
    }
    assert(wanted.take(i as int) =~= wanted);
    out
}

/// The first of `n` candidates that is there.
pub open spec fn first_found(found: Seq<bool>, i: int, n: int) -> Option<int>
    decreases n - i,
{
    if i >= n {
        None
    } else if found[i] {
        Some(i)
    } else {
        first_found(found, i + 1, n)
    }
}

/// Picks the first candidate that was found and normalises its path; where
/// there is none, the specifier is not found.
pub fn select_candidate(candidates: &Vec<Candidate>, found: &Vec<bool>, specifier: &str) -> (r:
    Result<String, ModuleResolveError>)
    requires
        candidates@.len() == found@.len(),
    ensures
        match first_found(found@, 0, found@.len() as int) {
            Some(i) => r matches Ok(p) && 0 <= i < candidates@.len() && p@ == path_text(
                normalized(path_of(candidates@[i]@.path)),
            ),
            None => r matches Err(e) && e@ == ResolveFault::NotFound(specifier@),
        },
{
    let mut i: usize = 0;
    while i < found.len()
        invariant
            i <= found.len(),
            candidates@.len() == found@.len(),
            first_found(found@, i as int, found@.len() as int) == first_found(
                found@,
                0,
                found@.len() as int,
            ),
        decreases found.len() - i,
    {
        if found[i] {
            return Ok(PathText::parse(candidates[i].path.as_str()).normalize().text());
        }
        i += 1;
    }
    Err(ModuleResolveError::NotFound(specifier.to_owned()))
}

/// No canonical path that is accepted lies outside of the root: it has all
/// segments of the root first, and it is absolute where the root is.
pub proof fn law_accepted_stays_inside(path: Seq<char>, root: Seq<char>)
    requires
        inside(path, root),
    ensures
        path_of(root).absolute ==> path_of(path).absolute,
        path_of(root).segments.len() <= path_of(path).segments.len(),
        forall|i: int|
            0 <= i < path_of(root).segments.len() ==> (#[trigger] path_of(path).segments[i])
                == path_of(root).segments[i],
{
    reveal_strlit("/");
    reveal_strlit(".");
    reveal_strlit("");
    let p = path_of(path).segments;
    let q = path_of(root).segments;
    assert("/"@[0] == '/' && "."@[0] == '.' && ""@.len() == 0);
    assert forall|i: int| 0 <= i < q.len() implies (#[trigger] p[i]) == q[i] by {
        assert(p.take(q.len() as int)[i] == p[i]);
    }
}

/// Which specifiers ask for the requester's own directory: `@self`, and what
/// starts with `@self/`; the path is what follows.
proof fn lemma_self_path(specifier: Seq<char>)
    ensures
        self_path(specifier) is Some <==> specifier == "@self"@ || starts(specifier, "@self/"@),
        self_path("@self/"@ + specifier) == Some(specifier),
        self_path("@self"@) == Some(Seq::<char>::empty()),
{
    reveal_strlit("@self");
    reveal_strlit("@self/");
    let short = "@self"@;
    let long = "@self/"@;
    assert(long.take(5) =~= short);
    assert(short.take(5) =~= short);
    assert(short.skip(5) =~= Seq::<char>::empty());
    let whole = long + specifier;
    assert(whole.take(5) =~= short);
    assert(whole.skip(5)[0] == '/');
    assert(whole.skip(5).skip(1) =~= specifier);
    if starts(specifier, short) && specifier.len() > 5 && specifier[5] == '/' {
        assert(specifier.take(6) =~= long) by {
            assert forall|k: int| 0 <= k < 6 implies specifier.take(6)[k] == long[k] by {
                if k < 5 {
                    assert(specifier.take(5)[k] == short[k]);
                }
            }
        }
    }
    if starts(specifier, long) {
        assert(specifier.take(5) =~= short) by {
            assert forall|k: int| 0 <= k < 5 implies specifier.take(5)[k] == short[k] by {
                assert(specifier.take(6)[k] == long[k]);
            }
        }
        assert(specifier[5] == specifier.take(6)[5]);
        assert(specifier.skip(5)[0] == specifier[5]);
    }
    if starts(specifier, short) && specifier.len() == 5 {
        assert(specifier.take(5) =~= specifier);
    }
    if starts(specifier, short) && specifier.len() > 5 {
        assert(specifier.skip(5)[0] == specifier[5]);
    }
}

/// A relative specifier is looked up beside the module that asks for it: the
/// segments of its logical path are those of the requester's directory and
/// those of the specifier. A relative requester lies below the root, and
/// without a requester the root is the directory.
pub proof fn law_specifier_is_taken_beside_requester(
    root: Seq<char>,
    requester: Seq<char>,
    specifier: Seq<char>,
)
    requires
        !path_of(specifier).absolute,
        specifier != "@self"@,
        !starts(specifier, "@self/"@),
    ensures
        path_of(requester).absolute && path_of(requester).segments.len() > 0 ==> (logical_of(
            root,
            Some(requester),
            specifier,
        ) matches Ok(p) && path_of(p).absolute && path_of(p).segments
            == path_of(requester).segments.drop_last() + path_of(specifier).segments),
        !path_of(requester).absolute && path_of(requester).segments.len() > 0 ==> (logical_of(
            root,
            Some(requester),
            specifier,
        ) matches Ok(p) && path_of(p).segments == path_of(root).segments
            + path_of(requester).segments.drop_last() + path_of(specifier).segments && (
        path_of(root).absolute ==> path_of(p).absolute)),
        path_of(requester).segments.len() == 0 ==> (logical_of(
            root,
            Some(requester),
            specifier,
        ) matches Ok(p) && path_of(p).segments == path_of(root).segments
            + path_of(specifier).segments),
        logical_of(root, None, specifier) matches Ok(p) && path_of(p).segments
            == path_of(root).segments + path_of(specifier).segments && (path_of(root).absolute
            ==> path_of(p).absolute),
{
    lemma_self_path(specifier);
    law_parent_drops_last_segment(requester);
    law_pushed_segments(root, specifier);
    if path_of(requester).segments.len() > 0 {
        let dir = parent_text(requester)->0;
        if !path_of(dir).absolute {
            law_pushed_segments(root, dir);
        }
        let base = base_dir(root, Some(requester));
        law_pushed_segments(base, specifier);
        if base.len() > 0 {
            assert(pushed(base, specifier)[0] == base[0]);
        }
    }
    if root.len() > 0 {
        assert(pushed(root, specifier)[0] == root[0]);
    }
    if path_of(requester).segments.len() == 0 {
        reveal_strlit("");
        let none = Seq::<char>::empty();
        lemma_empty_path(none);
        law_pushed_segments(root, none);
        lemma_no_directory(requester);
        let base = base_dir(root, Some(requester));
        law_pushed_segments(base, specifier);
        assert(path_of(root).segments + path_of(none).segments =~= path_of(root).segments);
    }
}

/// A path without segments has no directory, or an empty one.
proof fn lemma_no_directory(s: Seq<char>)
    requires
        path_of(s).segments.len() == 0,
    ensures
        parent_text(s) matches Some(d) ==> d == Seq::<char>::empty(),
{
    reveal_strlit("");
    let pieces = split_on(s, '/');
    lemma_last_segment(pieces, pieces.len() as int);
    assert(""@ =~= Seq::<char>::empty());
}

/// `@self/s` and `s` ask for the same path, `@self` alone for the directory of
/// the requester, and both are refused where nobody asks.
pub proof fn law_self_is_requester_directory(
    root: Seq<char>,
    requester: Seq<char>,
    specifier: Seq<char>,
)
    ensures
        specifier != "@self"@ && !starts(specifier, "@self/"@) ==> logical_of(
            root,
            Some(requester),
            "@self/"@ + specifier,
        ) == logical_of(root, Some(requester), specifier),
        path_of(requester).absolute && path_of(requester).segments.len() > 0 ==> (logical_of(
            root,
            Some(requester),
            "@self"@,
        ) matches Ok(p) && path_of(p).absolute && path_of(p).segments
            == path_of(requester).segments.drop_last()),
        logical_of(root, None, "@self/"@ + specifier) == Err::<Seq<char>, _>(
            ResolveFault::NotFound("@self/"@ + specifier),
        ),
        logical_of(root, None, "@self"@) == Err::<Seq<char>, _>(ResolveFault::NotFound("@self"@)),
{
    lemma_self_path(specifier);
    let none = Seq::<char>::empty();
    lemma_empty_path(none);
    if path_of(requester).absolute && path_of(requester).segments.len() > 0 {
        law_parent_drops_last_segment(requester);
        let base = base_dir(root, Some(requester));
        law_pushed_segments(base, none);
        assert(pushed(base, none)[0] == base[0]);
        assert(path_of(base).segments + path_of(none).segments =~= path_of(base).segments);
    }
}

/// An absolute specifier is its own logical path, whoever asks for it.
pub proof fn law_absolute_specifier_is_kept(
    root: Seq<char>,
    requester: Option<Seq<char>>,
    specifier: Seq<char>,
)
    requires
        path_of(specifier).absolute,
    ensures
        logical_of(root, requester, specifier) == Ok::<_, ResolveFault>(specifier),
{
    reveal_strlit("@self");
    reveal_strlit("@self/");
    lemma_self_path(specifier);
    if starts(specifier, "@self/"@) {
        assert(specifier.take(6)[0] == specifier[0]);
    }
}

/// The files that are tried for a module without an extension: beside its
/// path, the name with each extension, in their order, and behind them, in a
/// directory of that name, `init` with each extension.
pub proof fn law_candidates_stand_beside_path(p: Seq<char>, extensions: Seq<Seq<char>>, i: int)
    requires
        path_of(p).segments.len() > 0,
        path_of(p).segments.last() != ".."@,
        path_of(p).segments.last() != "init"@,
        forall|k: int|
            0 <= k < extensions.len() ==> !has_extension(
                path_of(p).segments.last(),
                #[trigger] extensions[k],
            ),
        0 <= i < extensions.len(),
        forall|k: int| 0 <= k < extensions[i].len() ==> #[trigger] extensions[i][k] != '/',
    ensures
        candidates_of(p, extensions).len() == 2 * extensions.len(),
        candidates_of(p, extensions)[i].directory is None,
        path_of(candidates_of(p, extensions)[i].path).segments
            == path_of(p).segments.drop_last().push(
            path_of(p).segments.last() + "."@ + extensions[i],
        ),
        path_of(candidates_of(p, extensions)[i].path).absolute == path_of(p).absolute,
        candidates_of(p, extensions)[extensions.len() + i].directory == Some(p),
        path_of(candidates_of(p, extensions)[extensions.len() + i].path).segments
            == path_of(p).segments.push("init."@ + extensions[i]),
{
    reveal_strlit(".");
    reveal_strlit("init.");
    let name = path_of(p).segments.last();
    let e = extensions[i];
    law_file_name_is_last_segment(p);
    assert(file_name(p) == Some(name));
    assert(!has_some_extension(name, extensions));
    let suffix = "."@ + e;
    assert forall|k: int| 0 <= k < suffix.len() implies #[trigger] suffix[k] != '/' by {
        if k > 0 {
            assert(suffix[k] == e[k - 1]);
        }
    }
    law_suffix_extends_name(p, suffix);
    assert(trimmed_path(p) + "."@ + e =~= trimmed_path(p) + suffix);
    assert(name + "."@ + e =~= name + suffix);
    let init = "init."@ + e;
    assert forall|k: int| 0 <= k < init.len() implies #[trigger] init[k] != '/' by {
        if k >= 5 {
            assert(init[k] == e[k - 5]);
        }
    }
    law_pushed_segments(p, init);
    lemma_one_segment(init);
    assert(path_of(p).segments + seq![init] =~= path_of(p).segments.push(init));
}

/// A module that names its extension is tried as it stands before any other
/// file.
pub proof fn law_named_file_comes_first(p: Seq<char>, extensions: Seq<Seq<char>>, k: int)
    requires
        path_of(p).segments.len() > 0,
        path_of(p).segments.last() != ".."@,
        0 <= k < extensions.len(),
        has_extension(path_of(p).segments.last(), extensions[k]),
    ensures
        candidates_of(p, extensions)[0].path == p,
        candidates_of(p, extensions)[0].directory is None,
{
    law_file_name_is_last_segment(p);
}

/// The candidate that is picked is the first one that is there: it was found,
/// and none in front of it was. Nothing is picked only where none was found.
pub proof fn law_first_found_is_picked(found: Seq<bool>, i: int)
    requires
        0 <= i <= found.len(),
    ensures
        first_found(found, i, found.len() as int) matches Some(k) ==> i <= k < found.len()
            && found[k] && forall|l: int| i <= l < k ==> !#[trigger] found[l],
        first_found(found, i, found.len() as int) is None <==> forall|l: int|
            i <= l < found.len() ==> !#[trigger] found[l],
    decreases found.len() - i,
{
    if i < found.len() && !found[i] {
        law_first_found_is_picked(found, i + 1);
    }
}

/// A file beside the module that asks for it is what a relative specifier
/// finds: its path is the requester's directory and the specifier, with the
/// preferred extension behind the name.
pub proof fn law_module_beside_requester_is_found(
    root: Seq<char>,
    requester: Seq<char>,
    specifier: Seq<char>,
    extensions: Seq<Seq<char>>,
    logical: Seq<char>,
)
    requires
        path_of(requester).absolute,
        path_of(requester).segments.len() > 0,
        forall|k: int|
            0 <= k < path_of(requester).segments.len() ==> #[trigger] path_of(
                requester,
            ).segments[k] != ".."@,
        !path_of(specifier).absolute,
        specifier != "@self"@,
        !starts(specifier, "@self/"@),
        path_of(specifier).segments.len() > 0,
        forall|k: int|
            0 <= k < path_of(specifier).segments.len() ==> #[trigger] path_of(
                specifier,
            ).segments[k] != ".."@,
        path_of(specifier).segments.last() != "init"@,
        extensions.len() > 0,
        forall|k: int|
            0 <= k < extensions.len() ==> !has_extension(
                path_of(specifier).segments.last(),
                #[trigger] extensions[k],
            ),
        forall|k: int| 0 <= k < extensions[0].len() ==> #[trigger] extensions[0][k] != '/',
        logical_of(root, Some(requester), specifier) == Ok::<_, ResolveFault>(logical),
    ensures
        normalized(path_of(candidates_of(logical, extensions)[0].path)).absolute,
        normalized(path_of(candidates_of(logical, extensions)[0].path)).segments
            == path_of(requester).segments.drop_last() + path_of(
            specifier,
        ).segments.drop_last().push(
            path_of(specifier).segments.last() + "."@ + extensions[0],
        ),
{
    law_specifier_is_taken_beside_requester(root, requester, specifier);
    let dir = path_of(requester).segments.drop_last();
    let own = path_of(specifier).segments;
    let all = path_of(logical).segments;
    assert(all == dir + own);
    assert(all.last() == own.last());
    law_candidates_stand_beside_path(logical, extensions, 0);
    let name = own.last() + "."@ + extensions[0];
    let path = path_of(candidates_of(logical, extensions)[0].path);
    let rest = own.drop_last().push(name);
    assert(all.drop_last().push(name) =~= dir + rest);
    reveal_strlit("..");
    reveal_strlit(".");
    lemma_segments_not_empty(specifier);
    assert(own[own.len() - 1] != ".."@);
    assert(name != ".."@) by {
        if name == ".."@ {
            assert(name.len() == own.last().len() + "."@.len() + extensions[0].len());
            assert(name.len() == ".."@.len());
            assert(own.last()[0] == name[0]);
            assert(own.last() =~= "."@);
        }
    }
    assert forall|k: int| 0 <= k < rest.len() implies #[trigger] rest[k] != ".."@ by {
        if k < own.len() - 1 {
            assert(rest[k] == own[k]);
        }
    }
    assert forall|k: int| 0 <= k < dir.len() implies #[trigger] dir[k] != ".."@ by {
        assert(dir[k] == path_of(requester).segments[k]);
    }
    law_parent_takes_back_one_name(path.absolute, dir, own.last(), rest);
    assert(path == (PathModel { absolute: path.absolute, segments: dir + rest }));
}

/// The last segment of a path is a segment.
proof fn lemma_segments_not_empty(s: Seq<char>)
    requires
        path_of(s).segments.len() > 0,
    ensures
        is_segment(path_of(s).segments.last()),
{
    let pieces = split_on(s, '/');
    lemma_last_segment(pieces, pieces.len() as int);
}

/// A path that is named `init` stands for a directory alone: no extension is
/// put behind the name, and only the init files in it are tried.
pub proof fn law_init_is_not_extended(p: Seq<char>, extensions: Seq<Seq<char>>)
    requires
        path_of(p).segments.len() > 0,
        path_of(p).segments.last() == "init"@,
        forall|k: int|
            0 <= k < extensions.len() ==> !has_extension("init"@, #[trigger] extensions[k]),
    ensures
        candidates_of(p, extensions).len() == extensions.len(),
        forall|i: int|
            0 <= i < extensions.len() ==> (#[trigger] candidates_of(p, extensions)[i]).directory
                == Some(p),
{
    reveal_strlit("init");
    reveal_strlit("..");
    assert("init"@.len() != ".."@.len());
    law_file_name_is_last_segment(p);
    assert(file_name(p) == Some("init"@));
}

} // verus!
