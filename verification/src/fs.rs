//! Filesystem-backed module sources and configuration files.
//!
//! Portable module names cannot escape the root. The functions here decide
//! which files to look at and what was found; reading is left to the caller.
use crate::fs::config::{luaurc_of, parse_luaurc, AnalysisSettings, SettingsModel};
use crate::fs::config_luau::{parse_config_luau, parsed_settings, ParsedFile};
use crate::resolver::paths::{
    file_name, file_name_of, inside, is_segment, law_pushed_segments, law_suffix_extends_name, lead,
    lemma_empty_path, lemma_one_segment, lemma_segments_prefix, lemma_split_concat, path_of,
    push_path, pushed, remainder, segments_of, strip_root, trimmed_path,
};
use crate::text::{
    chars_of, decimal, decimal_text, ends, has_suffix, join, join_texts, same_text, split_from,
    split_on, split_ranges, string_of, texts, utf8_fault, utf8_text,
};
use vstd::prelude::*;
use vstd::slice::slice_subrange;
use vstd::string::*;
use vstd::utf8::{decode_utf8, encode_utf8, valid_utf8};

pub mod config;
pub mod config_luau;

verus! {

/// Default byte cap for one filesystem-backed source or config file.
pub const DEFAULT_MAX_READ_BYTES: usize = 16777216;

/// Why a module or a configuration could not be resolved.
#[derive(Debug)]
pub enum ResolverError {
    /// A module name leads out of the root.
    ModuleEscapesRoot { module: String },
    /// An init file was named directly.
    InitFileRequiredDirectly { module: String },
    /// No file stands for the module.
    MissingModule { module: String, searched: String },
    /// More than one file stands for the module.
    AmbiguousModule { module: String, searched: String },
    /// A directory holds two configuration files.
    ConfigAmbiguity { directory: String },
    /// A configuration file cannot be understood.
    ConfigError { path: String, detail: String },
    /// A configuration names an alias that is none.
    InvalidAlias { alias: String, source: String },
    /// A file could not be read.
    Io { path: String, detail: String },
    /// A relative request has no module to start from.
    UnresolvableRelativeRequest { request: String },
}

/// Model of a [`ResolverError`].
pub enum ResolverFault {
    ModuleEscapesRoot { module: Seq<char> },
    InitFileRequiredDirectly { module: Seq<char> },
    MissingModule { module: Seq<char>, searched: Seq<char> },
    AmbiguousModule { module: Seq<char>, searched: Seq<char> },
    ConfigAmbiguity { directory: Seq<char> },
    ConfigError { path: Seq<char>, detail: Seq<char> },
    InvalidAlias { alias: Seq<char>, source: Seq<char> },
    Io { path: Seq<char>, detail: Seq<char> },
    UnresolvableRelativeRequest { request: Seq<char> },
}

impl ResolverError {
    pub open spec fn view(&self) -> ResolverFault {
        match self {
            ResolverError::ModuleEscapesRoot { module } => ResolverFault::ModuleEscapesRoot {
                module: module@,
            },
            ResolverError::InitFileRequiredDirectly { module } =>
                ResolverFault::InitFileRequiredDirectly { module: module@ },
            ResolverError::MissingModule { module, searched } => ResolverFault::MissingModule {
                module: module@,
                searched: searched@,
            },
            ResolverError::AmbiguousModule { module, searched } => ResolverFault::AmbiguousModule {
                module: module@,
                searched: searched@,
            },
            ResolverError::ConfigAmbiguity { directory } => ResolverFault::ConfigAmbiguity {
                directory: directory@,
            },
            ResolverError::ConfigError { path, detail } => ResolverFault::ConfigError {
                path: path@,
                detail: detail@,
            },
            ResolverError::InvalidAlias { alias, source } => ResolverFault::InvalidAlias {
                alias: alias@,
                source: source@,
            },
            ResolverError::Io { path, detail } => ResolverFault::Io {
                path: path@,
                detail: detail@,
            },
            ResolverError::UnresolvableRelativeRequest { request } =>
                ResolverFault::UnresolvableRelativeRequest { request: request@ },
        }
    }
}

/// Whether `s` starts with a drive such as `C:`.
pub open spec fn drive_prefix(s: Seq<char>) -> bool {
    s.len() >= 2 && ('a' <= s[0] <= 'z' || 'A' <= s[0] <= 'Z') && s[1] == ':'
}

/// Whether a component of a module name leads out of its directory: a parent,
/// or a drive.
pub open spec fn escaping(component: Seq<char>) -> bool {
    component == ".."@ || ends(component, ":"@) || drive_prefix(component)
}

/// A text with backslashes as slashes.
pub open spec fn slashed(s: Seq<char>) -> Seq<char> {
    s.map_values(
        |c: char|
            if c == '\\' {
                '/'
            } else {
                c
            },
    )
}

/// Whether a module name leads out of the root: it is absolute, or a
/// component between slashes or backslashes is escaping.
pub open spec fn escapes_root(name: Seq<char>) -> bool {
    ||| name.len() > 0 && name[0] == '/'
    ||| exists|i: int|
        0 <= i < split_on(slashed(name), '/').len() && escaping(
            #[trigger] split_on(slashed(name), '/')[i],
        )
}

/// Tests for a drive prefix.
fn has_windows_drive_prefix(s: &[char]) -> (r: bool)
    ensures
        r == drive_prefix(s@),
{
    s.len() >= 2 && (('a' <= s[0] && s[0] <= 'z') || ('A' <= s[0] && s[0] <= 'Z')) && s[1] == ':'
}

/// Tests whether a module name leads out of the root.
pub fn module_name_escapes_root(module_name: &str) -> (r: bool)
    ensures
        r == escapes_root(module_name@),
{
    let chars: Vec<char> = chars_of(module_name);
    if chars.len() > 0 && chars[0] == '/' {
        return true;
    }
    let mut plain: Vec<char> = Vec::new();
    let mut k: usize = 0;
    while k < chars.len()
        invariant
            k <= chars.len(),
            chars@ == module_name@,
            plain@ == slashed(module_name@).take(k as int),
        decreases chars.len() - k,
    {
        let c = if chars[k] == '\\' {
            '/'
        } else {
            chars[k]
        };
        plain.push(c);
        assert(plain@ =~= slashed(module_name@).take(k + 1));
        k += 1;
    }
    assert(plain@ =~= slashed(module_name@));
    let ranges: Vec<(usize, usize)> = split_ranges(plain.as_slice(), '/');
    let ghost all = split_on(slashed(module_name@), '/');
    let mut i: usize = 0;
    proof {
        reveal_strlit("..");
    }
    while i < ranges.len()
        invariant
            i <= ranges.len(),
            plain@ == slashed(module_name@),
            all == split_on(slashed(module_name@), '/'),
            ranges@.len() == all.len(),
            ".."@ == seq!['.', '.'],
            !(module_name@.len() > 0 && module_name@[0] == '/'),
            forall|k: int|
                #![trigger ranges@[k]]
                0 <= k < ranges@.len() ==> ranges@[k].0 <= ranges@[k].1 <= plain@.len()
                    && plain@.subrange(ranges@[k].0 as int, ranges@[k].1 as int) == all[k],
            forall|k: int| 0 <= k < i ==> !escaping(#[trigger] all[k]),
        decreases ranges.len() - i,
    {
        let range = ranges[i];
        let piece = slice_subrange(plain.as_slice(), range.0, range.1);
        assert(piece@ == all[i as int]);
        let parent = piece.len() == 2 && piece[0] == '.' && piece[1] == '.';
        assert(parent == (piece@ == ".."@)) by {
            if parent {
                assert(piece@ =~= ".."@);
            }
        }
        if parent || has_suffix(piece, ":") || has_windows_drive_prefix(piece) {
            return true;
        }
        i += 1;
    }
    false
}

/// Whether a module name names an init module directly.
pub open spec fn direct_init(name: Seq<char>) -> bool {
    split_on(name, '/').last() == "init"@
}

/// Tests whether a module name names an init module directly.
pub fn is_direct_init_module(module_name: &str) -> (r: bool)
    ensures
        r == direct_init(module_name@),
{
    let chars: Vec<char> = chars_of(module_name);
    let ranges: Vec<(usize, usize)> = split_ranges(chars.as_slice(), '/');
    let n: usize = ranges.len();
    proof {
        crate::text::lemma_split_nonempty(module_name@, '/', 0, 0);
    }
    let range = ranges[n - 1];
    let piece = slice_subrange(chars.as_slice(), range.0, range.1);
    assert(piece@ == split_on(module_name@, '/').last());
    same_text(string_of(piece).as_str(), "init")
}

/// A module name as a path: its components with single slashes between them.
pub open spec fn name_path(name: Seq<char>) -> Seq<char> {
    let pieces = split_on(name, '/');
    join(components(pieces, pieces.len() as int), "/"@)
}

/// The place of a module below a root.
pub open spec fn module_base(root: Seq<char>, name: Seq<char>) -> Seq<char> {
    pushed(root, name_path(name))
}

/// Converts a module name to a path.
fn module_name_to_path(module_name: &str) -> (r: String)
    ensures
        r@ == name_path(module_name@),
{
    let parts = name_components(module_name);
    join_texts(&parts, "/")
}

/// Lists the components of a module name that are not empty.
fn name_components(module_name: &str) -> (r: Vec<String>)
    ensures
        ({
            let pieces = split_on(module_name@, '/');
            texts(r@) == components(pieces, pieces.len() as int)
        }),
{
    let chars: Vec<char> = chars_of(module_name);
    let ranges: Vec<(usize, usize)> = split_ranges(chars.as_slice(), '/');
    let ghost pieces = split_on(module_name@, '/');
    let mut out: Vec<String> = Vec::new();
    let mut i: usize = 0;
    assert(texts(out@) =~= Seq::empty());
    while i < ranges.len()
        invariant
            i <= ranges.len(),
            chars@ == module_name@,
            pieces == split_on(module_name@, '/'),
            ranges@.len() == pieces.len(),
            forall|k: int|
                #![trigger ranges@[k]]
                0 <= k < ranges@.len() ==> ranges@[k].0 <= ranges@[k].1 <= chars@.len()
                    && chars@.subrange(ranges@[k].0 as int, ranges@[k].1 as int) == pieces[k],
            texts(out@) == components(pieces, i as int),
        decreases ranges.len() - i,
    {
        let range = ranges[i];
        let piece = slice_subrange(chars.as_slice(), range.0, range.1);
        assert(piece@ == pieces[i as int]);
        if piece.len() > 0 {
            let ghost before = out@;
            out.push(string_of(piece));
            assert(texts(out@) =~= texts(before).push(piece@));
        }
        i += 1;
    }
    out
}

/// Whether a file name has a source extension.
pub open spec fn source_extension(name: Seq<char>) -> bool {
    (name.len() > 5 && ends(name, ".luau"@)) || (name.len() > 4 && ends(name, ".lua"@))
}

/// Whether the file name of a path has a source extension.
pub open spec fn is_source_file(p: Seq<char>) -> bool {
    file_name(p) matches Some(name) && source_extension(name)
}

/// The files that may stand for a module at `base`: the file itself where it
/// has a source extension, else the file with `.luau` or `.lua` appended; and
/// then the init files in it.
pub open spec fn source_candidates(base: Seq<char>) -> Seq<Seq<char>> {
    (if is_source_file(base) {
        seq![base]
    } else {
        seq![base + ".luau"@, base + ".lua"@]
    }) + seq![pushed(base, "init.luau"@), pushed(base, "init.lua"@)]
}

/// The files that may stand for a module of a root.
pub open spec fn module_candidates(root: Seq<char>, name: Seq<char>) -> Seq<Seq<char>> {
    source_candidates(module_base(root, name))
}

/// Tests for a source extension.
fn has_source_extension(name: &str) -> (r: bool)
    ensures
        r == source_extension(name@),
{
    let chars: Vec<char> = chars_of(name);
    (chars.len() > 5 && has_suffix(chars.as_slice(), ".luau")) || (chars.len() > 4 && has_suffix(
        chars.as_slice(),
        ".lua",
    ))
}

/// Lists the files that may stand for a module at `base`.
pub fn source_file_candidates(base: &str) -> (r: Vec<String>)
    ensures
        texts(r@) == source_candidates(base@),
{
    let mut out: Vec<String> = Vec::new();
    let source = match file_name_of(base) {
        Some(name) => has_source_extension(name.as_str()),
        None => false,
    };
    if source {
        out.push(base.to_owned());
    } else {
        out.push(base.to_owned().concat(".luau"));
        out.push(base.to_owned().concat(".lua"));
    }
    out.push(push_path(base, "init.luau"));
    out.push(push_path(base, "init.lua"));
    assert(texts(out@) =~= source_candidates(base@));
    out
}

/// A module and the file that stands for it.
#[derive(Debug)]
pub struct ResolvedSource {
    pub module: String,
    pub path: String,
}

/// Why a module name is refused before anything is looked up.
pub open spec fn name_fault(name: Seq<char>, normalized: Seq<char>) -> Option<ResolverFault> {
    if escapes_root(normalized) {
        Some(ResolverFault::ModuleEscapesRoot { module: normalized })
    } else if direct_init(normalized) {
        Some(ResolverFault::InitFileRequiredDirectly { module: name })
    } else {
        None
    }
}

/// Number of candidates among the first `n` that exist.
pub open spec fn found_count(found: Seq<bool>, n: int) -> int
    decreases n,
{
    if n <= 0 {
        0
    } else {
        found_count(found, n - 1) + (if found[n - 1] {
            1int
        } else {
            0int
        })
    }
}

/// Source of modules below a root.
#[derive(Debug)]
pub struct FilesystemSourceResolver {
    pub root: String,
    pub max_read_bytes: usize,
}

impl FilesystemSourceResolver {
    /// A resolver with the default read cap.
    pub fn new(root: &str) -> (r: Self)
        ensures
            r.root@ == root@,
            r.max_read_bytes == DEFAULT_MAX_READ_BYTES,
    {
        FilesystemSourceResolver {
            root: root.to_owned(),
            max_read_bytes: DEFAULT_MAX_READ_BYTES,
        }
    }

    /// Lists the files to probe for a module, or refuses its name.
    pub fn probe_paths(&self, name: &str, normalized: &str) -> (r: Result<
        Vec<String>,
        ResolverError,
    >)
        ensures
            match r {
                Ok(paths) => name_fault(name@, normalized@) is None && texts(paths@)
                    == module_candidates(self.root@, normalized@),
                Err(e) => name_fault(name@, normalized@) == Some(e@),
            },
    {
        if module_name_escapes_root(normalized) {
            return Err(ResolverError::ModuleEscapesRoot { module: normalized.to_owned() });
        }
        if is_direct_init_module(normalized) {
            return Err(ResolverError::InitFileRequiredDirectly { module: name.to_owned() });
        }
        let base = push_path(self.root.as_str(), module_name_to_path(normalized).as_str());
        Ok(source_file_candidates(base.as_str()))
    }

    /// Resolves a module from what probing its candidates found: exactly one
    /// file must stand for it. `found` says of each candidate whether it is a
    /// file.
    pub fn resolve_module_name(&self, name: &str, normalized: &str, found: &Vec<bool>) -> (r:
        Result<ResolvedSource, ResolverError>)
        requires
            name_fault(name@, normalized@) is None ==> found@.len() == module_candidates(
                self.root@,
                normalized@,
            ).len(),
        ensures
            match r {
                Ok(resolved) => {
                    &&& name_fault(name@, normalized@) is None
                    &&& found_count(found@, found@.len() as int) == 1
                    &&& resolved.module@ == normalized@
                    &&& exists|i: int|
                        0 <= i < found@.len() && found@[i] && resolved.path@
                            == #[trigger] module_candidates(self.root@, normalized@)[i]
                },
                Err(e) => match name_fault(name@, normalized@) {
                    Some(fault) => e@ == fault,
                    None => {
                        let searched = module_base(self.root@, normalized@);
                        if found_count(found@, found@.len() as int) == 0 {
                            e@ == (ResolverFault::MissingModule { module: name@, searched })
                        } else {
                            found_count(found@, found@.len() as int) > 1 && e@ == (
                            ResolverFault::AmbiguousModule { module: name@, searched })
                        }
                    },
                },
            },
    {
        let mut paths = match self.probe_paths(name, normalized) {
            Ok(paths) => paths,
            Err(e) => {
                return Err(e);
            },
        };
        let ghost all = module_candidates(self.root@, normalized@);
        assert(paths@.len() == all.len());
        let searched = push_path(self.root.as_str(), module_name_to_path(normalized).as_str());
        let mut chosen: usize = 0;
        let mut count: usize = 0;
        let mut i: usize = 0;
        while i < found.len()
            invariant
                i <= found.len(),
                count <= i,
                count == found_count(found@, i as int),
                count > 0 ==> chosen < i && found@[chosen as int],
            decreases found.len() - i,
        {
            if found[i] {
                if count == 0 {
                    chosen = i;
                }
                count += 1;
            }
            i += 1;
        }
        if count == 0 {
            return Err(ResolverError::MissingModule { module: name.to_owned(), searched });
        }
        if count > 1 {
            return Err(ResolverError::AmbiguousModule { module: name.to_owned(), searched });
        }
        assert(all[chosen as int] == paths@[chosen as int]@);
        let path = paths.swap_remove(chosen);
        Ok(ResolvedSource { module: normalized.to_owned(), path })
    }

    /// The name of a resolved file for diagnostics: its path below the root.
    pub fn display_name(&self, path: &str) -> (r: String)
        ensures
            r@ == display_of(self.root@, path@),
    {
        match strip_root(path, self.root.as_str()) {
            Some(rest) => rest,
            None => path.to_owned(),
        }
    }
}

/// A path below the root, or the path itself where it is elsewhere.
pub open spec fn display_of(root: Seq<char>, path: Seq<char>) -> Seq<char> {
    if inside(path, root) {
        remainder(path, root)
    } else {
        path
    }
}

/// A piece between slashes alone is a piece between slashes and backslashes, or
/// it holds a backslash. The one begins at `start`, the other at `from`.
proof fn lemma_no_parent(name: Seq<char>, start: int, mark: int, from: int, i: int)
    requires
        0 <= start <= from <= i <= name.len(),
        from == start || (start <= mark < from && name[mark] == '\\'),
        forall|k: int| from <= k < i ==> name[k] != '\\',
        forall|k: int|
            0 <= k < split_from(slashed(name), '/', from, i).len() ==> #[trigger] split_from(
                slashed(name),
                '/',
                from,
                i,
            )[k] != ".."@,
    ensures
        forall|k: int|
            0 <= k < split_from(name, '/', start, i).len() ==> #[trigger] split_from(
                name,
                '/',
                start,
                i,
            )[k] != ".."@,
    decreases name.len() - i,
{
    reveal_strlit("..");
    let s = slashed(name);
    let given = split_from(s, '/', from, i);
    let all = split_from(name, '/', start, i);
    let stop = if i >= name.len() { name.len() as int } else { i };
    let piece = name.subrange(start, stop);
    let cut = s.subrange(from, stop);
    if from != start && piece == ".."@ {
        assert(piece[mark - start] == '\\');
        assert(piece.len() == 2);
        assert(".."@[0] == '.' && ".."@[1] == '.');
    }
    if i >= name.len() {
        assert(given =~= seq![cut]);
        assert(given[0] == cut);
        assert(all =~= seq![piece]);
        if from == start && piece == ".."@ {
            assert(cut =~= piece);
        }
    } else if name[i] == '/' || name[i] == '\\' {
        let rest = split_from(s, '/', i + 1, i + 1);
        assert(given == seq![cut] + rest);
        assert(given[0] == cut);
        assert forall|k: int| 0 <= k < rest.len() implies #[trigger] rest[k] != ".."@ by {
            assert(given[k + 1] == rest[k]);
        }
        if name[i] == '/' {
            lemma_no_parent(name, i + 1, i, i + 1, i + 1);
            let later = split_from(name, '/', i + 1, i + 1);
            assert(all == seq![piece] + later);
            if from == start && piece == ".."@ {
                assert(cut =~= piece);
            }
            assert forall|k: int| 0 <= k < all.len() implies #[trigger] all[k] != ".."@ by {
                if k > 0 {
                    assert(all[k] == later[k - 1]);
                }
            }
        } else {
            lemma_no_parent(name, start, i, i + 1, i + 1);
            assert(all == split_from(name, '/', start, i + 1));
        }
    } else {
        assert(given == split_from(s, '/', from, i + 1));
        lemma_no_parent(name, start, mark, from, i + 1);
        assert(all == split_from(name, '/', start, i + 1));
    }
}

/// A piece between slashes holds no slash.
pub(crate) proof fn lemma_pieces_plain(s: Seq<char>, start: int, i: int)
    requires
        0 <= start <= i <= s.len(),
        forall|k: int| start <= k < i ==> #[trigger] s[k] != '/',
    ensures
        forall|j: int, k: int|
            #![trigger split_from(s, '/', start, i)[j][k]]
            0 <= j < split_from(s, '/', start, i).len() && 0 <= k < split_from(
                s,
                '/',
                start,
                i,
            )[j].len() ==> split_from(s, '/', start, i)[j][k] != '/',
    decreases s.len() - i,
{
    let all = split_from(s, '/', start, i);
    if i < s.len() {
        if s[i] == '/' {
            lemma_pieces_plain(s, i + 1, i + 1);
            let rest = split_from(s, '/', i + 1, i + 1);
            assert forall|j: int, k: int|
                #![trigger all[j][k]]
                0 <= j < all.len() && 0 <= k < all[j].len() implies all[j][k] != '/' by {
                if j > 0 {
                    assert(all[j] == rest[j - 1]);
                    assert(rest[j - 1][k] != '/');
                } else {
                    assert(all[0][k] == s[start + k]);
                }
            }
        } else {
            lemma_pieces_plain(s, start, i + 1);
            let same = split_from(s, '/', start, i + 1);
            assert forall|j: int, k: int|
                #![trigger all[j][k]]
                0 <= j < all.len() && 0 <= k < all[j].len() implies all[j][k] != '/' by {
                assert(same[j][k] != '/');
            }
        }
    } else {
        assert forall|j: int, k: int|
            #![trigger all[j][k]]
            0 <= j < all.len() && 0 <= k < all[j].len() implies all[j][k] != '/' by {
            assert(all[0][k] == s[start + k]);
        }
    }
}

/// A text without slashes is its own piece.
proof fn lemma_split_plain(s: Seq<char>, i: int)
    requires
        0 <= i <= s.len(),
        forall|k: int| 0 <= k < s.len() ==> #[trigger] s[k] != '/',
    ensures
        split_from(s, '/', 0, i) == seq![s],
    decreases s.len() - i,
{
    if i < s.len() {
        lemma_split_plain(s, i + 1);
    } else {
        assert(s.subrange(0, s.len() as int) =~= s);
    }
}

/// Components that were joined are the pieces of the path again.
pub(crate) proof fn lemma_split_join(parts: Seq<Seq<char>>)
    requires
        parts.len() > 0,
        forall|j: int, k: int|
            #![trigger parts[j][k]]
            0 <= j < parts.len() && 0 <= k < parts[j].len() ==> parts[j][k] != '/',
    ensures
        split_on(join(parts, "/"@), '/') == parts,
    decreases parts.len(),
{
    if parts.len() == 1 {
        assert forall|k: int| 0 <= k < parts[0].len() implies #[trigger] parts[0][k] != '/' by {}
        lemma_split_plain(parts[0], 0);
        assert(seq![parts[0]] =~= parts);
    } else {
        let head = parts.drop_last();
        assert forall|j: int, k: int|
            #![trigger head[j][k]]
            0 <= j < head.len() && 0 <= k < head[j].len() implies head[j][k] != '/' by {
            assert(parts[j][k] != '/');
        }
        lemma_split_join(head);
        lemma_split_concat(join(head, "/"@), parts.last(), 0, 0);
        assert forall|k: int| 0 <= k < parts.last().len() implies #[trigger] parts.last()[k]
            != '/' by {
            assert(parts[parts.len() - 1][k] != '/');
        }
        lemma_split_plain(parts.last(), 0);
        assert(head + seq![parts.last()] =~= parts);
    }
}

/// Each component is a piece that is not empty.
proof fn lemma_components(pieces: Seq<Seq<char>>, n: int)
    requires
        0 <= n <= pieces.len(),
    ensures
        forall|k: int|
            0 <= k < components(pieces, n).len() ==> (#[trigger] components(pieces, n)[k]).len() > 0
                && pieces.contains(components(pieces, n)[k]),
    decreases n,
{
    if n > 0 {
        lemma_components(pieces, n - 1);
        let before = components(pieces, n - 1);
        let after = components(pieces, n);
        assert forall|k: int| 0 <= k < after.len() implies (#[trigger] after[k]).len() > 0
            && pieces.contains(after[k]) by {
            if k < before.len() {
                assert(after[k] == before[k]);
            } else {
                assert(after[k] == pieces[n - 1]);
            }
        }
    }
}

/// A joined list starts with its first part.
pub(crate) proof fn lemma_join_first(parts: Seq<Seq<char>>)
    requires
        parts.len() > 0,
        parts[0].len() > 0,
    ensures
        join(parts, "/"@).len() > 0,
        join(parts, "/"@)[0] == parts[0][0],
    decreases parts.len(),
{
    if parts.len() > 1 {
        lemma_join_first(parts.drop_last());
    }
}

/// A module whose name does not escape lies below the root, and nothing in
/// its name leads up again.
pub proof fn law_module_stays_below_root(root: Seq<char>, name: Seq<char>)
    requires
        !escapes_root(name),
    ensures
        inside(module_base(root, name), root),
        forall|i: int|
            path_of(root).segments.len() <= i < path_of(module_base(root, name)).segments.len()
                ==> #[trigger] path_of(module_base(root, name)).segments[i] != ".."@,
{
    reveal_strlit("");
    let r = path_of(root).segments;
    let own = name_path(name);
    let b = path_of(module_base(root, name)).segments;
    let given = split_on(name, '/');
    let parts = components(given, given.len() as int);
    let pieces = split_on(slashed(name), '/');
    assert forall|k: int| 0 <= k < pieces.len() implies #[trigger] pieces[k] != ".."@ by {
        assert(!escaping(pieces[k]));
    }
    lemma_no_parent(name, 0, 0, 0, 0);
    lemma_components(given, given.len() as int);
    lemma_pieces_plain(name, 0, 0);
    assert forall|k: int| 0 <= k < parts.len() implies #[trigger] parts[k] != ".."@ by {
        let j = given.index_of(parts[k]);
        assert(given[j] != ".."@);
    }
    let again = split_on(own, '/');
    if parts.len() > 0 {
        assert forall|j: int, k: int|
            #![trigger parts[j][k]]
            0 <= j < parts.len() && 0 <= k < parts[j].len() implies parts[j][k] != '/' by {
            let g = given.index_of(parts[j]);
            assert(given[g][k] != '/');
        }
        lemma_split_join(parts);
        lemma_join_first(parts);
        assert(parts[0][0] != '/');
    } else {
        lemma_empty_path(own);
        reveal_strlit("..");
        assert(".."@.len() == 2);
    }
    lemma_segments_no_parent(again, again.len() as int);
    law_pushed_segments(root, own);
    assert(b.take(r.len() as int) =~= r);
    assert forall|i: int| r.len() <= i < b.len() implies #[trigger] b[i] != ".."@ by {
        assert(b[i] == path_of(own).segments[i - r.len()]);
    }
    if root.len() == 0 {
        lemma_empty_path(root);
        assert(lead(root) =~= ""@);
    }
}

proof fn lemma_segments_no_parent(pieces: Seq<Seq<char>>, n: int)
    requires
        0 <= n <= pieces.len(),
        forall|k: int| 0 <= k < pieces.len() ==> #[trigger] pieces[k] != ".."@,
    ensures
        forall|k: int|
            0 <= k < segments_of(pieces, n).len() ==> #[trigger] segments_of(pieces, n)[k] != ".."@,
    decreases n,
{
    if n > 0 {
        lemma_segments_no_parent(pieces, n - 1);
        let before = segments_of(pieces, n - 1);
        let after = segments_of(pieces, n);
        assert forall|k: int| 0 <= k < after.len() implies #[trigger] after[k] != ".."@ by {
            if k < before.len() {
                assert(after[k] == before[k]);
            } else {
                assert(after[k] == pieces[n - 1]);
            }
        }
    }
}

/// The components of a module name that are not empty, among the first `n`.
pub open spec fn components(pieces: Seq<Seq<char>>, n: int) -> Seq<Seq<char>>
    decreases n,
{
    if n <= 0 {
        Seq::empty()
    } else if pieces[n - 1].len() == 0 {
        components(pieces, n - 1)
    } else {
        components(pieces, n - 1).push(pieces[n - 1])
    }
}

/// A path with some components behind it, one after the other.
pub open spec fn descended(root: Seq<char>, parts: Seq<Seq<char>>, n: int) -> Seq<char>
    decreases n,
{
    if n <= 0 {
        root
    } else {
        pushed(descended(root, parts, n - 1), parts[n - 1])
    }
}

/// The directories that may hold a configuration for the modules of
/// `module_parent`: the root, and then each directory on the way down.
pub open spec fn search_directories(root: Seq<char>, module_parent: Seq<char>) -> Seq<Seq<char>> {
    let pieces = split_on(module_parent, '/');
    let parts = components(pieces, pieces.len() as int);
    Seq::new(parts.len() + 1, |i: int| descended(root, parts, i))
}

/// Lists the directories searched while materializing config for a module.
pub fn config_search_directories(root: &str, module_parent: &str) -> (r: Vec<String>)
    ensures
        texts(r@) == search_directories(root@, module_parent@),
{
    let parts = name_components(module_parent);
    let ghost all = texts(parts@);
    let mut out: Vec<String> = Vec::new();
    let mut current = root.to_owned();
    out.push(root.to_owned());
    let mut i: usize = 0;
    assert(parts@.len() == all.len());
    while i < parts.len()
        invariant
            i <= parts.len(),
            all == texts(parts@),
            current@ == descended(root@, all, i as int),
            out@.len() == i + 1,
            forall|k: int| 0 <= k <= i ==> (#[trigger] out@[k])@ == descended(root@, all, k),
        decreases parts.len() - i,
    {
        assert(all[i as int] == parts@[i as int]@);
        current = push_path(current.as_str(), parts[i].as_str());
        out.push(current.clone());
        i += 1;
    }
    assert(texts(out@) =~= search_directories(root@, module_parent@));
    out
}

/// Why a bounded read failed.
#[derive(Debug)]
pub enum BoundedReadError {
    /// The system could not read; its message.
    Io(String),
    /// The file holds more than the cap.
    TooLarge { max_bytes: usize },
    /// The file is no UTF-8; the decoder's message.
    InvalidUtf8(String),
}

/// Model of a [`BoundedReadError`].
pub enum ReadFault {
    Io(Seq<char>),
    TooLarge { max_bytes: usize },
    InvalidUtf8(Seq<char>),
}

impl BoundedReadError {
    pub open spec fn view(&self) -> ReadFault {
        match self {
            BoundedReadError::Io(e) => ReadFault::Io(e@),
            BoundedReadError::TooLarge { max_bytes } => ReadFault::TooLarge {
                max_bytes: *max_bytes,
            },
            BoundedReadError::InvalidUtf8(e) => ReadFault::InvalidUtf8(e@),
        }
    }
}

/// Refuses a file by the size that its metadata give.
pub fn admit_size(size: u64, max_bytes: usize) -> (r: Result<(), BoundedReadError>)
    ensures
        match r {
            Ok(_) => size <= max_bytes,
            Err(e) => size > max_bytes && e@ == (ReadFault::TooLarge { max_bytes }),
        },
{
    if size > max_bytes as u64 {
        Err(BoundedReadError::TooLarge { max_bytes })
    } else {
        Ok(())
    }
}

/// How many bytes to read at most: one more than the cap, so that a file that
/// has grown meanwhile is noticed.
pub fn read_limit(max_bytes: usize) -> (r: u64)
    ensures
        max_bytes < usize::MAX ==> r == max_bytes + 1,
        max_bytes == usize::MAX ==> r == u64::MAX,
{
    if max_bytes == usize::MAX {
        u64::MAX
    } else {
        (max_bytes + 1) as u64
    }
}

/// Accepts the bytes of a bounded read.
pub fn admit_bytes(bytes: Vec<u8>, max_bytes: usize) -> (r: Result<Vec<u8>, BoundedReadError>)
    ensures
        match r {
            Ok(b) => b@ == bytes@ && bytes@.len() <= max_bytes,
            Err(e) => bytes@.len() > max_bytes && e@ == (ReadFault::TooLarge { max_bytes }),
        },
{
    if bytes.len() > max_bytes {
        Err(BoundedReadError::TooLarge { max_bytes })
    } else {
        Ok(bytes)
    }
}

/// What a bounded read of a text gives.
pub open spec fn bounded_text(bytes: Seq<u8>, max_bytes: usize) -> Result<Seq<char>, ReadFault> {
    if bytes.len() > max_bytes {
        Err(ReadFault::TooLarge { max_bytes })
    } else if valid_utf8(bytes) {
        Ok(decode_utf8(bytes))
    } else {
        Err(ReadFault::InvalidUtf8(utf8_fault(bytes)))
    }
}

/// Accepts the bytes of a bounded read as a text.
pub fn admit_text(bytes: Vec<u8>, max_bytes: usize) -> (r: Result<String, BoundedReadError>)
    ensures
        match r {
            Ok(s) => bounded_text(bytes@, max_bytes) == Ok::<_, ReadFault>(s@),
            Err(e) => bounded_text(bytes@, max_bytes) == Err::<Seq<char>, _>(e@),
        },
{
    let accepted = match admit_bytes(bytes, max_bytes) {
        Ok(accepted) => accepted,
        Err(e) => {
            return Err(e);
        },
    };
    match utf8_text(accepted.as_slice()) {
        Ok(s) => Ok(s),
        Err(e) => Err(BoundedReadError::InvalidUtf8(e)),
    }
}

/// The message of a file over the cap.
pub open spec fn over_limit_text(max_bytes: usize) -> Seq<char> {
    "exceeds filesystem read limit of "@ + decimal(max_bytes as nat) + " bytes"@
}

/// The message of a file over the cap.
pub fn max_read_bytes_error(max_bytes: usize) -> (r: String)
    ensures
        r@ == over_limit_text(max_bytes),
{
    "exceeds filesystem read limit of ".to_owned().concat(
        decimal_text(max_bytes as u64).as_str(),
    ).concat(" bytes")
}

/// What a failed read of a configuration file is reported as.
pub open spec fn read_fault(path: Seq<char>, error: ReadFault) -> ResolverFault {
    ResolverFault::Io {
        path,
        detail: match error {
            ReadFault::Io(message) => message,
            ReadFault::TooLarge { max_bytes } => over_limit_text(max_bytes),
            ReadFault::InvalidUtf8(message) => "file is not UTF-8: "@ + message,
        },
    }
}

/// Reports a failed read of a configuration file.
pub fn bounded_read_resolver_error(path: &str, error: &BoundedReadError) -> (r: ResolverError)
    ensures
        r@ == read_fault(path@, error@),
{
    let detail = match error {
        BoundedReadError::Io(message) => message.clone(),
        BoundedReadError::TooLarge { max_bytes } => max_read_bytes_error(*max_bytes),
        BoundedReadError::InvalidUtf8(message) => "file is not UTF-8: ".to_owned().concat(
            message.as_str(),
        ),
    };
    ResolverError::Io { path: path.to_owned(), detail }
}

/// Why a module source could not serve a request.
#[derive(Debug)]
pub enum ModuleSourceError {
    /// No module has the name.
    MissingModule { id: String },
    /// A relative request has no module to start from.
    UnresolvableRelativeRequest { request: Vec<u8> },
    /// Anything else, in words.
    Other(String),
}

/// Model of a [`ModuleSourceError`].
pub enum ModuleSourceFault {
    MissingModule { id: Seq<char> },
    UnresolvableRelativeRequest { request: Seq<u8> },
    Other(Seq<char>),
}

impl ModuleSourceError {
    pub open spec fn view(&self) -> ModuleSourceFault {
        match self {
            ModuleSourceError::MissingModule { id } => ModuleSourceFault::MissingModule { id: id@ },
            ModuleSourceError::UnresolvableRelativeRequest { request } =>
                ModuleSourceFault::UnresolvableRelativeRequest { request: request@ },
            ModuleSourceError::Other(message) => ModuleSourceFault::Other(message@),
        }
    }
}

/// What a failed resolution is reported as by a module source; `displayed` is
/// the error in words.
pub open spec fn source_fault(error: ResolverFault, displayed: Seq<char>) -> ModuleSourceFault {
    match error {
        ResolverFault::MissingModule { module, .. } => ModuleSourceFault::MissingModule {
            id: module,
        },
        ResolverFault::UnresolvableRelativeRequest { request } =>
            ModuleSourceFault::UnresolvableRelativeRequest { request: encode_utf8(request) },
        ResolverFault::ModuleEscapesRoot { module } => ModuleSourceFault::Other(
            "module `"@ + module + "` escapes filesystem root"@,
        ),
        _ => ModuleSourceFault::Other(displayed),
    }
}

/// Reports a failed resolution.
pub fn module_source_error_from_resolver(error: ResolverError, displayed: String) -> (r:
    ModuleSourceError)
    ensures
        r@ == source_fault(error@, displayed@),
{
    match error {
        ResolverError::MissingModule { module, .. } => ModuleSourceError::MissingModule {
            id: module,
        },
        ResolverError::UnresolvableRelativeRequest { request } =>
            ModuleSourceError::UnresolvableRelativeRequest {
                request: request.as_str().as_bytes_vec(),
            },
        ResolverError::ModuleEscapesRoot { module } => ModuleSourceError::Other(
            "module `".to_owned().concat(module.as_str()).concat("` escapes filesystem root"),
        ),
        _ => ModuleSourceError::Other(displayed),
    }
}

/// What a failed read of a module is reported as.
pub open spec fn module_read_fault(name: Seq<char>, error: ReadFault) -> ModuleSourceFault {
    ModuleSourceFault::Other(
        match error {
            ReadFault::Io(message) => "I/O error reading "@ + name + ": "@ + message,
            ReadFault::TooLarge { max_bytes } => "source "@ + name + " "@ + over_limit_text(
                max_bytes,
            ),
            ReadFault::InvalidUtf8(message) => "source "@ + name + " is not UTF-8: "@ + message,
        },
    )
}

/// Reports a failed read of a module.
pub fn bounded_read_module_source_error(display_name: &str, error: BoundedReadError) -> (r:
    ModuleSourceError)
    ensures
        r@ == module_read_fault(display_name@, error@),
{
    let message = match error {
        BoundedReadError::Io(message) => "I/O error reading ".to_owned().concat(
            display_name,
        ).concat(": ").concat(message.as_str()),
        BoundedReadError::TooLarge { max_bytes } => "source ".to_owned().concat(
            display_name,
        ).concat(" ").concat(max_read_bytes_error(max_bytes).as_str()),
        BoundedReadError::InvalidUtf8(message) => "source ".to_owned().concat(display_name).concat(
            " is not UTF-8: ",
        ).concat(message.as_str()),
    };
    ModuleSourceError::Other(message)
}

/// The epochs that handles stand for. Every clone of a handle, and every source
/// that was made with it, reads the same entry.
#[derive(Debug)]
pub struct EpochTable {
    pub values: Vec<u64>,
}

impl EpochTable {
    pub open spec fn view(&self) -> Seq<u64> {
        self.values@
    }

    /// A table without epochs.
    pub fn new() -> (r: Self)
        ensures
            r@ == Seq::<u64>::empty(),
    {
        EpochTable { values: Vec::new() }
    }
}

impl Default for EpochTable {
    fn default() -> (r: Self)
        ensures
            r@ == Seq::<u64>::empty(),
    {
        EpochTable::new()
    }
}

/// The epoch after a given one; behind the greatest comes zero.
pub open spec fn next_epoch(epoch: u64) -> u64 {
    if epoch == u64::MAX {
        0
    } else {
        (epoch + 1) as u64
    }
}

/// Cloneable cache-invalidation epoch for a filesystem module source: a handle
/// on an entry of an [`EpochTable`].
///
/// Advance it when source contents change.
#[derive(Clone, Copy, Debug, PartialEq, Eq, Structural)]
pub struct FilesystemEpoch {
    pub id: usize,
}

impl FilesystemEpoch {
    /// Whether the handle stands for an entry of a table.
    pub open spec fn live(&self, table: Seq<u64>) -> bool {
        self.id < table.len()
    }

    /// The epoch that a table holds for the handle.
    pub open spec fn of(&self, table: Seq<u64>) -> u64 {
        table[self.id as int]
    }

    /// Creates an epoch handle initialized to `epoch`. The other epochs stay.
    pub fn new(epoch: u64, table: &mut EpochTable) -> (r: Self)
        ensures
            r.id == old(table)@.len(),
            final(table)@ == old(table)@.push(epoch),
            r.live(final(table)@),
            r.of(final(table)@) == epoch,
    {
        let id: usize = table.values.len();
        table.values.push(epoch);
        FilesystemEpoch { id }
    }

    /// Returns the current epoch value.
    pub fn value(&self, table: &EpochTable) -> (r: u64)
        requires
            self.live(table@),
        ensures
            r == self.of(table@),
    {
        table.values[self.id]
    }

    /// Sets the current epoch value. The other epochs stay.
    pub fn set(&self, epoch: u64, table: &mut EpochTable)
        requires
            self.live(old(table)@),
        ensures
            final(table)@ == old(table)@.update(self.id as int, epoch),
    {
        table.values.set(self.id, epoch);
    }

    /// Advances the epoch and returns the new value. Behind the greatest value
    /// comes zero. The other epochs stay.
    pub fn bump(&self, table: &mut EpochTable) -> (r: u64)
        requires
            self.live(old(table)@),
        ensures
            r == next_epoch(self.of(old(table)@)),
            final(table)@ == old(table)@.update(self.id as int, r),
    {
        let next = table.values[self.id].wrapping_add(1);
        table.values.set(self.id, next);
        next
    }
}

/// Every clone of a handle and every source that was made with it sees a change
/// of its epoch, and no other handle does.
pub proof fn law_epoch_is_shared(
    table: Seq<u64>,
    handle: FilesystemEpoch,
    clone: FilesystemEpoch,
    source: FilesystemSource,
    other: FilesystemEpoch,
    epoch: u64,
)
    requires
        handle.live(table),
        other.live(table),
        clone == handle,
        source.epoch == handle,
        other != handle,
    ensures
        clone.of(table.update(handle.id as int, epoch)) == epoch,
        source.epoch.of(table.update(handle.id as int, epoch)) == epoch,
        other.of(table.update(handle.id as int, epoch)) == other.of(table),
        clone.live(table.update(handle.id as int, epoch)),
        other.live(table.update(handle.id as int, epoch)),
{
}

/// Filesystem-backed module source.
///
/// Portable module names cannot escape the root.
#[derive(Debug)]
pub struct FilesystemSource {
    pub resolver: FilesystemSourceResolver,
    pub epoch: FilesystemEpoch,
}

impl FilesystemSource {
    /// Creates a filesystem module source rooted at `root`, with an epoch of
    /// its own that starts at zero.
    pub fn new(root: &str, table: &mut EpochTable) -> (r: Self)
        ensures
            r.resolver.root@ == root@,
            r.resolver.max_read_bytes == DEFAULT_MAX_READ_BYTES,
            r.epoch.id == old(table)@.len(),
            final(table)@ == old(table)@.push(0),
    {
        FilesystemSource::with_epoch(root, 0, table)
    }

    /// Creates a filesystem module source with an epoch of its own that starts
    /// at `epoch`.
    pub fn with_epoch(root: &str, epoch: u64, table: &mut EpochTable) -> (r: Self)
        ensures
            r.resolver.root@ == root@,
            r.resolver.max_read_bytes == DEFAULT_MAX_READ_BYTES,
            r.epoch.id == old(table)@.len(),
            final(table)@ == old(table)@.push(epoch),
    {
        FilesystemSource::with_epoch_handle(root, FilesystemEpoch::new(epoch, table))
    }

    /// Creates a filesystem module source with a shared epoch handle.
    pub fn with_epoch_handle(root: &str, epoch: FilesystemEpoch) -> (r: Self)
        ensures
            r.resolver.root@ == root@,
            r.resolver.max_read_bytes == DEFAULT_MAX_READ_BYTES,
            r.epoch == epoch,
    {
        FilesystemSource { resolver: FilesystemSourceResolver::new(root), epoch }
    }

    /// Returns the current epoch of the source.
    pub fn epoch(&self, table: &EpochTable) -> (r: u64)
        requires
            self.epoch.live(table@),
        ensures
            r == self.epoch.of(table@),
    {
        self.epoch.value(table)
    }

    /// Sets the maximum bytes read for one source file.
    pub fn with_max_read_bytes(self, max_read_bytes: usize) -> (r: Self)
        ensures
            r.resolver.root@ == self.resolver.root@,
            r.resolver.max_read_bytes == max_read_bytes,
            r.epoch == self.epoch,
    {
        let resolver = FilesystemSourceResolver { root: self.resolver.root, max_read_bytes };
        FilesystemSource { resolver, epoch: self.epoch }
    }

    /// Returns a clone of the source epoch handle.
    pub fn epoch_handle(&self) -> (r: FilesystemEpoch)
        ensures
            r == self.epoch,
    {
        self.epoch
    }

    /// The name of a module in diagnostics: that of the file that stands for
    /// it, or its own where none does.
    pub fn metadata(&self, name: &str, resolved: Option<&ResolvedSource>) -> (r: String)
        ensures
            r@ == (match resolved {
                Some(source) => display_of(self.resolver.root@, source.path@),
                None => name@,
            }),
    {
        match resolved {
            Some(source) => self.resolver.display_name(source.path.as_str()),
            None => name.to_owned(),
        }
    }

    /// Decodes the bytes of a module request.
    pub fn request_text(request: &[u8]) -> (r: Result<String, ModuleSourceError>)
        ensures
            match r {
                Ok(s) => valid_utf8(request@) && s@ == decode_utf8(request@),
                Err(e) => !valid_utf8(request@) && e@ == ModuleSourceFault::Other(
                    "module request is not UTF-8: "@ + utf8_fault(request@),
                ),
            },
    {
        match utf8_text(request) {
            Ok(s) => Ok(s),
            Err(e) => Err(
                ModuleSourceError::Other(
                    "module request is not UTF-8: ".to_owned().concat(e.as_str()),
                ),
            ),
        }
    }

    /// Accepts what reading a resolved module gave: its bytes, which must fit
    /// under the cap and be UTF-8.
    pub fn read_outcome(
        &self,
        resolved: &ResolvedSource,
        outcome: Result<Vec<u8>, BoundedReadError>,
    ) -> (r: Result<Vec<u8>, ModuleSourceError>)
        ensures
            ({
                let name = display_of(self.resolver.root@, resolved.path@);
                match outcome {
                    Err(error) => r matches Err(e) && e@ == module_read_fault(name, error@),
                    Ok(bytes) => match bounded_text(bytes@, self.resolver.max_read_bytes) {
                        Ok(_) => r matches Ok(b) && b@ == bytes@,
                        Err(fault) => r matches Err(e) && e@ == module_read_fault(name, fault),
                    },
                }
            }),
    {
        let name = self.resolver.display_name(resolved.path.as_str());
        let bytes = match outcome {
            Ok(bytes) => bytes,
            Err(error) => {
                return Err(bounded_read_module_source_error(name.as_str(), error));
            },
        };
        let bytes = match admit_bytes(bytes, self.resolver.max_read_bytes) {
            Ok(bytes) => bytes,
            Err(error) => {
                return Err(bounded_read_module_source_error(name.as_str(), error));
            },
        };
        match utf8_text(bytes.as_slice()) {
            Ok(_) => Ok(bytes),
            Err(message) => Err(
                bounded_read_module_source_error(
                    name.as_str(),
                    BoundedReadError::InvalidUtf8(message),
                ),
            ),
        }
    }
}

/// What stands in a directory for its configuration: each file, where it
/// exists, as it was read.
#[derive(Debug)]
pub struct DirectoryFiles {
    pub luaurc: Option<Result<String, BoundedReadError>>,
    pub config_luau: Option<Result<ParsedFile, BoundedReadError>>,
}

/// What the files of one directory set.
pub open spec fn directory_settings(
    directory: Seq<char>,
    files: DirectoryFiles,
    refused: Seq<Seq<char>>,
) -> Result<Option<SettingsModel>, ResolverFault> {
    let luaurc = pushed(directory, ".luaurc"@);
    let config_luau = pushed(directory, ".config.luau"@);
    match (files.luaurc, files.config_luau) {
        (None, None) => Ok(None),
        (Some(_), Some(_)) => Err(ResolverFault::ConfigAmbiguity { directory }),
        (Some(Err(e)), None) => Err(read_fault(luaurc, e@)),
        (Some(Ok(contents)), None) => match luaurc_of(contents@, luaurc, refused) {
            Ok(settings) => Ok(Some(settings)),
            Err(e) => Err(e),
        },
        (None, Some(Err(e))) => Err(read_fault(config_luau, e@)),
        (None, Some(Ok(file))) => match parsed_settings(file, config_luau, refused) {
            Ok(settings) => Ok(Some(settings)),
            Err(e) => Err(e),
        },
    }
}

/// Reads what the files of one directory set.
pub fn load_config_from_directory(
    directory: &str,
    files: &DirectoryFiles,
    refused: &Vec<String>,
) -> (r: Result<Option<AnalysisSettings>, ResolverError>)
    ensures
        match r {
            Ok(Some(s)) => directory_settings(directory@, *files, texts(refused@)) == Ok::<
                _,
                ResolverFault,
            >(Some(s@)),
            Ok(None) => directory_settings(directory@, *files, texts(refused@)) == Ok::<
                _,
                ResolverFault,
            >(None::<SettingsModel>),
            Err(e) => directory_settings(directory@, *files, texts(refused@)) == Err::<
                Option<SettingsModel>,
                _,
            >(e@),
        },
{
    let luaurc = push_path(directory, ".luaurc");
    let config_luau = push_path(directory, ".config.luau");
    match (&files.luaurc, &files.config_luau) {
        (None, None) => Ok(None),
        (Some(_), Some(_)) => Err(ResolverError::ConfigAmbiguity { directory: directory.to_owned() }),
        (Some(Err(e)), None) => Err(bounded_read_resolver_error(luaurc.as_str(), e)),
        (Some(Ok(contents)), None) => match parse_luaurc(
            contents.as_str(),
            luaurc.as_str(),
            refused,
        ) {
            Ok(settings) => Ok(Some(settings)),
            Err(e) => Err(e),
        },
        (None, Some(Err(e))) => Err(bounded_read_resolver_error(config_luau.as_str(), e)),
        (None, Some(Ok(file))) => match parse_config_luau(file, config_luau.as_str(), refused) {
            Ok(settings) => Ok(Some(settings)),
            Err(e) => Err(e),
        },
    }
}

/// The settings of the first `n` directories, outermost first, or the first
/// fault among them.
pub open spec fn layered_settings(
    directories: Seq<Seq<char>>,
    files: Seq<DirectoryFiles>,
    refused: Seq<Seq<char>>,
    n: int,
) -> Result<Seq<SettingsModel>, ResolverFault>
    decreases n,
{
    if n <= 0 {
        Ok(Seq::empty())
    } else {
        match layered_settings(directories, files, refused, n - 1) {
            Err(e) => Err(e),
            Ok(layers) => match directory_settings(directories[n - 1], files[n - 1], refused) {
                Err(e) => Err(e),
                Ok(None) => Ok(layers),
                Ok(Some(settings)) => Ok(layers.push(settings)),
            },
        }
    }
}

/// A fault among the first `n` directories is the fault of all of them.
proof fn lemma_layer_fault(
    directories: Seq<Seq<char>>,
    files: Seq<DirectoryFiles>,
    refused: Seq<Seq<char>>,
    n: int,
    all: int,
)
    requires
        n <= all,
        layered_settings(directories, files, refused, n) is Err,
    ensures
        layered_settings(directories, files, refused, all) == layered_settings(
            directories,
            files,
            refused,
            n,
        ),
    decreases all,
{
    if n < all && all > 0 {
        lemma_layer_fault(directories, files, refused, n, all - 1);
    }
}

/// The models of a list of settings.
pub open spec fn settings_models(v: Seq<AnalysisSettings>) -> Seq<SettingsModel> {
    v.map_values(|s: AnalysisSettings| s@)
}

/// What materializing the configuration of a module gives.
pub open spec fn module_settings(
    root: Seq<char>,
    normalized: Seq<char>,
    module_parent: Seq<char>,
    files: Seq<DirectoryFiles>,
    refused: Seq<Seq<char>>,
) -> Result<Seq<SettingsModel>, ResolverFault> {
    if escapes_root(normalized) {
        Err(ResolverFault::ModuleEscapesRoot { module: normalized })
    } else {
        let directories = search_directories(root, module_parent);
        layered_settings(directories, files, refused, directories.len() as int)
    }
}

/// Filesystem-backed config materializer.
///
/// Portable module names cannot escape the root.
#[derive(Debug)]
pub struct FilesystemResolver {
    pub directory: String,
    pub max_read_bytes: usize,
}

impl FilesystemResolver {
    /// Creates a filesystem config resolver rooted at `root`.
    pub fn new(root: &str) -> (r: Self)
        ensures
            r.directory@ == root@,
            r.max_read_bytes == DEFAULT_MAX_READ_BYTES,
    {
        FilesystemResolver { directory: root.to_owned(), max_read_bytes: DEFAULT_MAX_READ_BYTES }
    }

    /// Returns the resolver root.
    pub fn root(&self) -> (r: &str)
        ensures
            r@ == self.directory@,
    {
        self.directory.as_str()
    }

    /// Sets the maximum bytes read for one config file.
    pub fn with_max_read_bytes(self, max_read_bytes: usize) -> (r: Self)
        ensures
            r.directory@ == self.directory@,
            r.max_read_bytes == max_read_bytes,
    {
        FilesystemResolver { directory: self.directory, max_read_bytes }
    }

    /// Materializes the configuration of a module: the settings of each
    /// directory from the root down to `module_parent` that holds any, to be
    /// merged in this order. `files` holds what stands in each directory.
    pub fn materialize_config_for_module(
        &self,
        normalized: &str,
        module_parent: &str,
        files: &Vec<DirectoryFiles>,
        refused: &Vec<String>,
    ) -> (r: Result<Vec<AnalysisSettings>, ResolverError>)
        requires
            files@.len() == search_directories(self.directory@, module_parent@).len(),
        ensures
            match r {
                Ok(v) => module_settings(
                    self.directory@,
                    normalized@,
                    module_parent@,
                    files@,
                    texts(refused@),
                ) == Ok::<_, ResolverFault>(settings_models(v@)),
                Err(e) => module_settings(
                    self.directory@,
                    normalized@,
                    module_parent@,
                    files@,
                    texts(refused@),
                ) == Err::<Seq<SettingsModel>, _>(e@),
            },
    {
        if module_name_escapes_root(normalized) {
            return Err(ResolverError::ModuleEscapesRoot { module: normalized.to_owned() });
        }
        let directories = config_search_directories(self.directory.as_str(), module_parent);
        let ghost dirs = search_directories(self.directory@, module_parent@);
        let ghost bad = texts(refused@);
        assert(directories@.len() == dirs.len());
        let mut layers: Vec<AnalysisSettings> = Vec::new();
        assert(settings_models(layers@) =~= Seq::empty());
        let mut i: usize = 0;
        while i < directories.len()
            invariant
                i <= directories.len(),
                directories@.len() == files@.len(),
                texts(directories@) == dirs,
                bad == texts(refused@),
                !escapes_root(normalized@),
                dirs == search_directories(self.directory@, module_parent@),
                layered_settings(dirs, files@, bad, i as int) == Ok::<_, ResolverFault>(
                    settings_models(layers@),
                ),
            decreases directories.len() - i,
        {
            assert(dirs[i as int] == directories@[i as int]@);
            match load_config_from_directory(directories[i].as_str(), &files[i], refused) {
                Ok(Some(settings)) => {
                    let ghost before = layers@;
                    layers.push(settings);
                    assert(settings_models(layers@) =~= settings_models(before).push(settings@));
                },
                Ok(None) => {},
                Err(e) => {
                    proof {
                        lemma_layer_fault(dirs, files@, bad, i + 1, dirs.len() as int);
                    }
                    return Err(e);
                },
            }
            i += 1;
        }
        Ok(layers)
    }
}

/// The segments of the components of a name are those of its pieces.
proof fn lemma_component_segments(pieces: Seq<Seq<char>>, n: int)
    requires
        0 <= n <= pieces.len(),
    ensures
        segments_of(components(pieces, n), components(pieces, n).len() as int) == segments_of(
            pieces,
            n,
        ),
    decreases n,
{
    if n > 0 {
        lemma_component_segments(pieces, n - 1);
        if pieces[n - 1].len() > 0 {
            let before = components(pieces, n - 1);
            let after = components(pieces, n);
            let k = before.len() as int;
            assert(after =~= before + seq![pieces[n - 1]]);
            lemma_segments_prefix(before, seq![pieces[n - 1]], k);
            assert(after[k] == pieces[n - 1]);
        }
    }
}

/// The components of a name hold no slash and are not empty.
proof fn lemma_components_plain(name: Seq<char>)
    ensures
        ({
            let parts = components(split_on(name, '/'), split_on(name, '/').len() as int);
            forall|j: int, k: int|
                #![trigger parts[j][k]]
                0 <= j < parts.len() && 0 <= k < parts[j].len() ==> parts[j][k] != '/'
        }),
{
    let given = split_on(name, '/');
    let parts = components(given, given.len() as int);
    lemma_components(given, given.len() as int);
    lemma_pieces_plain(name, 0, 0);
    assert forall|j: int, k: int|
        #![trigger parts[j][k]]
        0 <= j < parts.len() && 0 <= k < parts[j].len() implies parts[j][k] != '/' by {
        let g = given.index_of(parts[j]);
        assert(given[g][k] != '/');
    }
}

/// A module lies below the root at the segments of its name.
pub proof fn law_module_lies_at_its_name(root: Seq<char>, name: Seq<char>)
    ensures
        path_of(name_path(name)).segments == path_of(name).segments,
        !path_of(name_path(name)).absolute,
        path_of(module_base(root, name)).segments == path_of(root).segments
            + path_of(name).segments,
{
    reveal_strlit("");
    let given = split_on(name, '/');
    let parts = components(given, given.len() as int);
    let own = name_path(name);
    lemma_components(given, given.len() as int);
    lemma_components_plain(name);
    lemma_component_segments(given, given.len() as int);
    if parts.len() > 0 {
        lemma_split_join(parts);
        lemma_join_first(parts);
        assert(parts[0][0] != '/');
    } else {
        lemma_empty_path(own);
    }
    law_pushed_segments(root, own);
}

/// The files that may stand for a module whose name has no source extension:
/// its name with `.luau` and with `.lua`, and in a directory of that name
/// `init.luau` and `init.lua`.
pub proof fn law_module_files_are_named_after_it(root: Seq<char>, name: Seq<char>)
    requires
        path_of(name).segments.len() > 0,
        path_of(name).segments.last() == split_on(name, '/').last(),
        !is_source_file(module_base(root, name)),
    ensures
        module_candidates(root, name).len() == 4,
        path_of(module_candidates(root, name)[0]).segments == path_of(root).segments
            + path_of(name).segments.drop_last().push(
            path_of(name).segments.last() + ".luau"@,
        ),
        path_of(module_candidates(root, name)[1]).segments == path_of(root).segments
            + path_of(name).segments.drop_last().push(path_of(name).segments.last() + ".lua"@),
        path_of(module_candidates(root, name)[2]).segments == path_of(root).segments
            + path_of(name).segments.push("init.luau"@),
        path_of(module_candidates(root, name)[3]).segments == path_of(root).segments
            + path_of(name).segments.push("init.lua"@),
{
    reveal_strlit(".luau");
    reveal_strlit(".lua");
    reveal_strlit("init.luau");
    reveal_strlit("init.lua");
    reveal_strlit(".");
    let given = split_on(name, '/');
    let n = given.len() as int;
    let parts = components(given, n);
    let own = name_path(name);
    let base = module_base(root, name);
    crate::text::lemma_split_nonempty(name, '/', 0, 0);
    lemma_components(given, n);
    lemma_components_plain(name);
    law_module_lies_at_its_name(root, name);
    lemma_last_is_segment(given, n);
    assert(parts.last() == given.last());
    lemma_split_join(parts);
    assert(split_on(own, '/') == parts);
    assert(parts.take(parts.len() as int) =~= parts);
    assert(trimmed_path(own) == own);
    law_suffix_extends_name(own, ".luau"@);
    law_suffix_extends_name(own, ".lua"@);
    lemma_join_first(parts);
    assert(parts[0][0] != '/');
    assert((own + ".luau"@)[0] == own[0]);
    assert((own + ".lua"@)[0] == own[0]);
    law_pushed_segments(root, own + ".luau"@);
    law_pushed_segments(root, own + ".lua"@);
    assert(base + ".luau"@ =~= pushed(root, own + ".luau"@));
    assert(base + ".lua"@ =~= pushed(root, own + ".lua"@));
    law_pushed_segments(base, "init.luau"@);
    law_pushed_segments(base, "init.lua"@);
    lemma_one_segment("init.luau"@);
    lemma_one_segment("init.lua"@);
    let r = path_of(root).segments;
    let s = path_of(name).segments;
    assert((r + s) + seq!["init.luau"@] =~= r + s.push("init.luau"@));
    assert((r + s) + seq!["init.lua"@] =~= r + s.push("init.lua"@));
}

/// Where the last segment of a name is its last piece, that piece is a
/// segment.
proof fn lemma_last_is_segment(pieces: Seq<Seq<char>>, n: int)
    requires
        0 < n <= pieces.len(),
        segments_of(pieces, n).len() > 0,
        segments_of(pieces, n).last() == pieces[n - 1],
    ensures
        is_segment(pieces[n - 1]),
{
    lemma_segments_are_segments(pieces, n);
}

proof fn lemma_segments_are_segments(pieces: Seq<Seq<char>>, n: int)
    requires
        0 <= n <= pieces.len(),
    ensures
        forall|k: int|
            0 <= k < segments_of(pieces, n).len() ==> is_segment(
                #[trigger] segments_of(pieces, n)[k],
            ),
    decreases n,
{
    if n > 0 {
        lemma_segments_are_segments(pieces, n - 1);
        let before = segments_of(pieces, n - 1);
        let after = segments_of(pieces, n);
        assert forall|k: int| 0 <= k < after.len() implies is_segment(#[trigger] after[k]) by {
            if k < before.len() {
                assert(after[k] == before[k]);
            }
        }
    }
}

/// A name with a parent component escapes, wherever it stands, and so does an
/// absolute name.
pub proof fn law_parent_components_escape(a: Seq<char>, b: Seq<char>)
    ensures
        escapes_root(a + "/../"@ + b),
        escapes_root("../"@ + b),
        escapes_root(a + "/.."@),
        escapes_root(".."@),
        escapes_root("/"@ + b),
{
    reveal_strlit("/../");
    reveal_strlit("../");
    reveal_strlit("/..");
    reveal_strlit("..");
    reveal_strlit("/");
    let dots = ".."@;
    lemma_pieces_of_dots();
    let x = a + "/../"@ + b;
    assert(slashed(x) =~= slashed(a) + "/"@ + (dots + "/"@ + slashed(b)));
    lemma_split_concat(slashed(a), dots + "/"@ + slashed(b), 0, 0);
    lemma_split_concat(dots, slashed(b), 0, 0);
    let at = split_on(slashed(a), '/').len() as int;
    let tail = split_on(dots + "/"@ + slashed(b), '/');
    assert(tail[0] == dots);
    assert(split_on(slashed(x), '/')[at] == tail[0]);
    let y = "../"@ + b;
    assert(slashed(y) =~= dots + "/"@ + slashed(b));
    assert(split_on(slashed(y), '/')[0] == dots);
    let z = a + "/.."@;
    assert(slashed(z) =~= slashed(a) + "/"@ + dots);
    lemma_split_concat(slashed(a), dots, 0, 0);
    assert(split_on(slashed(z), '/')[at] == dots);
    assert(slashed(dots) =~= dots);
    assert(split_on(slashed(dots), '/')[0] == dots);
    assert(("/"@ + b)[0] == '/');
}

proof fn lemma_pieces_of_dots()
    ensures
        split_on(".."@, '/') == seq![".."@],
{
    reveal_strlit("..");
    lemma_split_plain(".."@, 0);
}

/// A name without separators and colons that is no `..` does not escape.
pub proof fn law_plain_names_stay(name: Seq<char>)
    requires
        name != ".."@,
        forall|k: int|
            0 <= k < name.len() ==> #[trigger] name[k] != '/' && name[k] != '\\' && name[k]
                != ':',
    ensures
        !escapes_root(name),
{
    reveal_strlit(":");
    assert(slashed(name) =~= name);
    lemma_split_plain(name, 0);
    let one = split_on(slashed(name), '/');
    assert(one =~= seq![name]);
    assert(!escaping(name)) by {
        if ends(name, ":"@) {
            assert(name.skip(name.len() - 1)[0] == name[name.len() - 1]);
        }
    }
}

/// The directories that are searched for configuration start with the root,
/// go down one component at a time, and end with that of the module: one for
/// each component of it and one for the root, each below those in front.
pub proof fn law_search_goes_down(root: Seq<char>, module_parent: Seq<char>, i: int, j: int)
    requires
        0 <= i <= j < search_directories(root, module_parent).len(),
    ensures
        search_directories(root, module_parent)[0] == root,
        path_of(search_directories(root, module_parent).last()).segments == path_of(root).segments
            + path_of(module_parent).segments,
        path_of(search_directories(root, module_parent)[i]).segments.is_prefix_of(
            path_of(search_directories(root, module_parent)[j]).segments,
        ),
        path_of(module_parent).segments.len() < search_directories(root, module_parent).len(),
{
    let given = split_on(module_parent, '/');
    let n = given.len() as int;
    let parts = components(given, n);
    lemma_component_segments(given, n);
    lemma_components(given, n);
    lemma_components_plain(module_parent);
    lemma_descended(root, parts, i);
    lemma_descended(root, parts, j);
    lemma_descended(root, parts, parts.len() as int);
    lemma_segments_grow(parts, i, j);
    lemma_segments_count(parts, parts.len() as int);
    let r = path_of(root).segments;
    let a = segments_of(parts, i);
    let b = segments_of(parts, j);
    assert((r + a).is_prefix_of(r + b)) by {
        assert((r + b).subrange(0, (r + a).len() as int) =~= r + a) by {
            assert forall|k: int| 0 <= k < a.len() implies a[k] == b[k] by {
                assert(b.subrange(0, a.len() as int)[k] == b[k]);
            }
        }
    }
}

proof fn lemma_segments_grow(parts: Seq<Seq<char>>, i: int, j: int)
    requires
        0 <= i <= j <= parts.len(),
    ensures
        segments_of(parts, i).is_prefix_of(segments_of(parts, j)),
    decreases j - i,
{
    if i < j {
        lemma_segments_grow(parts, i, j - 1);
        let a = segments_of(parts, i);
        let b = segments_of(parts, j - 1);
        let c = segments_of(parts, j);
        assert(c.subrange(0, a.len() as int) =~= b.subrange(0, a.len() as int));
    } else {
        let a = segments_of(parts, i);
        assert(a.subrange(0, a.len() as int) =~= a);
    }
}

proof fn lemma_segments_count(parts: Seq<Seq<char>>, n: int)
    requires
        0 <= n <= parts.len(),
    ensures
        segments_of(parts, n).len() <= n,
    decreases n,
{
    if n > 0 {
        lemma_segments_count(parts, n - 1);
    }
}

proof fn lemma_descended(root: Seq<char>, parts: Seq<Seq<char>>, n: int)
    requires
        0 <= n <= parts.len(),
        forall|k: int| 0 <= k < parts.len() ==> (#[trigger] parts[k]).len() > 0,
        forall|j: int, k: int|
            #![trigger parts[j][k]]
            0 <= j < parts.len() && 0 <= k < parts[j].len() ==> parts[j][k] != '/',
    ensures
        path_of(descended(root, parts, n)).segments == path_of(root).segments + segments_of(
            parts,
            n,
        ),
    decreases n,
{
    let r = path_of(root).segments;
    if n > 0 {
        lemma_descended(root, parts, n - 1);
        let part = parts[n - 1];
        assert(part[0] != '/');
        law_pushed_segments(descended(root, parts, n - 1), part);
        let before = segments_of(parts, n - 1);
        if is_segment(part) {
            assert forall|k: int| 0 <= k < part.len() implies #[trigger] part[k] != '/' by {
                assert(parts[n - 1][k] != '/');
            }
            lemma_one_segment(part);
            assert((r + before) + seq![part] =~= r + before.push(part));
        } else {
            let one = seq![part];
            assert forall|j: int, k: int|
                #![trigger one[j][k]]
                0 <= j < one.len() && 0 <= k < one[j].len() implies one[j][k] != '/' by {
                assert(parts[n - 1][k] != '/');
            }
            lemma_split_join(one);
            reveal_with_fuel(segments_of, 2);
            assert((r + before) + Seq::<Seq<char>>::empty() =~= r + before);
        }
    } else {
        assert(r + Seq::<Seq<char>>::empty() =~= r);
    }
}

/// The settings of a module are layered from the root down: one layer for each
/// searched directory that holds a configuration, in the order of the
/// directories, and a fault only where one of them has a fault.
pub proof fn law_layers_follow_directories(
    directories: Seq<Seq<char>>,
    files: Seq<DirectoryFiles>,
    refused: Seq<Seq<char>>,
    n: int,
)
    requires
        0 <= n,
    ensures
        layered_settings(directories, files, refused, n) is Ok <==> forall|i: int|
            0 <= i < n ==> directory_settings(
                #[trigger] directories[i],
                files[i],
                refused,
            ) is Ok,
        layered_settings(directories, files, refused, n) matches Ok(layers) ==> layers == Seq::new(
            n as nat,
            |i: int| directory_settings(directories[i], files[i], refused),
        ).filter(
            |r: Result<Option<SettingsModel>, ResolverFault>| r matches Ok(Some(_)),
        ).map_values(|r: Result<Option<SettingsModel>, ResolverFault>| r->Ok_0->0),
    decreases n,
{
    let each = |i: int| directory_settings(directories[i], files[i], refused);
    let sets = |r: Result<Option<SettingsModel>, ResolverFault>| r matches Ok(Some(_));
    let value = |r: Result<Option<SettingsModel>, ResolverFault>| r->Ok_0->0;
    let all = Seq::new(n as nat, each);
    reveal(Seq::filter);
    if n > 0 {
        law_layers_follow_directories(directories, files, refused, n - 1);
        let front = Seq::new((n - 1) as nat, each);
        let last = each(n - 1);
        assert(all.drop_last() =~= front);
        assert(all.last() == last);
        if sets(last) {
            assert(front.filter(sets).push(last).map_values(value) =~= front.filter(
                sets,
            ).map_values(value).push(value(last)));
        }
        assert(layered_settings(directories, files, refused, n) is Ok <==> layered_settings(
            directories,
            files,
            refused,
            n - 1,
        ) is Ok && directory_settings(directories[n - 1], files[n - 1], refused) is Ok);
    } else {
        assert(all =~= Seq::empty());
        assert(all.filter(sets).map_values(value) =~= Seq::empty());
    }
}

/// A directory with one configuration file is set by that file alone, one with
/// none sets nothing, and one with both is refused.
pub proof fn law_one_configuration_file(
    directory: Seq<char>,
    files: DirectoryFiles,
    refused: Seq<Seq<char>>,
)
    ensures
        directory_settings(directory, files, refused) == Ok::<_, ResolverFault>(
            None::<SettingsModel>,
        ) <==> files.luaurc is None && files.config_luau is None,
        files.luaurc is Some && files.config_luau is Some ==> directory_settings(
            directory,
            files,
            refused,
        ) == Err::<Option<SettingsModel>, _>(ResolverFault::ConfigAmbiguity { directory }),
        files.config_luau is None ==> (files.luaurc matches Some(Ok(contents)) ==> match luaurc_of(
            contents@,
            pushed(directory, ".luaurc"@),
            refused,
        ) {
            Ok(s) => directory_settings(directory, files, refused) == Ok::<_, ResolverFault>(
                Some(s),
            ),
            Err(e) => directory_settings(directory, files, refused) == Err::<
                Option<SettingsModel>,
                _,
            >(e),
        }),
        files.luaurc is None ==> (files.config_luau matches Some(Ok(file)) ==> match parsed_settings(
            file,
            pushed(directory, ".config.luau"@),
            refused,
        ) {
            Ok(s) => directory_settings(directory, files, refused) == Ok::<_, ResolverFault>(
                Some(s),
            ),
            Err(e) => directory_settings(directory, files, refused) == Err::<
                Option<SettingsModel>,
                _,
            >(e),
        }),
{
}

/// How many candidates were found says which: none, just one, or two at
/// different places.
pub proof fn law_found_count(found: Seq<bool>, n: int)
    requires
        0 <= n <= found.len(),
    ensures
        0 <= found_count(found, n) <= n,
        found_count(found, n) == 0 <==> forall|i: int| 0 <= i < n ==> !#[trigger] found[i],
        found_count(found, n) == 1 ==> forall|i: int, j: int|
            #![trigger found[i], found[j]]
            0 <= i < j < n ==> !(found[i] && found[j]),
        found_count(found, n) > 1 ==> exists|i: int, j: int|
            #![trigger found[i], found[j]]
            0 <= i < j < n && found[i] && found[j],
    decreases n,
{
    if n > 0 {
        law_found_count(found, n - 1);
        if found_count(found, n) > 1 {
            if found_count(found, n - 1) > 1 {
                let (i, j) = choose|i: int, j: int|
                    #![trigger found[i], found[j]]
                    0 <= i < j < n - 1 && found[i] && found[j];
                assert(found[i] && found[j]);
            } else {
                let i = choose|i: int| 0 <= i < n - 1 && #[trigger] found[i];
                assert(found[i] && found[n - 1]);
            }
        }
    }
}

/// A bounded read gives the text of bytes that are one and no more than the
/// bound, and refuses all others, the size before the encoding.
pub proof fn law_bounded_text_is_whole(text: Seq<char>, bytes: Seq<u8>, max_bytes: usize)
    ensures
        encode_utf8(text).len() <= max_bytes ==> bounded_text(encode_utf8(text), max_bytes)
            == Ok::<_, ReadFault>(text),
        bytes.len() > max_bytes ==> bounded_text(bytes, max_bytes) == Err::<Seq<char>, _>(
            (ReadFault::TooLarge { max_bytes }),
        ),
        bounded_text(bytes, max_bytes) is Ok <==> bytes.len() <= max_bytes && valid_utf8(bytes),
{
    vstd::utf8::encode_utf8_decode_utf8(text);
    vstd::utf8::encode_utf8_valid_utf8(text);
}

/// An epoch that is advanced is another one, and only the greatest goes back
/// to zero.
pub proof fn law_epoch_advances(epoch: u64)
    ensures
        next_epoch(epoch) != epoch,
        epoch < u64::MAX ==> next_epoch(epoch) == epoch + 1,
        next_epoch(u64::MAX) == 0,
{
}

/// A module is refused by its name only where the name leads out of the root
/// or asks for an init file, and the first comes before the second.
pub proof fn law_plain_modules_are_looked_up(name: Seq<char>, a: Seq<char>)
    ensures
        name_fault(name, name) is None <==> !escapes_root(name) && split_on(name, '/').last()
            != "init"@,
        escapes_root(name) ==> name_fault(a, name) == Some(
            (ResolverFault::ModuleEscapesRoot { module: name }),
        ),
        name_fault(a, a + "/init"@) is Some,
        name_fault(a, "init"@) is Some,
{
    reveal_strlit("/init");
    reveal_strlit("init");
    reveal_strlit("/");
    let none = "init"@;
    lemma_split_plain(none, 0);
    assert(a + "/init"@ =~= a + "/"@ + none);
    lemma_split_concat(a, none, 0, 0);
    let all = split_on(a + "/init"@, '/');
    assert(all.last() == none);
    assert(split_on(none, '/').last() == none);
}

/// A file outside of the root is shown by its whole path, and the settings of
/// a module whose name leads out of the root are refused before anything is
/// read.
pub proof fn law_outside_is_told(
    root: Seq<char>,
    path: Seq<char>,
    name: Seq<char>,
    module_parent: Seq<char>,
    files: Seq<DirectoryFiles>,
    refused: Seq<Seq<char>>,
)
    ensures
        !inside(path, root) ==> display_of(root, path) == path,
        escapes_root(name) ==> module_settings(root, name, module_parent, files, refused) == Err::<
            Seq<SettingsModel>,
            _,
        >((ResolverFault::ModuleEscapesRoot { module: name })),
        !escapes_root(name) ==> module_settings(root, name, module_parent, files, refused)
            == layered_settings(
            search_directories(root, module_parent),
            files,
            refused,
            search_directories(root, module_parent).len() as int,
        ),
{
}

} // verus!
