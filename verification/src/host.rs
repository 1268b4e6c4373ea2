//! Host API registration with paired analyzer definitions.
//!
//! Runtime functions and installers are closures of the embedder; a host API
//! refers to them by number.
use crate::error::{Error, ErrorModel};
use crate::sorted::{increasing, SortedSet};
use crate::text::{
    chars_of, debug_quoted, debug_text, find, find_text, ident_char, ident_start, is_ident_char,
    is_ident_start, join, law_split_joins_back, same_text, split_on, split_ranges, string_of, texts,
    trim, trimmed,
};
use vstd::prelude::*;
use vstd::slice::slice_subrange;
use vstd::string::*;

verus! {

/// Error returned by fallible host API builders.
#[derive(Debug)]
pub enum HostApiError {
    /// A namespace or function name is not a Luau identifier.
    InvalidIdentifier {
        /// Human-readable context for the invalid name.
        kind: &'static str,
        /// Rejected name.
        name: String,
    },
    /// A function signature is not shaped like a Luau function type.
    InvalidFunctionSignature {
        /// Rejected signature.
        signature: String,
    },
}

/// Model of a [`HostApiError`].
pub enum HostApiFault {
    InvalidIdentifier { kind: Seq<char>, name: Seq<char> },
    InvalidFunctionSignature { signature: Seq<char> },
}

/// A host API error in words.
pub open spec fn host_api_text(e: HostApiFault) -> Seq<char> {
    match e {
        HostApiFault::InvalidIdentifier { kind, name } => kind
            + " name is not a Luau identifier: "@ + debug_text(name),
        HostApiFault::InvalidFunctionSignature { signature } =>
            "host function signature must be a Luau function type such as `(s: string) -> ()`: "@
            + debug_text(signature),
    }
}

impl HostApiError {
    pub open spec fn view(&self) -> HostApiFault {
        match self {
            HostApiError::InvalidIdentifier { kind, name } => HostApiFault::InvalidIdentifier {
                kind: kind@,
                name: name@,
            },
            HostApiError::InvalidFunctionSignature { signature } =>
                HostApiFault::InvalidFunctionSignature { signature: signature@ },
        }
    }

    /// The error in words.
    pub fn message(&self) -> (r: String)
        ensures
            r@ == host_api_text(self@),
    {
        match self {
            HostApiError::InvalidIdentifier { kind, name } => (*kind).to_owned().concat(
                " name is not a Luau identifier: ",
            ).concat(debug_quoted(name.as_str()).as_str()),
            HostApiError::InvalidFunctionSignature { signature } =>
                "host function signature must be a Luau function type such as `(s: string) -> ()`: ".to_owned().concat(
            debug_quoted(signature.as_str()).as_str()),
        }
    }
}

/// Whether a name is reserved by the language.
pub open spec fn keyword(s: Seq<char>) -> bool {
    ||| s == "and"@
    ||| s == "break"@
    ||| s == "do"@
    ||| s == "else"@
    ||| s == "elseif"@
    ||| s == "end"@
    ||| s == "false"@
    ||| s == "for"@
    ||| s == "function"@
    ||| s == "if"@
    ||| s == "in"@
    ||| s == "local"@
    ||| s == "nil"@
    ||| s == "not"@
    ||| s == "or"@
    ||| s == "repeat"@
    ||| s == "return"@
    ||| s == "then"@
    ||| s == "true"@
    ||| s == "until"@
    ||| s == "while"@
    ||| s == "continue"@
    ||| s == "export"@
    ||| s == "type"@
}

/// Tests whether a name is reserved by the language.
pub fn is_luau_keyword(name: &str) -> (r: bool)
    ensures
        r == keyword(name@),
{
    same_text(name, "and") || same_text(name, "break") || same_text(name, "do") || same_text(
        name,
        "else",
    ) || same_text(name, "elseif") || same_text(name, "end") || same_text(name, "false")
        || same_text(name, "for") || same_text(name, "function") || same_text(name, "if")
        || same_text(name, "in") || same_text(name, "local") || same_text(name, "nil")
        || same_text(name, "not") || same_text(name, "or") || same_text(name, "repeat")
        || same_text(name, "return") || same_text(name, "then") || same_text(name, "true")
        || same_text(name, "until") || same_text(name, "while") || same_text(name, "continue")
        || same_text(name, "export") || same_text(name, "type")
}

/// Whether a text is a Luau identifier.
pub open spec fn luau_identifier(s: Seq<char>) -> bool {
    &&& s.len() > 0
    &&& ident_start(s[0])
    &&& forall|i: int| 0 < i < s.len() ==> ident_char(#[trigger] s[i])
    &&& !keyword(s)
}

/// Tests whether a text is a Luau identifier.
pub fn is_luau_identifier(name: &str) -> (r: bool)
    ensures
        r == luau_identifier(name@),
{
    let chars: Vec<char> = chars_of(name);
    if chars.len() == 0 || !is_ident_start(chars[0]) {
        return false;
    }
    let mut i: usize = 1;
    while i < chars.len()
        invariant
            1 <= i <= chars.len(),
            chars@ == name@,
            forall|k: int| 0 < k < i ==> ident_char(#[trigger] name@[k]),
        decreases chars.len() - i,
    {
        if !is_ident_char(chars[i]) {
            assert(!ident_char(name@[i as int]));
            return false;
        }
        i += 1;
    }
    !is_luau_keyword(name)
}

/// Position of the first part at or after `i` that is no identifier, or the
/// number of parts.
pub open spec fn first_bad_part(parts: Seq<Seq<char>>, i: int) -> int
    decreases parts.len() - i,
{
    if i < 0 || i >= parts.len() {
        parts.len() as int
    } else if luau_identifier(parts[i]) {
        first_bad_part(parts, i + 1)
    } else {
        i
    }
}

/// The parts of a dotted path, or the fault of the first one that is no
/// identifier.
pub open spec fn host_path(kind: Seq<char>, path: Seq<char>) -> Result<
    Seq<Seq<char>>,
    HostApiFault,
> {
    let parts = split_on(path, '.');
    let bad = first_bad_part(parts, 0);
    if bad < parts.len() {
        Err(HostApiFault::InvalidIdentifier { kind, name: parts[bad] })
    } else {
        Ok(parts)
    }
}

/// A dotted path of identifiers.
#[derive(Debug)]
pub struct HostPath {
    pub parts: Vec<String>,
}

impl HostPath {
    /// Reads a dotted path.
    pub fn parse(kind: &'static str, path: &str) -> (r: Result<Self, HostApiError>)
        ensures
            match r {
                Ok(p) => p.parts@.len() > 0 && host_path(kind@, path@) == Ok::<_, HostApiFault>(
                    texts(p.parts@),
                ),
                Err(e) => host_path(kind@, path@) == Err::<Seq<Seq<char>>, _>(e@),
            },
    {
        let chars: Vec<char> = chars_of(path);
        let ranges: Vec<(usize, usize)> = split_ranges(chars.as_slice(), '.');
        let ghost all = split_on(path@, '.');
        proof {
            crate::text::lemma_split_nonempty(path@, '.', 0, 0);
        }
        let mut parts: Vec<String> = Vec::new();
        let mut i: usize = 0;
        while i < ranges.len()
            invariant
                i <= ranges.len(),
                chars@ == path@,
                all == split_on(path@, '.'),
                ranges@.len() == all.len(),
                forall|k: int|
                    #![trigger ranges@[k]]
                    0 <= k < ranges@.len() ==> ranges@[k].0 <= ranges@[k].1 <= chars@.len()
                        && chars@.subrange(ranges@[k].0 as int, ranges@[k].1 as int) == all[k],
                parts@.len() == i,
                forall|k: int| 0 <= k < i ==> (#[trigger] parts@[k])@ == all[k],
                first_bad_part(all, i as int) == first_bad_part(all, 0),
            decreases ranges.len() - i,
        {
            let range = ranges[i];
            let part = string_of(slice_subrange(chars.as_slice(), range.0, range.1));
            assert(part@ == all[i as int]);
            if !is_luau_identifier(part.as_str()) {
                return Err(HostApiError::InvalidIdentifier { kind, name: part });
            }
            parts.push(part);
            i += 1;
        }
        assert(texts(parts@) =~= all);
        Ok(HostPath { parts })
    }
}

/// Whether a text is shaped like a function type.
pub open spec fn function_signature(signature: Seq<char>) -> bool {
    let s = trim(signature);
    s.len() > 0 && s[0] == '(' && find(s, "->"@) >= 0 && !s.contains('\0')
}

/// Tests whether a text is shaped like a function type.
pub fn check_function_signature(signature: &str) -> (r: Result<(), HostApiError>)
    ensures
        match r {
            Ok(_) => function_signature(signature@),
            Err(e) => !function_signature(signature@) && e@ == (
            HostApiFault::InvalidFunctionSignature { signature: trim(signature@) }),
        },
{
    let chars: Vec<char> = chars_of(signature);
    let s = trimmed(chars.as_slice());
    let mut nul = false;
    let mut i: usize = 0;
    while i < s.len()
        invariant
            i <= s.len(),
            nul == s@.take(i as int).contains('\0'),
        decreases s.len() - i,
    {
        let ghost before = s@.take(i as int);
        assert(s@.take(i + 1) =~= before.push(s@[i as int]));
        if s[i] == '\0' {
            assert(before.push(s@[i as int])[i as int] == '\0');
            nul = true;
        } else {
            assert(before.push(s@[i as int]).contains('\0') ==> before.contains('\0')) by {
                if before.push(s@[i as int]).contains('\0') {
                    let at = before.push(s@[i as int]).index_of('\0');
                    assert(before[at] == '\0');
                }
            }
            assert(before.contains('\0') ==> before.push(s@[i as int]).contains('\0')) by {
                if before.contains('\0') {
                    let at = before.index_of('\0');
                    assert(before.push(s@[i as int])[at] == '\0');
                }
            }
        }
        i += 1;
    }
    assert(s@.take(i as int) =~= s@);
    if s.len() > 0 && s[0] == '(' && find_text(s, "->").is_some() && !nul {
        Ok(())
    } else {
        Err(HostApiError::InvalidFunctionSignature { signature: string_of(s) })
    }
}

/// Entry in a host namespace table.
#[derive(Debug)]
pub enum Entry {
    /// Function entry with its Luau type signature and the number of its
    /// runtime factory.
    Function { name: String, signature: String, factory: u64 },
    /// Nested namespace entry.
    Namespace { name: String, entries: HostEntries },
}

/// Declarations and factories of host functions, in the order in which they
/// were registered.
#[derive(Debug)]
pub struct HostEntries {
    pub entries: Vec<Entry>,
}

/// Model of an [`Entry`].
pub enum EntryModel {
    Function { name: Seq<char>, signature: Seq<char>, factory: u64 },
    Namespace { name: Seq<char>, entries: Seq<EntryModel> },
}

impl Entry {
    pub open spec fn view(&self) -> EntryModel
        decreases self,
    {
        match self {
            Entry::Function { name, signature, factory } => EntryModel::Function {
                name: name@,
                signature: signature@,
                factory: *factory,
            },
            Entry::Namespace { name, entries } => EntryModel::Namespace {
                name: name@,
                entries: Seq::new(
                    entries.entries@.len(),
                    |i: int|
                        if 0 <= i < entries.entries@.len() {
                            entries.entries@[i].view()
                        } else {
                            arbitrary()
                        },
                ),
            },
        }
    }
}

/// The models of a list of entries.
pub open spec fn entry_models(v: Seq<Entry>) -> Seq<EntryModel> {
    v.map_values(|e: Entry| e@)
}

/// Whether an entry is the namespace of a given name.
pub open spec fn is_namespace(e: EntryModel, name: Seq<char>) -> bool {
    match e {
        EntryModel::Namespace { name: own, .. } => own == name,
        _ => false,
    }
}

/// Position of the first namespace of a given name at or after `i`, or the
/// number of entries.
pub open spec fn namespace_at(e: Seq<EntryModel>, name: Seq<char>, i: int) -> int
    decreases e.len() - i,
{
    if i < 0 || i >= e.len() {
        e.len() as int
    } else if is_namespace(e[i], name) {
        i
    } else {
        namespace_at(e, name, i + 1)
    }
}

/// Entries with one more function at a path. The namespaces on the way are
/// those that exist, and new ones behind the others where none does.
pub open spec fn with_function(
    e: Seq<EntryModel>,
    path: Seq<Seq<char>>,
    signature: Seq<char>,
    factory: u64,
) -> Seq<EntryModel>
    decreases path.len(),
{
    if path.len() == 0 {
        e
    } else if path.len() == 1 {
        e.push(EntryModel::Function { name: path[0], signature, factory })
    } else {
        let at = namespace_at(e, path[0], 0);
        if at < e.len() {
            e.update(
                at,
                EntryModel::Namespace {
                    name: path[0],
                    entries: with_function(e[at]->entries, path.skip(1), signature, factory),
                },
            )
        } else {
            e.push(
                EntryModel::Namespace {
                    name: path[0],
                    entries: with_function(Seq::empty(), path.skip(1), signature, factory),
                },
            )
        }
    }
}

/// The declaration of an entry: its name and its type. The type of a namespace
/// is a table of the declarations in it.
pub open spec fn entry_text(e: EntryModel) -> Seq<char>
    decreases e, 0nat,
{
    match e {
        EntryModel::Function { name, signature, .. } => name + ": "@ + signature,
        EntryModel::Namespace { name, entries } => name + ": "@ + ("{ "@ + fields_text(
            entries,
            entries.len(),
        ) + " }"@),
    }
}

/// The declarations of the first `n` entries with commas between them.
pub open spec fn fields_text(e: Seq<EntryModel>, n: nat) -> Seq<char>
    decreases e, n,
{
    if n == 0 || n > e.len() {
        Seq::empty()
    } else if n == 1 {
        entry_text(e[0])
    } else {
        fields_text(e, (n - 1) as nat) + ", "@ + entry_text(e[n - 1])
    }
}

/// The table type of some entries.
pub open spec fn table_type(e: Seq<EntryModel>) -> Seq<char> {
    "{ "@ + fields_text(e, e.len()) + " }"@
}

/// The declarations of the first `n` entries, one on each line.
pub open spec fn declarations(e: Seq<EntryModel>, n: int) -> Seq<char>
    decreases n,
{
    if n <= 0 {
        Seq::empty()
    } else {
        declarations(e, n - 1) + ("declare "@ + entry_text(e[n - 1]) + "\n"@)
    }
}

impl HostEntries {
    pub open spec fn view(&self) -> Seq<EntryModel> {
        entry_models(self.entries@)
    }

    /// No entries.
    pub fn new() -> (r: Self)
        ensures
            r@ == Seq::<EntryModel>::empty(),
    {
        let r = HostEntries { entries: Vec::new() };
        assert(r@ =~= Seq::<EntryModel>::empty());
        r
    }

    /// Finds the namespace of a given name; the number of entries where there
    /// is none.
    fn namespace_position(&self, name: &str) -> (r: usize)
        ensures
            r == namespace_at(self@, name@, 0),
            r <= self.entries.len(),
            r < self.entries.len() ==> is_namespace(self@[r as int], name@),
    {
        let mut i: usize = 0;
        while i < self.entries.len()
            invariant
                i <= self.entries.len(),
                namespace_at(self@, name@, i as int) == namespace_at(self@, name@, 0),
            decreases self.entries.len() - i,
        {
            assert(self@[i as int] == self.entries@[i as int]@);
            match &self.entries[i] {
                Entry::Namespace { name: own, .. } => {
                    if same_text(own.as_str(), name) {
                        return i;
                    }
                },
                Entry::Function { .. } => {},
            }
            i += 1;
        }
        self.entries.len()
    }

    /// Registers a function behind the first `from` parts of a path.
    fn insert_function_at(
        self,
        path: &Vec<String>,
        from: usize,
        signature: String,
        factory: u64,
    ) -> (r: HostEntries)
        requires
            from < path.len(),
        ensures
            r@ == with_function(self@, texts(path@).skip(from as int), signature@, factory),
        decreases path.len() - from,
    {
        let ghost rest = texts(path@).skip(from as int);
        let ghost given = self@;
        assert(rest[0] == path@[from as int]@);
        assert(rest.skip(1) =~= texts(path@).skip(from + 1));
        let total: usize = path.len();
        if from + 1 == total {
            let mut entries = self.entries;
            let ghost before = entries@;
            entries.push(Entry::Function { name: path[from].clone(), signature, factory });
            assert(entry_models(entries@) =~= entry_models(before).push(entries@.last()@));
            return HostEntries { entries };
        }
        let at: usize = self.namespace_position(path[from].as_str());
        let mut entries = self.entries;
        let ghost before = entries@;
        if at < entries.len() {
            let entry = entries.remove(at);
            match entry {
                Entry::Namespace { name, entries: inner } => {
                    assert(given[at as int]->entries =~= inner@);
                    let changed = inner.insert_function_at(path, from + 1, signature, factory);
                    let put = Entry::Namespace { name, entries: changed };
                    assert(put@->entries =~= changed@);
                    entries.insert(at, put);
                    assert(entries@ =~= before.update(at as int, put));
                    assert(entry_models(entries@) =~= given.update(at as int, put@));
                    HostEntries { entries }
                },
                Entry::Function { name, signature: own, factory: number } => {
                    assert(false);
                    entries.insert(at, Entry::Function { name, signature: own, factory: number });
                    HostEntries { entries }
                },
            }
        } else {
            let inner = HostEntries::new().insert_function_at(path, from + 1, signature, factory);
            let put = Entry::Namespace { name: path[from].clone(), entries: inner };
            assert(put@->entries =~= inner@);
            entries.push(put);
            assert(entry_models(entries@) =~= given.push(put@));
            HostEntries { entries }
        }
    }

    /// Registers a function at a path.
    pub fn insert_function(self, path: &HostPath, signature: String, factory: u64) -> (r: HostEntries)
        requires
            path.parts@.len() > 0,
        ensures
            r@ == with_function(self@, texts(path.parts@), signature@, factory),
    {
        assert(texts(path.parts@).skip(0) =~= texts(path.parts@));
        self.insert_function_at(&path.parts, 0, signature, factory)
    }

    /// Writes the declarations of these entries.
    pub fn write_declarations(&self, out: &mut String)
        ensures
            final(out)@ == old(out)@ + declarations(self@, self@.len() as int),
    {
        let ghost start = out@;
        let ghost all = self@;
        let mut i: usize = 0;
        assert(start + declarations(all, 0) =~= start);
        while i < self.entries.len()
            invariant
                i <= self.entries.len(),
                all == self@,
                out@ == start + declarations(all, i as int),
            decreases self.entries.len() - i,
        {
            let ghost before = out@;
            out.append("declare ");
            write_entry(&self.entries[i], out);
            out.append("\n");
            assert(all[i as int] == self.entries@[i as int]@);
            assert(out@ =~= start + declarations(all, i + 1));
            i += 1;
        }
    }

    /// Writes the table type of these entries.
    pub fn write_table_type(&self, out: &mut String)
        ensures
            final(out)@ == old(out)@ + table_type(self@),
        decreases self, 0nat,
    {
        let ghost start = out@;
        let ghost all = self@;
        out.append("{ ");
        let mut i: usize = 0;
        assert(out@ =~= start + "{ "@ + fields_text(all, 0));
        while i < self.entries.len()
            invariant
                i <= self.entries.len(),
                all == self@,
                out@ == start + "{ "@ + fields_text(all, i as nat),
            decreases self.entries.len() - i,
        {
            let ghost before = out@;
            if i > 0 {
                out.append(", ");
            }
            assert(all[i as int] == self.entries@[i as int]@);
            write_entry(&self.entries[i], out);
            assert(out@ =~= start + "{ "@ + fields_text(all, (i + 1) as nat));
            i += 1;
        }
        out.append(" }");
        assert(out@ =~= start + table_type(self@));
    }
}

/// Writes the declaration of an entry.
fn write_entry(entry: &Entry, out: &mut String)
    ensures
        final(out)@ == old(out)@ + entry_text(entry@),
    decreases entry, 1nat,
{
    let ghost start = out@;
    match entry {
        Entry::Function { name, signature, .. } => {
            out.append(name.as_str());
            out.append(": ");
            out.append(signature.as_str());
            assert(out@ =~= start + entry_text(entry@));
        },
        Entry::Namespace { name, entries } => {
            out.append(name.as_str());
            out.append(": ");
            entries.write_table_type(out);
            assert(entry@->entries =~= entries@);
            assert(out@ =~= start + entry_text(entry@));
        },
    }
}

/// One step of installing a host API into a machine. Functions and tables go
/// into the table that was opened last, or into the globals where none is open.
#[derive(Debug)]
pub enum InstallStep {
    /// Run an installer.
    Run(u64),
    /// Make the function of a factory and set it under a name.
    SetFunction { name: String, factory: u64 },
    /// Open a new table.
    OpenTable,
    /// Make the open table read-only, and set it under a name in the one
    /// around it.
    CloseTable { name: String },
}

/// Model of an [`InstallStep`].
pub enum InstallModel {
    Run(u64),
    SetFunction { name: Seq<char>, factory: u64 },
    OpenTable,
    CloseTable { name: Seq<char> },
}

impl InstallStep {
    pub open spec fn view(&self) -> InstallModel {
        match self {
            InstallStep::Run(installer) => InstallModel::Run(*installer),
            InstallStep::SetFunction { name, factory } => InstallModel::SetFunction {
                name: name@,
                factory: *factory,
            },
            InstallStep::OpenTable => InstallModel::OpenTable,
            InstallStep::CloseTable { name } => InstallModel::CloseTable { name: name@ },
        }
    }
}

/// The models of some steps.
pub open spec fn step_models(v: Seq<InstallStep>) -> Seq<InstallModel> {
    v.map_values(|s: InstallStep| s@)
}

/// The steps that install an entry: a namespace is a table of its entries.
pub open spec fn entry_steps(e: EntryModel) -> Seq<InstallModel>
    decreases e, 0nat,
{
    match e {
        EntryModel::Function { name, factory, .. } => seq![
            InstallModel::SetFunction { name, factory },
        ],
        EntryModel::Namespace { name, entries } => seq![InstallModel::OpenTable] + entries_steps(
            entries,
            entries.len(),
        ) + seq![InstallModel::CloseTable { name }],
    }
}

/// The steps that install the first `n` entries.
pub open spec fn entries_steps(e: Seq<EntryModel>, n: nat) -> Seq<InstallModel>
    decreases e, n,
{
    if n == 0 || n > e.len() {
        Seq::empty()
    } else {
        entries_steps(e, (n - 1) as nat) + entry_steps(e[n - 1])
    }
}

/// Appends the steps that install some entries.
fn push_entries(entries: &HostEntries, out: &mut Vec<InstallStep>)
    ensures
        step_models(final(out)@) == step_models(old(out)@) + entries_steps(
            entries@,
            entries@.len(),
        ),
    decreases entries, 0nat,
{
    let ghost start = step_models(out@);
    let ghost all = entries@;
    let mut i: usize = 0;
    assert(start + entries_steps(all, 0) =~= start);
    while i < entries.entries.len()
        invariant
            i <= entries.entries.len(),
            all == entries@,
            step_models(out@) == start + entries_steps(all, i as nat),
        decreases entries.entries.len() - i,
    {
        assert(all[i as int] == entries.entries@[i as int]@);
        push_entry(&entries.entries[i], out);
        assert(step_models(out@) =~= start + entries_steps(all, (i + 1) as nat));
        i += 1;
    }
}

/// Appends the steps that install an entry.
fn push_entry(entry: &Entry, out: &mut Vec<InstallStep>)
    ensures
        step_models(final(out)@) == step_models(old(out)@) + entry_steps(entry@),
    decreases entry, 1nat,
{
    let ghost start = out@;
    match entry {
        Entry::Function { name, factory, .. } => {
            let step = InstallStep::SetFunction { name: name.clone(), factory: *factory };
            out.push(step);
            assert(step_models(out@) =~= step_models(start) + entry_steps(entry@));
        },
        Entry::Namespace { name, entries } => {
            out.push(InstallStep::OpenTable);
            assert(step_models(out@) =~= step_models(start) + seq![InstallModel::OpenTable]);
            push_entries(entries, out);
            let ghost before = out@;
            out.push(InstallStep::CloseTable { name: name.clone() });
            assert(entry@->entries =~= entries@);
            assert(step_models(out@) =~= step_models(before).push(
                InstallModel::CloseTable { name: name@ },
            ));
            assert(step_models(out@) =~= step_models(start) + entry_steps(entry@));
        },
    }
}

/// How many tables are open after the first `n` steps.
pub open spec fn open_tables(steps: Seq<InstallModel>, n: int) -> int
    decreases n,
{
    if n <= 0 {
        0
    } else {
        open_tables(steps, n - 1) + (match steps[n - 1] {
            InstallModel::OpenTable => 1int,
            InstallModel::CloseTable { .. } => -1int,
            _ => 0int,
        })
    }
}

proof fn lemma_open_tables(a: Seq<InstallModel>, b: Seq<InstallModel>, n: int)
    requires
        0 <= n <= b.len(),
    ensures
        open_tables(a + b, a.len() + n) == open_tables(a, a.len() as int) + open_tables(b, n),
    decreases n,
{
    if n > 0 {
        lemma_open_tables(a, b, n - 1);
        assert((a + b)[a.len() + n - 1] == b[n - 1]);
    } else {
        lemma_open_prefix(a, b, a.len() as int);
    }
}

proof fn lemma_open_prefix(a: Seq<InstallModel>, b: Seq<InstallModel>, n: int)
    requires
        0 <= n <= a.len(),
    ensures
        open_tables(a + b, n) == open_tables(a, n),
    decreases n,
{
    if n > 0 {
        lemma_open_prefix(a, b, n - 1);
        assert((a + b)[n - 1] == a[n - 1]);
    }
}

/// Installing an entry closes every table that it opens, and never one that it
/// did not open.
pub proof fn law_tables_are_closed(e: EntryModel, n: int)
    requires
        0 <= n <= entry_steps(e).len(),
    ensures
        open_tables(entry_steps(e), n) >= 0,
        open_tables(entry_steps(e), entry_steps(e).len() as int) == 0,
    decreases e, 0nat,
{
    match e {
        EntryModel::Function { name, factory, .. } => {
            let only = seq![InstallModel::SetFunction { name, factory }];
            assert(entry_steps(e) =~= only);
            reveal_with_fuel(open_tables, 2);
        },
        EntryModel::Namespace { name, entries } => {
            let head = seq![InstallModel::OpenTable];
            let body = entries_steps(entries, entries.len());
            let tail = seq![InstallModel::CloseTable { name }];
            reveal_with_fuel(open_tables, 2);
            assert(open_tables(head, 1) == 1);
            assert(open_tables(tail, 1) == -1);
            lemma_entries_closed(entries, entries.len(), body.len() as int);
            lemma_open_tables(head, body, body.len() as int);
            lemma_open_tables(head + body, tail, 1);
            assert(entry_steps(e) =~= head + body + tail);
            if n <= 1 {
                lemma_open_prefix(head, body + tail, n);
                assert(head + (body + tail) =~= entry_steps(e));
            } else if n <= 1 + body.len() {
                lemma_entries_closed(entries, entries.len(), n - 1);
                lemma_open_tables(head, body, n - 1);
                lemma_open_prefix(head + body, tail, n);
            }
        },
    }
}

/// The same of a list of entries.
proof fn lemma_entries_closed(e: Seq<EntryModel>, k: nat, n: int)
    requires
        0 <= n <= entries_steps(e, k).len(),
    ensures
        open_tables(entries_steps(e, k), n) >= 0,
        open_tables(entries_steps(e, k), entries_steps(e, k).len() as int) == 0,
    decreases e, k,
{
    if k > 0 && k <= e.len() {
        let before = entries_steps(e, (k - 1) as nat);
        let last = entry_steps(e[k - 1]);
        lemma_entries_closed(e, (k - 1) as nat, before.len() as int);
        law_tables_are_closed(e[k - 1], last.len() as int);
        lemma_open_tables(before, last, last.len() as int);
        if n <= before.len() {
            lemma_entries_closed(e, (k - 1) as nat, n);
            lemma_open_prefix(before, last, n);
        } else {
            law_tables_are_closed(e[k - 1], n - before.len());
            lemma_open_tables(before, last, n - before.len());
        }
    }
}

/// Runtime host registrations plus matching `.d.luau` definitions.
#[derive(Debug)]
pub struct HostApi {
    /// Concatenated manual and generated `.d.luau` definitions.
    pub definition_text: String,
    /// Manually supplied `.d.luau` definitions.
    pub manual_definitions: String,
    /// Generated host-function declarations and factories.
    pub generated: HostEntries,
    /// Numbers of the runtime installation callbacks.
    pub installers: Vec<u64>,
    /// Top-level globals declared by definitions whose ownership is known.
    pub declared: SortedSet,
    /// Top-level globals installed by runtime callbacks whose ownership is known.
    pub installed: SortedSet,
}

/// Model of a [`HostApi`].
#[verifier::ext_equal]
pub struct HostModel {
    pub manual: Seq<char>,
    pub entries: Seq<EntryModel>,
    pub installers: Seq<u64>,
    pub declared: Set<Seq<char>>,
    pub installed: Set<Seq<char>>,
}

/// A host API that registers nothing.
pub open spec fn no_host() -> HostModel {
    HostModel {
        manual: Seq::empty(),
        entries: Seq::empty(),
        installers: Seq::empty(),
        declared: Set::empty(),
        installed: Set::empty(),
    }
}

/// All definitions of a host API: the manual ones, and behind them the
/// generated ones.
pub open spec fn definitions_of(h: HostModel) -> Seq<char> {
    h.manual + declarations(h.entries, h.entries.len() as int)
}

/// A host API with one more definition on a line of its own; white space alone
/// adds nothing.
pub open spec fn with_definition(h: HostModel, definition: Seq<char>) -> HostModel {
    if trim(definition).len() == 0 {
        h
    } else {
        HostModel { manual: h.manual + trim(definition) + "\n"@, ..h }
    }
}

/// A host API with one more function; its global is declared and installed.
pub open spec fn with_host_function(
    h: HostModel,
    path: Seq<Seq<char>>,
    signature: Seq<char>,
    factory: u64,
) -> HostModel {
    HostModel {
        entries: with_function(h.entries, path, signature, factory),
        declared: h.declared.insert(path[0]),
        installed: h.installed.insert(path[0]),
        ..h
    }
}

/// What registering a function gives: the path is looked at before the
/// signature.
pub open spec fn host_function(
    h: HostModel,
    kind: Seq<char>,
    path: Seq<char>,
    signature: Seq<char>,
    factory: u64,
) -> Result<HostModel, HostApiFault> {
    match host_path(kind, path) {
        Err(e) => Err(e),
        Ok(parts) => if function_signature(signature) {
            Ok(with_host_function(h, parts, signature, factory))
        } else {
            Err(HostApiFault::InvalidFunctionSignature { signature: trim(signature) })
        },
    }
}

impl HostApi {
    pub open spec fn view(&self) -> HostModel {
        HostModel {
            manual: self.manual_definitions@,
            entries: self.generated@,
            installers: self.installers@,
            declared: self.declared@,
            installed: self.installed@,
        }
    }

    /// The definitions are those of the manual and the generated part.
    pub open spec fn wf(&self) -> bool {
        &&& self.definition_text@ == definitions_of(self@)
        &&& self.declared.wf()
        &&& self.installed.wf()
    }

    /// Creates an empty host API bundle.
    pub fn new() -> (r: Self)
        ensures
            r.wf(),
            r@ == no_host(),
    {
        let r = HostApi {
            definition_text: String::new(),
            manual_definitions: String::new(),
            generated: HostEntries::new(),
            installers: Vec::new(),
            declared: SortedSet::new(),
            installed: SortedSet::new(),
        };
        assert(r@ =~= no_host());
        assert(r.definition_text@ =~= definitions_of(r@));
        r
    }

    /// Appends one normalized definition block.
    fn push_definition(&mut self, definition: &str)
        requires
            old(self).wf(),
        ensures
            final(self).wf(),
            final(self)@ == with_definition(old(self)@, definition@),
    {
        let chars: Vec<char> = chars_of(definition);
        let s = trimmed(chars.as_slice());
        if s.len() > 0 {
            self.manual_definitions.append(string_of(s).as_str());
            self.manual_definitions.append("\n");
            self.refresh_definitions();
        }
    }

    /// Writes the definitions anew.
    fn refresh_definitions(&mut self)
        requires
            old(self).declared.wf(),
            old(self).installed.wf(),
        ensures
            final(self).wf(),
            final(self)@ == old(self)@,
    {
        let mut out = self.manual_definitions.clone();
        self.generated.write_declarations(&mut out);
        self.definition_text = out;
    }

    /// Adds analyzer definitions without installing runtime functions.
    pub fn add_definition(self, definition: &str) -> (r: Self)
        requires
            self.wf(),
        ensures
            r.wf(),
            r@ == with_definition(self@, definition@),
    {
        let mut r = self;
        r.push_definition(definition);
        r
    }

    /// Adds analyzer definitions for one known top-level global without installing it.
    pub fn add_definition_for(self, global: &str, definition: &str) -> (r: Self)
        requires
            self.wf(),
        ensures
            r.wf(),
            r@ == (HostModel {
                declared: self@.declared.insert(global@),
                ..with_definition(self@, definition@)
            }),
    {
        let mut r = self;
        r.push_definition(definition);
        r.declared.insert(global.to_owned());
        r
    }

    /// Adds a runtime installer for one known top-level global without adding definitions.
    pub fn add_installer(self, global: &str, installer: u64) -> (r: Self)
        requires
            self.wf(),
        ensures
            r.wf(),
            r@ == (HostModel {
                installed: self@.installed.insert(global@),
                installers: self@.installers.push(installer),
                ..self@
            }),
    {
        let mut r = self;
        r.installed.insert(global.to_owned());
        r.installers.push(installer);
        r
    }

    /// Registers a function whose path and signature were described by `kind`.
    fn register(self, kind: &'static str, path: &str, factory: u64, signature: &str) -> (r: Result<
        Self,
        HostApiError,
    >)
        requires
            self.wf(),
        ensures
            match r {
                Ok(h) => h.wf() && host_function(self@, kind@, path@, signature@, factory) == Ok::<
                    _,
                    HostApiFault,
                >(h@),
                Err(e) => host_function(self@, kind@, path@, signature@, factory) == Err::<
                    HostModel,
                    _,
                >(e@),
            },
    {
        let parts = match HostPath::parse(kind, path) {
            Ok(parts) => parts,
            Err(e) => {
                return Err(e);
            },
        };
        match check_function_signature(signature) {
            Ok(_) => {},
            Err(e) => {
                return Err(e);
            },
        }
        let ghost given = self@;
        assert(texts(parts.parts@)[0] == parts.parts@[0]@);
        let mut declared = self.declared;
        let mut installed = self.installed;
        declared.insert(parts.parts[0].clone());
        installed.insert(parts.parts[0].clone());
        let mut r = HostApi {
            definition_text: self.definition_text,
            manual_definitions: self.manual_definitions,
            generated: self.generated.insert_function(&parts, signature.to_owned(), factory),
            installers: self.installers,
            declared,
            installed,
        };
        r.refresh_definitions();
        assert(r@ =~= with_host_function(given, texts(parts.parts@), signature@, factory));
        Ok(r)
    }

    /// Registers a host function by path and returns validation errors.
    ///
    /// Dotted paths create read-only namespace tables. For example, registering
    /// `term.echo` with the signature `"(msg: string) -> string"` generates
    /// `declare term: { echo: (msg: string) -> string }`.
    pub fn try_function(self, path: &str, factory: u64, signature: &str) -> (r: Result<
        Self,
        HostApiError,
    >)
        requires
            self.wf(),
        ensures
            match r {
                Ok(h) => h.wf() && host_function(
                    self@,
                    "host function"@,
                    path@,
                    signature@,
                    factory,
                ) == Ok::<_, HostApiFault>(h@),
                Err(e) => host_function(self@, "host function"@, path@, signature@, factory)
                    == Err::<HostModel, _>(e@),
            },
    {
        self.register("host function", path, factory, signature)
    }

    /// Registers a host function by a valid path and signature.
    pub fn function(self, path: &str, factory: u64, signature: &str) -> (r: Self)
        requires
            self.wf(),
            host_function(self@, "host function"@, path@, signature@, factory) is Ok,
        ensures
            r.wf(),
            host_function(self@, "host function"@, path@, signature@, factory) == Ok::<
                _,
                HostApiFault,
            >(r@),
    {
        match self.try_function(path, factory, signature) {
            Ok(h) => h,
            Err(_) => {
                assert(false);
                HostApi::new()
            },
        }
    }

    /// Registers an async host function by path and returns validation errors.
    pub fn try_async_function(self, path: &str, factory: u64, signature: &str) -> (r: Result<
        Self,
        HostApiError,
    >)
        requires
            self.wf(),
        ensures
            match r {
                Ok(h) => h.wf() && host_function(
                    self@,
                    "host async function"@,
                    path@,
                    signature@,
                    factory,
                ) == Ok::<_, HostApiFault>(h@),
                Err(e) => host_function(self@, "host async function"@, path@, signature@, factory)
                    == Err::<HostModel, _>(e@),
            },
    {
        self.register("host async function", path, factory, signature)
    }

    /// Registers an async host function by a valid path and signature.
    pub fn async_function(self, path: &str, factory: u64, signature: &str) -> (r: Self)
        requires
            self.wf(),
            host_function(self@, "host async function"@, path@, signature@, factory) is Ok,
        ensures
            r.wf(),
            host_function(self@, "host async function"@, path@, signature@, factory) == Ok::<
                _,
                HostApiFault,
            >(r@),
    {
        match self.try_async_function(path, factory, signature) {
            Ok(h) => h,
            Err(_) => {
                assert(false);
                HostApi::new()
            },
        }
    }

    /// Returns all analyzer definitions registered on this host API.
    pub fn definitions(&self) -> (r: &str)
        requires
            self.wf(),
        ensures
            r@ == definitions_of(self@),
    {
        self.definition_text.as_str()
    }

    /// The steps that install the runtime registrations: the installers in
    /// their order, and then the functions.
    pub fn install(&self) -> (r: Vec<InstallStep>)
        requires
            self.wf(),
        ensures
            step_models(r@) == self@.installers.map_values(|i: u64| InstallModel::Run(i))
                + entries_steps(self@.entries, self@.entries.len()),
    {
        let mut out: Vec<InstallStep> = Vec::new();
        let ghost runs = self@.installers.map_values(|i: u64| InstallModel::Run(i));
        let mut i: usize = 0;
        assert(step_models(out@) =~= runs.take(0));
        while i < self.installers.len()
            invariant
                i <= self.installers.len(),
                runs == self@.installers.map_values(|i: u64| InstallModel::Run(i)),
                step_models(out@) == runs.take(i as int),
            decreases self.installers.len() - i,
        {
            let ghost before = out@;
            out.push(InstallStep::Run(self.installers[i]));
            assert(step_models(out@) =~= step_models(before).push(runs[i as int]));
            assert(runs.take(i + 1) =~= runs.take(i as int).push(runs[i as int]));
            i += 1;
        }
        assert(runs.take(i as int) =~= runs);
        push_entries(&self.generated, &mut out);
        out
    }

    /// Starts the installation of the runtime registrations. The host API is
    /// left as it is, so it can be installed again.
    pub fn begin_install(&self) -> (r: Installation)
        requires
            self.wf(),
        ensures
            r.wf(),
            r@ == begun(
                self@.installers.map_values(|i: u64| InstallModel::Run(i)) + entries_steps(
                    self@.entries,
                    self@.entries.len(),
                ),
            ),
    {
        Installation { steps: self.install(), done: 0, failed: None }
    }

    /// Returns known top-level globals declared by this host API, in order.
    pub fn declared_globals(&self) -> (r: Vec<String>)
        requires
            self.wf(),
        ensures
            increasing(texts(r@)),
            forall|k: Seq<char>| texts(r@).contains(k) <==> #[trigger] self@.declared.contains(k),
    {
        self.declared.to_vec()
    }

    /// Returns known top-level globals installed by this host API, in order.
    pub fn installed_globals(&self) -> (r: Vec<String>)
        requires
            self.wf(),
        ensures
            increasing(texts(r@)),
            forall|k: Seq<char>| texts(r@).contains(k) <==> #[trigger] self@.installed.contains(k),
    {
        self.installed.to_vec()
    }
}

/// An installation that runs: the caller takes each pending step and reports
/// how it went.
#[derive(Debug)]
pub struct Installation {
    /// All steps in order.
    pub steps: Vec<InstallStep>,
    /// How many of them went well.
    pub done: usize,
    /// The error of the step behind those.
    pub failed: Option<Error>,
}

/// Model of an [`Installation`].
#[verifier::ext_equal]
pub struct InstallationModel {
    pub steps: Seq<InstallModel>,
    pub done: int,
    pub failed: Option<ErrorModel>,
}

/// An installation of some steps at its start.
pub open spec fn begun(steps: Seq<InstallModel>) -> InstallationModel {
    InstallationModel { steps, done: 0, failed: None }
}

/// The step to run next; there is none after the last one or after a failure.
pub open spec fn pending_step(m: InstallationModel) -> Option<InstallModel> {
    if m.failed is None && 0 <= m.done < m.steps.len() {
        Some(m.steps[m.done])
    } else {
        None
    }
}

/// The installation after the pending step was run.
pub open spec fn reported(
    m: InstallationModel,
    outcome: Result<(), ErrorModel>,
) -> InstallationModel {
    match outcome {
        Ok(()) => InstallationModel { done: m.done + 1, ..m },
        Err(e) => InstallationModel { failed: Some(e), ..m },
    }
}

/// The steps that were run, in order.
pub open spec fn steps_run(m: InstallationModel) -> Seq<InstallModel> {
    m.steps.take(
        m.done + (if m.failed is Some {
            1int
        } else {
            0int
        }),
    )
}

/// The installation run to its end, where each step that is run has the outcome
/// at its place.
pub open spec fn run_out(
    m: InstallationModel,
    outcomes: Seq<Result<(), ErrorModel>>,
) -> InstallationModel
    decreases m.steps.len() - m.done, (if m.failed is Some { 0int } else { 1int }),
{
    if pending_step(m) is Some {
        run_out(reported(m, outcomes[m.done]), outcomes)
    } else {
        m
    }
}

/// Position of the first failure at or after `i`, or the number of outcomes.
pub open spec fn first_failure(outcomes: Seq<Result<(), ErrorModel>>, i: int) -> int
    decreases outcomes.len() - i,
{
    if i < 0 || i >= outcomes.len() {
        outcomes.len() as int
    } else if outcomes[i] is Err {
        i
    } else {
        first_failure(outcomes, i + 1)
    }
}

proof fn lemma_run_out(m: InstallationModel, outcomes: Seq<Result<(), ErrorModel>>)
    requires
        outcomes.len() == m.steps.len(),
        0 <= m.done <= m.steps.len(),
        m.failed is None,
    ensures
        ({
            let k = first_failure(outcomes, m.done);
            &&& m.done <= k <= outcomes.len()
            &&& run_out(m, outcomes) == (InstallationModel {
                steps: m.steps,
                done: k,
                failed: if k < outcomes.len() {
                    Some(outcomes[k]->Err_0)
                } else {
                    None
                },
            })
        }),
    decreases m.steps.len() - m.done,
{
    if m.done < m.steps.len() {
        let next = reported(m, outcomes[m.done]);
        if outcomes[m.done] is Ok {
            lemma_run_out(next, outcomes);
        } else {
            assert(run_out(next, outcomes) == next);
        }
    }
}

/// An installation runs its steps once each and in order, up to the first one
/// that fails, and hands on its error; where none fails it runs them all.
pub proof fn law_install_stops_at_first_failure(
    steps: Seq<InstallModel>,
    outcomes: Seq<Result<(), ErrorModel>>,
)
    requires
        outcomes.len() == steps.len(),
    ensures
        ({
            let end = run_out(begun(steps), outcomes);
            let k = first_failure(outcomes, 0);
            &&& k < steps.len() ==> steps_run(end) == steps.take(k + 1) && outcomes[k]
                == Err::<(), ErrorModel>(end.failed->Some_0) && end.failed is Some
            &&& k == steps.len() ==> steps_run(end) == steps && end.failed is None
            &&& end.failed is None <==> forall|i: int|
                0 <= i < outcomes.len() ==> #[trigger] outcomes[i] is Ok
        }),
{
    lemma_run_out(begun(steps), outcomes);
    lemma_first_failure(outcomes, 0);
    assert(steps.take(steps.len() as int) =~= steps);
}

proof fn lemma_first_failure(outcomes: Seq<Result<(), ErrorModel>>, i: int)
    requires
        0 <= i <= outcomes.len(),
    ensures
        i <= first_failure(outcomes, i) <= outcomes.len(),
        first_failure(outcomes, i) < outcomes.len() ==> outcomes[first_failure(outcomes, i)] is Err,
        forall|k: int| i <= k < first_failure(outcomes, i) ==> #[trigger] outcomes[k] is Ok,
    decreases outcomes.len() - i,
{
    if i < outcomes.len() && outcomes[i] is Ok {
        lemma_first_failure(outcomes, i + 1);
    }
}

impl Installation {
    pub open spec fn view(&self) -> InstallationModel {
        InstallationModel {
            steps: step_models(self.steps@),
            done: self.done as int,
            failed: match self.failed {
                Some(e) => Some(e@),
                None => None,
            },
        }
    }

    /// No more steps were done than there are.
    pub open spec fn wf(&self) -> bool {
        &&& self.done <= self.steps@.len()
        &&& self.failed is Some ==> self.done < self.steps@.len()
    }

    /// The step to run next; there is none after the last one or after a
    /// failure.
    pub fn pending(&self) -> (r: Option<&InstallStep>)
        requires
            self.wf(),
        ensures
            match r {
                Some(step) => pending_step(self@) == Some(step@),
                None => pending_step(self@) is None,
            },
    {
        if self.failed.is_none() && self.done < self.steps.len() {
            assert(self@.steps[self.done as int] == self.steps@[self.done as int]@);
            Some(&self.steps[self.done])
        } else {
            None
        }
    }

    /// Takes the outcome of the pending step.
    pub fn report(&mut self, outcome: Result<(), Error>)
        requires
            old(self).wf(),
            pending_step(old(self)@) is Some,
        ensures
            final(self).wf(),
            final(self)@ == reported(
                old(self)@,
                match outcome {
                    Ok(()) => Ok(()),
                    Err(e) => Err(e@),
                },
            ),
    {
        match outcome {
            Ok(()) => {
                assert(self.done < self.steps.len());
                self.done = self.done + 1;
            },
            Err(e) => {
                self.failed = Some(e);
            },
        }
    }

    /// The result of an installation that has no pending step: the error of the
    /// step that failed, if one did.
    pub fn finish(self) -> (r: Result<(), Error>)
        requires
            self.wf(),
            pending_step(self@) is None,
        ensures
            match self.failed {
                Some(e) => r == Err::<(), Error>(e),
                None => r is Ok && self@.done == self@.steps.len(),
            },
    {
        match self.failed {
            Some(e) => Err(e),
            None => Ok(()),
        }
    }
}

/// A registered function is both declared and installed, so that registering
/// functions alone never lets the two drift apart.
pub proof fn law_functions_do_not_drift(
    h: HostModel,
    kind: Seq<char>,
    path: Seq<char>,
    signature: Seq<char>,
    factory: u64,
)
    requires
        h.declared == h.installed,
        host_function(h, kind, path, signature, factory) is Ok,
    ensures
        host_function(h, kind, path, signature, factory)->Ok_0.declared == host_function(
            h,
            kind,
            path,
            signature,
            factory,
        )->Ok_0.installed,
{
}

/// A function registered by a plain name is declared on a line behind all
/// other definitions, and leaves those as they are.
pub proof fn law_plain_function_is_declared(
    h: HostModel,
    name: Seq<char>,
    signature: Seq<char>,
    factory: u64,
)
    ensures
        definitions_of(with_host_function(h, seq![name], signature, factory)) == definitions_of(h)
            + ("declare "@ + (name + ": "@ + signature) + "\n"@),
{
    let n = h.entries.len() as int;
    let entry = EntryModel::Function { name, signature, factory };
    let all = h.entries.push(entry);
    lemma_declarations_prefix(h.entries, entry, n);
    assert(all[n] == entry);
    assert(h.manual + (declarations(h.entries, n) + ("declare "@ + entry_text(entry) + "\n"@))
        =~= definitions_of(h) + ("declare "@ + entry_text(entry) + "\n"@));
}

/// The declarations of the first entries do not depend on a later one.
proof fn lemma_declarations_prefix(e: Seq<EntryModel>, last: EntryModel, n: int)
    requires
        n <= e.len(),
    ensures
        declarations(e.push(last), n) == declarations(e, n),
    decreases n,
{
    if n > 0 {
        lemma_declarations_prefix(e, last, n - 1);
    }
}

/// Whether no two namespaces among some entries share a name.
pub open spec fn one_namespace_each(e: Seq<EntryModel>) -> bool {
    forall|i: int, j: int, name: Seq<char>|
        #![trigger is_namespace(e[i], name), is_namespace(e[j], name)]
        0 <= i < e.len() && 0 <= j < e.len() && is_namespace(e[i], name) && is_namespace(e[j], name)
            ==> i == j
}

/// The position that is found is a namespace of that name, or there is none.
proof fn lemma_namespace_at(e: Seq<EntryModel>, name: Seq<char>, i: int)
    requires
        0 <= i <= e.len(),
    ensures
        i <= namespace_at(e, name, i) <= e.len(),
        namespace_at(e, name, i) < e.len() ==> is_namespace(e[namespace_at(e, name, i)], name),
        forall|k: int|
            i <= k < namespace_at(e, name, i) ==> !is_namespace(#[trigger] e[k], name),
    decreases e.len() - i,
{
    if i < e.len() && !is_namespace(e[i], name) {
        lemma_namespace_at(e, name, i + 1);
    }
}

/// Functions that share a namespace share its table: registering a function
/// never makes a second namespace of a name that there is.
pub proof fn law_namespaces_are_shared(
    e: Seq<EntryModel>,
    path: Seq<Seq<char>>,
    signature: Seq<char>,
    factory: u64,
)
    requires
        one_namespace_each(e),
    ensures
        one_namespace_each(with_function(e, path, signature, factory)),
{
    let w = with_function(e, path, signature, factory);
    if path.len() > 1 {
        let at = namespace_at(e, path[0], 0);
        lemma_namespace_at(e, path[0], 0);
        assert forall|i: int, j: int, name: Seq<char>|
            #![trigger is_namespace(w[i], name), is_namespace(w[j], name)]
            0 <= i < w.len() && 0 <= j < w.len() && is_namespace(w[i], name) && is_namespace(
                w[j],
                name,
            ) implies i == j by {
            if i < e.len() {
                assert(is_namespace(e[i], name));
            }
            if j < e.len() {
                assert(is_namespace(e[j], name));
            }
        }
    } else if path.len() == 1 {
        assert forall|i: int, j: int, name: Seq<char>|
            #![trigger is_namespace(w[i], name), is_namespace(w[j], name)]
            0 <= i < w.len() && 0 <= j < w.len() && is_namespace(w[i], name) && is_namespace(
                w[j],
                name,
            ) implies i == j by {
            assert(i < e.len() && is_namespace(e[i], name));
            assert(j < e.len() && is_namespace(e[j], name));
        }
    }
}

/// A dotted path is taken where each of its parts is an identifier; joined
/// with dots again they are the path. What is reported otherwise is a part
/// that is no identifier.
pub proof fn law_paths_are_identifiers(kind: Seq<char>, path: Seq<char>)
    ensures
        host_path(kind, path) is Ok <==> forall|i: int|
            0 <= i < split_on(path, '.').len() ==> luau_identifier(
                #[trigger] split_on(path, '.')[i],
            ),
        host_path(kind, path) matches Ok(parts) ==> join(parts, seq!['.']) == path && parts.len()
            > 0,
        host_path(kind, path) matches Err(e) ==> (e matches HostApiFault::InvalidIdentifier {
            kind: own,
            name,
        } && own == kind && split_on(path, '.').contains(name) && !luau_identifier(name)),
{
    let parts = split_on(path, '.');
    lemma_first_bad_part(parts, 0);
    law_split_joins_back(path, '.');
    crate::text::lemma_split_nonempty(path, '.', 0, 0);
    let bad = first_bad_part(parts, 0);
    if bad < parts.len() {
        assert(parts.contains(parts[bad]));
    }
}

proof fn lemma_first_bad_part(parts: Seq<Seq<char>>, i: int)
    requires
        0 <= i <= parts.len(),
    ensures
        i <= first_bad_part(parts, i) <= parts.len(),
        forall|k: int| i <= k < first_bad_part(parts, i) ==> luau_identifier(#[trigger] parts[k]),
        first_bad_part(parts, i) < parts.len() ==> !luau_identifier(
            parts[first_bad_part(parts, i)],
        ),
    decreases parts.len() - i,
{
    if i < parts.len() && luau_identifier(parts[i]) {
        lemma_first_bad_part(parts, i + 1);
    }
}

/// Whether a path leads through namespaces to a function with a signature and
/// a factory.
pub open spec fn leads_to(
    e: Seq<EntryModel>,
    path: Seq<Seq<char>>,
    signature: Seq<char>,
    factory: u64,
) -> bool
    decreases path.len(),
{
    if path.len() == 0 {
        false
    } else if path.len() == 1 {
        exists|i: int|
            0 <= i < e.len() && #[trigger] e[i] == (EntryModel::Function {
                name: path[0],
                signature,
                factory,
            })
    } else {
        exists|i: int|
            0 <= i < e.len() && is_namespace(#[trigger] e[i], path[0]) && leads_to(
                e[i]->entries,
                path.skip(1),
                signature,
                factory,
            )
    }
}

/// A function that was registered is found at its path, with its signature and
/// its factory.
pub proof fn law_registered_function_is_found(
    e: Seq<EntryModel>,
    path: Seq<Seq<char>>,
    signature: Seq<char>,
    factory: u64,
)
    requires
        path.len() > 0,
    ensures
        leads_to(with_function(e, path, signature, factory), path, signature, factory),
    decreases path.len(),
{
    let w = with_function(e, path, signature, factory);
    if path.len() == 1 {
        assert(w[e.len() as int] == (EntryModel::Function { name: path[0], signature, factory }));
    } else {
        let at = namespace_at(e, path[0], 0);
        lemma_namespace_at(e, path[0], 0);
        if at < e.len() {
            law_registered_function_is_found(e[at]->entries, path.skip(1), signature, factory);
            assert(is_namespace(w[at], path[0]));
        } else {
            law_registered_function_is_found(Seq::empty(), path.skip(1), signature, factory);
            assert(is_namespace(w[e.len() as int], path[0]));
        }
    }
}

/// Registering a function takes none away that was registered before.
pub proof fn law_registered_functions_stay(
    e: Seq<EntryModel>,
    path: Seq<Seq<char>>,
    signature: Seq<char>,
    factory: u64,
    other: Seq<Seq<char>>,
    own: Seq<char>,
    number: u64,
)
    requires
        leads_to(e, other, own, number),
    ensures
        leads_to(with_function(e, path, signature, factory), other, own, number),
    decreases path.len(),
{
    let w = with_function(e, path, signature, factory);
    let at = namespace_at(e, path[0], 0);
    lemma_namespace_at(e, path[0], 0);
    if path.len() > 0 {
        if other.len() == 1 {
            let i = choose|i: int|
                0 <= i < e.len() && #[trigger] e[i] == (EntryModel::Function {
                    name: other[0],
                    signature: own,
                    factory: number,
                });
            assert(w[i] == e[i]);
        } else {
            let i = choose|i: int|
                0 <= i < e.len() && is_namespace(#[trigger] e[i], other[0]) && leads_to(
                    e[i]->entries,
                    other.skip(1),
                    own,
                    number,
                );
            if path.len() > 1 && at == i {
                law_registered_functions_stay(
                    e[i]->entries,
                    path.skip(1),
                    signature,
                    factory,
                    other.skip(1),
                    own,
                    number,
                );
                assert(is_namespace(w[i], other[0]));
            } else {
                assert(w[i] == e[i]);
            }
        }
    }
}

/// Every function that a path leads to is set by the installation, under its
/// name and with its factory.
pub proof fn law_every_function_is_installed(
    e: Seq<EntryModel>,
    path: Seq<Seq<char>>,
    signature: Seq<char>,
    factory: u64,
)
    requires
        leads_to(e, path, signature, factory),
    ensures
        entries_steps(e, e.len()).contains(
            (InstallModel::SetFunction { name: path.last(), factory }),
        ),
    decreases path.len(),
{
    let step = InstallModel::SetFunction { name: path.last(), factory };
    if path.len() == 1 {
        let i = choose|i: int|
            0 <= i < e.len() && #[trigger] e[i] == (EntryModel::Function {
                name: path[0],
                signature,
                factory,
            });
        assert(entry_steps(e[i])[0] == step);
        lemma_step_is_kept(e, e.len(), i, step);
    } else {
        let i = choose|i: int|
            0 <= i < e.len() && is_namespace(#[trigger] e[i], path[0]) && leads_to(
                e[i]->entries,
                path.skip(1),
                signature,
                factory,
            );
        let inner = e[i]->entries;
        law_every_function_is_installed(inner, path.skip(1), signature, factory);
        assert(path.skip(1).last() == path.last());
        let body = entries_steps(inner, inner.len());
        let k = body.index_of(step);
        assert(entry_steps(e[i])[k + 1] == step);
        lemma_step_is_kept(e, e.len(), i, step);
    }
}

proof fn lemma_step_is_kept(e: Seq<EntryModel>, n: nat, i: int, step: InstallModel)
    requires
        0 <= i < n <= e.len(),
        entry_steps(e[i]).contains(step),
    ensures
        entries_steps(e, n).contains(step),
    decreases n,
{
    let before = entries_steps(e, (n - 1) as nat);
    let last = entry_steps(e[n - 1]);
    let all = before + last;
    assert(entries_steps(e, n) == all);
    if i == n - 1 {
        let k = last.index_of(step);
        assert(all[before.len() + k] == step);
    } else {
        lemma_step_is_kept(e, (n - 1) as nat, i, step);
        let k = before.index_of(step);
        assert(all[k] == step);
    }
}

/// A function that is registered in a namespace is declared in the table type
/// of that namespace: alone in a new one, and behind the others in one that
/// there is.
pub proof fn law_namespaced_function_is_declared(
    namespace: Seq<char>,
    name: Seq<char>,
    signature: Seq<char>,
    factory: u64,
    inner: Seq<EntryModel>,
)
    requires
        inner.len() > 0,
    ensures
        declarations(
            with_function(Seq::empty(), seq![namespace, name], signature, factory),
            1,
        ) == "declare "@ + namespace + ": { "@ + name + ": "@ + signature + " }\n"@,
        table_type(with_function(inner, seq![name], signature, factory)) == "{ "@ + fields_text(
            inner,
            inner.len(),
        ) + ", "@ + name + ": "@ + signature + " }"@,
{
    reveal_strlit("declare ");
    reveal_strlit(": ");
    reveal_strlit("{ ");
    reveal_strlit(": { ");
    reveal_strlit(" }");
    reveal_strlit("\n");
    reveal_strlit(" }\n");
    let path = seq![namespace, name];
    let none = Seq::<EntryModel>::empty();
    assert(path.skip(1) =~= seq![name]);
    assert(namespace_at(none, namespace, 0) == 0);
    let f = EntryModel::Function { name, signature, factory };
    let one = with_function(none, seq![name], signature, factory);
    assert(one =~= seq![f]);
    let w = with_function(none, path, signature, factory);
    assert(w.len() == 1);
    assert(fields_text(one, 1) == entry_text(f));
    reveal_with_fuel(declarations, 2);
    assert(": "@ + "{ "@ =~= ": { "@);
    assert(" }"@ + "\n"@ =~= " }\n"@);
    assert(declarations(w, 1) =~= "declare "@ + (namespace + ": "@ + ("{ "@ + (name + ": "@
        + signature) + " }"@)) + "\n"@);
    assert(declarations(w, 1) =~= "declare "@ + namespace + (": "@ + "{ "@) + name + ": "@
        + signature + (" }"@ + "\n"@));
    let more = with_function(inner, seq![name], signature, factory);
    assert(more =~= inner.push(f));
    lemma_fields_prefix(inner, f, inner.len());
    assert(more[inner.len() as int] == f);
    assert(fields_text(more, more.len()) == fields_text(more, inner.len()) + ", "@ + entry_text(
        f,
    ));
    assert(table_type(more) =~= "{ "@ + fields_text(inner, inner.len()) + ", "@ + name + ": "@
        + signature + " }"@);
}

proof fn lemma_fields_prefix(e: Seq<EntryModel>, last: EntryModel, n: nat)
    requires
        n <= e.len(),
    ensures
        fields_text(e.push(last), n) == fields_text(e, n),
    decreases n,
{
    if n > 1 {
        lemma_fields_prefix(e, last, (n - 1) as nat);
        assert(e.push(last)[n - 1] == e[n - 1]);
    } else if n == 1 {
        assert(e.push(last)[0] == e[0]);
    }
}

/// The first name on the path of a registered function is declared and
/// installed from then on, and what was so before stays so.
pub proof fn law_function_adds_its_global(
    h: HostModel,
    kind: Seq<char>,
    path: Seq<char>,
    signature: Seq<char>,
    factory: u64,
    global: Seq<char>,
)
    ensures
        host_function(h, kind, path, signature, factory) matches Ok(g) ==> {
            &&& g.declared.contains(split_on(path, '.')[0])
            &&& g.installed.contains(split_on(path, '.')[0])
            &&& global != split_on(path, '.')[0] ==> (g.declared.contains(global)
                <==> h.declared.contains(global))
            &&& global != split_on(path, '.')[0] ==> (g.installed.contains(global)
                <==> h.installed.contains(global))
            &&& h.declared.contains(global) ==> g.declared.contains(global)
            &&& h.installed.contains(global) ==> g.installed.contains(global)
            &&& leads_to(g.entries, split_on(path, '.'), signature, factory)
        },
        host_function(h, kind, path, signature, factory) is Ok <==> host_path(kind, path) is Ok
            && function_signature(signature),
{
    crate::text::lemma_split_nonempty(path, '.', 0, 0);
    law_registered_function_is_found(h.entries, split_on(path, '.'), signature, factory);
}

} // verus!
