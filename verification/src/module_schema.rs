//! Structure extraction from `.d.luau` declaration text.
//!
//! The scanner recognises the declaration shapes of hand-written definition
//! files without type checking them.
use crate::sorted::{
    entries_view, get_entry, holds, lemma_mapped, lemma_put, lemma_same_keys, lookup, mapped, ordered, put,
    rank, SortedMap,
};
use crate::text::{
    chars_of, ends, has_at, has_prefix, ident_char, ident_end, ident_len, ident_start,
    is_ident_char, lemma_ident, lemma_trim_len, line_ranges, read_ident_len, split_lines, starts,
    string_of, texts, trim, trim_end, trim_start, trimmed, trimmed_start, utf8_width, white,
    white_end, width_of,
};
use vstd::prelude::*;
use vstd::slice::slice_subrange;
use vstd::string::*;

verus! {

/// Schema extracted from one declaration file.
#[derive(Debug)]
pub struct ModuleSchema {
    /// Top-level declared module-root global, if any.
    pub root: Option<ModuleRoot>,
    /// `declare class` declarations by name.
    pub classes: SortedMap<ClassSchema>,
}

/// Top-level `declare <name>: { ... }`.
#[derive(Debug)]
pub struct ModuleRoot {
    /// Global name.
    pub name: String,
    /// Function and namespace shape rooted at the module table.
    pub namespace: NamespaceSchema,
}

/// One namespace level: function names and nested child namespaces.
#[derive(Debug)]
pub struct NamespaceSchema {
    /// Function-typed members callable directly at this level.
    pub functions: Vec<String>,
    /// Nested namespace members by name.
    pub children: Vec<(String, NamespaceSchema)>,
}

/// Method names declared inside a `declare class ... end` block.
#[derive(Debug)]
pub struct ClassSchema {
    /// Method names.
    pub methods: Vec<String>,
}

/// Errors of the schema extraction.
#[derive(Debug)]
pub enum ModuleSchemaError {
    /// The source declares more than one top-level module-root global.
    MultipleRoots {
        /// Name of the first declared root.
        first: String,
        /// Name of the second declared root.
        second: String,
    },
    /// Unbalanced punctuation or a malformed declaration.
    Malformed(String),
}

/// Model of a [`NamespaceSchema`].
#[verifier::ext_equal]
pub struct NamespaceModel {
    pub functions: Seq<Seq<char>>,
    pub children: Seq<(Seq<char>, NamespaceModel)>,
}

/// Model of a [`ModuleSchema`].
#[verifier::ext_equal]
pub struct SchemaModel {
    pub root: Option<(Seq<char>, NamespaceModel)>,
    pub classes: Seq<(Seq<char>, Seq<Seq<char>>)>,
}

/// Model of a [`ModuleSchemaError`].
pub enum SchemaFault {
    MultipleRoots { first: Seq<char>, second: Seq<char> },
    Malformed(Seq<char>),
}

impl ModuleSchemaError {
    pub open spec fn view(&self) -> SchemaFault {
        match self {
            ModuleSchemaError::MultipleRoots { first, second } => SchemaFault::MultipleRoots {
                first: first@,
                second: second@,
            },
            ModuleSchemaError::Malformed(message) => SchemaFault::Malformed(message@),
        }
    }
}

impl NamespaceSchema {
    pub open spec fn view(&self) -> NamespaceModel
        decreases self,
    {
        NamespaceModel {
            functions: texts(self.functions@),
            children: Seq::new(
                self.children@.len(),
                |i: int|
                    if 0 <= i < self.children@.len() {
                        (self.children@[i].0@, self.children@[i].1.view())
                    } else {
                        arbitrary()
                    },
            ),
        }
    }

    /// The children stand in key order, on every level.
    pub open spec fn wf(&self) -> bool
        decreases self,
    {
        &&& ordered(entries_view(self.children@))
        &&& forall|i: int|
            0 <= i < self.children@.len() ==> (#[trigger] self.children@[i]).1.wf()
    }

    /// The child namespace with the given name.
    pub fn child(&self, name: &str) -> (r: Option<&NamespaceSchema>)
        requires
            self.wf(),
        ensures
            match r {
                Some(c) => c.wf() && lookup(self@.children, name@) == Some(c@),
                None => lookup(self@.children, name@) is None,
            },
    {
        let r = get_entry(self.children.as_slice(), name);
        proof {
            lemma_same_keys(entries_view(self.children@), self@.children, name@);
            if let Some(c) = r {
                let i = rank(self@.children, name@);
                assert(self@.children[i].1 == self.children@[i].1.view());
                assert(entries_view(self.children@)[i].1 == self.children@[i].1);
            }
        }
        r
    }
}

/// `n` blanks.
pub open spec fn blanks(n: nat) -> Seq<char> {
    Seq::new(n, |i: int| ' ')
}

/// What stands in for `s[a..b]` inside a comment: newlines stay, and every
/// other character leaves one blank per UTF-8 byte.
pub open spec fn blanked(s: Seq<char>, a: int, b: int) -> Seq<char>
    decreases b - a,
{
    if a >= b {
        Seq::empty()
    } else {
        (if s[a] == '\n' {
            seq!['\n']
        } else {
            blanks(utf8_width(s[a]))
        }) + blanked(s, a + 1, b)
    }
}

/// End of the line that position `i` is on.
pub open spec fn line_end(s: Seq<char>, i: int) -> int
    decreases s.len() - i,
{
    if 0 <= i < s.len() && s[i] != '\n' {
        line_end(s, i + 1)
    } else {
        i
    }
}

/// First position at or after `i` with `]]` there, or the position of the
/// last character where there is none.
pub open spec fn block_end(s: Seq<char>, i: int) -> int
    decreases s.len() - i,
{
    if i + 1 < s.len() && !(s[i] == ']' && s[i + 1] == ']') {
        block_end(s, i + 1)
    } else {
        i
    }
}

/// A line ends at or after each of its positions.
pub proof fn lemma_line_end(s: Seq<char>, i: int)
    requires
        0 <= i <= s.len(),
    ensures
        i <= line_end(s, i) <= s.len(),
        i < s.len() && s[i] != '\n' ==> i < line_end(s, i),
    decreases s.len() - i,
{
    if i < s.len() && s[i] != '\n' {
        lemma_line_end(s, i + 1);
    }
}

/// A block ends at or after where it starts.
pub proof fn lemma_block_end(s: Seq<char>, i: int)
    requires
        0 <= i,
    ensures
        i <= block_end(s, i),
    decreases s.len() - i,
{
    if i + 1 < s.len() && !(s[i] == ']' && s[i + 1] == ']') {
        lemma_block_end(s, i + 1);
    }
}

/// Whether a line comment or a block comment opens at `i`.
pub open spec fn comment_at(s: Seq<char>, i: int) -> bool {
    i + 1 < s.len() && s[i] == '-' && s[i + 1] == '-'
}

/// Whether the comment at `i` is a block comment.
pub open spec fn block_at(s: Seq<char>, i: int) -> bool {
    i + 3 < s.len() && s[i + 2] == '[' && s[i + 3] == '['
}

/// `head` in front of a text that may be missing.
pub open spec fn prepend(head: Seq<char>, rest: Option<Seq<char>>) -> Option<Seq<char>> {
    match rest {
        Some(r) => Some(head + r),
        None => None,
    }
}

/// The text from position `i` on with its comments blanked out. A block
/// comment that is never closed keeps its last byte: the text is then lost
/// where that byte is not a character of its own.
pub open spec fn stripped_from(s: Seq<char>, i: int) -> Option<Seq<char>>
    decreases s.len() - i,
{
    if i < 0 || i >= s.len() {
        Some(Seq::empty())
    } else if comment_at(s, i) {
        if block_at(s, i) {
            let end = block_end(s, i + 4);
            proof {
                lemma_block_end(s, i + 4);
            }
            if end >= s.len() {
                Some(Seq::empty())
            } else if end + 1 < s.len() {
                prepend(blanked(s, i + 4, end), stripped_from(s, end + 2))
            } else if utf8_width(s[end]) == 1 {
                Some(blanked(s, i + 4, end).push(s[end]))
            } else {
                None
            }
        } else {
            let end = line_end(s, i);
            proof {
                lemma_line_end(s, i);
            }
            prepend(blanked(s, i, end), stripped_from(s, end))
        }
    } else {
        prepend(seq![s[i]], stripped_from(s, i + 1))
    }
}

/// The source with its comments blanked out; empty where that is no text.
pub open spec fn stripped(s: Seq<char>) -> Seq<char> {
    match stripped_from(s, 0) {
        Some(t) => t,
        None => Seq::empty(),
    }
}

proof fn lemma_prepend(a: Seq<char>, b: Seq<char>, rest: Option<Seq<char>>)
    ensures
        prepend(a, prepend(b, rest)) == prepend(a + b, rest),
{
    if let Some(r) = rest {
        assert(a + (b + r) =~= (a + b) + r);
    }
}

proof fn lemma_blanked_push(s: Seq<char>, a: int, b: int)
    requires
        0 <= a <= b < s.len(),
    ensures
        blanked(s, a, b + 1) == blanked(s, a, b) + (if s[b] == '\n' {
            seq!['\n']
        } else {
            blanks(utf8_width(s[b]))
        }),
    decreases b - a,
{
    let one = if s[b] == '\n' {
        seq!['\n']
    } else {
        blanks(utf8_width(s[b]))
    };
    if a < b {
        lemma_blanked_push(s, a + 1, b);
        let head = if s[a] == '\n' {
            seq!['\n']
        } else {
            blanks(utf8_width(s[a]))
        };
        assert(head + (blanked(s, a + 1, b) + one) =~= (head + blanked(s, a + 1, b)) + one);
    } else {
        assert(blanked(s, a + 1, b + 1) =~= Seq::<char>::empty());
        assert(one + Seq::<char>::empty() =~= one);
        assert(Seq::<char>::empty() + one =~= one);
    }
}

/// Blanks one character of a comment out.
fn push_blank(output: &mut Vec<char>, c: char)
    ensures
        final(output)@ == old(output)@ + (if c == '\n' {
            seq!['\n']
        } else {
            blanks(utf8_width(c))
        }),
{
    if c == '\n' {
        output.push('\n');
        assert(output@ =~= old(output)@ + seq!['\n']);
        return;
    }
    let width: usize = width_of(c);
    let mut i: usize = 0;
    while i < width
        invariant
            i <= width,
            output@ == old(output)@ + blanks(i as nat),
        decreases width - i,
    {
        output.push(' ');
        i += 1;
        assert(output@ =~= old(output)@ + blanks(i as nat));
    }
}

/// Blanks line comments and block comments of some characters out.
fn blank_comments(s: &[char]) -> (r: Vec<char>)
    ensures
        r@ == stripped(s@),
{
    let mut output: Vec<char> = Vec::new();
    let mut i: usize = 0;
    assert(prepend(Seq::empty(), stripped_from(s@, 0)) == stripped_from(s@, 0)) by {
        if let Some(t) = stripped_from(s@, 0) {
            assert(Seq::<char>::empty() + t =~= t);
        }
    }
    while i < s.len()
        invariant
            i <= s.len(),
            prepend(output@, stripped_from(s@, i as int)) == stripped_from(s@, 0),
        decreases s.len() - i,
    {
        let ghost from = i as int;
        let ghost before = output@;
        if i + 1 < s.len() && s[i] == '-' && s[i + 1] == '-' {
            if s.len() - i > 3 && s[i + 2] == '[' && s[i + 3] == '[' {
                i += 4;
                while i < s.len() - 1 && !(s[i] == ']' && s[i + 1] == ']')
                    invariant
                        from + 4 <= i <= s.len(),
                        0 <= from,
                        i < s.len() || i == from + 4,
                        block_end(s@, i as int) == block_end(s@, from + 4),
                        output@ == before + blanked(s@, from + 4, i as int),
                    decreases s.len() - i,
                {
                    push_blank(&mut output, s[i]);
                    proof {
                        lemma_blanked_push(s@, from + 4, i as int);
                        assert(output@ =~= before + blanked(s@, from + 4, i + 1));
                    }
                    i += 1;
                }
                if i < s.len() && i < s.len() - 1 {
                    proof {
                        lemma_prepend(
                            before,
                            blanked(s@, from + 4, i as int),
                            stripped_from(s@, i + 2),
                        );
                    }
                    i += 2;
                } else if i < s.len() {
                    if width_of(s[i]) != 1 {
                        return Vec::new();
                    }
                    output.push(s[i]);
                    i += 1;
                    proof {
                        assert(output@ + Seq::<char>::empty() =~= before + blanked(
                            s@,
                            from + 4,
                            i - 1,
                        ).push(s@[i - 1]));
                    }
                } else {
                    assert(blanked(s@, from + 4, i as int) =~= Seq::<char>::empty()) by {
                        assert(i == from + 4);
                    }
                }
                continue;
            }
            while i < s.len() && s[i] != '\n'
                invariant
                    0 <= from <= i <= s.len(),
                    from < s@.len(),
                    line_end(s@, i as int) == line_end(s@, from),
                    output@ == before + blanked(s@, from, i as int),
                decreases s.len() - i,
            {
                push_blank(&mut output, s[i]);
                proof {
                    lemma_blanked_push(s@, from, i as int);
                    assert(output@ =~= before + blanked(s@, from, i + 1));
                }
                i += 1;
            }
            proof {
                assert(line_end(s@, from) == i);
                assert(i > from);
                lemma_prepend(before, blanked(s@, from, i as int), stripped_from(s@, i as int));
            }
            continue;
        }
        output.push(s[i]);
        proof {
            lemma_prepend(before, seq![s@[i as int]], stripped_from(s@, i + 1));
            assert(output@ =~= before + seq![s@[i as int]]);
        }
        i += 1;
    }
    assert(output@ + Seq::<char>::empty() =~= output@);
    output
}

/// Strips line comments and block comments by replacing them with spaces. No
/// comment is left, stripping again changes nothing, a text without comments
/// is kept, and the lines of ASCII text stay where they are.
pub fn strip_comments(source: &str) -> (r: String)
    ensures
        r@ == stripped(source@),
        uncommented(r@),
        stripped(r@) == r@,
        uncommented(source@) ==> r@ == source@,
        (forall|k: int| 0 <= k < source@.len() ==> (#[trigger] source@[k] as u32) < 0x80)
            ==> newlines(r@) == newlines(source@),
{
    let chars: Vec<char> = chars_of(source);
    let text: Vec<char> = blank_comments(chars.as_slice());
    proof {
        law_comments_are_stripped(source@);
        if forall|k: int| 0 <= k < source@.len() ==> (#[trigger] source@[k] as u32) < 0x80 {
            law_stripping_keeps_newlines(source@);
        }
    }
    string_of(text.as_slice())
}

/// First position at or after `i` where a `declare ` opens a line, or `-1`.
pub open spec fn declare_from(s: Seq<char>, i: int) -> int
    decreases s.len() - i,
{
    if i < 0 || i >= s.len() {
        -1
    } else if (i == 0 || s[i - 1] == '\n') && starts(s.skip(i), "declare "@) {
        i
    } else {
        declare_from(s, i + 1)
    }
}

/// A declaration that was found lies inside the text.
pub proof fn lemma_declare_from(s: Seq<char>, i: int)
    requires
        0 <= i,
    ensures
        declare_from(s, i) == -1 || i <= declare_from(s, i) <= s.len() - 8,
    decreases s.len() - i,
{
    reveal_strlit("declare ");
    if i < s.len() {
        lemma_declare_from(s, i + 1);
    }
}

/// Locates the next `declare ` at the start of a line.
fn next_top_level_declare(s: &[char]) -> (r: Option<usize>)
    ensures
        match r {
            Some(i) => declare_from(s@, 0) == i,
            None => declare_from(s@, 0) == -1,
        },
        r matches Some(i) ==> i + 8 <= s@.len(),
{
    let mut i: usize = 0;
    while i < s.len()
        invariant
            i <= s.len(),
            declare_from(s@, i as int) == declare_from(s@, 0),
        decreases s.len() - i,
    {
        if (i == 0 || s[i - 1] == '\n') && has_at(s, i, "declare ") {
            proof {
                lemma_declare_from(s@, i as int);
            }
            return Some(i);
        }
        i += 1;
    }
    None
}

/// What follows the first newline.
pub open spec fn after_newline(s: Seq<char>) -> Seq<char> {
    if line_end(s, 0) < s.len() {
        s.skip(line_end(s, 0) + 1)
    } else {
        Seq::empty()
    }
}

/// Skips past the next newline.
fn skip_to_newline<'a>(s: &'a [char]) -> (r: &'a [char])
    ensures
        r@ == after_newline(s@),
{
    let mut i: usize = 0;
    while i < s.len() && s[i] != '\n'
        invariant
            i <= s.len(),
            line_end(s@, i as int) == line_end(s@, 0),
        decreases s.len() - i,
    {
        i += 1;
    }
    if i < s.len() {
        slice_subrange(s, i + 1, s.len())
    } else {
        let r = slice_subrange(s, i, i);
        assert(r@ =~= Seq::<char>::empty());
        r
    }
}

/// Position of the `}` that closes an open brace, scanning from `i` with
/// `depth` braces and `paren` parentheses open; or why there is none.
pub open spec fn closing(s: Seq<char>, i: int, depth: nat, paren: nat) -> Result<int, Seq<char>>
    decreases s.len() - i,
{
    if i < 0 || i >= s.len() {
        Err("unterminated namespace body"@)
    } else if s[i] == '{' {
        closing(s, i + 1, depth + 1, paren)
    } else if s[i] == '}' {
        if depth <= 1 {
            Ok(i)
        } else {
            closing(s, i + 1, (depth - 1) as nat, paren)
        }
    } else if s[i] == '(' {
        closing(s, i + 1, depth, paren + 1)
    } else if s[i] == ')' {
        if paren == 0 {
            Err("unbalanced punctuation in namespace body"@)
        } else {
            closing(s, i + 1, depth, (paren - 1) as nat)
        }
    } else {
        closing(s, i + 1, depth, paren)
    }
}

/// A closing brace that was found lies inside the text.
pub proof fn lemma_closing(s: Seq<char>, i: int, depth: nat, paren: nat)
    requires
        0 <= i,
    ensures
        closing(s, i, depth, paren) matches Ok(k) ==> i <= k < s.len() && s[k] == '}',
    decreases s.len() - i,
{
    if i < s.len() {
        lemma_closing(s, i + 1, depth + 1, paren);
        if depth > 1 {
            lemma_closing(s, i + 1, (depth - 1) as nat, paren);
        }
        lemma_closing(s, i + 1, depth, paren + 1);
        if paren > 0 {
            lemma_closing(s, i + 1, depth, (paren - 1) as nat);
        }
        lemma_closing(s, i + 1, depth, paren);
    }
}

/// Finds the `}` that matches a `{` just before `s`.
fn find_matching_brace(s: &[char]) -> (r: Result<usize, ModuleSchemaError>)
    ensures
        match r {
            Ok(k) => closing(s@, 0, 1, 0) == Ok::<int, Seq<char>>(k as int) && k < s@.len(),
            Err(e) => e@ is Malformed && closing(s@, 0, 1, 0) == Err::<int, Seq<char>>(
                e@->Malformed_0,
            ),
        },
{
    let mut depth: u128 = 1;
    let mut paren: u128 = 0;
    let mut i: usize = 0;
    while i < s.len()
        invariant
            i <= s.len(),
            1 <= depth <= i + 1,
            paren <= i,
            closing(s@, i as int, depth as nat, paren as nat) == closing(s@, 0, 1, 0),
        decreases s.len() - i,
    {
        let c = s[i];
        if c == '{' {
            depth += 1;
        } else if c == '}' {
            if depth == 1 {
                return Ok(i);
            }
            depth -= 1;
        } else if c == '(' {
            paren += 1;
        } else if c == ')' {
            if paren == 0 {
                return Err(
                    ModuleSchemaError::Malformed(
                        "unbalanced punctuation in namespace body".to_owned(),
                    ),
                );
            }
            paren -= 1;
        }
        i += 1;
    }
    Err(ModuleSchemaError::Malformed("unterminated namespace body".to_owned()))
}

/// The pieces of `s` between top-level commas, from position `i` on, where
/// `start` opens the current piece and `depth` brackets are open.
pub open spec fn pieces_from(s: Seq<char>, start: int, i: int, depth: int) -> Seq<Seq<char>>
    decreases s.len() - i,
{
    if i < 0 || i >= s.len() {
        seq![s.subrange(start, s.len() as int)]
    } else if s[i] == '{' || s[i] == '(' || s[i] == '[' {
        pieces_from(s, start, i + 1, depth + 1)
    } else if s[i] == '}' || s[i] == ')' || s[i] == ']' {
        pieces_from(s, start, i + 1, depth - 1)
    } else if s[i] == ',' && depth == 0 {
        seq![s.subrange(start, i)] + pieces_from(s, i + 1, i + 1, depth)
    } else {
        pieces_from(s, start, i + 1, depth)
    }
}

/// The pieces of `s` between commas that stand outside of all brackets.
pub open spec fn pieces(s: Seq<char>) -> Seq<Seq<char>> {
    pieces_from(s, 0, 0, 0)
}

/// No piece is longer than the text it was cut from.
pub proof fn lemma_pieces(s: Seq<char>, start: int, i: int, depth: int)
    requires
        0 <= start <= i <= s.len(),
    ensures
        forall|k: int|
            0 <= k < pieces_from(s, start, i, depth).len() ==> (#[trigger] pieces_from(
                s,
                start,
                i,
                depth,
            )[k]).len() <= s.len(),
    decreases s.len() - i,
{
    let all = pieces_from(s, start, i, depth);
    if i >= s.len() {
        assert(all.len() == 1 && all[0] == s.subrange(start, s.len() as int));
        assert(all[0].len() <= s.len());
    } else if s[i] == '{' || s[i] == '(' || s[i] == '[' {
        lemma_pieces(s, start, i + 1, depth + 1);
        assert(all == pieces_from(s, start, i + 1, depth + 1));
    } else if s[i] == '}' || s[i] == ')' || s[i] == ']' {
        lemma_pieces(s, start, i + 1, depth - 1);
        assert(all == pieces_from(s, start, i + 1, depth - 1));
    } else if s[i] == ',' && depth == 0 {
        lemma_pieces(s, i + 1, i + 1, depth);
        let rest = pieces_from(s, i + 1, i + 1, depth);
        assert forall|k: int| 0 <= k < all.len() implies (#[trigger] all[k]).len() <= s.len() by {
            if k > 0 {
                assert(all[k] == rest[k - 1]);
            } else {
                assert(all[k] == s.subrange(start, i));
            }
        }
    } else {
        lemma_pieces(s, start, i + 1, depth);
        assert(all == pieces_from(s, start, i + 1, depth));
    }
}

/// Splits on top-level commas only; the result holds half-open ranges.
fn split_top_level_commas(s: &[char]) -> (r: Vec<(usize, usize)>)
    ensures
        r@.len() == pieces(s@).len(),
        forall|k: int|
            #![trigger r@[k]]
            0 <= k < r@.len() ==> r@[k].0 <= r@[k].1 <= s@.len() && s@.subrange(
                r@[k].0 as int,
                r@[k].1 as int,
            ) == pieces(s@)[k],
{
    let mut out: Vec<(usize, usize)> = Vec::new();
    let mut depth: i128 = 0;
    let mut start: usize = 0;
    let mut i: usize = 0;
    let ghost mut done: Seq<Seq<char>> = Seq::empty();
    while i < s.len()
        invariant
            start <= i <= s.len(),
            -i <= depth <= i,
            done + pieces_from(s@, start as int, i as int, depth as int) == pieces(s@),
            out@.len() == done.len(),
            forall|k: int|
                #![trigger out@[k]]
                0 <= k < out@.len() ==> out@[k].0 <= out@[k].1 <= s@.len() && s@.subrange(
                    out@[k].0 as int,
                    out@[k].1 as int,
                ) == done[k],
        decreases s.len() - i,
    {
        let c = s[i];
        if c == '{' || c == '(' || c == '[' {
            depth += 1;
        } else if c == '}' || c == ')' || c == ']' {
            depth -= 1;
        } else if c == ',' && depth == 0 {
            out.push((start, i));
            proof {
                let piece = s@.subrange(start as int, i as int);
                let rest = pieces_from(s@, i + 1, i + 1, 0);
                assert(done + (seq![piece] + rest) =~= done.push(piece) + rest);
                done = done.push(piece);
            }
            start = i + 1;
        }
        i += 1;
    }
    out.push((start, s.len()));
    proof {
        assert(pieces(s@) =~= done.push(s@.subrange(start as int, s@.len() as int)));
    }
    out
}

/// First position at or after `i` of a standalone `end`, or `-1`.
pub open spec fn end_from(s: Seq<char>, i: int) -> int
    decreases s.len() - i,
{
    if i < 0 || i + 3 > s.len() {
        -1
    } else if starts(s.skip(i), "end"@) && (i == 0 || !ident_char(s[i - 1])) && (i + 3 == s.len()
        || !ident_char(s[i + 3])) {
        i
    } else {
        end_from(s, i + 1)
    }
}

/// Finds the standalone keyword `end`.
fn find_keyword_end(s: &[char]) -> (r: Option<usize>)
    ensures
        match r {
            Some(i) => end_from(s@, 0) == i && i + 3 <= s@.len(),
            None => end_from(s@, 0) == -1,
        },
{
    let mut i: usize = 0;
    while s.len() >= 3 && i <= s.len() - 3
        invariant
            i <= s.len(),
            end_from(s@, i as int) == end_from(s@, 0),
        decreases s.len() - i,
    {
        if has_at(s, i, "end") && (i == 0 || !is_ident_char(s[i - 1])) && (i + 3 == s.len()
            || !is_ident_char(s[i + 3])) {
            return Some(i);
        }
        i += 1;
    }
    None
}

/// Whether `s` starts with the character `c`.
pub open spec fn opens(s: Seq<char>, c: char) -> bool {
    s.len() > 0 && s[0] == c
}

/// Drops an `extends <parent>` clause, or tells that the parent is missing.
pub open spec fn after_extends(s: Seq<char>) -> Result<Seq<char>, SchemaFault> {
    if starts(s, "extends "@) {
        let parent = trim_start(s.skip(8));
        if ident_len(parent) == 0 {
            Err(SchemaFault::Malformed("expected parent class name"@))
        } else {
            Ok(trim_start(parent.skip(ident_len(parent))))
        }
    } else {
        Ok(s)
    }
}

/// Name, body and rest of a class block that follows `declare class `.
pub open spec fn class_block(s: Seq<char>) -> Result<
    (Seq<char>, Seq<char>, Seq<char>),
    SchemaFault,
> {
    if ident_len(s) == 0 {
        Err(SchemaFault::Malformed("expected class name"@))
    } else {
        let name = s.take(ident_len(s));
        match after_extends(trim_start(s.skip(ident_len(s)))) {
            Err(e) => Err(e),
            Ok(body) => {
                let end = end_from(body, 0);
                if end < 0 {
                    Err(SchemaFault::Malformed("class `"@ + name + "` is missing `end`"@))
                } else {
                    Ok((name, body.take(end), body.skip(end + 3)))
                }
            },
        }
    }
}

/// What follows a class block is shorter than the block.
pub proof fn lemma_class_block(s: Seq<char>)
    ensures
        class_block(s) matches Ok(r) ==> r.2.len() < s.len(),
{
    reveal_strlit("extends ");
    lemma_ident_len(s);
    let after = trim_start(s.skip(ident_len(s)));
    lemma_trim_len(s.skip(ident_len(s)));
    lemma_trim_len(after.skip(8));
    let parent = trim_start(after.skip(8));
    lemma_ident_len(parent);
    lemma_trim_len(parent.skip(ident_len(parent)));
    if let Ok(body) = after_extends(after) {
        lemma_end_from(body, 0);
    }
}

/// An identifier lies inside the text that it starts.
pub proof fn lemma_ident_len(s: Seq<char>)
    ensures
        0 <= ident_len(s) <= s.len(),
{
    if s.len() > 0 {
        lemma_ident(s, 1);
    }
}

/// A keyword that was found lies inside the text.
pub proof fn lemma_end_from(s: Seq<char>, i: int)
    requires
        0 <= i,
    ensures
        end_from(s, i) == -1 || i <= end_from(s, i) <= s.len() - 3,
    decreases s.len() - i,
{
    if i + 3 <= s.len() {
        lemma_end_from(s, i + 1);
    }
}

/// Reads one class block: where its name, its body and the rest stand.
fn read_class_block<'a>(s: &'a [char]) -> (r: Result<
    (&'a [char], &'a [char], &'a [char]),
    ModuleSchemaError,
>)
    ensures
        match r {
            Ok(t) => class_block(s@) == Ok::<(Seq<char>, Seq<char>, Seq<char>), SchemaFault>(
                (t.0@, t.1@, t.2@),
            ) && t.2@.len() < s@.len(),
            Err(e) => class_block(s@) == Err::<(Seq<char>, Seq<char>, Seq<char>), SchemaFault>(e@),
        },
{
    proof {
        reveal_strlit("extends ");
        lemma_class_block(s@);
    }
    let n: usize = read_ident_len(s);
    if n == 0 {
        return Err(ModuleSchemaError::Malformed("expected class name".to_owned()));
    }
    let name = slice_subrange(s, 0, n);
    let mut cursor = trimmed_start(slice_subrange(s, n, s.len()));
    if has_prefix(cursor, "extends ") {
        let parent = trimmed_start(slice_subrange(cursor, 8, cursor.len()));
        let m: usize = read_ident_len(parent);
        if m == 0 {
            return Err(ModuleSchemaError::Malformed("expected parent class name".to_owned()));
        }
        cursor = trimmed_start(slice_subrange(parent, m, parent.len()));
    }
    match find_keyword_end(cursor) {
        None => {
            let mut message = "class `".to_owned();
            message.append(string_of(name).as_str());
            message.append("` is missing `end`");
            Err(ModuleSchemaError::Malformed(message))
        },
        Some(end) => Ok(
            (
                name,
                slice_subrange(cursor, 0, end),
                slice_subrange(cursor, end + 3, cursor.len()),
            ),
        ),
    }
}

/// The method that one line of a class body declares: either
/// `function name(...)` or `name: (...)`.
pub open spec fn method_of(line: Seq<char>) -> Option<Seq<char>> {
    let t = trim(line);
    let f = t.skip(9);
    if t.len() == 0 || starts(t, "--"@) {
        None
    } else if starts(t, "function "@) && ident_len(f) > 0 && opens(
        trim_start(f.skip(ident_len(f))),
        '(',
    ) {
        Some(f.take(ident_len(f)))
    } else {
        let after = trim_start(t.skip(ident_len(t)));
        if ident_len(t) > 0 && opens(after, ':') && opens(trim_start(after.skip(1)), '(') {
            Some(t.take(ident_len(t)))
        } else {
            None
        }
    }
}

/// The methods that a list of lines declares.
pub open spec fn methods_of(lines: Seq<Seq<char>>) -> Seq<Seq<char>>
    decreases lines.len(),
{
    if lines.len() == 0 {
        Seq::empty()
    } else {
        let before = methods_of(lines.drop_last());
        match method_of(lines.last()) {
            Some(m) => before.push(m),
            None => before,
        }
    }
}

/// Finds the method that a line declares.
fn method_in_line<'a>(line: &'a [char]) -> (r: Option<&'a [char]>)
    ensures
        match r {
            Some(m) => method_of(line@) == Some(m@),
            None => method_of(line@) is None,
        },
{
    proof {
        reveal_strlit("function ");
    }
    let t = trimmed(line);
    if t.len() == 0 || has_prefix(t, "--") {
        return None;
    }
    if has_prefix(t, "function ") {
        let f = slice_subrange(t, 9, t.len());
        assert(f@ =~= t@.skip(9));
        let n: usize = read_ident_len(f);
        if n > 0 {
            let after = trimmed_start(slice_subrange(f, n, f.len()));
            if after.len() > 0 && after[0] == '(' {
                return Some(slice_subrange(f, 0, n));
            }
        }
    }
    let n: usize = read_ident_len(t);
    if n > 0 {
        let after = trimmed_start(slice_subrange(t, n, t.len()));
        if after.len() > 0 && after[0] == ':' {
            let value = trimmed_start(slice_subrange(after, 1, after.len()));
            if value.len() > 0 && value[0] == '(' {
                return Some(slice_subrange(t, 0, n));
            }
        }
    }
    None
}

/// Reads the method names out of a class body.
fn parse_class_body(body: &[char]) -> (r: ClassSchema)
    ensures
        texts(r.methods@) == methods_of(split_lines(body@)),
{
    let lines: Vec<(usize, usize)> = line_ranges(body);
    let ghost all = split_lines(body@);
    let mut methods: Vec<String> = Vec::new();
    let mut i: usize = 0;
    assert(texts(methods@) =~= Seq::empty());
    while i < lines.len()
        invariant
            i <= lines.len(),
            all == split_lines(body@),
            lines@.len() == all.len(),
            forall|k: int|
                #![trigger lines@[k]]
                0 <= k < lines@.len() ==> lines@[k].0 <= lines@[k].1 <= body@.len()
                    && body@.subrange(lines@[k].0 as int, lines@[k].1 as int) == all[k],
            texts(methods@) == methods_of(all.take(i as int)),
        decreases lines.len() - i,
    {
        let range = lines[i];
        let line = slice_subrange(body, range.0, range.1);
        assert(all.take(i + 1).drop_last() =~= all.take(i as int));
        if let Some(m) = method_in_line(line) {
            let ghost before = methods@;
            methods.push(string_of(m));
            assert(texts(methods@) =~= texts(before).push(m@));
        }
        i += 1;
    }
    assert(all.take(i as int) =~= all);
    ClassSchema { methods }
}

/// Model of an empty namespace.
pub open spec fn empty_namespace() -> NamespaceModel {
    NamespaceModel { functions: Seq::empty(), children: Seq::empty() }
}

/// The namespace written at the start of `s` as `{ ... }`, and what follows.
pub open spec fn namespace_type(s: Seq<char>) -> Result<(NamespaceModel, Seq<char>), SchemaFault>
    decreases s.len(), 1int, 0int,
{
    let t = trim_start(s);
    if !opens(t, '{') {
        Err(SchemaFault::Malformed("expected `{`"@))
    } else {
        let inner = t.skip(1);
        proof {
            lemma_trim_len(s);
            lemma_closing(inner, 0, 1, 0);
        }
        match closing(inner, 0, 1, 0) {
            Err(m) => Err(SchemaFault::Malformed(m)),
            Ok(k) => match namespace_entries(inner.take(k), 0, empty_namespace()) {
                Err(e) => Err(e),
                Ok(ns) => Ok((ns, inner.skip(k + 1))),
            },
        }
    }
}

/// Adds the entries of `body` from the `i`-th on to `acc`.
pub open spec fn namespace_entries(body: Seq<char>, i: int, acc: NamespaceModel) -> Result<
    NamespaceModel,
    SchemaFault,
>
    decreases body.len(), 0int, pieces(body).len() - i,
{
    if i < 0 || i >= pieces(body).len() {
        Ok(acc)
    } else {
        let t = trim(pieces(body)[i]);
        let n = ident_len(t);
        let key = t.take(n);
        let after = trim_start(t.skip(n));
        let value = trim(after.skip(1));
        proof {
            lemma_pieces(body, 0, 0, 0);
            lemma_trim_len(pieces(body)[i]);
            lemma_ident_len(t);
            lemma_trim_len(t.skip(n));
            lemma_trim_len(after.skip(1));
        }
        if t.len() == 0 {
            namespace_entries(body, i + 1, acc)
        } else if n == 0 {
            Err(SchemaFault::Malformed("missing key: `"@ + t + "`"@))
        } else if !opens(after, ':') {
            Err(SchemaFault::Malformed("missing `:` after `"@ + key + "`"@))
        } else if opens(value, '(') {
            namespace_entries(
                body,
                i + 1,
                NamespaceModel { functions: acc.functions.push(key), ..acc },
            )
        } else if opens(value, '{') {
            match namespace_type(value) {
                Err(e) => Err(e),
                Ok((child, _)) => namespace_entries(
                    body,
                    i + 1,
                    NamespaceModel { children: put(acc.children, key, child), ..acc },
                ),
            }
        } else {
            namespace_entries(body, i + 1, acc)
        }
    }
}

/// What follows a namespace is shorter than the text that it starts.
pub proof fn lemma_namespace_type(s: Seq<char>)
    ensures
        namespace_type(s) matches Ok(r) ==> r.1.len() < s.len(),
{
    lemma_trim_len(s);
    lemma_closing(trim_start(s).skip(1), 0, 1, 0);
}

/// Reads a `{ key: type, ... }` type and returns what follows it.
fn parse_namespace_type<'a>(s: &'a [char]) -> (r: Result<
    (NamespaceSchema, &'a [char]),
    ModuleSchemaError,
>)
    ensures
        match r {
            Ok(t) => t.0.wf() && namespace_type(s@) == Ok::<
                (NamespaceModel, Seq<char>),
                SchemaFault,
            >((t.0@, t.1@)) && t.1@.len() < s@.len(),
            Err(e) => namespace_type(s@) == Err::<(NamespaceModel, Seq<char>), SchemaFault>(e@),
        },
    decreases s@.len(), 1int,
{
    proof {
        lemma_namespace_type(s@);
    }
    let t = trimmed_start(s);
    if t.len() == 0 || t[0] != '{' {
        return Err(ModuleSchemaError::Malformed("expected `{`".to_owned()));
    }
    let inner = slice_subrange(t, 1, t.len());
    assert(inner@ =~= t@.skip(1));
    match find_matching_brace(inner) {
        Err(e) => Err(e),
        Ok(k) => {
            let body = slice_subrange(inner, 0, k);
            assert(body@ =~= inner@.take(k as int));
            match parse_namespace_body(body) {
                Err(e) => Err(e),
                Ok(ns) => {
                    let rest = slice_subrange(inner, k + 1, inner.len());
                    assert(rest@ =~= inner@.skip(k + 1));
                    Ok((ns, rest))
                },
            }
        },
    }
}

/// Reads the key/value pairs inside a namespace body.
fn parse_namespace_body(body: &[char]) -> (r: Result<NamespaceSchema, ModuleSchemaError>)
    ensures
        match r {
            Ok(ns) => ns.wf() && namespace_entries(body@, 0, empty_namespace()) == Ok::<
                NamespaceModel,
                SchemaFault,
            >(ns@),
            Err(e) => namespace_entries(body@, 0, empty_namespace()) == Err::<
                NamespaceModel,
                SchemaFault,
            >(e@),
        },
    decreases body@.len(), 0int,
{
    let ranges: Vec<(usize, usize)> = split_top_level_commas(body);
    let ghost all = pieces(body@);
    let ghost goal = namespace_entries(body@, 0, empty_namespace());
    let mut functions: Vec<String> = Vec::new();
    let mut children: SortedMap<NamespaceSchema> = SortedMap::new();
    let ghost mut acc = empty_namespace();
    let mut i: usize = 0;
    proof {
        assert(texts(functions@) =~= Seq::empty());
        assert(mapped(children@, |c: NamespaceSchema| c@) =~= Seq::empty());
        lemma_pieces(body@, 0, 0, 0);
    }
    while i < ranges.len()
        invariant
            i <= ranges.len(),
            all == pieces(body@),
            ranges@.len() == all.len(),
            forall|k: int| 0 <= k < all.len() ==> (#[trigger] all[k]).len() <= body@.len(),
            forall|k: int|
                #![trigger ranges@[k]]
                0 <= k < ranges@.len() ==> ranges@[k].0 <= ranges@[k].1 <= body@.len()
                    && body@.subrange(ranges@[k].0 as int, ranges@[k].1 as int) == all[k],
            goal == namespace_entries(body@, 0, empty_namespace()),
            namespace_entries(body@, i as int, acc) == goal,
            acc.functions == texts(functions@),
            acc.children == mapped(children@, |c: NamespaceSchema| c@),
            children.wf(),
            forall|k: int| 0 <= k < children.entries@.len() ==> (#[trigger] children.entries@[k]).1.wf(),
        decreases ranges.len() - i,
    {
        let range = ranges[i];
        let piece = slice_subrange(body, range.0, range.1);
        assert(piece@ == all[i as int]);
        let t = trimmed(piece);
        if t.len() != 0 {
            let n: usize = read_ident_len(t);
            if n == 0 {
                let mut message = "missing key: `".to_owned();
                message.append(string_of(t).as_str());
                message.append("`");
                return Err(ModuleSchemaError::Malformed(message));
            }
            let key = slice_subrange(t, 0, n);
            let after = trimmed_start(slice_subrange(t, n, t.len()));
            if after.len() == 0 || after[0] != ':' {
                let mut message = "missing `:` after `".to_owned();
                message.append(string_of(key).as_str());
                message.append("`");
                return Err(ModuleSchemaError::Malformed(message));
            }
            let value = trimmed(slice_subrange(after, 1, after.len()));
            if value.len() > 0 && value[0] == '(' {
                let ghost before = functions@;
                functions.push(string_of(key));
                proof {
                    assert(texts(functions@) =~= texts(before).push(key@));
                    acc = NamespaceModel { functions: acc.functions.push(key@), ..acc };
                }
            } else if value.len() > 0 && value[0] == '{' {
                match parse_namespace_type(value) {
                    Err(e) => {
                        return Err(e);
                    },
                    Ok((child, _rest)) => {
                        let ghost before = children;
                        proof {
                            lemma_mapped(children@, |c: NamespaceSchema| c@, key@, child);
                            lemma_same_keys(children@, children@, key@);
                            acc =
                            NamespaceModel { children: put(acc.children, key@, child@), ..acc };
                        }
                        let ghost was = children.entries@;
                        children.insert(string_of(key), child);
                        assert forall|k: int| 0 <= k < children.entries@.len() implies (
                        #[trigger] children.entries@[k]).1.wf() by {
                            let at = rank(entries_view(was), key@);
                            assert(children@[k].1 == children.entries@[k].1);
                            if holds(entries_view(was), key@) || k < at {
                                if k != at {
                                    assert(entries_view(was)[k].1 == was[k].1);
                                }
                            } else if k > at {
                                assert(entries_view(was)[k - 1].1 == was[k - 1].1);
                            }
                        }
                    },
                }
            }
        }
        i += 1;
    }
    let ns = NamespaceSchema { functions, children: children.entries };
    assert(ns@.children =~= acc.children);
    assert(ns@ == acc);
    Ok(ns)
}

/// Model of a schema with nothing in it.
pub open spec fn empty_schema() -> SchemaModel {
    SchemaModel { root: None, classes: Seq::empty() }
}

/// Adds the declarations of `cursor` to `acc`.
pub open spec fn declarations(cursor: Seq<char>, acc: SchemaModel) -> Result<
    SchemaModel,
    SchemaFault,
>
    decreases cursor.len(),
{
    let at = declare_from(cursor, 0);
    if at < 0 {
        Ok(acc)
    } else {
        let c = trim_start(cursor.skip(at + 8));
        let n = ident_len(c);
        let name = c.take(n);
        let after = c.skip(n);
        let colon = trim_start(after);
        let ty = trim_start(colon.skip(1));
        proof {
            lemma_declare_from(cursor, 0);
            lemma_trim_len(cursor.skip(at + 8));
            lemma_class_block(c.skip(6));
            lemma_ident_len(c);
            lemma_trim_len(after);
            lemma_trim_len(colon.skip(1));
            lemma_namespace_type(ty);
            lemma_line_end(c, 0);
            lemma_class_prefix();
        }
        if starts(c, "class "@) {
            match class_block(c.skip(6)) {
                Err(e) => Err(e),
                Ok((class, body, rest)) => declarations(
                    rest,
                    SchemaModel {
                        classes: put(acc.classes, class, methods_of(split_lines(body))),
                        ..acc
                    },
                ),
            }
        } else if n > 0 {
            if opens(colon, ':') {
                match namespace_type(ty) {
                    Err(e) => Err(e),
                    Ok((namespace, rest)) => match acc.root {
                        Some(first) => Err(
                            SchemaFault::MultipleRoots { first: first.0, second: name },
                        ),
                        None => declarations(
                            rest,
                            SchemaModel { root: Some((name, namespace)), ..acc },
                        ),
                    },
                }
            } else {
                declarations(after, acc)
            }
        } else {
            declarations(after_newline(c), acc)
        }
    }
}

/// Length of the class keyword with its blank.
pub proof fn lemma_class_prefix()
    ensures
        "class "@.len() == 6,
{
    reveal_strlit("class ");
}

/// The schema that a declaration source stands for, or what is wrong with it.
pub open spec fn schema_of(source: Seq<char>) -> Result<SchemaModel, SchemaFault> {
    declarations(stripped(source), empty_schema())
}

impl ModuleSchema {
    pub open spec fn view(&self) -> SchemaModel {
        SchemaModel {
            root: match self.root {
                Some(root) => Some((root.name@, root.namespace@)),
                None => None,
            },
            classes: mapped(self.classes@, |c: ClassSchema| texts(c.methods@)),
        }
    }

    /// Classes and namespaces stand in key order.
    pub open spec fn wf(&self) -> bool {
        &&& self.classes.wf()
        &&& self.root matches Some(root) ==> root.namespace.wf()
    }
}

impl Default for ModuleSchema {
    fn default() -> (r: Self)
        ensures
            r.wf(),
            r@ == empty_schema(),
    {
        let r = ModuleSchema { root: None, classes: SortedMap::new() };
        assert(r@.classes =~= Seq::empty());
        r
    }
}

/// Walks `source` and returns the schema of its top-level declarations.
///
/// A second module root is refused, and so is a declaration whose punctuation
/// does not balance; text that is no declaration is skipped.
pub fn extract_module_schema(source: &str) -> (r: Result<ModuleSchema, ModuleSchemaError>)
    ensures
        match r {
            Ok(schema) => schema.wf() && schema_of(source@) == Ok::<SchemaModel, SchemaFault>(
                schema@,
            ),
            Err(e) => schema_of(source@) == Err::<SchemaModel, SchemaFault>(e@),
        },
{
    let stripped_source = strip_comments(source);
    let text: Vec<char> = chars_of(stripped_source.as_str());
    let mut schema = ModuleSchema::default();
    let mut cursor: &[char] = text.as_slice();
    loop
        invariant
            schema.wf(),
            declarations(cursor@, schema@) == schema_of(source@),
        decreases cursor@.len(),
    {
        let at: usize = match next_top_level_declare(cursor) {
            Some(at) => at,
            None => {
                return Ok(schema);
            },
        };
        let ghost before = cursor@;
        let total: usize = cursor.len();
        let skipped = slice_subrange(cursor, at + 8, total);
        assert(skipped@ =~= before.skip(at + 8));
        let c = trimmed_start(skipped);
        proof {
            lemma_class_prefix();
        }
        if has_prefix(c, "class ") {
            let after = slice_subrange(c, 6, c.len());
            assert(after@ =~= c@.skip(6));
            match read_class_block(after) {
                Err(e) => {
                    return Err(e);
                },
                Ok((name, body, rest)) => {
                    let class = parse_class_body(body);
                    proof {
                        lemma_mapped(
                            schema.classes@,
                            |c: ClassSchema| texts(c.methods@),
                            name@,
                            class,
                        );
                    }
                    schema.classes.insert(string_of(name), class);
                    cursor = rest;
                },
            }
            continue;
        }
        let n: usize = read_ident_len(c);
        if n > 0 {
            let name = slice_subrange(c, 0, n);
            let after = slice_subrange(c, n, c.len());
            assert(after@ =~= c@.skip(n as int));
            let colon = trimmed_start(after);
            if colon.len() > 0 && colon[0] == ':' {
                let tail = slice_subrange(colon, 1, colon.len());
                assert(tail@ =~= colon@.skip(1));
                match parse_namespace_type(trimmed_start(tail)) {
                    Err(e) => {
                        return Err(e);
                    },
                    Ok((namespace, rest)) => {
                        if let Some(first) = &schema.root {
                            return Err(
                                ModuleSchemaError::MultipleRoots {
                                    first: first.name.clone(),
                                    second: string_of(name),
                                },
                            );
                        }
                        schema.root = Some(ModuleRoot { name: string_of(name), namespace });
                        cursor = rest;
                    },
                }
            } else {
                cursor = after;
            }
            continue;
        }
        proof {
            lemma_line_end(c@, 0);
        }
        cursor = skip_to_newline(c);
    }
}

impl ModuleSchemaError {
    /// The error as a sentence.
    pub fn message(&self) -> (r: String)
        ensures
            r@ == fault_message(self@),
    {
        match self {
            ModuleSchemaError::MultipleRoots { first, second } => {
                let mut out = "multiple module-root declarations: `".to_owned();
                out.append(first.as_str());
                out.append("` and `");
                out.append(second.as_str());
                out.append("`");
                out
            },
            ModuleSchemaError::Malformed(message) => {
                let mut out = "malformed source: ".to_owned();
                out.append(message.as_str());
                out
            },
        }
    }
}

/// The text of a schema error.
pub open spec fn fault_message(fault: SchemaFault) -> Seq<char> {
    match fault {
        SchemaFault::MultipleRoots { first, second } => "multiple module-root declarations: `"@
            + first + "` and `"@ + second + "`"@,
        SchemaFault::Malformed(message) => "malformed source: "@ + message,
    }
}

/// Blanked text holds no dash.
proof fn lemma_blanked_plain(s: Seq<char>, a: int, b: int)
    ensures
        forall|k: int| 0 <= k < blanked(s, a, b).len() ==> #[trigger] blanked(s, a, b)[k] != '-',
    decreases b - a,
{
    if a < b {
        lemma_blanked_plain(s, a + 1, b);
        let head = if s[a] == '\n' {
            seq!['\n']
        } else {
            blanks(utf8_width(s[a]))
        };
        let tail = blanked(s, a + 1, b);
        assert forall|k: int| 0 <= k < (head + tail).len() implies #[trigger] (head + tail)[k]
            != '-' by {
            if k < head.len() {
                assert((head + tail)[k] == head[k]);
            } else {
                assert((head + tail)[k] == tail[k - head.len()]);
            }
        }
    }
}

/// Whether a text holds no comment.
pub open spec fn uncommented(s: Seq<char>) -> bool {
    forall|k: int| 0 <= k < s.len() ==> !#[trigger] comment_at(s, k)
}

/// A text without dashes in front of a text without comments makes no comment.
proof fn lemma_uncommented(head: Seq<char>, tail: Seq<char>)
    requires
        forall|k: int| 0 <= k < head.len() ==> #[trigger] head[k] != '-',
        uncommented(tail),
    ensures
        uncommented(head + tail),
{
    let all = head + tail;
    assert forall|k: int| 0 <= k < all.len() implies !#[trigger] comment_at(all, k) by {
        if k < head.len() {
            assert(all[k] == head[k]);
        } else {
            assert(!comment_at(tail, k - head.len()));
        }
    }
}

/// What is left from a position on holds no comment, and it starts with the
/// character there where no comment does.
proof fn lemma_stripped_from(s: Seq<char>, i: int)
    requires
        0 <= i,
    ensures
        stripped_from(s, i) matches Some(t) ==> uncommented(t) && (i < s.len() && !comment_at(s, i)
            ==> t.len() > 0 && t[0] == s[i]) && (i >= s.len() ==> t.len() == 0),
    decreases s.len() - i,
{
    if i < s.len() {
        if comment_at(s, i) {
            if block_at(s, i) {
                let end = block_end(s, i + 4);
                lemma_block_end(s, i + 4);
                let head = blanked(s, i + 4, end);
                lemma_blanked_plain(s, i + 4, end);
                if end < s.len() && end + 1 < s.len() {
                    lemma_stripped_from(s, end + 2);
                    if let Some(t) = stripped_from(s, end + 2) {
                        lemma_uncommented(head, t);
                    }
                } else if end < s.len() {
                    lemma_uncommented(head, seq![s[end]]);
                    assert(head.push(s[end]) =~= head + seq![s[end]]);
                }
            } else {
                let end = line_end(s, i);
                lemma_line_end(s, i);
                lemma_blanked_plain(s, i, end);
                lemma_stripped_from(s, end);
                if let Some(t) = stripped_from(s, end) {
                    lemma_uncommented(blanked(s, i, end), t);
                }
            }
        } else {
            lemma_stripped_from(s, i + 1);
            if let Some(t) = stripped_from(s, i + 1) {
                let all = seq![s[i]] + t;
                assert forall|k: int| 0 <= k < all.len() implies !#[trigger] comment_at(all, k) by {
                    if k > 0 {
                        assert(!comment_at(t, k - 1));
                    }
                }
            }
        }
    }
}

/// A text without comments is left as it is.
proof fn lemma_strip_nothing(s: Seq<char>, i: int)
    requires
        uncommented(s),
        0 <= i <= s.len(),
    ensures
        stripped_from(s, i) == Some(s.skip(i)),
    decreases s.len() - i,
{
    if i < s.len() {
        assert(!comment_at(s, i));
        lemma_strip_nothing(s, i + 1);
        assert(seq![s[i]] + s.skip(i + 1) =~= s.skip(i));
    } else {
        assert(s.skip(i) =~= Seq::empty());
    }
}

/// Number of newlines in a text.
pub open spec fn newlines(s: Seq<char>) -> nat
    decreases s.len(),
{
    if s.len() == 0 {
        0
    } else {
        newlines(s.skip(1)) + (if s[0] == '\n' {
            1nat
        } else {
            0nat
        })
    }
}

/// The newlines of two texts add up.
proof fn lemma_newlines_add(a: Seq<char>, b: Seq<char>)
    ensures
        newlines(a + b) == newlines(a) + newlines(b),
    decreases a.len(),
{
    if a.len() == 0 {
        assert(a + b =~= b);
    } else {
        lemma_newlines_add(a.skip(1), b);
        assert((a + b).skip(1) =~= a.skip(1) + b);
    }
}

/// Blanks hold no newline.
proof fn lemma_newlines_blanks(n: nat)
    ensures
        newlines(blanks(n)) == 0,
    decreases n,
{
    if n > 0 {
        lemma_newlines_blanks((n - 1) as nat);
        assert(blanks(n).skip(1) =~= blanks((n - 1) as nat));
    }
}

/// Blanking text out keeps its newlines.
proof fn lemma_newlines_blanked(s: Seq<char>, a: int, b: int)
    requires
        0 <= a <= b <= s.len(),
    ensures
        newlines(blanked(s, a, b)) == newlines(s.subrange(a, b)),
    decreases b - a,
{
    if a < b {
        lemma_newlines_blanked(s, a + 1, b);
        let head = if s[a] == '\n' {
            seq!['\n']
        } else {
            blanks(utf8_width(s[a]))
        };
        lemma_newlines_add(head, blanked(s, a + 1, b));
        lemma_newlines_blanks(utf8_width(s[a]));
        assert(seq!['\n'].skip(1) =~= Seq::<char>::empty());
        assert(newlines(Seq::<char>::empty()) == 0);
        assert(newlines(seq!['\n']) == 1);
        assert(s.subrange(a, b).skip(1) =~= s.subrange(a + 1, b));
    } else {
        assert(s.subrange(a, b) =~= Seq::<char>::empty());
    }
}

/// Characters that are no newlines count for nothing.
proof fn lemma_newlines_skip(s: Seq<char>, i: int, n: int)
    requires
        0 <= i,
        0 <= n,
        i + n <= s.len(),
        forall|k: int| i <= k < i + n ==> #[trigger] s[k] != '\n',
    ensures
        newlines(s.skip(i)) == newlines(s.skip(i + n)),
    decreases n,
{
    if n > 0 {
        lemma_newlines_skip(s, i + 1, n - 1);
        assert(s.skip(i).skip(1) =~= s.skip(i + 1));
        assert(s.skip(i)[0] == s[i]);
    }
}

/// What is left from a position on has the newlines that stood there.
proof fn lemma_newlines_stay(s: Seq<char>, i: int)
    requires
        0 <= i <= s.len(),
    ensures
        stripped_from(s, i) matches Some(t) ==> newlines(t) == newlines(s.skip(i)),
    decreases s.len() - i,
{
    if i >= s.len() {
        assert(s.skip(i) =~= Seq::<char>::empty());
    } else if comment_at(s, i) {
        if block_at(s, i) {
            let end = block_end(s, i + 4);
            lemma_block_end(s, i + 4);
            lemma_block_closes(s, i + 4);
            let head = blanked(s, i + 4, end);
            lemma_newlines_skip(s, i, 4);
            if end >= s.len() {
                assert(s.skip(i + 4) =~= Seq::<char>::empty());
            } else {
                lemma_newlines_blanked(s, i + 4, end);
                assert(s.skip(i + 4) =~= s.subrange(i + 4, end) + s.skip(end));
                lemma_newlines_add(s.subrange(i + 4, end), s.skip(end));
                if end + 1 < s.len() {
                    lemma_newlines_stay(s, end + 2);
                    lemma_newlines_skip(s, end, 2);
                    if let Some(t) = stripped_from(s, end + 2) {
                        lemma_newlines_add(head, t);
                    }
                } else {
                    assert(head.push(s[end]) =~= head + seq![s[end]]);
                    lemma_newlines_add(head, seq![s[end]]);
                    assert(s.skip(end) =~= seq![s[end]]);
                }
            }
        } else {
            let end = line_end(s, i);
            lemma_line_end(s, i);
            lemma_newlines_blanked(s, i, end);
            lemma_newlines_stay(s, end);
            assert(s.skip(i) =~= s.subrange(i, end) + s.skip(end));
            lemma_newlines_add(s.subrange(i, end), s.skip(end));
            if let Some(t) = stripped_from(s, end) {
                lemma_newlines_add(blanked(s, i, end), t);
            }
        }
    } else {
        lemma_newlines_stay(s, i + 1);
        assert(s.skip(i) =~= seq![s[i]] + s.skip(i + 1));
        lemma_newlines_add(seq![s[i]], s.skip(i + 1));
        if let Some(t) = stripped_from(s, i + 1) {
            lemma_newlines_add(seq![s[i]], t);
        }
    }
}

/// A block comment ends with its closing brackets where it has any.
proof fn lemma_block_closes(s: Seq<char>, i: int)
    requires
        0 <= i <= s.len(),
    ensures
        i < s.len() ==> block_end(s, i) < s.len(),
        block_end(s, i) + 1 < s.len() ==> s[block_end(s, i)] == ']' && s[block_end(s, i) + 1]
            == ']',
    decreases s.len() - i,
{
    if i + 1 < s.len() && !(s[i] == ']' && s[i + 1] == ']') {
        lemma_block_closes(s, i + 1);
    }
}

/// ASCII text is never lost.
proof fn lemma_ascii_is_kept(s: Seq<char>, i: int)
    requires
        forall|k: int| 0 <= k < s.len() ==> (#[trigger] s[k] as u32) < 0x80,
    ensures
        stripped_from(s, i) is Some,
    decreases s.len() - i,
{
    if 0 <= i < s.len() {
        if comment_at(s, i) {
            if block_at(s, i) {
                let end = block_end(s, i + 4);
                lemma_block_end(s, i + 4);
                if end + 1 < s.len() {
                    lemma_ascii_is_kept(s, end + 2);
                } else if end < s.len() {
                    assert((s[end] as u32) < 0x80);
                }
            } else {
                lemma_line_end(s, i);
                lemma_ascii_is_kept(s, line_end(s, i));
            }
        } else {
            lemma_ascii_is_kept(s, i + 1);
        }
    }
}

/// Stripping ASCII text keeps its newlines, so everything stays on its line.
pub proof fn law_stripping_keeps_newlines(s: Seq<char>)
    requires
        forall|k: int| 0 <= k < s.len() ==> (#[trigger] s[k] as u32) < 0x80,
    ensures
        newlines(stripped(s)) == newlines(s),
{
    lemma_ascii_is_kept(s, 0);
    lemma_newlines_stay(s, 0);
    assert(s.skip(0) =~= s);
}

/// Where a line ends does not depend on what stands in front of the text.
proof fn lemma_line_end_behind(h: Seq<char>, s: Seq<char>, i: int)
    requires
        0 <= i <= s.len(),
    ensures
        line_end(h + s, h.len() + i) == h.len() + line_end(s, i),
    decreases s.len() - i,
{
    if i < s.len() && s[i] != '\n' {
        assert((h + s)[h.len() + i] == s[i]);
        lemma_line_end_behind(h, s, i + 1);
    } else if i < s.len() {
        assert((h + s)[h.len() + i] == s[i]);
    }
}

/// Where a block ends does not depend on what stands in front of the text.
proof fn lemma_block_end_behind(h: Seq<char>, s: Seq<char>, i: int)
    requires
        0 <= i,
    ensures
        block_end(h + s, h.len() + i) == h.len() + block_end(s, i),
    decreases s.len() - i,
{
    if i + 1 < s.len() {
        assert((h + s)[h.len() + i] == s[i]);
        assert((h + s)[h.len() + i + 1] == s[i + 1]);
        if !(s[i] == ']' && s[i + 1] == ']') {
            lemma_block_end_behind(h, s, i + 1);
        }
    }
}

/// Blanking out does not depend on what stands in front of the text.
proof fn lemma_blanked_behind(h: Seq<char>, s: Seq<char>, a: int, b: int)
    requires
        0 <= a,
        b <= s.len(),
    ensures
        blanked(h + s, h.len() + a, h.len() + b) == blanked(s, a, b),
    decreases b - a,
{
    if a < b {
        assert((h + s)[h.len() + a] == s[a]);
        lemma_blanked_behind(h, s, a + 1, b);
    }
}

/// What is left from a position on does not depend on what stands in front of
/// the text.
proof fn lemma_stripped_behind(h: Seq<char>, s: Seq<char>, i: int)
    requires
        0 <= i,
    ensures
        stripped_from(h + s, h.len() + i) == stripped_from(s, i),
    decreases s.len() - i,
{
    let all = h + s;
    let k = h.len() + i;
    if i < s.len() {
        assert(all[k] == s[i]);
        assert(i + 1 < s.len() ==> all[k + 1] == s[i + 1]);
        assert(i + 2 < s.len() ==> all[k + 2] == s[i + 2]);
        assert(i + 3 < s.len() ==> all[k + 3] == s[i + 3]);
        assert(comment_at(all, k) == comment_at(s, i));
        if comment_at(s, i) {
            assert(block_at(all, k) == block_at(s, i));
            if block_at(s, i) {
                let end = block_end(s, i + 4);
                lemma_block_end(s, i + 4);
                lemma_block_end_behind(h, s, i + 4);
                if end < s.len() {
                    assert(all[h.len() + end] == s[end]);
                    lemma_blanked_behind(h, s, i + 4, end);
                    if end + 1 < s.len() {
                        lemma_stripped_behind(h, s, end + 2);
                    }
                }
            } else {
                let end = line_end(s, i);
                lemma_line_end(s, i);
                lemma_line_end_behind(h, s, i);
                lemma_blanked_behind(h, s, i, end);
                lemma_stripped_behind(h, s, end);
            }
        } else {
            lemma_stripped_behind(h, s, i + 1);
        }
    }
}

/// A line ends with its first newline.
proof fn lemma_line_ends_at(s: Seq<char>, i: int, end: int)
    requires
        0 <= i <= end < s.len(),
        s[end] == '\n',
        forall|k: int| i <= k < end ==> #[trigger] s[k] != '\n',
    ensures
        line_end(s, i) == end,
    decreases end - i,
{
    if i < end {
        lemma_line_ends_at(s, i + 1, end);
    }
}

/// A line without newlines leaves blanks.
proof fn lemma_blanked_line(s: Seq<char>, a: int, b: int)
    requires
        0 <= a,
        b <= s.len(),
        forall|k: int| a <= k < b ==> #[trigger] s[k] != '\n',
    ensures
        forall|k: int| 0 <= k < blanked(s, a, b).len() ==> #[trigger] blanked(s, a, b)[k] == ' ',
    decreases b - a,
{
    if a < b {
        lemma_blanked_line(s, a + 1, b);
        let head = blanks(utf8_width(s[a]));
        let tail = blanked(s, a + 1, b);
        assert forall|k: int| 0 <= k < (head + tail).len() implies #[trigger] (head + tail)[k]
            == ' ' by {
            if k >= head.len() {
                assert((head + tail)[k] == tail[k - head.len()]);
            }
        }
    }
}

/// Declarations behind a whole line are found where they were.
proof fn lemma_declare_behind(h: Seq<char>, t: Seq<char>, i: int)
    requires
        h.len() > 0,
        h.last() == '\n',
        0 <= i,
    ensures
        declare_from(h + t, h.len() + i) == (if declare_from(t, i) < 0 {
            -1
        } else {
            h.len() + declare_from(t, i)
        }),
    decreases t.len() - i,
{
    if i < t.len() {
        let k = h.len() + i;
        assert((h + t).skip(k) =~= t.skip(i));
        assert(i > 0 ==> (h + t)[k - 1] == t[i - 1]);
        assert(i == 0 ==> (h + t)[k - 1] == h.last());
        lemma_declare_behind(h, t, i + 1);
        lemma_declare_from(t, i + 1);
    }
}

/// A line of blanks declares nothing.
proof fn lemma_blank_line(h: Seq<char>, t: Seq<char>, i: int)
    requires
        0 <= i <= h.len(),
        forall|k: int| 0 <= k < h.len() ==> #[trigger] h[k] == ' ' || h[k] == '\n',
    ensures
        declare_from(h + t, i) == declare_from(h + t, h.len() as int),
    decreases h.len() - i,
{
    if i < h.len() {
        reveal_strlit("declare ");
        let rest = (h + t).skip(i);
        assert(rest[0] == h[i]);
        assert(!starts(rest, "declare "@)) by {
            if starts(rest, "declare "@) {
                assert(rest.take(8)[0] == 'd');
            }
        }
        lemma_blank_line(h, t, i + 1);
    }
}

/// A comment line in front of a source leaves its schema unchanged.
pub proof fn law_leading_comment_declares_nothing(comment: Seq<char>, source: Seq<char>)
    requires
        forall|k: int| 0 <= k < comment.len() ==> #[trigger] comment[k] != '\n',
    ensures
        schema_of("-- "@ + comment + "\n"@ + source) == schema_of(source),
{
    reveal_strlit("-- ");
    reveal_strlit("\n");
    let h = "-- "@ + comment + "\n"@;
    let all = h + source;
    let end = h.len() - 1;
    assert("-- "@ + comment + "\n"@ + source =~= all);
    assert(all[0] == '-' && all[1] == '-' && all[2] == ' ');
    assert(all[end] == '\n');
    assert forall|k: int| 0 <= k < end implies #[trigger] all[k] != '\n' by {
        if k >= 3 {
            assert(all[k] == comment[k - 3]);
        }
    }
    lemma_line_ends_at(all, 0, end);
    lemma_blanked_line(all, 0, end);
    lemma_stripped_behind(h, source, 0);
    assert(comment_at(all, 0) && !block_at(all, 0));
    assert(!comment_at(all, end));
    let rest = stripped_from(source, 0);
    assert(stripped_from(all, end) == prepend(seq!['\n'], rest));
    assert(stripped_from(all, 0) == prepend(blanked(all, 0, end), stripped_from(all, end)));
    let line = blanked(all, 0, end).push('\n');
    lemma_prepend(blanked(all, 0, end), seq!['\n'], rest);
    assert(blanked(all, 0, end) + seq!['\n'] =~= line);
    if let Some(t) = rest {
        assert(stripped(all) == line + t);
        lemma_blank_line(line, t, 0);
        lemma_declare_behind(line, t, 0);
        let at = declare_from(t, 0);
        lemma_declare_from(t, 0);
        if at >= 0 {
            assert((line + t).skip(line.len() + at + 8) =~= t.skip(at + 8));
        }
    }
}

/// Stripping leaves no comment, a text without comments is left as it is, and
/// so stripping again changes nothing.
pub proof fn law_comments_are_stripped(s: Seq<char>)
    ensures
        uncommented(stripped(s)),
        uncommented(s) ==> stripped(s) == s,
        stripped(stripped(s)) == stripped(s),
{
    lemma_stripped_from(s, 0);
    lemma_strip_nothing(stripped(s), 0);
    assert(stripped(s).skip(0) =~= stripped(s));
    if uncommented(s) {
        lemma_strip_nothing(s, 0);
        assert(s.skip(0) =~= s);
    }
}

/// Comments change nothing about a schema: a source and the same source
/// without its comments declare the same.
pub proof fn law_comments_declare_nothing(s: Seq<char>)
    ensures
        schema_of(stripped(s)) == schema_of(s),
{
    law_comments_are_stripped(s);
}

/// The key of a namespace entry: the identifier at its start.
pub open spec fn entry_key(piece: Seq<char>) -> Seq<char> {
    trim(piece).take(ident_len(trim(piece)))
}

/// What follows the key of a namespace entry.
pub open spec fn behind_key(piece: Seq<char>) -> Seq<char> {
    trim_start(trim(piece).skip(ident_len(trim(piece))))
}

/// The type of a namespace entry: what follows the colon behind its key.
pub open spec fn entry_type(piece: Seq<char>) -> Seq<char> {
    trim(behind_key(piece).skip(1))
}

/// Whether a piece of a namespace body says nothing.
pub open spec fn is_blank_entry(piece: Seq<char>) -> bool {
    trim(piece).len() == 0
}

/// Whether a piece of a namespace body is an entry `key: (...)`.
pub open spec fn is_function_entry(piece: Seq<char>) -> bool {
    !is_blank_entry(piece) && opens(entry_type(piece), '(')
}

/// Whether a piece of a namespace body is an entry `key: {...}`.
pub open spec fn is_child_entry(piece: Seq<char>) -> bool {
    !is_blank_entry(piece) && opens(entry_type(piece), '{')
}

/// Whether a piece of a namespace body can be read: it is blank, or a key and
/// a colon, with a body that can be read where it is a nested namespace.
pub open spec fn is_readable_entry(piece: Seq<char>) -> bool {
    is_blank_entry(piece) || (entry_key(piece).len() > 0 && opens(behind_key(piece), ':') && (
    is_child_entry(piece) ==> namespace_type(entry_type(piece)) is Ok))
}

/// The keys of the function entries among some pieces, in their order.
pub open spec fn function_keys(list: Seq<Seq<char>>) -> Seq<Seq<char>> {
    list.filter(|p: Seq<char>| is_function_entry(p)).map_values(|p: Seq<char>| entry_key(p))
}

proof fn lemma_function_keys(p: Seq<char>, rest: Seq<Seq<char>>)
    ensures
        function_keys(seq![p] + rest) == (if is_function_entry(p) {
            seq![entry_key(p)]
        } else {
            Seq::empty()
        }) + function_keys(rest),
{
    let pred = |q: Seq<char>| is_function_entry(q);
    let key = |q: Seq<char>| entry_key(q);
    Seq::filter_distributes_over_add(seq![p], rest, pred);
    reveal_with_fuel(Seq::filter, 2);
    assert(seq![p].drop_last() =~= Seq::<Seq<char>>::empty());
    let one = seq![p].filter(pred);
    assert(one =~= if is_function_entry(p) {
        seq![p]
    } else {
        Seq::empty()
    });
    assert((one + rest.filter(pred)).map_values(key) =~= one.map_values(key) + rest.filter(
        pred,
    ).map_values(key));
}

proof fn lemma_function_keys_concat(a: Seq<Seq<char>>, b: Seq<Seq<char>>)
    ensures
        function_keys(a + b) == function_keys(a) + function_keys(b),
{
    let pred = |q: Seq<char>| is_function_entry(q);
    let key = |q: Seq<char>| entry_key(q);
    Seq::filter_distributes_over_add(a, b, pred);
    assert((a.filter(pred) + b.filter(pred)).map_values(key) =~= a.filter(pred).map_values(key)
        + b.filter(pred).map_values(key));
}

proof fn lemma_entries(body: Seq<char>, i: int, acc: NamespaceModel)
    requires
        0 <= i <= pieces(body).len(),
        ordered(acc.children),
    ensures
        namespace_entries(body, i, acc) is Ok <==> forall|k: int|
            i <= k < pieces(body).len() ==> is_readable_entry(#[trigger] pieces(body)[k]),
        namespace_entries(body, i, acc) matches Ok(ns) ==> {
            &&& ns.functions == acc.functions + function_keys(pieces(body).skip(i))
            &&& ordered(ns.children)
            &&& forall|key: Seq<char>|
                (forall|k: int|
                    i <= k < pieces(body).len() ==> !(is_child_entry(#[trigger] pieces(body)[k])
                        && entry_key(pieces(body)[k]) == key)) ==> #[trigger] lookup(
                    ns.children,
                    key,
                ) == lookup(acc.children, key)
            &&& forall|k: int|
                i <= k < pieces(body).len() && is_child_entry(#[trigger] pieces(body)[k]) && (
                forall|l: int|
                    k < l < pieces(body).len() ==> !(is_child_entry(#[trigger] pieces(body)[l])
                        && entry_key(pieces(body)[l]) == entry_key(pieces(body)[k]))) ==> lookup(
                    ns.children,
                    entry_key(pieces(body)[k]),
                ) == Some(namespace_type(entry_type(pieces(body)[k]))->Ok_0.0)
        },
    decreases pieces(body).len() - i,
{
    let all = pieces(body);
    if i == all.len() {
        assert(all.skip(i) =~= Seq::empty());
        reveal(Seq::filter);
        assert(function_keys(all.skip(i)) =~= Seq::empty());
        assert(acc.functions + Seq::<Seq<char>>::empty() =~= acc.functions);
    } else {
        let p = all[i];
        let t = trim(p);
        let n = ident_len(t);
        lemma_ident_len(t);
        let key = entry_key(p);
        let value = entry_type(p);
        assert(all.skip(i) =~= seq![p] + all.skip(i + 1));
        lemma_function_keys(p, all.skip(i + 1));
        let next = if is_function_entry(p) {
            NamespaceModel { functions: acc.functions.push(key), ..acc }
        } else if is_child_entry(p) {
            NamespaceModel {
                children: put(acc.children, key, namespace_type(value)->Ok_0.0),
                ..acc
            }
        } else {
            acc
        };
        if is_child_entry(p) {
            lemma_put(acc.children, key, namespace_type(value)->Ok_0.0);
        }
        if is_readable_entry(p) {
            assert(namespace_entries(body, i, acc) == namespace_entries(body, i + 1, next));
            lemma_entries(body, i + 1, next);
            assert(acc.functions.push(key) + function_keys(all.skip(i + 1)) =~= acc.functions + (
            seq![key] + function_keys(all.skip(i + 1))));
            assert(acc.functions + (Seq::<Seq<char>>::empty() + function_keys(all.skip(i + 1)))
                =~= acc.functions + function_keys(all.skip(i + 1)));
            if let Ok(ns) = namespace_entries(body, i, acc) {
                assert forall|name: Seq<char>|
                    (forall|k: int|
                        i <= k < all.len() ==> !(is_child_entry(#[trigger] all[k]) && entry_key(
                            all[k],
                        ) == name)) implies #[trigger] lookup(ns.children, name) == lookup(
                    acc.children,
                    name,
                ) by {
                    assert(!(is_child_entry(all[i]) && entry_key(all[i]) == name));
                    assert(lookup(next.children, name) == lookup(acc.children, name));
                }
                assert forall|k: int|
                    i <= k < all.len() && is_child_entry(#[trigger] all[k]) && (forall|l: int|
                        k < l < all.len() ==> !(is_child_entry(#[trigger] all[l]) && entry_key(
                            all[l],
                        ) == entry_key(all[k]))) implies lookup(ns.children, entry_key(all[k]))
                    == Some(namespace_type(entry_type(all[k]))->Ok_0.0) by {
                    if k == i {
                        assert(lookup(ns.children, key) == lookup(next.children, key));
                    }
                }
            }
        } else {
            assert(namespace_entries(body, i, acc) is Err);
            assert(!is_readable_entry(all[i]));
        }
    }
}

/// A namespace body lists its functions: they are the keys of the pieces
/// between its commas whose type starts with a bracket, in their order,
/// whatever else stands between them.
pub proof fn law_functions_are_the_bracket_entries(body: Seq<char>)
    ensures
        namespace_entries(body, 0, empty_namespace()) matches Ok(ns) ==> ns.functions
            == pieces(body).filter(|p: Seq<char>| is_function_entry(p)).map_values(
            |p: Seq<char>| entry_key(p),
        ),
{
    lemma_entries(body, 0, empty_namespace());
    assert(pieces(body).skip(0) =~= pieces(body));
    assert(Seq::<Seq<char>>::empty() + function_keys(pieces(body)) =~= function_keys(
        pieces(body),
    ));
}

/// Every entry `key: (...)` of a namespace body is one of its functions.
pub proof fn law_function_entry_is_listed(body: Seq<char>, k: int)
    requires
        0 <= k < pieces(body).len(),
        is_function_entry(pieces(body)[k]),
    ensures
        namespace_entries(body, 0, empty_namespace()) matches Ok(ns) ==> ns.functions.contains(
            entry_key(pieces(body)[k]),
        ),
{
    law_functions_are_the_bracket_entries(body);
    let all = pieces(body);
    let pred = |p: Seq<char>| is_function_entry(p);
    let kept = all.filter(pred);
    all.lemma_filter_contains(pred, k);
    let j = choose|j: int| 0 <= j < kept.len() && kept[j] == all[k];
    assert(function_keys(all)[j] == entry_key(all[k]));
}

/// A namespace body is refused only for an entry that cannot be read: one
/// without a key, one without a colon behind it, or a nested namespace that
/// cannot be read.
pub proof fn law_readable_entries_are_read(body: Seq<char>)
    ensures
        namespace_entries(body, 0, empty_namespace()) is Ok <==> forall|k: int|
            0 <= k < pieces(body).len() ==> is_readable_entry(#[trigger] pieces(body)[k]),
{
    lemma_entries(body, 0, empty_namespace());
}

/// Every entry `key: {...}` of a namespace body is one of its children, with
/// the namespace that is written there; the last one of a name counts. A name
/// without such an entry is no child.
pub proof fn law_children_are_the_brace_entries(body: Seq<char>, key: Seq<char>)
    ensures
        namespace_entries(body, 0, empty_namespace()) matches Ok(ns) ==> {
            &&& (lookup(ns.children, key) is Some <==> exists|k: int|
                0 <= k < pieces(body).len() && is_child_entry(#[trigger] pieces(body)[k])
                    && entry_key(pieces(body)[k]) == key)
            &&& forall|k: int|
                0 <= k < pieces(body).len() && is_child_entry(#[trigger] pieces(body)[k])
                    && entry_key(pieces(body)[k]) == key && (forall|l: int|
                    k < l < pieces(body).len() ==> !(is_child_entry(#[trigger] pieces(body)[l])
                        && entry_key(pieces(body)[l]) == key)) ==> (namespace_type(
                    entry_type(pieces(body)[k]),
                ) matches Ok((child, _)) && lookup(ns.children, key) == Some(child))
            &&& ordered(ns.children)
        },
{
    lemma_entries(body, 0, empty_namespace());
    let all = pieces(body);
    if let Ok(ns) = namespace_entries(body, 0, empty_namespace()) {
        assert forall|k: int|
            0 <= k < all.len() && is_child_entry(#[trigger] all[k]) implies namespace_type(
            entry_type(all[k]),
        ) is Ok by {
            assert(is_readable_entry(all[k]));
        }
        if exists|k: int|
            0 <= k < all.len() && is_child_entry(#[trigger] all[k]) && entry_key(all[k]) == key {
            let k = choose|k: int|
                0 <= k < all.len() && is_child_entry(#[trigger] all[k]) && entry_key(all[k]) == key;
            let last = lemma_last_entry(all, key, k);
            assert(is_child_entry(all[last]));
        }
    }
}

/// The last entry of a name among those from `k` on.
proof fn lemma_last_entry(all: Seq<Seq<char>>, key: Seq<char>, k: int) -> (last: int)
    requires
        0 <= k < all.len(),
        is_child_entry(all[k]),
        entry_key(all[k]) == key,
    ensures
        k <= last < all.len(),
        is_child_entry(all[last]),
        entry_key(all[last]) == key,
        forall|l: int|
            last < l < all.len() ==> !(is_child_entry(#[trigger] all[l]) && entry_key(all[l])
                == key),
    decreases all.len() - k,
{
    if exists|l: int|
        k < l < all.len() && is_child_entry(#[trigger] all[l]) && entry_key(all[l]) == key {
        let l = choose|l: int|
            k < l < all.len() && is_child_entry(#[trigger] all[l]) && entry_key(all[l]) == key;
        lemma_last_entry(all, key, l)
    } else {
        k
    }
}

/// How many brackets are open behind the first `n` characters.
pub open spec fn open_brackets(s: Seq<char>, n: int) -> int
    decreases n,
{
    if n <= 0 {
        0
    } else if s[n - 1] == '{' || s[n - 1] == '(' || s[n - 1] == '[' {
        open_brackets(s, n - 1) + 1
    } else if s[n - 1] == '}' || s[n - 1] == ')' || s[n - 1] == ']' {
        open_brackets(s, n - 1) - 1
    } else {
        open_brackets(s, n - 1)
    }
}

proof fn lemma_pieces_behind(a: Seq<char>, s: Seq<char>, start: int, i: int, depth: int)
    requires
        0 <= start <= i <= s.len(),
    ensures
        pieces_from(a + s, a.len() + start, a.len() + i, depth) == pieces_from(s, start, i, depth),
    decreases s.len() - i,
{
    let all = a + s;
    let n = a.len() as int;
    if i >= s.len() {
        assert(all.subrange(n + start, all.len() as int) =~= s.subrange(start, s.len() as int));
    } else {
        assert(all[n + i] == s[i]);
        assert(all.subrange(n + start, n + i) =~= s.subrange(start, i));
        if s[i] == '{' || s[i] == '(' || s[i] == '[' {
            lemma_pieces_behind(a, s, start, i + 1, depth + 1);
        } else if s[i] == '}' || s[i] == ')' || s[i] == ']' {
            lemma_pieces_behind(a, s, start, i + 1, depth - 1);
        } else if s[i] == ',' && depth == 0 {
            lemma_pieces_behind(a, s, i + 1, i + 1, depth);
        } else {
            lemma_pieces_behind(a, s, start, i + 1, depth);
        }
    }
}

proof fn lemma_pieces_concat(a: Seq<char>, b: Seq<char>, start: int, i: int, depth: int)
    requires
        0 <= start <= i <= a.len(),
        depth == open_brackets(a, i),
        open_brackets(a, a.len() as int) == 0,
    ensures
        pieces_from(a + ","@ + b, start, i, depth) == pieces_from(a, start, i, depth) + pieces(b),
    decreases a.len() - i,
{
    reveal_strlit(",");
    let all = a + ","@ + b;
    if i >= a.len() {
        assert(all[i] == ',');
        assert(all.subrange(start, i) =~= a.subrange(start, a.len() as int));
        lemma_pieces_behind(a + ","@, b, 0, 0, 0);
    } else {
        assert(all[i] == a[i]);
        assert(all.subrange(start, i) =~= a.subrange(start, i));
        if a[i] == '{' || a[i] == '(' || a[i] == '[' {
            lemma_pieces_concat(a, b, start, i + 1, depth + 1);
        } else if a[i] == '}' || a[i] == ')' || a[i] == ']' {
            lemma_pieces_concat(a, b, start, i + 1, depth - 1);
        } else if a[i] == ',' && depth == 0 {
            lemma_pieces_concat(a, b, i + 1, i + 1, depth);
            assert(seq![a.subrange(start, i)] + (pieces_from(a, i + 1, i + 1, depth) + pieces(b))
                =~= (seq![a.subrange(start, i)] + pieces_from(a, i + 1, i + 1, depth)) + pieces(
                b,
            ));
        } else {
            lemma_pieces_concat(a, b, start, i + 1, depth);
        }
    }
}

/// A body that is written as two with a comma between them, the first with as
/// many brackets closed as opened, can be read where both can, and has the
/// functions of the first and then those of the second. A child of the second
/// is a child of the whole, and so is one of the first that the second does
/// not name.
pub proof fn law_bodies_are_read_in_turn(a: Seq<char>, b: Seq<char>, key: Seq<char>)
    requires
        open_brackets(a, a.len() as int) == 0,
    ensures
        namespace_entries(a + ","@ + b, 0, empty_namespace()) is Ok <==> namespace_entries(
            a,
            0,
            empty_namespace(),
        ) is Ok && namespace_entries(b, 0, empty_namespace()) is Ok,
        namespace_entries(a + ","@ + b, 0, empty_namespace()) matches Ok(both) ==> {
            &&& namespace_entries(a, 0, empty_namespace()) matches Ok(x)
            &&& namespace_entries(b, 0, empty_namespace()) matches Ok(y)
            &&& both.functions == x.functions + y.functions
            &&& lookup(both.children, key) == (if lookup(y.children, key) is Some {
                lookup(y.children, key)
            } else {
                lookup(x.children, key)
            })
        },
{
    let whole = a + ","@ + b;
    lemma_pieces_concat(a, b, 0, 0, 0);
    let p = pieces(a);
    let q = pieces(b);
    assert(pieces(whole) == p + q);
    law_readable_entries_are_read(a);
    law_readable_entries_are_read(b);
    law_readable_entries_are_read(whole);
    assert forall|k: int| 0 <= k < p.len() implies #[trigger] p[k] == pieces(whole)[k] by {}
    assert forall|k: int| 0 <= k < q.len() implies #[trigger] q[k] == pieces(whole)[p.len()
        + k] by {}
    assert forall|k: int| 0 <= k < pieces(whole).len() implies #[trigger] pieces(whole)[k] == (
    if k < p.len() {
        p[k]
    } else {
        q[k - p.len()]
    }) by {}
    law_functions_are_the_bracket_entries(a);
    law_functions_are_the_bracket_entries(b);
    law_functions_are_the_bracket_entries(whole);
    lemma_function_keys_concat(p, q);
    law_children_are_the_brace_entries(a, key);
    law_children_are_the_brace_entries(b, key);
    law_children_are_the_brace_entries(whole, key);
    if namespace_entries(whole, 0, empty_namespace()) is Ok {
        let both = namespace_entries(whole, 0, empty_namespace())->Ok_0;
        let x = namespace_entries(a, 0, empty_namespace())->Ok_0;
        let y = namespace_entries(b, 0, empty_namespace())->Ok_0;
        if lookup(y.children, key) is Some {
            let k = choose|k: int|
                0 <= k < q.len() && is_child_entry(#[trigger] q[k]) && entry_key(q[k]) == key;
            let last = lemma_last_entry(q, key, k);
            let at = p.len() + last;
            assert(pieces(whole)[at] == q[last]);
            assert forall|l: int| at < l < pieces(whole).len() implies !(is_child_entry(
                #[trigger] pieces(whole)[l],
            ) && entry_key(pieces(whole)[l]) == key) by {
                assert(pieces(whole)[l] == q[l - p.len()]);
            }
            assert(lookup(both.children, key) == lookup(y.children, key));
        } else {
            if lookup(x.children, key) is Some {
                let k = choose|k: int|
                    0 <= k < p.len() && is_child_entry(#[trigger] p[k]) && entry_key(p[k]) == key;
                let last = lemma_last_entry(p, key, k);
                assert(pieces(whole)[last] == p[last]);
                assert forall|l: int| last < l < pieces(whole).len() implies !(is_child_entry(
                    #[trigger] pieces(whole)[l],
                ) && entry_key(pieces(whole)[l]) == key) by {
                    if l < p.len() {
                        assert(pieces(whole)[l] == p[l]);
                    } else {
                        assert(pieces(whole)[l] == q[l - p.len()]);
                    }
                }
                assert(lookup(both.children, key) == lookup(x.children, key));
            } else {
                if lookup(both.children, key) is Some {
                    let k = choose|k: int|
                        0 <= k < pieces(whole).len() && is_child_entry(#[trigger] pieces(whole)[k])
                            && entry_key(pieces(whole)[k]) == key;
                    if k < p.len() {
                        assert(p[k] == pieces(whole)[k]);
                    } else {
                        assert(q[k - p.len()] == pieces(whole)[k]);
                    }
                }
            }
        }
    }
}

/// Whether a text is one identifier.
pub open spec fn is_identifier(s: Seq<char>) -> bool {
    s.len() > 0 && ident_start(s[0]) && forall|k: int|
        0 <= k < s.len() ==> ident_char(#[trigger] s[k])
}

proof fn lemma_ident_stops(name: Seq<char>, rest: Seq<char>, i: int)
    requires
        is_identifier(name),
        0 < i <= name.len(),
        rest.len() > 0 ==> !ident_char(rest[0]),
    ensures
        ident_end(name + rest, i) == name.len(),
    decreases name.len() - i,
{
    let s = name + rest;
    if i < name.len() {
        assert(s[i] == name[i]);
        lemma_ident_stops(name, rest, i + 1);
    } else if rest.len() > 0 {
        assert(s[i] == rest[0]);
    }
}

/// What is read off the front of an identifier with something else behind it.
proof fn lemma_read_ident(name: Seq<char>, rest: Seq<char>)
    requires
        is_identifier(name),
        rest.len() > 0 ==> !ident_char(rest[0]),
    ensures
        ident_len(name + rest) == name.len(),
        (name + rest).take(name.len() as int) == name,
        (name + rest).skip(name.len() as int) == rest,
        trim_start(name + rest) == name + rest,
{
    let s = name + rest;
    assert(s[0] == name[0]);
    lemma_ident_stops(name, rest, 1);
    assert(s.take(name.len() as int) =~= name);
    assert(s.skip(name.len() as int) =~= rest);
    assert(!white(s[0]));
    assert(s.skip(0) =~= s);
}

/// An entry that is written `key: (...` is a function entry of that key, and
/// one that is written `key: {...` is a nested namespace of that key.
pub proof fn law_written_entries(key: Seq<char>, rest: Seq<char>)
    requires
        is_identifier(key),
        rest.len() > 0,
        !white(rest.last()),
    ensures
        entry_key(key + ": ("@ + rest) == key,
        is_function_entry(key + ": ("@ + rest),
        entry_type(key + ": ("@ + rest) == "("@ + rest,
        entry_key(key + ": {"@ + rest) == key,
        is_child_entry(key + ": {"@ + rest),
        entry_type(key + ": {"@ + rest) == "{"@ + rest,
{
    reveal_strlit(": (");
    reveal_strlit(": {");
    reveal_strlit("(");
    reveal_strlit("{");
    lemma_written_entry(key, '(', rest);
    lemma_written_entry(key, '{', rest);
    assert(": ("@ =~= seq![':', ' ', '(']);
    assert(": {"@ =~= seq![':', ' ', '{']);
    assert("("@ =~= seq!['(']);
    assert("{"@ =~= seq!['{']);
}

proof fn lemma_written_entry(key: Seq<char>, c: char, rest: Seq<char>)
    requires
        is_identifier(key),
        rest.len() > 0,
        !white(rest.last()),
        !white(c),
    ensures
        entry_key(key + seq![':', ' ', c] + rest) == key,
        entry_type(key + seq![':', ' ', c] + rest) == seq![c] + rest,
        !is_blank_entry(key + seq![':', ' ', c] + rest),
{
    let tail = seq![':', ' ', c] + rest;
    let p = key + seq![':', ' ', c] + rest;
    assert(p =~= key + tail);
    lemma_read_ident(key, tail);
    assert(p.last() == rest.last());
    assert(trim(p) =~= p);
    let after = tail;
    assert(!white(after[0]));
    assert(after.skip(0) =~= after);
    assert(trim_start(after) =~= after);
    let value = after.skip(1);
    assert(value =~= seq![' ', c] + rest);
    assert(value[0] == ' ' && value[1] == c);
    assert(white_end(value, 1) == 1);
    assert(white_end(value, 0) == 1);
    assert(trim_start(value) =~= seq![c] + rest);
    let t = seq![c] + rest;
    assert(t.last() == rest.last());
    assert(trim_end(t) =~= t);
}

/// What `declare name: {...}` at the start of a text does: the namespace in
/// the braces becomes the root, under the name, and reading goes on behind the
/// closing brace. A second root is refused with both names.
pub proof fn law_root_declaration_is_read(
    name: Seq<char>,
    body: Seq<char>,
    rest: Seq<char>,
    acc: SchemaModel,
)
    requires
        is_identifier(name),
        closing(body + "}"@ + rest, 0, 1, 0) == Ok::<_, Seq<char>>(body.len() as int),
    ensures
        match namespace_entries(body, 0, empty_namespace()) {
            Err(e) => declarations("declare "@ + name + ": {"@ + body + "}"@ + rest, acc) == Err::<
                SchemaModel,
                _,
            >(e),
            Ok(ns) => match acc.root {
                Some(first) => declarations(
                    "declare "@ + name + ": {"@ + body + "}"@ + rest,
                    acc,
                ) == Err::<SchemaModel, _>(
                    SchemaFault::MultipleRoots { first: first.0, second: name },
                ),
                None => declarations("declare "@ + name + ": {"@ + body + "}"@ + rest, acc)
                    == declarations(rest, (SchemaModel { root: Some((name, ns)), ..acc })),
            },
        },
{
    reveal_strlit("declare ");
    reveal_strlit("class ");
    reveal_strlit(": {");
    reveal_strlit("}");
    let cursor = "declare "@ + name + ": {"@ + body + "}"@ + rest;
    let inner = body + "}"@ + rest;
    let tail = ": {"@ + inner;
    let c = name + tail;
    assert(cursor.skip(0) =~= cursor);
    assert(cursor.take(8) =~= "declare "@);
    assert(declare_from(cursor, 0) == 0);
    assert(cursor.skip(8) =~= c);
    lemma_read_ident(name, tail);
    assert(trim_start(cursor.skip(8)) == c);
    assert(!starts(c, "class "@)) by {
        if starts(c, "class "@) {
            if name.len() <= 5 {
                assert(c[name.len() as int] == ':');
                assert(c.take(6)[name.len() as int] == ':');
            } else {
                assert(c[5] == name[5]);
                assert(c.take(6)[5] == ' ');
                assert(ident_char(name[5]));
            }
        }
    }
    assert(!white(tail[0]));
    assert(tail.skip(0) =~= tail);
    assert(trim_start(tail) =~= tail);
    let value = tail.skip(1);
    assert(value[0] == ' ' && value[1] == '{');
    assert(white_end(value, 1) == 1);
    assert(white_end(value, 0) == 1);
    let ty = trim_start(value);
    assert(ty =~= seq!['{'] + inner);
    assert(ty.skip(0) =~= ty);
    assert(trim_start(ty) =~= ty);
    assert(ty.skip(1) =~= inner);
    assert(inner.take(body.len() as int) =~= body);
    assert(inner.skip(body.len() as int + 1) =~= rest);
}

/// What `declare class name` at the start of a text does: the methods of the
/// lines up to `end` become the class, and reading goes on behind it. A class
/// of the same name that was declared before is replaced.
pub proof fn law_class_declaration_is_read(
    name: Seq<char>,
    body: Seq<char>,
    rest: Seq<char>,
    acc: SchemaModel,
)
    requires
        is_identifier(name),
        body.len() > 0,
        !white(body[0]),
        !starts(body + "end"@ + rest, "extends "@),
        end_from(body + "end"@ + rest, 0) == body.len(),
    ensures
        declarations("declare class "@ + name + "\n"@ + body + "end"@ + rest, acc) == declarations(
            rest,
            (SchemaModel {
                classes: put(acc.classes, name, methods_of(split_lines(body))),
                ..acc
            }),
        ),
{
    reveal_strlit("declare ");
    reveal_strlit("declare class ");
    reveal_strlit("class ");
    reveal_strlit("\n");
    reveal_strlit("end");
    let cursor = "declare class "@ + name + "\n"@ + body + "end"@ + rest;
    let block = body + "end"@ + rest;
    let tail = "\n"@ + block;
    let c = "class "@ + (name + tail);
    assert(cursor.skip(0) =~= cursor);
    assert(cursor.take(8) =~= "declare "@);
    assert(declare_from(cursor, 0) == 0);
    assert(cursor.skip(8) =~= c);
    assert(!white(c[0]));
    assert(c.skip(0) =~= c);
    assert(trim_start(c) =~= c);
    assert(c.take(6) =~= "class "@);
    assert(c.skip(6) =~= name + tail);
    lemma_read_ident(name, tail);
    assert(tail[0] == '\n');
    assert(tail[1] == body[0]);
    assert(white_end(tail, 1) == 1);
    assert(white_end(tail, 0) == 1);
    assert(trim_start(tail) =~= block);
    assert(block.take(body.len() as int) =~= body);
    assert(block.skip(body.len() as int + 3) =~= rest);
}

/// The methods of a class are those of its lines, one after the other: those
/// of some lines and then those of the lines behind them.
pub proof fn law_methods_are_read_in_turn(a: Seq<Seq<char>>, b: Seq<Seq<char>>)
    ensures
        methods_of(a + b) == methods_of(a) + methods_of(b),
    decreases b.len(),
{
    if b.len() == 0 {
        assert(a + b =~= a);
        assert(methods_of(a) + methods_of(b) =~= methods_of(a));
    } else {
        law_methods_are_read_in_turn(a, b.drop_last());
        assert((a + b).drop_last() =~= a + b.drop_last());
        assert((a + b).last() == b.last());
        let before = methods_of(b.drop_last());
        if let Some(m) = method_of(b.last()) {
            assert((methods_of(a) + before).push(m) =~= methods_of(a) + before.push(m));
        }
    }
}

/// A line `function name(...` or `name: (...` declares the method of that
/// name, and a comment or a blank line declares none.
pub proof fn law_method_lines(name: Seq<char>, rest: Seq<char>)
    requires
        is_identifier(name),
        rest.len() > 0,
        !white(rest.last()),
    ensures
        method_of("function "@ + name + "("@ + rest) == Some(name),
        method_of(name + ": ("@ + rest) == Some(name),
        method_of("--"@ + rest) is None,
        method_of(Seq::empty()) is None,
        methods_of(seq!["function "@ + name + "("@ + rest]) == seq![name],
{
    reveal_strlit("function ");
    reveal_strlit("--");
    reveal_strlit("(");
    reveal_strlit(": (");
    reveal_with_fuel(methods_of, 2);
    let x = "function "@ + name + "("@ + rest;
    assert(!white(x[0]));
    assert(x.skip(0) =~= x);
    assert(x.last() == rest.last());
    assert(trim(x) =~= x);
    assert(x.take(9) =~= "function "@);
    assert(x.take(2)[0] == 'f');
    let tail = "("@ + rest;
    assert(x.skip(9) =~= name + tail);
    lemma_read_ident(name, tail);
    assert(!white(tail[0]));
    assert(tail.skip(0) =~= tail);
    assert(seq![x].drop_last() =~= Seq::<Seq<char>>::empty());
    assert(Seq::<Seq<char>>::empty().push(name) =~= seq![name]);
    let y = name + ": ("@ + rest;
    let after = ": ("@ + rest;
    assert(y =~= name + after);
    lemma_read_ident(name, after);
    assert(y.last() == rest.last());
    assert(trim(y) =~= y);
    assert(y[0] == name[0]);
    assert(!starts(y, "--"@)) by {
        if starts(y, "--"@) {
            assert(y.take(2)[0] == y[0]);
            assert(ident_start(y[0]));
        }
    }
    assert(!starts(y, "function "@)) by {
        if starts(y, "function "@) {
            if name.len() <= 8 {
                assert(y[name.len() as int] == ':');
                assert(y.take(9)[name.len() as int] == ':');
            } else {
                assert(y[8] == name[8]);
                assert(y.take(9)[8] == ' ');
                assert(ident_char(name[8]));
            }
        }
    }
    assert(!white(after[0]));
    assert(after.skip(0) =~= after);
    assert(trim_start(after) =~= after);
    let value = after.skip(1);
    assert(value[0] == ' ' && value[1] == '(');
    assert(white_end(value, 1) == 1);
    assert(white_end(value, 0) == 1);
    assert(trim_start(value)[0] == '(');
    let z = "--"@ + rest;
    assert(!white(z[0]));
    assert(z.skip(0) =~= z);
    assert(z.last() == rest.last());
    assert(trim(z) =~= z);
    assert(z.take(2) =~= "--"@);
    let none = Seq::<char>::empty();
    lemma_trim_len(none);
}

/// A file that holds one root declaration and no comments has that root, under
/// its name and with the namespace in the braces, and no classes; it is refused
/// only where that namespace is.
pub proof fn law_one_root_file(name: Seq<char>, body: Seq<char>)
    requires
        is_identifier(name),
        closing(body + "}"@, 0, 1, 0) == Ok::<_, Seq<char>>(body.len() as int),
        uncommented("declare "@ + name + ": {"@ + body + "}"@),
    ensures
        match namespace_entries(body, 0, empty_namespace()) {
            Ok(ns) => schema_of("declare "@ + name + ": {"@ + body + "}"@) matches Ok(s)
                && s.root == Some((name, ns)) && s.classes.len() == 0,
            Err(e) => schema_of("declare "@ + name + ": {"@ + body + "}"@) == Err::<
                SchemaModel,
                _,
            >(e),
        },
{
    let none = Seq::<char>::empty();
    let source = "declare "@ + name + ": {"@ + body + "}"@;
    assert(source =~= "declare "@ + name + ": {"@ + body + "}"@ + none);
    assert(body + "}"@ =~= body + "}"@ + none);
    lemma_strip_nothing(source, 0);
    assert(source.skip(0) =~= source);
    assert(stripped(source) == source);
    law_root_declaration_is_read(name, body, none, empty_schema());
    if let Ok(ns) = namespace_entries(body, 0, empty_namespace()) {
        let acc = SchemaModel { root: Some((name, ns)), ..empty_schema() };
        assert(declare_from(none, 0) == -1);
        assert(declarations(none, acc) == Ok::<_, SchemaFault>(acc));
    }
}

/// How many more of `open` than of `close` stand among the first `n`
/// characters.
pub open spec fn depth_of(s: Seq<char>, open: char, close: char, n: int) -> int
    decreases n,
{
    if n <= 0 {
        0
    } else if s[n - 1] == open {
        depth_of(s, open, close, n - 1) + 1
    } else if s[n - 1] == close {
        depth_of(s, open, close, n - 1) - 1
    } else {
        depth_of(s, open, close, n - 1)
    }
}

proof fn lemma_closing_at(s: Seq<char>, body: Seq<char>, i: int)
    requires
        0 <= i <= body.len() < s.len(),
        s.take(body.len() as int) == body,
        s[body.len() as int] == '}',
        forall|n: int| 0 <= n <= body.len() ==> #[trigger] depth_of(body, '{', '}', n) >= 0,
        forall|n: int| 0 <= n <= body.len() ==> #[trigger] depth_of(body, '(', ')', n) >= 0,
        depth_of(body, '{', '}', body.len() as int) == 0,
    ensures
        closing(
            s,
            i,
            (depth_of(body, '{', '}', i) + 1) as nat,
            depth_of(body, '(', ')', i) as nat,
        ) == Ok::<_, Seq<char>>(body.len() as int),
    decreases body.len() - i,
{
    if i < body.len() {
        assert(s.take(body.len() as int)[i] == s[i]);
        assert(depth_of(body, '{', '}', i) >= 0);
        assert(depth_of(body, '(', ')', i) >= 0);
        assert(depth_of(body, '{', '}', i + 1) >= 0);
        assert(depth_of(body, '(', ')', i + 1) >= 0);
        lemma_closing_at(s, body, i + 1);
    }
}

/// The brace that closes a namespace is the one behind its body, where the
/// body closes what it opens: braces and brackets in it do not end it.
pub proof fn law_brace_closes_balanced_body(body: Seq<char>, rest: Seq<char>)
    requires
        forall|n: int| 0 <= n <= body.len() ==> #[trigger] depth_of(body, '{', '}', n) >= 0,
        forall|n: int| 0 <= n <= body.len() ==> #[trigger] depth_of(body, '(', ')', n) >= 0,
        depth_of(body, '{', '}', body.len() as int) == 0,
    ensures
        closing(body + "}"@ + rest, 0, 1, 0) == Ok::<_, Seq<char>>(body.len() as int),
{
    reveal_strlit("}");
    let s = body + "}"@ + rest;
    assert(s.take(body.len() as int) =~= body);
    assert(s[body.len() as int] == '}');
    lemma_closing_at(s, body, 0);
}

proof fn lemma_one_piece(s: Seq<char>, i: int)
    requires
        0 <= i <= s.len(),
        forall|k: int| 0 <= k < s.len() && #[trigger] s[k] == ',' ==> open_brackets(s, k) != 0,
    ensures
        pieces_from(s, 0, i, open_brackets(s, i)) == seq![s],
    decreases s.len() - i,
{
    if i < s.len() {
        lemma_one_piece(s, i + 1);
    } else {
        assert(s.subrange(0, s.len() as int) =~= s);
    }
}

/// Commas inside brackets do not part a body: where every comma stands inside
/// of some, the body is one piece.
pub proof fn law_commas_in_brackets_do_not_part(s: Seq<char>)
    requires
        forall|k: int| 0 <= k < s.len() && #[trigger] s[k] == ',' ==> open_brackets(s, k) != 0,
    ensures
        pieces(s) == seq![s],
{
    lemma_one_piece(s, 0);
}

/// The pieces of two bodies with a comma between them are those of the first
/// and then those of the second, where the first closes what it opens.
pub proof fn law_commas_part_bodies(a: Seq<char>, b: Seq<char>)
    requires
        open_brackets(a, a.len() as int) == 0,
    ensures
        pieces(a + ","@ + b) == pieces(a) + pieces(b),
{
    lemma_pieces_concat(a, b, 0, 0, 0);
}

/// A body with one entry that cannot be read is refused with the entry: as one
/// without a key, or by its key as one without a colon.
pub proof fn law_unreadable_entry_is_told(body: Seq<char>, p: Seq<char>)
    requires
        pieces(body) == seq![p],
        trim(p).len() > 0,
    ensures
        entry_key(p).len() == 0 ==> namespace_entries(body, 0, empty_namespace()) == Err::<
            NamespaceModel,
            _,
        >(SchemaFault::Malformed("missing key: `"@ + trim(p) + "`"@)),
        entry_key(p).len() > 0 && !opens(behind_key(p), ':') ==> namespace_entries(
            body,
            0,
            empty_namespace(),
        ) == Err::<NamespaceModel, _>(
            SchemaFault::Malformed("missing `:` after `"@ + entry_key(p) + "`"@),
        ),
{
    lemma_ident_len(trim(p));
    assert(pieces(body)[0] == p);
}

} // verus!
