//! Source positions, source slices and doc comments.
use crate::resolver::SourceSpan;
use crate::text::{
    chars_of, ends, find, find_text, has_prefix, has_suffix, join, join_texts, lemma_encode_concat,
    line_ranges, split_from, split_lines, starts, string_of, strip_suffix, stripped_suffix, texts,
    trim, trim_start, trimmed, trimmed_start,
};
use vstd::prelude::*;
use vstd::slice::slice_subrange;
use vstd::string::*;
use vstd::utf8::{
    decode_utf8, encode_utf8, encode_utf8_decode_utf8, encode_utf8_valid_utf8, is_char_boundary,
    is_char_boundary_iff_not_is_continuation_byte, is_char_boundary_start_end_of_seq,
    valid_utf8, valid_utf8_split,
};

verus! {

/// Byte offsets at which the lines of the first `n` bytes start.
pub open spec fn line_starts(bytes: Seq<u8>, n: int) -> Seq<int>
    decreases n,
{
    if n <= 0 {
        seq![0]
    } else if bytes[n - 1] == 10u8 {
        line_starts(bytes, n - 1).push(n)
    } else {
        line_starts(bytes, n - 1)
    }
}

/// Byte offsets at which the lines of a text start.
pub open spec fn starts_of(source: Seq<char>) -> Seq<int> {
    line_starts(encode_utf8(source), encode_utf8(source).len() as int)
}

/// Byte offset of a position among lines with the given starts, saturating at
/// the largest offset; `None` where there is no such line.
pub open spec fn offset_in(starts: Seq<int>, line: int, column: int) -> Option<int> {
    if 0 <= line < starts.len() {
        let at = starts[line] + column;
        Some(
            if at > usize::MAX {
                usize::MAX as int
            } else {
                at
            },
        )
    } else {
        None
    }
}

/// Byte offset of a position of a text.
pub open spec fn offset_of(source: Seq<char>, line: int, column: int) -> Option<int> {
    offset_in(starts_of(source), line, column)
}

/// The characters between two byte offsets, where both are character
/// boundaries of the text and stand in order.
pub open spec fn slice_of(source: Seq<char>, start: int, end: int) -> Option<Seq<char>> {
    let bytes = encode_utf8(source);
    if 0 <= start <= end <= bytes.len() && is_char_boundary(bytes, start) && is_char_boundary(
        bytes,
        end,
    ) {
        Some(decode_utf8(bytes.subrange(start, end)))
    } else {
        None
    }
}

/// The text of a span.
pub open spec fn span_text(source: Seq<char>, span: SourceSpan) -> Option<Seq<char>> {
    match (
        offset_of(source, span.line as int, span.column as int),
        offset_of(source, span.end_line as int, span.end_column as int),
    ) {
        (Some(start), Some(end)) => slice_of(source, start, end),
        _ => None,
    }
}

/// Index of the last line among the first `n` that starts at or before a
/// byte offset.
pub open spec fn line_at(starts: Seq<int>, offset: int, n: int) -> int
    decreases n,
{
    if n <= 1 {
        0
    } else if starts[n - 1] <= offset {
        n - 1
    } else {
        line_at(starts, offset, n - 1)
    }
}

/// Byte offsets of the lines of a text.
pub struct SourceMap {
    pub line_offsets: Vec<usize>,
}

impl SourceMap {
    /// Whether this is the map of `source`.
    pub open spec fn maps(&self, source: Seq<char>) -> bool {
        self.starts() == starts_of(source)
    }

    /// Collects the line offsets of a text.
    pub fn new(source: &str) -> (r: Self)
        ensures
            r.maps(source@),
    {
        let bytes = source.as_bytes();
        let mut line_offsets: Vec<usize> = Vec::new();
        line_offsets.push(0);
        let mut i: usize = 0;
        assert(line_offsets@.map_values(|o: usize| o as int) =~= line_starts(bytes@, 0));
        while i < bytes.len()
            invariant
                i <= bytes.len(),
                line_offsets@.map_values(|o: usize| o as int) == line_starts(bytes@, i as int),
            decreases bytes.len() - i,
        {
            if bytes[i] == 10u8 {
                let ghost before = line_offsets@;
                line_offsets.push(i + 1);
                assert(line_offsets@.map_values(|o: usize| o as int) =~= before.map_values(
                    |o: usize| o as int,
                ).push(i + 1));
            }
            i += 1;
        }
        SourceMap { line_offsets }
    }

    /// The line starts of this map.
    pub open spec fn starts(&self) -> Seq<int> {
        self.line_offsets@.map_values(|o: usize| o as int)
    }

    /// Byte offset of a position.
    pub fn offset(&self, line: u32, column: u32) -> (r: Option<usize>)
        ensures
            match r {
                Some(o) => offset_in(self.starts(), line as int, column as int) == Some(o as int),
                None => offset_in(self.starts(), line as int, column as int) is None,
            },
    {
        let at: usize = line as usize;
        if at < self.line_offsets.len() {
            Some(self.line_offsets[at].saturating_add(column as usize))
        } else {
            None
        }
    }

    /// The text of a span.
    pub fn slice<'a>(&self, source: &'a str, span: &SourceSpan) -> (r: Option<&'a str>)
        requires
            self.maps(source@),
        ensures
            match r {
                Some(t) => span_text(source@, *span) == Some(t@),
                None => span_text(source@, *span) is None,
            },
    {
        match (
            self.offset(span.line, span.column),
            self.offset(span.end_line, span.end_column),
        ) {
            (Some(start), Some(end)) => byte_slice(source, start, end),
            _ => None,
        }
    }

    /// Index of the line that a byte offset is on.
    pub fn line_index(&self, offset: usize) -> (r: usize)
        requires
            self.line_offsets@.len() > 0,
        ensures
            r == line_at(self.starts(), offset as int, self.starts().len() as int),
            r < self.line_offsets@.len(),
    {
        let ghost all = self.starts();
        let mut n: usize = self.line_offsets.len();
        while n > 1
            invariant
                1 <= n <= self.line_offsets@.len(),
                all == self.starts(),
                line_at(all, offset as int, n as int) == line_at(
                    all,
                    offset as int,
                    self.line_offsets@.len() as int,
                ),
            decreases n,
        {
            if self.line_offsets[n - 1] <= offset {
                return n - 1;
            }
            n -= 1;
        }
        0
    }
}

/// A boundary of the whole text is one of every prefix that holds it.
proof fn lemma_boundary_prefix(bytes: Seq<u8>, start: int, end: int)
    requires
        valid_utf8(bytes),
        0 <= start <= end <= bytes.len(),
        is_char_boundary(bytes, end),
    ensures
        valid_utf8(bytes.subrange(0, end)),
        is_char_boundary(bytes.subrange(0, end), start) == is_char_boundary(bytes, start),
{
    valid_utf8_split(bytes, end);
    let prefix = bytes.subrange(0, end);
    if start == end {
        is_char_boundary_start_end_of_seq(prefix);
    } else {
        assert(prefix[start] == bytes[start]);
        is_char_boundary_iff_not_is_continuation_byte(bytes, start);
        is_char_boundary_iff_not_is_continuation_byte(prefix, start);
    }
}

/// Cuts a text between two byte offsets.
pub fn byte_slice<'a>(source: &'a str, start: usize, end: usize) -> (r: Option<&'a str>)
    ensures
        match r {
            Some(t) => slice_of(source@, start as int, end as int) == Some(t@),
            None => slice_of(source@, start as int, end as int) is None,
        },
{
    proof {
        encode_utf8_valid_utf8(source@);
    }
    let ghost bytes = encode_utf8(source@);
    let total: usize = source.as_bytes().len();
    if start > end || end > total || !source.is_char_boundary(end) {
        return None;
    }
    proof {
        lemma_boundary_prefix(bytes, start as int, end as int);
    }
    let head = source.split_at(end).0;
    assert(encode_utf8(head@) == bytes.subrange(0, end as int));
    if !head.is_char_boundary(start) {
        return None;
    }
    let piece = head.split_at(start).1;
    proof {
        assert(bytes.subrange(0, end as int).subrange(start as int, end as int) =~= bytes.subrange(
            start as int,
            end as int,
        ));
        encode_utf8_decode_utf8(piece@);
    }
    Some(piece)
}

/// The lines of a source; a final newline opens no further line.
pub open spec fn record_lines(source: Seq<char>) -> Seq<Seq<char>> {
    let lines = split_lines(source);
    if lines.len() > 1 && lines.last().len() == 0 {
        lines.drop_last()
    } else {
        lines
    }
}

/// Collects the lines of a source as half-open ranges.
pub fn line_records(source: &[char]) -> (r: Vec<(usize, usize)>)
    ensures
        r@.len() == record_lines(source@).len(),
        forall|k: int|
            #![trigger r@[k]]
            0 <= k < r@.len() ==> r@[k].0 <= r@[k].1 <= source@.len() && source@.subrange(
                r@[k].0 as int,
                r@[k].1 as int,
            ) == record_lines(source@)[k],
{
    let mut lines: Vec<(usize, usize)> = line_ranges(source);
    let n: usize = lines.len();
    if n > 1 && lines[n - 1].0 == lines[n - 1].1 {
        lines.pop();
    }
    lines
}

/// The comment block that is open on line `i`, whose text goes on with
/// `current`: its trimmed lines, and the index of the line after it.
pub open spec fn open_block(lines: Seq<Seq<char>>, i: int, current: Seq<char>) -> (
    Seq<Seq<char>>,
    int,
)
    decreases lines.len() - i,
{
    let end = find(current, "]]"@);
    if end >= 0 {
        (seq![trim(current.take(end))], i + 1)
    } else if i < 0 || i + 1 >= lines.len() {
        (seq![trim(current)], lines.len() as int)
    } else {
        let rest = open_block(lines, i + 1, lines[i + 1]);
        (seq![trim(current)] + rest.0, rest.1)
    }
}

/// A block ends after the line on which it was opened.
pub proof fn lemma_open_block(lines: Seq<Seq<char>>, i: int, current: Seq<char>)
    requires
        0 <= i < lines.len(),
    ensures
        i < open_block(lines, i, current).1 <= lines.len(),
    decreases lines.len() - i,
{
    if find(current, "]]"@) < 0 && i + 1 < lines.len() {
        lemma_open_block(lines, i + 1, lines[i + 1]);
    }
}

/// The comments that stand at the top of the file, from line `i` on: one text
/// per line comment and one per block.
pub open spec fn top_docs(lines: Seq<Seq<char>>, i: int) -> Seq<Seq<char>>
    decreases lines.len() - i,
{
    if i < 0 || i >= lines.len() {
        Seq::empty()
    } else {
        let t = trim_start(lines[i]);
        let block = open_block(lines, i, t.skip(4));
        proof {
            lemma_open_block(lines, i, t.skip(4));
        }
        if t.len() == 0 {
            Seq::empty()
        } else if starts(t, "--[["@) {
            seq![trim(join(block.0, "\n"@))] + top_docs(lines, block.1)
        } else if starts(t, "--"@) {
            seq![trim_start(t.skip(2))] + top_docs(lines, i + 1)
        } else {
            Seq::empty()
        }
    }
}

/// Doc texts as one text; `None` where there are none.
pub open spec fn docs_text(docs: Seq<Seq<char>>) -> Option<Seq<char>> {
    if docs.len() == 0 {
        None
    } else {
        Some(join(docs, "\n"@))
    }
}

/// The description that opens a file: its leading comments.
pub open spec fn description_of(source: Seq<char>) -> Option<Seq<char>> {
    docs_text(top_docs(record_lines(source), 0))
}

/// Joins doc texts.
fn join_docs(docs: &Vec<String>) -> (r: Option<String>)
    ensures
        match r {
            Some(t) => docs_text(texts(docs@)) == Some(t@),
            None => docs_text(texts(docs@)) is None,
        },
{
    if docs.len() == 0 {
        None
    } else {
        Some(join_texts(docs, "\n"))
    }
}

/// Whether `ranges` cut `source` into `lines`.
pub open spec fn cuts(source: Seq<char>, ranges: Seq<(usize, usize)>, lines: Seq<Seq<char>>) -> bool {
    &&& ranges.len() == lines.len()
    &&& forall|k: int|
        #![trigger ranges[k]]
        0 <= k < ranges.len() ==> ranges[k].0 <= ranges[k].1 <= source.len() && source.subrange(
            ranges[k].0 as int,
            ranges[k].1 as int,
        ) == lines[k]
}

/// Reads the comment block that line `at` opens.
fn read_open_block(
    source: &[char],
    ranges: &Vec<(usize, usize)>,
    at: usize,
    first: &[char],
    Ghost(lines): Ghost<Seq<Seq<char>>>,
) -> (r: (Vec<String>, usize))
    requires
        cuts(source@, ranges@, lines),
        at < ranges.len(),
    ensures
        texts(r.0@) == open_block(lines, at as int, first@).0,
        r.1 == open_block(lines, at as int, first@).1,
        at < r.1 <= ranges.len(),
{
    let mut block: Vec<String> = Vec::new();
    let mut current: &[char] = first;
    let mut index: usize = at;
    let ghost goal = open_block(lines, at as int, first@);
    assert(texts(block@) + open_block(lines, at as int, first@).0 =~= goal.0);
    loop
        invariant
            cuts(source@, ranges@, lines),
            at <= index < ranges.len(),
            goal == open_block(lines, at as int, first@),
            texts(block@) + open_block(lines, index as int, current@).0 == goal.0,
            open_block(lines, index as int, current@).1 == goal.1,
        decreases ranges.len() - index,
    {
        let ghost before = block@;
        let ghost here = current@;
        if let Some(end) = find_text(current, "]]") {
            let piece = slice_subrange(current, 0, end);
            assert(piece@ =~= here.take(end as int));
            block.push(string_of(trimmed(piece)));
            assert(texts(block@) =~= texts(before).push(trim(here.take(end as int))));
            assert(texts(block@) =~= goal.0);
            return (block, index + 1);
        }
        block.push(string_of(trimmed(current)));
        assert(texts(block@) =~= texts(before).push(trim(here)));
        index += 1;
        if index >= ranges.len() {
            assert(texts(block@) =~= goal.0);
            return (block, ranges.len());
        }
        let range = ranges[index];
        current = slice_subrange(source, range.0, range.1);
        assert(current@ == lines[index as int]);
        assert(texts(block@) + open_block(lines, index as int, current@).0 =~= texts(before) + (seq![
            trim(here),
        ] + open_block(lines, index as int, current@).0));
    }
}

/// The comments at the top of a file as one text.
pub fn top_module_description(source: &str) -> (r: Option<String>)
    ensures
        match r {
            Some(t) => description_of(source@) == Some(t@),
            None => description_of(source@) is None,
        },
{
    let chars: Vec<char> = chars_of(source);
    let ranges: Vec<(usize, usize)> = line_records(chars.as_slice());
    let ghost lines = record_lines(source@);
    let ghost goal = top_docs(lines, 0);
    let mut docs: Vec<String> = Vec::new();
    let mut index: usize = 0;
    proof {
        reveal_strlit("--[[");
        reveal_strlit("--");
        assert(texts(docs@) + goal =~= goal);
    }
    while index < ranges.len()
        invariant
            chars@ == source@,
            lines == record_lines(source@),
            cuts(chars@, ranges@, lines),
            index <= ranges.len(),
            goal == top_docs(lines, 0),
            "--[["@.len() == 4,
            "--"@.len() == 2,
            texts(docs@) + top_docs(lines, index as int) == goal,
        decreases ranges.len() - index,
    {
        let range = ranges[index];
        let line = slice_subrange(chars.as_slice(), range.0, range.1);
        assert(line@ == lines[index as int]);
        let t = trimmed_start(line);
        let ghost before = docs@;
        let ghost from = index as int;
        if t.len() > 0 && has_prefix(t, "--[[") {
            let first = slice_subrange(t, 4, t.len());
            assert(first@ =~= t@.skip(4));
            let (block, next) = read_open_block(
                chars.as_slice(),
                &ranges,
                index,
                first,
                Ghost(lines),
            );
            let text = join_texts(&block, "\n");
            let text_chars: Vec<char> = chars_of(text.as_str());
            let piece = string_of(trimmed(text_chars.as_slice()));
            docs.push(piece);
            index = next;
            assert(texts(docs@) + top_docs(lines, next as int) =~= texts(before) + (seq![piece@]
                + top_docs(lines, next as int)));
        } else if t.len() > 0 && has_prefix(t, "--") {
            let rest = slice_subrange(t, 2, t.len());
            assert(rest@ =~= t@.skip(2));
            let piece = string_of(trimmed_start(rest));
            docs.push(piece);
            index += 1;
            assert(texts(docs@) + top_docs(lines, from + 1) =~= texts(before) + (seq![piece@]
                + top_docs(lines, from + 1)));
        } else {
            assert(texts(docs@) =~= goal);
            return join_docs(&docs);
        }
    }
    assert(texts(docs@) =~= goal);
    join_docs(&docs)
}

/// The lines of the block comment that ends on line `j`, from the last to the
/// first.
pub open spec fn block_up(lines: Seq<Seq<char>>, j: int) -> Seq<Seq<char>>
    decreases j,
{
    let current = trim_start(lines[j]);
    let at = find(current, "--[["@);
    if at >= 0 {
        seq![trim(strip_suffix(current.skip(at + 4), "]]"@))]
    } else {
        let text = seq![trim(strip_suffix(current, "]]"@))];
        if j <= 0 {
            text
        } else {
            text + block_up(lines, j - 1)
        }
    }
}

/// The doc comment right above line `i`, from its last line to its first; of a
/// block comment the lines come from the first to the last. `below` tells that
/// a line comment was already taken, which a block comment ends.
pub open spec fn docs_up(lines: Seq<Seq<char>>, i: int, below: bool) -> Seq<Seq<char>>
    decreases i,
{
    if i <= 0 {
        Seq::empty()
    } else {
        let t = trim_start(lines[i - 1]);
        if t.len() == 0 {
            Seq::empty()
        } else if ends(t, "]]"@) {
            if below {
                Seq::empty()
            } else {
                block_up(lines, i - 1).reverse()
            }
        } else if starts(t, "--"@) {
            seq![trim_start(t.skip(2))] + docs_up(lines, i - 1, true)
        } else {
            Seq::empty()
        }
    }
}

/// The doc comment above the line that a byte offset is on: line comments in
/// the order of the source, and the lines of a block comment from the last to
/// the first.
pub open spec fn docs_above(source: Seq<char>, offset: int) -> Option<Seq<char>> {
    let line = line_at(starts_of(source), offset, starts_of(source).len() as int);
    docs_text(docs_up(record_lines(source), line, false).reverse())
}

/// The doc comment above a span.
pub open spec fn docs_of(source: Seq<char>, span: Option<SourceSpan>) -> Option<Seq<char>> {
    match span {
        Some(s) => match offset_of(source, s.line as int, s.column as int) {
            Some(offset) => docs_above(source, offset),
            None => None,
        },
        None => None,
    }
}

/// A source has a line for each of its line starts, up to a last empty one.
proof fn lemma_line_count(source: Seq<char>)
    ensures
        starts_of(source).len() <= record_lines(source).len() + 1,
        starts_of(source).len() >= 1,
{
    lemma_lines_count(source, 0, 0);
    lemma_newlines(source);
}

/// Number of newlines at or after position `i`.
spec fn newlines(s: Seq<char>, i: int) -> nat
    decreases s.len() - i,
{
    if i < 0 || i >= s.len() {
        0
    } else {
        (if s[i] == '\n' {
            1nat
        } else {
            0nat
        }) + newlines(s, i + 1)
    }
}

proof fn lemma_lines_count(s: Seq<char>, start: int, i: int)
    requires
        0 <= start <= i <= s.len(),
    ensures
        split_from(s, '\n', start, i).len() == newlines(s, i) + 1,
    decreases s.len() - i,
{
    if i < s.len() {
        if s[i] == '\n' {
            lemma_lines_count(s, i + 1, i + 1);
        } else {
            lemma_lines_count(s, start, i + 1);
        }
    }
}

/// Number of newline bytes among the first `n`.
spec fn newline_bytes(bytes: Seq<u8>, n: int) -> nat
    decreases n,
{
    if n <= 0 {
        0
    } else {
        newline_bytes(bytes, n - 1) + (if bytes[n - 1] == 10u8 {
            1nat
        } else {
            0nat
        })
    }
}

proof fn lemma_starts_count(bytes: Seq<u8>, n: int)
    requires
        0 <= n <= bytes.len(),
    ensures
        line_starts(bytes, n).len() == newline_bytes(bytes, n) + 1,
    decreases n,
{
    if n > 0 {
        lemma_starts_count(bytes, n - 1);
    }
}

proof fn lemma_newline_bytes_concat(a: Seq<u8>, b: Seq<u8>, n: int)
    requires
        0 <= n <= b.len(),
    ensures
        newline_bytes(a + b, a.len() + n) == newline_bytes(a, a.len() as int) + newline_bytes(b, n),
    decreases n,
{
    if n > 0 {
        lemma_newline_bytes_concat(a, b, n - 1);
        assert((a + b)[a.len() + n - 1] == b[n - 1]);
    } else {
        lemma_newline_bytes_prefix(a, a + b, a.len() as int);
    }
}

proof fn lemma_newline_bytes_prefix(a: Seq<u8>, b: Seq<u8>, n: int)
    requires
        0 <= n <= a.len() <= b.len(),
        forall|k: int| 0 <= k < n ==> a[k] == b[k],
    ensures
        newline_bytes(a, n) == newline_bytes(b, n),
    decreases n,
{
    if n > 0 {
        lemma_newline_bytes_prefix(a, b, n - 1);
    }
}

proof fn lemma_newlines(source: Seq<char>)
    ensures
        starts_of(source).len() == newlines(source, 0) + 1,
{
    lemma_starts_count(encode_utf8(source), encode_utf8(source).len() as int);
    lemma_newlines_from(source, 0);
    assert(source.skip(0) =~= source);
}

proof fn lemma_newlines_from(source: Seq<char>, i: int)
    requires
        0 <= i <= source.len(),
    ensures
        newline_bytes(encode_utf8(source.skip(i)), encode_utf8(source.skip(i)).len() as int)
            == newlines(source, i),
    decreases source.len() - i,
{
    let rest = source.skip(i);
    if i < source.len() {
        lemma_newlines_from(source, i + 1);
        assert(rest.drop_first() =~= source.skip(i + 1));
        let head = vstd::utf8::encode_scalar(rest[0] as u32);
        let tail = encode_utf8(rest.drop_first());
        assert(encode_utf8(rest) =~= head + tail);
        lemma_newline_bytes_concat(head, tail, tail.len() as int);
        lemma_scalar_newlines(rest[0]);
    }
}

/// Only the newline character has a newline byte in its encoding.
proof fn lemma_scalar_newlines(c: char)
    ensures
        newline_bytes(
            vstd::utf8::encode_scalar(c as u32),
            vstd::utf8::encode_scalar(c as u32).len() as int,
        ) == (if c == '\n' {
            1nat
        } else {
            0nat
        }),
{
    reveal_with_fuel(newline_bytes, 5);
    let v = c as u32;
    vstd::utf8::char_is_scalar(c);
    assert(v <= 0x7F ==> (v & 0x7F) as u8 == v) by (bit_vector);
    assert(0xC0u8 | ((v >> 6) & 0x1F) as u8 != 10u8) by (bit_vector);
    assert(0xE0u8 | ((v >> 12) & 0x0F) as u8 != 10u8) by (bit_vector);
    assert(0xF0u8 | ((v >> 18) & 0x7) as u8 != 10u8) by (bit_vector);
    assert(0x80u8 | (v & 0x3F) as u8 != 10u8) by (bit_vector);
    assert(0x80u8 | ((v >> 6) & 0x3F) as u8 != 10u8) by (bit_vector);
    assert(0x80u8 | ((v >> 12) & 0x3F) as u8 != 10u8) by (bit_vector);
}

/// Reads the comment block that ends on line `at`, from its last line up.
fn read_block_up(
    source: &[char],
    ranges: &Vec<(usize, usize)>,
    at: usize,
    Ghost(lines): Ghost<Seq<Seq<char>>>,
) -> (r: Vec<String>)
    requires
        cuts(source@, ranges@, lines),
        at < ranges.len(),
    ensures
        texts(r@) == block_up(lines, at as int),
{
    let mut block: Vec<String> = Vec::new();
    let mut index: usize = at;
    let ghost goal = block_up(lines, at as int);
    proof {
        reveal_strlit("--[[");
        assert(texts(block@) + block_up(lines, at as int) =~= goal);
    }
    loop
        invariant
            cuts(source@, ranges@, lines),
            index <= at < ranges.len(),
            "--[["@.len() == 4,
            goal == block_up(lines, at as int),
            texts(block@) + block_up(lines, index as int) == goal,
        decreases index,
    {
        let ghost before = block@;
        let range = ranges[index];
        let line = slice_subrange(source, range.0, range.1);
        assert(line@ == lines[index as int]);
        let current = trimmed_start(line);
        if let Some(start) = find_text(current, "--[[") {
            let inner = slice_subrange(current, start + 4, current.len());
            assert(inner@ =~= current@.skip(start + 4));
            let piece = string_of(trimmed(stripped_suffix(inner, "]]")));
            block.push(piece);
            assert(texts(block@) =~= texts(before) + seq![piece@]);
            return block;
        }
        let piece = string_of(trimmed(stripped_suffix(current, "]]")));
        block.push(piece);
        if index == 0 {
            assert(texts(block@) =~= texts(before) + seq![piece@]);
            return block;
        }
        index -= 1;
        assert(texts(block@) + block_up(lines, index as int) =~= texts(before) + (seq![piece@]
            + block_up(lines, index as int)));
    }
}

/// The strings of a list in opposite order.
fn reversed(v: &Vec<String>) -> (r: Vec<String>)
    ensures
        texts(r@) == texts(v@).reverse(),
{
    let mut out: Vec<String> = Vec::new();
    let mut i: usize = v.len();
    while i > 0
        invariant
            i <= v.len(),
            out@.len() == v.len() - i,
            forall|k: int| 0 <= k < out@.len() ==> (#[trigger] out@[k])@ == v@[v@.len() - 1 - k]@,
        decreases i,
    {
        i -= 1;
        out.push(v[i].clone());
    }
    assert(texts(out@) =~= texts(v@).reverse());
    out
}

/// The doc comment above the line that a byte offset is on: line comments in
/// the order of the source, and the lines of a block comment from the last to
/// the first.
pub fn doc_block_before(source: &str, declaration_start: usize, source_map: &SourceMap) -> (r:
    Option<String>)
    requires
        source_map.maps(source@),
    ensures
        match r {
            Some(t) => docs_above(source@, declaration_start as int) == Some(t@),
            None => docs_above(source@, declaration_start as int) is None,
        },
{
    let chars: Vec<char> = chars_of(source);
    let ranges: Vec<(usize, usize)> = line_records(chars.as_slice());
    let ghost lines = record_lines(source@);
    proof {
        lemma_line_count(source@);
        reveal_strlit("--");
        assert(source_map.line_offsets@.len() == source_map.starts().len());
    }
    let line_index: usize = source_map.line_index(declaration_start);
    let ghost goal = docs_up(lines, line_index as int, false);
    let mut docs: Vec<String> = Vec::new();
    let mut index: usize = line_index;
    let mut below: bool = false;
    assert(texts(docs@) + goal =~= goal);
    while index > 0
        invariant
            chars@ == source@,
            cuts(chars@, ranges@, lines),
            index <= line_index <= ranges.len(),
            "--"@.len() == 2,
            goal == docs_up(lines, line_index as int, false),
            texts(docs@) + docs_up(lines, index as int, below) == goal,
            !below ==> docs@.len() == 0,
            docs_above(source@, declaration_start as int) == docs_text(goal.reverse()),
        decreases index,
    {
        index -= 1;
        let range = ranges[index];
        let line = slice_subrange(chars.as_slice(), range.0, range.1);
        assert(line@ == lines[index as int]);
        let t = trimmed_start(line);
        let ghost before = docs@;
        if t.len() == 0 {
            assert(texts(docs@) =~= goal);
            return join_docs(&reversed(&docs));
        }
        if has_suffix(t, "]]") {
            if below {
                assert(texts(docs@) =~= goal);
                return join_docs(&reversed(&docs));
            }
            let block: Vec<String> = read_block_up(
                chars.as_slice(),
                &ranges,
                index,
                Ghost(lines),
            );
            proof {
                assert(texts(before) + texts(block@).reverse() =~= texts(block@).reverse());
                assert(goal.reverse() =~= texts(block@));
            }
            return join_docs(&block);
        }
        if has_prefix(t, "--") {
            let rest = slice_subrange(t, 2, t.len());
            assert(rest@ =~= t@.skip(2));
            let piece = string_of(trimmed_start(rest));
            docs.push(piece);
            below = true;
            assert(texts(docs@) + docs_up(lines, index as int, true) =~= texts(before) + (seq![
                piece@,
            ] + docs_up(lines, index as int, true)));
            continue;
        }
        assert(texts(docs@) =~= goal);
        return join_docs(&reversed(&docs));
    }
    assert(texts(docs@) =~= goal);
    join_docs(&reversed(&docs))
}

/// The doc comment above a span.
pub fn docs_before_span(source: &str, source_map: &SourceMap, span: Option<SourceSpan>) -> (r:
    Option<String>)
    requires
        source_map.maps(source@),
    ensures
        match r {
            Some(t) => docs_of(source@, span) == Some(t@),
            None => docs_of(source@, span) is None,
        },
{
    match span {
        Some(s) => match source_map.offset(s.line, s.column) {
            Some(offset) => doc_block_before(source, offset, source_map),
            None => None,
        },
        None => None,
    }
}

/// Lines start at zero and behind each newline, in ascending order, and
/// nowhere else.
pub proof fn law_lines_start_behind_newlines(bytes: Seq<u8>, n: int)
    requires
        0 <= n <= bytes.len(),
    ensures
        line_starts(bytes, n).len() > 0,
        line_starts(bytes, n)[0] == 0,
        forall|k: int|
            0 < k < line_starts(bytes, n).len() ==> 0 < #[trigger] line_starts(bytes, n)[k] <= n
                && bytes[line_starts(bytes, n)[k] - 1] == 10u8,
        forall|i: int|
            0 <= i < n && #[trigger] bytes[i] == 10u8 ==> line_starts(bytes, n).contains(i + 1),
        forall|k: int, l: int|
            #![trigger line_starts(bytes, n)[k], line_starts(bytes, n)[l]]
            0 <= k < l < line_starts(bytes, n).len() ==> line_starts(bytes, n)[k] < line_starts(
                bytes,
                n,
            )[l],
    decreases n,
{
    if n > 0 {
        law_lines_start_behind_newlines(bytes, n - 1);
        let before = line_starts(bytes, n - 1);
        let after = line_starts(bytes, n);
        assert forall|i: int| 0 <= i < n && #[trigger] bytes[i] == 10u8 implies after.contains(
            i + 1,
        ) by {
            if i < n - 1 {
                let k = before.index_of(i + 1);
                assert(after[k] == i + 1);
            } else {
                assert(after.last() == n);
                assert(after[after.len() - 1] == i + 1);
            }
        }
    }
}

/// A byte offset is on the last line that does not start behind it.
pub proof fn law_offset_is_on_its_line(starts: Seq<int>, offset: int, n: int)
    requires
        0 < n <= starts.len(),
        starts[0] <= offset,
    ensures
        0 <= line_at(starts, offset, n) < n,
        starts[line_at(starts, offset, n)] <= offset,
        forall|k: int|
            line_at(starts, offset, n) < k < n ==> offset < #[trigger] starts[k],
    decreases n,
{
    if n > 1 && starts[n - 1] > offset {
        law_offset_is_on_its_line(starts, offset, n - 1);
    }
}

proof fn lemma_boundary_between(a: Seq<char>, b: Seq<char>)
    ensures
        is_char_boundary(encode_utf8(a) + encode_utf8(b), encode_utf8(a).len() as int),
{
    lemma_encode_concat(a, b);
    let x = encode_utf8(a);
    let y = encode_utf8(b);
    encode_utf8_valid_utf8(a + b);
    encode_utf8_valid_utf8(b);
    if y.len() == 0 {
        is_char_boundary_start_end_of_seq(x + y);
    } else {
        is_char_boundary_start_end_of_seq(y);
        is_char_boundary_iff_not_is_continuation_byte(y, 0);
        is_char_boundary_iff_not_is_continuation_byte(x + y, x.len() as int);
        assert((x + y)[x.len() as int] == y[0]);
    }
}

/// A slice is what stands between its two byte offsets, whatever is in front
/// and behind.
pub proof fn law_slice_is_what_stands_between(a: Seq<char>, b: Seq<char>, c: Seq<char>)
    ensures
        slice_of(
            a + b + c,
            encode_utf8(a).len() as int,
            (encode_utf8(a).len() + encode_utf8(b).len()) as int,
        ) == Some(b),
{
    lemma_encode_concat(a, b);
    lemma_encode_concat(a + b, c);
    lemma_encode_concat(b, c);
    let x = encode_utf8(a);
    let y = encode_utf8(b);
    let z = encode_utf8(c);
    assert(a + b + c =~= a + (b + c));
    assert(x + y + z =~= x + (y + z));
    lemma_boundary_between(a, b + c);
    lemma_boundary_between(a + b, c);
    assert((x + y + z).subrange(x.len() as int, (x.len() + y.len()) as int) =~= y);
    encode_utf8_decode_utf8(b);
}

/// The text of a line comment without its dashes.
pub open spec fn comment_text(line: Seq<char>) -> Seq<char> {
    trim_start(trim_start(line).skip(2))
}

/// Whether a line is a line comment.
pub open spec fn is_line_comment(line: Seq<char>) -> bool {
    starts(trim_start(line), "--"@) && !starts(trim_start(line), "--[["@) && !ends(
        trim_start(line),
        "]]"@,
    )
}

/// Whether a line ends a run of line comments: it is blank, or no comment.
pub open spec fn is_no_comment(line: Seq<char>) -> bool {
    trim_start(line).len() == 0 || (!starts(trim_start(line), "--"@) && !ends(
        trim_start(line),
        "]]"@,
    ))
}

/// The line comments right above a line are its docs, without their dashes and
/// in the order of the source, up to the first line that is no comment.
pub proof fn law_line_comments_are_docs(lines: Seq<Seq<char>>, i: int, n: int, below: bool)
    requires
        0 <= n <= i <= lines.len(),
        forall|k: int| i - n <= k < i ==> is_line_comment(#[trigger] lines[k]),
        i - n > 0 ==> is_no_comment(lines[i - n - 1]),
    ensures
        docs_up(lines, i, below).reverse() == Seq::new(
            n as nat,
            |k: int| comment_text(lines[i - n + k]),
        ),
    decreases n,
{
    let all = docs_up(lines, i, below);
    if n > 0 {
        let t = trim_start(lines[i - 1]);
        assert(is_line_comment(lines[i - 1]));
        reveal_strlit("--");
        assert(t.len() > 0) by {
            assert(t.take(2) == "--"@);
        }
        law_line_comments_are_docs(lines, i - 1, n - 1, true);
        let rest = docs_up(lines, i - 1, true);
        assert(all == seq![comment_text(lines[i - 1])] + rest);
        assert(all.reverse() =~= rest.reverse().push(comment_text(lines[i - 1])));
        assert(rest.reverse().push(comment_text(lines[i - 1])) =~= Seq::new(
            n as nat,
            |k: int| comment_text(lines[i - n + k]),
        ));
    } else {
        reveal_strlit("--");
        assert(all =~= Seq::empty());
    }
}

/// The line comments that open a file are its description, without their
/// dashes and in their order, up to the first line that is no comment.
pub proof fn law_leading_comments_are_description(lines: Seq<Seq<char>>, i: int, n: int)
    requires
        0 <= i,
        0 <= n,
        i + n <= lines.len(),
        forall|k: int| i <= k < i + n ==> is_line_comment(#[trigger] lines[k]),
        i + n < lines.len() ==> is_no_comment(lines[i + n]),
    ensures
        top_docs(lines, i) == Seq::new(n as nat, |k: int| comment_text(lines[i + k])),
    decreases n,
{
    reveal_strlit("--");
    reveal_strlit("--[[");
    if n > 0 {
        let t = trim_start(lines[i]);
        assert(is_line_comment(lines[i]));
        assert(t.len() > 0) by {
            assert(t.take(2) == "--"@);
        }
        law_leading_comments_are_description(lines, i + 1, n - 1);
        assert(top_docs(lines, i) =~= seq![comment_text(lines[i])] + top_docs(lines, i + 1));
        assert(top_docs(lines, i) =~= Seq::new(n as nat, |k: int| comment_text(lines[i + k])));
    } else if i < lines.len() {
        let t = trim_start(lines[i]);
        assert(is_no_comment(lines[i + n]));
        if t.len() > 0 && starts(t, "--[["@) {
            assert(t.take(2) =~= "--"@) by {
                assert(t.take(4)[0] == '-' && t.take(4)[1] == '-');
            }
        }
        assert(top_docs(lines, i) =~= Seq::empty());
    } else {
        assert(top_docs(lines, i) =~= Seq::empty());
    }
}

/// The lines of a block comment that ends on line `j` and was opened on line
/// `f` are all kept, from the last to the first, each without white space
/// around it and without the marks of the comment.
pub proof fn law_block_lines_are_kept(lines: Seq<Seq<char>>, f: int, j: int)
    requires
        0 <= f <= j < lines.len(),
        find(trim_start(lines[f]), "--[["@) >= 0,
        forall|k: int| f < k <= j ==> find(trim_start(#[trigger] lines[k]), "--[["@) < 0,
    ensures
        block_up(lines, j) == Seq::new(
            (j - f + 1) as nat,
            |k: int|
                if k == j - f {
                    trim(
                        strip_suffix(
                            trim_start(lines[f]).skip(
                                find(trim_start(lines[f]), "--[["@) + 4,
                            ),
                            "]]"@,
                        ),
                    )
                } else {
                    trim(strip_suffix(trim_start(lines[j - k]), "]]"@))
                },
        ),
    decreases j - f,
{
    let text = |k: int|
        if k == j - f {
            trim(
                strip_suffix(
                    trim_start(lines[f]).skip(find(trim_start(lines[f]), "--[["@) + 4),
                    "]]"@,
                ),
            )
        } else {
            trim(strip_suffix(trim_start(lines[j - k]), "]]"@))
        };
    let all = Seq::new((j - f + 1) as nat, text);
    if j > f {
        assert(find(trim_start(lines[j]), "--[["@) < 0);
        law_block_lines_are_kept(lines, f, j - 1);
        assert(block_up(lines, j) =~= seq![trim(strip_suffix(trim_start(lines[j]), "]]"@))]
            + block_up(lines, j - 1));
        assert(block_up(lines, j) =~= all);
    } else {
        assert(block_up(lines, j) =~= all);
    }
}

/// A block comment right above a line is its docs where no line comment stands
/// between them.
pub proof fn law_block_above_is_docs(lines: Seq<Seq<char>>, i: int)
    requires
        0 < i <= lines.len(),
        ends(trim_start(lines[i - 1]), "]]"@),
    ensures
        docs_up(lines, i, false).reverse() == block_up(lines, i - 1),
{
    reveal_strlit("]]");
    let b = block_up(lines, i - 1);
    assert(b.reverse().reverse() =~= b);
}

/// The lines of a block comment that opens a file are all kept, in their
/// order, up to the one that closes it, each without white space around it.
pub proof fn law_open_block_lines_are_kept(
    lines: Seq<Seq<char>>,
    i: int,
    current: Seq<char>,
    e: int,
)
    requires
        0 <= i < e < lines.len(),
        find(current, "]]"@) < 0,
        forall|k: int| i < k < e ==> find(#[trigger] lines[k], "]]"@) < 0,
        find(lines[e], "]]"@) >= 0,
    ensures
        open_block(lines, i, current).1 == e + 1,
        open_block(lines, i, current).0 == Seq::new(
            (e - i + 1) as nat,
            |k: int|
                if k == 0 {
                    trim(current)
                } else if k == e - i {
                    trim(lines[e].take(find(lines[e], "]]"@)))
                } else {
                    trim(lines[i + k])
                },
        ),
    decreases e - i,
{
    let all = Seq::new(
        (e - i + 1) as nat,
        |k: int|
            if k == 0 {
                trim(current)
            } else if k == e - i {
                trim(lines[e].take(find(lines[e], "]]"@)))
            } else {
                trim(lines[i + k])
            },
    );
    let rest = open_block(lines, i + 1, lines[i + 1]);
    if i + 1 < e {
        assert(find(lines[i + 1], "]]"@) < 0);
        law_open_block_lines_are_kept(lines, i + 1, lines[i + 1], e);
    } else {
        assert(rest.0 =~= seq![trim(lines[e].take(find(lines[e], "]]"@)))]);
    }
    assert(open_block(lines, i, current).0 =~= seq![trim(current)] + rest.0);
    assert(open_block(lines, i, current).0 =~= all);
}

/// A position is the start of its line and the column behind it, and the text
/// of a span stands between its two positions.
pub proof fn law_positions_count_from_line_starts(source: Seq<char>, span: SourceSpan)
    ensures
        0 <= span.line < starts_of(source).len() && starts_of(source)[span.line as int]
            + span.column <= usize::MAX ==> offset_of(
            source,
            span.line as int,
            span.column as int,
        ) == Some(starts_of(source)[span.line as int] + span.column),
        span.line >= starts_of(source).len() ==> offset_of(
            source,
            span.line as int,
            span.column as int,
        ) is None,
        span_text(source, span) is Some ==> (offset_of(
            source,
            span.line as int,
            span.column as int,
        ) matches Some(a) && offset_of(
            source,
            span.end_line as int,
            span.end_column as int,
        ) matches Some(b) && a <= b && span_text(source, span) == slice_of(source, a, b)),
{
}

/// Docs are told line by line: one text as it is, and more with a newline
/// between each two.
pub proof fn law_docs_are_lines(docs: Seq<Seq<char>>, last: Seq<char>)
    ensures
        docs.len() == 0 ==> docs_text(docs) is None && docs_text(docs.push(last)) == Some(last),
        docs.len() > 0 ==> (docs_text(docs) matches Some(text) && docs_text(docs.push(last))
            == Some(text + "\n"@ + last)),
{
    assert(docs.push(last).drop_last() =~= docs);
}

} // verus!
