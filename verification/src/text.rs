//! Character-level text scanning shared by the parsers of this crate.
//!
//! Text is modelled as a `Seq<char>`; the scanners work on character slices.
use vstd::prelude::*;
use vstd::slice::slice_subrange;
use vstd::string::*;
use vstd::utf8::{decode_utf8, encode_scalar, encode_utf8, valid_utf8};

verus! {

/// Whether `c` has the Unicode `White_Space` property.
pub open spec fn white(c: char) -> bool {
    ||| '\u{9}' <= c <= '\u{d}'
    ||| c == ' '
    ||| c == '\u{85}'
    ||| c == '\u{a0}'
    ||| c == '\u{1680}'
    ||| '\u{2000}' <= c <= '\u{200a}'
    ||| c == '\u{2028}'
    ||| c == '\u{2029}'
    ||| c == '\u{202f}'
    ||| c == '\u{205f}'
    ||| c == '\u{3000}'
}

/// Tests for white space.
pub fn is_white(c: char) -> (r: bool)
    ensures
        r == white(c),
{
    ('\u{9}' <= c && c <= '\u{d}') || c == ' ' || c == '\u{85}' || c == '\u{a0}' || c == '\u{1680}'
        || ('\u{2000}' <= c && c <= '\u{200a}') || c == '\u{2028}' || c == '\u{2029}'
        || c == '\u{202f}' || c == '\u{205f}' || c == '\u{3000}'
}

/// Whether `c` can start an identifier: an ASCII letter or an underscore.
pub open spec fn ident_start(c: char) -> bool {
    c == '_' || 'a' <= c <= 'z' || 'A' <= c <= 'Z'
}

/// Whether `c` can continue an identifier.
pub open spec fn ident_char(c: char) -> bool {
    ident_start(c) || '0' <= c <= '9'
}

/// Tests for the first character of an identifier.
pub fn is_ident_start(c: char) -> (r: bool)
    ensures
        r == ident_start(c),
{
    c == '_' || ('a' <= c && c <= 'z') || ('A' <= c && c <= 'Z')
}

/// Tests for a later character of an identifier.
pub fn is_ident_char(c: char) -> (r: bool)
    ensures
        r == ident_char(c),
{
    is_ident_start(c) || ('0' <= c && c <= '9')
}

/// The characters of a string, in order.
pub fn chars_of(s: &str) -> (r: Vec<char>)
    ensures
        r@ == s@,
{
    let mut out: Vec<char> = Vec::new();
    for c in it: s.chars()
        invariant
            it.seq() == s@,
            out@ == s@.take(it.index() as int),
    {
        out.push(c);
        assert(out@ =~= s@.take(it.index() as int + 1));
    }
    assert(s@.take(s@.len() as int) =~= s@);
    out
}

/// Joins characters into a string through `String`'s `FromIterator`, which
/// the standard library documents as collecting the characters in order.
#[verifier::external_body]
pub(crate) fn string_of(chars: &[char]) -> (r: String)
    ensures
        r@ == chars@,
{
    chars.iter().collect::<String>()
}

/// Compares two strings character by character.
pub fn same_text(a: &str, b: &str) -> (r: bool)
    ensures
        r == (a@ == b@),
{
    let x: Vec<char> = chars_of(a);
    let y: Vec<char> = chars_of(b);
    same_chars(x.as_slice(), y.as_slice())
}

/// Compares two character slices.
pub fn same_chars(a: &[char], b: &[char]) -> (r: bool)
    ensures
        r == (a@ == b@),
{
    if a.len() != b.len() {
        return false;
    }
    let mut i: usize = 0;
    while i < a.len()
        invariant
            i <= a.len(),
            a.len() == b.len(),
            forall|k: int| 0 <= k < i ==> a@[k] == b@[k],
        decreases a.len() - i,
    {
        if a[i] != b[i] {
            assert(a@[i as int] != b@[i as int]);
            return false;
        }
        i += 1;
    }
    assert(a@ =~= b@);
    true
}

/// Whether `s` starts with `p`.
pub open spec fn starts(s: Seq<char>, p: Seq<char>) -> bool {
    p.len() <= s.len() && s.take(p.len() as int) == p
}

/// Whether `s` ends with `p`.
pub open spec fn ends(s: Seq<char>, p: Seq<char>) -> bool {
    p.len() <= s.len() && s.skip(s.len() - p.len()) == p
}

/// Tests whether `p` stands in `s` at position `at`.
pub fn has_at(s: &[char], at: usize, p: &str) -> (r: bool)
    requires
        at <= s.len(),
    ensures
        r == starts(s@.skip(at as int), p@),
{
    let chars: Vec<char> = chars_of(p);
    if s.len() - at < chars.len() {
        return false;
    }
    let mut i: usize = 0;
    while i < chars.len()
        invariant
            i <= chars.len(),
            chars@ == p@,
            at + chars.len() <= s.len(),
            forall|k: int| 0 <= k < i ==> s@[at + k] == p@[k],
        decreases chars.len() - i,
    {
        if s[at + i] != chars[i] {
            assert(s@.skip(at as int).take(p@.len() as int)[i as int] != p@[i as int]);
            return false;
        }
        i += 1;
    }
    assert(s@.skip(at as int).take(p@.len() as int) =~= p@);
    true
}

/// Tests for a prefix.
pub fn has_prefix(s: &[char], p: &str) -> (r: bool)
    ensures
        r == starts(s@, p@),
{
    assert(s@.skip(0) =~= s@);
    has_at(s, 0, p)
}

/// Tests for a suffix.
pub fn has_suffix(s: &[char], p: &str) -> (r: bool)
    ensures
        r == ends(s@, p@),
{
    let chars: Vec<char> = chars_of(p);
    if s.len() < chars.len() {
        return false;
    }
    let at: usize = s.len() - chars.len();
    assert(s@.skip(at as int).take(p@.len() as int) =~= s@.skip(at as int));
    has_at(s, at, p)
}

/// Index of the first character at or after `i` that is not white space.
pub open spec fn white_end(s: Seq<char>, i: int) -> int
    decreases s.len() - i,
{
    if 0 <= i < s.len() && white(s[i]) {
        white_end(s, i + 1)
    } else {
        i
    }
}

/// `s` without its leading white space.
pub open spec fn trim_start(s: Seq<char>) -> Seq<char> {
    s.skip(white_end(s, 0))
}

/// Length of `s[..i]` without trailing white space.
pub open spec fn white_begin(s: Seq<char>, i: int) -> int
    decreases i,
{
    if 0 < i <= s.len() && white(s[i - 1]) {
        white_begin(s, i - 1)
    } else {
        i
    }
}

/// `s` without its trailing white space.
pub open spec fn trim_end(s: Seq<char>) -> Seq<char> {
    s.take(white_begin(s, s.len() as int))
}

/// `s` without the white space around it.
pub open spec fn trim(s: Seq<char>) -> Seq<char> {
    trim_end(trim_start(s))
}

/// The skipped characters are white and the next one is not.
pub proof fn lemma_white_end(s: Seq<char>, i: int)
    requires
        0 <= i <= s.len(),
    ensures
        i <= white_end(s, i) <= s.len(),
        forall|k: int| i <= k < white_end(s, i) ==> white(s[k]),
        white_end(s, i) < s.len() ==> !white(s[white_end(s, i)]),
    decreases s.len() - i,
{
    if i < s.len() && white(s[i]) {
        lemma_white_end(s, i + 1);
    }
}

/// The dropped characters are white and the one before them is not.
pub proof fn lemma_white_begin(s: Seq<char>, i: int)
    requires
        0 <= i <= s.len(),
    ensures
        0 <= white_begin(s, i) <= i,
        forall|k: int| white_begin(s, i) <= k < i ==> white(s[k]),
        white_begin(s, i) > 0 ==> !white(s[white_begin(s, i) - 1]),
    decreases i,
{
    if i > 0 && white(s[i - 1]) {
        lemma_white_begin(s, i - 1);
    }
}

/// Trimming never lengthens a text.
pub proof fn lemma_trim_len(s: Seq<char>)
    ensures
        trim_start(s).len() <= s.len(),
        trim_end(s).len() <= s.len(),
        trim(s).len() <= s.len(),
{
    lemma_white_end(s, 0);
    lemma_white_begin(s, s.len() as int);
    lemma_white_begin(trim_start(s), trim_start(s).len() as int);
}

/// Drops leading white space.
pub fn trimmed_start<'a>(s: &'a [char]) -> (r: &'a [char])
    ensures
        r@ == trim_start(s@),
        r@.len() <= s@.len(),
{
    let mut i: usize = 0;
    while i < s.len() && is_white(s[i])
        invariant
            i <= s.len(),
            white_end(s@, i as int) == white_end(s@, 0),
        decreases s.len() - i,
    {
        i += 1;
    }
    slice_subrange(s, i, s.len())
}

/// Drops trailing white space.
pub fn trimmed_end<'a>(s: &'a [char]) -> (r: &'a [char])
    ensures
        r@ == trim_end(s@),
        r@.len() <= s@.len(),
{
    let mut i: usize = s.len();
    while i > 0 && is_white(s[i - 1])
        invariant
            i <= s.len(),
            white_begin(s@, i as int) == white_begin(s@, s@.len() as int),
        decreases i,
    {
        i -= 1;
    }
    slice_subrange(s, 0, i)
}

/// Drops white space on both sides.
pub fn trimmed<'a>(s: &'a [char]) -> (r: &'a [char])
    ensures
        r@ == trim(s@),
        r@.len() <= s@.len(),
{
    trimmed_end(trimmed_start(s))
}

/// First position at or after `i` where `p` stands in `s`, or `-1`.
pub open spec fn find_from(s: Seq<char>, p: Seq<char>, i: int) -> int
    decreases s.len() + 1 - i,
{
    if i < 0 || i > s.len() {
        -1
    } else if starts(s.skip(i), p) {
        i
    } else {
        find_from(s, p, i + 1)
    }
}

/// First position of `p` in `s`, or `-1`.
pub open spec fn find(s: Seq<char>, p: Seq<char>) -> int {
    find_from(s, p, 0)
}

/// Finds the first occurrence of `p`.
pub fn find_text(s: &[char], p: &str) -> (r: Option<usize>)
    ensures
        match r {
            Some(i) => find(s@, p@) == i,
            None => find(s@, p@) == -1,
        },
        r matches Some(i) ==> i + p@.len() <= s@.len(),
{
    let mut i: usize = 0;
    loop
        invariant
            i <= s.len(),
            find_from(s@, p@, i as int) == find(s@, p@),
        decreases s.len() - i,
    {
        if has_at(s, i, p) {
            return Some(i);
        }
        if i == s.len() {
            assert(find_from(s@, p@, i + 1) == -1);
            return None;
        }
        i += 1;
    }
}

/// End of the identifier characters that start at `i`.
pub open spec fn ident_end(s: Seq<char>, i: int) -> int
    decreases s.len() - i,
{
    if 0 <= i < s.len() && ident_char(s[i]) {
        ident_end(s, i + 1)
    } else {
        i
    }
}

/// Length of the identifier that `s` starts with; zero where there is none.
pub open spec fn ident_len(s: Seq<char>) -> int {
    if s.len() > 0 && ident_start(s[0]) {
        ident_end(s, 1)
    } else {
        0
    }
}

/// Every character of an identifier is an identifier character and it is the
/// longest such prefix.
pub proof fn lemma_ident(s: Seq<char>, i: int)
    requires
        0 <= i <= s.len(),
    ensures
        i <= ident_end(s, i) <= s.len(),
        forall|k: int| i <= k < ident_end(s, i) ==> ident_char(s[k]),
        ident_end(s, i) < s.len() ==> !ident_char(s[ident_end(s, i)]),
    decreases s.len() - i,
{
    if i < s.len() && ident_char(s[i]) {
        lemma_ident(s, i + 1);
    }
}

/// Reads the identifier at the start of `s` and returns its length.
pub fn read_ident_len(s: &[char]) -> (r: usize)
    ensures
        r == ident_len(s@),
        r <= s.len(),
{
    if s.len() == 0 || !is_ident_start(s[0]) {
        return 0;
    }
    let mut i: usize = 1;
    while i < s.len() && is_ident_char(s[i])
        invariant
            1 <= i <= s.len(),
            ident_end(s@, i as int) == ident_end(s@, 1),
        decreases s.len() - i,
    {
        i += 1;
    }
    i
}

/// Number of bytes that `c` takes in UTF-8.
pub open spec fn utf8_width(c: char) -> nat {
    if (c as u32) < 0x80 {
        1
    } else if (c as u32) < 0x800 {
        2
    } else if (c as u32) < 0x10000 {
        3
    } else {
        4
    }
}

/// Computes the UTF-8 width of a character.
pub fn width_of(c: char) -> (r: usize)
    ensures
        r == utf8_width(c),
{
    let code: u32 = c as u32;
    if code < 0x80 {
        1
    } else if code < 0x800 {
        2
    } else if code < 0x10000 {
        3
    } else {
        4
    }
}

/// The pieces of `s` between separators from position `i` on, where `start`
/// opens the current piece; the separators are dropped.
pub open spec fn split_from(s: Seq<char>, sep: char, start: int, i: int) -> Seq<Seq<char>>
    decreases s.len() - i,
{
    if i < 0 || i >= s.len() {
        seq![s.subrange(start, s.len() as int)]
    } else if s[i] == sep {
        seq![s.subrange(start, i)] + split_from(s, sep, i + 1, i + 1)
    } else {
        split_from(s, sep, start, i + 1)
    }
}

/// The pieces of `s` between separators.
pub open spec fn split_on(s: Seq<char>, sep: char) -> Seq<Seq<char>> {
    split_from(s, sep, 0, 0)
}

/// The pieces of `s` between newlines.
pub open spec fn split_lines(s: Seq<char>) -> Seq<Seq<char>> {
    split_on(s, '\n')
}

/// A text has at least one piece.
pub proof fn lemma_split_nonempty(s: Seq<char>, sep: char, start: int, i: int)
    ensures
        split_from(s, sep, start, i).len() > 0,
    decreases s.len() - i,
{
    if 0 <= i < s.len() && s[i] != sep {
        lemma_split_nonempty(s, sep, start, i + 1);
    }
}

/// Half-open ranges of the pieces of `s` between separators.
pub fn split_ranges(s: &[char], sep: char) -> (r: Vec<(usize, usize)>)
    ensures
        r@.len() == split_on(s@, sep).len(),
        forall|k: int|
            #![trigger r@[k]]
            0 <= k < r@.len() ==> r@[k].0 <= r@[k].1 <= s@.len() && s@.subrange(
                r@[k].0 as int,
                r@[k].1 as int,
            ) == split_on(s@, sep)[k],
{
    let mut out: Vec<(usize, usize)> = Vec::new();
    let mut start: usize = 0;
    let mut i: usize = 0;
    let ghost mut done: Seq<Seq<char>> = Seq::empty();
    while i < s.len()
        invariant
            start <= i <= s.len(),
            done + split_from(s@, sep, start as int, i as int) == split_on(s@, sep),
            out@.len() == done.len(),
            forall|k: int|
                #![trigger out@[k]]
                0 <= k < out@.len() ==> out@[k].0 <= out@[k].1 <= s@.len() && s@.subrange(
                    out@[k].0 as int,
                    out@[k].1 as int,
                ) == done[k],
        decreases s.len() - i,
    {
        if s[i] == sep {
            out.push((start, i));
            proof {
                let piece = s@.subrange(start as int, i as int);
                let rest = split_from(s@, sep, i + 1, i + 1);
                assert(done + (seq![piece] + rest) =~= done.push(piece) + rest);
                done = done.push(piece);
            }
            start = i + 1;
        }
        i += 1;
    }
    out.push((start, s.len()));
    proof {
        assert(split_on(s@, sep) =~= done.push(s@.subrange(start as int, s@.len() as int)));
    }
    out
}

/// Half-open ranges of the pieces of `s` between newlines.
pub fn line_ranges(s: &[char]) -> (r: Vec<(usize, usize)>)
    ensures
        r@.len() == split_lines(s@).len(),
        forall|k: int|
            #![trigger r@[k]]
            0 <= k < r@.len() ==> r@[k].0 <= r@[k].1 <= s@.len() && s@.subrange(
                r@[k].0 as int,
                r@[k].1 as int,
            ) == split_lines(s@)[k],
{
    split_ranges(s, '\n')
}

/// The texts of a list of strings.
pub open spec fn texts(v: Seq<String>) -> Seq<Seq<char>> {
    v.map_values(|s: String| s@)
}

/// The parts with `sep` between each two of them.
pub open spec fn join(parts: Seq<Seq<char>>, sep: Seq<char>) -> Seq<char>
    decreases parts.len(),
{
    if parts.len() == 0 {
        Seq::empty()
    } else if parts.len() == 1 {
        parts[0]
    } else {
        join(parts.drop_last(), sep) + sep + parts.last()
    }
}

/// Joins strings with a separator.
pub fn join_texts(parts: &Vec<String>, sep: &str) -> (r: String)
    ensures
        r@ == join(texts(parts@), sep@),
{
    let mut out = String::new();
    let mut i: usize = 0;
    let ghost all = texts(parts@);
    while i < parts.len()
        invariant
            i <= parts.len(),
            all == texts(parts@),
            out@ == join(all.take(i as int), sep@),
        decreases parts.len() - i,
    {
        assert(all.take(i + 1).drop_last() =~= all.take(i as int));
        assert(all.take(i + 1).last() == parts@[i as int]@);
        if i > 0 {
            out.append(sep);
        }
        out.append(parts[i].as_str());
        i += 1;
        if i == 1 {
            assert(out@ =~= all.take(1)[0]);
        }
    }
    assert(all.take(i as int) =~= all);
    out
}

/// The character of a decimal digit.
pub open spec fn digit(d: nat) -> char {
    ('0' as int + d) as char
}

/// A number in decimal.
pub open spec fn decimal(n: nat) -> Seq<char>
    decreases n,
{
    if n < 10 {
        seq![digit(n)]
    } else {
        decimal(n / 10).push(digit(n % 10))
    }
}

/// Appends a number in decimal.
pub fn push_decimal(out: &mut Vec<char>, n: u64)
    ensures
        final(out)@ == old(out)@ + decimal(n as nat),
    decreases n,
{
    if n >= 10 {
        push_decimal(out, n / 10);
    }
    let d: u64 = n % 10;
    let c: char = (48u8 + d as u8) as char;
    out.push(c);
    assert(out@ =~= old(out)@ + decimal(n as nat));
}

/// A number as decimal text.
pub fn decimal_text(n: u64) -> (r: String)
    ensures
        r@ == decimal(n as nat),
{
    let mut out: Vec<char> = Vec::new();
    push_decimal(&mut out, n);
    assert(out@ =~= decimal(n as nat));
    string_of(out.as_slice())
}

/// Value of an ASCII digit.
pub open spec fn digit_value(c: char) -> int {
    c as int - '0' as int
}

/// Whether `s` is a non-empty run of ASCII digits.
pub open spec fn digits(s: Seq<char>) -> bool {
    s.len() > 0 && forall|i: int| 0 <= i < s.len() ==> '0' <= #[trigger] s[i] <= '9'
}

/// The number that a run of digits writes.
pub open spec fn digits_value(s: Seq<char>) -> int
    decreases s.len(),
{
    if s.len() == 0 {
        0
    } else {
        digits_value(s.drop_last()) * 10 + digit_value(s.last())
    }
}

/// The number that `s` writes as digits behind an optional `+`, if it is at
/// most `max`.
pub open spec fn unsigned_of(s: Seq<char>, max: int) -> Option<int> {
    let d = if starts(s, "+"@) {
        s.skip(1)
    } else {
        s
    };
    if digits(d) && digits_value(d) <= max {
        Some(digits_value(d))
    } else {
        None
    }
}

/// Digits write a number that no shorter prefix exceeds.
pub proof fn lemma_digits_value(s: Seq<char>, i: int)
    requires
        forall|k: int| 0 <= k < s.len() ==> '0' <= #[trigger] s[k] <= '9',
        0 <= i <= s.len(),
    ensures
        0 <= digits_value(s.take(i)) <= digits_value(s),
    decreases s.len(),
{
    assert(s.take(s.len() as int) =~= s);
    if s.len() > 0 {
        let t = s.drop_last();
        assert forall|k: int| 0 <= k < t.len() implies '0' <= #[trigger] t[k] <= '9' by {
            assert(t[k] == s[k]);
        }
        assert('0' <= s[s.len() - 1] <= '9');
        if i < s.len() {
            lemma_digits_value(t, i);
            assert(t.take(i) =~= s.take(i));
        } else {
            lemma_digits_value(t, 0);
            assert(t.take(0) =~= s.take(0));
        }
    }
}

/// Reads an unsigned number of at most `max`.
pub fn parse_unsigned(s: &[char], max: u64) -> (r: Option<u64>)
    ensures
        match r {
            Some(n) => unsigned_of(s@, max as int) == Some(n as int),
            None => unsigned_of(s@, max as int) is None,
        },
{
    proof {
        reveal_strlit("+");
    }
    let d = if has_prefix(s, "+") {
        slice_subrange(s, 1, s.len())
    } else {
        s
    };
    assert(s@.len() > 0 ==> s@.subrange(1, s@.len() as int) =~= s@.skip(1));
    if d.len() == 0 {
        return None;
    }
    let mut value: u64 = 0;
    let mut i: usize = 0;
    let mut over: bool = false;
    while i < d.len()
        invariant
            i <= d.len(),
            d@ == (if starts(s@, "+"@) {
                s@.skip(1)
            } else {
                s@
            }),
            forall|k: int| 0 <= k < i ==> '0' <= #[trigger] d@[k] <= '9',
            !over ==> value == digits_value(d@.take(i as int)) && value <= max,
            over ==> digits_value(d@.take(i as int)) > max,
        decreases d.len() - i,
    {
        let c = d[i];
        if !('0' <= c && c <= '9') {
            assert(!('0' <= d@[i as int] <= '9'));
            return None;
        }
        proof {
            assert(d@.take(i + 1).drop_last() =~= d@.take(i as int));
            lemma_digits_value(d@.take(i as int), 0);
        }
        let v: u64 = (c as u32 - '0' as u32) as u64;
        if !over {
            if value > (max - (if v <= max { v } else { max })) / 10 || v > max {
                over = true;
                assert(digits_value(d@.take(i + 1)) > max) by (nonlinear_arith)
                    requires
                        digits_value(d@.take(i + 1)) == value * 10 + v,
                        value > (max - (if v <= max { v } else { max })) / 10 || v > max,
                ;
            } else {
                value = value * 10 + v;
            }
        }
        i += 1;
    }
    assert(d@.take(i as int) =~= d@);
    if over {
        None
    } else {
        Some(value)
    }
}

/// The 64-bit integer that `s` writes as digits behind an optional sign.
pub open spec fn signed_of(s: Seq<char>) -> Option<int> {
    if starts(s, "-"@) {
        let d = s.skip(1);
        if digits(d) && digits_value(d) <= 0x8000_0000_0000_0000 {
            Some(-digits_value(d))
        } else {
            None
        }
    } else {
        unsigned_of(s, i64::MAX as int)
    }
}

/// Reads a 64-bit integer.
pub fn parse_signed(s: &[char]) -> (r: Option<i64>)
    ensures
        match r {
            Some(n) => signed_of(s@) == Some(n as int),
            None => signed_of(s@) is None,
        },
{
    proof {
        reveal_strlit("-");
        reveal_strlit("+");
    }
    let total: usize = s.len();
    if has_prefix(s, "-") {
        let d = slice_subrange(s, 1, total);
        assert(d@ =~= s@.skip(1));
        if has_prefix(d, "+") {
            assert(d@.take(1)[0] == '+');
            assert(!('0' <= d@[0] <= '9'));
            return None;
        }
        match parse_unsigned(d, 0x8000_0000_0000_0000) {
            Some(n) => if n == 0x8000_0000_0000_0000 {
                Some(i64::MIN)
            } else {
                Some(-(n as i64))
            },
            None => None,
        }
    } else {
        match parse_unsigned(s, i64::MAX as u64) {
            Some(n) => Some(n as i64),
            None => None,
        }
    }
}

/// `s` without `p` at its end, where it ends with it.
pub open spec fn strip_suffix(s: Seq<char>, p: Seq<char>) -> Seq<char> {
    if ends(s, p) {
        s.take(s.len() - p.len())
    } else {
        s
    }
}

/// Drops a suffix of `n` characters where it is there.
pub fn stripped_suffix<'a>(s: &'a [char], p: &str) -> (r: &'a [char])
    ensures
        r@ == strip_suffix(s@, p@),
{
    if has_suffix(s, p) {
        let n: usize = chars_of(p).len();
        let r = slice_subrange(s, 0, s.len() - n);
        assert(r@ =~= s@.take(s@.len() - p@.len()));
        r
    } else {
        s
    }
}

/// What Rust's debug formatting makes of a string.
pub uninterp spec fn debug_text(s: Seq<char>) -> Seq<char>;

/// Quotes a string through the `Debug` implementation of `str`; the result is
/// a function of the string.
#[verifier::external_body]
pub(crate) fn debug_quoted(s: &str) -> (r: String)
    ensures
        r@ == debug_text(s@),
{
    format!("{s:?}")
}

/// The message of the error of `std::str::from_utf8` on bytes that are no
/// UTF-8.
pub uninterp spec fn utf8_fault(bytes: Seq<u8>) -> Seq<char>;

/// Decodes bytes through `std::str::from_utf8`: the text of valid UTF-8, and
/// the displayed error of anything else, which is a function of the bytes.
#[verifier::external_body]
pub(crate) fn utf8_text(bytes: &[u8]) -> (r: Result<String, String>)
    ensures
        match r {
            Ok(s) => valid_utf8(bytes@) && s@ == decode_utf8(bytes@),
            Err(e) => !valid_utf8(bytes@) && e@ == utf8_fault(bytes@),
        },
{
    std::str::from_utf8(bytes).map(|s| s.to_owned()).map_err(|e| e.to_string())
}

/// Tests whether a list holds a text.
pub(crate) fn lists_text(list: &Vec<String>, s: &str) -> (r: bool)
    ensures
        r == texts(list@).contains(s@),
{
    let mut i: usize = 0;
    while i < list.len()
        invariant
            i <= list.len(),
            forall|k: int| 0 <= k < i ==> (#[trigger] list@[k])@ != s@,
        decreases list.len() - i,
    {
        if same_text(list[i].as_str(), s) {
            assert(texts(list@)[i as int] == s@);
            return true;
        }
        i += 1;
    }
    assert forall|k: int| 0 <= k < texts(list@).len() implies #[trigger] texts(list@)[k] != s@ by {
        assert(list@[k]@ != s@);
    }
    false
}

/// Trimming takes away white space at the ends and nothing else: the text is
/// what is left with white space around it, and what is left neither begins
/// nor ends with any. Returns what was taken away in front and behind.
pub proof fn law_trim_removes_outer_white(s: Seq<char>) -> (ends: (Seq<char>, Seq<char>))
    ensures
        s == ends.0 + trim(s) + ends.1,
        forall|k: int| 0 <= k < ends.0.len() ==> white(#[trigger] ends.0[k]),
        forall|k: int| 0 <= k < ends.1.len() ==> white(#[trigger] ends.1[k]),
        trim(s).len() > 0 ==> !white(trim(s)[0]) && !white(trim(s).last()),
{
    lemma_white_end(s, 0);
    let t = trim_start(s);
    lemma_white_begin(t, t.len() as int);
    let from = white_end(s, 0);
    let to = white_begin(t, t.len() as int);
    let before = s.take(from);
    let after = t.skip(to);
    assert(s =~= before + trim(s) + after);
    if trim(s).len() > 0 {
        assert(trim(s)[0] == s[from]);
    }
    (before, after)
}

/// Trimming one side leaves the other as it is.
pub proof fn law_trim_one_side(s: Seq<char>)
    ensures
        ends(s, trim_start(s)),
        trim_start(s).len() > 0 ==> !white(trim_start(s)[0]),
        forall|k: int| 0 <= k < s.len() - trim_start(s).len() ==> white(#[trigger] s[k]),
        starts(s, trim_end(s)),
        trim_end(s).len() > 0 ==> !white(trim_end(s).last()),
        forall|k: int| trim_end(s).len() <= k < s.len() ==> white(#[trigger] s[k]),
{
    lemma_white_end(s, 0);
    lemma_white_begin(s, s.len() as int);
    let t = trim_start(s);
    assert(s.skip(s.len() - t.len()) =~= t);
}

/// The pieces of a text, joined with the separator again, are the text, and no
/// piece holds the separator.
pub proof fn law_split_joins_back(s: Seq<char>, sep: char)
    ensures
        join(split_on(s, sep), seq![sep]) == s,
        forall|j: int, k: int|
            #![trigger split_on(s, sep)[j][k]]
            0 <= j < split_on(s, sep).len() && 0 <= k < split_on(s, sep)[j].len() ==> split_on(
                s,
                sep,
            )[j][k] != sep,
{
    lemma_split_joins(s, sep, 0, 0);
    assert(s.skip(0) =~= s);
}

proof fn lemma_join_front(p: Seq<char>, rest: Seq<Seq<char>>, sep: Seq<char>)
    requires
        rest.len() > 0,
    ensures
        join(seq![p] + rest, sep) == p + sep + join(rest, sep),
    decreases rest.len(),
{
    let all = seq![p] + rest;
    if rest.len() == 1 {
        assert(all.drop_last() =~= seq![p]);
        assert(join(seq![p], sep) == p);
    } else {
        lemma_join_front(p, rest.drop_last(), sep);
        assert(all.drop_last() =~= seq![p] + rest.drop_last());
        assert(all.last() == rest.last());
        assert(p + sep + join(rest.drop_last(), sep) + sep + rest.last() =~= p + sep + (join(
            rest.drop_last(),
            sep,
        ) + sep + rest.last()));
    }
}

proof fn lemma_split_joins(s: Seq<char>, sep: char, start: int, i: int)
    requires
        0 <= start <= i <= s.len(),
        forall|k: int| start <= k < i ==> #[trigger] s[k] != sep,
    ensures
        join(split_from(s, sep, start, i), seq![sep]) == s.skip(start),
        forall|j: int, k: int|
            #![trigger split_from(s, sep, start, i)[j][k]]
            0 <= j < split_from(s, sep, start, i).len() && 0 <= k < split_from(
                s,
                sep,
                start,
                i,
            )[j].len() ==> split_from(s, sep, start, i)[j][k] != sep,
    decreases s.len() - i,
{
    let all = split_from(s, sep, start, i);
    if i >= s.len() {
        assert(s.subrange(start, s.len() as int) =~= s.skip(start));
        assert(all.len() == 1);
        assert forall|j: int, k: int|
            #![trigger all[j][k]]
            0 <= j < all.len() && 0 <= k < all[j].len() implies all[j][k] != sep by {
            assert(all[j][k] == s[start + k]);
        }
    } else if s[i] == sep {
        let rest = split_from(s, sep, i + 1, i + 1);
        lemma_split_joins(s, sep, i + 1, i + 1);
        lemma_split_nonempty(s, sep, i + 1, i + 1);
        lemma_join_front(s.subrange(start, i), rest, seq![sep]);
        assert(s.subrange(start, i) + seq![sep] + s.skip(i + 1) =~= s.skip(start));
        assert forall|j: int, k: int|
            #![trigger all[j][k]]
            0 <= j < all.len() && 0 <= k < all[j].len() implies all[j][k] != sep by {
            if j > 0 {
                assert(all[j] == rest[j - 1]);
                assert(rest[j - 1][k] != sep);
            } else {
                assert(all[0][k] == s[start + k]);
            }
        }
    } else {
        lemma_split_joins(s, sep, start, i + 1);
        let same = split_from(s, sep, start, i + 1);
        assert forall|j: int, k: int|
            #![trigger all[j][k]]
            0 <= j < all.len() && 0 <= k < all[j].len() implies all[j][k] != sep by {
            assert(same[j][k] != sep);
        }
    }
}

/// A number that is written in decimal reads back as the number, and has no
/// leading zero.
pub proof fn law_decimal_reads_back(n: nat)
    ensures
        digits(decimal(n)),
        digits_value(decimal(n)) == n,
        n > 0 ==> decimal(n)[0] != '0',
        forall|max: int| n <= max ==> #[trigger] unsigned_of(decimal(n), max) == Some(n as int),
    decreases n,
{
    reveal_strlit("+");
    let s = decimal(n);
    if n < 10 {
        reveal_with_fuel(digits_value, 2);
        assert(s.drop_last() =~= Seq::<char>::empty());
    } else {
        law_decimal_reads_back(n / 10);
        let t = decimal(n / 10);
        assert(s.drop_last() =~= t);
        assert(s[0] == t[0]);
        assert forall|i: int| 0 <= i < s.len() implies '0' <= #[trigger] s[i] <= '9' by {
            if i < t.len() {
                assert(s[i] == t[i]);
            }
        }
    }
    if starts(s, "+"@) {
        assert(s.take(1)[0] == s[0]);
    }
}

/// A text is found at its first place: it stands there, and nowhere in front.
pub proof fn law_find_is_first(s: Seq<char>, p: Seq<char>)
    ensures
        find(s, p) == -1 || (0 <= find(s, p) <= s.len() && starts(s.skip(find(s, p)), p)),
        forall|k: int|
            0 <= k <= s.len() && (find(s, p) == -1 || k < find(s, p)) ==> !starts(
                #[trigger] s.skip(k),
                p,
            ),
{
    lemma_find_first(s, p, 0);
}

proof fn lemma_find_first(s: Seq<char>, p: Seq<char>, i: int)
    requires
        0 <= i,
    ensures
        find_from(s, p, i) == -1 || (i <= find_from(s, p, i) <= s.len() && starts(
            s.skip(find_from(s, p, i)),
            p,
        )),
        forall|k: int|
            i <= k <= s.len() && (find_from(s, p, i) == -1 || k < find_from(s, p, i)) ==> !starts(
                #[trigger] s.skip(k),
                p,
            ),
    decreases s.len() + 1 - i,
{
    if i <= s.len() && !starts(s.skip(i), p) {
        lemma_find_first(s, p, i + 1);
    }
}

/// The bytes of two texts one behind the other are those of both.
pub proof fn lemma_encode_concat(a: Seq<char>, b: Seq<char>)
    ensures
        encode_utf8(a + b) == encode_utf8(a) + encode_utf8(b),
    decreases a.len(),
{
    if a.len() == 0 {
        assert(a + b =~= b);
        assert(encode_utf8(a) + encode_utf8(b) =~= encode_utf8(b));
    } else {
        lemma_encode_concat(a.drop_first(), b);
        assert((a + b).drop_first() =~= a.drop_first() + b);
        assert((a + b)[0] == a[0]);
        let head = encode_scalar(a[0] as u32);
        assert(head + (encode_utf8(a.drop_first()) + encode_utf8(b)) =~= (head + encode_utf8(
            a.drop_first(),
        )) + encode_utf8(b));
    }
}

} // verus!
