//! Slash-separated paths as text, as on Unix.
//!
//! A path is absolute where it starts with a slash. Its segments are the
//! pieces between slashes, without empty ones and without `.`. A path keeps
//! its text however it is extended; only normalising rewrites it.
use crate::fs::{lemma_join_first, lemma_pieces_plain, lemma_split_join};
use crate::text::{
    chars_of, join, join_texts, lemma_split_nonempty, same_text, split_from, split_on,
    split_ranges, string_of, texts,
};
use vstd::prelude::*;
use vstd::slice::slice_subrange;
use vstd::string::*;

verus! {

/// A path as a root flag and its segments.
#[verifier::ext_equal]
pub struct PathModel {
    pub absolute: bool,
    pub segments: Seq<Seq<char>>,
}

/// Whether a piece between slashes is a segment.
pub open spec fn is_segment(s: Seq<char>) -> bool {
    s.len() > 0 && s != "."@
}

/// The segments among the first `n` pieces.
pub open spec fn segments_of(pieces: Seq<Seq<char>>, n: int) -> Seq<Seq<char>>
    decreases n,
{
    if n <= 0 {
        Seq::empty()
    } else if is_segment(pieces[n - 1]) {
        segments_of(pieces, n - 1).push(pieces[n - 1])
    } else {
        segments_of(pieces, n - 1)
    }
}

/// The path that a text writes.
pub open spec fn path_of(s: Seq<char>) -> PathModel {
    PathModel {
        absolute: s.len() > 0 && s[0] == '/',
        segments: segments_of(split_on(s, '/'), split_on(s, '/').len() as int),
    }
}

/// A path as text.
pub open spec fn path_text(p: PathModel) -> Seq<char> {
    (if p.absolute {
        "/"@
    } else {
        ""@
    }) + join(p.segments, "/"@)
}

/// The segments with one more: `..` takes a name back, is dropped at the
/// root, and is kept where there is nothing to take back.
pub open spec fn step(absolute: bool, done: Seq<Seq<char>>, segment: Seq<char>) -> Seq<Seq<char>> {
    if segment != ".."@ {
        done.push(segment)
    } else if done.len() == 0 {
        if absolute {
            done
        } else {
            done.push(segment)
        }
    } else if done.last() == ".."@ {
        done.push(segment)
    } else {
        done.drop_last()
    }
}

/// The first `n` segments with `..` resolved.
pub open spec fn normal_segments(absolute: bool, segments: Seq<Seq<char>>, n: int) -> Seq<Seq<char>>
    decreases n,
{
    if n <= 0 {
        Seq::empty()
    } else {
        step(absolute, normal_segments(absolute, segments, n - 1), segments[n - 1])
    }
}

/// A path with `.` and `..` resolved, without touching the filesystem.
pub open spec fn normalized(p: PathModel) -> PathModel {
    PathModel {
        absolute: p.absolute,
        segments: normal_segments(p.absolute, p.segments, p.segments.len() as int),
    }
}

/// The directory of a path, where it has one: a path without segments has
/// none.
pub open spec fn parent_of(p: PathModel) -> Option<PathModel> {
    if p.segments.len() == 0 {
        None
    } else {
        Some(PathModel { absolute: p.absolute, segments: p.segments.drop_last() })
    }
}

/// A path below another; an absolute path stands for itself.
pub open spec fn below(base: PathModel, p: PathModel) -> PathModel {
    if p.absolute {
        p
    } else {
        PathModel { absolute: base.absolute, segments: base.segments + p.segments }
    }
}

/// What a path starts with in front of its segments: the root slash, a `.`, or
/// nothing.
pub open spec fn lead(s: Seq<char>) -> Seq<char> {
    if s.len() > 0 && s[0] == '/' {
        "/"@
    } else if s.len() > 0 && s[0] == '.' && (s.len() == 1 || s[1] == '/') {
        "."@
    } else {
        ""@
    }
}

/// The number of pieces among the first `n` up to the last segment.
pub open spec fn last_segment(pieces: Seq<Seq<char>>, n: int) -> int
    decreases n,
{
    if n <= 0 {
        0
    } else if is_segment(pieces[n - 1]) {
        n
    } else {
        last_segment(pieces, n - 1)
    }
}

/// The text of a path up to the last segment among its first `n` pieces; its
/// lead where there is none.
pub open spec fn cut_path(s: Seq<char>, n: int) -> Seq<char> {
    let pieces = split_on(s, '/');
    let m = last_segment(pieces, n);
    if m > 0 {
        join(pieces.take(m), "/"@)
    } else {
        lead(s)
    }
}

/// The text of a path without what follows its last segment.
pub open spec fn trimmed_path(s: Seq<char>) -> Seq<char> {
    cut_path(s, split_on(s, '/').len() as int)
}

/// The file name of a path: its last segment, unless that is `..`.
pub open spec fn file_name(s: Seq<char>) -> Option<Seq<char>> {
    let pieces = split_on(s, '/');
    let m = last_segment(pieces, pieces.len() as int);
    if m == 0 || pieces[m - 1] == ".."@ {
        None
    } else {
        Some(pieces[m - 1])
    }
}

/// The directory of a path as text, where it has one: the path up to the
/// segment before the last. A lone `.` lies in the empty path.
pub open spec fn parent_text(s: Seq<char>) -> Option<Seq<char>> {
    let pieces = split_on(s, '/');
    let m = last_segment(pieces, pieces.len() as int);
    if m > 0 {
        Some(cut_path(s, m - 1))
    } else if lead(s) == "."@ {
        Some(""@)
    } else {
        None
    }
}

/// A path with another behind it, with a slash between them where there is
/// none; an absolute path takes its place.
pub open spec fn pushed(base: Seq<char>, p: Seq<char>) -> Seq<char> {
    if p.len() > 0 && p[0] == '/' {
        p
    } else if base.len() > 0 && base.last() != '/' {
        base + "/"@ + p
    } else {
        base + p
    }
}

/// Whether a path has no lead and no segments.
pub open spec fn blank(s: Seq<char>) -> bool {
    lead(s) == ""@ && path_of(s).segments.len() == 0
}

/// Whether a path is another one or lies below it: it has the lead and the
/// segments of the other first. Every path lies below a blank one.
pub open spec fn inside(path: Seq<char>, root: Seq<char>) -> bool {
    let p = path_of(path).segments;
    let r = path_of(root).segments;
    blank(root) || (lead(path) == lead(root) && r.len() <= p.len() && p.take(r.len() as int) == r)
}

/// The position of segment number `k` among the pieces from `i` on, or the
/// number of pieces where there is none.
pub open spec fn nth_segment(pieces: Seq<Seq<char>>, k: int, i: int) -> int
    decreases pieces.len() - i,
{
    if i < 0 || i >= pieces.len() {
        pieces.len() as int
    } else if !is_segment(pieces[i]) {
        nth_segment(pieces, k, i + 1)
    } else if k <= 0 {
        i
    } else {
        nth_segment(pieces, k - 1, i + 1)
    }
}

/// What a path says below another one: its text from the next segment to its
/// last.
pub open spec fn remainder(path: Seq<char>, root: Seq<char>) -> Seq<char> {
    if blank(root) {
        trimmed_path(path)
    } else {
        let pieces = split_on(path, '/');
        let from = nth_segment(pieces, path_of(root).segments.len() as int, 0);
        let to = last_segment(pieces, pieces.len() as int);
        if from < to {
            join(pieces.subrange(from, to), "/"@)
        } else {
            ""@
        }
    }
}

/// Tests whether a piece between slashes is a segment.
fn names_segment(s: &str) -> (r: bool)
    ensures
        r == is_segment(s@),
{
    let chars: Vec<char> = chars_of(s);
    chars.len() > 0 && !same_text(s, ".")
}

/// The pieces of a path between slashes.
pub fn path_pieces(s: &str) -> (r: Vec<String>)
    ensures
        texts(r@) == split_on(s@, '/'),
{
    let chars: Vec<char> = chars_of(s);
    let ranges: Vec<(usize, usize)> = split_ranges(chars.as_slice(), '/');
    let ghost all = split_on(s@, '/');
    let mut out: Vec<String> = Vec::new();
    let mut i: usize = 0;
    while i < ranges.len()
        invariant
            i <= ranges.len(),
            chars@ == s@,
            all == split_on(s@, '/'),
            ranges@.len() == all.len(),
            forall|k: int|
                #![trigger ranges@[k]]
                0 <= k < ranges@.len() ==> ranges@[k].0 <= ranges@[k].1 <= chars@.len()
                    && chars@.subrange(ranges@[k].0 as int, ranges@[k].1 as int) == all[k],
            out@.len() == i,
            forall|k: int| 0 <= k < i ==> (#[trigger] out@[k])@ == all[k],
        decreases ranges.len() - i,
    {
        let range = ranges[i];
        out.push(string_of(slice_subrange(chars.as_slice(), range.0, range.1)));
        i += 1;
    }
    assert(texts(out@) =~= all);
    out
}

/// Counts the pieces among the first `n` up to the last segment.
fn segments_end(pieces: &Vec<String>, n: usize) -> (r: usize)
    requires
        n <= pieces.len(),
    ensures
        r == last_segment(texts(pieces@), n as int),
        r <= n,
{
    let ghost all = texts(pieces@);
    let mut i: usize = n;
    while i > 0
        invariant
            i <= n <= pieces.len(),
            all == texts(pieces@),
            last_segment(all, i as int) == last_segment(all, n as int),
        decreases i,
    {
        assert(all[i - 1] == pieces@[i - 1]@);
        if names_segment(pieces[i - 1].as_str()) {
            return i;
        }
        i -= 1;
    }
    0
}

/// Joins some of the pieces of a path.
fn joined(pieces: &Vec<String>, from: usize, to: usize) -> (r: String)
    requires
        from <= to <= pieces.len(),
    ensures
        r@ == join(texts(pieces@).subrange(from as int, to as int), "/"@),
{
    let mut out: Vec<String> = Vec::new();
    let mut i: usize = from;
    while i < to
        invariant
            from <= i <= to <= pieces.len(),
            out@.len() == i - from,
            forall|k: int| 0 <= k < out@.len() ==> (#[trigger] out@[k])@ == pieces@[from + k]@,
        decreases to - i,
    {
        out.push(pieces[i].clone());
        i += 1;
    }
    assert(texts(out@) =~= texts(pieces@).subrange(from as int, to as int));
    join_texts(&out, "/")
}

/// What a path starts with in front of its segments.
fn lead_text(s: &str) -> (r: &'static str)
    ensures
        r@ == lead(s@),
{
    let chars: Vec<char> = chars_of(s);
    if chars.len() > 0 && chars[0] == '/' {
        "/"
    } else if chars.len() > 0 && chars[0] == '.' && (chars.len() == 1 || chars[1] == '/') {
        "."
    } else {
        ""
    }
}

/// Cuts a path behind the last segment among its first `n` pieces.
fn cut(s: &str, pieces: &Vec<String>, n: usize) -> (r: String)
    requires
        texts(pieces@) == split_on(s@, '/'),
        n <= pieces.len(),
    ensures
        r@ == cut_path(s@, n as int),
{
    let m: usize = segments_end(pieces, n);
    if m > 0 {
        let ghost all = texts(pieces@);
        assert(all.subrange(0, m as int) =~= all.take(m as int));
        joined(pieces, 0, m)
    } else {
        lead_text(s).to_owned()
    }
}

/// The text of a path without what follows its last segment.
pub fn trim_path(s: &str) -> (r: String)
    ensures
        r@ == trimmed_path(s@),
{
    let pieces = path_pieces(s);
    assert(texts(pieces@).len() == pieces@.len());
    cut(s, &pieces, pieces.len())
}

/// The file name of a path.
pub fn file_name_of(s: &str) -> (r: Option<String>)
    ensures
        match r {
            Some(name) => file_name(s@) == Some(name@),
            None => file_name(s@) is None,
        },
{
    let pieces = path_pieces(s);
    assert(texts(pieces@).len() == pieces@.len());
    let m: usize = segments_end(&pieces, pieces.len());
    if m == 0 {
        return None;
    }
    assert(texts(pieces@)[m - 1] == pieces@[m - 1]@);
    if same_text(pieces[m - 1].as_str(), "..") {
        return None;
    }
    Some(pieces[m - 1].clone())
}

/// The directory of a path.
pub fn parent_path(s: &str) -> (r: Option<String>)
    ensures
        match r {
            Some(p) => parent_text(s@) == Some(p@),
            None => parent_text(s@) is None,
        },
{
    let pieces = path_pieces(s);
    assert(texts(pieces@).len() == pieces@.len());
    let m: usize = segments_end(&pieces, pieces.len());
    if m > 0 {
        Some(cut(s, &pieces, m - 1))
    } else if same_text(lead_text(s), ".") {
        Some("".to_owned())
    } else {
        None
    }
}

/// Puts a path behind another.
pub fn push_path(base: &str, p: &str) -> (r: String)
    ensures
        r@ == pushed(base@, p@),
{
    let front: Vec<char> = chars_of(base);
    let back: Vec<char> = chars_of(p);
    if back.len() > 0 && back[0] == '/' {
        p.to_owned()
    } else if front.len() > 0 && front[front.len() - 1] != '/' {
        base.to_owned().concat("/").concat(p)
    } else {
        base.to_owned().concat(p)
    }
}

/// Whether a path has no lead and no segments.
fn is_blank(s: &str) -> (r: bool)
    ensures
        r == blank(s@),
{
    let segments = PathText::parse(s).segments;
    assert(path_of(s@).segments.len() == segments@.len());
    same_text(lead_text(s), "") && segments.len() == 0
}

/// Tests whether a path is `root` or lies below it.
pub fn is_inside(path: &str, root: &str) -> (r: bool)
    ensures
        r == inside(path@, root@),
{
    if is_blank(root) {
        return true;
    }
    if !same_text(lead_text(path), lead_text(root)) {
        return false;
    }
    PathText::parse(path).starts_with(&PathText::parse(root))
}

/// What a path says below `root`, where it lies there.
pub fn strip_root(path: &str, root: &str) -> (r: Option<String>)
    ensures
        match r {
            Some(rest) => inside(path@, root@) && rest@ == remainder(path@, root@),
            None => !inside(path@, root@),
        },
{
    if !is_inside(path, root) {
        return None;
    }
    if is_blank(root) {
        return Some(trim_path(path));
    }
    let mut k: usize = PathText::parse(root).segments.len();
    let pieces = path_pieces(path);
    let ghost all = split_on(path@, '/');
    let ghost goal = nth_segment(all, path_of(root@).segments.len() as int, 0);
    let to: usize = segments_end(&pieces, pieces.len());
    let mut i: usize = 0;
    assert(all.len() == pieces@.len());
    while i < pieces.len()
        invariant
            i <= pieces.len(),
            to <= pieces.len(),
            all == texts(pieces@),
            all == split_on(path@, '/'),
            all.len() == pieces@.len(),
            inside(path@, root@),
            !blank(root@),
            to == last_segment(all, all.len() as int),
            goal == nth_segment(all, path_of(root@).segments.len() as int, 0),
            goal == nth_segment(all, k as int, i as int),
        decreases pieces.len() - i,
    {
        assert(all[i as int] == pieces@[i as int]@);
        if names_segment(pieces[i].as_str()) {
            if k == 0 {
                if i < to {
                    return Some(joined(&pieces, i, to));
                }
                return Some("".to_owned());
            }
            k -= 1;
        }
        i += 1;
    }
    Some("".to_owned())
}

/// A path as a value.
#[derive(Debug)]
pub struct PathText {
    pub absolute: bool,
    pub segments: Vec<String>,
}

impl PathText {
    pub open spec fn view(&self) -> PathModel {
        PathModel { absolute: self.absolute, segments: texts(self.segments@) }
    }

    /// Reads a path.
    pub fn parse(s: &str) -> (r: Self)
        ensures
            r@ == path_of(s@),
    {
        let chars: Vec<char> = chars_of(s);
        let ranges: Vec<(usize, usize)> = split_ranges(chars.as_slice(), '/');
        let ghost all = split_on(s@, '/');
        let mut segments: Vec<String> = Vec::new();
        let mut i: usize = 0;
        proof {
            reveal_strlit(".");
            assert(texts(segments@) =~= Seq::empty());
        }
        while i < ranges.len()
            invariant
                i <= ranges.len(),
                chars@ == s@,
                all == split_on(s@, '/'),
                ranges@.len() == all.len(),
                "."@.len() == 1,
                "."@[0] == '.',
                forall|k: int|
                    #![trigger ranges@[k]]
                    0 <= k < ranges@.len() ==> ranges@[k].0 <= ranges@[k].1 <= chars@.len()
                        && chars@.subrange(ranges@[k].0 as int, ranges@[k].1 as int) == all[k],
                texts(segments@) == segments_of(all, i as int),
            decreases ranges.len() - i,
        {
            let range = ranges[i];
            let piece = slice_subrange(chars.as_slice(), range.0, range.1);
            assert(piece@ == all[i as int]);
            let dot = piece.len() == 1 && piece[0] == '.';
            assert(dot == (piece@ == "."@)) by {
                if dot {
                    assert(piece@ =~= "."@);
                }
            }
            if piece.len() > 0 && !dot {
                let ghost before = segments@;
                segments.push(string_of(piece));
                assert(texts(segments@) =~= texts(before).push(piece@));
            }
            i += 1;
        }
        PathText { absolute: chars.len() > 0 && chars[0] == '/', segments }
    }

    /// Writes the path.
    pub fn text(&self) -> (r: String)
        ensures
            r@ == path_text(self@),
    {
        let mut out = if self.absolute {
            "/".to_owned()
        } else {
            "".to_owned()
        };
        out.append(join_texts(&self.segments, "/").as_str());
        out
    }

    /// Drops the last segment.
    pub fn parent(self) -> (r: Option<Self>)
        ensures
            match r {
                Some(p) => parent_of(self@) == Some(p@),
                None => parent_of(self@) is None,
            },
    {
        let mut segments = self.segments;
        let ghost before = segments@;
        match segments.pop() {
            None => None,
            Some(_) => {
                assert(texts(segments@) =~= texts(before).drop_last());
                Some(PathText { absolute: self.absolute, segments })
            },
        }
    }

    /// Appends a path; an absolute one takes its place.
    pub fn join(self, other: PathText) -> (r: Self)
        ensures
            r@ == below(self@, other@),
    {
        if other.absolute {
            return other;
        }
        let mut segments = self.segments;
        let mut tail = other.segments;
        let ghost a = segments@;
        let ghost b = tail@;
        segments.append(&mut tail);
        assert(texts(segments@) =~= texts(a) + texts(b));
        PathText { absolute: self.absolute, segments }
    }

    /// Tests whether the segments of this path start with those of `root`.
    pub fn starts_with(&self, root: &PathText) -> (r: bool)
        ensures
            r == (root@.segments.len() <= self@.segments.len() && self@.segments.take(
                root@.segments.len() as int,
            ) == root@.segments),
    {
        if root.segments.len() > self.segments.len() {
            return false;
        }
        let ghost mine = texts(self.segments@);
        let ghost other = texts(root.segments@);
        let mut i: usize = 0;
        while i < root.segments.len()
            invariant
                i <= root.segments.len() <= self.segments.len(),
                mine == texts(self.segments@),
                other == texts(root.segments@),
                forall|k: int| 0 <= k < i ==> mine[k] == other[k],
            decreases root.segments.len() - i,
        {
            if !same_text(self.segments[i].as_str(), root.segments[i].as_str()) {
                assert(mine.take(other.len() as int)[i as int] != other[i as int]);
                return false;
            }
            i += 1;
        }
        assert(mine.take(other.len() as int) =~= other);
        true
    }

    /// Resolves `.` and `..` without touching the filesystem.
    pub fn normalize(&self) -> (r: Self)
        ensures
            r@ == normalized(self@),
    {
        let ghost all = self@.segments;
        let mut done: Vec<String> = Vec::new();
        let mut i: usize = 0;
        assert(texts(done@) =~= Seq::empty());
        while i < self.segments.len()
            invariant
                i <= self.segments.len(),
                all == self@.segments,
                texts(done@) == normal_segments(self.absolute, all, i as int),
            decreases self.segments.len() - i,
        {
            let segment = &self.segments[i];
            let ghost before = done@;
            assert(all[i as int] == segment@);
            if !same_text(segment.as_str(), "..") {
                done.push(segment.clone());
                assert(texts(done@) =~= texts(before).push(segment@));
            } else if done.len() == 0 {
                if !self.absolute {
                    done.push(segment.clone());
                    assert(texts(done@) =~= texts(before).push(segment@));
                }
            } else if same_text(done[done.len() - 1].as_str(), "..") {
                assert(texts(before).last() == before.last()@);
                done.push(segment.clone());
                assert(texts(done@) =~= texts(before).push(segment@));
            } else {
                assert(texts(before).last() == before.last()@);
                done.pop();
                assert(texts(done@) =~= texts(before).drop_last());
            }
            i += 1;
        }
        PathText { absolute: self.absolute, segments: done }
    }
}

/// Splitting does not depend on what stands in front of the text.
proof fn lemma_split_behind(a: Seq<char>, s: Seq<char>, start: int, i: int)
    requires
        0 <= start <= i <= s.len(),
    ensures
        split_from(a + s, '/', a.len() + start, a.len() + i) == split_from(s, '/', start, i),
    decreases s.len() - i,
{
    let all = a + s;
    let n = a.len() as int;
    if i >= s.len() {
        assert(all.subrange(n + start, all.len() as int) =~= s.subrange(start, s.len() as int));
    } else {
        assert(all[n + i] == s[i]);
        assert(all.subrange(n + start, n + i) =~= s.subrange(start, i));
        if s[i] == '/' {
            lemma_split_behind(a, s, i + 1, i + 1);
        } else {
            lemma_split_behind(a, s, start, i + 1);
        }
    }
}

/// The pieces of two texts with a slash between them are those of both.
pub proof fn lemma_split_concat(a: Seq<char>, b: Seq<char>, start: int, i: int)
    requires
        0 <= start <= i <= a.len(),
    ensures
        split_from(a + "/"@ + b, '/', start, i) == split_from(a, '/', start, i) + split_on(b, '/'),
    decreases a.len() - i,
{
    reveal_strlit("/");
    let all = a + "/"@ + b;
    if i >= a.len() {
        assert(all[i] == '/');
        assert(all.subrange(start, i) =~= a.subrange(start, a.len() as int));
        lemma_split_behind(a + "/"@, b, 0, 0);
    } else {
        assert(all[i] == a[i]);
        assert(all.subrange(start, i) =~= a.subrange(start, i));
        if a[i] == '/' {
            lemma_split_concat(a, b, i + 1, i + 1);
            assert(seq![a.subrange(start, i)] + (split_from(a, '/', i + 1, i + 1) + split_on(
                b,
                '/',
            )) =~= (seq![a.subrange(start, i)] + split_from(a, '/', i + 1, i + 1)) + split_on(
                b,
                '/',
            ));
        } else {
            lemma_split_concat(a, b, start, i + 1);
        }
    }
}

/// The segments of two lists of pieces are those of both.
proof fn lemma_segments_concat(p: Seq<Seq<char>>, q: Seq<Seq<char>>, n: int)
    requires
        0 <= n <= q.len(),
    ensures
        segments_of(p + q, p.len() + n) == segments_of(p, p.len() as int) + segments_of(q, n),
    decreases n,
{
    if n > 0 {
        lemma_segments_concat(p, q, n - 1);
        assert((p + q)[p.len() + n - 1] == q[n - 1]);
        assert((segments_of(p, p.len() as int) + segments_of(q, n - 1)).push(q[n - 1])
            =~= segments_of(p, p.len() as int) + segments_of(q, n - 1).push(q[n - 1]));
    } else {
        lemma_segments_prefix(p, q, p.len() as int);
        assert(segments_of(p, p.len() as int) + Seq::<Seq<char>>::empty() =~= segments_of(
            p,
            p.len() as int,
        ));
    }
}

/// The segments of the first pieces do not depend on later ones.
pub proof fn lemma_segments_prefix(p: Seq<Seq<char>>, q: Seq<Seq<char>>, n: int)
    requires
        n <= p.len(),
    ensures
        segments_of(p + q, n) == segments_of(p, n),
    decreases n,
{
    if n > 0 {
        lemma_segments_prefix(p, q, n - 1);
    }
}

/// An empty text has one empty piece, and no segments.
pub proof fn lemma_empty_path(s: Seq<char>)
    requires
        s.len() == 0,
    ensures
        split_on(s, '/') == seq![Seq::<char>::empty()],
        path_of(s).segments == Seq::<Seq<char>>::empty(),
{
    assert(s.subrange(0, 0) =~= Seq::<char>::empty());
    let pieces = split_on(s, '/');
    assert(pieces =~= seq![Seq::<char>::empty()]);
    assert(segments_of(pieces, 0) =~= Seq::<Seq<char>>::empty());
    assert(segments_of(pieces, 1) == segments_of(pieces, 0));
}

/// A relative path behind another adds its segments and keeps the lead of a
/// path that has any text.
pub proof fn law_pushed_segments(base: Seq<char>, p: Seq<char>)
    requires
        !(p.len() > 0 && p[0] == '/'),
    ensures
        path_of(pushed(base, p)).segments == path_of(base).segments + path_of(p).segments,
        base.len() > 0 ==> lead(pushed(base, p)) == lead(base),
{
    reveal_strlit("/");
    let all = pushed(base, p);
    let tail = split_on(p, '/');
    if base.len() == 0 {
        assert(all =~= p);
        lemma_empty_path(base);
        assert(path_of(base).segments + path_of(p).segments =~= path_of(p).segments);
    } else if base.last() != '/' {
        lemma_split_concat(base, p, 0, 0);
        lemma_segments_concat(split_on(base, '/'), tail, tail.len() as int);
    } else {
        let a = base.drop_last();
        let none = Seq::<char>::empty();
        assert(base =~= a + "/"@ + none);
        assert(all =~= a + "/"@ + p);
        lemma_split_concat(a, none, 0, 0);
        lemma_split_concat(a, p, 0, 0);
        let head = split_on(a, '/');
        lemma_empty_path(none);
        lemma_segments_concat(head, tail, tail.len() as int);
        lemma_segments_concat(head, split_on(none, '/'), 1);
        assert(segments_of(head, head.len() as int) + Seq::<Seq<char>>::empty() =~= segments_of(
            head,
            head.len() as int,
        ));
    }
    if base.len() > 0 {
        assert(all[0] == base[0]);
        if base.len() > 1 {
            assert(all[1] == base[1]);
        } else if base[0] == '.' {
            assert(all[1] == '/');
        }
    }
}

/// The first piece of a text is at least as long as what was read of it.
proof fn lemma_first_piece(s: Seq<char>, i: int)
    requires
        0 <= i <= s.len(),
        forall|k: int| 0 <= k < i ==> #[trigger] s[k] != '/',
    ensures
        split_from(s, '/', 0, i).len() > 0,
        split_from(s, '/', 0, i)[0].len() >= i,
        split_from(s, '/', 0, i)[0].len() < s.len() ==> split_from(s, '/', 0, i).len() > 1,
    decreases s.len() - i,
{
    if i < s.len() {
        if s[i] != '/' {
            lemma_first_piece(s, i + 1);
        } else {
            lemma_split_nonempty(s, '/', i + 1, i + 1);
        }
    }
}

/// A text starts with a slash where its first piece is empty and not its only
/// one.
proof fn lemma_absolute_pieces(s: Seq<char>)
    ensures
        path_of(s).absolute <==> split_on(s, '/')[0].len() == 0 && split_on(s, '/').len() > 1,
{
    lemma_first_piece(s, 0);
    if s.len() == 0 {
        lemma_empty_path(s);
    } else if s[0] != '/' {
        lemma_first_piece(s, 1);
    }
}

/// A joined list whose first part is empty starts with a slash.
proof fn lemma_join_empty_first(parts: Seq<Seq<char>>)
    requires
        parts.len() > 1,
        parts[0].len() == 0,
    ensures
        join(parts, "/"@).len() > 0,
        join(parts, "/"@)[0] == '/',
    decreases parts.len(),
{
    reveal_strlit("/");
    let head = parts.drop_last();
    if parts.len() > 2 {
        lemma_join_empty_first(head);
    } else {
        assert(join(head, "/"@) == head[0]);
    }
}

/// A text without slashes that is no `.` is its own segment.
pub proof fn lemma_one_segment(s: Seq<char>)
    requires
        is_segment(s),
        forall|k: int| 0 <= k < s.len() ==> #[trigger] s[k] != '/',
    ensures
        path_of(s).segments == seq![s],
        !path_of(s).absolute,
{
    let one = seq![s];
    lemma_split_join(one);
    reveal_with_fuel(segments_of, 2);
}

/// Pieces behind the last segment add no segments.
pub proof fn lemma_last_segment(pieces: Seq<Seq<char>>, n: int)
    requires
        0 <= n <= pieces.len(),
    ensures
        0 <= last_segment(pieces, n) <= n,
        segments_of(pieces, n) == segments_of(pieces, last_segment(pieces, n)),
        last_segment(pieces, n) > 0 ==> is_segment(pieces[last_segment(pieces, n) - 1]),
        last_segment(pieces, n) > 0 <==> segments_of(pieces, n).len() > 0,
    decreases n,
{
    if n > 0 && !is_segment(pieces[n - 1]) {
        lemma_last_segment(pieces, n - 1);
    }
}

/// The text of a path up to one of its segments writes the segments up to it.
proof fn lemma_cut_path(s: Seq<char>, n: int)
    requires
        0 <= n <= split_on(s, '/').len(),
    ensures
        path_of(cut_path(s, n)).segments == segments_of(split_on(s, '/'), n),
        path_of(cut_path(s, n)).absolute == path_of(s).absolute,
        last_segment(split_on(s, '/'), n) > 0 ==> split_on(cut_path(s, n), '/') == split_on(
            s,
            '/',
        ).take(last_segment(split_on(s, '/'), n)),
{
    let pieces = split_on(s, '/');
    let m = last_segment(pieces, n);
    lemma_last_segment(pieces, n);
    let d = cut_path(s, n);
    if m > 0 {
        let parts = pieces.take(m);
        lemma_pieces_plain(s, 0, 0);
        assert forall|j: int, k: int|
            #![trigger parts[j][k]]
            0 <= j < parts.len() && 0 <= k < parts[j].len() implies parts[j][k] != '/' by {
            assert(pieces[j][k] != '/');
        }
        lemma_split_join(parts);
        lemma_segments_prefix(parts, pieces.skip(m), m);
        assert(parts + pieces.skip(m) =~= pieces);
        lemma_absolute_pieces(s);
        assert(parts[m - 1] == pieces[m - 1]);
        if parts[0].len() == 0 {
            lemma_join_empty_first(parts);
        } else {
            lemma_join_first(parts);
            assert(parts[0][0] != '/');
        }
    } else {
        reveal_strlit("/");
        reveal_strlit(".");
        reveal_strlit("");
        let none = Seq::<char>::empty();
        lemma_empty_path(none);
        if d.len() == 0 {
            lemma_empty_path(d);
        } else if s[0] == '/' {
            assert(d =~= none + "/"@ + none);
            lemma_split_concat(none, none, 0, 0);
            lemma_segments_concat(split_on(none, '/'), split_on(none, '/'), 1);
        } else {
            reveal_with_fuel(split_from, 3);
            reveal_with_fuel(segments_of, 3);
            assert(d =~= "."@);
            assert(d.subrange(0, 1) =~= "."@);
        }
    }
}

/// The directory of a path has all segments of the path but the last, and is
/// absolute where the path is. A path with a segment has a directory.
pub proof fn law_parent_drops_last_segment(s: Seq<char>)
    ensures
        path_of(s).segments.len() > 0 ==> parent_text(s) is Some,
        parent_text(s) matches Some(d) ==> {
            &&& path_of(s).segments.len() > 0 ==> path_of(d).segments
                == path_of(s).segments.drop_last()
            &&& path_of(d).absolute == path_of(s).absolute
        },
{
    let pieces = split_on(s, '/');
    let m = last_segment(pieces, pieces.len() as int);
    lemma_split_nonempty(s, '/', 0, 0);
    lemma_last_segment(pieces, pieces.len() as int);
    if m > 0 {
        lemma_cut_path(s, m - 1);
        assert(segments_of(pieces, m) == segments_of(pieces, m - 1).push(pieces[m - 1]));
        assert(segments_of(pieces, m).drop_last() =~= segments_of(pieces, m - 1));
    } else {
        reveal_strlit("");
        reveal_strlit(".");
        reveal_strlit("/");
        assert("/"@[0] != "."@[0]);
    }
}

/// What follows the last segment of a path can be left out: the path without
/// it has the same segments and is absolute where it was.
pub proof fn law_trimmed_path_is_the_same_path(s: Seq<char>)
    ensures
        path_of(trimmed_path(s)) == path_of(s),
{
    lemma_cut_path(s, split_on(s, '/').len() as int);
}

/// The name of a file is the last segment of its path; a path that has no
/// segments, or ends in `..`, names no file.
pub proof fn law_file_name_is_last_segment(s: Seq<char>)
    ensures
        file_name(s) matches Some(name) ==> path_of(s).segments.len() > 0 && name
            == path_of(s).segments.last() && name != ".."@,
        file_name(s) is None <==> path_of(s).segments.len() == 0 || path_of(s).segments.last()
            == ".."@,
{
    let pieces = split_on(s, '/');
    lemma_last_segment(pieces, pieces.len() as int);
}

/// Text behind the name of a file becomes part of its name.
pub proof fn law_suffix_extends_name(s: Seq<char>, suffix: Seq<char>)
    requires
        path_of(s).segments.len() > 0,
        suffix.len() > 0,
        forall|k: int| 0 <= k < suffix.len() ==> #[trigger] suffix[k] != '/',
    ensures
        path_of(trimmed_path(s) + suffix).segments == path_of(s).segments.drop_last().push(
            path_of(s).segments.last() + suffix,
        ),
        path_of(trimmed_path(s) + suffix).absolute == path_of(s).absolute,
{
    reveal_strlit(".");
    let pieces = split_on(s, '/');
    let n = pieces.len() as int;
    let m = last_segment(pieces, n);
    lemma_last_segment(pieces, n);
    lemma_cut_path(s, n);
    lemma_pieces_plain(s, 0, 0);
    let parts = pieces.take(m);
    let front = pieces.take(m - 1);
    let name = pieces[m - 1] + suffix;
    let longer = front.push(name);
    assert(parts.drop_last() =~= front);
    assert(longer.drop_last() =~= front);
    assert(parts[m - 1] == pieces[m - 1]);
    let d = trimmed_path(s) + suffix;
    assert(d =~= join(longer, "/"@));
    assert forall|j: int, k: int|
        #![trigger longer[j][k]]
        0 <= j < longer.len() && 0 <= k < longer[j].len() implies longer[j][k] != '/' by {
        if j < m - 1 {
            assert(pieces[j][k] != '/');
        } else if k < pieces[m - 1].len() {
            assert(pieces[m - 1][k] != '/');
        } else {
            assert(name[k] == suffix[k - pieces[m - 1].len()]);
        }
    }
    lemma_split_join(longer);
    lemma_segments_prefix(front, seq![name], m - 1);
    lemma_segments_prefix(front, pieces.skip(m - 1), m - 1);
    assert(front + seq![name] =~= longer);
    assert(front + pieces.skip(m - 1) =~= pieces);
    assert(is_segment(name)) by {
        if name == "."@ {
            assert(pieces[m - 1].len() > 0);
            assert(name.len() >= 2);
        }
    }
    let kept = segments_of(pieces, m - 1);
    assert(segments_of(pieces, m) == kept.push(pieces[m - 1]));
    assert(kept.push(pieces[m - 1]).drop_last() =~= kept);
    assert(segments_of(longer, m) == segments_of(longer, m - 1).push(name));
    assert(trimmed_path(s).len() > 0) by {
        if trimmed_path(s).len() == 0 {
            lemma_empty_path(trimmed_path(s));
        }
    }
    assert(d[0] == trimmed_path(s)[0]);
}

/// Whether a list of segments holds no `..` after a name, and none at all
/// below the root.
pub open spec fn is_normal(p: PathModel) -> bool {
    forall|i: int|
        0 <= i < p.segments.len() && (#[trigger] p.segments[i]) == ".."@ ==> !p.absolute && (forall|
            j: int,
        |
            0 <= j < i ==> (#[trigger] p.segments[j]) == ".."@)
}

/// Normalising leaves no `..` that could be taken back, and an absolute path
/// never climbs above the root.
pub proof fn law_normalized_is_normal(p: PathModel)
    ensures
        is_normal(normalized(p)),
{
    lemma_normal(p.absolute, p.segments, p.segments.len() as int);
}

proof fn lemma_normal(absolute: bool, segments: Seq<Seq<char>>, n: int)
    ensures
        is_normal(PathModel { absolute, segments: normal_segments(absolute, segments, n) }),
    decreases n,
{
    if n > 0 {
        lemma_normal(absolute, segments, n - 1);
        let before = normal_segments(absolute, segments, n - 1);
        let after = normal_segments(absolute, segments, n);
        let p = PathModel { absolute, segments: after };
        let q = PathModel { absolute, segments: before };
        assert(is_normal(q));
        assert forall|i: int|
            0 <= i < p.segments.len() && (#[trigger] p.segments[i]) == ".."@ implies !p.absolute && (
        forall|j: int| 0 <= j < i ==> (#[trigger] p.segments[j]) == ".."@) by {
            if i < before.len() {
                assert(after[i] == before[i]);
                assert(q.segments[i] == ".."@);
                assert forall|j: int| 0 <= j < i implies (#[trigger] p.segments[j]) == ".."@ by {
                    assert(q.segments[j] == ".."@);
                    assert(after[j] == before[j]);
                }
            } else if before.len() > 0 {
                assert(before.last() == ".."@);
                assert(q.segments[before.len() - 1] == ".."@);
                assert forall|j: int| 0 <= j < i implies (#[trigger] p.segments[j]) == ".."@ by {
                    assert(after[j] == before[j]);
                    if j < before.len() - 1 {
                        assert(q.segments[j] == ".."@);
                    }
                }
            }
        }
    }
}

/// A normal path is left as it is.
proof fn lemma_normal_stays(p: PathModel, n: int)
    requires
        is_normal(p),
        0 <= n <= p.segments.len(),
    ensures
        normal_segments(p.absolute, p.segments, n) == p.segments.take(n),
    decreases n,
{
    if n > 0 {
        lemma_normal_stays(p, n - 1);
        let before = p.segments.take(n - 1);
        let segment = p.segments[n - 1];
        if segment == ".."@ && before.len() > 0 {
            assert(before.last() == p.segments[n - 2]);
            assert(p.segments[n - 2] == ".."@);
        }
        assert(before.push(segment) =~= p.segments.take(n));
    } else {
        assert(p.segments.take(0) =~= Seq::empty());
    }
}

/// Normalising a second time changes nothing.
pub proof fn law_normalize_once(p: PathModel)
    ensures
        normalized(normalized(p)) == normalized(p),
{
    let q = normalized(p);
    law_normalized_is_normal(p);
    lemma_normal_stays(q, q.segments.len() as int);
    assert(q.segments.take(q.segments.len() as int) =~= q.segments);
}

/// Segments without `..` are kept as they are.
proof fn lemma_names_are_kept(absolute: bool, segments: Seq<Seq<char>>, n: int)
    requires
        0 <= n <= segments.len(),
        forall|k: int| 0 <= k < n ==> #[trigger] segments[k] != ".."@,
    ensures
        normal_segments(absolute, segments, n) == segments.take(n),
    decreases n,
{
    if n > 0 {
        lemma_names_are_kept(absolute, segments, n - 1);
        assert(segments.take(n - 1).push(segments[n - 1]) =~= segments.take(n));
    } else {
        assert(segments.take(0) =~= Seq::empty());
    }
}

proof fn lemma_normal_prefix(absolute: bool, a: Seq<Seq<char>>, b: Seq<Seq<char>>, n: int)
    requires
        0 <= n <= a.len(),
        0 <= n <= b.len(),
        forall|k: int| 0 <= k < n ==> #[trigger] a[k] == b[k],
    ensures
        normal_segments(absolute, a, n) == normal_segments(absolute, b, n),
    decreases n,
{
    if n > 0 {
        lemma_normal_prefix(absolute, a, b, n - 1);
        assert(a[n - 1] == b[n - 1]);
    }
}

proof fn lemma_names_are_added(
    absolute: bool,
    front: Seq<Seq<char>>,
    names: Seq<Seq<char>>,
    n: int,
)
    requires
        0 <= n <= names.len(),
        forall|k: int| 0 <= k < names.len() ==> #[trigger] names[k] != ".."@,
    ensures
        normal_segments(absolute, front + names, front.len() + n) == normal_segments(
            absolute,
            front,
            front.len() as int,
        ) + names.take(n),
    decreases n,
{
    let all = front + names;
    let done = normal_segments(absolute, front, front.len() as int);
    if n > 0 {
        lemma_names_are_added(absolute, front, names, n - 1);
        assert(all[front.len() + n - 1] == names[n - 1]);
        assert((done + names.take(n - 1)).push(names[n - 1]) =~= done + names.take(n));
    } else {
        lemma_normal_prefix(absolute, all, front, front.len() as int);
        assert(done + names.take(0) =~= done);
    }
}

/// Normalising keeps names in their order, and `..` takes back the name in
/// front of it and nothing else.
pub proof fn law_parent_takes_back_one_name(
    absolute: bool,
    front: Seq<Seq<char>>,
    name: Seq<char>,
    names: Seq<Seq<char>>,
)
    requires
        forall|k: int| 0 <= k < front.len() ==> #[trigger] front[k] != ".."@,
        name != ".."@,
        forall|k: int| 0 <= k < names.len() ==> #[trigger] names[k] != ".."@,
    ensures
        normalized((PathModel { absolute, segments: front + names })).segments == front + names,
        normalized(
            (PathModel { absolute, segments: front.push(name).push(".."@) + names }),
        ).segments == front + names,
        normalized((PathModel { absolute, segments: front + names })).absolute == absolute,
        normalized((PathModel { absolute: true, segments: seq![".."@] + names })).segments == names,
{
    let f = front.len() as int;
    lemma_names_are_kept(absolute, front, f);
    assert(front.take(f) =~= front);
    lemma_names_are_added(absolute, front, names, names.len() as int);
    assert(names.take(names.len() as int) =~= names);
    let long = front.push(name);
    let up = long.push(".."@);
    assert forall|k: int| 0 <= k < long.len() implies #[trigger] long[k] != ".."@ by {
        if k < f {
            assert(long[k] == front[k]);
        }
    }
    lemma_names_are_kept(absolute, long, f + 1);
    assert(long.take(f + 1) =~= long);
    lemma_normal_prefix(absolute, up, long, f + 1);
    assert(normal_segments(absolute, up, f + 2) == step(absolute, long, ".."@));
    assert(long.drop_last() =~= front);
    lemma_names_are_added(absolute, up, names, names.len() as int);
    let top = seq![".."@];
    reveal_with_fuel(normal_segments, 2);
    assert(normal_segments(true, top, 1) =~= Seq::<Seq<char>>::empty());
    lemma_names_are_added(true, top, names, names.len() as int);
    assert(Seq::<Seq<char>>::empty() + names =~= names);
}

proof fn lemma_all_segments(parts: Seq<Seq<char>>, n: int)
    requires
        0 <= n <= parts.len(),
        forall|k: int| 0 <= k < parts.len() ==> is_segment(#[trigger] parts[k]),
    ensures
        segments_of(parts, n) == parts.take(n),
    decreases n,
{
    if n > 0 {
        lemma_all_segments(parts, n - 1);
        assert(parts.take(n - 1).push(parts[n - 1]) =~= parts.take(n));
    } else {
        assert(parts.take(0) =~= Seq::empty());
    }
}

/// A path that is written as text reads back as the path: absolute where it
/// was, with the same segments in the same order.
pub proof fn law_path_text_reads_back(p: PathModel)
    requires
        forall|k: int| 0 <= k < p.segments.len() ==> is_segment(#[trigger] p.segments[k]),
        forall|j: int, k: int|
            #![trigger p.segments[j][k]]
            0 <= j < p.segments.len() && 0 <= k < p.segments[j].len() ==> p.segments[j][k] != '/',
    ensures
        path_of(path_text(p)) == p,
{
    reveal_strlit("/");
    reveal_strlit("");
    let parts = p.segments;
    let n = parts.len() as int;
    let inner = join(parts, "/"@);
    let none = Seq::<char>::empty();
    lemma_empty_path(none);
    assert(parts.take(n) =~= parts);
    lemma_all_segments(parts, n);
    if n > 0 {
        lemma_split_join(parts);
        assert(is_segment(parts[0]));
        lemma_join_first(parts);
        assert(parts[0][0] != '/');
        assert(path_of(inner).segments == parts);
    } else {
        lemma_empty_path(inner);
        assert(parts =~= Seq::empty());
    }
    if p.absolute {
        assert(path_text(p) =~= none + "/"@ + inner);
        lemma_split_concat(none, inner, 0, 0);
        let tail = split_on(inner, '/');
        lemma_segments_concat(split_on(none, '/'), tail, tail.len() as int);
        assert(Seq::<Seq<char>>::empty() + path_of(inner).segments =~= path_of(inner).segments);
        assert(path_text(p)[0] == '/');
    } else {
        assert(path_text(p) =~= inner);
    }
    assert(path_of(path_text(p)).segments =~= parts);
}

proof fn lemma_nth_segment(pieces: Seq<Seq<char>>, k: int, i: int)
    requires
        0 <= i <= pieces.len(),
        0 <= k <= segments_of(pieces, pieces.len() as int).len() - segments_of(pieces, i).len(),
    ensures
        i <= nth_segment(pieces, k, i) <= pieces.len(),
        segments_of(pieces, nth_segment(pieces, k, i)).len() == segments_of(pieces, i).len() + k,
    decreases pieces.len() - i,
{
    if i < pieces.len() {
        if !is_segment(pieces[i]) {
            lemma_nth_segment(pieces, k, i + 1);
        } else if k > 0 {
            lemma_nth_segment(pieces, k - 1, i + 1);
        }
    }
}

/// What a path says below another one are the segments that it has more: put
/// behind the segments of the other they are those of the path again.
pub proof fn law_remainder_is_what_is_below(path: Seq<char>, root: Seq<char>)
    requires
        inside(path, root),
    ensures
        path_of(remainder(path, root)).segments == path_of(path).segments.skip(
            path_of(root).segments.len() as int,
        ),
        path_of(root).segments + path_of(remainder(path, root)).segments == path_of(path).segments,
{
    reveal_strlit("");
    let pieces = split_on(path, '/');
    let n = pieces.len() as int;
    let all = path_of(path).segments;
    let r = path_of(root).segments;
    let k = r.len() as int;
    let rest = remainder(path, root);
    lemma_last_segment(pieces, n);
    if blank(root) {
        law_trimmed_path_is_the_same_path(path);
        assert(all.skip(0) =~= all);
        assert(r + all =~= all);
    } else {
        let from = nth_segment(pieces, k, 0);
        let to = last_segment(pieces, n);
        lemma_nth_segment(pieces, k, 0);
        assert(r + all.skip(k) =~= all) by {
            assert(all.take(k) == r);
            assert(all.take(k) + all.skip(k) =~= all);
        }
        if from < to {
            let front = pieces.take(from);
            let sub = pieces.subrange(from, to);
            assert(front + sub =~= pieces.take(to));
            lemma_segments_prefix(front, pieces.skip(from), from);
            assert(front + pieces.skip(from) =~= pieces);
            lemma_segments_prefix(pieces.take(to), pieces.skip(to), to);
            assert(pieces.take(to) + pieces.skip(to) =~= pieces);
            lemma_segments_concat(front, sub, sub.len() as int);
            lemma_pieces_plain(path, 0, 0);
            assert forall|x: int, y: int|
                #![trigger sub[x][y]]
                0 <= x < sub.len() && 0 <= y < sub[x].len() implies sub[x][y] != '/' by {
                assert(pieces[from + x][y] != '/');
            }
            lemma_split_join(sub);
            assert(all == segments_of(front, from) + segments_of(sub, sub.len() as int));
            assert(all.skip(k) =~= segments_of(sub, sub.len() as int));
        } else {
            let front = pieces.take(to);
            let more = pieces.subrange(to, from);
            assert(front + more =~= pieces.take(from));
            lemma_segments_concat(front, more, more.len() as int);
            lemma_segments_prefix(front, pieces.skip(to), to);
            assert(front + pieces.skip(to) =~= pieces);
            lemma_segments_prefix(pieces.take(from), pieces.skip(from), from);
            assert(pieces.take(from) + pieces.skip(from) =~= pieces);
            assert(all.skip(k) =~= Seq::empty());
            lemma_empty_path(rest);
        }
    }
}

} // verus!
