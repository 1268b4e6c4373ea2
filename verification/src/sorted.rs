//! Association lists kept in key order.
//!
//! Keys are strings, ordered by their UTF-8 bytes as the standard library
//! orders strings. The model of a map is the sequence of its entries in key
//! order, so a contract fixes both the contents and the order of traversal.
use crate::text::{lemma_encode_concat, texts};
use vstd::prelude::*;
use vstd::utf8::{encode_scalar, encode_utf8, encode_utf8_decode_utf8};
use vstd::string::*;

verus! {

/// Byte sequences in lexicographic order.
pub open spec fn bytes_less(a: Seq<u8>, b: Seq<u8>) -> bool
    decreases a.len(),
{
    if b.len() == 0 {
        false
    } else if a.len() == 0 {
        true
    } else if a[0] != b[0] {
        a[0] < b[0]
    } else {
        bytes_less(a.skip(1), b.skip(1))
    }
}

/// Strings in the order of their UTF-8 bytes.
pub open spec fn text_less(a: Seq<char>, b: Seq<char>) -> bool {
    bytes_less(encode_utf8(a), encode_utf8(b))
}

proof fn lemma_bytes_less_irreflexive(a: Seq<u8>)
    ensures
        !bytes_less(a, a),
    decreases a.len(),
{
    if a.len() > 0 {
        lemma_bytes_less_irreflexive(a.skip(1));
    }
}

proof fn lemma_bytes_less_transitive(a: Seq<u8>, b: Seq<u8>, c: Seq<u8>)
    requires
        bytes_less(a, b),
        bytes_less(b, c),
    ensures
        bytes_less(a, c),
    decreases a.len(),
{
    if a.len() > 0 && a[0] == b[0] && b[0] == c[0] {
        lemma_bytes_less_transitive(a.skip(1), b.skip(1), c.skip(1));
    }
}

proof fn lemma_bytes_less_total(a: Seq<u8>, b: Seq<u8>)
    ensures
        bytes_less(a, b) || bytes_less(b, a) || a == b,
    decreases a.len(),
{
    if a.len() > 0 && b.len() > 0 && a[0] == b[0] {
        lemma_bytes_less_total(a.skip(1), b.skip(1));
        if a.skip(1) == b.skip(1) {
            assert(a =~= seq![a[0]] + a.skip(1));
            assert(b =~= seq![b[0]] + b.skip(1));
        }
    } else if a.len() == 0 && b.len() == 0 {
        assert(a =~= b);
    }
}

/// The order of strings is a strict total order.
pub proof fn lemma_text_less_order(a: Seq<char>, b: Seq<char>, c: Seq<char>)
    ensures
        !text_less(a, a),
        text_less(a, b) && text_less(b, c) ==> text_less(a, c),
        text_less(a, b) || text_less(b, a) || a == b,
        !(text_less(a, b) && text_less(b, a)),
{
    let x = encode_utf8(a);
    let y = encode_utf8(b);
    let z = encode_utf8(c);
    lemma_bytes_less_irreflexive(x);
    if bytes_less(x, y) && bytes_less(y, z) {
        lemma_bytes_less_transitive(x, y, z);
    }
    if bytes_less(x, y) && bytes_less(y, x) {
        lemma_bytes_less_transitive(x, y, x);
    }
    lemma_bytes_less_total(x, y);
    if x == y {
        encode_utf8_decode_utf8(a);
        encode_utf8_decode_utf8(b);
    }
}

/// How one key stands to another.
#[derive(Clone, Copy, PartialEq, Eq, Structural, Debug)]
pub enum Side {
    Before,
    Same,
    After,
}

/// Compares two byte slices from position `at` on.
fn compare_bytes(a: &[u8], b: &[u8]) -> (r: Side)
    ensures
        match r {
            Side::Before => bytes_less(a@, b@),
            Side::Same => a@ == b@,
            Side::After => bytes_less(b@, a@),
        },
{
    let mut i: usize = 0;
    assert(a@.skip(0) =~= a@);
    assert(b@.skip(0) =~= b@);
    while i < a.len() && i < b.len()
        invariant
            i <= a.len(),
            i <= b.len(),
            a@.take(i as int) == b@.take(i as int),
            bytes_less(a@, b@) == bytes_less(a@.skip(i as int), b@.skip(i as int)),
            bytes_less(b@, a@) == bytes_less(b@.skip(i as int), a@.skip(i as int)),
        decreases a.len() - i,
    {
        assert(a@.skip(i as int).skip(1) =~= a@.skip(i + 1));
        assert(b@.skip(i as int).skip(1) =~= b@.skip(i + 1));
        if a[i] < b[i] {
            return Side::Before;
        }
        if b[i] < a[i] {
            return Side::After;
        }
        assert(a@.take(i + 1) =~= a@.take(i as int).push(a@[i as int]));
        assert(b@.take(i + 1) =~= b@.take(i as int).push(b@[i as int]));
        i += 1;
    }
    if i < b.len() {
        Side::Before
    } else if i < a.len() {
        Side::After
    } else {
        assert(a@.take(i as int) =~= a@);
        assert(b@.take(i as int) =~= b@);
        Side::Same
    }
}

/// Compares two strings in the order of their bytes.
pub fn compare_text(a: &str, b: &str) -> (r: Side)
    ensures
        match r {
            Side::Before => text_less(a@, b@),
            Side::Same => a@ == b@,
            Side::After => text_less(b@, a@),
        },
{
    let r = compare_bytes(a.as_bytes(), b.as_bytes());
    proof {
        encode_utf8_decode_utf8(a@);
        encode_utf8_decode_utf8(b@);
    }
    r
}

/// Whether the keys strictly increase.
pub open spec fn ordered<V>(e: Seq<(Seq<char>, V)>) -> bool {
    forall|i: int, j: int|
        #![trigger e[i], e[j]]
        0 <= i < j < e.len() ==> text_less(e[i].0, e[j].0)
}

/// Number of leading entries whose key stands before `k`.
pub open spec fn rank<V>(e: Seq<(Seq<char>, V)>, k: Seq<char>) -> int
    decreases e.len(),
{
    if e.len() > 0 && text_less(e[0].0, k) {
        1 + rank(e.skip(1), k)
    } else {
        0
    }
}

/// Whether `k` is a key of `e`.
pub open spec fn holds<V>(e: Seq<(Seq<char>, V)>, k: Seq<char>) -> bool {
    rank(e, k) < e.len() && e[rank(e, k)].0 == k
}

/// The value that `e` holds for `k`.
pub open spec fn value_at<V>(e: Seq<(Seq<char>, V)>, k: Seq<char>) -> V {
    e[rank(e, k)].1
}

/// The value that `e` holds for `k`, if there is one.
pub open spec fn lookup<V>(e: Seq<(Seq<char>, V)>, k: Seq<char>) -> Option<V> {
    if holds(e, k) {
        Some(value_at(e, k))
    } else {
        None
    }
}

/// `e` with `v` for `k`: the value is replaced where the key is present, and
/// the entry is added at its place where it is not.
pub open spec fn put<V>(e: Seq<(Seq<char>, V)>, k: Seq<char>, v: V) -> Seq<(Seq<char>, V)> {
    if holds(e, k) {
        e.update(rank(e, k), (k, v))
    } else {
        e.insert(rank(e, k), (k, v))
    }
}

/// `e` without the entry for `k`.
pub open spec fn without<V>(e: Seq<(Seq<char>, V)>, k: Seq<char>) -> Seq<(Seq<char>, V)> {
    if holds(e, k) {
        e.remove(rank(e, k))
    } else {
        e
    }
}

/// The rank splits the entries by their keys.
pub proof fn lemma_rank<V>(e: Seq<(Seq<char>, V)>, k: Seq<char>)
    requires
        ordered(e),
    ensures
        0 <= rank(e, k) <= e.len(),
        forall|i: int| 0 <= i < rank(e, k) ==> text_less((#[trigger] e[i]).0, k),
        forall|i: int| rank(e, k) <= i < e.len() ==> !text_less((#[trigger] e[i]).0, k),
        forall|i: int| rank(e, k) < i < e.len() ==> text_less(k, (#[trigger] e[i]).0),
        !holds(e, k) && rank(e, k) < e.len() ==> text_less(k, e[rank(e, k)].0),
        holds(e, k) <==> exists|i: int| 0 <= i < e.len() && (#[trigger] e[i]).0 == k,
    decreases e.len(),
{
    let r = rank(e, k);
    if e.len() > 0 && text_less(e[0].0, k) {
        let t = e.skip(1);
        assert(forall|i: int| 0 <= i < t.len() ==> t[i] == #[trigger] e[i + 1]);
        lemma_rank(t, k);
        assert forall|i: int| 0 <= i < r implies text_less((#[trigger] e[i]).0, k) by {
            if i > 0 {
                assert(t[i - 1] == e[i]);
            }
        }
        assert forall|i: int| r <= i < e.len() implies !text_less((#[trigger] e[i]).0, k) by {
            assert(t[i - 1] == e[i]);
        }
    } else {
        assert forall|i: int| r <= i < e.len() implies !text_less((#[trigger] e[i]).0, k) by {
            if i > 0 {
                assert(text_less(e[0].0, e[i].0));
                lemma_text_less_order(e[0].0, e[i].0, k);
            }
        }
    }
    assert forall|i: int| r < i < e.len() implies text_less(k, (#[trigger] e[i]).0) by {
        assert(text_less(e[r].0, e[i].0));
        lemma_text_less_order(e[r].0, k, e[i].0);
        lemma_text_less_order(k, e[r].0, e[i].0);
    }
    if !holds(e, k) && r < e.len() {
        lemma_text_less_order(e[r].0, k, k);
    }
    if exists|i: int| 0 <= i < e.len() && (#[trigger] e[i]).0 == k {
        let i = choose|i: int| 0 <= i < e.len() && (#[trigger] e[i]).0 == k;
        lemma_text_less_order(k, k, k);
        assert(i == r);
    }
}

/// Rank is fixed by what it separates.
pub proof fn lemma_rank_unique<V>(e: Seq<(Seq<char>, V)>, k: Seq<char>, r: int)
    requires
        0 <= r <= e.len(),
        forall|i: int| 0 <= i < r ==> text_less((#[trigger] e[i]).0, k),
        r < e.len() ==> !text_less(e[r].0, k),
    ensures
        rank(e, k) == r,
    decreases r,
{
    if r > 0 {
        assert(text_less(e[0].0, k));
        let t = e.skip(1);
        assert(forall|i: int| 0 <= i < t.len() ==> t[i] == #[trigger] e[i + 1]);
        lemma_rank_unique(t, k, r - 1);
    }
}

/// After a `put`, the key has the value, every other key keeps what it had,
/// and the entries are still in order.
pub proof fn lemma_put<V>(e: Seq<(Seq<char>, V)>, k: Seq<char>, v: V)
    requires
        ordered(e),
    ensures
        ordered(put(e, k, v)),
        lookup(put(e, k, v), k) == Some(v),
        forall|o: Seq<char>| o != k ==> #[trigger] lookup(put(e, k, v), o) == lookup(e, o),
{
    let p = put(e, k, v);
    let r = rank(e, k);
    lemma_rank(e, k);
    assert forall|i: int, j: int| #![trigger p[i], p[j]] 0 <= i < j < p.len() implies text_less(
        p[i].0,
        p[j].0,
    ) by {
        if holds(e, k) {
            assert(p[i].0 == e[i].0 && p[j].0 == e[j].0);
        } else {
            let a = if i < r { e[i] } else { e[i - 1] };
            let b = if j < r { e[j] } else { e[j - 1] };
            if i != r && j != r {
                assert(p[i] == a && p[j] == b);
            }
        }
    }
    lemma_rank(p, k);
    assert(p[r] == (k, v));
    lemma_text_less_order(k, k, k);
    lemma_rank_unique(p, k, r);
    assert forall|o: Seq<char>| o != k implies #[trigger] lookup(p, o) == lookup(e, o) by {
        lemma_rank(p, o);
        lemma_rank(e, o);
        if holds(e, o) {
            let i = rank(e, o);
            let j = if holds(e, k) || i < r { i } else { i + 1 };
            assert(p[j] == e[i]);
            assert(p[j].0 == o);
            lemma_text_less_order(o, o, o);
            assert(j == rank(p, o));
        } else if holds(p, o) {
            let j = rank(p, o);
            let i = if holds(e, k) || j < r { j } else { j - 1 };
            assert(p[j] == e[i]);
            assert(e[i].0 == o);
        }
    }
}

/// After `without`, the key is gone and every other key keeps its value.
pub proof fn lemma_without<V>(e: Seq<(Seq<char>, V)>, k: Seq<char>)
    requires
        ordered(e),
    ensures
        ordered(without(e, k)),
        !holds(without(e, k), k),
        forall|o: Seq<char>| o != k ==> #[trigger] lookup(without(e, k), o) == lookup(e, o),
{
    let p = without(e, k);
    let r = rank(e, k);
    lemma_rank(e, k);
    if holds(e, k) {
        assert forall|i: int, j: int| #![trigger p[i], p[j]] 0 <= i < j < p.len() implies text_less(
            p[i].0,
            p[j].0,
        ) by {
            let a = if i < r { i } else { i + 1 };
            let b = if j < r { j } else { j + 1 };
            assert(p[i] == e[a] && p[j] == e[b]);
        }
    }
    lemma_rank(p, k);
    if holds(p, k) {
        let j = rank(p, k);
        let i = if j < r { j } else { j + 1 };
        assert(p[j] == e[i]);
        lemma_text_less_order(k, k, k);
        assert(false);
    }
    assert forall|o: Seq<char>| o != k implies #[trigger] lookup(p, o) == lookup(e, o) by {
        lemma_rank(p, o);
        lemma_rank(e, o);
        lemma_text_less_order(o, o, o);
        if holds(e, o) {
            let i = rank(e, o);
            let j = if !holds(e, k) || i < r { i } else { i - 1 };
            assert(p[j] == e[i]);
            assert(p[j].0 == o);
        } else if holds(p, o) {
            let j = rank(p, o);
            let i = if !holds(e, k) || j < r { j } else { j + 1 };
            assert(p[j] == e[i]);
            assert(e[i].0 == o);
        }
    }
}

/// Rank and membership look at the keys alone.
pub proof fn lemma_same_keys<A, B>(a: Seq<(Seq<char>, A)>, b: Seq<(Seq<char>, B)>, k: Seq<char>)
    requires
        a.len() == b.len(),
        forall|i: int| 0 <= i < a.len() ==> (#[trigger] a[i]).0 == b[i].0,
    ensures
        0 <= rank(a, k) <= a.len(),
        rank(a, k) == rank(b, k),
        holds(a, k) == holds(b, k),
    decreases a.len(),
{
    if a.len() > 0 && text_less(a[0].0, k) {
        assert forall|i: int| 0 <= i < a.skip(1).len() implies (#[trigger] a.skip(1)[i]).0
            == b.skip(1)[i].0 by {
            assert(a.skip(1)[i] == a[i + 1]);
        }
        lemma_same_keys(a.skip(1), b.skip(1), k);
    }
    if 0 <= rank(a, k) < a.len() {
        assert(a[rank(a, k)].0 == b[rank(a, k)].0);
    }
}

/// The entries with `f` applied to each value.
pub open spec fn mapped<A, B>(e: Seq<(Seq<char>, A)>, f: spec_fn(A) -> B) -> Seq<(Seq<char>, B)> {
    e.map_values(|p: (Seq<char>, A)| (p.0, f(p.1)))
}

/// Mapping the values commutes with `put` and with `lookup`.
pub proof fn lemma_mapped<A, B>(e: Seq<(Seq<char>, A)>, f: spec_fn(A) -> B, k: Seq<char>, v: A)
    ensures
        mapped(put(e, k, v), f) == put(mapped(e, f), k, f(v)),
        lookup(mapped(e, f), k) == (match lookup(e, k) {
            Some(x) => Some(f(x)),
            None => None,
        }),
{
    lemma_same_keys(e, mapped(e, f), k);
    assert(mapped(put(e, k, v), f) =~= put(mapped(e, f), k, f(v)));
}

/// Taking a key out before putting it in changes nothing.
pub proof fn lemma_put_without<V>(e: Seq<(Seq<char>, V)>, k: Seq<char>, v: V)
    requires
        ordered(e),
    ensures
        put(without(e, k), k, v) == put(e, k, v),
{
    lemma_rank(e, k);
    lemma_without(e, k);
    let w = without(e, k);
    let r = rank(e, k);
    if holds(e, k) {
        assert forall|i: int| 0 <= i < r implies text_less((#[trigger] w[i]).0, k) by {
            assert(w[i] == e[i]);
        }
        if r < w.len() {
            assert(w[r] == e[r + 1]);
            lemma_text_less_order(k, w[r].0, k);
        }
        lemma_rank_unique(w, k, r);
        assert(put(w, k, v) =~= put(e, k, v));
    }
}

/// The entries with their keys as text.
pub open spec fn entries_view<V>(e: Seq<(String, V)>) -> Seq<(Seq<char>, V)> {
    e.map_values(|p: (String, V)| (p.0@, p.1))
}

/// What holds of every value and of a new one still holds after the new one
/// was put in.
pub proof fn lemma_put_all<V>(
    before: Seq<(String, V)>,
    after: Seq<(String, V)>,
    key: Seq<char>,
    v: V,
    p: spec_fn(V) -> bool,
)
    requires
        entries_view(after) == put(entries_view(before), key, v),
        p(v),
        forall|k: int| 0 <= k < before.len() ==> p((#[trigger] before[k]).1),
    ensures
        forall|k: int| 0 <= k < after.len() ==> p((#[trigger] after[k]).1),
{
    let e = entries_view(before);
    let at = rank(e, key);
    lemma_same_keys(e, e, key);
    assert(e.len() == before.len());
    assert(entries_view(after).len() == after.len());
    assert forall|k: int| 0 <= k < after.len() implies p((#[trigger] after[k]).1) by {
        assert(entries_view(after)[k].1 == after[k].1);
        if holds(e, key) || k < at {
            if k != at {
                assert(e[k].1 == before[k].1);
            }
        } else if k > at {
            assert(e[k - 1].1 == before[k - 1].1);
        }
    }
}

/// Finds the place of `key` among ordered entries and whether it is there.
fn place<V>(entries: &[(String, V)], key: &str) -> (r: (usize, bool))
    requires
        ordered(entries_view(entries@)),
    ensures
        r.0 == rank(entries_view(entries@), key@),
        r.0 <= entries.len(),
        r.1 == holds(entries_view(entries@), key@),
{
    let ghost e = entries_view(entries@);
    let mut i: usize = 0;
    while i < entries.len()
        invariant
            e == entries_view(entries@),
            ordered(e),
            i <= entries.len(),
            forall|k: int| 0 <= k < i ==> text_less((#[trigger] e[k]).0, key@),
        decreases entries.len() - i,
    {
        let side = compare_text(entries[i].0.as_str(), key);
        proof {
            lemma_rank(e, key@);
            lemma_text_less_order(key@, e[i as int].0, key@);
            if side != Side::Before {
                lemma_rank_unique(e, key@, i as int);
            }
        }
        match side {
            Side::Before => {},
            Side::Same => {
                return (i, true);
            },
            Side::After => {
                return (i, false);
            },
        }
        i += 1;
    }
    proof {
        lemma_rank_unique(e, key@, i as int);
    }
    (i, false)
}

/// Looks `key` up among ordered entries.
pub fn get_entry<'a, V>(entries: &'a [(String, V)], key: &str) -> (r: Option<&'a V>)
    requires
        ordered(entries_view(entries@)),
    ensures
        match r {
            Some(v) => lookup(entries_view(entries@), key@) == Some(*v),
            None => lookup(entries_view(entries@), key@) is None,
        },
{
    let (i, there) = place(entries, key);
    if there {
        Some(&entries[i].1)
    } else {
        None
    }
}

/// A map from strings to values, kept in key order.
#[derive(Debug)]
pub struct SortedMap<V> {
    pub entries: Vec<(String, V)>,
}

impl<V> SortedMap<V> {
    /// The entries with their keys as text, in order.
    pub open spec fn view(&self) -> Seq<(Seq<char>, V)> {
        entries_view(self.entries@)
    }

    /// The keys strictly increase.
    pub open spec fn wf(&self) -> bool {
        ordered(self.view())
    }

    /// An empty map.
    pub fn new() -> (r: Self)
        ensures
            r.wf(),
            r@ == Seq::<(Seq<char>, V)>::empty(),
    {
        let r = SortedMap { entries: Vec::new() };
        assert(r@ =~= Seq::<(Seq<char>, V)>::empty());
        r
    }

    /// Number of entries.
    pub fn len(&self) -> (r: usize)
        ensures
            r == self@.len(),
    {
        self.entries.len()
    }

    /// Tests whether the map has no entries.
    pub fn is_empty(&self) -> (r: bool)
        ensures
            r == (self@.len() == 0),
    {
        self.entries.len() == 0
    }

    /// The value stored for `key`.
    pub fn get(&self, key: &str) -> (r: Option<&V>)
        requires
            self.wf(),
        ensures
            match r {
                Some(v) => lookup(self@, key@) == Some(*v),
                None => lookup(self@, key@) is None,
            },
    {
        get_entry(self.entries.as_slice(), key)
    }

    /// Whether `key` is present.
    pub fn contains_key(&self, key: &str) -> (r: bool)
        requires
            self.wf(),
        ensures
            r == holds(self@, key@),
    {
        place(self.entries.as_slice(), key).1
    }

    /// Stores `value` for `key` and returns what was stored before.
    pub fn insert(&mut self, key: String, value: V) -> (r: Option<V>)
        requires
            old(self).wf(),
        ensures
            final(self).wf(),
            final(self)@ == put(old(self)@, key@, value),
            r == lookup(old(self)@, key@),
    {
        let (i, there) = place(self.entries.as_slice(), key.as_str());
        proof {
            lemma_put(self@, key@, value);
            lemma_rank(self@, key@);
        }
        let ghost before = self.entries@;
        if there {
            let mut pair = (key, value);
            self.entries.set_and_swap(i, &mut pair);
            assert(self@ =~= put(old(self)@, key@, value));
            Some(pair.1)
        } else {
            self.entries.insert(i, (key, value));
            assert(self@ =~= put(old(self)@, key@, value));
            None
        }
    }

    /// Drops the entry for `key` and returns its value.
    pub fn remove(&mut self, key: &str) -> (r: Option<V>)
        requires
            old(self).wf(),
        ensures
            final(self).wf(),
            final(self)@ == without(old(self)@, key@),
            r == lookup(old(self)@, key@),
    {
        let (i, there) = place(self.entries.as_slice(), key);
        proof {
            lemma_without(self@, key@);
            lemma_rank(self@, key@);
        }
        if there {
            let pair = self.entries.remove(i);
            assert(self@ =~= without(old(self)@, key@));
            Some(pair.1)
        } else {
            None
        }
    }
}

/// Whether a list of texts strictly increases.
pub open spec fn increasing(v: Seq<Seq<char>>) -> bool {
    forall|i: int, j: int|
        #![trigger v[i], v[j]]
        0 <= i < j < v.len() ==> text_less(v[i], v[j])
}

/// Whether `k` is the first text, in order, that `a` holds and `b` does not.
pub open spec fn least_missing(a: Set<Seq<char>>, b: Set<Seq<char>>, k: Seq<char>) -> bool {
    &&& a.contains(k)
    &&& !b.contains(k)
    &&& forall|o: Seq<char>| #[trigger] a.contains(o) && !b.contains(o) && o != k ==> text_less(k, o)
}

/// A set of texts in order.
#[derive(Debug)]
pub struct SortedSet {
    pub map: SortedMap<()>,
}

impl SortedSet {
    pub open spec fn view(&self) -> Set<Seq<char>> {
        Set::new(|k: Seq<char>| holds(self.map@, k))
    }

    /// The texts strictly increase.
    pub open spec fn wf(&self) -> bool {
        self.map.wf()
    }

    /// An empty set.
    pub fn new() -> (r: Self)
        ensures
            r.wf(),
            r@ == Set::<Seq<char>>::empty(),
    {
        let r = SortedSet { map: SortedMap::new() };
        assert(r@ =~= Set::<Seq<char>>::empty());
        r
    }

    /// Adds a text.
    pub fn insert(&mut self, key: String)
        requires
            old(self).wf(),
        ensures
            final(self).wf(),
            final(self)@ == old(self)@.insert(key@),
    {
        let ghost before = self.map@;
        let ghost added = key@;
        proof {
            lemma_put(before, added, ());
        }
        self.map.insert(key, ());
        assert forall|o: Seq<char>| holds(self.map@, o) == (o == added || holds(before, o)) by {
            if o != added {
                assert(lookup(put(before, added, ()), o) == lookup(before, o));
            } else {
                assert(lookup(put(before, added, ()), o) == Some(()));
            }
        }
        assert(self@ =~= old(self)@.insert(added));
    }

    /// Tests whether a text is in the set.
    pub fn contains(&self, key: &str) -> (r: bool)
        requires
            self.wf(),
        ensures
            r == self@.contains(key@),
    {
        self.map.contains_key(key)
    }

    /// Lists the texts in order.
    pub fn to_vec(&self) -> (r: Vec<String>)
        requires
            self.wf(),
        ensures
            increasing(texts(r@)),
            forall|k: Seq<char>| texts(r@).contains(k) <==> #[trigger] self@.contains(k),
    {
        let entries = &self.map.entries;
        let mut out: Vec<String> = Vec::new();
        let mut i: usize = 0;
        while i < entries.len()
            invariant
                i <= entries.len(),
                entries@ == self.map.entries@,
                out@.len() == i,
                forall|k: int| 0 <= k < i ==> (#[trigger] out@[k])@ == entries@[k].0@,
            decreases entries.len() - i,
        {
            out.push(entries[i].0.clone());
            i += 1;
        }
        proof {
            let e = self.map@;
            assert forall|k: int| 0 <= k < out@.len() implies #[trigger] texts(out@)[k] == e[k].0 by {
                assert(out@[k]@ == entries@[k].0@);
            }
            assert forall|a: int, b: int|
                #![trigger texts(out@)[a], texts(out@)[b]]
                0 <= a < b < texts(out@).len() implies text_less(texts(out@)[a], texts(out@)[b]) by {
                assert(text_less(e[a].0, e[b].0));
            }
            assert forall|k: Seq<char>| texts(out@).contains(k) <==> #[trigger] self@.contains(k) by {
                lemma_rank(e, k);
                if self@.contains(k) {
                    assert(texts(out@)[rank(e, k)] == k);
                }
                if texts(out@).contains(k) {
                    let at = texts(out@).index_of(k);
                    assert(e[at].0 == k);
                }
            }
        }
        out
    }

    /// Finds the first text that this set holds and another does not.
    pub fn first_missing(&self, other: &SortedSet) -> (r: Option<&str>)
        requires
            self.wf(),
            other.wf(),
        ensures
            match r {
                Some(k) => least_missing(self@, other@, k@),
                None => self@.subset_of(other@),
            },
    {
        let entries = &self.map.entries;
        let ghost e = self.map@;
        let mut i: usize = 0;
        while i < entries.len()
            invariant
                i <= entries.len(),
                self.wf(),
                other.wf(),
                entries@ == self.map.entries@,
                e == self.map@,
                forall|k: int| 0 <= k < i ==> other@.contains((#[trigger] e[k]).0),
            decreases entries.len() - i,
        {
            if !other.contains(entries[i].0.as_str()) {
                proof {
                    let k = e[i as int].0;
                    lemma_rank(e, k);
                    assert(e[i as int].0 == k);
                    assert forall|o: Seq<char>|
                        #[trigger] self@.contains(o) && !other@.contains(o) && o
                            != k implies text_less(k, o) by {
                        lemma_rank(e, o);
                        let at = rank(e, o);
                        assert(e[at].0 == o);
                        assert(at > i);
                    }
                }
                return Some(entries[i].0.as_str());
            }
            i += 1;
        }
        assert forall|k: Seq<char>| self@.contains(k) implies other@.contains(k) by {
            lemma_rank(e, k);
            assert(e[rank(e, k)].0 == k);
        }
        None
    }
}

/// Byte strings are ordered by the first byte in which they differ, whatever
/// follows it, and a byte string stands before every longer one that it begins.
pub proof fn law_bytes_are_ordered_by_first_difference(
    front: Seq<u8>,
    x: u8,
    y: u8,
    a: Seq<u8>,
    b: Seq<u8>,
)
    requires
        x < y,
    ensures
        bytes_less(front + seq![x] + a, front + seq![y] + b),
        !bytes_less(front + seq![y] + b, front + seq![x] + a),
        bytes_less(front, front + seq![x] + a),
    decreases front.len(),
{
    let p = front + seq![x] + a;
    let q = front + seq![y] + b;
    if front.len() > 0 {
        let rest = front.skip(1);
        law_bytes_are_ordered_by_first_difference(rest, x, y, a, b);
        assert(p.skip(1) =~= rest + seq![x] + a);
        assert(q.skip(1) =~= rest + seq![y] + b);
        assert(p[0] == front[0] && q[0] == front[0]);
    } else {
        assert(p[0] == x && q[0] == y);
    }
}

/// Texts of ASCII characters in front of a difference are ordered by the
/// characters in which they differ first, and a text stands before every
/// longer one that it begins.
pub proof fn law_texts_are_ordered_by_first_difference(
    front: Seq<char>,
    x: char,
    y: char,
    a: Seq<char>,
    b: Seq<char>,
)
    requires
        (x as u32) < (y as u32) < 0x80,
    ensures
        text_less(front + seq![x] + a, front + seq![y] + b),
        !text_less(front + seq![y] + b, front + seq![x] + a),
        text_less(front, front + seq![x] + a),
{
    lemma_encode_concat(front, seq![x]);
    lemma_encode_concat(front, seq![y]);
    lemma_encode_concat(front + seq![x], a);
    lemma_encode_concat(front + seq![y], b);
    lemma_encode_ascii(x);
    lemma_encode_ascii(y);
    law_bytes_are_ordered_by_first_difference(
        encode_utf8(front),
        x as u8,
        y as u8,
        encode_utf8(a),
        encode_utf8(b),
    );
}

proof fn lemma_encode_ascii(c: char)
    requires
        (c as u32) < 0x80,
    ensures
        encode_utf8(seq![c]) == seq![c as u8],
{
    let one = seq![c];
    reveal_with_fuel(encode_utf8, 2);
    assert(one.drop_first() =~= Seq::<char>::empty());
    assert(encode_utf8(one) =~= encode_scalar(c as u32));
    let v = c as u32;
    assert(v <= 0x7F ==> (v & 0x7F) as u8 == v) by (bit_vector);
    assert(encode_scalar(v) =~= seq![c as u8]);
}

/// What is looked up under a key is what an entry holds under it, and nothing
/// is found only where no entry has the key.
pub proof fn law_lookup_finds_entries<V>(e: Seq<(Seq<char>, V)>, k: Seq<char>, i: int)
    requires
        ordered(e),
    ensures
        0 <= i < e.len() ==> lookup(e, e[i].0) == Some(e[i].1),
        lookup(e, k) matches Some(v) ==> e.contains((k, v)),
        lookup(e, k) is None ==> forall|j: int| 0 <= j < e.len() ==> (#[trigger] e[j]).0 != k,
{
    lemma_rank(e, k);
    if 0 <= i < e.len() {
        let own = e[i].0;
        lemma_rank(e, own);
        lemma_text_less_order(own, own, own);
        assert(holds(e, own));
        assert(rank(e, own) == i);
    }
    if holds(e, k) {
        assert(e[rank(e, k)] == (k, value_at(e, k)));
    }
}

} // verus!
