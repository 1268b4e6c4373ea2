//! Heap dumps: what a virtual machine wrote about its objects, summed up.
use crate::json::{
    find_member, member, member_from, member_models, member_signed, member_text,
    member_unsigned, models, parse_json, parsed, text_of, Json, JsonModel,
};
use crate::sorted::{holds, lemma_put, lookup, SortedMap};
use crate::text::{chars_of, parse_signed, same_text, signed_of, utf8_text};
use vstd::prelude::*;
use vstd::string::*;
use vstd::utf8::{decode_utf8, valid_utf8};

verus! {

/// Represents a heap dump of a Luau memory state.
#[derive(Debug)]
pub struct HeapDump {
    pub data: Json,
    pub buf: String,
}

/// The tree of the bytes of a dump, if they are a JSON text.
pub open spec fn dump_of(bytes: Seq<u8>) -> Option<JsonModel> {
    if valid_utf8(bytes) {
        match parsed(decode_utf8(bytes)) {
            Ok(j) => Some(j),
            Err(_) => None,
        }
    } else {
        None
    }
}

/// A member of a member.
pub open spec fn inner(j: JsonModel, outer: Seq<char>, key: Seq<char>) -> Option<JsonModel> {
    match member(j, outer) {
        Some(v) => member(v, key),
        None => None,
    }
}

/// The members of an object in a dump.
pub open spec fn object_members(j: Option<JsonModel>) -> Option<Seq<(Seq<char>, JsonModel)>> {
    match j {
        Some(JsonModel::Object(m)) => Some(m),
        _ => None,
    }
}

/// The objects of a dump by their addresses.
pub open spec fn objects_of(j: JsonModel) -> Option<Seq<(Seq<char>, JsonModel)>> {
    object_members(member(j, "objects"@))
}

/// The categories of a dump by their numbers.
pub open spec fn categories_of(j: JsonModel) -> Option<Seq<(Seq<char>, JsonModel)>> {
    object_members(inner(j, "stats"@, "categories"@))
}

/// The number of the first category of a given name at or after `i`.
pub open spec fn category_from(m: Seq<(Seq<char>, JsonModel)>, name: Seq<char>, i: int) -> Option<
    int,
>
    decreases m.len() - i,
{
    if i < 0 || i >= m.len() {
        None
    } else if member_text(m[i].1, "name"@) == Some(name) {
        signed_of(m[i].0)
    } else {
        category_from(m, name, i + 1)
    }
}

/// What a look at one object gives.
pub enum Look {
    /// The object lacks what is needed of it.
    Broken,
    /// The object does not count.
    Passed,
    /// The object counts under a name with its size.
    Counted(Seq<char>, u64),
}

/// Whether an object is of a category; `None` where it has none.
pub open spec fn in_category(obj: JsonModel, category: Option<int>) -> Option<bool> {
    match category {
        None => Some(true),
        Some(id) => match member_signed(obj, "cat"@) {
            Some(cat) => Some(cat == id),
            None => None,
        },
    }
}

/// An object by its type.
pub open spec fn look_by_type(obj: JsonModel, category: Option<int>) -> Look {
    match in_category(obj, category) {
        None => Look::Broken,
        Some(false) => Look::Passed,
        Some(true) => match (member_text(obj, "type"@), member_unsigned(obj, "size"@)) {
            (Some(ty), Some(size)) => Look::Counted(ty, size),
            _ => Look::Broken,
        },
    }
}

/// The text of a string object that stands at an address.
pub open spec fn string_at(objects: Seq<(Seq<char>, JsonModel)>, address: Seq<char>) -> Option<
    Seq<char>,
> {
    match member_from(objects, address, 0) {
        Some(obj) => if member_text(obj, "type"@) == Some("string"@) {
            member_text(obj, "data"@)
        } else {
            None
        },
        None => None,
    }
}

/// The text that a dumped table holds for a key, looking from the pair at `i`
/// on. A pair whose key or value is no address is passed over; an address
/// without an object ends the search, and so does a value that is no string.
pub open spec fn key_from(
    objects: Seq<(Seq<char>, JsonModel)>,
    pairs: Seq<JsonModel>,
    key: Seq<char>,
    i: int,
) -> Option<Seq<char>>
    decreases pairs.len() - i,
{
    if i < 0 || i + 1 >= pairs.len() {
        None
    } else {
        match (text_of(pairs[i]), text_of(pairs[i + 1])) {
            (Some(key_at), Some(value_at)) => if member_from(objects, key_at, 0) is None {
                None
            } else if string_at(objects, key_at) == Some(key) {
                string_at(objects, value_at)
            } else {
                key_from(objects, pairs, key, i + 2)
            },
            _ => key_from(objects, pairs, key, i + 2),
        }
    }
}

/// The text that a dumped table holds for a key.
pub open spec fn table_key(
    objects: Seq<(Seq<char>, JsonModel)>,
    table: JsonModel,
    key: Seq<char>,
) -> Option<Seq<char>> {
    match member(table, "pairs"@) {
        Some(JsonModel::Array(pairs)) => key_from(objects, pairs, key, 0),
        _ => None,
    }
}

/// The type of a userdata: what its metatable holds for `__type`.
pub open spec fn userdata_type(objects: Seq<(Seq<char>, JsonModel)>, obj: JsonModel) -> Seq<char> {
    match member_text(obj, "metatable"@) {
        Some(address) => match member_from(objects, address, 0) {
            Some(table) => match table_key(objects, table, "__type"@) {
                Some(t) => t,
                None => "unknown"@,
            },
            None => "unknown"@,
        },
        None => "unknown"@,
    }
}

/// An object by its userdata type.
pub open spec fn look_by_userdata(
    objects: Seq<(Seq<char>, JsonModel)>,
    obj: JsonModel,
    category: Option<int>,
) -> Look {
    if member_text(obj, "type"@) != Some("userdata"@) {
        Look::Passed
    } else {
        match in_category(obj, category) {
            None => Look::Broken,
            Some(false) => Look::Passed,
            Some(true) => match member_unsigned(obj, "size"@) {
                Some(size) => Look::Counted(userdata_type(objects, obj), size),
                None => Look::Broken,
            },
        }
    }
}

/// Looks at all objects by their types.
pub open spec fn looks_by_type(
    objects: Seq<(Seq<char>, JsonModel)>,
    category: Option<int>,
) -> Seq<Look> {
    objects.map_values(|e: (Seq<char>, JsonModel)| look_by_type(e.1, category))
}

/// Looks at all objects by their userdata types.
pub open spec fn looks_by_userdata(
    objects: Seq<(Seq<char>, JsonModel)>,
    category: Option<int>,
) -> Seq<Look> {
    objects.map_values(|e: (Seq<char>, JsonModel)| look_by_userdata(objects, e.1, category))
}

/// How many of the first `n` objects count under a name.
pub open spec fn count_of(looks: Seq<Look>, name: Seq<char>, n: int) -> nat
    decreases n,
{
    if n <= 0 {
        0
    } else {
        count_of(looks, name, n - 1) + (match looks[n - 1] {
            Look::Counted(own, _) if own == name => 1nat,
            _ => 0nat,
        })
    }
}

/// The size of those of the first `n` objects that count under a name.
pub open spec fn total_of(looks: Seq<Look>, name: Seq<char>, n: int) -> nat
    decreases n,
{
    if n <= 0 {
        0
    } else {
        total_of(looks, name, n - 1) + (match looks[n - 1] {
            Look::Counted(own, size) if own == name => size as nat,
            _ => 0nat,
        })
    }
}

/// Whether some object is broken.
pub open spec fn any_broken(looks: Seq<Look>) -> bool {
    exists|i: int| 0 <= i < looks.len() && #[trigger] looks[i] is Broken
}

/// The number and the size of the objects that count under a name, unless
/// none does.
pub open spec fn sums_up_to(looks: Seq<Look>, name: Seq<char>, n: int) -> Option<(usize, u64)> {
    if count_of(looks, name, n) == 0 {
        None
    } else {
        Some((count_of(looks, name, n) as usize, total_of(looks, name, n) as u64))
    }
}

/// What is reported of a name: nothing of any name where the dump lacks what
/// is needed or an object is broken.
pub open spec fn sums(looks: Option<Seq<Look>>, name: Seq<char>) -> Option<(usize, u64)> {
    match looks {
        Some(list) => if any_broken(list) {
            None
        } else {
            sums_up_to(list, name, list.len() as int)
        },
        None => None,
    }
}

/// Whether none of the first `n` objects is broken.
pub open spec fn unbroken(looks: Seq<Look>, n: int) -> bool {
    forall|k: int| 0 <= k < n ==> !(#[trigger] looks[k] is Broken)
}

/// Whether the totals of all names fit a 64-bit integer, as far as objects are
/// looked at: up to the first broken one.
pub open spec fn sums_fit(looks: Option<Seq<Look>>) -> bool {
    match looks {
        Some(list) => forall|name: Seq<char>, n: int|
            0 <= n <= list.len() && unbroken(list, n) ==> #[trigger] total_of(list, name, n)
                <= u64::MAX,
        None => true,
    }
}

/// What counts under one name is not more than there are objects, and where
/// nothing counts there is no size.
proof fn lemma_count(looks: Seq<Look>, name: Seq<char>, n: int)
    requires
        0 <= n,
    ensures
        count_of(looks, name, n) <= n,
        count_of(looks, name, n) == 0 ==> total_of(looks, name, n) == 0,
    decreases n,
{
    if n > 0 {
        lemma_count(looks, name, n - 1);
    }
}

/// Totals of more objects are not smaller.
proof fn lemma_total(looks: Seq<Look>, name: Seq<char>, n: int, all: int)
    requires
        n <= all,
    ensures
        total_of(looks, name, n) <= total_of(looks, name, all),
    decreases all,
{
    if n < all && all > 0 {
        lemma_total(looks, name, n, all - 1);
    }
}

/// The totals fit where those of the first `n` objects do and nothing behind
/// them is looked at.
proof fn lemma_sums_fit(looks: Seq<Look>, n: int)
    requires
        0 <= n <= looks.len(),
        n == looks.len() || looks[n] is Broken,
        forall|name: Seq<char>| #[trigger] total_of(looks, name, n) <= u64::MAX,
    ensures
        sums_fit(Some(looks)),
{
    assert forall|name: Seq<char>, m: int|
        0 <= m <= looks.len() && unbroken(looks, m) implies #[trigger] total_of(looks, name, m)
        <= u64::MAX by {
        if m > n {
            assert(looks[n] is Broken);
        }
        lemma_total(looks, name, m, n);
        assert(total_of(looks, name, n) <= u64::MAX);
    }
}

/// One object, looked at.
enum Finding<'a> {
    Broken,
    Passed,
    Counted(&'a str, u64),
}

impl Finding<'_> {
    spec fn view(&self) -> Look {
        match self {
            Finding::Broken => Look::Broken,
            Finding::Passed => Look::Passed,
            Finding::Counted(name, size) => Look::Counted(name@, *size),
        }
    }
}

/// Updates the sums for a given name.
fn update_size(map: &mut SortedMap<(usize, u64)>, name: &str, size: u64)
    requires
        old(map).wf(),
        match lookup(old(map)@, name@) {
            Some(e) => e.0 < usize::MAX && e.1 + size <= u64::MAX,
            None => true,
        },
    ensures
        final(map).wf(),
        forall|k: Seq<char>|
            #[trigger] lookup(final(map)@, k) == (if k == name@ {
                match lookup(old(map)@, k) {
                    Some(e) => Some(((e.0 + 1) as usize, (e.1 + size) as u64)),
                    None => Some((1usize, size)),
                }
            } else {
                lookup(old(map)@, k)
            }),
{
    let entry = match map.get(name) {
        Some(e) => (e.0 + 1, e.1 + size),
        None => (1, size),
    };
    proof {
        lemma_put(map@, name@, entry);
    }
    map.insert(name.to_owned(), entry);
}

/// What became of a finding.
enum Added {
    Counted,
    Broken,
    Overflow,
}

/// Whether sums are those of the first `n` objects, and fit.
spec fn sums_are(map: Seq<(Seq<char>, (usize, u64))>, looks: Seq<Look>, n: int) -> bool {
    &&& forall|name: Seq<char>| #[trigger] lookup(map, name) == sums_up_to(looks, name, n)
    &&& forall|name: Seq<char>| #[trigger] total_of(looks, name, n) <= u64::MAX
}

/// Adds one finding to the sums of those before it.
fn add_finding(
    map: &mut SortedMap<(usize, u64)>,
    finding: Finding<'_>,
    Ghost(looks): Ghost<Seq<Look>>,
    Ghost(i): Ghost<int>,
) -> (r: Added)
    requires
        old(map).wf(),
        0 <= i < looks.len() <= usize::MAX,
        finding@ == looks[i],
        sums_are(old(map)@, looks, i),
    ensures
        final(map).wf(),
        match r {
            Added::Counted => !(looks[i] is Broken) && sums_are(final(map)@, looks, i + 1),
            Added::Broken => looks[i] is Broken,
            Added::Overflow => !(looks[i] is Broken) && exists|name: Seq<char>|
                #[trigger] total_of(looks, name, i + 1) > u64::MAX,
        },
{
    match finding {
        Finding::Broken => Added::Broken,
        Finding::Passed => {
            assert forall|name: Seq<char>| #[trigger] lookup(map@, name) == sums_up_to(
                looks,
                name,
                i + 1,
            ) by {
                assert(lookup(old(map)@, name) == sums_up_to(looks, name, i));
            }
            assert forall|name: Seq<char>| #[trigger] total_of(looks, name, i + 1) <= u64::MAX by {
                assert(total_of(looks, name, i) <= u64::MAX);
            }
            Added::Counted
        },
        Finding::Counted(name, size) => {
            proof {
                lemma_count(looks, name@, i);
                assert(lookup(map@, name@) == sums_up_to(looks, name@, i));
                assert(total_of(looks, name@, i) <= u64::MAX);
            }
            let so_far: u64 = match map.get(name) {
                Some(e) => e.1,
                None => 0,
            };
            assert(so_far == total_of(looks, name@, i));
            if size > u64::MAX - so_far {
                assert(total_of(looks, name@, i + 1) > u64::MAX);
                return Added::Overflow;
            }
            let ghost before = map@;
            update_size(map, name, size);
            assert forall|k: Seq<char>| #[trigger] total_of(looks, k, i + 1) <= u64::MAX by {
                assert(total_of(looks, k, i) <= u64::MAX);
            }
            assert forall|k: Seq<char>| #[trigger] lookup(map@, k) == sums_up_to(looks, k, i + 1) by {
                assert(lookup(before, k) == sums_up_to(looks, k, i));
                lemma_count(looks, k, i);
                lemma_count(looks, k, i + 1);
                assert(total_of(looks, k, i + 1) <= u64::MAX);
            }
            Added::Counted
        },
    }
}

/// Whether an object is of a category; `None` where it has none.
fn category_test(obj: &Json, category: Option<i64>) -> (r: Option<bool>)
    ensures
        r == in_category(
            obj@,
            match category {
                Some(c) => Some(c as int),
                None => None,
            },
        ),
{
    match category {
        None => Some(true),
        Some(id) => match obj.get_i64("cat") {
            Some(cat) => Some(cat == id),
            None => None,
        },
    }
}

/// Tests whether a member is a given text.
fn member_is(obj: &Json, key: &str, text: &str) -> (r: bool)
    ensures
        r == (member_text(obj@, key@) == Some(text@)),
{
    match obj.get_str(key) {
        Some(s) => same_text(s, text),
        None => false,
    }
}

/// Looks at an object by its type.
fn find_type<'a>(obj: &'a Json, category: Option<i64>) -> (r: Finding<'a>)
    ensures
        r@ == look_by_type(
            obj@,
            match category {
                Some(c) => Some(c as int),
                None => None,
            },
        ),
{
    match category_test(obj, category) {
        None => {
            return Finding::Broken;
        },
        Some(true) => {},
        Some(false) => {
            return Finding::Passed;
        },
    }
    match (obj.get_str("type"), obj.get_u64("size")) {
        (Some(ty), Some(size)) => Finding::Counted(ty, size),
        _ => Finding::Broken,
    }
}

/// Finds the text of a string object that stands at an address.
fn find_string<'a>(objects: &'a Vec<(String, Json)>, address: &str) -> (r: Option<&'a str>)
    ensures
        match r {
            Some(s) => string_at(member_models(objects@), address@) == Some(s@),
            None => string_at(member_models(objects@), address@) is None,
        },
{
    match find_member(objects.as_slice(), address) {
        Some(obj) => if member_is(obj, "type", "string") {
            obj.get_str("data")
        } else {
            None
        },
        None => None,
    }
}

/// Retrieves the text associated with a given `key` from the dump of a table.
fn get_key<'a>(objects: &'a Vec<(String, Json)>, table: &Json, key: &str) -> (r: Option<&'a str>)
    ensures
        match r {
            Some(s) => table_key(member_models(objects@), table@, key@) == Some(s@),
            None => table_key(member_models(objects@), table@, key@) is None,
        },
{
    let pairs = match table.get("pairs") {
        Some(found) => match found.as_array() {
            Some(pairs) => pairs,
            None => {
                return None;
            },
        },
        None => {
            return None;
        },
    };
    let ghost m = member_models(objects@);
    let ghost p = models(pairs@);
    let total: usize = pairs.len();
    let mut i: usize = 0;
    while i < total && total - i >= 2
        invariant
            i <= total,
            total == pairs@.len(),
            m == member_models(objects@),
            p == models(pairs@),
            member(table@, "pairs"@) == Some(JsonModel::Array(p)),
            key_from(m, p, key@, i as int) == key_from(m, p, key@, 0),
        decreases total - i,
    {
        match (pairs[i].as_str(), pairs[i + 1].as_str()) {
            (Some(key_at), Some(value_at)) => {
                if find_member(objects.as_slice(), key_at).is_none() {
                    return None;
                }
                match find_string(objects, key_at) {
                    Some(s) => {
                        if same_text(s, key) {
                            return find_string(objects, value_at);
                        }
                    },
                    None => {},
                }
            },
            _ => {},
        }
        i += 2;
    }
    None
}

/// Finds the type of a userdata.
fn find_userdata_type<'a>(objects: &'a Vec<(String, Json)>, obj: &Json) -> (r: &'a str)
    ensures
        r@ == userdata_type(member_models(objects@), obj@),
{
    match obj.get_str("metatable") {
        Some(address) => match find_member(objects.as_slice(), address) {
            Some(table) => match get_key(objects, table, "__type") {
                Some(t) => t,
                None => "unknown",
            },
            None => "unknown",
        },
        None => "unknown",
    }
}

/// Looks at an object by its userdata type.
fn find_userdata<'a>(objects: &'a Vec<(String, Json)>, obj: &Json, category: Option<i64>) -> (r:
    Finding<'a>)
    ensures
        r@ == look_by_userdata(
            member_models(objects@),
            obj@,
            match category {
                Some(c) => Some(c as int),
                None => None,
            },
        ),
{
    if !member_is(obj, "type", "userdata") {
        return Finding::Passed;
    }
    match category_test(obj, category) {
        None => {
            return Finding::Broken;
        },
        Some(true) => {},
        Some(false) => {
            return Finding::Passed;
        },
    }
    match obj.get_u64("size") {
        Some(size) => Finding::Counted(find_userdata_type(objects, obj), size),
        None => Finding::Broken,
    }
}

/// The number of the category that is asked for: `None` where it is asked for
/// and does not exist.
pub open spec fn wanted_category(j: JsonModel, category: Option<Seq<char>>) -> Option<Option<int>> {
    match category {
        None => Some(None),
        Some(name) => match categories_of(j) {
            Some(m) => match category_from(m, name, 0) {
                Some(id) => Some(Some(id)),
                None => None,
            },
            None => None,
        },
    }
}

/// Looks at the objects of a dump by their types.
pub open spec fn dump_by_type(j: JsonModel, category: Option<Seq<char>>) -> Option<Seq<Look>> {
    match (wanted_category(j, category), objects_of(j)) {
        (Some(id), Some(objects)) => Some(looks_by_type(objects, id)),
        _ => None,
    }
}

/// Looks at the objects of a dump by their userdata types.
pub open spec fn dump_by_userdata(j: JsonModel, category: Option<Seq<char>>) -> Option<Seq<Look>> {
    match (wanted_category(j, category), objects_of(j)) {
        (Some(id), Some(objects)) => Some(looks_by_userdata(objects, id)),
        _ => None,
    }
}

/// The size of the last of the first `n` categories of a given name.
pub open spec fn category_size(m: Seq<(Seq<char>, JsonModel)>, name: Seq<char>, n: int) -> Option<
    u64,
>
    decreases n,
{
    if n <= 0 {
        None
    } else if member_text(m[n - 1].1, "name"@) == Some(name) {
        match member_unsigned(m[n - 1].1, "size"@) {
            Some(size) => Some(size),
            None => Some(0),
        }
    } else {
        category_size(m, name, n - 1)
    }
}

/// The category that is asked for, by its name.
pub open spec fn asked(category: Option<&str>) -> Option<Seq<char>> {
    match category {
        Some(name) => Some(name@),
        None => None,
    }
}

impl HeapDump {
    /// Reads what a virtual machine dumped; `None` where that is no JSON text.
    pub fn new(bytes: &[u8]) -> (r: Option<Self>)
        ensures
            match r {
                Some(dump) => dump_of(bytes@) == Some(dump.data@) && dump.buf@ == decode_utf8(
                    bytes@,
                ),
                None => dump_of(bytes@) is None,
            },
    {
        let buf = match utf8_text(bytes) {
            Ok(buf) => buf,
            Err(_) => {
                return None;
            },
        };
        match parse_json(buf.as_str()) {
            Ok(data) => Some(HeapDump { data, buf }),
            Err(_) => None,
        }
    }

    /// Returns the raw JSON representation of the heap dump.
    pub fn to_json(&self) -> (r: &str)
        ensures
            r@ == self.buf@,
    {
        self.buf.as_str()
    }

    /// Returns the total size of the heap in bytes.
    pub fn size(&self) -> (r: u64)
        ensures
            r == (match member(self.data@, "stats"@) {
                Some(stats) => match member_unsigned(stats, "size"@) {
                    Some(size) => size,
                    None => 0,
                },
                None => 0,
            }),
    {
        match self.data.get("stats") {
            Some(stats) => match stats.get_u64("size") {
                Some(size) => size,
                None => 0,
            },
            None => 0,
        }
    }

    /// Finds the objects of the dump.
    fn objects(&self) -> (r: Option<&Vec<(String, Json)>>)
        ensures
            match r {
                Some(v) => objects_of(self.data@) == Some(member_models(v@)),
                None => objects_of(self.data@) is None,
            },
    {
        match self.data.get("objects") {
            Some(found) => found.as_object(),
            None => None,
        }
    }

    /// Finds the categories of the dump.
    fn categories(&self) -> (r: Option<&Vec<(String, Json)>>)
        ensures
            match r {
                Some(v) => categories_of(self.data@) == Some(member_models(v@)),
                None => categories_of(self.data@) is None,
            },
    {
        match self.data.get("stats") {
            Some(stats) => match stats.get("categories") {
                Some(found) => found.as_object(),
                None => None,
            },
            None => None,
        }
    }

    /// Finds the category ID for a given category name.
    fn find_category_id(&self, category: &str) -> (r: Option<i64>)
        ensures
            wanted_category(self.data@, Some(category@)) == (match r {
                Some(id) => Some(Some(id as int)),
                None => None,
            }),
    {
        let categories = match self.categories() {
            Some(categories) => categories,
            None => {
                return None;
            },
        };
        let ghost m = member_models(categories@);
        let mut i: usize = 0;
        while i < categories.len()
            invariant
                i <= categories.len(),
                m == member_models(categories@),
                categories_of(self.data@) == Some(m),
                category_from(m, category@, i as int) == category_from(m, category@, 0),
            decreases categories.len() - i,
        {
            if member_is(&categories[i].1, "name", category) {
                let chars: Vec<char> = chars_of(categories[i].0.as_str());
                return parse_signed(chars.as_slice());
            }
            i += 1;
        }
        None
    }

    /// The number of the category that is asked for.
    fn category_id(&self, category: Option<&str>) -> (r: Option<Option<i64>>)
        ensures
            wanted_category(self.data@, asked(category)) == (match r {
                Some(Some(id)) => Some(Some(id as int)),
                Some(None) => Some(None),
                None => None,
            }),
    {
        match category {
            None => Some(None),
            Some(name) => match self.find_category_id(name) {
                Some(id) => Some(Some(id)),
                None => None,
            },
        }
    }

    /// Counts the objects by their types; `None` where a total does not fit a 64-bit
    /// integer.
    pub fn try_size_by_type(&self, category: Option<&str>) -> (r: Option<
        SortedMap<(usize, u64)>,
    >)
        ensures
            match r {
                Some(map) => sums_fit(dump_by_type(self.data@, asked(category))) && map.wf()
                    && forall|name: Seq<char>|
                    #[trigger] lookup(map@, name) == sums(
                        dump_by_type(self.data@, asked(category)),
                        name,
                    ),
                None => !sums_fit(dump_by_type(self.data@, asked(category))),
            },
    {
        let (id, objects) = match (self.category_id(category), self.objects()) {
            (Some(id), Some(objects)) => (id, objects),
            _ => {
                return Some(SortedMap::new());
            },
        };
        let ghost m = member_models(objects@);
        let ghost wanted = match id {
            Some(c) => Some(c as int),
            None => None,
        };
        let ghost looks = looks_by_type(m, wanted);
        let mut map: SortedMap<(usize, u64)> = SortedMap::new();
        let mut i: usize = 0;
        while i < objects.len()
            invariant
                i <= objects.len(),
                map.wf(),
                m == member_models(objects@),
                wanted == (match id {
                    Some(c) => Some(c as int),
                    None => None,
                }),
                looks == looks_by_type(m, wanted),
                dump_by_type(self.data@, asked(category)) == Some(looks),
                unbroken(looks, i as int),
                sums_are(map@, looks, i as int),
            decreases objects.len() - i,
        {
            let finding = find_type(&objects[i].1, id);
            assert(finding@ == looks[i as int]);
            match add_finding(&mut map, finding, Ghost(looks), Ghost(i as int)) {
                Added::Counted => {},
                Added::Broken => {
                    proof {
                        lemma_sums_fit(looks, i as int);
                    }
                    return Some(SortedMap::new());
                },
                Added::Overflow => {
                    assert(unbroken(looks, i + 1));
                    return None;
                },
            }
            i += 1;
        }
        proof {
            lemma_sums_fit(looks, i as int);
        }
        Some(map)
    }

    /// Returns a mapping from object type to (count, total size in bytes).
    ///
    /// If `category` is provided, only objects in that category are considered.
    pub fn size_by_type(&self, category: Option<&str>) -> (r: SortedMap<(usize, u64)>)
        requires
            sums_fit(dump_by_type(self.data@, asked(category))),
        ensures
            r.wf(),
            forall|name: Seq<char>|
                #[trigger] lookup(r@, name) == sums(
                    dump_by_type(self.data@, asked(category)),
                    name,
                ),
    {
        match self.try_size_by_type(category) {
            Some(map) => map,
            None => SortedMap::new(),
        }
    }

    /// Counts the objects by their userdata types; `None` where a total does not fit a 64-bit
    /// integer.
    pub fn try_size_by_userdata(&self, category: Option<&str>) -> (r: Option<
        SortedMap<(usize, u64)>,
    >)
        ensures
            match r {
                Some(map) => sums_fit(dump_by_userdata(self.data@, asked(category))) && map.wf()
                    && forall|name: Seq<char>|
                    #[trigger] lookup(map@, name) == sums(
                        dump_by_userdata(self.data@, asked(category)),
                        name,
                    ),
                None => !sums_fit(dump_by_userdata(self.data@, asked(category))),
            },
    {
        let (id, objects) = match (self.category_id(category), self.objects()) {
            (Some(id), Some(objects)) => (id, objects),
            _ => {
                return Some(SortedMap::new());
            },
        };
        let ghost m = member_models(objects@);
        let ghost wanted = match id {
            Some(c) => Some(c as int),
            None => None,
        };
        let ghost looks = looks_by_userdata(m, wanted);
        let mut map: SortedMap<(usize, u64)> = SortedMap::new();
        let mut i: usize = 0;
        while i < objects.len()
            invariant
                i <= objects.len(),
                map.wf(),
                m == member_models(objects@),
                wanted == (match id {
                    Some(c) => Some(c as int),
                    None => None,
                }),
                looks == looks_by_userdata(m, wanted),
                dump_by_userdata(self.data@, asked(category)) == Some(looks),
                unbroken(looks, i as int),
                sums_are(map@, looks, i as int),
            decreases objects.len() - i,
        {
            let finding = find_userdata(objects, &objects[i].1, id);
            assert(finding@ == looks[i as int]);
            match add_finding(&mut map, finding, Ghost(looks), Ghost(i as int)) {
                Added::Counted => {},
                Added::Broken => {
                    proof {
                        lemma_sums_fit(looks, i as int);
                    }
                    return Some(SortedMap::new());
                },
                Added::Overflow => {
                    assert(unbroken(looks, i + 1));
                    return None;
                },
            }
            i += 1;
        }
        proof {
            lemma_sums_fit(looks, i as int);
        }
        Some(map)
    }

    /// Returns a mapping from userdata type to (count, total size in bytes).
    ///
    /// If `category` is provided, only objects in that category are considered.
    pub fn size_by_userdata(&self, category: Option<&str>) -> (r: SortedMap<(usize, u64)>)
        requires
            sums_fit(dump_by_userdata(self.data@, asked(category))),
        ensures
            r.wf(),
            forall|name: Seq<char>|
                #[trigger] lookup(r@, name) == sums(
                    dump_by_userdata(self.data@, asked(category)),
                    name,
                ),
    {
        match self.try_size_by_userdata(category) {
            Some(map) => map,
            None => SortedMap::new(),
        }
    }

    /// Returns a mapping from category name to total size in bytes.
    pub fn size_by_category(&self) -> (r: SortedMap<u64>)
        ensures
            r.wf(),
            forall|name: Seq<char>|
                #[trigger] lookup(r@, name) == (match categories_of(self.data@) {
                    Some(m) => category_size(m, name, m.len() as int),
                    None => None,
                }),
    {
        let mut map: SortedMap<u64> = SortedMap::new();
        let categories = match self.categories() {
            Some(categories) => categories,
            None => {
                return map;
            },
        };
        let ghost m = member_models(categories@);
        let mut i: usize = 0;
        while i < categories.len()
            invariant
                i <= categories.len(),
                map.wf(),
                m == member_models(categories@),
                categories_of(self.data@) == Some(m),
                forall|name: Seq<char>|
                    #[trigger] lookup(map@, name) == category_size(m, name, i as int),
            decreases categories.len() - i,
        {
            let ghost before = map@;
            match categories[i].1.get_str("name") {
                Some(name) => {
                    let size: u64 = match categories[i].1.get_u64("size") {
                        Some(size) => size,
                        None => 0,
                    };
                    proof {
                        lemma_put(map@, name@, size);
                    }
                    map.insert(name.to_owned(), size);
                },
                None => {},
            }
            assert forall|name: Seq<char>| #[trigger] lookup(map@, name) == category_size(
                m,
                name,
                i + 1,
            ) by {
                assert(lookup(before, name) == category_size(m, name, i as int));
            }
            i += 1;
        }
        map
    }
}

/// The totals of some names together.
pub open spec fn total_over(looks: Seq<Look>, names: Seq<Seq<char>>, n: int) -> nat
    decreases names.len(),
{
    if names.len() == 0 {
        0
    } else {
        total_over(looks, names.drop_last(), n) + total_of(looks, names.last(), n)
    }
}

/// The sizes of all of the first `n` objects that count.
pub open spec fn counted_total(looks: Seq<Look>, n: int) -> nat
    decreases n,
{
    if n <= 0 {
        0
    } else {
        counted_total(looks, n - 1) + (match looks[n - 1] {
            Look::Counted(_, size) => size as nat,
            _ => 0nat,
        })
    }
}

/// One more object adds its size to the totals of some names exactly where its
/// own name is among them.
proof fn lemma_total_step(looks: Seq<Look>, names: Seq<Seq<char>>, n: int)
    requires
        0 < n <= looks.len(),
        names.no_duplicates(),
    ensures
        total_over(looks, names, n) == total_over(looks, names, n - 1) + (match looks[n - 1] {
            Look::Counted(own, size) if names.contains(own) => size as nat,
            _ => 0nat,
        }),
    decreases names.len(),
{
    if names.len() > 0 {
        let short = names.drop_last();
        lemma_total_step(looks, short, n);
        if let Look::Counted(own, size) = looks[n - 1] {
            if own == names.last() {
                assert(names[names.len() - 1] == own);
                assert(!short.contains(own)) by {
                    if short.contains(own) {
                        let at = short.index_of(own);
                        assert(names[at] == names[names.len() - 1]);
                    }
                }
            } else if names.contains(own) {
                let at = names.index_of(own);
                assert(short[at] == own);
            } else {
                assert(!short.contains(own)) by {
                    if short.contains(own) {
                        assert(names[short.index_of(own)] == own);
                    }
                }
            }
        }
    }
}

/// Every byte is counted under one name: the totals of all names that occur
/// are the sizes of all objects that count.
pub proof fn law_every_byte_is_counted_once(looks: Seq<Look>, names: Seq<Seq<char>>, n: int)
    requires
        0 <= n <= looks.len(),
        names.no_duplicates(),
        forall|i: int|
            0 <= i < n && #[trigger] looks[i] is Counted ==> names.contains(looks[i]->Counted_0),
    ensures
        total_over(looks, names, n) == counted_total(looks, n),
    decreases n,
{
    if n > 0 {
        law_every_byte_is_counted_once(looks, names, n - 1);
        lemma_total_step(looks, names, n);
        assert(looks[n - 1] is Counted ==> names.contains(looks[n - 1]->Counted_0));
    } else {
        lemma_total_zero(looks, names);
    }
}

proof fn lemma_total_zero(looks: Seq<Look>, names: Seq<Seq<char>>)
    ensures
        total_over(looks, names, 0) == 0,
    decreases names.len(),
{
    if names.len() > 0 {
        lemma_total_zero(looks, names.drop_last());
    }
}

/// No object counts twice: the counts of two names together are at most the
/// number of objects.
pub proof fn law_counts_are_disjoint(looks: Seq<Look>, a: Seq<char>, b: Seq<char>, n: int)
    requires
        a != b,
        0 <= n <= looks.len(),
    ensures
        count_of(looks, a, n) + count_of(looks, b, n) <= n,
    decreases n,
{
    if n > 0 {
        law_counts_are_disjoint(looks, a, b, n - 1);
    }
}

/// How an object of a dump counts by its type: under the type and with the
/// size that it has, where no category is asked for or it is of that category.
pub proof fn law_objects_count_by_type(
    objects: Seq<(Seq<char>, JsonModel)>,
    i: int,
    ty: Seq<char>,
    size: u64,
    id: int,
    cat: i64,
)
    requires
        0 <= i < objects.len(),
        member_text(objects[i].1, "type"@) == Some(ty),
        member_unsigned(objects[i].1, "size"@) == Some(size),
        member_signed(objects[i].1, "cat"@) == Some(cat),
    ensures
        looks_by_type(objects, None).len() == objects.len(),
        looks_by_type(objects, None)[i] == Look::Counted(ty, size),
        cat == id ==> looks_by_type(objects, Some(id))[i] == Look::Counted(ty, size),
        cat != id ==> looks_by_type(objects, Some(id))[i] == Look::Passed,
        ty != "userdata"@ ==> looks_by_userdata(objects, None)[i] == Look::Passed,
        ty == "userdata"@ ==> (looks_by_userdata(objects, None)[i] matches Look::Counted(_, s)
            && s == size),
{
}

/// What is counted under a name is the number of objects that count under it.
pub proof fn law_count_is_number_of_objects(looks: Seq<Look>, name: Seq<char>, n: int)
    requires
        0 <= n <= looks.len(),
    ensures
        count_of(looks, name, n) == looks.take(n).filter(
            |l: Look| l matches Look::Counted(own, _) && own == name,
        ).len(),
    decreases n,
{
    reveal(Seq::filter);
    if n > 0 {
        law_count_is_number_of_objects(looks, name, n - 1);
        assert(looks.take(n).drop_last() =~= looks.take(n - 1));
        assert(looks.take(n).last() == looks[n - 1]);
    } else {
        assert(looks.take(0) =~= Seq::empty());
    }
}

/// What is reported of a name, in a dump where no object is broken: how many
/// objects count under it and how large they are together, and nothing where
/// none does.
pub proof fn law_report_is_count_and_size(looks: Seq<Look>, name: Seq<char>)
    requires
        forall|k: int| 0 <= k < looks.len() ==> !(#[trigger] looks[k] is Broken),
        count_of(looks, name, looks.len() as int) <= usize::MAX,
        total_of(looks, name, looks.len() as int) <= u64::MAX,
    ensures
        sums(Some(looks), name) is None <==> count_of(looks, name, looks.len() as int) == 0,
        sums(Some(looks), name) matches Some(found) ==> found.0 == count_of(
            looks,
            name,
            looks.len() as int,
        ) && found.1 == total_of(looks, name, looks.len() as int),
        sums(None, name) is None,
{
}

/// One more object adds itself to the count and the size of its own name.
pub proof fn law_object_adds_to_its_name(
    looks: Seq<Look>,
    own: Seq<char>,
    size: u64,
    name: Seq<char>,
)
    ensures
        count_of(looks.push(Look::Counted(own, size)), name, looks.len() as int + 1) == count_of(
            looks,
            name,
            looks.len() as int,
        ) + (if own == name {
            1nat
        } else {
            0nat
        }),
        total_of(looks.push(Look::Counted(own, size)), name, looks.len() as int + 1) == total_of(
            looks,
            name,
            looks.len() as int,
        ) + (if own == name {
            size as nat
        } else {
            0nat
        }),
{
    lemma_counts_prefix(looks, Look::Counted(own, size), name, looks.len() as int);
    let all = looks.push(Look::Counted(own, size));
    assert(all[looks.len() as int] == Look::Counted(own, size));
}

proof fn lemma_counts_prefix(looks: Seq<Look>, last: Look, name: Seq<char>, n: int)
    requires
        n <= looks.len(),
    ensures
        count_of(looks.push(last), name, n) == count_of(looks, name, n),
        total_of(looks.push(last), name, n) == total_of(looks, name, n),
    decreases n,
{
    if n > 0 {
        lemma_counts_prefix(looks, last, name, n - 1);
    }
}

/// A category is found by its name: its number is that of the first one so
/// named, and it is asked for only where a name is given.
pub proof fn law_category_is_found_by_name(
    j: JsonModel,
    m: Seq<(Seq<char>, JsonModel)>,
    name: Seq<char>,
    k: int,
)
    requires
        categories_of(j) == Some(m),
        0 <= k < m.len(),
        member_text(m[k].1, "name"@) == Some(name),
        forall|l: int| 0 <= l < k ==> member_text((#[trigger] m[l]).1, "name"@) != Some(name),
    ensures
        wanted_category(j, None) == Some(None::<int>),
        signed_of(m[k].0) matches Some(id) ==> wanted_category(j, Some(name)) == Some(Some(id)),
        signed_of(m[k].0) is None ==> wanted_category(j, Some(name)) is None,
{
    lemma_category_from(m, name, 0, k);
}

proof fn lemma_category_from(m: Seq<(Seq<char>, JsonModel)>, name: Seq<char>, i: int, k: int)
    requires
        0 <= i <= k < m.len(),
        member_text(m[k].1, "name"@) == Some(name),
        forall|l: int| i <= l < k ==> member_text((#[trigger] m[l]).1, "name"@) != Some(name),
    ensures
        category_from(m, name, i) == signed_of(m[k].0),
    decreases k - i,
{
    if i < k {
        lemma_category_from(m, name, i + 1, k);
    }
}

} // verus!
