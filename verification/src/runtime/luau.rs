//! Memory categories and the garbage collector's options.
use crate::error::{Error, ErrorModel};
use crate::text::{chars_of, same_text, texts, utf8_text};
use vstd::prelude::*;
use vstd::string::*;
use vstd::utf8::{decode_utf8, valid_utf8};

verus! {

/// Whether a character may stand in the name of a memory category.
pub open spec fn category_char(c: char) -> bool {
    'a' <= c <= 'z' || 'A' <= c <= 'Z' || '0' <= c <= '9' || c == '-' || c == '_'
}

/// Whether a text can name a memory category.
pub open spec fn category_name(s: Seq<char>) -> bool {
    forall|i: int| 0 <= i < s.len() ==> category_char(#[trigger] s[i])
}

/// Position of the first of the names at or after `i` that is `name`, or their
/// number.
pub open spec fn position(names: Seq<Seq<char>>, name: Seq<char>, i: int) -> int
    decreases names.len() - i,
{
    if i < 0 || i >= names.len() {
        names.len() as int
    } else if names[i] == name {
        i
    } else {
        position(names, name, i + 1)
    }
}

/// The most categories that there can be.
pub const MAX_CATEGORIES: usize = 255;

/// The memory categories of a machine, by their numbers. The first one is the
/// default category.
#[derive(Debug)]
pub struct MemoryCategories {
    pub names: Vec<String>,
}

/// What registering a category gives: its number, or the refusal of its name
/// or of one category too many.
pub open spec fn registered(names: Seq<Seq<char>>, category: Seq<char>) -> Result<int, ErrorModel> {
    if !category_name(category) {
        Err(ErrorModel::RuntimeError("invalid memory category name"@))
    } else if position(names, category, 0) < names.len() {
        Ok(position(names, category, 0))
    } else if names.len() >= MAX_CATEGORIES {
        Err(ErrorModel::RuntimeError("too many memory categories registered"@))
    } else {
        Ok(names.len() as int)
    }
}

/// Tests whether a text can name a memory category.
fn is_category_name(category: &str) -> (r: bool)
    ensures
        r == category_name(category@),
{
    let chars: Vec<char> = chars_of(category);
    let mut i: usize = 0;
    while i < chars.len()
        invariant
            i <= chars.len(),
            chars@ == category@,
            forall|k: int| 0 <= k < i ==> category_char(#[trigger] category@[k]),
        decreases chars.len() - i,
    {
        let c = chars[i];
        if !(('a' <= c && c <= 'z') || ('A' <= c && c <= 'Z') || ('0' <= c && c <= '9') || c == '-'
            || c == '_') {
            assert(!category_char(category@[i as int]));
            return false;
        }
        i += 1;
    }
    true
}

impl MemoryCategories {
    pub open spec fn view(&self) -> Seq<Seq<char>> {
        texts(self.names@)
    }

    /// The numbers of the categories fit a byte, and no category has two.
    pub open spec fn wf(&self) -> bool {
        &&& self@.len() <= MAX_CATEGORIES
        &&& forall|i: int, j: int| 0 <= i < j < self@.len() ==> self@[i] != self@[j]
    }

    /// The categories of a new machine: `main` alone.
    pub fn new() -> (r: Self)
        ensures
            r.wf(),
            r@ == seq!["main"@],
    {
        let mut names: Vec<String> = Vec::new();
        names.push("main".to_owned());
        let r = MemoryCategories { names };
        assert(r@ =~= seq!["main"@]);
        r
    }

    /// Finds or registers a memory category and returns its number.
    pub fn set_memory_category(&mut self, category: &str) -> (r: Result<u8, Error>)
        requires
            old(self).wf(),
        ensures
            final(self).wf(),
            match r {
                Ok(id) => registered(old(self)@, category@) == Ok::<_, ErrorModel>(id as int)
                    && final(self)@[id as int] == category@,
                Err(e) => registered(old(self)@, category@) == Err::<int, _>(e@),
            },
            final(self)@ == (if registered(old(self)@, category@) == Ok::<_, ErrorModel>(
                old(self)@.len() as int,
            ) {
                old(self)@.push(category@)
            } else {
                old(self)@
            }),
    {
        if !is_category_name(category) {
            return Err(Error::runtime("invalid memory category name"));
        }
        let total: usize = self.names.len();
        let mut i: usize = 0;
        while i < total
            invariant
                i <= total,
                total == self.names.len(),
                self.wf(),
                self@ == old(self)@,
                position(self@, category@, i as int) == position(self@, category@, 0),
                category_name(category@),
                forall|k: int| 0 <= k < i ==> self@[k] != category@,
            decreases total - i,
        {
            if same_text(self.names[i].as_str(), category) {
                assert(self@[i as int] == category@);
                return Ok(i as u8);
            }
            assert(self@[i as int] != category@);
            i += 1;
        }
        if total >= MAX_CATEGORIES {
            return Err(Error::runtime("too many memory categories registered"));
        }
        self.names.push(category.to_owned());
        assert(self@ =~= old(self)@.push(category@));
        Ok(total as u8)
    }
}

/// A category keeps its number: registering another one changes no number.
pub proof fn law_categories_keep_their_numbers(
    names: Seq<Seq<char>>,
    known: Seq<char>,
    added: Seq<char>,
)
    requires
        position(names, known, 0) < names.len(),
    ensures
        position(names.push(added), known, 0) == position(names, known, 0),
{
    lemma_position_push(names, known, added, 0);
}

proof fn lemma_position_push(names: Seq<Seq<char>>, known: Seq<char>, added: Seq<char>, i: int)
    requires
        0 <= i,
        position(names, known, i) < names.len(),
    ensures
        position(names.push(added), known, i) == position(names, known, i),
    decreases names.len() - i,
{
    if i < names.len() && names[i] != known {
        lemma_position_push(names, known, added, i + 1);
    }
}

/// What the garbage collector is asked to do.
#[derive(Clone, Copy, Debug, PartialEq, Eq, Structural)]
pub enum GcAction {
    Collect,
    Stop,
    Restart,
    Count,
    Step,
    IsRunning,
}

/// The action of an option; in a sandbox only counting is allowed.
pub open spec fn gc_action_of(option: Seq<char>, sandboxed: bool) -> Option<GcAction> {
    if option == "count"@ {
        Some(GcAction::Count)
    } else if sandboxed {
        None
    } else if option == "collect"@ {
        Some(GcAction::Collect)
    } else if option == "stop"@ {
        Some(GcAction::Stop)
    } else if option == "restart"@ {
        Some(GcAction::Restart)
    } else if option == "step"@ {
        Some(GcAction::Step)
    } else if option == "isrunning"@ {
        Some(GcAction::IsRunning)
    } else {
        None
    }
}

/// The action of the bytes of an option; without an option, that of
/// `collect`.
pub open spec fn gc_request(option: Option<Seq<u8>>, sandboxed: bool) -> Option<GcAction> {
    match option {
        None => gc_action_of("collect"@, sandboxed),
        Some(bytes) => if valid_utf8(bytes) {
            gc_action_of(decode_utf8(bytes), sandboxed)
        } else {
            None
        },
    }
}

/// Chooses the action of an option.
fn gc_option(option: &str, sandboxed: bool) -> (r: Option<GcAction>)
    ensures
        r == gc_action_of(option@, sandboxed),
{
    if same_text(option, "count") {
        Some(GcAction::Count)
    } else if sandboxed {
        None
    } else if same_text(option, "collect") {
        Some(GcAction::Collect)
    } else if same_text(option, "stop") {
        Some(GcAction::Stop)
    } else if same_text(option, "restart") {
        Some(GcAction::Restart)
    } else if same_text(option, "step") {
        Some(GcAction::Step)
    } else if same_text(option, "isrunning") {
        Some(GcAction::IsRunning)
    } else {
        None
    }
}

/// Chooses what `collectgarbage` does, or refuses its option.
pub fn collectgarbage(option: Option<&[u8]>, sandboxed: bool) -> (r: Result<GcAction, Error>)
    ensures
        ({
            let bytes = match option {
                Some(b) => Some(b@),
                None => None,
            };
            match r {
                Ok(action) => gc_request(bytes, sandboxed) == Some(action),
                Err(e) => gc_request(bytes, sandboxed) is None && e@ == ErrorModel::RuntimeError(
                    "collectgarbage called with invalid option"@,
                ),
            }
        }),
{
    let chosen = match option {
        None => gc_option("collect", sandboxed),
        Some(bytes) => match utf8_text(bytes) {
            Ok(text) => gc_option(text.as_str(), sandboxed),
            Err(_) => None,
        },
    };
    match chosen {
        Some(action) => Ok(action),
        None => Err(Error::runtime("collectgarbage called with invalid option")),
    }
}

/// The chunk name of `loadstring`: the one that was given, or a common one.
pub fn loadstring_name<'a>(name: Option<&'a str>) -> (r: &'a str)
    ensures
        r@ == (match name {
            Some(n) => n@,
            None => "=(loadstring)"@,
        }),
{
    match name {
        Some(n) => n,
        None => "=(loadstring)",
    }
}

/// In a sandbox the garbage collector can only be asked for its count; without
/// an option it collects, where it may.
pub proof fn law_sandbox_only_counts(option: Option<Seq<u8>>)
    ensures
        gc_request(option, true) matches Some(action) ==> action == GcAction::Count
            && gc_request(option, false) == Some(action),
        gc_request(None, false) == Some(GcAction::Collect),
        gc_request(None, true) is None,
        gc_request(option, false) == Some(GcAction::Count) ==> gc_request(option, true) == Some(
            GcAction::Count,
        ),
{
    reveal_strlit("collect");
    reveal_strlit("count");
    assert("collect"@.len() != "count"@.len());
}

/// A category that is registered has the number of its own name, and one that
/// is new gets the next number.
pub proof fn law_category_number_is_its_place(names: Seq<Seq<char>>, category: Seq<char>)
    ensures
        registered(names, category) matches Ok(n) ==> 0 <= n <= names.len() && (n < names.len()
            ==> names[n] == category) && (n == names.len() ==> !names.contains(category)),
        registered(names, category) is Ok <==> category_name(category) && (names.contains(category)
            || names.len() < MAX_CATEGORIES),
{
    lemma_position_is_first(names, category, 0);
    if names.contains(category) {
        let k = names.index_of(category);
        assert(names[k] == category);
    }
}

proof fn lemma_position_is_first(names: Seq<Seq<char>>, name: Seq<char>, i: int)
    requires
        0 <= i <= names.len(),
    ensures
        i <= position(names, name, i) <= names.len(),
        position(names, name, i) < names.len() ==> names[position(names, name, i)] == name,
        forall|k: int| i <= k < position(names, name, i) ==> #[trigger] names[k] != name,
    decreases names.len() - i,
{
    if i < names.len() && names[i] != name {
        lemma_position_is_first(names, name, i + 1);
    }
}

} // verus!
