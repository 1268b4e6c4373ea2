//! Compiling for a profile: the libraries that it omits are never folded away.
use crate::text::{texts, utf8_text};
use vstd::prelude::*;
use vstd::string::*;
use vstd::utf8::{decode_utf8, valid_utf8};

verus! {

/// Compiler options, as far as a profile decides on them.
#[derive(Debug)]
pub struct CompileOptions {
    /// Globals that the compiler must not take for the standard ones.
    pub mutable_globals: Vec<String>,
    /// Whether stack slots that are no longer used are cleared.
    pub clear_dead_stack_slots: bool,
}

/// What is compiled.
#[derive(Debug)]
pub enum CompileInput {
    /// A text.
    Text(String),
    /// Bytes that are no text.
    Bytes,
}

/// Applies a profile to compiler options: the globals of the libraries that it
/// omits are mutable.
pub fn restrict_options(omitted: &Vec<String>, options: &mut CompileOptions)
    ensures
        texts(final(options).mutable_globals@) == texts(old(options).mutable_globals@) + texts(
            omitted@,
        ),
        final(options).clear_dead_stack_slots == old(options).clear_dead_stack_slots,
{
    let ghost before = texts(options.mutable_globals@);
    let mut globals: Vec<String> = Vec::new();
    let mut i: usize = 0;
    while i < options.mutable_globals.len()
        invariant
            i <= options.mutable_globals.len(),
            before == texts(options.mutable_globals@),
            options.clear_dead_stack_slots == old(options).clear_dead_stack_slots,
            texts(globals@) == before.take(i as int),
        decreases options.mutable_globals.len() - i,
    {
        let ghost held = globals@;
        globals.push(options.mutable_globals[i].clone());
        assert(texts(globals@) =~= texts(held).push(globals@.last()@));
        assert(texts(globals@) =~= before.take(i + 1));
        i += 1;
    }
    assert(before.take(i as int) =~= before);
    let mut k: usize = 0;
    assert(texts(globals@) =~= before + texts(omitted@).take(0));
    while k < omitted.len()
        invariant
            k <= omitted.len(),
            texts(globals@) == before + texts(omitted@).take(k as int),
        decreases omitted.len() - k,
    {
        let ghost held = globals@;
        globals.push(omitted[k].clone());
        assert(texts(globals@) =~= texts(held).push(globals@.last()@));
        assert(texts(globals@) =~= before + texts(omitted@).take(k + 1));
        k += 1;
    }
    assert(texts(omitted@).take(k as int) =~= texts(omitted@));
    options.mutable_globals = globals;
}

/// A copy of compiler options.
fn copied(base: &CompileOptions) -> (r: CompileOptions)
    ensures
        texts(r.mutable_globals@) == texts(base.mutable_globals@),
        r.clear_dead_stack_slots == base.clear_dead_stack_slots,
{
    let none: Vec<String> = Vec::new();
    let mut r = CompileOptions {
        mutable_globals: none,
        clear_dead_stack_slots: base.clear_dead_stack_slots,
    };
    restrict_options(&base.mutable_globals, &mut r);
    assert(texts(r.mutable_globals@) =~= texts(base.mutable_globals@));
    r
}

/// Prepares compiling `source` for a profile: the options to use, and whether
/// the source is compiled as a text.
pub fn compile_for(omitted: &Vec<String>, source: &[u8], base: &CompileOptions) -> (r: (
    CompileOptions,
    CompileInput,
))
    ensures
        texts(r.0.mutable_globals@) == texts(base.mutable_globals@) + texts(omitted@),
        r.0.clear_dead_stack_slots,
        match r.1 {
            CompileInput::Text(text) => valid_utf8(source@) && text@ == decode_utf8(source@),
            CompileInput::Bytes => !valid_utf8(source@),
        },
{
    let mut options = copied(base);
    restrict_options(omitted, &mut options);
    options.clear_dead_stack_slots = true;
    let input = match utf8_text(source) {
        Ok(text) => CompileInput::Text(text),
        Err(_) => CompileInput::Bytes,
    };
    (options, input)
}

/// The message of bytecode that its own validation refused.
pub fn invalid_artifact(error: &str) -> (r: String)
    ensures
        r@ == "compiler produced a chunk that failed artifact validation: "@ + error@,
{
    "compiler produced a chunk that failed artifact validation: ".to_owned().concat(error)
}

/// Compiling for a profile takes no mutable global away and makes every
/// omitted library one.
pub proof fn law_omitted_libraries_are_mutable(
    base: Seq<Seq<char>>,
    omitted: Seq<Seq<char>>,
    name: Seq<char>,
)
    requires
        base.contains(name) || omitted.contains(name),
    ensures
        (base + omitted).contains(name),
{
    if base.contains(name) {
        assert((base + omitted)[base.index_of(name)] == name);
    } else {
        assert((base + omitted)[base.len() + omitted.index_of(name)] == name);
    }
}

} // verus!
