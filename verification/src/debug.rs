//! What a debugger learns of a call stack.
use vstd::prelude::*;

verus! {

/// Contains the name information of a function in the call stack.
#[derive(Debug)]
pub struct DebugNames {
    /// A (reasonable) name of the function (`None` if the name cannot be found).
    pub name: Option<String>,
    /// Explains the `name` field; always `None` for Luau.
    pub name_what: Option<&'static str>,
}

/// Contains the source information of a function in the call stack.
#[derive(Debug)]
pub struct DebugSource {
    /// Source of the chunk that created the function.
    pub source: Option<String>,
    /// A "printable" version of `source`, to be used in error messages.
    pub short_src: Option<String>,
    /// The line number where the definition of the function starts.
    pub line_defined: Option<usize>,
    /// The line number where the definition of the function ends (not set by Luau).
    pub last_line_defined: Option<usize>,
    /// A string `Lua` if the function is a Luau-defined function, `C` if it is
    /// a C function, `main` if it is the main part of a chunk.
    pub what: &'static str,
}

/// Contains stack information about a function in the call stack.
#[derive(Clone, Copy, Debug)]
pub struct DebugStack {
    /// The number of upvalues of the function.
    pub num_upvalues: u8,
    /// The number of parameters of the function (always 0 for C).
    pub num_params: u8,
    /// Whether the function is a variadic function (always true for C).
    pub is_vararg: bool,
}

impl DebugNames {
    /// The name information of Luau, which does not explain names.
    pub fn new(name: Option<String>) -> (r: Self)
        ensures
            r.name == name,
            r.name_what is None,
    {
        DebugNames { name, name_what: None }
    }
}

impl DebugSource {
    /// The source information of Luau, which does not tell where a function
    /// ends; what is not known is the main part of a chunk.
    pub fn new(
        source: Option<String>,
        short_src: Option<String>,
        line_defined: Option<usize>,
        what: Option<&'static str>,
    ) -> (r: Self)
        ensures
            r.source == source,
            r.short_src == short_src,
            r.line_defined == line_defined,
            r.last_line_defined is None,
            r.what@ == (match what {
                Some(w) => w@,
                None => "main"@,
            }),
    {
        let what = match what {
            Some(w) => w,
            None => "main",
        };
        DebugSource { source, short_src, line_defined, last_line_defined: None, what }
    }
}

} // verus!
