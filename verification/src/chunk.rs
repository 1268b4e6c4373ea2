//! Chunks of source code: compiler settings, the request to the compiler and
//! its answer, and the cache of compiled chunks.
use crate::analyzer::native::{lossy_string, lossy_text};
use crate::error::{Error, ErrorModel};
use crate::text::{chars_of, ends, has_suffix, lists_text, same_text, string_of, texts};
use vstd::prelude::*;
use vstd::slice::{slice_subrange, slice_to_vec};
use vstd::string::*;
use vstd::utf8::encode_utf8;

verus! {

/// Source inputs that can be loaded as a chunk.
pub trait AsChunk {
    /// The bytes of the chunk, or the message of the failure to read them.
    spec fn chunk_source(&self) -> Result<Seq<u8>, Seq<char>>;

    /// Returns an optional chunk name.
    fn name(&self) -> (r: Option<String>)
        default_ensures
            r is None,
    {
        None
    }

    /// Returns the chunk source data.
    fn source(&self) -> (r: Result<Vec<u8>, String>)
        ensures
            match r {
                Ok(bytes) => self.chunk_source() == Ok::<_, Seq<char>>(bytes@),
                Err(message) => self.chunk_source() == Err::<Seq<u8>, _>(message@),
            },
    ;
}

impl AsChunk for &str {
    open spec fn chunk_source(&self) -> Result<Seq<u8>, Seq<char>> {
        Ok(encode_utf8(self@))
    }

    fn source(&self) -> (r: Result<Vec<u8>, String>) {
        Ok((*self).as_bytes_vec())
    }
}

impl AsChunk for String {
    open spec fn chunk_source(&self) -> Result<Seq<u8>, Seq<char>> {
        Ok(encode_utf8(self@))
    }

    fn source(&self) -> (r: Result<Vec<u8>, String>) {
        Ok(self.as_str().as_bytes_vec())
    }
}

impl AsChunk for Vec<u8> {
    open spec fn chunk_source(&self) -> Result<Seq<u8>, Seq<char>> {
        Ok(self@)
    }

    fn source(&self) -> (r: Result<Vec<u8>, String>) {
        Ok(slice_to_vec(self.as_slice()))
    }
}

impl AsChunk for &String {
    open spec fn chunk_source(&self) -> Result<Seq<u8>, Seq<char>> {
        Ok(encode_utf8(self@))
    }

    fn source(&self) -> (r: Result<Vec<u8>, String>) {
        Ok(self.as_str().as_bytes_vec())
    }
}

impl AsChunk for &[u8] {
    open spec fn chunk_source(&self) -> Result<Seq<u8>, Seq<char>> {
        Ok(self@)
    }

    fn source(&self) -> (r: Result<Vec<u8>, String>) {
        Ok(slice_to_vec(*self))
    }
}

impl AsChunk for &Vec<u8> {
    open spec fn chunk_source(&self) -> Result<Seq<u8>, Seq<char>> {
        Ok(self@)
    }

    fn source(&self) -> (r: Result<Vec<u8>, String>) {
        Ok(slice_to_vec(self.as_slice()))
    }
}

impl<C: AsChunk + ?Sized> AsChunk for Box<C> {
    open spec fn chunk_source(&self) -> Result<Seq<u8>, Seq<char>> {
        (**self).chunk_source()
    }

    fn name(&self) -> (r: Option<String>)
        ensures
            call_ensures(C::name, (&**self,), r),
    {
        (**self).name()
    }

    fn source(&self) -> (r: Result<Vec<u8>, String>) {
        (**self).source()
    }
}

/// Whether two byte strings are equal.
fn same_bytes(a: &[u8], b: &[u8]) -> (r: bool)
    ensures
        r == (a@ == b@),
{
    if a.len() != b.len() {
        return false;
    }
    let mut i: usize = 0;
    while i < a.len()
        invariant
            i <= a.len(),
            a@.len() == b@.len(),
            forall|k: int| 0 <= k < i ==> a@[k] == b@[k],
        decreases a.len() - i,
    {
        if a[i] != b[i] {
            assert(a@[i as int] != b@[i as int]);
            return false;
        }
        i += 1;
    }
    assert(a@ =~= b@);
    true
}

/// How the source of a chunk is to be read.
#[derive(Clone, Copy, Debug, PartialEq, Eq, Structural)]
pub enum ChunkMode {
    Text,
    Binary,
}

/// Represents a constant value that can be used by the compiler. Floating-point
/// numbers are held by their bits.
#[derive(Debug)]
pub enum CompileConstant {
    /// Luau `nil`.
    Nil,
    /// Boolean constant.
    Boolean(bool),
    /// Numeric constant.
    Number(u64),
    /// Vector constant.
    Vector(u32, u32, u32),
    /// String constant.
    String(String),
}

/// Model of a [`CompileConstant`].
pub enum ConstantModel {
    Nil,
    Boolean(bool),
    Number(u64),
    Vector(u32, u32, u32),
    String(Seq<char>),
}

impl CompileConstant {
    pub open spec fn view(&self) -> ConstantModel {
        match self {
            CompileConstant::Nil => ConstantModel::Nil,
            CompileConstant::Boolean(b) => ConstantModel::Boolean(*b),
            CompileConstant::Number(n) => ConstantModel::Number(*n),
            CompileConstant::Vector(x, y, z) => ConstantModel::Vector(*x, *y, *z),
            CompileConstant::String(s) => ConstantModel::String(s@),
        }
    }
}

/// Luau compiler optimization level.
#[derive(Clone, Copy, Debug, PartialEq, Eq, Structural)]
pub enum OptimizationLevel {
    /// No optimization.
    Off,
    /// Baseline optimization that preserves debuggability.
    Debug,
    /// Additional optimizations such as inlining that can reduce debuggability.
    Release,
}

/// Luau compiler debug information level.
#[derive(Clone, Copy, Debug, PartialEq, Eq, Structural)]
pub enum DebugLevel {
    /// No debugging support.
    Off,
    /// Line info and function names for backtraces.
    LineInfo,
    /// Full debug info with local and upvalue names.
    Full,
}

/// Luau type information level used to guide native code generation.
#[derive(Clone, Copy, Debug, PartialEq, Eq, Structural)]
pub enum TypeInfoLevel {
    /// Generate type information for native modules.
    NativeModules,
    /// Generate type information for all modules.
    AllModules,
}

/// Luau compiler code coverage instrumentation level.
#[derive(Clone, Copy, Debug, PartialEq, Eq, Structural)]
pub enum CoverageLevel {
    /// No code coverage support.
    Off,
    /// Statement coverage.
    Statement,
    /// Statement and expression coverage.
    StatementAndExpression,
}

impl OptimizationLevel {
    pub open spec fn number(self) -> i32 {
        match self {
            OptimizationLevel::Off => 0,
            OptimizationLevel::Debug => 1,
            OptimizationLevel::Release => 2,
        }
    }

    /// The level as the compiler counts it.
    pub fn code(self) -> (r: i32)
        ensures
            r == self.number(),
    {
        match self {
            OptimizationLevel::Off => 0,
            OptimizationLevel::Debug => 1,
            OptimizationLevel::Release => 2,
        }
    }
}

impl DebugLevel {
    pub open spec fn number(self) -> i32 {
        match self {
            DebugLevel::Off => 0,
            DebugLevel::LineInfo => 1,
            DebugLevel::Full => 2,
        }
    }

    /// The level as the compiler counts it.
    pub fn code(self) -> (r: i32)
        ensures
            r == self.number(),
    {
        match self {
            DebugLevel::Off => 0,
            DebugLevel::LineInfo => 1,
            DebugLevel::Full => 2,
        }
    }
}

impl TypeInfoLevel {
    pub open spec fn number(self) -> i32 {
        match self {
            TypeInfoLevel::NativeModules => 0,
            TypeInfoLevel::AllModules => 1,
        }
    }

    /// The level as the compiler counts it.
    pub fn code(self) -> (r: i32)
        ensures
            r == self.number(),
    {
        match self {
            TypeInfoLevel::NativeModules => 0,
            TypeInfoLevel::AllModules => 1,
        }
    }
}

impl CoverageLevel {
    pub open spec fn number(self) -> i32 {
        match self {
            CoverageLevel::Off => 0,
            CoverageLevel::Statement => 1,
            CoverageLevel::StatementAndExpression => 2,
        }
    }

    /// The level as the compiler counts it.
    pub fn code(self) -> (r: i32)
        ensures
            r == self.number(),
    {
        match self {
            CoverageLevel::Off => 0,
            CoverageLevel::Statement => 1,
            CoverageLevel::StatementAndExpression => 2,
        }
    }
}

/// A constant of a library member.
#[derive(Debug)]
pub struct LibraryConstant {
    pub library: String,
    pub member: String,
    pub value: CompileConstant,
}

/// The constant of a library member: that of the first entry for it at or
/// after `i`.
pub open spec fn constant_from(
    entries: Seq<LibraryConstant>,
    library: Seq<char>,
    member: Seq<char>,
    i: int,
) -> Option<ConstantModel>
    decreases entries.len() - i,
{
    if i < 0 || i >= entries.len() {
        None
    } else if entries[i].library@ == library && entries[i].member@ == member {
        Some(entries[i].value@)
    } else {
        constant_from(entries, library, member, i + 1)
    }
}

/// Position of the first dot of a name, or -1.
pub open spec fn dot_at(name: Seq<char>, i: int) -> int
    decreases name.len() - i,
{
    if i < 0 || i >= name.len() {
        -1
    } else if name[i] == '.' {
        i
    } else {
        dot_at(name, i + 1)
    }
}

proof fn lemma_dot_at(name: Seq<char>, i: int)
    requires
        0 <= i,
    ensures
        dot_at(name, i) == -1 || i <= dot_at(name, i) < name.len(),
    decreases name.len() - i,
{
    if i < name.len() && name[i] != '.' {
        lemma_dot_at(name, i + 1);
    }
}

/// Luau compiler settings.
#[derive(Debug)]
pub struct Compiler {
    pub optimization: OptimizationLevel,
    pub debug: DebugLevel,
    pub type_info: TypeInfoLevel,
    pub coverage: CoverageLevel,
    pub globals: Vec<String>,
    pub userdata: Vec<String>,
    pub libraries_with_known_members: Vec<String>,
    pub library_constants: Vec<LibraryConstant>,
    pub disabled: Vec<String>,
}

/// Model of a [`Compiler`].
#[verifier::ext_equal]
pub struct CompilerModel {
    pub optimization: OptimizationLevel,
    pub debug: DebugLevel,
    pub type_info: TypeInfoLevel,
    pub coverage: CoverageLevel,
    pub globals: Seq<Seq<char>>,
    pub userdata: Seq<Seq<char>>,
    pub libraries: Seq<Seq<char>>,
    pub constants: Map<(Seq<char>, Seq<char>), ConstantModel>,
    pub disabled: Seq<Seq<char>>,
}

/// The constants of all library members.
pub open spec fn constants_of(entries: Seq<LibraryConstant>) -> Map<
    (Seq<char>, Seq<char>),
    ConstantModel,
> {
    Map::new(
        |k: (Seq<char>, Seq<char>)| constant_from(entries, k.0, k.1, 0) is Some,
        |k: (Seq<char>, Seq<char>)| constant_from(entries, k.0, k.1, 0)->0,
    )
}

/// The settings that a new compiler has.
pub open spec fn default_compiler() -> CompilerModel {
    CompilerModel {
        optimization: OptimizationLevel::Debug,
        debug: DebugLevel::LineInfo,
        type_info: TypeInfoLevel::NativeModules,
        coverage: CoverageLevel::Off,
        globals: Seq::empty(),
        userdata: Seq::empty(),
        libraries: Seq::empty(),
        constants: Map::empty(),
        disabled: Seq::empty(),
    }
}

/// Settings with one more constant; a name without a dot changes nothing.
pub open spec fn with_constant(c: CompilerModel, name: Seq<char>, value: ConstantModel) -> CompilerModel {
    let at = dot_at(name, 0);
    if at < 0 {
        c
    } else {
        let library = name.take(at);
        let member = name.skip(at + 1);
        CompilerModel {
            libraries: if c.libraries.contains(library) {
                c.libraries
            } else {
                c.libraries.push(library)
            },
            constants: c.constants.insert((library, member), value),
            ..c
        }
    }
}

impl Default for Compiler {
    fn default() -> (r: Self)
        ensures
            r@ == default_compiler(),
    {
        Compiler::new()
    }
}

impl Compiler {
    pub open spec fn view(&self) -> CompilerModel {
        CompilerModel {
            optimization: self.optimization,
            debug: self.debug,
            type_info: self.type_info,
            coverage: self.coverage,
            globals: texts(self.globals@),
            userdata: texts(self.userdata@),
            libraries: texts(self.libraries_with_known_members@),
            constants: constants_of(self.library_constants@),
            disabled: texts(self.disabled@),
        }
    }

    /// Creates a compiler with default options.
    pub fn new() -> (r: Self)
        ensures
            r@ == default_compiler(),
    {
        let r = Compiler {
            optimization: OptimizationLevel::Debug,
            debug: DebugLevel::LineInfo,
            type_info: TypeInfoLevel::NativeModules,
            coverage: CoverageLevel::Off,
            globals: Vec::new(),
            userdata: Vec::new(),
            libraries_with_known_members: Vec::new(),
            library_constants: Vec::new(),
            disabled: Vec::new(),
        };
        assert(r@ =~= default_compiler());
        r
    }

    /// Sets the optimization level.
    pub fn optimization_level(self, level: OptimizationLevel) -> (r: Self)
        ensures
            r@ == (CompilerModel { optimization: level, ..self@ }),
    {
        Compiler { optimization: level, ..self }
    }

    /// Sets the debug level.
    pub fn debug_level(self, level: DebugLevel) -> (r: Self)
        ensures
            r@ == (CompilerModel { debug: level, ..self@ }),
    {
        Compiler { debug: level, ..self }
    }

    /// Sets the type information level used to guide native code generation decisions.
    pub fn type_info_level(self, level: TypeInfoLevel) -> (r: Self)
        ensures
            r@ == (CompilerModel { type_info: level, ..self@ }),
    {
        Compiler { type_info: level, ..self }
    }

    /// Sets the code coverage level.
    pub fn coverage_level(self, level: CoverageLevel) -> (r: Self)
        ensures
            r@ == (CompilerModel { coverage: level, ..self@ }),
    {
        Compiler { coverage: level, ..self }
    }

    /// Sets a list of globals that are mutable.
    pub fn mutable_globals(self, globals: Vec<String>) -> (r: Self)
        ensures
            r@ == (CompilerModel { globals: texts(globals@), ..self@ }),
    {
        Compiler { globals, ..self }
    }

    /// Sets a list of userdata types that will be included in the type information.
    pub fn userdata_types(self, types: Vec<String>) -> (r: Self)
        ensures
            r@ == (CompilerModel { userdata: texts(types@), ..self@ }),
    {
        Compiler { userdata: types, ..self }
    }

    /// Sets a list of builtins that should be disabled.
    pub fn disabled_builtins(self, builtins: Vec<String>) -> (r: Self)
        ensures
            r@ == (CompilerModel { disabled: texts(builtins@), ..self@ }),
    {
        Compiler { disabled: builtins, ..self }
    }

    /// Adds a constant for a known library member.
    ///
    /// The `name` is a string in the format `lib.member`, where `lib` is the
    /// library name and `member` is the member (constant) name.
    pub fn add_library_constant(self, name: &str, constant: CompileConstant) -> (r: Self)
        ensures
            r@ == with_constant(self@, name@, constant@),
    {
        let chars: Vec<char> = chars_of(name);
        let ghost given = self@;
        let total: usize = chars.len();
        proof {
            lemma_dot_at(chars@, 0);
        }
        let mut at: usize = 0;
        while at < total && chars[at] != '.'
            invariant
                at <= total,
                total == chars@.len(),
                dot_at(chars@, at as int) == dot_at(chars@, 0),
            decreases total - at,
        {
            at += 1;
        }
        if at >= total {
            return self;
        }
        let library = string_of(slice_subrange(chars.as_slice(), 0, at));
        let member = string_of(slice_subrange(chars.as_slice(), at + 1, total));
        assert(library@ =~= name@.take(at as int));
        assert(member@ =~= name@.skip(at + 1));
        let mut libraries = self.libraries_with_known_members;
        let ghost known = texts(libraries@);
        if !lists_text(&libraries, library.as_str()) {
            libraries.push(library.clone());
            assert(texts(libraries@) =~= known.push(library@));
        }
        let mut constants = self.library_constants;
        let ghost before = constants@;
        put_constant(&mut constants, library, member, constant);
        let r = Compiler {
            optimization: self.optimization,
            debug: self.debug,
            type_info: self.type_info,
            coverage: self.coverage,
            globals: self.globals,
            userdata: self.userdata,
            libraries_with_known_members: libraries,
            library_constants: constants,
            disabled: self.disabled,
        };
        assert(r@ =~= with_constant(given, name@, constant@));
        r
    }

    /// Adds a compile-time constant under the built-in `vector` library.
    pub fn add_vector_constant(self, member: &str, x: u32, y: u32, z: u32) -> (r: Self)
        ensures
            r@ == with_constant(self@, "vector."@ + member@, ConstantModel::Vector(x, y, z)),
    {
        let name = "vector.".to_owned().concat(member);
        self.add_library_constant(name.as_str(), CompileConstant::Vector(x, y, z))
    }

    /// Looks the constant of a library member up, as the compiler asks for it.
    pub fn library_constant(&self, library: &str, member: &str) -> (r: Option<&CompileConstant>)
        ensures
            match r {
                Some(c) => self@.constants.dom().contains((library@, member@))
                    && self@.constants[(library@, member@)] == c@,
                None => !self@.constants.dom().contains((library@, member@)),
            },
    {
        let entries = &self.library_constants;
        let mut i: usize = 0;
        while i < entries.len()
            invariant
                i <= entries.len(),
                entries@ == self.library_constants@,
                constant_from(entries@, library@, member@, i as int) == constant_from(
                    entries@,
                    library@,
                    member@,
                    0,
                ),
            decreases entries.len() - i,
        {
            if same_text(entries[i].library.as_str(), library) && same_text(
                entries[i].member.as_str(),
                member,
            ) {
                return Some(&entries[i].value);
            }
            i += 1;
        }
        None
    }
}

/// Entries before the change do not decide what it changes.
proof fn lemma_put_constant(
    before: Seq<LibraryConstant>,
    after: Seq<LibraryConstant>,
    at: int,
    library: Seq<char>,
    member: Seq<char>,
    l: Seq<char>,
    m: Seq<char>,
    i: int,
)
    requires
        0 <= i,
        0 <= at < after.len(),
        before.len() == after.len() || (before.len() == at && after.len() == at + 1),
        forall|k: int| 0 <= k < before.len() && k != at ==> #[trigger] after[k] == before[k],
        forall|k: int|
            0 <= k < at ==> !((#[trigger] before[k]).library@ == library && before[k].member@
                == member),
        at < before.len() ==> before[at].library@ == library && before[at].member@ == member,
        after[at].library@ == library,
        after[at].member@ == member,
    ensures
        i <= at && l == library && m == member ==> constant_from(after, l, m, i) == Some(
            after[at].value@,
        ),
        !(l == library && m == member) ==> constant_from(after, l, m, i) == constant_from(
            before,
            l,
            m,
            i,
        ),
    decreases after.len() - i,
{
    if i < after.len() {
        if i < before.len() && i != at {
            assert(after[i] == before[i]);
        }
        lemma_put_constant(before, after, at, library, member, l, m, i + 1);
    }
}

/// Sets the constant of a library member.
fn put_constant(
    entries: &mut Vec<LibraryConstant>,
    library: String,
    member: String,
    value: CompileConstant,
)
    ensures
        constants_of(final(entries)@) == constants_of(old(entries)@).insert(
            (library@, member@),
            value@,
        ),
{
    let ghost before = entries@;
    let mut at: usize = 0;
    while at < entries.len() && !(same_text(entries[at].library.as_str(), library.as_str())
        && same_text(entries[at].member.as_str(), member.as_str()))
        invariant
            at <= entries.len(),
            entries@ == before,
            forall|k: int|
                0 <= k < at ==> !((#[trigger] before[k]).library@ == library@
                    && before[k].member@ == member@),
        decreases entries.len() - at,
    {
        at += 1;
    }
    let ghost l = library@;
    let ghost m = member@;
    let entry = LibraryConstant { library, member, value };
    if at < entries.len() {
        entries.set(at, entry);
    } else {
        entries.push(entry);
    }
    proof {
        let after = entries@;
        let want = constants_of(before).insert((l, m), value@);
        assert forall|k: (Seq<char>, Seq<char>)|
            #![trigger constants_of(after).dom().contains(k)]
            constants_of(after).dom().contains(k) == want.dom().contains(k) && (
            want.dom().contains(k) ==> constants_of(after)[k] == want[k]) by {
            lemma_put_constant(before, after, at as int, l, m, k.0, k.1, 0);
            assert(k == (k.0, k.1));
        }
        assert(constants_of(after) =~= want);
    }
}

/// Whether some name holds a NUL, which the compiler's interface cannot take.
pub open spec fn holds_nul(names: Seq<Seq<char>>) -> bool {
    exists|i: int| 0 <= i < names.len() && (#[trigger] names[i]).contains('\0')
}

/// The names that the compiler is handed: all of them, or none where one holds
/// a NUL.
pub open spec fn passable(names: Seq<Seq<char>>) -> Seq<Seq<char>> {
    if holds_nul(names) {
        Seq::empty()
    } else {
        names
    }
}

/// What the compiler is asked, beside the source.
#[derive(Debug)]
pub struct CompileRequest {
    pub optimization_level: i32,
    pub debug_level: i32,
    pub type_info_level: i32,
    pub coverage_level: i32,
    pub mutable_globals: Vec<String>,
    pub userdata_types: Vec<String>,
    pub libraries_with_known_members: Vec<String>,
    pub disabled_builtins: Vec<String>,
    /// Whether the compiler may ask for library constants.
    pub offers_constants: bool,
}

/// Tests for a NUL character.
fn has_nul(s: &str) -> (r: bool)
    ensures
        r == s@.contains('\0'),
{
    let chars: Vec<char> = chars_of(s);
    let mut i: usize = 0;
    while i < chars.len()
        invariant
            i <= chars.len(),
            chars@ == s@,
            forall|k: int| 0 <= k < i ==> s@[k] != '\0',
        decreases chars.len() - i,
    {
        if chars[i] == '\0' {
            assert(s@[i as int] == '\0');
            return true;
        }
        i += 1;
    }
    false
}

/// Copies the names that the compiler is handed.
fn passable_names(names: &Vec<String>) -> (r: Vec<String>)
    ensures
        texts(r@) == passable(texts(names@)),
{
    let mut out: Vec<String> = Vec::new();
    let mut i: usize = 0;
    while i < names.len()
        invariant
            i <= names.len(),
            out@.len() == i,
            forall|k: int|
                0 <= k < i ==> (#[trigger] out@[k])@ == names@[k]@ && !names@[k]@.contains('\0'),
        decreases names.len() - i,
    {
        if has_nul(names[i].as_str()) {
            let none: Vec<String> = Vec::new();
            assert(texts(names@)[i as int].contains('\0'));
            assert(texts(none@) =~= Seq::empty());
            return none;
        }
        out.push(names[i].clone());
        i += 1;
    }
    assert forall|k: int| 0 <= k < texts(names@).len() implies !(
    #[trigger] texts(names@)[k]).contains('\0') by {
        assert(out@[k]@ == names@[k]@);
    }
    assert(texts(out@) =~= texts(names@));
    out
}

/// Whether a compiler has constants to offer.
pub open spec fn offers(c: Compiler) -> bool {
    c.library_constants@.len() > 0 && c.libraries_with_known_members@.len() > 0
}

/// What an answer of the compiler stands for. An answer that starts with a
/// zero byte and a colon holds the message of a syntax error; anything else is
/// bytecode.
pub open spec fn answer_of(answer: Seq<u8>) -> Result<Seq<u8>, ErrorModel> {
    if answer.len() > 0 && answer[0] == 0 {
        let message = lossy_text(answer.skip(2));
        Err(ErrorModel::SyntaxError { message, incomplete_input: ends(message, "<eof>"@) })
    } else {
        Ok(answer)
    }
}

impl Compiler {
    /// What the compiler is to be asked under these settings.
    pub fn request(&self) -> (r: CompileRequest)
        ensures
            r.optimization_level == self.optimization.number(),
            r.debug_level == self.debug.number(),
            r.type_info_level == self.type_info.number(),
            r.coverage_level == self.coverage.number(),
            texts(r.mutable_globals@) == passable(self@.globals),
            texts(r.userdata_types@) == passable(self@.userdata),
            texts(r.libraries_with_known_members@) == passable(self@.libraries),
            texts(r.disabled_builtins@) == passable(self@.disabled),
            r.offers_constants == offers(*self),
    {
        CompileRequest {
            optimization_level: self.optimization.code(),
            debug_level: self.debug.code(),
            type_info_level: self.type_info.code(),
            coverage_level: self.coverage.code(),
            mutable_globals: passable_names(&self.globals),
            userdata_types: passable_names(&self.userdata),
            libraries_with_known_members: passable_names(&self.libraries_with_known_members),
            disabled_builtins: passable_names(&self.disabled),
            offers_constants: self.library_constants.len() > 0
                && self.libraries_with_known_members.len() > 0,
        }
    }

    /// Takes the compiler's answer to a request: bytecode, or
    /// [`Error::SyntaxError`] if the source code is invalid.
    pub fn compile(answer: Vec<u8>) -> (r: Result<Vec<u8>, Error>)
        requires
            answer@.len() > 0 && answer@[0] == 0 ==> answer@.len() >= 2,
        ensures
            match r {
                Ok(bytecode) => answer_of(answer@) == Ok::<_, ErrorModel>(bytecode@),
                Err(e) => answer_of(answer@) == Err::<Seq<u8>, _>(e@),
            },
    {
        if answer.len() > 0 && answer[0] == 0 {
            let total: usize = answer.len();
            let rest = slice_subrange(answer.as_slice(), 2, total);
            assert(rest@ =~= answer@.skip(2));
            let message = lossy_string(rest);
            let chars: Vec<char> = chars_of(message.as_str());
            let incomplete_input = has_suffix(chars.as_slice(), "<eof>");
            return Err(Error::SyntaxError { message, incomplete_input });
        }
        Ok(answer)
    }
}

/// A chunk that is to be loaded.
#[derive(Debug)]
pub struct Chunk {
    pub label: String,
    pub mode: ChunkMode,
    /// The source, or the message of the failure to read it.
    pub source: Result<Vec<u8>, String>,
    pub settings: Option<Compiler>,
}

/// Model of a [`Chunk`].
pub struct ChunkModel {
    pub label: Seq<char>,
    pub mode: ChunkMode,
    pub source: Result<Seq<u8>, Seq<char>>,
    pub settings: Option<CompilerModel>,
}

/// The bytes of `return `, by which a chunk is tried as an expression.
pub open spec fn return_prefix() -> Seq<u8> {
    seq![114u8, 101u8, 116u8, 117u8, 114u8, 110u8, 32u8]
}

/// A chunk once an answer of the compiler is in: bytecode takes the place of
/// the text, unless there is no text or the compiler refused it.
pub open spec fn compiled(c: ChunkModel, answer: Result<Seq<u8>, ErrorModel>) -> ChunkModel {
    if c.source is Err || c.mode != ChunkMode::Text {
        c
    } else {
        let settings = if c.settings is Some {
            c.settings
        } else {
            Some(default_compiler())
        };
        match answer {
            Ok(bytecode) => ChunkModel {
                source: Ok(bytecode),
                mode: ChunkMode::Binary,
                settings,
                ..c
            },
            Err(_) => ChunkModel { settings, ..c },
        }
    }
}

/// A compilation result by its model.
pub open spec fn answer_model(answer: Result<Vec<u8>, Error>) -> Result<Seq<u8>, ErrorModel> {
    match answer {
        Ok(bytes) => Ok(bytes@),
        Err(e) => Err(e@),
    }
}

impl Chunk {
    pub open spec fn view(&self) -> ChunkModel {
        ChunkModel {
            label: self.label@,
            mode: self.mode,
            source: match self.source {
                Ok(bytes) => Ok(bytes@),
                Err(message) => Err(message@),
            },
            settings: match self.settings {
                Some(c) => Some(c@),
                None => None,
            },
        }
    }

    /// Sets the name of this chunk, which results in more informative error traces.
    pub fn name(self, name: &str) -> (r: Self)
        ensures
            r@ == (ChunkModel { label: name@, ..self@ }),
    {
        Chunk { label: name.to_owned(), ..self }
    }

    /// Sets or overwrites the compiler used for this chunk.
    pub fn compiler(self, compiler: Compiler) -> (r: Self)
        ensures
            r@ == (ChunkModel { settings: Some(compiler@), ..self@ }),
    {
        Chunk { settings: Some(compiler), ..self }
    }

    /// Whether the chunk is compiled before it is loaded: only where a compiler
    /// was set.
    pub fn needs_compile(&self) -> (r: bool)
        ensures
            r == (self@.settings is Some),
    {
        self.settings.is_some()
    }

    /// Takes a compilation result into the chunk and changes its mode to
    /// binary.
    ///
    /// It does nothing if the chunk is already binary or invalid.
    pub fn compile(&mut self, answer: Result<Vec<u8>, Error>)
        ensures
            final(self)@ == compiled(old(self)@, answer_model(answer)),
    {
        if self.source.is_err() || self.mode != ChunkMode::Text {
            return;
        }
        if self.settings.is_none() {
            self.settings = Some(Compiler::new());
        }
        match answer {
            Ok(bytecode) => {
                self.source = Ok(bytecode);
                self.mode = ChunkMode::Binary;
            },
            Err(_) => {},
        }
    }

    /// The source of this chunk as an expression: `return` and the text.
    pub fn expression_source(source: &[u8]) -> (r: Vec<u8>)
        ensures
            r@ == return_prefix() + source@,
    {
        let mut out: Vec<u8> = Vec::new();
        out.push(114);
        out.push(101);
        out.push(116);
        out.push(117);
        out.push(114);
        out.push(110);
        out.push(32);
        let mut i: usize = 0;
        assert(out@ =~= return_prefix() + source@.take(0));
        while i < source.len()
            invariant
                i <= source.len(),
                out@ == return_prefix() + source@.take(i as int),
            decreases source.len() - i,
        {
            out.push(source[i]);
            assert(out@ =~= return_prefix() + source@.take(i + 1));
            i += 1;
        }
        assert(source@.take(i as int) =~= source@);
        out
    }

    /// The text to try as an expression, or the failure to read the chunk.
    pub fn to_expression(&self) -> (r: Result<Vec<u8>, Error>)
        ensures
            match (r, self@.source) {
                (Ok(text), Ok(source)) => text@ == return_prefix() + source,
                (Err(e), Err(message)) => e@ == ErrorModel::RuntimeError(message),
                _ => false,
            },
    {
        match &self.source {
            Ok(source) => Ok(Chunk::expression_source(source.as_slice())),
            Err(message) => Err(Error::runtime(message.as_str())),
        }
    }

    /// The failure of a name that the loader's interface cannot take; `fault`
    /// says why.
    pub fn invalid_name(fault: &str) -> (r: Error)
        ensures
            r@ == ErrorModel::RuntimeError("invalid name: "@ + fault@),
    {
        Error::runtime("invalid name: ".to_owned().concat(fault).as_str())
    }

    /// Takes the bytecode of this chunk from the cache. Tells whether it was
    /// there.
    pub fn fetch_cached(&mut self, cache: &ChunkCache) -> (r: bool)
        ensures
            ({
                let found = if old(self).mode == ChunkMode::Text && old(self)@.source is Ok {
                    cache.lookup(old(self)@.source->Ok_0)
                } else {
                    None
                };
                &&& r == (found is Some)
                &&& final(self)@ == (match found {
                    Some(bytecode) => ChunkModel {
                        source: Ok(bytecode),
                        mode: ChunkMode::Binary,
                        ..old(self)@
                    },
                    None => old(self)@,
                })
            }),
    {
        if self.mode != ChunkMode::Text {
            return false;
        }
        let found = match &self.source {
            Ok(text) => cache.get(text.as_slice()),
            Err(_) => None,
        };
        match found {
            Some(bytecode) => {
                self.source = Ok(bytecode);
                self.mode = ChunkMode::Binary;
                true
            },
            None => false,
        }
    }

    /// Takes a compilation result into the chunk, and into the cache where it
    /// is bytecode.
    pub fn try_cache(&mut self, cache: &mut ChunkCache, answer: Result<Vec<u8>, Error>)
        ensures
            final(self)@ == compiled(old(self)@, answer_model(answer)),
            forall|text: Seq<u8>|
                #[trigger] final(cache).lookup(text) == (if old(self).mode == ChunkMode::Text
                    && old(self)@.source == Ok::<_, Seq<char>>(text) && answer is Ok {
                    Some(answer->Ok_0@)
                } else {
                    old(cache).lookup(text)
                }),
    {
        if self.mode == ChunkMode::Text {
            match (&self.source, &answer) {
                (Ok(text), Ok(bytecode)) => {
                    cache.insert(slice_to_vec(text.as_slice()), slice_to_vec(bytecode.as_slice()));
                },
                _ => {},
            }
        }
        self.compile(answer);
    }
}

/// Compiled chunks by their text.
#[derive(Debug)]
pub struct ChunkCache {
    pub entries: Vec<(Vec<u8>, Vec<u8>)>,
}

/// The bytecode of the first entry for a text at or after `i`.
pub open spec fn cached_from(entries: Seq<(Vec<u8>, Vec<u8>)>, text: Seq<u8>, i: int) -> Option<
    Seq<u8>,
>
    decreases entries.len() - i,
{
    if i < 0 || i >= entries.len() {
        None
    } else if entries[i].0@ == text {
        Some(entries[i].1@)
    } else {
        cached_from(entries, text, i + 1)
    }
}

/// An entry put in the place of the first one for its text, or behind all
/// others, is the one for its text and for no other.
proof fn lemma_cache_put(
    before: Seq<(Vec<u8>, Vec<u8>)>,
    after: Seq<(Vec<u8>, Vec<u8>)>,
    at: int,
    text: Seq<u8>,
    i: int,
)
    requires
        0 <= i,
        0 <= at < after.len(),
        before.len() == after.len() || (before.len() == at && after.len() == at + 1),
        forall|k: int| 0 <= k < before.len() && k != at ==> #[trigger] after[k] == before[k],
        forall|k: int| 0 <= k < at ==> (#[trigger] before[k]).0@ != after[at].0@,
        at < before.len() ==> before[at].0@ == after[at].0@,
    ensures
        i <= at && text == after[at].0@ ==> cached_from(after, text, i) == Some(after[at].1@),
        text != after[at].0@ ==> cached_from(after, text, i) == cached_from(before, text, i),
    decreases after.len() - i,
{
    if i < after.len() {
        if i < before.len() && i != at {
            assert(after[i] == before[i]);
        }
        lemma_cache_put(before, after, at, text, i + 1);
    }
}

impl ChunkCache {
    /// The bytecode of a text.
    pub open spec fn lookup(&self, text: Seq<u8>) -> Option<Seq<u8>> {
        cached_from(self.entries@, text, 0)
    }

    /// A cache that holds nothing.
    pub fn new() -> (r: Self)
        ensures
            forall|text: Seq<u8>| #[trigger] r.lookup(text) is None,
    {
        ChunkCache { entries: Vec::new() }
    }

    /// Looks the bytecode of a text up.
    pub fn get(&self, text: &[u8]) -> (r: Option<Vec<u8>>)
        ensures
            match r {
                Some(bytecode) => self.lookup(text@) == Some(bytecode@),
                None => self.lookup(text@) is None,
            },
    {
        let mut i: usize = 0;
        while i < self.entries.len()
            invariant
                i <= self.entries.len(),
                cached_from(self.entries@, text@, i as int) == cached_from(self.entries@, text@, 0),
            decreases self.entries.len() - i,
        {
            if same_bytes(self.entries[i].0.as_slice(), text) {
                return Some(slice_to_vec(self.entries[i].1.as_slice()));
            }
            i += 1;
        }
        None
    }

    /// Sets the bytecode of a text.
    pub fn insert(&mut self, text: Vec<u8>, bytecode: Vec<u8>)
        ensures
            forall|t: Seq<u8>|
                #[trigger] final(self).lookup(t) == (if t == text@ {
                    Some(bytecode@)
                } else {
                    old(self).lookup(t)
                }),
    {
        let ghost before = self.entries@;
        let mut at: usize = 0;
        while at < self.entries.len() && !same_bytes(
            self.entries[at].0.as_slice(),
            text.as_slice(),
        )
            invariant
                at <= self.entries.len(),
                self.entries@ == before,
                forall|k: int| 0 <= k < at ==> (#[trigger] before[k]).0@ != text@,
            decreases self.entries.len() - at,
        {
            at += 1;
        }
        if at < self.entries.len() {
            self.entries.set(at, (text, bytecode));
        } else {
            self.entries.push((text, bytecode));
        }
        proof {
            assert forall|t: Seq<u8>|
                #[trigger] self.lookup(t) == (if t == text@ {
                    Some(bytecode@)
                } else {
                    cached_from(before, t, 0)
                }) by {
                lemma_cache_put(before, self.entries@, at as int, t, 0);
            }
        }
    }
}

/// A constant that was added is the one of its library member, and adding it
/// makes its library known and changes no other constant.
pub proof fn law_constant_reads_back(c: CompilerModel, name: Seq<char>, value: ConstantModel)
    requires
        dot_at(name, 0) >= 0,
    ensures
        ({
            let key = (name.take(dot_at(name, 0)), name.skip(dot_at(name, 0) + 1));
            let after = with_constant(c, name, value);
            &&& after.constants.dom().contains(key)
            &&& after.constants[key] == value
            &&& after.libraries.contains(key.0)
            &&& forall|other: (Seq<char>, Seq<char>)|
                other != key ==> (#[trigger] after.constants.dom().contains(other)
                    == c.constants.dom().contains(other)) && (c.constants.dom().contains(other)
                    ==> after.constants[other] == c.constants[other])
        }),
{
    let library = name.take(dot_at(name, 0));
    if !c.libraries.contains(library) {
        assert(c.libraries.push(library)[c.libraries.len() as int] == library);
    }
}

/// A chunk that is binary already stays as it is.
pub proof fn law_compile_once(c: ChunkModel, first: Seq<u8>, second: Result<Seq<u8>, ErrorModel>)
    ensures
        compiled(compiled(c, Ok(first)), second) == compiled(c, Ok(first)),
{
}

/// An answer of the compiler that does not start with a zero byte is bytecode
/// as it is. Any other is a syntax error with the message behind its mark, and
/// counts as incomplete input where the message ends with the end of the file.
pub proof fn law_answers_are_told_apart(answer: Seq<u8>)
    ensures
        answer.len() == 0 || answer[0] != 0 ==> answer_of(answer) == Ok::<_, ErrorModel>(answer),
        answer.len() > 0 && answer[0] == 0 ==> (answer_of(answer) matches Err(
            ErrorModel::SyntaxError { message, incomplete_input },
        ) && message == lossy_text(answer.skip(2)) && (incomplete_input <==> ends(
            message,
            "<eof>"@,
        ))),
{
}

/// Bytecode takes the place of the text of a chunk under the same label; a
/// refused text stays, and so does a chunk that is no text.
pub proof fn law_compiled_chunk_is_bytecode(
    c: ChunkModel,
    bytecode: Seq<u8>,
    fault: ErrorModel,
)
    ensures
        compiled(c, Ok(bytecode)).label == c.label,
        c.source is Ok && c.mode == ChunkMode::Text ==> compiled(c, Ok(bytecode)).source == Ok::<
            _,
            Seq<char>,
        >(bytecode) && compiled(c, Ok(bytecode)).mode == ChunkMode::Binary,
        compiled(c, Err(fault)).source == c.source && compiled(c, Err(fault)).mode == c.mode
            && compiled(c, Err(fault)).label == c.label,
        c.source is Err || c.mode == ChunkMode::Binary ==> compiled(c, Ok(bytecode)) == c,
        c.settings is Some ==> compiled(c, Ok(bytecode)).settings == c.settings,
{
}

/// A name is split at its first dot into a library and a member.
pub proof fn law_constant_name_is_split(library: Seq<char>, member: Seq<char>)
    requires
        forall|k: int| 0 <= k < library.len() ==> #[trigger] library[k] != '.',
    ensures
        dot_at(library + "."@ + member, 0) == library.len(),
        (library + "."@ + member).take(library.len() as int) == library,
        (library + "."@ + member).skip(library.len() as int + 1) == member,
        dot_at(library, 0) == -1,
{
    reveal_strlit(".");
    let name = library + "."@ + member;
    assert(name[library.len() as int] == '.');
    assert(name.take(library.len() as int) =~= library);
    lemma_first_dot(name, library, 0);
    lemma_no_dot(library, 0);
    assert(name.take(library.len() as int) =~= library);
    assert(name.skip(library.len() as int + 1) =~= member);
}

proof fn lemma_first_dot(name: Seq<char>, library: Seq<char>, i: int)
    requires
        0 <= i <= library.len() < name.len(),
        name[library.len() as int] == '.',
        name.take(library.len() as int) == library,
        forall|k: int| 0 <= k < library.len() ==> #[trigger] library[k] != '.',
    ensures
        dot_at(name, i) == library.len(),
    decreases library.len() - i,
{
    if i < library.len() {
        assert(name.take(library.len() as int)[i] == name[i]);
        lemma_first_dot(name, library, i + 1);
    }
}

proof fn lemma_no_dot(name: Seq<char>, i: int)
    requires
        0 <= i <= name.len(),
        forall|k: int| 0 <= k < name.len() ==> #[trigger] name[k] != '.',
    ensures
        dot_at(name, i) == -1,
    decreases name.len() - i,
{
    if i < name.len() {
        lemma_no_dot(name, i + 1);
    }
}

} // verus!
