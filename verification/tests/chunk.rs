//! Chunks and compiler settings.
use ruau::chunk::{
    AsChunk, Chunk, ChunkCache, ChunkMode, CompileConstant, Compiler, CoverageLevel, DebugLevel,
    OptimizationLevel, TypeInfoLevel,
};
use ruau::compile::{compile_for, invalid_artifact, restrict_options, CompileInput, CompileOptions};
use ruau::error::Error;

fn chunk(text: &str) -> Chunk {
    Chunk {
        label: "chunk".to_owned(),
        mode: ChunkMode::Text,
        source: Ok(text.as_bytes().to_vec()),
        settings: None,
    }
}

fn names(list: &[&str]) -> Vec<String> {
    list.iter().map(|name| (*name).to_owned()).collect()
}

#[test]
fn texts_and_bytes_are_chunks() {
    assert_eq!(b"return 1".to_vec(), AsChunk::source(&"return 1").expect("text"));
    assert_eq!(b"x".to_vec(), AsChunk::source(&"x".to_owned()).expect("text"));
    assert_eq!(vec![0xff], AsChunk::source(&vec![0xff_u8]).expect("bytes"));
    assert!(AsChunk::name(&"return 1").is_none());
    let text = "x".to_owned();
    assert_eq!(b"x".to_vec(), AsChunk::source(&&text).expect("text"));
    let bytes = vec![1_u8, 2];
    assert_eq!(bytes, AsChunk::source(&&bytes).expect("bytes"));
    assert_eq!(vec![1], AsChunk::source(&&bytes[..1]).expect("bytes"));
    let boxed = Box::new("return 2");
    assert_eq!(b"return 2".to_vec(), AsChunk::source(&boxed).expect("text"));
    assert!(AsChunk::name(&boxed).is_none());
}

#[test]
fn compilers_start_from_the_defaults() {
    let request = Compiler::new().request();
    assert_eq!(
        (1, 1, 0, 0),
        (
            request.optimization_level,
            request.debug_level,
            request.type_info_level,
            request.coverage_level
        )
    );
    assert!(!request.offers_constants);
    let request = Compiler::default()
        .optimization_level(OptimizationLevel::Release)
        .debug_level(DebugLevel::Full)
        .type_info_level(TypeInfoLevel::AllModules)
        .coverage_level(CoverageLevel::StatementAndExpression)
        .mutable_globals(names(&["a", "b"]))
        .userdata_types(names(&["T"]))
        .disabled_builtins(names(&["math.max"]))
        .request();
    assert_eq!(
        (2, 2, 1, 2),
        (
            request.optimization_level,
            request.debug_level,
            request.type_info_level,
            request.coverage_level
        )
    );
    assert_eq!(names(&["a", "b"]), request.mutable_globals);
    assert_eq!(names(&["T"]), request.userdata_types);
    assert_eq!(names(&["math.max"]), request.disabled_builtins);
    assert_eq!((0, 0), (OptimizationLevel::Off.code(), DebugLevel::Off.code()));
    assert_eq!((0, 1), (CoverageLevel::Off.code(), CoverageLevel::Statement.code()));
}

#[test]
fn names_with_a_nul_are_not_passed() {
    let request = Compiler::new().mutable_globals(names(&["a", "b\0c"])).request();
    assert!(request.mutable_globals.is_empty());
}

#[test]
fn library_constants_read_back() {
    let compiler = Compiler::new()
        .add_library_constant("lib.answer", CompileConstant::Boolean(false))
        .add_library_constant("lib.answer", CompileConstant::Boolean(true))
        .add_library_constant("lib.sub.name", CompileConstant::String("x".to_owned()))
        .add_library_constant("undotted", CompileConstant::Nil)
        .add_vector_constant("up", 0, 0x3f80_0000, 0);
    assert!(matches!(
        compiler.library_constant("lib", "answer"),
        Some(CompileConstant::Boolean(true))
    ));
    assert!(matches!(
        compiler.library_constant("lib", "sub.name"),
        Some(CompileConstant::String(s)) if s == "x"
    ));
    assert!(matches!(
        compiler.library_constant("vector", "up"),
        Some(CompileConstant::Vector(0, 0x3f80_0000, 0))
    ));
    assert!(compiler.library_constant("undotted", "").is_none());
    let request = compiler.request();
    assert!(request.offers_constants);
    assert_eq!(names(&["lib", "vector"]), request.libraries_with_known_members);
}

#[test]
fn answers_are_bytecode_or_syntax_errors() {
    assert_eq!(vec![6, 1], Compiler::compile(vec![6, 1]).expect("bytecode"));
    assert!(Compiler::compile(Vec::new()).expect("empty").is_empty());
    let error = Compiler::compile(b"\0:1: near <eof>".to_vec()).expect_err("syntax");
    assert!(matches!(
        &error,
        Error::SyntaxError { message, incomplete_input: true } if message == "1: near <eof>"
    ));
    let error = Compiler::compile(b"\0:bad \xff".to_vec()).expect_err("syntax");
    assert!(matches!(
        &error,
        Error::SyntaxError { message, incomplete_input: false } if message == "bad \u{fffd}"
    ));
}

#[test]
fn a_chunk_is_compiled_once() {
    let mut c = chunk("return 1").name("main");
    assert!(!c.needs_compile());
    c.compile(Ok(vec![6]));
    assert_eq!(ChunkMode::Binary, c.mode);
    assert!(c.needs_compile());
    c.compile(Ok(vec![7]));
    assert_eq!(vec![6], c.source.expect("bytecode"));
    let mut refused = chunk("return (").compiler(Compiler::new());
    refused.compile(Err(Error::runtime("bad")));
    assert_eq!(ChunkMode::Text, refused.mode);
}

#[test]
fn compiled_chunks_are_cached_by_their_text() {
    let mut cache = ChunkCache::new();
    let mut first = chunk("return 1");
    assert!(!first.fetch_cached(&cache));
    first.try_cache(&mut cache, Ok(vec![6]));
    assert_eq!(ChunkMode::Binary, first.mode);
    let mut second = chunk("return 1");
    assert!(second.fetch_cached(&cache));
    assert_eq!(vec![6], second.source.expect("cached"));
    assert!(!chunk("return 2").fetch_cached(&cache));
    let mut refused = chunk("return (");
    refused.try_cache(&mut cache, Err(Error::runtime("bad")));
    assert!(cache.get(b"return (").is_none());
    cache.insert(b"return 1".to_vec(), vec![8]);
    assert_eq!(Some(vec![8]), cache.get(b"return 1"));
}

#[test]
fn chunks_are_tried_as_expressions() {
    assert_eq!(b"return 1 + 1".to_vec(), chunk("1 + 1").to_expression().expect("source"));
    let unread = Chunk { source: Err("gone".to_owned()), ..chunk("") };
    assert_eq!("runtime error: gone", unread.to_expression().expect_err("unread").message());
    assert_eq!("runtime error: invalid name: nul", Chunk::invalid_name("nul").message());
}

#[test]
fn profiles_make_omitted_libraries_mutable() {
    let base =
        CompileOptions { mutable_globals: names(&["mine"]), clear_dead_stack_slots: false };
    let (options, input) = compile_for(&names(&["os", "debug"]), b"return 1", &base);
    assert_eq!(names(&["mine", "os", "debug"]), options.mutable_globals);
    assert!(options.clear_dead_stack_slots);
    assert!(matches!(input, CompileInput::Text(text) if text == "return 1"));
    let (_, input) = compile_for(&Vec::new(), &[0xff], &base);
    assert!(matches!(input, CompileInput::Bytes));
    let mut options = base;
    restrict_options(&names(&["os"]), &mut options);
    assert_eq!(names(&["mine", "os"]), options.mutable_globals);
    assert_eq!(
        "compiler produced a chunk that failed artifact validation: bad",
        invalid_artifact("bad")
    );
}
