//! Doc comments, source positions and declaration errors.
use ruau::analyzer::docs::{
    doc_block_before, docs_before_span, top_module_description, SourceMap,
};
use ruau::analyzer::schema::{extract_module_schema, parse_location};
use ruau::resolver::SourceSpan;

fn docs(source: &str, declaration: &str) -> Option<String> {
    let at = source.find(declaration).expect("declaration");
    doc_block_before(source, at, &SourceMap::new(source))
}

#[test]
fn line_comments_document_what_follows() {
    let source = "-- far\n\n-- one\n  --two\ndeclare x: number\n";
    assert_eq!(Some("one\ntwo".to_owned()), docs(source, "declare"));
    assert_eq!(None, docs("declare x: number", "declare"));
    assert_eq!(None, docs("local y\ndeclare x: number", "declare"));
}

#[test]
fn block_comments_document_what_follows() {
    assert_eq!(
        Some("one line".to_owned()),
        docs("--[[ one line ]]\ndeclare x: number", "declare")
    );
    assert_eq!(
        Some("c\nb\na".to_owned()),
        docs("--[[ a\nb\nc ]]\ndeclare x: number", "declare")
    );
    assert_eq!(
        Some("line".to_owned()),
        docs("--[[ block ]]\n-- line\ndeclare x: number", "declare")
    );
}

#[test]
fn modules_are_described_at_their_top() {
    assert_eq!(
        Some("first\nin a\nblock\nlast".to_owned()),
        top_module_description("-- first\n--[[ in a\nblock ]]\n-- last\nlocal x\n-- no")
    );
    assert_eq!(None, top_module_description("\n-- late"));
    assert_eq!(None, top_module_description(""));
    assert_eq!(Some("open".to_owned()), top_module_description("--[[ open"));
}

#[test]
fn positions_are_counted_in_bytes() {
    let source = "h\u{e9}\nxyz";
    let map = SourceMap::new(source);
    assert_eq!(Some(4), map.offset(1, 0));
    assert_eq!(None, map.offset(2, 0));
    assert_eq!((0, 1, 1), (map.line_index(3), map.line_index(4), map.line_index(99)));
    let span = SourceSpan { line: 1, column: 1, end_line: 1, end_column: 3 };
    assert_eq!(Some("yz"), map.slice(source, &span));
    let inside = SourceSpan { line: 0, column: 2, end_line: 0, end_column: 3 };
    assert_eq!(None, map.slice(source, &inside));
    assert_eq!(None, docs_before_span(source, &map, None));
    let commented = "-- doc\nlocal x";
    let span = SourceSpan { line: 1, column: 0, end_line: 1, end_column: 5 };
    assert_eq!(
        Some("doc".to_owned()),
        docs_before_span(commented, &SourceMap::new(commented), Some(span))
    );
}

#[test]
fn locations_are_parsed_or_refused() {
    let span = parse_location("1,2 - 3,+4").expect("location");
    assert_eq!(
        (1, 2, 3, 4),
        (span.line, span.column, span.end_line, span.end_column)
    );
    let shown = |text: &str| parse_location(text).expect_err("refused").message();
    assert!(shown("1,2").ends_with("invalid Luau AST location `1,2`"));
    assert!(shown("1 - 2,3").ends_with("invalid Luau AST position `1`"));
    assert!(shown("x,1 - 2,3").ends_with("invalid Luau AST line `x`"));
    assert!(shown("1,-1 - 2,3").ends_with("invalid Luau AST column `-1`"));
    assert!(shown("1,4294967296 - 2,3").ends_with("invalid Luau AST column `4294967296`"));
}

#[test]
fn broken_trees_are_refused() {
    assert!(extract_module_schema("", "{").is_err());
    assert!(extract_module_schema("", "{}").is_err());
    let empty = extract_module_schema("-- about", r#"{"type":"AstStatBlock","body":[]}"#)
        .expect("empty module");
    assert!(empty.root.is_none());
    assert_eq!(Some("about"), empty.module_description.as_deref());
}
