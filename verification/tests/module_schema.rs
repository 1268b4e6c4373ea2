//! Schema extraction from declaration text.
use ruau::module_schema::{extract_module_schema, strip_comments, ModuleSchemaError};

#[test]
fn extracts_module_root_and_functions() {
    let source = r#"
declare fs: {
    read: (path: string) -> string,
    write: (path: string, content: string) -> (),
    list: (path: string) -> {string},
}
"#;
    let schema = extract_module_schema(source).expect("schema");
    let root = schema.root.expect("root");
    assert_eq!("fs", root.name);
    assert_eq!(vec!["read", "write", "list"], root.namespace.functions);
    assert!(root.namespace.children.is_empty());
}

#[test]
fn extracts_nested_namespaces() {
    let source = r#"
declare aws: {
    s3: {
        list_buckets: () -> {string},
    },
    ec2: {
        describe_instances: () -> {string},
    },
}
"#;
    let schema = extract_module_schema(source).expect("schema");
    let root = schema.root.expect("root");
    let s3 = root.namespace.child("s3").expect("s3");
    let ec2 = root.namespace.child("ec2").expect("ec2");
    assert_eq!(vec!["list_buckets"], s3.functions);
    assert_eq!(vec!["describe_instances"], ec2.functions);
}

#[test]
fn extracts_class_methods() {
    let source = r#"
declare class Page
    goto: (self, url: string) -> ()
    function click(self, sel: string): boolean
end
"#;
    let schema = extract_module_schema(source).expect("schema");
    let class = schema.classes.get("Page").expect("class");
    assert_eq!(vec!["goto", "click"], class.methods);
}

#[test]
fn extracts_module_and_classes_together() {
    let source = r#"
declare class Store
    get: (self, key: string) -> string
    set: (self, key: string, value: string) -> ()
end

declare class Txn
    set: (self, key: string, value: string) -> ()
    commit: (self) -> ()
end

declare kv: {
    open: (name: string) -> Store,
}
"#;
    let schema = extract_module_schema(source).expect("schema");
    let root = schema.root.expect("root");
    assert_eq!("kv", root.name);
    assert_eq!(vec!["open"], root.namespace.functions);
    assert_eq!(
        vec!["get", "set"],
        schema.classes.get("Store").expect("store").methods
    );
    assert_eq!(
        vec!["set", "commit"],
        schema.classes.get("Txn").expect("txn").methods
    );
}

#[test]
fn rejects_two_module_roots() {
    let source = r#"
declare fs: { f: () -> () }
declare fs2: { g: () -> () }
"#;
    let error = extract_module_schema(source).expect_err("schema should fail");
    match error {
        ModuleSchemaError::MultipleRoots { first, second } => {
            assert_eq!("fs", first);
            assert_eq!("fs2", second);
        }
        other => panic!("expected MultipleRoots, got {other:?}"),
    }
}

#[test]
fn ignores_comments_and_plain_fields() {
    let source = r#"
-- module-root with comment
declare fs: {
    version: string,
    -- inline
    read: (path: string) -> string,
}
"#;
    let schema = extract_module_schema(source).expect("schema");
    let root = schema.root.expect("root");
    assert_eq!(vec!["read"], root.namespace.functions);
}

#[test]
fn comments_declare_nothing() {
    let commented = "--[[ declare no: { x: () -> () } ]]\ndeclare fs: { -- first\n read: () -> (), }";
    let plain = "declare fs: { read: () -> (), }";
    let functions = |source: &str| {
        extract_module_schema(source).expect("schema").root.expect("root").namespace.functions
    };
    assert_eq!(functions(plain), functions(commented));
}

#[test]
fn malformed_sources_are_refused() {
    let message =
        |source: &str| extract_module_schema(source).expect_err("malformed").message();
    assert_eq!("malformed source: expected class name", message("declare class "));
    assert_eq!(
        "malformed source: class `Store` is missing `end`",
        message("declare class Store\n  field: string\n")
    );
    assert_eq!(
        "malformed source: missing `:` after `read`",
        message("declare fs: { read }")
    );
    assert_eq!(
        "multiple module-root declarations: `a` and `b`",
        message("declare a: { f: () -> () }\ndeclare b: { g: () -> () }")
    );
    assert!(message("declare fs: { read: () -> ()").starts_with("malformed source: "));
}

#[test]
fn a_leading_comment_changes_nothing() {
    let source = "declare demo: { run: (s: string) -> () }\ndeclare class C\n  go: () -> ()\nend\n";
    for comment in ["plain", "declare other: { x: () -> () }", "--[[ half open", ""] {
        let commented = format!("-- {comment}\n{source}");
        let schema = extract_module_schema(&commented).expect("schema");
        let root = schema.root.expect("root");
        assert_eq!("demo", root.name);
        assert_eq!(vec!["run"], root.namespace.functions);
        assert_eq!(vec!["go"], schema.classes.get("C").expect("class").methods);
    }
    let broken = "declare demo: { run";
    assert!(extract_module_schema(broken).is_err());
    assert!(extract_module_schema(&format!("-- c\n{broken}")).is_err());
}

#[test]
fn block_comments_keep_their_newlines() {
    let lines = "--[[ a\nb\n]]declare demo: { x: () -> () }";
    let schema = extract_module_schema(lines).expect("schema");
    assert_eq!("demo", schema.root.expect("root").name);
    let line = "--[[ a b ]]declare demo: { x: () -> () }";
    assert!(extract_module_schema(line).expect("schema").root.is_none());
}

#[test]
fn stripping_leaves_blanks_and_newlines() {
    let source = "a -- b\n--[[c\nd]]e - f";
    let stripped = strip_comments(source);
    assert_eq!("a     \n \n e - f", stripped);
    assert_eq!(stripped, strip_comments(&stripped));
    assert_eq!("no comment - here", strip_comments("no comment - here"));
}
