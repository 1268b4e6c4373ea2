//! Checker results, options and schema extraction.
use ruau::analyzer::native::{RawEntrypoint, RawParam};
use ruau::analyzer::schema::extract_module_schema as schema_of_tree;
use ruau::analyzer::{
    extract_entrypoint_schema, extract_module_schema, CheckResult, CheckerOptions, Diagnostic,
    Severity,
};
use ruau::resolver::{ModuleId, SourceSpan};

fn one_diagnostic(span: SourceSpan, severity: Severity, message: &str) -> CheckResult {
    CheckResult {
        diagnostics: vec![Diagnostic {
            module: ModuleId::new("test"),
            span,
            severity,
            message: message.to_owned(),
        }],
        timed_out: false,
        cancelled: false,
    }
}

fn param(name: &str, annotation: &str, optional: bool) -> RawParam {
    RawParam {
        name: name.as_bytes().to_vec(),
        annotation: annotation.as_bytes().to_vec(),
        optional: if optional { 1 } else { 0 },
    }
}

/// Verifies `CheckResult::is_ok` is true for warning-only results.
#[test]
fn analyzer_check_result_ok_with_warnings() {
    let span = SourceSpan { line: 0, column: 0, end_line: 0, end_column: 1 };
    let result = one_diagnostic(span, Severity::Warning, "unused local");

    assert!(result.is_ok());
    assert_eq!(1, result.warnings().len());
    assert_eq!(0, result.errors().len());
}

/// Verifies `CheckResult::is_ok` is false when at least one error exists.
#[test]
fn analyzer_check_result_not_ok_with_error() {
    let span = SourceSpan { line: 1, column: 1, end_line: 1, end_column: 5 };
    let result = one_diagnostic(span, Severity::Error, "type mismatch");

    assert!(!result.is_ok());
    assert_eq!(0, result.warnings().len());
    assert_eq!(1, result.errors().len());
}

/// Verifies checker options defaults use stable module labels.
#[test]
fn analyzer_checker_options_defaults_are_stable() {
    let options = CheckerOptions::default();
    assert_eq!("main", options.default_module_name);
    assert_eq!("@definitions", options.default_definitions_module_name);
    assert!(options.default_timeout.is_none());
}

/// Verifies schema extraction reads direct function parameters in order.
#[test]
fn analyzer_extract_entrypoint_schema_reads_params() {
    let reply = RawEntrypoint {
        error: Vec::new(),
        params: vec![
            param("target", "Node", false),
            param("count", "number?", true),
            param("payload", "JsonValue", false),
        ],
    };
    let schema = extract_entrypoint_schema(
        r#"
return function(target: Node, count: number?, payload: JsonValue)
    return nil
end
"#,
        &reply,
    )
    .expect("schema");
    assert_eq!(3, schema.params.len());
    assert_eq!("target", schema.params[0].name);
    assert_eq!("Node", schema.params[0].annotation);
    assert!(!schema.params[0].optional);
    assert_eq!("count", schema.params[1].name);
    assert_eq!("number?", schema.params[1].annotation);
    assert!(schema.params[1].optional);
    assert_eq!("payload", schema.params[2].name);
    assert_eq!("JsonValue", schema.params[2].annotation);
    assert!(!schema.params[2].optional);
}

/// Verifies schema extraction rejects indirect entrypoints.
#[test]
fn analyzer_extract_entrypoint_schema_rejects_indirect_return() {
    let reply = RawEntrypoint {
        error: b"script must use a direct `return function(...) ... end` entrypoint".to_vec(),
        params: Vec::new(),
    };
    let error = extract_entrypoint_schema(
        r#"
local main = function(target: Node)
    return nil
end
return main
"#,
        &reply,
    )
    .expect_err("schema should fail");
    assert!(
        error
            .message()
            .contains("script must use a direct `return function(...) ... end` entrypoint"),
        "{}",
        error.message()
    );
}

/// Verifies `CheckResult::is_ok` is true for warning-only results.
#[test]
fn tests_check_result_ok_with_warnings() {
    let span = SourceSpan { line: 0, column: 0, end_line: 0, end_column: 1 };
    let result = one_diagnostic(span, Severity::Warning, "unused local");

    assert!(result.is_ok());
    assert_eq!(1, result.warnings().len());
    assert_eq!(0, result.errors().len());
}

/// Verifies `CheckResult::is_ok` is false when at least one error exists.
#[test]
fn tests_check_result_not_ok_with_error() {
    let span = SourceSpan { line: 1, column: 1, end_line: 1, end_column: 5 };
    let result = one_diagnostic(span, Severity::Error, "type mismatch");

    assert!(!result.is_ok());
    assert_eq!(0, result.warnings().len());
    assert_eq!(1, result.errors().len());
}

/// Verifies checker options defaults use stable module labels.
#[test]
fn tests_checker_options_defaults_are_stable() {
    let options = CheckerOptions::default();
    assert_eq!("main", options.default_module_name);
    assert_eq!("@definitions", options.default_definitions_module_name);
    assert!(options.default_timeout.is_none());
}

/// Verifies schema extraction reads direct function parameters in order.
#[test]
fn tests_extract_entrypoint_schema_reads_params() {
    let reply = RawEntrypoint {
        error: Vec::new(),
        params: vec![
            param("target", "Node", false),
            param("count", "number?", true),
            param("payload", "JsonValue", false),
        ],
    };
    let schema = extract_entrypoint_schema(
        r#"
return function(target: Node, count: number?, payload: JsonValue)
    return nil
end
"#,
        &reply,
    )
    .expect("schema");
    assert_eq!(3, schema.params.len());
    assert_eq!("target", schema.params[0].name);
    assert_eq!("Node", schema.params[0].annotation);
    assert!(!schema.params[0].optional);
    assert_eq!("count", schema.params[1].name);
    assert_eq!("number?", schema.params[1].annotation);
    assert!(schema.params[1].optional);
    assert_eq!("payload", schema.params[2].name);
    assert_eq!("JsonValue", schema.params[2].annotation);
    assert!(!schema.params[2].optional);
}

/// Verifies schema extraction rejects indirect entrypoints.
#[test]
fn tests_extract_entrypoint_schema_rejects_indirect_return() {
    let reply = RawEntrypoint {
        error: b"script must use a direct `return function(...) ... end` entrypoint".to_vec(),
        params: Vec::new(),
    };
    let error = extract_entrypoint_schema(
        r#"
local main = function(target: Node)
    return nil
end
return main
"#,
        &reply,
    )
    .expect_err("schema should fail");
    assert!(
        error
            .message()
            .contains("script must use a direct `return function(...) ... end` entrypoint"),
        "{}",
        error.message()
    );
}

/// Verifies module schema extraction reads module roots, namespaces, and class methods.
#[test]
fn analyzer_extract_module_schema_reads_root_and_classes() {
    let schema = extract_module_schema(
        r#"
export type Mode = "read" | "write"

declare class Store
    field: string
    function get(self, key: string): string?
    put: (self, key: string, value: string) -> ()
end

declare demo: {
    open: (name: string) -> Store,
    nested: {
        count: () -> number,
    },
}
"#,
    )
    .expect("schema");

    let root = schema.root.expect("module root");
    assert_eq!("demo", root.name);
    assert_eq!(vec!["open"], root.namespace.functions);
    assert_eq!(vec!["count"], root.namespace.child("nested").expect("nested").functions);
    assert_eq!(vec!["get", "put"], schema.classes.get("Store").expect("store").methods);
}

/// Verifies module schema extraction rejects multiple module roots.
#[test]
fn analyzer_extract_module_schema_rejects_multiple_roots() {
    let error = extract_module_schema(
        r#"
declare first: {}
declare second: {}
"#,
    )
    .expect_err("schema should fail");

    assert!(error.message().contains("multiple module-root declarations"), "{}", error.message());
}

/// Verifies module schema extraction reads module roots, namespaces, and class methods.
#[test]
fn tests_extract_module_schema_reads_root_and_classes() {
    let source = r#"-- Store module.
export type Mode = "read" | "write"

-- Persistent key-value store.
declare class Store
    -- Backing field.
    field: string
    -- Fetch a value.
    function get(self, key: string): string?
    put: (self, key: string, value: string) -> ()
end

declare demo: {
    open: (name: string) -> Store,
    nested: {
        count: () -> number,
    },
}
"#;
    let tree = r##"{"type":"AstStatBlock","location":"0,0 - 18,0","hasEnd":true,"body":[{"type":"AstStatTypeAlias","location":"1,0 - 1,35","name":"Mode","generics":[],"genericPacks":[],"value":{"type":"AstTypeUnion","location":"1,19 - 1,35","types":[{"type":"AstTypeSingletonString","location":"1,19 - 1,25","value":"read"},{"type":"AstTypeSingletonString","location":"1,28 - 1,35","value":"write"}]},"exported":true},{"type":"AstStatDeclareClass","location":"4,0 - 10,3","name":"Store","props":[{"name":"field","type":"AstDeclaredClassProp","luauType":{"type":"AstTypeReference","location":"6,11 - 6,17","name":"string","nameLocation":"6,11 - 6,17","parameters":[]},"location":"6,4 - 6,17"},{"name":"get","type":"AstDeclaredClassProp","luauType":{"type":"AstTypeFunction","location":"8,4 - 8,44","attributes":[],"generics":[],"genericPacks":[],"argTypes":{"type":"AstTypeList","types":[{"type":"AstTypeReference","location":"8,28 - 8,34","name":"string","nameLocation":"8,28 - 8,34","parameters":[]}]},"argNames":[{"type":"AstArgumentName","name":"key","location":"8,23 - 8,26"}],"returnTypes":{"type":"AstTypePackExplicit","location":"8,37 - 8,44","typeList":{"type":"AstTypeList","types":[{"type":"AstTypeUnion","location":"8,37 - 8,44","types":[{"type":"AstTypeReference","location":"8,37 - 8,43","name":"string","nameLocation":"8,37 - 8,43","parameters":[]},{"type":"AstTypeOptional"}]}]}}},"location":"8,4 - 8,44"},{"name":"put","type":"AstDeclaredClassProp","luauType":{"type":"AstTypeFunction","location":"9,9 - 9,49","attributes":[],"generics":[],"genericPacks":[],"argTypes":{"type":"AstTypeList","types":[{"type":"AstTypeReference","location":"9,10 - 9,14","name":"self","nameLocation":"9,10 - 9,14","parameters":[]},{"type":"AstTypeReference","location":"9,21 - 9,27","name":"string","nameLocation":"9,21 - 9,27","parameters":[]},{"type":"AstTypeReference","location":"9,36 - 9,42","name":"string","nameLocation":"9,36 - 9,42","parameters":[]}]},"argNames":[null,{"type":"AstArgumentName","name":"key","location":"9,16 - 9,19"},{"type":"AstArgumentName","name":"value","location":"9,29 - 9,34"}],"returnTypes":{"type":"AstTypePackExplicit","location":"9,47 - 9,49","typeList":{"type":"AstTypeList","types":[]}}},"location":"9,4 - 9,49"}]},{"type":{"type":"AstTypeTable","location":"12,14 - 17,1","props":[{"name":"open","type":"AstTableProp","location":"13,4 - 13,8","propType":{"type":"AstTypeFunction","location":"13,10 - 13,33","attributes":[],"generics":[],"genericPacks":[],"argTypes":{"type":"AstTypeList","types":[{"type":"AstTypeReference","location":"13,17 - 13,23","name":"string","nameLocation":"13,17 - 13,23","parameters":[]}]},"argNames":[{"type":"AstArgumentName","name":"name","location":"13,11 - 13,15"}],"returnTypes":{"type":"AstTypePackExplicit","location":"13,28 - 13,33","typeList":{"type":"AstTypeList","types":[{"type":"AstTypeReference","location":"13,28 - 13,33","name":"Store","nameLocation":"13,28 - 13,33","parameters":[]}]}}}},{"name":"nested","type":"AstTableProp","location":"14,4 - 14,10","propType":{"type":"AstTypeTable","location":"14,12 - 16,5","props":[{"name":"count","type":"AstTableProp","location":"15,8 - 15,13","propType":{"type":"AstTypeFunction","location":"15,15 - 15,27","attributes":[],"generics":[],"genericPacks":[],"argTypes":{"type":"AstTypeList","types":[]},"argNames":[],"returnTypes":{"type":"AstTypePackExplicit","location":"15,21 - 15,27","typeList":{"type":"AstTypeList","types":[{"type":"AstTypeReference","location":"15,21 - 15,27","name":"number","nameLocation":"15,21 - 15,27","parameters":[]}]}}}}],"indexer":null}}],"indexer":null},"location":"12,0 - 17,1","name":"demo","nameLocation":"12,8 - 12,12"}]}"##;
    let schema = schema_of_tree(source, tree).expect("schema");

    let root = schema.root.expect("module root");
    assert_eq!("demo", root.name);
    assert_eq!(vec!["open"], root.namespace.functions);
    assert_eq!(vec!["count"], root.namespace.child("nested").expect("nested").functions);
    let store = schema.classes.get("Store").expect("store");
    let get = store.method_signatures.get("get").expect("get");
    assert_eq!("string?", get.returns.source);
    assert_eq!("Store module.", schema.module_description.as_deref().unwrap());
    assert_eq!("Fetch a value.", get.docs.as_deref().unwrap());
    let field = store.fields.get("field").expect("field");
    assert_eq!("Backing field.", field.docs.as_deref().unwrap());
    assert!(field.span.is_some());
    assert!(get.args[0].span.is_some());
    assert_eq!(vec!["get", "put"], store.methods);
}

#[test]
fn extract_module_schema_reads_canonical_module_alias() {
    let source = r#"
export type Module = {
    -- Build a package.
    build: (target: string) -> boolean,
}
"#;
    let tree = r##"{"type":"AstStatBlock","location":"0,0 - 5,0","hasEnd":true,"body":[{"type":"AstStatTypeAlias","location":"1,0 - 4,1","name":"Module","generics":[],"genericPacks":[],"value":{"type":"AstTypeTable","location":"1,21 - 4,1","props":[{"name":"build","type":"AstTableProp","location":"3,4 - 3,9","propType":{"type":"AstTypeFunction","location":"3,11 - 3,38","attributes":[],"generics":[],"genericPacks":[],"argTypes":{"type":"AstTypeList","types":[{"type":"AstTypeReference","location":"3,20 - 3,26","name":"string","nameLocation":"3,20 - 3,26","parameters":[]}]},"argNames":[{"type":"AstArgumentName","name":"target","location":"3,12 - 3,18"}],"returnTypes":{"type":"AstTypePackExplicit","location":"3,31 - 3,38","typeList":{"type":"AstTypeList","types":[{"type":"AstTypeReference","location":"3,31 - 3,38","name":"boolean","nameLocation":"3,31 - 3,38","parameters":[]}]}}}}],"indexer":null},"exported":true}]}"##;
    let schema = schema_of_tree(source, tree).expect("schema");

    let root = schema.root.expect("module root");
    assert_eq!("Module", root.name);
    let build = root.namespace.callables.get("build").expect("build");
    assert_eq!("boolean", build.returns.source);
    assert_eq!("Build a package.", build.docs.as_deref().unwrap());
}

#[test]
fn extract_module_schema_accepts_verber_style_declarations() {
    let verber = r#"
-- Host introspection API for the current Verber runtime session.
export type ModuleBackend = "builtin" | "stdlib" | "mcp_server" | "luau"

export type ProcessInfo = {
    name: string,
    backend: ModuleBackend,
    pid: number?,
    state: string,
    reason: string?,
}

declare verber: {
    version: () -> string,
    processes: () -> {ProcessInfo},
    api: (path: string) -> string?,
}
"#;
    let verber_tree = r##"{"type":"AstStatBlock","location":"0,0 - 17,0","hasEnd":true,"body":[{"type":"AstStatTypeAlias","location":"2,0 - 2,72","name":"ModuleBackend","generics":[],"genericPacks":[],"value":{"type":"AstTypeUnion","location":"2,28 - 2,72","types":[{"type":"AstTypeSingletonString","location":"2,28 - 2,37","value":"builtin"},{"type":"AstTypeSingletonString","location":"2,40 - 2,48","value":"stdlib"},{"type":"AstTypeSingletonString","location":"2,51 - 2,63","value":"mcp_server"},{"type":"AstTypeSingletonString","location":"2,66 - 2,72","value":"luau"}]},"exported":true},{"type":"AstStatTypeAlias","location":"4,0 - 10,1","name":"ProcessInfo","generics":[],"genericPacks":[],"value":{"type":"AstTypeTable","location":"4,26 - 10,1","props":[{"name":"name","type":"AstTableProp","location":"5,4 - 5,8","propType":{"type":"AstTypeReference","location":"5,10 - 5,16","name":"string","nameLocation":"5,10 - 5,16","parameters":[]}},{"name":"backend","type":"AstTableProp","location":"6,4 - 6,11","propType":{"type":"AstTypeReference","location":"6,13 - 6,26","name":"ModuleBackend","nameLocation":"6,13 - 6,26","parameters":[]}},{"name":"pid","type":"AstTableProp","location":"7,4 - 7,7","propType":{"type":"AstTypeUnion","location":"7,9 - 7,16","types":[{"type":"AstTypeReference","location":"7,9 - 7,15","name":"number","nameLocation":"7,9 - 7,15","parameters":[]},{"type":"AstTypeOptional"}]}},{"name":"state","type":"AstTableProp","location":"8,4 - 8,9","propType":{"type":"AstTypeReference","location":"8,11 - 8,17","name":"string","nameLocation":"8,11 - 8,17","parameters":[]}},{"name":"reason","type":"AstTableProp","location":"9,4 - 9,10","propType":{"type":"AstTypeUnion","location":"9,12 - 9,19","types":[{"type":"AstTypeReference","location":"9,12 - 9,18","name":"string","nameLocation":"9,12 - 9,18","parameters":[]},{"type":"AstTypeOptional"}]}}],"indexer":null},"exported":true},{"type":{"type":"AstTypeTable","location":"12,16 - 16,1","props":[{"name":"version","type":"AstTableProp","location":"13,4 - 13,11","propType":{"type":"AstTypeFunction","location":"13,13 - 13,25","attributes":[],"generics":[],"genericPacks":[],"argTypes":{"type":"AstTypeList","types":[]},"argNames":[],"returnTypes":{"type":"AstTypePackExplicit","location":"13,19 - 13,25","typeList":{"type":"AstTypeList","types":[{"type":"AstTypeReference","location":"13,19 - 13,25","name":"string","nameLocation":"13,19 - 13,25","parameters":[]}]}}}},{"name":"processes","type":"AstTableProp","location":"14,4 - 14,13","propType":{"type":"AstTypeFunction","location":"14,15 - 14,34","attributes":[],"generics":[],"genericPacks":[],"argTypes":{"type":"AstTypeList","types":[]},"argNames":[],"returnTypes":{"type":"AstTypePackExplicit","location":"14,21 - 14,34","typeList":{"type":"AstTypeList","types":[{"type":"AstTypeTable","location":"14,21 - 14,34","props":[],"indexer":{"location":"14,22 - 14,33","indexType":{"type":"AstTypeReference","location":"14,22 - 14,33","name":"number","parameters":[]},"resultType":{"type":"AstTypeReference","location":"14,22 - 14,33","name":"ProcessInfo","nameLocation":"14,22 - 14,33","parameters":[]}}}]}}}},{"name":"api","type":"AstTableProp","location":"15,4 - 15,7","propType":{"type":"AstTypeFunction","location":"15,9 - 15,34","attributes":[],"generics":[],"genericPacks":[],"argTypes":{"type":"AstTypeList","types":[{"type":"AstTypeReference","location":"15,16 - 15,22","name":"string","nameLocation":"15,16 - 15,22","parameters":[]}]},"argNames":[{"type":"AstArgumentName","name":"path","location":"15,10 - 15,14"}],"returnTypes":{"type":"AstTypePackExplicit","location":"15,27 - 15,34","typeList":{"type":"AstTypeList","types":[{"type":"AstTypeUnion","location":"15,27 - 15,34","types":[{"type":"AstTypeReference","location":"15,27 - 15,33","name":"string","nameLocation":"15,27 - 15,33","parameters":[]},{"type":"AstTypeOptional"}]}]}}}}],"indexer":null},"location":"12,0 - 16,1","name":"verber","nameLocation":"12,8 - 12,14"}]}"##;
    let session = r#"
export type Id = string
export type Outcome =
    { kind: "ok", prints: { string }, value: any }
    | { kind: "runtime_error", prints: { string }, error: any, traceback: string }

declare class Session
    id: Id
    status: string
    function execs(self): { any }
    function note(self): string
end

declare session: {
    current: () -> Session,
    recent: (limit: number?) -> { Session },
    get: (id: Id) -> Session?,
    set_note: (note: string) -> (),
}
"#;
    let session_tree = r##"{"type":"AstStatBlock","location":"0,0 - 19,0","hasEnd":true,"body":[{"type":"AstStatTypeAlias","location":"1,0 - 1,23","name":"Id","generics":[],"genericPacks":[],"value":{"type":"AstTypeReference","location":"1,17 - 1,23","name":"string","nameLocation":"1,17 - 1,23","parameters":[]},"exported":true},{"type":"AstStatTypeAlias","location":"2,0 - 4,82","name":"Outcome","generics":[],"genericPacks":[],"value":{"type":"AstTypeUnion","location":"3,4 - 4,82","types":[{"type":"AstTypeTable","location":"3,4 - 3,50","props":[{"name":"kind","type":"AstTableProp","location":"3,6 - 3,10","propType":{"type":"AstTypeSingletonString","location":"3,12 - 3,16","value":"ok"}},{"name":"prints","type":"AstTableProp","location":"3,18 - 3,24","propType":{"type":"AstTypeTable","location":"3,26 - 3,36","props":[],"indexer":{"location":"3,28 - 3,34","indexType":{"type":"AstTypeReference","location":"3,28 - 3,34","name":"number","parameters":[]},"resultType":{"type":"AstTypeReference","location":"3,28 - 3,34","name":"string","nameLocation":"3,28 - 3,34","parameters":[]}}}},{"name":"value","type":"AstTableProp","location":"3,38 - 3,43","propType":{"type":"AstTypeReference","location":"3,45 - 3,48","name":"any","nameLocation":"3,45 - 3,48","parameters":[]}}],"indexer":null},{"type":"AstTypeTable","location":"4,6 - 4,82","props":[{"name":"kind","type":"AstTableProp","location":"4,8 - 4,12","propType":{"type":"AstTypeSingletonString","location":"4,14 - 4,29","value":"runtime_error"}},{"name":"prints","type":"AstTableProp","location":"4,31 - 4,37","propType":{"type":"AstTypeTable","location":"4,39 - 4,49","props":[],"indexer":{"location":"4,41 - 4,47","indexType":{"type":"AstTypeReference","location":"4,41 - 4,47","name":"number","parameters":[]},"resultType":{"type":"AstTypeReference","location":"4,41 - 4,47","name":"string","nameLocation":"4,41 - 4,47","parameters":[]}}}},{"name":"error","type":"AstTableProp","location":"4,51 - 4,56","propType":{"type":"AstTypeReference","location":"4,58 - 4,61","name":"any","nameLocation":"4,58 - 4,61","parameters":[]}},{"name":"traceback","type":"AstTableProp","location":"4,63 - 4,72","propType":{"type":"AstTypeReference","location":"4,74 - 4,80","name":"string","nameLocation":"4,74 - 4,80","parameters":[]}}],"indexer":null}]},"exported":true},{"type":"AstStatDeclareClass","location":"6,0 - 11,3","name":"Session","props":[{"name":"id","type":"AstDeclaredClassProp","luauType":{"type":"AstTypeReference","location":"7,8 - 7,10","name":"Id","nameLocation":"7,8 - 7,10","parameters":[]},"location":"7,4 - 7,10"},{"name":"status","type":"AstDeclaredClassProp","luauType":{"type":"AstTypeReference","location":"8,12 - 8,18","name":"string","nameLocation":"8,12 - 8,18","parameters":[]},"location":"8,4 - 8,18"},{"name":"execs","type":"AstDeclaredClassProp","luauType":{"type":"AstTypeFunction","location":"9,4 - 9,33","attributes":[],"generics":[],"genericPacks":[],"argTypes":{"type":"AstTypeList","types":[]},"argNames":[],"returnTypes":{"type":"AstTypePackExplicit","location":"9,26 - 9,33","typeList":{"type":"AstTypeList","types":[{"type":"AstTypeTable","location":"9,26 - 9,33","props":[],"indexer":{"location":"9,28 - 9,31","indexType":{"type":"AstTypeReference","location":"9,28 - 9,31","name":"number","parameters":[]},"resultType":{"type":"AstTypeReference","location":"9,28 - 9,31","name":"any","nameLocation":"9,28 - 9,31","parameters":[]}}}]}}},"location":"9,4 - 9,33"},{"name":"note","type":"AstDeclaredClassProp","luauType":{"type":"AstTypeFunction","location":"10,4 - 10,31","attributes":[],"generics":[],"genericPacks":[],"argTypes":{"type":"AstTypeList","types":[]},"argNames":[],"returnTypes":{"type":"AstTypePackExplicit","location":"10,25 - 10,31","typeList":{"type":"AstTypeList","types":[{"type":"AstTypeReference","location":"10,25 - 10,31","name":"string","nameLocation":"10,25 - 10,31","parameters":[]}]}}},"location":"10,4 - 10,31"}]},{"type":{"type":"AstTypeTable","location":"13,17 - 18,1","props":[{"name":"current","type":"AstTableProp","location":"14,4 - 14,11","propType":{"type":"AstTypeFunction","location":"14,13 - 14,26","attributes":[],"generics":[],"genericPacks":[],"argTypes":{"type":"AstTypeList","types":[]},"argNames":[],"returnTypes":{"type":"AstTypePackExplicit","location":"14,19 - 14,26","typeList":{"type":"AstTypeList","types":[{"type":"AstTypeReference","location":"14,19 - 14,26","name":"Session","nameLocation":"14,19 - 14,26","parameters":[]}]}}}},{"name":"recent","type":"AstTableProp","location":"15,4 - 15,10","propType":{"type":"AstTypeFunction","location":"15,12 - 15,43","attributes":[],"generics":[],"genericPacks":[],"argTypes":{"type":"AstTypeList","types":[{"type":"AstTypeUnion","location":"15,20 - 15,27","types":[{"type":"AstTypeReference","location":"15,20 - 15,26","name":"number","nameLocation":"15,20 - 15,26","parameters":[]},{"type":"AstTypeOptional"}]}]},"argNames":[{"type":"AstArgumentName","name":"limit","location":"15,13 - 15,18"}],"returnTypes":{"type":"AstTypePackExplicit","location":"15,32 - 15,43","typeList":{"type":"AstTypeList","types":[{"type":"AstTypeTable","location":"15,32 - 15,43","props":[],"indexer":{"location":"15,34 - 15,41","indexType":{"type":"AstTypeReference","location":"15,34 - 15,41","name":"number","parameters":[]},"resultType":{"type":"AstTypeReference","location":"15,34 - 15,41","name":"Session","nameLocation":"15,34 - 15,41","parameters":[]}}}]}}}},{"name":"get","type":"AstTableProp","location":"16,4 - 16,7","propType":{"type":"AstTypeFunction","location":"16,9 - 16,29","attributes":[],"generics":[],"genericPacks":[],"argTypes":{"type":"AstTypeList","types":[{"type":"AstTypeReference","location":"16,14 - 16,16","name":"Id","nameLocation":"16,14 - 16,16","parameters":[]}]},"argNames":[{"type":"AstArgumentName","name":"id","location":"16,10 - 16,12"}],"returnTypes":{"type":"AstTypePackExplicit","location":"16,21 - 16,29","typeList":{"type":"AstTypeList","types":[{"type":"AstTypeUnion","location":"16,21 - 16,29","types":[{"type":"AstTypeReference","location":"16,21 - 16,28","name":"Session","nameLocation":"16,21 - 16,28","parameters":[]},{"type":"AstTypeOptional"}]}]}}}},{"name":"set_note","type":"AstTableProp","location":"17,4 - 17,12","propType":{"type":"AstTypeFunction","location":"17,14 - 17,34","attributes":[],"generics":[],"genericPacks":[],"argTypes":{"type":"AstTypeList","types":[{"type":"AstTypeReference","location":"17,21 - 17,27","name":"string","nameLocation":"17,21 - 17,27","parameters":[]}]},"argNames":[{"type":"AstArgumentName","name":"note","location":"17,15 - 17,19"}],"returnTypes":{"type":"AstTypePackExplicit","location":"17,32 - 17,34","typeList":{"type":"AstTypeList","types":[]}}}}],"indexer":null},"location":"13,0 - 18,1","name":"session","nameLocation":"13,8 - 13,15"}]}"##;
    let config = r#"
export type AccessMode = "read_only" | "read_write"
export type PathGrant = AccessMode | {
    access: AccessMode,
    mcp: boolean?,
}

declare config: {
    args: () -> { [string]: string },
    current: () -> { cwd: string, paths: { [string]: PathGrant } },
}
"#;
    let config_tree = r##"{"type":"AstStatBlock","location":"0,0 - 11,0","hasEnd":true,"body":[{"type":"AstStatTypeAlias","location":"1,0 - 1,51","name":"AccessMode","generics":[],"genericPacks":[],"value":{"type":"AstTypeUnion","location":"1,25 - 1,51","types":[{"type":"AstTypeSingletonString","location":"1,25 - 1,36","value":"read_only"},{"type":"AstTypeSingletonString","location":"1,39 - 1,51","value":"read_write"}]},"exported":true},{"type":"AstStatTypeAlias","location":"2,0 - 5,1","name":"PathGrant","generics":[],"genericPacks":[],"value":{"type":"AstTypeUnion","location":"2,24 - 5,1","types":[{"type":"AstTypeReference","location":"2,24 - 2,34","name":"AccessMode","nameLocation":"2,24 - 2,34","parameters":[]},{"type":"AstTypeTable","location":"2,37 - 5,1","props":[{"name":"access","type":"AstTableProp","location":"3,4 - 3,10","propType":{"type":"AstTypeReference","location":"3,12 - 3,22","name":"AccessMode","nameLocation":"3,12 - 3,22","parameters":[]}},{"name":"mcp","type":"AstTableProp","location":"4,4 - 4,7","propType":{"type":"AstTypeUnion","location":"4,9 - 4,17","types":[{"type":"AstTypeReference","location":"4,9 - 4,16","name":"boolean","nameLocation":"4,9 - 4,16","parameters":[]},{"type":"AstTypeOptional"}]}}],"indexer":null}]},"exported":true},{"type":{"type":"AstTypeTable","location":"7,16 - 10,1","props":[{"name":"args","type":"AstTableProp","location":"8,4 - 8,8","propType":{"type":"AstTypeFunction","location":"8,10 - 8,36","attributes":[],"generics":[],"genericPacks":[],"argTypes":{"type":"AstTypeList","types":[]},"argNames":[],"returnTypes":{"type":"AstTypePackExplicit","location":"8,16 - 8,36","typeList":{"type":"AstTypeList","types":[{"type":"AstTypeTable","location":"8,16 - 8,36","props":[],"indexer":{"location":"8,18 - 8,34","indexType":{"type":"AstTypeReference","location":"8,19 - 8,25","name":"string","nameLocation":"8,19 - 8,25","parameters":[]},"resultType":{"type":"AstTypeReference","location":"8,28 - 8,34","name":"string","nameLocation":"8,28 - 8,34","parameters":[]}}}]}}}},{"name":"current","type":"AstTableProp","location":"9,4 - 9,11","propType":{"type":"AstTypeFunction","location":"9,13 - 9,66","attributes":[],"generics":[],"genericPacks":[],"argTypes":{"type":"AstTypeList","types":[]},"argNames":[],"returnTypes":{"type":"AstTypePackExplicit","location":"9,19 - 9,66","typeList":{"type":"AstTypeList","types":[{"type":"AstTypeTable","location":"9,19 - 9,66","props":[{"name":"cwd","type":"AstTableProp","location":"9,21 - 9,24","propType":{"type":"AstTypeReference","location":"9,26 - 9,32","name":"string","nameLocation":"9,26 - 9,32","parameters":[]}},{"name":"paths","type":"AstTableProp","location":"9,34 - 9,39","propType":{"type":"AstTypeTable","location":"9,41 - 9,64","props":[],"indexer":{"location":"9,43 - 9,62","indexType":{"type":"AstTypeReference","location":"9,44 - 9,50","name":"string","nameLocation":"9,44 - 9,50","parameters":[]},"resultType":{"type":"AstTypeReference","location":"9,53 - 9,62","name":"PathGrant","nameLocation":"9,53 - 9,62","parameters":[]}}}}],"indexer":null}]}}}}],"indexer":null},"location":"7,0 - 10,1","name":"config","nameLocation":"7,8 - 7,14"}]}"##;

    for (name, source, tree) in [
        ("verber", verber, verber_tree),
        ("session", session, session_tree),
        ("config", config, config_tree),
    ] {
        let schema = schema_of_tree(source, tree).unwrap_or_else(|error| {
            panic!("Verber-style declaration {name} should parse: {}", error.message())
        });
        assert!(schema.root.is_some(), "{name} should have a root declaration");
    }
}

#[test]
fn extract_module_schema_handles_generated_mcp_punctuation() {
    let source = r#"
export type RepoListItem = {
    ["bad-name"]: boolean?,
    punctuated_enum: ("reactions\x2D\x2D1" | "comments (beta)" | "labels[0]")?,
}

declare github: {
    labels: (args: { owner: string, repo: string }) -> { string },
    repos: {
        list: (args: { query: string? }) -> { RepoListItem },
    },
}
"#;
    let tree = r##"{"type":"AstStatBlock","location":"0,0 - 12,0","hasEnd":true,"body":[{"type":"AstStatTypeAlias","location":"1,0 - 4,1","name":"RepoListItem","generics":[],"genericPacks":[],"value":{"type":"AstTypeTable","location":"1,27 - 4,1","props":[{"name":"bad-name","type":"AstTableProp","location":"2,5 - 2,15","propType":{"type":"AstTypeUnion","location":"2,18 - 2,26","types":[{"type":"AstTypeReference","location":"2,18 - 2,25","name":"boolean","nameLocation":"2,18 - 2,25","parameters":[]},{"type":"AstTypeOptional"}]}},{"name":"punctuated_enum","type":"AstTableProp","location":"3,4 - 3,19","propType":{"type":"AstTypeUnion","location":"3,21 - 3,78","types":[{"type":"AstTypeGroup","location":"3,21 - 3,77","inner":{"type":"AstTypeUnion","location":"3,22 - 3,76","types":[{"type":"AstTypeSingletonString","location":"3,22 - 3,42","value":"reactions\\x2D\\x2D1"},{"type":"AstTypeSingletonString","location":"3,45 - 3,62","value":"comments (beta)"},{"type":"AstTypeSingletonString","location":"3,65 - 3,76","value":"labels[0]"}]}},{"type":"AstTypeOptional"}]}}],"indexer":null},"exported":true},{"type":{"type":"AstTypeTable","location":"6,16 - 11,1","props":[{"name":"labels","type":"AstTableProp","location":"7,4 - 7,10","propType":{"type":"AstTypeFunction","location":"7,12 - 7,65","attributes":[],"generics":[],"genericPacks":[],"argTypes":{"type":"AstTypeList","types":[{"type":"AstTypeTable","location":"7,19 - 7,50","props":[{"name":"owner","type":"AstTableProp","location":"7,21 - 7,26","propType":{"type":"AstTypeReference","location":"7,28 - 7,34","name":"string","nameLocation":"7,28 - 7,34","parameters":[]}},{"name":"repo","type":"AstTableProp","location":"7,36 - 7,40","propType":{"type":"AstTypeReference","location":"7,42 - 7,48","name":"string","nameLocation":"7,42 - 7,48","parameters":[]}}],"indexer":null}]},"argNames":[{"type":"AstArgumentName","name":"args","location":"7,13 - 7,17"}],"returnTypes":{"type":"AstTypePackExplicit","location":"7,55 - 7,65","typeList":{"type":"AstTypeList","types":[{"type":"AstTypeTable","location":"7,55 - 7,65","props":[],"indexer":{"location":"7,57 - 7,63","indexType":{"type":"AstTypeReference","location":"7,57 - 7,63","name":"number","parameters":[]},"resultType":{"type":"AstTypeReference","location":"7,57 - 7,63","name":"string","nameLocation":"7,57 - 7,63","parameters":[]}}}]}}}},{"name":"repos","type":"AstTableProp","location":"8,4 - 8,9","propType":{"type":"AstTypeTable","location":"8,11 - 10,5","props":[{"name":"list","type":"AstTableProp","location":"9,8 - 9,12","propType":{"type":"AstTypeFunction","location":"9,14 - 9,60","attributes":[],"generics":[],"genericPacks":[],"argTypes":{"type":"AstTypeList","types":[{"type":"AstTypeTable","location":"9,21 - 9,39","props":[{"name":"query","type":"AstTableProp","location":"9,23 - 9,28","propType":{"type":"AstTypeUnion","location":"9,30 - 9,37","types":[{"type":"AstTypeReference","location":"9,30 - 9,36","name":"string","nameLocation":"9,30 - 9,36","parameters":[]},{"type":"AstTypeOptional"}]}}],"indexer":null}]},"argNames":[{"type":"AstArgumentName","name":"args","location":"9,15 - 9,19"}],"returnTypes":{"type":"AstTypePackExplicit","location":"9,44 - 9,60","typeList":{"type":"AstTypeList","types":[{"type":"AstTypeTable","location":"9,44 - 9,60","props":[],"indexer":{"location":"9,46 - 9,58","indexType":{"type":"AstTypeReference","location":"9,46 - 9,58","name":"number","parameters":[]},"resultType":{"type":"AstTypeReference","location":"9,46 - 9,58","name":"RepoListItem","nameLocation":"9,46 - 9,58","parameters":[]}}}]}}}}],"indexer":null}}],"indexer":null},"location":"6,0 - 11,1","name":"github","nameLocation":"6,8 - 6,14"}]}"##;
    let schema = schema_of_tree(source, tree).expect("generated MCP-style schema");
    let root = schema.root.expect("root");
    assert!(root.namespace.callables.contains_key("labels"));
    assert!(root.namespace.child("repos").expect("repos").callables.contains_key("list"));
    assert!(schema.type_aliases.contains_key("RepoListItem"));
}

#[test]
fn extract_module_schema_handles_nested_contract_shapes() {
    let source = r#"
-- Utility module.
export type Result<T> = {
    ok: boolean,
    value: T?,
    errors: { string }?,
}

export type Options = {
    ["literal-key"]: "a,b" | "brace { ok }" | "paren(value)"?,
    callback: ((name: string, values: { [string]: Result<number> }) -> ())?,
}

declare class Handle
    id: string
    function close(self): ()
end

declare tools: {
    make: (name: string, options: Options?) -> Result<number>,
    nested: {
        run: (handles: { Handle }) -> { [string]: Result<number> },
    },
}
"#;
    let tree = r##"{"type":"AstStatBlock","location":"0,0 - 24,0","hasEnd":true,"body":[{"type":"AstStatTypeAlias","location":"2,0 - 6,1","name":"Result","generics":[],"genericPacks":[],"value":{"type":"AstTypeTable","location":"2,24 - 6,1","props":[{"name":"ok","type":"AstTableProp","location":"3,4 - 3,6","propType":{"type":"AstTypeReference","location":"3,8 - 3,15","name":"boolean","nameLocation":"3,8 - 3,15","parameters":[]}},{"name":"value","type":"AstTableProp","location":"4,4 - 4,9","propType":{"type":"AstTypeUnion","location":"4,11 - 4,13","types":[{"type":"AstTypeReference","location":"4,11 - 4,12","name":"T","nameLocation":"4,11 - 4,12","parameters":[]},{"type":"AstTypeOptional"}]}},{"name":"errors","type":"AstTableProp","location":"5,4 - 5,10","propType":{"type":"AstTypeUnion","location":"5,12 - 5,23","types":[{"type":"AstTypeTable","location":"5,12 - 5,22","props":[],"indexer":{"location":"5,14 - 5,20","indexType":{"type":"AstTypeReference","location":"5,14 - 5,20","name":"number","parameters":[]},"resultType":{"type":"AstTypeReference","location":"5,14 - 5,20","name":"string","nameLocation":"5,14 - 5,20","parameters":[]}}},{"type":"AstTypeOptional"}]}}],"indexer":null},"exported":true},{"type":"AstStatTypeAlias","location":"8,0 - 11,1","name":"Options","generics":[],"genericPacks":[],"value":{"type":"AstTypeTable","location":"8,22 - 11,1","props":[{"name":"literal-key","type":"AstTableProp","location":"9,5 - 9,18","propType":{"type":"AstTypeUnion","location":"9,21 - 9,61","types":[{"type":"AstTypeSingletonString","location":"9,21 - 9,26","value":"a,b"},{"type":"AstTypeSingletonString","location":"9,29 - 9,43","value":"brace { ok }"},{"type":"AstTypeSingletonString","location":"9,46 - 9,60","value":"paren(value)"},{"type":"AstTypeOptional"}]}},{"name":"callback","type":"AstTableProp","location":"10,4 - 10,12","propType":{"type":"AstTypeUnion","location":"10,14 - 10,75","types":[{"type":"AstTypeGroup","location":"10,14 - 10,74","inner":{"type":"AstTypeFunction","location":"10,15 - 10,73","attributes":[],"generics":[],"genericPacks":[],"argTypes":{"type":"AstTypeList","types":[{"type":"AstTypeReference","location":"10,22 - 10,28","name":"string","nameLocation":"10,22 - 10,28","parameters":[]},{"type":"AstTypeTable","location":"10,38 - 10,66","props":[],"indexer":{"location":"10,40 - 10,64","indexType":{"type":"AstTypeReference","location":"10,41 - 10,47","name":"string","nameLocation":"10,41 - 10,47","parameters":[]},"resultType":{"type":"AstTypeReference","location":"10,50 - 10,64","name":"Result","nameLocation":"10,50 - 10,56","parameters":[{"type":"AstTypeReference","location":"10,57 - 10,63","name":"number","nameLocation":"10,57 - 10,63","parameters":[]}]}}}]},"argNames":[{"type":"AstArgumentName","name":"name","location":"10,16 - 10,20"},{"type":"AstArgumentName","name":"values","location":"10,30 - 10,36"}],"returnTypes":{"type":"AstTypePackExplicit","location":"10,71 - 10,73","typeList":{"type":"AstTypeList","types":[]}}}},{"type":"AstTypeOptional"}]}}],"indexer":null},"exported":true},{"type":"AstStatDeclareClass","location":"13,0 - 16,3","name":"Handle","props":[{"name":"id","type":"AstDeclaredClassProp","luauType":{"type":"AstTypeReference","location":"14,8 - 14,14","name":"string","nameLocation":"14,8 - 14,14","parameters":[]},"location":"14,4 - 14,14"},{"name":"close","type":"AstDeclaredClassProp","luauType":{"type":"AstTypeFunction","location":"15,4 - 15,28","attributes":[],"generics":[],"genericPacks":[],"argTypes":{"type":"AstTypeList","types":[]},"argNames":[],"returnTypes":{"type":"AstTypePackExplicit","location":"15,26 - 15,28","typeList":{"type":"AstTypeList","types":[]}}},"location":"15,4 - 15,28"}]},{"type":{"type":"AstTypeTable","location":"18,15 - 23,1","props":[{"name":"make","type":"AstTableProp","location":"19,4 - 19,8","propType":{"type":"AstTypeFunction","location":"19,10 - 19,61","attributes":[],"generics":[],"genericPacks":[],"argTypes":{"type":"AstTypeList","types":[{"type":"AstTypeReference","location":"19,17 - 19,23","name":"string","nameLocation":"19,17 - 19,23","parameters":[]},{"type":"AstTypeUnion","location":"19,34 - 19,42","types":[{"type":"AstTypeReference","location":"19,34 - 19,41","name":"Options","nameLocation":"19,34 - 19,41","parameters":[]},{"type":"AstTypeOptional"}]}]},"argNames":[{"type":"AstArgumentName","name":"name","location":"19,11 - 19,15"},{"type":"AstArgumentName","name":"options","location":"19,25 - 19,32"}],"returnTypes":{"type":"AstTypePackExplicit","location":"19,47 - 19,61","typeList":{"type":"AstTypeList","types":[{"type":"AstTypeReference","location":"19,47 - 19,61","name":"Result","nameLocation":"19,47 - 19,53","parameters":[{"type":"AstTypeReference","location":"19,54 - 19,60","name":"number","nameLocation":"19,54 - 19,60","parameters":[]}]}]}}}},{"name":"nested","type":"AstTableProp","location":"20,4 - 20,10","propType":{"type":"AstTypeTable","location":"20,12 - 22,5","props":[{"name":"run","type":"AstTableProp","location":"21,8 - 21,11","propType":{"type":"AstTypeFunction","location":"21,13 - 21,66","attributes":[],"generics":[],"genericPacks":[],"argTypes":{"type":"AstTypeList","types":[{"type":"AstTypeTable","location":"21,23 - 21,33","props":[],"indexer":{"location":"21,25 - 21,31","indexType":{"type":"AstTypeReference","location":"21,25 - 21,31","name":"number","parameters":[]},"resultType":{"type":"AstTypeReference","location":"21,25 - 21,31","name":"Handle","nameLocation":"21,25 - 21,31","parameters":[]}}}]},"argNames":[{"type":"AstArgumentName","name":"handles","location":"21,14 - 21,21"}],"returnTypes":{"type":"AstTypePackExplicit","location":"21,38 - 21,66","typeList":{"type":"AstTypeList","types":[{"type":"AstTypeTable","location":"21,38 - 21,66","props":[],"indexer":{"location":"21,40 - 21,64","indexType":{"type":"AstTypeReference","location":"21,41 - 21,47","name":"string","nameLocation":"21,41 - 21,47","parameters":[]},"resultType":{"type":"AstTypeReference","location":"21,50 - 21,64","name":"Result","nameLocation":"21,50 - 21,56","parameters":[{"type":"AstTypeReference","location":"21,57 - 21,63","name":"number","nameLocation":"21,57 - 21,63","parameters":[]}]}}}]}}}}],"indexer":null}}],"indexer":null},"location":"18,0 - 23,1","name":"tools","nameLocation":"18,8 - 18,13"}]}"##;

    let schema = schema_of_tree(source, tree).expect("schema");
    let root = schema.root.expect("root");
    assert!(root.namespace.callables.contains_key("make"));
    assert!(root.namespace.child("nested").expect("nested").callables.contains_key("run"));
    let handle = schema.classes.get("Handle").expect("handle");
    assert!(handle.fields.contains_key("id"));
    assert!(handle.method_signatures.contains_key("close"));
    assert!(schema.type_aliases.contains_key("Result"));
    assert!(schema.type_aliases.contains_key("Options"));
}

#[test]
fn extract_module_schema_error_display_is_stable() {
    let source = r#"
declare first: {}
declare second: {}
"#;
    let tree = r##"{"type":"AstStatBlock","location":"0,0 - 3,0","hasEnd":true,"body":[{"type":{"type":"AstTypeTable","location":"1,15 - 1,17","props":[],"indexer":null},"location":"1,0 - 1,17","name":"first","nameLocation":"1,8 - 1,13"},{"type":{"type":"AstTypeTable","location":"2,16 - 2,18","props":[],"indexer":null},"location":"2,0 - 2,18","name":"second","nameLocation":"2,8 - 2,14"}]}"##;
    let error = schema_of_tree(source, tree).expect_err("schema should fail");

    assert_eq!(
        error.message(),
        "failed to extract Luau module schema: multiple module-root declarations: `first` and `second`"
    );
}

/// Verifies module schema extraction rejects multiple module roots.
#[test]
fn tests_extract_module_schema_rejects_multiple_roots() {
    let source = r#"
declare first: {}
declare second: {}
"#;
    let tree = r##"{"type":"AstStatBlock","location":"0,0 - 3,0","hasEnd":true,"body":[{"type":{"type":"AstTypeTable","location":"1,15 - 1,17","props":[],"indexer":null},"location":"1,0 - 1,17","name":"first","nameLocation":"1,8 - 1,13"},{"type":{"type":"AstTypeTable","location":"2,16 - 2,18","props":[],"indexer":null},"location":"2,0 - 2,18","name":"second","nameLocation":"2,8 - 2,14"}]}"##;
    let error = schema_of_tree(source, tree).expect_err("schema should fail");

    assert!(error.message().contains("multiple module-root declarations"), "{}", error.message());
}
