//! Planning checks: inputs, interfaces, implementations and replies.
use std::time::Duration;

use ruau::analyzer::checker::{Checker, LoadedInput};
use ruau::analyzer::handle::{
    begin_check, finish_check, with_token, CheckOutcome, CheckStep, CheckerHandle, RawCheckResult,
};
use ruau::analyzer::interfaces::{ModuleInterface, ModuleInterfaceSet};
use ruau::analyzer::native::{
    collect_diagnostics, definition_inputs, definitions_result, prefix_definitions_error,
    sort_diagnostics, OwnedCheckInputs, RawDiagnostic,
};
use ruau::analyzer::plan::{
    checked_load, checked_root, implementation_check, interface_modules, prepared_load,
    scoped_modules, snapshot_check,
};
use ruau::analyzer::{
    AnalysisError, CancellationToken, CheckOptions, CheckResult, CheckerOptions, Severity,
    VirtualModule,
};
use ruau::error::Error;
use ruau::resolver::builder::SnapshotBuilder;
use ruau::resolver::require_spec::{RawRequire, RawRequireTrace};
use ruau::resolver::snapshot::ResolverSnapshot;
use ruau::resolver::{ModuleId, ModuleSource};

const DECLARATION: &str = r#"export type Mode = "read" | "write"

declare class Store
    field: string
    function get(self, key: string): string?
end

declare demo: {
    open: (name: string) -> Store,
    nested: {
        count: () -> number,
    },
}
"#;

const TREE: &str = r#"{"type":"AstStatBlock","location":"0,0 - 13,0","hasEnd":true,"body":[{"type":"AstStatTypeAlias","location":"0,0 - 0,35","name":"Mode","generics":[],"genericPacks":[],"value":{"type":"AstTypeUnion","location":"0,19 - 0,35","types":[{"type":"AstTypeSingletonString","location":"0,19 - 0,25","value":"read"},{"type":"AstTypeSingletonString","location":"0,28 - 0,35","value":"write"}]},"exported":true},{"type":"AstStatDeclareClass","location":"2,0 - 5,3","name":"Store","props":[{"name":"field","type":"AstDeclaredClassProp","luauType":{"type":"AstTypeReference","location":"3,11 - 3,17","name":"string","nameLocation":"3,11 - 3,17","parameters":[]},"location":"3,4 - 3,17"},{"name":"get","type":"AstDeclaredClassProp","luauType":{"type":"AstTypeFunction","location":"4,4 - 4,44","attributes":[],"generics":[],"genericPacks":[],"argTypes":{"type":"AstTypeList","types":[{"type":"AstTypeReference","location":"4,28 - 4,34","name":"string","nameLocation":"4,28 - 4,34","parameters":[]}]},"argNames":[{"type":"AstArgumentName","name":"key","location":"4,23 - 4,26"}],"returnTypes":{"type":"AstTypePackExplicit","location":"4,37 - 4,44","typeList":{"type":"AstTypeList","types":[{"type":"AstTypeUnion","location":"4,37 - 4,44","types":[{"type":"AstTypeReference","location":"4,37 - 4,43","name":"string","nameLocation":"4,37 - 4,43","parameters":[]},{"type":"AstTypeOptional"}]}]}}},"location":"4,4 - 4,44"}]},{"type":{"type":"AstTypeTable","location":"7,14 - 12,1","props":[{"name":"open","type":"AstTableProp","location":"8,4 - 8,8","propType":{"type":"AstTypeFunction","location":"8,10 - 8,33","attributes":[],"generics":[],"genericPacks":[],"argTypes":{"type":"AstTypeList","types":[{"type":"AstTypeReference","location":"8,17 - 8,23","name":"string","nameLocation":"8,17 - 8,23","parameters":[]}]},"argNames":[{"type":"AstArgumentName","name":"name","location":"8,11 - 8,15"}],"returnTypes":{"type":"AstTypePackExplicit","location":"8,28 - 8,33","typeList":{"type":"AstTypeList","types":[{"type":"AstTypeReference","location":"8,28 - 8,33","name":"Store","nameLocation":"8,28 - 8,33","parameters":[]}]}}}},{"name":"nested","type":"AstTableProp","location":"9,4 - 9,10","propType":{"type":"AstTypeTable","location":"9,12 - 11,5","props":[{"name":"count","type":"AstTableProp","location":"10,8 - 10,13","propType":{"type":"AstTypeFunction","location":"10,15 - 10,27","attributes":[],"generics":[],"genericPacks":[],"argTypes":{"type":"AstTypeList","types":[]},"argNames":[],"returnTypes":{"type":"AstTypePackExplicit","location":"10,21 - 10,27","typeList":{"type":"AstTypeList","types":[{"type":"AstTypeReference","location":"10,21 - 10,27","name":"number","nameLocation":"10,21 - 10,27","parameters":[]}]}}}}],"indexer":null}}],"indexer":null},"location":"7,0 - 12,1","name":"demo","nameLocation":"7,8 - 7,12"}]}"#;

#[test]
fn declarations_become_checker_sources() {
    let interface =
        ModuleInterface::declaration("demo".to_owned(), DECLARATION.to_owned(), TREE)
            .expect("interface");
    assert_eq!(
        r#"export type Mode = "read" | "write"

export type Store = {
    field: string,
    get: (self: Store, key: string) -> string?,
}

export type Module = {
    open: (name: string) -> Store,
    nested: {
        count: () -> number,
    },
}

return (nil :: any) :: Module
"#,
        interface.checker_source()
    );
    assert!(interface.is_requireable());
    assert_eq!("demo", interface.specifier());
}

fn names(modules: &[VirtualModule<'_>]) -> Vec<String> {
    modules.iter().map(|module| module.name.to_owned()).collect()
}

#[test]
fn interfaces_come_before_the_modules_of_a_call() {
    let mut set = ModuleInterfaceSet::new();
    set.insert_implementation("b", "return 2");
    set.insert_implementation("a", "return 1");
    let own = [VirtualModule { name: "own", source: "return 3" }];
    let options = CheckOptions { virtual_modules: &own, ..CheckOptions::default() };
    let modules = interface_modules(&set, options.virtual_modules);
    assert_eq!(vec!["a", "b", "own"], names(&modules));
}

#[test]
fn implementations_are_checked_beside_their_module() {
    let plan = implementation_check(&ModuleId::new("lib/demo"), "de\"mo");
    assert_eq!("lib/demo$implementation", plan.specifier);
    assert_eq!("lib/demo$check", plan.module_name);
    assert_eq!(
        r#"local _: typeof(require("de\"mo")) = require("lib/demo$implementation")"#,
        plan.assertion
    );
    let mut set = ModuleInterfaceSet::new();
    set.insert_implementation("a", "return 1");
    set.insert_implementation("z", "return 9");
    assert_eq!(vec!["a", "m", "z"], names(&scoped_modules(&set, "m", "return 5")));
    let replaced = scoped_modules(&set, "z", "return 5");
    assert_eq!(vec!["a", "z"], names(&replaced));
    assert_eq!("return 5", replaced[1].source);
}

fn trace(specifiers: &[&str]) -> RawRequireTrace {
    let specifiers = specifiers
        .iter()
        .map(|specifier| RawRequire {
            specifier: specifier.as_bytes().to_vec(),
            line: 0,
            col: 15,
            end_line: 0,
            end_col: 20,
        })
        .collect();
    RawRequireTrace { error: Vec::new(), specifiers }
}

fn snapshot() -> ResolverSnapshot {
    let root = ModuleSource::new(ModuleId::new("main"), "return require('dep')".to_owned());
    let mut builder = SnapshotBuilder::new(root).expect("executable");
    builder.traced(&trace(&["dep", "again"])).expect("traced");
    let dep = ModuleSource::new(ModuleId::new("dep"), "return 1".to_owned());
    builder.add_dependency(dep).expect("executable");
    let again = ModuleSource::new(ModuleId::new("dep"), "return 2".to_owned());
    builder.add_dependency(again).expect("executable");
    builder.traced(&trace(&[])).expect("traced");
    builder.finish()
}

#[test]
fn snapshots_are_checked_as_they_are_loaded() {
    let snapshot = snapshot();
    let mut set = ModuleInterfaceSet::new();
    set.insert_implementation("host", "return {}");
    let plan = snapshot_check(&snapshot, &set).expect("root");
    assert_eq!(("main", "return require('dep')"), (plan.module_name, plan.source));
    assert_eq!(vec!["dep", "host"], names(&plan.virtual_modules));
    let main = ModuleId::new("main");
    for specifier in ["dep", "again"] {
        let loaded = snapshot.resolve(Some(&main), specifier).expect("recorded");
        assert_eq!(plan.virtual_modules[0].name, loaded.id().as_str());
        assert_eq!(plan.virtual_modules[0].source, loaded.source());
        assert!(loaded.is_executable());
    }
}

#[test]
fn only_passing_checks_hand_out_the_root() {
    let snapshot = snapshot();
    let root = checked_root(&snapshot, CheckResult::default()).expect("passes");
    assert_eq!("main", root.id().as_str());
    let timed_out = CheckResult { timed_out: true, ..CheckResult::default() };
    assert!(matches!(
        checked_root(&snapshot, timed_out),
        Err(AnalysisError::CheckFailed(result)) if result.timed_out
    ));
}

#[test]
fn checked_loads_end_as_their_check_does() {
    let snapshot = snapshot();
    let chunk = checked_load(&snapshot, Ok(CheckResult::default())).expect("passes");
    assert_eq!(("main", "return require('dep')"), (chunk.name.as_str(), chunk.source.as_str()));
    assert!(matches!(
        checked_load(&snapshot, Err(AnalysisError::Busy)),
        Err(AnalysisError::Busy)
    ));
    let cancelled = CheckResult { cancelled: true, ..CheckResult::default() };
    assert!(matches!(
        checked_load(&snapshot, Ok(cancelled)),
        Err(AnalysisError::CheckFailed(result)) if result.cancelled
    ));
    let (chunk, table) = prepared_load(chunk, Ok(5)).expect("prepared");
    assert_eq!(("main", 5), (chunk.name.as_str(), table));
    assert!(matches!(
        prepared_load(chunk, Err(Error::StackError)),
        Err(AnalysisError::Load(text)) if text.starts_with("out of Luau stack")
    ));
}

#[test]
fn virtual_modules_ascend_by_specifier() {
    let mut set = ModuleInterfaceSet::new();
    for specifier in ["b", "c", "a", "b"] {
        set.insert_implementation(specifier, "return 1");
    }
    let other = ModuleInterface::implementation("aa".to_owned(), "return 2".to_owned());
    set.insert_interface(other);
    assert_eq!(vec!["a", "aa", "b", "c"], names(&set.virtual_modules()));
    assert_eq!("return 2", set.virtual_modules()[1].source);
}

fn row(line: u32, severity: u32, message: &[u8]) -> RawDiagnostic {
    RawDiagnostic {
        line,
        col: 0,
        end_line: line,
        end_col: 1,
        severity,
        message: message.to_vec(),
    }
}

#[test]
fn diagnostics_have_one_order() {
    let module = ModuleId::new("m");
    let ordered = |rows: Vec<RawDiagnostic>| {
        sort_diagnostics(collect_diagnostics(&rows, &module))
            .iter()
            .map(|d| (d.span.line, d.severity.as_str(), d.message.clone()))
            .collect::<Vec<_>>()
    };
    let forward = ordered(vec![row(2, 0, b"z"), row(1, 1, b"b"), row(1, 1, b"a"), row(1, 0, b"q\xff")]);
    let backward = ordered(vec![row(1, 0, b"q\xff"), row(1, 1, b"a"), row(1, 1, b"b"), row(2, 0, b"z")]);
    assert_eq!(forward, backward);
    assert_eq!(
        vec![1, 1, 1, 2],
        forward.iter().map(|entry| entry.0).collect::<Vec<_>>()
    );
    assert!(forward.iter().any(|entry| entry.2 == "q\u{fffd}"));
    assert_eq!(Severity::from_ffi(0).as_str(), "error");
    assert_eq!(Severity::from_ffi(7).as_str(), "warning");
}

#[test]
fn inputs_fall_back_to_the_defaults() {
    let defaults = CheckerOptions {
        default_timeout: Some(Duration::from_secs(3)),
        ..CheckerOptions::default()
    };
    let modules = [VirtualModule { name: "v", source: "return 1" }];
    let options = CheckOptions { virtual_modules: &modules, ..CheckOptions::default() };
    let inputs = OwnedCheckInputs::from_borrowed("return 0", &options, &defaults).expect("fits");
    assert_eq!(defaults.default_module_name, inputs.module_id.as_str());
    assert_eq!(b"return 0".to_vec(), inputs.source);
    assert_eq!(8, inputs.source_len);
    assert_eq!(Some(Duration::from_secs(3)), inputs.timeout);
    assert_eq!(1, inputs.virtual_modules.len());
    let named = options.with_fallback_module_name("first").with_fallback_module_name("second");
    let inputs = OwnedCheckInputs::from_borrowed("", &named, &defaults).expect("fits");
    assert_eq!("first", inputs.module_id.as_str());
}

#[test]
fn one_check_runs_at_a_time() {
    let mut handle = CheckerHandle::new();
    let defaults = CheckerOptions::default();
    let options = CheckOptions::default();
    let CheckStep::CreateToken(inputs) = begin_check(&mut handle, "return 1", &options, &defaults)
    else {
        panic!("no token was given");
    };
    assert!(matches!(
        begin_check(&mut handle, "return 1", &options, &defaults),
        CheckStep::Fail(AnalysisError::Busy)
    ));
    let token = CancellationToken { id: 5 };
    let CheckStep::Run(inputs, token) = with_token(&mut handle, inputs, Some(token)) else {
        panic!("a token was made");
    };
    assert_eq!(5, token.id);
    let reply = RawCheckResult { diagnostics: vec![row(1, 0, b"bad")], timed_out: 0, cancelled: 1 };
    let (result, cancel) =
        finish_check(&mut handle, &inputs.module_id, CheckOutcome::Completed(reply));
    let result = result.expect("finished").expect("result");
    assert!(result.has_errors() && result.cancelled && !result.timed_out && !cancel);
    assert!(handle.claim().is_ok());
}

#[test]
fn lost_checks_free_the_checker() {
    let mut handle = CheckerHandle::new();
    let defaults = CheckerOptions::default();
    let token = CancellationToken { id: 1 };
    let options = CheckOptions { cancellation_token: Some(token), ..CheckOptions::default() };
    let CheckStep::Run(inputs, _) = begin_check(&mut handle, "return 1", &options, &defaults)
    else {
        panic!("a token was given");
    };
    let lost = CheckOutcome::JobFailed("panicked".to_owned());
    let (result, _) = finish_check(&mut handle, &inputs.module_id, lost);
    let error = result.expect("finished").expect_err("lost");
    assert_eq!("blocking analysis task failed: panicked", error.message());
    let CheckStep::CreateToken(inputs) =
        begin_check(&mut handle, "return 1", &CheckOptions::default(), &defaults)
    else {
        panic!("the checker is free");
    };
    assert!(matches!(
        with_token(&mut handle, inputs, None),
        CheckStep::Fail(AnalysisError::CreateCancellationTokenFailed)
    ));
    assert!(!handle.busy);
}

#[test]
fn definitions_are_loaded_or_refused() {
    assert_eq!((3, 1), definition_inputs("def", "m").expect("fits"));
    assert!(definitions_result(b"").is_ok());
    let refused = definitions_result(b"bad type");
    let labelled = prefix_definitions_error("file.d.luau", refused).expect_err("refused");
    assert!(matches!(
        labelled,
        AnalysisError::Definitions(text) if text == "file.d.luau: bad type"
    ));
}

fn free() -> Checker {
    Checker::new(true).expect("checker")
}

fn inputs(step: CheckStep) -> OwnedCheckInputs {
    match step {
        CheckStep::CreateToken(inputs) => inputs,
        other => panic!("unexpected step: {other:?}"),
    }
}

fn text(bytes: &[u8]) -> String {
    String::from_utf8(bytes.to_vec()).expect("text")
}

#[test]
fn checkers_are_made_once_the_native_one_is() {
    assert!(matches!(Checker::new(false), Err(AnalysisError::CreateCheckerFailed)));
    assert_eq!("main", free().options().default_module_name);
}

#[test]
fn checks_are_packed_for_the_native_checker() {
    assert_eq!("main", text(&inputs(free().check("return 1")).module_name));
    let loaded = LoadedInput::read("a.luau".to_owned(), "source", Ok("return 2".to_owned()))
        .expect("loaded");
    let packed = inputs(free().check_path(&loaded));
    assert_eq!(("a.luau", "return 2"), (packed.module_id.as_str(), text(&packed.source).as_str()));
    let named = CheckOptions { module_name: Some("own"), ..CheckOptions::default() };
    assert_eq!("own", inputs(free().check_path_with_options(&loaded, named)).module_id.as_str());
    let snapshot = snapshot();
    let packed = inputs(free().check_snapshot(&snapshot));
    assert_eq!("main", packed.module_id.as_str());
    assert_eq!(1, packed.virtual_modules.len());
    let mut set = ModuleInterfaceSet::new();
    set.insert_implementation("host", "return {}");
    let packed = inputs(free().check_snapshot_with_interfaces(&snapshot, &set));
    assert_eq!(2, packed.virtual_modules.len());
    let packed = inputs(free().check_with_interfaces("return 1", &set));
    assert_eq!("host", text(&packed.virtual_modules[0].name));
    let module = ModuleId::new("impl");
    let packed = inputs(free().check_implementation("return {}", &module, &set, "host"));
    assert_eq!("impl$check", packed.module_id.as_str());
    assert_eq!(
        "local _: typeof(require(\"host\")) = require(\"impl$implementation\")",
        text(&packed.source)
    );
    assert_eq!(2, packed.virtual_modules.len());
}

#[test]
fn files_that_are_not_read_are_reported() {
    let error = LoadedInput::read("x.luau".to_owned(), "source", Err("gone".to_owned()))
        .expect_err("unread");
    assert!(matches!(
        error,
        AnalysisError::ReadFile { kind: "source", path, message }
            if path == "x.luau" && message == "gone"
    ));
}

#[test]
fn definitions_hold_the_checker_while_they_load() {
    let mut checker = free();
    assert_eq!((3, 12), checker.add_definitions("def").expect("free"));
    assert!(matches!(checker.check("return 1"), CheckStep::Fail(AnalysisError::Busy)));
    assert!(matches!(checker.add_definitions("def"), Err(AnalysisError::Busy)));
    assert!(checker.finish_definitions(b"").is_ok());
    assert_eq!((3, 4), checker.add_definitions_with_name("def", "name").expect("free"));
    assert!(matches!(
        checker.finish_definitions_path("f.d.luau", b"bad"),
        Err(AnalysisError::Definitions(text)) if text == "f.d.luau: bad"
    ));
    assert!(!checker.handle.busy);
}
