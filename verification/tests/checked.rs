//! Host APIs and checked hosts.
use ruau::analyzer::handle::CheckStep;
use ruau::analyzer::{AnalysisError, Checker};
use ruau::checked::{CheckedHost, CheckedHostError, HostPreamble};
use ruau::error::Error;
use ruau::host::{
    check_function_signature, is_luau_identifier, is_luau_keyword, HostApi, HostApiError,
    InstallStep,
};
use ruau::resolver::{ModuleId, ModuleResolveError};

#[test]
fn validate_bindings_reports_declared_without_installer() {
    let host = CheckedHost::from_host_api(
        HostApi::new().add_definition_for("progress", "declare function progress(): ()"),
    );

    assert!(matches!(
        host.validate_bindings(),
        Err(CheckedHostError::DeclaredButNotInstalled(global)) if global == "progress"
    ));
}

#[test]
fn preamble_exports_count_as_installed_globals() {
    let host = CheckedHost::from_host_api(
        HostApi::new().add_definition_for("helper", "declare function helper(): string"),
    )
    .with_preamble(HostPreamble::new(
        "test:preamble",
        "return { helper = function() return 'ok' end }",
        vec!["helper".to_owned()],
    ));
    host.validate_bindings().expect("bindings");
    let preamble = &host.preambles[0];
    for export in preamble.exports() {
        preamble.accept_export(export, false).expect("exported");
    }
    let error = preamble.accept_export("helper", true).expect_err("nil export");
    assert_eq!(
        "runtime error: host preamble `test:preamble` did not export `helper`",
        error.message()
    );
}

#[test]
fn validate_bindings_reports_installed_without_declaration() {
    let host = CheckedHost::new().with_host_api(HostApi::new().add_installer("extra", 0));
    let error = host.validate_bindings().expect_err("drift");
    assert_eq!("host global `extra` is installed but not declared", error.message());
    assert!(matches!(error, CheckedHostError::InstalledButNotDeclared(g) if g == "extra"));
}

#[test]
fn the_first_missing_global_in_order_is_reported() {
    let host = CheckedHost::from_host_api(
        HostApi::new()
            .add_definition_for("zeta", "declare zeta: number")
            .add_definition_for("alpha", "declare alpha: number")
            .add_installer("beta", 0),
    );
    let error = host.validate_bindings().expect_err("drift");
    assert_eq!("host global `alpha` is declared but not installed", error.message());
}

#[test]
fn definitions_are_installed_only_where_bindings_hold() {
    let drifting = CheckedHost::from_host_api(
        HostApi::new().add_definition_for("progress", "declare function progress(): ()"),
    );
    assert!(drifting.install_definitions().is_err());
    let sound = CheckedHost::from_host_api(
        HostApi::new().try_function("log", 0, "(message: string) -> ()").expect("function"),
    );
    assert_eq!("declare log: (message: string) -> ()\n", sound.install_definitions().expect("text"));
}

#[test]
fn dotted_functions_share_their_namespace() {
    let host = HostApi::new()
        .add_definition("  declare version: string\n\n")
        .function("term.echo", 0, "(msg: string) -> string")
        .async_function("term.read.line", 1, "() -> string")
        .function("quit", 2, "() -> ()");
    assert_eq!(
        "declare version: string\n\
         declare term: { echo: (msg: string) -> string, read: { line: () -> string } }\n\
         declare quit: () -> ()\n",
        host.definitions()
    );
    assert_eq!(vec!["quit", "term"], host.declared_globals());
    assert_eq!(vec!["quit", "term"], host.installed_globals());
}

#[test]
fn blank_definitions_add_nothing() {
    assert_eq!("", HostApi::new().add_definition(" \n\t").definitions());
}

#[test]
fn bad_names_and_signatures_are_refused() {
    let error = HostApi::new().try_function("term.end", 0, "() -> ()").expect_err("keyword");
    assert_eq!("host function name is not a Luau identifier: \"end\"", error.message());
    let error = HostApi::new().try_async_function("1st", 0, "() -> ()").expect_err("digit");
    assert_eq!("host async function name is not a Luau identifier: \"1st\"", error.message());
    let error = HostApi::new().try_function("term.", 0, "() -> ()").expect_err("empty");
    assert!(matches!(error, HostApiError::InvalidIdentifier { name, .. } if name.is_empty()));
    let error = HostApi::new().try_function("f", 0, " string ").expect_err("signature");
    assert_eq!(
        "host function signature must be a Luau function type such as `(s: string) -> ()`: \"string\"",
        error.message()
    );
    assert!(check_function_signature("(a) -> \0").is_err());
}

#[test]
fn identifiers_are_told_from_keywords() {
    assert!(is_luau_identifier("_a1"));
    assert!(!is_luau_identifier("a-b"));
    assert!(!is_luau_identifier(""));
    assert!(is_luau_keyword("continue"));
    assert!(!is_luau_keyword("continued"));
}

#[test]
fn interfaces_of_a_host_can_be_required() {
    let tree = r#"{"type":"AstStatBlock","body":[]}"#;
    let mut host = CheckedHost::new()
        .with_implementation("demo", "return { value = 1 }")
        .with_interface("plain", "-- nothing", tree)
        .expect("interface");
    assert_eq!("return { value = 1 }", host.interfaces().get("demo").expect("demo").source());
    assert!(host.interfaces().get("demo").expect("demo").is_requireable());
    assert!(!host.interfaces().get("plain").expect("plain").is_requireable());
    host.interfaces_mut().insert_implementation("demo", "return 2");
    assert_eq!("return 2", host.interfaces().get("demo").expect("demo").source());
    assert!(host.with_interface("bad", "", "{").is_err());
}

#[test]
fn functions_are_installed_behind_the_installers() {
    let host = HostApi::new()
        .add_installer("extra", 7)
        .function("term.echo", 1, "(m: string) -> ()")
        .function("term.io.read", 2, "() -> string")
        .function("quit", 3, "() -> ()");
    let shown = host
        .install()
        .iter()
        .map(|step| match step {
            InstallStep::Run(installer) => format!("run {installer}"),
            InstallStep::SetFunction { name, factory } => format!("set {name} {factory}"),
            InstallStep::OpenTable => "open".to_owned(),
            InstallStep::CloseTable { name } => format!("close {name}"),
        })
        .collect::<Vec<_>>();
    assert_eq!(
        vec![
            "run 7", "open", "set echo 1", "open", "set read 2", "close io", "close term",
            "set quit 3",
        ],
        shown
    );
}

#[test]
fn hosts_check_once_their_definitions_are_loaded() {
    let host = CheckedHost::new().with_implementation("demo", "return 1");
    let mut checker = Checker::new(true).expect("checker");
    assert!(matches!(
        host.check_script(&mut checker, "return 1", Err(AnalysisError::Busy)),
        Err(CheckedHostError::Analysis(AnalysisError::Busy))
    ));
    let absent = ModuleResolveError::NotFound("main".to_owned());
    assert!(matches!(
        host.check_resolved(&mut checker, Err(absent), Ok(())),
        Err(CheckedHostError::Resolve(ModuleResolveError::NotFound(name))) if name == "main"
    ));
    assert!(!checker.handle.busy);
    let CheckStep::CreateToken(inputs) =
        host.check_script(&mut checker, "return 1", Ok(())).expect("ready")
    else {
        panic!("no token was given");
    };
    assert_eq!(1, inputs.virtual_modules.len());
    let module = ModuleId::new("m");
    assert!(matches!(
        host.check_implementation(&mut checker, "return 1", &module, "demo", Ok(())),
        Ok(CheckStep::Fail(AnalysisError::Busy))
    ));
    let drifting = CheckedHost::from_host_api(HostApi::new().add_installer("extra", 0));
    assert!(matches!(
        drifting.check_script(&mut checker, "return 1", Ok(())),
        Err(CheckedHostError::InstalledButNotDeclared(global)) if global == "extra"
    ));
}

#[test]
fn installing_stops_at_the_first_failure() {
    let host = HostApi::new()
        .add_installer("a", 1)
        .add_installer("b", 2)
        .add_installer("c", 3)
        .function("quit", 4, "() -> ()");
    let run = |fails: u64| {
        let mut seen = Vec::new();
        let mut installation = host.begin_install();
        while let Some(step) = installation.pending() {
            let number = match step {
                InstallStep::Run(installer) => *installer,
                InstallStep::SetFunction { factory, .. } => *factory,
                InstallStep::OpenTable | InstallStep::CloseTable { .. } => 0,
            };
            seen.push(number);
            let outcome =
                if number == fails { Err(Error::runtime("refused")) } else { Ok(()) };
            installation.report(outcome);
        }
        (seen, installation.finish())
    };
    let (seen, result) = run(2);
    assert_eq!(vec![1, 2], seen);
    assert!(matches!(result, Err(Error::RuntimeError(text)) if text == "refused"));
    let (seen, result) = run(0);
    assert_eq!(vec![1, 2, 3, 4], seen);
    assert!(result.is_ok());
}
