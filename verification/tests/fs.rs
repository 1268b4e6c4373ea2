//! Module files below a root, bounded reads and configuration files.
use ruau::fs::config::{
    luaurc_alias_names, normalize_luaurc_json, parse_config_mode, parse_luaurc,
    remove_trailing_json_commas, strip_json_comments, AnalysisMode,
};
use ruau::fs::config_luau::{
    config_luau_field, parse_config_luau, Expr, ParseFault, ParsedFile, Stat, TableItem,
};
use ruau::fs::{
    admit_bytes, admit_size, admit_text, bounded_read_module_source_error,
    bounded_read_resolver_error, config_search_directories, is_direct_init_module,
    load_config_from_directory, max_read_bytes_error, module_name_escapes_root,
    module_source_error_from_resolver, read_limit, BoundedReadError, DirectoryFiles,
    EpochTable, FilesystemEpoch, FilesystemResolver, FilesystemSource, FilesystemSourceResolver,
    ModuleSourceError, ResolvedSource, ResolverError,
};
use ruau::json::parse_json;

#[test]
fn names_that_leave_the_root_are_refused() {
    for name in ["/etc", "../x", "a/../b", "a\\..\\b", "C:/x", "a/c:", "a/d:x"] {
        assert!(module_name_escapes_root(name), "{name}");
    }
    for name in ["a", "a/b", "a/..b", "a.b/c"] {
        assert!(!module_name_escapes_root(name), "{name}");
    }
    assert!(is_direct_init_module("init"));
    assert!(is_direct_init_module("a/init"));
    assert!(!is_direct_init_module("a/init.luau"));
}

#[test]
fn modules_are_probed_as_files_and_then_as_directories() {
    let resolver = FilesystemSourceResolver::new("/root");
    assert_eq!(16 * 1024 * 1024, resolver.max_read_bytes);
    assert_eq!(
        vec!["/root/a/b.luau", "/root/a/b.lua", "/root/a/b/init.luau", "/root/a/b/init.lua"],
        resolver.probe_paths("a/b", "a/b").expect("paths")
    );
    assert_eq!(
        vec!["/root/a.b.luau", "/root/a.b.lua", "/root/a.b/init.luau", "/root/a.b/init.lua"],
        resolver.probe_paths("a.b", "a.b").expect("paths")
    );
    assert_eq!(
        vec!["/root/m.lua", "/root/m.lua/init.luau", "/root/m.lua/init.lua"],
        resolver.probe_paths("m.lua", "m.lua").expect("paths")
    );
}

#[test]
fn paths_keep_the_text_of_their_root() {
    let resolver = FilesystemSourceResolver::new("./src");
    assert_eq!(
        vec!["./src/a/b.luau", "./src/a/b.lua", "./src/a/b/init.luau", "./src/a/b/init.lua"],
        resolver.probe_paths("a/b", "a//b").expect("paths")
    );
    assert!(matches!(
        resolver.resolve_module_name("a", "a", &vec![false; 4]),
        Err(ResolverError::MissingModule { searched, .. }) if searched == "./src/a"
    ));
    assert_eq!("a/b.luau", resolver.display_name("./src/a/b.luau"));
    assert_eq!("src/a/b.luau", resolver.display_name("src/a/b.luau"));
    let resolver = FilesystemSourceResolver::new("/r//x/./");
    assert_eq!("/r//x/./m.luau", resolver.probe_paths("m", "m").expect("paths")[0]);
    assert_eq!("m.luau", resolver.display_name("/r/x/m.luau"));
    assert_eq!("a//./b.luau", resolver.display_name("/r/x//./a//./b.luau/"));
    assert_eq!("", resolver.display_name("/r/x"));
    let resolver = FilesystemSourceResolver::new("/r");
    assert_eq!("/r/.luau", resolver.probe_paths("", "").expect("paths")[0]);
    assert_eq!("/rest/m", resolver.display_name("/rest/m"));
    let resolver = FilesystemSourceResolver::new("");
    assert_eq!("m.luau", resolver.probe_paths("m", "m").expect("paths")[0]);
    assert_eq!("/a/b", resolver.display_name("/a/b/"));
    assert_eq!(
        vec!["./src/", "./src/a", "./src/a/b"],
        config_search_directories("./src/", "a//b/")
    );
    let both = DirectoryFiles {
        luaurc: Some(Ok("{}".to_owned())),
        config_luau: Some(Ok(parsed(Vec::new()))),
    };
    assert!(matches!(
        load_config_from_directory("./a//b", &both, &Vec::new()),
        Err(ResolverError::ConfigAmbiguity { directory }) if directory == "./a//b"
    ));
}

#[test]
fn exactly_one_file_stands_for_a_module() {
    let resolver = FilesystemSourceResolver::new("/root");
    let resolved = resolver
        .resolve_module_name("./a", "a", &vec![false, false, true, false])
        .expect("one file");
    assert_eq!(("a", "/root/a/init.luau"), (resolved.module.as_str(), resolved.path.as_str()));
    assert!(matches!(
        resolver.resolve_module_name("./a", "a", &vec![false; 4]),
        Err(ResolverError::MissingModule { module, searched })
            if module == "./a" && searched == "/root/a"
    ));
    assert!(matches!(
        resolver.resolve_module_name("./a", "a", &vec![true, true, false, false]),
        Err(ResolverError::AmbiguousModule { module, .. }) if module == "./a"
    ));
    assert!(matches!(
        resolver.resolve_module_name("./../a", "../a", &Vec::new()),
        Err(ResolverError::ModuleEscapesRoot { module }) if module == "../a"
    ));
    assert!(matches!(
        resolver.resolve_module_name("./init", "init", &Vec::new()),
        Err(ResolverError::InitFileRequiredDirectly { module }) if module == "./init"
    ));
}

#[test]
fn reads_are_bounded() {
    assert!(admit_size(4, 4).is_ok());
    assert!(matches!(admit_size(5, 4), Err(BoundedReadError::TooLarge { max_bytes: 4 })));
    assert_eq!(5, read_limit(4));
    assert_eq!(u64::MAX, read_limit(usize::MAX));
    assert_eq!(vec![1, 2], admit_bytes(vec![1, 2], 2).expect("fits"));
    assert!(matches!(
        admit_bytes(vec![1, 2], 1),
        Err(BoundedReadError::TooLarge { max_bytes: 1 })
    ));
    assert_eq!("h\u{e9}", admit_text("h\u{e9}".as_bytes().to_vec(), 9).expect("text"));
    let refused = admit_text(vec![b'a', 0xff], 9).expect_err("no text");
    assert!(matches!(&refused, BoundedReadError::InvalidUtf8(text)
        if text == "invalid utf-8 sequence of 1 bytes from index 1"));
    assert_eq!("exceeds filesystem read limit of 7 bytes", max_read_bytes_error(7));
    assert!(matches!(
        bounded_read_resolver_error("p", &refused),
        ResolverError::Io { path, detail } if path == "p"
            && detail == "file is not UTF-8: invalid utf-8 sequence of 1 bytes from index 1"
    ));
    assert!(matches!(
        bounded_read_module_source_error("m", BoundedReadError::TooLarge { max_bytes: 7 }),
        ModuleSourceError::Other(text)
            if text == "source m exceeds filesystem read limit of 7 bytes"
    ));
    assert!(matches!(
        bounded_read_module_source_error("m", BoundedReadError::Io("gone".to_owned())),
        ModuleSourceError::Other(text) if text == "I/O error reading m: gone"
    ));
}

#[test]
fn resolver_errors_become_source_errors() {
    let missing =
        ResolverError::MissingModule { module: "a".to_owned(), searched: "/r/a".to_owned() };
    assert!(matches!(
        module_source_error_from_resolver(missing, String::new()),
        ModuleSourceError::MissingModule { id } if id == "a"
    ));
    let relative = ResolverError::UnresolvableRelativeRequest { request: "./b".to_owned() };
    assert!(matches!(
        module_source_error_from_resolver(relative, String::new()),
        ModuleSourceError::UnresolvableRelativeRequest { request } if request == b"./b"
    ));
    let escaping = ResolverError::ModuleEscapesRoot { module: "../c".to_owned() };
    assert!(matches!(
        module_source_error_from_resolver(escaping, String::new()),
        ModuleSourceError::Other(text) if text == "module `../c` escapes filesystem root"
    ));
    let other = ResolverError::InitFileRequiredDirectly { module: "init".to_owned() };
    assert!(matches!(
        module_source_error_from_resolver(other, "shown".to_owned()),
        ModuleSourceError::Other(text) if text == "shown"
    ));
}

#[test]
fn sources_check_their_text_and_name_their_files() {
    let mut table = EpochTable::new();
    let source = FilesystemSource::with_epoch("/root", 3, &mut table).with_max_read_bytes(8);
    assert_eq!(8, source.resolver.max_read_bytes);
    assert_eq!(3, source.epoch_handle().value(&table));
    assert_eq!(0, FilesystemSource::new("/root", &mut table).epoch(&table));
    let resolved =
        ResolvedSource { module: "a".to_owned(), path: "/root/a/init.luau".to_owned() };
    assert_eq!("a/init.luau", source.metadata("a", Some(&resolved)));
    assert_eq!("a", source.metadata("a", None));
    assert_eq!("x", FilesystemSource::request_text(b"x").expect("text"));
    assert!(matches!(
        FilesystemSource::request_text(&[0xff]),
        Err(ModuleSourceError::Other(text)) if text
            == "module request is not UTF-8: invalid utf-8 sequence of 1 bytes from index 0"
    ));
    assert_eq!(b"ok".to_vec(), source.read_outcome(&resolved, Ok(b"ok".to_vec())).expect("ok"));
    assert!(matches!(
        source.read_outcome(&resolved, Ok(vec![0xff])),
        Err(ModuleSourceError::Other(text)) if text
            == "source a/init.luau is not UTF-8: invalid utf-8 sequence of 1 bytes from index 0"
    ));
    assert!(source.read_outcome(&resolved, Err(BoundedReadError::Io("x".to_owned()))).is_err());
}

#[test]
fn epochs_wrap_around() {
    let mut table = EpochTable::default();
    let epoch = FilesystemEpoch::new(0, &mut table);
    assert_eq!(1, epoch.bump(&mut table));
    epoch.set(u64::MAX, &mut table);
    assert_eq!(0, epoch.bump(&mut table));
    assert_eq!(0, epoch.value(&table));
}

#[test]
fn clones_and_sources_share_their_epoch() {
    let mut table = EpochTable::new();
    let epoch = FilesystemEpoch::new(6, &mut table);
    let clone = epoch.clone();
    let source = FilesystemSource::with_epoch_handle("/root", epoch);
    let other = FilesystemSource::new("/other", &mut table);
    assert_eq!(7, epoch.bump(&mut table));
    assert_eq!(7, clone.value(&table));
    assert_eq!(7, source.epoch(&table));
    assert_eq!(7, source.epoch_handle().value(&table));
    assert_eq!(0, other.epoch(&table));
    source.epoch_handle().set(40, &mut table);
    assert_eq!((40, 40, 40), (epoch.value(&table), clone.value(&table), source.epoch(&table)));
}

#[test]
fn comments_are_stripped_outside_strings() {
    assert_eq!("{ \n \"a//b\\\"//\" }", strip_json_comments("{ // x\n \"a//b\\\"//\" }// y"));
    assert_eq!("a / b", strip_json_comments("a / b"));
}

#[test]
fn trailing_commas_are_removed_outside_strings() {
    assert_eq!("[1, 2 ]", remove_trailing_json_commas("[1, 2, ]"));
    assert_eq!("{\"a,}\": [\n]}", remove_trailing_json_commas("{\"a,}\": [,\n],}"));
    assert_eq!(",}", remove_trailing_json_commas(",,}"));
    assert_eq!("{\"a\": 1\n}", normalize_luaurc_json("{\"a\": 1, // last\n}").replace(" \n", "\n"));
}

#[test]
fn luaurc_settings_are_read() {
    let text = r#"{
        "languageMode": "strict", // mode
        "lintErrors": true,
        "typeErrors": false,
        "globals": ["expect", "describe",],
        "aliases": { "lib": "./lib", "app": "src/app" },
    }"#;
    let settings = parse_luaurc(text, "/r/.luaurc", &Vec::new()).expect("settings");
    assert_eq!(Some(AnalysisMode::Strict), settings.mode);
    assert_eq!((Some(true), Some(false)), (settings.lint_errors, settings.type_errors));
    assert_eq!(Some(vec!["expect".to_owned(), "describe".to_owned()]), settings.globals);
    let aliases = settings
        .aliases
        .iter()
        .map(|a| (a.name.as_str(), a.target.as_str(), a.origin.as_str()))
        .collect::<Vec<_>>();
    assert_eq!(
        vec![("app", "src/app", "/r/.luaurc"), ("lib", "./lib", "/r/.luaurc")],
        aliases
    );
    let compat = parse_luaurc(r#"{"language": {"mode": "noinfer"}}"#, "p", &Vec::new());
    assert_eq!(Some(AnalysisMode::NoCheck), compat.expect("settings").mode);
    let names = luaurc_alias_names(&parse_json(r#"{"aliases": {"b": 1, "a": 2}}"#).expect("json"));
    assert_eq!(vec!["a", "b"], names);
}

fn detail(text: &str) -> String {
    match parse_luaurc(text, "p", &Vec::new()) {
        Err(ResolverError::ConfigError { path, detail }) if path == "p" => detail,
        other => panic!("unexpected: {other:?}"),
    }
}

#[test]
fn luaurc_faults_are_reported() {
    assert_eq!("bad language mode \"loose\"", detail(r#"{"languageMode": "loose"}"#));
    assert_eq!("bad language mode \"noinfer\"", detail(r#"{"languageMode": "noinfer"}"#));
    assert_eq!("lintErrors must be a boolean", detail(r#"{"lintErrors": 1}"#));
    assert_eq!("typeErrors must be a boolean", detail(r#"{"typeErrors": "x"}"#));
    assert_eq!("globals must be an array", detail(r#"{"globals": {}}"#));
    assert_eq!("globals entries must be strings", detail(r#"{"globals": ["a", 1]}"#));
    assert_eq!("alias x target must be a string", detail(r#"{"aliases": {"x": 1}}"#));
    assert_eq!("EOF while parsing an object at line 1 column 1", detail("{"));
    assert!(matches!(
        parse_luaurc(r#"{"aliases": {"a/b": "x"}}"#, "p", &vec!["a/b".to_owned()]),
        Err(ResolverError::InvalidAlias { alias, source }) if alias == "a/b" && source == "p"
    ));
    assert!(matches!(parse_config_mode("nocheck", false, "p"), Ok(AnalysisMode::NoCheck)));
    assert!(matches!(parse_config_mode("nonstrict", false, "p"), Ok(AnalysisMode::Nonstrict)));
}

fn text(s: &str) -> Expr {
    Expr::String(s.to_owned())
}

fn item(key: &str, value: Expr) -> TableItem {
    TableItem { key: Some(text(key)), value }
}

fn local(name: &str) -> Expr {
    Expr::Local(name.to_owned())
}

fn name_of(expr: Expr, index: &str) -> Expr {
    Expr::IndexName { expr: Box::new(expr), index: index.to_owned() }
}

fn parsed(body: Vec<Stat>) -> ParsedFile {
    ParsedFile { fault: None, body: Some(body) }
}

#[test]
fn returned_tables_configure() {
    let luau = Expr::Table(vec![
        item("languagemode", text("nonstrict")),
        item("linterrors", Expr::Bool(true)),
        item("typeerrors", Expr::Bool(false)),
        item("globals", Expr::Table(vec![TableItem { key: None, value: text("g") }])),
        item(
            "aliases",
            Expr::Table(vec![
                TableItem { key: None, value: text("unnamed") },
                item("lib", text("./lib")),
            ]),
        ),
    ]);
    let file = parsed(vec![Stat::Return(vec![Expr::Table(vec![item("luau", luau)])])]);
    let settings = parse_config_luau(&file, "p", &Vec::new()).expect("settings");
    assert_eq!(Some(AnalysisMode::Nonstrict), settings.mode);
    assert_eq!((Some(true), Some(false)), (settings.lint_errors, settings.type_errors));
    assert_eq!(Some(vec!["g".to_owned()]), settings.globals);
    assert_eq!(1, settings.aliases.len());
    assert_eq!("lib", settings.aliases[0].name);
}

#[test]
fn the_latest_assignment_wins() {
    let luau_mode = || name_of(name_of(local("config"), "luau"), "languagemode");
    let body = vec![
        Stat::Local { vars: vec!["config".to_owned()], values: vec![Expr::Table(Vec::new())] },
        Stat::Assign { vars: vec![luau_mode()], values: vec![text("strict")] },
        Stat::Assign {
            vars: vec![Expr::Group(Box::new(Expr::IndexExpr {
                expr: Box::new(name_of(local("config"), "luau")),
                index: Box::new(text("languagemode")),
            }))],
            values: vec![text("nocheck")],
        },
        Stat::Return(vec![local("config")]),
    ];
    assert!(matches!(
        config_luau_field(&body, "languagemode"),
        Some(Expr::String(mode)) if mode == "nocheck"
    ));
    assert!(config_luau_field(&body, "globals").is_none());
    assert!(config_luau_field(&Vec::new(), "globals").is_none());
}

#[test]
fn fields_fall_back_to_the_initializer() {
    let luau = || Expr::Table(vec![item("typeerrors", Expr::Bool(true))]);
    let body = vec![
        Stat::Local {
            vars: vec!["config".to_owned()],
            values: vec![Expr::Table(vec![item("luau", luau())])],
        },
        Stat::Return(vec![local("config")]),
    ];
    assert!(matches!(config_luau_field(&body, "typeerrors"), Some(Expr::Bool(true))));
    let assigned = vec![
        Stat::Local { vars: vec!["config".to_owned()], values: vec![Expr::Other] },
        Stat::Assign { vars: vec![name_of(local("config"), "luau")], values: vec![luau()] },
        Stat::Return(vec![local("config")]),
    ];
    assert!(matches!(config_luau_field(&assigned, "typeerrors"), Some(Expr::Bool(true))));
}

#[test]
fn config_luau_faults_are_reported() {
    let fault = ParseFault { message: "bad".to_owned(), line: 0, column: 4 };
    let broken = ParsedFile { fault: Some(fault), body: None };
    assert!(matches!(
        parse_config_luau(&broken, "p", &Vec::new()),
        Err(ResolverError::ConfigError { detail, .. }) if detail == "bad (at line 1, column 5)"
    ));
    let with = |key: &str, value: Expr| {
        parsed(vec![Stat::Return(vec![Expr::Table(vec![item(
            "luau",
            Expr::Table(vec![item(key, value)]),
        )])])])
    };
    let cases = vec![
        (with("languagemode", Expr::Other), "languagemode must be a string"),
        (with("linterrors", Expr::Other), "linterrors must be a boolean"),
        (with("typeerrors", Expr::Other), "typeerrors must be a boolean"),
        (with("globals", Expr::Other), "globals must be an array of strings"),
        (
            with("globals", Expr::Table(vec![item("a", Expr::Other)])),
            "globals entries must be strings",
        ),
        (
            with("aliases", Expr::Table(vec![item("a", Expr::Other)])),
            "alias a target must be a string",
        ),
    ];
    for (file, expected) in cases {
        assert!(matches!(
            parse_config_luau(&file, "p", &Vec::new()),
            Err(ResolverError::ConfigError { detail, .. }) if detail == expected
        ));
    }
    let empty = ParsedFile { fault: None, body: None };
    assert!(parse_config_luau(&empty, "p", &Vec::new()).expect("nothing").mode.is_none());
}

fn no_files() -> DirectoryFiles {
    DirectoryFiles { luaurc: None, config_luau: None }
}

#[test]
fn configurations_are_searched_from_the_root_down() {
    assert_eq!(
        vec!["/root", "/root/a", "/root/a/b"],
        config_search_directories("/root", "a//b")
    );
    let resolver = FilesystemResolver::new("/root").with_max_read_bytes(9);
    assert_eq!(("/root", 9), (resolver.root(), resolver.max_read_bytes));
    let files = vec![
        DirectoryFiles {
            luaurc: Some(Ok(r#"{"languageMode": "strict"}"#.to_owned())),
            config_luau: None,
        },
        no_files(),
        DirectoryFiles { luaurc: None, config_luau: Some(Ok(parsed(Vec::new()))) },
    ];
    let layers = resolver
        .materialize_config_for_module("a/b/m", "a/b", &files, &Vec::new())
        .expect("layers");
    assert_eq!(
        vec![Some(AnalysisMode::Strict), None],
        layers.iter().map(|layer| layer.mode).collect::<Vec<_>>()
    );
    assert!(matches!(
        resolver.materialize_config_for_module("../m", "", &vec![no_files()], &Vec::new()),
        Err(ResolverError::ModuleEscapesRoot { .. })
    ));
}

#[test]
fn a_directory_holds_one_configuration() {
    let directory = "/root";
    assert!(load_config_from_directory(directory, &no_files(), &Vec::new())
        .expect("none")
        .is_none());
    let both = DirectoryFiles {
        luaurc: Some(Ok("{}".to_owned())),
        config_luau: Some(Ok(parsed(Vec::new()))),
    };
    assert!(matches!(
        load_config_from_directory(directory, &both, &Vec::new()),
        Err(ResolverError::ConfigAmbiguity { directory }) if directory == "/root"
    ));
    let unread = DirectoryFiles {
        luaurc: Some(Err(BoundedReadError::TooLarge { max_bytes: 2 })),
        config_luau: None,
    };
    assert!(matches!(
        load_config_from_directory(directory, &unread, &Vec::new()),
        Err(ResolverError::Io { path, detail }) if path == "/root/.luaurc"
            && detail == "exceeds filesystem read limit of 2 bytes"
    ));
}
