//! Module identities, require traces, snapshots and path policy.
use std::path::Path;

use ruau::resolver::filesystem::{module_candidates, select_candidate, FilesystemResolver};
use ruau::resolver::in_memory::InMemoryResolver;
use ruau::resolver::paths::{
    file_name_of, is_inside, parent_path, push_path, strip_root, trim_path, PathText,
};
use ruau::resolver::require_spec::{
    require_specifiers, required_specifiers, required_specifiers_with_spans, RawRequire,
    RawRequireTrace,
};
use ruau::resolver::builder::{SnapshotBuilder, SnapshotStep};
use ruau::resolver::snapshot::ResolverSnapshot;
use ruau::resolver::{ModuleId, ModuleResolveError, ModuleSource};

fn row(specifier: &str, line: u32, col: u32) -> RawRequire {
    RawRequire {
        specifier: specifier.as_bytes().to_vec(),
        line,
        col,
        end_line: line,
        end_col: col + specifier.len() as u32 + 2,
    }
}

fn trace(rows: Vec<RawRequire>) -> RawRequireTrace {
    RawRequireTrace { error: Vec::new(), specifiers: rows }
}

fn ignores_comments_and_strings() {
    let source = r#"
-- require('commented')
--[[ require('block_comment') ]]
--[=[ require('equals_block_comment') ]=]
local text = "require('text')"
local escaped = 'require("also_text")'
local long = [[ require('long_text') ]]
local equals_long = [=[ require('equals_long_text') ]=]
return require('dep')
"#;
    let requires =
        require_specifiers(&ModuleId::new("main"), source, &trace(vec![row("dep", 8, 15)]))
            .expect("requires");
    assert_eq!(vec!["dep"], requires.into_iter().map(|r| r.specifier).collect::<Vec<_>>());
}

fn accepts_whitespace_before_literal() {
    let requires = require_specifiers(
        &ModuleId::new("main"),
        r#"return require ( "dep" )"#,
        &trace(vec![row("dep", 0, 17)]),
    )
    .expect("requires");
    assert_eq!(vec!["dep"], requires.into_iter().map(|r| r.specifier).collect::<Vec<_>>());
}

fn returns_public_string_list() {
    let requires = required_specifiers(
        &ModuleId::new("main"),
        "return require('dep')",
        &trace(vec![row("dep", 0, 15)]),
    )
    .expect("requires");
    assert_eq!(requires, vec!["dep"]);
}

fn ignores_dynamic_require_calls() {
    let requires = required_specifiers(
        &ModuleId::new("main"),
        r#"
local name = "dep"
local dynamic = require(name)
local literal = require("literal")
return dynamic, literal
"#,
        &trace(vec![row("literal", 3, 24)]),
    )
    .expect("requires");
    assert_eq!(requires, vec!["literal"]);
}

fn with_spans_keeps_locations() {
    let requires = required_specifiers_with_spans(
        &ModuleId::new("main"),
        "return require('dep')",
        &trace(vec![row("dep", 0, 15)]),
    )
    .expect("requires");
    assert_eq!(requires.len(), 1);
    assert_eq!(requires[0].specifier, "dep");
    assert_eq!(requires[0].span.line, 0);
}

#[test]
fn resolver_require_specifiers_ignores_comments_and_strings() {
    ignores_comments_and_strings();
}

#[test]
fn mod_require_specifiers_ignores_comments_and_strings() {
    ignores_comments_and_strings();
}

#[test]
fn resolver_require_specifiers_accepts_whitespace_before_literal() {
    accepts_whitespace_before_literal();
}

#[test]
fn mod_require_specifiers_accepts_whitespace_before_literal() {
    accepts_whitespace_before_literal();
}

#[test]
fn resolver_required_specifiers_returns_public_string_list() {
    returns_public_string_list();
}

#[test]
fn mod_required_specifiers_returns_public_string_list() {
    returns_public_string_list();
}

#[test]
fn resolver_required_specifiers_ignores_dynamic_require_calls() {
    ignores_dynamic_require_calls();
}

#[test]
fn mod_required_specifiers_ignores_dynamic_require_calls() {
    ignores_dynamic_require_calls();
}

#[test]
fn resolver_required_specifiers_with_spans_keeps_locations() {
    with_spans_keeps_locations();
}

#[test]
fn mod_required_specifiers_with_spans_keeps_locations() {
    with_spans_keeps_locations();
}

#[test]
fn a_refused_source_has_no_requires() {
    let refused = RawRequireTrace { error: b"expected `)`".to_vec(), specifiers: Vec::new() };
    let error = required_specifiers(&ModuleId::new("main"), "return require(", &refused)
        .expect_err("parse error");
    assert_eq!("failed to parse main: expected `)`", error.message());
}

/// Resolves a whole graph from a resolver and the traces of its modules.
fn snapshot(
    resolve: impl Fn(Option<&ModuleId>, &str) -> Result<ModuleSource, ModuleResolveError>,
    traces: impl Fn(&str) -> RawRequireTrace,
    root: &str,
) -> Result<ResolverSnapshot, ModuleResolveError> {
    let mut builder = SnapshotBuilder::new(resolve(None, root)?)?;
    loop {
        match builder.step() {
            SnapshotStep::Trace(module) => {
                let trace = traces(module.id().as_str());
                builder.traced(&trace)?;
            }
            SnapshotStep::Resolve { requester, specifier } => {
                let dependency = resolve(Some(requester), specifier)?;
                builder.add_dependency(dependency)?;
            }
            SnapshotStep::Done => return Ok(builder.finish()),
        }
    }
}

#[test]
fn a_cyclic_graph_is_walked_to_its_end() {
    let resolver = InMemoryResolver::new()
        .with_module("main", "return { require('a'), require('b'), require('a') }")
        .with_module("a", "return require('b')")
        .with_module("b", "return require('main')")
        .with_module("unused", "return require('a')");
    let snapshot = snapshot(
        |requester, specifier| resolver.resolve(requester, specifier),
        |id| {
            trace(match id {
                "main" => vec![row("a", 0, 17), row("b", 0, 31), row("a", 0, 45)],
                "a" => vec![row("b", 0, 15)],
                "b" => vec![row("main", 0, 15)],
                _ => panic!("{id} is not reached"),
            })
        },
        "main",
    )
    .expect("snapshot");
    let ids: Vec<&str> = snapshot.modules().iter().map(|module| module.id().as_str()).collect();
    assert_eq!(vec!["a", "b", "main"], ids);
    let edges: Vec<(&str, &str, &str)> = snapshot
        .require_edges()
        .iter()
        .map(|edge| (edge.requester.as_str(), edge.specifier, edge.dependency.as_str()))
        .collect();
    assert_eq!(
        vec![("a", "b", "b"), ("b", "main", "main"), ("main", "a", "a"), ("main", "b", "b")],
        edges
    );
}

#[test]
fn a_walk_says_what_it_needs_next() {
    let root = ModuleSource::new(ModuleId::new("main"), "return require('dep')".to_owned());
    let mut builder = SnapshotBuilder::new(root).expect("executable");
    assert!(matches!(builder.step(), SnapshotStep::Trace(m) if m.source().contains("dep")));
    let refused = RawRequireTrace { error: b"expected `)`".to_vec(), specifiers: Vec::new() };
    assert!(builder.traced(&refused).is_err());
    assert!(matches!(builder.step(), SnapshotStep::Trace(m) if m.id().as_str() == "main"));
    builder.traced(&trace(vec![row("dep", 0, 15)])).expect("traced");
    assert!(matches!(
        builder.step(),
        SnapshotStep::Resolve { requester, specifier: "dep" } if requester.as_str() == "main"
    ));
    let interface = ModuleSource::interface(ModuleId::new("dep"), String::new());
    assert!(builder.add_dependency(interface).is_err());
    let dep = ModuleSource::new(ModuleId::new("dep"), "return 1".to_owned());
    builder.add_dependency(dep).expect("executable");
    assert!(matches!(builder.step(), SnapshotStep::Trace(m) if m.id().as_str() == "dep"));
    builder.traced(&trace(Vec::new())).expect("traced");
    assert!(matches!(builder.step(), SnapshotStep::Done));
    assert_eq!(2, builder.finish().modules().len());
}

fn discovers_only_real_requires() {
    let resolver = InMemoryResolver::new()
        .with_module(
            "main",
            r#"
-- require('missing_comment')
local text = "require('missing_string')"
return require ( 'dep' )
"#,
        )
        .with_module("dep", "return { value = 7 }");

    let snapshot = snapshot(
        |requester, specifier| resolver.resolve(requester, specifier),
        |id| trace(if id == "main" { vec![row("dep", 3, 17)] } else { Vec::new() }),
        "main",
    )
    .expect("snapshot");

    assert_eq!(2, snapshot.modules().len());
    assert!(snapshot.dependency(&ModuleId::new("main"), "dep").is_some());
    let edges = snapshot.require_edges();
    assert_eq!(edges.len(), 1);
    assert_eq!(edges[0].requester.as_str(), "main");
    assert_eq!(edges[0].specifier, "dep");
    assert_eq!(edges[0].dependency.as_str(), "dep");
}

#[test]
fn resolver_resolver_snapshot_discovers_only_real_requires() {
    discovers_only_real_requires();
}

#[test]
fn mod_resolver_snapshot_discovers_only_real_requires() {
    discovers_only_real_requires();
}

fn interface_resolver(specifier: &str) -> Result<ModuleSource, ModuleResolveError> {
    match specifier {
        "main" => Ok(ModuleSource::new(
            ModuleId::new("main"),
            "return require('iface')".to_owned(),
        )),
        "iface" => Ok(ModuleSource::interface(
            ModuleId::new("iface"),
            "export type Module = { value: number }".to_owned(),
        )),
        other => Err(ModuleResolveError::NotFound(other.to_owned())),
    }
}

fn rejects_interfaces(root: &str) {
    let error = snapshot(
        |_, specifier| interface_resolver(specifier),
        |id| trace(if id == "main" { vec![row("iface", 0, 15)] } else { Vec::new() }),
        root,
    )
    .expect_err("interfaces are not runtime-loadable");
    assert!(matches!(&error, ModuleResolveError::NotExecutable(id) if id == "iface"));
    assert!(error.message().contains("ModuleInterfaceSet"));
}

#[test]
fn resolver_resolver_snapshot_rejects_interface_dependencies() {
    rejects_interfaces("main");
}

#[test]
fn mod_resolver_snapshot_rejects_interface_dependencies() {
    rejects_interfaces("main");
}

#[test]
fn resolver_resolver_snapshot_rejects_interface_roots() {
    rejects_interfaces("iface");
}

#[test]
fn mod_resolver_snapshot_rejects_interface_roots() {
    rejects_interfaces("iface");
}

#[test]
fn a_snapshot_resolves_only_what_it_recorded() {
    let resolver = InMemoryResolver::new()
        .with_module("main", "return require('dep')")
        .with_module("dep", "return 1")
        .with_module("other", "return 2");
    let snapshot = snapshot(
        |requester, specifier| resolver.resolve(requester, specifier),
        |id| trace(if id == "main" { vec![row("dep", 0, 15)] } else { Vec::new() }),
        "main",
    )
    .expect("snapshot");
    let main = ModuleId::new("main");
    assert_eq!("return 1", snapshot.resolve(Some(&main), "dep").expect("dep").source());
    assert!(matches!(
        snapshot.resolve(Some(&main), "other"),
        Err(ModuleResolveError::NotFound(_))
    ));
    assert_eq!("main", snapshot.root().as_str());
    assert_eq!(
        "return require('dep')",
        snapshot.root_source().expect("root source").source()
    );
}

/// Files and directories of a disk, with the targets of links.
struct Disk {
    files: Vec<(&'static str, &'static str)>,
    directories: Vec<&'static str>,
    links: Vec<(&'static str, &'static str)>,
}

impl Disk {
    fn text(&self, path: &str) -> Option<&'static str> {
        self.files.iter().find(|file| file.0 == path).map(|file| file.1)
    }

    fn canonical(&self, path: &str) -> Result<String, String> {
        if let Some(link) = self.links.iter().find(|link| link.0 == path) {
            return Ok(link.1.to_owned());
        }
        if self.text(path).is_some() || self.directories.contains(&path) {
            Ok(path.to_owned())
        } else {
            Err("No such file or directory".to_owned())
        }
    }
}

/// Resolves a specifier against a disk, and returns the path and its text.
fn resolve_on(
    disk: &Disk,
    resolver: &FilesystemResolver,
    root: &str,
    requester: Option<&str>,
    specifier: &str,
) -> Result<(String, &'static str), ModuleResolveError> {
    let resolved = resolver.root.resolve(disk.canonical(root))?;
    let requester = requester.map(ModuleId::from_path);
    let logical = resolved.logical_path(requester.as_ref(), specifier)?;
    let candidates = module_candidates(&logical, &resolver.extensions);
    let found = candidates
        .iter()
        .map(|candidate| {
            let path = PathText::parse(&candidate.path).normalize().text();
            let is_file = disk.text(&path).is_some()
                || disk.links.iter().any(|link| link.0 == path);
            let inside = candidate.directory.as_ref().is_none_or(|directory| {
                let directory = PathText::parse(directory).normalize().text();
                disk.directories.iter().any(|known| *known == directory)
            });
            is_file && inside
        })
        .collect::<Vec<_>>();
    let selected = select_candidate(&candidates, &found, specifier)?;
    let path = resolved.canonicalize_child(disk.canonical(&selected), specifier)?;
    let text = disk.text(&path).expect("canonical file");
    Ok((path, text))
}

fn plain_disk(files: Vec<(&'static str, &'static str)>) -> Disk {
    Disk { files, directories: vec!["/root"], links: Vec::new() }
}

fn uses_luau_extension_by_default() {
    let disk = plain_disk(vec![("/root/main.luau", "return 1")]);
    let resolver = FilesystemResolver::new("/root");
    let (path, source) = resolve_on(&disk, &resolver, "/root", None, "main").expect("resolve");
    assert_eq!("return 1", source);
    assert!(path.ends_with("main.luau"));
}

fn accepts_explicit_file_extension() {
    let disk = plain_disk(vec![("/root/main.luau", "return 1")]);
    let resolver = FilesystemResolver::new("/root");
    let (path, source) =
        resolve_on(&disk, &resolver, "/root", None, "main.luau").expect("resolve");
    assert_eq!("return 1", source);
    assert!(path.ends_with("main.luau"));
}

fn package_disk() -> Disk {
    Disk {
        files: vec![("/root/package/init.luau", "return 'package'")],
        directories: vec!["/root", "/root/package"],
        links: Vec::new(),
    }
}

fn accepts_explicit_init_file_extension() {
    let resolver = FilesystemResolver::new("/root");
    let (path, source) =
        resolve_on(&package_disk(), &resolver, "/root", None, "package/init.luau")
            .expect("resolve");
    assert_eq!("return 'package'", source);
    assert!(path.ends_with("init.luau"));
}

fn does_not_load_lua_by_default() {
    let disk = plain_disk(vec![("/root/main.lua", "return 1")]);
    let resolver = FilesystemResolver::new("/root");
    let error = resolve_on(&disk, &resolver, "/root", None, "main")
        .expect_err("default resolver should ignore .lua");
    assert!(matches!(error, ModuleResolveError::NotFound(_)));
}

fn rejects_explicit_disallowed_extension() {
    let disk = plain_disk(vec![("/root/main.lua", "return 1")]);
    let resolver = FilesystemResolver::new("/root");
    let error = resolve_on(&disk, &resolver, "/root", None, "main.lua")
        .expect_err("default resolver should reject explicit .lua files");
    assert!(matches!(error, ModuleResolveError::NotFound(_)));
}

fn extension_override_uses_ordered_precedence() {
    let disk = plain_disk(vec![
        ("/root/main.luau", "return 'luau'"),
        ("/root/main.lua", "return 'lua'"),
    ]);
    let resolver = FilesystemResolver::new("/root")
        .with_extensions(vec!["lua".to_owned(), "luau".to_owned()]);
    let (path, source) = resolve_on(&disk, &resolver, "/root", None, "main").expect("resolve");
    assert_eq!("return 'lua'", source);
    assert!(path.ends_with("main.lua"));
}

fn resolves_init_luau_directory_modules() {
    let resolver = FilesystemResolver::new("/root");
    let (path, source) =
        resolve_on(&package_disk(), &resolver, "/root", None, "package").expect("resolve");
    assert_eq!("return 'package'", source);
    assert!(path.ends_with("init.luau"));
}

fn resolves_self_relative_to_requester() {
    let disk = Disk {
        files: vec![
            ("/root/src/main.luau", "return require('@self/dep')"),
            ("/root/src/dep.luau", "return 'dep'"),
        ],
        directories: vec!["/root", "/root/src"],
        links: Vec::new(),
    };
    let resolver = FilesystemResolver::new("/root");
    let (path, source) =
        resolve_on(&disk, &resolver, "/root", Some("/root/src/main.luau"), "@self/dep")
            .expect("resolve");
    assert_eq!("return 'dep'", source);
    assert!(path.ends_with("dep.luau"));
}

fn rejects_self_without_requester() {
    let disk = plain_disk(Vec::new());
    let resolver = FilesystemResolver::new("/root");
    let error = resolve_on(&disk, &resolver, "/root", None, "@self/dep")
        .expect_err("@self requires a requester");
    assert!(matches!(error, ModuleResolveError::NotFound(name) if name == "@self/dep"));
}

fn does_not_treat_self_prefix_as_alias() {
    let disk = plain_disk(vec![("/root/@selfish.luau", "return 'plain module'")]);
    let resolver = FilesystemResolver::new("/root");
    let (_, source) = resolve_on(&disk, &resolver, "/root", None, "@selfish").expect("resolve");
    assert_eq!("return 'plain module'", source);
}

#[test]
fn resolver_filesystem_resolver_uses_luau_extension_by_default() {
    uses_luau_extension_by_default();
}

#[test]
fn mod_filesystem_resolver_uses_luau_extension_by_default() {
    uses_luau_extension_by_default();
}

#[test]
fn resolver_filesystem_resolver_accepts_explicit_file_extension() {
    accepts_explicit_file_extension();
}

#[test]
fn mod_filesystem_resolver_accepts_explicit_file_extension() {
    accepts_explicit_file_extension();
}

#[test]
fn resolver_filesystem_resolver_accepts_explicit_init_file_extension() {
    accepts_explicit_init_file_extension();
}

#[test]
fn mod_filesystem_resolver_accepts_explicit_init_file_extension() {
    accepts_explicit_init_file_extension();
}

#[test]
fn resolver_filesystem_resolver_does_not_load_lua_by_default() {
    does_not_load_lua_by_default();
}

#[test]
fn mod_filesystem_resolver_does_not_load_lua_by_default() {
    does_not_load_lua_by_default();
}

#[test]
fn resolver_filesystem_resolver_rejects_explicit_disallowed_extension() {
    rejects_explicit_disallowed_extension();
}

#[test]
fn mod_filesystem_resolver_rejects_explicit_disallowed_extension() {
    rejects_explicit_disallowed_extension();
}

#[test]
fn resolver_filesystem_resolver_extension_override_uses_ordered_precedence() {
    extension_override_uses_ordered_precedence();
}

#[test]
fn mod_filesystem_resolver_extension_override_uses_ordered_precedence() {
    extension_override_uses_ordered_precedence();
}

#[test]
fn resolver_filesystem_resolver_resolves_init_luau_directory_modules() {
    resolves_init_luau_directory_modules();
}

#[test]
fn mod_filesystem_resolver_resolves_init_luau_directory_modules() {
    resolves_init_luau_directory_modules();
}

#[test]
fn resolver_filesystem_resolver_resolves_self_relative_to_requester() {
    resolves_self_relative_to_requester();
}

#[test]
fn mod_filesystem_resolver_resolves_self_relative_to_requester() {
    resolves_self_relative_to_requester();
}

#[test]
fn resolver_filesystem_resolver_rejects_self_without_requester() {
    rejects_self_without_requester();
}

#[test]
fn mod_filesystem_resolver_rejects_self_without_requester() {
    rejects_self_without_requester();
}

#[test]
fn resolver_filesystem_resolver_does_not_treat_self_prefix_as_alias() {
    does_not_treat_self_prefix_as_alias();
}

#[test]
fn mod_filesystem_resolver_does_not_treat_self_prefix_as_alias() {
    does_not_treat_self_prefix_as_alias();
}

#[test]
fn filesystem_resolver_try_new_rejects_missing_root() {
    let missing = "/tmp/missing";
    let canonical = Err("No such file or directory (os error 2)".to_owned());
    let error = FilesystemResolver::try_new(missing, canonical).expect_err("missing root");
    assert!(matches!(error, ModuleResolveError::Read { module, .. } if module == missing));
}

#[test]
fn filesystem_resolver_try_new_resolves_from_checked_root() {
    let disk = plain_disk(vec![("/root/main.luau", "return 'checked'")]);
    let resolver =
        FilesystemResolver::try_new("/root", disk.canonical("/root")).expect("checked root");
    let (path, source) = resolve_on(&disk, &resolver, "/root", None, "main").expect("resolve");
    assert_eq!("return 'checked'", source);
    assert!(path.ends_with("main.luau"));
}

#[test]
fn filesystem_resolver_accepts_absolute_path_under_root() {
    let disk = plain_disk(vec![("/root/main.luau", "return 1")]);
    let resolver = FilesystemResolver::new("/root");
    let (path, source) =
        resolve_on(&disk, &resolver, "/root", None, "/root/main.luau").expect("resolve");
    assert_eq!("return 1", source);
    assert!(path.ends_with("main.luau"));
}

fn outside_root(error: ModuleResolveError, specifier: &str) -> String {
    let message = error.message();
    assert!(matches!(error, ModuleResolveError::OutsideRoot { specifier: s } if s == specifier));
    message
}

#[test]
fn filesystem_resolver_rejects_absolute_path_outside_root() {
    let disk = plain_disk(vec![("/outside/outside.luau", "return 'outside'")]);
    let resolver = FilesystemResolver::new("/root");
    let specifier = "/outside/outside.luau";
    let error = resolve_on(&disk, &resolver, "/root", None, specifier)
        .expect_err("absolute path outside root");
    outside_root(error, specifier);
}

#[test]
fn filesystem_resolver_rejects_parent_traversal_escape() {
    let disk = Disk {
        files: vec![("/base/outside.luau", "return 'outside'")],
        directories: vec!["/base/root"],
        links: Vec::new(),
    };
    let resolver = FilesystemResolver::new("/base/root");
    let error = resolve_on(&disk, &resolver, "/base/root", None, "../outside")
        .expect_err("parent traversal outside root");
    let message = outside_root(error, "../outside");
    assert!(!message.contains("/base"));
}

#[test]
fn filesystem_resolver_rejects_self_parent_traversal_escape() {
    let disk = Disk {
        files: vec![
            ("/base/root/src/main.luau", "return require('@self/../../outside')"),
            ("/base/outside.luau", "return 'outside'"),
        ],
        directories: vec!["/base/root", "/base/root/src"],
        links: Vec::new(),
    };
    let resolver = FilesystemResolver::new("/base/root");
    let requester = Some("/base/root/src/main.luau");
    let error = resolve_on(&disk, &resolver, "/base/root", requester, "@self/../../outside")
        .expect_err("@self traversal outside root");
    let message = outside_root(error, "@self/../../outside");
    assert!(!message.contains("/base"));
}

#[test]
fn filesystem_resolver_rejects_symlink_escape() {
    let disk = Disk {
        files: vec![("/outside/outside.luau", "return 'outside'")],
        directories: vec!["/root"],
        links: vec![("/root/link.luau", "/outside/outside.luau")],
    };
    let resolver = FilesystemResolver::new("/root");
    let error = resolve_on(&disk, &resolver, "/root", None, "link")
        .expect_err("symlink outside root");
    outside_root(error, "link");
}

#[test]
fn paths_are_normalized_lexically() {
    assert_eq!("a/c", PathText::parse("a/./b/../c").normalize().text());
    assert_eq!("/x", PathText::parse("/a/../x").normalize().text());
    let climbing = PathText::parse("../../a/..").normalize();
    assert_eq!(climbing.text(), climbing.normalize().text());
    assert_eq!("/", PathText::parse("/../..").normalize().text());
}

#[test]
fn paths_are_read_as_they_are_written() {
    assert_eq!("/r/a", push_path("/r", "a"));
    assert_eq!("/r/a", push_path("/r/", "a"));
    assert_eq!("/r/", push_path("/r", ""));
    assert_eq!("/a", push_path("/r", "/a"));
    assert_eq!("a", push_path("", "a"));
    let parent = |path| parent_path(path);
    assert_eq!(Some("x//y".to_owned()), parent("x//y/./z/"));
    assert_eq!(Some("/".to_owned()), parent("//a"));
    assert_eq!(Some(".".to_owned()), parent("./a"));
    assert_eq!(Some(String::new()), parent("a"));
    assert_eq!(Some(String::new()), parent("./"));
    assert_eq!((None, None), (parent("/"), parent("")));
    assert_eq!(Some("b".to_owned()), file_name_of("a/b/./"));
    assert_eq!((None, None), (file_name_of("a/.."), file_name_of("/.")));
    assert_eq!("./a/./b", trim_path("./a/./b//."));
    assert!(is_inside("/r/a", "/r//") && is_inside("./a", ".") && is_inside("/a", ""));
    assert!(!is_inside("./a", "a") && !is_inside("/rest", "/r") && !is_inside("a", "/a"));
    assert_eq!(Some("b//c".to_owned()), strip_root("/r/./b//c/", "/r"));
    assert_eq!(None, strip_root("/q/b", "/r"));
}

#[test]
fn paths_read_like_those_of_the_standard_library() {
    let pieces = ["", ".", "..", "a", "b.luau", ".c"];
    let mut paths: Vec<String> = pieces.iter().map(|piece| (*piece).to_owned()).collect();
    for _ in 0..2 {
        let shorter = paths.clone();
        for path in shorter {
            for piece in pieces {
                paths.push(format!("{path}/{piece}"));
            }
        }
        paths.sort();
        paths.dedup();
    }
    let owned = |path: &Path| path.to_str().expect("text").to_owned();
    for text in &paths {
        let path = Path::new(text);
        assert_eq!(path.parent().map(owned), parent_path(text), "{text}");
        let name = path.file_name().map(|name| name.to_str().expect("text").to_owned());
        assert_eq!(name, file_name_of(text), "{text}");
        assert_eq!(owned(path.components().as_path()), trim_path(text), "{text}");
        for other in paths.iter().step_by(7) {
            assert_eq!(owned(&path.join(other)), push_path(text, other), "{text} {other}");
            assert_eq!(path.starts_with(other), is_inside(text, other), "{text} {other}");
            let rest = path.strip_prefix(other).ok().map(owned);
            assert_eq!(rest, strip_root(text, other), "{text} {other}");
        }
    }
}

#[test]
fn candidates_keep_the_text_of_their_path() {
    let resolver = FilesystemResolver::new("/root");
    let paths = |path: &str| {
        module_candidates(path, &resolver.extensions)
            .into_iter()
            .map(|candidate| candidate.path)
            .collect::<Vec<_>>()
    };
    assert_eq!(vec!["/root/dep.luau", "/root/dep/init.luau"], paths("/root/dep/"));
    assert_eq!(
        vec!["/root/m.luau/", "/root/m.luau.luau", "/root/m.luau/init.luau"],
        paths("/root/m.luau/")
    );
    assert_eq!(vec!["/root/init/init.luau"], paths("/root/init"));
    assert_eq!(vec!["../init.luau"], paths(".."));
}

#[test]
fn in_memory_modules_resolve_relative_to_their_requester() {
    let resolver = InMemoryResolver::new().with_module("main", "return 1");
    assert_eq!("return 1", resolver.resolve(None, "main").expect("main").source());
    let error = resolver.resolve(None, "absent").expect_err("absent");
    assert_eq!("module not found: absent", error.message());
}
