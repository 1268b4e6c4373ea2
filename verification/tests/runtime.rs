//! Memory, heap dumps, requires and debug records.
use ruau::debug::{DebugNames, DebugSource};
use ruau::error::Error;
use ruau::resolver::{ModuleId, ModuleResolveError, ModuleSource};
use ruau::runtime::heap_dump::HeapDump;
use ruau::runtime::luau::{collectgarbage, loadstring_name, GcAction, MemoryCategories};
use ruau::runtime::memory::{Allocation, MemoryState};
use ruau::runtime::require::{
    begin_require, finish_require, module_name, no_resolver_error, ModuleValue, RequireStep,
    RuntimeModuleCache,
};
use ruau::sorted::SortedMap;

#[test]
fn memory_stays_below_its_limit() {
    let mut state = MemoryState::default();
    assert_eq!(0, state.set_memory_limit(100));
    assert_eq!(Allocation::Allocate, state.request(None, 60));
    assert_eq!(60, state.used_memory());
    assert_eq!(Allocation::Refuse, state.request(None, 41));
    assert!(state.limit_reached());
    assert_eq!(60, state.used_memory());
    assert_eq!(Allocation::Reallocate, state.request(Some(60), 100));
    assert!(!state.limit_reached());
    assert_eq!(Allocation::Free, state.request(Some(100), 0));
    assert_eq!(0, state.used_memory());
    assert_eq!(100, state.memory_limit());
}

#[test]
fn relaxed_limits_do_not_bind() {
    let mut state = MemoryState::default();
    state.set_memory_limit(10);
    state.relax_limit(true);
    assert_eq!(Allocation::Allocate, state.request(None, 50));
    state.relax_limit(false);
    assert_eq!(Allocation::Refuse, state.request(None, 1));
    let mut unlimited = MemoryState::default();
    assert_eq!(Allocation::Refuse, unlimited.request(None, usize::MAX));
}

const DUMP: &str = r#"{
  "objects": {
    "a": {"type": "string", "cat": 0, "size": 10, "data": "Point"},
    "b": {"type": "userdata", "cat": 1, "size": 7, "metatable": "t"},
    "c": {"type": "userdata", "cat": 1, "size": 5},
    "k": {"type": "string", "cat": 0, "size": 3, "data": "__type"},
    "t": {"type": "table", "cat": 0, "size": 20, "pairs": ["k", "a"]}
  },
  "stats": {
    "size": 45,
    "categories": {
      "0": {"name": "main", "size": 33},
      "1": {"name": "data", "size": 12}
    }
  }
}"#;

fn sizes(map: &SortedMap<(usize, u64)>) -> Vec<(&str, usize, u64)> {
    map.entries.iter().map(|entry| (entry.0.as_str(), entry.1 .0, entry.1 .1)).collect()
}

#[test]
fn heap_dumps_are_counted() {
    let dump = HeapDump::new(DUMP.as_bytes()).expect("dump");
    assert_eq!(DUMP, dump.to_json());
    assert_eq!(45, dump.size());
    assert_eq!(
        vec![("string", 2, 13), ("table", 1, 20), ("userdata", 2, 12)],
        sizes(&dump.size_by_type(None))
    );
    assert_eq!(vec![("userdata", 2, 12)], sizes(&dump.size_by_type(Some("data"))));
    assert!(dump.size_by_type(Some("absent")).is_empty());
    assert_eq!(
        vec![("Point", 1, 7), ("unknown", 1, 5)],
        sizes(&dump.size_by_userdata(None))
    );
    let by_category = dump.size_by_category();
    assert_eq!((Some(&12), Some(&33)), (by_category.get("data"), by_category.get("main")));
    assert!(HeapDump::new(b"{").is_none());
    assert!(HeapDump::new(&[0xff]).is_none());
}

#[test]
fn totals_that_do_not_fit_are_told() {
    let text = r#"{"objects": {
        "a": {"type": "string", "size": 18446744073709551615},
        "b": {"type": "table", "size": 18446744073709551615}
    }}"#;
    let apart = HeapDump::new(text.as_bytes()).expect("dump");
    assert_eq!(
        vec![("string", 1, u64::MAX), ("table", 1, u64::MAX)],
        sizes(&apart.try_size_by_type(None).expect("fits"))
    );
    let together = HeapDump::new(text.replace("table", "string").as_bytes()).expect("dump");
    assert!(together.try_size_by_type(None).is_none());
    assert!(together.try_size_by_userdata(None).expect("no userdata").is_empty());
}

#[test]
fn an_object_without_a_size_spoils_the_counts() {
    let text = r#"{"objects": {"a": {"type": "string", "size": 1}, "b": {"type": "string"}}}"#;
    let dump = HeapDump::new(text.as_bytes()).expect("dump");
    assert!(dump.size_by_type(None).is_empty());
}

fn module(id: &str) -> ModuleSource {
    ModuleSource::new(ModuleId::new(id), String::new())
}

#[test]
fn a_module_runs_once() {
    let mut cache = RuntimeModuleCache::new();
    let m = module("m");
    assert!(matches!(begin_require(&mut cache, Ok(&m)), Ok(RequireStep::Run)));
    assert_eq!(
        ModuleValue::Handle(7),
        finish_require(&mut cache, "m", Ok(vec![7])).expect("loaded")
    );
    assert!(matches!(
        begin_require(&mut cache, Ok(&m)),
        Ok(RequireStep::Cached(ModuleValue::Handle(7)))
    ));
}

#[test]
fn a_module_without_value_is_true() {
    let mut cache = RuntimeModuleCache::new();
    assert!(begin_require(&mut cache, Ok(&module("m"))).is_ok());
    let value = finish_require(&mut cache, "m", Ok(Vec::new())).expect("loaded");
    assert_eq!(ModuleValue::True, value);
}

#[test]
fn a_module_returns_at_most_one_value() {
    let mut cache = RuntimeModuleCache::new();
    let m = module("m");
    assert!(begin_require(&mut cache, Ok(&m)).is_ok());
    let error = finish_require(&mut cache, "m", Ok(vec![7, 8])).expect_err("two values");
    assert_eq!("runtime error: module must return a single value", error.message());
    assert!(matches!(begin_require(&mut cache, Ok(&m)), Ok(RequireStep::Run)));
}

#[test]
fn cycles_are_refused_and_failures_retried() {
    let mut cache = RuntimeModuleCache::new();
    let m = module("m");
    assert!(begin_require(&mut cache, Ok(&m)).is_ok());
    let cycle = begin_require(&mut cache, Ok(&m)).expect_err("cycle");
    assert_eq!("runtime error: cyclic module require: m", cycle.message());
    let failed = finish_require(&mut cache, "m", Err(Error::runtime("boom"))).expect_err("failed");
    assert_eq!("runtime error: boom", failed.message());
    assert!(matches!(begin_require(&mut cache, Ok(&m)), Ok(RequireStep::Run)));
}

#[test]
fn unresolved_modules_are_not_required() {
    let mut cache = RuntimeModuleCache::new();
    let absent = ModuleResolveError::NotFound("x".to_owned());
    let error = begin_require(&mut cache, Err(&absent)).expect_err("absent");
    assert_eq!("runtime error: module not found: x", error.message());
    let interface = ModuleSource::interface(ModuleId::new("i"), String::new());
    let error = begin_require(&mut cache, Ok(&interface)).expect_err("interface");
    assert_eq!(
        "runtime error: module is not executable: i; register declaration-only modules with \
         ModuleInterfaceSet",
        error.message()
    );
    assert_eq!(
        "runtime error: no module resolver installed; cannot require `m`. Use \
         Luau::set_module_resolver(...) to install one.",
        no_resolver_error("m").message()
    );
}

#[test]
fn modules_are_named_by_their_path() {
    let filed = ModuleSource::with_path(
        ModuleId::new("m"),
        String::new(),
        "/root/m.luau".to_owned(),
    );
    assert_eq!("@/root/m.luau", module_name(&filed));
    assert_eq!("=m", module_name(&module("m")));
}

#[test]
fn memory_categories_keep_their_numbers() {
    let mut categories = MemoryCategories::new();
    let first = categories.set_memory_category("first").expect("category");
    let second = categories.set_memory_category("second_2").expect("category");
    assert_ne!(first, second);
    assert_eq!(first, categories.set_memory_category("first").expect("category"));
    assert!(categories.set_memory_category("no spaces").is_err());
    for i in 0..253 {
        let _ = categories.set_memory_category(&format!("c{i}"));
    }
    assert!(categories.set_memory_category("one_too_many").is_err());
}

#[test]
fn garbage_collection_is_limited_in_a_sandbox() {
    assert_eq!(GcAction::Collect, collectgarbage(None, false).expect("default"));
    assert_eq!(GcAction::Count, collectgarbage(Some(b"count"), true).expect("count"));
    assert_eq!(GcAction::Stop, collectgarbage(Some(b"stop"), false).expect("stop"));
    assert_eq!(GcAction::Restart, collectgarbage(Some(b"restart"), false).expect("restart"));
    assert_eq!(GcAction::Step, collectgarbage(Some(b"step"), false).expect("step"));
    assert_eq!(GcAction::IsRunning, collectgarbage(Some(b"isrunning"), false).expect("running"));
    assert!(collectgarbage(Some(b"stop"), true).is_err());
    assert!(collectgarbage(Some(b"other"), false).is_err());
    assert!(collectgarbage(Some(&[0xff]), false).is_err());
}

#[test]
fn loaded_strings_are_named() {
    assert_eq!("given", loadstring_name(Some("given")));
    assert_eq!("=(loadstring)", loadstring_name(None));
}

#[test]
fn debug_records_are_filled() {
    let named = DebugNames::new(Some("f".to_owned()));
    assert_eq!((Some("f"), None), (named.name.as_deref(), named.name_what));
    let source = DebugSource::new(Some("=main".to_owned()), None, Some(3), Some("Lua"));
    assert_eq!((Some(3), None, "Lua"), (source.line_defined, source.last_line_defined, source.what));
    assert_eq!("main", DebugSource::new(None, None, None, None).what);
}
