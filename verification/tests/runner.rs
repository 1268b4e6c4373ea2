//! Runner settings, error summaries and JSON trees.
use ruau::json::{parse_json, Json};
use ruau::marshaled::MarshaledValue;
use ruau::runner::builder::{
    AdmissionChoice, AmbientMode, Builder, ConfigError, ExecutionFeatures, Limits, SurfaceChoice,
};
use ruau::runner::render::{
    render_error_value, request_report_error, request_report_success, result_value,
    summarize_error_text, RequestFailure, RequestReportOutcome, ResultValue,
};

#[test]
fn summaries_are_one_line() {
    assert_eq!("a b c", summarize_error_text("a\nb\tc"));
    let long = summarize_error_text(&"x".repeat(201));
    assert_eq!(format!("{}\u{2026}", "x".repeat(200)), long);
    assert_eq!("x".repeat(200), summarize_error_text(&"x".repeat(200)));
    assert_eq!("caf\u{e9} ", summarize_error_text("caf\u{e9}\u{85}"));
}

#[test]
fn error_values_are_rendered() {
    let text = |value: ResultValue| render_error_value(&value).expect("text");
    assert_eq!("nil", text(ResultValue::Nil));
    assert_eq!("true", text(ResultValue::Boolean(true)));
    assert_eq!("false", text(ResultValue::Boolean(false)));
    assert_eq!("-12", text(ResultValue::Integer(-12)));
    assert_eq!("-9223372036854775808", text(ResultValue::Integer(i64::MIN)));
    assert_eq!("a \u{fffd}", text(ResultValue::String(b"a\n\xff".to_vec())));
    assert_eq!("<buffer: 3 bytes>", text(ResultValue::Buffer(vec![1, 2, 3])));
    assert_eq!("<table>", text(ResultValue::Table(Vec::new())));
    assert_eq!("<userdata>", text(ResultValue::Opaque("userdata")));
    assert!(render_error_value(&ResultValue::Number(0)).is_none());
    assert!(render_error_value(&ResultValue::Vector([0; 3])).is_none());
}

#[test]
fn values_leave_the_machine() {
    let table = MarshaledValue::Table(vec![(
        MarshaledValue::String(b"k".to_vec()),
        MarshaledValue::LightUserdata { address: 9 },
    )]);
    let ResultValue::Table(pairs) = result_value(&table) else {
        panic!("tables stay tables");
    };
    assert!(matches!(&pairs[0].0, ResultValue::String(key) if key == b"k"));
    assert!(matches!(pairs[0].1, ResultValue::Opaque("userdata")));
    assert!(matches!(
        table.duplicate(),
        MarshaledValue::Table(pairs) if pairs.len() == 1
    ));
}

fn ready() -> Builder {
    Builder::default()
        .profile(1)
        .ambient(AmbientMode::Production)
        .limits(Limits { gas: Some(10), max_memory_bytes: Some(20) })
        .features(ExecutionFeatures { fenv: false, harness_mode: false })
        .max_source_bytes(30)
        .no_host_modules()
}

fn fault(builder: Builder) -> ConfigError {
    builder.build(Ok(()), Ok(()), 4).expect_err("refused")
}

#[test]
fn a_complete_builder_builds() {
    let settings = ready().lane_count(2).build(Ok(()), Ok(()), 4).expect("runner");
    assert_eq!((30, 2), (settings.max_source_bytes, settings.lane_count));
    assert_eq!((Some(10), Some(20)), (settings.limits.gas, settings.limits.max_memory_bytes));
    assert_eq!(4, settings.front_door_concurrency);
    assert_eq!(AdmissionChoice::FailClosed(2), settings.ingress);
    assert!(matches!(
        settings.surface,
        SurfaceChoice::Parts { profile: 1, modules: Some(list), source: None } if list.is_empty()
    ));
}

#[test]
fn given_settings_reach_the_runner() {
    let settings = ready()
        .module(11)
        .module(12)
        .module_source(13)
        .front_door_limits(14)
        .ingress_limits(15)
        .aggregate_resource_limits(16)
        .lane_admission_limits(17)
        .compile_options(18)
        .max_concurrent_type_checks(0)
        .build(Ok(()), Ok(()), 4)
        .expect("runner");
    assert!(matches!(
        settings.surface,
        SurfaceChoice::Parts { modules: Some(list), source: Some(13), .. } if list == [11, 12]
    ));
    assert_eq!((Some(14), Some(16)), (settings.front_door, settings.aggregate));
    assert_eq!(AdmissionChoice::Given(15), settings.ingress);
    assert_eq!(AdmissionChoice::Given(17), settings.admission);
    assert_eq!(Some(18), settings.compiler);
    assert_eq!((1, 1), (settings.lane_count, settings.front_door_concurrency));
}

#[test]
fn incomplete_builders_are_refused() {
    assert!(matches!(fault(Builder::default()), ConfigError::MissingProfile));
    assert!(matches!(
        fault(Builder { mode: None, ..ready() }),
        ConfigError::MissingAmbient
    ));
    assert!(matches!(
        fault(ready().ambient(AmbientMode::Other)),
        ConfigError::NonProductionAmbient
    ));
    assert!(matches!(
        fault(Builder { source_cap: None, ..ready() }),
        ConfigError::MissingSourceCap
    ));
    assert!(matches!(fault(ready().max_source_bytes(0)), ConfigError::ZeroSourceCap));
    assert!(matches!(
        fault(ready().limits(Limits { gas: None, max_memory_bytes: Some(1) })),
        ConfigError::MissingGasLimit
    ));
    assert!(matches!(
        fault(ready().limits(Limits { gas: Some(0), max_memory_bytes: Some(1) })),
        ConfigError::ZeroGasLimit
    ));
    assert!(matches!(
        fault(ready().limits(Limits { gas: Some(1), max_memory_bytes: None })),
        ConfigError::MissingMemoryLimit
    ));
    assert!(matches!(
        fault(ready().limits(Limits { gas: Some(1), max_memory_bytes: Some(0) })),
        ConfigError::ZeroMemoryLimit
    ));
    assert!(matches!(
        fault(Builder { switches: None, ..ready() }),
        ConfigError::MissingFeatures
    ));
    assert!(matches!(fault(ready().lane_count(0)), ConfigError::ZeroLaneCount));
    assert!(matches!(
        fault(ready().surface(1)),
        ConfigError::ConflictingSurfaceConfiguration
    ));
    assert!(matches!(
        fault(ready().features(ExecutionFeatures { fenv: true, harness_mode: false })),
        ConfigError::UnsupportedFeature
    ));
    assert!(matches!(
        fault(Builder { modules: None, ..ready() }),
        ConfigError::MissingHostEnvironment
    ));
}

#[test]
fn outside_refusals_are_passed_on() {
    assert!(matches!(
        ready().build(Err("fenv".to_owned()), Ok(()), 4),
        Err(ConfigError::IncompatibleFeatures(text)) if text == "fenv"
    ));
    assert!(matches!(
        ready().build(Ok(()), Err("surface".to_owned()), 4),
        Err(ConfigError::InvalidSurface(text)) if text == "surface"
    ));
}

#[test]
fn trees_are_parsed() {
    let tree = parse_json(r#"{"b": [1, -2, null, true], "a": "x", "n": 1.5}"#).expect("tree");
    assert_eq!(Some("x"), tree.get_str("a"));
    assert!(tree.get("absent").is_none());
    let items = tree.get("b").and_then(Json::as_array).expect("items");
    assert_eq!(4, items.len());
    assert!(matches!(items[0], Json::Number(Some(1), Some(1))));
    assert!(matches!(items[1], Json::Number(None, Some(-2))));
    assert!(items[2].is_null());
    assert!(matches!(items[3], Json::Bool(true)));
    assert!(matches!(tree.get("n"), Some(Json::Number(None, None))));
    let keys = tree.as_object().expect("object").iter().map(|m| m.0.as_str());
    assert_eq!(vec!["a", "b", "n"], keys.collect::<Vec<_>>());
    let sizes = parse_json(r#"{"u": 18446744073709551615, "i": -1}"#).expect("tree");
    assert_eq!(Some(u64::MAX), sizes.get_u64("u"));
    assert_eq!((None, Some(-1)), (sizes.get_i64("u"), sizes.get_i64("i")));
    assert_eq!("EOF while parsing a value at line 1 column 0", parse_json("").expect_err("empty"));
}

#[test]
fn reports_carry_category_and_stop_only_for_failures() {
    let fine = request_report_success(vec![ResultValue::Nil], 1, 2, 3);
    assert!(matches!(&fine.outcome, RequestReportOutcome::Success { values } if values.len() == 1));
    assert_eq!((None, None), (fine.failure_category, fine.stop_reason));
    let failure = RequestFailure { error: 4, category: 5, stop_reason: Some(6) };
    let failed = request_report_error(failure, 1, 2, 3);
    assert!(matches!(failed.outcome, RequestReportOutcome::Failure { error: 4 }));
    assert_eq!((Some(5), Some(6)), (failed.failure_category, failed.stop_reason));
    assert_eq!((3, 1, 2), (failed.tenant, failed.metrics, failed.metadata));
}
