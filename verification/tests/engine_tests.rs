use declconf::algebra::{step, Operation, SetDirective, StepOutcome};
use declconf::condition::Condition;
use declconf::config::Config;
use declconf::engine::plan_startup;
use declconf::hashes::Hashes;
use declconf::lua::LuaConfig;
use declconf::scope::{read_route, write_route, OptionScope, ReadRoute, WriteRoute};
use declconf::value::SetValue;

fn s(x: &str) -> String {
    x.to_string()
}

fn doc1_wrap() -> Config {
    // doc1: set option wrap=true, unconditionally
    Config {
        conditions: vec![],
        keys: vec![],
        set: vec![SetDirective(s("wrap"), Operation::Assign, SetValue::Bool(true))],
        auto_commands: vec![],
        lua: LuaConfig::new(),
    }
}

fn doc2_path_rust() -> Config {
    // doc2: append "foo" to list option path, for rust buffers only
    Config {
        conditions: vec![Condition::new(vec![s("rust")])],
        keys: vec![],
        set: vec![SetDirective(
            s("path"),
            Operation::Append,
            SetValue::List(vec![s("foo")]),
        )],
        auto_commands: vec![],
        lua: LuaConfig::new(),
    }
}

#[test]
fn two_documents_split_into_default_and_deferred_buckets() {
    let hashes = Hashes::new();
    let plan = plan_startup(vec![doc1_wrap(), doc2_path_rust()], vec![], &hashes);
    assert!(plan.unknown.is_empty());
    assert!(plan.notification.is_none());

    let default = plan.default_bucket.expect("default bucket exists");
    assert_eq!(default.set.len(), 1);
    assert_eq!(default.set[0].0, s("wrap"));
    assert_eq!(default.set[0].1, Operation::Assign);
    assert_eq!(default.set[0].2, SetValue::Bool(true));

    assert_eq!(plan.deferred.len(), 1);
    let (cond, bucket) = &plan.deferred[0];
    assert_eq!(*cond, Condition::new(vec![s("rust")]));
    assert_eq!(cond.events(), vec![s("FileType")]);
    assert_eq!(bucket.set.len(), 1);
    assert_eq!(bucket.set[0].0, s("path"));

    // firing the rust bucket in a rust buffer appends "foo" to the
    // buffer's effective path list
    let current = SetValue::List(vec![s("."), s("/usr/include")]);
    let outcome = step(&current, &bucket.set[0].2, bucket.set[0].1);
    assert_eq!(
        outcome,
        StepOutcome::Next(SetValue::List(vec![s("."), s("/usr/include"), s("foo")]))
    );
}

#[test]
fn trusted_local_sources_are_aggregated_and_unknown_withheld() {
    let mut hashes = Hashes::new();
    hashes.add_hash(s("/proj/.nvim/config/known.toml"), "known body");
    let locals = vec![
        (s("/proj/.nvim/config/known.toml"), s("known body"), doc1_wrap()),
        (s("/proj/.nvim/config/new.toml"), s("new body"), doc2_path_rust()),
    ];
    let plan = plan_startup(vec![], locals, &hashes);
    assert_eq!(plan.unknown, vec![s("/proj/.nvim/config/new.toml")]);
    // only the trusted document reached aggregation
    assert!(plan.default_bucket.is_some());
    assert!(plan.deferred.is_empty());
    let msg = plan.notification.expect("unknown sources are surfaced");
    assert_eq!(
        msg,
        s("Found new local config: \n  /proj/.nvim/config/new.toml\nRun :ConfigAllow to activate")
    );
}

#[test]
fn notification_pluralizes_for_several_sources() {
    let hashes = Hashes::new();
    let locals = vec![
        (s("/a.toml"), s("a"), Config::new()),
        (s("/b.yaml"), s("b"), Config::new()),
    ];
    let plan = plan_startup(vec![], locals, &hashes);
    let msg = plan.notification.expect("unknown sources are surfaced");
    assert_eq!(
        msg,
        s("Found new local configs: \n  /a.toml\n  /b.yaml\nRun :ConfigAllow to activate")
    );
    assert!(plan.default_bucket.is_none());
}

#[test]
fn write_routing_shields_globals_from_buffer_contexts() {
    assert_eq!(write_route(&OptionScope::Global, false), Ok(WriteRoute::Global));
    assert_eq!(write_route(&OptionScope::Global, true), Ok(WriteRoute::LocalOverride));
    assert_eq!(write_route(&OptionScope::Buffer, true), Ok(WriteRoute::Buffer));
    assert_eq!(write_route(&OptionScope::Buffer, false), Ok(WriteRoute::GlobalThenBuffer));
    assert_eq!(write_route(&OptionScope::Window, true), Ok(WriteRoute::Window));
    assert_eq!(
        write_route(&OptionScope::Other(s("tab")), false),
        Err(s("tab"))
    );
}

#[test]
fn read_routing_follows_the_same_resolution() {
    assert_eq!(read_route(&OptionScope::Buffer, false), Ok(ReadRoute::Buffer));
    assert_eq!(read_route(&OptionScope::Buffer, true), Ok(ReadRoute::Buffer));
    assert_eq!(read_route(&OptionScope::Global, true), Ok(ReadRoute::LocalOverride));
    assert_eq!(read_route(&OptionScope::Global, false), Ok(ReadRoute::Global));
    assert_eq!(read_route(&OptionScope::Window, false), Ok(ReadRoute::Window));
    assert_eq!(read_route(&OptionScope::Other(s("tab")), true), Err(s("tab")));
}
