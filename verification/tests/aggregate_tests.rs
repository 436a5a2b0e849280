use declconf::aggregate::Aggregator;
use declconf::algebra::{Operation, SetDirective};
use declconf::condition::Condition;
use declconf::config::{AutoCommand, Config, Keys};
use declconf::lua::LuaConfig;
use declconf::value::SetValue;

fn s(x: &str) -> String {
    x.to_string()
}

fn empty_keys(leader: &str) -> Keys {
    Keys {
        modes: vec![s("n")],
        recursive: true,
        command: false,
        lua: false,
        silent: false,
        unique: false,
        expression: false,
        leader: s(leader),
        mappings: vec![],
    }
}

fn fragment_with_set(key: &str, conditions: Vec<Condition>) -> Config {
    Config {
        conditions,
        keys: vec![],
        set: vec![SetDirective(s(key), Operation::Assign, SetValue::Bool(true))],
        auto_commands: vec![],
        lua: LuaConfig::new(),
    }
}

#[test]
fn condition_events_fire_on_filetype_changes() {
    let c = Condition::new(vec![s("rust")]);
    assert_eq!(c.events(), vec![s("FileType")]);
    let d = Condition::empty();
    assert_eq!(d.events(), Vec::<String>::new());
}

#[test]
fn default_condition_is_distinct_from_named_ones() {
    let d = Condition::default();
    assert!(d.is_default());
    let c = Condition::new(vec![s("rust")]);
    assert!(!c.is_default());
    assert!(d != c);
    assert_eq!(Condition::new(vec![s("rust")]), c);
}

#[test]
fn condition_decomposes_into_atoms() {
    let c = Condition::new(vec![s("rust"), s("toml")]);
    let atoms = c.atoms();
    assert_eq!(atoms.len(), 2);
    assert_eq!(atoms[0], Condition::new(vec![s("rust")]));
    assert_eq!(atoms[1], Condition::new(vec![s("toml")]));
    assert!(Condition::empty().atoms().is_empty());
}

#[test]
fn unconditional_fragment_goes_to_default_bucket() {
    let mut agg = Aggregator::new();
    fragment_with_set("wrap", vec![]).merge_into_hashmap(&mut agg);
    let default = agg.drain_default().expect("default bucket exists");
    assert_eq!(default.set.len(), 1);
    assert_eq!(default.set[0].0, s("wrap"));
    assert!(agg.into_buckets().is_empty());
}

#[test]
fn conditional_fragment_replicates_into_each_atom_bucket() {
    let mut agg = Aggregator::new();
    let cond = Condition::new(vec![s("rust"), s("toml")]);
    fragment_with_set("path", vec![cond]).merge_into_hashmap(&mut agg);
    assert!(agg.drain_default().is_none());
    let buckets = agg.into_buckets();
    assert_eq!(buckets.len(), 2);
    assert_eq!(buckets[0].0, Condition::new(vec![s("rust")]));
    assert_eq!(buckets[1].0, Condition::new(vec![s("toml")]));
    for (_, cfg) in &buckets {
        assert_eq!(cfg.set.len(), 1);
        assert_eq!(cfg.set[0].0, s("path"));
        assert_eq!(cfg.set[0].1, Operation::Assign);
    }
}

#[test]
fn same_bucket_merges_preserve_arrival_order() {
    let mut agg = Aggregator::new();
    let mut f1 = fragment_with_set("one", vec![]);
    f1.keys = vec![empty_keys("a")];
    let mut f2 = fragment_with_set("two", vec![]);
    f2.keys = vec![empty_keys("b")];
    f1.merge_into_hashmap(&mut agg);
    f2.merge_into_hashmap(&mut agg);
    let merged = agg.drain_default().expect("default bucket exists");
    assert_eq!(merged.set.len(), 2);
    assert_eq!(merged.set[0].0, s("one"));
    assert_eq!(merged.set[1].0, s("two"));
    assert_eq!(merged.keys.len(), 2);
    assert_eq!(merged.keys[0].leader, s("a"));
    assert_eq!(merged.keys[1].leader, s("b"));
}

#[test]
fn fragments_under_different_conditions_open_separate_buckets() {
    let mut agg = Aggregator::new();
    fragment_with_set("a", vec![Condition::new(vec![s("rust")])]).merge_into_hashmap(&mut agg);
    fragment_with_set("b", vec![Condition::new(vec![s("toml")])]).merge_into_hashmap(&mut agg);
    fragment_with_set("c", vec![Condition::new(vec![s("rust")])]).merge_into_hashmap(&mut agg);
    let buckets = agg.into_buckets();
    assert_eq!(buckets.len(), 2);
    assert_eq!(buckets[0].0, Condition::new(vec![s("rust")]));
    assert_eq!(buckets[0].1.set.len(), 2);
    assert_eq!(buckets[0].1.set[0].0, s("a"));
    assert_eq!(buckets[0].1.set[1].0, s("c"));
    assert_eq!(buckets[1].1.set.len(), 1);
    assert_eq!(buckets[1].1.set[0].0, s("b"));
}

#[test]
fn merge_concatenates_every_field_and_keeps_conditions() {
    let mut f1 = fragment_with_set("one", vec![Condition::new(vec![s("rust")])]);
    f1.auto_commands = vec![AutoCommand {
        triggers: vec![s("BufEnter")],
        cmd: vec![s("echo 1")],
        lua: vec![],
        pattern: None,
    }];
    let f2 = fragment_with_set("two", vec![Condition::new(vec![s("toml")])]);
    f1.merge(f2);
    assert_eq!(f1.conditions.len(), 1);
    assert_eq!(f1.conditions[0], Condition::new(vec![s("rust")]));
    assert_eq!(f1.set.len(), 2);
    assert_eq!(f1.auto_commands.len(), 1);
}
