use server_tools::toml_value::{merge_layers, merge_toml, TomlValue};

fn t(entries: Vec<(&str, TomlValue)>) -> TomlValue {
    TomlValue::Table(entries.into_iter().map(|(k, v)| (k.to_string(), v)).collect())
}

fn same(a: &TomlValue, b: &TomlValue) -> bool {
    format!("{a:?}") == format!("{b:?}")
}

fn s(x: &str) -> TomlValue {
    TomlValue::Str(x.to_string())
}

fn defaults() -> TomlValue {
    t(vec![
        ("docker", t(vec![("refresh_ms", TomlValue::Integer(2000)), ("socket_path", s("/var/run/docker.sock"))])),
        ("network", t(vec![("refresh_ms", TomlValue::Integer(1000)), ("show_listeners", TomlValue::Boolean(true))])),
    ])
}

#[test]
fn partial_file_overrides_only_its_keys() {
    let overlay = t(vec![("docker", t(vec![("socket_path", s("/run/user/1000/docker.sock"))]))]);
    let merged = merge_toml(defaults(), overlay);
    assert!(same(
        &merged,
        &t(vec![
            ("docker", t(vec![("refresh_ms", TomlValue::Integer(2000)), ("socket_path", s("/run/user/1000/docker.sock"))])),
            ("network", t(vec![("refresh_ms", TomlValue::Integer(1000)), ("show_listeners", TomlValue::Boolean(true))])),
        ])
    ));
}

#[test]
fn new_keys_are_added_in_key_order() {
    let overlay = t(vec![("global", t(vec![("log_filter", s("debug"))])), ("zeta", TomlValue::Integer(1))]);
    let merged = merge_toml(defaults(), overlay);
    match merged {
        TomlValue::Table(top) => {
            let keys: Vec<&str> = top.iter().map(|(k, _)| k.as_str()).collect();
            assert_eq!(keys, vec!["docker", "global", "network", "zeta"]);
            assert!(same(&top[1].1, &t(vec![("log_filter", s("debug"))])));
        }
        other => panic!("not a table: {other:?}"),
    }
}

#[test]
fn non_table_overlay_replaces_whole_value() {
    let merged = merge_toml(defaults(), t(vec![("network", TomlValue::Integer(5))]));
    match merged {
        TomlValue::Table(top) => assert!(same(&top[1].1, &TomlValue::Integer(5))),
        other => panic!("not a table: {other:?}"),
    }
    assert!(same(&merge_toml(TomlValue::Integer(1), defaults()), &defaults()));
    assert!(same(&merge_toml(defaults(), TomlValue::Boolean(false)), &TomlValue::Boolean(false)));
}

#[test]
fn arrays_are_replaced_not_concatenated() {
    let base = t(vec![("hide_interfaces", TomlValue::Array(vec![s("lo")]))]);
    let over = t(vec![("hide_interfaces", TomlValue::Array(vec![s("docker0")]))]);
    assert!(same(&merge_toml(base, over), &t(vec![("hide_interfaces", TomlValue::Array(vec![s("docker0")]))])));
}

#[test]
fn empty_overlay_and_self_merge_change_nothing() {
    assert!(same(&merge_toml(defaults(), t(vec![])), &defaults()));
    assert!(same(&merge_toml(defaults(), defaults()), &defaults()));
}

#[test]
fn later_layers_win() {
    let layers = vec![
        t(vec![("network", t(vec![("refresh_ms", TomlValue::Integer(500))]))]),
        t(vec![("network", t(vec![("refresh_ms", TomlValue::Integer(250))]))]),
    ];
    let merged = merge_layers(defaults(), layers);
    assert!(same(
        &merged,
        &t(vec![
            ("docker", t(vec![("refresh_ms", TomlValue::Integer(2000)), ("socket_path", s("/var/run/docker.sock"))])),
            ("network", t(vec![("refresh_ms", TomlValue::Integer(250)), ("show_listeners", TomlValue::Boolean(true))])),
        ])
    ));
    assert!(same(&merge_layers(defaults(), vec![]), &defaults()));
}

#[test]
fn same_overlay_twice_changes_nothing() {
    let over = t(vec![("network", t(vec![("refresh_ms", TomlValue::Integer(250))])), ("x", s("y"))]);
    let once = merge_toml(defaults(), t(vec![("network", t(vec![("refresh_ms", TomlValue::Integer(250))])), ("x", s("y"))]));
    let twice = merge_toml(merge_toml(defaults(), over), t(vec![("network", t(vec![("refresh_ms", TomlValue::Integer(250))])), ("x", s("y"))]));
    assert!(same(&once, &twice));
}
