use std::path::PathBuf;
use server_tools::config::{config_to_toml, ConfigError, ConfigPathsCli, DockerConfig, GlobalConfig,
    NetworkConfig, ServerToolsConfig, SystemConfig};
use server_tools::toml_value::TomlValue;

fn same(a: &TomlValue, b: &TomlValue) -> bool {
    format!("{a:?}") == format!("{b:?}")
}

fn key(k: &str, v: TomlValue) -> (String, TomlValue) {
    (k.to_string(), v)
}

#[test]
fn built_in_defaults() {
    let c = ServerToolsConfig::default();
    assert_eq!(c.global.log_filter, "warn");
    assert_eq!(c.network.refresh_ms, 1000);
    assert!(c.network.hide_interfaces.is_empty());
    assert!(c.network.show_listeners);
    assert_eq!(c.docker.refresh_ms, 2000);
    assert_eq!(c.docker.socket_path, "/var/run/docker.sock");
    assert!(c.docker.list_all_containers);
    assert_eq!(c.system.refresh_ms, 1500);
    assert_eq!(c.system.process_limit, 18);
    assert!(c.system.show_per_cpu);
    assert_eq!(GlobalConfig::default().log_filter, "warn");
    assert_eq!(NetworkConfig::default().refresh_ms, 1000);
    assert_eq!(DockerConfig::default().refresh_ms, 2000);
    assert_eq!(SystemConfig::default().process_limit, 18);
    assert!(ConfigPathsCli::default().config.is_none());
}

#[test]
fn defaults_as_toml_table() {
    let t = config_to_toml(&ServerToolsConfig::default()).unwrap();
    let expected = TomlValue::Table(vec![
        key("docker", TomlValue::Table(vec![
            key("list_all_containers", TomlValue::Boolean(true)),
            key("refresh_ms", TomlValue::Integer(2000)),
            key("socket_path", TomlValue::Str("/var/run/docker.sock".to_string())),
        ])),
        key("global", TomlValue::Table(vec![key("log_filter", TomlValue::Str("warn".to_string()))])),
        key("network", TomlValue::Table(vec![
            key("hide_interfaces", TomlValue::Array(vec![])),
            key("refresh_ms", TomlValue::Integer(1000)),
            key("show_listeners", TomlValue::Boolean(true)),
        ])),
        key("system", TomlValue::Table(vec![
            key("process_limit", TomlValue::Integer(18)),
            key("refresh_ms", TomlValue::Integer(1500)),
            key("show_per_cpu", TomlValue::Boolean(true)),
        ])),
    ]);
    assert!(same(&t, &expected));
}

#[test]
fn hidden_interfaces_become_a_string_array() {
    let mut c = ServerToolsConfig::default();
    c.network.hide_interfaces = vec!["lo".to_string(), "docker0".to_string()];
    let t = config_to_toml(&c).unwrap();
    match t {
        TomlValue::Table(top) => match &top[2].1 {
            TomlValue::Table(net) => assert!(same(
                &net[0].1,
                &TomlValue::Array(vec![TomlValue::Str("lo".to_string()), TomlValue::Str("docker0".to_string())])
            )),
            other => panic!("network is {other:?}"),
        },
        other => panic!("top is {other:?}"),
    }
}

#[test]
fn settings_beyond_toml_integers_are_refused() {
    let mut c = ServerToolsConfig::default();
    c.network.refresh_ms = i64::MAX as u64 + 1;
    assert!(matches!(config_to_toml(&c), Err(ConfigError::IntegerOutOfRange)));
    let mut c = ServerToolsConfig::default();
    c.system.process_limit = usize::MAX;
    assert!(matches!(config_to_toml(&c), Err(ConfigError::IntegerOutOfRange)));
    let mut c = ServerToolsConfig::default();
    c.docker.refresh_ms = i64::MAX as u64;
    assert!(config_to_toml(&c).is_ok());
}

#[test]
fn config_files_in_merge_order() {
    let sys = PathBuf::from("/etc/server_tools/config.toml");
    let user = PathBuf::from("/home/u/.config/server_tools/config.toml");
    let extra = PathBuf::from("/tmp/extra.toml");
    assert_eq!(
        server_tools::config::config_file_order(Some(sys.clone()), Some(user.clone()), Some(extra.clone())),
        vec![sys.clone(), user.clone(), extra.clone()]
    );
    assert_eq!(server_tools::config::config_file_order(None, Some(user.clone()), None), vec![user]);
    assert_eq!(server_tools::config::config_file_order(Some(sys.clone()), None, Some(extra.clone())), vec![sys, extra]);
    assert!(server_tools::config::config_file_order(None, None, None).is_empty());
}
