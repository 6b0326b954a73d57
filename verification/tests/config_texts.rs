use server_tools::config::{config_to_toml, ServerToolsConfig};
use server_tools::toml_value::{merge_config_texts, TomlValue};

fn show(v: &TomlValue) -> String {
    format!("{v:?}")
}

fn defaults() -> TomlValue {
    config_to_toml(&ServerToolsConfig::default()).unwrap()
}

#[test]
fn files_override_keys_in_order() {
    let texts = vec![
        "[docker]\nsocket_path = \"/run/docker.sock\"\n".to_string(),
        "[network]\nrefresh_ms = 250\nhide_interfaces = [\"lo\"]\n".to_string(),
        "[docker]\nrefresh_ms = 9000\n".to_string(),
    ];
    let merged = merge_config_texts(defaults(), &texts).unwrap();
    let mut expected = ServerToolsConfig::default();
    expected.docker.socket_path = "/run/docker.sock".to_string();
    expected.docker.refresh_ms = 9000;
    expected.network.refresh_ms = 250;
    expected.network.hide_interfaces = vec!["lo".to_string()];
    assert_eq!(show(&merged), show(&config_to_toml(&expected).unwrap()));
}

#[test]
fn no_files_keep_the_defaults() {
    let merged = merge_config_texts(defaults(), &Vec::new()).unwrap();
    assert_eq!(show(&merged), show(&defaults()));
}

#[test]
fn parsed_tables_come_out_in_key_order() {
    let texts = vec!["zeta = 1\nalpha = \"a\"\n[mid]\nb = true\na = 2.5\n".to_string()];
    let merged = merge_config_texts(TomlValue::Table(vec![]), &texts).unwrap();
    let expected = TomlValue::Table(vec![
        ("alpha".to_string(), TomlValue::Str("a".to_string())),
        ("mid".to_string(), TomlValue::Table(vec![
            ("a".to_string(), TomlValue::Float(2.5f64.to_bits())),
            ("b".to_string(), TomlValue::Boolean(true)),
        ])),
        ("zeta".to_string(), TomlValue::Integer(1)),
    ]);
    assert_eq!(show(&merged), show(&expected));
}

#[test]
fn first_invalid_file_is_named() {
    let texts = vec![
        "[docker]\nrefresh_ms = 1\n".to_string(),
        "this is = = not toml".to_string(),
        "[[[".to_string(),
    ];
    assert!(matches!(merge_config_texts(defaults(), &texts), Err(1)));
    let texts = vec!["[x".to_string()];
    assert!(matches!(merge_config_texts(defaults(), &texts), Err(0)));
}

#[test]
fn reserved_date_time_document_reads_as_a_date_time() {
    let texts = vec!["\"$__toml_private_datetime\" = \"1979-05-27T07:32:00Z\"\n".to_string()];
    let merged = merge_config_texts(defaults(), &texts).unwrap();
    assert_eq!(show(&merged), show(&TomlValue::Datetime("1979-05-27T07:32:00Z".to_string())));
}
