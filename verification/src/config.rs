//! Shared configuration for the server tools: the settings of each tool, their built-in
//! defaults, and the defaults written as a TOML table (the base that configuration files
//! are merged onto, lowest precedence first).
use vstd::prelude::*;
use crate::text::string_of;
use crate::toml_value::{TomlValue, TomlSpec, items_view, entries_view, well_formed,
    keys_sorted, lemma_entries_view, lemma_items_view};

verus! {

/// `std::path::PathBuf`, carried opaque: nothing here looks inside a path.
#[verifier::external_type_specification]
#[verifier::external_body]
pub struct ExPathBuf(std::path::PathBuf);

/// Command-line selection of an extra configuration file, applied after the standard ones.
#[derive(Debug, Clone, Default)]
pub struct ConfigPathsCli {
    pub config: Option<std::path::PathBuf>,
}

/// Settings of all tools, one section per tool.
#[derive(Debug, Clone)]
pub struct ServerToolsConfig {
    pub global: GlobalConfig,
    pub network: NetworkConfig,
    pub docker: DockerConfig,
    pub system: SystemConfig,
}

/// Settings shared by every tool.
#[derive(Debug, Clone)]
pub struct GlobalConfig {
    /// Default log level (`error`, `warn`, `info`, `debug`, `trace`) when `RUST_LOG` is unset.
    pub log_filter: String,
}

/// Settings of the network view.
#[derive(Debug, Clone)]
pub struct NetworkConfig {
    /// Poll interval for the UI loop (milliseconds).
    pub refresh_ms: u64,
    /// Interface names to hide (exact match).
    pub hide_interfaces: Vec<String>,
    /// Show the TCP listeners panel.
    pub show_listeners: bool,
}

/// Settings of the Docker view.
#[derive(Debug, Clone)]
pub struct DockerConfig {
    pub refresh_ms: u64,
    /// Unix socket path of the Docker daemon.
    pub socket_path: String,
    /// Include stopped containers in the list.
    pub list_all_containers: bool,
}

/// Settings of the system view.
#[derive(Debug, Clone)]
pub struct SystemConfig {
    pub refresh_ms: u64,
    /// Max rows in the process table.
    pub process_limit: usize,
    /// Show one gauge per CPU core.
    pub show_per_cpu: bool,
}

impl Default for GlobalConfig {
    fn default() -> (r: Self)
        ensures
            r.log_filter@ == "warn"@,
    {
        GlobalConfig { log_filter: string_of("warn") }
    }
}

impl Default for NetworkConfig {
    fn default() -> (r: Self)
        ensures
            r.refresh_ms == 1000,
            r.hide_interfaces@.len() == 0,
            r.show_listeners,
    {
        NetworkConfig { refresh_ms: 1000, hide_interfaces: Vec::new(), show_listeners: true }
    }
}

impl Default for DockerConfig {
    fn default() -> (r: Self)
        ensures
            r.refresh_ms == 2000,
            r.socket_path@ == "/var/run/docker.sock"@,
            r.list_all_containers,
    {
        DockerConfig {
            refresh_ms: 2000,
            socket_path: string_of("/var/run/docker.sock"),
            list_all_containers: true,
        }
    }
}

impl Default for SystemConfig {
    fn default() -> (r: Self)
        ensures
            r.refresh_ms == 1500,
            r.process_limit == 18,
            r.show_per_cpu,
    {
        SystemConfig { refresh_ms: 1500, process_limit: 18, show_per_cpu: true }
    }
}

impl Default for ServerToolsConfig {
    fn default() -> (r: Self)
        ensures
            r.global.log_filter@ == "warn"@,
            r.network.refresh_ms == 1000,
            r.network.hide_interfaces@.len() == 0,
            r.network.show_listeners,
            r.docker.refresh_ms == 2000,
            r.docker.socket_path@ == "/var/run/docker.sock"@,
            r.docker.list_all_containers,
            r.system.refresh_ms == 1500,
            r.system.process_limit == 18,
            r.system.show_per_cpu,
    {
        ServerToolsConfig {
            global: GlobalConfig::default(),
            network: NetworkConfig::default(),
            docker: DockerConfig::default(),
            system: SystemConfig::default(),
        }
    }
}

/// Why a configuration cannot be written as TOML.
#[derive(Debug, PartialEq, Eq, Structural, Clone, Copy)]
pub enum ConfigError {
    /// An unsigned setting is larger than the largest TOML integer (`i64::MAX`).
    IntegerOutOfRange,
}

/// Every unsigned setting fits in a TOML integer.
pub open spec fn fits_toml(cfg: ServerToolsConfig) -> bool {
    &&& cfg.network.refresh_ms <= i64::MAX
    &&& cfg.docker.refresh_ms <= i64::MAX
    &&& cfg.system.refresh_ms <= i64::MAX
    &&& cfg.system.process_limit <= i64::MAX
}

/// A list of strings as a TOML array.
pub open spec fn strings_spec(v: Seq<String>) -> TomlSpec {
    TomlSpec::Array(Seq::new(v.len(), |i: int| TomlSpec::Str(v[i]@)))
}

/// The configuration as a TOML table: one table per section, keys in sorted order.
pub open spec fn config_spec(cfg: ServerToolsConfig) -> TomlSpec {
    TomlSpec::Table(
        seq![
            ("docker"@, TomlSpec::Table(seq![
                ("list_all_containers"@, TomlSpec::Boolean(cfg.docker.list_all_containers)),
                ("refresh_ms"@, TomlSpec::Integer(cfg.docker.refresh_ms as i64)),
                ("socket_path"@, TomlSpec::Str(cfg.docker.socket_path@)),
            ])),
            ("global"@, TomlSpec::Table(seq![
                ("log_filter"@, TomlSpec::Str(cfg.global.log_filter@)),
            ])),
            ("network"@, TomlSpec::Table(seq![
                ("hide_interfaces"@, strings_spec(cfg.network.hide_interfaces@)),
                ("refresh_ms"@, TomlSpec::Integer(cfg.network.refresh_ms as i64)),
                ("show_listeners"@, TomlSpec::Boolean(cfg.network.show_listeners)),
            ])),
            ("system"@, TomlSpec::Table(seq![
                ("process_limit"@, TomlSpec::Integer(cfg.system.process_limit as i64)),
                ("refresh_ms"@, TomlSpec::Integer(cfg.system.refresh_ms as i64)),
                ("show_per_cpu"@, TomlSpec::Boolean(cfg.system.show_per_cpu)),
            ])),
        ],
    )
}

/// A list of strings as a TOML array value.
fn strings_value(v: &Vec<String>) -> (r: TomlValue)
    ensures
        r@ == strings_spec(v@),
{
    let mut items: Vec<TomlValue> = Vec::new();
    let mut i: usize = 0;
    while i < v.len()
        invariant
            i <= v.len(),
            items@.len() == i,
            forall|j: int| 0 <= j < i ==> #[trigger] items@[j] == TomlValue::Str(v@[j]),
        decreases v.len() - i,
    {
        items.push(TomlValue::Str(v[i].clone()));
        i = i + 1;
    }
    proof {
        lemma_items_view(items@);
        assert(items_view(items@) =~= Seq::new(v@.len(), |j: int| TomlSpec::Str(v@[j]@)));
    }
    TomlValue::Array(items)
}

/// A table built from three entries given in key order.
fn table3(k1: &str, v1: TomlValue, k2: &str, v2: TomlValue, k3: &str, v3: TomlValue) -> (r: TomlValue)
    ensures
        r@ == TomlSpec::Table(seq![(k1@, v1@), (k2@, v2@), (k3@, v3@)]),
{
    let mut t: Vec<(String, TomlValue)> = Vec::new();
    t.push((string_of(k1), v1));
    t.push((string_of(k2), v2));
    t.push((string_of(k3), v3));
    proof {
        lemma_entries_view(t@);
        assert(entries_view(t@) =~= seq![(k1@, v1@), (k2@, v2@), (k3@, v3@)]);
    }
    TomlValue::Table(t)
}

/// Writes the configuration as a TOML table, as serializing it to TOML text and reading that
/// text back gives; fails when an unsigned setting does not fit in a TOML integer.
pub fn config_to_toml(cfg: &ServerToolsConfig) -> (r: Result<TomlValue, ConfigError>)
    ensures
        r is Ok <==> fits_toml(*cfg),
        r matches Ok(v) ==> v@ == config_spec(*cfg) && well_formed(v@),
        r matches Err(e) ==> e == ConfigError::IntegerOutOfRange,
{
    if cfg.network.refresh_ms > i64::MAX as u64 || cfg.docker.refresh_ms > i64::MAX as u64
        || cfg.system.refresh_ms > i64::MAX as u64 || cfg.system.process_limit as u64 > i64::MAX as u64 {
        return Err(ConfigError::IntegerOutOfRange);
    }
    let docker = table3(
        "list_all_containers",
        TomlValue::Boolean(cfg.docker.list_all_containers),
        "refresh_ms",
        TomlValue::Integer(cfg.docker.refresh_ms as i64),
        "socket_path",
        TomlValue::Str(cfg.docker.socket_path.clone()),
    );
    let mut global_entries: Vec<(String, TomlValue)> = Vec::new();
    global_entries.push((string_of("log_filter"), TomlValue::Str(cfg.global.log_filter.clone())));
    proof {
        lemma_entries_view(global_entries@);
    }
    let global = TomlValue::Table(global_entries);
    let network = table3(
        "hide_interfaces",
        strings_value(&cfg.network.hide_interfaces),
        "refresh_ms",
        TomlValue::Integer(cfg.network.refresh_ms as i64),
        "show_listeners",
        TomlValue::Boolean(cfg.network.show_listeners),
    );
    let system = table3(
        "process_limit",
        TomlValue::Integer(cfg.system.process_limit as i64),
        "refresh_ms",
        TomlValue::Integer(cfg.system.refresh_ms as i64),
        "show_per_cpu",
        TomlValue::Boolean(cfg.system.show_per_cpu),
    );
    let mut top: Vec<(String, TomlValue)> = Vec::new();
    top.push((string_of("docker"), docker));
    top.push((string_of("global"), global));
    top.push((string_of("network"), network));
    top.push((string_of("system"), system));
    let r = TomlValue::Table(top);
    proof {
        lemma_entries_view(top@);
        assert(entries_view(global_entries@) =~= seq![("log_filter"@, TomlSpec::Str(cfg.global.log_filter@))]);
        assert(entries_view(top@) =~= config_spec(*cfg)->Table_0);
        reveal_strlit("docker");
        reveal_strlit("global");
        reveal_strlit("network");
        reveal_strlit("system");
        reveal_strlit("list_all_containers");
        reveal_strlit("refresh_ms");
        reveal_strlit("socket_path");
        reveal_strlit("log_filter");
        reveal_strlit("hide_interfaces");
        reveal_strlit("show_listeners");
        reveal_strlit("process_limit");
        reveal_strlit("show_per_cpu");
        let spec = config_spec(*cfg);
        let x = spec->Table_0;
        assert(keys_sorted(x));
        assert(keys_sorted(x[0].1->Table_0));
        assert(keys_sorted(x[1].1->Table_0));
        assert(keys_sorted(x[2].1->Table_0));
        assert(keys_sorted(x[3].1->Table_0));
        let hide = x[2].1->Table_0[0].1;
        let items = hide->Array_0;
        assert forall|i: int| 0 <= i < items.len() implies well_formed(#[trigger] items[i]) by {
            assert(items[i] == TomlSpec::Str(cfg.network.hide_interfaces@[i]@));
        }
        assert(well_formed(hide));
        let t0 = x[0].1->Table_0;
        assert forall|i: int| 0 <= i < t0.len() implies well_formed(#[trigger] t0[i].1) by {
            assert(i == 0 || i == 1 || i == 2);
        }
        assert(well_formed(x[0].1));
        let t1 = x[1].1->Table_0;
        assert forall|i: int| 0 <= i < t1.len() implies well_formed(#[trigger] t1[i].1) by {
            assert(i == 0);
        }
        assert(well_formed(x[1].1));
        let t2 = x[2].1->Table_0;
        assert forall|i: int| 0 <= i < t2.len() implies well_formed(#[trigger] t2[i].1) by {
            assert(i == 0 || i == 1 || i == 2);
        }
        assert(well_formed(x[2].1));
        let t3 = x[3].1->Table_0;
        assert forall|i: int| 0 <= i < t3.len() implies well_formed(#[trigger] t3[i].1) by {
            assert(i == 0 || i == 1 || i == 2);
        }
        assert(well_formed(x[3].1));
        assert(well_formed(spec));
    }
    Ok(r)
}

/// The one-element list of a present path, or the empty list.
pub open spec fn present(p: Option<std::path::PathBuf>) -> Seq<std::path::PathBuf> {
    match p {
        Some(x) => seq![x],
        None => Seq::empty(),
    }
}

/// The configuration files in the order they are merged, lowest precedence first: the
/// system-wide file (`/etc/server_tools/config.toml` on Unix), the user's file under the XDG
/// config directory, then the file named by `--config` / `SERVER_TOOLS_CONFIG`; each only
/// where it is given. The built-in defaults come before all of them.
pub fn config_file_order(
    system_file: Option<std::path::PathBuf>,
    user_file: Option<std::path::PathBuf>,
    override_file: Option<std::path::PathBuf>,
) -> (r: Vec<std::path::PathBuf>)
    ensures
        r@ == present(system_file) + present(user_file) + present(override_file),
{
    let ghost (s0, u0, o0) = (system_file, user_file, override_file);
    let mut r: Vec<std::path::PathBuf> = Vec::new();
    if let Some(p) = system_file {
        r.push(p);
    }
    if let Some(p) = user_file {
        r.push(p);
    }
    if let Some(p) = override_file {
        r.push(p);
    }
    proof {
        assert(r@ =~= present(s0) + present(u0) + present(o0));
    }
    r
}

} // verus!
