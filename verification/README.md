# server_tools

Terminal views of a server's network interfaces, Docker containers and system resources,
sharing one TOML configuration.

- `src/` is the library, verified with Verus: configuration defaults and their TOML form,
  parsing configuration texts (through the `toml` crate) and their key-level merge
  (`toml_value`), byte-count formatting
  (`byte_size`), the listener table of `/proc/net/tcp` (`proc_net`), Docker container rows
  (`containers`) and what each view does with a key press (`controls`).
- `app/` is the program around it: reading files and `/proc`, serde decoding of the merged
  configuration,
  the Docker client, `sysinfo` and drawing with `ratatui`.

Configuration files merge in this order, later keys overriding earlier ones: built-in
defaults, `/etc/server_tools/config.toml`, the user's `server_tools/config.toml` under the
XDG config directory, and `--config` / `SERVER_TOOLS_CONFIG`. The library states this order
(`config::config_file_order`) and the merge; `app/` finds where the files are on the machine
and reads the ones that exist.

The program runs as `st-network`, `st-docker` or `st-system` when invoked under one of those
names, and otherwise takes a `network`, `docker` or `system` subcommand.
