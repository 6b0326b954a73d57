//! Server tools: the configuration (defaults, and TOML files merged key by key, a later file
//! overriding an earlier one), byte-count formatting, the `/proc/net/tcp` listener table, the
//! Docker container rows, and the key handling of the terminal views.
pub mod byte_size;
pub mod config;
pub mod containers;
pub mod controls;
pub mod proc_net;
pub mod text;
pub mod toml_value;
