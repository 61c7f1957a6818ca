//! The server's settings.

use vstd::prelude::*;
use vstd::string::StringExecFns;

verus! {

/// Default port of the object protocol.
pub const SYMVEA_PORT: u16 = 24096;

/// Largest object the server takes by default (1 GiB).
pub const MAX_FRAME_SIZE: usize = 1073741824;

/// What the server is configured with.
#[derive(Debug)]
pub struct ServerConfig {
    pub data_directory: String,
    pub listen_address: String,
    pub readonly_mounts: Vec<String>,
    pub auto_create_directories: bool,
    pub max_file_size: usize,
}

impl Default for ServerConfig {
    fn default() -> (c: Self)
        ensures
            c.data_directory@ == "./data"@,
            c.listen_address@ == "0.0.0.0:24096"@,
            c.readonly_mounts@.len() == 0,
            c.auto_create_directories,
            c.max_file_size == 1073741824,
    {
        Self {
            data_directory: String::from_str("./data"),
            listen_address: String::from_str("0.0.0.0:24096"),
            readonly_mounts: Vec::new(),
            auto_create_directories: true,
            max_file_size: MAX_FRAME_SIZE,
        }
    }
}

} // verus!
