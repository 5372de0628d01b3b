use vstd::prelude::*;

pub mod api;
pub mod codec;
pub mod config;
pub mod database;
pub mod ident;
pub mod image_format;
pub mod laws;
pub mod object_store;
pub mod transcode;

verus! {

/// Server configuration, as handed to the core by the bootstrap code.
///
/// `image_ttl` is the server-wide cap on a derivative's time to live, in
/// seconds; `image_path` is the directory that backs the object store.
pub struct Config {
    pub max_image_width: Option<u32>,
    pub max_image_height: Option<u32>,
    pub max_image_size: Option<usize>,
    pub max_memory_usage: Option<u32>,
    pub backend_port: u16,
    pub database_url: String,
    pub image_path: String,
    pub image_ttl: Option<i64>,
}

impl Config {
    /// The listen port must stay below 25565.
    pub open spec fn port_ok_spec(port: u16) -> bool {
        port < 25565
    }

    pub fn port_ok(port: u16) -> (r: bool)
        ensures
            r == Self::port_ok_spec(port),
    {
        port < 25565
    }
}

} // verus!
