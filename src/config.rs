//! Gateway configuration and its defaults.

use vstd::prelude::*;
use vstd::string::{StrSliceExecFns, StringExecFns};

verus! {

#[derive(Debug, Clone)]
pub struct DeviceConfig {
    /// `serial` or `socket`.
    pub connection_type: String,
    pub serial_port: Option<String>,
    pub socket_address: Option<String>,
    pub baud_rate: u32,
}

#[derive(Debug, Clone)]
pub struct WebServerConfig {
    pub host: String,
    pub port: u16,
}

#[derive(Debug, Clone)]
pub struct WebSocketConfig {
    pub host: String,
    pub port: u16,
}

#[derive(Debug, Clone)]
pub struct StorageConfig {
    /// Root of every saved file.
    pub data_dir: String,
    /// Prefix of automatically named files.
    pub default_prefix: String,
    /// Extension of automatically named files, dot included.
    pub default_ext: String,
    /// Files kept at the root before the oldest are deleted.
    pub max_files: usize,
}

#[derive(Debug, Clone)]
pub struct Config {
    pub device: DeviceConfig,
    pub web_server: WebServerConfig,
    pub websocket: WebSocketConfig,
    pub storage: StorageConfig,
}

impl Default for Config {
    fn default() -> (r: Self)
        ensures
            r.device.connection_type@ == "socket"@,
            r.device.serial_port matches Some(p) && p@ == "COM7"@,
            r.device.socket_address matches Some(a) && a@ == "127.0.0.1:9001"@,
            r.device.baud_rate == 115200,
            r.web_server.host@ == "127.0.0.1"@,
            r.web_server.port == 8080,
            r.websocket.host@ == "127.0.0.1"@,
            r.websocket.port == 8081,
            r.storage.data_dir@ == "./data"@,
            r.storage.default_prefix@ == "wave"@,
            r.storage.default_ext@ == ".bin"@,
            r.storage.max_files == 200,
    {
        Config {
            device: DeviceConfig {
                connection_type: String::from_str("socket"),
                serial_port: Some(String::from_str("COM7")),
                socket_address: Some(String::from_str("127.0.0.1:9001")),
                baud_rate: 115200,
            },
            web_server: WebServerConfig { host: String::from_str("127.0.0.1"), port: 8080 },
            websocket: WebSocketConfig { host: String::from_str("127.0.0.1"), port: 8081 },
            storage: StorageConfig {
                data_dir: String::from_str("./data"),
                default_prefix: String::from_str("wave"),
                default_ext: String::from_str(".bin"),
                max_files: 200,
            },
        }
    }
}

/// An extension with its leading dot: kept when it has one, else added.
pub open spec fn dotted(ext: Seq<char>) -> Seq<char> {
    if ext.len() > 0 && ext[0] == '.' {
        ext
    } else {
        seq!['.'] + ext
    }
}

/// The configured file extension with its leading dot.
pub fn normalize_extension(ext: &str) -> (r: String)
    ensures
        r@ == dotted(ext@),
{
    if ext.unicode_len() > 0 && ext.get_char(0) == '.' {
        String::from_str(ext)
    } else {
        let mut s = String::from_str(".");
        s.append(ext);
        proof {
            reveal_strlit(".");
        }
        s
    }
}

} // verus!
