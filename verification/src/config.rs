//! Settings of the streaming daemon and their defaults.

use vstd::prelude::*;

verus! {

/// Daemon settings: the serial device and its baud rate, the socket that
/// clients read frames from, and the log level. Paths are kept as text.
#[derive(Debug, Clone)]
pub struct Config {
    pub device: String,
    pub baud_rate: u32,
    pub socket_path: String,
    pub log_level: String,
}

/// The serial device the radar is attached to by default.
pub fn default_device() -> (r: String)
    ensures
        r@ == "/dev/ttyAMA0"@,
{
    "/dev/ttyAMA0".to_owned()
}

/// The radar's factory baud rate.
pub fn default_baud_rate() -> (r: u32)
    ensures
        r == 256000,
{
    256000
}

/// The socket clients connect to by default.
pub fn default_socket_path() -> (r: String)
    ensures
        r@ == "/run/ld2450/radar.sock"@,
{
    "/run/ld2450/radar.sock".to_owned()
}

/// The default log level.
pub fn default_log_level() -> (r: String)
    ensures
        r@ == "info"@,
{
    "info".to_owned()
}

impl Default for Config {
    fn default() -> (r: Self)
        ensures
            r.device@ == "/dev/ttyAMA0"@,
            r.baud_rate == 256000,
            r.socket_path@ == "/run/ld2450/radar.sock"@,
            r.log_level@ == "info"@,
    {
        Config {
            device: default_device(),
            baud_rate: default_baud_rate(),
            socket_path: default_socket_path(),
            log_level: default_log_level(),
        }
    }
}

} // verus!
