//! Plain daemon identity, configuration and state records.
//!
//! These are the values a running daemon is configured and described by;
//! loading them from configuration files and serialising them for clients
//! are jobs of the surrounding program, which converts to and from these
//! types at its edge.

use vstd::prelude::*;

verus! {

/// What a daemon is: its name, the kind of instrument it drives, and the
/// optional make, model and serial of the hardware.
#[derive(Debug, Clone)]
pub struct DaemonID {
    pub name: String,
    pub kind: String,
    pub make: Option<String>,
    pub model: Option<String>,
    pub serial: Option<String>,
}

/// Log severities, in rising order of urgency.
#[derive(Debug, Clone, Copy, PartialEq, Eq, Structural)]
pub enum LogLevel {
    INFO,
    NOTICE,
    WARNING,
    ERROR,
    CRITICAL,
    ALERT,
    EMERGENCY,
}

/// A daemon's configuration.
#[derive(Debug, Clone)]
pub struct DaemonConfig {
    pub port: u16,
    pub serial: Option<String>,
    pub make: Option<String>,
    pub model: Option<String>,
    pub enable: bool,
    pub log_level: LogLevel,
    pub log_to_file: bool,
}

impl Default for DaemonConfig {
    /// The defaults a daemon starts from before any configuration file
    /// is read: enabled, informational logging to the console, port
    /// unassigned, no hardware identifiers.
    fn default() -> (d: DaemonConfig)
        ensures
            d.port == 0,
            d.serial is None,
            d.make is None,
            d.model is None,
            d.enable == true,
            d.log_level == LogLevel::INFO,
            d.log_to_file == false,
    {
        DaemonConfig {
            port: 0,
            serial: None,
            make: None,
            model: None,
            enable: true,
            log_level: LogLevel::INFO,
            log_to_file: false,
        }
    }
}

/// The part of a daemon's state every daemon carries.
#[derive(Debug, Clone, Copy, PartialEq, Eq, Structural)]
pub struct BaseDaemonState {
    pub busy: bool,
}

} // verus!
