//! The options of the app.

use vstd::prelude::*;
use vstd::string::*;

verus! {

/// The options of the app.
#[derive(Debug)]
pub struct AppOptions {
    pub mqtt_host: String,
    pub mqtt_port: u16,
    /// Empty for an anonymous broker.
    pub mqtt_username: String,
    pub mqtt_password: String,
    /// The prefix of Home Assistant discovery topics.
    pub discovery_prefix: String,
    /// Whether raw analog input registers are discovered.
    pub publish_diagnostic_ai: bool,
    pub log_level: String,
}

/// The discovery prefix where none is configured.
pub fn default_discovery_prefix() -> (prefix: String)
    ensures
        prefix@ == "homeassistant"@,
{
    "homeassistant".to_owned()
}

/// The log level where none is configured.
pub fn default_log_level() -> (level: String)
    ensures
        level@ == "info"@,
{
    "info".to_owned()
}

} // verus!
