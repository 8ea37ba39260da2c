//! Normalizes packed MQTT payloads of a reef-tank PLC.

use vstd::prelude::*;

pub mod availability;
pub mod clock;
pub mod command;
pub mod config;
pub mod contract;
pub mod discovery;
pub mod double;
pub mod json;
pub mod layout;
pub mod normalize;
pub mod numeral;
pub mod session;
pub mod template;
pub mod text;
pub mod timestamp;

verus! {

/// The name under which discovery records present the app.
pub const APP_NAME: &'static str = "reef-plc-normalizer";

/// The version under which discovery records present the app.
pub const APP_VERSION: &'static str = "0.1.18";

/// The id of the discovered device.
pub const DEVICE_ID: &'static str = "reef_plc";

/// The name of the discovered device.
pub const DEVICE_NAME: &'static str = "Reef PLC";

/// The retained status topic of the normalizer.
pub const AVAILABILITY_TOPIC: &'static str = "reef/plc/status";

/// The retained status topic of the PLC.
pub const PLC_AVAILABILITY_TOPIC: &'static str = "plc/aquarium/status";

/// After this many seconds without an update an entity becomes unavailable.
pub const DEFAULT_TOPIC_HEALTH_EXPIRE_AFTER_SECONDS: u64 = 60;

/// The same for the clock, which is published every five minutes.
pub const CLOCK_TOPIC_HEALTH_EXPIRE_AFTER_SECONDS: u64 = 390;

} // verus!
