use vstd::prelude::*;

verus! {

/// Bluetooth characteristic that streams the sensor packets.
pub const SENSOR_CHARACTERISTICS_UUID: &'static str = "0a3d3fd8-2f1c-46fd-bf46-eaef2fda91e5";

/// Bluetooth characteristic that holds the number of channels.
pub const CHANNEL_COUNT_CHARACTERISTICS_UUID: &'static str = "0a3d3fd8-2f1c-46fd-bf46-eaef2fda91e6";

/// Length of the header in front of the samples in the device's packets.
pub const PROTOCOL_HEADER_LEN: usize = 8;

} // verus!
