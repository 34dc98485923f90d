//! Signal processing core for a wearable biosignal sensor: a packet decoder,
//! a timed calibration flow, a windowed training dataset with a text dump
//! that loads back, and a debounced action dispatcher.

pub mod calibration;
pub mod dump;
pub mod fakeinput;
pub mod firmware;
pub mod flow;
pub mod prelude;
pub mod protocol;
pub mod text;
