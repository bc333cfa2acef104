//! Core of a data acquisition gateway: the device wire codec, the device
//! session's decisions, sample decoding, triggered-burst accumulation,
//! subscriber filtering, file naming rules and the control surface.

pub mod buffer;
pub mod clock;
pub mod codec;
pub mod config;
pub mod control;
pub mod device;
pub mod export;
pub mod fanout;
pub mod files;
pub mod processing;
pub mod text;
