//! Protocol logic for the HLK-LD2450 24 GHz mmWave radar sensor: a
//! streaming parser for the radar's data frames, a builder for its command
//! frames, a parser for its acknowledgement frames, and the small pieces of
//! configuration logic used by the daemon and the control tool.

pub mod command;
pub mod config;
pub mod ctl;
pub mod frame;
pub mod types;

pub use command::{AckData, AckFrame, AckStatus, Command, CommandFrame};
pub use frame::{FrameParser, ParseEvent};
pub use types::{RadarFrame, Target, TrackingMode, ZoneFilterType};
