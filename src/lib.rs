//! Reading of SID music files and direct register playback on an emulated SID chip.
pub mod chip;
pub mod header;
pub mod schedule;
