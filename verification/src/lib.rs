//! Layout and input handling for a status bar.
//!
//! A status producer writes a stream of JSON arrays, one per line; each array
//! lists the blocks to show. [`utils`] recovers the newest complete update
//! from the bytes received so far, whatever the chunking of the reads.
//! [`bar`] fits the blocks into the width of the bar and says where each is
//! drawn and which stretch of the bar answers to a click on it.
pub mod bar;
pub mod button_manager;
pub mod color;
pub mod config;
pub mod i3bar_protocol;
pub mod series;
pub mod text;
pub mod utils;
pub mod wm_info_provider;
