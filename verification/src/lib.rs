//! Core logic of a habit tracker that keeps its data in a spreadsheet.
//!
//! The library models one sheet as a grid of string cells and verifies the
//! logic that reads and updates it: locating month blocks, parsing habit and
//! date headers, computing A1-style cell addresses, planning batched cell
//! writes, and tallying completion reports. All network, terminal and clock
//! work lives outside the library and exchanges plain values with it.

pub mod config_table;
pub mod data_updater;
pub mod init;
pub mod interaction;
pub mod random;
pub mod sheet_parser;
pub mod template_builder;
pub mod text;
