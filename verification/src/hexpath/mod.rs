//! Grids of byte-valued cells and the cheapest and dearest ways across them.

pub mod cheapest;
pub mod dearest;
pub mod grid;
pub mod paths;
pub mod reader;
pub mod report;
