//! Loading the vendor's GB18030 CSV files, and the point-in-time and panel
//! computations that run on what was loaded.
//!
//! `loader` turns the bytes of CSV files into typed columns, `expressions`
//! expands filings into vintages, and `scatter` writes a long column onto a
//! dense grid.

pub mod calendar;
pub mod calendar_laws;
pub mod expressions;
pub mod filing_laws;
pub mod io;
pub mod loader;
pub mod scatter;
pub mod scatter_laws;
pub mod text;
pub mod vintage_laws;
