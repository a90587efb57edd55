//! The GBK CSV loader.
//!
//! One decoder, one home: the vendor's GB18030 files are decoded here, cut
//! into fields, and built into typed columns that can be aligned by name and
//! merged.

pub mod batch;
pub mod batch_util;
pub mod cast;
pub mod cell_laws;
pub mod cells;
pub mod chunked_io;
pub mod column_builder;
pub mod csv_laws;
pub mod csv_scan;
pub mod field_laws;
pub mod file_laws;
pub mod fina_reader;
pub mod gbk;
pub mod line_laws;
pub mod merge_laws;
pub mod parse_laws;
pub mod read_laws;
pub mod run_laws;
pub mod schema;
pub mod schema_laws;
pub mod stock_reader;
pub mod table;
pub mod view_laws;
