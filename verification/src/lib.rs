//! The spreadsheet document of the BSL runtime: model, MXL and XLSX.

pub mod bytes;
pub mod drawings;
pub mod format;
pub mod groups;
pub mod keyed;
pub mod layout;
pub mod lexer;
pub mod model;
pub mod mxl_read;
pub mod mxl_write;
pub mod names;
pub mod records;
pub mod sections;
pub mod sorting;
pub mod tail;
pub mod text;
pub mod xlsx_text;
pub mod xlsx_styles;
pub mod xlsx_layout;
pub mod xlsx;
pub mod bridge;
pub mod convert;
pub mod address;
pub mod params;
pub mod props;
pub mod laws;
pub mod readback;
pub mod pictures;
pub mod sema;
