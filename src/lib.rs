//! A plain-text record log: one tagged record per line, a codec between
//! lines and records, and a renderer that lays records out as an aligned table.

pub mod text;
pub mod record;
pub mod log;
pub mod render;
