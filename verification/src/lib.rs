//! Ehkatra: the verified core of a collaborative spreadsheet kernel.

pub mod types;
pub mod decimal;
pub mod text;
pub mod zip;
pub mod xml;
pub mod view;
pub mod sync;
pub mod stamps;
pub mod tile;
pub mod image;
pub mod style;
pub mod frame;
pub mod bus;
pub mod ir;
pub mod axis;
pub mod formula;
pub mod xlsx;
pub mod store;
pub mod converge;
