//! A metadata-driven ETL engine: a left model, a right model and the map
//! between them are data, and this library interprets them row by row.

pub mod date;
pub mod float;
pub mod io;
pub mod mapping;
pub mod model;
pub mod pipeline;
pub mod record;
pub mod value;
pub mod text;
pub mod transform;
