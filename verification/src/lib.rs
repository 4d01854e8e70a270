//! Temperature-drift calibration tables: reading measurement tables, turning
//! absolute offsets into offsets relative to a zero reference, and assembling
//! the compact model table on the fixed temperature grid.

pub mod chart;
pub mod error;
pub mod frame;
pub mod median;
pub mod model;
pub mod order;
pub mod polynomial;
pub mod report;
pub mod row;
pub mod text;
