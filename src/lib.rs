//! Per-station minimum, maximum, sum and count of temperature readings held in
//! one large `name;temperature\n` text buffer, computed chunk by chunk and
//! merged into one table ordered by station name.
pub mod decode;
pub mod stats;
pub mod plan;
pub mod table;
pub mod scan;
pub mod order;
pub mod global;
pub mod driver;
