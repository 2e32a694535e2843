pub mod aggregate;
pub mod bytes;
pub mod cities;
pub mod engine;
pub mod error;
pub mod parse;
pub mod partition;
pub mod report;
pub mod state;
pub mod table;
