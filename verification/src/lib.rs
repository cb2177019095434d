pub mod addr;
pub mod agent;
pub mod cli;
pub mod config;
pub mod connection;
pub mod crc8;
pub mod interval;
pub mod log;
pub mod output;
pub mod path;
pub mod payload;
pub mod report;
pub mod signal;
pub mod text;
pub mod time;
pub mod wall_clock;
