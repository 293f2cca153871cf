pub mod text;
pub mod json;
pub mod time;
pub mod board;
pub mod report;
pub mod cli;
pub mod readback;
