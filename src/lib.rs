//! Plans how to split a media file at a set of timestamps: reads free-form
//! timestamps, orders them, and derives one cut instruction per segment.
pub mod config;
pub mod cutter;
pub mod decimal;
pub mod timestamp;

pub use config::Config;
pub use cutter::{plan, sort_timestamps, CutInstruction, Cutter};
pub use timestamp::{ParseError, TimeStamp};
