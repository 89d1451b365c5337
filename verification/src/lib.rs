//! Segments text into speech-sized chunks and schedules their synthesis over
//! a bounded pool of workers, delivering results in input order.

pub mod delivery;
pub mod digits;
pub mod lexicon;
pub mod pool;
pub mod scheduler;
pub mod segmenter;
pub mod session;
pub mod splitter;
pub mod task;
pub mod text;
pub mod types;
