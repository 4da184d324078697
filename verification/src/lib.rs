//! The user-space half of a sampling profiler: it turns raw stack samples into
//! symbolized, aggregated records.

pub mod consumer;
pub mod dso;
pub mod elf;
pub mod error;
pub mod formater;
pub mod kallsyms;
pub mod options;
pub mod perf_record;
pub mod process;
pub mod sample;
pub mod symbol;
pub mod symbol_store;
pub mod symbolizer;
pub mod text;
pub mod translator;
pub mod utils;
