//! The parts of a just-in-time compiler for Ruby that keep its books.
//!
//! * [`assembler`] and [`virtualmem`]: where code is written, and how inline and outlined code
//!   share code pages.
//! * [`exit_desc`] and [`exit_meta`]: what compiled code leaves for the interpreter when it takes
//!   a side exit, kept off the code region and known to the garbage collector.
//! * [`bgcompile`] and [`bg_assume`]: compiling in the background, and what a compilation that is
//!   not installed yet assumes.
//! * [`distribution`], [`bitset`] and [`fasthash`]: data structures of the compiler.
//! * [`hir`]: bytecode lifted as it is, block by block.
//! * [`recycle`], [`alloc_stats`] and [`stats_alloc`]: an allocator that recycles small blocks and
//!   counts what it hands out.
//! * [`behavior`]: what the operations do, told from outside.
//! * [`signal_profiler`]: when a sampling profiler takes a sample.
//!
//! The library follows no pointers, takes no locks and calls no system functions. Addresses are
//! words, and a function that is part of talking to the interpreter or to the operating system
//! says what to do next and is told what came of it.

pub mod alloc_stats;
pub mod assembler;
pub mod behavior;
pub mod bg_assume;
pub mod bgcompile;
pub mod bitset;
pub mod cruby;
pub mod distribution;
pub mod exit_desc;
pub mod exit_meta;
pub mod fasthash;
pub mod growth;
pub mod hir;
pub mod le;
pub mod recycle;
pub mod signal_profiler;
pub mod stats;
pub mod stats_alloc;
pub mod text;
pub mod virtualmem;
