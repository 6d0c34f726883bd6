//! Assembling machine code into a region of memory.

pub mod accounting;
pub mod code_block;
pub mod labels;
pub mod pages;
pub mod paging;
pub mod writing;
