//! Side-exit descriptors: the interpreter state of a side exit, kept off the code region.
//!
//! A side exit is one call of the exit handler. What differs between exits is where the values of
//! the Ruby stack and the locals are at that point, and what the frame looks like to the
//! interpreter. A [`descriptor::ExitDescriptor`] says so. It is encoded to a few bytes and appended
//! to a [`table::ExitDescriptorTable`], under the return address of the exit's call. When the exit
//! is taken, the handler looks the return address up and carries out the [`plan`] that the
//! descriptor decodes to.
//!
//! Descriptors mention objects: the ISEQ of the frame, the one to recompile, and constants. Their
//! words stand in the encoded bytes at full width, so that the garbage collector can mark them and,
//! when it moves objects, write over them in place ([`gc`]).

pub mod codec;
pub mod decode;
pub mod descriptor;
pub mod encoding;
pub mod fields;
pub mod gc;
pub mod laws;
pub mod marking;
pub mod plan;
pub mod relocate;
pub mod table;
