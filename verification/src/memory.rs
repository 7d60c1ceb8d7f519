//! The memory that the process uses.
use vstd::prelude::*;

verus! {

/// A reading of the memory that the process uses, in bytes.
#[derive(Clone, Copy, Debug, PartialEq, Eq, Structural)]
pub struct MemoryUsage {
    /// The resident memory.
    pub physical_mem: usize,
    /// The reserved address space.
    pub virtual_mem: usize,
}

/// Reads the memory of the process through `memory_stats::memory_stats`, whose two
/// figures are handed on unchanged; `None` where it gives none. Nothing is claimed of
/// the reading: it is the state of the machine at the time of the call.
#[verifier::external_body]
pub(crate) fn read_memory() -> (usage: Option<MemoryUsage>) {
    match memory_stats::memory_stats() {
        Some(usage) => Some(
            MemoryUsage { physical_mem: usage.physical_mem, virtual_mem: usage.virtual_mem },
        ),
        None => None,
    }
}

/// Whether `usage` is what a reading of the memory gave. A caller learns this of a
/// value only by making the reading.
pub closed spec fn is_reading(usage: Option<MemoryUsage>) -> bool {
    call_ensures(read_memory, (), usage)
}

/// A value counts as a reading only if `read_memory` itself gave it: no figure of it
/// can be exchanged, altered or made up on the way.
pub(crate) broadcast proof fn law_a_reading_is_what_was_read(usage: Option<MemoryUsage>)
    ensures
        #[trigger] is_reading(usage) <==> call_ensures(read_memory, (), usage),
{
}

} // verus!
