//! What a code region holds and when it can grow.

use vstd::prelude::*;

use crate::virtualmem;
use crate::virtualmem::{CodePtr, VirtualMem, WriteError};

verus! {

/// A byte is written if it is in the region and its page, the one with number `p`, is mapped or
/// can be: the heap and the region up to the end of that page stay below the limit. What is read
/// back is what was written, and everything else is as it was.
pub proof fn law_written_byte(
    mem: &mut VirtualMem,
    ptr: CodePtr,
    byte: u8,
    r: Result<(), WriteError>,
    p: nat,
    before: &VirtualMem,
    after: &VirtualMem,
    pos: usize,
    was: u8,
    is: u8,
)
    requires
        virtualmem::mem_wf(mem@),
        *before == *mem,
        call_ensures(VirtualMem::write_byte, (mem, ptr, byte), r),
        *after == *final(mem),
        p * before.page_size <= ptr.0 < p * before.page_size + before.page_size,
        pos < before.bytes@.len(),
        call_ensures(VirtualMem::read_byte, (before, pos), was),
        call_ensures(VirtualMem::read_byte, (after, pos), is),
    ensures
        is == if r is Ok && pos == ptr.0 {
            byte
        } else {
            was
        },
        (r matches Err(e) && e == WriteError::OutOfBounds) <==> ptr.0 >= before.bytes@.len(),
        (r matches Err(e) && e == WriteError::FailedPageMapping) <==> {
            &&& ptr.0 < before.bytes@.len()
            &&& ptr.0 >= before.mapped_bytes
            &&& before.limit matches Some(limit)
            &&& before.heap_bytes + p * before.page_size + before.page_size >= limit
        },
        after.bytes@.len() == before.bytes@.len(),
        after.mapped_bytes == if r is Ok && ptr.0 >= before.mapped_bytes {
            p * before.page_size + before.page_size
        } else {
            before.mapped_bytes as int
        },
        after.base_addr == before.base_addr,
        after.page_size == before.page_size,
        after.limit == before.limit,
        after.heap_bytes == before.heap_bytes,
        after.writable == before.writable,
{
    vstd::arithmetic::div_mod::lemma_fundamental_div_mod_converse(
        ptr.0 as int,
        before.page_size as int,
        p as int,
        ptr.0 - p * before.page_size,
    );
    assert((p + 1) * before.page_size == p * before.page_size + before.page_size)
        by (nonlinear_arith);
}

/// Another page can be mapped if the heap and the region with that page stay below the limit, or
/// there is none.
pub proof fn law_another_page(mem: &VirtualMem, r: bool)
    requires
        virtualmem::mem_wf(mem@),
        call_ensures(VirtualMem::can_allocate, (mem,), r),
    ensures
        r <==> (mem.limit matches Some(limit) ==> mem.heap_bytes + mem.mapped_bytes + mem.page_size
            < limit),
{
}

/// A reserved region has the size asked for, holds zeros, and none of it is mapped.
pub proof fn law_reserved_region(
    size: usize,
    limit: Option<usize>,
    page_size: usize,
    base_addr: u64,
    heap_bytes: usize,
    mem: &VirtualMem,
    virtual_size: usize,
    mapped_size: usize,
    system_page_size: usize,
    start: CodePtr,
    pos: usize,
    byte: u8,
)
    requires
        call_ensures(
            VirtualMem::reserve,
            (size, limit, page_size, base_addr, heap_bytes),
            *mem,
        ),
        call_ensures(VirtualMem::virtual_region_size, (mem,), virtual_size),
        call_ensures(VirtualMem::mapped_region_size, (mem,), mapped_size),
        call_ensures(VirtualMem::system_page_size, (mem,), system_page_size),
        call_ensures(VirtualMem::start_ptr, (mem,), start),
        pos < size,
        call_ensures(VirtualMem::read_byte, (mem, pos), byte),
    ensures
        virtual_size == size,
        mapped_size == 0,
        system_page_size == page_size,
        start.0 == 0,
        byte == 0,
        mem.limit == limit,
        mem.base_addr == base_addr,
        mem.heap_bytes == heap_bytes,
        mem.writable,
{
}

/// The region is writable or executable as it was last marked, and holds what it held.
pub proof fn law_marked_region(w: &mut VirtualMem, x: &mut VirtualMem)
    requires
        call_ensures(VirtualMem::mark_all_writable, (w,), ()),
        call_ensures(VirtualMem::mark_all_executable, (x,), ()),
    ensures
        final(w).writable,
        !final(x).writable,
        final(w).bytes@ == old(w).bytes@,
        final(x).bytes@ == old(x).bytes@,
        final(w).mapped_bytes == old(w).mapped_bytes,
        final(x).mapped_bytes == old(x).mapped_bytes,
        final(w).base_addr == old(w).base_addr,
        final(x).base_addr == old(x).base_addr,
        final(w).limit == old(w).limit,
        final(x).limit == old(x).limit,
        final(w).heap_bytes == old(w).heap_bytes,
        final(x).heap_bytes == old(x).heap_bytes,
        final(w).page_size == old(w).page_size,
        final(x).page_size == old(x).page_size,
{
}

/// Moving a position by some bytes moves its offset and its address by as many.
pub proof fn law_position_arithmetic(
    ptr: CodePtr,
    bytes: usize,
    base: u64,
    moved: CodePtr,
    at: i64,
    to: i64,
    addr: u64,
    moved_addr: u64,
)
    requires
        call_ensures(CodePtr::add_bytes, (ptr, bytes), moved),
        call_ensures(CodePtr::as_offset, (ptr,), at),
        call_ensures(CodePtr::as_offset, (moved,), to),
        call_ensures(CodePtr::raw_addr, (ptr, base), addr),
        call_ensures(CodePtr::raw_addr, (moved, base), moved_addr),
    ensures
        at == ptr.0,
        to == at + bytes,
        addr == base + at,
        moved_addr == addr + bytes,
{
}

} // verus!
