//! The region of memory that code is written to.
//!
//! The region is reserved as a whole and mapped page by page, on first write. A memory limit
//! covers the mapped part of the region together with what the compiler has allocated on the
//! heap.

use vstd::prelude::*;

verus! {

/// A position in the code region, as an offset from its start.
#[derive(Copy, Clone, Debug, PartialEq, Eq, Structural, Hash)]
pub struct CodePtr(pub u32);

impl CodePtr {
    /// Offset from the start of the region.
    pub fn as_offset(self) -> (r: i64)
        ensures
            r == self.0,
    {
        self.0 as i64
    }

    /// The position `bytes` after this one.
    pub fn add_bytes(self, bytes: usize) -> (r: CodePtr)
        requires
            self.0 + bytes <= u32::MAX,
        ensures
            r.0 == self.0 + bytes,
    {
        CodePtr(self.0 + bytes as u32)
    }

    /// The address of this position in a region that starts at `base_addr`.
    pub fn raw_addr(self, base_addr: u64) -> (r: u64)
        requires
            base_addr + self.0 <= u64::MAX,
        ensures
            r == base_addr + self.0,
    {
        base_addr + self.0 as u64
    }
}

/// Why a byte could not be written.
#[derive(Copy, Clone, Debug, PartialEq, Eq, Structural)]
pub enum WriteError {
    /// The position is not in the region.
    OutOfBounds,
    /// The page cannot be mapped within the memory limit.
    FailedPageMapping,
}

/// A code region.
pub struct VirtualMem {
    /// What the region holds. Bytes that were never written are 0.
    pub bytes: Vec<u8>,
    /// Address of the start of the region.
    pub base_addr: u64,
    /// Size of the pages that are mapped at once.
    pub page_size: usize,
    /// Bytes from the start of the region that are mapped.
    pub mapped_bytes: usize,
    /// Limit on the mapped bytes and `heap_bytes` together. They stay below it.
    pub limit: Option<usize>,
    /// Bytes that the compiler has allocated on the heap.
    pub heap_bytes: usize,
    /// Whether the mapped part is writable. It is executable otherwise.
    pub writable: bool,
}

/// The state of a [`VirtualMem`].
pub struct MemModel {
    pub bytes: Seq<u8>,
    pub base_addr: u64,
    pub page_size: nat,
    pub mapped_bytes: nat,
    pub limit: Option<usize>,
    pub heap_bytes: nat,
    pub writable: bool,
}

impl View for VirtualMem {
    type V = MemModel;

    open spec fn view(&self) -> MemModel {
        MemModel {
            bytes: self.bytes@,
            base_addr: self.base_addr,
            page_size: self.page_size as nat,
            mapped_bytes: self.mapped_bytes as nat,
            limit: self.limit,
            heap_bytes: self.heap_bytes as nat,
            writable: self.writable,
        }
    }
}

/// What every operation keeps: the region is whole pages, of which the first ones are
/// mapped, and all of it can be pointed to.
pub open spec fn mem_wf(m: MemModel) -> bool {
    &&& m.page_size > 0
    &&& m.bytes.len() % m.page_size == 0
    &&& m.bytes.len() + m.page_size <= u32::MAX
    &&& m.bytes.len() <= usize::MAX
    &&& m.base_addr + u32::MAX <= u64::MAX
    &&& m.mapped_bytes <= m.bytes.len()
    &&& m.mapped_bytes % m.page_size == 0
}

/// Where the page that `pos` is in ends.
pub open spec fn page_end(pos: nat, page_size: nat) -> nat {
    (pos / page_size + 1) * page_size
}

/// Whether the limit allows `mapped` bytes to be mapped.
pub open spec fn allows(m: MemModel, mapped: nat) -> bool {
    m.limit matches Some(limit) ==> m.heap_bytes + mapped < limit
}

/// Whether a byte can be written at `pos`, and why not.
pub open spec fn write_error(m: MemModel, pos: nat) -> Option<WriteError> {
    if pos >= m.bytes.len() {
        Some(WriteError::OutOfBounds)
    } else if pos >= m.mapped_bytes && !allows(m, page_end(pos, m.page_size)) {
        Some(WriteError::FailedPageMapping)
    } else {
        None
    }
}

/// The region after `byte` was written at `pos`, which maps the pages up to it.
pub open spec fn written(m: MemModel, pos: nat, byte: u8) -> MemModel {
    MemModel {
        bytes: m.bytes.update(pos as int, byte),
        mapped_bytes: if pos >= m.mapped_bytes {
            page_end(pos, m.page_size)
        } else {
            m.mapped_bytes
        },
        ..m
    }
}

/// The page that a position of the region is in ends within the region.
pub proof fn lemma_page_end(len: nat, pos: nat, page_size: nat)
    requires
        page_size > 0,
        len % page_size == 0,
        pos < len,
    ensures
        pos < page_end(pos, page_size) <= len,
        page_end(pos, page_size) % page_size == 0,
{
    let q = len / page_size;
    vstd::arithmetic::div_mod::lemma_fundamental_div_mod(len as int, page_size as int);
    vstd::arithmetic::div_mod::lemma_fundamental_div_mod(pos as int, page_size as int);
    let p = pos / page_size;
    assert(p < q) by (nonlinear_arith)
        requires
            page_size > 0,
            len == page_size * q,
            pos < len,
            pos == page_size * p + pos % page_size,
            pos % page_size >= 0,
    ;
    assert((p + 1) * page_size <= len && pos < (p + 1) * page_size) by (nonlinear_arith)
        requires
            p < q,
            len == page_size * q,
            pos == page_size * p + pos % page_size,
            pos % page_size < page_size,
            page_size > 0,
    ;
    vstd::arithmetic::div_mod::lemma_mod_multiples_basic((p + 1) as int, page_size as int);
}

impl VirtualMem {
    /// Reserve a region of `size` bytes at `base_addr`, in pages of `page_size` bytes.
    pub fn reserve(
        size: usize,
        limit: Option<usize>,
        page_size: usize,
        base_addr: u64,
        heap_bytes: usize,
    ) -> (r: Self)
        requires
            page_size > 0,
            size % page_size == 0,
            size + page_size <= u32::MAX,
            base_addr + u32::MAX <= u64::MAX,
        ensures
            mem_wf(r@),
            r@ == (MemModel {
                bytes: Seq::new(size as nat, |i: int| 0u8),
                base_addr,
                page_size: page_size as nat,
                mapped_bytes: 0,
                limit,
                heap_bytes: heap_bytes as nat,
                writable: true,
            }),
    {
        let bytes: Vec<u8> = vec![0u8; size];
        proof {
            assert(bytes@ =~= Seq::new(size as nat, |i: int| 0u8));
            vstd::arithmetic::div_mod::lemma_small_mod(0, page_size as nat);
        }
        VirtualMem {
            bytes,
            base_addr,
            page_size,
            mapped_bytes: 0,
            limit,
            heap_bytes,
            writable: true,
        }
    }

    /// The start of the region.
    pub fn start_ptr(&self) -> (r: CodePtr)
        ensures
            r == CodePtr(0),
    {
        CodePtr(0)
    }

    /// Size of the pages that are mapped at once.
    pub fn system_page_size(&self) -> (r: usize)
        ensures
            r == self@.page_size,
    {
        self.page_size
    }

    /// Size of the region in bytes where writes could be attempted.
    pub fn virtual_region_size(&self) -> (r: usize)
        ensures
            r == self@.bytes.len(),
    {
        self.bytes.len()
    }

    /// Size of the region in bytes that we have allocated physical memory for.
    pub fn mapped_region_size(&self) -> (r: usize)
        ensures
            r == self@.mapped_bytes,
    {
        self.mapped_bytes
    }

    /// Whether the limit allows `mapped` bytes to be mapped.
    fn within_limit(&self, mapped: usize) -> (r: bool)
        ensures
            r == allows(self@, mapped as nat),
    {
        match self.limit {
            Some(limit) => mapped < limit && self.heap_bytes < limit - mapped,
            None => true,
        }
    }

    /// Whether one more page can be mapped within the limit.
    pub fn can_allocate(&self) -> (r: bool)
        requires
            mem_wf(self@),
        ensures
            r == allows(self@, self@.mapped_bytes + self@.page_size),
    {
        self.within_limit(self.mapped_bytes + self.page_size)
    }

    /// Write a byte, mapping its page first if it is not mapped yet.
    pub fn write_byte(&mut self, write_ptr: CodePtr, byte: u8) -> (r: Result<(), WriteError>)
        requires
            mem_wf(old(self)@),
        ensures
            mem_wf(final(self)@),
            match write_error(old(self)@, write_ptr.0 as nat) {
                Some(error) => r == Err::<(), WriteError>(error) && final(self)@ == old(self)@,
                None => r is Ok && final(self)@ == written(
                    old(self)@,
                    write_ptr.0 as nat,
                    byte,
                ),
            },
    {
        let pos: usize = write_ptr.0 as usize;
        let len: usize = self.bytes.len();
        if pos >= len {
            return Err(WriteError::OutOfBounds);
        }
        proof {
            lemma_page_end(len as nat, pos as nat, self.page_size as nat);
        }
        if pos >= self.mapped_bytes {
            let ghost p = (pos as nat / self.page_size as nat) as int;
            assert(p * self.page_size <= (p + 1) * self.page_size) by (nonlinear_arith)
                requires
                    self.page_size > 0,
            ;
            let end: usize = (pos / self.page_size + 1) * self.page_size;
            if !self.within_limit(end) {
                return Err(WriteError::FailedPageMapping);
            }
            self.mapped_bytes = end;
        }
        self.bytes[pos] = byte;
        Ok(())
    }

    /// The byte at `pos`.
    pub fn read_byte(&self, pos: usize) -> (r: u8)
        requires
            pos < self@.bytes.len(),
        ensures
            r == self@.bytes[pos as int],
    {
        self.bytes[pos]
    }

    /// Make the mapped part writable.
    pub fn mark_all_writable(&mut self)
        ensures
            final(self)@ == (MemModel { writable: true, ..old(self)@ }),
    {
        self.writable = true;
    }

    /// Make the mapped part executable.
    pub fn mark_all_executable(&mut self)
        ensures
            final(self)@ == (MemModel { writable: false, ..old(self)@ }),
    {
        self.writable = false;
    }
}

} // verus!
