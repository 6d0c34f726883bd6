//! The code block: where code is written next, and what has been written.

use vstd::prelude::*;

use std::collections::{BTreeMap, HashMap};

use crate::le;
use crate::text;
use crate::virtualmem;
use crate::virtualmem::{CodePtr, MemModel, VirtualMem, WriteError};
use super::pages;

verus! {

/// Index to a label created by [`CodeBlock::new_label`].
#[derive(Copy, Clone, Debug, Eq, Hash, PartialEq, Structural)]
pub struct Label(pub usize);

/// Names the function that knows how to encode a branch instruction. Whoever emits code keeps
/// those functions.
#[derive(Copy, Clone, Debug, Eq, Hash, PartialEq, Structural)]
pub struct BranchEncoder(pub usize);

/// Reference to an ASM label.
#[derive(Copy, Clone, Debug, Eq, PartialEq, Structural)]
pub struct LabelRef {
    /// Position in the code block where the label reference exists.
    pub pos: usize,
    /// Label which this refers to.
    pub label: Label,
    /// The number of bytes that this label reference takes up in the memory. It's necessary to
    /// know this ahead of time so that when we come back to patch it it takes the same amount
    /// of space.
    pub num_bytes: usize,
    /// What knows how to encode the branch instruction.
    pub encode: BranchEncoder,
}

/// Block of memory into which instructions can be assembled.
pub struct CodeBlock {
    /// Memory for storing the encoded instructions.
    pub mem_block: VirtualMem,
    /// Memory block size.
    pub mem_size: usize,
    /// Size of a code page in bytes, or 0 when inline and outlined code are not interleaved.
    /// When a half of a page fills up, [`CodeBlock::next_page`] jumps to the same half of the
    /// next page and moves the other half to that page too, so cold code always stays within a
    /// page or so of the hot code jumping to it.
    pub page_size: usize,
    /// Current writing position, in whichever half `outlined` names.
    pub write_pos: usize,
    /// Write position of the half that is *not* current. [`CodeBlock::set_outlined`] swaps it
    /// with `write_pos`.
    pub other_write_pos: usize,
    /// Whether `write_pos` currently points into the outlined half.
    pub outlined: bool,
    /// Size reserved at the end of each half page for a jump to the next page.
    pub page_end_reserve: usize,
    /// When false, writes are not bounded by the end of the current half page. Used while
    /// patching existing code, which only rewrites bytes that were already reserved by the
    /// original write.
    pub page_bounds_check: bool,
    /// Bytes written to half pages that each half has moved past, inline half first. Used for
    /// code size stats.
    pub past_page_bytes: [usize; 2],
    /// For each half page that was left with a jump to the next page, the position right after
    /// that jump, keyed by the position where the half page starts. Used to split a code range
    /// into the pieces that hold code.
    pub page_jump_ends: HashMap<usize, usize>,
    /// Table of registered label addresses.
    pub label_addrs: Vec<usize>,
    /// Table of registered label names.
    pub label_names: Vec<String>,
    /// References to labels.
    pub label_refs: Vec<LabelRef>,
    /// A switch for keeping comments. They take up memory.
    pub keep_comments: bool,
    /// Comments for assembly instructions, if that feature is enabled, by address.
    pub asm_comments: BTreeMap<u64, Vec<String>>,
    /// Set if the CodeBlock is unable to output some instructions, for example, when there is
    /// not enough space or when a jump target is too far away.
    pub dropped_bytes: bool,
    /// How many bytes a jump to anywhere in the region takes.
    pub jmp_ptr_bytes: usize,
}

/// The state of a [`CodeBlock`].
#[verifier::ext_equal]
pub struct CbModel {
    pub mem: MemModel,
    pub page_size: nat,
    pub write_pos: nat,
    pub other_write_pos: nat,
    pub outlined: bool,
    pub page_end_reserve: nat,
    pub page_bounds_check: bool,
    pub past_page_bytes: Seq<usize>,
    pub jump_ends: Map<usize, usize>,
    pub label_addrs: Seq<usize>,
    pub label_names: Seq<Seq<char>>,
    pub label_refs: Seq<LabelRef>,
    pub keep_comments: bool,
    pub comments: Map<u64, Seq<Seq<char>>>,
    pub dropped_bytes: bool,
    pub jmp_ptr_bytes: nat,
}

/// The text of some strings.
pub open spec fn texts(strings: Seq<String>) -> Seq<Seq<char>> {
    strings.map_values(|s: String| s@)
}

/// The text of the comments at each address.
pub open spec fn comment_texts(comments: Map<u64, Vec<String>>) -> Map<u64, Seq<Seq<char>>> {
    comments.map_values(|lines: Vec<String>| texts(lines@))
}

impl View for CodeBlock {
    type V = CbModel;

    open spec fn view(&self) -> CbModel {
        CbModel {
            mem: self.mem_block@,
            page_size: self.page_size as nat,
            write_pos: self.write_pos as nat,
            other_write_pos: self.other_write_pos as nat,
            outlined: self.outlined,
            page_end_reserve: self.page_end_reserve as nat,
            page_bounds_check: self.page_bounds_check,
            past_page_bytes: self.past_page_bytes@,
            jump_ends: self.page_jump_ends@,
            label_addrs: self.label_addrs@,
            label_names: texts(self.label_names@),
            label_refs: self.label_refs@,
            keep_comments: self.keep_comments,
            comments: comment_texts(self.asm_comments@),
            dropped_bytes: self.dropped_bytes,
            jmp_ptr_bytes: self.jmp_ptr_bytes as nat,
        }
    }
}

/// Whether inline and outlined code are interleaved per code page.
pub open spec fn interleaved(m: CbModel) -> bool {
    m.page_size != 0
}

/// The write position of the given half.
pub open spec fn half_pos(m: CbModel, outlined: bool) -> nat {
    if outlined == m.outlined {
        m.write_pos
    } else {
        m.other_write_pos
    }
}

/// The shape that every operation keeps.
pub open spec fn shape_ok(m: CbModel) -> bool {
    &&& virtualmem::mem_wf(m.mem)
    &&& m.past_page_bytes.len() == 2
    &&& m.write_pos <= u32::MAX
    &&& m.other_write_pos <= u32::MAX
    &&& m.label_addrs.len() == m.label_names.len()
    &&& forall|i: int| 0 <= i < m.label_addrs.len() ==> #[trigger] m.label_addrs[i] <= u32::MAX
    &&& if interleaved(m) {
        &&& pages::is_page_size(m.page_size)
        &&& m.mem.bytes.len() % m.page_size == 0
        &&& m.page_size <= u32::MAX
        &&& m.page_end_reserve <= m.page_size / 2
        &&& pages::jump_ends_ok(m.page_size, m.jump_ends)
    } else {
        &&& !m.outlined
        &&& m.page_end_reserve == 0
        &&& m.jump_ends == Map::<usize, usize>::empty()
    }
}

/// Whether the half being written to is where it can be. Nothing is asked while writes are not
/// bounded by half pages.
pub open spec fn writable_here(m: CbModel) -> bool {
    interleaved(m) && m.page_bounds_check ==> pages::in_half(m.page_size, m.write_pos, m.outlined)
}

/// Whether both halves are where they can be.
pub open spec fn halves_ok(m: CbModel) -> bool {
    interleaved(m) ==> pages::in_half(m.page_size, half_pos(m, true), true)
}

/// Bytes written to the current page of the given half.
pub open spec fn current_page_bytes(m: CbModel, pos: nat, outlined: bool) -> int {
    pos - pages::half_page_start(m.page_size, pos, outlined)
}

/// How many more bytes fit into the current half page, short of what is reserved at its end.
pub open spec fn room(m: CbModel) -> nat {
    let left = m.page_size / 2 - m.page_end_reserve - current_page_bytes(
        m,
        m.write_pos,
        m.outlined,
    );
    if left > 0 {
        left as nat
    } else {
        0
    }
}

/// Whether `num_bytes` fit at the write position.
pub open spec fn capacity_for(m: CbModel, num_bytes: nat) -> bool {
    if !interleaved(m) || !m.page_bounds_check {
        m.write_pos + num_bytes <= m.mem.bytes.len()
    } else {
        num_bytes <= room(m)
    }
}

/// The code block after a byte was written, or dropped if it does not fit or its page cannot
/// be mapped.
pub open spec fn byte_written(m: CbModel, byte: u8) -> CbModel {
    if capacity_for(m, 1) && virtualmem::write_error(m.mem, m.write_pos) is None {
        CbModel {
            mem: virtualmem::written(m.mem, m.write_pos, byte),
            write_pos: m.write_pos + 1,
            ..m
        }
    } else {
        CbModel { dropped_bytes: true, ..m }
    }
}

/// The code block after bytes were written one after the other.
pub open spec fn bytes_written(m: CbModel, bytes: Seq<u8>) -> CbModel
    decreases bytes.len(),
{
    if bytes.len() == 0 {
        m
    } else {
        byte_written(bytes_written(m, bytes.drop_last()), bytes.last())
    }
}

/// The code block after a comment at the write position was added. A comment that repeats the
/// last one at the same address is left out.
pub open spec fn commented(m: CbModel, comment: Seq<char>) -> CbModel {
    if !m.keep_comments {
        m
    } else {
        let addr = (m.mem.base_addr + m.write_pos) as u64;
        let lines = if m.comments.dom().contains(addr) {
            m.comments[addr]
        } else {
            Seq::empty()
        };
        CbModel {
            comments: m.comments.insert(
                addr,
                if lines.len() > 0 && lines.last() == comment {
                    lines
                } else {
                    lines.push(comment)
                },
            ),
            ..m
        }
    }
}

/// Writing a byte keeps the shape, and the half that is written to.
pub proof fn lemma_byte_written(m: CbModel, byte: u8)
    requires
        shape_ok(m),
    ensures
        shape_ok(byte_written(m, byte)),
        writable_here(m) ==> writable_here(byte_written(m, byte)),
        halves_ok(m) ==> halves_ok(byte_written(m, byte)),
        byte_written(m, byte).write_pos >= m.write_pos,
{
    if virtualmem::write_error(m.mem, m.write_pos) is None {
        virtualmem::lemma_page_end(m.mem.bytes.len(), m.write_pos, m.mem.page_size);
    }
}

/// Writing bytes keeps the shape, and the half that is written to.
pub proof fn lemma_bytes_written(m: CbModel, bytes: Seq<u8>)
    requires
        shape_ok(m),
    ensures
        shape_ok(bytes_written(m, bytes)),
        writable_here(m) ==> writable_here(bytes_written(m, bytes)),
        halves_ok(m) ==> halves_ok(bytes_written(m, bytes)),
        bytes_written(m, bytes).write_pos >= m.write_pos,
    decreases bytes.len(),
{
    if bytes.len() > 0 {
        lemma_bytes_written(m, bytes.drop_last());
        lemma_byte_written(bytes_written(m, bytes.drop_last()), bytes.last());
    }
}

/// A code block that nothing was written to.
pub open spec fn fresh(mem: MemModel, keep_comments: bool, jmp_ptr_bytes: nat) -> CbModel {
    CbModel {
        mem,
        page_size: 0,
        write_pos: 0,
        other_write_pos: 0,
        outlined: false,
        page_end_reserve: 0,
        page_bounds_check: true,
        past_page_bytes: seq![0usize, 0usize],
        jump_ends: Map::empty(),
        label_addrs: Seq::empty(),
        label_names: Seq::empty(),
        label_refs: Seq::empty(),
        keep_comments,
        comments: Map::empty(),
        dropped_bytes: false,
        jmp_ptr_bytes,
    }
}

/// Works for common AArch64 systems that have 16 KiB pages and common x86_64 systems that use
/// 4 KiB pages.
pub const PREFERRED_CODE_PAGE_SIZE: usize = 16384;

/// Size of the regions of stubbed code blocks.
pub const DEFAULT_MEM_SIZE: usize = 1048576;

/// Size of the pages of stubbed code blocks.
pub const DEFAULT_SYSTEM_PAGE_SIZE: usize = 4096;

/// Size of a jump in stubbed code blocks: an opcode and a 32-bit displacement.
pub const DEFAULT_JMP_PTR_BYTES: usize = 5;

/// The size of a code page: the preferred one, unless system pages do not fit into it.
pub open spec fn code_page_size(system_page_size: nat) -> nat {
    if 16384nat % system_page_size == 0 {
        16384
    } else {
        system_page_size
    }
}

impl CodeBlock {
    /// The block's memory is as large as it says.
    pub open spec fn wf(&self) -> bool {
        &&& self.mem_size == self.mem_block@.bytes.len()
        &&& shape_ok(self@)
    }

    /// Make a new CodeBlock. A jump to anywhere in its region takes `jmp_ptr_bytes`.
    pub fn new(mem_block: VirtualMem, keep_comments: bool, jmp_ptr_bytes: usize) -> (r: Self)
        requires
            virtualmem::mem_wf(mem_block@),
        ensures
            r.wf(),
            r@ == fresh(mem_block@, keep_comments, jmp_ptr_bytes as nat),
    {
        let mem_size: usize = mem_block.virtual_region_size();
        let r = CodeBlock {
            mem_block,
            mem_size,
            page_size: 0,
            write_pos: 0,
            other_write_pos: 0,
            outlined: false,
            page_end_reserve: 0,
            page_bounds_check: true,
            past_page_bytes: [0usize, 0usize],
            page_jump_ends: HashMap::new(),
            label_addrs: Vec::new(),
            label_names: Vec::new(),
            label_refs: Vec::new(),
            keep_comments,
            asm_comments: BTreeMap::new(),
            dropped_bytes: false,
            jmp_ptr_bytes,
        };
        proof {
            assert(r@.comments =~= Map::empty());
            assert(r@.label_names =~= Seq::empty());
            assert(r@.past_page_bytes =~= seq![0usize, 0usize]);
            assert(r@ =~= fresh(mem_block@, keep_comments, jmp_ptr_bytes as nat));
        }
        r
    }

    /// Make a new CodeBlock that interleaves inline and outlined code per code page.
    pub fn new_interleaved(
        mem_block: VirtualMem,
        keep_comments: bool,
        jmp_ptr_bytes: usize,
    ) -> (r: Self)
        requires
            virtualmem::mem_wf(mem_block@),
            pages::is_page_size(code_page_size(mem_block@.page_size)),
            mem_block@.bytes.len() % code_page_size(mem_block@.page_size) == 0,
            jmp_ptr_bytes <= code_page_size(mem_block@.page_size) / 2,
        ensures
            r.wf(),
            halves_ok(r@),
            r@ == (CbModel {
                page_size: code_page_size(mem_block@.page_size),
                other_write_pos: code_page_size(mem_block@.page_size) / 2,
                page_end_reserve: jmp_ptr_bytes as nat,
                ..fresh(mem_block@, keep_comments, jmp_ptr_bytes as nat)
            }),
    {
        // Pick the code page size
        let system_page_size: usize = mem_block.system_page_size();
        let page_size: usize = if PREFERRED_CODE_PAGE_SIZE % system_page_size == 0 {
            PREFERRED_CODE_PAGE_SIZE
        } else {
            system_page_size
        };
        let mut cb = Self::new(mem_block, keep_comments, jmp_ptr_bytes);
        // Partially in-bounds code pages should be impossible
        vstd::pervasive::runtime_assert(cb.mem_size % page_size == 0);
        cb.page_size = page_size;
        cb.write_pos = 0;
        cb.other_write_pos = page_size / 2;
        cb.page_end_reserve = jmp_ptr_bytes;
        cb
    }

    /// Stubbed CodeBlock for testing. Can't execute generated code.
    pub fn new_dummy() -> (r: Self)
        ensures
            r.wf(),
            r@ == fresh(dummy_mem(0x10_0000), false, 5),
    {
        CodeBlock::new_dummy_sized(DEFAULT_MEM_SIZE)
    }

    /// Stubbed CodeBlock with a region of `mem_size` bytes.
    pub fn new_dummy_sized(mem_size: usize) -> (r: Self)
        requires
            mem_size % 4096 == 0,
            mem_size + 4096 <= u32::MAX,
        ensures
            r.wf(),
            r@ == fresh(dummy_mem(mem_size as nat), false, 5),
    {
        let virt_mem = VirtualMem::reserve(mem_size, None, DEFAULT_SYSTEM_PAGE_SIZE, 0, 0);
        Self::new(virt_mem, false, DEFAULT_JMP_PTR_BYTES)
    }

    /// Stubbed CodeBlock that interleaves inline and outlined code per code page.
    pub fn new_dummy_interleaved() -> (r: Self)
        ensures
            r.wf(),
            halves_ok(r@),
            r@ == (CbModel {
                page_size: 16384,
                other_write_pos: 8192,
                page_end_reserve: 5,
                ..fresh(dummy_mem(0x10_0000), false, 5)
            }),
    {
        let virt_mem = VirtualMem::reserve(
            DEFAULT_MEM_SIZE,
            None,
            DEFAULT_SYSTEM_PAGE_SIZE,
            0,
            0,
        );
        Self::new_interleaved(virt_mem, false, DEFAULT_JMP_PTR_BYTES)
    }

    /// How many bytes a jump to anywhere in the region takes.
    pub fn jmp_ptr_bytes(&self) -> (r: usize)
        ensures
            r == self@.jmp_ptr_bytes,
    {
        self.jmp_ptr_bytes
    }

    /// True when inline and outlined code are interleaved per code page.
    pub fn is_interleaved(&self) -> (r: bool)
        ensures
            r == interleaved(self@),
    {
        self.page_size != 0
    }

    /// Size of a code page, or 0 if not interleaved.
    pub fn page_size(&self) -> (r: usize)
        ensures
            r == self@.page_size,
    {
        self.page_size
    }

    /// Whether writes currently go to the outlined half.
    pub fn is_outlined(&self) -> (r: bool)
        ensures
            r == self@.outlined,
    {
        self.outlined
    }

    /// Direct the next writes at the outlined (cold) half of each code page, or back at the
    /// inline half. Returns the previous setting. No-op when not interleaved.
    pub fn set_outlined(&mut self, outlined: bool) -> (r: bool)
        requires
            old(self).wf(),
        ensures
            final(self).wf(),
            halves_ok(old(self)@) ==> halves_ok(final(self)@),
            r == old(self)@.outlined,
            final(self)@ == outlined_set(old(self)@, outlined),
    {
        let was_outlined: bool = self.outlined;
        if !self.is_interleaved() || outlined == was_outlined {
            return was_outlined;
        }
        let pos: usize = self.write_pos;
        self.write_pos = self.other_write_pos;
        self.other_write_pos = pos;
        self.outlined = outlined;
        was_outlined
    }

    /// The write position of the given half, whether or not it is the current one.
    pub fn write_pos_for(&self, outlined: bool) -> (r: usize)
        ensures
            r == half_pos(self@, outlined),
    {
        if outlined == self.outlined {
            self.write_pos
        } else {
            self.other_write_pos
        }
    }

    /// A pointer to the inline half's write position.
    pub fn inlined_write_ptr(&self) -> (r: CodePtr)
        requires
            self.wf(),
        ensures
            r.0 == half_pos(self@, false),
    {
        self.get_ptr(self.write_pos_for(false))
    }

    /// A pointer to the outlined half's write position.
    pub fn outlined_write_ptr(&self) -> (r: CodePtr)
        requires
            self.wf(),
        ensures
            r.0 == half_pos(self@, true),
    {
        self.get_ptr(self.write_pos_for(true))
    }

    /// Offset within a code page where the given half starts.
    pub fn half_start(&self, outlined: bool) -> (r: usize)
        ensures
            r == pages::half_start(self@.page_size, outlined),
    {
        if outlined {
            self.page_size / 2
        } else {
            0
        }
    }

    /// Offset within each page where the current half should stop writing (exclusive).
    pub fn page_end(&self) -> (r: usize)
        requires
            self.wf(),
        ensures
            r == pages::half_start(self@.page_size, self@.outlined) + self@.page_size / 2
                - self@.page_end_reserve,
    {
        let page_end: usize = if self.outlined {
            self.page_size
        } else {
            self.page_size / 2
        };
        page_end - self.page_end_reserve  // reserve space to jump to the next page

    }

    /// Position where the half page that `pos` writes to starts. The end of the outlined half
    /// of a page is the start of the next page, so it's not just `pos % page_size`.
    pub fn half_page_start(&self, pos: usize, outlined: bool) -> (r: usize)
        requires
            self.wf(),
            interleaved(self@),
            pages::in_half(self@.page_size, pos as nat, outlined),
        ensures
            r == pages::half_page_start(self@.page_size, pos as nat, outlined),
            r <= pos < r + self@.page_size,
    {
        proof {
            pages::lemma_half_page(self@.page_size, pos as nat, outlined);
            if outlined {
                pages::lemma_page_base((pos - self.page_size / 2) as nat, self@.page_size);
            } else {
                pages::lemma_page_base(pos as nat, self@.page_size);
            }
        }
        let page_idx: usize = if outlined {
            (pos - self.page_size / 2) / self.page_size
        } else {
            pos / self.page_size
        };
        page_idx * self.page_size + self.half_start(outlined)
    }

    /// Bytes written to the current page of the given half at `pos`.
    pub fn current_page_bytes(&self, pos: usize, outlined: bool) -> (r: usize)
        requires
            self.wf(),
            interleaved(self@),
            pages::in_half(self@.page_size, pos as nat, outlined),
        ensures
            r == current_page_bytes(self@, pos as nat, outlined),
            r < self@.page_size,
    {
        pos - self.half_page_start(pos, outlined)
    }

    /// Bytes of machine code written into the inline (hot) half of code pages.
    pub fn inlined_code_size(&self) -> (r: usize)
        requires
            self.wf(),
            self@.past_page_bytes[0] + self@.page_size <= usize::MAX,
        ensures
            r == if interleaved(self@) {
                self@.past_page_bytes[0] + current_page_bytes(
                    self@,
                    half_pos(self@, false),
                    false,
                )
            } else {
                self@.write_pos as int
            },
    {
        if !self.is_interleaved() {
            return self.write_pos;
        }
        self.past_page_bytes[0] + self.current_page_bytes(self.write_pos_for(false), false)
    }

    /// Bytes of machine code written into the outlined (cold) half of code pages.
    pub fn outlined_code_size(&self) -> (r: usize)
        requires
            self.wf(),
            halves_ok(self@),
            self@.past_page_bytes[1] + self@.page_size <= usize::MAX,
        ensures
            r == if interleaved(self@) {
                self@.past_page_bytes[1] + current_page_bytes(self@, half_pos(self@, true), true)
            } else {
                0
            },
    {
        if !self.is_interleaved() {
            return 0;
        }
        self.past_page_bytes[1] + self.current_page_bytes(self.write_pos_for(true), true)
    }

    /// Check if this code block has sufficient remaining capacity in the current half page.
    pub fn has_capacity(&self, num_bytes: usize) -> (r: bool)
        requires
            self.wf(),
            writable_here(self@),
            self@.write_pos + num_bytes <= usize::MAX,
        ensures
            r == capacity_for(self@, num_bytes as nat),
    {
        if !self.is_interleaved() || !self.page_bounds_check {
            return self.write_pos + num_bytes <= self.mem_size;
        }
        let used: usize = self.current_page_bytes(self.write_pos, self.outlined);
        let available: usize = self.page_size / 2 - self.page_end_reserve;
        let capacity: usize = available.saturating_sub(used);
        num_bytes <= capacity
    }

    /// Size of the region in bytes that we have allocated physical memory for.
    pub fn mapped_region_size(&self) -> (r: usize)
        ensures
            r == self@.mem.mapped_bytes,
    {
        self.mem_block.mapped_region_size()
    }

    /// Size of the region in bytes where writes could be attempted.
    pub fn virtual_region_size(&self) -> (r: usize)
        requires
            self.wf(),
        ensures
            r == self@.mem.bytes.len(),
    {
        self.mem_size
    }

    /// Add an assembly comment if the feature is on.
    pub fn add_comment(&mut self, comment: &str)
        requires
            old(self).wf(),
        ensures
            final(self).wf(),
            final(self)@ == commented(old(self)@, comment@),
    {
        if !self.keep_comments {
            return;
        }
        let cur_ptr: u64 = self.get_write_ptr().raw_addr(self.mem_block.base_addr);
        let text: String = comment.to_owned();
        let ghost before = self.asm_comments@;
        // If there's no current list of comments for this line number, add one.
        let mut lines: Vec<String> = match self.asm_comments.remove(&cur_ptr) {
            Some(lines) => lines,
            None => Vec::new(),
        };
        let ghost old_lines = lines@;
        // Unless this comment is the same as the last one at this same line, add it.
        let count: usize = lines.len();
        if !(count > 0 && lines[count - 1] == text) {
            lines.push(text);
        }
        let ghost new_lines = lines;
        self.asm_comments.insert(cur_ptr, lines);
        proof {
            let m = old(self)@;
            assert(texts(Seq::<String>::empty()) =~= Seq::empty());
            assert(texts(new_lines@) =~= if old_lines.len() > 0 && texts(old_lines).last()
                == comment@ {
                texts(old_lines)
            } else {
                texts(old_lines).push(comment@)
            });
            assert(self.asm_comments@ =~= before.insert(cur_ptr, new_lines));
            assert(self@.comments =~= commented(m, comment@).comments);
            assert(self@ =~= commented(m, comment@));
        }
    }

    /// The comments at an address.
    pub fn comments_at(&self, addr: u64) -> (r: Option<&Vec<String>>)
        ensures
            match r {
                Some(lines) => self@.comments.dom().contains(addr) && texts(lines@)
                    == self@.comments[addr],
                None => !self@.comments.dom().contains(addr),
            },
    {
        self.asm_comments.get(&addr)
    }

    pub fn get_write_pos(&self) -> (r: usize)
        ensures
            r == self@.write_pos,
    {
        self.write_pos
    }

    /// Write a byte anywhere in the region, leaving the write position alone.
    pub fn write_mem(&mut self, write_ptr: CodePtr, byte: u8) -> (r: Result<(), WriteError>)
        requires
            old(self).wf(),
        ensures
            final(self).wf(),
            match virtualmem::write_error(old(self)@.mem, write_ptr.0 as nat) {
                Some(error) => r == Err::<(), WriteError>(error) && final(self)@ == old(self)@,
                None => r is Ok && final(self)@ == (CbModel {
                    mem: virtualmem::written(old(self)@.mem, write_ptr.0 as nat, byte),
                    ..old(self)@
                }),
            },
    {
        self.mem_block.write_byte(write_ptr, byte)
    }

    /// Get a (possibly dangling) direct pointer to the current write position.
    pub fn get_write_ptr(&self) -> (r: CodePtr)
        requires
            self.wf(),
        ensures
            r.0 == self@.write_pos,
    {
        self.get_ptr(self.write_pos)
    }

    /// Set the current write position from a pointer.
    pub fn set_write_ptr(&mut self, code_ptr: CodePtr)
        requires
            old(self).wf(),
        ensures
            final(self).wf(),
            final(self)@ == (CbModel { write_pos: code_ptr.0 as nat, ..old(self)@ }),
    {
        self.write_pos = (code_ptr.0 - self.mem_block.start_ptr().0) as usize;
    }

    /// Get a (possibly dangling) direct pointer into the executable memory block.
    pub fn get_ptr(&self, offset: usize) -> (r: CodePtr)
        requires
            offset <= u32::MAX,
        ensures
            r.0 == offset,
    {
        self.mem_block.start_ptr().add_bytes(offset)
    }

    /// Write a single byte at the current position.
    pub fn write_byte(&mut self, byte: u8)
        requires
            old(self).wf(),
            writable_here(old(self)@),
        ensures
            final(self).wf(),
            final(self)@ == byte_written(old(self)@, byte),
            writable_here(final(self)@),
            halves_ok(old(self)@) ==> halves_ok(final(self)@),
    {
        proof {
            lemma_byte_written(self@, byte);
        }
        if self.write_pos >= self.mem_size {
            proof {
                assert(virtualmem::write_error(self@.mem, self@.write_pos) is Some);
            }
            self.dropped_bytes = true;
            return;
        }
        let write_ptr = self.get_write_ptr();
        if self.has_capacity(1) && self.mem_block.write_byte(write_ptr, byte).is_ok() {
            self.write_pos = self.write_pos + 1;
        } else {
            self.dropped_bytes = true;
        }
    }

    /// Write multiple bytes starting from the current position.
    pub fn write_bytes(&mut self, bytes: &[u8])
        requires
            old(self).wf(),
            writable_here(old(self)@),
        ensures
            final(self).wf(),
            final(self)@ == bytes_written(old(self)@, bytes@),
            writable_here(final(self)@),
            halves_ok(old(self)@) ==> halves_ok(final(self)@),
    {
        let mut idx: usize = 0;
        while idx < bytes.len()
            invariant
                idx <= bytes@.len(),
                self.wf(),
                writable_here(self@),
                halves_ok(old(self)@) ==> halves_ok(self@),
                self@ == bytes_written(old(self)@, bytes@.take(idx as int)),
            decreases bytes@.len() - idx,
        {
            self.write_byte(bytes[idx]);
            idx = idx + 1;
            assert(bytes@.take(idx as int).drop_last() =~= bytes@.take(idx - 1));
        }
        assert(bytes@.take(idx as int) =~= bytes@);
    }

    /// Write an integer over the given number of bits at the current position, least
    /// significant byte first.
    pub fn write_int(&mut self, val: u64, num_bits: u32)
        requires
            old(self).wf(),
            writable_here(old(self)@),
            num_bits > 0,
            num_bits % 8 == 0,
        ensures
            final(self).wf(),
            final(self)@ == bytes_written(
                old(self)@,
                le::le_bytes(val as nat, (num_bits / 8) as nat),
            ),
            writable_here(final(self)@),
            halves_ok(old(self)@) ==> halves_ok(final(self)@),
    {
        vstd::pervasive::runtime_assert(num_bits > 0);
        vstd::pervasive::runtime_assert(num_bits % 8 == 0);
        let count: u32 = num_bits / 8;
        let mut bytes: Vec<u8> = Vec::new();
        let mut cur: u64 = val;
        let mut left: u32 = count;
        assert(bytes@ + le::le_bytes(cur as nat, left as nat) =~= le::le_bytes(
            val as nat,
            count as nat,
        ));
        while left > 0
            invariant
                left <= count,
                bytes@ + le::le_bytes(cur as nat, left as nat) == le::le_bytes(
                    val as nat,
                    count as nat,
                ),
            decreases left,
        {
            let ghost before = bytes@;
            bytes.push((cur % 256) as u8);
            assert(before + le::le_bytes(cur as nat, left as nat) =~= bytes@ + le::le_bytes(
                (cur / 256) as nat,
                (left - 1) as nat,
            ));
            cur = cur / 256;
            left = left - 1;
        }
        assert(bytes@ + le::le_bytes(cur as nat, 0) =~= bytes@);
        self.write_bytes(bytes.as_slice());
    }

    /// Check if bytes have been dropped (unwritten because of insufficient space).
    pub fn has_dropped_bytes(&self) -> (r: bool)
        ensures
            r == self@.dropped_bytes,
    {
        self.dropped_bytes
    }

    /// Set dropped_bytes to false if the heap, the code region and one more page are below the
    /// memory limit. Returns whether they are: memory is available again, so the interpreter
    /// can resume triggering compilation.
    pub fn update_dropped_bytes(&mut self) -> (r: bool)
        requires
            old(self).wf(),
        ensures
            final(self).wf(),
            r == virtualmem::allows(
                old(self)@.mem,
                old(self)@.mem.mapped_bytes + old(self)@.mem.page_size,
            ),
            final(self)@ == if r {
                (CbModel { dropped_bytes: false, ..old(self)@ })
            } else {
                old(self)@
            },
    {
        if self.mem_block.can_allocate() {
            self.dropped_bytes = false;
            return true;
        }
        false
    }

    /// Make all the code in the region writable. Call this at the start of a write session.
    pub fn mark_all_writable(&mut self)
        requires
            old(self).wf(),
        ensures
            final(self).wf(),
            final(self)@ == (CbModel {
                mem: MemModel { writable: true, ..old(self)@.mem },
                ..old(self)@
            }),
    {
        self.mem_block.mark_all_writable();
    }

    /// Make all the code in the region executable. Call this at the end of a write session.
    pub fn mark_all_executable(&mut self)
        requires
            old(self).wf(),
        ensures
            final(self).wf(),
            final(self)@ == (CbModel {
                mem: MemModel { writable: false, ..old(self)@.mem },
                ..old(self)@
            }),
    {
        self.mem_block.mark_all_executable();
    }

    /// Disassemble the generated code for testing. `disasm_addr_range` disassembles the code
    /// between two addresses.
    pub fn disasm<F: Fn(&CodeBlock, u64, u64) -> String>(&self, disasm_addr_range: F) -> (r: String)
        requires
            self.wf(),
            call_requires(
                disasm_addr_range,
                (self, self@.mem.base_addr, (self@.mem.base_addr + self@.write_pos) as u64),
            ),
        ensures
            call_ensures(
                disasm_addr_range,
                (self, self@.mem.base_addr, (self@.mem.base_addr + self@.write_pos) as u64),
                r,
            ),
    {
        let start_addr: u64 = self.get_ptr(0).raw_addr(self.mem_block.base_addr);
        let end_addr: u64 = self.get_write_ptr().raw_addr(self.mem_block.base_addr);
        disasm_addr_range(self, start_addr, end_addr)
    }

    /// Read a written byte for testing.
    pub fn hexdump_byte_at(&self, pos: usize) -> (r: [u8; 1])
        requires
            pos < self@.mem.bytes.len(),
        ensures
            r@ == seq![self@.mem.bytes[pos as int]],
    {
        let r: [u8; 1] = [self.mem_block.read_byte(pos)];
        assert(r@ =~= seq![self@.mem.bytes[pos as int]]);
        r
    }

    /// Return the hex dump of generated code for testing.
    pub fn hexdump(&self) -> (r: String)
        requires
            self.wf(),
            self@.write_pos <= self@.mem.bytes.len(),
        ensures
            r@ == hex_text(self@.mem.bytes.take(self@.write_pos as int)),
    {
        let ghost bytes = self@.mem.bytes;
        let mut dump: String = String::new();
        let mut pos: usize = 0;
        while pos < self.write_pos
            invariant
                pos <= self.write_pos <= bytes.len(),
                bytes == self@.mem.bytes,
                dump@ == hex_text(bytes.take(pos as int)),
            decreases self.write_pos - pos,
        {
            let byte: u8 = self.mem_block.read_byte(pos);
            dump.append(text::hex_digit(byte / 16));
            dump.append(text::hex_digit(byte % 16));
            pos = pos + 1;
            proof {
                let now = bytes.take(pos as int);
                assert(now.drop_last() =~= bytes.take(pos - 1));
                assert(dump@ =~= hex_text(now));
            }
        }
        dump
    }
}

/// The memory of a stubbed code block.
pub open spec fn dummy_mem(mem_size: nat) -> MemModel {
    MemModel {
        bytes: Seq::new(mem_size, |i: int| 0u8),
        base_addr: 0,
        page_size: 4096,
        mapped_bytes: 0,
        limit: None,
        heap_bytes: 0,
        writable: true,
    }
}

/// The code block once writes are directed at the given half.
pub open spec fn outlined_set(m: CbModel, outlined: bool) -> CbModel {
    if !interleaved(m) || outlined == m.outlined {
        m
    } else {
        CbModel {
            write_pos: m.other_write_pos,
            other_write_pos: m.write_pos,
            outlined,
            ..m
        }
    }
}

/// Two hexadecimal digits per byte.
pub open spec fn hex_text(bytes: Seq<u8>) -> Seq<char>
    decreases bytes.len(),
{
    if bytes.len() == 0 {
        Seq::empty()
    } else {
        hex_text(bytes.drop_last()).push(text::hex_char(bytes.last() / 16)).push(
            text::hex_char(bytes.last() % 16),
        )
    }
}

/// Compute the number of bits needed to encode a signed value.
pub fn imm_num_bits(imm: i64) -> (r: u8)
    ensures
        r == if -0x80 <= imm <= 0x7f {
            8int
        } else if -0x8000 <= imm <= 0x7fff {
            16
        } else if -0x8000_0000 <= imm <= 0x7fff_ffff {
            32
        } else {
            64
        },
{
    // Compute the smallest size this immediate fits in
    if imm >= i8::MIN as i64 && imm <= i8::MAX as i64 {
        return 8;
    }
    if imm >= i16::MIN as i64 && imm <= i16::MAX as i64 {
        return 16;
    }
    if imm >= i32::MIN as i64 && imm <= i32::MAX as i64 {
        return 32;
    }
    64
}

/// Compute the number of bits needed to encode an unsigned value.
pub fn uimm_num_bits(uimm: u64) -> (r: u8)
    ensures
        r == if uimm <= 0xff {
            8int
        } else if uimm <= 0xffff {
            16
        } else if uimm <= 0xffff_ffff {
            32
        } else {
            64
        },
{
    // Compute the smallest size this immediate fits in
    if uimm <= u8::MAX as u64 {
        return 8;
    } else if uimm <= u16::MAX as u64 {
        return 16;
    } else if uimm <= u32::MAX as u64 {
        return 32;
    }
    64
}

} // verus!
