//! How much of what is written lands.

use vstd::prelude::*;

use crate::virtualmem;
use crate::virtualmem::MemModel;
use super::code_block;
use super::code_block::CbModel;
use super::pages;
use super::paging;

verus! {

/// Whether the byte that is `j` bytes after the write position can be written, once those before
/// it are: there is capacity for it, and its page is mapped or can be.
pub open spec fn byte_fits(m: CbModel, j: nat) -> bool {
    code_block::capacity_for(m, j + 1) && virtualmem::write_error(m.mem, m.write_pos + j) is None
}

/// What the region holds once `bytes` stand at the write position.
pub open spec fn overlaid(m: CbModel, bytes: Seq<u8>) -> Seq<u8> {
    Seq::new(
        m.mem.bytes.len(),
        |i: int|
            if m.write_pos <= i < m.write_pos + bytes.len() {
                bytes[i - m.write_pos]
            } else {
                m.mem.bytes[i]
            },
    )
}

/// Whether `after` is `m` with `bytes` written at the write position. Pages may have been mapped
/// for them.
pub open spec fn landed(m: CbModel, bytes: Seq<u8>, after: CbModel) -> bool {
    &&& after == (CbModel {
        mem: after.mem,
        write_pos: m.write_pos + bytes.len(),
        dropped_bytes: after.dropped_bytes,
        ..m
    })
    &&& after.mem == (MemModel {
        bytes: overlaid(m, bytes),
        mapped_bytes: after.mem.mapped_bytes,
        ..m.mem
    })
    &&& after.mem.mapped_bytes >= m.mem.mapped_bytes
}

/// Mapping the page of a byte does not change which bytes behind it can be written.
proof fn lemma_mapping(m: MemModel, pos: nat, byte: u8, p: nat)
    requires
        virtualmem::mem_wf(m),
        virtualmem::write_error(m, pos) is None,
        pos <= p,
    ensures
        virtualmem::write_error(virtualmem::written(m, pos, byte), p) is None
            <==> virtualmem::write_error(m, p) is None,
{
    let after = virtualmem::written(m, pos, byte);
    let end = virtualmem::page_end(pos, m.page_size);
    if pos >= m.mapped_bytes && p < end {
        let q = pos / m.page_size;
        pages::lemma_page_base(pos, m.page_size);
        assert((q + 1) * m.page_size == q * m.page_size + m.page_size) by (nonlinear_arith);
        vstd::arithmetic::div_mod::lemma_fundamental_div_mod_converse(
            p as int,
            m.page_size as int,
            q as int,
            p - q * m.page_size,
        );
        assert(virtualmem::page_end(p, m.page_size) == end);
    }
}

/// Bytes that all fit all land.
proof fn lemma_all_land(m: CbModel, bytes: Seq<u8>)
    requires
        code_block::shape_ok(m),
        code_block::writable_here(m),
        forall|j: nat| j < bytes.len() ==> #[trigger] byte_fits(m, j),
    ensures
        ({
            let after = code_block::bytes_written(m, bytes);
            &&& landed(m, bytes, after)
            &&& after.dropped_bytes == m.dropped_bytes
            &&& forall|p: nat|
                p >= m.write_pos + bytes.len() ==> (#[trigger] virtualmem::write_error(
                    after.mem,
                    p,
                ) is None <==> virtualmem::write_error(m.mem, p) is None)
            &&& code_block::capacity_for(after, 1) <==> code_block::capacity_for(
                m,
                bytes.len() + 1,
            )
        }),
    decreases bytes.len(),
{
    let after = code_block::bytes_written(m, bytes);
    if bytes.len() == 0 {
        assert(overlaid(m, bytes) =~= m.mem.bytes);
    } else {
        let init = bytes.drop_last();
        let n = init.len();
        let before = code_block::bytes_written(m, init);
        lemma_all_land(m, init);
        code_block::lemma_bytes_written(m, init);
        assert(byte_fits(m, n));
        assert(virtualmem::write_error(before.mem, before.write_pos) is None);
        assert(after.mem.bytes =~= overlaid(m, bytes));
        virtualmem::lemma_page_end(before.mem.bytes.len(), before.write_pos, before.mem.page_size);
        assert forall|p: nat| p >= m.write_pos + bytes.len() implies (
        #[trigger] virtualmem::write_error(after.mem, p) is None <==> virtualmem::write_error(
            m.mem,
            p,
        ) is None) by {
            lemma_mapping(before.mem, before.write_pos, bytes.last(), p);
            assert(virtualmem::write_error(before.mem, p) is None <==> virtualmem::write_error(
                m.mem,
                p,
            ) is None);
        }
        if code_block::interleaved(m) && m.page_bounds_check {
            pages::lemma_half_page(m.page_size, m.write_pos, m.outlined);
            paging::lemma_same_half_page(
                m.page_size,
                m.write_pos,
                after.write_pos,
                m.outlined,
            );
        }
    }
}

/// Where a byte does not fit, nothing more does.
proof fn lemma_stuck(m: CbModel, bytes: Seq<u8>)
    requires
        !byte_fits(m, 0),
    ensures
        code_block::bytes_written(m, bytes) == if bytes.len() == 0 {
            m
        } else {
            CbModel { dropped_bytes: true, ..m }
        },
    decreases bytes.len(),
{
    if bytes.len() > 0 {
        lemma_stuck(m, bytes.drop_last());
    }
}

/// Writing bytes one after the other is writing the first ones and then the others.
proof fn lemma_written_in_parts(m: CbModel, a: Seq<u8>, b: Seq<u8>)
    ensures
        code_block::bytes_written(m, a + b) == code_block::bytes_written(
            code_block::bytes_written(m, a),
            b,
        ),
    decreases b.len(),
{
    if b.len() == 0 {
        assert(a + b =~= a);
    } else {
        lemma_written_in_parts(m, a, b.drop_last());
        assert((a + b).drop_last() =~= a + b.drop_last());
        assert((a + b).last() == b.last());
    }
}

/// What is written lands up to the first byte that does not fit. That one and all behind it are
/// dropped, and the code block says so.
pub proof fn law_fitting_prefix_lands(m: CbModel, bytes: Seq<u8>, k: nat)
    requires
        code_block::shape_ok(m),
        code_block::writable_here(m),
        k <= bytes.len(),
        forall|j: nat| j < k ==> #[trigger] byte_fits(m, j),
        k < bytes.len() ==> !byte_fits(m, k),
    ensures
        landed(m, bytes.take(k as int), code_block::bytes_written(m, bytes)),
        code_block::bytes_written(m, bytes).dropped_bytes == (m.dropped_bytes || k < bytes.len()),
{
    let a = bytes.take(k as int);
    let b = bytes.skip(k as int);
    assert(a + b =~= bytes);
    lemma_written_in_parts(m, a, b);
    lemma_all_land(m, a);
    let middle = code_block::bytes_written(m, a);
    if k < bytes.len() {
        assert(virtualmem::write_error(middle.mem, middle.write_pos) is None
            <==> virtualmem::write_error(m.mem, m.write_pos + k) is None);
        assert(!byte_fits(middle, 0));
        lemma_stuck(middle, b);
    }
}

/// The first byte that does not fit, among those up to `n`.
pub proof fn first_misfit(m: CbModel, n: nat) -> (k: nat)
    requires
        !byte_fits(m, n),
    ensures
        k <= n,
        !byte_fits(m, k),
        forall|j: nat| j < k ==> #[trigger] byte_fits(m, j),
    decreases n,
{
    if exists|j: nat| j < n && !#[trigger] byte_fits(m, j) {
        let j = choose|j: nat| j < n && !#[trigger] byte_fits(m, j);
        first_misfit(m, j)
    } else {
        n
    }
}

/// What capacity promises: bytes that there is capacity for all land, if their pages can be
/// mapped, and of bytes that there is no capacity for some are dropped.
pub proof fn law_capacity_is_enough(m: CbModel, bytes: Seq<u8>)
    requires
        code_block::shape_ok(m),
        code_block::writable_here(m),
    ensures
        ({
            let after = code_block::bytes_written(m, bytes);
            &&& code_block::capacity_for(m, bytes.len()) && (forall|j: nat|
                j < bytes.len() ==> #[trigger] virtualmem::write_error(m.mem, m.write_pos + j)
                    is None) ==> landed(m, bytes, after) && after.dropped_bytes == m.dropped_bytes
            &&& bytes.len() > 0 && !code_block::capacity_for(m, bytes.len()) ==> after.dropped_bytes
                && after.write_pos < m.write_pos + bytes.len()
        }),
{
    if code_block::capacity_for(m, bytes.len()) && (forall|j: nat|
        j < bytes.len() ==> #[trigger] virtualmem::write_error(m.mem, m.write_pos + j) is None) {
        assert forall|j: nat| j < bytes.len() implies #[trigger] byte_fits(m, j) by {
            assert(virtualmem::write_error(m.mem, m.write_pos + j) is None);
        }
        lemma_all_land(m, bytes);
    }
    if bytes.len() > 0 && !code_block::capacity_for(m, bytes.len()) {
        let n = (bytes.len() - 1) as nat;
        assert(!byte_fits(m, n));
        let k = first_misfit(m, n);
        law_fitting_prefix_lands(m, bytes, k);
    }
}

} // verus!
