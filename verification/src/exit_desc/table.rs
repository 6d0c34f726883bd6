//! The table of encoded descriptors.

use vstd::prelude::*;

use crate::assembler::code_block::CodeBlock;
use crate::cruby::VALUE;
use crate::growth;
use crate::le;
use crate::stats::Counters;
use crate::virtualmem::CodePtr;
use super::codec::Decoder;
use super::encoding;
use super::encoding::{DecodedDesc, DecodedHeader, DescModel, FLAG_RECOMPILE};
use super::fields;
use super::laws;
use super::relocate;

verus! {

/// Process-wide table of exit descriptors. Append-only: descriptors live as long as the
/// code that refers to them, which is never freed.
pub struct ExitDescriptorTable {
    /// Encoded descriptors, back to back.
    pub bytes: Vec<u8>,
    /// Sorted (return address as a code offset, offset into `bytes`). Code is written at
    /// monotonically increasing addresses, so this is appended to in order and looked up
    /// with a binary search.
    pub ret_addrs: Vec<(u32, u32)>,
    /// Address of code offset 0, to turn return addresses into offsets.
    pub code_base_addr: u64,
}

/// Whether return addresses are in order, each listed once.
pub open spec fn sorted(s: Seq<(u32, u32)>) -> bool {
    forall|j: int, k: int| 0 <= j < k < s.len() ==> (#[trigger] s[j]).0 < (#[trigger] s[k]).0
}

/// Whether some entry is for `addr`.
pub open spec fn listed(s: Seq<(u32, u32)>, addr: u32) -> bool {
    exists|k: int| 0 <= k < s.len() && (#[trigger] s[k]).0 == addr
}

/// The entries as a map from return address to descriptor offset.
pub open spec fn entries(s: Seq<(u32, u32)>) -> Map<u32, u32> {
    Map::new(
        |addr: u32| listed(s, addr),
        |addr: u32| s[choose|k: int| 0 <= k < s.len() && (#[trigger] s[k]).0 == addr].1,
    )
}

/// Whether `bytes` are the encoding of some descriptor.
pub open spec fn is_descriptor(bytes: Seq<u8>) -> bool {
    exists|m: DescModel| encoding::desc_encodable(m) && bytes == #[trigger] encoding::enc_desc(m)
}

/// The entry at `k` is what the map says of its address.
pub proof fn lemma_entry(s: Seq<(u32, u32)>, k: int)
    requires
        sorted(s),
        0 <= k < s.len(),
    ensures
        entries(s).dom().contains(s[k].0),
        entries(s)[s[k].0] == s[k].1,
{
    let addr = s[k].0;
    assert(listed(s, addr));
    let j = choose|j: int| 0 <= j < s.len() && (#[trigger] s[j]).0 == addr;
    if j < k {
        assert(s[j].0 < s[k].0);
    } else if k < j {
        assert(s[k].0 < s[j].0);
    }
}

/// Replacing the offset of a listed address.
proof fn lemma_entries_update(s: Seq<(u32, u32)>, k: int, offset: u32)
    requires
        sorted(s),
        0 <= k < s.len(),
    ensures
        sorted(s.update(k, (s[k].0, offset))),
        entries(s.update(k, (s[k].0, offset))) == entries(s).insert(s[k].0, offset),
{
    let t = s.update(k, (s[k].0, offset));
    assert(sorted(t)) by {
        assert forall|i: int, j: int| 0 <= i < j < t.len() implies (#[trigger] t[i]).0 < (
        #[trigger] t[j]).0 by {
            assert(s[i].0 < s[j].0);
        }
    }
    let old_map = entries(s);
    let new_map = entries(t);
    assert forall|addr: u32| new_map.dom().contains(addr) <==> old_map.insert(
        s[k].0,
        offset,
    ).dom().contains(addr) by {
        if listed(t, addr) {
            let i = choose|i: int| 0 <= i < t.len() && (#[trigger] t[i]).0 == addr;
            assert(s[i].0 == addr);
        }
        if listed(s, addr) {
            let i = choose|i: int| 0 <= i < s.len() && (#[trigger] s[i]).0 == addr;
            assert(t[i].0 == addr);
        }
        assert(t[k].0 == s[k].0);
    }
    assert forall|addr: u32| new_map.dom().contains(addr) implies new_map[addr]
        == old_map.insert(s[k].0, offset)[addr] by {
        let i = choose|i: int| 0 <= i < t.len() && (#[trigger] t[i]).0 == addr;
        lemma_entry(t, i);
        assert(t[i].0 == s[i].0);
        lemma_entry(s, i);
        if i != k {
            if i < k {
                assert(s[i].0 < s[k].0);
            } else {
                assert(s[k].0 < s[i].0);
            }
        }
    }
    assert(new_map =~= old_map.insert(s[k].0, offset));
}

/// Adding an address that is not listed, where it belongs.
proof fn lemma_entries_insert(s: Seq<(u32, u32)>, k: int, addr: u32, offset: u32)
    requires
        sorted(s),
        0 <= k <= s.len(),
        forall|i: int| 0 <= i < k ==> (#[trigger] s[i]).0 < addr,
        forall|i: int| k <= i < s.len() ==> addr < (#[trigger] s[i]).0,
    ensures
        sorted(s.insert(k, (addr, offset))),
        entries(s.insert(k, (addr, offset))) == entries(s).insert(addr, offset),
{
    let t = s.insert(k, (addr, offset));
    assert forall|i: int| 0 <= i < t.len() implies (#[trigger] t[i]) == (if i < k {
        s[i]
    } else if i == k {
        (addr, offset)
    } else {
        s[i - 1]
    }) by {}
    assert(sorted(t));
    let old_map = entries(s);
    let new_map = entries(t);
    assert(t[k].0 == addr);
    assert forall|a: u32| new_map.dom().contains(a) <==> old_map.insert(
        addr,
        offset,
    ).dom().contains(a) by {
        if listed(t, a) && a != addr {
            let i = choose|i: int| 0 <= i < t.len() && (#[trigger] t[i]).0 == a;
            if i < k {
                assert(s[i].0 == a);
            } else {
                assert(s[i - 1].0 == a);
            }
        }
        if listed(s, a) {
            let i = choose|i: int| 0 <= i < s.len() && (#[trigger] s[i]).0 == a;
            if i < k {
                assert(t[i].0 == a);
            } else {
                assert(t[i + 1].0 == a);
            }
        }
    }
    assert forall|a: u32| new_map.dom().contains(a) implies new_map[a] == old_map.insert(
        addr,
        offset,
    )[a] by {
        let i = choose|i: int| 0 <= i < t.len() && (#[trigger] t[i]).0 == a;
        lemma_entry(t, i);
        if i < k {
            lemma_entry(s, i);
        } else if i > k {
            lemma_entry(s, i - 1);
        }
    }
    assert(new_map =~= old_map.insert(addr, offset));
}

/// Appending an encoded descriptor adds it to every run of descriptors that ends where the
/// table ended, and changes nothing that was there.
pub proof fn law_append_descriptor(bytes: Seq<u8>, pos: int, m: DescModel)
    requires
        fields::boundary(bytes, pos),
        encoding::desc_encodable(m),
        bytes.len() + encoding::enc_desc(m).len() <= usize::MAX,
    ensures
        ({
            let after = bytes + encoding::enc_desc(m);
            let end = bytes.len() as int;
            let ds = encoding::parse_descs(bytes, pos, end).unwrap();
            &&& fields::boundary(after, pos)
            &&& fields::boundary(after, after.len() as int)
            &&& encoding::parse_descs(after, pos, end) == Some(ds)
            &&& encoding::decoded_models(after, ds) == encoding::decoded_models(bytes, ds)
            &&& encoding::parse_desc(after, end) matches Some((d, e)) && {
                &&& e == after.len()
                &&& encoding::decoded_model(after, d) == m
                &&& encoding::parse_descs(after, pos, e) == Some(ds.push(d))
            }
        }),
{
    let after = bytes + encoding::enc_desc(m);
    let end = bytes.len() as int;
    lemma_prefix_kept(bytes, after, 0, pos);
    lemma_prefix_kept(bytes, after, pos, end);
    let ds = encoding::parse_descs(bytes, pos, end).unwrap();
    assert(after.subrange(end, after.len() as int) =~= encoding::enc_desc(m));
    laws::law_desc_round_trip(after, end, m);
    fields::lemma_desc_span(after, end);
    let (d, e) = encoding::parse_desc(after, end).unwrap();
    assert(encoding::parse_descs(after, e, e) == Some(Seq::<DecodedDesc>::empty()));
    assert(encoding::parse_descs(after, end, e) == Some(seq![d] + Seq::empty()));
    fields::lemma_descs_append(after, pos, end, e);
    assert(ds + (seq![d] + Seq::empty()) =~= ds.push(d));
    fields::lemma_descs_append(after, 0, pos, e);
}

/// Descriptors that lie in the common part of two byte sequences are the same in both.
pub proof fn lemma_prefix_kept(before: Seq<u8>, after: Seq<u8>, pos: int, end: int)
    requires
        0 <= pos,
        end <= before.len() <= usize::MAX,
        end <= after.len() <= usize::MAX,
        forall|i: int| pos <= i < end ==> before[i] == #[trigger] after[i],
        encoding::parse_descs(before, pos, end) is Some,
    ensures
        encoding::parse_descs(after, pos, end) == encoding::parse_descs(before, pos, end),
        encoding::parse_descs(before, pos, end) matches Some(ds) && encoding::decoded_models(
            after,
            ds,
        ) == encoding::decoded_models(before, ds),
{
    let ds = encoding::parse_descs(before, pos, end).unwrap();
    let same = |word: u64| word;
    let of = fields::objects_fields(before, ds);
    relocate::lemma_objects_fields(before, pos, end);
    assert forall|k: int| 0 <= k < of.len() implies encoding::field_word(
        after,
        #[trigger] of[k] as int,
    ) == same(encoding::field_word(before, of[k] as int)) by {
        relocate::lemma_same_word(before, after, of[k] as int);
    }
    relocate::law_update_moves_objects(before, after, pos, end, same);
    let ms = encoding::decoded_models(before, ds);
    assert forall|i: int| 0 <= i < ms.len() implies relocate::moved_desc(ms[i], same)
        == #[trigger] ms[i] by {
        assert(relocate::moved_locs(ms[i].stack, same) =~= ms[i].stack);
        assert(relocate::moved_locs(ms[i].locals, same) =~= ms[i].locals);
        if let Some(map) = ms[i].stack_map {
            assert(relocate::moved_captures(map.captures, same) =~= map.captures);
        }
    }
    assert(relocate::moved_descs(ms, same) =~= ms);
}

/// `ret_addr` as a code offset, if it is one: offsets count from `base`, modulo 2^64, and
/// have 32 bits.
pub open spec fn code_offset(ret_addr: u64, base: u64) -> Option<u32> {
    let delta = if ret_addr >= base {
        ret_addr - base
    } else {
        0x1_0000_0000_0000_0000 + ret_addr - base
    };
    if delta <= u32::MAX {
        Some(delta as u32)
    } else {
        None
    }
}

/// The counters after a descriptor of `len` bytes was registered. Its entry takes room too.
pub open spec fn count_registered(c: Counters, len: nat) -> Counters {
    Counters {
        exit_descriptor_count: c.exit_descriptor_count.wrapping_add(1),
        exit_descriptor_bytes: c.exit_descriptor_bytes.wrapping_add(len as u64).wrapping_add(
            vstd::layout::size_of::<(u32, u32)>() as u64,
        ),
        ..c
    }
}

/// Where `addr` is in `s`, or where it would go.
fn search(s: &Vec<(u32, u32)>, addr: u32) -> (r: Result<usize, usize>)
    requires
        sorted(s@),
    ensures
        r matches Ok(pos) ==> pos < s@.len() && s@[pos as int].0 == addr,
        r matches Err(pos) ==> {
            &&& pos <= s@.len()
            &&& forall|i: int| 0 <= i < pos ==> (#[trigger] s@[i]).0 < addr
            &&& forall|i: int| pos <= i < s@.len() ==> addr < (#[trigger] s@[i]).0
        },
{
    let mut lo: usize = 0;
    let mut hi: usize = s.len();
    while lo < hi
        invariant
            sorted(s@),
            lo <= hi <= s@.len(),
            forall|i: int| 0 <= i < lo ==> (#[trigger] s@[i]).0 < addr,
            forall|i: int| hi <= i < s@.len() ==> addr < (#[trigger] s@[i]).0,
        decreases hi - lo,
    {
        let mid: usize = lo + (hi - lo) / 2;
        let at: u32 = s[mid].0;
        if at == addr {
            return Ok(mid);
        } else if at < addr {
            lo = mid + 1;
        } else {
            hi = mid;
        }
    }
    Err(lo)
}

impl Default for ExitDescriptorTable {
    fn default() -> (r: Self)
        ensures
            r.wf(),
            r.bytes@ == Seq::<u8>::empty(),
            r.ret_addrs@ == Seq::<(u32, u32)>::empty(),
            r.code_base_addr == 0,
    {
        ExitDescriptorTable { bytes: Vec::new(), ret_addrs: Vec::new(), code_base_addr: 0 }
    }
}

impl ExitDescriptorTable {
    /// The bytes are whole descriptors, and each return address leads to one.
    pub open spec fn wf(self) -> bool {
        &&& self.bytes@.len() <= usize::MAX
        &&& encoding::parse_descs(self.bytes@, 0, self.bytes@.len() as int) is Some
        &&& sorted(self.ret_addrs@)
        &&& forall|k: int|
            0 <= k < self.ret_addrs@.len() ==> (#[trigger] self.ret_addrs@[k]).1 < self.bytes@.len()
                && fields::boundary(self.bytes@, self.ret_addrs@[k].1 as int)
    }

    /// Offset of the descriptor for a return address.
    pub open spec fn spec_lookup(self, ret_addr: u64) -> Option<u32> {
        match code_offset(ret_addr, self.code_base_addr) {
            Some(offset) => if entries(self.ret_addrs@).dom().contains(offset) {
                Some(entries(self.ret_addrs@)[offset])
            } else {
                None
            },
            None => None,
        }
    }

    /// Register an encoded descriptor for the return address `ret_addr`.
    pub fn register(&mut self, ret_addr: u32, encoded: &[u8], counters: &mut Counters)
        requires
            old(self).wf(),
            old(self).bytes@.len() <= u32::MAX,
            is_descriptor(encoded@),
        ensures
            final(self).wf(),
            final(self).bytes@ == old(self).bytes@ + encoded@,
            entries(final(self).ret_addrs@) == entries(old(self).ret_addrs@).insert(
                ret_addr,
                old(self).bytes@.len() as u32,
            ),
            final(self).code_base_addr == old(self).code_base_addr,
            *final(counters) == count_registered(*old(counters), encoded@.len()),
    {
        let ghost before = self.bytes@;
        let ghost s = self.ret_addrs@;
        vstd::pervasive::runtime_assert(self.bytes.len() as u64 <= u32::MAX as u64);
        let offset: u32 = self.bytes.len() as u32;
        counters.exit_descriptor_count = counters.exit_descriptor_count.wrapping_add(1);
        counters.exit_descriptor_bytes = counters.exit_descriptor_bytes.wrapping_add(
            encoded.len() as u64,
        ).wrapping_add(core::mem::size_of::<(u32, u32)>() as u64);
        growth::reserve_append_only(&mut self.bytes, encoded.len());
        self.bytes.extend_from_slice(encoded);
        growth::reserve_append_only(&mut self.ret_addrs, 1);
        let total: usize = self.bytes.len();
        proof {
            assert(self.bytes@ =~= before + encoded@);
            let m = choose|m: DescModel|
                encoding::desc_encodable(m) && encoded@ == #[trigger] encoding::enc_desc(m);
            law_append_descriptor(before, before.len() as int, m);
            law_append_descriptor(before, 0, m);
            fields::lemma_desc_span(self.bytes@, before.len() as int);
            assert forall|k: int| 0 <= k < s.len() implies fields::boundary(
                self.bytes@,
                (#[trigger] s[k]).1 as int,
            ) by {
                law_append_descriptor(before, s[k].1 as int, m);
            }
        }
        let count: usize = self.ret_addrs.len();
        if count > 0 && self.ret_addrs[count - 1].0 >= ret_addr {
            // Not expected for code in the main code block, but keep the table sorted.
            match search(&self.ret_addrs, ret_addr) {
                Ok(pos) => {
                    proof {
                        lemma_entries_update(s, pos as int, offset);
                    }
                    self.ret_addrs[pos] = (ret_addr, offset);
                },
                Err(pos) => {
                    proof {
                        lemma_entries_insert(s, pos as int, ret_addr, offset);
                    }
                    self.ret_addrs.insert(pos, (ret_addr, offset));
                },
            }
        } else {
            proof {
                lemma_entries_insert(s, s.len() as int, ret_addr, offset);
                assert(s.insert(s.len() as int, (ret_addr, offset)) =~= s.push((ret_addr, offset)));
            }
            self.ret_addrs.push((ret_addr, offset));
        }
    }

    /// Offset of the descriptor for a return address.
    pub fn lookup(&self, ret_addr: u64) -> (r: Option<u32>)
        requires
            self.wf(),
        ensures
            r == self.spec_lookup(ret_addr),
            r matches Some(pos) ==> pos < self.bytes@.len() && encoding::parse_desc(
                self.bytes@,
                pos as int,
            ) is Some,
    {
        let delta: u64 = ret_addr.wrapping_sub(self.code_base_addr);
        if delta > u32::MAX as u64 {
            return None;
        }
        match search(&self.ret_addrs, delta as u32) {
            Ok(pos) => {
                proof {
                    lemma_entry(self.ret_addrs@, pos as int);
                    assert(fields::boundary(
                        self.bytes@,
                        self.ret_addrs@[pos as int].1 as int,
                    ));
                }
                Some(self.ret_addrs[pos].1)
            },
            Err(pos) => None,
        }
    }

    /// The fields of the descriptors in `range` that hold GC-managed objects.
    pub fn each_object_field(&self, range: &std::ops::Range<u32>) -> (r: Vec<usize>)
        requires
            range.end <= self.bytes@.len(),
            encoding::parse_descs(self.bytes@, range.start as int, range.end as int) is Some,
        ensures
            encoding::parse_descs(
                self.bytes@,
                range.start as int,
                range.end as int,
            ) matches Some(ds) && r@ == fields::objects_fields(self.bytes@, ds),
    {
        let len: usize = self.bytes.len();
        let end: usize = range.end as usize;
        let ghost ds = encoding::parse_descs(
            self.bytes@,
            range.start as int,
            range.end as int,
        ).unwrap();
        let mut decoder = Decoder { bytes: self.bytes.as_slice(), pos: range.start as usize };
        let mut found: Vec<usize> = Vec::new();
        let ghost left = ds;
        while decoder.pos < end
            invariant
                end <= self.bytes@.len() == len,
                decoder.bytes@ == self.bytes@,
                encoding::parse_descs(self.bytes@, decoder.pos as int, end as int) == Some(left),
                found@ + fields::objects_fields(self.bytes@, left) == fields::objects_fields(
                    self.bytes@,
                    ds,
                ),
            decreases end - decoder.pos,
        {
            let ghost pos = decoder.pos as int;
            let ghost before = found@;
            self.visit_objects(&mut decoder, &mut found);
            proof {
                let rest = encoding::parse_descs(
                    self.bytes@,
                    decoder.pos as int,
                    end as int,
                ).unwrap();
                assert(left.skip(1) =~= rest);
                assert(found@ + fields::objects_fields(self.bytes@, rest) =~= before
                    + fields::objects_fields(self.bytes@, left));
                left = rest;
            }
        }
        assert(found@ + fields::objects_fields(self.bytes@, left) =~= found@);
        found
    }

    /// Step over one descriptor, adding its fields that hold GC-managed objects to `found`.
    fn visit_objects(&self, decoder: &mut Decoder, found: &mut Vec<usize>)
        requires
            old(decoder).bytes@ == self.bytes@,
            encoding::parse_desc(self.bytes@, old(decoder).pos as int) is Some,
        ensures
            final(decoder).bytes == old(decoder).bytes,
            encoding::parse_desc(self.bytes@, old(decoder).pos as int) matches Some((d, end)) && {
                &&& final(decoder).pos == end
                &&& final(found)@ == old(found)@ + fields::object_fields(self.bytes@, d)
            },
    {
        let len: usize = self.bytes.len();
        let ghost pos = decoder.pos as int;
        let ghost before = found@;
        proof {
            fields::lemma_header_span(self.bytes@, pos);
            fields::lemma_desc_span(self.bytes@, pos);
            fields::lemma_value_span(self.bytes@, pos);
        }
        let header: DecodedHeader = decoder.header();
        found.push(header.iseq);
        if (header.flags / FLAG_RECOMPILE) % 2 == 1 {
            if let Some(field) = header.recompile {
                found.push(field);
            }
        }
        assert(found@ =~= before + fields::header_fields(header));
        let mut values: Vec<usize> = Vec::new();
        decoder.visit_rest(&header, &mut values);
        let ghost d = encoding::parse_desc(self.bytes@, pos).unwrap().0;
        assert(values@ =~= fields::value_fields(d));
        self.keep_heap_fields(&values, found);
        assert(found@ =~= before + fields::object_fields(self.bytes@, d));
    }

    /// Add those of `values` that hold heap objects to `found`.
    fn keep_heap_fields(&self, values: &Vec<usize>, found: &mut Vec<usize>)
        requires
            forall|k: int|
                0 <= k < values@.len() ==> (#[trigger] values@[k]) + 8 <= self.bytes@.len(),
        ensures
            final(found)@ == old(found)@ + fields::heap_fields(self.bytes@, values@),
    {
        let ghost before = found@;
        let mut idx: usize = 0;
        assert(found@ =~= before + fields::heap_fields(self.bytes@, values@.take(0)));
        while idx < values.len()
            invariant
                idx <= values@.len(),
                forall|k: int|
                    0 <= k < values@.len() ==> (#[trigger] values@[k]) + 8 <= self.bytes@.len(),
                found@ == before + fields::heap_fields(self.bytes@, values@.take(idx as int)),
            decreases values@.len() - idx,
        {
            let field: usize = values[idx];
            let word: u64 = le::read_u64(self.bytes.as_slice(), field);
            if !VALUE(word).special_const_p() {
                found.push(field);
            }
            idx = idx + 1;
            proof {
                let now = values@.take(idx as int);
                assert(now.drop_last() =~= values@.take(idx - 1));
                le::lemma_le_value_bound(self.bytes@.subrange(field as int, field + 8));
                le::lemma_byte_range_8();
                assert(found@ =~= before + fields::heap_fields(self.bytes@, now));
            }
        }
        assert(values@.take(idx as int) =~= values@);
    }

    /// Byte offset the next descriptor gets. Descriptors registered while compiling one
    /// ISEQ version form a contiguous range of offsets.
    pub fn len(&self) -> (r: u32)
        ensures
            r == self.bytes@.len() as u32,
    {
        #[verifier::truncate]
        (self.bytes.len() as u32)
    }
}

/// The table offset the next descriptor gets.
pub fn next_offset(table: &ExitDescriptorTable) -> (r: u32)
    ensures
        r == table.bytes@.len() as u32,
{
    table.len()
}

/// Register an encoded descriptor for the call whose return address is `ret_addr` in `cb`.
/// Called right after the call to the exit trampoline is emitted.
///
/// Only calls in the code block that is run can reach the exit handler: that is `running`, if
/// there is one. Code assembled into another code block is never run, and its offsets would
/// alias.
pub fn register(
    table: &mut ExitDescriptorTable,
    running: Option<&CodeBlock>,
    ret_addr: CodePtr,
    cb: &CodeBlock,
    encoded: &[u8],
    counters: &mut Counters,
)
    requires
        old(table).wf(),
        old(table).bytes@.len() <= u32::MAX,
        is_descriptor(encoded@),
    ensures
        final(table).wf(),
        runs(running, cb) ==> {
            &&& final(table).bytes@ == old(table).bytes@ + encoded@
            &&& entries(final(table).ret_addrs@) == entries(old(table).ret_addrs@).insert(
                ret_addr.0,
                old(table).bytes@.len() as u32,
            )
            &&& final(table).code_base_addr == cb@.mem.base_addr
            &&& *final(counters) == count_registered(*old(counters), encoded@.len())
        },
        !runs(running, cb) ==> *final(table) == *old(table) && *final(counters) == *old(counters),
{
    let base: u64 = cb.mem_block.base_addr;
    match running {
        Some(run) => {
            if run.mem_block.base_addr != base {
                return;
            }
        },
        None => {
            return;
        },
    }
    table.code_base_addr = base;
    table.register(ret_addr.0, encoded, counters);
}

/// Whether code in `cb` is run: it is in the same region as the code that is.
pub open spec fn runs(running: Option<&CodeBlock>, cb: &CodeBlock) -> bool {
    running matches Some(run) && run@.mem.base_addr == cb@.mem.base_addr
}

/// A descriptor that was registered for a return address is the one that the return address
/// leads to, and no other return address leads elsewhere for it.
pub proof fn law_registered_is_found(
    before: ExitDescriptorTable,
    after: ExitDescriptorTable,
    offset: u32,
    m: DescModel,
    ret_addr: u64,
)
    requires
        before.wf(),
        after.wf(),
        encoding::desc_encodable(m),
        before.bytes@.len() <= u32::MAX,
        after.code_base_addr == before.code_base_addr,
        after.bytes@ == before.bytes@ + encoding::enc_desc(m),
        entries(after.ret_addrs@) == entries(before.ret_addrs@).insert(
            offset,
            before.bytes@.len() as u32,
        ),
    ensures
        code_offset(ret_addr, after.code_base_addr) == Some(offset) ==> {
            &&& after.spec_lookup(ret_addr) == Some(before.bytes@.len() as u32)
            &&& encoding::parse_desc(after.bytes@, before.bytes@.len() as int) matches Some((d, _))
                && encoding::decoded_model(after.bytes@, d) == m
        },
        code_offset(ret_addr, after.code_base_addr) != Some(offset) ==> after.spec_lookup(ret_addr)
            == before.spec_lookup(ret_addr),
{
    law_append_descriptor(before.bytes@, before.bytes@.len() as int, m);
}

} // verus!
