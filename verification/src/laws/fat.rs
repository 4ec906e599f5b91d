//! Laws of signing a fat binary.

use crate::bytes;
use crate::error::ErrorView;
use crate::laws::{reparse, signing, superblob};
use crate::layout;
use crate::macho;
use crate::macho::MachOKind;
use crate::options::OptionsView;
use crate::sign;
use crate::sign::FatArch;
use crate::verify;
use crate::verify::SignatureInfoView;
use vstd::arithmetic::power2;
use vstd::prelude::*;

verus! {

/// The entries of a fat binary are those that its header holds.
proof fn lemma_arches(data: Seq<u8>, i: nat, count: nat, before: Seq<FatArch>)
    requires
        i <= count,
        sign::fat_arches(data, i, count, before) is Ok,
    ensures
        ({
            let arches = sign::fat_arches(data, i, count, before)->Ok_0;
            &&& arches.len() == before.len() + count - i
            &&& forall|k: int| 0 <= k < before.len() ==> #[trigger] arches[k] == before[k]
            &&& forall|k: int|
                i <= k < count ==> #[trigger] sign::fat_arch(data, k) == Ok::<FatArch, ErrorView>(
                    arches[before.len() + k - i],
                )
        }),
    decreases count - i,
{
    if i < count {
        let arch = sign::fat_arch(data, i as int)->Ok_0;
        lemma_arches(data, i + 1, count, before.push(arch));
        let arches = sign::fat_arches(data, i, count, before)->Ok_0;
        assert(arches[before.len() as int] == before.push(arch)[before.len() as int]);
        assert forall|k: int| 0 <= k < before.len() implies #[trigger] arches[k] == before[k] by {
            assert(arches[k] == before.push(arch)[k]);
        }
    }
}

/// Every slice is signed by itself.
proof fn lemma_slices(
    data: Seq<u8>,
    arches: Seq<FatArch>,
    i: nat,
    options: OptionsView,
    before: Seq<Seq<u8>>,
)
    requires
        i <= arches.len(),
        before.len() == i,
        sign::signed_slices(data, arches, i, options, before) is Ok,
    ensures
        ({
            let signed = sign::signed_slices(data, arches, i, options, before)->Ok_0;
            &&& signed.len() == arches.len()
            &&& forall|k: int| 0 <= k < i ==> #[trigger] signed[k] == before[k]
            &&& forall|k: int|
                i <= k < arches.len() ==> sign::signed_thin(
                    sign::fat_slice(data, arches[k]),
                    options,
                ) == Ok::<Seq<u8>, ErrorView>(#[trigger] signed[k])
        }),
    decreases arches.len() - i,
{
    if i < arches.len() {
        let one = sign::signed_thin(sign::fat_slice(data, arches[i as int]), options)->Ok_0;
        lemma_slices(data, arches, i + 1, options, before.push(one));
        let signed = sign::signed_slices(data, arches, i, options, before)->Ok_0;
        assert(signed[i as int] == before.push(one)[i as int]);
        assert forall|k: int| 0 <= k < i implies #[trigger] signed[k] == before[k] by {
            assert(signed[k] == before.push(one)[k]);
        }
    }
}

/// Where the slice before the one with the given number ends; for the first
/// slice, where the header ends.
pub open spec fn end_before(
    arches: Seq<FatArch>,
    signed: Seq<Seq<u8>>,
    offsets: Seq<u64>,
    i: int,
) -> int {
    if i == 0 {
        8 + arches.len() as int * 20
    } else {
        offsets[i - 1] + signed[i - 1].len()
    }
}

/// Slices do not overlap, are aligned, leave no more room between them than
/// that takes, and end within 4 GiB.
pub open spec fn placed(arches: Seq<FatArch>, signed: Seq<Seq<u8>>, offsets: Seq<u64>) -> bool {
    &&& offsets.len() == arches.len()
    &&& signed.len() == arches.len()
    &&& forall|i: int|
        #![trigger offsets[i]]
        0 <= i < arches.len() ==> {
            &&& end_before(arches, signed, offsets, i) <= offsets[i]
            &&& offsets[i] < end_before(arches, signed, offsets, i) + power2::pow2(
                arches[i].align as nat,
            )
            &&& offsets[i] as int % power2::pow2(arches[i].align as nat) as int == 0
            &&& offsets[i] + signed[i].len() <= u32::MAX
        }
}

proof fn lemma_offsets(
    arches: Seq<FatArch>,
    signed: Seq<Seq<u8>>,
    i: nat,
    cursor: int,
    before: Seq<u64>,
)
    requires
        i <= arches.len(),
        before.len() == i,
        signed.len() == arches.len(),
        cursor == end_before(arches, signed, before, i as int),
        0 <= cursor,
        forall|k: int|
            #![trigger before[k]]
            0 <= k < i ==> {
                &&& end_before(arches, signed, before, k) <= before[k]
                &&& before[k] < end_before(arches, signed, before, k) + power2::pow2(
                    arches[k].align as nat,
                )
                &&& before[k] as int % power2::pow2(arches[k].align as nat) as int == 0
                &&& before[k] + signed[k].len() <= u32::MAX
            },
        sign::slice_offsets(arches, signed, i, cursor, before) is Ok,
    ensures
        placed(arches, signed, sign::slice_offsets(arches, signed, i, cursor, before)->Ok_0),
    decreases arches.len() - i,
{
    if i < arches.len() {
        let step = power2::pow2(arches[i as int].align as nat) as int;
        power2::lemma_pow2_pos(arches[i as int].align as nat);
        let offset = bytes::round_up(cursor, step);
        bytes::lemma_round_up(cursor, step);
        let next = before.push(offset as u64);
        assert forall|k: int| #![trigger next[k]] 0 <= k < i + 1 implies {
            &&& end_before(arches, signed, next, k) <= next[k]
            &&& next[k] < end_before(arches, signed, next, k) + power2::pow2(
                arches[k].align as nat,
            )
            &&& next[k] as int % power2::pow2(arches[k].align as nat) as int == 0
            &&& next[k] + signed[k].len() <= u32::MAX
        } by {
            if k < i {
                assert(next[k] == before[k]);
                assert(end_before(arches, signed, next, k) == end_before(
                    arches,
                    signed,
                    before,
                    k,
                ));
            } else {
                assert(end_before(arches, signed, next, k) == cursor);
            }
        }
        lemma_offsets(arches, signed, i + 1, offset + signed[i as int].len(), next);
    }
}

/// An entry of the header is five integers.
proof fn lemma_entry(arch: FatArch, signed: Seq<u8>, offset: u64)
    requires
        offset + signed.len() <= u32::MAX,
    ensures
        ({
            let entry = sign::fat_entry(arch, signed, offset);
            &&& entry.len() == 20
            &&& bytes::u32_at(entry, 0, false) == arch.cputype
            &&& bytes::u32_at(entry, 4, false) == arch.cpusubtype
            &&& bytes::u32_at(entry, 8, false) == offset
            &&& bytes::u32_at(entry, 12, false) == signed.len()
            &&& bytes::u32_at(entry, 16, false) == arch.align
        }),
{
    let a = layout::be(arch.cputype as int);
    let b = a + layout::be(arch.cpusubtype as int);
    let c = b + layout::be(offset as int);
    let d = c + layout::be(signed.len() as int);
    superblob::lemma_first_word(arch.cputype as int);
    superblob::lemma_append_word(a, arch.cpusubtype as int);
    superblob::lemma_append_word(b, offset as int);
    superblob::lemma_append_word(c, signed.len() as int);
    superblob::lemma_append_word(d, arch.align as int);
}

/// The entry with the given number in the header of a fat binary.
pub open spec fn entry_in(header: Seq<u8>, i: int) -> FatArch {
    FatArch {
        cputype: bytes::u32_at(header, 8 + i * 20, false),
        cpusubtype: bytes::u32_at(header, 8 + i * 20 + 4, false),
        offset: bytes::u32_at(header, 8 + i * 20 + 8, false),
        size: bytes::u32_at(header, 8 + i * 20 + 12, false),
        align: bytes::u32_at(header, 8 + i * 20 + 16, false),
    }
}

/// The entry of a slice at its new place.
pub open spec fn moved(arch: FatArch, signed: Seq<u8>, offset: u64) -> FatArch {
    FatArch { offset: offset as u32, size: signed.len() as u32, ..arch }
}

/// The header holds the magic number, the count and the entries.
proof fn lemma_header(arches: Seq<FatArch>, signed: Seq<Seq<u8>>, offsets: Seq<u64>, count: nat)
    requires
        placed(arches, signed, offsets),
        count <= arches.len() <= u32::MAX,
    ensures
        ({
            let header = sign::fat_header(arches, signed, offsets, count);
            &&& header.len() == 8 + count * 20
            &&& header.take(8) == layout::be(macho::FAT_MAGIC as int) + layout::be(
                arches.len() as int,
            )
            &&& forall|i: int|
                #![trigger offsets[i]]
                0 <= i < count ==> entry_in(header, i) == moved(arches[i], signed[i], offsets[i])
        }),
    decreases count,
{
    let header = sign::fat_header(arches, signed, offsets, count);
    if count == 0 {
        superblob::lemma_first_word(macho::FAT_MAGIC as int);
        superblob::lemma_append_word(layout::be(macho::FAT_MAGIC as int), arches.len() as int);
        assert(header.take(8) =~= header);
    } else {
        let last = count - 1;
        let before = sign::fat_header(arches, signed, offsets, last as nat);
        lemma_header(arches, signed, offsets, last as nat);
        assert(offsets[last] + signed[last].len() <= u32::MAX);
        let entry = sign::fat_entry(arches[last], signed[last], offsets[last]);
        lemma_entry(arches[last], signed[last], offsets[last]);
        superblob::lemma_seam(before, entry);
        assert(header.take(8) =~= before.take(8));
        assert forall|i: int| #![trigger offsets[i]] 0 <= i < count implies entry_in(header, i)
            == moved(arches[i], signed[i], offsets[i]) by {
            if i == last {
                let at = before.len() as int;
                assert(bytes::u32_at(header, at + 0, false) == bytes::u32_at(entry, 0, false));
                assert(bytes::u32_at(header, at + 4, false) == bytes::u32_at(entry, 4, false));
                assert(bytes::u32_at(header, at + 8, false) == bytes::u32_at(entry, 8, false));
                assert(bytes::u32_at(header, at + 12, false) == bytes::u32_at(entry, 12, false));
                assert(bytes::u32_at(header, at + 16, false) == bytes::u32_at(entry, 16, false));
            } else {
                assert(entry_in(header, i) == entry_in(before, i));
            }
        }
    }
}

/// The container holds the header and the slices at their offsets.
#[verifier::rlimit(30)]
proof fn lemma_container(
    arches: Seq<FatArch>,
    signed: Seq<Seq<u8>>,
    offsets: Seq<u64>,
    count: nat,
)
    requires
        placed(arches, signed, offsets),
        count <= arches.len() <= u32::MAX,
    ensures
        ({
            let out = sign::fat_container(arches, signed, offsets, count);
            let header = sign::fat_header(arches, signed, offsets, arches.len());
            &&& out.len() == end_before(arches, signed, offsets, count as int)
            &&& header.len() <= out.len()
            &&& out.take(header.len() as int) == header
            &&& forall|i: int|
                #![trigger offsets[i]]
                0 <= i < count ==> offsets[i] + signed[i].len() <= out.len() && out.subrange(
                    offsets[i] as int,
                    offsets[i] + signed[i].len(),
                ) == signed[i]
        }),
    decreases count,
{
    let out = sign::fat_container(arches, signed, offsets, count);
    let header = sign::fat_header(arches, signed, offsets, arches.len());
    assert(header.len() == 8 + arches.len() * 20) by {
        lemma_header(arches, signed, offsets, arches.len());
    }
    if count == 0 {
        assert(out.take(header.len() as int) =~= header);
    } else {
        let last = count - 1;
        lemma_container(arches, signed, offsets, last as nat);
        let before = sign::fat_container(arches, signed, offsets, last as nat);
        assert(before.len() <= offsets[last]);
        lemma_extended(before, offsets[last] as nat, signed[last]);
        assert(out.take(header.len() as int) =~= before.take(header.len() as int));
        assert forall|i: int| #![trigger offsets[i]] 0 <= i < count implies offsets[i]
            + signed[i].len() <= out.len() && out.subrange(
            offsets[i] as int,
            offsets[i] + signed[i].len(),
        ) == signed[i] by {
            if i < last {
                let end = offsets[i] + signed[i].len();
                assert(end <= before.len());
                assert(out.subrange(offsets[i] as int, end) =~= before.subrange(
                    offsets[i] as int,
                    end,
                ));
            }
        }
    }
}

/// The container holds zeros between the slices.
#[verifier::rlimit(30)]
proof fn lemma_gaps(arches: Seq<FatArch>, signed: Seq<Seq<u8>>, offsets: Seq<u64>, count: nat)
    requires
        placed(arches, signed, offsets),
        count <= arches.len() <= u32::MAX,
    ensures
        forall|i: int|
            #![trigger offsets[i]]
            0 <= i < count ==> bytes::all_zero(
                sign::fat_container(arches, signed, offsets, count),
                end_before(arches, signed, offsets, i),
                offsets[i] as int,
            ),
    decreases count,
{
    if count > 0 {
        let out = sign::fat_container(arches, signed, offsets, count);
        let last = count - 1;
        let before = sign::fat_container(arches, signed, offsets, last as nat);
        lemma_gaps(arches, signed, offsets, last as nat);
        lemma_container(arches, signed, offsets, last as nat);
        assert(before.len() <= offsets[last]);
        lemma_extended(before, offsets[last] as nat, signed[last]);
        assert forall|i: int| #![trigger offsets[i]] 0 <= i < count implies bytes::all_zero(
            out,
            end_before(arches, signed, offsets, i),
            offsets[i] as int,
        ) by {
            let start = end_before(arches, signed, offsets, i);
            if i < last {
                assert(offsets[i] + signed[i].len() <= before.len());
                assert(0 <= start);
                assert forall|k: int| start <= k < offsets[i] implies #[trigger] out[k] == 0 by {
                    assert(before[k] == 0);
                }
            }
        }
    }
}

/// A slice that is put at an offset leaves what comes before it alone, but
/// for zeros up to the offset.
proof fn lemma_extended(before: Seq<u8>, offset: nat, slice: Seq<u8>)
    requires
        before.len() <= offset,
    ensures
        ({
            let out = bytes::resized(before, offset) + slice;
            &&& out.len() == offset + slice.len()
            &&& forall|k: int| 0 <= k < before.len() ==> #[trigger] out[k] == before[k]
            &&& bytes::all_zero(out, before.len() as int, offset as int)
            &&& out.subrange(offset as int, offset + slice.len() as int) == slice
        }),
{
    let out = bytes::resized(before, offset) + slice;
    assert(out.subrange(offset as int, offset + slice.len() as int) =~= slice);
}

/// The slices of a fat binary that can be signed.
pub open spec fn slices(data: Seq<u8>) -> Seq<FatArch> {
    sign::fat_layout(data)->Ok_0
}

/// The signed slices of a fat binary that can be signed.
pub open spec fn signed_parts(data: Seq<u8>, options: OptionsView) -> Seq<Seq<u8>> {
    sign::signed_slices(data, slices(data), 0, options, Seq::empty())->Ok_0
}

/// The bytes at the start of a fat binary.
proof fn lemma_fat_magic(data: Seq<u8>, count: nat)
    requires
        count <= u32::MAX,
        data.len() >= 8,
        data.take(8) == layout::be(macho::FAT_MAGIC as int) + layout::be(count as int),
    ensures
        macho::kind_of(data) == Some(MachOKind::Fat),
        bytes::u32_at(data, 4, false) == count,
{
    let head = data.take(8);
    superblob::lemma_first_word(macho::FAT_MAGIC as int);
    superblob::lemma_append_word(layout::be(macho::FAT_MAGIC as int), count as int);
    superblob::lemma_head(data, head);
    let magic = layout::be(macho::FAT_MAGIC as int);
    assert(magic[0] == 0xca && magic[1] == 0xfe && magic[2] == 0xba && magic[3] == 0xbe);
    assert(data[0] == head[0] && data[1] == head[1] && data[2] == head[2] && data[3] == head[3]);
}

/// A fat binary starts with its magic number and its count.
proof fn lemma_same_head(data: Seq<u8>, count: nat)
    requires
        macho::kind_of(data) == Some(MachOKind::Fat),
        data.len() >= 8,
        count == bytes::u32_at(data, 4, false),
    ensures
        data.take(8) == layout::be(macho::FAT_MAGIC as int) + layout::be(count as int),
{
    bytes::lemma_split4(data[7], data[6], data[5], data[4]);
    let magic = layout::be(macho::FAT_MAGIC as int);
    assert(magic[0] == 0xca && magic[1] == 0xfe && magic[2] == 0xba && magic[3] == 0xbe);
    assert(layout::be(count as int) =~= data.subrange(4, 8));
    assert(data.take(4) =~= magic);
    assert(data.take(8) =~= data.take(4) + data.subrange(4, 8));
}

/// Where the slice before the one with the given number ends in a fat binary;
/// for the first slice, where the header ends.
pub open spec fn end_in(out: Seq<u8>, i: int) -> int {
    if i == 0 {
        8 + bytes::u32_at(out, 4, false) * 20
    } else {
        entry_in(out, i - 1).offset + entry_in(out, i - 1).size
    }
}

/// The slices of a signed fat binary leave no room but for their alignment.
proof fn lemma_packed(data: Seq<u8>, options: OptionsView, out: Seq<u8>)
    requires
        macho::kind_of(data) == Some(MachOKind::Fat),
        sign::signed(data, options) == Ok::<Seq<u8>, ErrorView>(out),
    ensures
        ({
            let count = bytes::u32_at(data, 4, false) as int;
            &&& data.len() >= 8
            &&& out.len() == end_in(out, count)
            &&& out.take(8) == data.take(8)
            &&& forall|i: int|
                #![trigger entry_in(out, i)]
                0 <= i < count ==> {
                    let entry = entry_in(out, i);
                    let step = power2::pow2(entry.align as nat) as int;
                    &&& end_in(out, i) <= entry.offset
                    &&& entry.offset < end_in(out, i) + step
                    &&& entry.offset as int % step == 0
                    &&& bytes::all_zero(out, end_in(out, i), entry.offset as int)
                }
        }),
{
    let arches = slices(data);
    let count = bytes::u32_at(data, 4, false) as nat;
    let signed = signed_parts(data, options);
    let offsets = sign::slice_offsets(
        arches,
        signed,
        0,
        8 + arches.len() as int * 20,
        Seq::empty(),
    )->Ok_0;
    lemma_arches(data, 0, count, Seq::empty());
    lemma_slices(data, arches, 0, options, Seq::empty());
    lemma_offsets(arches, signed, 0, 8 + arches.len() as int * 20, Seq::empty());
    let header = sign::fat_header(arches, signed, offsets, count);
    lemma_header(arches, signed, offsets, count);
    lemma_container(arches, signed, offsets, count);
    lemma_gaps(arches, signed, offsets, count);
    superblob::lemma_head(out, header);
    assert(out.take(8) =~= header.take(8));
    lemma_fat_magic(out, count);
    assert forall|i: int| 0 <= i < count implies #[trigger] entry_in(out, i) == moved(
        arches[i],
        signed[i],
        offsets[i],
    ) by {
        assert(entry_in(out, i) == entry_in(header, i));
    }
    assert forall|i: int| 0 <= i <= count implies #[trigger] end_in(out, i) == end_before(
        arches,
        signed,
        offsets,
        i,
    ) by {
        if i > 0 {
            assert(entry_in(out, i - 1) == moved(arches[i - 1], signed[i - 1], offsets[i - 1]));
        }
    }
    assert forall|i: int| #![trigger entry_in(out, i)] 0 <= i < count implies {
        let entry = entry_in(out, i);
        let step = power2::pow2(entry.align as nat) as int;
        &&& end_in(out, i) <= entry.offset
        &&& entry.offset < end_in(out, i) + step
        &&& entry.offset as int % step == 0
        &&& bytes::all_zero(out, end_in(out, i), entry.offset as int)
    } by {
        assert(end_in(out, i) == end_before(arches, signed, offsets, i));
        assert(entry_in(out, i).offset == offsets[i]);
    }
    lemma_same_head(data, count);
    assert(out.take(8) =~= data.take(8));
}

/// A signed fat binary is a fat binary with the same magic number and the same
/// number of slices. Each slice is what signing it by itself gives, for the
/// same architecture and aligned as before. It starts at the first offset that
/// is aligned so and not before the end of what precedes it, with zeros up to
/// there, and the last slice ends the binary.
#[verifier::spinoff_prover]
#[verifier::rlimit(50)]
pub proof fn law_slices_are_signed(data: Seq<u8>, options: OptionsView, out: Seq<u8>)
    requires
        macho::kind_of(data) == Some(MachOKind::Fat),
        sign::signed(data, options) == Ok::<Seq<u8>, ErrorView>(out),
    ensures
        ({
            let arches = slices(data);
            let signed = signed_parts(data, options);
            &&& macho::kind_of(out) == Some(MachOKind::Fat)
            &&& data.len() >= 8
            &&& out.take(8) == data.take(8)
            &&& out.len() == end_in(out, arches.len() as int)
            &&& bytes::u32_at(out, 4, false) == arches.len()
            &&& arches.len() == bytes::u32_at(data, 4, false)
            &&& signed.len() == arches.len()
            &&& 8 + arches.len() * 20 <= out.len()
            &&& forall|i: int|
                #![trigger signed[i]]
                0 <= i < arches.len() ==> {
                    let offset = bytes::u32_at(out, 8 + i * 20 + 8, false);
                    let size = bytes::u32_at(out, 8 + i * 20 + 12, false);
                    &&& sign::fat_arch(data, i) == Ok::<FatArch, ErrorView>(arches[i])
                    &&& sign::signed_thin(sign::fat_slice(data, arches[i]), options) == Ok::<
                        Seq<u8>,
                        ErrorView,
                    >(signed[i])
                    &&& entry_in(out, i) == moved(arches[i], signed[i], offset as u64)
                    &&& end_in(out, i) <= offset
                    &&& offset < end_in(out, i) + power2::pow2(arches[i].align as nat)
                    &&& offset as int % power2::pow2(arches[i].align as nat) as int == 0
                    &&& bytes::all_zero(out, end_in(out, i), offset as int)
                    &&& size == signed[i].len()
                    &&& offset + size <= out.len()
                    &&& out.subrange(offset as int, offset + size) == signed[i]
                }
        }),
{
    let arches = slices(data);
    let count = bytes::u32_at(data, 4, false) as nat;
    let signed = signed_parts(data, options);
    let offsets = sign::slice_offsets(
        arches,
        signed,
        0,
        8 + arches.len() as int * 20,
        Seq::empty(),
    )->Ok_0;
    lemma_arches(data, 0, count, Seq::empty());
    lemma_slices(data, arches, 0, options, Seq::empty());
    lemma_offsets(arches, signed, 0, 8 + arches.len() as int * 20, Seq::empty());
    let header = sign::fat_header(arches, signed, offsets, arches.len());
    lemma_header(arches, signed, offsets, arches.len());
    lemma_container(arches, signed, offsets, arches.len());
    superblob::lemma_head(out, header);
    assert(out.take(8) =~= header.take(8));
    lemma_fat_magic(out, arches.len());
    lemma_packed(data, options, out);
    assert forall|i: int| #![trigger signed[i]] 0 <= i < arches.len() implies {
        let offset = bytes::u32_at(out, 8 + i * 20 + 8, false);
        let size = bytes::u32_at(out, 8 + i * 20 + 12, false);
        &&& sign::fat_arch(data, i) == Ok::<FatArch, ErrorView>(arches[i])
        &&& sign::signed_thin(sign::fat_slice(data, arches[i]), options) == Ok::<
            Seq<u8>,
            ErrorView,
        >(signed[i])
        &&& entry_in(out, i) == moved(arches[i], signed[i], offset as u64)
        &&& end_in(out, i) <= offset
        &&& offset < end_in(out, i) + power2::pow2(arches[i].align as nat)
        &&& offset as int % power2::pow2(arches[i].align as nat) as int == 0
        &&& bytes::all_zero(out, end_in(out, i), offset as int)
        &&& size == signed[i].len()
        &&& offset + size <= out.len()
        &&& out.subrange(offset as int, offset + size) == signed[i]
    } by {
        assert(entry_in(out, i) == entry_in(header, i));
        assert(entry_in(header, i) == moved(arches[i], signed[i], offsets[i]));
        assert(sign::fat_arch(data, i) == Ok::<FatArch, ErrorView>(arches[i]));
    }
}

/// Slices that verify together verify one by one.
proof fn lemma_each_verifies(
    data: Seq<u8>,
    i: nat,
    count: nat,
    before: Seq<SignatureInfoView>,
    reports: Seq<SignatureInfoView>,
)
    requires
        i <= count,
        before.len() == i,
        verify::verified_slices(data, i, count, before) == Ok::<
            Seq<SignatureInfoView>,
            ErrorView,
        >(reports),
    ensures
        reports.len() == count,
        before == reports.take(i as int),
        forall|k: int|
            i <= k < count ==> #[trigger] verify::verified_slice(data, k) == Ok::<
                SignatureInfoView,
                ErrorView,
            >(reports[k]),
    decreases count - i,
{
    if i < count {
        let report = verify::verified_slice(data, i as int)->Ok_0;
        let next = before.push(report);
        lemma_each_verifies(data, i + 1, count, next, reports);
        assert(next[i as int] == reports.take(i as int + 1)[i as int]);
        assert(before =~= reports.take(i as int)) by {
            assert forall|k: int| 0 <= k < i implies before[k] == reports[k] by {
                assert(next[k] == reports.take(i as int + 1)[k]);
            }
        }
    } else {
        assert(reports =~= reports.take(i as int));
    }
}

/// Whether the slice with the given number of a fat binary, by itself,
/// verifies with the given report.
pub open spec fn slice_reports(data: Seq<u8>, i: int, report: SignatureInfoView) -> bool {
    let offset = bytes::u32_at(data, 8 + i * 20 + 8, false) as int;
    let size = bytes::u32_at(data, 8 + i * 20 + 12, false) as int;
    &&& offset + size <= data.len()
    &&& verify::verified_thin(data.subrange(offset, offset + size)) == Ok::<
        SignatureInfoView,
        ErrorView,
    >(report)
}

proof fn lemma_slice_reports(data: Seq<u8>, i: int, report: SignatureInfoView)
    requires
        verify::verified_slice(data, i) == Ok::<SignatureInfoView, ErrorView>(report),
    ensures
        slice_reports(data, i, report),
{
}

/// Verification of a fat binary reports on every slice what verification of
/// the slice by itself reports.
pub proof fn law_every_slice_is_reported(data: Seq<u8>, reports: Seq<SignatureInfoView>)
    requires
        macho::kind_of(data) == Some(MachOKind::Fat),
        verify::verified(data) == Ok::<Seq<SignatureInfoView>, ErrorView>(reports),
    ensures
        reports.len() == bytes::u32_at(data, 4, false),
        forall|i: int|
            0 <= i < reports.len() ==> slice_reports(data, i, #[trigger] reports[i]),
{
    let count = bytes::u32_at(data, 4, false) as nat;
    lemma_each_verifies(data, 0, count, Seq::empty(), reports);
    assert forall|i: int| 0 <= i < reports.len() implies slice_reports(
        data,
        i,
        #[trigger] reports[i],
    ) by {
        assert(verify::verified_slice(data, i) == Ok::<SignatureInfoView, ErrorView>(reports[i]));
        lemma_slice_reports(data, i, reports[i]);
    }
}

/// Slices that verify one by one verify together.
proof fn lemma_all_verify(
    data: Seq<u8>,
    i: nat,
    before: Seq<SignatureInfoView>,
    reports: Seq<SignatureInfoView>,
)
    requires
        i <= reports.len(),
        before == reports.take(i as int),
        forall|k: int|
            0 <= k < reports.len() ==> #[trigger] verify::verified_slice(data, k) == Ok::<
                SignatureInfoView,
                ErrorView,
            >(reports[k]),
    ensures
        verify::verified_slices(data, i, reports.len(), before) == Ok::<
            Seq<SignatureInfoView>,
            ErrorView,
        >(reports),
    decreases reports.len() - i,
{
    if i < reports.len() {
        assert(verify::verified_slice(data, i as int) == Ok::<SignatureInfoView, ErrorView>(
            reports[i as int],
        ));
        assert(before.push(reports[i as int]) =~= reports.take(i as int + 1));
        lemma_all_verify(data, i + 1, before.push(reports[i as int]), reports);
    } else {
        assert(before =~= reports);
    }
}

/// A fat binary that was signed passes verification, with one report for each
/// slice: that of the slice signed by itself.
pub proof fn law_signed_fat_binary_verifies(data: Seq<u8>, options: OptionsView, out: Seq<u8>)
    requires
        macho::kind_of(data) == Some(MachOKind::Fat),
        sign::signed(data, options) == Ok::<Seq<u8>, ErrorView>(out),
        forall|i: int|
            0 <= i < slices(data).len() ==> reparse::regular(
                #[trigger] sign::fat_slice(data, slices(data)[i]),
            ),
    ensures
        ({
            let signed = signed_parts(data, options);
            let reports = Seq::new(
                signed.len(),
                |i: int| verify::verified_thin(signed[i])->Ok_0,
            );
            &&& verify::verified(out) == Ok::<Seq<SignatureInfoView>, ErrorView>(reports)
            &&& reports.len() == bytes::u32_at(data, 4, false)
            &&& forall|i: int|
                0 <= i < signed.len() ==> verify::verified_thin(#[trigger] signed[i]) is Ok
        }),
{
    law_slices_are_signed(data, options, out);
    let arches = slices(data);
    let signed = signed_parts(data, options);
    let reports = Seq::new(signed.len(), |i: int| verify::verified_thin(signed[i])->Ok_0);
    assert forall|i: int| 0 <= i < signed.len() implies verify::verified_thin(
        #[trigger] signed[i],
    ) is Ok && verify::verified_slice(out, i) == Ok::<SignatureInfoView, ErrorView>(reports[i]) by {
        let slice = sign::fat_slice(data, arches[i]);
        signing::lemma_parts(slice, options, signed[i]);
        macho::lemma_load_info(slice, signing::record(slice));
        signing::law_signed_binary_verifies(slice, options, signed[i]);
    }
    assert forall|k: int| 0 <= k < reports.len() implies #[trigger] verify::verified_slice(out, k)
        == Ok::<SignatureInfoView, ErrorView>(reports[k]) by {
        assert(verify::verified_thin(signed[k]) is Ok);
    }
    assert(reports.take(0) =~= Seq::empty());
    lemma_all_verify(out, 0, Seq::empty(), reports);
}

/// Entries that can be read one by one can be read together.
proof fn lemma_arches_again(data: Seq<u8>, i: nat, arches: Seq<FatArch>)
    requires
        i <= arches.len(),
        forall|k: int|
            0 <= k < arches.len() ==> #[trigger] sign::fat_arch(data, k) == Ok::<
                FatArch,
                ErrorView,
            >(arches[k]),
    ensures
        sign::fat_arches(data, i, arches.len(), arches.take(i as int)) == Ok::<
            Seq<FatArch>,
            ErrorView,
        >(arches),
    decreases arches.len() - i,
{
    if i < arches.len() {
        assert(sign::fat_arch(data, i as int) == Ok::<FatArch, ErrorView>(arches[i as int]));
        assert(arches.take(i as int).push(arches[i as int]) =~= arches.take(i as int + 1));
        lemma_arches_again(data, i + 1, arches);
    } else {
        assert(arches.take(i as int) =~= arches);
    }
}

/// Slices that can be signed one by one can be signed together.
proof fn lemma_slices_again(
    data: Seq<u8>,
    arches: Seq<FatArch>,
    i: nat,
    options: OptionsView,
    signed: Seq<Seq<u8>>,
)
    requires
        i <= arches.len(),
        signed.len() == arches.len(),
        forall|k: int|
            0 <= k < arches.len() ==> sign::signed_thin(
                sign::fat_slice(data, arches[k]),
                options,
            ) == Ok::<Seq<u8>, ErrorView>(#[trigger] signed[k]),
    ensures
        sign::signed_slices(data, arches, i, options, signed.take(i as int)) == Ok::<
            Seq<Seq<u8>>,
            ErrorView,
        >(signed),
    decreases arches.len() - i,
{
    if i < arches.len() {
        assert(sign::signed_thin(sign::fat_slice(data, arches[i as int]), options) == Ok::<
            Seq<u8>,
            ErrorView,
        >(signed[i as int]));
        assert(signed.take(i as int).push(signed[i as int]) =~= signed.take(i as int + 1));
        lemma_slices_again(data, arches, i + 1, options, signed);
    } else {
        assert(signed.take(i as int) =~= signed);
    }
}

/// Two lists of entries that agree but for offsets and sizes.
spec fn same_slices(a: Seq<FatArch>, b: Seq<FatArch>) -> bool {
    &&& a.len() == b.len()
    &&& forall|k: int|
        0 <= k < a.len() ==> {
            &&& (#[trigger] a[k]).cputype == b[k].cputype
            &&& a[k].cpusubtype == b[k].cpusubtype
            &&& a[k].align == b[k].align
        }
}

proof fn lemma_offsets_again(
    a: Seq<FatArch>,
    b: Seq<FatArch>,
    signed: Seq<Seq<u8>>,
    i: nat,
    cursor: int,
    before: Seq<u64>,
)
    requires
        same_slices(a, b),
        i <= a.len(),
    ensures
        sign::slice_offsets(a, signed, i, cursor, before) == sign::slice_offsets(
            b,
            signed,
            i,
            cursor,
            before,
        ),
    decreases a.len() - i,
{
    if i < a.len() {
        assert(a[i as int].align == b[i as int].align);
        let offset = bytes::round_up(cursor, power2::pow2(a[i as int].align as nat) as int);
        lemma_offsets_again(
            a,
            b,
            signed,
            i + 1,
            offset + signed[i as int].len(),
            before.push(offset as u64),
        );
    }
}

proof fn lemma_header_again(
    a: Seq<FatArch>,
    b: Seq<FatArch>,
    signed: Seq<Seq<u8>>,
    offsets: Seq<u64>,
    count: nat,
)
    requires
        same_slices(a, b),
        count <= a.len(),
    ensures
        sign::fat_header(a, signed, offsets, count) == sign::fat_header(
            b,
            signed,
            offsets,
            count,
        ),
    decreases count,
{
    if count > 0 {
        assert(a[count - 1].align == b[count - 1].align);
        lemma_header_again(a, b, signed, offsets, (count - 1) as nat);
    }
}

proof fn lemma_container_again(
    a: Seq<FatArch>,
    b: Seq<FatArch>,
    signed: Seq<Seq<u8>>,
    offsets: Seq<u64>,
    count: nat,
)
    requires
        same_slices(a, b),
        count <= a.len(),
    ensures
        sign::fat_container(a, signed, offsets, count) == sign::fat_container(
            b,
            signed,
            offsets,
            count,
        ),
    decreases count,
{
    if count > 0 {
        lemma_container_again(a, b, signed, offsets, (count - 1) as nat);
    } else {
        lemma_header_again(a, b, signed, offsets, a.len());
    }
}

/// A signed slice is read and signed again as it stands.
proof fn lemma_slice_again(data: Seq<u8>, options: OptionsView, out: Seq<u8>, k: int)
    requires
        macho::kind_of(data) == Some(MachOKind::Fat),
        sign::signed(data, options) == Ok::<Seq<u8>, ErrorView>(out),
        0 <= k < slices(data).len(),
        reparse::regular(sign::fat_slice(data, slices(data)[k])),
    ensures
        sign::fat_arch(out, k) == Ok::<FatArch, ErrorView>(entry_in(out, k)),
        sign::signed_thin(sign::fat_slice(out, entry_in(out, k)), options) == Ok::<
            Seq<u8>,
            ErrorView,
        >(signed_parts(data, options)[k]),
        entry_in(out, k).cputype == slices(data)[k].cputype,
        entry_in(out, k).cpusubtype == slices(data)[k].cpusubtype,
        entry_in(out, k).align == slices(data)[k].align,
{
    law_slices_are_signed(data, options, out);
    let arch = slices(data)[k];
    let signed = signed_parts(data, options)[k];
    assert(sign::fat_arch(data, k) == Ok::<FatArch, ErrorView>(arch));
    let slice = sign::fat_slice(data, arch);
    signing::lemma_parts(slice, options, signed);
    macho::lemma_load_info(slice, signing::record(slice));
    signing::law_signing_is_idempotent(slice, options, signed);
}

/// Signing a fat binary again with the same options changes nothing.
#[verifier::spinoff_prover]
#[verifier::rlimit(50)]
pub proof fn law_signing_fat_is_idempotent(data: Seq<u8>, options: OptionsView, out: Seq<u8>)
    requires
        macho::kind_of(data) == Some(MachOKind::Fat),
        sign::signed(data, options) == Ok::<Seq<u8>, ErrorView>(out),
        forall|i: int|
            0 <= i < slices(data).len() ==> reparse::regular(
                #[trigger] sign::fat_slice(data, slices(data)[i]),
            ),
    ensures
        sign::signed(out, options) == Ok::<Seq<u8>, ErrorView>(out),
{
    let arches = slices(data);
    let signed = signed_parts(data, options);
    let after = Seq::new(arches.len(), |i: int| entry_in(out, i));
    assert(macho::kind_of(out) == Some(MachOKind::Fat) && bytes::u32_at(out, 4, false)
        == arches.len() && signed.len() == arches.len() && 8 <= out.len() && 0 < arches.len()
        <= sign::MAX_FAT_ARCHES) by {
        law_slices_are_signed(data, options, out);
    }
    assert forall|k: int| 0 <= k < arches.len() implies #[trigger] sign::fat_arch(out, k) == Ok::<
        FatArch,
        ErrorView,
    >(after[k]) by {
        assert(reparse::regular(sign::fat_slice(data, arches[k])));
        lemma_slice_again(data, options, out, k);
    }
    assert(after.take(0) =~= Seq::empty());
    lemma_arches_again(out, 0, after);
    assert forall|k: int| 0 <= k < after.len() implies sign::signed_thin(
        sign::fat_slice(out, after[k]),
        options,
    ) == Ok::<Seq<u8>, ErrorView>(#[trigger] signed[k]) by {
        assert(reparse::regular(sign::fat_slice(data, arches[k])));
        lemma_slice_again(data, options, out, k);
    }
    assert(signed.take(0) =~= Seq::empty());
    lemma_slices_again(out, after, 0, options, signed);
    assert(same_slices(arches, after)) by {
        assert forall|k: int| 0 <= k < arches.len() implies {
            &&& (#[trigger] arches[k]).cputype == after[k].cputype
            &&& arches[k].cpusubtype == after[k].cpusubtype
            &&& arches[k].align == after[k].align
        } by {
            assert(reparse::regular(sign::fat_slice(data, arches[k])));
            lemma_slice_again(data, options, out, k);
        }
    }
    let start = 8 + arches.len() as int * 20;
    lemma_offsets_again(arches, after, signed, 0, start, Seq::empty());
    let offsets = sign::slice_offsets(arches, signed, 0, start, Seq::empty())->Ok_0;
    lemma_container_again(arches, after, signed, offsets, arches.len());
}

} // verus!
