//! Which fat binaries can be signed and which verify, told from their bytes.

use crate::bytes;
use crate::error::ErrorView;
use crate::laws::{commands, fat};
use crate::macho;
use crate::macho::MachOKind;
use crate::options::OptionsView;
use crate::sign;
use crate::sign::FatArch;
use crate::verify;
use crate::verify::SignatureInfoView;
use vstd::arithmetic::power2;
use vstd::prelude::*;

verus! {

/// The number of slices that a fat binary declares.
pub open spec fn slice_count(data: Seq<u8>) -> int {
    bytes::u32_at(data, 4, false) as int
}

/// Where a slice starts.
pub open spec fn slice_start(data: Seq<u8>, i: int) -> int {
    bytes::u32_at(data, 8 + i * 20 + 8, false) as int
}

/// Where a slice ends.
pub open spec fn slice_end(data: Seq<u8>, i: int) -> int {
    slice_start(data, i) + bytes::u32_at(data, 8 + i * 20 + 12, false)
}

/// The bytes of a slice.
pub open spec fn slice(data: Seq<u8>, i: int) -> Seq<u8> {
    data.subrange(slice_start(data, i), slice_end(data, i))
}

/// The exponent of the alignment of a slice.
pub open spec fn slice_align(data: Seq<u8>, i: int) -> nat {
    bytes::u32_at(data, 8 + i * 20 + 16, false) as nat
}

/// Whether the entry of a slice can be used: it is there, with an alignment
/// of at most 2^30, and the slice lies within the file.
pub open spec fn has_slice(data: Seq<u8>, i: int) -> bool {
    &&& 8 + (i + 1) * 20 <= data.len()
    &&& slice_align(data, i) <= 30
    &&& slice_end(data, i) <= data.len()
}

/// Where `count` signed slices end if each starts as early as it can after
/// the header and the slices before it, aligned as its entry asks.
pub open spec fn packed_end(data: Seq<u8>, options: OptionsView, count: nat) -> int
    decreases count,
{
    if count == 0 {
        8 + slice_count(data) * 20
    } else {
        let last = count - 1;
        let step = power2::pow2(slice_align(data, last)) as int;
        let before = packed_end(data, options, last as nat);
        (before + step - 1) / step * step + sign::signed_thin(
            slice(data, last),
            options,
        )->Ok_0.len()
    }
}

/// Whether a fat binary can be signed.
pub open spec fn can_be_signed(data: Seq<u8>, options: OptionsView) -> bool {
    let count = slice_count(data);
    &&& data.len() >= 8
    &&& 1 <= count <= 128
    &&& forall|i: int| 0 <= i < count ==> #[trigger] has_slice(data, i)
    &&& forall|i: int|
        0 <= i < count ==> sign::signed_thin(#[trigger] slice(data, i), options) is Ok
    &&& packed_end(data, options, count as nat) <= 0xffff_ffff
}

/// Entries are read where they can be used.
proof fn lemma_entries(data: Seq<u8>, i: nat, count: nat, before: Seq<FatArch>)
    requires
        i <= count,
        before.len() == i,
        forall|k: int|
            0 <= k < i ==> sign::fat_arch(data, k) == Ok::<FatArch, ErrorView>(
                #[trigger] before[k],
            ),
    ensures
        sign::fat_arches(data, i, count, before) is Ok == (forall|k: int|
            i <= k < count ==> #[trigger] has_slice(data, k)),
        sign::fat_arches(data, i, count, before) matches Ok(arches) ==> arches.len() == count
            && forall|k: int|
            0 <= k < count ==> sign::fat_arch(data, k) == Ok::<FatArch, ErrorView>(
                #[trigger] arches[k],
            ),
    decreases count - i,
{
    if i < count {
        assert(sign::fat_arch(data, i as int) is Ok == has_slice(data, i as int));
        if let Ok(arch) = sign::fat_arch(data, i as int) {
            lemma_entries(data, i + 1, count, before.push(arch));
            let rest = forall|k: int| i + 1 <= k < count ==> #[trigger] has_slice(data, k);
            let all = forall|k: int| i <= k < count ==> #[trigger] has_slice(data, k);
            assert(rest == all) by {
                if rest {
                    assert forall|k: int| i <= k < count implies #[trigger] has_slice(data, k) by {
                        assert(k == i || i + 1 <= k);
                    }
                }
            }
        }
    }
}

/// Slices are signed where each can be.
proof fn lemma_slices(
    data: Seq<u8>,
    arches: Seq<FatArch>,
    i: nat,
    options: OptionsView,
    before: Seq<Seq<u8>>,
)
    requires
        i <= arches.len(),
        before.len() == i,
        forall|k: int|
            0 <= k < arches.len() ==> sign::fat_slice(data, #[trigger] arches[k]) == slice(data, k),
        forall|k: int|
            0 <= k < i ==> sign::signed_thin(slice(data, k), options) == Ok::<Seq<u8>, ErrorView>(
                #[trigger] before[k],
            ),
    ensures
        sign::signed_slices(data, arches, i, options, before) is Ok == (forall|k: int|
            i <= k < arches.len() ==> sign::signed_thin(#[trigger] slice(data, k), options) is Ok),
        sign::signed_slices(data, arches, i, options, before) matches Ok(signed) ==> signed.len()
            == arches.len() && forall|k: int|
            0 <= k < arches.len() ==> sign::signed_thin(slice(data, k), options) == Ok::<
                Seq<u8>,
                ErrorView,
            >(#[trigger] signed[k]),
    decreases arches.len() - i,
{
    if i < arches.len() {
        let one = slice(data, i as int);
        assert(sign::fat_slice(data, arches[i as int]) == one);
        if let Ok(signed) = sign::signed_thin(one, options) {
            lemma_slices(data, arches, i + 1, options, before.push(signed));
            let rest = forall|k: int|
                i + 1 <= k < arches.len() ==> sign::signed_thin(
                    #[trigger] slice(data, k),
                    options,
                ) is Ok;
            let all = forall|k: int|
                i <= k < arches.len() ==> sign::signed_thin(
                    #[trigger] slice(data, k),
                    options,
                ) is Ok;
            assert(rest == all) by {
                if rest {
                    assert forall|k: int| i <= k < arches.len() implies sign::signed_thin(
                        #[trigger] slice(data, k),
                        options,
                    ) is Ok by {
                        assert(k == i || i + 1 <= k);
                    }
                }
            }
        }
    }
}

/// More slices do not end earlier.
proof fn lemma_ends(data: Seq<u8>, options: OptionsView, i: nat, count: nat)
    requires
        i <= count,
    ensures
        packed_end(data, options, i) <= packed_end(data, options, count),
    decreases count - i,
{
    if i < count {
        let last = (count - 1) as nat;
        lemma_ends(data, options, i, last);
        power2::lemma_pow2_pos(slice_align(data, last as int));
        bytes::lemma_round_up(
            packed_end(data, options, last),
            power2::pow2(slice_align(data, last as int)) as int,
        );
    }
}

/// Signed slices are placed where they end within 4 GiB.
proof fn lemma_places(
    data: Seq<u8>,
    options: OptionsView,
    arches: Seq<FatArch>,
    signed: Seq<Seq<u8>>,
    i: nat,
    before: Seq<u64>,
)
    requires
        i <= arches.len(),
        signed.len() == arches.len(),
        forall|k: int|
            0 <= k < arches.len() ==> (#[trigger] arches[k]).align == slice_align(data, k),
        forall|k: int|
            0 <= k < arches.len() ==> sign::signed_thin(slice(data, k), options) == Ok::<
                Seq<u8>,
                ErrorView,
            >(#[trigger] signed[k]),
        packed_end(data, options, i) <= 0xffff_ffff,
    ensures
        sign::slice_offsets(arches, signed, i, packed_end(data, options, i), before) is Ok == (
        packed_end(data, options, arches.len()) <= 0xffff_ffff),
    decreases arches.len() - i,
{
    if i < arches.len() {
        let next = packed_end(data, options, i + 1);
        lemma_ends(data, options, i + 1, arches.len());
        assert(arches[i as int].align == slice_align(data, i as int));
        assert(sign::signed_thin(slice(data, i as int), options) == Ok::<Seq<u8>, ErrorView>(
            signed[i as int],
        ));
        let offset = bytes::round_up(
            packed_end(data, options, i),
            power2::pow2(slice_align(data, i as int)) as int,
        );
        assert(next == offset + signed[i as int].len());
        if next <= 0xffff_ffff {
            lemma_places(data, options, arches, signed, i + 1, before.push(offset as u64));
        }
    }
}

/// A fat binary is signed exactly if it declares between 1 and 128 slices,
/// their entries can be used, each slice can be signed by itself, and the
/// signed slices end within 4 GiB.
pub proof fn law_fat_binary_is_signed(data: Seq<u8>, options: OptionsView)
    requires
        commands::starts_with(data, 0xca, 0xfe, 0xba, 0xbe),
    ensures
        sign::signed(data, options) is Ok == can_be_signed(data, options),
{
    commands::law_kind_shows_in_four_bytes(data);
    let count = slice_count(data) as nat;
    if data.len() >= 8 && 1 <= count <= 128 {
        lemma_entries(data, 0, count, Seq::empty());
        if let Ok(arches) = sign::fat_arches(data, 0, count, Seq::empty()) {
            assert forall|k: int| 0 <= k < count implies sign::fat_slice(data, #[trigger] arches[k])
                == slice(data, k) && arches[k].align == slice_align(data, k) by {
                assert(sign::fat_arch(data, k) == Ok::<FatArch, ErrorView>(arches[k]));
            }
            lemma_slices(data, arches, 0, options, Seq::empty());
            if let Ok(signed) = sign::signed_slices(data, arches, 0, options, Seq::empty()) {
                lemma_places(data, options, arches, signed, 0, Seq::empty());
            }
        }
    }
}

/// What is no fat binary is signed as a thin one, or refused if it is neither.
pub proof fn law_other_binary_is_signed_as_thin(data: Seq<u8>, options: OptionsView)
    requires
        !commands::starts_with(data, 0xca, 0xfe, 0xba, 0xbe),
    ensures
        macho::load_info(data) is Ok ==> sign::signed(data, options) == sign::signed_thin(
            data,
            options,
        ) && (verify::verified(data) matches Ok(reports) ==> reports.len() == 1
            && verify::verified_thin(data) == Ok::<SignatureInfoView, ErrorView>(reports[0]))
            && (verify::verified(data) is Err ==> verify::verified_thin(data) is Err),
        macho::load_info(data) is Err ==> sign::signed(data, options) is Err && verify::verified(
            data,
        ) is Err,
{
    commands::law_kind_shows_in_four_bytes(data);
    if let Ok(info) = macho::load_info(data) {
        macho::lemma_load_info(data, info);
    }
}

/// Whether the slice of a fat binary lies within the file and passes
/// verification by itself.
pub open spec fn slice_verifies(data: Seq<u8>, i: int) -> bool {
    &&& 8 + i * 20 + 16 <= data.len()
    &&& slice_end(data, i) <= data.len()
    &&& verify::verified_thin(slice(data, i)) is Ok
}

/// Slices verify together where each does.
proof fn lemma_verified(data: Seq<u8>, i: nat, count: nat, before: Seq<SignatureInfoView>)
    requires
        i <= count,
    ensures
        verify::verified_slices(data, i, count, before) is Ok == (forall|k: int|
            i <= k < count ==> #[trigger] slice_verifies(data, k)),
    decreases count - i,
{
    if i < count {
        lemma_slice_verified(data, i as int);
        if let Ok(report) = verify::verified_slice(data, i as int) {
            lemma_verified(data, i + 1, count, before.push(report));
            let rest = forall|k: int| i + 1 <= k < count ==> #[trigger] slice_verifies(data, k);
            let all = forall|k: int| i <= k < count ==> #[trigger] slice_verifies(data, k);
            assert(rest == all) by {
                if rest {
                    assert forall|k: int| i <= k < count implies #[trigger] slice_verifies(
                        data,
                        k,
                    ) by {
                        assert(k == i || i + 1 <= k);
                    }
                }
            }
        }
    }
}

proof fn lemma_slice_verified(data: Seq<u8>, i: int)
    ensures
        verify::verified_slice(data, i) is Ok == slice_verifies(data, i),
{
}

/// A fat binary passes verification exactly if each of its slices lies within
/// the file and passes by itself.
pub proof fn law_fat_binary_verifies_by_slices(data: Seq<u8>)
    requires
        commands::starts_with(data, 0xca, 0xfe, 0xba, 0xbe),
    ensures
        verify::verified(data) is Ok == (data.len() >= 8 && forall|k: int|
            0 <= k < slice_count(data) ==> #[trigger] slice_verifies(data, k)),
{
    commands::law_kind_shows_in_four_bytes(data);
    if data.len() >= 8 {
        lemma_verified(data, 0, slice_count(data) as nat, Seq::empty());
    }
}

/// Whether a slice has become its signed self, at an aligned place, for the
/// same architecture and with the same alignment.
pub open spec fn becomes(data: Seq<u8>, options: OptionsView, out: Seq<u8>, i: int) -> bool {
    &&& bytes::u32_at(out, 8 + i * 20, false) == bytes::u32_at(data, 8 + i * 20, false)
    &&& bytes::u32_at(out, 8 + i * 20 + 4, false) == bytes::u32_at(data, 8 + i * 20 + 4, false)
    &&& slice_align(out, i) == slice_align(data, i)
    &&& slice_start(out, i) % power2::pow2(slice_align(data, i)) as int == 0
    &&& slice_end(out, i) <= out.len()
    &&& sign::signed_thin(slice(data, i), options) == Ok::<Seq<u8>, ErrorView>(slice(out, i))
}

proof fn lemma_becomes(
    data: Seq<u8>,
    options: OptionsView,
    out: Seq<u8>,
    i: int,
    arch: FatArch,
    signed: Seq<u8>,
)
    requires
        sign::fat_arch(data, i) == Ok::<FatArch, ErrorView>(arch),
        sign::signed_thin(sign::fat_slice(data, arch), options) == Ok::<Seq<u8>, ErrorView>(signed),
        fat::entry_in(out, i) == fat::moved(arch, signed, slice_start(out, i) as u64),
        slice_start(out, i) % power2::pow2(arch.align as nat) as int == 0,
        slice_end(out, i) <= out.len(),
        slice(out, i) == signed,
    ensures
        becomes(data, options, out, i),
{
    assert(sign::fat_slice(data, arch) == slice(data, i));
}

/// The signed slices of a fat binary stand in the entries where the slices
/// stood, for the same architectures and with the same alignments, and each
/// is what signing the slice by itself gives.
pub proof fn law_signed_slices_take_their_places(
    data: Seq<u8>,
    options: OptionsView,
    out: Seq<u8>,
)
    requires
        commands::starts_with(data, 0xca, 0xfe, 0xba, 0xbe),
        sign::signed(data, options) == Ok::<Seq<u8>, ErrorView>(out),
    ensures
        commands::starts_with(out, 0xca, 0xfe, 0xba, 0xbe),
        slice_count(out) == slice_count(data),
        forall|i: int| 0 <= i < slice_count(data) ==> #[trigger] becomes(data, options, out, i),
{
    assert(macho::kind_of(data) == Some(MachOKind::Fat)) by {
        commands::law_kind_shows_in_four_bytes(data);
    }
    fat::law_slices_are_signed(data, options, out);
    assert(commands::starts_with(out, 0xca, 0xfe, 0xba, 0xbe)) by {
        commands::law_kind_shows_in_four_bytes(out);
    }
    let arches = fat::slices(data);
    let signed = fat::signed_parts(data, options);
    assert forall|i: int| 0 <= i < slice_count(data) implies #[trigger] becomes(
        data,
        options,
        out,
        i,
    ) by {
        let one = signed[i];
        lemma_becomes(data, options, out, i, arches[i], one);
    }
}

/// What starts with none of the magic numbers is told so, and so are fat
/// binaries with 64-bit headers, whatever is asked of them.
pub proof fn law_unknown_files_are_told_apart(data: Seq<u8>, options: OptionsView)
    ensures
        !commands::starts_with(data, 0xcf, 0xfa, 0xed, 0xfe) && !commands::starts_with(
            data,
            0xce,
            0xfa,
            0xed,
            0xfe,
        ) && !commands::starts_with(data, 0xfe, 0xed, 0xfa, 0xcf) && !commands::starts_with(
            data,
            0xfe,
            0xed,
            0xfa,
            0xce,
        ) && !commands::starts_with(data, 0xca, 0xfe, 0xba, 0xbe) ==> {
            let error = if commands::starts_with(data, 0xca, 0xfe, 0xba, 0xbf) {
                ErrorView::Fat64Unsupported
            } else {
                ErrorView::NotMachO
            };
            &&& sign::signed(data, options) == Err::<Seq<u8>, ErrorView>(error)
            &&& verify::verified(data) == Err::<Seq<SignatureInfoView>, ErrorView>(error)
        },
{
    commands::law_kind_shows_in_four_bytes(data);
}

/// Entries that cannot be used are malformed.
proof fn lemma_entry_errors(data: Seq<u8>, i: nat, count: nat, before: Seq<FatArch>)
    ensures
        sign::fat_arches(data, i, count, before) matches Err(error) ==> error is Malformed,
    decreases count - i,
{
    if i < count {
        if let Ok(arch) = sign::fat_arch(data, i as int) {
            lemma_entry_errors(data, i + 1, count, before.push(arch));
        }
    }
}

/// The first slice that cannot be signed gives the reason.
proof fn lemma_slice_errors(
    data: Seq<u8>,
    arches: Seq<FatArch>,
    i: nat,
    options: OptionsView,
    before: Seq<Seq<u8>>,
)
    requires
        i <= arches.len(),
        forall|k: int|
            0 <= k < arches.len() ==> sign::fat_slice(data, #[trigger] arches[k]) == slice(data, k),
    ensures
        sign::signed_slices(data, arches, i, options, before) matches Err(error) ==> exists|k: int|
            i <= k < arches.len() && sign::signed_thin(#[trigger] slice(data, k), options) == Err::<
                Seq<u8>,
                ErrorView,
            >(error) && forall|j: int|
                i <= j < k ==> sign::signed_thin(#[trigger] slice(data, j), options) is Ok,
    decreases arches.len() - i,
{
    if i < arches.len() {
        let one = slice(data, i as int);
        assert(sign::fat_slice(data, arches[i as int]) == one);
        if let Ok(signed) = sign::signed_thin(one, options) {
            lemma_slice_errors(data, arches, i + 1, options, before.push(signed));
            if let Err(error) = sign::signed_slices(data, arches, i, options, before) {
                let k = choose|k: int|
                    i + 1 <= k < arches.len() && sign::signed_thin(
                        #[trigger] slice(data, k),
                        options,
                    ) == Err::<Seq<u8>, ErrorView>(error) && forall|j: int|
                        i + 1 <= j < k ==> sign::signed_thin(
                            #[trigger] slice(data, j),
                            options,
                        ) is Ok;
                assert forall|j: int| i <= j < k implies sign::signed_thin(
                    #[trigger] slice(data, j),
                    options,
                ) is Ok by {
                    assert(j == i || i + 1 <= j);
                }
                assert(sign::signed_thin(slice(data, k), options) == Err::<Seq<u8>, ErrorView>(
                    error,
                ));
            }
        }
    }
}

/// Offsets that do not fit are too large.
proof fn lemma_place_errors(
    arches: Seq<FatArch>,
    signed: Seq<Seq<u8>>,
    i: nat,
    cursor: int,
    before: Seq<u64>,
)
    ensures
        sign::slice_offsets(arches, signed, i, cursor, before) matches Err(error) ==> error
            is TooLarge,
    decreases arches.len() - i,
{
    if i < arches.len() {
        let offset = bytes::round_up(
            cursor,
            power2::pow2(arches[i as int].align as nat) as int,
        );
        let end = offset + signed[i as int].len();
        if end <= u32::MAX {
            lemma_place_errors(arches, signed, i + 1, end, before.push(offset as u64));
        }
    }
}

/// Why a fat binary is not signed: its header is malformed; or else the first
/// slice that cannot be signed gives the reason; or else the signed slices
/// would end beyond 4 GiB.
pub proof fn law_fat_refusal_has_a_reason(data: Seq<u8>, options: OptionsView, error: ErrorView)
    requires
        commands::starts_with(data, 0xca, 0xfe, 0xba, 0xbe),
        sign::signed(data, options) == Err::<Seq<u8>, ErrorView>(error),
    ensures
        ({
            let count = slice_count(data);
            if data.len() < 8 || count == 0 || count > 128 || exists|i: int|
                0 <= i < count && !#[trigger] has_slice(data, i) {
                error is Malformed
            } else if exists|i: int|
                0 <= i < count && sign::signed_thin(#[trigger] slice(data, i), options) is Err {
                exists|k: int|
                    0 <= k < count && sign::signed_thin(#[trigger] slice(data, k), options)
                        == Err::<Seq<u8>, ErrorView>(error) && forall|j: int|
                        0 <= j < k ==> sign::signed_thin(#[trigger] slice(data, j), options) is Ok
            } else {
                error is TooLarge
            }
        }),
{
    commands::law_kind_shows_in_four_bytes(data);
    let count = slice_count(data) as nat;
    if data.len() >= 8 && 1 <= count <= 128 {
        lemma_entries(data, 0, count, Seq::empty());
        lemma_entry_errors(data, 0, count, Seq::empty());
        if let Ok(arches) = sign::fat_arches(data, 0, count, Seq::empty()) {
            assert forall|k: int| 0 <= k < count implies sign::fat_slice(data, #[trigger] arches[k])
                == slice(data, k) by {
                assert(sign::fat_arch(data, k) == Ok::<FatArch, ErrorView>(arches[k]));
            }
            lemma_slices(data, arches, 0, options, Seq::empty());
            lemma_slice_errors(data, arches, 0, options, Seq::empty());
            if let Ok(signed) = sign::signed_slices(data, arches, 0, options, Seq::empty()) {
                lemma_place_errors(
                    arches,
                    signed,
                    0,
                    8 + arches.len() as int * 20,
                    Seq::empty(),
                );
            }
        }
    }
}

} // verus!
