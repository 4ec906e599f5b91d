//! Laws of signing a file.

use crate::blob;
use crate::bytes;
use crate::error::ErrorView;
use crate::file;
use crate::file::FileMode;
use crate::laws::{commands, reparse, streaming};
use crate::macho;
use crate::options::OptionsView;
use crate::sign;
use crate::streaming::SignerView;
use vstd::prelude::*;

verus! {

/// The existing signature of a binary, if it has one, is small enough to be
/// read from a file.
pub open spec fn readable_signature(data: Seq<u8>) -> bool {
    macho::load_info(data) matches Ok(info) ==> info.codesig matches Some(codesig)
        ==> codesig.data_size <= 0x100_0000
}

/// The header of a file shows in its first bytes.
proof fn lemma_header_of_file(data: Seq<u8>)
    ensures
        macho::kind_of(file::up_to(data, 32)) == macho::kind_of(data),
        macho::header(file::up_to(data, 32)) == macho::header(data),
{
    let head = file::up_to(data, 32);
    if data.len() >= 32 {
        bytes::lemma_u32_same(head, 0, data, 0, true);
        bytes::lemma_u32_same(head, 0, data, 0, false);
        bytes::lemma_u32_same(head, 20, data, 20, true);
        bytes::lemma_u32_same(head, 20, data, 20, false);
    }
}

/// Reading the parts of a file that are asked for finds the entitlements that
/// the whole file has.
pub proof fn law_parts_suffice_for_entitlements(data: Seq<u8>)
    requires
        data.len() <= u64::MAX,
        readable_signature(data),
    ensures
        file::entitlements_by_parts(data) == blob::entitlements_of(data),
{
    let file_len = data.len() as u64;
    lemma_header_of_file(data);
    match file::wanted_prefix(file::up_to(data, 32), file_len) {
        None => {
            if let Ok(info) = macho::load_info(data) {
                macho::lemma_load_info(data, info);
                streaming::lemma_header_of_record(data, info);
            }
        },
        Some(len) => {
            let prefix = data.take(len);
            if let Ok(info) = macho::load_info(data) {
                macho::lemma_load_info(data, info);
                streaming::lemma_header_of_record(data, info);
                reparse::lemma_record_of_prefix(data, prefix, info);
            } else if let Ok(info) = macho::load_info(prefix) {
                macho::lemma_load_info(prefix, info);
                reparse::lemma_record_of_prefix(prefix, data, info);
            }
        },
    }
}

/// Preserving entitlements is the same as extracting them up front and giving
/// them as custom ones, or none where there are none.
pub proof fn law_preserving_is_extracting(data: Seq<u8>, options: OptionsView)
    requires
        macho::kind_of(data) matches Some(kind) && kind.thin(),
    ensures
        sign::signed(data, file::with_preserved(options, blob::entitlements_of(data)))
            == sign::signed(data, options),
{
    let resolved = file::with_preserved(options, blob::entitlements_of(data));
    assert(sign::resolved(data, resolved.entitlements) == sign::resolved(
        data,
        options.entitlements,
    ));
}

/// A thin binary in a file, copied in whatever chunks through a streaming
/// signer that has the preserved entitlements filled in, is signed exactly as
/// in memory.
pub proof fn law_file_is_signed_as_in_memory(chunks: Seq<Seq<u8>>, options: OptionsView)
    requires
        chunks.flatten().len() <= u64::MAX,
        macho::kind_of(chunks.flatten()) matches Some(kind) && kind.thin(),
        options.entitlements is Preserve ==> readable_signature(chunks.flatten()),
    ensures
        ({
            let data = chunks.flatten();
            let resolved = file::with_preserved(options, file::entitlements_by_parts(data));
            let (after, done) = streaming::written_in(
                SignerView::fresh(Seq::empty(), resolved),
                chunks,
            );
            match sign::signed(data, options) {
                Ok(out) => {
                    &&& done is Ok
                    &&& after.finished() == Ok::<Seq<u8>, ErrorView>(out)
                },
                Err(_) => done is Err || after.finished() is Err,
            }
        }),
{
    let data = chunks.flatten();
    let resolved = file::with_preserved(options, file::entitlements_by_parts(data));
    if options.entitlements is Preserve {
        law_parts_suffice_for_entitlements(data);
    }
    law_preserving_is_extracting(data, options);
    assert(resolved == file::with_preserved(options, blob::entitlements_of(data)));
    streaming::law_streaming_is_signing(chunks, resolved, Seq::empty());
    if let Ok(out) = sign::signed(data, options) {
        assert(Seq::<u8>::empty() + out =~= out);
    }
}

/// Which way a file is signed shows in its first four bytes.
pub proof fn law_mode_shows_in_the_magic(data: Seq<u8>)
    ensures
        file::mode_of(file::up_to(data, 4)) == file::mode_of(data),
{
    let head = file::up_to(data, 4);
    if data.len() >= 4 {
        bytes::lemma_u32_same(head, 0, data, 0, true);
        bytes::lemma_u32_same(head, 0, data, 0, false);
    }
}

/// A thin binary is signed in a single pass, a fat one in memory, and nothing
/// else is signed.
pub proof fn law_mode_follows_the_kind(data: Seq<u8>)
    ensures
        match file::mode_of(data) {
            Ok(FileMode::InMemory) => commands::starts_with(data, 0xca, 0xfe, 0xba, 0xbe),
            Ok(FileMode::Streaming) => {
                ||| commands::starts_with(data, 0xcf, 0xfa, 0xed, 0xfe)
                ||| commands::starts_with(data, 0xce, 0xfa, 0xed, 0xfe)
                ||| commands::starts_with(data, 0xfe, 0xed, 0xfa, 0xcf)
                ||| commands::starts_with(data, 0xfe, 0xed, 0xfa, 0xce)
            },
            Err(error) => {
                &&& !commands::starts_with(data, 0xca, 0xfe, 0xba, 0xbe)
                &&& !commands::starts_with(data, 0xcf, 0xfa, 0xed, 0xfe)
                &&& !commands::starts_with(data, 0xce, 0xfa, 0xed, 0xfe)
                &&& !commands::starts_with(data, 0xfe, 0xed, 0xfa, 0xcf)
                &&& !commands::starts_with(data, 0xfe, 0xed, 0xfa, 0xce)
                &&& error == (if commands::starts_with(data, 0xca, 0xfe, 0xba, 0xbf) {
                    ErrorView::Fat64Unsupported
                } else {
                    ErrorView::NotMachO
                })
            },
        },
{
    commands::law_kind_shows_in_four_bytes(data);
}

} // verus!
