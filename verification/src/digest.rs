//! SHA-256 digests, and the digests of the pages of a binary.

use crate::bytes;
use crate::constants::CS_PAGE_SIZE;
use vstd::prelude::*;

verus! {

/// SHA-256 digest length.
pub const HASH_SIZE: usize = 32;

/// The number of bytes below which SHA-256 can count the bits of a message.
pub const MAX_MESSAGE: u64 = 0x2000_0000_0000_0000;

/// The SHA-256 digest of `message`.
pub uninterp spec fn sha256(message: Seq<u8>) -> [u8; 32];

/// The bytes that a hasher has taken in since it was made or last reset.
pub uninterp spec fn absorbed(hasher: sha2::Sha256) -> Seq<u8>;

/// `sha2::Sha256`, the incremental SHA-256 hasher.
#[verifier::external_type_specification]
#[verifier::external_body]
pub struct ExSha256(sha2::Sha256);

/// Calls `sha2::Digest::digest` for `sha2::Sha256`. The contract claims that
/// the result is the SHA-256 digest of `message`.
#[verifier::external_body]
pub(crate) fn sha256_digest(message: &[u8]) -> (digest: [u8; 32])
    requires
        message@.len() < MAX_MESSAGE,
    ensures
        digest@ == sha256(message@)@,
{
    <sha2::Sha256 as sha2::Digest>::digest(message).into()
}

/// Calls `sha2::Digest::new` for `sha2::Sha256`. The contract claims that a
/// new hasher has taken in nothing.
#[verifier::external_body]
pub(crate) fn new_hasher() -> (hasher: sha2::Sha256)
    ensures
        absorbed(hasher) == Seq::<u8>::empty(),
{
    <sha2::Sha256 as sha2::Digest>::new()
}

/// Calls `sha2::Digest::update`. The contract claims that the hasher takes in
/// `bytes` after what it had taken in before.
#[verifier::external_body]
pub(crate) fn absorb(hasher: &mut sha2::Sha256, bytes: &[u8])
    requires
        absorbed(*old(hasher)).len() + bytes@.len() < MAX_MESSAGE,
    ensures
        absorbed(*final(hasher)) == absorbed(*old(hasher)) + bytes@,
{
    sha2::Digest::update(hasher, bytes);
}

/// Calls `sha2::Digest::finalize_reset`. The contract claims that the result
/// is the SHA-256 digest of what the hasher had taken in, and that the hasher
/// is then as good as new.
#[verifier::external_body]
pub(crate) fn finalize_reset(hasher: &mut sha2::Sha256) -> (digest: [u8; 32])
    requires
        absorbed(*old(hasher)).len() < MAX_MESSAGE,
    ensures
        digest@ == sha256(absorbed(*old(hasher)))@,
        absorbed(*final(hasher)) == Seq::<u8>::empty(),
{
    sha2::Digest::finalize_reset(hasher).into()
}

/// The page of `data` with the given index: `size` bytes, or what is left of
/// `data` where that is less.
pub open spec fn page(data: Seq<u8>, size: int, index: int) -> Seq<u8> {
    let start = index * size;
    let end = if start + size <= data.len() {
        start + size
    } else {
        data.len() as int
    };
    data.subrange(start, end)
}

/// The digests of the first `count` pages of `data`, one after the other.
pub open spec fn page_digests(data: Seq<u8>, size: int, count: nat) -> Seq<u8>
    decreases count,
{
    if count == 0 {
        Seq::empty()
    } else {
        page_digests(data, size, (count - 1) as nat) + sha256(page(data, size, count - 1))@
    }
}

/// The digests of all 4 KiB pages of `data`.
pub open spec fn all_page_digests(data: Seq<u8>) -> Seq<u8> {
    page_digests(data, CS_PAGE_SIZE as int, bytes::pieces(data.len() as int, CS_PAGE_SIZE as int) as nat)
}

pub proof fn lemma_page_digests_len(data: Seq<u8>, size: int, count: nat)
    ensures
        page_digests(data, size, count).len() == count * HASH_SIZE,
    decreases count,
{
    if count > 0 {
        lemma_page_digests_len(data, size, (count - 1) as nat);
    }
}

/// The digest of a page stands at its index in the table of digests.
pub proof fn lemma_page_digest_at(data: Seq<u8>, size: int, count: nat, index: int)
    requires
        0 <= index < count,
    ensures
        page_digests(data, size, count).len() == count * HASH_SIZE,
        page_digests(data, size, count).subrange(
            index * HASH_SIZE as int,
            (index + 1) * HASH_SIZE as int,
        ) == sha256(page(data, size, index))@,
    decreases count,
{
    lemma_page_digests_len(data, size, (count - 1) as nat);
    let before = page_digests(data, size, (count - 1) as nat);
    let last = sha256(page(data, size, count - 1))@;
    if index == count - 1 {
        assert((before + last).subrange(index * HASH_SIZE as int, (index + 1) * HASH_SIZE as int)
            =~= last);
    } else {
        lemma_page_digest_at(data, size, (count - 1) as nat, index);
        assert((before + last).subrange(index * HASH_SIZE as int, (index + 1) * HASH_SIZE as int)
            =~= before.subrange(index * HASH_SIZE as int, (index + 1) * HASH_SIZE as int));
    }
}

/// Pages that lie within a common prefix have the same digests.
pub proof fn lemma_page_digests_of_prefix(a: Seq<u8>, b: Seq<u8>, size: int, count: nat)
    requires
        size > 0,
        count * size <= a.len(),
        a.len() <= b.len(),
        b.take(a.len() as int) == a,
    ensures
        page_digests(a, size, count) == page_digests(b, size, count),
    decreases count,
{
    if count > 0 {
        let last = count - 1;
        assert(last * size + size == count * size && 0 <= last * size) by (nonlinear_arith)
            requires
                last == count - 1,
                size > 0,
                last >= 0,
        ;
        lemma_page_digests_of_prefix(a, b, size, last as nat);
        assert(page(a, size, last) =~= page(b, size, last)) by {
            assert forall|i: int| 0 <= i < a.len() implies a[i] == b[i] by {
                assert(b.take(a.len() as int)[i] == b[i]);
            }
        }
    }
}

/// Hash every 4 KiB page of `data` with SHA-256, returning the concatenated
/// digests.
pub fn hash_pages(data: &[u8]) -> (hashes: Vec<u8>)
    ensures
        hashes@ == all_page_digests(data@),
{
    let len = data.len();
    let mut hashes: Vec<u8> = Vec::new();
    let mut start: usize = 0;
    let ghost mut count: nat = 0;
    while start < len
        invariant
            len == data@.len(),
            start <= len,
            start == count * CS_PAGE_SIZE || start == len,
            start == len ==> count == bytes::pieces(len as int, CS_PAGE_SIZE as int),
            hashes@ == page_digests(data@, CS_PAGE_SIZE as int, count),
        decreases len - start,
    {
        let end = if len - start > CS_PAGE_SIZE {
            start + CS_PAGE_SIZE
        } else {
            len
        };
        let digest = sha256_digest(vstd::slice::slice_subrange(data, start, end));
        hashes.extend_from_slice(&digest);
        proof {
            count = count + 1;
        }
        start = end;
    }
    hashes
}

} // verus!
