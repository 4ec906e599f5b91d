//! What verification finds wrong with a damaged signature.

use arwen_codesign::{
    adhoc_sign, extract_entitlements, verify, AdhocSignOptions, Entitlements, SignError,
};

fn put32(data: &mut [u8], at: usize, value: u32) {
    data[at..at + 4].copy_from_slice(&value.to_le_bytes());
}

fn put64(data: &mut [u8], at: usize, value: u64) {
    data[at..at + 8].copy_from_slice(&value.to_le_bytes());
}

fn put_be(data: &mut [u8], at: usize, value: u32) {
    data[at..at + 4].copy_from_slice(&value.to_be_bytes());
}

const CODESIG: usize = 32 + 72;

/// A library with nothing but a `__LINKEDIT` segment, signed with
/// entitlements.
fn signed() -> Vec<u8> {
    let mut data = vec![0x5au8; 0x2345];
    for byte in &mut data[..0x200] {
        *byte = 0;
    }
    put32(&mut data, 0, 0xfeed_facf);
    put32(&mut data, 12, 6);
    put32(&mut data, 16, 1);
    put32(&mut data, 20, 72);
    put32(&mut data, 32, 0x19);
    put32(&mut data, 36, 72);
    data[40..50].copy_from_slice(b"__LINKEDIT");
    put64(&mut data, 32 + 40, 0x1000);
    put64(&mut data, 32 + 48, 0x1345);
    let options = AdhocSignOptions::new("com.example.lib")
        .with_entitlements(Entitlements::Custom(b"<plist/>"));
    adhoc_sign(data, &options).unwrap()
}

/// Where the signature starts.
const START: usize = 0x2350;

/// Where its CodeDirectory starts.
const CD: usize = START + 12 + 4 * 8;

/// Where the identifier of the CodeDirectory starts.
const IDENT: usize = CD + 88;

/// Where the special hashes start.
const SPECIALS: usize = IDENT + 16;

fn failure(data: &[u8]) -> String {
    match verify(data) {
        Err(SignError::VerificationFailed(text)) => text,
        Err(other) => other.message(),
        Ok(_) => panic!("the signature must be refused"),
    }
}

/// What verification says once `value` is written at `at`, big-endian.
fn with_be(at: usize, value: u32) -> String {
    let mut data = signed();
    put_be(&mut data, at, value);
    failure(&data)
}

/// What verification says once the byte at `at` is `value`.
fn with_byte(at: usize, value: u8) -> String {
    let mut data = signed();
    data[at] = value;
    failure(&data)
}

#[test]
fn an_undamaged_signature_is_accepted() {
    let data = signed();
    let infos = verify(&data).unwrap();
    assert_eq!(infos.len(), 1);
    assert_eq!(infos[0].identifier, "com.example.lib");
    assert_eq!(infos[0].code_limit, START as u64);
    assert_eq!(infos[0].n_code_slots, 3);
    assert_eq!(infos[0].n_special_slots, 5);
    assert!(infos[0].has_entitlements);
    let size = u32::from_be_bytes([data[CD + 4], data[CD + 5], data[CD + 6], data[CD + 7]]);
    let digest = <sha2::Sha256 as sha2::Digest>::digest(&data[CD..CD + size as usize]);
    assert_eq!(infos[0].cd_hash[..], digest[..]);
}

#[test]
fn the_signature_has_to_end_the_file() {
    let mut data = signed();
    let len = data.len();
    data.push(0);
    assert_eq!(
        failure(&data),
        format!("signature region ends at {len} but the file is {} bytes", len + 1)
    );
    let mut data = signed();
    put64(&mut data, 32 + 48, 7);
    assert_eq!(
        failure(&data),
        "__LINKEDIT segment does not end at the end of the file"
    );
    let mut data = signed();
    put64(&mut data, 32 + 40, u64::MAX);
    assert_eq!(
        failure(&data),
        "__LINKEDIT segment does not end at the end of the file"
    );
    let mut data = signed();
    put32(&mut data, CODESIG, 0x1e);
    assert_eq!(
        failure(&data),
        "binary has no LC_CODE_SIGNATURE load command"
    );
    let mut data = signed();
    data[40] = b'x';
    assert_eq!(failure(&data), "binary has no __LINKEDIT segment");
}

#[test]
fn the_superblob_is_checked() {
    assert_eq!(
        with_be(START + 4, 0x10_0000),
        "SuperBlob length exceeds the allocated signature region"
    );
    assert_eq!(with_be(START, 0), "signature has no CodeDirectory blob");
    // The entry for the CodeDirectory is for another slot, or points nowhere.
    assert_eq!(
        with_be(START + 12, 77),
        "signature has no CodeDirectory blob"
    );
    assert_eq!(
        with_be(START + 16, u32::MAX),
        "signature has no CodeDirectory blob"
    );
    assert_eq!(with_be(CD + 4, 7), "signature has no CodeDirectory blob");
    assert_eq!(with_be(CD, 1), "CodeDirectory blob has the wrong magic");

    // A signature of four bytes.
    let mut data = signed();
    data.truncate(START + 4);
    put32(&mut data, CODESIG + 12, 4);
    let end = data.len() as u64;
    put64(&mut data, 32 + 48, end - 0x1000);
    assert_eq!(
        failure(&data),
        "malformed Mach-O binary: unexpected end of data while reading SuperBlob length"
    );
}

#[test]
fn the_fields_of_the_codedirectory_are_checked() {
    assert_eq!(
        with_be(CD + 8, 0x20000),
        "unsupported CodeDirectory version 0x20000"
    );
    assert_eq!(with_be(CD + 8, 0), "unsupported CodeDirectory version 0x0");
    assert_eq!(
        with_byte(CD + 37, 1),
        "only SHA-256 signatures can be verified (hash type 1)"
    );
    assert_eq!(with_byte(CD + 36, 20), "unexpected hash size 20");
    assert_eq!(with_byte(CD + 39, 0), "invalid page size 2^0");
    assert_eq!(with_byte(CD + 39, 32), "invalid page size 2^32");
    assert_eq!(
        with_be(CD + 32, 9),
        "codeLimit (9) does not match the signature offset (9040)"
    );
    assert_eq!(
        with_be(CD + 28, 4),
        "nCodeSlots is 4 but 3 pages are required"
    );
    assert_eq!(
        with_byte(CD + 39, 13),
        "nCodeSlots is 3 but 2 pages are required"
    );
    assert_eq!(
        with_be(CD + 20, 0x10_0000),
        "identifier offset out of bounds"
    );
    assert_eq!(
        with_be(CD + 16, 5 * 32 - 1),
        "special slot hashes extend before the CodeDirectory"
    );
    assert_eq!(
        with_be(CD + 24, u32::MAX),
        "special slot hashes extend before the CodeDirectory"
    );
    assert_eq!(
        with_be(CD + 16, 0x10_0000),
        "code hash table out of bounds"
    );
}

#[test]
fn a_short_codedirectory_is_refused() {
    for (len, what) in [
        (8, "CodeDirectory version"),
        (12, "flags"),
        (16, "hashOffset"),
        (20, "identOffset"),
        (24, "nSpecialSlots"),
        (28, "nCodeSlots"),
        (35, "codeLimit"),
    ] {
        assert_eq!(
            with_be(CD + 4, len),
            format!("malformed Mach-O binary: unexpected end of data while reading {what}")
        );
    }
    assert_eq!(with_be(CD + 4, 39), "CodeDirectory too small");
    // Cut off within the identifier, and right after it.
    assert_eq!(
        with_be(CD + 4, 88 + 15),
        "identifier is not NUL-terminated"
    );
    assert_eq!(
        with_be(CD + 4, 88 + 16),
        "code hash table out of bounds"
    );
}

#[test]
fn every_hash_is_checked() {
    let mut data = signed();
    data[0x1000] ^= 1;
    assert_eq!(failure(&data), "code page 1 hash mismatch");
    let mut data = signed();
    data[START - 1] ^= 1;
    assert_eq!(failure(&data), "code page 2 hash mismatch");

    let mut data = signed();
    data[SPECIALS] ^= 1;
    assert_eq!(failure(&data), "special slot 5 hash mismatch");
    let mut data = signed();
    data[SPECIALS + 3 * 32 + 31] ^= 1;
    assert_eq!(failure(&data), "special slot 2 hash mismatch");
    // The hash of a page is in the table after the special slots.
    let mut data = signed();
    data[SPECIALS + 5 * 32] ^= 1;
    assert_eq!(failure(&data), "code page 0 hash mismatch");

    // The entitlements themselves.
    let mut data = signed();
    let requirements = SPECIALS + 8 * 32;
    assert_eq!(data[requirements + 12 + 8..requirements + 12 + 16], b"<plist/>"[..]);
    data[requirements + 12 + 8] ^= 1;
    assert_eq!(failure(&data), "special slot 5 hash mismatch");
    // A blob for a special slot that lies outside.
    assert_eq!(
        with_be(START + 12 + 2 * 8 + 4, u32::MAX),
        "blob for slot 5 out of bounds"
    );
}

#[test]
fn an_identifier_that_is_not_text_is_replaced() {
    let mut data = signed();
    data[IDENT] = 0xff;
    assert_eq!(verify(&data).unwrap()[0].identifier, "\u{fffd}om.example.lib");
}

#[test]
fn bytes_after_the_superblob_are_not_looked_at() {
    let mut data = signed();
    let last = data.len() - 1;
    data[last] = 0xff;
    assert!(verify(&data).is_ok());
}

#[test]
fn the_signature_has_to_lie_in_linkedit() {
    let mut data = signed();
    let len = data.len() as u64;
    put64(&mut data, 32 + 40, START as u64 + 16);
    put64(&mut data, 32 + 48, len - (START as u64 + 16));
    assert_eq!(
        failure(&data),
        "signature region starts before the __LINKEDIT segment"
    );
    // Where the segment starts with the signature, the place is right, and
    // only the hash of the first page is not.
    put64(&mut data, 32 + 40, START as u64);
    put64(&mut data, 32 + 48, len - START as u64);
    assert_eq!(failure(&data), "code page 0 hash mismatch");
}

#[test]
fn requirements_and_entitlements_need_a_hash() {
    assert_eq!(
        with_be(CD + 24, 4),
        "blob for slot 5 has no special slot hash"
    );
    assert_eq!(
        with_be(CD + 24, 2),
        "blob for slot 5 has no special slot hash"
    );
    assert_eq!(
        with_be(CD + 24, 1),
        "blob for slot 2 has no special slot hash"
    );
    assert_eq!(
        with_be(CD + 24, 0),
        "blob for slot 2 has no special slot hash"
    );
}

#[test]
fn entitlements_are_reported_where_they_can_be_extracted() {
    let mut data = signed();
    assert!(verify(&data).unwrap()[0].has_entitlements);
    assert_eq!(extract_entitlements(&data).unwrap(), b"<plist/>");

    // A blob of another kind in the slot of the entitlements, with its hash.
    let blob = SPECIALS + 8 * 32 + 12;
    put_be(&mut data, blob, 0xfade_7172);
    let digest = <sha2::Sha256 as sha2::Digest>::digest(&data[blob..blob + 16]);
    data[SPECIALS..SPECIALS + 32].copy_from_slice(&digest);
    assert!(!verify(&data).unwrap()[0].has_entitlements);
    assert!(extract_entitlements(&data).is_none());
}
