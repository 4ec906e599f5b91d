//! Signing in memory and in a stream, checked against verification.

use arwen_codesign::constants::{CS_ADHOC, CS_LINKER_SIGNED, CS_RUNTIME};
use arwen_codesign::macho::{insert_codesig_cmd, parse_load_info};
use arwen_codesign::{
    adhoc_sign, extract_entitlements, is_linker_signed, verify, AdhocSignOptions, Entitlements,
    SignError, StreamingSigner,
};

const TEST_ENTITLEMENTS: &[u8] = br#"<?xml version="1.0" encoding="UTF-8"?>
<!DOCTYPE plist PUBLIC "-//Apple//DTD PLIST 1.0//EN" "http://www.apple.com/DTDs/PropertyList-1.0.dtd">
<plist version="1.0">
<dict>
    <key>com.apple.security.get-task-allow</key>
    <true/>
</dict>
</plist>
"#;

fn put32(data: &mut [u8], at: usize, value: u32, le: bool) {
    let bytes = if le {
        value.to_le_bytes()
    } else {
        value.to_be_bytes()
    };
    data[at..at + 4].copy_from_slice(&bytes);
}

fn put64(data: &mut [u8], at: usize, value: u64, le: bool) {
    let bytes = if le {
        value.to_le_bytes()
    } else {
        value.to_be_bytes()
    };
    data[at..at + 8].copy_from_slice(&bytes);
}

/// An unsigned executable of `len` bytes with a `__TEXT` segment, one section
/// at 0x1000, and a `__LINKEDIT` segment from 0x4000 to the end.
fn unsigned(is_64bit: bool, le: bool, len: usize) -> Vec<u8> {
    let mut data: Vec<u8> = (0..len).map(|i| (i * 7 + i / 256) as u8).collect();
    for byte in &mut data[..0x1000] {
        *byte = 0;
    }
    let header = if is_64bit { 32 } else { 28 };
    let (segment, section) = if is_64bit { (72, 80) } else { (56, 68) };
    let words = [
        if is_64bit { 0xfeed_facf } else { 0xfeed_face },
        if is_64bit { 0x0100_000c } else { 7 },
        0,
        2,
        2,
        (segment + section + segment) as u32,
    ];
    for (i, word) in words.iter().enumerate() {
        put32(&mut data, i * 4, *word, le);
    }
    let text = header;
    let linkedit = header + segment + section;
    for (at, name, size, fileoff, filesize, nsects) in [
        (text, &b"__TEXT"[..], segment + section, 0u64, 0x4000u64, 1u32),
        (
            linkedit,
            &b"__LINKEDIT"[..],
            segment,
            0x4000,
            len as u64 - 0x4000,
            0,
        ),
    ] {
        put32(&mut data, at, if is_64bit { 0x19 } else { 1 }, le);
        put32(&mut data, at + 4, size as u32, le);
        data[at + 8..at + 8 + name.len()].copy_from_slice(name);
        if is_64bit {
            put64(&mut data, at + 24, 0x1_0000_0000 + fileoff, le);
            put64(&mut data, at + 32, 0x4000, le);
            put64(&mut data, at + 40, fileoff, le);
            put64(&mut data, at + 48, filesize, le);
            put32(&mut data, at + 56, if nsects > 0 { 5 } else { 1 }, le);
            put32(&mut data, at + 60, if nsects > 0 { 5 } else { 1 }, le);
            put32(&mut data, at + 64, nsects, le);
        } else {
            put32(&mut data, at + 24, 0x1000 + fileoff as u32, le);
            put32(&mut data, at + 28, 0x4000, le);
            put32(&mut data, at + 32, fileoff as u32, le);
            put32(&mut data, at + 36, filesize as u32, le);
            put32(&mut data, at + 40, if nsects > 0 { 5 } else { 1 }, le);
            put32(&mut data, at + 44, if nsects > 0 { 5 } else { 1 }, le);
            put32(&mut data, at + 48, nsects, le);
        }
    }
    let offset_field = if is_64bit { text + 72 + 48 } else { text + 56 + 40 };
    put32(&mut data, offset_field, 0x1000, le);
    data
}

/// All combinations of word size and byte order, with aligned and unaligned
/// lengths.
fn all_unsigned() -> Vec<Vec<u8>> {
    let mut all = Vec::new();
    for is_64bit in [true, false] {
        for le in [true, false] {
            for len in [0x5000, 0x5000 + 123, 0x4001] {
                all.push(unsigned(is_64bit, le, len));
            }
        }
    }
    all
}

/// A binary with an ad-hoc signature.
fn adhoc() -> Vec<u8> {
    adhoc_sign(
        unsigned(true, true, 0x5000 + 123),
        &AdhocSignOptions::new("com.test.exe"),
    )
    .unwrap()
}

/// A fat binary with the given slices, each aligned to 2^12 bytes.
fn fat(slices: &[Vec<u8>]) -> Vec<u8> {
    let mut out = Vec::new();
    out.extend_from_slice(&0xcafe_babeu32.to_be_bytes());
    out.extend_from_slice(&(slices.len() as u32).to_be_bytes());
    let mut offset = 0x1000;
    for (i, slice) in slices.iter().enumerate() {
        for word in [7 + i as u32, 3, offset as u32, slice.len() as u32, 12] {
            out.extend_from_slice(&word.to_be_bytes());
        }
        offset += slice.len().div_ceil(0x1000) * 0x1000;
    }
    for slice in slices {
        out.resize(out.len().div_ceil(0x1000) * 0x1000, 0);
        out.extend_from_slice(slice);
    }
    out
}

/// Sign through the streaming signer, feeding the input in chunks of the
/// given size.
fn streaming_sign(data: &[u8], options: &AdhocSignOptions<'_>, chunk_size: usize) -> Vec<u8> {
    let mut signer = StreamingSigner::new(Vec::new(), options).unwrap();
    for chunk in data.chunks(chunk_size) {
        signer.write_all(chunk).unwrap();
    }
    signer.finish().unwrap()
}

#[test]
fn verify_rejects_tampered_binary() {
    let mut data = adhoc();
    // Flip a byte in the middle of the code (well before the signature).
    data[0x2000] ^= 0xff;
    let err = verify(&data).unwrap_err();
    assert!(matches!(err, SignError::VerificationFailed(_)));
    assert_eq!(
        err.message(),
        "signature verification failed: code page 2 hash mismatch"
    );
}

#[test]
fn verify_rejects_unsigned_binary() {
    for data in all_unsigned() {
        assert!(verify(&data).is_err());
    }
}

#[test]
fn adhoc_sign_produces_verifiable_signature() {
    for data in all_unsigned() {
        let options = AdhocSignOptions::new("test.identifier");
        let signed = adhoc_sign(data, &options).unwrap();

        let infos = verify(&signed).unwrap();
        assert_eq!(infos.len(), 1);
        assert_eq!(infos[0].identifier, "test.identifier");
        assert_eq!(infos[0].flags, CS_ADHOC);
        assert_eq!(infos[0].n_special_slots, 2);
        assert!(!infos[0].has_entitlements);
    }
}

#[test]
fn signing_is_idempotent() {
    let options = AdhocSignOptions::new("stable.identifier");
    for data in all_unsigned() {
        let once = adhoc_sign(data, &options).unwrap();
        let twice = adhoc_sign(once.clone(), &options).unwrap();
        assert_eq!(
            once, twice,
            "re-signing with identical options must be a no-op"
        );
    }
}

#[test]
fn the_old_signature_does_not_matter() {
    let options = AdhocSignOptions::new("test");
    let data = adhoc();
    let signed = adhoc_sign(data.clone(), &options).unwrap();
    // Other bytes in its place, or fewer, or none.
    let mut other = data.clone();
    for byte in &mut other[20608..] {
        *byte = 0xff;
    }
    assert_eq!(adhoc_sign(other.clone(), &options).unwrap(), signed);
    assert_eq!(streaming_sign(&other, &options, 1000), signed);
    other.truncate(20608 + 5);
    assert_eq!(adhoc_sign(other.clone(), &options).unwrap(), signed);
    other.truncate(20608);
    assert_eq!(adhoc_sign(other, &options).unwrap(), signed);
}

#[test]
fn signing_with_hardened_runtime_sets_flag() {
    let options = AdhocSignOptions::new("test").with_hardened_runtime();
    let signed = adhoc_sign(adhoc(), &options).unwrap();
    assert_eq!(verify(&signed).unwrap()[0].flags, CS_ADHOC | CS_RUNTIME);
}

#[test]
fn signing_with_linker_signed_sets_flag() {
    let options = AdhocSignOptions::new("test").with_linker_signed();
    let signed = adhoc_sign(adhoc(), &options).unwrap();
    assert_eq!(
        verify(&signed).unwrap()[0].flags,
        CS_ADHOC | CS_LINKER_SIGNED
    );
    assert!(is_linker_signed(&signed));

    // Signing again without the option takes the flag away.
    let again = adhoc_sign(signed, &AdhocSignOptions::new("test")).unwrap();
    assert!(!is_linker_signed(&again));
}

#[test]
fn custom_entitlements_roundtrip() {
    let options = AdhocSignOptions::new("test.entitled")
        .with_entitlements(Entitlements::Custom(TEST_ENTITLEMENTS));
    let signed = adhoc_sign(adhoc(), &options).unwrap();

    let infos = verify(&signed).unwrap();
    assert!(infos[0].has_entitlements);
    assert_eq!(infos[0].n_special_slots, 5);
    assert_eq!(
        extract_entitlements(&signed).as_deref(),
        Some(TEST_ENTITLEMENTS)
    );
}

#[test]
fn empty_entitlements_are_entitlements() {
    let options = AdhocSignOptions::new("test").with_entitlements(Entitlements::Custom(b""));
    let signed = adhoc_sign(adhoc(), &options).unwrap();
    assert!(verify(&signed).unwrap()[0].has_entitlements);
    assert_eq!(extract_entitlements(&signed).as_deref(), Some(&b""[..]));
}

#[test]
fn preserve_entitlements_keeps_existing_ones() {
    // First embed entitlements, then re-sign with `Preserve`.
    let entitled = adhoc_sign(
        adhoc(),
        &AdhocSignOptions::new("first").with_entitlements(Entitlements::Custom(TEST_ENTITLEMENTS)),
    )
    .unwrap();

    let resigned = adhoc_sign(
        entitled,
        &AdhocSignOptions::new("second").with_entitlements(Entitlements::Preserve),
    )
    .unwrap();

    assert_eq!(verify(&resigned).unwrap()[0].identifier, "second");
    assert_eq!(
        extract_entitlements(&resigned).as_deref(),
        Some(TEST_ENTITLEMENTS)
    );
}

#[test]
fn preserve_entitlements_on_binary_without_them_is_none() {
    let signed = adhoc_sign(
        adhoc(),
        &AdhocSignOptions::new("test").with_entitlements(Entitlements::Preserve),
    )
    .unwrap();
    assert!(!verify(&signed).unwrap()[0].has_entitlements);
}

#[test]
fn is_linker_signed_fixture() {
    let linker = adhoc_sign(
        unsigned(true, true, 0x5000),
        &AdhocSignOptions::new("ld").with_linker_signed(),
    )
    .unwrap();
    assert!(is_linker_signed(&linker));
    assert!(!is_linker_signed(&adhoc()));
    assert!(!is_linker_signed(&unsigned(true, true, 0x5000)));
    assert!(!is_linker_signed(b"not a binary"));
}

#[test]
fn fat_binary_is_signed_per_slice() {
    let slices = [unsigned(true, true, 0x5000 + 5), unsigned(false, false, 0x4800), adhoc()];
    let data = fat(&slices);
    let options = AdhocSignOptions::new("fat.test");
    let signed = adhoc_sign(data, &options).unwrap();

    let infos = verify(&signed).unwrap();
    assert_eq!(infos.len(), 3);
    for info in &infos {
        assert_eq!(info.identifier, "fat.test");
        assert_eq!(info.flags, CS_ADHOC);
    }

    // Each slice is what signing it by itself gives, at an aligned offset.
    for (i, slice) in slices.iter().enumerate() {
        let entry = 8 + i * 20;
        let word = |at: usize| {
            u32::from_be_bytes([signed[at], signed[at + 1], signed[at + 2], signed[at + 3]])
                as usize
        };
        let (offset, size) = (word(entry + 8), word(entry + 12));
        assert_eq!(word(entry), 7 + i);
        assert_eq!(word(entry + 16), 12);
        assert_eq!(offset % 0x1000, 0);
        let alone = adhoc_sign(slice.clone(), &options).unwrap();
        assert_eq!(signed[offset..offset + size], alone[..]);
    }

    // Signing again changes nothing.
    assert_eq!(adhoc_sign(signed.clone(), &options).unwrap(), signed);
}

#[test]
fn fat_slices_are_packed() {
    let slices = [unsigned(true, true, 0x5000 + 5), unsigned(false, false, 0x4800), adhoc()];
    let data = fat(&slices);
    let signed = adhoc_sign(data.clone(), &AdhocSignOptions::new("fat.test")).unwrap();
    assert_eq!(signed[..8], data[..8]);
    let mut end: usize = 8 + 3 * 20;
    for i in 0..3 {
        let word = |at: usize| {
            u32::from_be_bytes([signed[at], signed[at + 1], signed[at + 2], signed[at + 3]])
                as usize
        };
        let (offset, size) = (word(8 + i * 20 + 8), word(8 + i * 20 + 12));
        assert_eq!(offset, end.div_ceil(0x1000) * 0x1000);
        assert!(signed[end..offset].iter().all(|byte| *byte == 0));
        end = offset + size;
    }
    assert_eq!(signed.len(), end);
}

#[test]
fn fat_binary_streaming_is_rejected() {
    let data = fat(&[adhoc(), adhoc()]);
    let mut signer = StreamingSigner::new(Vec::new(), &AdhocSignOptions::new("fat.test")).unwrap();
    let err = signer.write_all(&data).unwrap_err();
    assert!(err.to_string().contains("streaming"), "{err}");
    let mut signer = StreamingSigner::new(Vec::new(), &AdhocSignOptions::new("fat.test")).unwrap();
    assert!(matches!(
        signer.process(&data),
        Err(SignError::FatBinaryNotStreamable)
    ));
}

#[test]
fn streaming_matches_in_memory() {
    let mut inputs = all_unsigned();
    inputs.push(adhoc());
    for data in inputs {
        let options = AdhocSignOptions::new("stream.test");
        let in_memory = adhoc_sign(data.clone(), &options).unwrap();
        verify(&in_memory).unwrap();

        // Chunk sizes chosen to hit page boundaries, header boundaries and
        // pathological single-byte writes.
        for chunk_size in [1usize, 7, 1000, 4095, 4096, 4097, 65536, data.len()] {
            let streamed = streaming_sign(&data, &options, chunk_size);
            assert_eq!(
                in_memory, streamed,
                "streaming output differs from in-memory output with chunk size {chunk_size}"
            );
        }
    }
}

#[test]
fn streaming_with_custom_entitlements_matches_in_memory() {
    let data = adhoc();
    let options = AdhocSignOptions::new("stream.entitled")
        .with_entitlements(Entitlements::Custom(TEST_ENTITLEMENTS));
    let in_memory = adhoc_sign(data.clone(), &options).unwrap();
    let streamed = streaming_sign(&data, &options, 8192);
    assert_eq!(in_memory, streamed);
    assert!(verify(&streamed).unwrap()[0].has_entitlements);
}

#[test]
fn streaming_rejects_preserve_entitlements() {
    let options = AdhocSignOptions::new("test").with_entitlements(Entitlements::Preserve);
    assert!(matches!(
        StreamingSigner::new(Vec::new(), &options),
        Err(SignError::CannotPreserveWhenStreaming)
    ));
}

#[test]
fn streaming_rejects_truncated_input() {
    let data = adhoc();
    let options = AdhocSignOptions::new("test");

    // Cut off in the middle of the code pages.
    let mut signer = StreamingSigner::new(Vec::new(), &options).unwrap();
    signer.write_all(&data[..8192]).unwrap();
    assert!(matches!(
        signer.finish(),
        Err(SignError::TruncatedInput { .. })
    ));

    // Cut off in the middle of the header.
    let mut signer = StreamingSigner::new(Vec::new(), &options).unwrap();
    signer.write_all(&data[..16]).unwrap();
    assert!(matches!(
        signer.finish(),
        Err(SignError::TruncatedInput { .. })
    ));

    // Empty input.
    let signer = StreamingSigner::new(Vec::new(), &options).unwrap();
    assert!(matches!(signer.finish(), Err(SignError::NotMachO)));
}

#[test]
fn truncation_is_reported_in_bytes() {
    let data = adhoc();
    let options = AdhocSignOptions::new("test");
    for (len, expected) in [(16usize, 32u64), (40, 272), (8192, 20608)] {
        let mut signer = StreamingSigner::new(Vec::new(), &options).unwrap();
        signer.write_all(&data[..len]).unwrap();
        match signer.finish() {
            Err(SignError::TruncatedInput { expected: e, got }) => {
                assert_eq!(e, expected);
                assert_eq!(got, len as u64);
            }
            _ => panic!("truncation to {len} bytes must be reported"),
        }
    }
    match adhoc_sign(data[..8192].to_vec(), &options) {
        Err(SignError::TruncatedInput { expected, got }) => {
            assert_eq!(expected, 20608);
            assert_eq!(got, 8192);
        }
        _ => panic!("truncation must be reported"),
    }
}

#[test]
fn truncation_asks_for_more_than_came() {
    let options = AdhocSignOptions::new("test");
    let bytes_of = |data: &[u8]| {
        let mut signer = StreamingSigner::new(Vec::new(), &options).unwrap();
        signer.write_all(data).unwrap();
        match signer.finish() {
            Err(SignError::TruncatedInput { expected, got }) => (expected, got),
            _ => panic!("truncation must be reported"),
        }
    };

    // A header without load commands needs room for one.
    let mut data = vec![0u8; 32];
    put32(&mut data, 0, 0xfeed_facf, true);
    assert_eq!(bytes_of(&data), (48, 32));
    data.extend_from_slice(&[0; 15]);
    assert_eq!(bytes_of(&data), (48, 47));
    let mut data = vec![0u8; 28];
    put32(&mut data, 0, 0xfeed_face, false);
    assert_eq!(bytes_of(&data), (44, 28));

    // All load commands are there, but not the room for another one.
    let data = unsigned(true, true, 0x5000);
    assert_eq!(bytes_of(&data[..255]), (256, 255));
    assert_eq!(bytes_of(&data[..256]), (272, 256));
    assert_eq!(bytes_of(&data[..271]), (272, 271));

    // A 32-bit header is shorter.
    let data = unsigned(false, false, 0x5000);
    assert_eq!(bytes_of(&data[..4]), (28, 4));
    assert_eq!(bytes_of(&data[..27]), (28, 27));
    assert_eq!(bytes_of(&data[..28]), (208, 28));
}

#[test]
fn only_zero_padding_makes_room_for_a_command() {
    let options = AdhocSignOptions::new("test");
    for at in [256, 263, 271] {
        let mut data = unsigned(true, true, 0x5000);
        data[at] = 1;
        assert!(matches!(
            adhoc_sign(data.clone(), &options),
            Err(SignError::InsufficientHeaderPadding)
        ));
        let mut signer = StreamingSigner::new(Vec::new(), &options).unwrap();
        assert!(matches!(
            signer.process(&data),
            Err(SignError::InsufficientHeaderPadding)
        ));

        let info = parse_load_info(&data).unwrap();
        let mut prefix = data.clone();
        assert!(matches!(
            insert_codesig_cmd(&mut prefix, &info, 0x5000),
            Err(SignError::InsufficientHeaderPadding)
        ));
        assert_eq!(prefix, data);
    }
    // What comes after that room does not matter.
    let mut data = unsigned(true, true, 0x5000);
    data[272] = 1;
    let signed = adhoc_sign(data, &options).unwrap();
    assert_eq!(signed[272], 1);
    assert_eq!(verify(&signed).unwrap().len(), 1);
}

#[test]
fn output_can_be_taken_while_streaming() {
    let data = unsigned(true, true, 0x5000 + 123);
    let options = AdhocSignOptions::new("taken");
    let expected = adhoc_sign(data.clone(), &options).unwrap();

    let mut signer = StreamingSigner::new(b"before".to_vec(), &options).unwrap();
    let mut out = Vec::new();
    for chunk in data.chunks(999) {
        assert_eq!(signer.write(chunk).unwrap(), chunk.len());
        out.extend_from_slice(&signer.take_output());
    }
    out.extend_from_slice(&signer.finish().unwrap());
    assert_eq!(out[..6], b"before"[..]);
    assert_eq!(out[6..], expected[..]);
}

#[test]
fn into_inner_returns_what_was_written() {
    let data = adhoc();
    let mut signer = StreamingSigner::new(Vec::new(), &AdhocSignOptions::new("x")).unwrap();
    signer.write_all(&data[..100]).unwrap();
    signer.write_all(&data[100..5000]).unwrap();
    let written = signer.into_inner();
    assert_eq!(written.len(), 5000);
    // Only the load commands have been changed.
    assert_eq!(written[272..], data[272..5000]);
}

#[test]
fn an_error_while_streaming_becomes_an_io_error() {
    let mut signer = StreamingSigner::new(Vec::new(), &AdhocSignOptions::new("x")).unwrap();
    assert_eq!(signer.write(b"#!").unwrap(), 2);
    let err = signer.write(b"/bin/sh").unwrap_err();
    assert_eq!(err.kind(), std::io::ErrorKind::InvalidData);
    assert_eq!(err.to_string(), "not a Mach-O binary");

    let err = signer.write_all(b"\n").unwrap_err();
    assert_eq!(err.kind(), std::io::ErrorKind::InvalidData);
    assert_eq!(err.to_string(), "not a Mach-O binary");
    // Nothing is written where there is nothing to write.
    signer.write_all(b"").unwrap();
    assert_eq!(
        signer.write(b"").unwrap_err().to_string(),
        "not a Mach-O binary"
    );
}

#[test]
fn a_command_is_not_inserted_into_a_short_prefix() {
    let data = unsigned(true, true, 0x5000);
    let info = parse_load_info(&data).unwrap();
    for len in [0, 20, 255, 256, 271] {
        let mut prefix = data[..len].to_vec();
        assert_eq!(
            insert_codesig_cmd(&mut prefix, &info, 0x5000)
                .unwrap_err()
                .message(),
            "malformed Mach-O binary: load command area extends past the end of the binary"
        );
        assert_eq!(prefix, data[..len]);
    }
    // Where the sections leave no room, the length does not matter.
    let mut crowded = data.clone();
    put32(&mut crowded, 32 + 72 + 48, 256 + 15, true);
    let info = parse_load_info(&crowded).unwrap();
    let mut prefix = Vec::new();
    assert!(matches!(
        insert_codesig_cmd(&mut prefix, &info, 0x5000),
        Err(SignError::InsufficientHeaderPadding)
    ));
    assert!(prefix.is_empty());

    // With enough room the command, its size, the offset and a zero follow.
    let info = parse_load_info(&data).unwrap();
    let mut prefix = data[..272].to_vec();
    assert_eq!(insert_codesig_cmd(&mut prefix, &info, 0x5000).unwrap(), 256);
    let mut expected = data[..272].to_vec();
    put32(&mut expected, 16, 3, true);
    put32(&mut expected, 20, 224 + 16, true);
    put32(&mut expected, 256, 0x1d, true);
    put32(&mut expected, 260, 16, true);
    put32(&mut expected, 264, 0x5000, true);
    assert_eq!(prefix, expected);
}

#[test]
fn malformed_input_errors_instead_of_panicking() {
    let options = AdhocSignOptions::new("test");

    // Truncations of a real binary at every interesting boundary.
    let data = adhoc();
    for len in [0, 1, 3, 4, 8, 27, 28, 31, 32, 100, 4096] {
        let truncated = data[..len].to_vec();
        assert!(
            adhoc_sign(truncated, &options).is_err(),
            "truncation to {len} bytes must error"
        );
    }

    // Garbage with a valid magic.
    let mut garbage = vec![0u8; 1024];
    garbage[..4].copy_from_slice(&[0xcf, 0xfa, 0xed, 0xfe]);
    garbage[16..20].copy_from_slice(&1000u32.to_le_bytes()); // ncmds
    garbage[20..24].copy_from_slice(&u32::MAX.to_le_bytes()); // sizeofcmds
    assert!(adhoc_sign(garbage, &options).is_err());

    // Random bytes fed to the verifier.
    assert!(verify(b"\xcf\xfa\xed\xfe garbage").is_err());
    assert!(verify(&[]).is_err());
}

#[test]
fn unsigned_binary_gains_a_signature() {
    for data in all_unsigned() {
        let signed = adhoc_sign(data.clone(), &AdhocSignOptions::new("fresh")).unwrap();
        assert!(signed.len() > data.len());
        let infos = verify(&signed).unwrap();
        assert_eq!(infos[0].identifier, "fresh");
        // The code after the load commands is kept, and zeros fill the gap up
        // to the signature, which starts at a multiple of 16.
        let limit = infos[0].code_limit as usize;
        assert_eq!(limit % 16, 0);
        assert_eq!(signed[0x1000..data.len()], data[0x1000..]);
        assert!(signed[data.len()..limit].iter().all(|byte| *byte == 0));
    }
}

#[test]
fn an_identifier_ends_at_its_first_nul() {
    let options = AdhocSignOptions::new("caf\u{e9}\u{1f600}\0rest");
    let signed = adhoc_sign(adhoc(), &options).unwrap();
    assert_eq!(verify(&signed).unwrap()[0].identifier, "caf\u{e9}\u{1f600}");
}

#[test]
fn the_cd_hash_tells_code_apart() {
    let options = AdhocSignOptions::new("same");
    let one = adhoc_sign(unsigned(true, true, 0x5000), &options).unwrap();
    let mut other = unsigned(true, true, 0x5000);
    other[0x3fff] ^= 1;
    let other = adhoc_sign(other, &options).unwrap();
    let one = verify(&one).unwrap()[0].clone();
    let other = verify(&other).unwrap()[0].clone();
    assert_ne!(one.cd_hash, other.cd_hash);
    assert_eq!(one.code_limit, other.code_limit);
    assert_eq!(one.n_code_slots, 5);
}

fn hex(bytes: &[u8]) -> String {
    let mut text = String::new();
    for byte in bytes {
        text.push_str(&format!("{byte:02x}"));
    }
    text
}

#[test]
fn signatures_have_exact_bytes() {
    let cases: [(bool, bool, usize, &str, usize, &str); 3] = [
        (
            true,
            true,
            0x5000 + 123,
            "com.example.app",
            22048,
            "65bb7394747639a626ac0fcbab59f2778a50458f1cb3d2bf6a264a4bcd7dae95",
        ),
        (
            false,
            false,
            0x4800,
            "be32",
            19840,
            "8542f07c07e14b8e7725c56d4457c55b8ba0ebd0e921a50c3be03e1e4c386410",
        ),
        (
            true,
            false,
            0x6001,
            "x",
            26064,
            "470376edc1198644096cfa5f34bf1a1e1c6176ec02faf96c6deebb5006c0ed6f",
        ),
    ];
    for (is_64bit, le, len, identifier, signed_len, cd_hash) in cases {
        let data = unsigned(is_64bit, le, len);
        let options = AdhocSignOptions::new(identifier);
        let signed = adhoc_sign(data.clone(), &options).unwrap();
        assert_eq!(signed.len(), signed_len);
        assert_eq!(hex(&verify(&signed).unwrap()[0].cd_hash), cd_hash);
        assert_eq!(streaming_sign(&data, &options, 4096), signed);
    }
    let options = AdhocSignOptions::new("entitled")
        .with_hardened_runtime()
        .with_linker_signed()
        .with_entitlements(Entitlements::Custom(b"<plist/>"));
    let signed = adhoc_sign(unsigned(true, true, 0x5000 + 123), &options).unwrap();
    assert_eq!(signed.len(), 22176);
    assert_eq!(
        hex(&verify(&signed).unwrap()[0].cd_hash),
        "084fc483d31af795b2a718222709172df411d02edb9116e2eb7992e16bba3f31"
    );
}

#[test]
fn the_signed_file_has_exact_bytes() {
    for (is_64bit, le, len, identifier, digest) in [
        (
            true,
            true,
            0x5000 + 123,
            "com.example.app",
            "aa7caeb878985cf5604368bf3765d3aee5dc7d6dc7963a9a2a6b499a0823cd76",
        ),
        (
            false,
            false,
            0x4800,
            "be32",
            "d716bd970cfb10aeb2e9dfab3b9cd7183bf638b4074e3ac1d51516df34617395",
        ),
        (
            true,
            false,
            0x6001,
            "x",
            "0ede3d57b2514404d255c1dd6006da9110e040e673f2e67dc6ba993a21542da5",
        ),
    ] {
        let data = unsigned(is_64bit, le, len);
        let signed = adhoc_sign(data, &AdhocSignOptions::new(identifier)).unwrap();
        let actual = <sha2::Sha256 as sha2::Digest>::digest(&signed);
        assert_eq!(hex(&actual), digest);
    }
}

#[test]
fn special_slots_hold_known_digests() {
    let signed = adhoc_sign(
        unsigned(true, true, 0x5000),
        &AdhocSignOptions::new("test").with_entitlements(Entitlements::Custom(b"<plist/>")),
    )
    .unwrap();
    let start = verify(&signed).unwrap()[0].code_limit as usize;
    // The CodeDirectory comes after four index entries; its special slots come
    // after the identifier.
    let cd = start + 12 + 4 * 8;
    let specials = cd + 88 + 5;
    let slot = |n: usize| specials + (5 - n) * 32;
    assert_eq!(
        hex(&signed[slot(2)..slot(2) + 32]),
        "987920904eab650e75788c054aa0b0524e6a80bfc71aa32df8d237a61743f986"
    );
    let blob = b"\xfa\xde\x71\x71\x00\x00\x00\x10<plist/>";
    let digest = <sha2::Sha256 as sha2::Digest>::digest(blob);
    assert_eq!(signed[slot(5)..slot(5) + 32], digest[..]);
    for empty in [1, 3, 4] {
        assert!(signed[slot(empty)..slot(empty) + 32]
            .iter()
            .all(|byte| *byte == 0));
    }
}

#[test]
fn the_32_bit_segment_size_is_patched() {
    let signed = adhoc_sign(unsigned(false, true, 0x4800), &AdhocSignOptions::new("x")).unwrap();
    let at = 28 + 56 + 68;
    let word = |at: usize| {
        u32::from_le_bytes([signed[at], signed[at + 1], signed[at + 2], signed[at + 3]])
    };
    assert_eq!(word(at + 24), 0x5000); // vmaddr
    assert_eq!(word(at + 28), 0x4000); // vmsize
    assert_eq!(word(at + 32), 0x4000); // fileoff
    assert_eq!(word(at + 36) as usize, signed.len() - 0x4000); // filesize
}

#[test]
fn what_cannot_be_signed_is_refused() {
    let options = AdhocSignOptions::new("test");
    let refuse = |data: Vec<u8>| adhoc_sign(data, &options).unwrap_err();

    assert!(matches!(refuse(b"\x7fELF".to_vec()), SignError::NotMachO));
    assert!(matches!(
        refuse(vec![0xca, 0xfe, 0xba, 0xbf]),
        SignError::Fat64Unsupported
    ));

    // No __LINKEDIT.
    let mut data = unsigned(true, true, 0x5000);
    data[184 + 8] = b'x';
    assert!(matches!(refuse(data), SignError::MissingLinkedit));

    // The first section leaves no room for another command.
    let mut data = unsigned(true, true, 0x5000);
    put32(&mut data, 32 + 72 + 48, 256 + 15, true);
    assert!(matches!(refuse(data), SignError::InsufficientHeaderPadding));

    // The signature would start beyond 4 GiB.
    let mut data = unsigned(true, true, 0x5000);
    put64(&mut data, 184 + 48, 0xffff_ffff, true);
    let err = refuse(data);
    assert_eq!(
        err.message(),
        "binary too large to sign: code signature would start beyond the 4 GiB limit"
    );
    let mut data = unsigned(true, true, 0x5000);
    put64(&mut data, 184 + 48, u64::MAX, true);
    assert_eq!(
        refuse(data).message(),
        "malformed Mach-O binary: __LINKEDIT segment overflows"
    );
    // It would end beyond 4 GiB.
    let mut data = unsigned(true, true, 0x5000);
    put64(&mut data, 184 + 48, 0xffff_fff0 - 0x4000, true);
    assert_eq!(
        refuse(data).message(),
        "binary too large to sign: signature blob does not fit within the first 4 GiB of the file"
    );

    // The old signature starts within the load commands.
    let mut data = adhoc();
    put32(&mut data, 256 + 8, 271, true);
    assert_eq!(
        refuse(data).message(),
        "malformed Mach-O binary: code signature region overlaps the load commands"
    );
    // __LINKEDIT starts after the signature.
    let mut data = adhoc();
    put64(&mut data, 184 + 40, 0x1_0000_0000, true);
    assert_eq!(
        refuse(data).message(),
        "malformed Mach-O binary: __LINKEDIT segment starts after the code signature"
    );
    let mut data = adhoc();
    put64(&mut data, 184 + 40, 20608 + 16, true);
    assert_eq!(
        refuse(data).message(),
        "malformed Mach-O binary: __LINKEDIT segment starts after the code signature"
    );
    // It may start with the signature.
    let mut data = adhoc();
    put64(&mut data, 184 + 40, 20608, true);
    let signed = adhoc_sign(data, &options).unwrap();
    assert_eq!(verify(&signed).unwrap()[0].code_limit, 20608);
    // The file ends right after the load commands.
    let data = unsigned(true, true, 0x5000)[..260].to_vec();
    assert_eq!(
        refuse(data).message(),
        "malformed Mach-O binary: binary ends within its load command area"
    );
}

#[test]
fn fat_headers_are_checked() {
    let options = AdhocSignOptions::new("test");
    let refuse = |data: Vec<u8>| adhoc_sign(data, &options).unwrap_err().message();

    assert_eq!(
        refuse(vec![0xca, 0xfe, 0xba, 0xbe]),
        "malformed Mach-O binary: unexpected end of data while reading fat arch count"
    );
    assert_eq!(
        refuse(fat(&[])),
        "malformed Mach-O binary: fat binary declares 0 architecture slices"
    );
    let mut data = fat(&[adhoc()]);
    data[7] = 129;
    assert_eq!(
        refuse(data),
        "malformed Mach-O binary: fat binary declares 129 architecture slices"
    );
    let mut data = fat(&[adhoc(), adhoc()]);
    data[8 + 20 + 19] = 31;
    assert_eq!(
        refuse(data),
        "malformed Mach-O binary: fat slice 1 has invalid alignment 2^31"
    );
    let mut data = fat(&[adhoc(), adhoc()]);
    data.truncate(data.len() - 1);
    assert_eq!(
        refuse(data.clone()),
        "malformed Mach-O binary: fat slice 1 extends past the end of the file"
    );
    assert_eq!(
        verify(&data).unwrap_err().message(),
        "signature verification failed: fat slice 1 extends past the end of the file"
    );
    data.truncate(14);
    assert_eq!(
        refuse(data),
        "malformed Mach-O binary: unexpected end of data while reading fat cpusubtype"
    );

    // An error in a slice names the slice.
    let data = fat(&[adhoc(), unsigned(true, true, 0x5000)]);
    assert_eq!(
        verify(&data).unwrap_err().message(),
        "signature verification failed: fat slice 1: signature verification failed: \
         binary has no LC_CODE_SIGNATURE load command"
    );
}
