//! Decisions of signing a file, and the commands of the program.

use arwen_codesign::blob::entitlements_from_superblob;
use arwen_codesign::cli::macho::codesign::Args;
use arwen_codesign::cli::macho::Patch;
use arwen_codesign::cli::{Command, Dispatch, ElfCommand, MachoCommand};
use arwen_codesign::file::{
    file_mode, prefix_to_read, resolve_options, signature_to_read, FileMode,
};
use arwen_codesign::{
    adhoc_sign, cli, extract_entitlements, AdhocSignOptions, Entitlements, SignError,
    StreamingSigner,
};

fn put32(data: &mut [u8], at: usize, value: u32) {
    data[at..at + 4].copy_from_slice(&value.to_le_bytes());
}

/// An unsigned library of 0x3003 bytes with nothing but `__LINKEDIT`.
fn library() -> Vec<u8> {
    let mut data = vec![0xa5u8; 0x3003];
    for byte in &mut data[..0x200] {
        *byte = 0;
    }
    put32(&mut data, 0, 0xfeed_facf);
    put32(&mut data, 12, 6);
    put32(&mut data, 16, 1);
    put32(&mut data, 20, 72);
    put32(&mut data, 32, 0x19);
    put32(&mut data, 36, 72);
    data[40..50].copy_from_slice(b"__LINKEDIT");
    put32(&mut data, 32 + 40, 0x1000);
    put32(&mut data, 32 + 48, 0x2003);
    data
}

/// The entitlements of a file, read in parts.
fn entitlements_by_parts(file: &[u8]) -> Option<Vec<u8>> {
    let file_len = file.len() as u64;
    let header = &file[..file.len().min(32)];
    let prefix = prefix_to_read(header, file_len)?;
    let (offset, size) = signature_to_read(&file[..prefix], file_len)?;
    let start = offset as usize;
    entitlements_from_superblob(&file[start..start + size as usize])
}

#[test]
fn the_magic_decides_how_a_file_is_signed() {
    assert!(matches!(file_mode(&library()[..4]), Ok(FileMode::Streaming)));
    assert!(matches!(
        file_mode(&[0xca, 0xfe, 0xba, 0xbe]),
        Ok(FileMode::InMemory)
    ));
    assert!(matches!(
        file_mode(&[0xca, 0xfe, 0xba, 0xbf]),
        Err(SignError::Fat64Unsupported)
    ));
    assert!(matches!(file_mode(b"#!/b"), Err(SignError::NotMachO)));
    assert!(matches!(file_mode(b""), Err(SignError::NotMachO)));
}

#[test]
fn only_the_needed_parts_of_a_file_are_read() {
    let options =
        AdhocSignOptions::new("test").with_entitlements(Entitlements::Custom(b"<plist/>"));
    let signed = adhoc_sign(library(), &options).unwrap();
    let len = signed.len() as u64;
    assert_eq!(prefix_to_read(&signed[..32], len), Some(32 + 72 + 16));
    assert_eq!(
        signature_to_read(&signed[..120], len),
        Some((0x3010, (len - 0x3010) as u32))
    );
    assert_eq!(
        entitlements_by_parts(&signed).as_deref(),
        Some(&b"<plist/>"[..])
    );
    assert_eq!(entitlements_by_parts(&signed), extract_entitlements(&signed));

    // Nothing to read.
    assert_eq!(entitlements_by_parts(&library()), None);
    assert_eq!(prefix_to_read(b"#!/bin/sh", 9), None);
    assert_eq!(prefix_to_read(&[0xca, 0xfe, 0xba, 0xbe], 1000), None);
    assert_eq!(prefix_to_read(&signed[..31], len), None);
    assert_eq!(prefix_to_read(&signed[..32], 119), None);
    assert_eq!(signature_to_read(&signed[..120], len - 1), None);
    assert_eq!(signature_to_read(&signed[..119], len), None);

    // A signature that is empty, or larger than what is worth reading.
    let mut other = signed[..120].to_vec();
    put32(&mut other, 104 + 12, 0);
    assert_eq!(signature_to_read(&other, len), None);
    put32(&mut other, 104 + 12, 0x100_0001);
    assert_eq!(signature_to_read(&other, u64::MAX), None);
    put32(&mut other, 104 + 12, 0x100_0000);
    assert_eq!(
        signature_to_read(&other, u64::MAX),
        Some((0x3010, 0x100_0000))
    );
}

#[test]
fn preserving_in_a_stream_matches_preserving_in_memory() {
    let entitled = adhoc_sign(
        library(),
        &AdhocSignOptions::new("first").with_entitlements(Entitlements::Custom(b"<plist/>")),
    )
    .unwrap();
    for data in [library(), entitled] {
        let options =
            AdhocSignOptions::new("file.test").with_entitlements(Entitlements::Preserve);
        let in_memory = adhoc_sign(data.clone(), &options).unwrap();
        let preserved = entitlements_by_parts(&data);
        let resolved = resolve_options(&options, &preserved);
        let mut signer = StreamingSigner::new(Vec::new(), &resolved).unwrap();
        for chunk in data.chunks(1234) {
            signer.write_all(chunk).unwrap();
        }
        assert_eq!(signer.finish().unwrap(), in_memory);
    }
}

#[test]
fn other_entitlements_are_not_resolved() {
    let preserved = Some(b"old".to_vec());
    let options = AdhocSignOptions::new("x").with_entitlements(Entitlements::Custom(b"new"));
    let resolved = resolve_options(&options, &preserved);
    assert!(matches!(resolved.entitlements, Entitlements::Custom(b"new")));
    let options = AdhocSignOptions::new("x").with_hardened_runtime();
    let resolved = resolve_options(&options, &preserved);
    assert!(matches!(resolved.entitlements, Entitlements::Omit));
    assert!(resolved.hardened_runtime);
    assert!(!resolved.linker_signed);
}

#[test]
fn arguments_become_options() {
    let mut args = Args {
        identifier: "com.example".to_string(),
        file: "a.out".to_string(),
        hardened_runtime: false,
        preserve_entitlements: false,
        linker_signed: false,
    };
    let options = cli::macho::codesign::execute(&args);
    assert_eq!(options.identifier, "com.example");
    assert!(!options.hardened_runtime);
    assert!(!options.linker_signed);
    assert!(matches!(options.entitlements, Entitlements::Omit));

    args.hardened_runtime = true;
    args.preserve_entitlements = true;
    args.linker_signed = true;
    let options = cli::macho::codesign::execute(&args);
    assert!(options.hardened_runtime);
    assert!(options.linker_signed);
    assert!(matches!(options.entitlements, Entitlements::Preserve));
    assert_eq!(args.file, "a.out");
}

#[test]
fn commands_are_dispatched() {
    let sign: Command<u8, &str> = Command::Macho(MachoCommand::AdhocSign(Args {
        identifier: "id".to_string(),
        file: "binary",
        hardened_runtime: false,
        preserve_entitlements: false,
        linker_signed: false,
    }));
    match cli::execute(sign) {
        Dispatch::Codesign(args) => assert_eq!(args.file, "binary"),
        _ => panic!("signing has its own handler"),
    }
    let add: Command<u8, &str> = Command::Macho(MachoCommand::AddRpath(7));
    match cli::execute(add) {
        Dispatch::Macho(command) => {
            assert!(matches!(cli::macho::execute(command), Patch::AddRpath(7)));
        }
        _ => panic!("Mach-O commands go to the Mach-O handler"),
    }
    let elf: Command<u8, &str> = Command::Elf(ElfCommand::SetSoname(3));
    assert!(matches!(
        cli::execute(elf),
        Dispatch::Elf(ElfCommand::SetSoname(3))
    ));
}

#[test]
fn errors_convert_into_io_errors() {
    let inner = std::io::Error::new(std::io::ErrorKind::NotFound, "gone");
    let err = SignError::Io(inner);
    assert_eq!(err.message(), "gone");
    let err = err.into_io_error();
    assert_eq!(err.kind(), std::io::ErrorKind::NotFound);
    // And back.
    match SignError::from(err) {
        SignError::Io(err) => assert_eq!(err.kind(), std::io::ErrorKind::NotFound),
        other => panic!("{other:?}"),
    }

    let err = SignError::TruncatedInput {
        expected: 4096,
        got: 12,
    };
    let err = err.into_io_error();
    assert_eq!(err.kind(), std::io::ErrorKind::InvalidData);
    assert_eq!(
        err.to_string(),
        "input ended prematurely: expected at least 4096 bytes, got 12"
    );
}

#[test]
fn every_error_has_its_text() {
    for (err, text) in [
        (SignError::NotMachO, "not a Mach-O binary"),
        (
            SignError::FatBinaryNotStreamable,
            "fat (universal) Mach-O binaries cannot be signed in a single streaming pass; \
             use `adhoc_sign` or `adhoc_sign_file` instead",
        ),
        (
            SignError::CannotPreserveWhenStreaming,
            "`Entitlements::Preserve` is not supported by the streaming signer; extract the \
             entitlements up front with `extract_entitlements` and pass `Entitlements::Custom`",
        ),
        (
            SignError::MissingLinkedit,
            "binary has no __LINKEDIT segment",
        ),
        (
            SignError::InsufficientHeaderPadding,
            "not enough header padding to insert an LC_CODE_SIGNATURE load command; \
             relink the binary with `-Wl,-headerpad,0x100`",
        ),
        (
            SignError::TooLarge("why".to_string()),
            "binary too large to sign: why",
        ),
    ] {
        assert_eq!(err.message(), text);
    }
}
