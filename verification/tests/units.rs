//! Options, magic numbers and load command parsing.

use arwen_codesign::layout::Layout;
use arwen_codesign::macho::parse_load_info;
use arwen_codesign::{macho_kind, AdhocSignOptions, Entitlements, MachOKind, SignError};

#[test]
fn options_builder() {
    let options = AdhocSignOptions::new("com.example.test");
    assert_eq!(options.identifier, "com.example.test");
    assert!(!options.hardened_runtime);
    assert!(!options.linker_signed);

    let options = AdhocSignOptions::new("com.example.test")
        .with_hardened_runtime()
        .with_linker_signed();
    assert!(options.hardened_runtime);
    assert!(options.linker_signed);
}

#[test]
fn options_keep_what_they_were_given() {
    let options = AdhocSignOptions::new("id")
        .with_entitlements(Entitlements::Custom(b"plist"))
        .with_linker_signed();
    let copy = options.clone();
    assert_eq!(copy.identifier, "id");
    assert!(!copy.hardened_runtime);
    assert!(copy.linker_signed);
    assert!(matches!(copy.entitlements, Entitlements::Custom(b"plist")));
    assert!(matches!(Entitlements::default(), Entitlements::Omit));
}

#[test]
fn classify_magics() {
    assert_eq!(
        macho_kind(&[0xcf, 0xfa, 0xed, 0xfe]),
        Some(MachOKind::Thin64 {
            little_endian: true
        })
    );
    assert_eq!(
        macho_kind(&[0xfe, 0xed, 0xfa, 0xcf]),
        Some(MachOKind::Thin64 {
            little_endian: false
        })
    );
    assert_eq!(
        macho_kind(&[0xce, 0xfa, 0xed, 0xfe]),
        Some(MachOKind::Thin32 {
            little_endian: true
        })
    );
    assert_eq!(macho_kind(&[0xca, 0xfe, 0xba, 0xbe]), Some(MachOKind::Fat));
    assert_eq!(
        macho_kind(&[0xca, 0xfe, 0xba, 0xbf]),
        Some(MachOKind::Fat64)
    );
    assert_eq!(macho_kind(&[0x7f, b'E', b'L', b'F']), None);
    assert_eq!(macho_kind(&[0xcf]), None);
    assert_eq!(macho_kind(&[]), None);
}

#[test]
fn kinds_know_their_header() {
    let thin = macho_kind(&[0xfe, 0xed, 0xfa, 0xce]).unwrap();
    assert!(thin.is_thin());
    assert_eq!(thin.header_size(), 28);
    assert!(!thin.little_endian());
    let fat = macho_kind(&[0xca, 0xfe, 0xba, 0xbe]).unwrap();
    assert!(!fat.is_thin());
    assert_eq!(fat.header_size(), 8);
}

#[test]
fn truncated_input_does_not_panic() {
    // Valid magic but nothing else.
    let data = [0xcf, 0xfa, 0xed, 0xfe];
    assert!(parse_load_info(&data).is_err());

    // Header claims load commands that are not there.
    let mut data = vec![0u8; 32];
    data[..4].copy_from_slice(&[0xcf, 0xfa, 0xed, 0xfe]);
    data[16..20].copy_from_slice(&5u32.to_le_bytes()); // ncmds
    data[20..24].copy_from_slice(&1024u32.to_le_bytes()); // sizeofcmds
    assert!(parse_load_info(&data).is_err());
}

#[test]
fn zero_sized_load_command_is_rejected() {
    // A load command with cmdsize == 0 must not hang or panic.
    let mut data = vec![0u8; 64];
    data[..4].copy_from_slice(&[0xcf, 0xfa, 0xed, 0xfe]);
    data[16..20].copy_from_slice(&2u32.to_le_bytes()); // ncmds
    data[20..24].copy_from_slice(&32u32.to_le_bytes()); // sizeofcmds
                                                        // first command: cmd = 0, cmdsize = 0
    assert!(matches!(
        parse_load_info(&data),
        Err(SignError::Malformed(_))
    ));
}

/// A little-endian 64-bit header with the given load commands after it.
fn with_commands(ncmds: u32, commands: &[u8]) -> Vec<u8> {
    let mut data = vec![0u8; 32];
    data[..4].copy_from_slice(&[0xcf, 0xfa, 0xed, 0xfe]);
    data[12..16].copy_from_slice(&2u32.to_le_bytes());
    data[16..20].copy_from_slice(&ncmds.to_le_bytes());
    data[20..24].copy_from_slice(&(commands.len() as u32).to_le_bytes());
    data.extend_from_slice(commands);
    data
}

fn message(data: &[u8]) -> String {
    parse_load_info(data).unwrap_err().message()
}

#[test]
fn parse_errors_say_what_is_wrong() {
    assert_eq!(message(b"\x7fELF"), "not a Mach-O binary");
    assert_eq!(
        message(&[0xcf, 0xfa, 0xed, 0xfe]),
        "malformed Mach-O binary: unexpected end of data while reading Mach-O header"
    );
    assert_eq!(
        message(&[0xca, 0xfe, 0xba, 0xbe]),
        "malformed Mach-O binary: expected a thin Mach-O binary, found a fat binary"
    );
    assert_eq!(
        message(&[0xca, 0xfe, 0xba, 0xbf]),
        "fat (universal) Mach-O binaries with 64-bit fat headers are not supported"
    );
    let mut data = with_commands(0, &[]);
    data[20..24].copy_from_slice(&0x100_0001u32.to_le_bytes());
    assert_eq!(
        message(&data),
        "malformed Mach-O binary: sizeofcmds (16777217) exceeds the maximum supported size"
    );
    data[20..24].copy_from_slice(&8u32.to_le_bytes());
    assert_eq!(
        message(&data),
        "malformed Mach-O binary: unexpected end of data while reading load commands"
    );
    assert_eq!(
        message(&with_commands(1, &[])),
        "malformed Mach-O binary: unexpected end of data while reading load command type"
    );
    assert_eq!(
        message(&with_commands(1, &[1, 0, 0, 0])),
        "malformed Mach-O binary: unexpected end of data while reading load command size"
    );
    assert_eq!(
        message(&with_commands(1, &[2, 0, 0, 0, 9, 0, 0, 0])),
        "malformed Mach-O binary: load command at offset 32 has invalid size 9"
    );
    assert_eq!(
        message(&with_commands(1, &[0x1d, 0, 0, 0, 8, 0, 0, 0])),
        "malformed Mach-O binary: LC_CODE_SIGNATURE command is too small"
    );
    assert_eq!(
        message(&with_commands(1, &[0x19, 0, 0, 0, 8, 0, 0, 0])),
        "malformed Mach-O binary: segment load command is too small"
    );
}

/// A 64-bit segment command with the given name and number of sections, but
/// without room for sections.
fn segment(name: &[u8], nsects: u32) -> Vec<u8> {
    let mut command = vec![0u8; 72];
    command[0] = 0x19;
    command[4] = 72;
    command[8..8 + name.len()].copy_from_slice(name);
    command[64..68].copy_from_slice(&nsects.to_le_bytes());
    command
}

#[test]
fn segment_names_are_text() {
    assert_eq!(
        message(&with_commands(1, &segment(b"__DATA_CONST", 3))),
        "malformed Mach-O binary: segment __DATA_CONST declares more sections than fit in its load command"
    );
    assert_eq!(
        message(&with_commands(1, &segment("__\u{e4}".as_bytes(), u32::MAX))),
        "malformed Mach-O binary: segment __\u{e4} declares more sections than fit in its load command"
    );
    // A name that is not text is left out.
    assert_eq!(
        message(&with_commands(1, &segment(b"__\xff", 1))),
        "malformed Mach-O binary: segment  declares more sections than fit in its load command"
    );
}

#[test]
fn the_last_of_several_commands_counts() {
    let mut commands = segment(b"__LINKEDIT", 0);
    let mut second = segment(b"__LINKEDIT", 0);
    second[40] = 7;
    second[48] = 9;
    commands.extend_from_slice(&second);
    let info = parse_load_info(&with_commands(2, &commands)).unwrap();
    let linkedit = info.linkedit.unwrap();
    assert_eq!(linkedit.cmd_offset, 32 + 72);
    assert_eq!(linkedit.fileoff, 7);
    assert_eq!(linkedit.filesize, 9);
    assert!(info.codesig.is_none());
    assert!(info.is_executable);
    assert!(info.is_64bit);
    // Without sections, the padding ends where __LINKEDIT starts.
    assert_eq!(info.first_section_offset, 7);
    assert_eq!(info.load_commands_end(), 32 + 144);
    assert_eq!(info.required_prefix_len(), 32 + 144 + 16);
}

#[test]
fn without_sections_and_linkedit_there_is_no_padding() {
    let info = parse_load_info(&with_commands(0, &[])).unwrap();
    assert_eq!(info.first_section_offset, 32);
    assert!(info.linkedit.is_none());
}

#[test]
fn layouts_have_exact_sizes() {
    let info = parse_load_info(&with_commands(1, &segment(b"__LINKEDIT", 0))).unwrap();
    let layout = Layout::compute(&info, 0x2001, "abc", false, false, None).unwrap();
    assert_eq!(layout.n_code_slots, 3);
    assert_eq!(layout.n_special_slots, 2);
    assert_eq!(layout.flags, 2);
    // 12 + 3 * 8, 88 + 3 + 1 + 5 * 32, 12, 8
    assert_eq!(layout.blob_size, 36 + 252 + 12 + 8);
    assert_eq!(layout.allocated_size, 1344);
    assert_eq!(layout.signed_file_size(), 0x2001 + 1344);
    assert!(matches!(
        layout.linkedit_sizes(0x2000),
        Ok((1345, 0x4000))
    ));
    assert_eq!(
        layout.linkedit_sizes(0x2001 + 1345).unwrap_err().message(),
        "malformed Mach-O binary: __LINKEDIT segment starts after the code signature"
    );

    let blob = layout.build_blob(&[7u8; 96]).unwrap();
    assert_eq!(blob.len(), 1344);
    assert_eq!(blob[..12], [0xfa, 0xde, 0x0c, 0xc0, 0, 0, 1, 52, 0, 0, 0, 3]);
    assert_eq!(blob[36 + 252 - 96..36 + 252], [7u8; 96]);
    assert_eq!(
        blob[36 + 252..36 + 252 + 20],
        [
            0xfa, 0xde, 0x0c, 0x01, 0, 0, 0, 12, 0, 0, 0, 0, 0xfa, 0xde, 0x0b, 0x01, 0, 0, 0, 8
        ]
    );
    assert!(blob[308..].iter().all(|byte| *byte == 0));
    assert_eq!(
        layout.build_blob(&[7u8; 70]).unwrap_err().message(),
        "malformed Mach-O binary: internal error: expected 3 page hashes, got 2"
    );
}

#[test]
fn signatures_have_to_start_within_4_gib() {
    let info = parse_load_info(&with_commands(1, &segment(b"__LINKEDIT", 0))).unwrap();
    let err = Layout::compute(&info, 1 << 32, "abc", false, false, None).unwrap_err();
    assert_eq!(
        err.message(),
        "binary too large to sign: code signature would start at offset 4294967296, beyond the 4 GiB limit"
    );
    assert!(matches!(err, SignError::TooLarge(_)));
}
