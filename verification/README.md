# arwen-codesign

Ad-hoc code signing for Mach-O binaries, the equivalent of
`codesign --force --sign -`, usable from any host platform and verified with
[Verus](https://github.com/verus-lang/verus).

- Signs thin and fat (universal) binaries, 32-bit and 64-bit, in either byte
  order; unsigned binaries get an `LC_CODE_SIGNATURE` command inserted into
  their header padding.
- Signs in memory (`adhoc_sign`) or in a single pass while the binary is being
  written (`StreamingSigner`).
- Verifies signatures (`verify`): every page hash, the special slot hash of
  every blob that occupies a special slot, and the structure that the kernel
  relies on. Requirements and entitlements have to occupy theirs.
- Preserves or replaces entitlements; sets the hardened runtime and
  linker-signed flags.

## Layout

- `src/`: the verified library. Contracts are stated over mathematical values;
  `src/laws/` holds what is proved across functions:
  - a signed binary verifies, and verification reports what the options asked
    for (`laws/signing.rs`, `laws/fat.rs`);
  - a signature holds exactly the blobs that its format asks for, and the
    slices of a fat binary are packed as their alignment allows;
  - signing again with the same options changes nothing;
  - the streaming signer gives exactly what signing in memory gives, however
    the input is split (`laws/streaming.rs`);
  - entitlements can be extracted again, and survive re-signing;
  - a verified binary is covered by its hashes up to its last page, so that
    changed code under an unchanged `cdhash` gives two pages, or two
    CodeDirectories, that collide under SHA-256 (`laws/soundness.rs`);
  - a file that is read in parts is signed as in memory (`laws/files.rs`).
- `tests/`: tests of the library.
- `app/`: the `arwen` program around it: command line, files, `std::io::Write`.

SHA-256 comes from the `sha2` crate. The library assumes of it that its
functions compute one digest function, incrementally and at once. Besides, it
relies on `std` for decoding UTF-8 and for making an `std::io::Error`.
