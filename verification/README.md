# cbuild

Building C libraries from Cargo build scripts: collecting sources, flags,
definitions and include directories, compiling the sources in parallel into
one static library, exporting what dependent crates need through cargo
metadata, and choosing the linker scripts for firmware images.

The library under `src/` is written in Verus and verified:

- `text` — character-level helpers: splitting, joining, trimming, lines,
  decimal numbers.
- `paths` — Unix path syntax: components, lexical joining and
  normalization, where objects of outside sources go.
- `order` — the component-wise order and equality of paths.
- `cmd` — sorted lists of input files and the records that decide whether
  an outside tool must run again.
- `tool_output` — reading the compiler's include search list and its
  dependency files.
- `compile` — the `CLibrary` description and everything derived from it:
  compile units, compiler settings, exported metadata, imported libraries.
- `link` — the linker arguments for the emulator and for devices.
- `trusted` — the calls into `cc`, `pathdiff` and `std` that are not
  verified, each with the contract it is trusted to meet.

`app/` holds the build-script side: reading environment variables and
folders, running the compiler in worker threads, archiving, and printing
cargo's instructions. It makes no decision of its own.
