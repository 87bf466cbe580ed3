# athanor_core

A verified library for disassembling, checking and rebuilding console game
data files, with an HTTP front end.

- `src/` is the library, written in Verus. Every function carries a contract
  that Verus proves, except three small trusted wrappers around std in
  `text.rs` (`String::from_utf8_lossy`, `str::from_utf8`, `String::push`),
  whose contracts restate what std documents:
  - `formats` — the format registry (extensions, magic numbers, names) and
    detection from a file's extension and contents;
  - `parser` — disassembly of XMLB (and the package kinds that share its
    layout), BNX, IGB, ZSM, ZAM and the fixed-record formats into nodes and
    string tables;
  - `builder` — BNX compilation and XMLB/BNX validation, with the laws that
    compiled BNX validates and reads back to its pairs;
  - `compiler` — node and property modifications, header recounting and
    serialisation;
  - `dxt` — DXT1/DXT5 texture decoding and encoding;
  - `console` — disc-type detection, Xbox/PS2/GameCube disc listings and
    XBE/ELF/DOL/PE headers;
  - `ghidra` — the request dispatcher of the analysis server;
  - `anchorpoint_integration` — repository configuration and tag bookkeeping;
  - `bytes`, `text` — little-endian fields and character-level text helpers.
- `tests/` exercises the library on concrete inputs.
- `app/` is the HTTP server and everything that touches the file system,
  processes or JSON.
