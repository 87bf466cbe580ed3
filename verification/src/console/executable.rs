//! Executable headers: Xbox XBE, PS2 ELF, GameCube DOL and Windows PE.
//!
//! Each parser reads the entry point and the section table of its format.
use vstd::prelude::*;
use crate::bytes::{bytes_at, has_bytes_at, le16, le32, le64, read_u16_le, read_u32_le, read_u64_le};
use crate::text::{chars_of, decimal, labelled, lossy_string, owned, string_of, trim_char, trim_char_chars, lossy_text};
use crate::{invalid_data, AthanorError};

verus! {

#[derive(Debug, Clone, Copy, PartialEq, Eq, Structural)]
pub enum ExeType {
    XboxXBE,
    PS2ELF,
    GameCubeDOL,
    WindowsPE,
    Unknown,
}

/// Result of executable parsing.
#[derive(Debug, Clone)]
pub struct ExecutableInfo {
    pub exe_type: ExeType,
    pub entry_point: u64,
    pub sections: Vec<Section>,
    pub imports: Vec<Import>,
    pub exports: Vec<Export>,
    pub metadata: ExecutableMetadata,
}

#[derive(Debug, Clone)]
pub struct Section {
    pub name: String,
    pub virtual_address: u64,
    pub virtual_size: u64,
    pub raw_address: u64,
    pub raw_size: u64,
    pub characteristics: u32,
}

#[derive(Debug, Clone)]
pub struct Import {
    pub library: String,
    pub function: String,
    pub hint: u16,
    pub is_ordinal: bool,
}

#[derive(Debug, Clone)]
pub struct Export {
    pub name: String,
    pub address: u64,
    pub ordinal: Option<u16>,
}

#[derive(Debug, Clone)]
pub struct ExecutableMetadata {
    pub timestamp: u64,
    pub version: String,
    pub subsystem: String,
    pub dll_characteristics: String,
}

/// A section as plain values.
pub struct SectionModel {
    pub name: Seq<char>,
    pub virtual_address: u64,
    pub virtual_size: u64,
    pub raw_address: u64,
    pub raw_size: u64,
    pub characteristics: u32,
}

pub struct ImportModel {
    pub library: Seq<char>,
    pub function: Seq<char>,
    pub hint: u16,
    pub is_ordinal: bool,
}

pub struct ExportModel {
    pub name: Seq<char>,
    pub address: u64,
    pub ordinal: Option<u16>,
}

/// A parsed executable as plain values.
#[verifier::ext_equal]
pub struct ExecutableModel {
    pub exe_type: ExeType,
    pub entry_point: u64,
    pub sections: Seq<SectionModel>,
    pub imports: Seq<ImportModel>,
    pub exports: Seq<ExportModel>,
    pub timestamp: u64,
    pub version: Seq<char>,
    pub subsystem: Seq<char>,
    pub dll_characteristics: Seq<char>,
}

impl View for Section {
    type V = SectionModel;

    open spec fn view(&self) -> SectionModel {
        SectionModel {
            name: self.name@,
            virtual_address: self.virtual_address,
            virtual_size: self.virtual_size,
            raw_address: self.raw_address,
            raw_size: self.raw_size,
            characteristics: self.characteristics,
        }
    }
}

impl View for Import {
    type V = ImportModel;

    open spec fn view(&self) -> ImportModel {
        ImportModel {
            library: self.library@,
            function: self.function@,
            hint: self.hint,
            is_ordinal: self.is_ordinal,
        }
    }
}

impl View for Export {
    type V = ExportModel;

    open spec fn view(&self) -> ExportModel {
        ExportModel { name: self.name@, address: self.address, ordinal: self.ordinal }
    }
}

impl View for ExecutableInfo {
    type V = ExecutableModel;

    open spec fn view(&self) -> ExecutableModel {
        ExecutableModel {
            exe_type: self.exe_type,
            entry_point: self.entry_point,
            sections: self.sections@.map_values(|s: Section| s@),
            imports: self.imports@.map_values(|s: Import| s@),
            exports: self.exports@.map_values(|s: Export| s@),
            timestamp: self.metadata.timestamp,
            version: self.metadata.version@,
            subsystem: self.metadata.subsystem@,
            dll_characteristics: self.metadata.dll_characteristics@,
        }
    }
}

/// `r` is the outcome that `m` describes: the same executable, or an
/// `InvalidData` error with the same message.
pub open spec fn outcome_is(
    r: Result<ExecutableInfo, AthanorError>,
    m: Result<ExecutableModel, Seq<char>>,
) -> bool {
    match (r, m) {
        (Ok(info), Ok(model)) => info@ == model,
        (Err(e), Err(msg)) => e.is_invalid_data(msg),
        _ => false,
    }
}

pub open spec fn xbe_magic() -> Seq<u8> {
    seq![0x58u8, 0x42u8, 0x45u8, 0x48u8]
}

pub open spec fn elf_magic() -> Seq<u8> {
    seq![0x7fu8, 0x45u8, 0x4cu8, 0x46u8]
}

pub open spec fn mz_magic() -> Seq<u8> {
    seq![0x4du8, 0x5au8]
}

pub open spec fn pe_signature() -> Seq<u8> {
    seq![0x50u8, 0x45u8, 0u8, 0u8]
}

/// A section name field: its text with NUL padding trimmed, or `prefix` and the
/// section's index when nothing is left.
pub open spec fn name_or_label(raw: Seq<u8>, prefix: Seq<char>, i: nat) -> Seq<char> {
    let t = trim_char(lossy_text(raw), '\0');
    if t.len() == 0 {
        prefix + decimal(i)
    } else {
        t
    }
}

/// A section known only by its index.
pub open spec fn numbered_section(i: nat) -> SectionModel {
    SectionModel {
        name: ".section"@ + decimal(i),
        virtual_address: 0,
        virtual_size: 0,
        raw_address: 0,
        raw_size: 0,
        characteristics: 0,
    }
}

pub open spec fn model(
    exe_type: ExeType,
    entry_point: u64,
    sections: Seq<SectionModel>,
    timestamp: u64,
    version: Seq<char>,
    subsystem: Seq<char>,
) -> ExecutableModel {
    ExecutableModel {
        exe_type,
        entry_point,
        sections,
        imports: seq![],
        exports: seq![],
        timestamp,
        version,
        subsystem,
        dll_characteristics: seq![],
    }
}

// ---------------------------------------------------------------- XBE

/// The XBE section header at `off`.
pub open spec fn xbe_section(d: Seq<u8>, off: int, i: nat) -> SectionModel {
    SectionModel {
        name: name_or_label(d.subrange(off, off + 16), ".text"@, i),
        virtual_address: le64(d, off + 0x10) as u64,
        virtual_size: le64(d, off + 0x18) as u64,
        raw_address: 0,
        raw_size: 0,
        characteristics: 0,
    }
}

/// XBE section headers `i..n`, read from `off` on, up to the first that does not fit.
pub open spec fn xbe_sections(d: Seq<u8>, off: int, i: nat, n: nat) -> Seq<SectionModel>
    decreases n - i,
{
    if i >= n || off + 0x20 > d.len() {
        seq![]
    } else {
        seq![xbe_section(d, off, i)] + xbe_sections(d, off + 0x20, i + 1, n)
    }
}

/// XBE section headers are 32 bytes apart: the table read from `off` lists
/// section `i + j` from the header at `off + 0x20 * j`, for as many headers as
/// fit (at most `n - i`): its name from the header's first 16 bytes, its
/// virtual address and size from the 64-bit fields at 0x10 and 0x18.
pub proof fn xbe_section_headers_are_32_bytes_apart(d: Seq<u8>, off: int, i: nat, n: nat)
    ensures
        i <= n ==> xbe_sections(d, off, i, n).len() <= n - i,
        i > n ==> xbe_sections(d, off, i, n).len() == 0,
        i + xbe_sections(d, off, i, n).len() >= n || off + 0x20 * xbe_sections(d, off, i, n).len()
            + 0x20 > d.len(),
        xbe_sections(d, off, i, n).len() == 0 || off + 0x20 * xbe_sections(d, off, i, n).len()
            <= d.len(),
        forall|j: int|
            #![trigger xbe_sections(d, off, i, n)[j]]
            0 <= j < xbe_sections(d, off, i, n).len() ==> {
                let o = off + 0x20 * j;
                let s = xbe_sections(d, off, i, n)[j];
                &&& s.name == name_or_label(d.subrange(o, o + 16), ".text"@, (i + j) as nat)
                &&& s.virtual_address == le64(d, o + 0x10) as u64
                &&& s.virtual_size == le64(d, o + 0x18) as u64
                &&& s.raw_address == 0 && s.raw_size == 0 && s.characteristics == 0
            },
    decreases n - i,
{
    if i < n && off + 0x20 <= d.len() {
        xbe_section_headers_are_32_bytes_apart(d, off + 0x20, i + 1, n);
        let s = xbe_sections(d, off, i, n);
        let rest = xbe_sections(d, off + 0x20, i + 1, n);
        assert forall|j: int| 0 < j < s.len() implies {
            let o = off + 0x20 * j;
            &&& (#[trigger] s[j]).name == name_or_label(d.subrange(o, o + 16), ".text"@, (i + j) as nat)
            &&& s[j].virtual_address == le64(d, o + 0x10) as u64
        } by {
            assert(s[j] == rest[j - 1]);
            assert(off + 0x20 + 0x20 * (j - 1) == off + 0x20 * j);
            assert((i + 1 + (j - 1)) as nat == (i + j) as nat);
        }
    }
}

/// What parsing `d` as an XBE gives.
pub open spec fn xbe_model(d: Seq<u8>) -> Result<ExecutableModel, Seq<char>> {
    if d.len() < 0x100 {
        Err("XBE file too small"@)
    } else if !has_bytes_at(d, 0, xbe_magic()) {
        Err("Invalid XBE magic"@)
    } else {
        Ok(
            model(
                ExeType::XboxXBE,
                le64(d, 0x140) as u64,
                xbe_sections(d, le32(d, 0x68), 0, le16(d, 0x8c) as nat),
                le64(d, 0x60) as u64,
                "Xbox XBE"@,
                "Xbox Game"@,
            ),
        )
    }
}

/// An XBE whose header is shorter than the entry-point field it reads.
pub open spec fn xbe_truncated(d: Seq<u8>) -> bool {
    0x100 <= d.len() < 0x148 && has_bytes_at(d, 0, xbe_magic())
}

proof fn xbe_sections_step(d: Seq<u8>, off: int, i: nat, n: nat)
    requires
        i < n,
        off + 0x20 <= d.len(),
    ensures
        xbe_sections(d, off, i, n) == seq![xbe_section(d, off, i)] + xbe_sections(
            d,
            off + 0x20,
            i + 1,
            n,
        ),
{
}

/// A section name read from `width` bytes at `start`.
fn read_section_name(data: &[u8], start: usize, width: usize, prefix: &str, i: u64) -> (s: String)
    requires
        start + width <= data@.len(),
    ensures
        s@ == name_or_label(data@.subrange(start as int, start + width), prefix@, i as nat),
{
    let _n = data.len();
    let raw = lossy_string(&data[start..start + width]);
    let chars = chars_of(raw.as_str());
    let t = trim_char_chars(&chars, '\0');
    if t.len() == 0 {
        labelled(prefix, i)
    } else {
        string_of(&t)
    }
}

fn empty_string() -> (s: String)
    ensures
        s@ == Seq::<char>::empty(),
{
    String::new()
}

fn info(
    exe_type: ExeType,
    entry_point: u64,
    sections: Vec<Section>,
    timestamp: u64,
    version: &str,
    subsystem: &str,
) -> (r: ExecutableInfo)
    ensures
        r@ =~= model(
            exe_type,
            entry_point,
            sections@.map_values(|s: Section| s@),
            timestamp,
            version@,
            subsystem@,
        ),
{
    let imports: Vec<Import> = Vec::new();
    let exports: Vec<Export> = Vec::new();
    let r = ExecutableInfo {
        exe_type,
        entry_point,
        sections,
        imports,
        exports,
        metadata: ExecutableMetadata {
            timestamp,
            version: owned(version),
            subsystem: owned(subsystem),
            dll_characteristics: empty_string(),
        },
    };
    assert(r@.imports =~= seq![]);
    assert(r@.exports =~= seq![]);
    r
}

/// Parses an Xbox XBE executable.
pub fn parse_xbe(data: &[u8]) -> (r: Result<ExecutableInfo, AthanorError>)
    requires
        !xbe_truncated(data@),
    ensures
        outcome_is(r, xbe_model(data@)),
{
    let len = data.len();
    if len < 0x100 {
        return Err(invalid_data("XBE file too small"));
    }
    if !bytes_at(data, 0, &[0x58u8, 0x42u8, 0x45u8, 0x48u8]) {
        return Err(invalid_data("Invalid XBE magic"));
    }
    let _cert_offset = read_u32_le(data, 0x48);
    let section_offset = read_u32_le(data, 0x68) as u64;
    let num_sections = read_u16_le(data, 0x8c) as u64;
    let ghost d = data@;
    let ghost all = xbe_sections(d, section_offset as int, 0, num_sections as nat);
    let mut sections: Vec<Section> = Vec::new();
    let mut i: u64 = 0;
    let mut off: u64 = section_offset;
    while i < num_sections && off + 0x20 <= len as u64
        invariant
            d == data@,
            len == d.len(),
            i <= num_sections <= 0xffff,
            off == section_offset + i * 0x20,
            section_offset <= 0xffff_ffff,
            sections@.map_values(|s: Section| s@) + xbe_sections(d, off as int, i as nat, num_sections as nat) == all,
        decreases num_sections - i,
    {
        proof {
            xbe_sections_step(d, off as int, i as nat, num_sections as nat);
        }
        let start = off as usize;
        let name = read_section_name(data, start, 16, ".text", i);
        let virtual_address = read_u64_le(data, start + 0x10);
        let virtual_size = read_u64_le(data, start + 0x18);
        let s = Section {
            name,
            virtual_address,
            virtual_size,
            raw_address: 0,
            raw_size: 0,
            characteristics: 0,
        };
        let ghost before = sections@.map_values(|s: Section| s@);
        sections.push(s);
        assert(sections@.map_values(|s: Section| s@) =~= before.push(xbe_section(d, off as int, i as nat)));
        assert(before.push(xbe_section(d, off as int, i as nat)) + xbe_sections(d, off + 0x20, (i + 1) as nat, num_sections as nat)
            =~= before + (seq![xbe_section(d, off as int, i as nat)] + xbe_sections(d, off + 0x20, (i + 1) as nat, num_sections as nat)));
        i += 1;
        off += 0x20;
    }
    assert(sections@.map_values(|s: Section| s@) =~= all);
    let entry_point = read_u64_le(data, 0x140);
    let timestamp = read_u64_le(data, 0x60);
    Ok(info(ExeType::XboxXBE, entry_point, sections, timestamp, "Xbox XBE", "Xbox Game"))
}


// ---------------------------------------------------------------- ELF

/// ELF64 section headers `i..n` from `off` on, each `ent` bytes apart; `None`
/// where reading them would fail: an offset past `u64::MAX`, or a header that
/// fits but is too short for the name field read from it.
pub open spec fn elf64_sections(d: Seq<u8>, off: int, ent: int, i: nat, n: nat) -> Option<
    Seq<SectionModel>,
>
    decreases n - i,
{
    if i >= n {
        Some(seq![])
    } else if off + ent > u64::MAX {
        None
    } else if off + ent > d.len() {
        Some(seq![])
    } else if off + 4 > d.len() {
        None
    } else {
        match elf64_sections(d, off + ent, ent, i + 1, n) {
            Some(rest) => Some(seq![numbered_section(i)] + rest),
            None => None,
        }
    }
}

/// ELF32 section headers `i..n` from `off` on, each `ent` bytes apart.
pub open spec fn elf32_sections(d: Seq<u8>, off: int, ent: int, i: nat, n: nat) -> Seq<
    SectionModel,
>
    decreases n - i,
{
    if i >= n || off + ent > d.len() {
        seq![]
    } else {
        seq![numbered_section(i)] + elf32_sections(d, off + ent, ent, i + 1, n)
    }
}

/// The ELF64 section table of `d`, as read from its header.
pub open spec fn elf64_table(d: Seq<u8>) -> Option<Seq<SectionModel>> {
    elf64_sections(d, le64(d, 0x28), le16(d, 0x3a), 0, le16(d, 0x3c) as nat)
}

/// What parsing `d` as an ELF gives.
pub open spec fn elf_model(d: Seq<u8>) -> Result<ExecutableModel, Seq<char>> {
    if d.len() < 0x34 {
        Err("ELF file too small"@)
    } else if !has_bytes_at(d, 0, elf_magic()) {
        Err("Invalid ELF magic"@)
    } else if d[4] == 2 {
        if d.len() < 0x40 {
            Err("ELF64 header incomplete"@)
        } else {
            let sections = match elf64_table(d) {
                Some(s) => s,
                None => seq![],
            };
            Ok(model(ExeType::PS2ELF, le64(d, 0x18) as u64, sections, 0, "ELF64"@, "PS2 Game"@))
        }
    } else {
        let n = if le16(d, 0x30) < 10 {
            le16(d, 0x30)
        } else {
            10
        };
        Ok(
            model(
                ExeType::PS2ELF,
                le32(d, 0x18) as u64,
                elf32_sections(d, le32(d, 0x20), le16(d, 0x2e), 0, n as nat),
                0,
                "ELF32"@,
                "PS2 Game"@,
            ),
        )
    }
}

/// An ELF64 whose section table cannot be walked (see `elf64_sections`).
pub open spec fn elf_unreadable(d: Seq<u8>) -> bool {
    &&& d.len() >= 0x40
    &&& has_bytes_at(d, 0, elf_magic())
    &&& d[4] == 2
    &&& elf64_table(d) is None
}

/// Whether `parse_elf` can read `data`: `false` exactly on an ELF64 whose
/// section table cannot be walked.
pub fn elf_readable(data: &[u8]) -> (r: bool)
    ensures
        r == !elf_unreadable(data@),
{
    let len = data.len();
    let magic = [0x7fu8, 0x45u8, 0x4cu8, 0x46u8];
    assert(magic@ =~= elf_magic());
    if len < 0x40 || !bytes_at(data, 0, &magic) || data[4] != 2 {
        return true;
    }
    let ghost d = data@;
    let ent = read_u16_le(data, 0x3a) as u64;
    let n = read_u16_le(data, 0x3c) as u64;
    let mut off: u64 = read_u64_le(data, 0x28);
    let mut i: u64 = 0;
    while i < n
        invariant
            d == data@,
            len == d.len(),
            len >= 0x40,
            has_bytes_at(d, 0, elf_magic()),
            d[4] == 2,
            i <= n <= 0xffff,
            ent <= 0xffff,
            (elf64_table(d) is Some) == (elf64_sections(d, off as int, ent as int, i as nat, n as nat) is Some),
        decreases n - i,
    {
        if off > u64::MAX - ent {
            return false;
        }
        if off + ent > len as u64 {
            return true;
        }
        if off > len as u64 - 4 {
            return false;
        }
        i += 1;
        off += ent;
    }
    true
}

/// Parses a PS2 ELF executable: its entry point and up to its section count
/// (ten at most for ELF32) of numbered sections.
pub fn parse_elf(data: &[u8]) -> (r: Result<ExecutableInfo, AthanorError>)
    requires
        !elf_unreadable(data@),
    ensures
        outcome_is(r, elf_model(data@)),
{
    let len = data.len();
    if len < 0x34 {
        return Err(invalid_data("ELF file too small"));
    }
    if !bytes_at(data, 0, &[0x7fu8, 0x45u8, 0x4cu8, 0x46u8]) {
        return Err(invalid_data("Invalid ELF magic"));
    }
    let ghost d = data@;
    let is_64bit = data[4] == 2;
    let mut sections: Vec<Section> = Vec::new();
    let entry_point;
    if is_64bit {
        if len < 0x40 {
            return Err(invalid_data("ELF64 header incomplete"));
        }
        entry_point = read_u64_le(data, 0x18);
        let sht_offset = read_u64_le(data, 0x28);
        let shentsize = read_u16_le(data, 0x3a) as u64;
        let shnum = read_u16_le(data, 0x3c) as u64;
        let ghost all = elf64_table(d).unwrap();
        let mut i: u64 = 0;
        let mut off: u64 = sht_offset;
        while i < shnum && off <= u64::MAX - shentsize && off + shentsize <= len as u64
            invariant
                d == data@,
                len == d.len(),
                i <= shnum <= 0xffff,
                shentsize <= 0xffff,
                elf64_table(d) is Some,
                elf64_sections(d, off as int, shentsize as int, i as nat, shnum as nat) is Some,
                sections@.map_values(|s: Section| s@) + elf64_sections(d, off as int, shentsize as int, i as nat, shnum as nat).unwrap() == all,
            decreases shnum - i,
        {
            let start = off as usize;
            let _name_offset = read_u32_le(data, start);
            let ghost before = sections@.map_values(|s: Section| s@);
            let ghost rest = elf64_sections(d, off + shentsize, shentsize as int, (i + 1) as nat, shnum as nat).unwrap();
            sections.push(Section {
                name: labelled(".section", i),
                virtual_address: 0,
                virtual_size: 0,
                raw_address: 0,
                raw_size: 0,
                characteristics: 0,
            });
            assert(sections@.map_values(|s: Section| s@) =~= before.push(numbered_section(i as nat)));
            assert(before.push(numbered_section(i as nat)) + rest =~= before + (seq![numbered_section(i as nat)] + rest));
            i += 1;
            off += shentsize;
        }
        assert(sections@.map_values(|s: Section| s@) =~= all);
    } else {
        entry_point = read_u32_le(data, 0x18) as u64;
        let sht_offset = read_u32_le(data, 0x20) as u64;
        let shentsize = read_u16_le(data, 0x2e) as u64;
        let shnum_raw = read_u16_le(data, 0x30) as u64;
        let shnum = if shnum_raw < 10 { shnum_raw } else { 10 };
        let ghost all = elf32_sections(d, sht_offset as int, shentsize as int, 0, shnum as nat);
        let mut i: u64 = 0;
        let mut off: u64 = sht_offset;
        while i < shnum && off + shentsize <= len as u64
            invariant
                d == data@,
                len == d.len(),
                i <= shnum <= 10,
                shentsize <= 0xffff,
                off <= 0xffff_ffff + i * 0xffff,
                sht_offset <= 0xffff_ffff,
                sections@.map_values(|s: Section| s@) + elf32_sections(d, off as int, shentsize as int, i as nat, shnum as nat) == all,
            decreases shnum - i,
        {
            let ghost before = sections@.map_values(|s: Section| s@);
            let ghost rest = elf32_sections(d, off + shentsize, shentsize as int, (i + 1) as nat, shnum as nat);
            sections.push(Section {
                name: labelled(".section", i),
                virtual_address: 0,
                virtual_size: 0,
                raw_address: 0,
                raw_size: 0,
                characteristics: 0,
            });
            assert(sections@.map_values(|s: Section| s@) =~= before.push(numbered_section(i as nat)));
            assert(before.push(numbered_section(i as nat)) + rest =~= before + (seq![numbered_section(i as nat)] + rest));
            i += 1;
            off += shentsize;
        }
        assert(sections@.map_values(|s: Section| s@) =~= all);
    }
    let version = if is_64bit { "ELF64" } else { "ELF32" };
    Ok(info(ExeType::PS2ELF, entry_point, sections, 0, version, "PS2 Game"))
}

// ---------------------------------------------------------------- DOL

/// The name of DOL section `i`.
pub open spec fn dol_name(i: nat) -> Seq<char> {
    if i == 0 {
        ".text"@
    } else if i == 1 {
        ".rodata"@
    } else if i == 2 {
        ".data"@
    } else if i == 3 {
        ".bss"@
    } else {
        ".section"@ + decimal(i)
    }
}

/// DOL sections `i..7` that have a non-zero size.
pub open spec fn dol_sections(d: Seq<u8>, i: nat) -> Seq<SectionModel>
    decreases 7 - i,
{
    if i >= 7 {
        seq![]
    } else {
        let size = le32(d, (0x40 + 4 * i) as int);
        let rest = dol_sections(d, i + 1);
        if size > 0 {
            seq![
                SectionModel {
                    name: dol_name(i),
                    virtual_address: le32(d, (4 * i) as int) as u64,
                    virtual_size: size as u64,
                    raw_address: (0x100 + i * 0x20) as u64,
                    raw_size: size as u64,
                    characteristics: 0,
                },
            ] + rest
        } else {
            rest
        }
    }
}

/// `s` is the DOL section of slot `i`: a slot with a non-zero size (the word
/// at `0x40 + 4 i`) whose address is the word at `4 i`, whose data lies at
/// `0x100 + 0x20 i`, and which is named after its slot.
pub open spec fn dol_slot(d: Seq<u8>, i: int, s: SectionModel) -> bool {
    &&& 0 <= i < 7
    &&& le32(d, 0x40 + 4 * i) > 0
    &&& s.virtual_address == le32(d, 4 * i)
    &&& s.virtual_size == le32(d, 0x40 + 4 * i)
    &&& s.raw_address == 0x100 + 0x20 * i
    &&& s.raw_size == le32(d, 0x40 + 4 * i)
    &&& s.characteristics == 0
    &&& s.name == dol_name(i as nat)
}

/// `s` is the DOL section of some slot from `i` on.
pub open spec fn from_dol_slot(d: Seq<u8>, i: int, s: SectionModel) -> bool {
    exists|k: int| i <= k && #[trigger] dol_slot(d, k, s)
}

/// Every DOL section comes from one of the seven slots of the header's
/// section table, the slots with a size.
pub proof fn dol_sections_come_from_slots(d: Seq<u8>, i: nat)
    ensures
        forall|j: int|
            0 <= j < dol_sections(d, i).len() ==> #[trigger] from_dol_slot(d, i as int, dol_sections(d, i)[j]),
    decreases 7 - i,
{
    if i < 7 {
        dol_sections_come_from_slots(d, i + 1);
        let r = dol_sections(d, i);
        let rest = dol_sections(d, i + 1);
        assert forall|j: int| 0 <= j < rest.len() implies #[trigger] from_dol_slot(d, i as int, rest[j]) by {
            assert(from_dol_slot(d, (i + 1) as int, rest[j]));
            let k = choose|k: int| i + 1 <= k && #[trigger] dol_slot(d, k, rest[j]);
            assert(dol_slot(d, k, rest[j]));
        }
        if le32(d, (0x40 + 4 * i) as int) > 0 {
            assert(r == seq![r[0]] + rest);
            assert(dol_slot(d, i as int, r[0]));
            assert forall|j: int| 0 <= j < r.len() implies #[trigger] from_dol_slot(d, i as int, r[j]) by {
                if j > 0 {
                    assert(r[j] == rest[j - 1]);
                } else {
                    assert(dol_slot(d, i as int, r[j]));
                }
            }
        } else {
            assert(r == rest);
        }
    }
}

/// What parsing `d` as a DOL gives.
pub open spec fn dol_model(d: Seq<u8>) -> Result<ExecutableModel, Seq<char>> {
    if d.len() < 0x100 {
        Err("DOL file too small"@)
    } else {
        let sections = dol_sections(d, 0);
        let entry = if sections.len() > 0 {
            sections[0].virtual_address
        } else {
            0
        };
        Ok(model(ExeType::GameCubeDOL, entry, sections, 0, "GameCube DOL"@, "GameCube Game"@))
    }
}

fn dol_section_name(i: u64) -> (s: String)
    requires
        i < 7,
    ensures
        s@ == dol_name(i as nat),
{
    if i == 0 {
        owned(".text")
    } else if i == 1 {
        owned(".rodata")
    } else if i == 2 {
        owned(".data")
    } else if i == 3 {
        owned(".bss")
    } else {
        labelled(".section", i)
    }
}

/// Parses a GameCube DOL executable: its seven text sections that have a size.
pub fn parse_dol(data: &[u8]) -> (r: Result<ExecutableInfo, AthanorError>)
    ensures
        outcome_is(r, dol_model(data@)),
{
    let len = data.len();
    if len < 0x100 {
        return Err(invalid_data("DOL file too small"));
    }
    let ghost d = data@;
    let ghost all = dol_sections(d, 0);
    let mut sections: Vec<Section> = Vec::new();
    let mut i: u64 = 0;
    while i < 7
        invariant
            d == data@,
            len == d.len(),
            len >= 0x100,
            i <= 7,
            sections@.map_values(|s: Section| s@) + dol_sections(d, i as nat) == all,
        decreases 7 - i,
    {
        let at = (i * 4) as usize;
        let offset = read_u32_le(data, at) as u64;
        let size = read_u32_le(data, 0x40 + at) as u64;
        let ghost before = sections@.map_values(|s: Section| s@);
        let ghost rest = dol_sections(d, (i + 1) as nat);
        if size > 0 {
            let s = Section {
                name: dol_section_name(i),
                virtual_address: offset,
                virtual_size: size,
                raw_address: 0x100 + i * 0x20,
                raw_size: size,
                characteristics: 0,
            };
            let ghost m = s@;
            sections.push(s);
            assert(sections@.map_values(|s: Section| s@) =~= before.push(m));
            assert(before.push(m) + rest =~= before + (seq![m] + rest));
        }
        i += 1;
    }
    assert(sections@.map_values(|s: Section| s@) =~= all);
    let entry_point = if sections.len() > 0 {
        sections[0].virtual_address
    } else {
        0
    };
    Ok(info(ExeType::GameCubeDOL, entry_point, sections, 0, "GameCube DOL", "GameCube Game"))
}

// ---------------------------------------------------------------- PE

/// The PE section header at `off`.
pub open spec fn pe_section(d: Seq<u8>, off: int, i: nat) -> SectionModel {
    SectionModel {
        name: name_or_label(d.subrange(off, off + 8), ".section"@, i),
        virtual_address: le32(d, off + 0x0c) as u64,
        virtual_size: le32(d, off + 0x10) as u64,
        raw_address: le32(d, off + 0x14) as u64,
        raw_size: le32(d, off + 0x18) as u64,
        characteristics: le32(d, off + 0x1c) as u32,
    }
}

/// PE section headers `i..n` from `off` on, up to the first that does not fit.
pub open spec fn pe_sections(d: Seq<u8>, off: int, i: nat, n: nat) -> Seq<SectionModel>
    decreases n - i,
{
    if i >= n || off + 0x28 > d.len() {
        seq![]
    } else {
        seq![pe_section(d, off, i)] + pe_sections(d, off + 0x28, i + 1, n)
    }
}

/// PE section headers are 40 bytes apart: the table read from `off` lists
/// section `i + j` from the header at `off + 0x28 * j`, for as many headers as
/// fit (at most `n - i`), with each field at its place in that header.
pub proof fn pe_section_headers_are_40_bytes_apart(d: Seq<u8>, off: int, i: nat, n: nat)
    ensures
        i <= n ==> pe_sections(d, off, i, n).len() <= n - i,
        i > n ==> pe_sections(d, off, i, n).len() == 0,
        i + pe_sections(d, off, i, n).len() >= n || off + 0x28 * pe_sections(d, off, i, n).len()
            + 0x28 > d.len(),
        pe_sections(d, off, i, n).len() == 0 || off + 0x28 * pe_sections(d, off, i, n).len()
            <= d.len(),
        forall|j: int|
            #![trigger pe_sections(d, off, i, n)[j]]
            0 <= j < pe_sections(d, off, i, n).len() ==> {
                let o = off + 0x28 * j;
                let s = pe_sections(d, off, i, n)[j];
                &&& s.name == name_or_label(d.subrange(o, o + 8), ".section"@, (i + j) as nat)
                &&& s.virtual_address == le32(d, o + 0x0c) as u64
                &&& s.virtual_size == le32(d, o + 0x10) as u64
                &&& s.raw_address == le32(d, o + 0x14) as u64
                &&& s.raw_size == le32(d, o + 0x18) as u64
                &&& s.characteristics == le32(d, o + 0x1c) as u32
            },
    decreases n - i,
{
    if i < n && off + 0x28 <= d.len() {
        pe_section_headers_are_40_bytes_apart(d, off + 0x28, i + 1, n);
        let s = pe_sections(d, off, i, n);
        let rest = pe_sections(d, off + 0x28, i + 1, n);
        assert forall|j: int| 0 < j < s.len() implies #[trigger] s[j] == rest[j - 1] by {}
        assert forall|j: int| 0 < j < s.len() implies {
            let o = off + 0x28 * j;
            &&& (#[trigger] s[j]).name == name_or_label(d.subrange(o, o + 8), ".section"@, (i + j) as nat)
            &&& s[j].virtual_address == le32(d, o + 0x0c) as u64
        } by {
            assert(s[j] == rest[j - 1]);
            assert(off + 0x28 + 0x28 * (j - 1) == off + 0x28 * j);
            assert((i + 1 + (j - 1)) as nat == (i + j) as nat);
        }
    }
}

/// The offset of the PE header that the MZ header points to.
pub open spec fn pe_offset(d: Seq<u8>) -> int {
    le32(d, 0x3c)
}

/// What parsing `d` as a PE gives.
pub open spec fn pe_model(d: Seq<u8>) -> Result<ExecutableModel, Seq<char>> {
    let pe = pe_offset(d);
    if d.len() < 0x40 {
        Err("PE file too small"@)
    } else if !has_bytes_at(d, 0, mz_magic()) {
        Err("Not a PE file (no MZ header)"@)
    } else if pe + 0x20 > d.len() {
        Err("PE header incomplete"@)
    } else if !has_bytes_at(d, pe, pe_signature()) {
        Err("Invalid PE signature"@)
    } else {
        Ok(
            model(
                ExeType::WindowsPE,
                le32(d, pe + 0x28) as u64,
                pe_sections(d, pe + 0x18 + le16(d, pe + 16), 0, le16(d, pe + 6) as nat),
                le32(d, pe + 8) as u64,
                "Windows PE"@,
                "Windows Executable"@,
            ),
        )
    }
}

/// A PE whose optional header is shorter than the entry-point field it reads.
pub open spec fn pe_truncated(d: Seq<u8>) -> bool {
    let pe = pe_offset(d);
    &&& d.len() >= 0x40
    &&& has_bytes_at(d, 0, mz_magic())
    &&& pe + 0x20 <= d.len() < pe + 0x2c
    &&& has_bytes_at(d, pe, pe_signature())
}

/// Parses a Windows PE executable: its COFF header and section table.
pub fn parse_pe(data: &[u8]) -> (r: Result<ExecutableInfo, AthanorError>)
    requires
        !pe_truncated(data@),
    ensures
        outcome_is(r, pe_model(data@)),
{
    let len = data.len();
    if len < 0x40 {
        return Err(invalid_data("PE file too small"));
    }
    if !bytes_at(data, 0, &[0x4du8, 0x5au8]) {
        return Err(invalid_data("Not a PE file (no MZ header)"));
    }
    let pe_offset = read_u32_le(data, 0x3c) as u64;
    if pe_offset + 0x20 > len as u64 {
        return Err(invalid_data("PE header incomplete"));
    }
    let pe = pe_offset as usize;
    if !bytes_at(data, pe, &[0x50u8, 0x45u8, 0u8, 0u8]) {
        return Err(invalid_data("Invalid PE signature"));
    }
    let ghost d = data@;
    let _machine = read_u16_le(data, pe + 4);
    let num_sections = read_u16_le(data, pe + 6) as u64;
    let timestamp = read_u32_le(data, pe + 8) as u64;
    let opt_header_size = read_u16_le(data, pe + 16) as u64;
    let section_table = pe_offset + 0x18 + opt_header_size;
    let ghost all = pe_sections(d, section_table as int, 0, num_sections as nat);
    let mut sections: Vec<Section> = Vec::new();
    let mut i: u64 = 0;
    let mut off: u64 = section_table;
    while i < num_sections && off + 0x28 <= len as u64
        invariant
            d == data@,
            len == d.len(),
            i <= num_sections <= 0xffff,
            off == section_table + i * 0x28,
            section_table <= 0x1_0001_0017,
            sections@.map_values(|s: Section| s@) + pe_sections(d, off as int, i as nat, num_sections as nat) == all,
        decreases num_sections - i,
    {
        let start = off as usize;
        let name = read_section_name(data, start, 8, ".section", i);
        let virtual_address = read_u32_le(data, start + 0x0c) as u64;
        let virtual_size = read_u32_le(data, start + 0x10) as u64;
        let raw_address = read_u32_le(data, start + 0x14) as u64;
        let raw_size = read_u32_le(data, start + 0x18) as u64;
        let characteristics = read_u32_le(data, start + 0x1c);
        let ghost before = sections@.map_values(|s: Section| s@);
        let ghost rest = pe_sections(d, off + 0x28, (i + 1) as nat, num_sections as nat);
        sections.push(Section {
            name,
            virtual_address,
            virtual_size,
            raw_address,
            raw_size,
            characteristics,
        });
        assert(sections@.map_values(|s: Section| s@) =~= before.push(pe_section(d, off as int, i as nat)));
        assert(before.push(pe_section(d, off as int, i as nat)) + rest =~= before + (seq![pe_section(d, off as int, i as nat)] + rest));
        i += 1;
        off += 0x28;
    }
    assert(sections@.map_values(|s: Section| s@) =~= all);
    let entry_point = read_u32_le(data, pe + 0x28) as u64;
    Ok(info(ExeType::WindowsPE, entry_point, sections, timestamp, "Windows PE", "Windows Executable"))
}

// ---------------------------------------------------------------- detection

/// The DOL section table's offsets and sizes all lie within `d`.
pub open spec fn dol_plausible(d: Seq<u8>) -> bool {
    forall|i: int| 0 <= i < 7 ==> #[trigger] dol_entry_in_range(d, i)
}

/// DOL section `i`'s offset and size are at most the length of `d`.
pub open spec fn dol_entry_in_range(d: Seq<u8>, i: int) -> bool {
    le32(d, 4 * i) <= d.len() && le32(d, 0x40 + 4 * i) <= d.len()
}

/// `d` has an MZ header whose PE pointer leads to a PE signature.
pub open spec fn points_to_pe(d: Seq<u8>) -> bool {
    &&& d.len() >= 0x40
    &&& has_bytes_at(d, 0, mz_magic())
    &&& pe_offset(d) + 4 < d.len()
    &&& has_bytes_at(d, pe_offset(d), pe_signature())
}

/// What detecting and parsing the executable `d` gives.
pub open spec fn executable_model(d: Seq<u8>) -> Result<ExecutableModel, Seq<char>> {
    if has_bytes_at(d, 0, xbe_magic()) {
        xbe_model(d)
    } else if has_bytes_at(d, 0, elf_magic()) {
        elf_model(d)
    } else if points_to_pe(d) {
        pe_model(d)
    } else if 0x100 <= d.len() < 0x20_0000 && dol_plausible(d) {
        dol_model(d)
    } else {
        Err("Unknown executable format"@)
    }
}

/// Detects the executable type from its magic bytes (XBE, ELF, PE; DOL has none
/// and is recognised by a plausible section table) and parses it.
pub fn parse_executable(data: &[u8]) -> (r: Result<ExecutableInfo, AthanorError>)
    requires
        !xbe_truncated(data@),
        !elf_unreadable(data@),
        !pe_truncated(data@),
    ensures
        outcome_is(r, executable_model(data@)),
{
    let len = data.len();
    if bytes_at(data, 0, &[0x58u8, 0x42u8, 0x45u8, 0x48u8]) {
        return parse_xbe(data);
    }
    if bytes_at(data, 0, &[0x7fu8, 0x45u8, 0x4cu8, 0x46u8]) {
        return parse_elf(data);
    }
    if len >= 2 && bytes_at(data, 0, &[0x4du8, 0x5au8]) {
        if len >= 0x40 {
            let pe_offset = read_u32_le(data, 0x3c) as u64;
            if pe_offset + 4 < len as u64 {
                if bytes_at(data, pe_offset as usize, &[0x50u8, 0x45u8, 0u8, 0u8]) {
                    return parse_pe(data);
                }
            }
        }
    }
    if len >= 0x100 && len < 0x20_0000 {
        let mut plausible = true;
        let mut i: usize = 0;
        while i < 7
            invariant
                len == data@.len(),
                len >= 0x100,
                i <= 7,
                plausible ==> forall|j: int| 0 <= j < i ==> #[trigger] dol_entry_in_range(data@, j),
                !plausible ==> !dol_plausible(data@),
            decreases 7 - i,
        {
            let offset = read_u32_le(data, i * 4) as usize;
            let size = read_u32_le(data, 0x40 + i * 4) as usize;
            if offset > len || size > len {
                assert(!dol_entry_in_range(data@, i as int));
                plausible = false;
            }
            i += 1;
        }
        if plausible {
            return parse_dol(data);
        }
    }
    Err(invalid_data("Unknown executable format"))
}

} // verus!
