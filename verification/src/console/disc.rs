//! Console disc images: Xbox ISO/XISO, PS2 ISO 9660 and GameCube GCM.
//!
//! Each extractor lists the files that the disc's directory structures name,
//! with their byte offsets and sizes, for callers that bring their own disc.
use vstd::prelude::*;
use crate::bytes::{
    bytes_at, bytes_equal, copy_range, find_zero, first_zero, has_bytes_at, le32, le64,
    lemma_first_zero_range, read_u32_le, read_u64_le,
};
use crate::text::{
    chars_of, contains_chars, contains_seq, decimal, ends_with, ends_with_chars, lossy_string,
    owned, string_of, first_of, index_of, lemma_first_of, sub_chars, lemma_trim_end_char, trim, trim_chars, trim_end_char,
    trim_end_char_chars, lossy_text, labelled,
};
use crate::{invalid_data, AthanorError};

verus! {

/// Result of disc extraction.
#[derive(Debug, Clone)]
pub struct DiscExtractResult {
    pub disc_type: DiscType,
    pub entries: Vec<DiscEntry>,
    pub metadata: DiscMetadata,
}

#[derive(Debug, Clone, Copy, PartialEq, Eq, Structural)]
pub enum DiscType {
    XBox,
    XBox360,
    Playstation2,
    Gamecube,
    Unknown,
}

#[derive(Debug, Clone)]
pub struct DiscEntry {
    pub path: String,
    pub offset: u64,
    pub size: u64,
    pub is_directory: bool,
}

#[derive(Debug, Clone)]
pub struct DiscMetadata {
    pub boot_file: Option<String>,
    pub title: String,
    pub vendor: String,
    pub version: String,
    pub disc_id: String,
}

/// A disc entry as plain values.
pub struct EntryModel {
    pub path: Seq<char>,
    pub offset: u64,
    pub size: u64,
    pub is_directory: bool,
}

/// An extraction result as plain values.
#[verifier::ext_equal]
pub struct DiscModel {
    pub disc_type: DiscType,
    pub entries: Seq<EntryModel>,
    pub boot_file: Option<Seq<char>>,
    pub title: Seq<char>,
    pub vendor: Seq<char>,
    pub version: Seq<char>,
    pub disc_id: Seq<char>,
}

impl View for DiscEntry {
    type V = EntryModel;

    open spec fn view(&self) -> EntryModel {
        EntryModel {
            path: self.path@,
            offset: self.offset,
            size: self.size,
            is_directory: self.is_directory,
        }
    }
}

pub open spec fn opt_view(o: Option<String>) -> Option<Seq<char>> {
    match o {
        Some(s) => Some(s@),
        None => None,
    }
}

impl View for DiscExtractResult {
    type V = DiscModel;

    open spec fn view(&self) -> DiscModel {
        DiscModel {
            disc_type: self.disc_type,
            entries: self.entries@.map_values(|e: DiscEntry| e@),
            boot_file: opt_view(self.metadata.boot_file),
            title: self.metadata.title@,
            vendor: self.metadata.vendor@,
            version: self.metadata.version@,
            disc_id: self.metadata.disc_id@,
        }
    }
}

/// `r` is the outcome that `m` describes: the same listing, or an `InvalidData`
/// error with the same message.
pub open spec fn disc_outcome_is(
    r: Result<DiscExtractResult, AthanorError>,
    m: Result<DiscModel, Seq<char>>,
) -> bool {
    match (r, m) {
        (Ok(res), Ok(model)) => res@ == model,
        (Err(e), Err(msg)) => e.is_invalid_data(msg),
        _ => false,
    }
}

pub open spec fn entries_view(v: Seq<DiscEntry>) -> Seq<EntryModel> {
    v.map_values(|e: DiscEntry| e@)
}

pub open spec fn disc_model(
    disc_type: DiscType,
    entries: Seq<EntryModel>,
    boot_file: Option<Seq<char>>,
    title: Seq<char>,
    vendor: Seq<char>,
    version: Seq<char>,
) -> DiscModel {
    DiscModel { disc_type, entries, boot_file, title, vendor, version, disc_id: seq![] }
}

fn result(
    disc_type: DiscType,
    entries: Vec<DiscEntry>,
    boot_file: Option<String>,
    title: &str,
    vendor: &str,
    version: &str,
) -> (r: DiscExtractResult)
    ensures
        r@ =~= disc_model(
            disc_type,
            entries_view(entries@),
            opt_view(boot_file),
            title@,
            vendor@,
            version@,
        ),
{
    DiscExtractResult {
        disc_type,
        entries,
        metadata: DiscMetadata {
            boot_file,
            title: owned(title),
            vendor: owned(vendor),
            version: owned(version),
            disc_id: String::new(),
        },
    }
}

// ---------------------------------------------------------------- Xbox

/// The path field of an XISO file-table record at `off`: up to the first NUL of
/// its 256 bytes, or its first 255 bytes when it has none.
pub open spec fn xiso_path(d: Seq<u8>, off: int) -> Seq<char> {
    lossy_text(d.subrange(off + 16, off + 16 + first_zero(d, off + 16, 256, 255)))
}

/// The file-table records of an XISO from `off` on, each 272 bytes (an 8-byte
/// offset, an 8-byte size and a 256-byte path), up to the first that does not
/// fit, keeping those with a path and a non-zero size.
pub open spec fn xiso_records(d: Seq<u8>, off: int) -> Seq<EntryModel>
    decreases d.len() - off,
{
    if off < 0 || off + 272 > d.len() {
        seq![]
    } else {
        let e = EntryModel {
            path: xiso_path(d, off),
            offset: le64(d, off) as u64,
            size: le64(d, off + 8) as u64,
            is_directory: false,
        };
        let rest = xiso_records(d, off + 272);
        if e.path.len() > 0 && e.size > 0 {
            seq![e] + rest
        } else {
            rest
        }
    }
}

/// `e` is the file that the XISO table record number `t` from `off` names: the
/// record lies 272 bytes times `t` after `off`, inside `d`, and gives the
/// entry's offset and size (the size non-zero) as its first two 64-bit words and
/// its path from the 256 bytes after them (not empty).
pub open spec fn xiso_record_at(d: Seq<u8>, off: int, t: int, e: EntryModel) -> bool {
    let at = off + 272 * t;
    &&& 0 <= t
    &&& 0 <= at
    &&& at + 272 <= d.len()
    &&& e.offset == le64(d, at)
    &&& e.size == le64(d, at + 8)
    &&& e.size > 0
    &&& e.path == xiso_path(d, at)
    &&& e.path.len() > 0
    &&& !e.is_directory
}

/// `e` comes from some record of the XISO table at `off`.
pub open spec fn from_xiso_record(d: Seq<u8>, off: int, e: EntryModel) -> bool {
    exists|t: int| #[trigger] xiso_record_at(d, off, t, e)
}

/// XISO table records are 272 bytes apart: every listed file comes from the
/// record a whole number of 272-byte steps after the table's start.
pub proof fn xiso_records_are_272_bytes_apart(d: Seq<u8>, off: int)
    ensures
        forall|j: int|
            0 <= j < xiso_records(d, off).len() ==> #[trigger] from_xiso_record(
                d,
                off,
                xiso_records(d, off)[j],
            ),
    decreases d.len() - off,
{
    let r = xiso_records(d, off);
    if off >= 0 && off + 272 <= d.len() {
        xiso_records_are_272_bytes_apart(d, off + 272);
        let rest = xiso_records(d, off + 272);
        assert forall|j: int| 0 <= j < rest.len() implies #[trigger] from_xiso_record(d, off, rest[j]) by {
            assert(from_xiso_record(d, off + 272, rest[j]));
            let t = choose|t: int| #[trigger] xiso_record_at(d, off + 272, t, rest[j]);
            assert(off + 272 + 272 * t == off + 272 * (t + 1));
            assert(xiso_record_at(d, off, t + 1, rest[j]));
        }
        if r.len() > rest.len() {
            assert(r == seq![r[0]] + rest);
            assert(xiso_record_at(d, off, 0, r[0]));
            assert forall|j: int| 0 <= j < r.len() implies #[trigger] from_xiso_record(d, off, r[j]) by {
                if j > 0 {
                    assert(r[j] == rest[j - 1]);
                }
            }
        } else {
            assert(r == rest);
        }
    }
}

pub open spec fn first_path(es: Seq<EntryModel>) -> Option<Seq<char>> {
    if es.len() > 0 {
        Some(es[0].path)
    } else {
        None
    }
}

/// What reading a file table at 0x800 gives.
pub open spec fn xiso_table_model(d: Seq<u8>) -> DiscModel {
    let es = xiso_records(d, 0x800);
    disc_model(DiscType::XBox, es, first_path(es), "Xbox Disc"@, seq![], seq![])
}

fn parse_xiso_mini(data: &[u8]) -> (r: DiscExtractResult)
    requires
        data@.len() >= 0x800,
    ensures
        r@ == xiso_table_model(data@),
{
    let len = data.len();
    let ghost d = data@;
    let ghost all = xiso_records(d, 0x800);
    let mut entries: Vec<DiscEntry> = Vec::new();
    let mut offset: usize = 0x800;
    while offset <= len && len - offset >= 272
        invariant
            d == data@,
            len == d.len(),
            0x800 <= offset,
            entries_view(entries@) + xiso_records(d, offset as int) == all,
        decreases len - offset,
    {
        let file_offset = read_u64_le(data, offset);
        let file_size = read_u64_le(data, offset + 8);
        let path_start = offset + 16;
        let null_pos = find_zero(data, path_start, 256, 255);
        let path = lossy_string(&data[path_start..path_start + null_pos]);
        let ghost rest = xiso_records(d, offset + 272);
        let ghost before = entries_view(entries@);
        if !path.as_str().is_empty() && file_size > 0 {
            let e = DiscEntry { path, offset: file_offset, size: file_size, is_directory: false };
            let ghost m = e@;
            entries.push(e);
            assert(entries_view(entries@) =~= before.push(m));
            assert(before.push(m) + rest =~= before + (seq![m] + rest));
        }
        offset += 272;
    }
    assert(entries_view(entries@) =~= all);
    let boot_file = if entries.len() > 0 {
        Some(string_of(&chars_of(entries[0].path.as_str())))
    } else {
        None
    };
    proof {
        reveal_strlit("");
    }
    result(DiscType::XBox, entries, boot_file, "Xbox Disc", "", "")
}


/// The bytes of the name `PK00`.
pub open spec fn pk00_name() -> Seq<u8> {
    seq![0x50u8, 0x4bu8, 0x30u8, 0x30u8]
}

/// The bytes of the name `default.xbe`.
pub open spec fn default_xbe_name() -> Seq<u8> {
    seq![0x64u8, 0x65u8, 0x66u8, 0x61u8, 0x75u8, 0x6cu8, 0x74u8, 0x2eu8, 0x78u8, 0x62u8, 0x65u8]
}

/// `name` occurs in `d` followed by a non-zero byte, with 33 bytes from that
/// byte on inside `d`.
pub open spec fn name_marked(d: Seq<u8>, name: Seq<u8>) -> bool {
    exists|p: int|
        0 <= p && p + name.len() + 33 <= d.len() && #[trigger] has_bytes_at(d, p, name) && d[p
            + name.len()] != 0
}

/// The window scan for a marked name: it answers the name's length when the name
/// is marked anywhere, else nothing.
fn find_file_by_name(data: &[u8], name: &[u8]) -> (r: Option<usize>)
    requires
        name@.len() + 33 <= usize::MAX,
    ensures
        r is Some <==> name_marked(data@, name@),
        r matches Some(n) ==> n == name@.len(),
{
    let n = name.len();
    let len = data.len();
    if len < n + 33 {
        return None;
    }
    let mut p: usize = 0;
    while p <= len - (n + 33)
        invariant
            n == name@.len(),
            len == data@.len(),
            n + 33 <= len,
            p <= len - (n + 33) + 1,
            forall|q: int|
                0 <= q < p ==> !(#[trigger] has_bytes_at(data@, q, name@) && data@[q + n] != 0),
        decreases len - (n + 33) + 1 - p,
    {
        if bytes_at(data, p, name) && data[p + n] != 0 {
            return Some(n);
        }
        p += 1;
    }
    None
}

/// The directory record at `pos`: its start sector as a byte offset and its size,
/// when its length byte is non-zero and the record fits.
pub open spec fn dir_entry(d: Seq<u8>, pos: int) -> Option<(int, int)> {
    if pos + 33 > d.len() {
        None
    } else if d[pos] == 0 || pos + d[pos] > d.len() {
        None
    } else {
        Some((d[pos + 2] * 4 + d[pos + 3] * 0x100_0000, le32(d, pos + 28)))
    }
}

struct DirectoryEntry {
    offset: u64,
    size: u64,
}

fn parse_directory_entry(data: &[u8], pos: usize) -> (r: Option<DirectoryEntry>)
    requires
        pos < 0x100,
    ensures
        match (r, dir_entry(data@, pos as int)) {
            (Some(e), Some((off, size))) => e.offset == off && e.size == size,
            (None, None) => true,
            _ => false,
        },
{
    let len = data.len();
    if pos + 33 > len {
        return None;
    }
    let length = data[pos] as usize;
    if length == 0 || pos + length > len {
        return None;
    }
    let file_size = read_u32_le(data, pos + 28) as u64;
    let offset = (data[pos + 2] as u64) * 4 + (data[pos + 3] as u64) * 0x100_0000;
    Some(DirectoryEntry { offset, size: file_size })
}

/// A name that the PK00 listing passes over: one that starts or ends with `/`,
/// or is `.` or `..`.
pub open spec fn pk00_skipped(n: Seq<char>) -> bool {
    ||| (n.len() > 0 && (n[0] == '/' || n.last() == '/'))
    ||| n == seq!['.']
    ||| n == seq!['.', '.']
}

/// The PK00 listing in `s` scanned from `pos` on; `None` where a record's offset
/// and size fields would lie past the end of `s`.
pub open spec fn pk00_scan(s: Seq<u8>, base: int, pos: int) -> Option<Seq<EntryModel>>
    decreases s.len() - pos,
{
    if pos < 0 || pos + 33 >= s.len() {
        Some(seq![])
    } else if s[pos] == 0 {
        pk00_scan(s, base, pos + 1)
    } else {
        let ns = pos + 1;
        let ne = first_zero(s, ns, 32, 32);
        if ne <= 0 || ne > 32 {
            pk00_scan(s, base, pos + 1)
        } else {
            let name = lossy_text(s.subrange(ns, ns + ne));
            if pk00_skipped(name) {
                pk00_scan(s, base, pos + 1)
            } else if ns + ne + 8 > s.len() {
                None
            } else {
                let off = le32(s, ns + ne) * 4;
                let size = le32(s, ns + ne + 4);
                match pk00_scan(s, base, pos + ne + 8) {
                    None => None,
                    Some(rest) => Some(
                        if size > 0 && off > 0 {
                            seq![
                                EntryModel {
                                    path: name,
                                    offset: (base + off) as u64,
                                    size: size as u64,
                                    is_directory: false,
                                },
                            ] + rest
                        } else {
                            rest
                        },
                    ),
                }
            }
        }
    }
}

/// Whether the characters `v` form a name that the PK00 listing passes over.
fn is_skipped_name(v: &[char]) -> (r: bool)
    ensures
        r == pk00_skipped(v@),
{
    let n = v.len();
    if n > 0 && (v[0] == '/' || v[n - 1] == '/') {
        return true;
    }
    if n == 1 && v[0] == '.' {
        assert(v@ =~= seq!['.']);
        return true;
    }
    if n == 2 && v[0] == '.' && v[1] == '.' {
        assert(v@ =~= seq!['.', '.']);
        return true;
    }
    assert(v@ != seq!['.']) by {
        if v@ == seq!['.'] {
            assert(v@[0] == '.');
        }
    }
    assert(v@ != seq!['.', '.']) by {
        if v@ == seq!['.', '.'] {
            assert(v@[0] == '.' && v@[1] == '.');
        }
    }
    false
}

fn parse_pk00_files(data: &[u8], start: usize, base_offset: u64) -> (r: Vec<DiscEntry>)
    requires
        start <= data@.len(),
        base_offset == start,
        base_offset <= 0x8000,
        pk00_scan(data@.subrange(start as int, data@.len() as int), base_offset as int, 0) is Some,
    ensures
        entries_view(r@) == pk00_scan(
            data@.subrange(start as int, data@.len() as int),
            base_offset as int,
            0,
        ).unwrap(),
{
    let ghost s = data@.subrange(start as int, data@.len() as int);
    let ghost all = pk00_scan(s, base_offset as int, 0).unwrap();
    let total = data.len();
    let len = total - start;
    let mut entries: Vec<DiscEntry> = Vec::new();
    let mut pos: usize = 0;
    while pos < len && len - pos > 33
        invariant
            total == data@.len(),
            s == data@.subrange(start as int, data@.len() as int),
            len == s.len(),
            pos <= len,
            start + len == data@.len(),
            base_offset == start,
            base_offset <= 0x8000,
            pk00_scan(s, base_offset as int, pos as int) is Some,
            entries_view(entries@) + pk00_scan(s, base_offset as int, pos as int).unwrap() == all,
        decreases len - pos,
    {
        let at = start + pos;
        assert(s[pos as int] == data@[at as int]);
        if data[at] != 0 {
            let ns = at + 1;
            proof {
                lemma_first_zero_range(s, pos + 1, 32, 32);
                assert forall|j: int| pos + 1 <= j < pos + 33 implies s[j] == data@[start + j] by {}
                lemma_first_zero_shift(s, data@, pos + 1, start as int, 32, 32);
            }
            let name_end = find_zero(data, ns, 32, 32);
            if name_end == 0 {
                pos += 1;
                continue;
            }
            let raw = lossy_string(&data[ns..ns + name_end]);
            proof {
                assert(data@.subrange(ns as int, ns + name_end) =~= s.subrange(pos + 1, pos + 1 + name_end));
            }
            let name_chars = chars_of(raw.as_str());
            if is_skipped_name(&name_chars) {
                pos += 1;
                continue;
            }
            let fields = ns + name_end;
            proof {
                assert(le32(s, pos + 1 + name_end) == le32(data@, fields as int));
                assert(le32(s, pos + 1 + name_end + 4) == le32(data@, fields + 4));
            }
            let file_offset = (read_u32_le(data, fields) as u64) * 4;
            let file_size = read_u32_le(data, fields + 4) as u64;
            let ghost before = entries_view(entries@);
            let ghost rest = pk00_scan(s, base_offset as int, pos + name_end + 8).unwrap();
            if file_size > 0 && file_offset > 0 {
                let e = DiscEntry {
                    path: string_of(&name_chars),
                    offset: base_offset + file_offset,
                    size: file_size,
                    is_directory: false,
                };
                let ghost m = e@;
                entries.push(e);
                assert(entries_view(entries@) =~= before.push(m));
                assert(before.push(m) + rest =~= before + (seq![m] + rest));
            }
            pos += name_end + 8;
        } else {
            pos += 1;
        }
    }
    assert(entries_view(entries@) =~= all);
    entries
}

proof fn lemma_first_zero_shift(s: Seq<u8>, d: Seq<u8>, from: int, shift: int, width: int, missing: int)
    requires
        0 <= from,
        from + width <= s.len(),
        width >= 0,
        forall|j: int| from <= j < from + width ==> s[j] == d[shift + j],
    ensures
        first_zero(s, from, width, missing) == first_zero(d, shift + from, width, missing),
    decreases width,
{
    if width > 0 {
        lemma_first_zero_shift(s, d, from + 1, shift, width - 1, missing - 1);
    }
}

/// Whether the PK00 listing of `data` from `start` on can be read: no record's
/// offset and size fields lie past the end.
fn pk00_readable(data: &[u8], start: usize) -> (r: bool)
    requires
        start <= data@.len(),
    ensures
        r == pk00_scan(data@.subrange(start as int, data@.len() as int), start as int, 0) is Some,
{
    let ghost s = data@.subrange(start as int, data@.len() as int);
    let total = data.len();
    let len = total - start;
    let mut pos: usize = 0;
    while pos < len && len - pos > 33
        invariant
            total == data@.len(),
            s == data@.subrange(start as int, data@.len() as int),
            len == s.len(),
            pos <= len,
            start + len == data@.len(),
            (pk00_scan(s, start as int, 0) is Some) == (pk00_scan(s, start as int, pos as int) is Some),
        decreases len - pos,
    {
        let at = start + pos;
        assert(s[pos as int] == data@[at as int]);
        if data[at] != 0 {
            let ns = at + 1;
            proof {
                lemma_first_zero_range(s, pos + 1, 32, 32);
                assert forall|j: int| pos + 1 <= j < pos + 33 implies s[j] == data@[start + j] by {}
                lemma_first_zero_shift(s, data@, pos + 1, start as int, 32, 32);
            }
            let name_end = find_zero(data, ns, 32, 32);
            if name_end == 0 {
                pos += 1;
                continue;
            }
            let raw = lossy_string(&data[ns..ns + name_end]);
            proof {
                assert(data@.subrange(ns as int, ns + name_end) =~= s.subrange(pos + 1, pos + 1 + name_end));
            }
            let name_chars = chars_of(raw.as_str());
            if is_skipped_name(&name_chars) {
                pos += 1;
                continue;
            }
            if name_end + 8 > len - (pos + 1) {
                return false;
            }
            pos += name_end + 8;
        } else {
            pos += 1;
        }
    }
    true
}

/// The PK00 entries of a standard XISO: `None` when its listing cannot be read
/// (its start lies past the end of `d`, or `pk00_scan` says so).
pub open spec fn xiso_std_pk00(d: Seq<u8>) -> Option<Seq<EntryModel>> {
    if name_marked(d, pk00_name()) {
        match dir_entry(d, 4) {
            Some((off, _)) => if off > d.len() {
                None
            } else {
                pk00_scan(d.subrange(off, d.len() as int), off, 0)
            },
            None => Some(seq![]),
        }
    } else {
        Some(seq![])
    }
}

/// The boot executable entry of a standard XISO, when its directory record is found.
pub open spec fn xiso_std_xbe(d: Seq<u8>) -> Seq<EntryModel> {
    if name_marked(d, default_xbe_name()) {
        match dir_entry(d, 11) {
            Some((off, size)) => seq![
                EntryModel {
                    path: "default.xbe"@,
                    offset: off as u64,
                    size: size as u64,
                    is_directory: false,
                },
            ],
            None => seq![],
        }
    } else {
        seq![]
    }
}

/// What reading a standard XISO's directory records gives.
pub open spec fn xiso_std_model(d: Seq<u8>) -> DiscModel {
    let pk = match xiso_std_pk00(d) {
        Some(e) => e,
        None => seq![],
    };
    disc_model(
        DiscType::XBox,
        pk + xiso_std_xbe(d),
        if name_marked(d, default_xbe_name()) {
            Some("default.xbe"@)
        } else {
            None
        },
        "Xbox Game Disc"@,
        "Microsoft"@,
        "1.0"@,
    )
}

fn parse_xiso_std(data: &[u8]) -> (r: DiscExtractResult)
    requires
        0x800 <= data@.len() < 0x8000,
        xiso_std_pk00(data@) is Some,
    ensures
        r@ == xiso_std_model(data@),
{
    let ghost d = data@;
    let mut entries: Vec<DiscEntry> = Vec::new();
    let mut boot_file: Option<String> = None;
    if let Some(_pk00_pos) = find_file_by_name(data, &[0x50u8, 0x4bu8, 0x30u8, 0x30u8]) {
        assert(data@.len() >= 37);
        if let Some(pk00_entry) = parse_directory_entry(data, 4) {
            let off = pk00_entry.offset as usize;
            entries = parse_pk00_files(data, off, pk00_entry.offset);
        }
    }
    assert(entries_view(entries@) == xiso_std_pk00(d).unwrap());
    let xbe_name = [0x64u8, 0x65u8, 0x66u8, 0x61u8, 0x75u8, 0x6cu8, 0x74u8, 0x2eu8, 0x78u8, 0x62u8, 0x65u8];
    assert(xbe_name@ =~= default_xbe_name());
    if let Some(_xbe_pos) = find_file_by_name(data, &xbe_name) {
        boot_file = Some(owned("default.xbe"));
        if let Some(entry) = parse_directory_entry(data, 11) {
            let ghost before = entries_view(entries@);
            let e = DiscEntry {
                path: owned("default.xbe"),
                offset: entry.offset,
                size: entry.size,
                is_directory: false,
            };
            let ghost m = e@;
            entries.push(e);
            assert(entries_view(entries@) =~= before.push(m));
            assert(before.push(m) =~= before + seq![m]);
        } else {
            assert(xiso_std_xbe(d) =~= seq![]);
            assert(entries_view(entries@) =~= entries_view(entries@) + xiso_std_xbe(d));
        }
    } else {
        assert(entries_view(entries@) =~= entries_view(entries@) + xiso_std_xbe(d));
    }
    result(DiscType::XBox, entries, boot_file, "Xbox Game Disc", "Microsoft", "1.0")
}

/// The three bytes `"X\0\0"` of the XISO mark.
pub open spec fn xiso_mark() -> Seq<u8> {
    seq![0x58u8, 0u8, 0u8]
}

/// What extracting an Xbox ISO gives: images of 0x8000 bytes or more are read
/// as an XISO file table at 0x800, smaller ones as a standard XISO. (The first
/// four bytes are compared against the three-byte XISO mark, which they never
/// equal, so only the size decides.)
pub open spec fn xbox_iso_model(d: Seq<u8>) -> Result<DiscModel, Seq<char>> {
    if d.len() < 0x800 {
        Err("File too small for Xbox ISO"@)
    } else if d.len() >= 0x8000 {
        Ok(xiso_table_model(d))
    } else {
        Ok(xiso_std_model(d))
    }
}

/// A standard XISO whose PK00 listing cannot be read.
pub open spec fn xbox_iso_unreadable(d: Seq<u8>) -> bool {
    0x800 <= d.len() < 0x8000 && xiso_std_pk00(d) is None
}

/// Whether `extract_xbox_iso` can read `data`: `false` exactly on a standard
/// XISO whose PK00 listing cannot be read.
pub fn xbox_iso_readable(data: &[u8]) -> (r: bool)
    ensures
        r == !xbox_iso_unreadable(data@),
{
    let len = data.len();
    if len < 0x800 || len >= 0x8000 {
        return true;
    }
    if let Some(_pk00_pos) = find_file_by_name(data, &[0x50u8, 0x4bu8, 0x30u8, 0x30u8]) {
        assert(data@.len() >= 37);
        if let Some(pk00_entry) = parse_directory_entry(data, 4) {
            if pk00_entry.offset > len as u64 {
                return false;
            }
            return pk00_readable(data, pk00_entry.offset as usize);
        }
    }
    true
}

/// Extracts the file listing of an Xbox ISO/XISO image.
pub fn extract_xbox_iso(data: &[u8]) -> (r: Result<DiscExtractResult, AthanorError>)
    requires
        !xbox_iso_unreadable(data@),
    ensures
        disc_outcome_is(r, xbox_iso_model(data@)),
{
    let len = data.len();
    if len < 0x800 {
        return Err(invalid_data("File too small for Xbox ISO"));
    }
    let magic = &data[0..4];
    let mark = [0x58u8, 0u8, 0u8];
    assert(magic@.len() == 4 && mark@.len() == 3);
    if bytes_equal(magic, &mark) || len >= 0x8000 {
        return Ok(parse_xiso_mini(data));
    }
    Ok(parse_xiso_std(data))
}


// ---------------------------------------------------------------- PS2

/// The name field of the ISO 9660 directory record at `pos`: its 31 bytes as
/// text, trimmed, cut at the `;` that opens the version suffix, with trailing
/// `0`s dropped.
pub open spec fn iso_name(d: Seq<u8>, pos: int) -> Seq<char> {
    let t = trim(lossy_text(d.subrange(pos + 34, pos + 65)));
    trim_end_char(t.take(first_of(t, ';') as int), '0')
}

/// The ISO 9660 directory records of `d` from `pos` on: zero bytes are skipped,
/// and the walk ends at a record that does not fit.
pub open spec fn iso_dir(d: Seq<u8>, pos: int) -> Seq<EntryModel>
    decreases d.len() - pos,
{
    if pos < 0 || pos + 34 >= d.len() {
        seq![]
    } else if d[pos] == 0 {
        iso_dir(d, pos + 1)
    } else if pos + d[pos] > d.len() || pos + 65 > d.len() {
        seq![]
    } else {
        let name = iso_name(d, pos);
        let rest = iso_dir(d, pos + d[pos]);
        if name.len() > 0 && name != seq!['.'] && name != seq!['.', '.'] {
            seq![
                EntryModel {
                    path: name,
                    offset: ((d[pos + 2] + d[pos + 3] * 0x100) * 2048 + d[pos + 32] + d[pos + 33]
                        * 0x100) as u64,
                    size: le32(d, pos + 28) as u64,
                    is_directory: d[pos + 25] & 2u8 != 0,
                },
            ] + rest
        } else {
            rest
        }
    }
}

/// Every entry of an ISO 9660 directory listing comes from a record that
/// starts at a non-zero length byte at or after `pos` and lies inside `d`: its
/// offset is the record's 16-bit sector number times 2048 plus its extended
/// attribute length, its size the 32-bit size field at 28, its directory flag
/// bit 1 of the flags byte at 25, and its name is not empty, `.` or `..`, holds
/// no `;` and does not end in `0`.
pub proof fn iso_entries_come_from_records(d: Seq<u8>, pos: int)
    ensures
        forall|j: int|
            0 <= j < iso_dir(d, pos).len() ==> #[trigger] from_record_after(d, pos, iso_dir(d, pos)[j]),
    decreases d.len() - pos,
{
    let r = iso_dir(d, pos);
    if pos < 0 || pos + 34 >= d.len() {
        assert(r.len() == 0);
    } else if d[pos] == 0 {
        iso_entries_come_from_records(d, pos + 1);
        let r1 = iso_dir(d, pos + 1);
        assert(r == r1);
        assert forall|j: int| 0 <= j < r.len() implies #[trigger] from_record_after(d, pos, r[j]) by {
            assert(from_record_after(d, pos + 1, r1[j]));
            let q = choose|q: int| pos + 1 <= q && #[trigger] iso_record_at(d, q, r1[j]);
            assert(iso_record_at(d, q, r[j]));
        }
    } else if pos + d[pos] > d.len() || pos + 65 > d.len() {
        assert(r.len() == 0);
    } else {
        let next = pos + d[pos];
        iso_entries_come_from_records(d, next);
        let name = iso_name(d, pos);
        let rest = iso_dir(d, next);
        let t = trim(lossy_text(d.subrange(pos + 34, pos + 65)));
        let cut = t.take(first_of(t, ';') as int);
        lemma_first_of(t, ';');
        lemma_trim_end_char(cut, '0');
        if name.len() > 0 && name != seq!['.'] && name != seq!['.', '.'] {
            let e = r[0];
            assert(r == seq![e] + rest);
            assert(e.path == name);
            assert(!name.contains(';')) by {
                if name.contains(';') {
                    let i = choose|i: int| 0 <= i < name.len() && name[i] == ';';
                    assert(cut[i] == ';');
                    assert(t[i] == ';');
                }
            }
            assert(iso_record_at(d, pos, e));
            assert forall|j: int| 0 <= j < r.len() implies #[trigger] from_record_after(d, pos, r[j]) by {
                if j == 0 {
                    assert(iso_record_at(d, pos, r[j]));
                } else {
                    assert(r[j] == rest[j - 1]);
                    assert(from_record_after(d, next, rest[j - 1]));
                    let q = choose|q: int| next <= q && #[trigger] iso_record_at(d, q, rest[j - 1]);
                    assert(iso_record_at(d, q, r[j]));
                }
            }
        } else {
            assert(r == rest);
            assert forall|j: int| 0 <= j < r.len() implies #[trigger] from_record_after(d, pos, r[j]) by {
                assert(from_record_after(d, next, rest[j]));
                let q = choose|q: int| next <= q && #[trigger] iso_record_at(d, q, rest[j]);
                assert(iso_record_at(d, q, r[j]));
            }
        }
    }
}

/// `e` comes from an ISO 9660 directory record at `pos` or after it.
pub open spec fn from_record_after(d: Seq<u8>, pos: int, e: EntryModel) -> bool {
    exists|q: int| pos <= q && #[trigger] iso_record_at(d, q, e)
}

/// `e` is the entry that the ISO 9660 directory record at `q` describes.
pub open spec fn iso_record_at(d: Seq<u8>, q: int, e: EntryModel) -> bool {
    &&& 0 <= q
    &&& q + 65 <= d.len()
    &&& d[q] != 0
    &&& q + d[q] <= d.len()
    &&& e.offset == (d[q + 2] + d[q + 3] * 0x100) * 2048 + d[q + 32] + d[q + 33] * 0x100
    &&& e.size == le32(d, q + 28)
    &&& e.is_directory == (d[q + 25] & 2u8 != 0)
    &&& e.path.len() > 0
    &&& e.path != seq!['.']
    &&& e.path != seq!['.', '.']
    &&& !e.path.contains(';')
    &&& e.path.last() != '0'
}

/// A name that marks a PS2 boot executable.
pub open spec fn is_boot_name(n: Seq<char>) -> bool {
    contains_seq(n, "SLUS"@) || contains_seq(n, "SLES"@) || ends_with(n, ".elf"@)
}

/// The path of the first entry whose name marks a boot executable.
pub open spec fn first_boot(es: Seq<EntryModel>) -> Option<Seq<char>>
    decreases es.len(),
{
    if es.len() == 0 {
        None
    } else if is_boot_name(es[0].path) {
        Some(es[0].path)
    } else {
        first_boot(es.drop_first())
    }
}

/// The boot file of a PS2 listing is the path of its first entry whose name
/// contains `SLUS` (North America) or `SLES` (Europe) or ends with `.elf`, and
/// there is one exactly when some entry's name does.
pub proof fn boot_file_is_first_executable_name(es: Seq<EntryModel>)
    ensures
        first_boot(es) is Some <==> exists|i: int|
            0 <= i < es.len() && (contains_seq(#[trigger] es[i].path, "SLUS"@) || contains_seq(
                es[i].path,
                "SLES"@,
            ) || ends_with(es[i].path, ".elf"@)),
        first_boot(es) matches Some(p) ==> exists|i: int|
            0 <= i < es.len() && #[trigger] es[i].path == p && (contains_seq(es[i].path, "SLUS"@)
                || contains_seq(es[i].path, "SLES"@) || ends_with(es[i].path, ".elf"@)) && forall|
                j: int,
            |
                0 <= j < i ==> !(contains_seq(#[trigger] es[j].path, "SLUS"@) || contains_seq(
                    es[j].path,
                    "SLES"@,
                ) || ends_with(es[j].path, ".elf"@)),
    decreases es.len(),
{
    if es.len() > 0 {
        let t = es.drop_first();
        boot_file_is_first_executable_name(t);
        if !is_boot_name(es[0].path) {
            if exists|i: int|
                0 <= i < es.len() && (contains_seq(#[trigger] es[i].path, "SLUS"@) || contains_seq(
                    es[i].path,
                    "SLES"@,
                ) || ends_with(es[i].path, ".elf"@)) {
                let i = choose|i: int|
                    0 <= i < es.len() && (contains_seq(#[trigger] es[i].path, "SLUS"@)
                        || contains_seq(es[i].path, "SLES"@) || ends_with(es[i].path, ".elf"@));
                assert(t[i - 1] == es[i]);
            }
            if first_boot(t) is Some {
                let i = choose|i: int|
                    0 <= i < t.len() && #[trigger] t[i].path == first_boot(t)->0 && (contains_seq(
                        t[i].path,
                        "SLUS"@,
                    ) || contains_seq(t[i].path, "SLES"@) || ends_with(t[i].path, ".elf"@))
                        && forall|j: int|
                        0 <= j < i ==> !(contains_seq(#[trigger] t[j].path, "SLUS"@)
                            || contains_seq(t[j].path, "SLES"@) || ends_with(t[j].path, ".elf"@));
                assert(es[i + 1] == t[i]);
                assert forall|j: int| 0 <= j < i + 1 implies !(contains_seq(#[trigger] es[j].path, "SLUS"@)
                    || contains_seq(es[j].path, "SLES"@) || ends_with(es[j].path, ".elf"@)) by {
                    if j > 0 {
                        assert(es[j] == t[j - 1]);
                    }
                }
                assert(es[i + 1].path == first_boot(es)->0);
            }
        } else {
            assert(es[0].path == first_boot(es)->0);
        }
    }
}

/// The byte offset of the root directory named by the primary volume descriptor.
pub open spec fn ps2_root_dir(d: Seq<u8>) -> int {
    (le32(d, 0x8001int + 150) / 0x8000) * 2048
}

/// What extracting a PS2 ISO gives.
pub open spec fn ps2_iso_model(d: Seq<u8>) -> Result<DiscModel, Seq<char>> {
    if d.len() < 0x8000 {
        Err("File too small for PS2 ISO"@)
    } else if 0x8001 + 0x80 > d.len() {
        Ok(disc_model(DiscType::Playstation2, seq![], None, "PS2 Disc"@, "Sony"@, seq![]))
    } else {
        let es = iso_dir(d, ps2_root_dir(d));
        Ok(
            disc_model(
                DiscType::Playstation2,
                es,
                first_boot(es),
                "PS2 Game Disc"@,
                "Sony Computer Entertainment"@,
                "1.0"@,
            ),
        )
    }
}

/// An image long enough to hold the volume descriptor's first 0x80 bytes but
/// too short for its root directory field.
pub open spec fn ps2_iso_truncated(d: Seq<u8>) -> bool {
    0x8001 + 0x80 <= d.len() <= 0x8001 + 153
}

fn clean_iso_name(data: &[u8], pos: usize) -> (r: Vec<char>)
    requires
        pos + 65 <= data@.len(),
    ensures
        r@ == iso_name(data@, pos as int),
{
    let _n = data.len();
    let raw = lossy_string(&data[pos + 34..pos + 65]);
    let chars = chars_of(raw.as_str());
    let t = trim_chars(&chars);
    let cut = index_of(&t, ';');
    proof {
        lemma_first_of(t@, ';');
    }
    let u = sub_chars(&t, 0, cut);
    assert(u@ =~= t@.take(cut as int));
    trim_end_char_chars(&u, '0')
}

fn parse_iso9660_directory(data: &[u8], dir_pos: usize) -> (r: Vec<DiscEntry>)
    ensures
        entries_view(r@) == iso_dir(data@, dir_pos as int),
{
    let ghost d = data@;
    let ghost all = iso_dir(d, dir_pos as int);
    let len = data.len();
    let mut entries: Vec<DiscEntry> = Vec::new();
    let mut pos = dir_pos;
    while pos < len && len - pos > 34
        invariant
            d == data@,
            len == d.len(),
            entries_view(entries@) + iso_dir(d, pos as int) == all,
        decreases len - pos,
    {
        let length = data[pos] as usize;
        if length == 0 {
            pos += 1;
            continue;
        }
        if length > len - pos || len - pos < 65 {
            assert(iso_dir(d, pos as int) =~= Seq::<EntryModel>::empty());
            assert(iso_dir(d, len as int) =~= Seq::<EntryModel>::empty());
            pos = len;
            continue;
        }
        let is_directory = (data[pos + 25] & 2) != 0;
        let file_size = read_u32_le(data, pos + 28) as u64;
        let ext_attr = data[pos + 32] as u64 + (data[pos + 33] as u64) * 0x100;
        let name = clean_iso_name(data, pos);
        let ghost before = entries_view(entries@);
        let ghost rest = iso_dir(d, pos + length);
        let n = name.len();
        let dot = n == 1 && name[0] == '.';
        let dotdot = n == 2 && name[0] == '.' && name[1] == '.';
        proof {
            if name@ == seq!['.'] {
                assert(name@[0] == '.');
            }
            if name@ == seq!['.', '.'] {
                assert(name@[0] == '.' && name@[1] == '.');
            }
            if dot {
                assert(name@ =~= seq!['.']);
            }
            if dotdot {
                assert(name@ =~= seq!['.', '.']);
            }
        }
        if n > 0 && !dot && !dotdot {
            let lba = data[pos + 2] as u64 + (data[pos + 3] as u64) * 0x100;
            let e = DiscEntry {
                path: string_of(&name),
                offset: lba * 2048 + ext_attr,
                size: file_size,
                is_directory,
            };
            let ghost m = e@;
            entries.push(e);
            assert(entries_view(entries@) =~= before.push(m));
            assert(before.push(m) + rest =~= before + (seq![m] + rest));
        }
        pos += length;
    }
    assert(entries_view(entries@) =~= all);
    entries
}

fn first_boot_file(entries: &Vec<DiscEntry>) -> (r: Option<String>)
    ensures
        opt_view(r) == first_boot(entries_view(entries@)),
{
    let slus = chars_of("SLUS");
    let sles = chars_of("SLES");
    let elf = chars_of(".elf");
    let ghost all = entries_view(entries@);
    assert(all.skip(0) =~= all);
    let mut i: usize = 0;
    while i < entries.len()
        invariant
            all == entries_view(entries@),
            i <= entries@.len(),
            slus@ == "SLUS"@,
            sles@ == "SLES"@,
            elf@ == ".elf"@,
            first_boot(all) == first_boot(all.skip(i as int)),
        decreases entries@.len() - i,
    {
        let path = chars_of(entries[i].path.as_str());
        assert(all.skip(i as int)[0] == entries@[i as int]@);
        if contains_chars(&path, &slus) || contains_chars(&path, &sles) || ends_with_chars(&path, &elf) {
            return Some(string_of(&path));
        }
        assert(all.skip(i as int).drop_first() =~= all.skip(i + 1));
        i += 1;
    }
    None
}

/// Extracts the root directory listing of a PS2 ISO 9660 image.
pub fn extract_ps2_iso(data: &[u8]) -> (r: Result<DiscExtractResult, AthanorError>)
    requires
        !ps2_iso_truncated(data@),
    ensures
        disc_outcome_is(r, ps2_iso_model(data@)),
{
    let len = data.len();
    if len < 0x8000 {
        return Err(invalid_data("File too small for PS2 ISO"));
    }
    let pvd_offset: usize = 0x8001;
    if pvd_offset + 0x80 > len {
        proof {
            reveal_strlit("");
        }
        let empty: Vec<DiscEntry> = Vec::new();
        assert(entries_view(empty@) =~= Seq::<EntryModel>::empty());
        let r = result(DiscType::Playstation2, empty, None, "PS2 Disc", "Sony", "");
        assert(r@.entries =~= Seq::<EntryModel>::empty());
        assert(r@.version =~= Seq::<char>::empty());
        assert(r@ =~= disc_model(DiscType::Playstation2, seq![], None, "PS2 Disc"@, "Sony"@, seq![]));
        return Ok(r);
    }
    let root_dir_offset = read_u32_le(data, pvd_offset + 150);
    let root_dir_block = root_dir_offset / 0x8000;
    let root_dir_pos = (root_dir_block as usize) * 2048;
    let entries = parse_iso9660_directory(data, root_dir_pos);
    let boot_file = first_boot_file(&entries);
    Ok(
        result(
            DiscType::Playstation2,
            entries,
            boot_file,
            "PS2 Game Disc",
            "Sony Computer Entertainment",
            "1.0",
        ),
    )
}

// ---------------------------------------------------------------- GameCube

/// The first position at which `pattern` occurs in `d`.
pub open spec fn is_first_match(d: Seq<u8>, pattern: Seq<u8>, p: int) -> bool {
    &&& has_bytes_at(d, p, pattern)
    &&& forall|q: int| 0 <= q < p ==> !#[trigger] has_bytes_at(d, q, pattern)
}

fn find_file_pattern(data: &[u8], pattern: &[u8]) -> (r: Option<usize>)
    requires
        pattern@.len() > 0,
    ensures
        r matches Some(p) ==> is_first_match(data@, pattern@, p as int),
        r is None ==> forall|q: int| 0 <= q ==> !#[trigger] has_bytes_at(data@, q, pattern@),
{
    let len = data.len();
    let n = pattern.len();
    if n > len {
        return None;
    }
    let mut p: usize = 0;
    while p <= len - n
        invariant
            n == pattern@.len(),
            n > 0,
            len == data@.len(),
            n <= len,
            p <= len - n + 1,
            forall|q: int| 0 <= q < p ==> !#[trigger] has_bytes_at(data@, q, pattern@),
        decreases len - n + 1 - p,
    {
        if bytes_at(data, p, pattern) {
            return Some(p);
        }
        p += 1;
    }
    None
}

/// The bytes `".app"` that name a GameCube executable partition.
pub open spec fn app_mark() -> Seq<u8> {
    seq![0x2eu8, 0x61u8, 0x70u8, 0x70u8]
}

/// The bytes `".rel"` that name a GameCube module.
pub open spec fn rel_mark() -> Seq<u8> {
    seq![0x2eu8, 0x72u8, 0x65u8, 0x6cu8]
}

/// The `"main.app"` entry at the first `".app"` in the image, if there is one.
pub open spec fn gcm_app_entry(d: Seq<u8>) -> Seq<EntryModel> {
    if exists|p: int| is_first_match(d, app_mark(), p) {
        let p = choose|p: int| is_first_match(d, app_mark(), p);
        seq![EntryModel { path: "main.app"@, offset: p as u64, size: 0, is_directory: false }]
    } else {
        seq![]
    }
}

/// The module offset read after a `".rel"` at `pos`: the three bytes that
/// follow its dot, little-endian.
pub open spec fn rel_offset(d: Seq<u8>, pos: int) -> int {
    d[pos + 1] + d[pos + 2] * 0x100 + d[pos + 3] * 0x10000
}

/// The module entries of a GameCube image from `pos` on: one for each `".rel"`
/// at a position `p` with `p + 8` inside the image and a non-zero module offset,
/// named `module_{p / 8}.rel`.
pub open spec fn gcm_rel_entries(d: Seq<u8>, pos: int) -> Seq<EntryModel>
    decreases d.len() - pos,
{
    if pos < 0 || pos + 8 >= d.len() {
        seq![]
    } else {
        let rest = gcm_rel_entries(d, pos + 1);
        if has_bytes_at(d, pos, rel_mark()) && rel_offset(d, pos) > 0 {
            seq![
                EntryModel {
                    path: "module_"@ + decimal((pos / 8) as nat) + ".rel"@,
                    offset: rel_offset(d, pos) as u64,
                    size: 0,
                    is_directory: false,
                },
            ] + rest
        } else {
            rest
        }
    }
}

/// `e` is the module entry of a `".rel"` at `q`: the mark lies at `q`, eight
/// bytes from `q` on lie inside `d`, the offset is the three bytes after the
/// dot read little-endian (non-zero), the size is 0, and the name is
/// `module_{q / 8}.rel`.
pub open spec fn rel_entry_at(d: Seq<u8>, q: int, e: EntryModel) -> bool {
    &&& 0 <= q
    &&& q + 8 < d.len()
    &&& d.subrange(q, q + 4) == rel_mark()
    &&& e.offset == d[q + 1] + d[q + 2] * 0x100 + d[q + 3] * 0x10000
    &&& e.offset > 0
    &&& e.size == 0
    &&& !e.is_directory
    &&& e.path == "module_"@ + decimal((q / 8) as nat) + ".rel"@
}

/// `e` is the module entry of a `".rel"` at `pos` or after it.
pub open spec fn from_rel_after(d: Seq<u8>, pos: int, e: EntryModel) -> bool {
    exists|q: int| pos <= q && #[trigger] rel_entry_at(d, q, e)
}

/// Every GameCube module entry names a `".rel"` mark in the image.
pub proof fn module_entries_come_from_rel_marks(d: Seq<u8>, pos: int)
    ensures
        forall|j: int|
            0 <= j < gcm_rel_entries(d, pos).len() ==> #[trigger] from_rel_after(
                d,
                pos,
                gcm_rel_entries(d, pos)[j],
            ),
    decreases d.len() - pos,
{
    if pos >= 0 && pos + 8 < d.len() {
        module_entries_come_from_rel_marks(d, pos + 1);
        let r = gcm_rel_entries(d, pos);
        let rest = gcm_rel_entries(d, pos + 1);
        assert forall|j: int| 0 <= j < rest.len() implies #[trigger] from_rel_after(d, pos, rest[j]) by {
            assert(from_rel_after(d, pos + 1, rest[j]));
            let q = choose|q: int| pos + 1 <= q && #[trigger] rel_entry_at(d, q, rest[j]);
            assert(rel_entry_at(d, q, rest[j]));
        }
        if has_bytes_at(d, pos, rel_mark()) && rel_offset(d, pos) > 0 {
            assert(r == seq![r[0]] + rest);
            assert(rel_entry_at(d, pos, r[0]));
            assert forall|j: int| 0 <= j < r.len() implies #[trigger] from_rel_after(d, pos, r[j]) by {
                if j > 0 {
                    assert(r[j] == rest[j - 1]);
                } else {
                    assert(rel_entry_at(d, pos, r[j]));
                }
            }
        } else {
            assert(r == rest);
        }
    }
}

/// The trimmed text of `d[start..end]`.
pub open spec fn header_text(d: Seq<u8>, start: int, end: int) -> Seq<char> {
    trim(lossy_text(d.subrange(start, end)))
}

/// What extracting a GameCube GCM gives: an image without the `" GameCube"`
/// mark at 0x200 yields an empty listing; one with it names the `DOL` boot file,
/// takes title, vendor and disc id from the header fields at 0x200, 0x210 and
/// 0x220, and lists the `".app"` partition and the `".rel"` modules.
pub open spec fn gcm_iso_model(d: Seq<u8>) -> Result<DiscModel, Seq<char>> {
    if d.len() < 0xc00 {
        Err("File too small for GameCube ISO"@)
    } else if !has_bytes_at(d, 0x200, gamecube_mark_bytes()) {
        Ok(disc_model(DiscType::Gamecube, seq![], None, seq![], seq![], seq![]))
    } else {
        Ok(
            DiscModel {
                disc_type: DiscType::Gamecube,
                entries: gcm_app_entry(d) + gcm_rel_entries(d, 0),
                boot_file: Some("DOL"@),
                title: header_text(d, 0x200, 0x210),
                vendor: header_text(d, 0x210, 0x220),
                version: seq![],
                disc_id: header_text(d, 0x220, 0x230),
            },
        )
    }
}

/// The ASCII bytes of the GameCube mark `" GameCube"`.
pub open spec fn gamecube_mark_bytes() -> Seq<u8> {
    seq![0x20u8, 0x47u8, 0x61u8, 0x6du8, 0x65u8, 0x43u8, 0x75u8, 0x62u8, 0x65u8]
}

/// The nine bytes of the GameCube mark `" GameCube"`.
fn gamecube_mark() -> (r: [u8; 9])
    ensures
        r@ == gamecube_mark_bytes(),
{
    let r = [0x20u8, 0x47u8, 0x61u8, 0x6du8, 0x65u8, 0x43u8, 0x75u8, 0x62u8, 0x65u8];
    assert(r@ =~= gamecube_mark_bytes());
    r
}

fn trimmed_text(data: &[u8], start: usize, end: usize) -> (s: String)
    requires
        start <= end <= data@.len(),
    ensures
        s@ == trim(lossy_text(data@.subrange(start as int, end as int))),
{
    let raw = lossy_string(&data[start..end]);
    string_of(&trim_chars(&chars_of(raw.as_str())))
}

/// Extracts the file listing of a GameCube GCM image.
pub fn extract_gcm_iso(data: &[u8]) -> (r: Result<DiscExtractResult, AthanorError>)
    ensures
        disc_outcome_is(r, gcm_iso_model(data@)),
{
    let ghost d = data@;
    let len = data.len();
    if len < 0xc00 {
        return Err(invalid_data("File too small for GameCube ISO"));
    }
    let mark = gamecube_mark();
    if !bytes_at(data, 0x200, &mark) {
        proof {
            reveal_strlit("");
        }
        let empty: Vec<DiscEntry> = Vec::new();
        assert(entries_view(empty@) =~= Seq::<EntryModel>::empty());
        let r = result(DiscType::Gamecube, empty, None, "", "", "");
        assert(r@.entries =~= Seq::<EntryModel>::empty());
        assert(r@.title =~= Seq::<char>::empty());
        assert(r@ =~= disc_model(DiscType::Gamecube, seq![], None, seq![], seq![], seq![]));
        return Ok(r);
    }
    let title = trimmed_text(data, 0x200, 0x210);
    let developer = trimmed_text(data, 0x210, 0x220);
    let disc_id = trimmed_text(data, 0x220, 0x230);
    let mut entries: Vec<DiscEntry> = Vec::new();
    let app = [0x2eu8, 0x61u8, 0x70u8, 0x70u8];
    assert(app@ =~= app_mark());
    match find_file_pattern(data, &app) {
        Some(app_pos) => {
            proof {
                assert(exists|p: int| is_first_match(d, app_mark(), p));
                let q = choose|p: int| is_first_match(d, app_mark(), p);
                if q < app_pos {
                    assert(!has_bytes_at(d, q, app_mark()));
                }
                if app_pos < q {
                    assert(!has_bytes_at(d, app_pos as int, app_mark()));
                }
            }
            entries.push(
                DiscEntry {
                    path: owned("main.app"),
                    offset: app_pos as u64,
                    size: 0,
                    is_directory: false,
                },
            );
        },
        None => {
            proof {
                if exists|p: int| is_first_match(d, app_mark(), p) {
                    let q = choose|p: int| is_first_match(d, app_mark(), p);
                    assert(has_bytes_at(d, q, app_mark()));
                }
            }
        },
    }
    assert(entries_view(entries@) =~= gcm_app_entry(d));
    let ghost all = gcm_app_entry(d) + gcm_rel_entries(d, 0);
    let rel = [0x2eu8, 0x72u8, 0x65u8, 0x6cu8];
    assert(rel@ =~= rel_mark());
    let mut pos: usize = 0;
    while pos < len && len - pos > 8
        invariant
            d == data@,
            len == d.len(),
            rel@ == rel_mark(),
            entries_view(entries@) + gcm_rel_entries(d, pos as int) == all,
        decreases len - pos,
    {
        let ghost before = entries_view(entries@);
        let ghost rest = gcm_rel_entries(d, pos + 1);
        if bytes_at(data, pos, &rel) {
            let module_offset = data[pos + 1] as u32 + (data[pos + 2] as u32) * 0x100 + (data[pos
                + 3] as u32) * 0x10000;
            if module_offset > 0 {
                let mut path = chars_of(labelled("module_", (pos / 8) as u64).as_str());
                let mut ext = chars_of(".rel");
                path.append(&mut ext);
                let e = DiscEntry {
                    path: string_of(&path),
                    offset: module_offset as u64,
                    size: 0,
                    is_directory: false,
                };
                let ghost m = e@;
                assert(m.path =~= "module_"@ + decimal((pos / 8) as nat) + ".rel"@);
                entries.push(e);
                assert(entries_view(entries@) =~= before.push(m));
                assert(before.push(m) + rest =~= before + (seq![m] + rest));
            }
        }
        pos += 1;
    }
    assert(gcm_rel_entries(d, pos as int) =~= Seq::<EntryModel>::empty());
    assert(entries_view(entries@) =~= all);
    let r = DiscExtractResult {
        disc_type: DiscType::Gamecube,
        entries,
        metadata: DiscMetadata {
            boot_file: Some(owned("DOL")),
            title,
            vendor: developer,
            version: String::new(),
            disc_id,
        },
    };
    assert(r@.entries =~= all);
    Ok(r)
}

// ---------------------------------------------------------------- detection

/// The six bytes `"XXXXXX"` that open an Xbox image.
pub open spec fn xbox_long_mark() -> Seq<u8> {
    seq![0x58u8, 0x58u8, 0x58u8, 0x58u8, 0x58u8, 0x58u8]
}

/// The standard identifier `"CD001"` of an ISO 9660 volume descriptor.
pub open spec fn cd_mark() -> Seq<u8> {
    seq![0x43u8, 0x44u8, 0x30u8, 0x30u8, 0x31u8]
}

/// An image of more than four bytes that opens with `"XXXXXX"` or `"X\0\0"`.
pub open spec fn xbox_marked(d: Seq<u8>) -> bool {
    d.len() > 4 && (has_bytes_at(d, 0, xbox_long_mark()) || has_bytes_at(d, 0, xiso_mark()))
}

/// An image whose primary volume descriptor, at 0x8001, holds `"CD001"`.
pub open spec fn ps2_marked(d: Seq<u8>) -> bool {
    has_bytes_at(d, 0x8001, cd_mark())
}

/// An image with the `" GameCube"` mark at 0x200.
pub open spec fn gcm_marked(d: Seq<u8>) -> bool {
    has_bytes_at(d, 0x200, gamecube_mark_bytes())
}

/// What detecting and extracting a disc gives: the Xbox marks come first, then
/// the ISO 9660 identifier, then the GameCube mark; an image with none of them
/// is an unknown format.
pub open spec fn disc_model_of(d: Seq<u8>) -> Result<DiscModel, Seq<char>> {
    if xbox_marked(d) {
        xbox_iso_model(d)
    } else if ps2_marked(d) {
        ps2_iso_model(d)
    } else if gcm_marked(d) {
        gcm_iso_model(d)
    } else {
        Err("Unknown disc format"@)
    }
}

/// An image that the extractor its marks select cannot read (see
/// `xbox_iso_unreadable` and `ps2_iso_truncated`).
pub open spec fn disc_unreadable(d: Seq<u8>) -> bool {
    if xbox_marked(d) {
        xbox_iso_unreadable(d)
    } else if ps2_marked(d) {
        ps2_iso_truncated(d)
    } else {
        false
    }
}

/// Whether `extract_disc` can read `data`: `false` exactly when the extractor
/// that its marks select cannot read it.
pub fn disc_readable(data: &[u8]) -> (r: bool)
    ensures
        r == !disc_unreadable(data@),
{
    let len = data.len();
    let long_mark = [0x58u8, 0x58u8, 0x58u8, 0x58u8, 0x58u8, 0x58u8];
    let short_mark = [0x58u8, 0u8, 0u8];
    assert(long_mark@ =~= xbox_long_mark());
    assert(short_mark@ =~= xiso_mark());
    if len > 4 && (bytes_at(data, 0, &long_mark) || bytes_at(data, 0, &short_mark)) {
        return xbox_iso_readable(data);
    }
    let cd = [0x43u8, 0x44u8, 0x30u8, 0x30u8, 0x31u8];
    assert(cd@ =~= cd_mark());
    if bytes_at(data, 0x8001, &cd) {
        return !(0x8001 + 0x80 <= len && len <= 0x8001 + 153);
    }
    true
}

/// Detects the disc type from its marks and extracts its listing with the
/// matching extractor.
pub fn extract_disc(data: &[u8]) -> (r: Result<DiscExtractResult, AthanorError>)
    requires
        !disc_unreadable(data@),
    ensures
        disc_outcome_is(r, disc_model_of(data@)),
{
    let len = data.len();
    let long_mark = [0x58u8, 0x58u8, 0x58u8, 0x58u8, 0x58u8, 0x58u8];
    let short_mark = [0x58u8, 0u8, 0u8];
    assert(long_mark@ =~= xbox_long_mark());
    assert(short_mark@ =~= xiso_mark());
    if len > 4 && (bytes_at(data, 0, &long_mark) || bytes_at(data, 0, &short_mark)) {
        return extract_xbox_iso(data);
    }
    let cd = [0x43u8, 0x44u8, 0x30u8, 0x30u8, 0x31u8];
    assert(cd@ =~= cd_mark());
    if bytes_at(data, 0x8001, &cd) {
        return extract_ps2_iso(data);
    }
    let mark = gamecube_mark();
    if bytes_at(data, 0x200, &mark) {
        return extract_gcm_iso(data);
    }
    Err(invalid_data("Unknown disc format"))
}

/// The text `"File extends beyond disc data: {offset} + {size} > {len}"`.
pub open spec fn beyond_message(offset: u64, size: u64, len: nat) -> Seq<char> {
    "File extends beyond disc data: "@ + decimal(offset as nat) + " + "@ + decimal(size as nat)
        + " > "@ + decimal(len)
}

/// The bytes of a file entry within the disc image, or an `InvalidData` error
/// when the entry extends past the end of the image.
pub fn entry_bytes(data: &[u8], entry: &DiscEntry) -> (r: Result<Vec<u8>, AthanorError>)
    requires
        entry.offset + entry.size <= u64::MAX,
    ensures
        entry.offset + entry.size > data@.len() <==> r is Err,
        r matches Err(e) ==> e.is_invalid_data(
            beyond_message(entry.offset, entry.size, data@.len()),
        ),
        r matches Ok(b) ==> b@ == data@.subrange(
            entry.offset as int,
            entry.offset + entry.size,
        ),
{
    let end = entry.offset + entry.size;
    let len = data.len();
    if end > len as u64 {
        let mut msg = chars_of("File extends beyond disc data: ");
        let mut a = chars_of(labelled("", entry.offset).as_str());
        let mut plus = chars_of(" + ");
        let mut b = chars_of(labelled("", entry.size).as_str());
        let mut gt = chars_of(" > ");
        let mut c = chars_of(labelled("", len as u64).as_str());
        proof {
            reveal_strlit("");
        }
        msg.append(&mut a);
        msg.append(&mut plus);
        msg.append(&mut b);
        msg.append(&mut gt);
        msg.append(&mut c);
        assert(msg@ =~= beyond_message(entry.offset, entry.size, data@.len()));
        return Err(AthanorError::InvalidData(string_of(&msg)));
    }
    Ok(copy_range(data, entry.offset as usize, end as usize))
}

} // verus!
