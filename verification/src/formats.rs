//! Format detection and registration.
use vstd::prelude::*;
use vstd::utf8::{decode_utf8, valid_utf8};
use crate::bytes::{le32, read_u32_le};
use crate::text::{chars_of, owned, utf8_text};
use crate::FileMetadata;

verus! {

#[derive(Debug, Clone, Copy, PartialEq, Eq, Hash, Structural)]
pub enum Format {
    XMLB,
    PKGB,
    ENGB,
    CHRB,
    NAVB,
    BOYB,
    BNX,
    IGB,
    ZSM,
    ZSS,
    ZAM,
    ANIM,
    PHYS,
    AUD,
    COMP,
    PBR,
    PLGN,
    SAVE,
    PIPE,
    Unknown,
}

/// `c` lower-cases to the lower-case ASCII letter `t` (`char::to_lowercase`):
/// it is `t`, its upper-case form, or, for `k`, the Kelvin sign.
pub open spec fn lowers_char(c: char, t: char) -> bool {
    ||| c == t
    ||| ('a' <= t <= 'z' && c as u32 == t as u32 - 32)
    ||| (t == 'k' && c as u32 == 0x212a)
}

/// `s.to_lowercase()` is the lower-case ASCII word `t`.
pub open spec fn lowers_to(s: Seq<char>, t: Seq<char>) -> bool {
    &&& s.len() == t.len()
    &&& forall|i: int| 0 <= i < s.len() ==> #[trigger] lowers_char(s[i], t[i])
}

/// `c` with ASCII upper case lowered and the Kelvin sign read as `k`: the
/// characters that `char::to_lowercase` turns into a lower-case ASCII letter,
/// mapped to that letter.
pub open spec fn fold_char(c: char) -> char {
    if 'A' <= c <= 'Z' {
        ((c as u32) + 32) as char
    } else if c as u32 == 0x212a {
        'k'
    } else {
        c
    }
}

/// `e` with each character folded by `fold_char`.
pub open spec fn folded(e: Seq<char>) -> Seq<char> {
    e.map_values(|c: char| fold_char(c))
}

/// The format that a file extension (matched without regard to case) names.
pub open spec fn format_for_extension(e: Seq<char>) -> Format {
    if lowers_to(e, "xmlb"@) {
        Format::XMLB
    } else if lowers_to(e, "pkgb"@) {
        Format::PKGB
    } else if lowers_to(e, "engb"@) {
        Format::ENGB
    } else if lowers_to(e, "chrb"@) {
        Format::CHRB
    } else if lowers_to(e, "navb"@) {
        Format::NAVB
    } else if lowers_to(e, "boyb"@) {
        Format::BOYB
    } else if lowers_to(e, "bnx"@) {
        Format::BNX
    } else if lowers_to(e, "igb"@) {
        Format::IGB
    } else if lowers_to(e, "zsm"@) {
        Format::ZSM
    } else if lowers_to(e, "zss"@) {
        Format::ZSS
    } else if lowers_to(e, "zam"@) {
        Format::ZAM
    } else if lowers_to(e, "anim"@) || lowers_to(e, "anm"@) {
        Format::ANIM
    } else if lowers_to(e, "phys"@) {
        Format::PHYS
    } else if lowers_to(e, "bus"@) || lowers_to(e, "aud"@) {
        Format::AUD
    } else if lowers_to(e, "comp"@) {
        Format::COMP
    } else if lowers_to(e, "pbr"@) {
        Format::PBR
    } else if lowers_to(e, "plgn"@) {
        Format::PLGN
    } else if lowers_to(e, "save"@) {
        Format::SAVE
    } else if lowers_to(e, "pipe"@) {
        Format::PIPE
    } else {
        Format::Unknown
    }
}

/// The format that a little-endian magic number names.
pub open spec fn format_for_magic(magic: u32) -> Format {
    if magic == 0x000011B1 {
        Format::XMLB
    } else if magic == 0x0000414E {
        Format::ANIM
    } else if magic == 0x00005048 {
        Format::PHYS
    } else if magic == 0x00004155 {
        Format::AUD
    } else if magic == 0x0000434D {
        Format::COMP
    } else if magic == 0x00005042 {
        Format::PBR
    } else if magic == 0x00004C47 {
        Format::PLGN
    } else if magic == 0x00005347 {
        Format::SAVE
    } else if magic == 0x00005049 {
        Format::PIPE
    } else {
        Format::Unknown
    }
}

/// The extensions registered for each format.
pub open spec fn extension_list(f: Format) -> Seq<Seq<char>> {
    match f {
        Format::XMLB => seq!["xmlb"@, "pkgb"@, "engb"@, "chrb"@, "navb"@, "boyb"@],
        Format::PKGB => seq!["pkgb"@],
        Format::ENGB => seq!["engb"@],
        Format::CHRB => seq!["chrb"@],
        Format::NAVB => seq!["navb"@],
        Format::BOYB => seq!["boyb"@],
        Format::BNX => seq!["bnx"@],
        Format::IGB => seq!["igb"@],
        Format::ZSM => seq!["zsm"@],
        Format::ZSS => seq!["zss"@],
        Format::ZAM => seq!["zam"@],
        Format::ANIM => seq!["anim"@, "anm"@],
        Format::PHYS => seq!["phys"@],
        Format::AUD => seq!["bus"@, "aud"@],
        Format::COMP => seq!["comp"@],
        Format::PBR => seq!["pbr"@],
        Format::PLGN => seq!["plgn"@],
        Format::SAVE => seq!["save"@],
        Format::PIPE => seq!["pipe"@],
        Format::Unknown => seq![],
    }
}

/// The display name of each format.
pub open spec fn format_name(f: Format) -> Seq<char> {
    match f {
        Format::XMLB => "XMLB"@,
        Format::PKGB => "PKGB"@,
        Format::ENGB => "ENGB"@,
        Format::CHRB => "CHRB"@,
        Format::NAVB => "NAVB"@,
        Format::BOYB => "BOYB"@,
        Format::BNX => "BNX"@,
        Format::IGB => "IGB"@,
        Format::ZSM => "ZSM"@,
        Format::ZSS => "ZSS"@,
        Format::ZAM => "ZAM"@,
        Format::ANIM => "ANIM"@,
        Format::PHYS => "PHYS"@,
        Format::AUD => "AUD"@,
        Format::COMP => "COMP"@,
        Format::PBR => "PBR"@,
        Format::PLGN => "PLGN"@,
        Format::SAVE => "SAVE"@,
        Format::PIPE => "PIPE"@,
        Format::Unknown => "UNKNOWN"@,
    }
}

/// Whether the characters `v` lower-case to the word `word`.
fn lowers_to_word(v: &[char], word: &str) -> (r: bool)
    ensures
        r == lowers_to(v@, word@),
{
    let t = chars_of(word);
    if v.len() != t.len() {
        return false;
    }
    let mut i: usize = 0;
    while i < v.len()
        invariant
            v@.len() == t@.len(),
            t@ == word@,
            i <= v@.len(),
            forall|j: int| 0 <= j < i ==> #[trigger] lowers_char(v@[j], t@[j]),
        decreases v@.len() - i,
    {
        let c = v[i];
        let tc = t[i];
        let ok = c == tc || ('a' <= tc && tc <= 'z' && (tc as u32) - 32 == c as u32) || (tc == 'k'
            && c as u32 == 0x212a);
        if !ok {
            assert(!lowers_char(v@[i as int], t@[i as int]));
            return false;
        }
        i += 1;
    }
    true
}

impl Format {
    /// The format that a file extension names, matched without regard to case.
    pub fn from_extension(ext: &str) -> (r: Format)
        ensures
            r == format_for_extension(ext@),
    {
        let e = chars_of(ext);
        if lowers_to_word(&e, "xmlb") {
            Format::XMLB
        } else if lowers_to_word(&e, "pkgb") {
            Format::PKGB
        } else if lowers_to_word(&e, "engb") {
            Format::ENGB
        } else if lowers_to_word(&e, "chrb") {
            Format::CHRB
        } else if lowers_to_word(&e, "navb") {
            Format::NAVB
        } else if lowers_to_word(&e, "boyb") {
            Format::BOYB
        } else if lowers_to_word(&e, "bnx") {
            Format::BNX
        } else if lowers_to_word(&e, "igb") {
            Format::IGB
        } else if lowers_to_word(&e, "zsm") {
            Format::ZSM
        } else if lowers_to_word(&e, "zss") {
            Format::ZSS
        } else if lowers_to_word(&e, "zam") {
            Format::ZAM
        } else if lowers_to_word(&e, "anim") || lowers_to_word(&e, "anm") {
            Format::ANIM
        } else if lowers_to_word(&e, "phys") {
            Format::PHYS
        } else if lowers_to_word(&e, "bus") || lowers_to_word(&e, "aud") {
            Format::AUD
        } else if lowers_to_word(&e, "comp") {
            Format::COMP
        } else if lowers_to_word(&e, "pbr") {
            Format::PBR
        } else if lowers_to_word(&e, "plgn") {
            Format::PLGN
        } else if lowers_to_word(&e, "save") {
            Format::SAVE
        } else if lowers_to_word(&e, "pipe") {
            Format::PIPE
        } else {
            Format::Unknown
        }
    }

    /// The format that a little-endian magic number names.
    pub fn from_magic(magic: u32) -> (r: Format)
        ensures
            r == format_for_magic(magic),
    {
        if magic == 0x000011B1 {
            Format::XMLB
        } else if magic == 0x0000414E {
            Format::ANIM
        } else if magic == 0x00005048 {
            Format::PHYS
        } else if magic == 0x00004155 {
            Format::AUD
        } else if magic == 0x0000434D {
            Format::COMP
        } else if magic == 0x00005042 {
            Format::PBR
        } else if magic == 0x00004C47 {
            Format::PLGN
        } else if magic == 0x00005347 {
            Format::SAVE
        } else if magic == 0x00005049 {
            Format::PIPE
        } else {
            Format::Unknown
        }
    }

    /// The file extensions registered for this format.
    pub fn extensions(&self) -> (r: &'static [&'static str])
        ensures
            r@.map_values(|s: &str| s@) == extension_list(*self),
    {
        let r: &'static [&'static str] = match self {
            Format::XMLB => &["xmlb", "pkgb", "engb", "chrb", "navb", "boyb"],
            Format::PKGB => &["pkgb"],
            Format::ENGB => &["engb"],
            Format::CHRB => &["chrb"],
            Format::NAVB => &["navb"],
            Format::BOYB => &["boyb"],
            Format::BNX => &["bnx"],
            Format::IGB => &["igb"],
            Format::ZSM => &["zsm"],
            Format::ZSS => &["zss"],
            Format::ZAM => &["zam"],
            Format::ANIM => &["anim", "anm"],
            Format::PHYS => &["phys"],
            Format::AUD => &["bus", "aud"],
            Format::COMP => &["comp"],
            Format::PBR => &["pbr"],
            Format::PLGN => &["plgn"],
            Format::SAVE => &["save"],
            Format::PIPE => &["pipe"],
            Format::Unknown => &[],
        };
        assert(r@.map_values(|s: &str| s@) =~= extension_list(*self));
        r
    }

    /// The display name of this format.
    pub fn name(&self) -> (r: &'static str)
        ensures
            r@ == format_name(*self),
    {
        match self {
            Format::XMLB => "XMLB",
            Format::PKGB => "PKGB",
            Format::ENGB => "ENGB",
            Format::CHRB => "CHRB",
            Format::NAVB => "NAVB",
            Format::BOYB => "BOYB",
            Format::BNX => "BNX",
            Format::IGB => "IGB",
            Format::ZSM => "ZSM",
            Format::ZSS => "ZSS",
            Format::ZAM => "ZAM",
            Format::ANIM => "ANIM",
            Format::PHYS => "PHYS",
            Format::AUD => "AUD",
            Format::COMP => "COMP",
            Format::PBR => "PBR",
            Format::PLGN => "PLGN",
            Format::SAVE => "SAVE",
            Format::PIPE => "PIPE",
            Format::Unknown => "UNKNOWN",
        }
    }
}

/// The format of a file with extension `ext` and contents `d`: the extension
/// decides when it names a format; else a 4-byte little-endian magic number;
/// else (shorter files) UTF-8 text holding `=` is BNX and the bytes A4 02 are IGB.
pub open spec fn detected_format(ext: Seq<char>, d: Seq<u8>) -> Format {
    let by_ext = format_for_extension(ext);
    if by_ext != Format::Unknown {
        by_ext
    } else if d.len() >= 4 {
        format_for_magic(le32(d, 0) as u32)
    } else if valid_utf8(d) && decode_utf8(d).contains('=') {
        Format::BNX
    } else if d.len() >= 2 && d[0] == 0xa4 && d[1] == 0x02 {
        Format::IGB
    } else {
        Format::Unknown
    }
}

pub struct FormatDetector;

impl FormatDetector {
    /// The format of a file, from its extension and (when the extension names no
    /// format) its contents.
    pub fn detect_contents(ext: &str, data: &[u8]) -> (r: Format)
        ensures
            r == detected_format(ext@, data@),
    {
        let format = Format::from_extension(ext);
        if format != Format::Unknown {
            return format;
        }
        if data.len() >= 4 {
            let magic = read_u32_le(data, 0);
            return Format::from_magic(magic);
        }
        let head_len = if data.len() < 200 { data.len() } else { 200 };
        let head = &data[0..head_len];
        assert(head@ =~= data@);
        if let Some(text) = utf8_text(head) {
            let chars = chars_of(text.as_str());
            assert(chars@ == decode_utf8(data@));
            let mut i: usize = 0;
            while i < chars.len()
                invariant
                    i <= chars@.len(),
                    chars@ == decode_utf8(data@),
                    valid_utf8(data@),
                    format == Format::Unknown,
                    format_for_extension(ext@) == Format::Unknown,
                    data@.len() < 4,
                    forall|j: int| 0 <= j < i ==> chars@[j] != '=',
                decreases chars@.len() - i,
            {
                if chars[i] == '=' {
                    assert(chars@.contains('='));
                    return Format::BNX;
                }
                i += 1;
            }
        }
        if data.len() >= 2 && data[0] == 0xa4 && data[1] == 0x02 {
            return Format::IGB;
        }
        Format::Unknown
    }

    /// The metadata of a file at `path` of `size` bytes holding `data`, in `format`:
    /// its magic number is the first four bytes read little-endian, when there are four.
    pub fn metadata_for(path: String, format: Format, size: u64, data: &[u8]) -> (r: FileMetadata)
        ensures
            r.path@ == path@,
            r.format@ == format_name(format),
            r.size == size,
            r.magic == (if data@.len() >= 4 {
                Some(le32(data@, 0) as u32)
            } else {
                None
            }),
            r.version is None,
            r.node_count is None,
            r.string_count is None,
    {
        let magic = if data.len() >= 4 {
            Some(read_u32_le(data, 0))
        } else {
            None
        };
        FileMetadata {
            path,
            format: owned(format.name()),
            size,
            magic,
            version: None,
            node_count: None,
            string_count: None,
        }
    }
}

/// A word of lower-case ASCII letters lower-cases only from itself.
proof fn lemma_lower_word(e: Seq<char>)
    requires
        forall|k: int| 0 <= k < e.len() ==> 'a' <= #[trigger] e[k] <= 'z',
    ensures
        forall|w: Seq<char>|
            #[trigger] lowers_to(e, w) ==> {
                &&& e.len() == w.len()
                &&& forall|k: int| 0 <= k < e.len() ==> e[k] == w[k]
                &&& e.len() > 0 ==> e[0] == w[0]
                &&& e.len() > 1 ==> e[1] == w[1]
                &&& e.len() > 2 ==> e[2] == w[2]
                &&& e.len() > 3 ==> e[3] == w[3]
            },
{
    assert forall|w: Seq<char>| #[trigger] lowers_to(e, w) implies forall|k: int|
        0 <= k < e.len() ==> e[k] == w[k] by {
        assert forall|k: int| 0 <= k < e.len() implies e[k] == w[k] by {
            assert(lowers_char(e[k], w[k]));
        }
    }
}

/// Every extension registered for a format other than XMLB names that format
/// again. (XMLB also lists the extensions of the package kinds that share its
/// layout, and those name their own kinds.)
pub proof fn extensions_name_their_format(f: Format)
    requires
        f != Format::XMLB,
    ensures
        forall|i: int|
            0 <= i < extension_list(f).len() ==> #[trigger] format_for_extension(
                extension_list(f)[i],
            ) == f,
{
    reveal_strlit("xmlb");
    reveal_strlit("pkgb");
    reveal_strlit("engb");
    reveal_strlit("chrb");
    reveal_strlit("navb");
    reveal_strlit("boyb");
    reveal_strlit("bnx");
    reveal_strlit("igb");
    reveal_strlit("zsm");
    reveal_strlit("zss");
    reveal_strlit("zam");
    reveal_strlit("anim");
    reveal_strlit("anm");
    reveal_strlit("phys");
    reveal_strlit("bus");
    reveal_strlit("aud");
    reveal_strlit("comp");
    reveal_strlit("pbr");
    reveal_strlit("plgn");
    reveal_strlit("save");
    reveal_strlit("pipe");
    assert forall|i: int| 0 <= i < extension_list(f).len() implies #[trigger] format_for_extension(
        extension_list(f)[i],
    ) == f by {
        let e = extension_list(f)[i];
        assert forall|k: int| 0 <= k < e.len() implies 'a' <= #[trigger] e[k] <= 'z' by {}
        lemma_lower_word(e);
        assert forall|k: int| 0 <= k < e.len() implies #[trigger] lowers_char(e[k], e[k]) by {}
        assert(lowers_to(e, e));
    }
}

/// For a lower-case ASCII letter `t`, `c` lower-cases to `t` exactly when it
/// folds to `t`; and folding twice is folding once.
proof fn lemma_fold_char(c: char, t: char)
    requires
        'a' <= t <= 'z',
    ensures
        lowers_char(c, t) <==> fold_char(c) == t,
        fold_char(fold_char(c)) == fold_char(c),
{
    if 'A' <= c <= 'Z' {
        assert((((c as u32) + 32) as char) as u32 == (c as u32) + 32);
    }
    if lowers_char(c, t) && c != t && c as u32 != 0x212a {
        assert((t as u32) as char == t);
    }
}

/// An extension lower-cases to a word of lower-case letters exactly when its
/// fold does, and then its fold is that word.
proof fn lemma_fold_word(e: Seq<char>, w: Seq<char>)
    requires
        forall|k: int| 0 <= k < w.len() ==> 'a' <= #[trigger] w[k] <= 'z',
    ensures
        lowers_to(e, w) <==> lowers_to(folded(e), w),
        lowers_to(e, w) ==> folded(e) == w,
{
    let f = folded(e);
    if e.len() == w.len() {
        assert forall|i: int| 0 <= i < e.len() implies (#[trigger] lowers_char(e[i], w[i])
            <==> lowers_char(f[i], w[i])) && (lowers_char(e[i], w[i]) ==> f[i] == w[i]) by {
            lemma_fold_char(e[i], w[i]);
            lemma_fold_char(f[i], w[i]);
            lemma_fold_char(e[i], 'a');
        }
        if lowers_to(e, w) {
            assert forall|i: int| 0 <= i < e.len() implies f[i] == w[i] by {
                assert(lowers_char(e[i], w[i]));
            }
            assert(f =~= w);
        }
        if lowers_to(f, w) {
            assert forall|i: int| 0 <= i < e.len() implies #[trigger] lowers_char(e[i], w[i]) by {
                assert(lowers_char(f[i], w[i]));
            }
        }
    }
}

/// Matching an extension ignores case: an extension and its fold (ASCII
/// lowered, the Kelvin sign read as `k`) name the same format.
pub proof fn extension_matching_ignores_case(e: Seq<char>)
    ensures
        format_for_extension(e) == format_for_extension(folded(e)),
{
    reveal_strlit("xmlb");
    reveal_strlit("pkgb");
    reveal_strlit("engb");
    reveal_strlit("chrb");
    reveal_strlit("navb");
    reveal_strlit("boyb");
    reveal_strlit("bnx");
    reveal_strlit("igb");
    reveal_strlit("zsm");
    reveal_strlit("zss");
    reveal_strlit("zam");
    reveal_strlit("anim");
    reveal_strlit("anm");
    reveal_strlit("phys");
    reveal_strlit("bus");
    reveal_strlit("aud");
    reveal_strlit("comp");
    reveal_strlit("pbr");
    reveal_strlit("plgn");
    reveal_strlit("save");
    reveal_strlit("pipe");
    lemma_fold_word(e, "xmlb"@);
    lemma_fold_word(e, "pkgb"@);
    lemma_fold_word(e, "engb"@);
    lemma_fold_word(e, "chrb"@);
    lemma_fold_word(e, "navb"@);
    lemma_fold_word(e, "boyb"@);
    lemma_fold_word(e, "bnx"@);
    lemma_fold_word(e, "igb"@);
    lemma_fold_word(e, "zsm"@);
    lemma_fold_word(e, "zss"@);
    lemma_fold_word(e, "zam"@);
    lemma_fold_word(e, "anim"@);
    lemma_fold_word(e, "anm"@);
    lemma_fold_word(e, "phys"@);
    lemma_fold_word(e, "bus"@);
    lemma_fold_word(e, "aud"@);
    lemma_fold_word(e, "comp"@);
    lemma_fold_word(e, "pbr"@);
    lemma_fold_word(e, "plgn"@);
    lemma_fold_word(e, "save"@);
    lemma_fold_word(e, "pipe"@);
}

/// Every format but Unknown registers extensions, each a non-empty word of
/// lower-case ASCII letters (so without a leading dot); Unknown registers none.
pub proof fn registered_extensions_are_lowercase(f: Format)
    ensures
        extension_list(f).len() == 0 <==> f == Format::Unknown,
        forall|i: int|
            0 <= i < extension_list(f).len() ==> #[trigger] extension_list(f)[i].len() > 0,
        forall|i: int, k: int|
            0 <= i < extension_list(f).len() && 0 <= k < extension_list(f)[i].len() ==> 'a'
                <= #[trigger] extension_list(f)[i][k] <= 'z',
{
    reveal_strlit("xmlb");
    reveal_strlit("pkgb");
    reveal_strlit("engb");
    reveal_strlit("chrb");
    reveal_strlit("navb");
    reveal_strlit("boyb");
    reveal_strlit("bnx");
    reveal_strlit("igb");
    reveal_strlit("zsm");
    reveal_strlit("zss");
    reveal_strlit("zam");
    reveal_strlit("anim");
    reveal_strlit("anm");
    reveal_strlit("phys");
    reveal_strlit("bus");
    reveal_strlit("aud");
    reveal_strlit("comp");
    reveal_strlit("pbr");
    reveal_strlit("plgn");
    reveal_strlit("save");
    reveal_strlit("pipe");
}

/// An extension that names a format is, folded, one of the extensions that the
/// format registers.
pub proof fn named_extension_is_registered(e: Seq<char>)
    requires
        format_for_extension(e) != Format::Unknown,
    ensures
        extension_list(format_for_extension(e)).contains(folded(e)),
{
    let f = format_for_extension(e);
    registered_extensions_are_lowercase(f);
    let ws = extension_list(f);
    assert forall|i: int| 0 <= i < ws.len() implies (lowers_to(e, #[trigger] ws[i]) ==> folded(e)
        == ws[i]) by {
        lemma_fold_word(e, ws[i]);
    }
    reveal_strlit("xmlb");
    reveal_strlit("pkgb");
    reveal_strlit("engb");
    reveal_strlit("chrb");
    reveal_strlit("navb");
    reveal_strlit("boyb");
    reveal_strlit("bnx");
    reveal_strlit("igb");
    reveal_strlit("zsm");
    reveal_strlit("zss");
    reveal_strlit("zam");
    reveal_strlit("anim");
    reveal_strlit("anm");
    reveal_strlit("phys");
    reveal_strlit("bus");
    reveal_strlit("aud");
    reveal_strlit("comp");
    reveal_strlit("pbr");
    reveal_strlit("plgn");
    reveal_strlit("save");
    reveal_strlit("pipe");
    if f == Format::ANIM && !lowers_to(e, "anim"@) {
        assert(folded(e) == ws[1]);
    } else if f == Format::AUD && !lowers_to(e, "bus"@) {
        assert(folded(e) == ws[1]);
    } else {
        assert(folded(e) == ws[0]);
    }
}

} // verus!
