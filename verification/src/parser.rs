//! Disassembly of the data formats into nodes and string tables.
use vstd::prelude::*;
use std::collections::HashMap;
use crate::bytes::{copy_range, find_zero, first_zero, le32, lemma_first_zero_range, read_u32_le};
use crate::text::{
    first_of, index_of, lemma_first_of, lines, lines_of, lossy_string, owned, string_of, sub_chars,
    trim, trim_chars, lossy_text,
};
use vstd::std_specs::iter::IteratorSpec;
use vstd::utf8::encode_utf8;
use crate::formats::{detected_format, format_name, Format, FormatDetector};
use crate::{
    nodes_view, props_view, strings_view, AthanorError, FileMetadata, NodeModel, ParsedFile,
    ParsedNode, ParsedProperty, PropertyModel, PropertyValue, ValueModel,
};

verus! {

broadcast use vstd::std_specs::hash::group_hash_axioms;

// ------------------------------------------------------------ string tables

/// The end of the NUL-terminated string that starts at `p`: its first zero
/// byte, or the end of `d` when there is none.
pub open spec fn str_end(d: Seq<u8>, p: int) -> int {
    p + first_zero(d, p, d.len() - p, d.len() - p)
}

/// The text of the NUL-terminated string that starts at `p`.
pub open spec fn str_text(d: Seq<u8>, p: int) -> Seq<char> {
    lossy_text(d.subrange(p, str_end(d, p)))
}

/// The starts of the strings met when scanning `d` from `p`: zero bytes are
/// passed over, and each string runs up to its terminating zero byte.
pub open spec fn str_starts(d: Seq<u8>, p: int) -> Seq<int>
    decreases d.len() + 1 - p,
{
    if p < 0 || p >= d.len() {
        seq![]
    } else if d[p] == 0 {
        str_starts(d, p + 1)
    } else {
        proof {
            lemma_first_zero_range(d, p, d.len() - p, d.len() - p);
        }
        seq![p] + str_starts(d, str_end(d, p) + 1)
    }
}

/// The first `limit` string starts met when scanning from `p`.
pub open spec fn scanned(d: Seq<u8>, p: int, limit: int) -> Seq<int> {
    let ss = str_starts(d, p);
    if limit < ss.len() {
        ss.take(limit)
    } else {
        ss
    }
}

/// The string table over the strings that start at `ss`, keyed by offset.
pub open spec fn str_table(d: Seq<u8>, ss: Seq<int>) -> Map<u32, Seq<char>> {
    Map::new(|k: u32| ss.contains(k as int), |k: u32| str_text(d, k as int))
}

proof fn lemma_str_starts_bounds(d: Seq<u8>, p: int)
    requires
        p >= 0,
    ensures
        forall|i: int|
            0 <= i < str_starts(d, p).len() ==> p <= #[trigger] str_starts(d, p)[i] < d.len(),
    decreases d.len() + 1 - p,
{
    if p < d.len() {
        if d[p] == 0 {
            lemma_str_starts_bounds(d, p + 1);
            assert(str_starts(d, p) == str_starts(d, p + 1));
        } else {
            lemma_first_zero_range(d, p, d.len() - p, d.len() - p);
            let rest = str_starts(d, str_end(d, p) + 1);
            lemma_str_starts_bounds(d, str_end(d, p) + 1);
            assert(str_starts(d, p) =~= seq![p] + rest);
            assert forall|i: int|
                0 <= i < str_starts(d, p).len() implies p <= #[trigger] str_starts(d, p)[i]
                < d.len() by {
                if i > 0 {
                    assert(str_starts(d, p)[i] == rest[i - 1]);
                }
            }
        }
    }
}

/// Scans `data` for NUL-terminated strings from `from` on, stopping after
/// `limit` of them; returns their offsets and texts.
fn scan_strings(data: &[u8], from: usize, limit: usize) -> (r: (Vec<u32>, Vec<String>))
    requires
        data@.len() <= u32::MAX,
    ensures
        r.0@.len() == r.1@.len() == scanned(data@, from as int, limit as int).len(),
        forall|i: int|
            0 <= i < r.0@.len() ==> #[trigger] r.0@[i] as int == scanned(
                data@,
                from as int,
                limit as int,
            )[i],
        forall|i: int| 0 <= i < r.1@.len() ==> #[trigger] r.1@[i]@ == str_text(data@, r.0@[i] as int),
{
    let n = data.len();
    let mut offsets: Vec<u32> = Vec::new();
    let mut texts: Vec<String> = Vec::new();
    let ghost all = str_starts(data@, from as int);
    let ghost mut found: Seq<int> = seq![];
    let mut pos = from;
    proof {
        lemma_str_starts_bounds(data@, from as int);
    }
    while pos < n && offsets.len() < limit
        invariant
            n == data@.len() <= u32::MAX,
            all == str_starts(data@, from as int),
            all == found + str_starts(data@, pos as int),
            forall|i: int| 0 <= i < all.len() ==> from <= #[trigger] all[i] < n,
            offsets@.len() == texts@.len() == found.len() <= limit,
            forall|i: int|
                0 <= i < found.len() ==> offsets@[i] as int == #[trigger] found[i] && texts@[i]@
                    == str_text(data@, found[i]),
        decreases n + 1 - pos,
    {
        if data[pos] == 0 {
            pos += 1;
        } else {
            let w = n - pos;
            let rel = find_zero(data, pos, w, w);
            proof {
                lemma_first_zero_range(data@, pos as int, w as int, w as int);
            }
            let end = pos + rel;
            let ghost old_pos = pos as int;
            assert(str_end(data@, pos as int) == end);
            assert(str_starts(data@, old_pos) == seq![old_pos] + str_starts(data@, end + 1));
            let text = lossy_string(&data[pos..end]);
            assert(data@.subrange(pos as int, end as int) =~= data@.subrange(pos as int, end as int));
            proof {
                assert(found.len() < all.len());
                assert(all[found.len() as int] == pos) by {
                    assert(str_starts(data@, pos as int)[0] == pos);
                }
                found = found.push(pos as int);
            }
            offsets.push(pos as u32);
            texts.push(text);
            if end >= n {
                pos = n;
                assert(str_starts(data@, end + 1) =~= str_starts(data@, pos as int));
            } else {
                pos = end + 1;
            }
            assert(all =~= found + str_starts(data@, pos as int));
        }
    }
    proof {
        if offsets@.len() >= limit {
            assert(scanned(data@, from as int, limit as int) =~= found);
        } else {
            assert(str_starts(data@, pos as int) =~= seq![]);
            assert(scanned(data@, from as int, limit as int) =~= found);
        }
        assert(scanned(data@, from as int, limit as int) == found);
        assert forall|i: int| 0 <= i < offsets@.len() implies offsets@[i] as int == #[trigger] scanned(
            data@,
            from as int,
            limit as int,
        )[i] by {
            assert(offsets@[i] as int == found[i]);
        }
        assert forall|i: int| 0 <= i < texts@.len() implies #[trigger] texts@[i]@ == str_text(
            data@,
            offsets@[i] as int,
        ) by {
            assert(offsets@[i] as int == found[i]);
        }
    }
    (offsets, texts)
}

/// Adds the strings of `data` that start at or after `from` to `strings`,
/// keyed by offset.
fn insert_strings(data: &[u8], from: usize, strings: &mut HashMap<u32, String>)
    requires
        data@.len() <= u32::MAX,
    ensures
        strings_view(final(strings)@) == strings_view(old(strings)@).union_prefer_right(
            str_table(data@, str_starts(data@, from as int)),
        ),
{
    let (offsets, texts) = scan_strings(data, from, usize::MAX);
    let ghost ss = str_starts(data@, from as int);
    assert(scanned(data@, from as int, usize::MAX as int) == ss) by {
        lemma_str_starts_bounds(data@, from as int);
        assert(ss.len() <= data@.len() - from || ss.len() == 0) by {
            lemma_str_starts_len(data@, from as int);
        }
    }
    let mut i: usize = 0;
    while i < offsets.len()
        invariant
            offsets@.len() == texts@.len() == ss.len(),
            ss == str_starts(data@, from as int),
            data@.len() <= u32::MAX,
            forall|j: int|
                0 <= j < offsets@.len() ==> offsets@[j] as int == #[trigger] ss[j] && texts@[j]@
                    == str_text(data@, ss[j]),
            i <= offsets@.len(),
            strings_view(strings@) == strings_view(old(strings)@).union_prefer_right(
                str_table(data@, ss.take(i as int)),
            ),
        decreases offsets@.len() - i,
    {
        let k = offsets[i];
        let t = texts[i].clone();
        let ghost before = strings@;
        strings.insert(k, t);
        proof {
            let next = ss.take(i + 1);
            assert(next =~= ss.take(i as int).push(ss[i as int]));
            assert forall|x: u32| next.contains(x as int) <==> (ss.take(i as int).contains(
                x as int,
            ) || x == k) by {
                if x == k {
                    assert(next[i as int] == x as int);
                }
                if next.contains(x as int) {
                    let j = choose|j: int| 0 <= j < next.len() && next[j] == x as int;
                    if j < i {
                        assert(ss.take(i as int)[j] == x as int);
                    }
                }
            }
            assert(str_table(data@, next) =~= str_table(data@, ss.take(i as int)).insert(k, t@));
            assert(strings_view(strings@) =~= strings_view(before).insert(k, t@));
            assert(strings_view(strings@) =~= strings_view(old(strings)@).union_prefer_right(
                str_table(data@, next),
            ));
        }
        i += 1;
    }
    assert(ss.take(i as int) =~= ss);
}

proof fn lemma_str_starts_len(d: Seq<u8>, p: int)
    requires
        p >= 0,
    ensures
        str_starts(d, p).len() <= if p <= d.len() { d.len() - p } else { 0 },
    decreases d.len() + 1 - p,
{
    if p < d.len() {
        if d[p] == 0 {
            lemma_str_starts_len(d, p + 1);
        } else {
            lemma_first_zero_range(d, p, d.len() - p, d.len() - p);
            lemma_str_starts_len(d, str_end(d, p) + 1);
        }
    }
}

// ------------------------------------------------------------ XMLB

/// The `i`-th little-endian word of the record at `at`.
pub open spec fn word_at(d: Seq<u8>, at: int, i: int) -> u32 {
    le32(d, at + 4 * i) as u32
}

/// What looking `k` up in a string table gives.
pub open spec fn lookup(m: Map<u32, Seq<char>>, k: u32) -> Option<Seq<char>> {
    if m.contains_key(k) {
        Some(m[k])
    } else {
        None
    }
}

/// An upper-case hexadecimal digit.
pub open spec fn hex_digit(n: int) -> char {
    if n < 10 {
        ('0' as int + n) as char
    } else {
        ('A' as int + n - 10) as char
    }
}

/// `<0x`, the eight upper-case hexadecimal digits of `v`, and `>`.
pub open spec fn hex_label(v: u32) -> Seq<char> {
    seq![
        '<',
        '0',
        'x',
        hex_digit((v / 0x1000_0000 % 16) as int),
        hex_digit((v / 0x100_0000 % 16) as int),
        hex_digit((v / 0x10_0000 % 16) as int),
        hex_digit((v / 0x1_0000 % 16) as int),
        hex_digit((v / 0x1000 % 16) as int),
        hex_digit((v / 0x100 % 16) as int),
        hex_digit((v / 0x10 % 16) as int),
        hex_digit((v % 16) as int),
        '>',
    ]
}

/// The value of an upper-case hexadecimal digit, or -1 for any other character.
pub open spec fn hex_value(c: char) -> int {
    if '0' <= c <= '9' {
        c as int - '0' as int
    } else if 'A' <= c <= 'F' {
        c as int - 'A' as int + 10
    } else {
        -1
    }
}

proof fn lemma_hex_digit(n: int)
    requires
        0 <= n < 16,
    ensures
        ('0' <= hex_digit(n) <= '9') || ('A' <= hex_digit(n) <= 'F'),
        hex_value(hex_digit(n)) == n,
{
    if n < 10 {
        assert((('0' as int + n) as char) as int == '0' as int + n);
    } else {
        assert((('A' as int + n - 10) as char) as int == 'A' as int + n - 10);
    }
}

/// A key label is `<0x`, eight upper-case hexadecimal digits and `>`, and its
/// digits read back, most significant first, as the offset it labels.
pub proof fn hex_label_reads_back(v: u32)
    ensures
        hex_label(v).len() == 12,
        hex_label(v).take(3) == seq!['<', '0', 'x'],
        hex_label(v)[11] == '>',
        forall|i: int|
            3 <= i < 11 ==> ('0' <= #[trigger] hex_label(v)[i] <= '9') || ('A' <= hex_label(v)[i]
                <= 'F'),
        hex_value(hex_label(v)[3]) * 0x1000_0000 + hex_value(hex_label(v)[4]) * 0x100_0000
            + hex_value(hex_label(v)[5]) * 0x10_0000 + hex_value(hex_label(v)[6]) * 0x1_0000
            + hex_value(hex_label(v)[7]) * 0x1000 + hex_value(hex_label(v)[8]) * 0x100
            + hex_value(hex_label(v)[9]) * 0x10 + hex_value(hex_label(v)[10]) == v,
{
    let l = hex_label(v);
    lemma_hex_digit((v / 0x1000_0000 % 16) as int);
    lemma_hex_digit((v / 0x100_0000 % 16) as int);
    lemma_hex_digit((v / 0x10_0000 % 16) as int);
    lemma_hex_digit((v / 0x1_0000 % 16) as int);
    lemma_hex_digit((v / 0x1000 % 16) as int);
    lemma_hex_digit((v / 0x100 % 16) as int);
    lemma_hex_digit((v / 0x10 % 16) as int);
    lemma_hex_digit((v % 16) as int);
    assert(l.take(3) =~= seq!['<', '0', 'x']);
    assert((v / 0x1000_0000 % 16) * 0x1000_0000 + (v / 0x100_0000 % 16) * 0x100_0000 + (v / 0x10_0000
        % 16) * 0x10_0000 + (v / 0x1_0000 % 16) * 0x1_0000 + (v / 0x1000 % 16) * 0x1000 + (v / 0x100
        % 16) * 0x100 + (v / 0x10 % 16) * 0x10 + v % 16 == v) by (bit_vector);
}

/// The value that the word `v` of a record stands for.
pub open spec fn xmlb_value(m: Map<u32, Seq<char>>, v: u32) -> ValueModel {
    if v == 0xFFFF_FFFF {
        ValueModel::Null
    } else if m.contains_key(v) {
        ValueModel::String(m[v])
    } else {
        ValueModel::Integer(v as i64)
    }
}

/// The property that the key word `k` and value word `v` of a record give:
/// none when `k` is `0xFFFFFFFF`.
pub open spec fn xmlb_property(m: Map<u32, Seq<char>>, k: u32, v: u32) -> Seq<PropertyModel> {
    if k == 0xFFFF_FFFF {
        seq![]
    } else {
        seq![
            PropertyModel {
                key: Some(
                    if m.contains_key(k) {
                        m[k]
                    } else {
                        hex_label(k)
                    },
                ),
                value: xmlb_value(m, v),
                is_raw: v != 0xFFFF_FFFF && !m.contains_key(v),
            },
        ]
    }
}

/// The node of the `n`-th 32-byte record, which starts at byte `24 + 32 n`.
pub open spec fn xmlb_node(d: Seq<u8>, m: Map<u32, Seq<char>>, n: int) -> NodeModel {
    let at = 24 + 32 * n;
    NodeModel {
        index: n as usize,
        file_offset: at as u32,
        node_type: lookup(m, word_at(d, at, 0)),
        name: lookup(m, word_at(d, at, 1)),
        properties: xmlb_property(m, word_at(d, at, 2), word_at(d, at, 3)) + xmlb_property(
            m,
            word_at(d, at, 4),
            word_at(d, at, 5),
        ) + xmlb_property(m, word_at(d, at, 6), word_at(d, at, 7)),
        raw_bytes: d.subrange(at, at + 32),
    }
}

/// A record whose eight words are all `0xFFFFFFFF` is empty.
pub open spec fn blank_record(d: Seq<u8>, at: int) -> bool {
    forall|i: int| 0 <= i < 8 ==> word_at(d, at, i) == 0xFFFF_FFFF
}

/// The nodes of the first `n` records, leaving out the empty ones.
pub open spec fn xmlb_records(d: Seq<u8>, m: Map<u32, Seq<char>>, n: int) -> Seq<NodeModel>
    decreases n,
{
    if n <= 0 {
        seq![]
    } else {
        let prev = xmlb_records(d, m, n - 1);
        if blank_record(d, 24 + 32 * (n - 1)) {
            prev
        } else {
            prev.push(xmlb_node(d, m, n - 1))
        }
    }
}

/// The XMLB nodes are the non-empty 32-byte records from byte 24 on, in file
/// order: each node's index is its record number, its offset is where that
/// record starts, its raw bytes are the record, and its type and name are the
/// strings that the record's first two words look up.
pub proof fn xmlb_nodes_are_the_nonblank_records(d: Seq<u8>, m: Map<u32, Seq<char>>, n: int)
    requires
        0 <= n,
        24 + 32 * n <= u32::MAX,
    ensures
        forall|j: int|
            #![trigger xmlb_records(d, m, n)[j]]
            0 <= j < xmlb_records(d, m, n).len() ==> {
                let r = xmlb_records(d, m, n)[j];
                let at = 24 + 32 * r.index;
                &&& r.index < n
                &&& r.file_offset == at
                &&& !blank_record(d, at)
                &&& r.raw_bytes == d.subrange(at, at + 32)
                &&& r.node_type == lookup(m, le32(d, at) as u32)
                &&& r.name == lookup(m, le32(d, at + 4) as u32)
            },
        forall|j1: int, j2: int|
            0 <= j1 < j2 < xmlb_records(d, m, n).len() ==> (#[trigger] xmlb_records(d, m, n)[j1]).index
                < (#[trigger] xmlb_records(d, m, n)[j2]).index,
        forall|i: int|
            0 <= i < n && !#[trigger] blank_record(d, 24 + 32 * i) ==> exists|j: int|
                0 <= j < xmlb_records(d, m, n).len() && (#[trigger] xmlb_records(d, m, n)[j]).index
                    == i,
    decreases n,
{
    if n > 0 {
        xmlb_nodes_are_the_nonblank_records(d, m, n - 1);
        let prev = xmlb_records(d, m, n - 1);
        let r = xmlb_records(d, m, n);
        if !blank_record(d, 24 + 32 * (n - 1)) {
            let node = xmlb_node(d, m, n - 1);
            assert(r == prev.push(node));
            assert(node.index == n - 1);
            assert(r[prev.len() as int] == node);
            assert forall|j: int| 0 <= j < prev.len() implies #[trigger] r[j] == prev[j] by {}
            assert forall|i: int| 0 <= i < n && !#[trigger] blank_record(d, 24 + 32 * i) implies exists|
                j: int,
            | 0 <= j < r.len() && (#[trigger] r[j]).index == i by {
                if i < n - 1 {
                    let j = choose|j: int| 0 <= j < prev.len() && (#[trigger] prev[j]).index == i;
                    assert(r[j] == prev[j]);
                } else {
                    assert(r[prev.len() as int].index == i);
                }
            }
            assert forall|j1: int, j2: int| 0 <= j1 < j2 < r.len() implies (#[trigger] r[j1]).index
                < (#[trigger] r[j2]).index by {
                assert(r[j1] == prev[j1]);
                if j2 < prev.len() {
                    assert(r[j2] == prev[j2]);
                }
            }
        }
    }
}

/// The number of records read: those that lie before the string table (whose
/// offset is the word at byte 8) and inside the file.
pub open spec fn xmlb_count(d: Seq<u8>) -> int {
    let t = le32(d, 8);
    let by_table = if t >= 24 {
        (t - 24) / 32
    } else {
        0
    };
    let by_len = (d.len() - 24) / 32;
    if by_table < by_len {
        by_table
    } else {
        by_len
    }
}

/// The string table of an XMLB file: the strings from the table offset on.
pub open spec fn xmlb_strings(d: Seq<u8>) -> Map<u32, Seq<char>> {
    str_table(d, str_starts(d, le32(d, 8)))
}

/// The string that `strings` holds under `k`, if any.
fn lookup_text(strings: &HashMap<u32, String>, k: u32) -> (r: Option<String>)
    ensures
        crate::opt_text(r) == lookup(strings_view(strings@), k),
{
    match strings.get(&k) {
        Some(s) => Some(s.clone()),
        None => None,
    }
}

/// The upper-case hexadecimal digit for `n`.
fn hex_char(n: u32) -> (c: char)
    requires
        n < 16,
    ensures
        c == hex_digit(n as int),
{
    if n < 10 {
        (48u8 + n as u8) as char
    } else {
        (55u8 + n as u8) as char
    }
}

/// The label `<0xXXXXXXXX>` of a key that names no string.
fn hex_label_text(v: u32) -> (s: String)
    ensures
        s@ == hex_label(v),
{
    let mut cs: Vec<char> = Vec::new();
    cs.push('<');
    cs.push('0');
    cs.push('x');
    cs.push(hex_char(v / 0x1000_0000 % 16));
    cs.push(hex_char(v / 0x100_0000 % 16));
    cs.push(hex_char(v / 0x10_0000 % 16));
    cs.push(hex_char(v / 0x1_0000 % 16));
    cs.push(hex_char(v / 0x1000 % 16));
    cs.push(hex_char(v / 0x100 % 16));
    cs.push(hex_char(v / 0x10 % 16));
    cs.push(hex_char(v % 16));
    cs.push('>');
    assert(cs@ =~= hex_label(v));
    string_of(&cs)
}

/// The eight words of the record at `at`.
fn record_words(data: &[u8], at: usize) -> (w: Vec<u32>)
    requires
        at + 32 <= data@.len(),
    ensures
        w@.len() == 8,
        forall|i: int| 0 <= i < 8 ==> #[trigger] w@[i] == word_at(data@, at as int, i),
{
    let n = data.len();
    let mut w: Vec<u32> = Vec::new();
    let mut i: usize = 0;
    while i < 8
        invariant
            n == data@.len(),
            at + 32 <= data@.len(),
            i <= 8,
            w@.len() == i,
            forall|j: int| 0 <= j < i ==> #[trigger] w@[j] == word_at(data@, at as int, j),
        decreases 8 - i,
    {
        w.push(read_u32_le(data, at + 4 * i));
        i += 1;
    }
    w
}

/// The property of the key word `k` and value word `v` of a record.
fn xmlb_property_of(strings: &HashMap<u32, String>, k: u32, v: u32) -> (r: ParsedProperty)
    requires
        k != 0xFFFF_FFFF,
    ensures
        seq![r@] == xmlb_property(strings_view(strings@), k, v),
{
    let key = match strings.get(&k) {
        Some(s) => s.clone(),
        None => hex_label_text(k),
    };
    let (value, is_raw) = if v == 0xFFFF_FFFF {
        (PropertyValue::Null, false)
    } else {
        match strings.get(&v) {
            Some(s) => (PropertyValue::String(s.clone()), false),
            None => (PropertyValue::Integer(v as i64), true),
        }
    };
    let r = ParsedProperty { key: Some(key), value, is_raw };
    assert(seq![r@] =~= xmlb_property(strings_view(strings@), k, v));
    r
}

/// Disassembles an XMLB file: adds its string table to `strings` (keyed by
/// offset) and returns the nodes of its non-empty 32-byte records, whose
/// words name strings of the table.
pub fn parse_xmlb(data: &[u8], strings: &mut HashMap<u32, String>) -> (r: Vec<ParsedNode>)
    requires
        data@.len() <= u32::MAX,
    ensures
        data@.len() < 24 ==> r@.len() == 0 && final(strings)@ == old(strings)@,
        data@.len() >= 24 ==> {
            &&& strings_view(final(strings)@) == strings_view(old(strings)@).union_prefer_right(
                xmlb_strings(data@),
            )
            &&& nodes_view(r@) == xmlb_records(
                data@,
                strings_view(final(strings)@),
                xmlb_count(data@),
            )
        },
{
    if data.len() < 24 {
        return Vec::new();
    }
    let strtab_off = read_u32_le(data, 8) as usize;
    insert_strings(data, strtab_off, strings);
    let by_table = if strtab_off >= 24 {
        (strtab_off - 24) / 32
    } else {
        0
    };
    let by_len = (data.len() - 24) / 32;
    let count = if by_table < by_len {
        by_table
    } else {
        by_len
    };
    let ghost m = strings_view(strings@);
    let mut nodes: Vec<ParsedNode> = Vec::new();
    let mut n: usize = 0;
    while n < count
        invariant
            data@.len() >= 24,
            count == xmlb_count(data@),
            count <= (data@.len() - 24) / 32,
            n <= count,
            m == strings_view(strings@),
            nodes_view(nodes@) == xmlb_records(data@, m, n as int),
        decreases count - n,
    {
        let at = 24 + n * 32;
        let w = record_words(data, at);
        let blank = w[0] == 0xFFFF_FFFF && w[1] == 0xFFFF_FFFF && w[2] == 0xFFFF_FFFF && w[3]
            == 0xFFFF_FFFF && w[4] == 0xFFFF_FFFF && w[5] == 0xFFFF_FFFF && w[6] == 0xFFFF_FFFF
            && w[7] == 0xFFFF_FFFF;
        let ghost prev = nodes@;
        if blank {
            assert(blank_record(data@, at as int)) by {
                assert forall|i: int| 0 <= i < 8 implies word_at(data@, at as int, i)
                    == 0xFFFF_FFFF by {
                    assert(w@[i] == word_at(data@, at as int, i));
                }
            }
        } else {
            assert(!blank_record(data@, at as int)) by {
                assert(w@[0] == word_at(data@, at as int, 0));
                assert(w@[1] == word_at(data@, at as int, 1));
                assert(w@[2] == word_at(data@, at as int, 2));
                assert(w@[3] == word_at(data@, at as int, 3));
                assert(w@[4] == word_at(data@, at as int, 4));
                assert(w@[5] == word_at(data@, at as int, 5));
                assert(w@[6] == word_at(data@, at as int, 6));
                assert(w@[7] == word_at(data@, at as int, 7));
            }
            let node_type = lookup_text(strings, w[0]);
            let name = lookup_text(strings, w[1]);
            let mut properties: Vec<ParsedProperty> = Vec::new();
            let ghost mut props: Seq<PropertyModel> = seq![];
            let mut i: usize = 0;
            while i < 3
                invariant
                    i <= 3,
                    w@.len() == 8,
                    props_view(properties@) == props,
                    props == (if i >= 1 {
                        xmlb_property(m, w@[2], w@[3])
                    } else {
                        seq![]
                    }) + (if i >= 2 {
                        xmlb_property(m, w@[4], w@[5])
                    } else {
                        seq![]
                    }) + (if i >= 3 {
                        xmlb_property(m, w@[6], w@[7])
                    } else {
                        seq![]
                    }),
                    m == strings_view(strings@),
                decreases 3 - i,
            {
                let k = w[2 + 2 * i];
                let v = w[3 + 2 * i];
                let ghost before = properties@;
                if k != 0xFFFF_FFFF {
                    let p = xmlb_property_of(strings, k, v);
                    properties.push(p);
                    assert(props_view(properties@) =~= props_view(before) + seq![p@]);
                } else {
                    assert(xmlb_property(m, k, v) =~= seq![]);
                }
                proof {
                    props = props + xmlb_property(m, k, v);
                }
                i += 1;
                assert(props =~= (if i >= 1 {
                    xmlb_property(m, w@[2], w@[3])
                } else {
                    seq![]
                }) + (if i >= 2 {
                    xmlb_property(m, w@[4], w@[5])
                } else {
                    seq![]
                }) + (if i >= 3 {
                    xmlb_property(m, w@[6], w@[7])
                } else {
                    seq![]
                }));
            }
            let raw_bytes = copy_range(data, at, at + 32);
            let node = ParsedNode {
                index: n,
                file_offset: at as u32,
                node_type,
                name,
                properties,
                raw_bytes,
            };
            assert(w@[0] == word_at(data@, at as int, 0));
            assert(w@[1] == word_at(data@, at as int, 1));
            assert(w@[2] == word_at(data@, at as int, 2));
            assert(w@[3] == word_at(data@, at as int, 3));
            assert(w@[4] == word_at(data@, at as int, 4));
            assert(w@[5] == word_at(data@, at as int, 5));
            assert(w@[6] == word_at(data@, at as int, 6));
            assert(w@[7] == word_at(data@, at as int, 7));
            assert(node@ =~= xmlb_node(data@, m, n as int));
            nodes.push(node);
            assert(nodes_view(nodes@) =~= nodes_view(prev).push(node@));
        }
        n += 1;
    }
    nodes
}

// ------------------------------------------------------------ printable runs

/// A byte of printable ASCII (space to tilde).
pub open spec fn printable(b: u8) -> bool {
    0x20 <= b < 0x7f
}

/// The length of the run of printable bytes that starts at `p`.
pub open spec fn run_len(d: Seq<u8>, p: int) -> nat
    decreases d.len() - p,
{
    if p < 0 || p >= d.len() || !printable(d[p]) {
        0
    } else {
        1 + run_len(d, p + 1)
    }
}

pub proof fn lemma_run_len_bound(d: Seq<u8>, p: int)
    requires
        0 <= p <= d.len(),
    ensures
        run_len(d, p) <= d.len() - p,
    decreases d.len() - p,
{
    if p < d.len() {
        lemma_run_len_bound(d, p + 1);
    }
}

/// The text of the printable run that starts at `p`.
pub open spec fn run_text(d: Seq<u8>, p: int) -> Seq<char> {
    crate::text::ascii_chars(d.subrange(p, p + run_len(d, p)))
}

/// The maximal runs of printable bytes from `p` on, as (start, end) pairs,
/// keeping those at least `min` bytes long.
pub open spec fn runs(d: Seq<u8>, p: int, min: int) -> Seq<(int, int)>
    decreases d.len() - p,
{
    if p < 0 || p >= d.len() {
        seq![]
    } else if printable(d[p]) {
        proof {
            lemma_run_len_bound(d, p);
        }
        let e = p + run_len(d, p);
        let rest = runs(d, e, min);
        if e - p >= min {
            seq![(p, e)] + rest
        } else {
            rest
        }
    } else {
        runs(d, p + 1, min)
    }
}

proof fn lemma_run_printable(d: Seq<u8>, p: int, j: int)
    requires
        0 <= p <= j < p + run_len(d, p),
    ensures
        j < d.len(),
        printable(d[j]),
    decreases j - p,
{
    if j > p {
        lemma_run_printable(d, p + 1, j);
    }
}

proof fn lemma_runs_shape(d: Seq<u8>, p: int, min: int)
    requires
        p >= 0,
    ensures
        forall|k: int|
            #![trigger runs(d, p, min)[k]]
            0 <= k < runs(d, p, min).len() ==> {
                let r = runs(d, p, min)[k];
                &&& p <= r.0 < r.1 <= d.len()
                &&& r.1 == r.0 + run_len(d, r.0)
                &&& r.1 - r.0 >= min
            },
    decreases d.len() - p,
{
    if p < d.len() {
        if printable(d[p]) {
            lemma_run_len_bound(d, p);
            let e = p + run_len(d, p);
            lemma_runs_shape(d, e, min);
            if e > d.len() {
                lemma_run_printable(d, p, d.len() as int);
            }
            let rest = runs(d, e, min);
            if e - p >= min {
                assert(runs(d, p, min) =~= seq![(p, e)] + rest);
                assert forall|k: int| #![trigger runs(d, p, min)[k]] 0 <= k < runs(d, p, min).len()
                    implies {
                    let r = runs(d, p, min)[k];
                    &&& p <= r.0 < r.1 <= d.len()
                    &&& r.1 == r.0 + run_len(d, r.0)
                    &&& r.1 - r.0 >= min
                } by {
                    if k > 0 {
                        assert(runs(d, p, min)[k] == rest[k - 1]);
                    }
                }
            } else {
                assert(runs(d, p, min) == rest);
            }
        } else {
            lemma_runs_shape(d, p + 1, min);
            assert(runs(d, p, min) == runs(d, p + 1, min));
        }
    }
}

/// The printable runs of `data` at least `min` bytes long, in order.
fn printable_runs(data: &[u8], min: usize) -> (r: Vec<(usize, usize)>)
    ensures
        r@.len() == runs(data@, 0, min as int).len(),
        forall|k: int|
            0 <= k < r@.len() ==> r@[k].0 as int == (#[trigger] runs(data@, 0, min as int)[k]).0
                && r@[k].1 as int == runs(data@, 0, min as int)[k].1,
{
    let n = data.len();
    let ghost all = runs(data@, 0, min as int);
    let ghost mut found: Seq<(int, int)> = seq![];
    let mut out: Vec<(usize, usize)> = Vec::new();
    let mut i: usize = 0;
    while i < n
        invariant
            n == data@.len(),
            i <= n,
            all == runs(data@, 0, min as int),
            all == found + runs(data@, i as int, min as int),
            out@.len() == found.len(),
            forall|k: int|
                0 <= k < found.len() ==> out@[k].0 as int == (#[trigger] found[k]).0 && out@[k].1
                    as int == found[k].1,
        decreases n - i,
    {
        if 0x20 <= data[i] && data[i] < 0x7f {
            let start = i;
            while i < n && 0x20 <= data[i] && data[i] < 0x7f
                invariant
                    n == data@.len(),
                    start <= i <= n,
                    printable(data@[start as int]),
                    start < n,
                    run_len(data@, start as int) == (i - start) + run_len(data@, i as int),
                decreases n - i,
            {
                i += 1;
            }
            assert(run_len(data@, i as int) == 0);
            assert(runs(data@, start as int, min as int) == (if i - start >= min {
                seq![(start as int, i as int)] + runs(data@, i as int, min as int)
            } else {
                runs(data@, i as int, min as int)
            }));
            if i - start >= min {
                out.push((start, i));
                proof {
                    found = found.push((start as int, i as int));
                }
            }
            assert(all =~= found + runs(data@, i as int, min as int));
        } else {
            assert(runs(data@, i as int, min as int) == runs(data@, i + 1, min as int));
            i += 1;
        }
    }
    assert(all =~= found);
    out
}

/// The starts of a list of runs.
pub open spec fn run_starts(rs: Seq<(int, int)>) -> Seq<int> {
    rs.map_values(|r: (int, int)| r.0)
}

/// The table of the texts of the runs `rs`, keyed by start.
pub open spec fn run_table(d: Seq<u8>, rs: Seq<(int, int)>) -> Map<u32, Seq<char>> {
    Map::new(|k: u32| run_starts(rs).contains(k as int), |k: u32| run_text(d, k as int))
}

/// The node that the `k`-th kept run `r` gives.
pub open spec fn run_node(d: Seq<u8>, r: (int, int), k: int, kind: Seq<char>) -> NodeModel {
    NodeModel {
        index: k as usize,
        file_offset: r.0 as u32,
        node_type: Some(kind),
        name: Some(run_text(d, r.0)),
        properties: seq![],
        raw_bytes: d.subrange(r.0, r.1),
    }
}

/// The nodes of the printable runs at least `min` bytes long.
pub open spec fn run_nodes(d: Seq<u8>, min: int, kind: Seq<char>) -> Seq<NodeModel> {
    let rs = runs(d, 0, min);
    Seq::new(rs.len(), |k: int| run_node(d, rs[k], k, kind))
}

/// The nodes of the printable runs at least `min` bytes long, of type `kind`;
/// with `table`, their texts are also added to `strings` under their offsets.
fn run_nodes_into(
    data: &[u8],
    min: usize,
    kind: &str,
    strings: &mut HashMap<u32, String>,
    table: bool,
) -> (r: Vec<ParsedNode>)
    requires
        table ==> data@.len() <= u32::MAX,
        min >= 1,
    ensures
        nodes_view(r@) == run_nodes(data@, min as int, kind@),
        table ==> strings_view(final(strings)@) == strings_view(old(strings)@).union_prefer_right(
            run_table(data@, runs(data@, 0, min as int)),
        ),
        !table ==> final(strings)@ == old(strings)@,
{
    let rs = printable_runs(data, min);
    let ghost all = runs(data@, 0, min as int);
    proof {
        lemma_runs_shape(data@, 0, min as int);
    }
    let mut nodes: Vec<ParsedNode> = Vec::new();
    let mut k: usize = 0;
    while k < rs.len()
        invariant
            table ==> data@.len() <= u32::MAX,
            all == runs(data@, 0, min as int),
            rs@.len() == all.len(),
            forall|j: int|
                0 <= j < rs@.len() ==> rs@[j].0 as int == (#[trigger] all[j]).0 && rs@[j].1 as int
                    == all[j].1,
            forall|j: int|
                #![trigger all[j]]
                0 <= j < all.len() ==> {
                    let r = all[j];
                    &&& 0 <= r.0 < r.1 <= data@.len()
                    &&& r.1 == r.0 + run_len(data@, r.0)
                },
            k <= rs@.len(),
            nodes_view(nodes@) =~= Seq::new(
                k as nat,
                |j: int| run_node(data@, all[j], j, kind@),
            ),
            table ==> strings_view(strings@) == strings_view(old(strings)@).union_prefer_right(
                run_table(data@, all.take(k as int)),
            ),
            !table ==> strings@ == old(strings)@,
        decreases rs@.len() - k,
    {
        let (start, end) = rs[k];
        assert(all[k as int].0 == start && all[k as int].1 == end);
        let ghost seg = data@.subrange(start as int, end as int);
        assert forall|i: int| 0 <= i < seg.len() implies seg[i] < 0x80 by {
            lemma_run_printable(data@, start as int, start + i);
        }
        proof {
            crate::text::lemma_ascii_decode(seg);
        }
        let text = lossy_string(&data[start..end]);
        assert(data@.subrange(start as int, end as int) =~= seg);
        assert(text@ == run_text(data@, start as int));
        if table {
            let ghost before = strings@;
            strings.insert(start as u32, text.clone());
            proof {
                let prev = all.take(k as int);
                let next = all.take(k + 1);
                assert(next =~= prev.push(all[k as int]));
                assert(run_starts(next) =~= run_starts(prev).push(start as int));
                assert(start < data@.len());
                assert((start as u32) as int == start as int);
                assert forall|x: u32| run_starts(next).contains(x as int) <==> (run_starts(
                    prev,
                ).contains(x as int) || x == start as u32) by {
                    if x == start as u32 {
                        assert(run_starts(next)[k as int] == x as int);
                    }
                    if run_starts(prev).contains(x as int) {
                        let j = choose|j: int|
                            0 <= j < run_starts(prev).len() && run_starts(prev)[j] == x as int;
                        assert(run_starts(next)[j] == x as int);
                    }
                    if run_starts(next).contains(x as int) {
                        let j = choose|j: int|
                            0 <= j < run_starts(next).len() && run_starts(next)[j] == x as int;
                        if j < k {
                            assert(run_starts(prev)[j] == x as int);
                        }
                    }
                }
                assert(run_table(data@, next) =~= run_table(data@, prev).insert(
                    start as u32,
                    text@,
                ));
                assert(strings_view(strings@) =~= strings_view(before).insert(start as u32, text@));
                assert(strings_view(strings@) =~= strings_view(old(strings)@).union_prefer_right(
                    run_table(data@, next),
                ));
            }
        }
        let node = ParsedNode {
            index: k,
            file_offset: #[verifier::truncate] (start as u32),
            node_type: Some(owned(kind)),
            name: Some(text),
            properties: Vec::new(),
            raw_bytes: copy_range(data, start, end),
        };
        let ghost prev_nodes = nodes@;
        assert(node@ =~= run_node(data@, all[k as int], k as int, kind@));
        nodes.push(node);
        assert(nodes_view(nodes@) =~= nodes_view(prev_nodes).push(node@));
        k += 1;
    }
    assert(all.take(k as int) =~= all);
    nodes
}

/// Disassembles an IGB file: every run of at least three printable bytes is a
/// node of type `IGB_STRING` and enters `strings` under its offset.
pub fn parse_igb(data: &[u8], strings: &mut HashMap<u32, String>) -> (r: Vec<ParsedNode>)
    requires
        data@.len() <= u32::MAX,
    ensures
        nodes_view(r@) == run_nodes(data@, 3, "IGB_STRING"@),
        strings_view(final(strings)@) == strings_view(old(strings)@).union_prefer_right(
            run_table(data@, runs(data@, 0, 3)),
        ),
{
    run_nodes_into(data, 3, "IGB_STRING", strings, true)
}

/// Disassembles a ZAM file: every run of printable bytes is a node of type `ZAM_DATA`.
pub fn parse_zam(data: &[u8]) -> (r: Vec<ParsedNode>)
    ensures
        nodes_view(r@) == run_nodes(data@, 1, "ZAM_DATA"@),
{
    let mut unused: HashMap<u32, String> = HashMap::new();
    run_nodes_into(data, 1, "ZAM_DATA", &mut unused, false)
}

// ------------------------------------------------------------ ZSM

/// The node of the ZSM string that starts at `p`.
pub open spec fn zsm_node(d: Seq<u8>, p: int) -> NodeModel {
    NodeModel {
        index: p as usize,
        file_offset: p as u32,
        node_type: Some("ZSM_STRING"@),
        name: Some(str_text(d, p)),
        properties: seq![],
        raw_bytes: seq![],
    }
}

/// The nodes of a ZSM file: one for each of the first `count` strings (the
/// word at byte 12) found from the string offset (the word at byte 8) on.
pub open spec fn zsm_nodes(d: Seq<u8>) -> Seq<NodeModel> {
    if d.len() < 16 {
        seq![]
    } else {
        let ss = scanned(d, le32(d, 8), le32(d, 12));
        Seq::new(ss.len(), |k: int| zsm_node(d, ss[k]))
    }
}

/// Disassembles a ZSM file into one node per string of its table, ordered by offset.
pub fn parse_zsm(data: &[u8]) -> (r: Vec<ParsedNode>)
    requires
        data@.len() <= u32::MAX,
    ensures
        nodes_view(r@) == zsm_nodes(data@),
{
    let mut nodes: Vec<ParsedNode> = Vec::new();
    if data.len() < 16 {
        assert(nodes_view(nodes@) =~= zsm_nodes(data@));
        return nodes;
    }
    let str_count = read_u32_le(data, 12) as usize;
    let str_off = read_u32_le(data, 8) as usize;
    let (offsets, texts) = scan_strings(data, str_off, str_count);
    let ghost ss = scanned(data@, str_off as int, str_count as int);
    let mut k: usize = 0;
    while k < offsets.len()
        invariant
            data@.len() >= 16,
            ss == scanned(data@, le32(data@, 8), le32(data@, 12)),
            offsets@.len() == texts@.len() == ss.len(),
            forall|j: int| 0 <= j < offsets@.len() ==> #[trigger] offsets@[j] as int == ss[j],
            forall|j: int|
                0 <= j < texts@.len() ==> #[trigger] texts@[j]@ == str_text(
                    data@,
                    offsets@[j] as int,
                ),
            k <= offsets@.len(),
            nodes_view(nodes@) =~= Seq::new(k as nat, |j: int| zsm_node(data@, ss[j])),
        decreases offsets@.len() - k,
    {
        let off = offsets[k];
        let node = ParsedNode {
            index: off as usize,
            file_offset: off,
            node_type: Some(owned("ZSM_STRING")),
            name: Some(texts[k].clone()),
            properties: Vec::new(),
            raw_bytes: Vec::new(),
        };
        let ghost prev = nodes@;
        assert(offsets@[k as int] as int == ss[k as int]);
        assert(texts@[k as int]@ == str_text(data@, offsets@[k as int] as int));
        assert(node@ =~= zsm_node(data@, ss[k as int]));
        nodes.push(node);
        assert(nodes_view(nodes@) =~= nodes_view(prev).push(node@));
        k += 1;
    }
    nodes
}

// ------------------------------------------------------------ fixed records

/// The number of 32-byte records after the 32-byte header: the count word at
/// byte 24, cut to the records that fit in the file.
pub open spec fn record_count(d: Seq<u8>) -> int {
    let c = le32(d, 24);
    let by_len = (d.len() - 32) / 32;
    if c < by_len {
        c
    } else {
        by_len
    }
}

/// The node of the `i`-th record, of type `kind`.
pub open spec fn record_node(d: Seq<u8>, i: int, kind: Seq<char>) -> NodeModel {
    let at = 32 + 32 * i;
    NodeModel {
        index: i as usize,
        file_offset: at as u32,
        node_type: Some(kind),
        name: None,
        properties: seq![],
        raw_bytes: d.subrange(at, at + 32),
    }
}

/// The nodes of a file of fixed 32-byte records, of type `kind`.
pub open spec fn record_nodes(d: Seq<u8>, kind: Seq<char>) -> Seq<NodeModel> {
    if d.len() < 32 {
        seq![]
    } else {
        Seq::new(record_count(d) as nat, |i: int| record_node(d, i, kind))
    }
}

/// The nodes of the 32-byte records of `data`, each of type `kind`.
fn parse_records(data: &[u8], kind: &str) -> (r: Vec<ParsedNode>)
    ensures
        nodes_view(r@) == record_nodes(data@, kind@),
{
    let mut nodes: Vec<ParsedNode> = Vec::new();
    if data.len() < 32 {
        assert(nodes_view(nodes@) =~= record_nodes(data@, kind@));
        return nodes;
    }
    let count = read_u32_le(data, 24) as usize;
    let by_len = (data.len() - 32) / 32;
    let limit = if count < by_len {
        count
    } else {
        by_len
    };
    let n = data.len();
    let mut i: usize = 0;
    while i < limit
        invariant
            n == data@.len(),
            data@.len() >= 32,
            limit == record_count(data@),
            limit <= (data@.len() - 32) / 32,
            i <= limit,
            nodes_view(nodes@) =~= Seq::new(i as nat, |j: int| record_node(data@, j, kind@)),
        decreases limit - i,
    {
        assert(32 + i * 32 + 32 <= n) by (nonlinear_arith)
            requires
                i < limit,
                limit <= (n - 32) / 32,
                n >= 32,
        ;
        let at = 32 + i * 32;
        let node = ParsedNode {
            index: i,
            file_offset: #[verifier::truncate] (at as u32),
            node_type: Some(owned(kind)),
            name: None,
            properties: Vec::new(),
            raw_bytes: copy_range(data, at, at + 32),
        };
        let ghost prev = nodes@;
        assert(node@ =~= record_node(data@, i as int, kind@));
        nodes.push(node);
        assert(nodes_view(nodes@) =~= nodes_view(prev).push(node@));
        i += 1;
    }
    nodes
}

/// Disassembles an ANIM file into its animation-state records.
pub fn parse_anim(data: &[u8]) -> (r: Vec<ParsedNode>)
    ensures
        nodes_view(r@) == record_nodes(data@, "ANIM_STATE"@),
{
    parse_records(data, "ANIM_STATE")
}

/// Disassembles a PHYS file into its physics-shape records.
pub fn parse_phys(data: &[u8]) -> (r: Vec<ParsedNode>)
    ensures
        nodes_view(r@) == record_nodes(data@, "PHYS_SHAPE"@),
{
    parse_records(data, "PHYS_SHAPE")
}

/// Disassembles an AUD file into its audio-bus records.
pub fn parse_aud(data: &[u8]) -> (r: Vec<ParsedNode>)
    ensures
        nodes_view(r@) == record_nodes(data@, "AUD_BUS"@),
{
    parse_records(data, "AUD_BUS")
}

/// Disassembles a COMP file into its effect records.
pub fn parse_comp(data: &[u8]) -> (r: Vec<ParsedNode>)
    ensures
        nodes_view(r@) == record_nodes(data@, "COMP_EFFECT"@),
{
    parse_records(data, "COMP_EFFECT")
}

/// Disassembles a PBR file into its material records.
pub fn parse_pbr(data: &[u8]) -> (r: Vec<ParsedNode>)
    ensures
        nodes_view(r@) == record_nodes(data@, "PBR_MATERIAL"@),
{
    parse_records(data, "PBR_MATERIAL")
}

/// Disassembles a PLGN file into its plugin records.
pub fn parse_plgn(data: &[u8]) -> (r: Vec<ParsedNode>)
    ensures
        nodes_view(r@) == record_nodes(data@, "PLGN_PLUGIN"@),
{
    parse_records(data, "PLGN_PLUGIN")
}

/// Disassembles a SAVE file into its section records.
pub fn parse_save(data: &[u8]) -> (r: Vec<ParsedNode>)
    ensures
        nodes_view(r@) == record_nodes(data@, "SAVE_SECTION"@),
{
    parse_records(data, "SAVE_SECTION")
}

/// Disassembles a PIPE file into its import records.
pub fn parse_pipe(data: &[u8]) -> (r: Vec<ParsedNode>)
    ensures
        nodes_view(r@) == record_nodes(data@, "PIPE_IMPORT"@),
{
    parse_records(data, "PIPE_IMPORT")
}

// ------------------------------------------------------------ BNX

/// A BNX line is an entry when it holds `=` (trimming the line first, as the
/// format's readers do, cannot remove an `=`).
pub open spec fn bnx_entry(l: Seq<char>) -> bool {
    l.contains('=')
}

/// The node of the entry line `l`, the `i`-th line of the file: its name is
/// the trimmed text before the first `=`, its single property `value` the
/// trimmed text after it.
pub open spec fn bnx_node(l: Seq<char>, i: int) -> NodeModel {
    let e = first_of(l, '=') as int;
    NodeModel {
        index: i as usize,
        file_offset: (i * 64) as u32,
        node_type: Some("BNX_ENTRY"@),
        name: Some(trim(l.take(e))),
        properties: seq![
            PropertyModel {
                key: Some("value"@),
                value: ValueModel::String(trim(l.skip(e + 1))),
                is_raw: false,
            },
        ],
        raw_bytes: encode_utf8(l),
    }
}

/// The nodes of the entries among the first `n` lines.
pub open spec fn bnx_records(ls: Seq<Seq<char>>, n: int) -> Seq<NodeModel>
    decreases n,
{
    if n <= 0 {
        seq![]
    } else {
        let prev = bnx_records(ls, n - 1);
        if bnx_entry(ls[n - 1]) {
            prev.push(bnx_node(ls[n - 1], n - 1))
        } else {
            prev
        }
    }
}

/// The nodes of the entries of the lines `ls`.
pub open spec fn bnx_nodes(ls: Seq<Seq<char>>) -> Seq<NodeModel> {
    bnx_records(ls, ls.len() as int)
}

/// The entry lines, keyed by line number.
pub open spec fn bnx_table(ls: Seq<Seq<char>>) -> Map<u32, Seq<char>> {
    Map::new(|k: u32| k < ls.len() && bnx_entry(ls[k as int]), |k: u32| ls[k as int])
}

/// Every entry's node offset (64 bytes per line) fits in 32 bits.
pub open spec fn bnx_fits(ls: Seq<Seq<char>>) -> bool {
    forall|i: int| 0 <= i < ls.len() && bnx_entry(#[trigger] ls[i]) ==> i * 64 <= u32::MAX
}

/// The node of the entry line `line`, the `i`-th line.
fn bnx_node_of(line: &Vec<char>, i: usize) -> (r: ParsedNode)
    requires
        bnx_entry(line@),
        i * 64 <= u32::MAX,
    ensures
        r@ == bnx_node(line@, i as int),
{
    let n = line.len();
    let e = index_of(line.as_slice(), '=');
    proof {
        lemma_first_of(line@, '=');
    }
    assert(e < n);
    let key = sub_chars(line.as_slice(), 0, e);
    let rest = sub_chars(line.as_slice(), e + 1, line.len());
    let name = string_of(trim_chars(key.as_slice()).as_slice());
    let value = string_of(trim_chars(rest.as_slice()).as_slice());
    let text = string_of(line.as_slice());
    let bytes = text.as_str().as_bytes();
    let raw_bytes = copy_range(bytes, 0, bytes.len());
    let prop = ParsedProperty {
        key: Some(owned("value")),
        value: PropertyValue::String(value),
        is_raw: false,
    };
    let mut properties: Vec<ParsedProperty> = Vec::new();
    properties.push(prop);
    let r = ParsedNode {
        index: i,
        file_offset: (i as u32) * 64,
        node_type: Some(owned("BNX_ENTRY")),
        name: Some(name),
        properties,
        raw_bytes,
    };
    assert(key@ =~= line@.take(e as int));
    assert(rest@ =~= line@.skip(e + 1));
    assert(raw_bytes@ =~= encode_utf8(line@));
    assert(r@ =~= bnx_node(line@, i as int));
    r
}

/// Whether `line` holds `=`.
pub(crate) fn is_entry(line: &Vec<char>) -> (r: bool)
    ensures
        r == bnx_entry(line@),
{
    proof {
        lemma_first_of(line@, '=');
    }
    index_of(line.as_slice(), '=') < line.len()
}

/// Whether every entry's node offset fits in 32 bits.
fn lines_fit(ls: &Vec<Vec<char>>) -> (r: bool)
    ensures
        r == bnx_fits(ls@.map_values(|l: Vec<char>| l@)),
{
    let ghost v = ls@.map_values(|l: Vec<char>| l@);
    let mut i: usize = 0;
    while i < ls.len()
        invariant
            i <= ls@.len(),
            v == ls@.map_values(|l: Vec<char>| l@),
            forall|j: int| 0 <= j < i && bnx_entry(#[trigger] v[j]) ==> j * 64 <= u32::MAX,
        decreases ls@.len() - i,
    {
        if is_entry(&ls[i]) && i > 0x3ff_ffff {
            assert(bnx_entry(v[i as int]));
            return false;
        }
        i += 1;
    }
    true
}

/// The entry nodes of the lines `ls`; each entry line is added to `strings`
/// under its line number.
fn bnx_from_lines(ls: &Vec<Vec<char>>, strings: &mut HashMap<u32, String>) -> (r: Vec<ParsedNode>)
    requires
        bnx_fits(ls@.map_values(|l: Vec<char>| l@)),
    ensures
        nodes_view(r@) == bnx_nodes(ls@.map_values(|l: Vec<char>| l@)),
        strings_view(final(strings)@) == strings_view(old(strings)@).union_prefer_right(
            bnx_table(ls@.map_values(|l: Vec<char>| l@)),
        ),
{
    let ghost v = ls@.map_values(|l: Vec<char>| l@);
    let mut nodes: Vec<ParsedNode> = Vec::new();
    let mut i: usize = 0;
    while i < ls.len()
        invariant
            i <= ls@.len(),
            v == ls@.map_values(|l: Vec<char>| l@),
            bnx_fits(v),
            nodes_view(nodes@) == bnx_records(v, i as int),
            strings_view(strings@) == strings_view(old(strings)@).union_prefer_right(
                bnx_table(v.take(i as int)),
            ),
        decreases ls@.len() - i,
    {
        let line = &ls[i];
        assert(line@ == v[i as int]);
        let ghost prev = nodes@;
        let ghost before = strings@;
        if is_entry(line) {
            assert(i * 64 <= u32::MAX);
            let node = bnx_node_of(line, i);
            nodes.push(node);
            assert(nodes_view(nodes@) =~= nodes_view(prev).push(node@));
            let text = string_of(line.as_slice());
            strings.insert(i as u32, text);
            assert(strings_view(strings@) =~= strings_view(before).insert(i as u32, line@));
        }
        assert(bnx_table(v.take(i + 1)) =~= if bnx_entry(v[i as int]) {
            bnx_table(v.take(i as int)).insert(i as u32, v[i as int])
        } else {
            bnx_table(v.take(i as int))
        });
        assert(strings_view(strings@) =~= strings_view(old(strings)@).union_prefer_right(
            bnx_table(v.take(i + 1)),
        ));
        i += 1;
    }
    assert(v.take(i as int) =~= v);
    nodes
}

/// Disassembles BNX text: every line holding `=` is an entry node, and enters
/// `strings` under its line number.
pub fn parse_bnx_text(text: &str, strings: &mut HashMap<u32, String>) -> (r: Vec<ParsedNode>)
    requires
        bnx_fits(lines(text@)),
    ensures
        nodes_view(r@) == bnx_nodes(lines(text@)),
        strings_view(final(strings)@) == strings_view(old(strings)@).union_prefer_right(
            bnx_table(lines(text@)),
        ),
{
    let ls = lines_of(text);
    bnx_from_lines(&ls, strings)
}

/// Disassembles a BNX file, its bytes read as UTF-8 with invalid sequences
/// replaced. `None`, with `strings` untouched, when an entry lies on a line
/// whose node offset (64 bytes per line) does not fit in 32 bits.
pub fn parse_bnx(data: &[u8], strings: &mut HashMap<u32, String>) -> (r: Option<Vec<ParsedNode>>)
    ensures
        r is Some <==> bnx_fits(lines(lossy_text(data@))),
        r is None ==> final(strings)@ == old(strings)@,
        r matches Some(nodes) ==> {
            &&& nodes_view(nodes@) == bnx_nodes(lines(lossy_text(data@)))
            &&& strings_view(final(strings)@) == strings_view(old(strings)@).union_prefer_right(
                bnx_table(lines(lossy_text(data@))),
            )
        },
{
    let text = lossy_string(data);
    let ls = lines_of(text.as_str());
    if !lines_fit(&ls) {
        return None;
    }
    Some(bnx_from_lines(&ls, strings))
}

// ------------------------------------------------------------ whole files

/// The node type of each fixed-record format.
pub open spec fn record_kind(f: Format) -> Seq<char> {
    match f {
        Format::ANIM => "ANIM_STATE"@,
        Format::PHYS => "PHYS_SHAPE"@,
        Format::AUD => "AUD_BUS"@,
        Format::COMP => "COMP_EFFECT"@,
        Format::PBR => "PBR_MATERIAL"@,
        Format::PLGN => "PLGN_PLUGIN"@,
        Format::SAVE => "SAVE_SECTION"@,
        _ => "PIPE_IMPORT"@,
    }
}

/// XMLB and the package kinds that share its layout (`Format::extensions`
/// registers their extensions under XMLB): all are read as XMLB.
pub open spec fn xmlb_family(f: Format) -> bool {
    match f {
        Format::XMLB | Format::PKGB | Format::ENGB | Format::CHRB | Format::NAVB
        | Format::BOYB => true,
        _ => false,
    }
}

/// Formats that have a disassembler.
pub open spec fn supported(f: Format) -> bool {
    match f {
        Format::ZSS | Format::Unknown => false,
        _ => true,
    }
}

/// The nodes that disassembling `d` as the supported format `f` gives.
pub open spec fn parsed_nodes(f: Format, d: Seq<u8>) -> Seq<NodeModel> {
    match f {
        Format::XMLB | Format::PKGB | Format::ENGB | Format::CHRB | Format::NAVB
        | Format::BOYB => if d.len() < 24 {
            seq![]
        } else {
            xmlb_records(d, xmlb_strings(d), xmlb_count(d))
        },
        Format::BNX => bnx_nodes(lines(lossy_text(d))),
        Format::IGB => run_nodes(d, 3, "IGB_STRING"@),
        Format::ZSM => zsm_nodes(d),
        Format::ZAM => run_nodes(d, 1, "ZAM_DATA"@),
        _ => record_nodes(d, record_kind(f)),
    }
}

/// The string table that disassembling `d` as the supported format `f` builds.
pub open spec fn parsed_strings(f: Format, d: Seq<u8>) -> Map<u32, Seq<char>> {
    match f {
        Format::XMLB | Format::PKGB | Format::ENGB | Format::CHRB | Format::NAVB
        | Format::BOYB => if d.len() < 24 {
            Map::empty()
        } else {
            xmlb_strings(d)
        },
        Format::BNX => bnx_table(lines(lossy_text(d))),
        Format::IGB => run_table(d, runs(d, 0, 3)),
        _ => Map::empty(),
    }
}

/// The message of the error for BNX entries beyond the 32-bit node offsets.
pub open spec fn bnx_overflow_message() -> Seq<char> {
    "BNX entry lies beyond the 32-bit node offsets"@
}

/// Disassembles the contents `data` of a file in `format` into a parsed file
/// that keeps `metadata` and the raw bytes. The package kinds are read as XMLB;
/// formats without a disassembler give `UnsupportedFormat` with their name
/// (`Unknown` for an unknown format).
pub fn disassemble_bytes(format: Format, data: Vec<u8>, metadata: FileMetadata) -> (r: Result<
    ParsedFile,
    AthanorError,
>)
    requires
        xmlb_family(format) || format == Format::IGB || format == Format::ZSM ==> data@.len()
            <= u32::MAX,
    ensures
        format == Format::Unknown ==> (r matches Err(e) && e.is_unsupported("Unknown"@)),
        format != Format::Unknown && !supported(format) ==> (r matches Err(e)
            && e.is_unsupported(format_name(format))),
        format == Format::BNX && !bnx_fits(lines(lossy_text(data@))) ==> (r matches Err(e)
            && e.is_parse(bnx_overflow_message())),
        supported(format) && (format == Format::BNX ==> bnx_fits(lines(lossy_text(data@))))
            ==> r is Ok,
        r matches Ok(file) ==> {
            &&& nodes_view(file.nodes@) == parsed_nodes(format, data@)
            &&& strings_view(file.strings@) == parsed_strings(format, data@)
            &&& file.raw_data@ == data@
            &&& file.metadata == metadata
        },
{
    let mut strings: HashMap<u32, String> = HashMap::new();
    assert(strings_view(strings@) =~= Map::empty());
    let d = data.as_slice();
    let nodes = match format {
        Format::XMLB | Format::PKGB | Format::ENGB | Format::CHRB | Format::NAVB
        | Format::BOYB => parse_xmlb(d, &mut strings),
        Format::BNX => match parse_bnx(d, &mut strings) {
            Some(nodes) => nodes,
            None => {
                return Err(AthanorError::Parse(owned("BNX entry lies beyond the 32-bit node offsets")));
            },
        },
        Format::IGB => parse_igb(d, &mut strings),
        Format::ZSM => parse_zsm(d),
        Format::ZAM => parse_zam(d),
        Format::ANIM => parse_anim(d),
        Format::PHYS => parse_phys(d),
        Format::AUD => parse_aud(d),
        Format::COMP => parse_comp(d),
        Format::PBR => parse_pbr(d),
        Format::PLGN => parse_plgn(d),
        Format::SAVE => parse_save(d),
        Format::PIPE => parse_pipe(d),
        Format::Unknown => {
            return Err(AthanorError::UnsupportedFormat(owned("Unknown")));
        },
        _ => {
            return Err(AthanorError::UnsupportedFormat(owned(format.name())));
        },
    };
    assert(strings_view(strings@) =~= parsed_strings(format, data@));
    Ok(ParsedFile { metadata, nodes, strings, raw_data: data })
}

/// `ks` lists each key of `m` once.
pub open spec fn lists_keys(ks: Seq<u32>, m: Map<u32, String>) -> bool {
    &&& ks.no_duplicates()
    &&& ks.len() == m.dom().len()
    &&& forall|i: int| 0 <= i < ks.len() ==> m.contains_key(#[trigger] ks[i])
}

/// The named symbols of a parsed file: the strings of its table, each once, in
/// the table's own (unspecified) order.
pub fn get_symbols(file: &ParsedFile) -> (r: Vec<String>)
    ensures
        exists|ks: Seq<u32>|
            {
                &&& lists_keys(ks, file.strings@)
                &&& r@.len() == ks.len()
                &&& forall|i: int| 0 <= i < ks.len() ==> #[trigger] r@[i]@ == file.strings@[ks[i]]@
            },
{
    let m = &file.strings;
    let mut out: Vec<String> = Vec::new();
    for k in it: m.keys()
        invariant
            out@.len() == it.index(),
            it.seq() == vstd::std_specs::hash::spec_keys_iter(m).remaining(),
            forall|i: int|
                0 <= i < it.index() ==> #[trigger] out@[i]@ == m@[*it.seq()[i]]@,
    {
        assert(m@.contains_key(*k)) by {
            assert(it.seq().unref().to_set().contains(*k)) by {
                assert(it.seq().unref()[it.index()] == *k);
            }
        }
        match m.get(k) {
            Some(s) => out.push(s.clone()),
            None => {},
        }
    }
    let ghost seq = vstd::std_specs::hash::spec_keys_iter(m).remaining();
    let ghost ks = seq.unref();
    proof {
        assert forall|i: int| 0 <= i < ks.len() implies m@.contains_key(#[trigger] ks[i]) by {
            assert(ks.to_set().contains(ks[i]));
        }
        assert forall|i: int, j: int| 0 <= i < ks.len() && 0 <= j < ks.len() && i != j implies ks[i]
            != ks[j] by {
            assert(seq[i] != seq[j]);
        }
        assert(ks.no_duplicates());
        assert forall|i: int| 0 <= i < ks.len() implies #[trigger] out@[i]@ == m@[ks[i]]@ by {
            assert(ks[i] == *seq[i]);
        }
        assert(lists_keys(ks, m@));
        assert(out@.len() == ks.len());
    }
    out
}

/// The string table of a parsed file, keyed by offset.
pub fn get_strings(file: &ParsedFile) -> (r: HashMap<u32, String>)
    ensures
        r@ == file.strings@,
{
    file.strings.clone()
}

/// The format of a file with extension `ext` and contents `data`.
pub fn detect_format(ext: &str, data: &[u8]) -> (r: Format)
    ensures
        r == detected_format(ext@, data@),
{
    FormatDetector::detect_contents(ext, data)
}

} // verus!
