//! Builders that turn structured data back into file bytes, and check the
//! structure of files.
use vstd::prelude::*;
use std::collections::HashMap;
use vstd::utf8::{decode_utf8, encode_utf8, valid_utf8};
use crate::bytes::{copy_range, le32, read_u32_le};
use crate::parser::{bnx_entry, bnx_fits, bnx_node, bnx_nodes, bnx_records, is_entry};
use crate::{PropertyModel, ValueModel};
use crate::text::{
    chars_of, first_of, is_ws, lemma_first_of, lemma_first_of_at, lemma_trim_drop_ws, lines, lines_of,
    owned, strip_cr, string_of, trim, trim_chars, utf8_text,
};
use crate::{invalid_data, AthanorError, ParsedNode};

verus! {

/// Compiles structured contents back to file bytes, and validates file bytes.
pub trait BinaryBuilder {
    /// Compiles the builder's contents to the bytes of a file.
    fn compile(&self, data: &[u8]) -> Result<Vec<u8>, AthanorError>;

    /// Checks the structure of a file's bytes.
    fn validate(&self, data: &[u8]) -> Result<(), AthanorError>;
}

/// Builder for XMLB files.
pub struct XMLBBuilder {
    pub nodes: Vec<ParsedNode>,
    pub strings: HashMap<u32, String>,
}

impl XMLBBuilder {
    /// A builder with no nodes and no strings.
    pub fn new() -> (r: Self)
        ensures
            r.nodes@.len() == 0,
            r.strings@ == Map::<u32, String>::empty(),
    {
        XMLBBuilder { nodes: Vec::new(), strings: HashMap::new() }
    }
}

impl BinaryBuilder for XMLBBuilder {
    /// XMLB compilation is not available: always a `Build` error.
    fn compile(&self, _data: &[u8]) -> (r: Result<Vec<u8>, AthanorError>)
        ensures
            r matches Err(e) && e.is_build("XMLB compilation not yet implemented"@),
    {
        Err(AthanorError::Build(owned("XMLB compilation not yet implemented")))
    }

    /// An XMLB file has a 24-byte header that starts with the magic word 0x11B1.
    fn validate(&self, data: &[u8]) -> (r: Result<(), AthanorError>)
        ensures
            data@.len() < 24 ==> (r matches Err(e) && e.is_invalid_data("XMLB file too small"@)),
            data@.len() >= 24 && le32(data@, 0) != 0x11B1 ==> (r matches Err(e)
                && e.is_invalid_data("Invalid XMLB magic"@)),
            data@.len() >= 24 && le32(data@, 0) == 0x11B1 ==> r is Ok,
    {
        if data.len() < 24 {
            return Err(invalid_data("XMLB file too small"));
        }
        let magic = read_u32_le(data, 0);
        if magic != 0x11B1 {
            return Err(invalid_data("Invalid XMLB magic"));
        }
        Ok(())
    }
}

/// Builder for BNX files: `key=value` lines.
pub struct BNXBuilder {
    pub pairs: Vec<(String, String)>,
}

/// The pairs of a BNX builder as texts.
pub open spec fn pairs_view(v: Seq<(String, String)>) -> Seq<(Seq<char>, Seq<char>)> {
    v.map_values(|p: (String, String)| (p.0@, p.1@))
}

/// The line `key=value` and its line feed.
pub open spec fn bnx_line(p: (Seq<char>, Seq<char>)) -> Seq<char> {
    p.0 + seq!['='] + p.1 + seq!['\n']
}

/// The text of a BNX file holding the pairs `ps`, one line each.
pub open spec fn bnx_text(ps: Seq<(Seq<char>, Seq<char>)>) -> Seq<char>
    decreases ps.len(),
{
    if ps.len() == 0 {
        seq![]
    } else {
        bnx_text(ps.drop_last()) + bnx_line(ps.last())
    }
}

/// A line that neither holds `=` nor is blank.
pub open spec fn bad_line(l: Seq<char>) -> bool {
    !bnx_entry(l) && trim(l).len() > 0
}

/// The first bad line of `ls` from `i` on.
pub open spec fn first_bad(ls: Seq<Seq<char>>, i: int) -> Option<int>
    decreases ls.len() - i,
{
    if i < 0 || i >= ls.len() {
        None
    } else if bad_line(ls[i]) {
        Some(i)
    } else {
        first_bad(ls, i + 1)
    }
}

/// The message for a line without a separator.
pub open spec fn missing_separator(l: Seq<char>) -> Seq<char> {
    "BNX line missing '=' separator: "@ + l
}

impl BNXBuilder {
    /// A builder with no pairs.
    pub fn new() -> (r: Self)
        ensures
            r.pairs@.len() == 0,
    {
        BNXBuilder { pairs: Vec::new() }
    }
}

impl BinaryBuilder for BNXBuilder {
    /// The UTF-8 bytes of one `key=value` line per pair, each ended by a line feed.
    fn compile(&self, _data: &[u8]) -> (r: Result<Vec<u8>, AthanorError>)
        ensures
            r matches Ok(b) && b@ == encode_utf8(bnx_text(pairs_view(self.pairs@))),
    {
        let ghost ps = pairs_view(self.pairs@);
        let mut out: Vec<char> = Vec::new();
        let mut i: usize = 0;
        while i < self.pairs.len()
            invariant
                i <= self.pairs@.len(),
                ps == pairs_view(self.pairs@),
                out@ == bnx_text(ps.take(i as int)),
            decreases self.pairs@.len() - i,
        {
            let key = chars_of(self.pairs[i].0.as_str());
            let value = chars_of(self.pairs[i].1.as_str());
            let ghost before = out@;
            let mut j: usize = 0;
            while j < key.len()
                invariant
                    j <= key@.len(),
                    out@ == before + key@.take(j as int),
                decreases key@.len() - j,
            {
                out.push(key[j]);
                j += 1;
                assert(out@ =~= before + key@.take(j as int));
            }
            out.push('=');
            let ghost mid = out@;
            let mut j: usize = 0;
            while j < value.len()
                invariant
                    j <= value@.len(),
                    out@ == mid + value@.take(j as int),
                decreases value@.len() - j,
            {
                out.push(value[j]);
                j += 1;
                assert(out@ =~= mid + value@.take(j as int));
            }
            out.push('\n');
            proof {
                assert(key@.take(key@.len() as int) =~= key@);
                assert(value@.take(value@.len() as int) =~= value@);
                assert(ps.take(i + 1).drop_last() =~= ps.take(i as int));
                assert(ps.take(i + 1).last() == ps[i as int]);
                assert(out@ =~= bnx_text(ps.take(i as int)) + bnx_line(ps[i as int]));
            }
            i += 1;
        }
        assert(ps.take(i as int) =~= ps);
        let text = string_of(out.as_slice());
        let bytes = text.as_str().as_bytes();
        Ok(copy_range(bytes, 0, bytes.len()))
    }

    /// A BNX file is UTF-8 text whose every line holds `=` or is blank.
    fn validate(&self, data: &[u8]) -> (r: Result<(), AthanorError>)
        ensures
            !valid_utf8(data@) ==> (r matches Err(e) && e.is_invalid_data(
                "BNX file is not valid UTF-8"@,
            )),
            valid_utf8(data@) ==> match first_bad(lines(decode_utf8(data@)), 0) {
                None => r is Ok,
                Some(i) => r matches Err(e) && e.is_invalid_data(
                    missing_separator(lines(decode_utf8(data@))[i]),
                ),
            },
    {
        let text = match utf8_text(data) {
            Some(t) => t,
            None => {
                return Err(invalid_data("BNX file is not valid UTF-8"));
            },
        };
        let ls = lines_of(text.as_str());
        let ghost v = ls@.map_values(|l: Vec<char>| l@);
        let mut i: usize = 0;
        while i < ls.len()
            invariant
                i <= ls@.len(),
                v == ls@.map_values(|l: Vec<char>| l@),
                valid_utf8(data@),
                v == lines(decode_utf8(data@)),
                first_bad(v, 0) == first_bad(v, i as int),
            decreases ls@.len() - i,
        {
            let line = &ls[i];
            assert(line@ == v[i as int]);
            if !is_entry(line) && trim_chars(line.as_slice()).len() > 0 {
                let mut msg = chars_of("BNX line missing '=' separator: ");
                let ghost prefix = msg@;
                let mut j: usize = 0;
                while j < line.len()
                    invariant
                        j <= line@.len(),
                        msg@ == prefix + line@.take(j as int),
                    decreases line@.len() - j,
                {
                    msg.push(line[j]);
                    j += 1;
                    assert(msg@ =~= prefix + line@.take(j as int));
                }
                assert(line@.take(line@.len() as int) =~= line@);
                return Err(AthanorError::InvalidData(string_of(msg.as_slice())));
            }
            i += 1;
        }
        Ok(())
    }
}

/// Constructors of the builders.
pub struct Builder;

impl Builder {
    /// An empty XMLB builder.
    pub fn xmlb() -> (r: XMLBBuilder)
        ensures
            r.nodes@.len() == 0,
            r.strings@ == Map::<u32, String>::empty(),
    {
        XMLBBuilder::new()
    }

    /// An empty BNX builder.
    pub fn bnx() -> (r: BNXBuilder)
        ensures
            r.pairs@.len() == 0,
    {
        BNXBuilder::new()
    }
}

// ------------------------------------------------------------ laws

proof fn lemma_first_of_prefix(a: Seq<char>, b: Seq<char>, c: char)
    requires
        first_of(a, c) < a.len(),
    ensures
        first_of(a + b, c) == first_of(a, c),
    decreases a.len(),
{
    if a[0] != c {
        assert((a + b).drop_first() =~= a.drop_first() + b);
        lemma_first_of_prefix(a.drop_first(), b, c);
    }
}

/// The lines of `a + b`, where `a` is empty or ends with a line feed, are
/// those of `a` followed by those of `b`.
proof fn lemma_lines_concat(a: Seq<char>, b: Seq<char>)
    requires
        a.len() == 0 || a.last() == '\n',
    ensures
        lines(a + b) == lines(a) + lines(b),
    decreases a.len(),
{
    if a.len() == 0 {
        assert(a + b =~= b);
        assert(lines(a) + lines(b) =~= lines(b));
    } else {
        lemma_first_of(a, '\n');
        assert(a.contains('\n')) by {
            assert(a[a.len() - 1] == '\n');
        }
        let k = first_of(a, '\n') as int;
        lemma_first_of_prefix(a, b, '\n');
        let rest = a.skip(k + 1);
        assert((a + b).take(k) =~= a.take(k));
        assert((a + b).skip(k + 1) =~= rest + b);
        if rest.len() > 0 {
            assert(rest.last() == a.last());
        }
        lemma_lines_concat(rest, b);
        assert(lines(a + b) =~= lines(a) + lines(b));
    }
}

/// A pair whose key and value hold no line feed.
pub open spec fn single_line(p: (Seq<char>, Seq<char>)) -> bool {
    !p.0.contains('\n') && !p.1.contains('\n')
}

/// The line that `lines` gives for the pair `p`.
pub open spec fn pair_line(p: (Seq<char>, Seq<char>)) -> Seq<char> {
    strip_cr(p.0 + seq!['='] + p.1)
}

proof fn lemma_lines_of_line(p: (Seq<char>, Seq<char>))
    requires
        single_line(p),
    ensures
        lines(bnx_line(p)) == seq![pair_line(p)],
{
    let body = p.0 + seq!['='] + p.1;
    let s = bnx_line(p);
    assert(s =~= body + seq!['\n']);
    assert forall|j: int| 0 <= j < body.len() implies s[j] != '\n' by {
        if j < p.0.len() {
            assert(s[j] == p.0[j]);
        } else if j > p.0.len() {
            assert(s[j] == p.1[j - p.0.len() - 1]);
        }
    }
    lemma_first_of_at(s, '\n', body.len() as int);
    assert(s.take(body.len() as int) =~= body);
    let rest = s.skip(body.len() as int + 1);
    assert(rest =~= seq![]);
    assert(rest.len() == 0);
    assert(lines(rest) =~= seq![]);
    assert(first_of(s, '\n') == body.len());
    assert(lines(s) == seq![strip_cr(s.take(body.len() as int))] + lines(rest));
    assert(lines(s) =~= seq![pair_line(p)]);
}

proof fn lemma_lines_bnx_text(ps: Seq<(Seq<char>, Seq<char>)>)
    requires
        forall|i: int| 0 <= i < ps.len() ==> single_line(#[trigger] ps[i]),
    ensures
        lines(bnx_text(ps)) =~= Seq::new(ps.len(), |i: int| pair_line(ps[i])),
        bnx_text(ps).len() == 0 || bnx_text(ps).last() == '\n',
    decreases ps.len(),
{
    if ps.len() > 0 {
        let init = ps.drop_last();
        assert forall|i: int| 0 <= i < init.len() implies single_line(#[trigger] init[i]) by {
            assert(init[i] == ps[i]);
        }
        lemma_lines_bnx_text(init);
        assert(single_line(ps[ps.len() - 1]));
        lemma_lines_of_line(ps.last());
        lemma_lines_concat(bnx_text(init), bnx_line(ps.last()));
        let l = bnx_line(ps.last());
        assert(bnx_text(ps).last() == l.last());
    }
}

/// `pair_line(p)` holds `=` right after the key.
proof fn lemma_pair_line_eq(p: (Seq<char>, Seq<char>))
    ensures
        pair_line(p).len() > p.0.len(),
        pair_line(p)[p.0.len() as int] == '=',
        pair_line(p).take(p.0.len() as int) == p.0,
        !p.0.contains('=') ==> first_of(pair_line(p), '=') == p.0.len(),
        trim(pair_line(p).skip(p.0.len() as int + 1)) == trim(p.1),
{
    let body = p.0 + seq!['='] + p.1;
    let l = pair_line(p);
    assert(body[p.0.len() as int] == '=');
    if body.len() > 0 && body.last() == '\r' {
        assert(p.1.len() > 0);
    }
    assert(l[p.0.len() as int] == '=');
    assert(l.take(p.0.len() as int) =~= p.0);
    if !p.0.contains('=') {
        assert forall|j: int| 0 <= j < p.0.len() implies l[j] != '=' by {
            assert(l[j] == p.0[j]);
        }
        lemma_first_of_at(l, '=', p.0.len() as int);
    }
    if body.last() == '\r' {
        assert(l.skip(p.0.len() as int + 1) =~= p.1.drop_last());
        assert(p.1.last() == '\r');
        lemma_trim_drop_ws(p.1);
    } else {
        assert(l.skip(p.0.len() as int + 1) =~= p.1);
    }
}

proof fn lemma_records_all_entries(ls: Seq<Seq<char>>, n: int)
    requires
        0 <= n <= ls.len(),
        forall|i: int| 0 <= i < ls.len() ==> bnx_entry(#[trigger] ls[i]),
    ensures
        bnx_records(ls, n) =~= Seq::new(n as nat, |i: int| bnx_node(ls[i], i)),
    decreases n,
{
    if n > 0 {
        lemma_records_all_entries(ls, n - 1);
    }
}

proof fn lemma_no_bad_line(ls: Seq<Seq<char>>, i: int)
    requires
        0 <= i,
        forall|j: int| 0 <= j < ls.len() ==> bnx_entry(#[trigger] ls[j]),
    ensures
        first_bad(ls, i) is None,
    decreases ls.len() - i,
{
    if i < ls.len() {
        assert(bnx_entry(ls[i]));
        lemma_no_bad_line(ls, i + 1);
    }
}

/// Validation fails on some line exactly when one of the lines neither holds
/// `=` nor is blank, and then it names the first such line.
pub proof fn first_bad_finds_a_bad_line(ls: Seq<Seq<char>>, i: int)
    requires
        0 <= i,
    ensures
        first_bad(ls, i) is Some <==> exists|j: int| i <= j < ls.len() && #[trigger] bad_line(ls[j]),
        first_bad(ls, i) matches Some(j) ==> i <= j < ls.len() && bad_line(ls[j]) && forall|k: int|
            i <= k < j ==> !#[trigger] bad_line(ls[k]),
    decreases ls.len() - i,
{
    if i < ls.len() {
        first_bad_finds_a_bad_line(ls, i + 1);
        if !bad_line(ls[i]) {
            if exists|j: int| i <= j < ls.len() && #[trigger] bad_line(ls[j]) {
                let j = choose|j: int| i <= j < ls.len() && #[trigger] bad_line(ls[j]);
                assert(j != i);
                assert(i + 1 <= j);
            }
        }
    }
}

/// What the BNX builder compiles is valid UTF-8 holding one line per pair
/// that passes validation, as long as no key or value holds a line feed.
pub proof fn bnx_compiled_text_validates(ps: Seq<(Seq<char>, Seq<char>)>)
    requires
        forall|i: int| 0 <= i < ps.len() ==> single_line(#[trigger] ps[i]),
    ensures
        valid_utf8(encode_utf8(bnx_text(ps))),
        decode_utf8(encode_utf8(bnx_text(ps))) == bnx_text(ps),
        lines(bnx_text(ps)).len() == ps.len(),
        first_bad(lines(bnx_text(ps)), 0) is None,
{
    vstd::utf8::encode_utf8_valid_utf8(bnx_text(ps));
    vstd::utf8::encode_utf8_decode_utf8(bnx_text(ps));
    lemma_lines_bnx_text(ps);
    let ls = lines(bnx_text(ps));
    assert forall|j: int| 0 <= j < ls.len() implies bnx_entry(#[trigger] ls[j]) by {
        lemma_pair_line_eq(ps[j]);
        assert(ls[j][ps[j].0.len() as int] == '=');
    }
    lemma_no_bad_line(ls, 0);
}

/// Reading back what the BNX builder compiles gives one entry node per pair,
/// in order, named by the trimmed key with the trimmed value as its `value`
/// property, as long as no key holds `=` or a line feed, no value holds a
/// line feed, and every node offset (64 bytes per line) fits in 32 bits.
pub proof fn bnx_compile_read_round_trip(ps: Seq<(Seq<char>, Seq<char>)>)
    requires
        forall|i: int| 0 <= i < ps.len() ==> single_line(#[trigger] ps[i]),
        forall|i: int| 0 <= i < ps.len() ==> !(#[trigger] ps[i]).0.contains('='),
        ps.len() * 64 <= u32::MAX + 64,
    ensures
        decode_utf8(encode_utf8(bnx_text(ps))) == bnx_text(ps),
        bnx_fits(lines(bnx_text(ps))),
        bnx_nodes(lines(bnx_text(ps))).len() == ps.len(),
        forall|i: int|
            0 <= i < ps.len() ==> {
                let n = #[trigger] bnx_nodes(lines(bnx_text(ps)))[i];
                &&& n.index == i
                &&& n.name == Some(trim(ps[i].0))
                &&& n.properties == seq![
                    PropertyModel {
                        key: Some("value"@),
                        value: ValueModel::String(trim(ps[i].1)),
                        is_raw: false,
                    },
                ]
            },
{
    bnx_compiled_text_validates(ps);
    let ls = lines(bnx_text(ps));
    lemma_lines_bnx_text(ps);
    assert forall|j: int| 0 <= j < ls.len() implies bnx_entry(#[trigger] ls[j]) by {
        lemma_pair_line_eq(ps[j]);
        assert(ls[j][ps[j].0.len() as int] == '=');
    }
    lemma_records_all_entries(ls, ls.len() as int);
    assert forall|i: int|
        0 <= i < ps.len() implies {
        let n = #[trigger] bnx_nodes(ls)[i];
        &&& n.index == i
        &&& n.name == Some(trim(ps[i].0))
        &&& n.properties == seq![
            PropertyModel {
                key: Some("value"@),
                value: ValueModel::String(trim(ps[i].1)),
                is_raw: false,
            },
        ]
    } by {
        lemma_pair_line_eq(ps[i]);
        assert(ls[i] == pair_line(ps[i]));
        assert(i * 64 <= u32::MAX);
    }
}

} // verus!
