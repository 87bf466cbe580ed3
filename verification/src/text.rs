//! Character-level helpers: UTF-8 decoding of raw bytes, trimming, substring
//! tests and decimal rendering, each with a specification over `Seq<char>`.
use vstd::prelude::*;
use vstd::utf8::*;

verus! {

/// What `String::from_utf8_lossy` gives for a byte sequence.
pub uninterp spec fn utf8_lossy(bytes: Seq<u8>) -> Seq<char>;

/// The text that `String::from_utf8_lossy` makes of a byte sequence: valid UTF-8
/// decodes to exactly its characters; other input has its invalid sequences
/// replaced as `utf8_lossy` names.
pub open spec fn lossy_text(bytes: Seq<u8>) -> Seq<char> {
    if valid_utf8(bytes) {
        decode_utf8(bytes)
    } else {
        utf8_lossy(bytes)
    }
}

/// Calls `String::from_utf8_lossy`. The contract claims that the result is
/// `utf8_lossy` of the input, and that input which is valid UTF-8 decodes to
/// exactly its characters (the documented behaviour); how invalid sequences are
/// replaced is left to the name.
#[verifier::external_body]
pub(crate) fn lossy_string(bytes: &[u8]) -> (s: String)
    ensures
        s@ == utf8_lossy(bytes@),
        valid_utf8(bytes@) ==> s@ == decode_utf8(bytes@),
{
    String::from_utf8_lossy(bytes).into_owned()
}

/// Calls `std::str::from_utf8`. The contract claims that it succeeds exactly on
/// valid UTF-8 (as vstd's `valid_utf8` defines it) and then yields the decoded text.
#[verifier::external_body]
pub(crate) fn utf8_text(bytes: &[u8]) -> (r: Option<String>)
    ensures
        r is Some <==> valid_utf8(bytes@),
        r matches Some(s) ==> s@ == decode_utf8(bytes@),
{
    std::str::from_utf8(bytes).ok().map(|s| s.to_owned())
}

/// Calls `String::push`, which appends one character.
#[verifier::external_body]
pub(crate) fn push_char(s: &mut String, c: char)
    ensures
        final(s)@ == old(s)@.push(c),
{
    s.push(c)
}

/// The characters of a byte sequence read as ASCII.
pub open spec fn ascii_chars(b: Seq<u8>) -> Seq<char> {
    Seq::new(b.len(), |i: int| b[i] as char)
}

/// ASCII bytes are valid UTF-8 and decode to the same characters.
pub proof fn lemma_ascii_decode(b: Seq<u8>)
    requires
        forall|i: int| 0 <= i < b.len() ==> b[i] < 0x80,
    ensures
        valid_utf8(b),
        decode_utf8(b) == ascii_chars(b),
{
    let c = ascii_chars(b);
    assert(is_ascii_chars(c));
    is_ascii_chars_encode_utf8(c);
    assert(encode_utf8(c) =~= b);
    encode_utf8_valid_utf8(c);
    encode_utf8_decode_utf8(c);
}

/// `char::is_whitespace`: the Unicode `White_Space` property.
pub open spec fn is_ws(c: char) -> bool {
    let u = c as u32;
    (0x09 <= u <= 0x0d) || u == 0x20 || u == 0x85 || u == 0xa0 || u == 0x1680 || (0x2000 <= u
        <= 0x200a) || u == 0x2028 || u == 0x2029 || u == 0x202f || u == 0x205f || u == 0x3000
}

pub fn is_whitespace(c: char) -> (r: bool)
    ensures
        r == is_ws(c),
{
    let u = c as u32;
    (0x09 <= u && u <= 0x0d) || u == 0x20 || u == 0x85 || u == 0xa0 || u == 0x1680 || (0x2000 <= u
        && u <= 0x200a) || u == 0x2028 || u == 0x2029 || u == 0x202f || u == 0x205f || u == 0x3000
}

/// Number of leading characters of `s` that satisfy `p`.
pub open spec fn lead(s: Seq<char>, p: spec_fn(char) -> bool) -> nat
    decreases s.len(),
{
    if s.len() > 0 && p(s[0]) {
        1 + lead(s.drop_first(), p)
    } else {
        0
    }
}

/// Number of trailing characters of `s` that satisfy `p`.
pub open spec fn trail(s: Seq<char>, p: spec_fn(char) -> bool) -> nat
    decreases s.len(),
{
    if s.len() > 0 && p(s.last()) {
        1 + trail(s.drop_last(), p)
    } else {
        0
    }
}

/// `s` without its leading and trailing characters that satisfy `p`.
pub open spec fn strip(s: Seq<char>, p: spec_fn(char) -> bool) -> Seq<char> {
    let t = s.skip(lead(s, p) as int);
    t.take(t.len() - trail(t, p))
}

/// `str::trim`.
pub open spec fn trim(s: Seq<char>) -> Seq<char> {
    strip(s, |c: char| is_ws(c))
}

/// The predicate "equals `ch`".
pub open spec fn is_char(ch: char) -> spec_fn(char) -> bool {
    |c: char| c == ch
}

/// `str::trim_matches` with a single character.
pub open spec fn trim_char(s: Seq<char>, ch: char) -> Seq<char> {
    strip(s, is_char(ch))
}

/// `str::trim_end_matches` with a single character.
pub open spec fn trim_end_char(s: Seq<char>, ch: char) -> Seq<char> {
    s.take(s.len() - trail(s, is_char(ch)))
}

proof fn lemma_trail(s: Seq<char>, p: spec_fn(char) -> bool)
    ensures
        trail(s, p) <= s.len(),
        trail(s, p) < s.len() ==> !p(s[s.len() - trail(s, p) - 1]),
    decreases s.len(),
{
    if s.len() > 0 && p(s.last()) {
        lemma_trail(s.drop_last(), p);
    }
}

/// Dropping the trailing `ch`s of `s` keeps a prefix of `s` that does not end in `ch`.
pub proof fn lemma_trim_end_char(s: Seq<char>, ch: char)
    ensures
        trim_end_char(s, ch).len() <= s.len(),
        forall|i: int| 0 <= i < trim_end_char(s, ch).len() ==> #[trigger] trim_end_char(s, ch)[i] == s[i],
        trim_end_char(s, ch).len() > 0 ==> trim_end_char(s, ch).last() != ch,
{
    lemma_trail(s, is_char(ch));
}

/// `t` occurs in `s` as a contiguous run.
pub open spec fn contains_seq(s: Seq<char>, t: Seq<char>) -> bool {
    exists|i: int| 0 <= i && i + t.len() <= s.len() && #[trigger] s.subrange(i, i + t.len()) == t
}

pub open spec fn ends_with(s: Seq<char>, t: Seq<char>) -> bool {
    t.len() <= s.len() && s.subrange(s.len() - t.len(), s.len() as int) == t
}

/// The decimal digit character for `d < 10`.
pub open spec fn digit_char(d: nat) -> char {
    (48 + d) as char
}

/// The decimal rendering of `n`, as `{}` formats an unsigned integer.
pub open spec fn decimal(n: nat) -> Seq<char>
    decreases n,
{
    if n < 10 {
        seq![digit_char(n)]
    } else {
        decimal(n / 10).push(digit_char(n % 10))
    }
}

proof fn lemma_lead_exact(s: Seq<char>, p: spec_fn(char) -> bool, k: int)
    requires
        0 <= k <= s.len(),
        forall|j: int| 0 <= j < k ==> p(s[j]),
        k < s.len() ==> !p(s[k]),
    ensures
        lead(s, p) == k,
    decreases k,
{
    if k > 0 {
        lemma_lead_exact(s.drop_first(), p, k - 1);
    }
}

proof fn lemma_trail_exact(s: Seq<char>, p: spec_fn(char) -> bool, k: int)
    requires
        0 <= k <= s.len(),
        forall|j: int| s.len() - k <= j < s.len() ==> p(s[j]),
        k < s.len() ==> !p(s[s.len() - k - 1]),
    ensures
        trail(s, p) == k,
    decreases k,
{
    if k > 0 {
        lemma_trail_exact(s.drop_last(), p, k - 1);
    }
}

/// The characters of a string.
pub fn chars_of(s: &str) -> (v: Vec<char>)
    ensures
        v@ == s@,
{
    let mut v: Vec<char> = Vec::new();
    for c in it: s.chars()
        invariant
            v@ == it.seq().take(it.index() as int),
            it.seq() == s@,
    {
        v.push(c);
    }
    v
}

/// A string holding the given characters.
pub fn string_of(v: &[char]) -> (s: String)
    ensures
        s@ == v@,
{
    let mut s = String::new();
    let mut i: usize = 0;
    while i < v.len()
        invariant
            0 <= i <= v@.len(),
            s@ == v@.take(i as int),
        decreases v@.len() - i,
    {
        push_char(&mut s, v[i]);
        i += 1;
        assert(s@ =~= v@.take(i as int));
    }
    assert(v@.take(v@.len() as int) =~= v@);
    s
}

/// A string holding the characters of a string literal or other `&str`.
pub fn owned(s: &str) -> (r: String)
    ensures
        r@ == s@,
{
    s.to_owned()
}

/// A copy of `v[start..end]`.
pub fn sub_chars(v: &[char], start: usize, end: usize) -> (r: Vec<char>)
    requires
        start <= end <= v@.len(),
    ensures
        r@ == v@.subrange(start as int, end as int),
{
    let mut r: Vec<char> = Vec::new();
    let mut i = start;
    while i < end
        invariant
            start <= i <= end <= v@.len(),
            r@ == v@.subrange(start as int, i as int),
        decreases end - i,
    {
        r.push(v[i]);
        i += 1;
        assert(r@ =~= v@.subrange(start as int, i as int));
    }
    r
}

/// `str::trim` on a character vector.
pub fn trim_chars(v: &[char]) -> (r: Vec<char>)
    ensures
        r@ == trim(v@),
{
    let ghost p = |c: char| is_ws(c);
    let mut a: usize = 0;
    while a < v.len() && is_whitespace(v[a])
        invariant
            0 <= a <= v@.len(),
            p == (|c: char| is_ws(c)),
            forall|j: int| 0 <= j < a ==> p(v@[j]),
        decreases v@.len() - a,
    {
        a += 1;
    }
    proof {
        lemma_lead_exact(v@, p, a as int);
    }
    let mut b: usize = v.len();
    while b > a && is_whitespace(v[b - 1])
        invariant
            a <= b <= v@.len(),
            p == (|c: char| is_ws(c)),
            forall|j: int| b <= j < v@.len() ==> p(v@[j]),
        decreases b,
    {
        b -= 1;
    }
    proof {
        let t = v@.skip(a as int);
        assert forall|j: int| t.len() - (v@.len() - b) <= j < t.len() implies p(t[j]) by {
            assert(t[j] == v@[a + j]);
        }
        if v@.len() - b < t.len() {
            assert(t[t.len() - (v@.len() - b) - 1] == v@[b - 1]);
        }
        lemma_trail_exact(t, p, v@.len() - b);
        assert(t.take(t.len() - (v@.len() - b)) =~= v@.subrange(a as int, b as int));
    }
    sub_chars(v, a, b)
}

/// `str::trim_matches(ch)` on a character vector.
pub fn trim_char_chars(v: &[char], ch: char) -> (r: Vec<char>)
    ensures
        r@ == trim_char(v@, ch),
{
    let ghost p = is_char(ch);
    let mut a: usize = 0;
    while a < v.len() && v[a] == ch
        invariant
            0 <= a <= v@.len(),
            p == (is_char(ch)),
            forall|j: int| 0 <= j < a ==> p(v@[j]),
        decreases v@.len() - a,
    {
        a += 1;
    }
    proof {
        lemma_lead_exact(v@, p, a as int);
    }
    let mut b: usize = v.len();
    while b > a && v[b - 1] == ch
        invariant
            a <= b <= v@.len(),
            p == (is_char(ch)),
            forall|j: int| b <= j < v@.len() ==> p(v@[j]),
        decreases b,
    {
        b -= 1;
    }
    proof {
        let t = v@.skip(a as int);
        assert forall|j: int| t.len() - (v@.len() - b) <= j < t.len() implies p(t[j]) by {
            assert(t[j] == v@[a + j]);
        }
        if v@.len() - b < t.len() {
            assert(t[t.len() - (v@.len() - b) - 1] == v@[b - 1]);
        }
        lemma_trail_exact(t, p, v@.len() - b);
        assert(t.take(t.len() - (v@.len() - b)) =~= v@.subrange(a as int, b as int));
    }
    sub_chars(v, a, b)
}

/// `str::trim_end_matches(ch)` on a character vector.
pub fn trim_end_char_chars(v: &[char], ch: char) -> (r: Vec<char>)
    ensures
        r@ == trim_end_char(v@, ch),
{
    let ghost p = is_char(ch);
    let mut b: usize = v.len();
    while b > 0 && v[b - 1] == ch
        invariant
            0 <= b <= v@.len(),
            p == (is_char(ch)),
            forall|j: int| b <= j < v@.len() ==> p(v@[j]),
        decreases b,
    {
        b -= 1;
    }
    proof {
        lemma_trail_exact(v@, p, v@.len() - b);
    }
    sub_chars(v, 0, b)
}

/// Whether `t` occurs in `s`.
pub fn contains_chars(s: &[char], t: &[char]) -> (r: bool)
    ensures
        r == contains_seq(s@, t@),
{
    if t.len() > s.len() {
        return false;
    }
    let mut i: usize = 0;
    while i <= s.len() - t.len()
        invariant
            t@.len() <= s@.len(),
            0 <= i <= s@.len() - t@.len() + 1,
            forall|k: int| 0 <= k < i ==> #[trigger] s@.subrange(k, k + t@.len()) != t@,
        decreases s@.len() - t@.len() + 1 - i,
    {
        let mut j: usize = 0;
        let mut same = true;
        while j < t.len()
            invariant
                i + t@.len() <= s@.len(),
                s@.len() == s.len(),
                0 <= j <= t@.len(),
                same == (forall|m: int| 0 <= m < j ==> s@[i + m] == t@[m]),
            decreases t@.len() - j,
        {
            if s[i + j] != t[j] {
                same = false;
            }
            j += 1;
        }
        if same {
            assert(s@.subrange(i as int, i + t@.len()) =~= t@);
            return true;
        }
        assert(s@.subrange(i as int, i + t@.len()) != t@) by {
            let m = choose|m: int| 0 <= m < t@.len() && s@[i + m] != t@[m];
            assert(s@.subrange(i as int, i + t@.len())[m] == s@[i + m]);
        }
        i += 1;
    }
    false
}

/// Whether `s` ends with `t`.
pub fn ends_with_chars(s: &[char], t: &[char]) -> (r: bool)
    ensures
        r == ends_with(s@, t@),
{
    if t.len() > s.len() {
        return false;
    }
    let off = s.len() - t.len();
    let mut j: usize = 0;
    while j < t.len()
        invariant
            off + t@.len() == s@.len(),
            s@.len() == s.len(),
            0 <= j <= t@.len(),
            forall|m: int| 0 <= m < j ==> s@[off + m] == t@[m],
        decreases t@.len() - j,
    {
        if s[off + j] != t[j] {
            assert(s@.subrange(off as int, s@.len() as int)[j as int] != t@[j as int]);
            return false;
        }
        j += 1;
    }
    assert(s@.subrange(off as int, s@.len() as int) =~= t@);
    true
}

/// The decimal rendering of `n`.
pub fn decimal_chars(n: u64) -> (r: Vec<char>)
    ensures
        r@ == decimal(n as nat),
    decreases n,
{
    let d = (n % 10) as u8;
    let c = (48u8 + d) as char;
    if n < 10 {
        let mut r: Vec<char> = Vec::new();
        r.push(c);
        assert(r@ =~= seq![digit_char(n as nat)]);
        r
    } else {
        let mut r = decimal_chars(n / 10);
        r.push(c);
        r
    }
}

/// `prefix` followed by the decimal rendering of `n`, as `format!("{prefix}{n}")` gives.
pub fn labelled(prefix: &str, n: u64) -> (s: String)
    ensures
        s@ == prefix@ + decimal(n as nat),
{
    let mut v = chars_of(prefix);
    let mut d = decimal_chars(n);
    v.append(&mut d);
    string_of(&v)
}

/// Index of the first `c` in `s`, or `s.len()` when there is none.
pub open spec fn first_of(s: Seq<char>, c: char) -> nat
    decreases s.len(),
{
    if s.len() == 0 {
        0
    } else if s[0] == c {
        0
    } else {
        1 + first_of(s.drop_first(), c)
    }
}

/// `first_of` is the index of the first `c`, or the length when `c` does not occur.
pub proof fn lemma_first_of(s: Seq<char>, c: char)
    ensures
        first_of(s, c) <= s.len(),
        forall|j: int| 0 <= j < first_of(s, c) ==> s[j] != c,
        first_of(s, c) < s.len() ==> s[first_of(s, c) as int] == c,
        s.contains(c) <==> first_of(s, c) < s.len(),
    decreases s.len(),
{
    if s.len() > 0 && s[0] != c {
        lemma_first_of(s.drop_first(), c);
        assert forall|j: int| 0 <= j < first_of(s, c) implies s[j] != c by {
            if j > 0 {
                assert(s[j] == s.drop_first()[j - 1]);
            }
        }
        if s.contains(c) {
            let j = choose|j: int| 0 <= j < s.len() && s[j] == c;
            assert(s.drop_first()[j - 1] == c);
        }
        if first_of(s, c) < s.len() {
            assert(s[first_of(s, c) as int] == s.drop_first()[first_of(s.drop_first(), c) as int]);
        }
    }
}

/// The first `c` in `s` is at `i` when `c` is not among `s[..i]` and `s[i]`
/// is `c` or `i` is the end.
pub proof fn lemma_first_of_at(s: Seq<char>, c: char, i: int)
    requires
        0 <= i <= s.len(),
        forall|j: int| 0 <= j < i ==> s[j] != c,
        i == s.len() || s[i] == c,
    ensures
        first_of(s, c) == i,
    decreases i,
{
    if i > 0 {
        assert forall|j: int| 0 <= j < i - 1 implies s.drop_first()[j] != c by {
            assert(s.drop_first()[j] == s[j + 1]);
        }
        lemma_first_of_at(s.drop_first(), c, i - 1);
    }
}

/// Index of the first `c` in `v`, or its length when there is none.
pub fn index_of(v: &[char], c: char) -> (r: usize)
    ensures
        r == first_of(v@, c),
{
    let mut i: usize = 0;
    while i < v.len() && v[i] != c
        invariant
            i <= v@.len(),
            forall|j: int| 0 <= j < i ==> v@[j] != c,
        decreases v@.len() - i,
    {
        i += 1;
    }
    proof {
        lemma_first_of_at(v@, c, i as int);
    }
    i
}

/// A line without its trailing carriage return.
pub open spec fn strip_cr(s: Seq<char>) -> Seq<char> {
    if s.len() > 0 && s.last() == '\r' {
        s.drop_last()
    } else {
        s
    }
}

/// `str::lines`: the pieces between line feeds, each without a carriage
/// return just before its line feed; a final line feed ends the last line
/// and does not start an empty one.
pub open spec fn lines(s: Seq<char>) -> Seq<Seq<char>>
    decreases s.len(),
{
    if s.len() == 0 {
        seq![]
    } else {
        let k = first_of(s, '\n');
        if k >= s.len() {
            seq![s]
        } else {
            seq![strip_cr(s.take(k as int))] + lines(s.skip(k as int + 1))
        }
    }
}

proof fn lemma_first_of_concat(a: Seq<char>, b: Seq<char>, c: char)
    requires
        forall|j: int| 0 <= j < a.len() ==> a[j] != c,
    ensures
        first_of(a + b, c) == a.len() + first_of(b, c),
    decreases a.len(),
{
    if a.len() > 0 {
        assert((a + b).drop_first() =~= a.drop_first() + b);
        lemma_first_of_concat(a.drop_first(), b, c);
    } else {
        assert(a + b =~= b);
    }
}

/// The lines of a character vector, as `str::lines` gives them.
pub fn split_lines(v: &[char]) -> (r: Vec<Vec<char>>)
    ensures
        r@.len() == lines(v@).len(),
        forall|i: int| 0 <= i < r@.len() ==> #[trigger] r@[i]@ == lines(v@)[i],
{
    let mut out: Vec<Vec<char>> = Vec::new();
    let mut cur: Vec<char> = Vec::new();
    let ghost mut done: Seq<Seq<char>> = seq![];
    let mut i: usize = 0;
    assert(v@.skip(0) =~= v@);
    assert(cur@ + v@.skip(0) =~= v@);
    while i < v.len()
        invariant
            i <= v@.len(),
            lines(v@) == done + lines(cur@ + v@.skip(i as int)),
            forall|j: int| 0 <= j < cur@.len() ==> cur@[j] != '\n',
            out@.len() == done.len(),
            forall|j: int| 0 <= j < out@.len() ==> #[trigger] out@[j]@ == done[j],
        decreases v@.len() - i,
    {
        let ghost s = cur@ + v@.skip(i as int);
        if v[i] == '\n' {
            proof {
                assert(v@.skip(i as int) =~= seq!['\n'] + v@.skip(i + 1));
                lemma_first_of_concat(cur@, v@.skip(i as int), '\n');
                assert(s.take(cur@.len() as int) =~= cur@);
                assert(s.skip(cur@.len() as int + 1) =~= v@.skip(i + 1));
            }
            let mut line = cur;
            if line.len() > 0 && line[line.len() - 1] == '\r' {
                line.pop();
            }
            assert(line@ =~= strip_cr(s.take(cur@.len() as int)));
            proof {
                done = done.push(line@);
            }
            out.push(line);
            cur = Vec::new();
            assert(cur@ + v@.skip(i + 1) =~= v@.skip(i + 1));
            assert(lines(v@) =~= done + lines(cur@ + v@.skip(i + 1)));
        } else {
            let ghost old_cur = cur@;
            cur.push(v[i]);
            assert(cur@ + v@.skip(i + 1) =~= old_cur + v@.skip(i as int));
        }
        i += 1;
    }
    assert(cur@ + v@.skip(i as int) =~= cur@);
    if cur.len() > 0 {
        proof {
            lemma_first_of_concat(cur@, seq![], '\n');
            assert(cur@ + seq![] =~= cur@);
        }
        proof {
            done = done.push(cur@);
        }
        out.push(cur);
    }
    assert(lines(v@) =~= done);
    out
}

/// The lines of `s` (as `str::lines` gives them), as character vectors.
pub fn lines_of(s: &str) -> (r: Vec<Vec<char>>)
    ensures
        r@.map_values(|l: Vec<char>| l@) == lines(s@),
{
    let cs = chars_of(s);
    let r = split_lines(cs.as_slice());
    assert(r@.map_values(|l: Vec<char>| l@) =~= lines(s@));
    r
}

proof fn lemma_lead_props(s: Seq<char>, p: spec_fn(char) -> bool)
    ensures
        lead(s, p) <= s.len(),
        forall|j: int| 0 <= j < lead(s, p) ==> p(s[j]),
        lead(s, p) < s.len() ==> !p(s[lead(s, p) as int]),
    decreases s.len(),
{
    if s.len() > 0 && p(s[0]) {
        lemma_lead_props(s.drop_first(), p);
        assert forall|j: int| 0 <= j < lead(s, p) implies p(s[j]) by {
            if j > 0 {
                assert(s[j] == s.drop_first()[j - 1]);
            }
        }
        if lead(s, p) < s.len() {
            assert(s[lead(s, p) as int] == s.drop_first()[lead(s.drop_first(), p) as int]);
        }
    }
}

proof fn lemma_trail_bound(s: Seq<char>, p: spec_fn(char) -> bool)
    ensures
        trail(s, p) <= s.len(),
    decreases s.len(),
{
    if s.len() > 0 && p(s.last()) {
        lemma_trail_bound(s.drop_last(), p);
    }
}

/// Dropping a final whitespace character does not change what `trim` gives.
pub proof fn lemma_trim_drop_ws(s: Seq<char>)
    requires
        s.len() > 0,
        is_ws(s.last()),
    ensures
        trim(s.drop_last()) == trim(s),
{
    let p = |c: char| is_ws(c);
    let w = s.drop_last();
    lemma_lead_props(w, p);
    let a = lead(w, p);
    assert forall|j: int| 0 <= j < a implies p(s[j]) by {
        assert(s[j] == w[j]);
    }
    if a == w.len() {
        assert(p(s[a as int]));
        lemma_lead_exact(s, p, s.len() as int);
        assert(trim(w) =~= seq![]);
        assert(trim(s) =~= seq![]);
    } else {
        lemma_lead_exact(s, p, a as int);
        let tw = w.skip(a as int);
        let ts = s.skip(a as int);
        assert(ts.drop_last() =~= tw);
        assert(ts.last() == s.last());
        assert(trail(ts, p) == 1 + trail(tw, p));
        lemma_trail_bound(tw, p);
        assert(ts.take(ts.len() - trail(ts, p)) =~= tw.take(tw.len() - trail(tw, p)));
    }
}

/// `a` followed by `b`.
pub fn concat(a: &str, b: &str) -> (r: String)
    ensures
        r@ == a@ + b@,
{
    let mut v = chars_of(a);
    let w = chars_of(b);
    let ghost start = v@;
    let mut i: usize = 0;
    while i < w.len()
        invariant
            i <= w@.len(),
            v@ == start + w@.take(i as int),
        decreases w@.len() - i,
    {
        v.push(w[i]);
        i += 1;
        assert(v@ =~= start + w@.take(i as int));
    }
    assert(w@.take(i as int) =~= w@);
    string_of(v.as_slice())
}

} // verus!
