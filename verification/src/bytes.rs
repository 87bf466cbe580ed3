//! Little-endian field access and byte-pattern comparison over raw buffers.
use vstd::prelude::*;

verus! {

/// The unsigned 16-bit little-endian value stored at `at`.
pub open spec fn le16(d: Seq<u8>, at: int) -> int {
    d[at] + d[at + 1] * 0x100
}

/// The unsigned 32-bit little-endian value stored at `at`.
pub open spec fn le32(d: Seq<u8>, at: int) -> int {
    le16(d, at) + le16(d, at + 2) * 0x10000
}

/// The unsigned 64-bit little-endian value stored at `at`.
pub open spec fn le64(d: Seq<u8>, at: int) -> int {
    le32(d, at) + le32(d, at + 4) * 0x1_0000_0000
}

/// True when `d[at..at + pat.len()]` lies inside `d` and equals `pat`.
pub open spec fn has_bytes_at(d: Seq<u8>, at: int, pat: Seq<u8>) -> bool {
    &&& 0 <= at
    &&& at + pat.len() <= d.len()
    &&& d.subrange(at, at + pat.len()) == pat
}

pub fn read_u16_le(data: &[u8], at: usize) -> (r: u16)
    requires
        at + 2 <= data@.len(),
    ensures
        r == le16(data@, at as int),
{
    data[at] as u16 + (data[at + 1] as u16) * 0x100
}

pub fn read_u32_le(data: &[u8], at: usize) -> (r: u32)
    requires
        at + 4 <= data@.len(),
    ensures
        r == le32(data@, at as int),
{
    let _n = data.len();
    let lo = read_u16_le(data, at);
    let hi = read_u16_le(data, at + 2);
    lo as u32 + (hi as u32) * 0x10000
}

pub fn read_u64_le(data: &[u8], at: usize) -> (r: u64)
    requires
        at + 8 <= data@.len(),
    ensures
        r == le64(data@, at as int),
{
    let _n = data.len();
    let lo = read_u32_le(data, at);
    let hi = read_u32_le(data, at + 4);
    lo as u64 + (hi as u64) * 0x1_0000_0000
}

/// Whether `data[at..at + pat.len()]` exists and equals `pat`.
pub fn bytes_at(data: &[u8], at: usize, pat: &[u8]) -> (r: bool)
    ensures
        r == has_bytes_at(data@, at as int, pat@),
{
    if at > data.len() || pat.len() > data.len() - at {
        return false;
    }
    let mut i: usize = 0;
    while i < pat.len()
        invariant
            at + pat@.len() <= data@.len(),
            data@.len() == data.len(),
            0 <= i <= pat@.len(),
            forall|j: int| 0 <= j < i ==> data@[at + j] == pat@[j],
        decreases pat@.len() - i,
    {
        if data[at + i] != pat[i] {
            assert(data@.subrange(at as int, at + pat@.len())[i as int] != pat@[i as int]);
            return false;
        }
        i += 1;
    }
    assert(data@.subrange(at as int, at + pat@.len()) =~= pat@);
    true
}

/// Whether two byte slices hold the same bytes (slices of different lengths never do).
pub fn bytes_equal(a: &[u8], b: &[u8]) -> (r: bool)
    ensures
        r == (a@ == b@),
{
    if a.len() != b.len() {
        return false;
    }
    let r = bytes_at(a, 0, b);
    assert(a@.subrange(0, b@.len() as int) =~= a@);
    r
}

/// Copies `data[start..end]` into a fresh vector.
pub fn copy_range(data: &[u8], start: usize, end: usize) -> (r: Vec<u8>)
    requires
        start <= end <= data@.len(),
    ensures
        r@ == data@.subrange(start as int, end as int),
{
    let mut r: Vec<u8> = Vec::new();
    let mut i = start;
    while i < end
        invariant
            start <= i <= end <= data@.len(),
            r@ == data@.subrange(start as int, i as int),
        decreases end - i,
    {
        r.push(data[i]);
        i += 1;
        assert(r@ =~= data@.subrange(start as int, i as int));
    }
    r
}

/// Index of the first zero byte of `d[from..from + width]` relative to `from`,
/// or `missing` when there is none.
pub open spec fn first_zero(d: Seq<u8>, from: int, width: int, missing: int) -> int
    decreases width,
{
    if width <= 0 {
        missing
    } else if d[from] == 0 {
        0
    } else {
        let r = first_zero(d, from + 1, width - 1, missing - 1);
        r + 1
    }
}

/// Index of the first zero byte in `d[from..from + width]`, or `missing`.
pub fn find_zero(data: &[u8], from: usize, width: usize, missing: usize) -> (r: usize)
    requires
        from + width <= data@.len(),
    ensures
        r == first_zero(data@, from as int, width as int, missing as int),
        r < width || r == missing,
{
    let n = data.len();
    let mut i: usize = 0;
    while i < width
        invariant
            n == data@.len(),
            i <= width,
            from + width <= data@.len(),
            first_zero(data@, from as int, width as int, missing as int) == i + first_zero(
                data@,
                from + i,
                width - i,
                missing - i,
            ),
        decreases width - i,
    {
        if data[from + i] == 0 {
            return i;
        }
        i += 1;
    }
    missing
}

pub proof fn lemma_first_zero_range(d: Seq<u8>, from: int, width: int, missing: int)
    requires
        width >= 0,
        missing >= width,
    ensures
        0 <= first_zero(d, from, width, missing),
        first_zero(d, from, width, missing) < width || first_zero(d, from, width, missing) == missing,
    decreases width,
{
    if width > 0 && d[from] != 0 {
        lemma_first_zero_range(d, from + 1, width - 1, missing - 1);
    }
}

} // verus!
