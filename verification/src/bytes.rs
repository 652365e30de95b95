//! Little-endian field access and NUL-terminated name scanning over
//! owned byte buffers. These are the only primitives through which the
//! on-disk records are read and written.

use vstd::prelude::*;

verus! {

/// The little-endian 16-bit value stored at byte offset `off`.
pub open spec fn spec_le16(s: Seq<u8>, off: int) -> u16
    recommends
        0 <= off,
        off + 2 <= s.len(),
{
    (s[off] + s[off + 1] * 0x100) as u16
}

/// The little-endian 32-bit value stored at byte offset `off`.
pub open spec fn spec_le32(s: Seq<u8>, off: int) -> u32
    recommends
        0 <= off,
        off + 4 <= s.len(),
{
    (s[off] + s[off + 1] * 0x100 + s[off + 2] * 0x1_0000 + s[off + 3] * 0x100_0000) as u32
}

/// Reads the little-endian 16-bit value at `off`.
pub fn read_le16(v: &Vec<u8>, off: usize) -> (r: u16)
    requires
        off + 2 <= v@.len(),
    ensures
        r == spec_le16(v@, off as int),
{
    // binding the length bounds the offsets below by the machine word
    let n: usize = v.len();
    (v[off] as u16) + (v[off + 1] as u16) * 0x100
}

/// Reads the little-endian 32-bit value at `off`.
pub fn read_le32(v: &Vec<u8>, off: usize) -> (r: u32)
    requires
        off + 4 <= v@.len(),
    ensures
        r == spec_le32(v@, off as int),
{
    // binding the length bounds the offsets below by the machine word
    let n: usize = v.len();
    (v[off] as u32) + (v[off + 1] as u32) * 0x100 + (v[off + 2] as u32) * 0x1_0000 + (v[off
        + 3] as u32) * 0x100_0000
}

/// Index of the first NUL byte of `s`, or `s.len()` if there is none.
pub open spec fn first_nul(s: Seq<u8>) -> int
    decreases s.len(),
{
    if s.len() == 0 {
        0
    } else if s[0] == 0 {
        0
    } else {
        1 + first_nul(s.drop_first())
    }
}

/// The bytes of `s` before its first NUL: how a name field is read.
pub open spec fn nul_prefix(s: Seq<u8>) -> Seq<u8> {
    s.take(first_nul(s))
}

/// `first_nul` points at a NUL (or the end) and nothing before it is NUL.
pub proof fn lemma_first_nul(s: Seq<u8>)
    ensures
        0 <= first_nul(s) <= s.len(),
        first_nul(s) < s.len() ==> s[first_nul(s)] == 0,
        forall|j: int| 0 <= j < first_nul(s) ==> s[j] != 0,
    decreases s.len(),
{
    if s.len() > 0 && s[0] != 0 {
        lemma_first_nul(s.drop_first());
        assert forall|j: int| 0 <= j < first_nul(s) implies s[j] != 0 by {
            if j > 0 {
                assert(s.drop_first()[j - 1] == s[j]);
            }
        }
    }
}

/// A position that is NUL (or the end), with no NUL before it, is `first_nul`.
pub proof fn lemma_first_nul_at(s: Seq<u8>, i: int)
    requires
        0 <= i <= s.len(),
        i < s.len() ==> s[i] == 0,
        forall|j: int| 0 <= j < i ==> s[j] != 0,
    ensures
        first_nul(s) == i,
    decreases s.len(),
{
    if s.len() > 0 && s[0] != 0 {
        assert(i >= 1);
        lemma_first_nul_at(s.drop_first(), i - 1);
    }
}

/// Extracts the bytes of `v[start..end]` before the first NUL of that range.
pub fn scan_name(v: &Vec<u8>, start: usize, end: usize) -> (r: Vec<u8>)
    requires
        start <= end <= v@.len(),
    ensures
        r@ == nul_prefix(v@.subrange(start as int, end as int)),
{
    let ghost region = v@.subrange(start as int, end as int);
    let mut i: usize = start;
    let mut out: Vec<u8> = Vec::new();
    while i < end && v[i] != 0
        invariant
            start <= i <= end <= v@.len(),
            region == v@.subrange(start as int, end as int),
            out@ == region.take(i - start),
            forall|j: int| 0 <= j < i - start ==> region[j] != 0,
        decreases end - i,
    {
        out.push(v[i]);
        assert(region[i - start] == v@[i as int]);
        assert(out@ == region.take(i + 1 - start));
        i = i + 1;
    }
    proof {
        if i < end {
            assert(region[i - start] == v@[i as int]);
        }
        lemma_first_nul_at(region, i - start);
    }
    out
}

/// `x` rounded up to the next multiple of four: the alignment of
/// directory-entry records.
pub open spec fn spec_round_up4(x: int) -> int {
    ((x + 3) / 4) * 4
}

/// Rounding up to four adds at most three and keeps order.
pub proof fn lemma_round_up4(x: int)
    ensures
        x <= spec_round_up4(x) <= x + 3,
        spec_round_up4(x) % 4 == 0,
{
}

/// Rounds `x` up to the next multiple of four.
pub fn round_up4(x: usize) -> (r: usize)
    requires
        x + 3 <= usize::MAX,
    ensures
        r == spec_round_up4(x as int),
{
    ((x + 3) / 4) * 4
}

/// Whether two byte runs hold the same bytes.
pub fn bytes_eq(a: &Vec<u8>, b: &Vec<u8>) -> (r: bool)
    ensures
        r <==> a@ == b@,
{
    if a.len() != b.len() {
        proof {
            assert(a@ != b@);
        }
        return false;
    }
    let n: usize = a.len();
    let mut i: usize = 0;
    while i < n
        invariant
            i <= n,
            n == a@.len() == b@.len(),
            forall|j: int| 0 <= j < i ==> a@[j] == b@[j],
        decreases n - i,
    {
        if a[i] != b[i] {
            return false;
        }
        i = i + 1;
    }
    proof {
        assert(a@ =~= b@);
    }
    true
}

/// An owned copy of a byte run.
pub fn clone_bytes(a: &Vec<u8>) -> (r: Vec<u8>)
    ensures
        r@ == a@,
{
    let n: usize = a.len();
    let mut out: Vec<u8> = Vec::new();
    let mut i: usize = 0;
    while i < n
        invariant
            i <= n,
            n == a@.len(),
            out@ == a@.take(i as int),
        decreases n - i,
    {
        out.push(a[i]);
        proof {
            assert(out@ =~= a@.take(i + 1));
        }
        i = i + 1;
    }
    proof {
        assert(a@.take(n as int) =~= a@);
    }
    out
}

} // verus!
