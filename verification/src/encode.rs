//! Writing little-endian numbers.
use vstd::prelude::*;
use crate::image;

verus! {

/// The bytes at `off` hold the numbers of `s`.
pub open spec fn holds16(raw: Seq<u8>, off: int, s: Seq<i16>) -> bool {
    &&& 0 <= off && off + 2 * s.len() <= raw.len()
    &&& forall|i: int| 0 <= i < s.len() ==> image::i16_at(raw, off + 2 * i) == #[trigger] s[i]
}

pub open spec fn holds32(raw: Seq<u8>, off: int, s: Seq<u32>) -> bool {
    &&& 0 <= off && off + 4 * s.len() <= raw.len()
    &&& forall|i: int| 0 <= i < s.len() ==> image::le32(raw, off + 4 * i) == #[trigger] s[i]
}

pub open spec fn holds8(raw: Seq<u8>, off: int, s: Seq<u8>) -> bool {
    &&& 0 <= off && off + s.len() <= raw.len()
    &&& forall|i: int| 0 <= i < s.len() ==> raw[off + i] == #[trigger] s[i]
}

/// `b` begins with `a`.
pub open spec fn begins(a: Seq<u8>, b: Seq<u8>) -> bool {
    &&& a.len() <= b.len()
    &&& forall|i: int| 0 <= i < a.len() ==> a[i] == #[trigger] b[i]
}

pub proof fn lemma_begins16(a: Seq<u8>, b: Seq<u8>, off: int, s: Seq<i16>)
    requires
        begins(a, b),
        holds16(a, off, s),
    ensures
        holds16(b, off, s),
{
}

pub proof fn lemma_begins32(a: Seq<u8>, b: Seq<u8>, off: int, s: Seq<u32>)
    requires
        begins(a, b),
        holds32(a, off, s),
    ensures
        holds32(b, off, s),
{
}

pub(crate) fn put_i16s(out: &mut Vec<u8>, s: &Vec<i16>)
    ensures
        final(out)@.len() == old(out)@.len() + 2 * s@.len(),
        begins(old(out)@, final(out)@),
        holds16(final(out)@, old(out)@.len() as int, s@),
{
    let ghost before = out@;
    for i in 0..s.len()
        invariant
            out@.len() == before.len() + 2 * i,
            i <= s@.len(),
            begins(before, out@),
            forall|j: int|
                0 <= j < i ==> image::i16_at(out@, before.len() + 2 * j) == #[trigger] s@[j],
    {
        let v = s[i] as i32;
        let u: i32 = if v < 0 {
            v + 0x1_0000
        } else {
            v
        };
        out.push((u % 0x100) as u8);
        out.push((u / 0x100) as u8);
        assert(image::i16_at(out@, before.len() + 2 * i) == s@[i as int]);
    }
}

pub(crate) fn put_u32s(out: &mut Vec<u8>, s: &Vec<u32>)
    ensures
        final(out)@.len() == old(out)@.len() + 4 * s@.len(),
        begins(old(out)@, final(out)@),
        holds32(final(out)@, old(out)@.len() as int, s@),
{
    let ghost before = out@;
    for i in 0..s.len()
        invariant
            out@.len() == before.len() + 4 * i,
            i <= s@.len(),
            begins(before, out@),
            forall|j: int|
                0 <= j < i ==> image::le32(out@, before.len() + 4 * j) == #[trigger] s@[j],
    {
        let v = s[i];
        out.push((v % 0x100) as u8);
        out.push((v / 0x100 % 0x100) as u8);
        out.push((v / 0x1_0000 % 0x100) as u8);
        out.push((v / 0x100_0000) as u8);
        assert(image::le32(out@, before.len() + 4 * i) == s@[i as int]);
    }
}

pub(crate) fn put_bytes(out: &mut Vec<u8>, s: &Vec<u8>)
    ensures
        final(out)@.len() == old(out)@.len() + s@.len(),
        begins(old(out)@, final(out)@),
        holds8(final(out)@, old(out)@.len() as int, s@),
{
    let ghost before = out@;
    for i in 0..s.len()
        invariant
            out@.len() == before.len() + i,
            i <= s@.len(),
            begins(before, out@),
            forall|j: int| 0 <= j < i ==> out@[before.len() + j] == #[trigger] s@[j],
    {
        out.push(s[i]);
    }
}

} // verus!
