//! Numbers and texts as bytes, the least significant byte first.

use crate::number::F64;
use vstd::prelude::*;
use vstd::utf8::encode_utf8;

verus! {

/// The two bytes of a number.
pub open spec fn le16(v: u16) -> Seq<u8> {
    seq![(v % 256) as u8, (v / 256) as u8]
}

/// The four bytes of a number.
pub open spec fn le32(v: u32) -> Seq<u8> {
    seq![
        (v % 256) as u8,
        (v / 256 % 256) as u8,
        (v / 65536 % 256) as u8,
        (v / 16777216) as u8,
    ]
}

/// The eight bytes of a number.
pub open spec fn le64(v: u64) -> Seq<u8> {
    le32((v % 0x1_0000_0000) as u32) + le32((v / 0x1_0000_0000) as u32)
}

/// The number in the two bytes from `at` on.
pub open spec fn read16(b: Seq<u8>, at: int) -> int {
    b[at] + 256 * b[at + 1]
}

/// The number in the four bytes from `at` on.
pub open spec fn read32(b: Seq<u8>, at: int) -> int {
    b[at] + 256 * b[at + 1] + 65536 * b[at + 2] + 16777216 * b[at + 3]
}

/// The number in the eight bytes from `at` on.
pub open spec fn read64(b: Seq<u8>, at: int) -> int {
    read32(b, at) + 0x1_0000_0000 * read32(b, at + 4)
}

/// The bytes of a number give the number back.
pub proof fn lemma_read16(b: Seq<u8>, at: int, v: u16)
    requires
        0 <= at,
        at + 2 <= b.len(),
        b.subrange(at, at + 2) == le16(v),
    ensures
        read16(b, at) == v,
{
    assert(b[at] == b.subrange(at, at + 2)[0]);
    assert(b[at + 1] == b.subrange(at, at + 2)[1]);
}

/// The bytes of a number give the number back.
pub proof fn lemma_read32(b: Seq<u8>, at: int, v: u32)
    requires
        0 <= at,
        at + 4 <= b.len(),
        b.subrange(at, at + 4) == le32(v),
    ensures
        read32(b, at) == v,
{
    let s = b.subrange(at, at + 4);
    assert(b[at] == s[0]);
    assert(b[at + 1] == s[1]);
    assert(b[at + 2] == s[2]);
    assert(b[at + 3] == s[3]);
}

/// The bytes of a number give the number back.
pub proof fn lemma_read64(b: Seq<u8>, at: int, v: u64)
    requires
        0 <= at,
        at + 8 <= b.len(),
        b.subrange(at, at + 8) == le64(v),
    ensures
        read64(b, at) == v,
{
    let low = (v % 0x1_0000_0000) as u32;
    let high = (v / 0x1_0000_0000) as u32;
    assert(b.subrange(at, at + 4) =~= b.subrange(at, at + 8).subrange(0, 4));
    assert(le64(v).subrange(0, 4) =~= le32(low));
    assert(b.subrange(at + 4, at + 8) =~= b.subrange(at, at + 8).subrange(4, 8));
    assert(le64(v).subrange(4, 8) =~= le32(high));
    lemma_read32(b, at, low);
    lemma_read32(b, at + 4, high);
}

/// The bytes of a list of short numbers.
pub open spec fn all16(values: Seq<u16>) -> Seq<u8>
    decreases values.len(),
{
    if values.len() == 0 {
        Seq::empty()
    } else {
        all16(values.drop_last()) + le16(values.last())
    }
}

/// The bytes of a list of numbers.
pub open spec fn all32(values: Seq<u32>) -> Seq<u8>
    decreases values.len(),
{
    if values.len() == 0 {
        Seq::empty()
    } else {
        all32(values.drop_last()) + le32(values.last())
    }
}

/// The bytes of a list of floating-point numbers.
pub open spec fn all64(values: Seq<F64>) -> Seq<u8>
    decreases values.len(),
{
    if values.len() == 0 {
        Seq::empty()
    } else {
        all64(values.drop_last()) + le64(values.last().bits)
    }
}

/// Each number of a list takes two bytes, in order.
pub proof fn lemma_all16(values: Seq<u16>)
    ensures
        all16(values).len() == 2 * values.len(),
        forall|i: int|
            0 <= i < values.len() ==> all16(values).subrange(2 * i, 2 * i + 2) == le16(
                #[trigger] values[i],
            ),
    decreases values.len(),
{
    if values.len() > 0 {
        let before = values.drop_last();
        lemma_all16(before);
        assert forall|i: int| 0 <= i < values.len() implies all16(values).subrange(
            2 * i,
            2 * i + 2,
        ) == le16(#[trigger] values[i]) by {
            if i < before.len() {
                assert(before[i] == values[i]);
                assert(all16(values).subrange(2 * i, 2 * i + 2) =~= all16(before).subrange(
                    2 * i,
                    2 * i + 2,
                ));
            } else {
                assert(all16(values).subrange(2 * i, 2 * i + 2) =~= le16(values[i]));
            }
        }
    }
}

/// Each number of a list takes four bytes, in order.
pub proof fn lemma_all32(values: Seq<u32>)
    ensures
        all32(values).len() == 4 * values.len(),
        forall|i: int|
            0 <= i < values.len() ==> all32(values).subrange(4 * i, 4 * i + 4) == le32(
                #[trigger] values[i],
            ),
    decreases values.len(),
{
    if values.len() > 0 {
        let before = values.drop_last();
        lemma_all32(before);
        assert forall|i: int| 0 <= i < values.len() implies all32(values).subrange(
            4 * i,
            4 * i + 4,
        ) == le32(#[trigger] values[i]) by {
            if i < before.len() {
                assert(before[i] == values[i]);
                assert(all32(values).subrange(4 * i, 4 * i + 4) =~= all32(before).subrange(
                    4 * i,
                    4 * i + 4,
                ));
            } else {
                assert(all32(values).subrange(4 * i, 4 * i + 4) =~= le32(values[i]));
            }
        }
    }
}

/// Each number of a list takes eight bytes, in order.
pub proof fn lemma_all64(values: Seq<F64>)
    ensures
        all64(values).len() == 8 * values.len(),
        forall|i: int|
            0 <= i < values.len() ==> all64(values).subrange(8 * i, 8 * i + 8) == le64(
                (#[trigger] values[i]).bits,
            ),
    decreases values.len(),
{
    if values.len() > 0 {
        let before = values.drop_last();
        lemma_all64(before);
        assert forall|i: int| 0 <= i < values.len() implies all64(values).subrange(
            8 * i,
            8 * i + 8,
        ) == le64((#[trigger] values[i]).bits) by {
            if i < before.len() {
                assert(before[i] == values[i]);
                assert(all64(values).subrange(8 * i, 8 * i + 8) =~= all64(before).subrange(
                    8 * i,
                    8 * i + 8,
                ));
            } else {
                assert(all64(values).subrange(8 * i, 8 * i + 8) =~= le64(values[i].bits));
            }
        }
    }
}

pub fn push_u16(out: &mut Vec<u8>, v: u16)
    ensures
        final(out)@ == old(out)@ + le16(v),
{
    out.push((v % 256) as u8);
    out.push((v / 256) as u8);
    assert(out@ =~= old(out)@ + le16(v));
}

pub fn push_u32(out: &mut Vec<u8>, v: u32)
    ensures
        final(out)@ == old(out)@ + le32(v),
{
    out.push((v % 256) as u8);
    out.push((v / 256 % 256) as u8);
    out.push((v / 65536 % 256) as u8);
    out.push((v / 16777216) as u8);
    assert(out@ =~= old(out)@ + le32(v));
}

pub fn push_u64(out: &mut Vec<u8>, v: u64)
    ensures
        final(out)@ == old(out)@ + le64(v),
{
    push_u32(out, (v % 0x1_0000_0000) as u32);
    push_u32(out, (v / 0x1_0000_0000) as u32);
    assert(out@ =~= old(out)@ + le64(v));
}

/// Appends the bytes of a list.
pub fn push_bytes(out: &mut Vec<u8>, bytes: &Vec<u8>)
    ensures
        final(out)@ == old(out)@ + bytes@,
{
    let ghost start = out@;
    let mut i: usize = 0;
    while i < bytes.len()
        invariant
            i <= bytes@.len(),
            out@ == start + bytes@.take(i as int),
        decreases bytes@.len() - i,
    {
        out.push(bytes[i]);
        assert(out@ =~= start + bytes@.take(i + 1));
        i = i + 1;
    }
    assert(bytes@.take(bytes@.len() as int) =~= bytes@);
}

/// The bytes of a list of short numbers.
pub fn bytes16(values: &Vec<u16>) -> (r: Vec<u8>)
    ensures
        r@ == all16(values@),
{
    let mut out: Vec<u8> = Vec::new();
    let mut i: usize = 0;
    while i < values.len()
        invariant
            i <= values@.len(),
            out@ == all16(values@.take(i as int)),
        decreases values@.len() - i,
    {
        push_u16(&mut out, values[i]);
        assert(values@.take(i + 1).drop_last() =~= values@.take(i as int));
        i = i + 1;
    }
    assert(values@.take(values@.len() as int) =~= values@);
    out
}

/// The bytes of a list of numbers.
pub fn bytes32(values: &Vec<u32>) -> (r: Vec<u8>)
    ensures
        r@ == all32(values@),
{
    let mut out: Vec<u8> = Vec::new();
    let mut i: usize = 0;
    while i < values.len()
        invariant
            i <= values@.len(),
            out@ == all32(values@.take(i as int)),
        decreases values@.len() - i,
    {
        push_u32(&mut out, values[i]);
        assert(values@.take(i + 1).drop_last() =~= values@.take(i as int));
        i = i + 1;
    }
    assert(values@.take(values@.len() as int) =~= values@);
    out
}

/// The bytes of a list of floating-point numbers.
pub fn bytes64(values: &Vec<F64>) -> (r: Vec<u8>)
    ensures
        r@ == all64(values@),
{
    let mut out: Vec<u8> = Vec::new();
    let mut i: usize = 0;
    while i < values.len()
        invariant
            i <= values@.len(),
            out@ == all64(values@.take(i as int)),
        decreases values@.len() - i,
    {
        push_u64(&mut out, values[i].bits);
        assert(values@.take(i + 1).drop_last() =~= values@.take(i as int));
        i = i + 1;
    }
    assert(values@.take(values@.len() as int) =~= values@);
    out
}

/// The bytes of a text.
pub fn text_bytes(text: &str) -> (r: Vec<u8>)
    ensures
        r@ == encode_utf8(text@),
{
    let slice = text.as_bytes();
    let mut out: Vec<u8> = Vec::new();
    let mut i: usize = 0;
    while i < slice.len()
        invariant
            i <= slice@.len(),
            out@ == slice@.take(i as int),
        decreases slice@.len() - i,
    {
        out.push(slice[i]);
        i = i + 1;
    }
    assert(slice@.take(slice@.len() as int) =~= slice@);
    out
}

} // verus!
