//! Unsigned variable-length integers: little-endian groups of seven bits,
//! the high bit of each byte telling whether another byte follows.

use vstd::prelude::*;
use crate::stream::{ByteStream, StreamError};

verus! {

/// Scans the bytes of one varint from `pos`, given the value accumulated so
/// far and the shift of the next group. Groups that would land at or beyond
/// bit 32 are dropped. `None` when the bytes run out before a byte with a
/// clear high bit.
pub open spec fn uvarint_scan(s: Seq<u8>, pos: int, value: u32, shift: u32) -> Option<(u32, int)>
    decreases s.len() - pos,
{
    if pos < 0 || pos >= s.len() {
        None
    } else {
        let b = s[pos];
        let value = if shift < 32 {
            value | (((b & 0x7f) as u32) << shift)
        } else {
            value
        };
        if b & 0x80 == 0 {
            Some((value, pos + 1))
        } else {
            uvarint_scan(s, pos + 1, value, if shift < 32 { (shift + 7) as u32 } else { shift })
        }
    }
}

/// The varint that starts at `pos` with the position just after it, or
/// `None` when the bytes end in the middle of it (or before it).
pub open spec fn uvarint_field(s: Seq<u8>, pos: int) -> Option<(u32, int)> {
    uvarint_scan(s, pos, 0, 0)
}

/// What reading a varint at `pos` gives: a value and the next position,
/// the end of the stream when no byte is left, or a truncated stream when
/// the bytes end in the middle of the value.
pub open spec fn uvarint_at(s: Seq<u8>, pos: int) -> Result<Option<(u32, int)>, StreamError> {
    if pos >= s.len() {
        Ok(None)
    } else {
        match uvarint_field(s, pos) {
            Some(p) => Ok(Some(p)),
            None => Err(StreamError::Truncated),
        }
    }
}

/// The encoding of `v`: seven bits per byte, lowest first, with the high
/// bit set on every byte but the last.
pub open spec fn encode_uvarint(v: u32) -> Seq<u8>
    decreases v,
{
    if v < 128 {
        seq![v as u8]
    } else {
        seq![(v % 128 + 128) as u8] + encode_uvarint((v / 128) as u32)
    }
}

/// The encoding of `w` read with `acc` already accumulated and the next
/// group going to bit `shift`: no bit of `w` is lost to the 32-bit width.
proof fn lemma_scan_encoded(s: Seq<u8>, pos: int, w: u32, acc: u32, shift: u32)
    requires
        shift < 32,
        (w << shift) >> shift == w,
        0 <= pos,
        pos + encode_uvarint(w).len() <= s.len(),
        s.subrange(pos, pos + encode_uvarint(w).len()) == encode_uvarint(w),
    ensures
        uvarint_scan(s, pos, acc, shift) == Some((acc | (w << shift), pos + encode_uvarint(w).len())),
    decreases w,
{
    let e = encode_uvarint(w);
    assert(s[pos] == s.subrange(pos, pos + e.len())[0]);
    let b = s[pos];
    if w < 128 {
        assert(b == w as u8);
        assert(b & 0x80 == 0 && ((b & 0x7f) as u32) == w) by (bit_vector)
            requires
                b == w as u8,
                w < 128u32,
        ;
    } else {
        let rest = encode_uvarint((w / 128) as u32);
        assert(b == (w % 128 + 128) as u8);
        assert(e == seq![b] + rest);
        assert(s.subrange(pos + 1, pos + 1 + rest.len()) == rest) by {
            assert(s.subrange(pos + 1, pos + 1 + rest.len()) =~= s.subrange(pos, pos + e.len()).subrange(1, e.len() as int));
        }
        let w2 = (w / 128) as u32;
        let acc2 = acc | (((b & 0x7f) as u32) << shift);
        assert({
            &&& b & 0x80 != 0
            &&& shift + 7 < 32
            &&& ((w2 << ((shift + 7) as u32)) >> ((shift + 7) as u32)) == w2
            &&& acc2 | (w2 << ((shift + 7) as u32)) == acc | (w << shift)
        }) by (bit_vector)
            requires
                b == (w % 128 + 128) as u8,
                w >= 128u32,
                w2 == w / 128,
                shift < 32u32,
                (w << shift) >> shift == w,
                acc2 == acc | (((b & 0x7f) as u32) << shift),
        ;
        lemma_scan_encoded(s, pos + 1, w2, acc2, (shift + 7) as u32);
    }
}

/// Decoding the encoding of any 32-bit value gives that value back, and the
/// read stops right after the encoding, whatever bytes follow it.
pub proof fn lemma_uvarint_round_trip(s: Seq<u8>, pos: int, v: u32)
    requires
        0 <= pos,
        pos + encode_uvarint(v).len() <= s.len(),
        s.subrange(pos, pos + encode_uvarint(v).len()) == encode_uvarint(v),
    ensures
        uvarint_at(s, pos) == Ok::<Option<(u32, int)>, StreamError>(
            Some((v, pos + encode_uvarint(v).len())),
        ),
{
    assert((v << 0u32) >> 0u32 == v && 0u32 | (v << 0u32) == v) by (bit_vector);
    lemma_scan_encoded(s, pos, v, 0, 0);
}

/// A read from an exhausted stream gives the end of the stream, never a
/// truncated value.
pub proof fn lemma_exhausted_is_end(s: Seq<u8>, pos: int)
    requires
        pos >= s.len(),
    ensures
        uvarint_at(s, pos) == Ok::<Option<(u32, int)>, StreamError>(None),
{
}

/// A last byte with its high bit set reads as a truncated value, which is
/// not the end of the stream.
pub proof fn lemma_dangling_byte_is_truncated(s: Seq<u8>, pos: int)
    requires
        0 <= pos,
        pos + 1 == s.len(),
        s[pos] & 0x80 != 0,
    ensures
        uvarint_at(s, pos) == Err::<Option<(u32, int)>, StreamError>(StreamError::Truncated),
{
    let b = s[pos];
    let value: u32 = 0u32 | (((b & 0x7f) as u32) << 0u32);
    assert(uvarint_scan(s, pos + 1, value, 7) is None);
}

/// Reads the next varint.
///
/// `Ok(None)` when the stream is exhausted before the first byte;
/// `Err(Truncated)` when it ends after a byte with the high bit set.
pub fn read_uvarint(input: &mut ByteStream) -> (r: Result<Option<u32>, StreamError>)
    ensures
        final(input).data@ == old(input).data@,
        match uvarint_at(old(input).data@, old(input).pos as int) {
            Ok(Some((v, next))) => r == Ok::<Option<u32>, StreamError>(Some(v)) && final(input).pos == next,
            Ok(None) => r == Ok::<Option<u32>, StreamError>(None) && final(input).pos == old(input).pos,
            Err(e) => r == Err::<Option<u32>, StreamError>(e),
        },
{
    if input.pos >= input.data.len() {
        return Ok(None);
    }
    let ghost s = input.data@;
    let ghost start = input.pos as int;
    let mut value: u32 = 0;
    let mut shift: u32 = 0;
    loop
        invariant
            input.data@ == s,
            s == old(input).data@,
            start == old(input).pos,
            start <= input.pos <= s.len(),
            shift <= 38,
            uvarint_scan(s, input.pos as int, value, shift) == uvarint_scan(s, start, 0, 0),
            start < s.len(),
        decreases s.len() - input.pos,
    {
        if input.pos >= input.data.len() {
            return Err(StreamError::Truncated);
        }
        let b = input.data[input.pos];
        input.pos = input.pos + 1;
        if shift < 32 {
            value = value | (((b & 0x7f) as u32) << shift);
        }
        if b & 0x80 == 0 {
            return Ok(Some(value));
        }
        if shift < 32 {
            shift = shift + 7;
        }
    }
}

} // verus!
