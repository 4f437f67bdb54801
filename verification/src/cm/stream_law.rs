//! What a stream says of itself.

use crate::cm::codec::{bit_of, bits_of, encoded, header_model, header_of, stream_of, whole};
use crate::cm::config::bits_for;
use crate::cm::stride::{lemma_stride_range, stride_of};
use crate::cm::transform::{e8e9, is_x86};
use crate::error::Error;
use crate::util::varint::{lemma_varint_read, varint_at, varint_bytes};
use vstd::prelude::*;

verus! {

/// A stream starts with its version, 3, the sizes of its tables, and whether the
/// data is code; the distance of its records, which is the one that was given or
/// else the one that was found; the size of a pixel; and the length.
pub proof fn lemma_stream_head(data: Seq<u8>, hint: u32, bpp: u32, cap: u64) -> (ends: (
    int,
    int,
    int,
))
    requires
        data.len() <= u64::MAX,
    ensures
        ({
            let s = stream_of(data, hint, bpp, cap);
            let code = hint == 0 && is_x86(data);
            let stride = if hint > 0 {
                hint
            } else if code {
                stride_of(e8e9(data, true)) as u32
            } else {
                stride_of(data) as u32
            };
            let pixel = if hint > 0 {
                bpp
            } else {
                0
            };
            &&& s.len() >= 7
            &&& s[0] == 3
            &&& s[1] == bits_for(data.len(), cap as nat).0 as u8
            &&& s[2] == bits_for(data.len(), cap as nat).1 as u8
            &&& (s[3] == 1) == code
            &&& !code ==> s[3] == 0
            &&& varint_at(s, 4) == Ok::<(u64, int), Error>((stride as u64, ends.0))
            &&& varint_at(s, ends.0) == Ok::<(u64, int), Error>((pixel as u64, ends.1))
            &&& varint_at(s, ends.1) == Ok::<(u64, int), Error>((data.len() as u64, ends.2))
            &&& data.len() == 0 ==> s.len() == ends.2
        }),
{
    let s = stream_of(data, hint, bpp, cap);
    let h = header_of(data, hint, bpp, cap);
    let a = varint_bytes(h.stride as nat);
    let b = varint_bytes(h.bpp as nat);
    let c = varint_bytes(h.len as nat);
    let p = 4 + a.len() as int;
    let q = p + b.len();
    let e = q + c.len();
    assert(s.subrange(4, p) =~= a);
    assert(s.subrange(p, q) =~= b);
    assert(s.subrange(q, e) =~= c);
    lemma_varint_read(s, 4, h.stride as u64);
    lemma_varint_read(s, p, h.bpp as u64);
    lemma_varint_read(s, q, h.len);
    lemma_stride_range(data);
    lemma_stride_range(e8e9(data, true));
    lemma_varint_some(h.stride as nat);
    lemma_varint_some(h.bpp as nat);
    lemma_varint_some(h.len as nat);
    (p, q, e)
}

proof fn lemma_varint_some(v: nat)
    ensures
        varint_bytes(v).len() >= 1,
    decreases v,
{
}

/// What is coded, behind the head, are the bits of the data, with absolute branch
/// targets where it is code.
pub proof fn lemma_stream_body(data: Seq<u8>, hint: u32, bpp: u32, cap: u64)
    requires
        data.len() > 0,
    ensures
        ({
            let s = stream_of(data, hint, bpp, cap);
            let m = header_model(header_of(data, hint, bpp, cap));
            let input = if hint == 0 && is_x86(data) {
                e8e9(data, true)
            } else {
                data
            };
            encoded(m, whole(), bits_of(input)).is_suffix_of(s)
        }),
{
    let s = stream_of(data, hint, bpp, cap);
    let m = header_model(header_of(data, hint, bpp, cap));
    let input = if hint == 0 && is_x86(data) {
        e8e9(data, true)
    } else {
        data
    };
    let code = encoded(m, whole(), bits_of(input));
    assert(s.subrange(s.len() - code.len(), s.len() as int) =~= code);
}

/// The bits of a byte are coded from the highest to the lowest.
pub proof fn lemma_bits_say(b: u8)
    ensures
        128 * b2i(bit_of(b, 0)) + 64 * b2i(bit_of(b, 1)) + 32 * b2i(bit_of(b, 2)) + 16 * b2i(
            bit_of(b, 3),
        ) + 8 * b2i(bit_of(b, 4)) + 4 * b2i(bit_of(b, 5)) + 2 * b2i(bit_of(b, 6)) + b2i(
            bit_of(b, 7),
        ) == b,
{
    let x = b as int;
    assert(b2i(bit_of(b, 0)) == x / 128);
    assert(b2i(bit_of(b, 1)) == x / 64 - 2 * (x / 128));
    assert(b2i(bit_of(b, 2)) == x / 32 - 2 * (x / 64));
    assert(b2i(bit_of(b, 3)) == x / 16 - 2 * (x / 32));
    assert(b2i(bit_of(b, 4)) == x / 8 - 2 * (x / 16));
    assert(b2i(bit_of(b, 5)) == x / 4 - 2 * (x / 8));
    assert(b2i(bit_of(b, 6)) == x / 2 - 2 * (x / 4));
    assert(b2i(bit_of(b, 7)) == x - 2 * (x / 2));
}

/// One for true.
pub open spec fn b2i(b: bool) -> int {
    if b {
        1
    } else {
        0
    }
}

} // verus!
