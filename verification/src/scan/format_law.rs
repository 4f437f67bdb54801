//! Where the formats put their streams: bytes laid out as zip, gzip, zlib, PNG
//! and JPEG lay them out lead to a candidate where the stream starts.

use crate::cm::transform::be_at;
use crate::outside::crc32_of;
use crate::plan::law::{lemma_stands, stands};
use crate::scan::candidate::{
    inserted, is_chunk, is_idat, is_iend, is_ihdr, is_name, is_png, lead_at, leads, leads_upto,
    lemma_place, place_of, png_info, walked, Found, Head, Info, Lead,
};
use crate::scan::outcome::{after_extra, after_text, gzip_len, zero_from};
use vstd::prelude::*;

verus! {

proof fn lemma_few(s: Seq<u8>, n: nat)
    ensures
        leads_upto(s, n).len() <= n,
    decreases n,
{
    if n > 0 {
        let v = leads_upto(s, (n - 1) as nat);
        lemma_few(s, (n - 1) as nat);
        if let Some(x) = lead_at(s, n - 1) {
            lemma_place(v, x.0, v.len());
        }
    }
}

proof fn lemma_stays(s: Seq<u8>, k: nat, n: nat, x: (int, Lead))
    requires
        k <= n,
        leads_upto(s, k).contains(x),
    ensures
        leads_upto(s, n).contains(x),
    decreases n,
{
    if k < n {
        lemma_stays(s, k, (n - 1) as nat, x);
        let v = leads_upto(s, (n - 1) as nat);
        if let Some(y) = lead_at(s, n - 1) {
            lemma_inserted(v, y, x);
        }
    }
}

proof fn lemma_inserted(v: Seq<(int, Lead)>, y: (int, Lead), x: (int, Lead))
    ensures
        v.contains(x) || x == y ==> inserted(v, y).contains(x),
{
    let k = place_of(v, y.0, v.len());
    lemma_place(v, y.0, v.len());
    let w = inserted(v, y);
    if x == y {
        assert(w[k] == x);
    } else if v.contains(x) {
        let i = choose|i: int| 0 <= i < v.len() && v[i] == x;
        if i < k {
            assert(w[i] == x);
        } else {
            assert(w[i + 1] == x);
        }
    }
}

/// What the bytes at `i` lead to is among the candidates.
proof fn lemma_led(s: Seq<u8>, i: int, x: (int, Lead))
    requires
        0 <= i <= 200_000,
        i + 2 < s.len(),
        lead_at(s, i) == Some(x),
    ensures
        leads(s).contains(x),
{
    lemma_few(s, i as nat);
    lemma_inserted(leads_upto(s, i as nat), x, x);
    lemma_stays(s, (i + 1) as nat, (s.len() - 2) as nat, x);
}

/// The number of two bytes, the lower first.
pub open spec fn two_bytes(s: Seq<u8>, i: int) -> int {
    s[i] as int + 256 * s[i + 1]
}

/// Whether these are the 30 bytes of a zip entry's header that is deflated, with
/// a name and an extra field of these lengths.
pub open spec fn is_zip_header(h: Seq<u8>, name_len: nat, extra_len: nat) -> bool {
    &&& h.len() == 30
    &&& h[0] == 0x50 && h[1] == 0x4b && h[2] == 3 && h[3] == 4
    &&& two_bytes(h, 8) == 8
    &&& two_bytes(h, 26) == name_len
    &&& two_bytes(h, 28) == extra_len
}

/// The body of a zip entry is a candidate, behind the name and the extra field,
/// however long those are.
pub proof fn lemma_zip_found(
    before: Seq<u8>,
    header: Seq<u8>,
    name: Seq<u8>,
    extra: Seq<u8>,
    body: Seq<u8>,
)
    requires
        before.len() <= 200_000,
        is_zip_header(header, name.len(), extra.len()),
        body.len() > 0,
    ensures
        leads(before + header + name + extra + body).contains(
            ((before.len() + 30 + name.len() + extra.len()) as int, Lead::RawDeflate),
        ),
{
    let s = before + header + name + extra + body;
    let i = before.len() as int;
    assert forall|k: int| 0 <= k < 30 implies s[i + k] == #[trigger] header[k] by {}
    assert(s[i] == header[0] && s[i + 1] == header[1] && s[i + 2] == header[2] && s[i + 3]
        == header[3]);
    assert(s[i + 8] == header[8] && s[i + 9] == header[9]);
    assert(s[i + 26] == header[26] && s[i + 27] == header[27] && s[i + 28] == header[28] && s[i + 29]
        == header[29]);
    lemma_led(s, i, ((before.len() + 30 + name.len() + extra.len()) as int, Lead::RawDeflate));
}

/// A gzip member is a candidate where it starts.
pub proof fn lemma_gzip_found(before: Seq<u8>, rest: Seq<u8>)
    requires
        before.len() <= 200_000,
    ensures
        leads(before + seq![0x1fu8, 0x8b, 8] + rest).contains((before.len() as int, Lead::Gzip)),
{
    let s = before + seq![0x1fu8, 0x8b, 8] + rest;
    let i = before.len() as int;
    assert(s[i] == 0x1f && s[i + 1] == 0x8b && s[i + 2] == 8);
    lemma_led(s, i, (i, Lead::Gzip));
}

/// A zlib stream with the largest window, of any level and without a preset
/// dictionary, is a candidate where it starts.
pub proof fn lemma_zlib_found(before: Seq<u8>, level: u8, rest: Seq<u8>)
    requires
        before.len() <= 200_000,
        level == 0x01 || level == 0x5e || level == 0x9c || level == 0xda,
        rest.len() > 0,
    ensures
        leads(before + seq![0x78u8, level] + rest).contains((before.len() as int, Lead::Zlib)),
{
    let s = before + seq![0x78u8, level] + rest;
    let i = before.len() as int;
    assert(s[i] == 0x78 && s[i + 1] == level);
    lemma_led(s, i, (i, Lead::Zlib));
}

/// A JPEG is a candidate where it starts.
pub proof fn lemma_jpeg_found(before: Seq<u8>, rest: Seq<u8>)
    requires
        before.len() <= 200_000,
    ensures
        leads(before + seq![0xffu8, 0xd8, 0xff] + rest).contains((before.len() as int, Lead::Jpeg)),
{
    let s = before + seq![0xffu8, 0xd8, 0xff] + rest;
    let i = before.len() as int;
    assert(s[i] == 0xff && s[i + 1] == 0xd8 && s[i + 2] == 0xff);
    lemma_led(s, i, (i, Lead::Jpeg));
}

/// The four bytes of a number, the highest first.
pub open spec fn four(x: int) -> Seq<u8> {
    seq![
        (x / 0x100_0000 % 256) as u8,
        (x / 0x1_0000 % 256) as u8,
        (x / 0x100 % 256) as u8,
        (x % 256) as u8,
    ]
}

/// A chunk of a PNG: the length of its body, its name, the body, and a checksum of
/// name and body.
pub open spec fn chunk(name: Seq<u8>, body: Seq<u8>) -> Seq<u8> {
    four(body.len() as int) + name + body + four(crc32_of(name + body) as int)
}

/// Chunks one behind the other.
pub open spec fn chunks(v: Seq<(Seq<u8>, Seq<u8>)>) -> Seq<u8>
    decreases v.len(),
{
    if v.len() == 0 {
        Seq::empty()
    } else {
        chunk(v[0].0, v[0].1) + chunks(v.skip(1))
    }
}

/// The names of the chunks that matter: "IHDR", "IDAT" and "IEND".
pub open spec fn ihdr() -> Seq<u8> {
    seq![0x49u8, 0x48, 0x44, 0x52]
}

pub open spec fn idat() -> Seq<u8> {
    seq![0x49u8, 0x44, 0x41, 0x54]
}

pub open spec fn iend() -> Seq<u8> {
    seq![0x49u8, 0x45, 0x4e, 0x44]
}

/// How every PNG starts.
pub open spec fn signature() -> Seq<u8> {
    seq![0x89u8, 0x50, 0x4e, 0x47, 0x0d, 0x0a, 0x1a, 0x0a]
}

/// Image data in chunks.
pub open spec fn data_chunks(parts: Seq<Seq<u8>>) -> Seq<(Seq<u8>, Seq<u8>)> {
    Seq::new(parts.len(), |i: int| (idat(), parts[i]))
}

/// What the header of an image says.
pub open spec fn header(h: Head, compression: u8, filter: u8) -> Seq<u8> {
    four(h.width as int) + four(h.height as int) + seq![
        h.bit_depth,
        h.color_type,
        compression,
        filter,
        h.interlace,
    ]
}

/// A name of four bytes for chunks that say nothing about the run of image data.
pub open spec fn is_other(name: Seq<u8>) -> bool {
    name.len() == 4 && name != ihdr() && name != idat() && name != iend()
}

proof fn lemma_four(s: Seq<u8>, pos: int, x: int)
    requires
        0 <= x <= u32::MAX,
        stands(s, pos, four(x)),
    ensures
        be_at(s, pos) == x,
{
    let b = s.subrange(pos, pos + 4);
    assert(b == four(x));
    assert(b[0] == s[pos] && b[1] == s[pos + 1] && b[2] == s[pos + 2] && b[3] == s[pos + 3]);
}

proof fn lemma_named(s: Seq<u8>, pos: int, name: Seq<u8>)
    requires
        stands(s, pos, name),
        name.len() == 4,
    ensures
        is_name(s, pos, 0x49, 0x48, 0x44, 0x52) == (name == ihdr()),
        is_name(s, pos, 0x49, 0x44, 0x41, 0x54) == (name == idat()),
        is_name(s, pos, 0x49, 0x45, 0x4e, 0x44) == (name == iend()),
{
    let b = s.subrange(pos, pos + 4);
    assert(b == name);
    assert(b[0] == s[pos] && b[1] == s[pos + 1] && b[2] == s[pos + 2] && b[3] == s[pos + 3]);
    if is_name(s, pos, 0x49, 0x48, 0x44, 0x52) {
        assert(name =~= ihdr());
    }
    if is_name(s, pos, 0x49, 0x44, 0x41, 0x54) {
        assert(name =~= idat());
    }
    if is_name(s, pos, 0x49, 0x45, 0x4e, 0x44) {
        assert(name =~= iend());
    }
}

/// What stands at a chunk.
proof fn lemma_chunk(s: Seq<u8>, pos: int, name: Seq<u8>, body: Seq<u8>)
    requires
        0 <= pos,
        name.len() == 4,
        body.len() <= u32::MAX,
        stands(s, pos, chunk(name, body)),
    ensures
        pos + 12 + body.len() <= s.len(),
        be_at(s, pos) == body.len(),
        is_chunk(s, pos),
        is_ihdr(s, pos) == (name == ihdr()),
        is_idat(s, pos) == (name == idat()),
        is_iend(s, pos) == (name == iend()),
        stands(s, pos + 8, body),
{
    let n = body.len() as int;
    let crc = four(crc32_of(name + body) as int);
    lemma_stands(s, pos, four(n) + name + body, crc);
    lemma_stands(s, pos, four(n) + name, body);
    lemma_stands(s, pos, four(n), name);
    lemma_four(s, pos, n);
    lemma_named(s, pos + 4, name);
    assert(s.subrange(pos + 4, pos + 8 + n) =~= name + body);
    lemma_four(s, pos + 8 + n, crc32_of(name + body) as int);
}

/// The walk goes over chunks that say nothing.
proof fn lemma_over_others(s: Seq<u8>, pos: int, v: Seq<(Seq<u8>, Seq<u8>)>, f: Found)
    requires
        0 <= pos,
        stands(s, pos, chunks(v)),
        f.start is None,
        forall|i: int| 0 <= i < v.len() ==> is_other((#[trigger] v[i]).0) && v[i].1.len() <= u32::MAX,
    ensures
        walked(s, pos, f) == walked(s, pos + chunks(v).len(), f),
    decreases v.len(),
{
    if v.len() > 0 {
        let (name, body) = v[0];
        assert(is_other(name));
        lemma_stands(s, pos, chunk(name, body), chunks(v.skip(1)));
        lemma_chunk(s, pos, name, body);
        assert forall|i: int| 0 <= i < v.skip(1).len() implies is_other((#[trigger] v.skip(1)[i]).0)
            && v.skip(1)[i].1.len() <= u32::MAX by {
            assert(v.skip(1)[i] == v[i + 1]);
        }
        assert(chunk(name, body).len() == 12 + body.len());
        lemma_over_others(s, pos + 12 + body.len(), v.skip(1), f);
    }
}

pub open spec fn lens_of(parts: Seq<Seq<u8>>) -> Seq<u32> {
    Seq::new(parts.len(), |i: int| parts[i].len() as u32)
}

/// The walk gathers the run of image data.
proof fn lemma_over_data(s: Seq<u8>, pos: int, parts: Seq<Seq<u8>>, f: Found)
    requires
        0 <= pos,
        stands(s, pos, chunks(data_chunks(parts))),
        f.start is Some,
        forall|i: int| 0 <= i < parts.len() ==> (#[trigger] parts[i]).len() <= u32::MAX,
    ensures
        walked(s, pos, f) == walked(
            s,
            pos + chunks(data_chunks(parts)).len(),
            Found { lens: f.lens + lens_of(parts), ..f },
        ),
    decreases parts.len(),
{
    let v = data_chunks(parts);
    if parts.len() == 0 {
        assert(f.lens + lens_of(parts) =~= f.lens);
    } else {
        let body = parts[0];
        let rest = parts.skip(1);
        assert(v[0] == (idat(), body));
        assert(v.skip(1) =~= data_chunks(rest));
        lemma_stands(s, pos, chunk(idat(), body), chunks(v.skip(1)));
        lemma_chunk(s, pos, idat(), body);
        assert forall|i: int| 0 <= i < rest.len() implies (#[trigger] rest[i]).len()
            <= u32::MAX by {
            assert(rest[i] == parts[i + 1]);
        }
        assert(chunk(idat(), body).len() == 12 + body.len());
        let g = Found { lens: f.lens.push(body.len() as u32), ..f };
        lemma_over_data(s, pos + 12 + body.len(), rest, g);
        assert(g.lens + lens_of(rest) =~= f.lens + lens_of(parts));
    }
}

/// A PNG after its signature: the header, chunks that say nothing, the image data
/// in chunks, and a chunk of another name.
#[verifier::opaque]
pub open spec fn png_chunks(
    h: Head,
    others: Seq<(Seq<u8>, Seq<u8>)>,
    parts: Seq<Seq<u8>>,
    last: (Seq<u8>, Seq<u8>),
) -> Seq<u8> {
    chunk(ihdr(), header(h, 0, 0)) + chunks(others) + chunks(data_chunks(parts)) + chunk(
        last.0,
        last.1,
    )
}

proof fn lemma_png_walked(
    s: Seq<u8>,
    h: Head,
    others: Seq<(Seq<u8>, Seq<u8>)>,
    parts: Seq<Seq<u8>>,
    last: (Seq<u8>, Seq<u8>),
)
    requires
        stands(s, 8, png_chunks(h, others, parts, last)),
        h.width > 0,
        h.height > 0,
        parts.len() > 0,
        last.0.len() == 4,
        last.0 != idat(),
        last.1.len() <= u32::MAX,
        forall|i: int|
            0 <= i < others.len() ==> is_other((#[trigger] others[i]).0) && others[i].1.len()
                <= u32::MAX,
        forall|i: int| 0 <= i < parts.len() ==> (#[trigger] parts[i]).len() <= u32::MAX,
    ensures
        png_info(s) == Some(
            (
                (33 + chunks(others).len()) as int,
                Info { head: h, chunk_lens: lens_of(parts) },
            ),
        ),
{
    reveal(png_chunks);
    let first = chunk(ihdr(), header(h, 0, 0));
    let run = chunks(data_chunks(parts));
    lemma_stands(s, 8, first + chunks(others) + run, chunk(last.0, last.1));
    lemma_stands(s, 8, first + chunks(others), run);
    lemma_stands(s, 8, first, chunks(others));
    assert(first.len() == 25);
    let f0 = Found { head: None, start: None, lens: Seq::empty() };
    let f1 = Found { head: Some(h), ..f0 };
    lemma_head_walked(s, h);
    lemma_over_others(s, 33, others, f1);
    lemma_run_walked(s, 33 + chunks(others).len() as int, parts, last, f1);
}

proof fn lemma_head_walked(s: Seq<u8>, h: Head)
    requires
        stands(s, 8, chunk(ihdr(), header(h, 0, 0))),
    ensures
        ({
            let f0 = Found { head: None, start: None, lens: Seq::empty() };
            walked(s, 8, f0) == walked(s, 33, Found { head: Some(h), ..f0 })
        }),
{
    lemma_chunk(s, 8, ihdr(), header(h, 0, 0));
    assert(ihdr()[1] != idat()[1] && ihdr()[1] != iend()[1]);
    let tail = seq![h.bit_depth, h.color_type, 0u8, 0u8, h.interlace];
    lemma_stands(s, 16, four(h.width as int) + four(h.height as int), tail);
    lemma_stands(s, 16, four(h.width as int), four(h.height as int));
    lemma_four(s, 16, h.width as int);
    lemma_four(s, 20, h.height as int);
    let b = s.subrange(24, 29);
    assert(b == tail);
    assert(b[0] == s[24] && b[1] == s[25] && b[4] == s[28]);
    assert(header(h, 0, 0).len() == 13);
}

proof fn lemma_run_walked(
    s: Seq<u8>,
    p: int,
    parts: Seq<Seq<u8>>,
    last: (Seq<u8>, Seq<u8>),
    f1: Found,
)
    requires
        0 <= p,
        f1.start is None,
        f1.lens == Seq::<u32>::empty(),
        stands(s, p, chunks(data_chunks(parts))),
        stands(s, p + chunks(data_chunks(parts)).len(), chunk(last.0, last.1)),
        parts.len() > 0,
        last.0.len() == 4,
        last.0 != idat(),
        last.1.len() <= u32::MAX,
        forall|i: int| 0 <= i < parts.len() ==> (#[trigger] parts[i]).len() <= u32::MAX,
    ensures
        walked(s, p, f1) == Some(Found { start: Some(p), lens: lens_of(parts), ..f1 }),
{
    let run = chunks(data_chunks(parts));
    let rest = parts.skip(1);
    let v = data_chunks(parts);
    assert(v[0] == (idat(), parts[0]));
    assert(v.skip(1) =~= data_chunks(rest));
    lemma_stands(s, p, chunk(idat(), parts[0]), chunks(v.skip(1)));
    lemma_chunk(s, p, idat(), parts[0]);
    assert(chunk(idat(), parts[0]).len() == 12 + parts[0].len());
    let f2 = Found { start: Some(p), lens: Seq::empty().push(parts[0].len() as u32), ..f1 };
    assert(f1.lens.push(parts[0].len() as u32) =~= f2.lens);
    assert(walked(s, p, f1) == walked(s, p + 12 + parts[0].len(), f2));
    assert forall|i: int| 0 <= i < rest.len() implies (#[trigger] rest[i]).len() <= u32::MAX by {
        assert(rest[i] == parts[i + 1]);
    }
    lemma_over_data(s, p + 12 + parts[0].len(), rest, f2);
    assert(f2.lens + lens_of(rest) =~= lens_of(parts));
    let f3 = Found { lens: lens_of(parts), ..f2 };
    lemma_chunk(s, p + run.len(), last.0, last.1);
    assert(walked(s, p + run.len(), f3) == Some(f3));
}

/// The image data of a PNG is a candidate where its first chunk starts, with what
/// the header says and the lengths of its chunks.
pub proof fn lemma_png_found(
    before: Seq<u8>,
    h: Head,
    others: Seq<(Seq<u8>, Seq<u8>)>,
    parts: Seq<Seq<u8>>,
    last: (Seq<u8>, Seq<u8>),
    rest: Seq<u8>,
)
    requires
        before.len() <= 200_000,
        h.width > 0,
        h.height > 0,
        parts.len() > 0,
        last.0.len() == 4,
        last.0 != idat(),
        last.1.len() <= u32::MAX,
        forall|i: int|
            0 <= i < others.len() ==> is_other((#[trigger] others[i]).0) && others[i].1.len()
                <= u32::MAX,
        forall|i: int| 0 <= i < parts.len() ==> (#[trigger] parts[i]).len() <= u32::MAX,
    ensures
        leads(before + signature() + png_chunks(h, others, parts, last) + rest).contains(
            (
                (before.len() + 33 + chunks(others).len()) as int,
                Lead::Png(Info { head: h, chunk_lens: lens_of(parts) }),
            ),
        ),
{
    let body = png_chunks(h, others, parts, last);
    let t = signature() + body + rest;
    assert(signature().len() == 8);
    assert(t.subrange(8, (8 + body.len()) as int) =~= body);
    lemma_png_walked(t, h, others, parts, last);
    assert(signature() + (body + rest) =~= t);
    lemma_png_led(
        before,
        body + rest,
        (33 + chunks(others).len()) as int,
        Info { head: h, chunk_lens: lens_of(parts) },
    );
    assert(before + signature() + (body + rest) =~= before + signature() + body + rest);
}

/// What the chunks of a PNG say leads to a candidate.
proof fn lemma_png_led(before: Seq<u8>, body: Seq<u8>, off: int, info: Info)
    requires
        before.len() <= 200_000,
        png_info(signature() + body) == Some((off, info)),
    ensures
        leads(before + signature() + body).contains((before.len() + off, Lead::Png(info))),
{
    let s = before + signature() + body;
    let i = before.len() as int;
    assert(s.skip(i) =~= signature() + body);
    assert(s[i] == 0x89 && s[i + 1] == 0x50 && s[i + 2] == 0x4e && s[i + 3] == 0x47 && s[i + 4]
        == 0x0d && s[i + 5] == 0x0a && s[i + 6] == 0x1a && s[i + 7] == 0x0a);
    assert(is_png(s, i));
    lemma_led(s, i, (before.len() + off, Lead::Png(info)));
}

/// The optional parts of a gzip header.
pub struct GzipFields {
    /// The extra field.
    pub extra: Option<Seq<u8>>,
    /// The name of the file.
    pub name: Option<Seq<u8>>,
    pub comment: Option<Seq<u8>>,
    /// The two bytes of a checksum of the header.
    pub check: Option<(u8, u8)>,
}

/// A text and the zero that ends it, if there is one.
pub open spec fn zero_ended(t: Option<Seq<u8>>) -> Seq<u8> {
    match t {
        Some(s) => s.push(0),
        None => Seq::empty(),
    }
}

/// A field behind its length, the lower byte first, if there is one.
pub open spec fn counted(t: Option<Seq<u8>>) -> Seq<u8> {
    match t {
        Some(s) => seq![(s.len() % 256) as u8, (s.len() / 256) as u8] + s,
        None => Seq::empty(),
    }
}

pub open spec fn check_bytes(c: Option<(u8, u8)>) -> Seq<u8> {
    match c {
        Some((a, b)) => seq![a, b],
        None => Seq::empty(),
    }
}

/// The flags of a gzip header say which fields follow: bit 1 for the checksum, 2
/// for the extra field, 3 for the name and 4 for the comment.
pub open spec fn flags_say(flags: u8, f: GzipFields) -> bool {
    &&& (flags / 2 % 2 == 1) == (f.check is Some)
    &&& (flags / 4 % 2 == 1) == (f.extra is Some)
    &&& (flags / 8 % 2 == 1) == (f.name is Some)
    &&& (flags / 16 % 2 == 1) == (f.comment is Some)
}

/// Whether the fields are ones that a header can have.
pub open spec fn are_fields(f: GzipFields) -> bool {
    &&& f.extra matches Some(s) ==> s.len() < 65536
    &&& f.name matches Some(s) ==> !s.contains(0)
    &&& f.comment matches Some(s) ==> !s.contains(0)
}

proof fn lemma_zero_at(g: Seq<u8>, p: int, z: int)
    requires
        0 <= p <= z < g.len(),
        g[z] == 0,
        forall|i: int| p <= i < z ==> g[i] != 0,
    ensures
        zero_from(g, p) == Some(z),
    decreases z - p,
{
    if p < z {
        lemma_zero_at(g, p + 1, z);
    }
}

proof fn lemma_text_skipped(g: Seq<u8>, p: int, t: Option<Seq<u8>>)
    requires
        stands(g, p, zero_ended(t)),
        t matches Some(s) ==> !s.contains(0),
    ensures
        after_text(g, p, t is Some) == Some(p + zero_ended(t).len()),
{
    if let Some(s) = t {
        let b = g.subrange(p, p + s.len() + 1);
        assert(b == s.push(0));
        let z = p + s.len();
        assert(b[s.len() as int] == g[z]);
        assert forall|i: int| p <= i < z implies g[i] != 0 by {
            assert(b[i - p] == g[i]);
            assert(s[i - p] == g[i]);
            assert(s.contains(s[i - p]));
        }
        lemma_zero_at(g, p, z);
    }
}

/// The header of a gzip member is the ten bytes it starts with and the fields that
/// its flags say, and the stream starts behind them.
pub proof fn lemma_gzip_header(start: Seq<u8>, f: GzipFields, body: Seq<u8>)
    requires
        start.len() == 10,
        flags_say(start[3], f),
        are_fields(f),
        body.len() > 0,
    ensures
        ({
            let head = start + counted(f.extra) + zero_ended(f.name) + zero_ended(f.comment)
                + check_bytes(f.check);
            gzip_len(head + body) == Some(head.len() as int)
        }),
{
    let e = counted(f.extra);
    let n = zero_ended(f.name);
    let c = zero_ended(f.comment);
    let k = check_bytes(f.check);
    let head = start + e + n + c + k;
    let g = head + body;
    assert(stands(g, 0, head)) by {
        assert(g.subrange(0, head.len() as int) =~= head);
    }
    lemma_stands(g, 0, start + e + n + c, k);
    lemma_stands(g, 0, start + e + n, c);
    lemma_stands(g, 0, start + e, n);
    lemma_stands(g, 0, start, e);
    assert(g[3] == start[3]);
    lemma_gzip_at(g, f);
}

/// The same of a member whose fields stand where they belong.
proof fn lemma_gzip_at(g: Seq<u8>, f: GzipFields)
    requires
        g.len() >= 10,
        flags_say(g[3], f),
        are_fields(f),
        stands(g, 10, counted(f.extra)),
        stands(g, 10 + counted(f.extra).len() as int, zero_ended(f.name)),
        stands(
            g,
            10 + counted(f.extra).len() + zero_ended(f.name).len() as int,
            zero_ended(f.comment),
        ),
        10 + counted(f.extra).len() + zero_ended(f.name).len() + zero_ended(f.comment).len()
            + check_bytes(f.check).len() < g.len(),
    ensures
        gzip_len(g) == Some(
            10 + counted(f.extra).len() + zero_ended(f.name).len() + zero_ended(f.comment).len()
                + check_bytes(f.check).len() as int,
        ),
{
    let p1 = 10 + counted(f.extra).len() as int;
    let p2 = p1 + zero_ended(f.name).len();
    lemma_extra_skipped(g, f.extra);
    lemma_text_skipped(g, p1, f.name);
    lemma_text_skipped(g, p2, f.comment);
}

proof fn lemma_extra_skipped(g: Seq<u8>, t: Option<Seq<u8>>)
    requires
        stands(g, 10, counted(t)),
        t matches Some(s) ==> s.len() < 65536,
    ensures
        after_extra(g, 10, t is Some) == Some(10 + counted(t).len() as int),
{
    if let Some(s) = t {
        let e = counted(t);
        let b = g.subrange(10, 10 + e.len() as int);
        assert(b == e);
        assert(b[0] == g[10] && b[1] == g[11]);
        assert(e[0] == (s.len() % 256) as u8 && e[1] == (s.len() / 256) as u8);
    }
}

} // verus!
