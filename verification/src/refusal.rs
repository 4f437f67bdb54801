//! Codecs that may fail for want of memory. That they failed cannot be told from
//! what they were asked. But it can be said that they were asked about these very
//! bytes, and returned an error: nothing else makes these predicates hold.

use crate::outside::{
    deflate, deflate_of, inflate, jpeg_of, lepton_decode, lepton_encode, lepton_of, lzma_plain,
    lzma_plain_of, split_of, zstd_block, zstd_block_of, zstd_plain, zstd_plain_of, zstd_stream,
    zstd_stream_of, zstd_text, zstd_text_of, Inflated,
};
use vstd::prelude::*;

verus! {

fn call_one<A, R, F: Fn(A) -> R>(f: F, a: A) -> (r: R)
    requires
        call_requires(f, (a,)),
    ensures
        call_ensures(f, (a,), r),
{
    f(a)
}

fn call_two<A, B, R, F: Fn(A, B) -> R>(f: F, a: A, b: B) -> (r: R)
    requires
        call_requires(f, (a, b)),
    ensures
        call_ensures(f, (a, b), r),
{
    f(a, b)
}

fn call_four<A, B, C, D, R, F: Fn(A, B, C, D) -> R>(f: F, a: A, b: B, c: C, d: D) -> (r: R)
    requires
        call_requires(f, (a, b, c, d)),
    ensures
        call_ensures(f, (a, b, c, d), r),
{
    f(a, b, c, d)
}

/// Whether `zstd::stream::decode_all` returned an error for these frames.
pub closed spec fn text_refused(frames: Seq<u8>) -> bool {
    exists|s: &[u8], r: Result<Vec<u8>, std::io::Error>|
        s@ == frames && r is Err && #[trigger] call_ensures(zstd_text, (s,), r)
}

/// Whether `zstd::bulk::compress` returned an error for this data.
pub closed spec fn block_refused(data: Seq<u8>, level: i32) -> bool {
    exists|s: &[u8], r: Result<Vec<u8>, std::io::Error>|
        s@ == data && r is Err && #[trigger] call_ensures(zstd_block, (s, level), r)
}

/// Whether the encoder of zstd streams returned an error for this data.
pub closed spec fn stream_refused(
    data: Seq<u8>,
    level: i32,
    long_distance: bool,
    window_log: u32,
) -> bool {
    exists|s: &[u8], r: Result<Vec<u8>, std::io::Error>|
        s@ == data && r is Err && #[trigger] call_ensures(
            zstd_stream,
            (s, level, long_distance, window_log),
            r,
        )
}

/// Whether the decoder of zstd streams returned an error for these bytes.
pub closed spec fn plain_refused(comp: Seq<u8>, window_log: u32) -> bool {
    exists|s: &[u8], r: Result<Vec<u8>, std::io::Error>|
        s@ == comp && r is Err && #[trigger] call_ensures(zstd_plain, (s, window_log), r)
}

/// Whether the reader of LZMA returned an error for these bytes.
pub closed spec fn lzma_refused(comp: Seq<u8>, mem_limit_kb: u32) -> bool {
    exists|s: &[u8], r: Result<Vec<u8>, std::io::Error>|
        s@ == comp && r is Err && #[trigger] call_ensures(lzma_plain, (s, mem_limit_kb), r)
}

/// Whether taking apart the stream that these bytes start with ended in want of
/// memory.
pub closed spec fn split_refused(
    data: Seq<u8>,
    max_chain_length: u32,
    plain_text_limit: usize,
    verify: bool,
) -> bool {
    exists|s: &[u8], r: Result<Option<Inflated>, preflate_rs::PreflateError>|
        s@ == data && r is Err && #[trigger] call_ensures(
            inflate,
            (s, max_chain_length, plain_text_limit, verify),
            r,
        )
}

/// Whether recreating a stream from this text and these corrections ended in
/// want of memory.
pub closed spec fn deflate_refused(plain: Seq<u8>, corrections: Seq<u8>) -> bool {
    exists|s: &[u8], t: &[u8], r: Result<Option<Vec<u8>>, preflate_rs::PreflateError>|
        s@ == plain && t@ == corrections && r is Err && #[trigger] call_ensures(
            deflate,
            (s, t),
            r,
        )
}

/// Whether encoding this JPEG ended in want of memory.
pub closed spec fn lepton_refused(jpeg: Seq<u8>) -> bool {
    exists|s: &[u8], r: Result<Option<Vec<u8>>, lepton_jpeg::LeptonError>|
        s@ == jpeg && r is Err && #[trigger] call_ensures(lepton_encode, (s,), r)
}

/// Whether decoding a JPEG from these bytes ended in want of memory.
pub closed spec fn jpeg_refused(lepton: Seq<u8>) -> bool {
    exists|s: &[u8], r: Result<Option<Vec<u8>>, lepton_jpeg::LeptonError>|
        s@ == lepton && r is Err && #[trigger] call_ensures(lepton_decode, (s,), r)
}

/// Whether recreating a stream or decoding a JPEG has ended in want of memory.
pub open spec fn rebuild_starved() -> bool {
    ||| exists|plain: Seq<u8>, corrections: Seq<u8>| deflate_refused(plain, corrections)
    ||| exists|lepton: Seq<u8>| jpeg_refused(lepton)
}

/// Whether taking a stream apart, encoding a JPEG or estimating how small rows
/// get has ended in want of memory.
pub open spec fn scan_starved() -> bool {
    ||| exists|data: Seq<u8>, a: u32, b: usize, c: bool| split_refused(data, a, b, c)
    ||| exists|jpeg: Seq<u8>| lepton_refused(jpeg)
    ||| exists|data: Seq<u8>, level: i32| block_refused(data, level)
}

/// Frames are refused only where `zstd_text` was called on them and returned an
/// error.
pub(crate) proof fn lemma_text_asked(frames: Seq<u8>)
    requires
        text_refused(frames),
    ensures
        exists|s: &[u8], r: Result<Vec<u8>, std::io::Error>|
            s@ == frames && r is Err && #[trigger] call_ensures(zstd_text, (s,), r),
{
}

/// Data are refused only where a compressor of zstd was called on them with these
/// settings and returned an error.
pub(crate) proof fn lemma_zstd_asked(data: Seq<u8>, level: i32, long_distance: bool, log: u32)
    ensures
        block_refused(data, level) ==> exists|s: &[u8], r: Result<Vec<u8>, std::io::Error>|
            s@ == data && r is Err && #[trigger] call_ensures(zstd_block, (s, level), r),
        stream_refused(data, level, long_distance, log) ==> exists|
            s: &[u8],
            r: Result<Vec<u8>, std::io::Error>,
        |
            s@ == data && r is Err && #[trigger] call_ensures(
                zstd_stream,
                (s, level, long_distance, log),
                r,
            ),
{
}

/// Bytes are refused only where a reader of zstd or of LZMA was called on them
/// with this limit and returned an error.
pub(crate) proof fn lemma_reader_asked(comp: Seq<u8>, limit: u32)
    ensures
        plain_refused(comp, limit) ==> exists|s: &[u8], r: Result<Vec<u8>, std::io::Error>|
            s@ == comp && r is Err && #[trigger] call_ensures(zstd_plain, (s, limit), r),
        lzma_refused(comp, limit) ==> exists|s: &[u8], r: Result<Vec<u8>, std::io::Error>|
            s@ == comp && r is Err && #[trigger] call_ensures(lzma_plain, (s, limit), r),
{
}

/// A stream is refused only where `inflate` was called on it, or `deflate` on what
/// it was taken apart into, and returned an error.
pub(crate) proof fn lemma_split_asked(
    data: Seq<u8>,
    chain: u32,
    limit: usize,
    verify: bool,
    corrections: Seq<u8>,
)
    ensures
        split_refused(data, chain, limit, verify) ==> exists|
            s: &[u8],
            r: Result<Option<Inflated>, preflate_rs::PreflateError>,
        |
            s@ == data && r is Err && #[trigger] call_ensures(
                inflate,
                (s, chain, limit, verify),
                r,
            ),
        deflate_refused(data, corrections) ==> exists|
            s: &[u8],
            t: &[u8],
            r: Result<Option<Vec<u8>>, preflate_rs::PreflateError>,
        |
            s@ == data && t@ == corrections && r is Err && #[trigger] call_ensures(
                deflate,
                (s, t),
                r,
            ),
{
}

/// A picture is refused only where the encoder was called on it, or the decoder on
/// what the encoder made, and returned an error.
pub(crate) proof fn lemma_jpeg_asked(bytes: Seq<u8>)
    ensures
        lepton_refused(bytes) ==> exists|
            s: &[u8],
            r: Result<Option<Vec<u8>>, lepton_jpeg::LeptonError>,
        |
            s@ == bytes && r is Err && #[trigger] call_ensures(lepton_encode, (s,), r),
        jpeg_refused(bytes) ==> exists|
            s: &[u8],
            r: Result<Option<Vec<u8>>, lepton_jpeg::LeptonError>,
        |
            s@ == bytes && r is Err && #[trigger] call_ensures(lepton_decode, (s,), r),
{
}

/// Decodes frames.
pub(crate) fn ask_text(frames: &[u8]) -> (r: Result<Vec<u8>, std::io::Error>)
    ensures
        match r {
            Ok(v) => zstd_text_of(frames@) == Some(v@),
            Err(_) => text_refused(frames@),
        },
{
    let r: Result<Vec<u8>, std::io::Error> = call_one(zstd_text, frames);
    assert(call_ensures(zstd_text, (frames,), r));
    r
}

/// Compresses into a frame.
pub(crate) fn ask_block(data: &[u8], level: i32) -> (r: Result<Vec<u8>, std::io::Error>)
    requires
        1 <= level <= 19,
    ensures
        match r {
            Ok(v) => zstd_block_of(data@, level) == Some(v@) && zstd_text_of(v@) == Some(data@),
            Err(_) => block_refused(data@, level),
        },
{
    let r: Result<Vec<u8>, std::io::Error> = call_two(zstd_block, data, level);
    assert(call_ensures(zstd_block, (data, level), r));
    r
}

/// Compresses into a stream.
pub(crate) fn ask_stream(data: &[u8], level: i32, long_distance: bool, window_log: u32) -> (r:
    Result<Vec<u8>, std::io::Error>)
    ensures
        match r {
            Ok(v) => zstd_stream_of(data@, level, long_distance, window_log) == Some(v@),
            Err(_) => stream_refused(data@, level, long_distance, window_log),
        },
{
    let r: Result<Vec<u8>, std::io::Error> =
        call_four(zstd_stream, data, level, long_distance, window_log);
    assert(call_ensures(zstd_stream, (data, level, long_distance, window_log), r));
    r
}

/// Decodes a stream.
pub(crate) fn ask_plain(comp: &[u8], window_log: u32) -> (r: Result<Vec<u8>, std::io::Error>)
    ensures
        match r {
            Ok(v) => zstd_plain_of(comp@, window_log) == Some(v@),
            Err(_) => plain_refused(comp@, window_log),
        },
{
    let r: Result<Vec<u8>, std::io::Error> = call_two(zstd_plain, comp, window_log);
    assert(call_ensures(zstd_plain, (comp, window_log), r));
    r
}

/// Reads LZMA.
pub(crate) fn ask_lzma(comp: &[u8], mem_limit_kb: u32) -> (r: Result<Vec<u8>, std::io::Error>)
    ensures
        match r {
            Ok(v) => lzma_plain_of(comp@, mem_limit_kb) == Some(v@),
            Err(_) => lzma_refused(comp@, mem_limit_kb),
        },
{
    let r: Result<Vec<u8>, std::io::Error> = call_two(lzma_plain, comp, mem_limit_kb);
    assert(call_ensures(lzma_plain, (comp, mem_limit_kb), r));
    r
}

/// Takes a deflate stream apart.
pub(crate) fn ask_inflate(
    data: &[u8],
    max_chain_length: u32,
    plain_text_limit: usize,
    verify: bool,
) -> (r: Result<Option<Inflated>, preflate_rs::PreflateError>)
    requires
        plain_text_limit <= 0x4000_0000,
    ensures
        r matches Ok(Some(x)) ==> split_of(data@, max_chain_length, plain_text_limit, verify)
            == Some((x.plain@, x.corrections@, x.size as int)),
        r matches Ok(Some(x)) ==> x.size <= data@.len(),
        r matches Ok(Some(x)) ==> verify ==> deflate_of(x.plain@, x.corrections@) == Some(
            data@.take(x.size as int),
        ),
        r matches Ok(None) ==> split_of(data@, max_chain_length, plain_text_limit, verify) is None,
        r is Err ==> split_refused(data@, max_chain_length, plain_text_limit, verify),
{
    let r: Result<Option<Inflated>, preflate_rs::PreflateError> =
        call_four(inflate, data, max_chain_length, plain_text_limit, verify);
    assert(call_ensures(inflate, (data, max_chain_length, plain_text_limit, verify), r));
    r
}

/// Recreates a deflate stream.
pub(crate) fn ask_deflate(plain: &[u8], corrections: &[u8]) -> (r: Result<
    Option<Vec<u8>>,
    preflate_rs::PreflateError,
>)
    ensures
        r matches Ok(Some(v)) ==> deflate_of(plain@, corrections@) == Some(v@),
        r matches Ok(None) ==> deflate_of(plain@, corrections@) is None,
        r is Err ==> deflate_refused(plain@, corrections@),
{
    let r: Result<Option<Vec<u8>>, preflate_rs::PreflateError> =
        call_two(deflate, plain, corrections);
    assert(call_ensures(deflate, (plain, corrections), r));
    r
}

/// Encodes a JPEG.
pub(crate) fn ask_lepton(jpeg: &[u8]) -> (r: Result<Option<Vec<u8>>, lepton_jpeg::LeptonError>)
    ensures
        r matches Ok(Some(v)) ==> lepton_of(jpeg@) == Some(v@),
        r matches Ok(Some(v)) ==> jpeg_of(v@) == Some(jpeg@),
        r matches Ok(None) ==> lepton_of(jpeg@) is None,
        r is Err ==> lepton_refused(jpeg@),
{
    let r: Result<Option<Vec<u8>>, lepton_jpeg::LeptonError> = call_one(lepton_encode, jpeg);
    assert(call_ensures(lepton_encode, (jpeg,), r));
    r
}

/// Decodes a JPEG.
pub(crate) fn ask_jpeg(lepton: &[u8]) -> (r: Result<Option<Vec<u8>>, lepton_jpeg::LeptonError>)
    ensures
        r matches Ok(Some(v)) ==> jpeg_of(lepton@) == Some(v@),
        r matches Ok(None) ==> jpeg_of(lepton@) is None,
        r is Err ==> jpeg_refused(lepton@),
{
    let r: Result<Option<Vec<u8>>, lepton_jpeg::LeptonError> = call_one(lepton_decode, lepton);
    assert(call_ensures(lepton_decode, (lepton,), r));
    r
}

} // verus!
