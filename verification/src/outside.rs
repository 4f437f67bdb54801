//! The codecs and checksums that other crates provide. What is said of them
//! here is believed, not proved.
//!
//! What a codec gives is a function of what was handed in, and has a name. Most
//! can also fail for want of memory. Where that cannot be told from another
//! failure, a failure says nothing.

use vstd::prelude::*;
use vstd::utf8::{decode_utf8, valid_utf8};

verus! {

#[verifier::external_type_specification]
#[verifier::external_body]
pub struct ExPreflateError(preflate_rs::PreflateError);

#[verifier::external_type_specification]
#[verifier::external_body]
pub struct ExLeptonError(lepton_jpeg::LeptonError);

#[verifier::external_type_specification]
#[verifier::external_body]
pub struct ExIoError(std::io::Error);

/// One bit of a CRC-32, under the reflected IEEE polynomial.
pub open spec fn crc_shift(c: u32) -> u32 {
    if c & 1 == 1 {
        (c >> 1) ^ 0xEDB8_8320
    } else {
        c >> 1
    }
}

pub open spec fn crc_byte(c: u32, b: u8) -> u32 {
    crc_shift(
        crc_shift(
            crc_shift(
                crc_shift(crc_shift(crc_shift(crc_shift(crc_shift(c ^ (b as u32)))))),
            ),
        ),
    )
}

/// The register of a CRC-32 after `s`, which starts with all bits set.
pub open spec fn crc_register(s: Seq<u8>) -> u32
    decreases s.len(),
{
    if s.len() == 0 {
        0xffff_ffff
    } else {
        crc_byte(crc_register(s.drop_last()), s.last())
    }
}

/// The CRC-32 of `s`, as PNG and gzip have it.
#[verifier::opaque]
pub open spec fn crc32_of(s: Seq<u8>) -> u32 {
    crc_register(s) ^ 0xffff_ffff
}

/// `crc32fast::hash`: the IEEE CRC-32 of the bytes.
#[verifier::external_body]
pub(crate) fn crc32(data: &[u8]) -> (r: u32)
    ensures
        r == crc32_of(data@),
{
    crc32fast::hash(data)
}

/// What `xxhash_rust::xxh3::xxh3_64` gives.
pub uninterp spec fn xxh3_of(data: Seq<u8>) -> u64;

/// `xxhash_rust::xxh3::xxh3_64`: a hash that depends on the bytes alone.
#[verifier::external_body]
pub(crate) fn xxh3_64(data: &[u8]) -> (r: u64)
    ensures
        r == xxh3_of(data@),
{
    xxhash_rust::xxh3::xxh3_64(data)
}

/// A deflate stream taken apart.
pub struct Inflated {
    /// The text that was compressed.
    pub plain: Vec<u8>,
    /// What recreates the stream from the text.
    pub corrections: Vec<u8>,
    /// The bytes of the stream.
    pub size: usize,
}

/// What `preflate_rs::preflate_whole_deflate_stream` makes of the stream that
/// `data` starts with: its text, its corrections and its length.
pub uninterp spec fn split_of(
    data: Seq<u8>,
    max_chain_length: u32,
    plain_text_limit: usize,
    verify: bool,
) -> Option<(Seq<u8>, Seq<u8>, int)>;

/// What `preflate_rs::recreate_whole_deflate_stream` makes of a text and
/// corrections.
pub uninterp spec fn deflate_of(plain: Seq<u8>, corrections: Seq<u8>) -> Option<Seq<u8>>;

/// `preflate_rs::preflate_whole_deflate_stream`. A stream that is taken apart
/// lies at the start of the data. With `verify` on, the crate recreates it from
/// the text and the corrections, and fails where that is not the stream. The
/// limit is on the text of compressed blocks, whose positions the crate counts as
/// 32-bit numbers; the text of stored blocks is as long as they are. It reports
/// want of memory by an exit code of its own: that comes back as the error, and
/// nothing is said of it. Any other failure, and a panic, which
/// `lepton_jpeg::catch_unwind_result` stops, follows from the data and the
/// settings, and comes back as `None`.
#[verifier::external_body]
pub(crate) fn inflate(
    data: &[u8],
    max_chain_length: u32,
    plain_text_limit: usize,
    verify: bool,
) -> (r: Result<Option<Inflated>, preflate_rs::PreflateError>)
    requires
        plain_text_limit <= 0x4000_0000,
    ensures
        r matches Ok(Some(x)) ==> split_of(data@, max_chain_length, plain_text_limit, verify)
            == Some((x.plain@, x.corrections@, x.size as int)),
        r matches Ok(Some(x)) ==> x.size <= data@.len(),
        r matches Ok(Some(x)) ==> verify ==> deflate_of(x.plain@, x.corrections@) == Some(
            data@.take(x.size as int),
        ),
        r matches Ok(None) ==> split_of(data@, max_chain_length, plain_text_limit, verify) is None,
{
    let verify_compression = verify;
    let config =
        preflate_rs::PreflateConfig { max_chain_length, plain_text_limit, verify_compression };
    let call = || Ok(preflate_rs::preflate_whole_deflate_stream(data, &config));
    match lepton_jpeg::catch_unwind_result(call) {
        Ok(Ok((chunk, text))) => {
            let (plain, size) = (text.text().to_vec(), chunk.compressed_size);
            Ok(Some(Inflated { plain, corrections: chunk.corrections, size }))
        },
        Ok(Err(e)) if e.exit_code() == preflate_rs::ExitCode::OutOfMemory => Err(e),
        _ => Ok(None),
    }
}

/// `preflate_rs::recreate_whole_deflate_stream`. Want of memory comes back as
/// the error, and nothing is said of it: corrections that belong to no stream
/// can make the crate gather codes until memory runs out. Any other failure, and
/// a panic, which `lepton_jpeg::catch_unwind_result` stops, follows from the text
/// and the corrections, and comes back as `None`.
#[verifier::external_body]
pub(crate) fn deflate(plain: &[u8], corrections: &[u8]) -> (r: Result<
    Option<Vec<u8>>,
    preflate_rs::PreflateError,
>)
    ensures
        r matches Ok(Some(v)) ==> deflate_of(plain@, corrections@) == Some(v@),
        r matches Ok(None) ==> deflate_of(plain@, corrections@) is None,
{
    let call = || Ok(preflate_rs::recreate_whole_deflate_stream(plain, corrections));
    match lepton_jpeg::catch_unwind_result(call) {
        Ok(Ok(v)) => Ok(Some(v)),
        Ok(Err(e)) if e.exit_code() == preflate_rs::ExitCode::OutOfMemory => Err(e),
        _ => Ok(None),
    }
}

/// What `lepton_jpeg::encode_lepton_verify` makes of a JPEG.
pub uninterp spec fn lepton_of(jpeg: Seq<u8>) -> Option<Seq<u8>>;

/// What `lepton_jpeg::decode_lepton` makes of what was encoded.
pub uninterp spec fn jpeg_of(lepton: Seq<u8>) -> Option<Seq<u8>>;

/// `lepton_jpeg::encode_lepton_verify`, with the features for writing. The crate
/// decodes what it has encoded and fails where that is not the JPEG. The
/// features for reading refuse nothing that those for writing take, and the
/// encoded bytes name the arithmetic to use, so decoding under them gives the
/// JPEG too. Want of memory shows in the crate's exit codes for memory, for
/// reading and writing, and for its channels: those come back as the error, and
/// nothing is said of them. Any other failure, and a panic, which
/// `lepton_jpeg::catch_unwind_result` stops, follows from the data, and comes
/// back as `None`.
#[verifier::external_body]
pub(crate) fn lepton_encode(jpeg: &[u8]) -> (r: Result<Option<Vec<u8>>, lepton_jpeg::LeptonError>)
    ensures
        r matches Ok(Some(v)) ==> lepton_of(jpeg@) == Some(v@),
        r matches Ok(Some(v)) ==> jpeg_of(v@) == Some(jpeg@),
        r matches Ok(None) ==> lepton_of(jpeg@) is None,
{
    let features = lepton_jpeg::EnabledFeatures::compat_lepton_vector_write();
    let pool = lepton_jpeg::SingleThreadPool {  };
    let call = || lepton_jpeg::encode_lepton_verify(jpeg, &features, &pool);
    match lepton_jpeg::catch_unwind_result(call) {
        Ok((blob, _metrics)) => Ok(Some(blob)),
        Err(e) => match e.exit_code() {
            lepton_jpeg::ExitCode::OutOfMemory => Err(e),
            lepton_jpeg::ExitCode::OsError => Err(e),
            lepton_jpeg::ExitCode::ChannelFailure => Err(e),
            _ => Ok(None),
        },
    }
}

/// `lepton_jpeg::decode_lepton`, with the features for reading. Its failures, and
/// its panics, come back as those of `lepton_jpeg::encode_lepton_verify` do.
#[verifier::external_body]
pub(crate) fn lepton_decode(lepton: &[u8]) -> (r: Result<Option<Vec<u8>>, lepton_jpeg::LeptonError>)
    ensures
        r matches Ok(Some(v)) ==> jpeg_of(lepton@) == Some(v@),
        r matches Ok(None) ==> jpeg_of(lepton@) is None,
{
    let features = lepton_jpeg::EnabledFeatures::compat_lepton_vector_read();
    let pool = lepton_jpeg::SingleThreadPool {  };
    let (mut input, mut jpeg) = (std::io::Cursor::new(lepton), Vec::new());
    let call = || lepton_jpeg::decode_lepton(&mut input, &mut jpeg, &features, &pool);
    match lepton_jpeg::catch_unwind_result(call) {
        Ok(_metrics) => Ok(Some(jpeg)),
        Err(e) => match e.exit_code() {
            lepton_jpeg::ExitCode::OutOfMemory => Err(e),
            lepton_jpeg::ExitCode::OsError => Err(e),
            lepton_jpeg::ExitCode::ChannelFailure => Err(e),
            _ => Ok(None),
        },
    }
}

/// What `zstd::bulk::compress` makes of the data.
pub uninterp spec fn zstd_block_of(data: Seq<u8>, level: i32) -> Option<Seq<u8>>;

/// What `zstd::stream::decode_all` makes of frames.
pub uninterp spec fn zstd_text_of(frames: Seq<u8>) -> Option<Seq<u8>>;

/// `zstd::bulk::compress`: a frame that decodes to the data. The windows of
/// levels up to 19 are within what a decoder takes by default.
#[verifier::external_body]
pub(crate) fn zstd_block(data: &[u8], level: i32) -> (r: Result<Vec<u8>, std::io::Error>)
    requires
        1 <= level <= 19,
    ensures
        r matches Ok(v) ==> zstd_block_of(data@, level) == Some(v@),
        r matches Ok(v) ==> zstd_text_of(v@) == Some(data@),
{
    zstd::bulk::compress(data, level)
}

/// `zstd::stream::decode_all`.
#[verifier::external_body]
pub(crate) fn zstd_text(frames: &[u8]) -> (r: Result<Vec<u8>, std::io::Error>)
    ensures
        r matches Ok(v) ==> zstd_text_of(frames@) == Some(v@),
{
    zstd::stream::decode_all(frames)
}

/// What `zstd::stream::write::Encoder` makes of the data at a level, with
/// matching over long distances on or off and windows of two to the power
/// `window_log`.
pub uninterp spec fn zstd_stream_of(
    data: Seq<u8>,
    level: i32,
    long_distance: bool,
    window_log: u32,
) -> Option<Seq<u8>>;

/// `zstd::stream::write::Encoder`, given all the data at once.
#[verifier::external_body]
pub(crate) fn zstd_stream(data: &[u8], level: i32, long_distance: bool, window_log: u32) -> (r:
    Result<Vec<u8>, std::io::Error>)
    ensures
        r matches Ok(v) ==> zstd_stream_of(data@, level, long_distance, window_log) == Some(v@),
{
    let mut enc = zstd::stream::write::Encoder::new(Vec::new(), level)?;
    enc.set_parameter(zstd::zstd_safe::CParameter::EnableLongDistanceMatching(long_distance))?;
    enc.set_parameter(zstd::zstd_safe::CParameter::WindowLog(window_log))?;
    std::io::Write::write_all(&mut enc, data)?;
    enc.finish()
}

/// What `zstd::stream::read::Decoder` reads, with windows of up to two to the
/// power `window_log`.
pub uninterp spec fn zstd_plain_of(comp: Seq<u8>, window_log: u32) -> Option<Seq<u8>>;

/// `zstd::stream::read::Decoder`, read to its end.
#[verifier::external_body]
pub(crate) fn zstd_plain(comp: &[u8], window_log: u32) -> (r: Result<Vec<u8>, std::io::Error>)
    ensures
        r matches Ok(v) ==> zstd_plain_of(comp@, window_log) == Some(v@),
{
    let mut dec = zstd::stream::read::Decoder::new(comp)?;
    dec.window_log_max(window_log)?;
    let mut out = Vec::new();
    std::io::Read::read_to_end(&mut dec, &mut out)?;
    Ok(out)
}

/// What `brotli::BrotliCompress` makes of the data, told its length. It weighs
/// its choices by logarithms, which the feature `portable-float` takes from
/// tables: the bytes are those of every machine.
pub uninterp spec fn brotli_of(data: Seq<u8>, quality: i32, lgwin: i32) -> Option<Seq<u8>>;

/// `brotli::BrotliCompress`, with the other parameters at their defaults. It
/// reads and writes memory, whose want it does not report, so it fails on the
/// same data always or never.
#[verifier::external_body]
pub(crate) fn brotli(data: &[u8], quality: i32, lgwin: i32) -> (r: Result<Vec<u8>, std::io::Error>)
    ensures
        match r {
            Ok(v) => brotli_of(data@, quality, lgwin) == Some(v@),
            Err(_) => brotli_of(data@, quality, lgwin) is None,
        },
{
    let params = brotli::enc::BrotliEncoderParams {
        quality,
        lgwin,
        size_hint: data.len(),
        ..Default::default()
    };
    let mut out = Vec::new();
    brotli::BrotliCompress(&mut std::io::Cursor::new(data), &mut out, &params)?;
    Ok(out)
}

/// What `brotli::BrotliDecompress` reads.
pub uninterp spec fn brotli_plain_of(comp: Seq<u8>) -> Option<Seq<u8>>;

/// `brotli::BrotliDecompress`. It fails on the same bytes always or never.
#[verifier::external_body]
pub(crate) fn brotli_plain(comp: &[u8]) -> (r: Result<Vec<u8>, std::io::Error>)
    ensures
        match r {
            Ok(v) => brotli_plain_of(comp@) == Some(v@),
            Err(_) => brotli_plain_of(comp@) is None,
        },
{
    let mut out = Vec::new();
    brotli::BrotliDecompress(&mut std::io::Cursor::new(comp), &mut out)?;
    Ok(out)
}

/// The parameters of an LZMA encoder.
pub struct LzmaSettings {
    pub preset: u32,
    pub dict_size: u32,
    pub nice_len: u32,
    pub lc: u32,
    pub lp: u32,
    pub pb: u32,
}

/// What `lzma_rust2::LzmaWriter` makes of the data, behind a header that says
/// the parameters and the length.
pub uninterp spec fn lzma_of(
    data: Seq<u8>,
    preset: u32,
    dict_size: u32,
    nice_len: u32,
    lc: u32,
    lp: u32,
    pb: u32,
) -> Option<Seq<u8>>;

/// `lzma_rust2::LzmaWriter::new_use_header`, given all the data at once. The
/// writer keeps the length of what it is handed in 31 bits, and panics on more.
/// It writes to memory, whose want it does not report, so it fails on the same
/// data always or never.
#[verifier::external_body]
pub(crate) fn lzma(data: &[u8], s: &LzmaSettings) -> (r: Result<Vec<u8>, std::io::Error>)
    requires
        data@.len() < 0x8000_0000,
        4096 <= s.dict_size <= 0x4000_0000,
        8 <= s.nice_len <= 273,
        s.lc <= 8,
        s.lp <= 4,
        s.pb <= 4,
    ensures
        ({
            let want = lzma_of(
                data@,
                s.preset,
                s.dict_size,
                s.nice_len,
                s.lc,
                s.lp,
                s.pb,
            );
            match r {
                Ok(v) => want == Some(v@),
                Err(_) => want is None,
            }
        }),
{
    let mut opts = lzma_rust2::LzmaOptions::with_preset(s.preset);
    opts.dict_size = s.dict_size;
    opts.nice_len = s.nice_len;
    opts.lc = s.lc;
    opts.lp = s.lp;
    opts.pb = s.pb;
    let size = Some(data.len() as u64);
    let mut w = lzma_rust2::LzmaWriter::new_use_header(Vec::new(), &opts, size)?;
    std::io::Write::write_all(&mut w, data)?;
    w.finish()
}

/// What `lzma_rust2::LzmaReader` reads, with a limit on its memory.
pub uninterp spec fn lzma_plain_of(comp: Seq<u8>, mem_limit_kb: u32) -> Option<Seq<u8>>;

/// `lzma_rust2::LzmaReader::new_mem_limit`, read to its end.
#[verifier::external_body]
pub(crate) fn lzma_plain(comp: &[u8], mem_limit_kb: u32) -> (r: Result<Vec<u8>, std::io::Error>)
    ensures
        r matches Ok(v) ==> lzma_plain_of(comp@, mem_limit_kb) == Some(v@),
{
    let mut r = lzma_rust2::LzmaReader::new_mem_limit(comp, mem_limit_kb, None)?;
    let mut out = Vec::new();
    std::io::Read::read_to_end(&mut r, &mut out)?;
    Ok(out)
}

/// `String::from_utf8`: the text that the bytes encode, where they are UTF-8.
#[verifier::external_body]
pub(crate) fn text_of(bytes: Vec<u8>) -> (r: Option<String>)
    ensures
        match r {
            Some(s) => valid_utf8(bytes@) && s@ == decode_utf8(bytes@),
            None => !valid_utf8(bytes@),
        },
{
    String::from_utf8(bytes).ok()
}

} // verus!
