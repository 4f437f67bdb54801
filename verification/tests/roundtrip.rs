//! The promise of an archive: what is packed comes out byte for byte, for
//! every kind of input.

use densezip::archive::output::Output;
use densezip::archive::{extract, pack, read_archive, Source};
use densezip::error::Error;
use std::io::Write;

const GIB: u64 = 1 << 30;

fn file(path: &str, data: &[u8]) -> Source {
    Source { path: path.to_string(), is_dir: false, data: data.to_vec() }
}

fn dir(path: &str) -> Source {
    Source { path: path.to_string(), is_dir: true, data: Vec::new() }
}

/// Packs, extracts, and compares every file.
fn roundtrip(sources: Vec<Source>) -> Vec<u8> {
    let packed = pack(&sources, false, true, 4 * GIB).unwrap();
    let a = read_archive(&packed.bytes).unwrap();
    let out = extract(&a).unwrap();
    assert_eq!(out.len(), a.entries.len());
    for s in &sources {
        let i = a.entries.iter().position(|e| e.path == s.path).unwrap();
        match &out[i] {
            Output::Dir => assert!(s.is_dir, "{} became a directory", s.path),
            Output::File(back) => {
                assert_eq!(s.data.len(), back.len(), "length mismatch for {}", s.path);
                assert!(&s.data == back, "content mismatch for {}", s.path);
            }
        }
    }
    packed.bytes
}

fn deterministic_bytes(len: usize, seed: u64) -> Vec<u8> {
    let mut x = seed.wrapping_mul(0x9e3779b97f4a7c15) | 1;
    let mut v = Vec::with_capacity(len);
    while v.len() < len {
        x ^= x << 13;
        x ^= x >> 7;
        x ^= x << 17;
        v.extend_from_slice(&x.to_le_bytes());
    }
    v.truncate(len);
    v
}

#[test]
fn empty_and_tiny_files() {
    roundtrip(vec![file("empty", b""), file("one", b"x"), file("small", b"hello world")]);
}

#[test]
fn random_data_does_not_break() {
    roundtrip(vec![file("rand.bin", &deterministic_bytes(1 << 20, 42))]);
}

#[test]
fn text_file() {
    let text = "the quick brown fox jumps over the lazy dog\n".repeat(20_000);
    roundtrip(vec![file("text.txt", text.as_bytes())]);
}

#[test]
fn gzip_member_recompression() {
    let payload = "some very compressible payload ".repeat(10_000);
    let mut enc = flate2::write::GzEncoder::new(Vec::new(), flate2::Compression::best());
    enc.write_all(payload.as_bytes()).unwrap();
    roundtrip(vec![file("file.gz", &enc.finish().unwrap())]);
}

#[test]
fn zlib_stream_recompression() {
    let payload = deterministic_bytes(100_000, 7)
        .iter()
        .map(|b| b % 16) // compressible-ish
        .collect::<Vec<u8>>();
    let mut enc = flate2::write::ZlibEncoder::new(Vec::new(), flate2::Compression::default());
    enc.write_all(&payload).unwrap();
    let z = enc.finish().unwrap();
    // Embed the zlib stream mid-file, surrounded by other bytes (PDF-style).
    let mut f = b"HEADER JUNK ".to_vec();
    f.extend_from_slice(&z);
    f.extend_from_slice(b" TRAILING JUNK");
    roundtrip(vec![file("embedded.bin", &f)]);
}

fn chunk(out: &mut Vec<u8>, ty: &[u8; 4], data: &[u8]) {
    out.extend_from_slice(&(data.len() as u32).to_be_bytes());
    let start = out.len();
    out.extend_from_slice(ty);
    out.extend_from_slice(data);
    let crc = crc32fast::hash(&out[start..]);
    out.extend_from_slice(&crc.to_be_bytes());
}

/// A minimal valid PNG by hand (grayscale, deterministic content).
fn synth_png(w: u32, h: u32) -> Vec<u8> {
    let mut ihdr = Vec::new();
    ihdr.extend_from_slice(&w.to_be_bytes());
    ihdr.extend_from_slice(&h.to_be_bytes());
    ihdr.extend_from_slice(&[8, 0, 0, 0, 0]); // 8-bit grayscale, no interlace
    let mut scanlines = Vec::new();
    for y in 0..h {
        scanlines.push(0u8); // filter: none
        for x in 0..w {
            scanlines.push(((x * 7 + y * 13) % 251) as u8);
        }
    }
    let mut enc = flate2::write::ZlibEncoder::new(Vec::new(), flate2::Compression::default());
    enc.write_all(&scanlines).unwrap();
    let idat = enc.finish().unwrap();

    let mut png = b"\x89PNG\r\n\x1a\n".to_vec();
    chunk(&mut png, b"IHDR", &ihdr);
    // split IDAT into two chunks to exercise chunk reassembly
    let mid = idat.len() / 2;
    chunk(&mut png, b"IDAT", &idat[..mid]);
    chunk(&mut png, b"IDAT", &idat[mid..]);
    chunk(&mut png, b"IEND", b"");
    png
}

#[test]
fn png_recompression() {
    roundtrip(vec![file("img.png", &synth_png(200, 100))]);
}

#[test]
fn directory_tree() {
    let sources = vec![
        dir("tree"),
        file("tree/a.txt", "aaa".repeat(1000).as_bytes()),
        dir("tree/sub"),
        file("tree/sub/b.bin", &deterministic_bytes(5000, 3)),
        dir("tree/sub/deep"),
        file("tree/sub/deep/c", b"c"),
    ];
    let bytes = roundtrip(sources);
    let a = read_archive(&bytes).unwrap();
    for rel in ["tree/a.txt", "tree/sub/b.bin", "tree/sub/deep/c"] {
        assert!(a.entries.iter().any(|e| e.path == rel && !e.is_dir), "mismatch: {}", rel);
    }
}

#[test]
fn archive_test_command() {
    let sources = vec![file("f", &deterministic_bytes(10_000, 9))];
    let packed = pack(&sources, false, true, 4 * GIB).unwrap();
    let a = read_archive(&packed.bytes).unwrap();
    let tally = densezip::archive::output::test(&a).unwrap();
    assert_eq!((tally.files, tally.total), (1, 10_000));
}

#[test]
fn unicode_filename() {
    roundtrip(vec![file(
        "h\u{e9}llo w\u{f6}rld \u{2014} \u{4f60}\u{597d}.txt",
        "unicode content".repeat(100).as_bytes(),
    )]);
}

#[test]
fn many_small_files_solid() {
    let mut sources = vec![dir("many")];
    for i in 0..200 {
        let text = format!("shared prefix content {}\n", i).repeat(20);
        sources.push(file(&format!("many/f{:03}.txt", i), text.as_bytes()));
    }
    roundtrip(sources);
}

#[test]
fn compressing_own_archive() {
    // an archive of an archive: high-entropy input, must round-trip and not blow up
    let inner = roundtrip(vec![file("data.txt", "text ".repeat(10_000).as_bytes())]);
    roundtrip(vec![file("inner.dnz.copy", &inner)]);
}

#[test]
fn truncated_archive_fails_cleanly() {
    let data = roundtrip(vec![file("f.txt", "hello ".repeat(5000).as_bytes())]);
    for cut in [data.len() / 2, data.len() - 5, 10] {
        assert!(
            densezip::archive::output::verify(&data[..cut]).is_err(),
            "truncated archive (cut={}) must fail",
            cut
        );
    }
    assert!(matches!(read_archive(&data[..10]), Err(Error::NotAnArchive)));
    assert!(matches!(read_archive(&data[..data.len() - 5]), Err(Error::BadTrailer)));
}

#[test]
fn corrupted_archive_fails_cleanly() {
    let mut data = roundtrip(vec![file("f.txt", "hello ".repeat(5000).as_bytes())]);
    let mid = data.len() / 2;
    data[mid] ^= 0xff; // flip bits in the middle (payload or table)
    assert!(
        densezip::archive::output::verify(&data).is_err(),
        "corrupted archive must fail verification"
    );
}

#[test]
fn small_memory_budget() {
    // pack with a 1 GiB budget: must still round-trip, just with smaller models
    let mut data = Vec::new();
    for i in 0..10_000u32 {
        data.extend_from_slice(format!("row-{},value-{}\n", i % 977, i % 31).as_bytes());
    }
    let sources = vec![file("big.txt", &data)];
    let packed = pack(&sources, true, true, GIB).unwrap();
    let a = read_archive(&packed.bytes).unwrap();
    assert!(extract(&a).unwrap() == vec![Output::File(data)]);
}
