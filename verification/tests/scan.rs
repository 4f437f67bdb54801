use densezip::channels::{Channels, Cursors};
use densezip::error::Error;
use densezip::plan::{DeflateSeg, PixelEnc, Seg};
use densezip::rebuild::render_segs;
use densezip::scan::attempt::{
    closes_gzip, closes_zlib, gzip_header_len, gzip_seg, jpeg_seg, prefers_pixels, scan_bytes,
    take_or_leave, zlib_seg, DeflateHit,
};
use densezip::scan::candidate::{collect_candidates, parse_png, Cand};
use densezip::scan::plan_bytes;
use std::io::Write;

fn text(n: usize) -> Vec<u8> {
    (0..n).flat_map(|i| format!("line {} of a text, {}\n", i, i * i % 97).into_bytes()).collect()
}

fn zlib(data: &[u8]) -> Vec<u8> {
    let mut enc = flate2::write::ZlibEncoder::new(Vec::new(), flate2::Compression::default());
    enc.write_all(data).unwrap();
    enc.finish().unwrap()
}

fn gzip(data: &[u8]) -> Vec<u8> {
    let mut enc = flate2::write::GzEncoder::new(Vec::new(), flate2::Compression::best());
    enc.write_all(data).unwrap();
    enc.finish().unwrap()
}

/// Plans, renders and compares.
fn plan(data: &[u8]) -> (Vec<Seg>, Channels) {
    let mut ch = Channels::default();
    let segs = plan_bytes(data, 0, &mut ch);
    let mut cur = Cursors::new(&ch);
    let mut out = Vec::new();
    render_segs(&segs, &mut cur, &mut out).unwrap();
    assert!(out == data, "the plan renders to something else");
    assert_eq!(
        (cur.plain, cur.corrections, cur.filters, cur.lepton),
        (ch.plain.len(), ch.corrections.len(), ch.filters.len(), ch.lepton.len())
    );
    (segs, ch)
}

#[test]
fn plain_data_is_a_literal() {
    let (segs, ch) = plan(b"nothing to find here");
    assert!(matches!(segs[..], [Seg::Raw { len: 20 }]));
    assert_eq!(ch.plain, b"nothing to find here");
    let (segs, _) = plan(b"");
    assert!(segs.is_empty());
}

#[test]
fn a_zlib_stream_is_taken_apart() {
    let t = text(200);
    let mut f = b"HEAD".to_vec();
    f.extend_from_slice(&zlib(&t));
    f.extend_from_slice(b"TAIL");
    let (segs, ch) = plan(&f);
    assert_eq!(segs.len(), 3);
    assert!(matches!(segs[0], Seg::Raw { len: 4 }));
    match &segs[1] {
        Seg::Zlib { header, body } => {
            assert_eq!(header, &[0x78, 0x9c]);
            assert_eq!(body.plain_len, t.len() as u64);
        }
        other => panic!("no zlib stream: {:?}", other),
    }
    let mut plain = b"HEAD".to_vec();
    plain.extend_from_slice(&t);
    plain.extend_from_slice(b"TAIL");
    assert!(ch.plain == plain, "the text is not in the channel");
}

#[test]
fn a_gzip_member_is_taken_apart() {
    let t = text(200);
    let (segs, ch) = plan(&gzip(&t));
    assert!(matches!(&segs[..], [Seg::Gzip { header_len: 10, body }] if body.plain_len == t.len() as u64));
    assert!(ch.plain[10..] == t[..]);
}

#[test]
fn streams_inside_streams() {
    // text in zlib in gzip, to the depth that is looked at
    let t = text(300);
    let mut inner = noise(3000);
    inner.extend_from_slice(&zlib(&t));
    let (segs, ch) = plan(&gzip(&inner));
    match &segs[..] {
        [Seg::Gzip { body, .. }] => {
            assert!(body.inner.iter().any(|s| matches!(s, Seg::Zlib { .. })));
        }
        other => panic!("{:?}", other),
    }
    assert!(ch.plain.ends_with(&t));
}

#[test]
fn a_bad_checksum_is_left_alone() {
    let mut z = zlib(&text(200));
    let n = z.len();
    z[n - 1] ^= 1;
    let (segs, ch) = plan(&z);
    assert!(segs.iter().all(|s| matches!(s, Seg::Raw { .. })));
    assert!(ch.plain == z && ch.corrections.is_empty());
}

#[test]
fn short_streams_are_left_alone() {
    let z = zlib(b"only a few bytes of text");
    let (segs, _) = plan(&z);
    assert!(segs.iter().all(|s| matches!(s, Seg::Raw { .. })));
}

#[test]
fn a_zip_entry_is_taken_apart() {
    let t = text(200);
    let mut enc = flate2::write::DeflateEncoder::new(Vec::new(), flate2::Compression::default());
    enc.write_all(&t).unwrap();
    let body = enc.finish().unwrap();
    let mut f = b"PK\x03\x04\x14\0\0\0\x08\0".to_vec();
    f.extend_from_slice(&[0; 4]);
    f.extend_from_slice(&crc32fast::hash(&t).to_le_bytes());
    f.extend_from_slice(&(body.len() as u32).to_le_bytes());
    f.extend_from_slice(&(t.len() as u32).to_le_bytes());
    f.extend_from_slice(&5u16.to_le_bytes());
    f.extend_from_slice(&0u16.to_le_bytes());
    f.extend_from_slice(b"a.txt");
    f.extend_from_slice(&body);
    let (segs, _) = plan(&f);
    assert!(segs.iter().any(|s| matches!(s, Seg::Deflate(d) if d.plain_len == t.len() as u64)));
}

fn noise(n: usize) -> Vec<u8> {
    let mut x = 5u32;
    (0..n)
        .map(|_| {
            x = x.wrapping_mul(1664525).wrapping_add(1013904223);
            (x >> 24) as u8
        })
        .collect()
}

fn chunk(out: &mut Vec<u8>, ty: &[u8; 4], data: &[u8]) {
    out.extend_from_slice(&(data.len() as u32).to_be_bytes());
    let start = out.len();
    out.extend_from_slice(ty);
    out.extend_from_slice(data);
    let crc = crc32fast::hash(&out[start..]);
    out.extend_from_slice(&crc.to_be_bytes());
}

/// A colour image, with every kind of filter.
fn png(w: u32, h: u32, filter: fn(u32) -> u8) -> Vec<u8> {
    let mut ihdr = w.to_be_bytes().to_vec();
    ihdr.extend_from_slice(&h.to_be_bytes());
    ihdr.extend_from_slice(&[8, 2, 0, 0, 0]);
    let mut rows = Vec::new();
    for y in 0..h {
        rows.push(filter(y));
        for x in 0..w {
            let g = (x * 3 + y * 5) as u8;
            rows.extend_from_slice(&[g.wrapping_add((x % 4) as u8), g, g.wrapping_sub((y % 3) as u8)]);
        }
    }
    let z = zlib(&rows);
    let mut out = b"\x89PNG\r\n\x1a\n".to_vec();
    chunk(&mut out, b"IHDR", &ihdr);
    let mid = z.len() / 3;
    chunk(&mut out, b"IDAT", &z[..mid]);
    chunk(&mut out, b"IDAT", &z[mid..]);
    chunk(&mut out, b"IEND", b"");
    out
}

#[test]
fn pixels_of_an_image() {
    let (segs, ch) = plan(&png(60, 40, |y| (y % 5) as u8));
    let seg = segs
        .iter()
        .find_map(|s| match s {
            Seg::PngIdat(p) => Some(p),
            _ => None,
        })
        .expect("no image was found");
    assert_eq!((seg.width, seg.height, seg.bit_depth, seg.color_type), (60, 40, 8, 2));
    assert_eq!(seg.chunk_lens.len(), 2);
    if let PixelEnc::Unfiltered { blob } = seg.pixels {
        let b = &ch.pixel_blobs[blob as usize];
        assert_eq!((b.stride, b.bpp, b.data.len()), (180, 3, 180 * 40));
        assert_eq!(ch.filters, (0..40).map(|y| (y % 5) as u8).collect::<Vec<u8>>());
    }
}

#[test]
fn a_filter_that_there_is_not() {
    // rows that cannot be unfiltered are kept filtered
    let (segs, ch) = plan(&png(60, 40, |y| if y == 7 { 9 } else { (y % 5) as u8 }));
    assert!(segs.iter().any(|s| matches!(s, Seg::PngIdat(p) if p.pixels == PixelEnc::Filtered)));
    assert!(ch.pixel_blobs.is_empty() && ch.filters.is_empty());
}

#[test]
fn another_header_ends_a_run() {
    let p = png(60, 40, |y| (y % 5) as u8);
    let (start, info) = parse_png(&p).unwrap();
    // the header of the image once more, between its two parts
    let second = start + 12 + info.chunk_lens[0] as usize;
    let mut q = p[..second].to_vec();
    q.extend_from_slice(&p[8..33]);
    q.extend_from_slice(&p[second..]);
    let (at, cut) = parse_png(&q).unwrap();
    assert_eq!(at, start);
    assert_eq!(cut.chunk_lens, vec![info.chunk_lens[0]]);
    plan(&q);
    // a chunk with a wrong checksum before the run ends
    let mut bad = p.clone();
    bad[second + 9] ^= 1;
    assert!(parse_png(&bad).is_none());
}

#[test]
fn the_smaller_estimate_is_kept() {
    assert!(prefers_pixels(10, 9));
    assert!(!prefers_pixels(10, 10));
    assert!(!prefers_pixels(9, 10));
    assert!(prefers_pixels(usize::MAX, 1));
}

#[test]
fn a_scan_with_enough_memory() {
    let mut f = text(3);
    f.extend_from_slice(&zlib(&text(200)));
    f.extend_from_slice(&gzip(&text(100)));
    let mut ch = Channels::default();
    let (segs, short) = scan_bytes(&f, 0, &mut ch);
    assert!(!short);
    assert!(matches!(segs[..], [Seg::Raw { .. }, Seg::Zlib { .. }, Seg::Gzip { .. }]));
}

#[test]
fn image_headers() {
    let p = png(60, 40, |_| 0);
    let (_, info) = parse_png(&p).unwrap();
    assert_eq!((info.width, info.height, info.bit_depth, info.color_type), (60, 40, 8, 2));
    assert_eq!(info.chunk_lens.len(), 2);
    assert!(parse_png(&p[..20]).is_none());
}

struct Bits {
    out: Vec<u8>,
    acc: u32,
    n: u32,
}

impl Bits {
    fn put(&mut self, code: u32, len: u32) {
        for i in (0..len).rev() {
            self.acc = self.acc << 1 | (code >> i & 1);
            self.n += 1;
            if self.n == 8 {
                let b = self.acc as u8;
                self.out.push(b);
                if b == 0xff {
                    self.out.push(0);
                }
                self.acc = 0;
                self.n = 0;
            }
        }
    }
}

/// A grey baseline image of `side` by `side` blocks.
fn jpeg(side: u16) -> Vec<u8> {
    let mut f = vec![0xff, 0xd8];
    f.extend_from_slice(&[0xff, 0xdb, 0, 67, 0]);
    f.extend_from_slice(&[16; 64]);
    f.extend_from_slice(&[0xff, 0xc0, 0, 11, 8]);
    f.extend_from_slice(&(side * 8).to_be_bytes());
    f.extend_from_slice(&(side * 8).to_be_bytes());
    f.extend_from_slice(&[1, 1, 0x11, 0]);
    // differences of up to 31, in codes of two and three bits
    f.extend_from_slice(&[0xff, 0xc4, 0, 25, 0x00]);
    f.extend_from_slice(&[0, 1, 5, 0, 0, 0, 0, 0, 0, 0, 0, 0, 0, 0, 0, 0]);
    f.extend_from_slice(&[0, 1, 2, 3, 4, 5]);
    // the end of a block, or a coefficient of one bit
    f.extend_from_slice(&[0xff, 0xc4, 0, 21, 0x10]);
    f.extend_from_slice(&[1, 1, 0, 0, 0, 0, 0, 0, 0, 0, 0, 0, 0, 0, 0, 0]);
    f.extend_from_slice(&[0x00, 0x01]);
    f.extend_from_slice(&[0xff, 0xda, 0, 8, 1, 1, 0x00, 0, 63, 0]);
    let mut bits = Bits { out: Vec::new(), acc: 0, n: 0 };
    let mut prev = 0i32;
    for y in 0..side as i32 {
        for x in 0..side as i32 {
            let dc = (x - y).abs() % 15 - 7;
            let diff = dc - prev;
            prev = dc;
            let cat = 32 - diff.unsigned_abs().leading_zeros();
            if cat == 0 {
                bits.put(0, 2);
            } else {
                bits.put(1 + cat, 3);
                let v = if diff > 0 { diff } else { diff + (1 << cat) - 1 };
                bits.put(v as u32, cat);
            }
            bits.put(2, 2);
            bits.put((x & 1) as u32, 1);
            bits.put(0, 1);
        }
    }
    while bits.n != 0 {
        bits.put(1, 1);
    }
    f.extend_from_slice(&bits.out);
    f.extend_from_slice(&[0xff, 0xd9]);
    f
}

#[test]
fn a_photograph() {
    let j = jpeg(64);
    assert!(j.len() > 4096);
    let mut f = b"before ".to_vec();
    f.extend_from_slice(&j);
    f.extend_from_slice(b" behind");
    let (segs, ch) = plan(&f);
    match segs.iter().find(|s| matches!(s, Seg::Jpeg { .. })) {
        Some(Seg::Jpeg { lepton_len, orig_len }) => {
            assert_eq!(*orig_len, j.len() as u64);
            assert_eq!(*lepton_len, ch.lepton.len() as u64);
            assert!(lepton_len < orig_len);
            // an image of another length is found out
            let mut cur = Cursors::new(&ch);
            let wrong = [Seg::Jpeg { lepton_len: *lepton_len, orig_len: orig_len + 1 }];
            let r = render_segs(&wrong, &mut cur, &mut Vec::new());
            assert_eq!(r, Err(Error::LeptonLengthMismatch));
        }
        _ => panic!("no image was found: {:?}", segs),
    }
}

#[test]
fn candidates_in_order() {
    let mut f = zlib(&text(5));
    let at = f.len();
    f.extend_from_slice(&gzip(&text(5)));
    let c = collect_candidates(&f);
    assert!(matches!(c[0], (0, Cand::Zlib)));
    assert!(c.iter().any(|x| matches!(x, (p, Cand::Gzip) if *p == at)));
    assert!(c.windows(2).all(|w| w[0].0 <= w[1].0));
}

#[test]
fn gzip_headers() {
    let plain = [0x1f, 0x8b, 8, 0, 0, 0, 0, 0, 0, 3, 1];
    assert_eq!(gzip_header_len(&plain), Some(10));
    assert_eq!(gzip_header_len(&plain[..9]), None);
    // extra field of two bytes, a name, a comment and a checksum
    let full = b"\x1f\x8b\x08\x1e\0\0\0\0\0\x03\x02\0xyname\0note\0cc!";
    assert_eq!(gzip_header_len(full), Some(full.len() - 1));
    assert_eq!(gzip_header_len(b"\x1f\x8b\x08\x08\0\0\0\0\0\x03name"), None);
}

#[test]
fn trailers_and_sizes() {
    assert!(closes_zlib(b"xx\x02\x4d\x01\x27", 2, 0x024d_0127));
    assert!(!closes_zlib(b"xx\x02\x4d\x01", 2, 0x024d_0127));
    assert!(closes_gzip(b"\xc2\x41\x24\x35\x03\0\0\0", 0, 0x3524_41c2, 3));
    assert!(!closes_gzip(b"\xc2\x41\x24\x35\x04\0\0\0", 0, 0x3524_41c2, 3));
    assert!(matches!(
        jpeg_seg(&vec![0; 5], 6),
        Some(Seg::Jpeg { lepton_len: 5, orig_len: 6 })
    ));
    assert!(jpeg_seg(&vec![0; 6], 6).is_none());
}

fn hit(deflate_len: usize) -> DeflateHit {
    DeflateHit {
        seg: DeflateSeg { corrections_len: 0, plain_len: 3, inner: Vec::new() },
        deflate_len,
        plain_adler: 0x024d_0127,
        plain_crc: 0x3524_41c2,
        plain_isize: 3,
    }
}

#[test]
fn streams_in_their_frames() {
    let z = b"..\x78\x9cBODY\x02\x4d\x01\x27.";
    assert!(matches!(zlib_seg(z, 2, hit(4)), Some((Seg::Zlib { header: [0x78, 0x9c], .. }, 10))));
    assert!(zlib_seg(z, 2, hit(3)).is_none());
    assert!(zlib_seg(&z[..11], 2, hit(4)).is_none());
    let g = b".HEADBODY\xc2\x41\x24\x35\x03\0\0\0";
    assert!(matches!(gzip_seg(g, 1, 4, hit(4)), Some((Seg::Gzip { header_len: 4, .. }, 16))));
    assert!(gzip_seg(g, 1, 4, hit(5)).is_none());
    assert!(gzip_seg(&g[..16], 1, 4, hit(4)).is_none());
}

#[test]
fn attempts_that_fail_leave_nothing() {
    let mut ch = Channels::default();
    ch.plain.extend_from_slice(b"kept");
    let mut segs = vec![Seg::Raw { len: 4 }];
    let mark = ch.mark(1);
    ch.plain.extend_from_slice(b"more");
    ch.corrections.push(1);
    segs.push(Seg::Raw { len: 4 });
    assert_eq!(take_or_leave(&mut segs, &mut ch, mark, 4, 8, None), 4);
    assert!(matches!(segs[..], [Seg::Raw { len: 4 }]));
    assert!(ch.plain == b"kept" && ch.corrections.is_empty());
    let found = Some((Seg::Jpeg { lepton_len: 1, orig_len: 2 }, 7));
    assert_eq!(take_or_leave(&mut segs, &mut ch, mark, 4, 8, found), 15);
    assert!(matches!(segs[..], [Seg::Raw { len: 4 }, Seg::Jpeg { lepton_len: 1, orig_len: 2 }]));
}

/// Renders what may be damaged: bytes or an error, and no panic.
fn render_damaged(segs: &[Seg], ch: &Channels) -> bool {
    let mut cur = Cursors::new(ch);
    let mut out = Vec::new();
    render_segs(segs, &mut cur, &mut out).is_ok()
}

#[test]
fn damaged_corrections() {
    let (segs, ch) = plan(&zlib(&text(200)));
    assert!(!ch.corrections.is_empty());
    let mut failed = 0;
    for i in 0..ch.corrections.len() {
        let mut d = Channels::default();
        d.plain = ch.plain.clone();
        d.corrections = ch.corrections.clone();
        d.corrections[i] ^= 0x55;
        if !render_damaged(&segs, &d) {
            failed += 1;
        }
    }
    assert!(failed > 0);
}

#[test]
fn damaged_photographs() {
    let (segs, ch) = plan(&jpeg(64));
    assert!(!ch.lepton.is_empty());
    let mut failed = 0;
    for i in 0..ch.lepton.len().min(200) {
        let mut d = Channels::default();
        d.plain = ch.plain.clone();
        d.lepton = ch.lepton.clone();
        d.lepton[i] ^= 0x55;
        if !render_damaged(&segs, &d) {
            failed += 1;
        }
    }
    assert!(failed > 0);
}
