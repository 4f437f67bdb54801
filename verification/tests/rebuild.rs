use densezip::channels::{Channels, Cursors, PixelBlob};
use densezip::error::Error;
use densezip::plan::{DeflateSeg, PixelEnc, PngIdatSeg, Seg};
use densezip::rebuild::render::{frame_gzip, frame_png, frame_zlib};
use densezip::rebuild::{refilter, render_segs, unfilter};

fn image(width: u32, height: u32, color_type: u8) -> PngIdatSeg {
    PngIdatSeg {
        chunk_lens: Vec::new(),
        zlib_header: [0x78, 0x9c],
        tail: Vec::new(),
        corrections_len: 0,
        plain_len: 0,
        width,
        height,
        bit_depth: 8,
        color_type,
        pixels: PixelEnc::Filtered,
    }
}

fn noise(n: usize) -> Vec<u8> {
    let mut x = 1u32;
    (0..n)
        .map(|_| {
            x = x.wrapping_mul(1664525).wrapping_add(1013904223);
            (x >> 24) as u8
        })
        .collect()
}

#[test]
fn filters_undo_each_other() {
    for (color, bpp) in [(0u8, 1usize), (2, 3), (4, 2), (6, 4)] {
        let (w, h) = (13u32, 10u32);
        let p = image(w, h, color);
        let row = w as usize * bpp;
        let raw = noise(row * h as usize);
        let mut plain = Vec::new();
        for y in 0..h as usize {
            plain.push((y % 5) as u8);
            plain.extend_from_slice(&raw[y * row..(y + 1) * row]);
        }
        let (filters, pixels) = unfilter(&p, &plain).unwrap();
        assert_eq!(filters, (0..h).map(|y| (y % 5) as u8).collect::<Vec<u8>>());
        assert_eq!(pixels.len(), raw.len());
        assert_eq!(refilter(&p, &filters, &pixels), Ok(plain));
    }
}

#[test]
fn filters_by_hand() {
    // grey, three wide: none, sub, up, average, Paeth
    let p = image(3, 5, 0);
    let plain = vec![0, 10, 20, 30, 1, 5, 5, 5, 2, 1, 1, 1, 3, 4, 4, 4, 4, 1, 1, 1];
    let (filters, pixels) = unfilter(&p, &plain).unwrap();
    assert_eq!(filters, vec![0, 1, 2, 3, 4]);
    assert_eq!(
        pixels,
        vec![10, 20, 30, 5, 10, 15, 6, 11, 16, 7, 13, 18, 8, 14, 19]
    );
    assert_eq!(refilter(&p, &filters, &pixels), Ok(plain));
}

#[test]
fn filter_errors() {
    let p = image(2, 2, 0);
    assert_eq!(refilter(&p, &[0], &[1, 2, 3, 4]), Err(Error::FilterCountMismatch));
    assert_eq!(refilter(&p, &[0, 0], &[1, 2, 3]), Err(Error::PixelSizeMismatch));
    assert_eq!(refilter(&p, &[0, 5], &[1, 2, 3, 4]), Err(Error::BadFilterType(5)));
    assert!(unfilter(&p, &[0, 1, 2, 5, 3, 4]).is_none());
    assert!(unfilter(&p, &[0, 1, 2, 0, 3]).is_none());
}

#[test]
fn frames_around_streams() {
    // the checksums of "abc"
    assert_eq!(frame_zlib(&[0x78, 0x9c], b"abc", b"BODY"), b"\x78\x9cBODY\x02\x4d\x01\x27".to_vec());
    assert_eq!(
        frame_gzip(b"HEAD", b"abc", b"BODY"),
        b"HEADBODY\xc2\x41\x24\x35\x03\0\0\0".to_vec()
    );
    let mut p = image(1, 1, 0);
    p.chunk_lens = vec![4, 6];
    let framed = frame_png(&p, b"abc", b"BODY").unwrap();
    let mut want = Vec::new();
    for part in [&b"\x78\x9cBO"[..], &b"DY\x02\x4d\x01\x27"[..]] {
        want.extend_from_slice(&(part.len() as u32).to_be_bytes());
        let mut body = b"IDAT".to_vec();
        body.extend_from_slice(part);
        want.extend_from_slice(&body);
        want.extend_from_slice(&crc32fast::hash(&body).to_be_bytes());
    }
    assert_eq!(framed, want);
    p.chunk_lens = vec![4, 7];
    assert_eq!(frame_png(&p, b"abc", b"BODY"), Err(Error::ChunkLengthsMismatch));
}

fn render(segs: &[Seg], ch: &Channels) -> Result<Vec<u8>, Error> {
    let mut cur = Cursors::new(ch);
    let mut out = b">".to_vec();
    render_segs(segs, &mut cur, &mut out).map(|()| out)
}

#[test]
fn literals_render() {
    let mut ch = Channels::default();
    ch.plain.extend_from_slice(b"hello world");
    assert_eq!(
        render(&[Seg::Raw { len: 6 }, Seg::Raw { len: 5 }], &ch),
        Ok(b">hello world".to_vec())
    );
    assert_eq!(render(&[], &ch), Ok(b">".to_vec()));
}

#[test]
fn render_errors() {
    let mut ch = Channels::default();
    ch.plain.extend_from_slice(b"hello");
    let stream = |corrections_len: u64, plain_len: u64, n: u64| DeflateSeg {
        corrections_len,
        plain_len,
        inner: vec![Seg::Raw { len: n }],
    };
    assert_eq!(render(&[Seg::Raw { len: 6 }], &ch), Err(Error::PlainUnderrun));
    assert_eq!(render(&[Seg::Raw { len: u64::MAX }], &ch), Err(Error::PlainUnderrun));
    assert_eq!(render(&[Seg::Deflate(stream(1, 5, 5))], &ch), Err(Error::CorrectionsUnderrun));
    assert_eq!(
        render(&[Seg::Deflate(stream(0, 4, 5))], &ch),
        Err(Error::StreamPlainMismatch { got: 5, want: 4 })
    );
    assert_eq!(render(&[Seg::Deflate(stream(0, 5, 5))], &ch), Err(Error::PreflateFailed));
    assert_eq!(
        render(&[Seg::Gzip { header_len: 6, body: stream(0, 0, 0) }], &ch),
        Err(Error::PlainUnderrun)
    );
    assert_eq!(render(&[Seg::Jpeg { lepton_len: 1, orig_len: 1 }], &ch), Err(Error::LeptonUnderrun));
    ch.lepton.extend_from_slice(b"this is no image at all");
    assert_eq!(render(&[Seg::Jpeg { lepton_len: 20, orig_len: 1 }], &ch), Err(Error::LeptonFailed));
    let mut p = image(2, 2, 0);
    p.plain_len = 6;
    assert_eq!(render(&[Seg::PngIdat(p.clone())], &ch), Err(Error::PlainUnderrun));
    p.pixels = PixelEnc::Unfiltered { blob: 0 };
    assert_eq!(render(&[Seg::PngIdat(p.clone())], &ch), Err(Error::FiltersUnderrun));
    ch.filters.extend_from_slice(&[0, 0]);
    assert_eq!(render(&[Seg::PngIdat(p.clone())], &ch), Err(Error::MissingBlob(0)));
    ch.pixel_blobs.push(PixelBlob { data: vec![1, 2, 3, 4], stride: 2, bpp: 1 });
    p.plain_len = 7;
    assert_eq!(render(&[Seg::PngIdat(p.clone())], &ch), Err(Error::ImagePlainMismatch));
    p.plain_len = 6;
    p.corrections_len = 1;
    assert_eq!(render(&[Seg::PngIdat(p)], &ch), Err(Error::CorrectionsUnderrun));
}

#[test]
fn unfiltering_gives_the_pixels_back() {
    for (color, bpp) in [(0u8, 1usize), (2, 3), (4, 2), (6, 4)] {
        let p = image(13, 10, color);
        let filters: Vec<u8> = (0..10).map(|y| (y * 3 % 5) as u8).collect();
        let pixels = noise(13 * bpp * 10);
        let plain = refilter(&p, &filters, &pixels).unwrap();
        assert_eq!(unfilter(&p, &plain), Some((filters, pixels)));
    }
}

#[test]
fn an_error_keeps_what_came_before() {
    let mut ch = Channels::default();
    ch.plain.extend_from_slice(b"hello");
    let mut cur = Cursors::new(&ch);
    let mut out = b">".to_vec();
    let body = DeflateSeg { corrections_len: 9, plain_len: 1, inner: vec![Seg::Raw { len: 1 }] };
    let segs = [Seg::Raw { len: 2 }, Seg::Gzip { header_len: 1, body }, Seg::Raw { len: 1 }];
    assert_eq!(render_segs(&segs, &mut cur, &mut out), Err(Error::CorrectionsUnderrun));
    assert_eq!(out, b">he");
}
