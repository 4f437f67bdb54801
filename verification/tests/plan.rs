use densezip::error::Error;
use densezip::plan::{read_segs, remap_blobs, write_segs, DeflateSeg, PixelEnc, PngIdatSeg, Seg};
use densezip::util::{write_varint, Reader};

fn image(pixels: PixelEnc) -> PngIdatSeg {
    PngIdatSeg {
        chunk_lens: vec![8192, 100],
        zlib_header: [0x78, 0x9c],
        tail: vec![1, 2, 3],
        corrections_len: 17,
        plain_len: 99_000,
        width: 300,
        height: 110,
        bit_depth: 8,
        color_type: 2,
        pixels,
    }
}

fn one_of_each() -> Vec<Seg> {
    vec![
        Seg::Raw { len: 1 << 40 },
        Seg::Deflate(DeflateSeg { corrections_len: 1, plain_len: 2, inner: Vec::new() }),
        Seg::Zlib {
            header: [0x78, 0xda],
            body: DeflateSeg {
                corrections_len: 300,
                plain_len: 70,
                inner: vec![Seg::Raw { len: 70 }, Seg::PngIdat(image(PixelEnc::Unfiltered { blob: 2 }))],
            },
        },
        Seg::Gzip {
            header_len: 10,
            body: DeflateSeg { corrections_len: 0, plain_len: 5, inner: vec![Seg::Raw { len: 5 }] },
        },
        Seg::PngIdat(image(PixelEnc::Filtered)),
        Seg::PngIdat(image(PixelEnc::Unfiltered { blob: 7 })),
        Seg::Jpeg { lepton_len: 3, orig_len: 4 },
    ]
}

#[test]
fn segments_round_trip() {
    let segs = one_of_each();
    let mut out = b"before".to_vec();
    write_segs(&mut out, &segs);
    out.extend_from_slice(b"behind");
    let mut r = Reader::new(&out);
    r.pos = 6;
    let back = read_segs(&mut r).unwrap();
    assert_eq!(format!("{:?}", back), format!("{:?}", segs));
    assert_eq!(&out[r.pos..], b"behind");
}

#[test]
fn exact_bytes_of_segments() {
    let mut out = Vec::new();
    write_segs(&mut out, &[Seg::Raw { len: 300 }, Seg::Jpeg { lepton_len: 1, orig_len: 2 }]);
    assert_eq!(out, vec![2, 0, 0xac, 2, 5, 1, 2]);
}

fn read(bytes: &[u8]) -> Result<Vec<Seg>, Error> {
    read_segs(&mut Reader::new(bytes))
}

#[test]
fn segment_errors() {
    assert!(matches!(read(&[]), Err(Error::TruncatedVarint)));
    assert!(matches!(read(&[1]), Err(Error::TruncatedByte)));
    assert!(matches!(read(&[1, 9]), Err(Error::BadSegmentTag(9))));
    let mut many = Vec::new();
    write_varint(&mut many, (1 << 24) + 1);
    assert!(matches!(read(&many), Err(Error::ImplausibleSegments(n)) if n == (1 << 24) + 1));
    let mut chunks = vec![1, 4];
    write_varint(&mut chunks, (1 << 22) + 1);
    assert!(matches!(read(&chunks), Err(Error::ImplausibleChunks)));
    // no chunks, a header, no tail, four numbers, two bytes and the pixels' mode
    let bad_mode = [1, 4, 0, 0x78, 0x9c, 0, 0, 0, 0, 0, 8, 2, 2];
    assert!(matches!(read(&bad_mode), Err(Error::BadPixelMode(2))));
    let tail = [1, 4, 0, 0x78, 0x9c, 9, 1];
    assert!(matches!(read(&tail), Err(Error::TruncatedBytes { want: 9, have: 1 })));
    // every prefix of good segments is an error, never a crash
    let mut out = Vec::new();
    write_segs(&mut out, &one_of_each());
    for n in 0..out.len() {
        assert!(read(&out[..n]).is_err());
    }
}

#[test]
fn blobs_are_moved() {
    let mut segs = one_of_each();
    remap_blobs(&mut segs, 100);
    let text = format!("{:?}", segs);
    assert!(text.contains("blob: 102") && text.contains("blob: 107"));
    assert!(!text.contains("blob: 2 ") && !text.contains("blob: 7 "));
    let mut same = one_of_each();
    remap_blobs(&mut same, 0);
    assert_eq!(format!("{:?}", same), format!("{:?}", one_of_each()));
}

#[test]
fn shapes_of_images() {
    let shape = |bit_depth: u8, color_type: u8, width: u32| {
        let p = PngIdatSeg { bit_depth, color_type, width, ..image(PixelEnc::Filtered) };
        (p.filter_bpp(), p.stride())
    };
    assert_eq!(shape(8, 2, 300), (3, 900));
    assert_eq!(shape(8, 6, 300), (4, 1200));
    assert_eq!(shape(16, 4, 10), (4, 40));
    assert_eq!(shape(1, 0, 9), (1, 2));
    assert_eq!(shape(4, 3, 3), (1, 2));
    // a pixel has at least one byte, as filters count
    assert_eq!(shape(0, 0, 5), (1, 0));
}
