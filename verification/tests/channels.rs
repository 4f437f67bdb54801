use densezip::channels::{sub_green, Channels, Cursors, PixelBlob};
use densezip::error::Error;

#[test]
fn green_comes_back() {
    let rgb = vec![10u8, 20, 30, 250, 5, 0, 1, 2];
    let out = sub_green(&rgb, 3, true);
    assert_eq!(out, vec![246, 20, 10, 245, 5, 251, 1, 2]);
    assert_eq!(sub_green(&out, 3, false), rgb);
    for bpp in [0usize, 1, 2, 3, 4, 7, 100] {
        let data: Vec<u8> = (0..=255).collect();
        assert_eq!(sub_green(&sub_green(&data, bpp, true), bpp, false), data);
        assert_eq!(sub_green(&sub_green(&data, bpp, false), bpp, true), data);
    }
    assert_eq!(sub_green(&rgb, 2, true), rgb);
}

#[test]
fn rolling_back() {
    let mut ch = Channels::default();
    ch.plain.extend_from_slice(b"keep");
    ch.filters.push(1);
    let m = ch.mark(5);
    assert_eq!((m.plain, m.filters, m.pixel_blobs, m.segs), (4, 1, 0, 5));
    ch.plain.extend_from_slice(b"drop");
    ch.corrections.push(7);
    ch.lepton.push(8);
    ch.filters.push(2);
    ch.pixel_blobs.push(PixelBlob { data: vec![1], stride: 1, bpp: 1 });
    ch.rollback(m);
    assert_eq!(ch.plain, b"keep");
    assert_eq!(ch.filters, vec![1]);
    assert!(ch.corrections.is_empty() && ch.lepton.is_empty() && ch.pixel_blobs.is_empty());
}

#[test]
fn reading_channels() {
    let mut ch = Channels::default();
    ch.plain.extend_from_slice(b"abcdef");
    ch.corrections.push(1);
    ch.filters.push(2);
    ch.lepton.push(3);
    let mut cur = Cursors::new(&ch);
    assert_eq!(cur.take_plain(2), Ok(&b"ab"[..]));
    assert_eq!(cur.take_plain(5), Err(Error::PlainUnderrun));
    assert_eq!(cur.take_plain(4), Ok(&b"cdef"[..]));
    assert_eq!(cur.take_plain(0), Ok(&b""[..]));
    assert_eq!(cur.take_corrections(1), Ok(&[1u8][..]));
    assert_eq!(cur.take_corrections(1), Err(Error::CorrectionsUnderrun));
    assert_eq!(cur.take_filters(2), Err(Error::FiltersUnderrun));
    assert_eq!(cur.take_filters(1), Ok(&[2u8][..]));
    assert_eq!(cur.take_lepton(1), Ok(&[3u8][..]));
    assert_eq!(cur.take_lepton(1), Err(Error::LeptonUnderrun));
}

#[test]
fn joining_channels() {
    let mut a = Channels::default();
    a.plain.extend_from_slice(b"one");
    let mut b = Channels::default();
    b.plain.extend_from_slice(b"two");
    b.lepton.push(4);
    b.pixel_blobs.push(PixelBlob { data: vec![1, 2], stride: 2, bpp: 1 });
    a.join(b);
    assert_eq!(a.plain, b"onetwo");
    assert_eq!(a.lepton, vec![4]);
    assert_eq!(a.pixel_blobs.len(), 1);
}
