use densezip::error::Error;
use densezip::util::bytes::same;
use densezip::util::text::{decimal, push_left, push_right};
use densezip::util::{adler32, available_ram_bytes, human, write_varint, xxh3, Reader};

#[test]
fn varints_round_trip() {
    for v in [0, 1, 127, 128, 300, 16_383, 16_384, u32::MAX as u64, 1 << 63, u64::MAX] {
        let mut out = vec![9u8];
        write_varint(&mut out, v);
        let mut r = Reader::new(&out);
        assert_eq!(r.byte(), Ok(9));
        assert_eq!(r.varint(), Ok(v));
        assert_eq!(r.pos, out.len());
    }
    let mut out = Vec::new();
    write_varint(&mut out, 300);
    assert_eq!(out, vec![0xac, 2]);
}

#[test]
fn reader_errors() {
    let mut r = Reader::new(&[]);
    assert_eq!(r.byte(), Err(Error::TruncatedByte));
    assert_eq!(r.varint(), Err(Error::TruncatedVarint));
    assert_eq!(r.bytes(1), Err(Error::TruncatedBytes { want: 1, have: 0 }));
    let mut r = Reader::new(&[0x80, 0x80]);
    assert_eq!(r.varint(), Err(Error::TruncatedVarint));
    // ten bytes are the most; what is above the 64th bit is dropped
    let long = [0xffu8, 0xff, 0xff, 0xff, 0xff, 0xff, 0xff, 0xff, 0xff, 0x7f];
    assert_eq!(Reader::new(&long).varint(), Ok(u64::MAX));
    let over = [0x80u8, 0x80, 0x80, 0x80, 0x80, 0x80, 0x80, 0x80, 0x80, 0x80, 0];
    assert_eq!(Reader::new(&over).varint(), Err(Error::VarintOverflow));
    let mut r = Reader::new(&[1, 2, 3]);
    assert_eq!(r.bytes(2), Ok(&[1u8, 2][..]));
    assert_eq!(r.bytes(2), Err(Error::TruncatedBytes { want: 2, have: 1 }));
    assert_eq!(r.pos, 2);
    assert_eq!(r.bytes(usize::MAX), Err(Error::TruncatedBytes { want: usize::MAX as u64, have: 1 }));
    assert_eq!(r.pos, 2);
    assert_eq!(r.bytes_long(u64::MAX), Err(Error::TruncatedBytes { want: u64::MAX, have: 1 }));
    assert_eq!(r.bytes_long(1), Ok(&[3u8][..]));
}

#[test]
fn checksums() {
    assert_eq!(adler32(b""), 1);
    assert_eq!(adler32(b"Wikipedia"), 0x11e6_0398);
    // long runs wrap both sums many times
    assert_eq!(adler32(&vec![0xffu8; 1_000_000]), {
        let (mut a, mut b) = (1u64, 0u64);
        for _ in 0..1_000_000 {
            a = (a + 255) % 65521;
            b = (b + a) % 65521;
        }
        (b << 16 | a) as u32
    });
    assert_eq!(xxh3(b""), 0x2d06_8005_38d3_94c2);
    assert_eq!(xxh3(b"densezip"), xxhash_rust::xxh3::xxh3_64(b"densezip"));
    assert!(xxh3(b"a") != xxh3(b"b"));
}

fn by_format(n: u64) -> String {
    if n >= 10 * 1024 * 1024 {
        format!("{:.1} MiB", n as f64 / (1024.0 * 1024.0))
    } else if n >= 10 * 1024 {
        format!("{:.1} KiB", n as f64 / 1024.0)
    } else {
        format!("{} B", n)
    }
}

#[test]
fn human_sizes() {
    assert_eq!(human(0), "0 B");
    assert_eq!(human(10_239), "10239 B");
    assert_eq!(human(10_240), "10.0 KiB");
    assert_eq!(human(10 * 1024 * 1024 - 1), "10240.0 KiB");
    assert_eq!(human(10 * 1024 * 1024), "10.0 MiB");
    // halfway between two tenths: to the even one
    assert_eq!(human(10 * 1024 + 256), "10.2 KiB");
    assert_eq!(human(10 * 1024 + 768), "10.8 KiB");
    let mut n = 1u64;
    for _ in 0..20_000 {
        n = n.wrapping_mul(6364136223846793005).wrapping_add(1442695040888963407);
        for shift in [0, 3, 10, 11, 12, 20, 30, 40, 50] {
            assert_eq!(human(n >> shift), by_format(n >> shift));
        }
    }
    for k in 0..40_000u64 {
        assert_eq!(human(10_240 + k), by_format(10_240 + k));
        assert_eq!(human(10_485_760 + 65_536 * k), by_format(10_485_760 + 65_536 * k));
    }
    for n in [1 << 53, (1 << 53) + 1, (1 << 54) + 2, u64::MAX - 1024, u64::MAX - 1023, u64::MAX] {
        assert_eq!(human(n), by_format(n));
    }
}

#[test]
fn numbers_and_columns() {
    for n in [0, 7, 10, 99, 100, 1_234_567_890, u64::MAX] {
        assert_eq!(decimal(n), n.to_string());
    }
    let mut s = String::from("|");
    push_right(&mut s, "h\u{e9}", 4);
    push_left(&mut s, "ab", 4);
    push_right(&mut s, "longer", 3);
    push_left(&mut s, "|", 1);
    assert_eq!(s, "|  h\u{e9}ab  longer|");
}

#[test]
fn available_memory() {
    let gib8 = 8u64 << 30;
    assert_eq!(available_ram_bytes(None), gib8);
    assert_eq!(available_ram_bytes(Some("")), gib8);
    let text = "MemTotal:       16303100 kB\nMemFree:          112 kB\nMemAvailable:    9876543 kB\nBuffers: 1 kB\n";
    assert_eq!(available_ram_bytes(Some(text)), 9_876_543 * 1024);
    // a line that says no number is passed over
    assert_eq!(available_ram_bytes(Some("MemAvailable: lots\nMemAvailable:\u{2003}+5 kB")), 5 * 1024);
    assert_eq!(available_ram_bytes(Some("MemAvailable:\r\nMemAvailable:7\r\n")), 7 * 1024);
    assert_eq!(available_ram_bytes(Some("MemAvailable: 99999999999999999999999 kB")), gib8);
    assert_eq!(available_ram_bytes(Some(" MemAvailable: 5 kB")), gib8);
    assert_eq!(available_ram_bytes(Some("MemAvailable: 18446744073709551615")), u64::MAX);
}

#[test]
fn same_runs() {
    assert!(same(b"", b""));
    assert!(same(b"abc", b"abc"));
    assert!(!same(b"abc", b"abd"));
    assert!(!same(b"abc", b"ab"));
}
