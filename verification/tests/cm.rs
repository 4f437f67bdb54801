use densezip::cm::coder::{Decoder, Encoder};
use densezip::cm::model::Model;
use densezip::cm::squash::{build_stretch, squash};
use densezip::cm::stride::detect_stride;
use densezip::cm::transform::looks_like_x86;
use densezip::cm::{
    build_states, compress, compress_with_stride, decompress, e8e9_apply, model_mem_bytes, CmConfig,
};

fn roundtrip(data: &[u8]) {
    let comp = compress(data).unwrap();
    let back = decompress(&comp, data.len()).unwrap();
    assert!(back == data, "roundtrip failed for {} bytes", data.len());
}

#[test]
fn mem_cap_bounds_model() {
    // uncapped: a 100 MB input wants big tables
    let big = CmConfig::for_len_capped(100 << 20, u64::MAX);
    assert_eq!(big.table_bits, 26);
    // 1 GiB cap must fit: tables of 4-byte slots, matches and slack
    let capped = CmConfig::for_len_capped(100 << 20, 1 << 30);
    assert!(model_mem_bytes(capped.table_bits, capped.match_bits) <= 1 << 30);
    assert!(capped.table_bits < big.table_bits);
    // tiny caps floor at 16 bits instead of underflowing
    let tiny = CmConfig::for_len_capped(100 << 20, 1);
    assert_eq!(tiny.table_bits, 16);
    // capped streams still round-trip
    let s = "compressible text under a small memory cap. ".repeat(5000);
    let comp = compress_with_stride(s.as_bytes(), 0, 0, 64 << 20).unwrap();
    let back = decompress(&comp, s.len()).unwrap();
    assert!(back == s.as_bytes());
}

#[test]
fn state_table_sane() {
    let st = build_states();
    assert!(st.counts.len() <= 256, "too many states: {}", st.counts.len());
    assert_eq!(st.counts[0], (0, 0));
    for s in 0..st.counts.len() {
        for b in 0..2 {
            assert!((st.next[s][b] as usize) < st.counts.len());
        }
    }
}

#[test]
fn e8e9_roundtrip() {
    let mut data = vec![0u8; 100];
    data[10] = 0xE8;
    data[30] = 0xE9;
    data[36] = 0xE8;
    let orig = data.clone();
    e8e9_apply(&mut data, true);
    e8e9_apply(&mut data, false);
    assert_eq!(data, orig);
}

#[test]
fn empty() {
    roundtrip(b"");
}

#[test]
fn tiny() {
    roundtrip(b"a");
    roundtrip(b"ab");
    roundtrip(b"hello world");
}

#[test]
fn repetitive_text() {
    let s = "the quick brown fox jumps over the lazy dog. ".repeat(2000);
    let comp = compress(s.as_bytes()).unwrap();
    assert!(comp.len() < s.len() / 20, "repetitive text should crush: {}", comp.len());
    roundtrip(s.as_bytes());
}

#[test]
fn binary_random() {
    // xorshift pseudo-random: incompressible, must still round-trip
    let mut x = 0x12345678u64;
    let mut v = Vec::new();
    for _ in 0..100_000 {
        x ^= x << 13;
        x ^= x >> 7;
        x ^= x << 17;
        v.push(x as u8);
    }
    roundtrip(&v);
}

#[test]
fn all_zeroes() {
    roundtrip(&vec![0u8; 1 << 20]);
}

#[test]
fn x86_like_data() {
    // synthetic "code" with E8 call sites, must round-trip through e8e9
    let mut v = Vec::new();
    let mut x = 7u64;
    for i in 0..300_000u32 {
        x = x.wrapping_mul(6364136223846793005).wrapping_add(1);
        if i % 13 == 0 {
            v.push(0xE8);
            let rel = (x as u32) & 0xffff; // small offset, high byte 00
            v.extend_from_slice(&rel.to_le_bytes());
        } else {
            v.push((x >> 32) as u8 & 0x7f);
        }
    }
    roundtrip(&v);
}

#[test]
fn the_logistic_curve() {
    for x in -2047..=2047i32 {
        let y = 4096.0 / (1.0 + (-(x as f64) / 256.0).exp());
        assert_eq!(squash(x), (y.round() as i32).clamp(1, 4095));
    }
    assert_eq!(squash(-5000), squash(-2047));
    assert_eq!(squash(5000), squash(2047));
    let st = build_stretch();
    assert_eq!(st.len(), 4096);
    assert!(st.windows(2).all(|w| w[0] <= w[1]));
    assert_eq!(st[2048], 0);
}

#[test]
fn branches_by_hand() {
    let mut v = vec![0x90, 0xE8, 0x10, 0, 0, 0, 0x90];
    e8e9_apply(&mut v, true);
    // the target: ten hex plus where the branch stands, highest byte first
    let mut back = v.clone();
    assert_eq!(v[1], 0xE8);
    assert_ne!(v, vec![0x90, 0xE8, 0x10, 0, 0, 0, 0x90]);
    e8e9_apply(&mut back, false);
    assert_eq!(back, vec![0x90, 0xE8, 0x10, 0, 0, 0, 0x90]);
    let mut short = vec![0xE8, 1, 2, 3];
    e8e9_apply(&mut short, true);
    assert_eq!(short, vec![0xE8, 1, 2, 3]);
}

#[test]
fn strides_of_records() {
    let mut rows = Vec::new();
    let mut x = 3u32;
    for i in 0..4000u32 {
        x = x.wrapping_mul(1664525).wrapping_add(1013904223);
        rows.extend_from_slice(b"rec:");
        rows.extend_from_slice(&i.to_be_bytes());
        rows.extend_from_slice(&[(x >> 24) as u8, (x >> 16) as u8, 7, 7]);
    }
    assert_eq!(detect_stride(&rows) % 12, 0);
    assert!(detect_stride(&rows) > 0);
    assert_eq!(detect_stride(&rows[..1000]), 0);
    roundtrip(&rows);
}

#[test]
fn code_is_told_from_text() {
    let mut code = Vec::new();
    for i in 0..20_000u32 {
        code.extend_from_slice(&[0xE8, i as u8, (i >> 8) as u8, 0, 0, 0x90, 0x55]);
    }
    assert!(looks_like_x86(&code));
    assert!(!looks_like_x86(&code[..1000]));
    assert!(!looks_like_x86(&"plain text ".repeat(20_000).into_bytes()));
}

#[test]
fn branches_the_other_way() {
    let mut data: Vec<u8> = (0..200u32).map(|i| (i * 37 % 251) as u8).collect();
    data[20] = 0xE8;
    data[77] = 0xE9;
    let before = data.clone();
    e8e9_apply(&mut data, false);
    assert!(data != before);
    e8e9_apply(&mut data, true);
    assert_eq!(data, before);
}

#[test]
fn bits_under_any_probabilities() {
    let mut x = 9u32;
    let mut next = || {
        x = x.wrapping_mul(1664525).wrapping_add(1013904223);
        x >> 16
    };
    let coded: Vec<(i32, i32)> =
        (0..5000).map(|_| ((next() & 1) as i32, (next() % 4095) as i32 + 1)).collect();
    let mut enc = Encoder::new();
    for &(bit, p) in &coded {
        enc.encode(bit, p);
    }
    let out = enc.flush();
    let mut dec = Decoder::new(&out);
    for &(bit, p) in &coded {
        assert_eq!(dec.decode(p), bit);
    }
}

#[test]
fn matches_are_repeats() {
    let mut m = Model::new(&CmConfig::for_len_capped(2000, 1));
    let text = "abcdefghij, abcdefghij; abcdefghiX abcdefghij, abcdefghij".repeat(3);
    let mut seen = false;
    for byte in text.bytes() {
        for j in (0..8).rev() {
            m.predict();
            m.update(((byte >> j) & 1) as i32);
        }
        let (len, pos, n) = (m.matcher.len as usize, m.matcher.pos, m.hist.buf.len());
        if len > 0 {
            seen = true;
            assert!(8 <= len && len <= pos && pos < n);
            assert_eq!(m.hist.buf[pos - len..pos], m.hist.buf[n - len..n]);
        }
    }
    assert!(seen);
    assert_eq!(m.hist.buf, text.as_bytes());
}
