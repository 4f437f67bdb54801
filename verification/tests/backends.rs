use densezip::backends::{
    by_name, check_len, compress_best, compress_best_hint, compress_one_hint,
    compress_one_public_hint, decompress, name, pick_best, race, racer_ids, run_backend, run_ticking,
    shorter, try_backend, Attempt, MemBudget, BROTLI, CM, LZMA, STORE, ZSTD,
};
use densezip::cm::{compress_ticking, decompress_ticking};
use densezip::error::Error;
use densezip::progress::race_units;

fn text() -> Vec<u8> {
    "a line of text that comes again and again, with a number 12345\n".repeat(300).into_bytes()
}

#[test]
fn names_of_backends() {
    assert_eq!([name(0), name(1), name(2), name(3), name(4), name(5), name(255)], [
        "store", "zstd", "brotli", "lzma", "dzcm", "?", "?"
    ]);
    for (s, id) in [("store", STORE), ("zstd", ZSTD), ("brotli", BROTLI), ("lzma", LZMA), ("cm", CM)] {
        assert_eq!(by_name(&s.to_string()), Some(id));
    }
    assert_eq!(by_name(&"dzcm".to_string()), None);
    assert_eq!(by_name(&"".to_string()), None);
}

#[test]
fn shares_of_a_budget() {
    let all = MemBudget::unlimited();
    assert_eq!((all.cm_cap(), all.lzma_dict_cap()), (u64::MAX, 1 << 30));
    let gib = MemBudget { bytes: 1 << 30 };
    assert_eq!((gib.cm_cap(), gib.lzma_dict_cap()), (1 << 29, (1 << 30) / 24));
    let small = MemBudget { bytes: 1000 };
    assert_eq!((small.cm_cap(), small.lzma_dict_cap()), (500, 1 << 20));
}

#[test]
fn every_backend_round_trips() {
    let data = text();
    for id in [STORE, ZSTD, BROTLI, LZMA, CM] {
        let comp = compress_one_public_hint(id, &data, 0, 0).unwrap();
        if id == STORE {
            assert_eq!(comp, data);
        } else {
            assert!(comp.len() < data.len() / 10, "{}: {}", name(id), comp.len());
        }
        assert!(decompress(id, &comp, data.len()).unwrap() == data, "{}", name(id));
        // and where the length is not what was said, that is an error
        assert!(decompress(id, &comp, data.len() + 1).is_err(), "{}", name(id));
        let kept = try_backend(id, &data, 0, 0, MemBudget { bytes: 1 << 28 }).unwrap();
        assert!(decompress(id, &kept, data.len()).unwrap() == data);
    }
}

#[test]
fn every_backend_takes_nothing() {
    for id in [STORE, ZSTD, BROTLI, LZMA, CM] {
        let comp = compress_one_public_hint(id, b"", 0, 0).unwrap();
        assert_eq!(decompress(id, &comp, 0), Ok(Vec::new()), "{}", name(id));
    }
}

#[test]
fn backend_errors() {
    assert_eq!(compress_one_public_hint(9, b"x", 0, 0), Err(Error::UnknownBackend(9)));
    assert_eq!(decompress(9, b"x", 1), Err(Error::UnknownBackend(9)));
    assert_eq!(decompress(STORE, b"abc", 2), Err(Error::BackendLength { id: 0, got: 3, want: 2 }));
    for id in [ZSTD, BROTLI, LZMA] {
        assert_eq!(decompress(id, b"\xff\xff\xffthis is no stream", 5), Err(Error::BackendFailed(id)));
    }
    let z = compress_one_public_hint(ZSTD, b"abcdef", 0, 0).unwrap();
    assert_eq!(decompress(ZSTD, &z, 5), Err(Error::BackendLength { id: 1, got: 6, want: 5 }));
    assert_eq!(check_len(7, vec![1, 2], 2), Ok(vec![1, 2]));
    assert_eq!(check_len(7, vec![1, 2], 3), Err(Error::BackendLength { id: 7, got: 2, want: 3 }));
}

#[test]
fn mixer_errors() {
    let good = compress_one_public_hint(CM, b"hello hello", 0, 0).unwrap();
    let bent = |i: usize, b: u8| {
        let mut v = good.clone();
        v[i] = b;
        decompress(CM, &v, 11)
    };
    assert!(matches!(bent(0, 0), Err(Error::VersionMismatch(0))));
    assert_eq!(bent(1, 15), Err(Error::BadTableBits));
    assert_eq!(bent(1, 31), Err(Error::BadTableBits));
    assert_eq!(bent(2, 15), Err(Error::BadMatchBits));
    assert_eq!(bent(5, 17), Err(Error::BadStride));
    assert_eq!(
        decompress(CM, &good, 12),
        Err(Error::StreamLengthMismatch { stored: 11, expected: 12 })
    );
    assert_eq!(decompress(CM, b"", 0), Err(Error::TruncatedByte));
    assert_eq!(decompress(CM, &good[..4], 11), Err(Error::TruncatedVarint));
}

#[test]
fn hints_for_records() {
    let mut rows = Vec::new();
    for i in 0..2000u32 {
        rows.extend_from_slice(&[i as u8, (i / 7) as u8, 3, (i / 3) as u8]);
    }
    let mem = MemBudget { bytes: 1 << 28 };
    let comp = compress_one_hint(CM, &rows, 4, 4, mem).unwrap();
    assert!(decompress(CM, &comp, rows.len()).unwrap() == rows);
    // a stride that no reader takes is found out
    assert!(try_backend(CM, &rows, 0x10_0001, 4, mem).is_none());
}

#[test]
fn the_best_is_kept() {
    let data = text();
    let (id, comp) = compress_best(&data, true);
    assert!(decompress(id, &comp, data.len()).unwrap() == data);
    for other in [ZSTD, BROTLI, LZMA, CM] {
        let c = compress_one_public_hint(other, &data, 0, 0).unwrap();
        assert!(comp.len() <= c.len(), "{} beats the best", name(other));
    }
    let (id, comp) = compress_best_hint(&data, false, 0, 0, MemBudget { bytes: 1 << 28 });
    assert!(id == ZSTD || id == BROTLI || id == LZMA);
    assert!(decompress(id, &comp, data.len()).unwrap() == data);
}

#[test]
fn nothing_grows() {
    assert_eq!(compress_best(b"", true), (STORE, Vec::new()));
    assert_eq!(compress_best(b"x", false), (STORE, b"x".to_vec()));
    let mut x = 88172645463325252u64;
    let noise: Vec<u8> = (0..5000)
        .map(|_| {
            x ^= x << 13;
            x ^= x >> 7;
            x ^= x << 17;
            x as u8
        })
        .collect();
    assert_eq!(compress_best(&noise, true), (STORE, noise.clone()));
}

#[test]
fn ties_go_to_the_first() {
    let attempt = |id: u8, n: Option<usize>| Attempt { id, comp: n.map(|n| vec![id; n]) };
    let data = [9u8; 10];
    let tried = vec![attempt(1, Some(7)), attempt(2, Some(5)), attempt(3, Some(5)), attempt(4, None)];
    assert_eq!(pick_best(&data, tried), (2, vec![2; 5]));
    // no shorter than the data is no use
    assert_eq!(pick_best(&data, vec![attempt(1, Some(10))]), (STORE, data.to_vec()));
    assert_eq!(pick_best(&data, vec![attempt(1, None)]), (STORE, data.to_vec()));
    assert_eq!(pick_best(&data, Vec::new()), (STORE, data.to_vec()));
    assert_eq!(shorter(vec![1, 2], vec![3, 4]), vec![1, 2]);
    assert_eq!(shorter(vec![1, 2], vec![3]), vec![3]);
}

#[test]
fn no_backend_beats_the_winner() {
    let data = text();
    let mem = MemBudget::unlimited();
    let ((id, comp), failed) = race(&data, true, 0, 0, mem);
    assert!(!failed && id != STORE);
    assert_eq!(decompress(id, &comp, data.len()).unwrap(), data);
    for k in [ZSTD, BROTLI, LZMA, CM] {
        let (out, fails) = run_backend(k, &data, 0, 0, mem);
        assert!(!fails);
        assert!(comp.len() <= out.unwrap().len());
    }
    let ((id, comp), failed) = race(b"", true, 0, 0, mem);
    assert!(!failed && id == STORE && comp.is_empty());
}

#[test]
fn ticks_add_up() {
    let data: Vec<u8> = (0..10_000u32).map(|i| (i * i >> 7) as u8).collect();
    let mem = MemBudget { bytes: 1 << 28 };
    for use_cm in [false, true] {
        let done = std::cell::Cell::new(0u64);
        let tick = |bytes: u64, weight: u64| done.set(done.get() + bytes * weight);
        for id in racer_ids(use_cm) {
            let (comp, failed) = run_ticking(id, &data, 0, 0, mem, &tick);
            assert!(comp.is_some() && !failed);
        }
        assert_eq!(done.get(), race_units(10_000, use_cm));
    }
    // the context mixer says how far it is
    let calls = std::cell::RefCell::new(Vec::new());
    let comp = compress_ticking(&data, 0, 0, u64::MAX, &|n: u64| calls.borrow_mut().push(n)).unwrap();
    assert_eq!(*calls.borrow(), [4096, 4096, 1808]);
    let back = decompress_ticking(&comp, data.len(), &|n: u64| calls.borrow_mut().push(n)).unwrap();
    assert!(back == data);
    assert_eq!(calls.borrow().len(), 6);
}

#[test]
fn backends_that_race() {
    assert_eq!(racer_ids(false), [ZSTD, BROTLI, LZMA]);
    assert_eq!(racer_ids(true), [ZSTD, BROTLI, LZMA, CM]);
}
