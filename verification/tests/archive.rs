use densezip::archive::budget::{auto_budget, split_budget};
use densezip::archive::create::pack_planned;
use densezip::archive::open::{find_toc, open_by, payload_starts, read_table};
use densezip::archive::order::{order, order_inputs};
use densezip::archive::output::{extract_entry, is_safe, verify, Output};
use densezip::archive::pack::{assemble, compress_job, job, make_toc, pick, seal, Parcel};
use densezip::archive::report::{channel_lines, count, label};
use densezip::archive::stage::{commit, plan_file, settle, stage_file};
use densezip::archive::toc::{read_toc, write_toc, BlobMeta, Toc};
use densezip::archive::{extract, list, pack, pack_flagged, read_archive, Archive, Entry, Source};
use densezip::backends::{racer_ids, try_backend, MemBudget, STORE};
use densezip::channels::{Channels, Cursors, PixelBlob, PIXEL_IDENTITY, PIXEL_SUB_GREEN};
use densezip::error::Error;
use densezip::plan::Seg;
use densezip::util::{write_varint, xxh3};

const BUDGET: u64 = 1 << 30;

fn file(path: &str, data: &[u8]) -> Source {
    Source { path: path.to_string(), is_dir: false, data: data.to_vec() }
}

fn dir(path: &str) -> Source {
    Source { path: path.to_string(), is_dir: true, data: Vec::new() }
}

fn bytes_of(sources: &Vec<Source>) -> Vec<u8> {
    pack(sources, false, true, BUDGET).unwrap().bytes
}

#[test]
fn entries_by_path() {
    let v = vec![file("b", b"1"), file("a/z", b"2"), dir("a"), file("a.txt", b"4")];
    let a = read_archive(&bytes_of(&v)).unwrap();
    let paths: Vec<&str> = a.entries.iter().map(|e| e.path.as_str()).collect();
    assert_eq!(paths, ["a", "a.txt", "a/z", "b"]);
    assert_eq!(extract(&a).unwrap()[3], Output::File(b"1".to_vec()));
}

#[test]
fn two_inputs_under_one_path() {
    let v = vec![file("f", b"1"), file("a", b"2"), file("f", b"3")];
    assert!(matches!(pack(&v, false, true, BUDGET), Err(Error::DuplicatePath)));
    assert!(matches!(pack(&v, false, false, BUDGET), Err(Error::DuplicatePath)));
    // a file and a directory
    let v = vec![file("f", b""), dir("f")];
    assert!(matches!(pack(&v, false, false, BUDGET), Err(Error::DuplicatePath)));
    // one file, given twice
    let v = vec![file("f", b"same"), dir("d"), file("f", b"same"), dir("d")];
    let a = read_archive(&bytes_of(&v)).unwrap();
    let paths: Vec<&str> = a.entries.iter().map(|e| e.path.as_str()).collect();
    assert_eq!(paths, ["d", "f"]);
    assert_eq!(extract(&a).unwrap(), [Output::Dir, Output::File(b"same".to_vec())]);
    let names = |v: &[&str]| v.iter().map(|s| s.to_string()).collect::<Vec<String>>();
    let origins = |v: &[&str]| v.iter().map(|s| s.as_bytes().to_vec()).collect::<Vec<Vec<u8>>>();
    // two files named "f"
    assert_eq!(
        order_inputs(&names(&["f", "f"]), &origins(&["/p/a/f", "/p/b/f"])),
        Err(Error::DuplicatePath)
    );
    // one file, named twice
    assert_eq!(
        order_inputs(&names(&["f", "a", "f"]), &origins(&["/p/f", "/p/a", "/p/f"])),
        Ok(vec![1, 0])
    );
    // one file under two paths
    assert_eq!(
        order_inputs(&names(&["d/f", "f"]), &origins(&["/p/d/f", "/p/d/f"])),
        Ok(vec![0, 1])
    );
    assert_eq!(order_inputs(&Vec::new(), &Vec::new()), Ok(vec![]));
}

#[test]
fn plans_with_enough_memory() {
    let (p, short) = stage_file("t".to_string(), false, b"hello world");
    assert!(!short);
    assert_eq!(format!("{:?}", p.segs), format!("{:?}", vec![Seg::Raw { len: 11 }]));
    let (p, short) = stage_file("d".to_string(), true, b"");
    assert!(!short && p.is_dir && p.segs.is_empty());
}

#[test]
fn packs_with_enough_memory() {
    let text = b"the same line again and again\n".repeat(40);
    let v = vec![file("t", &text), dir("d")];
    let (packed, short) = pack_flagged(&v, true, true, BUDGET);
    assert!(!short);
    let packed = packed.unwrap();
    assert_eq!(packed.bytes, pack(&v, true, true, BUDGET).unwrap().bytes);
    // the text is the first channel, and no backend does better on it
    let (id, comp_len, raw_len) = packed.toc.infos[0];
    assert_eq!(raw_len as usize, text.len());
    let shortest = racer_ids(true)
        .into_iter()
        .filter_map(|id| try_backend(id, &text, 0, 0, MemBudget { bytes: BUDGET }))
        .map(|c| c.len() as u64)
        .min();
    assert!(id != STORE && Some(comp_len) <= shortest);
    assert!(matches!(pack_flagged(&Vec::new(), true, true, BUDGET), (Err(Error::NoInputs), false)));
}

#[test]
fn order_of_paths() {
    let names = |v: &[&str]| v.iter().map(|s| s.to_string()).collect::<Vec<String>>();
    assert_eq!(order(&Vec::new()), Vec::<usize>::new());
    assert_eq!(order(&names(&["x"])), [0]);
    // the first of equal paths
    assert_eq!(order(&names(&["c", "a", "b", "a", "c"])), [1, 2, 0]);
    assert_eq!(order(&names(&["ab", "a", "", "\u{e9}", "b"])), [2, 1, 0, 4, 3]);
    // the order of the standard library on strings
    let mut v: Vec<String> = (0..500u32).map(|i| format!("{:x}", i.wrapping_mul(2654435761))).collect();
    let r: Vec<String> = order(&v).into_iter().map(|i| v[i].clone()).collect();
    v.sort();
    assert_eq!(r, v);
}

#[test]
fn nothing_to_pack() {
    assert!(matches!(pack(&Vec::new(), true, true, BUDGET), Err(Error::NoInputs)));
}

#[test]
fn exact_layout() {
    // one empty directory: no channel holds anything
    let bytes = bytes_of(&vec![dir("d")]);
    assert_eq!(&bytes[..8], b"DNZA\x01\0\0\0");
    assert_eq!(&bytes[bytes.len() - 8..], b"DNZENDv1");
    let (off, len) = find_toc(&bytes).unwrap();
    assert_eq!(off, 8);
    assert_eq!(8 + len + 24, bytes.len());
    let toc = zstd::stream::decode_all(&bytes[off..off + len]).unwrap();
    // one entry: a directory named by one byte; no blobs; four stored channels
    assert_eq!(toc, [1, 1, 1, b'd', 0, 0, 0, 0, 0, 0, 0, 0, 0, 0, 0, 0, 0]);
}

fn sample_toc() -> Toc {
    let entry = |path: &str, is_dir: bool, size: u64, hash: u64, segs: Vec<Seg>| Entry {
        path: path.to_string(),
        is_dir,
        size,
        hash,
        segs,
    };
    Toc {
        entries: vec![
            entry("dir", true, 0, 0, Vec::new()),
            entry("dir/\u{4f60}", false, 70_000, u64::MAX - 5, vec![Seg::Raw { len: 70_000 }]),
            entry("", false, 0, 1, Vec::new()),
        ],
        metas: vec![BlobMeta { stride: 700, bpp: 3, transform: 1 }],
        infos: vec![(1, 2, 3), (0, 0, 0), (4, 1 << 40, u64::MAX), (2, 5, 6), (3, 7, 8)],
    }
}

#[test]
fn tables_round_trip() {
    let t = sample_toc();
    let mut bytes = write_toc(&t);
    assert_eq!(format!("{:?}", read_toc(&bytes).unwrap()), format!("{:?}", t));
    for n in 0..bytes.len() {
        assert!(read_toc(&bytes[..n]).is_err());
    }
    // what follows the table does not matter
    bytes.push(9);
    assert!(read_toc(&bytes).is_ok());
}

#[test]
fn table_errors() {
    let mut many = Vec::new();
    write_varint(&mut many, (1 << 24) + 1);
    assert!(matches!(read_toc(&many), Err(Error::ImplausibleEntries)));
    let mut blobs = vec![0];
    write_varint(&mut blobs, (1 << 24) + 1);
    assert!(matches!(read_toc(&blobs), Err(Error::ImplausibleBlobs)));
    assert!(matches!(read_toc(&[1, 1, 1, 0xff]), Err(Error::BadPathEncoding)));
    assert!(matches!(read_toc(&[1, 1, 9, b'x']), Err(Error::TruncatedBytes { want: 9, have: 1 })));
    // a flag other than the lowest says nothing
    assert!(!read_toc(&[1, 2, 0, 0, 1, 2, 3, 4, 5, 6, 7, 8, 0, 0, 0, 0, 0, 0, 0, 0, 0, 0, 0, 0, 0, 0])
        .unwrap()
        .entries[0]
        .is_dir);
}

/// An archive with this table, whose payloads are stored one behind the other.
fn forge(toc: &Toc, payload: &[u8]) -> Vec<u8> {
    let comp = zstd::bulk::compress(&write_toc(toc), 19).unwrap();
    let parcels = vec![Parcel { id: STORE, comp: payload.to_vec(), transform: PIXEL_IDENTITY }];
    assemble(&parcels, &comp)
}

fn raw_toc(path: &str, data: &[u8], infos: Vec<(u8, u64, u64)>) -> Toc {
    Toc {
        entries: vec![Entry {
            path: path.to_string(),
            is_dir: false,
            size: data.len() as u64,
            hash: xxh3(data),
            segs: vec![Seg::Raw { len: data.len() as u64 }],
        }],
        metas: Vec::new(),
        infos,
    }
}

fn stored(n: u64) -> Vec<(u8, u64, u64)> {
    vec![(STORE, n, n), (STORE, 0, 0), (STORE, 0, 0), (STORE, 0, 0)]
}

#[test]
fn forged_archives() {
    let good = forge(&raw_toc("f", b"hello", stored(5)), b"hello");
    let t = verify(&good).unwrap();
    assert_eq!((t.files, t.total), (1, 5));
    // another content, or another length
    let other = forge(&raw_toc("f", b"hello", stored(5)), b"jello");
    assert_eq!(verify(&other), Err(Error::ContentMismatch));
    let mut toc = raw_toc("f", b"hello", stored(5));
    toc.entries[0].size = 4;
    assert_eq!(verify(&forge(&toc, b"hello")), Err(Error::ContentMismatch));
    // payloads that reach into the table
    assert!(matches!(
        read_archive(&forge(&raw_toc("f", b"hello", stored(6)), b"hello")),
        Err(Error::PayloadsOverrun)
    ));
    let huge = vec![(STORE, u64::MAX, 5), (STORE, 1, 0), (STORE, 0, 0), (STORE, 0, 0)];
    assert!(matches!(
        read_archive(&forge(&raw_toc("f", b"hello", huge), b"hello")),
        Err(Error::PayloadsOverrun)
    ));
    // a channel with another length than it says
    let short = vec![(STORE, 5, 4), (STORE, 0, 0), (STORE, 0, 0), (STORE, 0, 0)];
    assert!(matches!(
        read_archive(&forge(&raw_toc("f", b"hello", short), b"hello")),
        Err(Error::BackendLength { id: 0, got: 5, want: 4 })
    ));
    let unknown = vec![(77, 5, 5), (STORE, 0, 0), (STORE, 0, 0), (STORE, 0, 0)];
    assert!(matches!(
        read_archive(&forge(&raw_toc("f", b"hello", unknown), b"hello")),
        Err(Error::UnknownBackend(77))
    ));
    let mut sized = raw_toc("f", b"hello", stored(5));
    sized.entries[0].segs = vec![Seg::Raw { len: 6 }];
    assert_eq!(verify(&forge(&sized, b"hello")), Err(Error::PlainUnderrun));
}

#[test]
fn broken_trailers() {
    let good = bytes_of(&vec![file("f", b"some text")]);
    let n = good.len();
    let bent = |at: usize, with: &[u8]| {
        let mut v = good.clone();
        v[at..at + with.len()].copy_from_slice(with);
        read_archive(&v).err()
    };
    assert_eq!(bent(0, b"X"), Some(Error::NotAnArchive));
    assert_eq!(bent(4, &[2]), Some(Error::NotAnArchive));
    assert_eq!(bent(n - 1, b"2"), Some(Error::BadTrailer));
    assert_eq!(bent(n - 24, &u64::MAX.to_le_bytes()), Some(Error::BadTocLocation));
    assert_eq!(bent(n - 16, &u64::MAX.to_le_bytes()), Some(Error::BadTocLocation));
    assert_eq!(bent(n - 16, &[good[n - 16] + 1]), Some(Error::BadTocLocation));
    assert_eq!(bent(n - 24, &[8, 0, 0, 0]), Some(Error::TocFailed));
    assert!(matches!(read_archive(b""), Err(Error::NotAnArchive)));
    assert!(matches!(read_archive(&good[..31]), Err(Error::NotAnArchive)));
}

#[test]
fn opening_with_a_table() {
    let toc = || raw_toc("f", b"hello", stored(5));
    let a = open_by(b"........hello", 13, toc()).unwrap();
    assert_eq!(a.channels.plain, b"hello");
    assert!(matches!(open_by(b"........hello", 12, toc()), Err(Error::PayloadsOverrun)));
    assert!(matches!(open_by(b"........hello", 3, toc()), Err(Error::PayloadsOverrun)));
    let (off, read) = read_table(&forge(&toc(), b"hello")).unwrap();
    assert_eq!(off, 13);
    assert_eq!(format!("{:?}", read), format!("{:?}", toc()));
    assert_eq!(payload_starts(&vec![(0, 3, 0), (0, 0, 0), (0, 4, 0)], 15), Ok(vec![8, 11, 11]));
    assert_eq!(payload_starts(&vec![(0, 3, 0), (0, 5, 0)], 15), Err(Error::PayloadsOverrun));
}

#[test]
fn paths_that_climb() {
    let safe = |s: &str| is_safe(&s.to_string());
    for s in ["a", "a/b", "", ".", "./a", "a/..b", "..a", "a../b", "...", "a/.../b"] {
        assert!(safe(s), "{}", s);
    }
    for s in ["/a", "/", "..", "../a", "a/..", "a/../b", "a//../b"] {
        assert!(!safe(s), "{}", s);
    }
    let a = read_archive(&forge(&raw_toc("../f", b"hello", stored(5)), b"hello")).unwrap();
    assert_eq!(extract(&a), Err(Error::UnsafePath));
}

#[test]
fn files_that_exist() {
    let a = read_archive(&bytes_of(&vec![dir("d"), file("f", b"hello")])).unwrap();
    let mut cur = Cursors::new(&a.channels);
    // a directory may be there
    assert_eq!(extract_entry(&a.entries[0], &mut cur, true, false), Ok(Output::Dir));
    assert_eq!(extract_entry(&a.entries[1], &mut cur, true, false), Err(Error::FileExists));
    let mut cur = Cursors::new(&a.channels);
    assert_eq!(
        extract_entry(&a.entries[1], &mut cur, true, true),
        Ok(Output::File(b"hello".to_vec()))
    );
}

#[test]
fn sizes_that_do_not_add_up() {
    let e = |size: u64, is_dir: bool| Entry {
        path: String::new(),
        is_dir,
        size,
        hash: 0,
        segs: Vec::new(),
    };
    assert_eq!(count(&vec![e(u64::MAX, false), e(1, false)]), Err(Error::SizeOverflow));
    let t = count(&vec![e(5, false), e(0, true), e(7, false)]).unwrap();
    assert_eq!((t.files, t.total), (2, 12));
}

#[test]
fn listings() {
    let big = vec![b'x'; 20_000];
    let v = vec![dir("d"), file("d/f", b"hello"), file("g", &big)];
    let a = read_archive(&bytes_of(&v)).unwrap();
    assert_eq!(list(&a), [
        format!("{:>12}  {}/", "dir", "d"),
        format!("{:>12}  {}", "5 B", "d/f"),
        format!("{:>12}  {}", "19.5 KiB", "g"),
    ]);
}

#[test]
fn channel_reports() {
    assert_eq!([label(0), label(1), label(2), label(3), label(4), label(15)], [
        "plain", "corrections", "filters", "lepton", "pixels#0", "pixels#11"
    ]);
    let lines = channel_lines(&vec![(1, 500, 20_000), (0, 0, 0), (4, 1, 2)]);
    assert_eq!(lines, [
        format!("  channel {:<12} {:>12} -> {:>12}  [{}]", "plain", "19.5 KiB", "500 B", "zstd"),
        format!("  channel {:<12} {:>12} -> {:>12}  [{}]", "filters", "2 B", "1 B", "dzcm"),
    ]);
}

#[test]
fn shares_of_memory() {
    assert_eq!(auto_budget(8 << 30), 6 << 30);
    assert_eq!(auto_budget(u64::MAX), (u64::MAX as u128 * 3 / 4) as u64);
    let mut ch = Channels::default();
    let s = split_budget(1 << 30, &ch);
    assert_eq!((s.concurrent, s.per_job), (1, 1 << 30));
    // one job for four gibibytes, up to the four channels
    let s = split_budget(12 << 30, &ch);
    assert_eq!((s.concurrent, s.per_job), (3, 4 << 30));
    let s = split_budget(100 << 30, &ch);
    assert_eq!((s.concurrent, s.per_job), (4, 25 << 30));
    // what is held counts twice, but a quarter is always left
    ch.plain = vec![0; 1000];
    ch.pixel_blobs.push(PixelBlob { data: vec![0; 100], stride: 10, bpp: 1 });
    assert_eq!(split_budget(10_000, &ch).per_job, 7800);
    assert_eq!(split_budget(2_000, &ch).per_job, 500);
    assert_eq!(split_budget(0, &ch).per_job, 0);
}

#[test]
fn plans_of_files() {
    let p = plan_file("d".to_string(), true, b"ignored");
    assert!(p.is_dir && p.size == 0 && p.hash == 0 && p.segs.is_empty());
    let p = plan_file("f".to_string(), false, b"hello");
    assert_eq!((p.size, p.hash), (5, xxh3(b"hello")));
    assert_eq!(p.delta.plain, b"hello");
    // a plan that is not faithful is not kept
    let p = settle("f".to_string(), b"hello", Vec::new(), Channels::default(), false);
    assert!(matches!(p.segs[..], [Seg::Raw { len: 5 }]));
    assert_eq!(p.delta.plain, b"hello");
    let p = settle("f".to_string(), b"hello", Vec::new(), Channels::default(), true);
    assert!(p.segs.is_empty() && p.delta.plain.is_empty());
}

#[test]
fn plans_laid_together() {
    let files = vec![
        plan_file("a".to_string(), false, b"one "),
        plan_file("b".to_string(), true, b""),
        plan_file("c".to_string(), false, b"two"),
    ];
    let (entries, ch) = commit(files).unwrap();
    assert_eq!(ch.plain, b"one two");
    let a = Archive { entries, channels: ch, channel_info: Vec::new() };
    assert_eq!(extract(&a).unwrap(), [
        Output::File(b"one ".to_vec()),
        Output::Dir,
        Output::File(b"two".to_vec()),
    ]);
    let (packed, failed) = pack_planned(vec![plan_file("a".to_string(), false, b"one ")], false, BUDGET);
    assert!(!failed && verify(&packed.unwrap().bytes).is_ok());
}

#[test]
fn decorrelated_pixels_come_back() {
    // red and blue follow green, which is noise
    let mut x = 99u32;
    let mut data = Vec::new();
    for _ in 0..4000 {
        x = x.wrapping_mul(1664525).wrapping_add(1013904223);
        let g = (x >> 24) as u8;
        data.extend_from_slice(&[g.wrapping_add(3), g, g.wrapping_sub(7)]);
    }
    let mut ch = Channels::default();
    ch.pixel_blobs.push(PixelBlob { data: data.clone(), stride: 120, bpp: 3 });
    let mem = MemBudget { bytes: 1 << 28 };
    let parcels: Vec<Parcel> = (0..5).map(|i| compress_job(&job(&ch, i, false), mem).0).collect();
    assert!(job(&ch, 4, true).races_green() && !job(&ch, 0, true).races_green());
    // corrections and lepton are not for the context mixer
    let mixed: Vec<bool> = (0..5).map(|i| job(&ch, i, true).use_cm).collect();
    assert_eq!(mixed, [true, false, true, false, true]);
    assert_eq!(parcels[4].transform, PIXEL_SUB_GREEN);
    assert!(parcels[4].comp.len() < data.len() / 2);
    let toc = make_toc(Vec::new(), &ch, &parcels);
    assert_eq!(toc.metas, vec![BlobMeta { stride: 120, bpp: 3, transform: PIXEL_SUB_GREEN }]);
    let packed = seal(Vec::new(), &ch, &parcels).unwrap();
    let a = read_archive(&packed.bytes).unwrap();
    assert!(a.channels.pixel_blobs[0].data == data);
    assert_eq!((a.channels.pixel_blobs[0].stride, a.channels.pixel_blobs[0].bpp), (120, 3));
}

#[test]
fn the_shorter_parcel() {
    let p = pick((1, vec![1, 1]), Some((2, vec![2, 2])));
    assert_eq!((p.id, p.transform), (1, PIXEL_IDENTITY));
    let p = pick((1, vec![1, 1]), Some((2, vec![2])));
    assert_eq!((p.id, p.transform), (2, PIXEL_SUB_GREEN));
    let p = pick((1, vec![1, 1]), None);
    assert_eq!((p.id, p.transform), (1, PIXEL_IDENTITY));
}

#[test]
fn packing_without_a_check() {
    let v = vec![file("f", &b"text that is packed ".repeat(50))];
    let checked = pack(&v, false, true, BUDGET).unwrap();
    let plain = pack(&v, false, false, BUDGET).unwrap();
    assert_eq!(checked.bytes, plain.bytes);
    assert_eq!(plain.toc.entries.len(), 1);
}

#[test]
fn checks_of_archives() {
    // raw files alone: no codec of streams is asked
    let bytes = bytes_of(&vec![file("a", b"x"), dir("d"), file("e", b"")]);
    let t = verify(&bytes).unwrap();
    assert_eq!((t.files, t.total), (2, 1));
    assert_eq!(verify(&bytes[..10]), Err(Error::NotAnArchive));
    assert_eq!(verify(b"no archive, though it has more than enough bytes"), Err(Error::NotAnArchive));
    let mut cut = bytes.clone();
    cut.pop();
    assert_eq!(verify(&cut), Err(Error::BadTrailer));
}
