//! What an archive promises to those that read it, write it and extract it.

use crate::archive::budget::{blobs_len, concurrent_of, held_len, lemma_held, per_job_of, usable_of};
use crate::archive::content::item_content;
use crate::archive::open::{long_at, payload_of, toc_place};
use crate::archive::order::{precedes, precedes_from};
use crate::archive::output::{climbs_at, product_of, stays_below, Product, Tally};
use crate::archive::pack::{
    archive_bytes, load, may_pack, may_win_load, payload_bytes, picked, tries_green, Packet,
};
use crate::archive::report::{counted, item_line, label_of};
use crate::archive::toc::{dir_item, table_bytes, table_of, BlobMeta, Item, Table};
use crate::archive::toc_law::{lemma_toc_roundtrip, readable_item};
use crate::backends::{coded_by, may_win, plain_by, MemBudget, BROTLI, CM, LZMA, STORE, ZSTD};
use crate::channels::{green, lemma_green_keeps, Blob, Payload, Places};
use crate::error::Error;
use crate::outside::xxh3_of;
use crate::plan::law::{readable, readable_list, readable_upto};
use crate::plan::write::piece_bytes;
use crate::plan::Piece;
use crate::race_law::{gave_up, lemma_none_better, takes_part};
use crate::rebuild::render::rendered;
use crate::util::law::lemma_decimal_read;
use crate::util::text::{decimal_of, human_of, right_of};
use vstd::bytes::{lemma_auto_spec_u64_to_from_le_bytes, spec_u64_to_le_bytes};
use vstd::prelude::*;
use vstd::utf8::encode_utf8;

verus! {

/// A path with a part "..", or one that starts with a slash, is refused.
pub proof fn lemma_climbing_refused(before: Seq<u8>, after: Seq<u8>)
    requires
        before.len() == 0 || before.last() == 0x2f,
        after.len() == 0 || after[0] == 0x2f,
    ensures
        !stays_below(before + seq![0x2eu8, 0x2e] + after),
        !stays_below(seq![0x2fu8] + before),
{
    let s = before + seq![0x2eu8, 0x2e] + after;
    let i = before.len() as int;
    assert(i > 0 ==> s[i - 1] == before[i - 1]);
    assert(s[i] == 0x2e && s[i + 1] == 0x2e);
    assert(after.len() > 0 ==> s[i + 2] == after[0]);
    assert(climbs_at(s, i));
}

/// A part that holds no slash and is not ".." may stand alone, and behind any path
/// that stays below and does not end in a slash.
pub proof fn lemma_parts_pass(path: Seq<u8>, part: Seq<u8>)
    requires
        !part.contains(0x2f),
        part != seq![0x2eu8, 0x2e],
    ensures
        stays_below(part),
        stays_below(path) && path.len() > 0 ==> stays_below(path + seq![0x2fu8] + part),
{
    assert forall|i: int| 0 <= i < part.len() implies !#[trigger] climbs_at(part, i) by {
        if climbs_at(part, i) {
            assert(i > 0 ==> part.contains(part[i - 1]));
            assert(i + 2 < part.len() ==> part.contains(part[i + 2]));
            assert(part =~= seq![0x2eu8, 0x2e]);
        }
    }
    assert(part.len() > 0 ==> part.contains(part[0]));
    if stays_below(path) && path.len() > 0 {
        let s = path + seq![0x2fu8] + part;
        let n = path.len() as int;
        assert forall|i: int| 0 <= i < s.len() implies !#[trigger] climbs_at(s, i) by {
            if climbs_at(s, i) {
                if i < n {
                    assert(s[i] == path[i]);
                    if i + 1 < n {
                        assert(s[i + 1] == path[i + 1]);
                        assert(i + 2 < n ==> s[i + 2] == path[i + 2]);
                        assert(i > 0 ==> s[i - 1] == path[i - 1]);
                        assert(climbs_at(path, i));
                    } else {
                        assert(s[i + 1] == 0x2f);
                    }
                } else if i == n {
                    assert(s[i] == 0x2f);
                } else {
                    let j = i - n - 1;
                    assert(s[i] == part[j] && s[i + 1] == part[j + 1]);
                    assert(j + 2 < part.len() ==> s[i + 2] == part[j + 2]);
                    assert(j > 0 ==> s[i - 1] == part[j - 1]);
                    assert(climbs_at(part, j));
                }
            }
        }
        assert(s[0] == path[0]);
    }
}

/// What is put on disk has the size and the hash of its entry, lies below the
/// directory, and takes the place of no file unless it may. A directory reads
/// nothing.
pub proof fn lemma_output_checked(
    e: Item,
    ch: Payload,
    c: Places,
    exists_already: bool,
    overwrite: bool,
)
    ensures
        match product_of(e, ch, c, exists_already, overwrite) {
            Ok((Product::File(s), c1)) => {
                &&& s.len() == e.size
                &&& xxh3_of(s) == e.hash
                &&& !e.is_dir
                &&& stays_below(encode_utf8(e.path))
                &&& exists_already ==> overwrite
                &&& rendered(e.segs, ch, c) == Ok::<(Seq<u8>, Places), Error>((s, c1))
            },
            Ok((Product::Dir, c1)) => e.is_dir && c1 == c && stays_below(encode_utf8(e.path)),
            Err(_) => true,
        },
{
}

/// An entry that renders to the size and the hash that it says is put out, where
/// its path stays below and nothing is in its place, or it may be replaced.
pub proof fn lemma_output_owed(
    e: Item,
    ch: Payload,
    c: Places,
    exists_already: bool,
    overwrite: bool,
    s: Seq<u8>,
    c1: Places,
)
    requires
        stays_below(encode_utf8(e.path)),
        rendered(e.segs, ch, c) == Ok::<(Seq<u8>, Places), Error>((s, c1)),
        s.len() == e.size,
        xxh3_of(s) == e.hash,
        !e.is_dir,
        exists_already ==> overwrite,
    ensures
        product_of(e, ch, c, exists_already, overwrite) == Ok::<(Product, Places), Error>(
            (Product::File(s), c1),
        ),
        item_content(e, ch, c) == Ok::<(Seq<u8>, Places), Error>((s, c1)),
{
}

/// Content that differs from its entry in size or hash is refused.
pub proof fn lemma_damage_found(e: Item, ch: Payload, c: Places, s: Seq<u8>, c1: Places)
    requires
        rendered(e.segs, ch, c) == Ok::<(Seq<u8>, Places), Error>((s, c1)),
        s.len() != e.size || xxh3_of(s) != e.hash,
        !e.is_dir,
    ensures
        item_content(e, ch, c) == Err::<(Seq<u8>, Places), Error>(Error::ContentMismatch),
{
}

proof fn lemma_files_few(v: Seq<Item>, n: nat)
    ensures
        counted(v, n) matches Ok(t) ==> t.files <= n,
    decreases n,
{
    if n > 0 {
        lemma_files_few(v, (n - 1) as nat);
    }
}

proof fn lemma_counted_prefix(v: Seq<Item>, w: Seq<Item>, n: nat)
    requires
        n <= v.len(),
        n <= w.len(),
        forall|i: int| 0 <= i < n ==> v[i] == w[i],
    ensures
        counted(v, n) == counted(w, n),
    decreases n,
{
    if n > 0 {
        lemma_counted_prefix(v, w, (n - 1) as nat);
    }
}

/// A file counts as one and for its size, a directory not at all; and of two lists
/// one behind the other the counts and the sizes add up, or overflow.
pub proof fn lemma_counts_add(a: Seq<Item>, b: Seq<Item>, e: Item)
    requires
        a.len() + b.len() <= u64::MAX,
    ensures
        counted(seq![e], 1) == Ok::<Tally, Error>(
            if e.is_dir {
                Tally { files: 0, total: 0 }
            } else {
                Tally { files: 1, total: e.size }
            },
        ),
        counted(a + b, (a + b).len()) == match (counted(a, a.len()), counted(b, b.len())) {
            (Ok(x), Ok(y)) => if x.total + y.total <= u64::MAX {
                Ok::<Tally, Error>(
                    Tally { files: (x.files + y.files) as u64, total: (x.total + y.total) as u64 },
                )
            } else {
                Err(Error::SizeOverflow)
            },
            _ => Err(Error::SizeOverflow),
        },
{
    reveal_with_fuel(counted, 2);
    lemma_counts_upto(a, b, b.len());
}

proof fn lemma_counts_upto(a: Seq<Item>, b: Seq<Item>, n: nat)
    requires
        n <= b.len(),
        a.len() + b.len() <= u64::MAX,
    ensures
        counted(a + b, a.len() + n) == match (counted(a, a.len()), counted(b, n)) {
            (Ok(x), Ok(y)) => if x.total + y.total <= u64::MAX {
                Ok::<Tally, Error>(
                    Tally { files: (x.files + y.files) as u64, total: (x.total + y.total) as u64 },
                )
            } else {
                Err(Error::SizeOverflow)
            },
            _ => Err(Error::SizeOverflow),
        },
    decreases n,
{
    lemma_counted_prefix(a, a + b, a.len());
    lemma_files_few(a, a.len());
    lemma_files_few(b, n);
    lemma_only_overflow(a, a.len());
    lemma_only_overflow(b, n);
    if n > 0 {
        lemma_counts_upto(a, b, (n - 1) as nat);
        lemma_files_few(b, (n - 1) as nat);
        lemma_only_overflow(b, (n - 1) as nat);
        assert((a + b)[a.len() + n - 1] == b[n - 1]);
    }
}

proof fn lemma_only_overflow(v: Seq<Item>, n: nat)
    ensures
        counted(v, n) matches Err(e) ==> e == Error::SizeOverflow,
    decreases n,
{
    if n > 0 {
        lemma_only_overflow(v, (n - 1) as nat);
    }
}

/// Paths are ordered by the first byte in which they differ; and one that another
/// starts with stands before it.
pub proof fn lemma_order_by_bytes(p: Seq<u8>, x: u8, y: u8, a: Seq<u8>, b: Seq<u8>)
    requires
        x < y,
    ensures
        precedes(p + seq![x] + a, p + seq![y] + b),
        !precedes(p + seq![y] + b, p + seq![x] + a),
        precedes(p, p + seq![x] + a),
        !precedes(p + seq![x] + a, p),
{
    lemma_same_start(p, p + seq![x] + a, p + seq![y] + b, 0);
    lemma_same_start(p, p + seq![y] + b, p + seq![x] + a, 0);
    lemma_same_start(p, p, p + seq![x] + a, 0);
    lemma_same_start(p, p + seq![x] + a, p, 0);
}

proof fn lemma_same_start(p: Seq<u8>, a: Seq<u8>, b: Seq<u8>, k: int)
    requires
        0 <= k <= p.len(),
        p.len() <= a.len(),
        p.len() <= b.len(),
        forall|i: int| 0 <= i < p.len() ==> a[i] == b[i],
    ensures
        precedes_from(a, b, k) == precedes_from(a, b, p.len() as int),
    decreases p.len() - k,
{
    if k < p.len() {
        lemma_same_start(p, a, b, k + 1);
    }
}

proof fn lemma_blobs_prefix(v: Seq<Blob>, b: Blob, n: nat)
    requires
        n <= v.len(),
    ensures
        blobs_len(v.push(b), n) == blobs_len(v, n),
    decreases n,
{
    if n > 0 {
        lemma_blobs_prefix(v, b, (n - 1) as nat);
    }
}

/// Channels hold as much as was put into them.
pub proof fn lemma_held_adds(ch: Payload, s: Seq<u8>, b: Blob)
    ensures
        held_len(Payload::empty()) == 0,
        held_len(ch.plus_plain(s)) == held_len(ch) + s.len(),
        held_len(ch.plus_corrections(s)) == held_len(ch) + s.len(),
        held_len(ch.plus_filters(s)) == held_len(ch) + s.len(),
        held_len(ch.plus_lepton(s)) == held_len(ch) + s.len(),
        held_len(ch.plus_blob(b)) == held_len(ch) + b.data.len(),
{
    lemma_blobs_prefix(ch.blobs, b, ch.blobs.len());
}

/// How the budget is shared: the channels are held twice, and what is left of it,
/// but at least a quarter, is used up to the last bytes that do not divide. There
/// is a job at least, and no more than there are channels; where there are several
/// each has four gibibytes or more, and one more would not have had them.
pub proof fn lemma_budget_shared(budget: u64, ch: Payload)
    ensures
        ({
            let held = held_len(ch);
            let n = concurrent_of(usable_of(budget, held), ch.blobs.len() as int + 4);
            let each = per_job_of(budget, ch);
            &&& 1 <= n <= ch.blobs.len() + 4
            &&& 2 * held + n * each <= budget || n * each <= budget / 4
            &&& n * each + n > budget - 2 * held
            &&& n * each + n > budget / 4
            &&& n > 1 ==> each >= 0x1_0000_0000
            &&& n < ch.blobs.len() + 4 ==> budget - 2 * held < (n + 1) * 0x1_0000_0000 && budget / 4
                < (n + 1) * 0x1_0000_0000
        }),
{
    lemma_held(ch);
    let held = held_len(ch);
    let usable = usable_of(budget, held);
    let n = concurrent_of(usable, ch.blobs.len() as int + 4);
    let each = usable / n;
    assert(n * each <= usable < n * each + n) by (nonlinear_arith)
        requires
            n >= 1,
            each == usable / n,
    ;
    if n > 1 {
        assert(each >= 0x1_0000_0000) by (nonlinear_arith)
            requires
                n >= 1,
                each == usable / n,
                usable >= n * 0x1_0000_0000,
        ;
    }
}

/// An archive is eight bytes "DNZA" and one, payloads, a table, the offset and the
/// length of the table in eight bytes each, and "DNZENDv1": its table is found
/// wherever it lies.
pub proof fn lemma_table_found(payloads: Seq<u8>, table: Seq<u8>)
    requires
        8 + payloads.len() + table.len() <= u64::MAX,
    ensures
        toc_place(
            seq![0x44u8, 0x4e, 0x5a, 0x41, 1, 0, 0, 0] + payloads + table + spec_u64_to_le_bytes(
                (8 + payloads.len()) as u64,
            ) + spec_u64_to_le_bytes(table.len() as u64)
                + seq![0x44u8, 0x4e, 0x5a, 0x45, 0x4e, 0x44, 0x76, 0x31],
        ) == Ok::<(int, int), Error>((8 + payloads.len() as int, table.len() as int)),
{
    lemma_auto_spec_u64_to_from_le_bytes();
    let head = seq![0x44u8, 0x4e, 0x5a, 0x41, 1, 0, 0, 0];
    let off = spec_u64_to_le_bytes((8 + payloads.len()) as u64);
    let len = spec_u64_to_le_bytes(table.len() as u64);
    let tail = seq![0x44u8, 0x4e, 0x5a, 0x45, 0x4e, 0x44, 0x76, 0x31];
    let data = head + payloads + table + off + len + tail;
    let n = data.len() as int;
    assert(data.take(8) =~= head);
    assert(data.skip(n - 8) =~= tail);
    assert(data.subrange(n - 24, n - 16) =~= off);
    assert(data.subrange(n - 16, n - 8) =~= len);
    assert(long_at(data, n - 24) == 8 + payloads.len());
    assert(long_at(data, n - 16) == table.len());
}

/// Bytes that do not start or do not end as an archive does are none.
pub proof fn lemma_others_refused(data: Seq<u8>)
    ensures
        toc_place(data) is Ok ==> {
            &&& data.len() >= 32
            &&& data.take(8) == seq![0x44u8, 0x4e, 0x5a, 0x41, 1, 0, 0, 0]
            &&& data.skip(data.len() - 8) == seq![0x44u8, 0x4e, 0x5a, 0x45, 0x4e, 0x44, 0x76, 0x31]
            &&& toc_place(data)->Ok_0.0 + toc_place(data)->Ok_0.1 <= data.len() - 24
        },
        data.len() < 32 ==> toc_place(data) == Err::<(int, int), Error>(Error::NotAnArchive),
{
}

proof fn lemma_plain_readable(v: Seq<Piece>, n: nat)
    requires
        n <= v.len(),
        forall|i: int| 0 <= i < v.len() ==> readable(#[trigger] v[i]),
    ensures
        readable_upto(v, n),
    decreases n,
{
    if n > 0 {
        lemma_plain_readable(v, (n - 1) as nat);
        assert(readable(v[n - 1]));
    }
}

/// A list of up to sixteen Mi pieces is readable where each piece is, an image has
/// up to four Mi chunks, and a table up to sixteen Mi entries and blobs: it reads
/// back as it was written.
pub proof fn lemma_large_tables_read(t: Table)
    requires
        t.items.len() <= 0x100_0000,
        t.metas.len() <= 0x100_0000,
        t.infos.len() == t.metas.len() + 4,
        forall|i: int|
            0 <= i < t.items.len() && (#[trigger] t.items[i]).is_dir ==> t.items[i].size == 0
                && t.items[i].hash == 0 && t.items[i].segs.len() == 0,
        forall|i: int|
            0 <= i < t.items.len() ==> (#[trigger] t.items[i]).segs.len() <= 0x100_0000
                && encode_utf8(t.items[i].path).len() <= u64::MAX,
        forall|i: int, j: int|
            0 <= i < t.items.len() && 0 <= j < t.items[i].segs.len() ==> readable(
                #[trigger] t.items[i].segs[j],
            ),
    ensures
        table_of(table_bytes(t)) == Ok::<Table, Error>(t),
{
    assert forall|i: int| 0 <= i < t.items.len() implies readable_list(
        (#[trigger] t.items[i]).segs,
    ) by {
        let v = t.items[i].segs;
        assert forall|j: int| 0 <= j < v.len() implies readable(#[trigger] v[j]) by {
            assert(readable(t.items[i].segs[j]));
        }
        lemma_plain_readable(v, v.len());
    }
    assert forall|i: int| 0 <= i < t.items.len() implies readable_item(#[trigger] t.items[i]) by {
        let e = t.items[i];
        assert(readable_list(e.segs));
        if e.is_dir {
            assert(e.segs =~= Seq::<Piece>::empty());
            assert(e == dir_item(e.path));
        }
    }
    lemma_toc_roundtrip(t);
}

/// An image of up to four Mi chunks is readable, and so are literal bytes.
pub proof fn lemma_large_images_readable(p: Piece)
    requires
        match p {
            Piece::PngIdat(i) => i.zlib_header.len() == 2 && i.chunk_lens.len() <= 0x40_0000
                && i.tail.len() <= u64::MAX,
            Piece::Raw { .. } => true,
            Piece::Jpeg { .. } => true,
            _ => false,
        },
    ensures
        readable(p),
{
}

/// Pieces are told apart by their first byte: 0 for literal bytes, 1 for a bare
/// stream, 2 for zlib, 3 for gzip, 4 for the chunks of an image, 5 for a picture.
pub proof fn lemma_kinds_told(p: Piece)
    ensures
        piece_bytes(p).len() > 0,
        piece_bytes(p)[0] == match p {
            Piece::Raw { .. } => 0u8,
            Piece::Deflate(_) => 1,
            Piece::Zlib { .. } => 2,
            Piece::Gzip { .. } => 3,
            Piece::PngIdat(_) => 4,
            Piece::Jpeg { .. } => 5,
        },
{
}

/// The bytes of channel `i`, and the width and the depth of its rows.
pub open spec fn channel(ch: Payload, i: int) -> (Seq<u8>, u32, u32) {
    if i == 0 {
        (ch.plain, 0, 0)
    } else if i == 1 {
        (ch.corrections, 0, 0)
    } else if i == 2 {
        (ch.filters, 0, 0)
    } else if i == 3 {
        (ch.lepton, 0, 0)
    } else {
        (ch.blobs[i - 4].data, ch.blobs[i - 4].stride, ch.blobs[i - 4].bpp)
    }
}

/// No backend makes a channel shorter that gives it back, unless its codec was
/// asked and returned an error. The context mixer takes part where it is asked for,
/// but in channels that are arithmetic-coded already. Pixels of three or four bytes
/// are tried with their green taken away too.
pub proof fn lemma_channel_shortest(
    ch: Payload,
    use_cm: bool,
    mem: MemBudget,
    i: int,
    p: Packet,
    k: u8,
    made: Seq<u8>,
)
    requires
        0 <= i < ch.blobs.len() + 4,
        channel(ch, i).0.len() <= u64::MAX,
        may_pack(load(ch, use_cm, i), mem, p, true),
        takes_part(k, use_cm && i != 1 && i != 3),
        ({
            let (data, stride, bpp) = channel(ch, i);
            let plain = green(data, bpp as int, true);
            ||| coded_by(k, data, stride, bpp, mem) == Ok::<Seq<u8>, Error>(made) && plain_by(
                k,
                made,
                data.len() as u64,
            ) == Ok::<Seq<u8>, Error>(data) && !gave_up(k, data, made)
            ||| i >= 4 && (bpp == 3 || bpp == 4) && coded_by(k, plain, stride, bpp, mem) == Ok::<
                Seq<u8>,
                Error,
            >(made) && plain_by(k, made, plain.len() as u64) == Ok::<Seq<u8>, Error>(plain)
                && !gave_up(k, plain, made)
        }),
    ensures
        p.comp.len() <= made.len(),
        p.comp.len() <= channel(ch, i).0.len(),
{
    reveal(may_pack);
    let l = load(ch, use_cm, i);
    let (a, b) = choose|a: (u8, Seq<u8>), b: Option<(u8, Seq<u8>)>|
        {
            &&& p == #[trigger] picked(a, b)
            &&& may_win_load(l, l.data, mem, a, true)
            &&& tries_green(l) == (b is Some)
            &&& b matches Some(x) ==> may_win_load(
                l,
                green(l.data, l.bpp as int, true),
                mem,
                x,
                true,
            )
        };
    assert(p == picked(a, b));
    let (data, stride, bpp) = channel(ch, i);
    let plain = green(data, bpp as int, true);
    lemma_green_keeps(data, bpp as int, 0, true);
    assert(plain.len() == data.len());
    lemma_wins(data, l.use_cm, stride, bpp, mem, a.0, a.1, k, made);
    if b is Some {
        lemma_wins(plain, l.use_cm, stride, bpp, mem, b->Some_0.0, b->Some_0.1, k, made);
    }
}

proof fn lemma_wins(
    data: Seq<u8>,
    use_cm: bool,
    stride: u32,
    bpp: u32,
    mem: MemBudget,
    id: u8,
    comp: Seq<u8>,
    k: u8,
    made: Seq<u8>,
)
    requires
        data.len() <= u64::MAX,
        may_win(data, use_cm, stride, bpp, mem, id, comp),
        takes_part(k, use_cm),
    ensures
        comp.len() <= data.len(),
        coded_by(k, data, stride, bpp, mem) == Ok::<Seq<u8>, Error>(made) && plain_by(
            k,
            made,
            data.len() as u64,
        ) == Ok::<Seq<u8>, Error>(data) && !gave_up(k, data, made) ==> comp.len() <= made.len(),
{
    if coded_by(k, data, stride, bpp, mem) == Ok::<Seq<u8>, Error>(made) && plain_by(
        k,
        made,
        data.len() as u64,
    ) == Ok::<Seq<u8>, Error>(data) && !gave_up(k, data, made) {
        lemma_none_better(data, use_cm, stride, bpp, mem, id, comp, k, made);
    }
}

/// The payloads lie one behind the other, in the order of the channels, and the
/// table behind them.
pub proof fn lemma_archive_laid(p: Seq<Packet>, table: Seq<u8>, x: Packet)
    ensures
        payload_bytes(p, 0) == Seq::<u8>::empty(),
        payload_bytes(p.push(x), p.len() + 1) == payload_bytes(p, p.len()) + x.comp,
        ({
            let payloads = payload_bytes(p, p.len());
            archive_bytes(p, table) == seq![0x44u8, 0x4e, 0x5a, 0x41, 1, 0, 0, 0] + payloads + table
                + spec_u64_to_le_bytes((8 + payloads.len()) as u64) + spec_u64_to_le_bytes(
                table.len() as u64,
            ) + seq![0x44u8, 0x4e, 0x5a, 0x45, 0x4e, 0x44, 0x76, 0x31]
        }),
{
    lemma_payload_prefix(p, x, p.len());
    let payloads = payload_bytes(p, p.len());
    let want = seq![0x44u8, 0x4e, 0x5a, 0x41, 1, 0, 0, 0] + payloads + table + spec_u64_to_le_bytes(
        (8 + payloads.len()) as u64,
    ) + spec_u64_to_le_bytes(table.len() as u64)
        + seq![0x44u8, 0x4e, 0x5a, 0x45, 0x4e, 0x44, 0x76, 0x31];
    assert(archive_bytes(p, table) =~= want);
}

proof fn lemma_payload_prefix(p: Seq<Packet>, x: Packet, n: nat)
    requires
        n <= p.len(),
    ensures
        payload_bytes(p.push(x), n) == payload_bytes(p, n),
    decreases n,
{
    if n > 0 {
        lemma_payload_prefix(p, x, (n - 1) as nat);
    }
}

/// The channels are read in the order in which they lie: texts, corrections,
/// filters, pictures, then the blobs, which get the green back that was taken from
/// them where their entry says 1, and no other.
pub proof fn lemma_channels_read(raws: Seq<Seq<u8>>, metas: Seq<BlobMeta>, i: int)
    requires
        raws.len() == metas.len() + 4,
        0 <= i < raws.len(),
    ensures
        ({
            let (data, stride, bpp) = channel(payload_of(raws, metas), i);
            &&& i < 4 ==> data == raws[i]
            &&& i >= 4 ==> stride == metas[i - 4].stride && bpp == metas[i - 4].bpp
            &&& i >= 4 && metas[i - 4].transform != 1 ==> data == raws[i]
            &&& i >= 4 && metas[i - 4].transform == 1 ==> data == green(raws[i], bpp as int, false)
        }),
{
}

/// The numbers that an archive knows the backends by.
pub proof fn lemma_backends_numbered(id: u8)
    ensures
        id == 0 <==> id == STORE,
        id == 1 <==> id == ZSTD,
        id == 2 <==> id == BROTLI,
        id == 3 <==> id == LZMA,
        id == 4 <==> id == CM,
        id > 4 ==> forall|comp: Seq<u8>, n: u64| #[trigger] plain_by(id, comp, n) is Err,
{
}

/// The line of an entry ends in its path, behind a column of twelve characters, and
/// that of a directory in a slash.
pub proof fn lemma_entry_line(e: Item)
    ensures
        e.is_dir ==> item_line(e) == "         dir  "@ + e.path + "/"@,
        !e.is_dir ==> item_line(e) == right_of(human_of(e.size), 12) + "  "@ + e.path,
{
    reveal_strlit("         dir  ");
    reveal_strlit("dir");
    reveal_strlit("  ");
    if e.is_dir {
        assert(item_line(e) =~= "         dir  "@ + e.path + "/"@);
    }
}

/// Each channel has a name of its own.
pub proof fn lemma_labels_differ(i: u64, j: u64)
    requires
        i != j,
    ensures
        label_of(i as nat) != label_of(j as nat),
{
    reveal_strlit("plain");
    reveal_strlit("corrections");
    reveal_strlit("filters");
    reveal_strlit("lepton");
    reveal_strlit("pixels#");
    let a = label_of(i as nat);
    let b = label_of(j as nat);
    if i >= 4 && j >= 4 {
        lemma_decimal_read((i - 4) as u64);
        lemma_decimal_read((j - 4) as u64);
        assert(a.skip(7) =~= decimal_of((i - 4) as nat));
        assert(b.skip(7) =~= decimal_of((j - 4) as nat));
    } else if i >= 4 {
        assert(a[0] == 'p' && a[1] == 'i');
        assert(b[0] != 'p' || b[1] != 'i');
    } else if j >= 4 {
        assert(b[0] == 'p' && b[1] == 'i');
        assert(a[0] != 'p' || a[1] != 'i');
    } else {
        assert(a.len() != b.len());
    }
}

} // verus!
