//! Packing: compressing the channels and putting the archive together.

use crate::archive::open::{end_magic, end_magic_bytes, magic, magic_bytes};
use crate::archive::stage::Bulk;
use crate::archive::toc::{
    dir_item, items_of, table_bytes, write_toc, BlobMeta, ChannelInfo, Entry, Table, Toc,
};
use crate::archive::toc_law::{countable_item, countable_table};
use crate::backends::{any_refused, is_best, may_win, race, MemBudget};
use crate::channels::{
    green, sub_green, Channels, Payload, PixelBlob, PIXEL_IDENTITY, PIXEL_SUB_GREEN,
};
use crate::error::Error;
use crate::outside::{zstd_block_of, zstd_text_of};
use crate::plan::limits::lemma_countable;
use crate::refusal::{ask_block, block_refused};
use vstd::bytes::{spec_u64_to_le_bytes, u64_to_le_bytes};
use vstd::prelude::*;

verus! {

/// A channel that is to be compressed.
pub struct Load {
    pub data: Seq<u8>,
    pub use_cm: bool,
    pub stride: u32,
    pub bpp: u32,
    pub is_pixels: bool,
}

/// Channel `i`: the four, then the blobs. Corrections and lepton are
/// arithmetic-coded already, and not worth the context mixer's time.
pub open spec fn load(ch: Payload, use_cm: bool, i: int) -> Load {
    if i == 0 {
        Load { data: ch.plain, use_cm, stride: 0, bpp: 0, is_pixels: false }
    } else if i == 1 {
        Load { data: ch.corrections, use_cm: false, stride: 0, bpp: 0, is_pixels: false }
    } else if i == 2 {
        Load { data: ch.filters, use_cm, stride: 0, bpp: 0, is_pixels: false }
    } else if i == 3 {
        Load { data: ch.lepton, use_cm: false, stride: 0, bpp: 0, is_pixels: false }
    } else {
        let b = ch.blobs[i - 4];
        Load { data: b.data, use_cm, stride: b.stride, bpp: b.bpp, is_pixels: true }
    }
}

/// A compressed channel.
#[derive(Debug)]
pub struct Parcel {
    pub id: u8,
    pub comp: Vec<u8>,
    pub transform: u8,
}

pub struct Packet {
    pub id: u8,
    pub comp: Seq<u8>,
    pub transform: u8,
}

impl View for Parcel {
    type V = Packet;

    open spec fn view(&self) -> Packet {
        Packet { id: self.id, comp: self.comp@, transform: self.transform }
    }
}

pub open spec fn packets_of(v: Seq<Parcel>) -> Seq<Packet> {
    Seq::new(v.len(), |i: int| v[i]@)
}

/// Whether green is tried too: on pixels of three or four bytes.
pub open spec fn tries_green(l: Load) -> bool {
    l.is_pixels && (l.bpp == 3 || l.bpp == 4)
}

/// The shorter of what the channel and what its decorrelated pixels came to.
pub open spec fn picked(a: (u8, Seq<u8>), b: Option<(u8, Seq<u8>)>) -> Packet {
    match b {
        Some((id, comp)) if comp.len() < a.1.len() => Packet {
            id,
            comp,
            transform: PIXEL_SUB_GREEN,
        },
        _ => Packet { id: a.0, comp: a.1, transform: PIXEL_IDENTITY },
    }
}

/// Whether `r` may win on `data`, which is the channel or what is made of it. If
/// no codec `failed`, it is the best there is.
pub open spec fn may_win_load(
    l: Load,
    data: Seq<u8>,
    mem: MemBudget,
    r: (u8, Seq<u8>),
    failed: bool,
) -> bool {
    &&& may_win(data, l.use_cm, l.stride, l.bpp, mem, r.0, r.1)
    &&& !failed ==> is_best(data, l.use_cm, l.stride, l.bpp, mem, r.0, r.1)
}

/// Whether a channel may be compressed so, and is compressed as well as it can
/// be if no codec `failed`.
#[verifier::opaque]
pub open spec fn may_pack(l: Load, mem: MemBudget, p: Packet, failed: bool) -> bool {
    exists|a: (u8, Seq<u8>), b: Option<(u8, Seq<u8>)>|
        {
            &&& p == #[trigger] picked(a, b)
            &&& may_win_load(l, l.data, mem, a, failed)
            &&& tries_green(l) == (b is Some)
            &&& b matches Some(x) ==> may_win_load(
                l,
                green(l.data, l.bpp as int, true),
                mem,
                x,
                failed,
            )
        }
}

/// What is as good as can be may also be where a codec failed.
pub proof fn lemma_pack_loosen(l: Load, mem: MemBudget, p: Packet, failed: bool)
    requires
        may_pack(l, mem, p, failed),
    ensures
        may_pack(l, mem, p, true),
{
    reveal(may_pack);
    let (a, b) = choose|a: (u8, Seq<u8>), b: Option<(u8, Seq<u8>)>|
        {
            &&& p == #[trigger] picked(a, b)
            &&& may_win_load(l, l.data, mem, a, failed)
            &&& tries_green(l) == (b is Some)
            &&& b matches Some(x) ==> may_win_load(
                l,
                green(l.data, l.bpp as int, true),
                mem,
                x,
                failed,
            )
        };
    assert(p == picked(a, b));
}

pub open spec fn seen(b: Option<(u8, Vec<u8>)>) -> Option<(u8, Seq<u8>)> {
    match b {
        Some(x) => Some((x.0, x.1@)),
        None => None,
    }
}

/// Picks the shorter; the channel itself where both are as short.
pub fn pick(a: (u8, Vec<u8>), b: Option<(u8, Vec<u8>)>) -> (r: Parcel)
    ensures
        r@ == picked((a.0, a.1@), seen(b)),
{
    match b {
        Some((id, comp)) => if comp.len() < a.1.len() {
            return Parcel { id, comp, transform: PIXEL_SUB_GREEN };
        },
        None => {},
    }
    Parcel { id: a.0, comp: a.1, transform: PIXEL_IDENTITY }
}

/// A channel that is to be compressed, with what is known of it.
#[derive(Clone, Copy)]
pub struct Job<'a> {
    pub data: &'a [u8],
    pub use_cm: bool,
    pub stride: u32,
    pub bpp: u32,
    pub is_pixels: bool,
}

impl<'a> View for Job<'a> {
    type V = Load;

    open spec fn view(&self) -> Load {
        Load {
            data: self.data@,
            use_cm: self.use_cm,
            stride: self.stride,
            bpp: self.bpp,
            is_pixels: self.is_pixels,
        }
    }
}

impl<'a> Job<'a> {
    /// Whether the pixels are decorrelated and raced too.
    pub fn races_green(&self) -> (r: bool)
        ensures
            r == tries_green(self@),
    {
        self.is_pixels && (self.bpp == 3 || self.bpp == 4)
    }
}

/// The job of channel `i`.
pub fn job<'a>(ch: &'a Channels, i: usize, use_cm: bool) -> (r: Job<'a>)
    requires
        i < ch@.blobs.len() + 4,
    ensures
        r@ == load(ch@, use_cm, i as int),
{
    if i < 4 {
        let data: &'a [u8] = match i {
            0 => ch.plain.as_slice(),
            1 => ch.corrections.as_slice(),
            2 => ch.filters.as_slice(),
            _ => ch.lepton.as_slice(),
        };
        let mixes: bool = use_cm && (i == 0 || i == 2);
        Job { data, use_cm: mixes, stride: 0, bpp: 0, is_pixels: false }
    } else {
        let b: &'a PixelBlob = &ch.pixel_blobs[i - 4];
        assert(ch@.blobs[i - 4] == b@);
        Job { data: b.data.as_slice(), use_cm, stride: b.stride, bpp: b.bpp, is_pixels: true }
    }
}

/// Whether a codec was asked about a channel, or what it is without green, and
/// returned an error.
pub open spec fn load_refused(l: Load, mem: MemBudget) -> bool {
    ||| any_refused(l.data, l.use_cm, l.stride, l.bpp, mem)
    ||| tries_green(l) && any_refused(
        green(l.data, l.bpp as int, true),
        l.use_cm,
        l.stride,
        l.bpp,
        mem,
    )
}

/// Whether that holds of one of the channels.
#[verifier::opaque]
pub open spec fn loads_refused(ch: Payload, use_cm: bool, mem: MemBudget) -> bool {
    exists|i: int| 0 <= i < ch.blobs.len() + 4 && load_refused(#[trigger] load(ch, use_cm, i), mem)
}

/// Compresses a channel, and says whether a codec failed.
pub fn compress_job(j: &Job, mem: MemBudget) -> (r: (Parcel, bool))
    ensures
        may_pack(j@, mem, r.0@, r.1),
        r.1 ==> load_refused(j@, mem),
{
    let (a, mut failed): ((u8, Vec<u8>), bool) = race(j.data, j.use_cm, j.stride, j.bpp, mem);
    let ghost ga = (a.0, a.1@);
    let b: Option<(u8, Vec<u8>)> = if j.races_green() {
        let alt: Vec<u8> = sub_green(j.data, j.bpp as usize, true);
        let (x, fails): ((u8, Vec<u8>), bool) =
            race(alt.as_slice(), j.use_cm, j.stride, j.bpp, mem);
        failed = failed || fails;
        Some(x)
    } else {
        None
    };
    let ghost gb = seen(b);
    let r: Parcel = pick(a, b);
    assert(may_pack(j@, mem, r@, failed)) by {
        reveal(may_pack);
        assert(r@ == picked(ga, gb));
    }
    (r, failed)
}

/// Whether each channel was compressed as it may be.
pub open spec fn are_packets(
    ch: Payload,
    use_cm: bool,
    mem: MemBudget,
    p: Seq<Packet>,
    failed: bool,
) -> bool {
    &&& p.len() == ch.blobs.len() + 4
    &&& forall|i: int|
        0 <= i < p.len() ==> may_pack(load(ch, use_cm, i), mem, #[trigger] p[i], failed)
}

pub proof fn lemma_packets_loosen(
    ch: Payload,
    use_cm: bool,
    mem: MemBudget,
    p: Seq<Packet>,
    failed: bool,
)
    requires
        are_packets(ch, use_cm, mem, p, failed),
    ensures
        are_packets(ch, use_cm, mem, p, true),
{
    assert forall|i: int| 0 <= i < p.len() implies may_pack(
        load(ch, use_cm, i),
        mem,
        #[trigger] p[i],
        true,
    ) by {
        lemma_pack_loosen(load(ch, use_cm, i), mem, p[i], failed);
    }
}

/// Compresses the channel that comes next.
fn compress_next(ch: &Channels, use_cm: bool, mem: MemBudget, v: &mut Vec<Parcel>, failed: &mut bool)
    requires
        old(v)@.len() < ch@.blobs.len() + 4,
        forall|i: int|
            0 <= i < old(v)@.len() ==> may_pack(
                load(ch@, use_cm, i),
                mem,
                (#[trigger] old(v)@[i])@,
                *old(failed),
            ),
    ensures
        final(v)@.len() == old(v)@.len() + 1,
        *final(failed) ==> *old(failed) || loads_refused(ch@, use_cm, mem),
        forall|i: int|
            0 <= i < final(v)@.len() ==> may_pack(
                load(ch@, use_cm, i),
                mem,
                (#[trigger] final(v)@[i])@,
                *final(failed),
            ),
{
    let ghost was = *failed;
    let ghost done = v@;
    let n: usize = v.len();
    let (parcel, fails): (Parcel, bool) = compress_job(&job(ch, n, use_cm), mem);
    *failed = *failed || fails;
    v.push(parcel);
    proof {
        reveal(loads_refused);
        assert forall|i: int| 0 <= i < v@.len() implies may_pack(
            load(ch@, use_cm, i),
            mem,
            (#[trigger] v@[i])@,
            *failed,
        ) by {
            if i < n {
                assert(v@[i] == done[i]);
                lemma_pack_loosen(load(ch@, use_cm, i), mem, done[i]@, was);
            } else {
                lemma_pack_loosen(load(ch@, use_cm, i), mem, parcel@, fails);
            }
        }
    }
}

/// Compresses all the channels, and says whether a codec failed.
pub fn compress_all(ch: &Channels, use_cm: bool, mem: MemBudget) -> (r: (Vec<Parcel>, bool))
    ensures
        are_packets(ch@, use_cm, mem, packets_of(r.0@), r.1),
        r.1 ==> loads_refused(ch@, use_cm, mem),
{
    let mut v: Vec<Parcel> = Vec::new();
    let mut failed: bool = false;
    let n: usize = ch.pixel_blobs.len();
    let mut k: usize = 0;
    while k < 4
        invariant
            k <= 4,
            v@.len() == k,
            failed ==> loads_refused(ch@, use_cm, mem),
            forall|i: int|
                0 <= i < k ==> may_pack(load(ch@, use_cm, i), mem, (#[trigger] v@[i])@, failed),
        decreases 4 - k,
    {
        compress_next(ch, use_cm, mem, &mut v, &mut failed);
        k += 1;
    }
    let mut m: usize = 0;
    while m < n
        invariant
            m <= n,
            n == ch.pixel_blobs@.len(),
            v@.len() == m + 4,
            failed ==> loads_refused(ch@, use_cm, mem),
            forall|i: int|
                0 <= i < m + 4 ==> may_pack(load(ch@, use_cm, i), mem, (#[trigger] v@[i])@, failed),
        decreases n - m,
    {
        compress_next(ch, use_cm, mem, &mut v, &mut failed);
        m += 1;
    }
    (v, failed)
}

/// What the table says of a blob.
pub open spec fn meta_of(ch: Payload, p: Seq<Packet>, i: int) -> BlobMeta {
    BlobMeta {
        stride: ch.blobs[i].stride,
        bpp: ch.blobs[i].bpp,
        transform: p[i + 4].transform,
    }
}

/// What the table says of a channel.
pub open spec fn info_of(ch: Payload, p: Seq<Packet>, i: int) -> ChannelInfo {
    (p[i].id, p[i].comp.len() as u64, load(ch, false, i).data.len() as u64)
}

pub open spec fn table_for(b: Bulk, p: Seq<Packet>) -> Table {
    Table {
        items: b.items,
        metas: Seq::new(b.ch.blobs.len(), |i: int| meta_of(b.ch, p, i)),
        infos: Seq::new(p.len(), |i: int| info_of(b.ch, p, i)),
    }
}

/// The table of contents of an archive with these entries and channels.
pub fn make_toc(entries: Vec<Entry>, ch: &Channels, parcels: &Vec<Parcel>) -> (t: Toc)
    requires
        parcels@.len() == ch@.blobs.len() + 4,
    ensures
        t@ == table_for(Bulk { items: items_of(entries@), ch: ch@ }, packets_of(parcels@)),
        t.entries@ == entries@,
{
    let ghost p = packets_of(parcels@);
    let n: usize = ch.pixel_blobs.len();
    let m: usize = parcels.len();
    let mut metas: Vec<BlobMeta> = Vec::new();
    let mut i: usize = 0;
    while i < n
        invariant
            i <= n,
            n == ch.pixel_blobs@.len(),
            m == n + 4,
            m == parcels@.len(),
            p == packets_of(parcels@),
            metas@.len() == i,
            forall|k: int| 0 <= k < i ==> #[trigger] metas@[k] == meta_of(ch@, p, k),
        decreases n - i,
    {
        let b = &ch.pixel_blobs[i];
        assert(ch@.blobs[i as int] == b@);
        assert(p[i + 4] == parcels@[i + 4]@);
        metas.push(
            BlobMeta { stride: b.stride, bpp: b.bpp, transform: parcels[i + 4].transform },
        );
        i += 1;
    }
    let mut infos: Vec<ChannelInfo> = Vec::new();
    let mut j: usize = 0;
    while j < m
        invariant
            j <= m,
            m == ch@.blobs.len() + 4,
            m == parcels@.len(),
            p == packets_of(parcels@),
            infos@.len() == j,
            forall|k: int| 0 <= k < j ==> #[trigger] infos@[k] == info_of(ch@, p, k),
        decreases m - j,
    {
        assert(p[j as int] == parcels@[j as int]@);
        let len: usize = parcels[j].comp.len();
        let raw: usize = job(ch, j, false).data.len();
        infos.push((parcels[j].id, len as u64, raw as u64));
        j += 1;
    }
    let t = Toc { entries, metas, infos };
    assert(t@ =~= table_for(Bulk { items: items_of(entries@), ch: ch@ }, p));
    t
}

/// The payloads of the first `n` channels.
pub open spec fn payload_bytes(p: Seq<Packet>, n: nat) -> Seq<u8>
    decreases n,
{
    if n == 0 {
        Seq::empty()
    } else {
        payload_bytes(p, (n - 1) as nat) + p[n - 1].comp
    }
}

/// What comes before the table of contents.
pub open spec fn body_bytes(p: Seq<Packet>) -> Seq<u8> {
    magic() + payload_bytes(p, p.len())
}

/// What comes behind it.
pub open spec fn trailer_bytes(off: u64, len: u64) -> Seq<u8> {
    spec_u64_to_le_bytes(off) + (spec_u64_to_le_bytes(len) + end_magic())
}

pub open spec fn archive_bytes(p: Seq<Packet>, toc_comp: Seq<u8>) -> Seq<u8> {
    let body = body_bytes(p);
    body + (toc_comp + trailer_bytes(body.len() as u64, toc_comp.len() as u64))
}

/// Puts an archive together.
pub fn assemble(parcels: &Vec<Parcel>, toc_comp: &[u8]) -> (out: Vec<u8>)
    ensures
        out@ == archive_bytes(packets_of(parcels@), toc_comp@),
{
    let ghost p = packets_of(parcels@);
    let mut out: Vec<u8> = Vec::new();
    let m: [u8; 8] = magic_bytes();
    out.extend_from_slice(m.as_slice());
    assert(out@ =~= magic() + payload_bytes(p, 0));
    let n: usize = parcels.len();
    let mut i: usize = 0;
    while i < n
        invariant
            i <= n,
            n == parcels@.len(),
            p == packets_of(parcels@),
            out@ == magic() + payload_bytes(p, i as nat),
        decreases n - i,
    {
        assert(p[i as int] == parcels@[i as int]@);
        out.extend_from_slice(parcels[i].comp.as_slice());
        i += 1;
        assert(out@ =~= magic() + payload_bytes(p, i as nat));
    }
    let ghost body = out@;
    let off: usize = out.len();
    let len: usize = toc_comp.len();
    let a: Vec<u8> = u64_to_le_bytes(off as u64);
    let b: Vec<u8> = u64_to_le_bytes(len as u64);
    let e: [u8; 8] = end_magic_bytes();
    out.extend_from_slice(toc_comp);
    assert(out@ =~= body + toc_comp@);
    out.extend_from_slice(a.as_slice());
    assert(out@ =~= body + toc_comp@ + a@);
    out.extend_from_slice(b.as_slice());
    assert(out@ =~= body + toc_comp@ + a@ + b@);
    out.extend_from_slice(e.as_slice());
    assert(out@ =~= archive_bytes(p, toc_comp@));
    out
}

/// An archive, and its table of contents.
#[derive(Debug)]
pub struct Packed {
    pub bytes: Vec<u8>,
    pub toc: Toc,
}

/// Whether `toc_comp` holds the table, and the archive's lengths are numbers
/// of the machine.
pub open spec fn is_sealed(b: Bulk, p: Seq<Packet>, toc_comp: Seq<u8>) -> bool {
    let t = table_for(b, p);
    &&& zstd_block_of(table_bytes(t), 19) == Some(toc_comp)
    &&& zstd_text_of(toc_comp) == Some(table_bytes(t))
    &&& countable_table(t)
    &&& archive_bytes(p, toc_comp).len() <= usize::MAX
    &&& forall|i: int|
        0 <= i < p.len() ==> (#[trigger] p[i]).comp.len() <= usize::MAX && load(
            b.ch,
            false,
            i,
        ).data.len() <= usize::MAX
}

/// Seals an archive: writes and compresses the table of contents, and puts all
/// together.
pub fn seal(entries: Vec<Entry>, ch: &Channels, parcels: &Vec<Parcel>) -> (r: Result<Packed, Error>)
    requires
        parcels@.len() == ch@.blobs.len() + 4,
        forall|i: int|
            0 <= i < entries@.len() ==> ((#[trigger] entries@[i])@.is_dir ==> entries@[i]@
                == dir_item(entries@[i]@.path)),
    ensures
        match r {
            Ok(x) => {
                let b = Bulk { items: items_of(entries@), ch: ch@ };
                let p = packets_of(parcels@);
                &&& x.toc@ == table_for(b, p)
                &&& exists|tc: Seq<u8>| #[trigger] is_sealed(b, p, tc) && x.bytes@ == archive_bytes(
                    p,
                    tc,
                )
            },
            Err(e) => e == Error::TocFailed && block_refused(
                table_bytes(
                    table_for(Bulk { items: items_of(entries@), ch: ch@ }, packets_of(parcels@)),
                ),
                19,
            ),
        },
{
    let ghost b = Bulk { items: items_of(entries@), ch: ch@ };
    let ghost p = packets_of(parcels@);
    let toc: Toc = make_toc(entries, ch, parcels);
    let raw: Vec<u8> = write_toc(&toc);
    let comp: Vec<u8> = match ask_block(raw.as_slice(), 19) {
        Ok(v) => v,
        Err(_) => return Err(Error::TocFailed),
    };
    let bytes: Vec<u8> = assemble(parcels, comp.as_slice());
    proof {
        let t = table_for(b, p);
        assert(toc.entries.len() == toc.entries@.len());
        assert(ch.pixel_blobs.len() == ch.pixel_blobs@.len());
        assert(bytes.len() == bytes@.len());
        assert forall|i: int| 0 <= i < t.items.len() implies countable_item(#[trigger] t.items[i]) by {
            let e = entries@[i];
            assert(t.items[i] == e@);
            lemma_countable(e.segs);
        }
        assert forall|i: int| 0 <= i < p.len() implies (#[trigger] p[i]).comp.len() <= usize::MAX
            && load(b.ch, false, i).data.len() <= usize::MAX by {
            assert(parcels@[i].comp.len() == parcels@[i].comp@.len());
            lemma_load_len(*ch, i);
        }
        assert(is_sealed(b, p, comp@));
    }
    Ok(Packed { bytes, toc })
}

proof fn lemma_load_len(ch: Channels, i: int)
    requires
        0 <= i < ch@.blobs.len() + 4,
    ensures
        load(ch@, false, i).data.len() <= usize::MAX,
{
    assert(ch.plain.len() == ch.plain@.len());
    assert(ch.corrections.len() == ch.corrections@.len());
    assert(ch.filters.len() == ch.filters@.len());
    assert(ch.lepton.len() == ch.lepton@.len());
    if i >= 4 {
        let b = ch.pixel_blobs@[i - 4];
        assert(ch@.blobs[i - 4] == b@);
        assert(b.data.len() == b.data@.len());
    }
}

} // verus!
