//! Opening an archive.

use crate::archive::toc::{
    items_of, read_toc, table_of, BlobMeta, ChannelInfo, Entry, Item, Table, Toc,
};
use crate::archive::toc_law::lemma_table_shape;
use crate::backends::{decompress_ticking, plain_by, read_refused, LZMA, ZSTD};
use crate::channels::{green, sub_green, Blob, Channels, Payload, PixelBlob, PIXEL_SUB_GREEN};
use crate::error::{same_bytes, Error};
use crate::outside::zstd_text_of;
use crate::refusal::{ask_text, text_refused};
use crate::util::bytes::same;
use vstd::bytes::{spec_u64_from_le_bytes, u64_from_le_bytes};
use vstd::prelude::*;

verus! {

/// An archive with its channels decompressed.
#[derive(Debug)]
pub struct Archive {
    pub entries: Vec<Entry>,
    pub channels: Channels,
    /// The backend, the length of the payload and that of the channel, of each
    /// channel.
    pub channel_info: Vec<ChannelInfo>,
}

pub struct Opened {
    pub items: Seq<Item>,
    pub ch: Payload,
    pub infos: Seq<ChannelInfo>,
}

impl View for Archive {
    type V = Opened;

    open spec fn view(&self) -> Opened {
        Opened {
            items: items_of(self.entries@),
            ch: self.channels@,
            infos: self.channel_info@,
        }
    }
}

/// How an archive starts: "DNZA" and a version.
pub open spec fn magic() -> Seq<u8> {
    seq![0x44u8, 0x4e, 0x5a, 0x41, 1, 0, 0, 0]
}

/// How it ends: "DNZENDv1".
pub open spec fn end_magic() -> Seq<u8> {
    seq![0x44u8, 0x4e, 0x5a, 0x45, 0x4e, 0x44, 0x76, 0x31]
}

pub fn magic_bytes() -> (r: [u8; 8])
    ensures
        r@ == magic(),
{
    let r: [u8; 8] = [0x44, 0x4e, 0x5a, 0x41, 1, 0, 0, 0];
    assert(r@ =~= magic());
    r
}

pub fn end_magic_bytes() -> (r: [u8; 8])
    ensures
        r@ == end_magic(),
{
    let r: [u8; 8] = [0x44, 0x4e, 0x5a, 0x45, 0x4e, 0x44, 0x76, 0x31];
    assert(r@ =~= end_magic());
    r
}

/// The number whose eight bytes start at `pos`, the lowest first.
pub open spec fn long_at(s: Seq<u8>, pos: int) -> u64 {
    spec_u64_from_le_bytes(s.subrange(pos, pos + 8))
}

/// Where the table of contents lies: its offset and its length.
pub open spec fn toc_place(data: Seq<u8>) -> Result<(int, int), Error> {
    let n = data.len() as int;
    if n < 32 || data.take(8) != magic() {
        Err(Error::NotAnArchive)
    } else if data.skip(n - 8) != end_magic() {
        Err(Error::BadTrailer)
    } else {
        let off = long_at(data, n - 24) as int;
        let len = long_at(data, n - 16) as int;
        if off + len > n - 24 {
            Err(Error::BadTocLocation)
        } else {
            Ok((off, len))
        }
    }
}

/// Where the payload of channel `n` starts: behind those before it.
pub open spec fn payload_at(infos: Seq<ChannelInfo>, n: nat) -> int
    decreases n,
{
    if n == 0 {
        8
    } else {
        payload_at(infos, (n - 1) as nat) + infos[n - 1].1
    }
}

/// The channel whose payload starts at `off`.
pub open spec fn channel_plain(data: Seq<u8>, info: ChannelInfo, off: int) -> Result<Seq<u8>, Error> {
    if info.2 > usize::MAX {
        Err(Error::ChannelTooLarge)
    } else {
        plain_by(info.0, data.subrange(off, off + info.1), info.2)
    }
}

/// The first `n` channels.
pub open spec fn channels_plain(data: Seq<u8>, infos: Seq<ChannelInfo>, n: nat) -> Result<
    Seq<Seq<u8>>,
    Error,
>
    decreases n,
{
    if n == 0 {
        Ok(Seq::empty())
    } else {
        match channels_plain(data, infos, (n - 1) as nat) {
            Err(e) => Err(e),
            Ok(all) => match channel_plain(
                data,
                infos[n - 1],
                payload_at(infos, (n - 1) as nat),
            ) {
                Err(e) => Err(e),
                Ok(s) => Ok(all.push(s)),
            },
        }
    }
}

/// A blob whose pixels are as they were before the transform.
pub open spec fn blob_of(m: BlobMeta, raw: Seq<u8>) -> Blob {
    Blob {
        data: if m.transform == PIXEL_SUB_GREEN {
            green(raw, m.bpp as int, false)
        } else {
            raw
        },
        stride: m.stride,
        bpp: m.bpp,
    }
}

/// The channels: four of their own, then the blobs.
pub open spec fn payload_of(raws: Seq<Seq<u8>>, metas: Seq<BlobMeta>) -> Payload {
    Payload {
        plain: raws[0],
        corrections: raws[1],
        filters: raws[2],
        lepton: raws[3],
        blobs: Seq::new(metas.len(), |i: int| blob_of(metas[i], raws[i + 4])),
    }
}

/// What an archive with this table, which lies at `off`, comes to.
pub open spec fn opened_by(data: Seq<u8>, off: int, t: Table) -> Result<Opened, Error> {
    if payload_at(t.infos, t.infos.len()) > off {
        Err(Error::PayloadsOverrun)
    } else {
        match channels_plain(data, t.infos, t.infos.len()) {
            Err(e) => Err(e),
            Ok(raws) => Ok(
                Opened { items: t.items, ch: payload_of(raws, t.metas), infos: t.infos },
            ),
        }
    }
}

/// The table of contents of an archive, and where it lies.
pub open spec fn table_in(data: Seq<u8>) -> Result<(int, Table), Error> {
    match toc_place(data) {
        Err(e) => Err(e),
        Ok((off, len)) => match zstd_text_of(data.subrange(off, off + len)) {
            None => Err(Error::TocFailed),
            Some(toc) => match table_of(toc) {
                Err(e) => Err(e),
                Ok(t) => Ok((off, t)),
            },
        },
    }
}

pub open spec fn opened(data: Seq<u8>) -> Result<Opened, Error> {
    match table_in(data) {
        Err(e) => Err(e),
        Ok((off, t)) => opened_by(data, off, t),
    }
}

/// Whether the error says that a backend failed whose codec was asked about the
/// payload, which starts at `off`, and returned an error.
pub open spec fn backend_starved(data: Seq<u8>, info: ChannelInfo, off: int, e: Error) -> bool {
    &&& e == Error::BackendFailed(info.0)
    &&& info.2 <= usize::MAX
    &&& read_refused(info.0, data.subrange(off, off + info.1))
}

/// Whether that may come of one of the channels.
pub open spec fn channels_starved(data: Seq<u8>, infos: Seq<ChannelInfo>, e: Error) -> bool {
    exists|i: int|
        0 <= i < infos.len() && backend_starved(
            data,
            #[trigger] infos[i],
            payload_at(infos, i as nat),
            e,
        )
}

/// Whether the decoder of the table was asked about its bytes and returned an
/// error.
pub open spec fn table_starved(data: Seq<u8>, e: Error) -> bool {
    toc_place(data) matches Ok((off, len)) && e is TocFailed && text_refused(
        data.subrange(off, off + len),
    )
}

/// Whether opening may fail with this error though the bytes are sound: the
/// codec of the table or of a channel was asked about it and returned an error,
/// as it does for want of memory.
pub open spec fn open_starved(data: Seq<u8>, e: Error) -> bool {
    ||| table_starved(data, e)
    ||| table_in(data) matches Ok((off, t)) && payload_at(t.infos, t.infos.len()) <= off
        && channels_starved(data, t.infos, e)
}

/// Whether reading an archive may come to this.
pub open spec fn may_open(data: Seq<u8>, r: Result<Opened, Error>) -> bool {
    match r {
        Ok(o) => opened(data) == Ok::<Opened, Error>(o),
        Err(e) => open_starved(data, e) || opened(data) == Err::<Opened, Error>(e),
    }
}

/// An archive whose table and channels decode opens, however long they are:
/// reading it fails only where a codec that was asked about the table, or about
/// the payload of a channel, returned an error.
pub proof fn lemma_open_owed(data: Seq<u8>, r: Result<Opened, Error>)
    requires
        opened(data) is Ok,
        may_open(data, r),
        r is Err,
    ensures
        ({
            let (off, len) = toc_place(data)->Ok_0;
            let t = table_in(data)->Ok_0.1;
            ||| text_refused(data.subrange(off, off + len))
            ||| exists|i: int|
                0 <= i < t.infos.len() && read_refused(
                    (#[trigger] t.infos[i]).0,
                    data.subrange(
                        payload_at(t.infos, i as nat),
                        payload_at(t.infos, i as nat) + t.infos[i].1,
                    ),
                )
        }),
{
    let t = table_in(data)->Ok_0.1;
    let e = r->Err_0;
    if !table_starved(data, e) {
        let i = choose|i: int|
            0 <= i < t.infos.len() && backend_starved(
                data,
                #[trigger] t.infos[i],
                payload_at(t.infos, i as nat),
                e,
            );
        assert(read_refused(
            t.infos[i].0,
            data.subrange(
                payload_at(t.infos, i as nat),
                payload_at(t.infos, i as nat) + t.infos[i].1,
            ),
        ));
    }
}

/// What decodes as frames, and reads as a table, is the table, where the trailer
/// says that it lies there.
pub proof fn lemma_table_read(data: Seq<u8>, off: int, len: int, text: Seq<u8>)
    requires
        toc_place(data) == Ok::<(int, int), Error>((off, len)),
        zstd_text_of(data.subrange(off, off + len)) == Some(text),
    ensures
        table_of(text) matches Ok(t) ==> table_in(data) == Ok::<(int, Table), Error>((off, t)),
        table_of(text) matches Err(e) ==> table_in(data) == Err::<(int, Table), Error>(e),
{
}

/// Finds the table of contents: its offset and its length.
pub fn find_toc(data: &[u8]) -> (r: Result<(usize, usize), Error>)
    ensures
        match toc_place(data@) {
            Ok((off, len)) => r matches Ok(x) && x.0 == off && x.1 == len && off + len
                <= data@.len() - 24,
            Err(e) => r matches Err(x) && x == e,
        },
{
    let n: usize = data.len();
    if n < 32 {
        return Err(Error::NotAnArchive);
    }
    let m: [u8; 8] = magic_bytes();
    let head: &[u8] = vstd::slice::slice_subrange(data, 0, 8);
    assert(head@ =~= data@.take(8));
    if !same(head, m.as_slice()) {
        return Err(Error::NotAnArchive);
    }
    let e: [u8; 8] = end_magic_bytes();
    let tail: &[u8] = vstd::slice::slice_subrange(data, n - 8, n);
    assert(tail@ =~= data@.skip(n - 8));
    if !same(tail, e.as_slice()) {
        return Err(Error::BadTrailer);
    }
    let off: u64 = u64_from_le_bytes(vstd::slice::slice_subrange(data, n - 24, n - 16));
    let len: u64 = u64_from_le_bytes(vstd::slice::slice_subrange(data, n - 16, n - 8));
    let room: u64 = (n - 24) as u64;
    if off > room || len > room - off {
        return Err(Error::BadTocLocation);
    }
    Ok((off as usize, len as usize))
}

proof fn lemma_payload_grows(infos: Seq<ChannelInfo>, i: nat, n: nat)
    requires
        i <= n,
    ensures
        payload_at(infos, i) <= payload_at(infos, n),
        8 <= payload_at(infos, i),
    decreases n,
{
    if n > 0 {
        if i < n {
            lemma_payload_grows(infos, i, (n - 1) as nat);
        } else {
            lemma_payload_grows(infos, (n - 1) as nat, (n - 1) as nat);
        }
    }
}

/// Where the payloads start. None may reach behind the table's offset.
pub fn payload_starts(infos: &Vec<ChannelInfo>, toc_offset: usize) -> (r: Result<Vec<usize>, Error>)
    ensures
        ({
            if payload_at(infos@, infos@.len()) > toc_offset {
                r matches Err(e) && e == Error::PayloadsOverrun
            } else {
                &&& r matches Ok(v)
                &&& v@.len() == infos@.len()
                &&& forall|i: int|
                    0 <= i < v@.len() ==> #[trigger] v@[i] == payload_at(infos@, i as nat)
                        && v@[i] + infos@[i].1 <= toc_offset
            }
        }),
{
    let mut v: Vec<usize> = Vec::new();
    let mut off: usize = 8;
    let n: usize = infos.len();
    if toc_offset < 8 {
        proof {
            lemma_payload_grows(infos@, 0, infos@.len());
        }
        return Err(Error::PayloadsOverrun);
    }
    let mut k: usize = 0;
    while k < n
        invariant
            k <= n,
            n == infos@.len(),
            off <= toc_offset,
            off == payload_at(infos@, k as nat),
            v@.len() == k,
            forall|i: int|
                0 <= i < k ==> #[trigger] v@[i] == payload_at(infos@, i as nat) && v@[i]
                    + infos@[i].1 <= toc_offset,
        decreases n - k,
    {
        if infos[k].1 > (toc_offset - off) as u64 {
            proof {
                lemma_payload_grows(infos@, (k + 1) as nat, n as nat);
            }
            return Err(Error::PayloadsOverrun);
        }
        v.push(off);
        off = off + infos[k].1 as usize;
        k += 1;
    }
    Ok(v)
}

/// Decompresses the channel whose payload starts at `off`.
pub fn open_channel(data: &[u8], info: ChannelInfo, off: usize) -> (r: Result<Vec<u8>, Error>)
    requires
        off + info.1 <= data@.len(),
    ensures
        match r {
            Ok(v) => channel_plain(data@, info, off as int) == Ok::<Seq<u8>, Error>(v@),
            Err(e) => backend_starved(data@, info, off as int, e) || channel_plain(
                data@,
                info,
                off as int,
            ) == Err::<Seq<u8>, Error>(e),
        },
        info.0 != ZSTD && info.0 != LZMA ==> same_bytes(r, channel_plain(data@, info, off as int)),
{
    open_channel_ticking(data, info, off, &|_bytes: u64, _weight: u64| {})
}

/// The same, and calls `tick` as it goes, with the bytes that were decompressed
/// since and what each of them costs.
pub fn open_channel_ticking<F: Fn(u64, u64)>(
    data: &[u8],
    info: ChannelInfo,
    off: usize,
    tick: &F,
) -> (r: Result<Vec<u8>, Error>)
    requires
        off + info.1 <= data@.len(),
        forall|n: u64, w: u64| call_requires(tick, (n, w)),
    ensures
        match r {
            Ok(v) => channel_plain(data@, info, off as int) == Ok::<Seq<u8>, Error>(v@),
            Err(e) => backend_starved(data@, info, off as int, e) || channel_plain(
                data@,
                info,
                off as int,
            ) == Err::<Seq<u8>, Error>(e),
        },
        info.0 != ZSTD && info.0 != LZMA ==> same_bytes(r, channel_plain(data@, info, off as int)),
{
    if info.2 > usize::MAX as u64 {
        return Err(Error::ChannelTooLarge);
    }
    let n: usize = data.len();
    assert(off + info.1 <= n);
    let comp: &[u8] = vstd::slice::slice_subrange(data, off, off + info.1 as usize);
    decompress_ticking(info.0, comp, info.2 as usize, tick)
}

pub open spec fn raws_of(v: Seq<Vec<u8>>) -> Seq<Seq<u8>> {
    Seq::new(v.len(), |i: int| v[i]@)
}

/// Undoes the transform of a blob.
pub fn open_blob(raw: Vec<u8>, m: BlobMeta) -> (r: PixelBlob)
    ensures
        r@ == blob_of(m, raw@),
{
    let data: Vec<u8> = if m.transform == PIXEL_SUB_GREEN {
        sub_green(raw.as_slice(), m.bpp as usize, false)
    } else {
        raw
    };
    PixelBlob { data, stride: m.stride, bpp: m.bpp }
}

/// Sets the channels up from what was decompressed.
pub fn gather(raws: Vec<Vec<u8>>, metas: &Vec<BlobMeta>) -> (ch: Channels)
    requires
        raws@.len() == metas@.len() + 4,
    ensures
        ch@ == payload_of(raws_of(raws@), metas@),
{
    let ghost want = payload_of(raws_of(raws@), metas@);
    let mut ch = Channels::default();
    let n: usize = raws.len();
    let mut k: usize = 0;
    for raw in it: raws
        invariant
            it.seq() == raws@,
            n == raws@.len(),
            raws@.len() == metas@.len() + 4,
            want == payload_of(raws_of(raws@), metas@),
            k == it.index(),
            k > 0 ==> ch@.plain == want.plain,
            k > 1 ==> ch@.corrections == want.corrections,
            k > 2 ==> ch@.filters == want.filters,
            k > 3 ==> ch@.lepton == want.lepton,
            k <= 4 ==> ch@.blobs.len() == 0,
            k > 4 ==> ch@.blobs == want.blobs.take(k - 4),
    {
        assert(raw@ == raws_of(raws@)[k as int]);
        assert(k < n);
        let ghost b0 = ch.pixel_blobs@;
        if k == 0 {
            ch.plain = raw;
        } else if k == 1 {
            ch.corrections = raw;
        } else if k == 2 {
            ch.filters = raw;
        } else if k == 3 {
            ch.lepton = raw;
        } else {
            let b: PixelBlob = open_blob(raw, metas[k - 4]);
            assert(b@ == want.blobs[k - 4]);
            ch.pixel_blobs.push(b);
            assert(ch@.blobs =~= want.blobs.take(k - 3));
        }
        k += 1;
    }
    assert(ch@.blobs =~= want.blobs);
    assert(ch@ =~= want);
    ch
}

proof fn lemma_channels_err(data: Seq<u8>, infos: Seq<ChannelInfo>, i: nat, n: nat)
    requires
        i <= n,
        channels_plain(data, infos, i) is Err,
    ensures
        channels_plain(data, infos, n) == channels_plain(data, infos, i),
    decreases n - i,
{
    if i < n {
        lemma_channels_err(data, infos, i, (n - 1) as nat);
    }
}

/// Reads the table of contents, and says where it lies.
pub fn read_table(data: &[u8]) -> (r: Result<(usize, Toc), Error>)
    ensures
        match r {
            Ok(x) => table_in(data@) == Ok::<(int, Table), Error>((x.0 as int, x.1@)) && x.0
                <= data@.len() && x.1@.infos.len() == x.1@.metas.len() + 4,
            Err(e) => table_starved(data@, e) || table_in(data@) == Err::<(int, Table), Error>(e),
        },
        toc_place(data@) matches Err(e) ==> r == Err::<(usize, Toc), Error>(e),
{
    let (off, len): (usize, usize) = match find_toc(data) {
        Ok(x) => x,
        Err(e) => return Err(e),
    };
    let n: usize = data.len();
    assert(off + len <= n);
    let toc: Vec<u8> = match ask_text(vstd::slice::slice_subrange(data, off, off + len)) {
        Ok(v) => v,
        Err(_) => return Err(Error::TocFailed),
    };
    proof {
        lemma_table_shape(toc@);
    }
    match read_toc(toc.as_slice()) {
        Ok(t) => Ok((off, t)),
        Err(e) => Err(e),
    }
}

/// Opens an archive by its table of contents, which lies at `toc_offset`.
pub fn open_by(data: &[u8], toc_offset: usize, toc: Toc) -> (r: Result<Archive, Error>)
    requires
        toc_offset <= data@.len(),
        toc@.infos.len() == toc@.metas.len() + 4,
    ensures
        match r {
            Ok(a) => opened_by(data@, toc_offset as int, toc@) == Ok::<Opened, Error>(a@),
            Err(e) => {
                ||| payload_at(toc@.infos, toc@.infos.len()) <= toc_offset && channels_starved(
                    data@,
                    toc@.infos,
                    e,
                )
                ||| opened_by(data@, toc_offset as int, toc@) == Err::<Opened, Error>(e)
            },
        },
{
    let Toc { entries, metas, infos } = toc;
    let starts: Vec<usize> = match payload_starts(&infos, toc_offset) {
        Ok(v) => v,
        Err(e) => return Err(e),
    };
    let mut raws: Vec<Vec<u8>> = Vec::new();
    let n: usize = infos.len();
    let mut k: usize = 0;
    assert(raws_of(raws@) =~= Seq::<Seq<u8>>::empty());
    while k < n
        invariant
            k <= n,
            n == infos@.len(),
            toc_offset <= data@.len(),
            starts@.len() == n,
            forall|i: int|
                0 <= i < n ==> #[trigger] starts@[i] == payload_at(infos@, i as nat) && starts@[i]
                    + infos@[i].1 <= toc_offset,
            toc@ == (Table { items: items_of(entries@), metas: metas@, infos: infos@ }),
            payload_at(infos@, n as nat) <= toc_offset,
            channels_plain(data@, infos@, k as nat) == Ok::<Seq<Seq<u8>>, Error>(raws_of(raws@)),
            raws@.len() == k,
        decreases n - k,
    {
        let ghost r0 = raws@;
        assert(starts@[k as int] == payload_at(infos@, k as nat));
        match open_channel(data, infos[k], starts[k]) {
            Ok(v) => {
                assert(raws_of(r0.push(v)) =~= raws_of(r0).push(v@));
                raws.push(v);
            },
            Err(e) => {
                proof {
                    let at = payload_at(infos@, k as nat);
                    if backend_starved(data@, infos@[k as int], at, e) {
                        assert(channels_starved(data@, infos@, e));
                    } else {
                        lemma_channels_err(data@, infos@, (k + 1) as nat, n as nat);
                    }
                }
                return Err(e);
            },
        }
        k += 1;
    }
    let channels: Channels = gather(raws, &metas);
    Ok(Archive { entries, channels, channel_info: infos })
}

/// Reads an archive.
pub fn read_archive(data: &[u8]) -> (r: Result<Archive, Error>)
    ensures
        match r {
            Ok(a) => may_open(data@, Ok(a@)),
            Err(e) => may_open(data@, Err(e)),
        },
        toc_place(data@) matches Err(e) ==> r == Err::<Archive, Error>(e),
{
    match read_table(data) {
        Ok((off, toc)) => open_by(data, off, toc),
        Err(e) => Err(e),
    }
}

} // verus!
