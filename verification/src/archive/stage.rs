//! Planning the files one by one, and laying their plans together.

use crate::archive::toc::{dir_item, items_of, Entry, Item};
use crate::channels::{blobs_of, Channels, Cursors, Payload, Places};
use crate::error::{out_of_memory, Error};
use crate::outside::xxh3_of;
use crate::plan::remap::{
    all_blobs_below, blobs_below, blobs_below_upto, lemma_below_loosen, lemma_unmoved, moved_list,
};
use crate::plan::{lemma_pieces_upto, pieces, remap_blobs, Image, Piece, PixelEnc, Seg, Stream};
use crate::rebuild::filter::filtered_rows;
use crate::rebuild::render::{
    asks_codec, rendered, rendered_image, rendered_piece, rendered_stream, rendered_upto,
};
use crate::rebuild::render_segs;
use crate::refusal::{rebuild_starved, scan_starved};
use crate::scan::attempt::scan_bytes;
use crate::scan::law::lemma_plan_renders;
use crate::scan::outcome::{is_plan, lemma_plan_loosen};
use crate::util::bytes::same;
use crate::util::xxh3;
use vstd::prelude::*;

verus! {

/// A file with its plan, and the payload of its own.
#[derive(Debug)]
pub struct PlannedFile {
    pub path: String,
    pub is_dir: bool,
    pub size: u64,
    pub hash: u64,
    pub segs: Vec<Seg>,
    pub delta: Channels,
}

pub struct Staged {
    pub item: Item,
    pub ch: Payload,
}

impl View for PlannedFile {
    type V = Staged;

    open spec fn view(&self) -> Staged {
        Staged {
            item: Item {
                path: self.path@,
                is_dir: self.is_dir,
                size: self.size,
                hash: self.hash,
                segs: pieces(self.segs@),
            },
            ch: self.delta@,
        }
    }
}

/// Whether segments render to `data`, and use up their channels.
pub open spec fn stores(segs: Seq<Piece>, ch: Payload, data: Seq<u8>) -> bool {
    rendered(segs, ch, Places::start()) == Ok::<(Seq<u8>, Places), Error>((data, ch.ends()))
}

/// The plan that keeps the data as it is.
pub open spec fn raw_segs(data: Seq<u8>) -> Seq<Piece> {
    seq![Piece::Raw { len: data.len() as u64 }]
}

pub open spec fn raw_channels(data: Seq<u8>) -> Payload {
    Payload::empty().plus_plain(data)
}

/// A file with the segments and channels that were settled on.
pub open spec fn file_stage(path: Seq<char>, data: Seq<u8>, segs: Seq<Piece>, ch: Payload) -> Staged {
    Staged {
        item: Item {
            path,
            is_dir: false,
            size: data.len() as u64,
            hash: xxh3_of(data),
            segs,
        },
        ch,
    }
}

/// Whether `p` is a plan for a file or directory: one that the scan found, or
/// the file as it is, and either way one that renders to the file.
pub open spec fn is_stage(path: Seq<char>, is_dir: bool, data: Seq<u8>, p: Staged) -> bool {
    if is_dir {
        p.item == dir_item(path) && p.ch == Payload::empty()
    } else {
        &&& p == file_stage(path, data, p.item.segs, p.ch)
        &&& stores(p.item.segs, p.ch, data)
        &&& {
            ||| is_plan(data, 0, Payload::empty(), p.item.segs, p.ch, true)
            ||| p.item.segs == raw_segs(data) && p.ch == raw_channels(data) && may_keep(data)
        }
    }
}

/// Whether a file may be kept as it is though the scan found something in it: a
/// codec ran out of memory on recreating it, or it has more blobs than can be
/// numbered.
#[verifier::opaque]
pub open spec fn may_keep(data: Seq<u8>) -> bool {
    ||| rebuild_starved()
    ||| exists|segs: Seq<Piece>, ch: Payload| #[trigger]
        is_plan(data, 0, Payload::empty(), segs, ch, true) && ch.blobs.len() > 0x1_0000_0000
}

/// Whether `p` is the plan that is due to a file or directory where no codec ran
/// short of memory: the one that the scan finds. A file with more blobs than can
/// be numbered is kept as it is.
#[verifier::opaque]
pub open spec fn is_due(path: Seq<char>, is_dir: bool, data: Seq<u8>, p: Staged) -> bool {
    &&& is_stage(path, is_dir, data, p)
    &&& !is_dir ==> {
        ||| is_plan(data, 0, Payload::empty(), p.item.segs, p.ch, false)
        ||| exists|segs: Seq<Piece>, ch: Payload| #[trigger]
            is_plan(data, 0, Payload::empty(), segs, ch, false) && ch.blobs.len() > 0x1_0000_0000
    }
}

/// Whether segments name no blob but those of their own channels, and a
/// directory has a path alone.
pub open spec fn is_sound(p: Staged) -> bool {
    &&& all_blobs_below(p.item.segs, p.ch.blobs.len() as int)
    &&& p.item.is_dir ==> p.item == dir_item(p.item.path)
}

proof fn lemma_stream_below(d: Stream, ch: Payload, c: Places)
    requires
        rendered_stream(d, ch, c) is Ok,
    ensures
        all_blobs_below(d.inner, ch.blobs.len() as int),
    decreases d, 0nat,
{
    let end = c.corrections + d.corrections_len;
    lemma_upto_below(d.inner, d.inner.len(), ch, Places { corrections: end, ..c });
}

proof fn lemma_piece_below(p: Piece, ch: Payload, c: Places)
    requires
        rendered_piece(p, ch, c) is Ok,
    ensures
        blobs_below(p, ch.blobs.len() as int),
    decreases p, 0nat,
{
    match p {
        Piece::Deflate(d) => {
            lemma_stream_below(d, ch, c);
        },
        Piece::Zlib { header, body } => {
            lemma_stream_below(body, ch, c);
        },
        Piece::Gzip { header_len, body } => {
            lemma_stream_below(body, ch, Places { plain: c.plain + header_len, ..c });
        },
        Piece::PngIdat(i) => {},
        _ => {},
    }
}

proof fn lemma_upto_below(v: Seq<Piece>, n: nat, ch: Payload, c: Places)
    requires
        n <= v.len(),
        rendered_upto(v, n, ch, c) is Ok,
    ensures
        blobs_below_upto(v, n, ch.blobs.len() as int),
    decreases v, n,
{
    if n > 0 {
        lemma_upto_below(v, (n - 1) as nat, ch, c);
        let (s, c1) = rendered_upto(v, (n - 1) as nat, ch, c)->Ok_0;
        lemma_piece_below(v[n - 1], ch, c1);
    }
}

/// Segments that render name no blob that is not there.
pub proof fn lemma_rendered_below(v: Seq<Piece>, ch: Payload, c: Places)
    requires
        rendered(v, ch, c) is Ok,
    ensures
        all_blobs_below(v, ch.blobs.len() as int),
{
    lemma_upto_below(v, v.len(), ch, c);
}

/// Renders a plan and holds it against the data. A plan that left some of its
/// channels unread would throw off the files behind it. An error where a codec
/// ran out of memory.
fn is_faithful(segs: &Vec<Seg>, delta: &Channels, data: &[u8]) -> (r: Result<bool, Error>)
    ensures
        match r {
            Ok(b) => b == stores(pieces(segs@), delta@, data@),
            Err(e) => out_of_memory(e) && asks_codec(pieces(segs@)),
        },
{
    let mut cur = Cursors::new(delta);
    let mut out: Vec<u8> = Vec::new();
    match render_segs(segs.as_slice(), &mut cur, &mut out) {
        Ok(()) => {},
        Err(Error::OutOfMemory) => {
            proof {
                lemma_never_starved(pieces(segs@), pieces(segs@).len(), delta@, Places::start());
            }
            return Err(Error::OutOfMemory);
        },
        Err(_) => return Ok(false),
    }
    assert(out@ =~= rendered(pieces(segs@), delta@, Places::start())->Ok_0.0);
    Ok(
        same(out.as_slice(), data) && cur.plain == delta.plain.len() && cur.corrections
            == delta.corrections.len() && cur.filters == delta.filters.len() && cur.lepton
            == delta.lepton.len(),
    )
}

proof fn lemma_stream_never_starved(d: Stream, ch: Payload, c: Places)
    ensures
        rendered_stream(d, ch, c) matches Err(e) ==> !(e is OutOfMemory),
    decreases d, 0nat,
{
    let end = c.corrections + d.corrections_len;
    lemma_never_starved(d.inner, d.inner.len(), ch, Places { corrections: end, ..c });
}

proof fn lemma_rows_never_starved(filters: Seq<u8>, pixels: Seq<u8>, w: int, bpp: int, n: nat)
    ensures
        filtered_rows(filters, pixels, w, bpp, n) matches Err(e) ==> !(e is OutOfMemory),
    decreases n,
{
    if n > 0 {
        lemma_rows_never_starved(filters, pixels, w, bpp, (n - 1) as nat);
    }
}

proof fn lemma_image_never_starved(i: Image, ch: Payload, c: Places)
    ensures
        rendered_image(i, ch, c) matches Err(e) ==> !(e is OutOfMemory),
{
    if let PixelEnc::Unfiltered { blob } = i.pixels {
        lemma_rows_never_starved(
            ch.filters.subrange(c.filters, c.filters + i.height),
            ch.blobs[blob as int].data,
            i.row_len(),
            i.pixel_len(),
            i.height as nat,
        );
    }
}

proof fn lemma_piece_never_starved(p: Piece, ch: Payload, c: Places)
    ensures
        rendered_piece(p, ch, c) matches Err(e) ==> !(e is OutOfMemory),
    decreases p, 0nat,
{
    match p {
        Piece::Deflate(d) => {
            lemma_stream_never_starved(d, ch, c);
        },
        Piece::Zlib { header, body } => {
            lemma_stream_never_starved(body, ch, c);
        },
        Piece::Gzip { header_len, body } => {
            lemma_stream_never_starved(body, ch, Places { plain: c.plain + header_len, ..c });
        },
        Piece::PngIdat(i) => {
            lemma_image_never_starved(i, ch, c);
        },
        _ => {},
    }
}

/// Want of memory is no error that segments and channels have.
proof fn lemma_never_starved(v: Seq<Piece>, n: nat, ch: Payload, c: Places)
    ensures
        rendered_upto(v, n, ch, c) matches Err(e) ==> !(e is OutOfMemory),
    decreases v, n,
{
    if 0 < n <= v.len() {
        lemma_never_starved(v, (n - 1) as nat, ch, c);
        if let Ok((s, c1)) = rendered_upto(v, (n - 1) as nat, ch, c) {
            lemma_piece_never_starved(v[n - 1], ch, c1);
        }
    }
}

proof fn lemma_raw_stores(data: Seq<u8>)
    requires
        data.len() <= u64::MAX,
    ensures
        stores(raw_segs(data), raw_channels(data), data),
{
    let v = raw_segs(data);
    let ch = raw_channels(data);
    assert(ch.plain =~= data);
    assert(data.subrange(0, data.len() as int) =~= data);
    assert(rendered_upto(v, 0, ch, Places::start()) == Ok::<(Seq<u8>, Places), Error>(
        (Seq::empty(), Places::start()),
    ));
    assert(Seq::<u8>::empty() + data =~= data);
    assert(v.len() == 1 && v[0] == Piece::Raw { len: data.len() as u64 });
    assert(rendered_piece(v[0], ch, Places::start()) == Ok::<(Seq<u8>, Places), Error>(
        (data, ch.ends()),
    ));
    assert(rendered_upto(v, 1, ch, Places::start()) == Ok::<(Seq<u8>, Places), Error>(
        (data, ch.ends()),
    ));
}

/// Keeps the plan where it is faithful, and otherwise the data as it is.
pub fn settle(path: String, data: &[u8], segs: Vec<Seg>, delta: Channels, faithful: bool) -> (r:
    PlannedFile)
    ensures
        faithful ==> r@ == file_stage(path@, data@, pieces(segs@), delta@),
        !faithful ==> r@ == file_stage(path@, data@, raw_segs(data@), raw_channels(data@)),
{
    let hash: u64 = xxh3(data);
    let size: u64 = data.len() as u64;
    if faithful {
        return PlannedFile { path, is_dir: false, size, hash, segs, delta };
    }
    let mut raw = Channels::default();
    raw.plain = vstd::slice::slice_to_vec(data);
    let mut segs: Vec<Seg> = Vec::new();
    segs.push(Seg::Raw { len: size });
    proof {
        lemma_pieces_upto(segs@, segs@.len());
        assert(pieces(segs@) =~= raw_segs(data@));
        assert(raw@.plain =~= raw_channels(data@).plain);
        assert(raw@ =~= raw_channels(data@));
    }
    PlannedFile { path, is_dir: false, size, hash, segs, delta: raw }
}

/// Plans one file or directory.
pub fn plan_file(path: String, is_dir: bool, data: &[u8]) -> (r: PlannedFile)
    ensures
        is_stage(path@, is_dir, data@, r@),
        is_sound(r@),
        is_due(path@, is_dir, data@, r@) || scan_starved() || rebuild_starved(),
{
    stage_file(path, is_dir, data).0
}

/// Plans one file or directory, and says whether a codec ran short of memory:
/// only then may less be taken apart than is due.
pub fn stage_file(path: String, is_dir: bool, data: &[u8]) -> (r: (PlannedFile, bool))
    ensures
        is_stage(path@, is_dir, data@, r.0@),
        is_sound(r.0@),
        !r.1 ==> is_due(path@, is_dir, data@, r.0@),
        r.1 ==> scan_starved() || rebuild_starved(),
{
    if is_dir {
        let r = PlannedFile {
            path,
            is_dir: true,
            size: 0,
            hash: 0,
            segs: Vec::new(),
            delta: Channels::default(),
        };
        assert(r@.item.segs =~= Seq::<Piece>::empty());
        reveal(is_due);
        return (r, false);
    }
    let mut delta = Channels::default();
    let (segs, scan_short): (Vec<Seg>, bool) = scan_bytes(data, 0, &mut delta);
    let (faithful, short): (bool, bool) = match is_faithful(&segs, &delta, data) {
        Ok(b) => (b, scan_short),
        Err(_) => (false, true),
    };
    let n: usize = data.len();
    proof {
        reveal(is_due);
        reveal(may_keep);
        assert(n == data@.len());
        lemma_raw_stores(data@);
        lemma_rendered_below(raw_segs(data@), raw_channels(data@), Places::start());
        lemma_plan_loosen(data@, 0, Payload::empty(), pieces(segs@), delta@, scan_short);
        if faithful {
            lemma_rendered_below(pieces(segs@), delta@, Places::start());
        } else if delta@.blobs.len() <= 0x1_0000_0000 {
            lemma_plan_renders(data@, 0, Payload::empty(), pieces(segs@), delta@, scan_short);
            assert(Payload::empty().ends() == Places::start());
        }
    }
    (settle(path, data, segs, delta, faithful), short)
}

/// The entries and channels of many files together.
pub struct Bulk {
    pub items: Seq<Item>,
    pub ch: Payload,
}

/// An entry whose blobs come behind `off` others.
pub open spec fn moved_item(e: Item, off: int) -> Item {
    Item { segs: moved_list(e.segs, off), ..e }
}

/// The first `n` files, each behind those before it.
pub open spec fn committed(v: Seq<Staged>, n: nat) -> Bulk
    decreases n,
{
    if n == 0 {
        Bulk { items: Seq::empty(), ch: Payload::empty() }
    } else {
        let b = committed(v, (n - 1) as nat);
        Bulk {
            items: b.items.push(moved_item(v[n - 1].item, b.ch.blobs.len() as int)),
            ch: b.ch.joined(v[n - 1].ch),
        }
    }
}

pub open spec fn stages_of(v: Seq<PlannedFile>) -> Seq<Staged> {
    Seq::new(v.len(), |i: int| v[i]@)
}

proof fn lemma_blobs_grow(v: Seq<Staged>, i: nat, n: nat)
    requires
        i <= n,
    ensures
        committed(v, i).ch.blobs.len() <= committed(v, n).ch.blobs.len(),
    decreases n - i,
{
    if i < n {
        lemma_blobs_grow(v, i, (n - 1) as nat);
    }
}

impl Channels {
    /// Puts the channels of another behind these.
    pub fn join(&mut self, other: Channels)
        ensures
            final(self)@ == old(self)@.joined(other@),
    {
        let ghost c0 = self@;
        let mut other = other;
        let ghost o = other@;
        let ghost b0 = self.pixel_blobs@;
        let ghost b1 = other.pixel_blobs@;
        self.plain.append(&mut other.plain);
        self.corrections.append(&mut other.corrections);
        self.filters.append(&mut other.filters);
        self.lepton.append(&mut other.lepton);
        self.pixel_blobs.append(&mut other.pixel_blobs);
        assert(blobs_of(b0 + b1) =~= blobs_of(b0) + blobs_of(b1));
        assert(self@ =~= c0.joined(o));
    }
}

/// Lays the plans of the files together, in their order.
pub fn commit(planned: Vec<PlannedFile>) -> (r: Result<(Vec<Entry>, Channels), Error>)
    requires
        forall|i: int| 0 <= i < planned@.len() ==> is_sound(#[trigger] planned@[i]@),
    ensures
        ({
            let b = committed(stages_of(planned@), planned@.len());
            if b.ch.blobs.len() > 0x1_0000_0000 {
                r matches Err(e) && e == Error::TooManyBlobs
            } else {
                r matches Ok(x) && items_of(x.0@) == b.items && x.1@ == b.ch
            }
        }),
{
    let ghost v = stages_of(planned@);
    let ghost n = planned@.len();
    let mut entries: Vec<Entry> = Vec::new();
    let mut ch = Channels::default();
    assert(items_of(entries@) =~= Seq::<Item>::empty());
    for pf in it: planned
        invariant
            it.seq() == planned@,
            v == stages_of(planned@),
            n == planned@.len(),
            forall|i: int| 0 <= i < planned@.len() ==> is_sound(#[trigger] planned@[i]@),
            items_of(entries@) == committed(v, it.index() as nat).items,
            ch@ == committed(v, it.index() as nat).ch,
            ch@.blobs.len() <= 0x1_0000_0000,
    {
        let ghost i = it.index() as nat;
        proof {
            assert(pf == planned@[i as int]);
            assert(v[i as int] == pf@);
            assert(is_sound(planned@[i as int]@));
        }
        let off: usize = ch.pixel_blobs.len();
        let own: usize = pf.delta.pixel_blobs.len();
        assert(off == ch@.blobs.len());
        if off as u64 > 0x1_0000_0000 || own as u64 > 0x1_0000_0000 - off as u64 {
            proof {
                assert(committed(v, i + 1).ch.blobs.len() == off + own);
                lemma_blobs_grow(v, i + 1, n);
            }
            return Err(Error::TooManyBlobs);
        }
        let PlannedFile { path, is_dir, size, hash, segs, delta } = pf;
        let mut segs = segs;
        let ghost p0 = pieces(segs@);
        if own > 0 {
            proof {
                lemma_below_loosen(p0, own as int, 0x1_0000_0000 - off);
            }
            remap_blobs(&mut segs, off as u32);
        } else {
            proof {
                lemma_unmoved(p0, off as int);
            }
        }
        let e = Entry { path, is_dir, size, hash, segs };
        let ghost e0 = entries@;
        entries.push(e);
        ch.join(delta);
        proof {
            assert(items_of(entries@) =~= items_of(e0).push(e@));
            assert(e@ == moved_item(v[i as int].item, off as int));
        }
    }
    Ok((entries, ch))
}

} // verus!
