//! Where compressed data may start: the marks that deflate streams, PNGs and
//! JPEGs have.

use crate::cm::transform::be_at;
use crate::outside::{crc32, crc32_of};
use crate::scan::outcome::run_upto;
use vstd::prelude::*;

verus! {

/// What may be recompressed at a position.
#[derive(Debug)]
pub enum Cand {
    Zlib,
    /// A bare deflate stream: the body of a zip entry.
    RawDeflate,
    Gzip,
    Png(PngInfo),
    Jpeg,
}

/// What the chunks of a PNG say.
#[derive(Debug)]
pub struct PngInfo {
    pub width: u32,
    pub height: u32,
    pub bit_depth: u8,
    pub color_type: u8,
    pub interlace: u8,
    /// The sizes of the IDAT chunks, which follow each other.
    pub chunk_lens: Vec<u32>,
}

pub enum Lead {
    Zlib,
    RawDeflate,
    Gzip,
    Png(Info),
    Jpeg,
}

pub struct Info {
    pub head: Head,
    pub chunk_lens: Seq<u32>,
}

/// The numbers of an IHDR chunk.
#[derive(Debug, Clone, Copy)]
pub struct Head {
    pub width: u32,
    pub height: u32,
    pub bit_depth: u8,
    pub color_type: u8,
    pub interlace: u8,
}

impl View for PngInfo {
    type V = Info;

    open spec fn view(&self) -> Info {
        Info {
            head: Head {
                width: self.width,
                height: self.height,
                bit_depth: self.bit_depth,
                color_type: self.color_type,
                interlace: self.interlace,
            },
            chunk_lens: self.chunk_lens@,
        }
    }
}

impl View for Cand {
    type V = Lead;

    open spec fn view(&self) -> Lead {
        match *self {
            Cand::Zlib => Lead::Zlib,
            Cand::RawDeflate => Lead::RawDeflate,
            Cand::Gzip => Lead::Gzip,
            Cand::Png(i) => Lead::Png(i@),
            Cand::Jpeg => Lead::Jpeg,
        }
    }
}

/// What a walk over the chunks of a PNG has found.
pub struct Found {
    pub head: Option<Head>,
    pub start: Option<int>,
    pub lens: Seq<u32>,
}

pub open spec fn is_name(s: Seq<u8>, pos: int, a: u8, b: u8, c: u8, d: u8) -> bool {
    s[pos] == a && s[pos + 1] == b && s[pos + 2] == c && s[pos + 3] == d
}

pub open spec fn is_ihdr(s: Seq<u8>, pos: int) -> bool {
    is_name(s, pos + 4, 0x49, 0x48, 0x44, 0x52)
}

pub open spec fn is_idat(s: Seq<u8>, pos: int) -> bool {
    is_name(s, pos + 4, 0x49, 0x44, 0x41, 0x54)
}

pub open spec fn is_iend(s: Seq<u8>, pos: int) -> bool {
    is_name(s, pos + 4, 0x49, 0x45, 0x4e, 0x44)
}

/// Whether the chunk at `pos` is all there, with the right checksum.
pub open spec fn is_chunk(s: Seq<u8>, pos: int) -> bool {
    let len = be_at(s, pos);
    &&& pos + 12 + len <= s.len()
    &&& crc32_of(s.subrange(pos + 4, pos + 8 + len)) == be_at(s, pos + 8 + len)
}

pub open spec fn head_at(s: Seq<u8>, pos: int) -> Head {
    Head {
        width: be_at(s, pos + 8) as u32,
        height: be_at(s, pos + 12) as u32,
        bit_depth: s[pos + 16],
        color_type: s[pos + 17],
        interlace: s[pos + 20],
    }
}

/// Walks the chunks from `pos` on, up to the end of the run of IDAT chunks,
/// which any other chunk ends. None where a chunk is not whole, or a header has
/// not its length.
pub open spec fn walked(s: Seq<u8>, pos: int, f: Found) -> Option<Found>
    decreases s.len() - pos,
{
    if pos < 0 || pos + 12 > s.len() {
        Some(f)
    } else {
        let len = be_at(s, pos);
        if !is_chunk(s, pos) {
            None
        } else if is_idat(s, pos) {
            walked(
                s,
                pos + 12 + len,
                Found {
                    start: if f.start is None {
                        Some(pos)
                    } else {
                        f.start
                    },
                    lens: f.lens.push(len as u32),
                    ..f
                },
            )
        } else if is_iend(s, pos) || f.start is Some {
            Some(f)
        } else if is_ihdr(s, pos) {
            if len != 13 {
                None
            } else {
                walked(s, pos + 12 + len, Found { head: Some(head_at(s, pos)), ..f })
            }
        } else {
            walked(s, pos + 12 + len, f)
        }
    }
}

/// Whether the chunks from `pos` on have these lengths, each directly behind the
/// one before, all of them IDAT and whole.
pub open spec fn is_run(s: Seq<u8>, pos: int, lens: Seq<u32>) -> bool {
    forall|k: int|
        0 <= k < lens.len() ==> {
            let at = pos + #[trigger] run_upto(lens, k as nat);
            &&& is_idat(s, at)
            &&& is_chunk(s, at)
            &&& be_at(s, at) == lens[k]
        }
}

proof fn lemma_run_push(lens: Seq<u32>, x: u32, n: nat)
    requires
        n <= lens.len(),
    ensures
        run_upto(lens.push(x), n) == run_upto(lens, n),
        run_upto(lens, n) >= 0,
    decreases n,
{
    if n > 0 {
        lemma_run_push(lens, x, (n - 1) as nat);
    }
}

proof fn lemma_walked_run(s: Seq<u8>, pos: int, f: Found)
    requires
        f.start is None ==> f.lens.len() == 0,
        f.start matches Some(p) ==> 0 <= p && is_run(s, p, f.lens) && pos == p + run_upto(
            f.lens,
            f.lens.len(),
        ),
    ensures
        walked(s, pos, f) matches Some(g) ==> (g.start matches Some(p) ==> 0 <= p && is_run(
            s,
            p,
            g.lens,
        )),
    decreases s.len() - pos,
{
    if pos >= 0 && pos + 12 <= s.len() && is_chunk(s, pos) {
        let len = be_at(s, pos);
        if is_idat(s, pos) {
            let p = if f.start is None {
                pos
            } else {
                f.start->0
            };
            let lens = f.lens.push(len as u32);
            let n = f.lens.len();
            assert(0 <= len <= u32::MAX);
            lemma_run_push(f.lens, len as u32, n);
            assert(run_upto(f.lens, 0) == 0);
            assert forall|k: int| 0 <= k < lens.len() implies {
                let at = p + #[trigger] run_upto(lens, k as nat);
                &&& is_idat(s, at)
                &&& is_chunk(s, at)
                &&& be_at(s, at) == lens[k]
            } by {
                lemma_run_push(f.lens, len as u32, k as nat);
                if k < n {
                    assert(is_idat(s, p + run_upto(f.lens, k as nat)));
                    assert(lens[k] == f.lens[k]);
                }
            }
            lemma_walked_run(s, pos + 12 + len, Found { start: Some(p), lens, ..f });
        } else if !is_iend(s, pos) && f.start is None {
            if is_ihdr(s, pos) {
                lemma_walked_run(s, pos + 12 + len, Found { head: Some(head_at(s, pos)), ..f });
            } else {
                lemma_walked_run(s, pos + 12 + len, f);
            }
        }
    }
}

/// What is said of a PNG: it has pixels, and its IDAT chunks are a run.
pub proof fn lemma_info_run(s: Seq<u8>)
    ensures
        png_info(s) matches Some((p, i)) ==> {
            &&& 0 <= p
            &&& i.chunk_lens.len() > 0
            &&& i.head.width > 0
            &&& i.head.height > 0
            &&& is_run(s, p, i.chunk_lens)
        },
{
    lemma_walked_run(s, 8, Found { head: None, start: None, lens: Seq::empty() });
}

proof fn lemma_run_within(s: Seq<u8>, i: int, p: int, lens: Seq<u32>)
    requires
        0 <= i <= s.len(),
        0 <= p,
        is_run(s.skip(i), p, lens),
    ensures
        is_run(s, i + p, lens),
{
    let t = s.skip(i);
    assert forall|k: int| 0 <= k < lens.len() implies {
        let at = i + p + #[trigger] run_upto(lens, k as nat);
        &&& is_idat(s, at)
        &&& is_chunk(s, at)
        &&& be_at(s, at) == lens[k]
    } by {
        lemma_run_push(lens, 0, k as nat);
        let at = p + run_upto(lens, k as nat);
        assert(is_idat(t, at) && is_chunk(t, at) && be_at(t, at) == lens[k]);
        let len = be_at(t, at);
        assert(t.subrange(at + 4, at + 8 + len) =~= s.subrange(i + at + 4, i + at + 8 + len));
    }
}

proof fn lemma_runs_upto(s: Seq<u8>, n: nat)
    requires
        n + 2 <= s.len(),
    ensures
        forall|i: int|
            0 <= i < leads_upto(s, n).len() ==> ((#[trigger] leads_upto(s, n)[i]).1 matches Lead::Png(
                info,
            ) ==> is_run(s, leads_upto(s, n)[i].0, info.chunk_lens)),
    decreases n,
{
    if n > 0 {
        let v = leads_upto(s, (n - 1) as nat);
        lemma_runs_upto(s, (n - 1) as nat);
        if let Some(x) = lead_at(s, n - 1) {
            if let Lead::Png(info) = x.1 {
                lemma_info_run(s.skip(n - 1));
                let off = png_info(s.skip(n - 1))->Some_0.0;
                lemma_run_within(s, n - 1, off, info.chunk_lens);
            }
            lemma_place(v, x.0, v.len());
            let w = inserted(v, x);
            let k = place_of(v, x.0, v.len());
            assert forall|i: int| 0 <= i < w.len() implies ((#[trigger] w[i]).1 matches Lead::Png(
                info,
            ) ==> is_run(s, w[i].0, info.chunk_lens)) by {
                if i < k {
                    assert(w[i] == v[i]);
                } else if i > k {
                    assert(w[i] == v[i - 1]);
                }
            }
        }
    }
}

/// An image that is a candidate starts with a run of IDAT chunks.
pub proof fn lemma_leads_runs(s: Seq<u8>)
    ensures
        forall|i: int|
            0 <= i < leads(s).len() ==> ((#[trigger] leads(s)[i]).1 matches Lead::Png(info)
                ==> is_run(s, leads(s)[i].0, info.chunk_lens)),
{
    if s.len() >= 3 {
        lemma_runs_upto(s, (s.len() - 2) as nat);
    }
}

/// Where the IDAT chunks of the PNG start, and what it says; nothing where its
/// chunks are not whole or it has no pixels.
pub open spec fn png_info(s: Seq<u8>) -> Option<(int, Info)> {
    match walked(s, 8, Found { head: None, start: None, lens: Seq::empty() }) {
        Some(f) => if f.head is Some && f.start is Some && f.lens.len() > 0 && f.head->0.width != 0
            && f.head->0.height != 0 {
            Some((f.start->0, Info { head: f.head->0, chunk_lens: f.lens }))
        } else {
            None
        },
        None => None,
    }
}

pub open spec fn le16(s: Seq<u8>, i: int) -> int {
    s[i] + 256 * s[i + 1]
}

pub open spec fn is_png(s: Seq<u8>, i: int) -> bool {
    &&& i + 8 <= s.len()
    &&& is_name(s, i, 0x89, 0x50, 0x4e, 0x47)
    &&& is_name(s, i + 4, 0x0d, 0x0a, 0x1a, 0x0a)
}

/// The candidate that the bytes from `i` on lead to, and where it starts.
/// At least three bytes are there.
pub open spec fn lead_at(s: Seq<u8>, i: int) -> Option<(int, Lead)> {
    if s[i] == 0x89 {
        if is_png(s, i) {
            match png_info(s.skip(i)) {
                Some((off, info)) => Some((i + off, Lead::Png(info))),
                None => None,
            }
        } else {
            None
        }
    } else if s[i] == 0x1f {
        if s[i + 1] == 0x8b && s[i + 2] == 0x08 {
            Some((i, Lead::Gzip))
        } else {
            None
        }
    } else if s[i] == 0x50 {
        let start = i + 30 + le16(s, i + 26) + le16(s, i + 28);
        if i + 30 <= s.len() && is_name(s, i, 0x50, 0x4b, 0x03, 0x04) && le16(s, i + 8) == 8
            && start < s.len() {
            Some((start, Lead::RawDeflate))
        } else {
            None
        }
    } else if s[i] == 0x78 {
        if (0x7800 + s[i + 1]) % 31 == 0 && (s[i + 1] / 32) % 2 == 0 {
            Some((i, Lead::Zlib))
        } else {
            None
        }
    } else if s[i] == 0xff {
        if s[i + 1] == 0xd8 && s[i + 2] == 0xff {
            Some((i, Lead::Jpeg))
        } else {
            None
        }
    } else {
        None
    }
}

/// Where an item at `pos` goes among the first `k` that are in order: behind
/// those at or before it.
pub open spec fn place_of(v: Seq<(int, Lead)>, pos: int, k: nat) -> int
    decreases k,
{
    if k > 0 && v[k - 1].0 > pos {
        place_of(v, pos, (k - 1) as nat)
    } else {
        k as int
    }
}

pub open spec fn inserted(v: Seq<(int, Lead)>, x: (int, Lead)) -> Seq<(int, Lead)> {
    v.insert(place_of(v, x.0, v.len()), x)
}

/// The most candidates, less one: beyond them the data is not searched.
pub const MAX_CANDS: usize = 200_000;

/// The candidates that the first `n` bytes lead to, in order.
pub open spec fn leads_upto(s: Seq<u8>, n: nat) -> Seq<(int, Lead)>
    decreases n,
{
    if n == 0 {
        Seq::empty()
    } else {
        let v = leads_upto(s, (n - 1) as nat);
        if v.len() > MAX_CANDS {
            v
        } else {
            match lead_at(s, n - 1) {
                Some(x) => inserted(v, x),
                None => v,
            }
        }
    }
}

pub open spec fn leads(s: Seq<u8>) -> Seq<(int, Lead)> {
    if s.len() < 3 {
        Seq::empty()
    } else {
        leads_upto(s, (s.len() - 2) as nat)
    }
}

pub proof fn lemma_place(v: Seq<(int, Lead)>, pos: int, k: nat)
    requires
        k <= v.len(),
    ensures
        0 <= place_of(v, pos, k) <= k,
        forall|j: int| place_of(v, pos, k) <= j < k ==> (#[trigger] v[j]).0 > pos,
        place_of(v, pos, k) > 0 ==> v[place_of(v, pos, k) - 1].0 <= pos,
    decreases k,
{
    if k > 0 && v[k - 1].0 > pos {
        lemma_place(v, pos, (k - 1) as nat);
    }
}

pub open spec fn is_ordered(v: Seq<(int, Lead)>) -> bool {
    forall|i: int, j: int| 0 <= i <= j < v.len() ==> (#[trigger] v[i]).0 <= (#[trigger] v[j]).0
}

proof fn lemma_ordered_upto(s: Seq<u8>, n: nat)
    ensures
        is_ordered(leads_upto(s, n)),
    decreases n,
{
    if n > 0 {
        let v = leads_upto(s, (n - 1) as nat);
        lemma_ordered_upto(s, (n - 1) as nat);
        if let Some(x) = lead_at(s, n - 1) {
            let k = place_of(v, x.0, v.len());
            lemma_place(v, x.0, v.len());
            let w = inserted(v, x);
            assert forall|i: int, j: int| 0 <= i <= j < w.len() implies (#[trigger] w[i]).0 <= (
            #[trigger] w[j]).0 by {
                if i < k && j >= k {
                    assert(v[i].0 <= v[k - 1].0);
                }
            }
        }
    }
}

proof fn lemma_inside_upto(s: Seq<u8>, n: nat)
    requires
        n + 2 <= s.len(),
    ensures
        forall|i: int| 0 <= i < leads_upto(s, n).len() ==> 0 <= (#[trigger] leads_upto(s, n)[i]).0
            < s.len(),
    decreases n,
{
    if n > 0 {
        let v = leads_upto(s, (n - 1) as nat);
        lemma_inside_upto(s, (n - 1) as nat);
        lemma_info_start(s.skip(n - 1));
        if let Some(x) = lead_at(s, n - 1) {
            lemma_place(v, x.0, v.len());
            let w = inserted(v, x);
            let k = place_of(v, x.0, v.len());
            assert forall|i: int| 0 <= i < w.len() implies 0 <= (#[trigger] w[i]).0 < s.len() by {
                if i < k {
                    assert(w[i] == v[i]);
                } else if i > k {
                    assert(w[i] == v[i - 1]);
                }
            }
        }
    }
}

/// Candidates start inside the data.
pub proof fn lemma_leads_inside(s: Seq<u8>)
    ensures
        forall|i: int| 0 <= i < leads(s).len() ==> 0 <= (#[trigger] leads(s)[i]).0 < s.len(),
{
    if s.len() >= 3 {
        lemma_inside_upto(s, (s.len() - 2) as nat);
    }
}

/// Candidates come in the order of their positions.
pub proof fn lemma_leads_ordered(s: Seq<u8>)
    ensures
        is_ordered(leads(s)),
{
    if s.len() >= 3 {
        lemma_ordered_upto(s, (s.len() - 2) as nat);
    }
}

pub open spec fn cands_of(v: Seq<(usize, Cand)>) -> Seq<(int, Lead)> {
    Seq::new(v.len(), |i: int| (v[i].0 as int, v[i].1@))
}

fn read_be(s: &[u8], pos: usize) -> (r: u32)
    requires
        pos + 4 <= s@.len(),
    ensures
        r == be_at(s@, pos as int),
{
    let n: usize = s.len();
    assert(pos + 4 <= n);
    s[pos + 3] as u32 + 256 * s[pos + 2] as u32 + 0x1_0000 * s[pos + 1] as u32 + 0x100_0000
        * s[pos] as u32
}

fn named(s: &[u8], pos: usize, a: u8, b: u8, c: u8, d: u8) -> (r: bool)
    requires
        pos + 4 <= s@.len(),
    ensures
        r == is_name(s@, pos as int, a, b, c, d),
{
    let n: usize = s.len();
    assert(pos + 4 <= n);
    s[pos] == a && s[pos + 1] == b && s[pos + 2] == c && s[pos + 3] == d
}

fn read_head(s: &[u8], pos: usize) -> (h: Head)
    requires
        pos + 21 <= s@.len(),
    ensures
        h == head_at(s@, pos as int),
{
    let n: usize = s.len();
    assert(pos + 21 <= n);
    Head {
        width: read_be(s, pos + 8),
        height: read_be(s, pos + 12),
        bit_depth: s[pos + 16],
        color_type: s[pos + 17],
        interlace: s[pos + 20],
    }
}

/// The length of the chunk at `pos`, if it is whole.
fn whole_chunk(s: &[u8], pos: usize) -> (r: Option<usize>)
    requires
        pos + 12 <= s@.len(),
    ensures
        match r {
            Some(len) => is_chunk(s@, pos as int) && len == be_at(s@, pos as int),
            None => !is_chunk(s@, pos as int),
        },
{
    let n: usize = s.len();
    let len: usize = read_be(s, pos) as usize;
    if len > n - pos - 12 {
        return None;
    }
    let crc: u32 = read_be(s, pos + 8 + len);
    if crc32(vstd::slice::slice_subrange(s, pos + 4, pos + 8 + len)) != crc {
        return None;
    }
    Some(len)
}

spec fn start_of(start: Option<usize>) -> Option<int> {
    match start {
        Some(p) => Some(p as int),
        None => None,
    }
}

/// Walks the chunks of a PNG: where its IDAT chunks start, and what it says.
/// Chunks have to have the right checksums, which are not kept.
pub fn parse_png(png: &[u8]) -> (r: Option<(usize, PngInfo)>)
    ensures
        match png_info(png@) {
            Some((p, i)) => r matches Some((q, info)) && q == p && info@ == i,
            None => r is None,
        },
        r matches Some((q, info)) ==> {
            &&& info.chunk_lens@.len() > 0
            &&& info.width > 0
            &&& info.height > 0
            &&& is_run(png@, q as int, info.chunk_lens@)
        },
{
    proof {
        lemma_info_run(png@);
    }
    let n: usize = png.len();
    let mut pos: usize = 8;
    let mut head: Option<Head> = None;
    let mut start: Option<usize> = None;
    let mut lens: Vec<u32> = Vec::new();
    let mut done: bool = false;
    let ghost goal = walked(png@, 8, Found { head: None, start: None, lens: Seq::empty() });
    assert(lens@ =~= Seq::<u32>::empty());
    while !done && pos <= n && n - pos >= 12
        invariant
            n == png@.len(),
            8 <= pos,
            pos <= n || n < 8,
            goal == walked(png@, 8, Found { head: None, start: None, lens: Seq::empty() }),
            !done ==> goal == walked(
                png@,
                pos as int,
                Found { head, start: start_of(start), lens: lens@ },
            ),
            done ==> goal == Some(Found { head, start: start_of(start), lens: lens@ }),
        decreases
                (if done {
                    0
                } else {
                    n - pos + 1
                }),
    {
        let len: usize = match whole_chunk(png, pos) {
            Some(len) => len,
            None => return None,
        };
        if named(png, pos + 4, 0x49, 0x44, 0x41, 0x54) {
            if start.is_none() {
                start = Some(pos);
            }
            lens.push(len as u32);
            pos = pos + 12 + len;
        } else if named(png, pos + 4, 0x49, 0x45, 0x4e, 0x44) || start.is_some() {
            done = true;
        } else if named(png, pos + 4, 0x49, 0x48, 0x44, 0x52) {
            if len != 13 {
                return None;
            }
            head = Some(read_head(png, pos));
            pos = pos + 12 + len;
        } else {
            pos = pos + 12 + len;
        }
    }
    let ghost f = Found { head, start: start_of(start), lens: lens@ };
    assert(goal == Some(f));
    match (head, start) {
        (Some(h), Some(p)) => {
            if lens.len() == 0 || h.width == 0 || h.height == 0 {
                return None;
            }
            Some(
                (
                    p,
                    PngInfo {
                        width: h.width,
                        height: h.height,
                        bit_depth: h.bit_depth,
                        color_type: h.color_type,
                        interlace: h.interlace,
                        chunk_lens: lens,
                    },
                ),
            )
        },
        _ => None,
    }
}

fn read_le16(s: &[u8], i: usize) -> (r: usize)
    requires
        i + 2 <= s@.len(),
    ensures
        r == le16(s@, i as int),
        r < 65536,
{
    let n: usize = s.len();
    assert(i + 2 <= n);
    s[i] as usize + 256 * s[i + 1] as usize
}

/// The body of the zip entry whose header starts at `i`, if it is deflated.
fn zip_body(data: &[u8], i: usize) -> (r: Option<usize>)
    requires
        i < data@.len(),
        data@[i as int] == 0x50,
    ensures
        match lead_at(data@, i as int) {
            Some((p, m)) => r == Some(p as usize) && p < data@.len() && m is RawDeflate && p >= 0,
            None => r is None,
        },
{
    let n: usize = data.len();
    if n - i < 30 {
        return None;
    }
    if !named(data, i, 0x50, 0x4b, 0x03, 0x04) {
        return None;
    }
    if read_le16(data, i + 8) != 8 {
        return None;
    }
    let skip: usize = read_le16(data, i + 26) + read_le16(data, i + 28);
    if skip >= n - i - 30 {
        return None;
    }
    Some(i + 30 + skip)
}

fn find_at(data: &[u8], i: usize) -> (r: Option<(usize, Cand)>)
    requires
        i + 2 < data@.len(),
    ensures
        match lead_at(data@, i as int) {
            Some((p, m)) => r matches Some((q, c)) && q == p && c@ == m,
            None => r is None,
        },
{
    let n: usize = data.len();
    assert(i + 2 < n);
    match data[i] {
        0x89 => {
            if n - i < 8 || !named(data, i, 0x89, 0x50, 0x4e, 0x47) || !named(
                data,
                i + 4,
                0x0d,
                0x0a,
                0x1a,
                0x0a,
            ) {
                return None;
            }
            let png: &[u8] = vstd::slice::slice_subrange(data, i, n);
            assert(png@ =~= data@.skip(i as int));
            proof {
                lemma_info_start(png@);
            }
            match parse_png(png) {
                Some((off, info)) => Some((i + off, Cand::Png(info))),
                None => None,
            }
        },
        0x1f => if data[i + 1] == 0x8b && data[i + 2] == 0x08 {
            Some((i, Cand::Gzip))
        } else {
            None
        },
        0x50 => match zip_body(data, i) {
            Some(p) => Some((p, Cand::RawDeflate)),
            None => None,
        },
        0x78 => if (0x7800 + data[i + 1] as u32) % 31 == 0 && (data[i + 1] / 32) % 2 == 0 {
            Some((i, Cand::Zlib))
        } else {
            None
        },
        0xff => if data[i + 1] == 0xd8 && data[i + 2] == 0xff {
            Some((i, Cand::Jpeg))
        } else {
            None
        },
        _ => None,
    }
}

/// The IDAT chunks of a PNG start inside it.
pub proof fn lemma_info_start(s: Seq<u8>)
    ensures
        png_info(s) matches Some((p, i)) ==> 0 <= p < s.len(),
{
    lemma_walked_start(s, 8, Found { head: None, start: None, lens: Seq::empty() });
}

proof fn lemma_walked_start(s: Seq<u8>, pos: int, f: Found)
    requires
        f.start matches Some(p) ==> 0 <= p < s.len(),
    ensures
        walked(s, pos, f) matches Some(g) ==> (g.start matches Some(p) ==> 0 <= p < s.len()),
    decreases s.len() - pos,
{
    if pos >= 0 && pos + 12 <= s.len() {
        let len = be_at(s, pos);
        if is_chunk(s, pos) {
            if is_idat(s, pos) {
                lemma_walked_start(
                    s,
                    pos + 12 + len,
                    Found {
                        start: if f.start is None {
                            Some(pos)
                        } else {
                            f.start
                        },
                        lens: f.lens.push(len as u32),
                        ..f
                    },
                );
            } else if is_ihdr(s, pos) {
                lemma_walked_start(s, pos + 12 + len, Found { head: Some(head_at(s, pos)), ..f });
            } else {
                lemma_walked_start(s, pos + 12 + len, f);
            }
        }
    }
}

/// Puts a candidate in its place among those that are in order.
fn insert_cand(out: &mut Vec<(usize, Cand)>, pos: usize, cand: Cand)
    ensures
        cands_of(final(out)@) == inserted(cands_of(old(out)@), (pos as int, cand@)),
{
    let ghost v = cands_of(out@);
    let ghost m = cand@;
    let mut k: usize = out.len();
    while k > 0 && out[k - 1].0 > pos
        invariant
            k <= out@.len(),
            v == cands_of(out@),
            place_of(v, pos as int, v.len()) == place_of(v, pos as int, k as nat),
        decreases k,
    {
        assert(v[k - 1].0 == out@[k - 1].0);
        k -= 1;
    }
    proof {
        if k > 0 {
            assert(v[k - 1].0 == out@[k - 1].0);
        }
        assert(place_of(v, pos as int, v.len()) == k);
    }
    out.insert(k, (pos, cand));
    assert(cands_of(out@) =~= inserted(v, (pos as int, m)));
}

/// The candidates of the data, in order.
pub fn collect_candidates(data: &[u8]) -> (out: Vec<(usize, Cand)>)
    ensures
        cands_of(out@) == leads(data@),
{
    let mut out: Vec<(usize, Cand)> = Vec::new();
    let n: usize = data.len();
    assert(cands_of(out@) =~= Seq::<(int, Lead)>::empty());
    if n < 3 {
        return out;
    }
    let mut i: usize = 0;
    while i < n - 2
        invariant
            n == data@.len(),
            3 <= n,
            i <= n - 2,
            cands_of(out@) == leads_upto(data@, i as nat),
        decreases n - i,
    {
        if out.len() > MAX_CANDS {
            proof {
                lemma_leads_stop(data@, i as nat, (n - 2) as nat);
            }
            return out;
        }
        match find_at(data, i) {
            Some((pos, cand)) => insert_cand(&mut out, pos, cand),
            None => {},
        }
        i += 1;
    }
    out
}

proof fn lemma_leads_stop(s: Seq<u8>, k: nat, n: nat)
    requires
        k <= n,
        leads_upto(s, k).len() > MAX_CANDS,
    ensures
        leads_upto(s, n) == leads_upto(s, k),
    decreases n,
{
    if k < n {
        lemma_leads_stop(s, k, (n - 1) as nat);
    }
}

} // verus!
