//! The channels that hold the payload of segments. Each is compressed on its
//! own, so that like goes with like.

use crate::error::Error;
use vstd::prelude::*;

verus! {

/// The pixels of an image, with the length of its rows and of its pixels.
#[derive(Debug, Clone)]
pub struct PixelBlob {
    pub data: Vec<u8>,
    pub stride: u32,
    pub bpp: u32,
}

pub struct Blob {
    pub data: Seq<u8>,
    pub stride: u32,
    pub bpp: u32,
}

impl View for PixelBlob {
    type V = Blob;

    open spec fn view(&self) -> Blob {
        Blob { data: self.data@, stride: self.stride, bpp: self.bpp }
    }
}

pub const PIXEL_IDENTITY: u8 = 0;

/// Red and blue less green, which decorrelates them.
pub const PIXEL_SUB_GREEN: u8 = 1;

/// `x` less `g`, or with `g` added back, around the byte's range.
pub open spec fn shifted(x: u8, g: u8, forward: bool) -> u8 {
    if forward {
        ((x - g) % 256) as u8
    } else {
        ((x + g) % 256) as u8
    }
}

/// One pixel from `i` on: its first and third byte shifted by its second.
pub open spec fn pixel_shifted(s: Seq<u8>, i: int, forward: bool) -> Seq<u8> {
    s.update(i, shifted(s[i], s[i + 1], forward)).update(
        i + 2,
        shifted(s[i + 2], s[i + 1], forward),
    )
}

/// How many bytes are left from `i` on.
pub open spec fn left(s: Seq<u8>, i: int) -> int {
    if i < s.len() {
        s.len() - i
    } else {
        0
    }
}

/// The pixels from `i` on.
pub open spec fn green_from(s: Seq<u8>, bpp: int, i: int, forward: bool) -> Seq<u8>
    decreases left(s, i),
{
    if bpp < 3 || i < 0 || i + 2 >= s.len() {
        s
    } else {
        green_from(pixel_shifted(s, i, forward), bpp, i + bpp, forward)
    }
}

pub open spec fn green(s: Seq<u8>, bpp: int, forward: bool) -> Seq<u8> {
    green_from(s, bpp, 0, forward)
}

pub proof fn lemma_green_keeps(s: Seq<u8>, bpp: int, i: int, forward: bool)
    requires
        0 <= i,
    ensures
        green_from(s, bpp, i, forward).len() == s.len(),
        forall|k: int|
            0 <= k < i && k < s.len() ==> #[trigger] green_from(s, bpp, i, forward)[k] == s[k],
    decreases left(s, i),
{
    if bpp >= 3 && i + 2 < s.len() {
        lemma_green_keeps(pixel_shifted(s, i, forward), bpp, i + bpp, forward);
    }
}

proof fn lemma_green_update(s: Seq<u8>, bpp: int, i: int, forward: bool, k: int, b: u8)
    requires
        0 <= k < i,
        k < s.len(),
    ensures
        green_from(s.update(k, b), bpp, i, forward) == green_from(s, bpp, i, forward).update(k, b),
    decreases left(s, i),
{
    if bpp >= 3 && i + 2 < s.len() {
        let t = s.update(k, b);
        assert(pixel_shifted(t, i, forward) =~= pixel_shifted(s, i, forward).update(k, b));
        lemma_green_update(pixel_shifted(s, i, forward), bpp, i + bpp, forward, k, b);
    }
}

proof fn lemma_shifted_back(x: u8, g: u8, forward: bool)
    ensures
        shifted(shifted(x, g, forward), g, !forward) == x,
{
}

/// A pixel that is shifted back is as it was, whatever stands elsewhere.
proof fn lemma_pixel_back(g: Seq<u8>, i: int, a: u8, c: u8, forward: bool)
    requires
        0 <= i,
        i + 2 < g.len(),
        a == shifted(g[i], g[i + 1], forward),
        c == shifted(g[i + 2], g[i + 1], forward),
    ensures
        pixel_shifted(g.update(i, a).update(i + 2, c), i, !forward) == g,
{
    lemma_shifted_back(g[i], g[i + 1], forward);
    lemma_shifted_back(g[i + 2], g[i + 1], forward);
    assert(pixel_shifted(g.update(i, a).update(i + 2, c), i, !forward) =~= g);
}

proof fn lemma_green_back(s: Seq<u8>, bpp: int, i: int, forward: bool)
    requires
        0 <= i,
    ensures
        green_from(green_from(s, bpp, i, forward), bpp, i, !forward) == s,
    decreases left(s, i),
{
    if bpp >= 3 && i + 2 < s.len() {
        let a = shifted(s[i], s[i + 1], forward);
        let c = shifted(s[i + 2], s[i + 1], forward);
        let t = pixel_shifted(s, i, forward);
        let f = green_from(t, bpp, i + bpp, forward);
        let g = green_from(s, bpp, i + bpp, forward);
        lemma_green_update(s, bpp, i + bpp, forward, i, a);
        lemma_green_update(s.update(i, a), bpp, i + bpp, forward, i + 2, c);
        lemma_green_keeps(s, bpp, i + bpp, forward);
        assert(f == g.update(i, a).update(i + 2, c));
        lemma_pixel_back(g, i, a, c, forward);
        lemma_green_back(s, bpp, i + bpp, forward);
    }
}

/// Decorrelating and its reverse undo each other, whatever the pixel's length,
/// and keep the length.
pub proof fn lemma_green_inverse(s: Seq<u8>, bpp: int)
    ensures
        green(green(s, bpp, true), bpp, false) == s,
        green(green(s, bpp, false), bpp, true) == s,
        green(s, bpp, true).len() == s.len(),
        green(s, bpp, false).len() == s.len(),
{
    lemma_green_keeps(s, bpp, 0, true);
    lemma_green_keeps(s, bpp, 0, false);
    lemma_green_back(s, bpp, 0, true);
    lemma_green_back(s, bpp, 0, false);
}

fn shift_pixel(out: &mut Vec<u8>, i: usize, forward: bool)
    requires
        i + 2 < old(out)@.len(),
    ensures
        final(out)@ == pixel_shifted(old(out)@, i as int, forward),
{
    let ghost s = out@;
    let n: usize = out.len();
    assert(i + 2 < n);
    let g: u8 = out[i + 1];
    let r: u8 = out[i];
    let b: u8 = out[i + 2];
    let (r2, b2): (u8, u8) = if forward {
        (r.wrapping_sub(g), b.wrapping_sub(g))
    } else {
        (r.wrapping_add(g), b.wrapping_add(g))
    };
    assert(r2 == shifted(r, g, forward) && b2 == shifted(b, g, forward));
    out[i] = r2;
    out[i + 2] = b2;
    assert(out@ =~= pixel_shifted(s, i as int, forward));
}

/// Takes green from red and blue, or adds it back. Pixels of fewer than three
/// bytes stay.
pub fn sub_green(data: &[u8], bpp: usize, forward: bool) -> (out: Vec<u8>)
    ensures
        out@ == green(data@, bpp as int, forward),
{
    let mut out: Vec<u8> = vstd::slice::slice_to_vec(data);
    if bpp < 3 {
        return out;
    }
    let n: usize = out.len();
    let mut i: usize = 0;
    while i < n && n - i > 2
        invariant
            3 <= bpp,
            n == out@.len(),
            green_from(out@, bpp as int, i as int, forward) == green(data@, bpp as int, forward),
        decreases n - i,
    {
        shift_pixel(&mut out, i, forward);
        if bpp > n - i {
            assert(green_from(out@, bpp as int, i + bpp, forward) == out@);
            assert(green_from(out@, bpp as int, n as int, forward) == out@);
            i = n;
        } else {
            i += bpp;
        }
    }
    out
}

#[derive(Debug)]
pub struct Channels {
    pub plain: Vec<u8>,
    pub corrections: Vec<u8>,
    pub filters: Vec<u8>,
    pub lepton: Vec<u8>,
    pub pixel_blobs: Vec<PixelBlob>,
}

/// What channels hold.
#[verifier::ext_equal]
pub struct Payload {
    pub plain: Seq<u8>,
    pub corrections: Seq<u8>,
    pub filters: Seq<u8>,
    pub lepton: Seq<u8>,
    pub blobs: Seq<Blob>,
}

pub open spec fn blobs_of(v: Seq<PixelBlob>) -> Seq<Blob> {
    Seq::new(v.len(), |i: int| v[i]@)
}

impl View for Channels {
    type V = Payload;

    open spec fn view(&self) -> Payload {
        Payload {
            plain: self.plain@,
            corrections: self.corrections@,
            filters: self.filters@,
            lepton: self.lepton@,
            blobs: blobs_of(self.pixel_blobs@),
        }
    }
}

impl Payload {
    pub open spec fn empty() -> Payload {
        Payload {
            plain: Seq::empty(),
            corrections: Seq::empty(),
            filters: Seq::empty(),
            lepton: Seq::empty(),
            blobs: Seq::empty(),
        }
    }

    /// The channels cut back to what a mark recorded.
    pub open spec fn cut(self, m: Mark) -> Payload {
        Payload {
            plain: cut_to(self.plain, m.plain as int),
            corrections: cut_to(self.corrections, m.corrections as int),
            filters: cut_to(self.filters, m.filters as int),
            lepton: cut_to(self.lepton, m.lepton as int),
            blobs: cut_to(self.blobs, m.pixel_blobs as int),
        }
    }

    pub open spec fn plus_plain(self, s: Seq<u8>) -> Payload {
        Payload { plain: self.plain + s, ..self }
    }

    pub open spec fn plus_corrections(self, s: Seq<u8>) -> Payload {
        Payload { corrections: self.corrections + s, ..self }
    }

    pub open spec fn plus_filters(self, s: Seq<u8>) -> Payload {
        Payload { filters: self.filters + s, ..self }
    }

    pub open spec fn plus_lepton(self, s: Seq<u8>) -> Payload {
        Payload { lepton: self.lepton + s, ..self }
    }

    pub open spec fn plus_blob(self, b: Blob) -> Payload {
        Payload { blobs: self.blobs.push(b), ..self }
    }

    /// Whether `d` is these channels with more behind them.
    pub open spec fn grows_to(self, d: Payload) -> bool {
        &&& self.plain.is_prefix_of(d.plain)
        &&& self.corrections.is_prefix_of(d.corrections)
        &&& self.filters.is_prefix_of(d.filters)
        &&& self.lepton.is_prefix_of(d.lepton)
        &&& self.blobs.is_prefix_of(d.blobs)
    }

    /// The places behind all that the channels hold.
    pub open spec fn ends(self) -> Places {
        Places {
            plain: self.plain.len() as int,
            corrections: self.corrections.len() as int,
            filters: self.filters.len() as int,
            lepton: self.lepton.len() as int,
        }
    }

    /// All the channels with those of `d` behind them.
    pub open spec fn joined(self, d: Payload) -> Payload {
        Payload {
            plain: self.plain + d.plain,
            corrections: self.corrections + d.corrections,
            filters: self.filters + d.filters,
            lepton: self.lepton + d.lepton,
            blobs: self.blobs + d.blobs,
        }
    }
}

/// The first `n` items, or all where there are fewer.
pub open spec fn cut_to<A>(s: Seq<A>, n: int) -> Seq<A> {
    if n < s.len() {
        s.take(n)
    } else {
        s
    }
}

impl Default for Channels {
    fn default() -> (c: Self)
        ensures
            c@ == Payload::empty(),
    {
        let c = Channels {
            plain: Vec::new(),
            corrections: Vec::new(),
            filters: Vec::new(),
            lepton: Vec::new(),
            pixel_blobs: Vec::new(),
        };
        assert(c@ =~= Payload::empty());
        c
    }
}

/// The lengths of the channels, and how many segments there were, at the start
/// of an attempt.
#[derive(Debug, Clone, Copy)]
pub struct Mark {
    pub plain: usize,
    pub corrections: usize,
    pub filters: usize,
    pub lepton: usize,
    pub pixel_blobs: usize,
    pub segs: usize,
}

impl Channels {
    pub fn mark(&self, segs: usize) -> (m: Mark)
        ensures
            m.plain == self@.plain.len(),
            m.corrections == self@.corrections.len(),
            m.filters == self@.filters.len(),
            m.lepton == self@.lepton.len(),
            m.pixel_blobs == self@.blobs.len(),
            m.segs == segs,
    {
        Mark {
            plain: self.plain.len(),
            corrections: self.corrections.len(),
            filters: self.filters.len(),
            lepton: self.lepton.len(),
            pixel_blobs: self.pixel_blobs.len(),
            segs,
        }
    }

    /// Takes back what was added since the mark.
    pub fn rollback(&mut self, m: Mark)
        ensures
            final(self)@ == old(self)@.cut(m),
    {
        let ghost c0 = self@;
        self.plain.truncate(m.plain);
        self.corrections.truncate(m.corrections);
        self.filters.truncate(m.filters);
        self.lepton.truncate(m.lepton);
        self.pixel_blobs.truncate(m.pixel_blobs);
        assert(self@.blobs =~= c0.cut(m).blobs);
        assert(self@ =~= c0.cut(m));
    }
}

/// Rolling back to a mark undoes what was added after it.
pub proof fn lemma_rollback(before: Payload, after: Payload, m: Mark)
    requires
        m.plain == before.plain.len(),
        m.corrections == before.corrections.len(),
        m.filters == before.filters.len(),
        m.lepton == before.lepton.len(),
        m.pixel_blobs == before.blobs.len(),
        before.grows_to(after),
    ensures
        after.cut(m) == before,
{
    assert(after.cut(m) =~= before);
}

/// Where each channel is read from next.
pub struct Cursors<'a> {
    pub ch: &'a Channels,
    pub plain: usize,
    pub corrections: usize,
    pub filters: usize,
    pub lepton: usize,
}

pub struct Places {
    pub plain: int,
    pub corrections: int,
    pub filters: int,
    pub lepton: int,
}

impl Places {
    pub open spec fn start() -> Places {
        Places { plain: 0, corrections: 0, filters: 0, lepton: 0 }
    }
}

impl<'a> View for Cursors<'a> {
    type V = Places;

    open spec fn view(&self) -> Places {
        Places {
            plain: self.plain as int,
            corrections: self.corrections as int,
            filters: self.filters as int,
            lepton: self.lepton as int,
        }
    }
}

/// Whether `n` bytes are left from `pos` on.
pub open spec fn in_reach(s: Seq<u8>, pos: int, n: int) -> bool {
    pos + n <= s.len()
}

/// The next `n` bytes of a channel, which is read at `pos`; the error where it
/// has not that many left.
pub fn take<'a>(data: &'a [u8], pos: &mut usize, n: u64, short: Error) -> (r: Result<
    &'a [u8],
    Error,
>)
    ensures
        in_reach(data@, *old(pos) as int, n as int) ==> {
            &&& r matches Ok(s)
            &&& s@ == data@.subrange(*old(pos) as int, *old(pos) + n)
            &&& *final(pos) == *old(pos) + n
        },
        !in_reach(data@, *old(pos) as int, n as int) ==> r == Err::<&'a [u8], Error>(short)
            && *final(pos) == *old(pos),
{
    let len: usize = data.len();
    if *pos > len || n > (len - *pos) as u64 {
        return Err(short);
    }
    let end: usize = *pos + n as usize;
    let s: &'a [u8] = vstd::slice::slice_subrange(data, *pos, end);
    *pos = end;
    Ok(s)
}

impl<'a> Cursors<'a> {
    pub fn new(ch: &'a Channels) -> (c: Self)
        ensures
            c@ == Places::start(),
            *c.ch == *ch,
    {
        Cursors { ch, plain: 0, corrections: 0, filters: 0, lepton: 0 }
    }

    pub fn take_plain(&mut self, n: usize) -> (r: Result<&'a [u8], Error>)
        ensures
            *final(self).ch == *old(self).ch,
            in_reach(old(self).ch@.plain, old(self).plain as int, n as int) ==> {
                &&& r matches Ok(s)
                &&& s@ == old(self).ch@.plain.subrange(old(self).plain as int, old(self).plain + n)
                &&& final(self)@ == (Places { plain: old(self).plain + n, ..old(self)@ })
            },
            !in_reach(old(self).ch@.plain, old(self).plain as int, n as int) ==> r == Err::<
                &'a [u8],
                Error,
            >(Error::PlainUnderrun) && final(self)@ == old(self)@,
    {
        let ch: &'a Channels = self.ch;
        take(ch.plain.as_slice(), &mut self.plain, n as u64, Error::PlainUnderrun)
    }

    pub fn take_corrections(&mut self, n: usize) -> (r: Result<&'a [u8], Error>)
        ensures
            *final(self).ch == *old(self).ch,
            in_reach(old(self).ch@.corrections, old(self).corrections as int, n as int) ==> {
                &&& r matches Ok(s)
                &&& s@ == old(self).ch@.corrections.subrange(old(self).corrections as int, old(self).corrections + n)
                &&& final(self)@ == (Places { corrections: old(self).corrections + n, ..old(self)@ })
            },
            !in_reach(old(self).ch@.corrections, old(self).corrections as int, n as int) ==> r == Err::<
                &'a [u8],
                Error,
            >(Error::CorrectionsUnderrun) && final(self)@ == old(self)@,
    {
        let ch: &'a Channels = self.ch;
        take(ch.corrections.as_slice(), &mut self.corrections, n as u64, Error::CorrectionsUnderrun)
    }

    pub fn take_filters(&mut self, n: usize) -> (r: Result<&'a [u8], Error>)
        ensures
            *final(self).ch == *old(self).ch,
            in_reach(old(self).ch@.filters, old(self).filters as int, n as int) ==> {
                &&& r matches Ok(s)
                &&& s@ == old(self).ch@.filters.subrange(old(self).filters as int, old(self).filters + n)
                &&& final(self)@ == (Places { filters: old(self).filters + n, ..old(self)@ })
            },
            !in_reach(old(self).ch@.filters, old(self).filters as int, n as int) ==> r == Err::<
                &'a [u8],
                Error,
            >(Error::FiltersUnderrun) && final(self)@ == old(self)@,
    {
        let ch: &'a Channels = self.ch;
        take(ch.filters.as_slice(), &mut self.filters, n as u64, Error::FiltersUnderrun)
    }

    pub fn take_lepton(&mut self, n: usize) -> (r: Result<&'a [u8], Error>)
        ensures
            *final(self).ch == *old(self).ch,
            in_reach(old(self).ch@.lepton, old(self).lepton as int, n as int) ==> {
                &&& r matches Ok(s)
                &&& s@ == old(self).ch@.lepton.subrange(old(self).lepton as int, old(self).lepton + n)
                &&& final(self)@ == (Places { lepton: old(self).lepton + n, ..old(self)@ })
            },
            !in_reach(old(self).ch@.lepton, old(self).lepton as int, n as int) ==> r == Err::<
                &'a [u8],
                Error,
            >(Error::LeptonUnderrun) && final(self)@ == old(self)@,
    {
        let ch: &'a Channels = self.ch;
        take(ch.lepton.as_slice(), &mut self.lepton, n as u64, Error::LeptonUnderrun)
    }
}

} // verus!
