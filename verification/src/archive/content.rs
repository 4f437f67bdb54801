//! What the entries of an archive hold.

use crate::archive::stage::{committed, is_stage, moved_item, Staged};
use crate::archive::toc::{Entry, Item};
use crate::channels::{Cursors, Payload, Places};
use crate::error::{out_of_memory, Error};
use crate::outside::xxh3_of;
use crate::plan::remap::moved_list;
use crate::rebuild::render::{asks_codec, rendered};
use crate::rebuild::render_segs;
use crate::rebuild::shift::{embedded, lemma_grown, lemma_shift};
use crate::util::xxh3;
use vstd::prelude::*;

verus! {

/// What was rendered, if it has the length and the hash of the entry.
pub open spec fn checked_content(s: Seq<u8>, size: u64, hash: u64) -> Result<Seq<u8>, Error> {
    if s.len() != size || xxh3_of(s) != hash {
        Err(Error::ContentMismatch)
    } else {
        Ok(s)
    }
}

/// What an entry holds, with the channels read from `c` on.
pub open spec fn item_content(e: Item, ch: Payload, c: Places) -> Result<(Seq<u8>, Places), Error> {
    if e.is_dir {
        Ok((Seq::empty(), c))
    } else {
        match rendered(e.segs, ch, c) {
            Err(x) => Err(x),
            Ok((s, c1)) => match checked_content(s, e.size, e.hash) {
                Err(x) => Err(x),
                Ok(t) => Ok((t, c1)),
            },
        }
    }
}

/// What the first `n` entries hold.
pub open spec fn contents(v: Seq<Item>, n: nat, ch: Payload, c: Places) -> Result<
    (Seq<Seq<u8>>, Places),
    Error,
>
    decreases n,
{
    if n == 0 {
        Ok((Seq::empty(), c))
    } else {
        match contents(v, (n - 1) as nat, ch, c) {
            Err(x) => Err(x),
            Ok((all, c1)) => match item_content(v[n - 1], ch, c1) {
                Err(x) => Err(x),
                Ok((s, c2)) => Ok((all.push(s), c2)),
            },
        }
    }
}

/// Holds what was rendered against the length and the hash of the entry.
pub fn check_content(out: Vec<u8>, size: u64, hash: u64) -> (r: Result<Vec<u8>, Error>)
    ensures
        match checked_content(out@, size, hash) {
            Ok(s) => r matches Ok(v) && v@ == s,
            Err(e) => r matches Err(x) && x == e,
        },
{
    if out.len() as u64 != size || xxh3(out.as_slice()) != hash {
        return Err(Error::ContentMismatch);
    }
    Ok(out)
}

/// Whether a codec has to be asked for what an entry holds.
pub open spec fn item_asks(e: Item) -> bool {
    !e.is_dir && asks_codec(e.segs)
}

/// Whether one has to be asked for any of the entries.
pub open spec fn items_ask(v: Seq<Item>) -> bool {
    exists|i: int| 0 <= i < v.len() && item_asks(#[trigger] v[i])
}

/// Renders an entry and checks it. A directory holds nothing.
pub fn entry_content(e: &Entry, cur: &mut Cursors) -> (r: Result<Vec<u8>, Error>)
    ensures
        *final(cur).ch == *old(cur).ch,
        match r {
            Ok(v) => item_content(e@, old(cur).ch@, old(cur)@) == Ok::<(Seq<u8>, Places), Error>(
                (v@, final(cur)@),
            ),
            Err(x) => item_asks(e@) && out_of_memory(x) || item_content(e@, old(cur).ch@, old(cur)@) == Err::<
                (Seq<u8>, Places),
                Error,
            >(x),
        },
{
    let mut out: Vec<u8> = Vec::new();
    if e.is_dir {
        assert(out@ =~= Seq::<u8>::empty());
        return Ok(out);
    }
    match render_segs(e.segs.as_slice(), cur, &mut out) {
        Ok(()) => {},
        Err(x) => return Err(x),
    }
    assert(out@ =~= rendered(e@.segs, old(cur).ch@, old(cur)@)->Ok_0.0);
    check_content(out, e.size, e.hash)
}

/// A file or directory as it goes into an archive.
pub struct Origin {
    pub path: Seq<char>,
    pub is_dir: bool,
    pub data: Seq<u8>,
}

/// What an entry made of it holds.
pub open spec fn origin_content(o: Origin) -> Seq<u8> {
    if o.is_dir {
        Seq::empty()
    } else {
        o.data
    }
}

pub open spec fn origin_contents(v: Seq<Origin>) -> Seq<Seq<u8>> {
    Seq::new(v.len(), |i: int| origin_content(v[i]))
}

/// Whether each of `v` is a plan for one of `src`.
pub open spec fn are_stages(src: Seq<Origin>, v: Seq<Staged>) -> bool {
    &&& v.len() == src.len()
    &&& forall|i: int|
        0 <= i < v.len() ==> is_stage(src[i].path, src[i].is_dir, src[i].data, #[trigger] v[i])
}

pub proof fn lemma_committed_items(v: Seq<Staged>, n: nat)
    ensures
        committed(v, n).items.len() == n,
        forall|i: int|
            0 <= i < n ==> #[trigger] committed(v, n).items[i] == moved_item(
                v[i].item,
                committed(v, i as nat).ch.blobs.len() as int,
            ),
    decreases n,
{
    if n > 0 {
        lemma_committed_items(v, (n - 1) as nat);
    }
}

proof fn lemma_grows_chain(a: Payload, b: Payload, c: Payload)
    requires
        a.grows_to(b),
        b.grows_to(c),
    ensures
        a.grows_to(c),
{
    assert(a.plain =~= c.plain.take(a.plain.len() as int));
    assert(a.corrections =~= c.corrections.take(a.corrections.len() as int));
    assert(a.filters =~= c.filters.take(a.filters.len() as int));
    assert(a.lepton =~= c.lepton.take(a.lepton.len() as int));
    assert(a.blobs =~= c.blobs.take(a.blobs.len() as int));
}

proof fn lemma_join_grows(a: Payload, d: Payload)
    ensures
        a.grows_to(a.joined(d)),
{
    let g = a.joined(d);
    assert(g.plain.take(a.plain.len() as int) =~= a.plain);
    assert(g.corrections.take(a.corrections.len() as int) =~= a.corrections);
    assert(g.filters.take(a.filters.len() as int) =~= a.filters);
    assert(g.lepton.take(a.lepton.len() as int) =~= a.lepton);
    assert(g.blobs.take(a.blobs.len() as int) =~= a.blobs);
}

/// A file renders from where its payload was joined to that of others.
proof fn lemma_joined_content(p: Staged, o: Origin, a: Payload, g: Payload)
    requires
        is_stage(o.path, o.is_dir, o.data, p),
        o.data.len() <= u64::MAX,
        a.joined(p.ch).blobs.len() <= 0x1_0000_0000,
        a.joined(p.ch).grows_to(g),
    ensures
        item_content(moved_item(p.item, a.blobs.len() as int), g, a.ends()) == Ok::<
            (Seq<u8>, Places),
            Error,
        >((origin_content(o), a.joined(p.ch).ends())),
{
    let d = p.ch;
    let j = a.joined(d);
    let off = a.blobs.len() as int;
    if o.is_dir {
        assert(j.ends() == a.ends());
    } else {
        assert(embedded(d, j, a.ends(), off));
        lemma_shift(p.item.segs, d, j, a.ends(), off, Places::start());
        assert(Places::start().from(a.ends()) == a.ends());
        assert(d.ends().from(a.ends()) == j.ends());
        lemma_grown(moved_list(p.item.segs, off), j, g, a.ends());
    }
}

proof fn lemma_contents_upto(src: Seq<Origin>, v: Seq<Staged>, n: nat, g: Payload)
    requires
        are_stages(src, v),
        forall|i: int| 0 <= i < src.len() ==> (#[trigger] src[i]).data.len() <= u64::MAX,
        n <= v.len(),
        committed(v, n).ch.blobs.len() <= 0x1_0000_0000,
        committed(v, n).ch.grows_to(g),
    ensures
        contents(committed(v, v.len()).items, n, g, Places::start()) == Ok::<
            (Seq<Seq<u8>>, Places),
            Error,
        >((origin_contents(src).take(n as int), committed(v, n).ch.ends())),
    decreases n,
{
    let items = committed(v, v.len()).items;
    lemma_committed_items(v, v.len());
    let want = origin_contents(src);
    if n == 0 {
        assert(want.take(0) =~= Seq::<Seq<u8>>::empty());
        assert(committed(v, 0).ch.ends() == Places::start());
    } else {
        let a = committed(v, (n - 1) as nat).ch;
        let j = committed(v, n).ch;
        assert(j == a.joined(v[n - 1].ch));
        lemma_join_grows(a, v[n - 1].ch);
        lemma_grows_chain(a, j, g);
        lemma_contents_upto(src, v, (n - 1) as nat, g);
        lemma_joined_content(v[n - 1], src[n - 1], a, g);
        assert(items[n - 1] == moved_item(v[n - 1].item, a.blobs.len() as int));
        assert(want.take(n - 1).push(want[n - 1]) =~= want.take(n as int));
    }
}

/// The entries of files that were laid together hold what the files held.
pub proof fn lemma_committed_contents(src: Seq<Origin>, v: Seq<Staged>)
    requires
        are_stages(src, v),
        forall|i: int| 0 <= i < src.len() ==> (#[trigger] src[i]).data.len() <= u64::MAX,
        committed(v, v.len()).ch.blobs.len() <= 0x1_0000_0000,
    ensures
        ({
            let b = committed(v, v.len());
            contents(b.items, v.len(), b.ch, Places::start()) == Ok::<
                (Seq<Seq<u8>>, Places),
                Error,
            >((origin_contents(src), b.ch.ends()))
        }),
{
    let b = committed(v, v.len());
    lemma_join_grows(b.ch, Payload::empty());
    assert(b.ch.joined(Payload::empty()) =~= b.ch);
    lemma_contents_upto(src, v, v.len(), b.ch);
    assert(origin_contents(src).take(v.len() as int) =~= origin_contents(src));
}

} // verus!
