//! An archive opens to what was packed.

use crate::archive::open::{
    channel_plain, channels_plain, end_magic, long_at, magic, opened, opened_by, payload_at,
    payload_of, toc_place, Opened,
};
use crate::archive::pack::{
    archive_bytes, are_packets, body_bytes, info_of, is_sealed, load, may_pack, may_win_load,
    meta_of, payload_bytes, picked, table_for, trailer_bytes, tries_green, Load, Packet,
};
use crate::archive::stage::Bulk;
use crate::archive::toc::{table_bytes, table_of, ChannelInfo, Table};
use crate::archive::toc_law::{
    countable_table, lemma_toc_limits, lemma_toc_roundtrip, readable_table,
};
use crate::backends::{plain_by, MemBudget};
use crate::channels::{green, lemma_green_inverse, Payload, PIXEL_IDENTITY, PIXEL_SUB_GREEN};
use crate::error::Error;
use crate::plan::law::{lemma_stands, stands};
use vstd::bytes::{lemma_auto_spec_u64_to_from_le_bytes, spec_u64_to_le_bytes};
use vstd::prelude::*;

verus! {

/// What a payload decompresses to.
pub open spec fn raw_of(l: Load, p: Packet) -> Seq<u8> {
    plain_by(p.id, p.comp, l.data.len() as u64)->Ok_0
}

/// A compressed channel decompresses, and undoing its transform gives back the
/// channel.
pub proof fn lemma_packet_restores(l: Load, mem: MemBudget, p: Packet)
    requires
        may_pack(l, mem, p, true),
    ensures
        plain_by(p.id, p.comp, l.data.len() as u64) == Ok::<Seq<u8>, Error>(raw_of(l, p)),
        p.transform == PIXEL_SUB_GREEN ==> green(raw_of(l, p), l.bpp as int, false) == l.data,
        p.transform != PIXEL_SUB_GREEN ==> raw_of(l, p) == l.data,
        !l.is_pixels ==> p.transform == PIXEL_IDENTITY,
{
    reveal(may_pack);
    let (a, b) = choose|a: (u8, Seq<u8>), b: Option<(u8, Seq<u8>)>|
        {
            &&& p == #[trigger] picked(a, b)
            &&& may_win_load(l, l.data, mem, a, true)
            &&& tries_green(l) == (b is Some)
            &&& b matches Some(x) ==> may_win_load(
                l,
                green(l.data, l.bpp as int, true),
                mem,
                x,
                true,
            )
        };
    lemma_green_inverse(l.data, l.bpp as int);
    assert(PIXEL_SUB_GREEN != PIXEL_IDENTITY);
}

proof fn lemma_payloads(p: Seq<Packet>, infos: Seq<ChannelInfo>, n: nat, s: Seq<u8>)
    requires
        n <= p.len(),
        infos.len() == p.len(),
        forall|i: int| 0 <= i < p.len() ==> (#[trigger] infos[i]).1 == p[i].comp.len(),
        stands(s, 8, payload_bytes(p, n)),
    ensures
        payload_at(infos, n) == 8 + payload_bytes(p, n).len(),
        forall|i: int|
            0 <= i < n ==> stands(s, payload_at(infos, i as nat), (#[trigger] p[i]).comp),
    decreases n,
{
    if n > 0 {
        let a = payload_bytes(p, (n - 1) as nat);
        lemma_stands(s, 8, a, p[n - 1].comp);
        lemma_payloads(p, infos, (n - 1) as nat, s);
        assert(infos[n - 1].1 == p[n - 1].comp.len());
    }
}

pub open spec fn raws_for(ch: Payload, p: Seq<Packet>) -> Seq<Seq<u8>> {
    Seq::new(p.len(), |i: int| raw_of(load(ch, false, i), p[i]))
}

proof fn lemma_channels(
    ch: Payload,
    use_cm: bool,
    mem: MemBudget,
    p: Seq<Packet>,
    infos: Seq<ChannelInfo>,
    n: nat,
    s: Seq<u8>,
)
    requires
        n <= p.len(),
        infos.len() == p.len(),
        are_packets(ch, use_cm, mem, p, true),
        forall|i: int| 0 <= i < p.len() ==> #[trigger] infos[i] == info_of(ch, p, i),
        forall|i: int|
            0 <= i < p.len() ==> (#[trigger] p[i]).comp.len() <= usize::MAX && load(
                ch,
                false,
                i,
            ).data.len() <= usize::MAX,
        forall|i: int|
            0 <= i < p.len() ==> stands(s, payload_at(infos, i as nat), (#[trigger] p[i]).comp),
    ensures
        channels_plain(s, infos, n) == Ok::<Seq<Seq<u8>>, Error>(raws_for(ch, p).take(n as int)),
    decreases n,
{
    let raws = raws_for(ch, p);
    if n == 0 {
        assert(raws.take(0) =~= Seq::<Seq<u8>>::empty());
    } else {
        lemma_channels(ch, use_cm, mem, p, infos, (n - 1) as nat, s);
        let i = n - 1;
        let l = load(ch, use_cm, i);
        assert(may_pack(l, mem, p[i], true));
        lemma_packet_restores(l, mem, p[i]);
        assert(load(ch, false, i).data == l.data);
        let off = payload_at(infos, i as nat);
        assert(stands(s, off, p[i].comp));
        assert(infos[i] == info_of(ch, p, i));
        assert(channel_plain(s, infos[i], off) == Ok::<Seq<u8>, Error>(raws[i]));
        assert(raws.take(i).push(raws[i]) =~= raws.take(n as int));
    }
}

proof fn lemma_gathered(ch: Payload, use_cm: bool, mem: MemBudget, p: Seq<Packet>)
    requires
        are_packets(ch, use_cm, mem, p, true),
    ensures
        payload_of(
            raws_for(ch, p),
            Seq::new(ch.blobs.len(), |i: int| meta_of(ch, p, i)),
        ) == ch,
{
    let raws = raws_for(ch, p);
    let metas = Seq::new(ch.blobs.len(), |i: int| meta_of(ch, p, i));
    let got = payload_of(raws, metas);
    assert forall|i: int| 0 <= i < p.len() implies {
        let l = load(ch, use_cm, i);
        &&& raws[i] == raw_of(l, p[i])
        &&& p[i].transform == PIXEL_SUB_GREEN ==> green(raws[i], l.bpp as int, false) == l.data
        &&& p[i].transform != PIXEL_SUB_GREEN ==> #[trigger] raws[i] == l.data
        &&& !l.is_pixels ==> p[i].transform != PIXEL_SUB_GREEN
    } by {
        assert(may_pack(load(ch, use_cm, i), mem, p[i], true));
        lemma_packet_restores(load(ch, use_cm, i), mem, p[i]);
        assert(load(ch, false, i).data == load(ch, use_cm, i).data);
        assert(PIXEL_SUB_GREEN != PIXEL_IDENTITY);
    }
    assert(raws[0] == ch.plain);
    assert(raws[1] == ch.corrections);
    assert(raws[2] == ch.filters);
    assert(raws[3] == ch.lepton);
    assert forall|i: int| 0 <= i < ch.blobs.len() implies #[trigger] got.blobs[i] == ch.blobs[i] by {
        assert(raws[i + 4] == raw_of(load(ch, false, i + 4), p[i + 4]));
        assert(metas[i] == meta_of(ch, p, i));
    }
    assert(got.blobs =~= ch.blobs);
    assert(got =~= ch);
}

proof fn lemma_trailer(p: Seq<Packet>, tc: Seq<u8>)
    requires
        archive_bytes(p, tc).len() <= usize::MAX,
    ensures
        toc_place(archive_bytes(p, tc)) == Ok::<(int, int), Error>(
            (body_bytes(p).len() as int, tc.len() as int),
        ),
        archive_bytes(p, tc).subrange(
            body_bytes(p).len() as int,
            body_bytes(p).len() as int + tc.len(),
        ) == tc,
        stands(archive_bytes(p, tc), 8, payload_bytes(p, p.len())),
{
    let s = archive_bytes(p, tc);
    let body = body_bytes(p);
    let a = spec_u64_to_le_bytes(body.len() as u64);
    let b = spec_u64_to_le_bytes(tc.len() as u64);
    let tr = trailer_bytes(body.len() as u64, tc.len() as u64);
    lemma_auto_spec_u64_to_from_le_bytes();
    assert(a.len() == 8 && b.len() == 8);
    assert(s.subrange(0, s.len() as int) =~= s);
    lemma_stands(s, 0, body, tc + tr);
    lemma_stands(s, 0, magic(), payload_bytes(p, p.len()));
    let p1 = body.len() as int;
    lemma_stands(s, p1, tc, tr);
    let p2 = p1 + tc.len();
    lemma_stands(s, p2, a, b + end_magic());
    lemma_stands(s, p2 + 8, b, end_magic());
    let n = s.len() as int;
    assert(n == p2 + 24);
    assert(s.take(8) =~= s.subrange(0, 8));
    assert(s.skip(n - 8) =~= s.subrange(p2 + 16, p2 + 24));
    assert(long_at(s, n - 24) == body.len());
    assert(long_at(s, n - 16) == tc.len());
}

proof fn lemma_sealed_channels(
    b: Bulk,
    use_cm: bool,
    mem: MemBudget,
    p: Seq<Packet>,
    tc: Seq<u8>,
)
    requires
        are_packets(b.ch, use_cm, mem, p, true),
        is_sealed(b, p, tc),
    ensures
        opened_by(archive_bytes(p, tc), body_bytes(p).len() as int, table_for(b, p)) == Ok::<
            Opened,
            Error,
        >(Opened { items: b.items, ch: b.ch, infos: table_for(b, p).infos }),
{
    let s = archive_bytes(p, tc);
    let t = table_for(b, p);
    lemma_trailer(p, tc);
    assert forall|i: int| 0 <= i < p.len() implies (#[trigger] t.infos[i]).1 == p[i].comp.len() by {
        assert(p[i].comp.len() <= usize::MAX);
    }
    lemma_payloads(p, t.infos, p.len(), s);
    lemma_channels(b.ch, use_cm, mem, p, t.infos, p.len(), s);
    assert(raws_for(b.ch, p).take(p.len() as int) =~= raws_for(b.ch, p));
    lemma_gathered(b.ch, use_cm, mem, p);
}

/// The table of an archive reads back.
proof fn lemma_sealed_table(t: Table)
    requires
        countable_table(t),
        readable_table(t) || table_of(table_bytes(t)) is Ok,
    ensures
        table_of(table_bytes(t)) == Ok::<Table, Error>(t),
        readable_table(t),
{
    if !readable_table(t) {
        lemma_toc_limits(t);
    }
    lemma_toc_roundtrip(t);
}

proof fn lemma_sealed_toc(b: Bulk, p: Seq<Packet>, tc: Seq<u8>)
    requires
        is_sealed(b, p, tc),
    ensures
        opened(archive_bytes(p, tc)) == (match table_of(table_bytes(table_for(b, p))) {
            Err(e) => Err(e),
            Ok(t) => opened_by(archive_bytes(p, tc), body_bytes(p).len() as int, t),
        }),
{
    lemma_trailer(p, tc);
}

/// An archive whose table is within a reader's limits opens, and one that
/// opens at all gives back the entries and the channels that it was made of.
pub proof fn lemma_sealed_opens(
    b: Bulk,
    use_cm: bool,
    mem: MemBudget,
    p: Seq<Packet>,
    tc: Seq<u8>,
)
    requires
        are_packets(b.ch, use_cm, mem, p, true),
        is_sealed(b, p, tc),
        readable_table(table_for(b, p)) || opened(archive_bytes(p, tc)) is Ok,
    ensures
        opened(archive_bytes(p, tc)) == Ok::<Opened, Error>(
            Opened { items: b.items, ch: b.ch, infos: table_for(b, p).infos },
        ),
        readable_table(table_for(b, p)),
{
    lemma_sealed_toc(b, p, tc);
    lemma_sealed_table(table_for(b, p));
    lemma_sealed_channels(b, use_cm, mem, p, tc);
}

} // verus!
