//! What packing owes: an archive, with everything taken apart that can be and every
//! channel as short as it comes, unless a codec was asked and returned an error.

use crate::archive::content::Origin;
use crate::archive::create::{
    agree, are_plans, chosen, is_archive, is_arranged, is_pack, job_mem, laid_refused, may_come,
    may_overflow, may_seal, pack_starved, table_refused, toc_starved, Source,
};
use crate::archive::open::{backend_starved, open_starved, payload_at, table_in, table_starved};
use crate::archive::output::{check_starved, verified};
use crate::archive::pack::{
    archive_bytes, are_packets, load, load_refused, loads_refused, may_pack, table_for, Packed,
    Packet,
};
use crate::archive::stage::{committed, is_due, is_stage, may_keep, Staged};
use crate::archive::toc::{table_bytes, Table};
use crate::backends::{any_refused, coded_by, racers, run_refused, MemBudget};
use crate::channels::{green, Payload};
use crate::error::{out_of_memory, Error};
use crate::outside::xxh3_of;
use crate::plan::Piece;
use crate::refusal::{
    block_refused, deflate_refused, jpeg_refused, lepton_refused, lzma_refused, plain_refused,
    rebuild_starved, scan_starved, split_refused, stream_refused, text_refused,
};
use crate::scan::outcome::is_plan;
use vstd::prelude::*;

verus! {

/// Whether recreating a stream or a picture was asked for and returned an error.
pub open spec fn not_recreated() -> bool {
    ||| exists|plain: Seq<u8>, corrections: Seq<u8>| deflate_refused(plain, corrections)
    ||| exists|lepton: Seq<u8>| jpeg_refused(lepton)
}

/// Whether the data has a plan with more images than can be numbered.
pub open spec fn has_too_many(data: Seq<u8>, short: bool) -> bool {
    exists|segs: Seq<Piece>, ch: Payload| #[trigger]
        is_plan(data, 0, Payload::empty(), segs, ch, short) && ch.blobs.len() > 0x1_0000_0000
}

/// A file is described with its path, size and hash, by the plan that the scan came
/// to. It is kept as it is only where recreating it returned an error, or it has
/// more images than can be numbered.
pub proof fn lemma_file_described(path: Seq<char>, data: Seq<u8>, p: Staged)
    requires
        is_stage(path, false, data, p),
    ensures
        p.item.path == path,
        !p.item.is_dir,
        p.item.size == data.len() as u64,
        p.item.hash == xxh3_of(data),
        is_plan(data, 0, Payload::empty(), p.item.segs, p.ch, true) || not_recreated()
            || has_too_many(data, true),
{
    reveal(may_keep);
}

/// Where no codec returned an error, the plan takes all that is there.
pub proof fn lemma_file_due(path: Seq<char>, data: Seq<u8>, p: Staged)
    requires
        is_due(path, false, data, p),
    ensures
        is_plan(data, 0, Payload::empty(), p.item.segs, p.ch, false) || has_too_many(data, false),
{
    reveal(is_due);
}

/// An archive is made of plans of its files and of channels that are each as short
/// as any codec makes them that was not asked and returned an error.
pub proof fn lemma_archive_made(
    src: Seq<Origin>,
    use_cm: bool,
    budget: u64,
    bytes: Seq<u8>,
    t: Table,
    short: bool,
) -> (r: (Seq<Staged>, Seq<Packet>, Seq<u8>))
    requires
        is_archive(src, use_cm, budget, bytes, t, short),
    ensures
        bytes == archive_bytes(r.1, r.2),
        r.0.len() == src.len(),
        forall|i: int|
            0 <= i < src.len() ==> is_stage(src[i].path, src[i].is_dir, src[i].data, #[trigger] r.0[i]),
        !short ==> forall|i: int|
            0 <= i < src.len() ==> is_due(src[i].path, src[i].is_dir, src[i].data, #[trigger] r.0[i]),
        ({
            let ch = committed(r.0, r.0.len()).ch;
            &&& r.1.len() == ch.blobs.len() + 4
            &&& forall|i: int|
                0 <= i < r.1.len() ==> may_pack(
                    load(ch, use_cm, i),
                    job_mem(budget, ch),
                    #[trigger] r.1[i],
                    short,
                )
        }),
{
    let (v, p, tc) = choose|v: Seq<Staged>, p: Seq<Packet>, tc: Seq<u8>|
        {
            &&& #[trigger] may_seal(v, use_cm, budget, p, tc, short)
            &&& are_plans(src, v, short)
            &&& bytes == archive_bytes(p, tc)
            &&& t == table_for(committed(v, v.len()), p)
        };
    (v, p, tc)
}

/// Packing sources that agree fails only where there are more images than can be
/// numbered, or where zstd was asked to compress the table and returned an error;
/// with a check also where the archive does not pass it.
pub proof fn lemma_pack_owed(
    sources: Seq<Source>,
    use_cm: bool,
    check: bool,
    budget: u64,
    r: Result<Packed, Error>,
)
    requires
        sources.len() > 0,
        agree(sources),
        may_come(sources, use_cm, check, budget, r, true),
        r is Err,
    ensures
        ({
            let e = r->Err_0;
            ||| e == Error::TooManyBlobs && exists|idx: Seq<usize>, v: Seq<Staged>|
                #![trigger is_arranged(sources, idx), committed(v, v.len())]
                is_arranged(sources, idx) && are_plans(chosen(sources, idx), v, true)
                    && committed(v, v.len()).ch.blobs.len() > 0x1_0000_0000
            ||| e == Error::TocFailed && exists|t: Table| block_refused(#[trigger] table_bytes(t), 19)
            ||| check && exists|idx: Seq<usize>, bytes: Seq<u8>, t: Table| #[trigger]
                is_pack(sources, use_cm, budget, idx, bytes, t, true) && (check_starved(bytes, e)
                    || verified(bytes) is Err)
        }),
{
    reveal(table_refused);
    let e = r->Err_0;
    if e == Error::TooManyBlobs && exists|idx: Seq<usize>| #[trigger]
        is_arranged(sources, idx) && may_overflow(
            chosen(sources, idx),
            true,
        ) {
        let idx = choose|idx: Seq<usize>| #[trigger]
            is_arranged(sources, idx) && may_overflow(
                chosen(sources, idx),
                true,
            );
        let v = choose|v: Seq<Staged>| #[trigger]
            are_plans(chosen(sources, idx), v, true) && committed(v, v.len()).ch.blobs.len()
                > 0x1_0000_0000;
        assert(is_arranged(sources, idx) && committed(v, v.len()).ch.blobs.len() > 0x1_0000_0000);
    } else if e == Error::TocFailed && exists|idx: Seq<usize>| #[trigger]
        is_arranged(sources, idx) && toc_starved(
            chosen(sources, idx),
            use_cm,
            budget,
        ) {
        let idx = choose|idx: Seq<usize>| #[trigger]
            is_arranged(sources, idx) && toc_starved(
                chosen(sources, idx),
                use_cm,
                budget,
            );
        let v = choose|v: Seq<Staged>| #[trigger]
            are_plans(chosen(sources, idx), v, true) && table_refused(
                committed(v, v.len()),
                use_cm,
                budget,
            );
        let b = committed(v, v.len());
        let p = choose|p: Seq<Packet>| #[trigger]
            are_packets(b.ch, use_cm, job_mem(budget, b.ch), p, true)
                && block_refused(table_bytes(table_for(b, p)), 19);
        assert(block_refused(table_bytes(table_for(b, p)), 19));
    }
}

/// Whether any codec was asked, about any bytes, and returned an error.
pub open spec fn codec_failed() -> bool {
    ||| not_recreated()
    ||| exists|data: Seq<u8>, a: u32, b: usize, c: bool| split_refused(data, a, b, c)
    ||| exists|frames: Seq<u8>| text_refused(frames)
    ||| exists|jpeg: Seq<u8>| lepton_refused(jpeg)
    ||| exists|data: Seq<u8>, level: i32| block_refused(data, level)
    ||| exists|data: Seq<u8>| stream_refused(data, 22, true, 27)
    ||| exists|comp: Seq<u8>| plain_refused(comp, 31)
    ||| exists|comp: Seq<u8>| lzma_refused(comp, u32::MAX)
}

proof fn lemma_race_flag(data: Seq<u8>, use_cm: bool, stride: u32, bpp: u32, mem: MemBudget)
    requires
        any_refused(data, use_cm, stride, bpp, mem),
    ensures
        codec_failed(),
{
    let k = choose|k: u8| #[trigger]
        racers(use_cm).contains(k) && run_refused(k, data, stride, bpp, mem);
    if stream_refused(data, 22, true, 27) {
    } else {
        let made = coded_by(k, data, stride, bpp, mem)->Ok_0;
        assert(plain_refused(made, 31) || lzma_refused(made, u32::MAX));
    }
}

/// Packing is said to have fallen short only where a codec was asked and returned
/// an error.
pub proof fn lemma_flag_means(src: Seq<Origin>, use_cm: bool, budget: u64)
    requires
        pack_starved(src, use_cm, budget),
    ensures
        codec_failed(),
{
    reveal(table_refused);
    reveal(loads_refused);
    if !scan_starved() && !rebuild_starved() {
        let v = choose|v: Seq<Staged>| #[trigger]
            are_plans(src, v, true) && laid_refused(committed(v, v.len()), use_cm, budget);
        let b = committed(v, v.len());
        let mem = job_mem(budget, b.ch);
        if loads_refused(b.ch, use_cm, mem) {
            let i = choose|i: int|
                0 <= i < b.ch.blobs.len() + 4 && load_refused(#[trigger] load(b.ch, use_cm, i), mem);
            let l = load(b.ch, use_cm, i);
            if any_refused(l.data, l.use_cm, l.stride, l.bpp, mem) {
                lemma_race_flag(l.data, l.use_cm, l.stride, l.bpp, mem);
            } else {
                let plain = green(l.data, l.bpp as int, true);
                lemma_race_flag(plain, l.use_cm, l.stride, l.bpp, mem);
            }
        }
    }
}

/// Bytes that are sound are found at fault only where a codec was asked and returned
/// an error, and a file is out of memory only where recreating it did.
pub proof fn lemma_fault_means(data: Seq<u8>, e: Error)
    ensures
        check_starved(data, e) ==> codec_failed(),
        open_starved(data, e) ==> codec_failed() && (e == Error::TocFailed || e is BackendFailed),
        out_of_memory(e) ==> not_recreated() && e is OutOfMemory,
{
    if open_starved(data, e) && !table_starved(data, e) {
        let (off, t) = table_in(data)->Ok_0;
        let i = choose|i: int|
            0 <= i < t.infos.len() && backend_starved(
                data,
                #[trigger] t.infos[i],
                payload_at(t.infos, i as nat),
                e,
            );
        let at = payload_at(t.infos, i as nat);
        let comp = data.subrange(at, at + t.infos[i].1);
        assert(plain_refused(comp, 31) || lzma_refused(comp, u32::MAX));
    }
}

} // verus!
