//! Making an archive of files.

use crate::archive::budget::{per_job_of, split_budget, Split};
use crate::archive::content::{
    are_stages, contents, lemma_committed_contents, lemma_committed_items, origin_content,
    origin_contents, Origin,
};
use crate::archive::open::{opened, Opened};
use crate::archive::order::{find, holds, is_order, keys_of, lemma_order_total, order, precedes};
use crate::archive::output::{check_starved, verified, verify, Tally};
use crate::archive::pack::{
    archive_bytes, are_packets, compress_all, is_sealed, lemma_packets_loosen, loads_refused,
    packets_of, seal, table_for, Packed, Packet, Parcel,
};
use crate::archive::pack_law::lemma_sealed_opens;
use crate::archive::stage::{
    commit, committed, is_due, is_sound, is_stage, moved_item, stage_file, stages_of, Bulk,
    PlannedFile, Staged,
};
use crate::archive::toc::{dir_item, items_of, table_bytes, Entry, Item, Table};
use crate::archive::toc_law::readable_table;
use crate::backends::MemBudget;
use crate::channels::{Channels, Payload, Places};
use crate::error::Error;
use crate::refusal::{block_refused, rebuild_starved, scan_starved};
use crate::util::bytes::same;
use vstd::prelude::*;
use vstd::utf8::{encode_utf8, encode_utf8_decode_utf8};

verus! {

/// A file or directory that is to be packed, under its path in the archive.
#[derive(Debug)]
pub struct Source {
    pub path: String,
    pub is_dir: bool,
    pub data: Vec<u8>,
}

impl View for Source {
    type V = Origin;

    open spec fn view(&self) -> Origin {
        Origin { path: self.path@, is_dir: self.is_dir, data: self.data@ }
    }
}

/// The memory of each job.
pub open spec fn job_mem(budget: u64, ch: Payload) -> MemBudget {
    MemBudget { bytes: per_job_of(budget, ch) as u64 }
}

/// Whether files that were laid together may be packed so: with every channel as
/// short as it comes, if no codec `failed`.
pub open spec fn is_laid(
    b: Bulk,
    use_cm: bool,
    budget: u64,
    p: Seq<Packet>,
    tc: Seq<u8>,
    failed: bool,
) -> bool {
    &&& are_packets(b.ch, use_cm, job_mem(budget, b.ch), p, failed)
    &&& is_sealed(b, p, tc)
}

/// Whether files that were laid together may come to these bytes and this table.
pub open spec fn may_lay(
    b: Bulk,
    use_cm: bool,
    budget: u64,
    bytes: Seq<u8>,
    t: Table,
    failed: bool,
) -> bool {
    exists|p: Seq<Packet>, tc: Seq<u8>| #[trigger]
        is_laid(b, use_cm, budget, p, tc, failed) && bytes == archive_bytes(p, tc) && t
            == table_for(b, p)
}

/// Whether files with these plans may be packed so.
pub open spec fn may_seal(
    v: Seq<Staged>,
    use_cm: bool,
    budget: u64,
    p: Seq<Packet>,
    tc: Seq<u8>,
    failed: bool,
) -> bool {
    let b = committed(v, v.len());
    &&& b.ch.blobs.len() <= 0x1_0000_0000
    &&& is_laid(b, use_cm, budget, p, tc, failed)
}

/// Whether the codec of the table was asked to compress it and returned an error.
#[verifier::opaque]
pub open spec fn table_refused(b: Bulk, use_cm: bool, budget: u64) -> bool {
    exists|p: Seq<Packet>| #[trigger]
        are_packets(b.ch, use_cm, job_mem(budget, b.ch), p, true) && block_refused(
            table_bytes(table_for(b, p)),
            19,
        )
}

/// Whether a codec was asked about a channel or the table and returned an error.
pub open spec fn laid_refused(b: Bulk, use_cm: bool, budget: u64) -> bool {
    loads_refused(b.ch, use_cm, job_mem(budget, b.ch)) || table_refused(b, use_cm, budget)
}

/// The entries of directories have a path alone.
proof fn lemma_dirs_bare(plans: Seq<PlannedFile>, entries: Seq<Entry>)
    requires
        forall|i: int| 0 <= i < plans.len() ==> is_sound(#[trigger] plans[i]@),
        items_of(entries) == committed(stages_of(plans), plans.len()).items,
    ensures
        forall|i: int|
            0 <= i < entries.len() ==> ((#[trigger] entries[i])@.is_dir ==> entries[i]@
                == dir_item(entries[i]@.path)),
{
    let v = stages_of(plans);
    let b = committed(v, v.len());
    lemma_committed_items(v, v.len());
    assert forall|i: int| 0 <= i < entries.len() && (#[trigger] entries[i])@.is_dir implies entries[i]@
        == dir_item(entries[i]@.path) by {
        assert(items_of(entries)[i] == entries[i]@);
        assert(v[i] == plans[i]@);
        assert(is_sound(plans[i]@));
        let off = committed(v, i as nat).ch.blobs.len() as int;
        assert(b.items[i] == moved_item(v[i].item, off));
    }
}

/// Compresses the channels of files that were laid together and seals them.
fn pack_laid(entries: Vec<Entry>, ch: &Channels, use_cm: bool, budget: u64) -> (r: (
    Result<Packed, Error>,
    bool,
))
    requires
        forall|i: int|
            0 <= i < entries@.len() ==> ((#[trigger] entries@[i])@.is_dir ==> entries@[i]@
                == dir_item(entries@[i]@.path)),
    ensures
        match r.0 {
            Ok(x) => may_lay(
                Bulk { items: items_of(entries@), ch: ch@ },
                use_cm,
                budget,
                x.bytes@,
                x.toc@,
                r.1,
            ),
            Err(e) => e == Error::TocFailed && r.1 && table_refused(
                Bulk { items: items_of(entries@), ch: ch@ },
                use_cm,
                budget,
            ),
        },
        r.1 ==> laid_refused(Bulk { items: items_of(entries@), ch: ch@ }, use_cm, budget),
{
    let split: Split = split_budget(budget, ch);
    let mem = MemBudget { bytes: split.per_job };
    let (parcels, failed): (Vec<Parcel>, bool) = compress_all(ch, use_cm, mem);
    let r: Result<Packed, Error> = seal(entries, ch, &parcels);
    proof {
        if r is Ok {
            let b = Bulk { items: items_of(entries@), ch: ch@ };
            let p = packets_of(parcels@);
            let tc = choose|tc: Seq<u8>| #[trigger]
                is_sealed(b, p, tc) && r->Ok_0.bytes@ == archive_bytes(p, tc);
            assert(is_laid(b, use_cm, budget, p, tc, failed));
            assert(may_lay(b, use_cm, budget, r->Ok_0.bytes@, r->Ok_0.toc@, failed));
        } else {
            let b = Bulk { items: items_of(entries@), ch: ch@ };
            let p = packets_of(parcels@);
            lemma_packets_loosen(b.ch, use_cm, job_mem(budget, b.ch), p, failed);
            assert(table_refused(b, use_cm, budget)) by {
                reveal(table_refused);
                assert(are_packets(b.ch, use_cm, job_mem(budget, b.ch), p, true));
            }
        }
    }
    match r {
        Ok(x) => (Ok(x), failed),
        Err(e) => (Err(e), true),
    }
}

/// Packs files that were planned, and says whether a codec failed.
pub fn pack_planned(planned: Vec<PlannedFile>, use_cm: bool, budget: u64) -> (r: (
    Result<Packed, Error>,
    bool,
))
    requires
        forall|i: int| 0 <= i < planned@.len() ==> is_sound(#[trigger] planned@[i]@),
    ensures
        ({
            let v = stages_of(planned@);
            let b = committed(v, v.len());
            match r.0 {
                Ok(x) => exists|p: Seq<Packet>, tc: Seq<u8>| #[trigger]
                    may_seal(v, use_cm, budget, p, tc, r.1) && x.bytes@ == archive_bytes(p, tc)
                        && x.toc@ == table_for(b, p),
                Err(e) => if b.ch.blobs.len() > 0x1_0000_0000 {
                    e == Error::TooManyBlobs
                } else {
                    e == Error::TocFailed && r.1 && table_refused(b, use_cm, budget)
                },
            }
        }),
        ({
            let v = stages_of(planned@);
            r.1 ==> laid_refused(committed(v, v.len()), use_cm, budget)
        }),
{
    let ghost v = stages_of(planned@);
    let ghost b = committed(v, v.len());
    let ghost plans = planned@;
    let (entries, ch): (Vec<Entry>, Channels) = match commit(planned) {
        Ok(x) => x,
        Err(e) => return (Err(e), false),
    };
    proof {
        lemma_dirs_bare(plans, entries@);
        assert(b == (Bulk { items: items_of(entries@), ch: ch@ }));
    }
    let r: (Result<Packed, Error>, bool) = pack_laid(entries, &ch, use_cm, budget);
    proof {
        if r.0 is Ok {
            let x = r.0->Ok_0;
            let (p, tc) = choose|p: Seq<Packet>, tc: Seq<u8>| #[trigger]
                is_laid(b, use_cm, budget, p, tc, r.1) && x.bytes@ == archive_bytes(p, tc)
                    && x.toc@ == table_for(b, p);
            assert(may_seal(v, use_cm, budget, p, tc, r.1));
        }
    }
    r
}

/// Whether each of `v` is a plan for one of `src`: the one that is due to it, if
/// no codec ran `short` of memory.
pub open spec fn are_plans(src: Seq<Origin>, v: Seq<Staged>, short: bool) -> bool {
    &&& are_stages(src, v)
    &&& !short ==> forall|i: int|
        0 <= i < v.len() ==> is_due(src[i].path, src[i].is_dir, src[i].data, #[trigger] v[i])
}

/// Whether these are the bytes and the table of an archive of `src`. If no codec
/// fell `short`, every plan is the one that is due and every channel is as short
/// as it comes.
pub open spec fn is_archive(
    src: Seq<Origin>,
    use_cm: bool,
    budget: u64,
    bytes: Seq<u8>,
    t: Table,
    short: bool,
) -> bool {
    exists|v: Seq<Staged>, p: Seq<Packet>, tc: Seq<u8>|
        {
            &&& #[trigger] may_seal(v, use_cm, budget, p, tc, short)
            &&& are_plans(src, v, short)
            &&& bytes == archive_bytes(p, tc)
            &&& t == table_for(committed(v, v.len()), p)
        }
}

/// Whether an entry is that of a file or directory.
pub open spec fn is_item_of(e: Item, o: Origin) -> bool {
    &&& e.path == o.path
    &&& e.is_dir == o.is_dir
    &&& e.size == origin_content(o).len()
}

/// Whether an archive that was opened holds `src`, all of it and nothing else.
pub open spec fn holds_all(o: Opened, src: Seq<Origin>) -> bool {
    &&& o.items.len() == src.len()
    &&& forall|i: int| 0 <= i < src.len() ==> is_item_of(#[trigger] o.items[i], src[i])
    &&& contents(o.items, o.items.len(), o.ch, Places::start()) == Ok::<
        (Seq<Seq<u8>>, Places),
        Error,
    >((origin_contents(src), o.ch.ends()))
}

/// Whether the lengths of files are numbers of the machine.
pub open spec fn are_sized(src: Seq<Origin>) -> bool {
    forall|i: int| 0 <= i < src.len() ==> (#[trigger] src[i]).data.len() <= u64::MAX
}

/// An archive opens to the files that were packed, where its table is within a
/// reader's limits; and if it opens at all, it is so.
pub proof fn lemma_pack_roundtrip(
    src: Seq<Origin>,
    use_cm: bool,
    budget: u64,
    bytes: Seq<u8>,
    t: Table,
)
    requires
        are_sized(src),
        is_archive(src, use_cm, budget, bytes, t, true),
        readable_table(t) || opened(bytes) is Ok,
    ensures
        opened(bytes) matches Ok(o) && o.items == t.items && holds_all(o, src),
{
    let (v, p, tc) = choose|v: Seq<Staged>, p: Seq<Packet>, tc: Seq<u8>|
        {
            &&& #[trigger] may_seal(v, use_cm, budget, p, tc, true)
            &&& are_plans(src, v, true)
            &&& bytes == archive_bytes(p, tc)
            &&& t == table_for(committed(v, v.len()), p)
        };
    let b = committed(v, v.len());
    lemma_sealed_opens(b, use_cm, job_mem(budget, b.ch), p, tc);
    lemma_committed_contents(src, v);
    lemma_committed_items(v, v.len());
    assert forall|i: int| 0 <= i < src.len() implies is_item_of(#[trigger] b.items[i], src[i]) by {
        assert(is_stage(src[i].path, src[i].is_dir, src[i].data, v[i]));
    }
}

/// The files that `r` numbers.
pub open spec fn chosen(v: Seq<Source>, r: Seq<usize>) -> Seq<Origin> {
    Seq::new(r.len(), |i: int| v[r[i] as int]@)
}

pub open spec fn source_keys(v: Seq<Source>) -> Seq<Seq<u8>> {
    Seq::new(v.len(), |i: int| encode_utf8(v[i].path@))
}

/// Whether two sources have one path, and are not the same.
pub open spec fn clash(v: Seq<Source>, i: int, j: int) -> bool {
    v[i].path@ == v[j].path@ && v[i]@ != v[j]@
}

/// Whether no two sources that differ have one path.
pub open spec fn agree(v: Seq<Source>) -> bool {
    forall|i: int, j: int| 0 <= i < v.len() && 0 <= j < v.len() ==> !#[trigger] clash(v, i, j)
}

/// Whether `r` numbers what goes into an archive: by path, and of sources that
/// are the same the first.
pub open spec fn is_arranged(v: Seq<Source>, r: Seq<usize>) -> bool {
    is_order(source_keys(v), r, 0, v.len() as int) && agree(v)
}

/// Sources have one key where they have one path.
proof fn lemma_keys(v: Seq<Source>, i: int, j: int)
    requires
        0 <= i < v.len(),
        0 <= j < v.len(),
    ensures
        (source_keys(v)[i] == source_keys(v)[j]) == (v[i].path@ == v[j].path@),
{
    encode_utf8_decode_utf8(v[i].path@);
    encode_utf8_decode_utf8(v[j].path@);
}

/// Every file and directory that is packed has an entry, and one of its own
/// where no two are the same.
pub proof fn lemma_all_arranged(v: Seq<Source>, r: Seq<usize>)
    requires
        is_arranged(v, r),
        v.len() <= usize::MAX,
    ensures
        forall|i: int| 0 <= i < v.len() ==> chosen(v, r).contains(#[trigger] v[i]@),
        (forall|i: int, j: int| 0 <= i < j < v.len() ==> #[trigger] v[i]@ != #[trigger] v[j]@)
            ==> r.len() == v.len(),
{
    let keys = source_keys(v);
    assert forall|i: int| 0 <= i < v.len() implies chosen(v, r).contains(#[trigger] v[i]@) by {
        assert(holds(keys, r, keys[i]));
        let x = choose|x: int| 0 <= x < r.len() && keys[#[trigger] r[x] as int] == keys[i];
        lemma_keys(v, r[x] as int, i);
        assert(!clash(v, r[x] as int, i));
        assert(chosen(v, r)[x] == v[i]@);
    }
    if forall|i: int, j: int| 0 <= i < j < v.len() ==> #[trigger] v[i]@ != #[trigger] v[j]@ {
        lemma_own_arranged(v, r);
    }
}

proof fn lemma_own_arranged(v: Seq<Source>, r: Seq<usize>)
    requires
        is_arranged(v, r),
        v.len() <= usize::MAX,
        forall|i: int| 0 <= i < v.len() ==> chosen(v, r).contains(#[trigger] v[i]@),
        forall|i: int, j: int| 0 <= i < j < v.len() ==> #[trigger] v[i]@ != #[trigger] v[j]@,
    ensures
        r.len() == v.len(),
{
    let keys = source_keys(v);
    assert forall|x: int, y: int| 0 <= x < r.len() && 0 <= y < r.len() && x != y implies r[x]
        != r[y] by {
        lemma_order_total(keys[r[x] as int], keys[r[x] as int], keys[r[x] as int]);
        if x < y {
            assert(precedes(keys[r[x] as int], keys[r[y] as int]));
        } else {
            assert(precedes(keys[r[y] as int], keys[r[x] as int]));
        }
    }
    let below = Set::new(|x: usize| x < v.len());
    lemma_count(v.len());
    assert forall|k: usize| k < v.len() implies #[trigger] r.contains(k) by {
        assert(chosen(v, r).contains(v[k as int]@));
        let x = choose|x: int| 0 <= x < r.len() && chosen(v, r)[x] == v[k as int]@;
        assert(v[r[x] as int]@ == v[k as int]@);
        assert(r[x] == k);
    }
    assert(r.to_set() =~= below);
    assert(r.no_duplicates());
    r.unique_seq_to_set();
}

/// How many numbers are below `n`.
proof fn lemma_count(n: nat)
    requires
        n <= usize::MAX,
    ensures
        Set::new(|x: usize| x < n).finite(),
        Set::new(|x: usize| x < n).len() == n,
    decreases n,
{
    let s = Set::new(|x: usize| x < n);
    if n == 0 {
        assert(s =~= Set::<usize>::empty());
    } else {
        lemma_count((n - 1) as nat);
        let t = Set::new(|x: usize| x < (n - 1) as nat);
        assert(s =~= t.insert((n - 1) as usize));
    }
}

/// Numbers the sources by path, with the first of those that are the same; an
/// error where two that differ have one path.
fn arrange(sources: &Vec<Source>) -> (r: Result<Vec<usize>, Error>)
    ensures
        match r {
            Ok(v) => is_arranged(sources@, v@),
            Err(e) => e == Error::DuplicatePath && !agree(sources@),
        },
{
    let mut paths: Vec<String> = Vec::new();
    let n: usize = sources.len();
    let mut i: usize = 0;
    while i < n
        invariant
            i <= n,
            n == sources@.len(),
            paths@.len() == i,
            forall|k: int| 0 <= k < i ==> (#[trigger] paths@[k])@ == sources@[k].path@,
        decreases n - i,
    {
        paths.push(sources[i].path.clone());
        i += 1;
    }
    let ghost keys = source_keys(sources@);
    assert(keys_of(paths@) =~= keys);
    let r: Vec<usize> = order(&paths);
    let mut j: usize = 0;
    let ghost mut reps: Seq<int> = Seq::empty();
    while j < n
        invariant
            j <= n,
            n == sources@.len(),
            n == paths@.len(),
            keys == source_keys(sources@),
            keys == keys_of(paths@),
            is_order(keys, r@, 0, n as int),
            reps.len() == j,
            forall|k: int|
                0 <= k < j ==> 0 <= #[trigger] reps[k] < r@.len() && sources@[r@[reps[k]] as int]@
                    == sources@[k]@,
        decreases n - j,
    {
        let x: usize = find(&paths, &r, j);
        let a: &Source = &sources[r[x]];
        let b: &Source = &sources[j];
        proof {
            lemma_keys(sources@, r@[x as int] as int, j as int);
        }
        if a.is_dir != b.is_dir || !same(a.data.as_slice(), b.data.as_slice()) {
            assert(clash(sources@, r@[x as int] as int, j as int));
            return Err(Error::DuplicatePath);
        }
        proof {
            reps = reps.push(x as int);
        }
        j += 1;
    }
    proof {
        lemma_agree(sources@, r@, reps);
    }
    Ok(r)
}

proof fn lemma_agree(v: Seq<Source>, r: Seq<usize>, reps: Seq<int>)
    requires
        is_order(source_keys(v), r, 0, v.len() as int),
        reps.len() == v.len(),
        forall|k: int|
            0 <= k < v.len() ==> 0 <= #[trigger] reps[k] < r.len() && v[r[reps[k]] as int]@
                == v[k]@,
    ensures
        agree(v),
{
    let keys = source_keys(v);
    assert forall|i: int, j: int| 0 <= i < v.len() && 0 <= j < v.len() implies !#[trigger] clash(
        v,
        i,
        j,
    ) by {
        let x = reps[i];
        let y = reps[j];
        if v[i].path@ == v[j].path@ {
            lemma_keys(v, r[x] as int, r[y] as int);
            lemma_order_total(keys[r[x] as int], keys[r[y] as int], keys[r[x] as int]);
            if x < y {
                assert(precedes(keys[r[x] as int], keys[r[y] as int]));
            } else if y < x {
                assert(precedes(keys[r[y] as int], keys[r[x] as int]));
            }
        }
    }
}

/// Plans what `r` numbers, and says whether a codec ran short of memory.
fn plan_all(sources: &Vec<Source>, r: &Vec<usize>) -> (v: (Vec<PlannedFile>, bool))
    requires
        forall|i: int| 0 <= i < r@.len() ==> #[trigger] r@[i] < sources@.len(),
    ensures
        are_plans(chosen(sources@, r@), stages_of(v.0@), v.1),
        are_sized(chosen(sources@, r@)),
        v.1 ==> scan_starved() || rebuild_starved(),
        forall|i: int| 0 <= i < v.0@.len() ==> is_sound(#[trigger] v.0@[i]@),
{
    let ghost src = chosen(sources@, r@);
    let mut v: Vec<PlannedFile> = Vec::new();
    let mut short: bool = false;
    let n: usize = r.len();
    let mut k: usize = 0;
    while k < n
        invariant
            k <= n,
            n == r@.len(),
            src == chosen(sources@, r@),
            short ==> scan_starved() || rebuild_starved(),
            forall|i: int| 0 <= i < r@.len() ==> #[trigger] r@[i] < sources@.len(),
            v@.len() == k,
            forall|i: int|
                0 <= i < k ==> is_sound((#[trigger] v@[i])@) && is_stage(
                    src[i].path,
                    src[i].is_dir,
                    src[i].data,
                    v@[i]@,
                ),
            !short ==> forall|i: int|
                0 <= i < k ==> is_due(
                    src[i].path,
                    src[i].is_dir,
                    src[i].data,
                    (#[trigger] v@[i])@,
                ),
            forall|i: int| 0 <= i < k ==> (#[trigger] src[i]).data.len() <= u64::MAX,
        decreases n - k,
    {
        let s = &sources[r[k]];
        assert(src[k as int] == s@);
        assert(s.data.len() == s.data@.len());
        let (planned, lacks): (PlannedFile, bool) =
            stage_file(s.path.clone(), s.is_dir, s.data.as_slice());
        short = short || lacks;
        v.push(planned);
        k += 1;
    }
    (v, short)
}

/// Whether these are the bytes and the table of an archive of what `idx` picks
/// of the sources.
pub open spec fn is_pack(
    sources: Seq<Source>,
    use_cm: bool,
    budget: u64,
    idx: Seq<usize>,
    bytes: Seq<u8>,
    t: Table,
    short: bool,
) -> bool {
    let src = chosen(sources, idx);
    &&& is_arranged(sources, idx)
    &&& are_sized(src)
    &&& is_archive(src, use_cm, budget, bytes, t, short)
}

/// Whether the plans of these files may name more blobs than there are numbers.
pub open spec fn may_overflow(src: Seq<Origin>, short: bool) -> bool {
    exists|v: Seq<Staged>| #[trigger]
        are_plans(src, v, short) && committed(v, v.len()).ch.blobs.len() > 0x1_0000_0000
}

/// Whether a codec was asked on the way to an archive of these files, about a
/// file, a channel or the table, and returned an error.
pub open spec fn pack_starved(src: Seq<Origin>, use_cm: bool, budget: u64) -> bool {
    ||| scan_starved()
    ||| rebuild_starved()
    ||| exists|v: Seq<Staged>| #[trigger]
        are_plans(src, v, true) && laid_refused(committed(v, v.len()), use_cm, budget)
}

/// Whether the codec of the table was asked about one that these files lead to,
/// and returned an error.
pub open spec fn toc_starved(src: Seq<Origin>, use_cm: bool, budget: u64) -> bool {
    exists|v: Seq<Staged>| #[trigger]
        are_plans(src, v, true) && table_refused(committed(v, v.len()), use_cm, budget)
}

proof fn lemma_archive_loosen(
    src: Seq<Origin>,
    use_cm: bool,
    budget: u64,
    bytes: Seq<u8>,
    t: Table,
    short: bool,
)
    requires
        is_archive(src, use_cm, budget, bytes, t, short),
    ensures
        is_archive(src, use_cm, budget, bytes, t, true),
{
    let (v, p, tc) = choose|v: Seq<Staged>, p: Seq<Packet>, tc: Seq<u8>|
        {
            &&& #[trigger] may_seal(v, use_cm, budget, p, tc, short)
            &&& are_plans(src, v, short)
            &&& bytes == archive_bytes(p, tc)
            &&& t == table_for(committed(v, v.len()), p)
        };
    let b = committed(v, v.len());
    lemma_packets_loosen(b.ch, use_cm, job_mem(budget, b.ch), p, short);
    assert(may_seal(v, use_cm, budget, p, tc, true));
    assert(are_plans(src, v, true));
}

/// An archive that is as it is due is one that may be where a codec fell short.
pub proof fn lemma_pack_loosen(
    sources: Seq<Source>,
    use_cm: bool,
    budget: u64,
    idx: Seq<usize>,
    bytes: Seq<u8>,
    t: Table,
    short: bool,
)
    requires
        is_pack(sources, use_cm, budget, idx, bytes, t, short),
    ensures
        is_pack(sources, use_cm, budget, idx, bytes, t, true),
{
    lemma_archive_loosen(chosen(sources, idx), use_cm, budget, bytes, t, short);
}

fn pack_sources(sources: &Vec<Source>, idx: &Vec<usize>, use_cm: bool, budget: u64) -> (r: (
    Result<Packed, Error>,
    bool,
))
    requires
        is_arranged(sources@, idx@),
    ensures
        match r.0 {
            Ok(x) => is_pack(sources@, use_cm, budget, idx@, x.bytes@, x.toc@, r.1),
            Err(e) => {
                ||| e == Error::TooManyBlobs && may_overflow(chosen(sources@, idx@), r.1)
                ||| e == Error::TocFailed && r.1 && toc_starved(
                    chosen(sources@, idx@),
                    use_cm,
                    budget,
                )
            },
        },
        r.1 ==> pack_starved(chosen(sources@, idx@), use_cm, budget),
{
    let ghost src = chosen(sources@, idx@);
    let (planned, lacks): (Vec<PlannedFile>, bool) = plan_all(sources, idx);
    let ghost v = stages_of(planned@);
    let (r, failed): (Result<Packed, Error>, bool) = pack_planned(planned, use_cm, budget);
    let short: bool = lacks || failed;
    proof {
        let b = committed(v, v.len());
        assert(are_plans(src, v, short));
        assert(are_plans(src, v, true));
        if r is Ok {
            let x = r->Ok_0;
            let (p, tc) = choose|p: Seq<Packet>, tc: Seq<u8>| #[trigger]
                may_seal(v, use_cm, budget, p, tc, failed) && x.bytes@ == archive_bytes(p, tc)
                    && x.toc@ == table_for(b, p);
            if short {
                lemma_packets_loosen(b.ch, use_cm, job_mem(budget, b.ch), p, failed);
            }
            assert(may_seal(v, use_cm, budget, p, tc, short));
            assert(is_archive(src, use_cm, budget, x.bytes@, x.toc@, short));
        }
    }
    (r, short)
}

/// Whether an archive was checked: it opens, every file in it is as its entry
/// says, and it holds what was packed.
pub open spec fn is_checked(bytes: Seq<u8>, src: Seq<Origin>) -> bool {
    &&& verified(bytes) is Ok
    &&& opened(bytes) matches Ok(o)
    &&& holds_all(o, src)
}

/// Whether a check of the archive may come to this error.
pub open spec fn may_fail_check(bytes: Seq<u8>, e: Error) -> bool {
    check_starved(bytes, e) || verified(bytes) == Err::<Tally, Error>(e)
}

/// Whether packing may come to this. If no codec fell `short`, nothing fails but
/// what the sources or a check give cause for.
pub open spec fn may_come(
    sources: Seq<Source>,
    use_cm: bool,
    check: bool,
    budget: u64,
    r: Result<Packed, Error>,
    short: bool,
) -> bool {
    match r {
        Ok(x) => exists|idx: Seq<usize>| #[trigger]
            is_pack(sources, use_cm, budget, idx, x.bytes@, x.toc@, short) && (check ==> is_checked(
                x.bytes@,
                chosen(sources, idx),
            )),
        Err(e) => {
            ||| e == Error::NoInputs && sources.len() == 0
            ||| e == Error::DuplicatePath && !agree(sources)
            ||| e == Error::TooManyBlobs && exists|idx: Seq<usize>| #[trigger]
                is_arranged(sources, idx) && may_overflow(chosen(sources, idx), short)
            ||| e == Error::TocFailed && short && exists|idx: Seq<usize>| #[trigger]
                is_arranged(sources, idx) && toc_starved(chosen(sources, idx), use_cm, budget)
            ||| check && exists|idx: Seq<usize>, bytes: Seq<u8>, t: Table| #[trigger]
                is_pack(sources, use_cm, budget, idx, bytes, t, short) && may_fail_check(bytes, e)
        },
    }
}

/// Packs files and directories into an archive, by path. One that is given more
/// than once is packed once; two that differ may not have one path. With `check`
/// the archive is read again and every file in it checked.
pub fn pack(sources: &Vec<Source>, use_cm: bool, check: bool, budget: u64) -> (r: Result<
    Packed,
    Error,
>)
    ensures
        sources@.len() == 0 ==> r == Err::<Packed, Error>(Error::NoInputs),
        !agree(sources@) ==> r == Err::<Packed, Error>(Error::DuplicatePath),
        may_come(sources@, use_cm, check, budget, r, true),
{
    let (r, short): (Result<Packed, Error>, bool) = pack_flagged(sources, use_cm, check, budget);
    proof {
        lemma_come_loosen(sources@, use_cm, check, budget, r, short);
    }
    r
}

proof fn lemma_come_loosen(
    sources: Seq<Source>,
    use_cm: bool,
    check: bool,
    budget: u64,
    r: Result<Packed, Error>,
    short: bool,
)
    requires
        may_come(sources, use_cm, check, budget, r, short),
    ensures
        may_come(sources, use_cm, check, budget, r, true),
{
    match r {
        Ok(x) => {
            let idx = choose|idx: Seq<usize>| #[trigger]
                is_pack(sources, use_cm, budget, idx, x.bytes@, x.toc@, short) && (check
                    ==> is_checked(x.bytes@, chosen(sources, idx)));
            lemma_pack_loosen(sources, use_cm, budget, idx, x.bytes@, x.toc@, short);
        },
        Err(e) => {
            if e == Error::TooManyBlobs && exists|idx: Seq<usize>| #[trigger]
                is_arranged(sources, idx) && may_overflow(chosen(sources, idx), short) {
                let idx = choose|idx: Seq<usize>| #[trigger]
                    is_arranged(sources, idx) && may_overflow(chosen(sources, idx), short);
                let src = chosen(sources, idx);
                let v = choose|v: Seq<Staged>| #[trigger]
                    are_plans(src, v, short) && committed(v, v.len()).ch.blobs.len()
                        > 0x1_0000_0000;
                assert(are_plans(src, v, true));
            } else if check && exists|idx: Seq<usize>, bytes: Seq<u8>, t: Table| #[trigger]
                is_pack(sources, use_cm, budget, idx, bytes, t, short) && may_fail_check(bytes, e) {
                let (idx, bytes, t) = choose|idx: Seq<usize>, bytes: Seq<u8>, t: Table| #[trigger]
                    is_pack(sources, use_cm, budget, idx, bytes, t, short) && may_fail_check(
                        bytes,
                        e,
                    );
                lemma_pack_loosen(sources, use_cm, budget, idx, bytes, t, short);
            }
        },
    }
}

/// The same, and whether a codec fell short. Where none did, every stream and
/// picture that can be is taken apart, and no backend does better on any channel
/// than what was packed.
pub fn pack_flagged(sources: &Vec<Source>, use_cm: bool, check: bool, budget: u64) -> (r: (
    Result<Packed, Error>,
    bool,
))
    ensures
        sources@.len() == 0 ==> r.0 == Err::<Packed, Error>(Error::NoInputs),
        !agree(sources@) ==> r.0 == Err::<Packed, Error>(Error::DuplicatePath),
        may_come(sources@, use_cm, check, budget, r.0, r.1),
        r.1 ==> exists|idx: Seq<usize>| #[trigger]
            is_arranged(sources@, idx) && pack_starved(chosen(sources@, idx), use_cm, budget),
{
    if sources.len() == 0 {
        return (Err(Error::NoInputs), false);
    }
    let idx: Vec<usize> = match arrange(sources) {
        Ok(v) => v,
        Err(e) => return (Err(e), false),
    };
    let (r, short): (Result<Packed, Error>, bool) = pack_sources(sources, &idx, use_cm, budget);
    let packed: Packed = match r {
        Ok(x) => x,
        Err(e) => return (Err(e), short),
    };
    if check {
        match verify(packed.bytes.as_slice()) {
            Ok(_) => {
                proof {
                    let src = chosen(sources@, idx@);
                    lemma_archive_loosen(src, use_cm, budget, packed.bytes@, packed.toc@, short);
                    lemma_pack_roundtrip(src, use_cm, budget, packed.bytes@, packed.toc@);
                }
            },
            Err(e) => return (Err(e), short),
        }
    }
    (Ok(packed), short)
}

} // verus!
