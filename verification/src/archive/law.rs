//! What holds of an archive as a whole.

use crate::archive::budget::{
    blobs_len, concurrent_of, held_len, lemma_held, per_job_of, usable_of,
};
use crate::archive::content::{contents, Origin};
use crate::archive::create::{holds_all, is_item_of};
use crate::archive::open::Opened;
use crate::archive::output::{
    extracted, products, stays_below, tally, tested, Product, Tally,
};
use crate::archive::pack::{are_packets, load, may_pack, payload_bytes, Packet};
use crate::archive::report::counted;
use crate::archive::toc::Item;
use crate::backends::MemBudget;
use crate::channels::{lemma_green_inverse, Payload, Places};
use crate::error::Error;
use vstd::prelude::*;
use vstd::utf8::encode_utf8;

verus! {

proof fn lemma_tally_upto(v: Seq<Item>, n: nat, ch: Payload, c: Places)
    ensures
        (tally(v, n, ch, c) is Ok) == (contents(v, n, ch, c) is Ok && counted(v, n) is Ok),
        tally(v, n, ch, c) matches Ok((t, c1)) ==> counted(v, n) == Ok::<Tally, Error>(t)
            && contents(v, n, ch, c)->Ok_0.1 == c1,
    decreases n,
{
    if n > 0 {
        lemma_tally_upto(v, (n - 1) as nat, ch, c);
    }
}

/// A check passes just where every file renders to the length and the hash of
/// its entry and the sizes add up, and then it counts the files.
pub proof fn lemma_test_passes(o: Opened)
    ensures
        (tested(o) is Ok) == (contents(o.items, o.items.len(), o.ch, Places::start()) is Ok
            && counted(o.items, o.items.len()) is Ok),
        tested(o) matches Ok(t) ==> counted(o.items, o.items.len()) == Ok::<Tally, Error>(t),
{
    lemma_tally_upto(o.items, o.items.len(), o.ch, Places::start());
}

/// What an entry that holds `s` becomes.
pub open spec fn product_for(e: Item, s: Seq<u8>) -> Product {
    if e.is_dir {
        Product::Dir
    } else {
        Product::File(s)
    }
}

proof fn lemma_products_upto(v: Seq<Item>, n: nat, ch: Payload, c: Places)
    requires
        n <= v.len(),
        forall|i: int| 0 <= i < v.len() ==> stays_below(encode_utf8((#[trigger] v[i]).path)),
        contents(v, n, ch, c) is Ok,
    ensures
        contents(v, n, ch, c)->Ok_0.0.len() == n,
        products(v, n, ch, c) == Ok::<(Seq<Product>, Places), Error>(
            (
                Seq::new(n, |i: int| product_for(v[i], contents(v, n, ch, c)->Ok_0.0[i])),
                contents(v, n, ch, c)->Ok_0.1,
            ),
        ),
    decreases n,
{
    let all = contents(v, n, ch, c)->Ok_0.0;
    let want = Seq::new(n, |i: int| product_for(v[i], all[i]));
    if n == 0 {
        assert(want =~= Seq::<Product>::empty());
    } else {
        let less = contents(v, (n - 1) as nat, ch, c)->Ok_0.0;
        lemma_products_upto(v, (n - 1) as nat, ch, c);
        let got = Seq::new((n - 1) as nat, |i: int| product_for(v[i], less[i]));
        assert(all.drop_last() =~= less);
        assert(stays_below(encode_utf8(v[n - 1].path)));
        assert(got.push(product_for(v[n - 1], all[n - 1])) =~= want);
    }
}

/// Extracting gives what the entries hold, where every path stays below the
/// directory that is extracted to.
pub proof fn lemma_extract_contents(o: Opened)
    requires
        forall|i: int|
            0 <= i < o.items.len() ==> stays_below(encode_utf8((#[trigger] o.items[i]).path)),
        contents(o.items, o.items.len(), o.ch, Places::start()) is Ok,
    ensures
        extracted(o) == Ok::<Seq<Product>, Error>(
            Seq::new(
                o.items.len(),
                |i: int|
                    product_for(
                        o.items[i],
                        contents(o.items, o.items.len(), o.ch, Places::start())->Ok_0.0[i],
                    ),
            ),
        ),
{
    lemma_products_upto(o.items, o.items.len(), o.ch, Places::start());
}

/// What a file or directory becomes when it is extracted.
pub open spec fn origin_product(o: Origin) -> Product {
    if o.is_dir {
        Product::Dir
    } else {
        Product::File(o.data)
    }
}

/// Extracting gives back every file and directory that was packed.
pub proof fn lemma_extract_roundtrip(o: Opened, src: Seq<Origin>)
    requires
        holds_all(o, src),
        forall|i: int| 0 <= i < src.len() ==> stays_below(encode_utf8((#[trigger] src[i]).path)),
    ensures
        extracted(o) == Ok::<Seq<Product>, Error>(
            Seq::new(src.len(), |i: int| origin_product(src[i])),
        ),
{
    assert forall|i: int| 0 <= i < o.items.len() implies stays_below(
        encode_utf8((#[trigger] o.items[i]).path),
    ) by {
        assert(is_item_of(o.items[i], src[i]));
        assert(stays_below(encode_utf8(src[i].path)));
    }
    lemma_extract_contents(o);
    let all = contents(o.items, o.items.len(), o.ch, Places::start())->Ok_0.0;
    let want = Seq::new(src.len(), |i: int| origin_product(src[i]));
    assert forall|i: int| 0 <= i < src.len() implies product_for(
        #[trigger] o.items[i],
        all[i],
    ) == want[i] by {
        assert(is_item_of(o.items[i], src[i]));
    }
    assert(Seq::new(o.items.len(), |i: int| product_for(o.items[i], all[i])) =~= want);
}

proof fn lemma_packet_len(ch: Payload, use_cm: bool, mem: MemBudget, p: Packet, i: int)
    requires
        may_pack(load(ch, use_cm, i), mem, p, true),
    ensures
        p.comp.len() <= load(ch, use_cm, i).data.len(),
{
    let l = load(ch, use_cm, i);
    reveal(may_pack);
    lemma_green_inverse(l.data, l.bpp as int);
}

/// The length of the first `n` channels.
spec fn loads_len(ch: Payload, n: nat) -> int
    decreases n,
{
    if n == 0 {
        0
    } else {
        loads_len(ch, (n - 1) as nat) + load(ch, false, n - 1).data.len()
    }
}

proof fn lemma_loads_len(ch: Payload, k: nat)
    ensures
        loads_len(ch, k + 4) == ch.plain.len() + ch.corrections.len() + ch.filters.len()
            + ch.lepton.len() + blobs_len(ch.blobs, k),
    decreases k,
{
    if k == 0 {
        reveal_with_fuel(loads_len, 5);
    } else {
        lemma_loads_len(ch, (k - 1) as nat);
        assert(load(ch, false, k as int + 3).data == ch.blobs[k - 1].data);
    }
}

proof fn lemma_no_longer_upto(
    ch: Payload,
    use_cm: bool,
    mem: MemBudget,
    p: Seq<Packet>,
    n: nat,
)
    requires
        are_packets(ch, use_cm, mem, p, true),
        n <= p.len(),
    ensures
        payload_bytes(p, n).len() <= loads_len(ch, n),
    decreases n,
{
    if n > 0 {
        lemma_no_longer_upto(ch, use_cm, mem, p, (n - 1) as nat);
        assert(may_pack(load(ch, use_cm, n - 1), mem, p[n - 1], true));
        lemma_packet_len(ch, use_cm, mem, p[n - 1], n - 1);
        assert(load(ch, false, n - 1).data == load(ch, use_cm, n - 1).data);
    }
}

/// No channel grows: the payloads are together no longer than the channels.
pub proof fn lemma_no_longer(ch: Payload, use_cm: bool, mem: MemBudget, p: Seq<Packet>)
    requires
        are_packets(ch, use_cm, mem, p, true),
    ensures
        payload_bytes(p, p.len()).len() <= held_len(ch),
{
    lemma_no_longer_upto(ch, use_cm, mem, p, p.len());
    lemma_loads_len(ch, ch.blobs.len());
}

/// The jobs that run at once have together no more than the budget.
pub proof fn lemma_budget_kept(budget: u64, ch: Payload)
    ensures
        concurrent_of(usable_of(budget, held_len(ch)), ch.blobs.len() as int + 4) * per_job_of(
            budget,
            ch,
        ) <= budget,
{
    lemma_held(ch);
    let usable = usable_of(budget, held_len(ch));
    let n = concurrent_of(usable, ch.blobs.len() as int + 4);
    assert(n * (usable / n) <= usable) by (nonlinear_arith)
        requires
            n >= 1,
            usable >= 0,
    ;
}

} // verus!
