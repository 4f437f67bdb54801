//! Reading a table of contents gives back what was written.

use crate::archive::toc::{
    dir_item, file_at, file_bytes, info_at, info_bytes, infos_at, infos_bytes, item_at, item_bytes,
    items_at, items_bytes, meta_at, meta_bytes, metas_at, metas_bytes, path_bytes, table_bytes,
    table_of, BlobMeta, ChannelInfo, Item, Table, MAX_COUNT,
};
use crate::error::Error;
use crate::plan::law::{
    lemma_first_byte, lemma_number, lemma_segs_roundtrip, lemma_stands, lemma_two, readable_list,
    stands,
};
use crate::plan::limits::{countable_list, lemma_limits};
use crate::plan::write::pieces_bytes;
use crate::util::varint::{varint_at, varint_bytes};
use vstd::bytes::{lemma_auto_spec_u64_to_from_le_bytes, spec_u64_to_le_bytes};
use vstd::prelude::*;
use vstd::utf8::{encode_utf8, encode_utf8_decode_utf8, encode_utf8_valid_utf8};

verus! {

/// Whether a reader takes an entry: a directory has a path alone, and the
/// segments of a file are readable.
pub open spec fn readable_item(e: Item) -> bool {
    &&& encode_utf8(e.path).len() <= u64::MAX
    &&& if e.is_dir {
        e == dir_item(e.path)
    } else {
        readable_list(e.segs)
    }
}

/// Whether a reader takes a table: it is no longer than a reader allows, and
/// there are four channels beside the blobs.
pub open spec fn readable_table(t: Table) -> bool {
    &&& t.items.len() <= MAX_COUNT
    &&& t.metas.len() <= MAX_COUNT
    &&& t.infos.len() == t.metas.len() + 4
    &&& forall|i: int| 0 <= i < t.items.len() ==> readable_item(#[trigger] t.items[i])
}

proof fn lemma_file_read(e: Item, s: Seq<u8>, pos: int)
    requires
        !e.is_dir,
        readable_list(e.segs),
        stands(s, pos, file_bytes(e)),
    ensures
        file_at(s, pos, e.path) == Ok::<(Item, int), Error>((e, pos + file_bytes(e).len())),
{
    let h = spec_u64_to_le_bytes(e.hash);
    let segs = pieces_bytes(e.segs);
    lemma_auto_spec_u64_to_from_le_bytes();
    lemma_number(s, pos, e.size, h + segs);
    let p1 = pos + varint_bytes(e.size as nat).len();
    lemma_two(s, p1, h, segs);
    lemma_segs_roundtrip(e.segs, s, p1 + 8);
}

proof fn lemma_item_read(e: Item, s: Seq<u8>, pos: int)
    requires
        readable_item(e),
        stands(s, pos, item_bytes(e)),
    ensures
        item_at(s, pos) == Ok::<(Item, int), Error>((e, pos + item_bytes(e).len())),
{
    let flag = if e.is_dir {
        1u8
    } else {
        0u8
    };
    let b = encode_utf8(e.path);
    let rest = if e.is_dir {
        Seq::empty()
    } else {
        file_bytes(e)
    };
    encode_utf8_valid_utf8(e.path);
    encode_utf8_decode_utf8(e.path);
    lemma_first_byte(s, pos, flag, path_bytes(e));
    lemma_number(s, pos + 1, b.len() as u64, b + rest);
    let p2 = pos + 1 + varint_bytes(b.len()).len();
    lemma_two(s, p2, b, rest);
    if !e.is_dir {
        lemma_file_read(e, s, p2 + b.len());
    }
}

proof fn lemma_items_read(v: Seq<Item>, n: nat, s: Seq<u8>, pos: int)
    requires
        n <= v.len(),
        forall|i: int| 0 <= i < v.len() ==> readable_item(#[trigger] v[i]),
        stands(s, pos, items_bytes(v, n)),
    ensures
        items_at(s, pos, n) == Ok::<(Seq<Item>, int), Error>(
            (v.take(n as int), pos + items_bytes(v, n).len()),
        ),
    decreases n,
{
    if n == 0 {
        assert(v.take(0) =~= Seq::<Item>::empty());
    } else {
        let a = items_bytes(v, (n - 1) as nat);
        lemma_stands(s, pos, a, item_bytes(v[n - 1]));
        lemma_items_read(v, (n - 1) as nat, s, pos);
        lemma_item_read(v[n - 1], s, pos + a.len());
        assert(v.take(n - 1).push(v[n - 1]) =~= v.take(n as int));
    }
}

proof fn lemma_meta_read(m: BlobMeta, s: Seq<u8>, pos: int)
    requires
        stands(s, pos, meta_bytes(m)),
    ensures
        meta_at(s, pos) == Ok::<(BlobMeta, int), Error>((m, pos + meta_bytes(m).len())),
{
    lemma_number(s, pos, m.stride as u64, varint_bytes(m.bpp as nat) + seq![m.transform]);
    let p1 = pos + varint_bytes(m.stride as nat).len();
    lemma_number(s, p1, m.bpp as u64, seq![m.transform]);
    let p2 = p1 + varint_bytes(m.bpp as nat).len();
    assert(seq![m.transform] =~= seq![m.transform] + Seq::<u8>::empty());
    lemma_first_byte(s, p2, m.transform, Seq::empty());
}

proof fn lemma_metas_read(v: Seq<BlobMeta>, n: nat, s: Seq<u8>, pos: int)
    requires
        n <= v.len(),
        stands(s, pos, metas_bytes(v, n)),
    ensures
        metas_at(s, pos, n) == Ok::<(Seq<BlobMeta>, int), Error>(
            (v.take(n as int), pos + metas_bytes(v, n).len()),
        ),
    decreases n,
{
    if n == 0 {
        assert(v.take(0) =~= Seq::<BlobMeta>::empty());
    } else {
        let a = metas_bytes(v, (n - 1) as nat);
        lemma_stands(s, pos, a, meta_bytes(v[n - 1]));
        lemma_metas_read(v, (n - 1) as nat, s, pos);
        lemma_meta_read(v[n - 1], s, pos + a.len());
        assert(v.take(n - 1).push(v[n - 1]) =~= v.take(n as int));
    }
}

proof fn lemma_info_read(i: ChannelInfo, s: Seq<u8>, pos: int)
    requires
        stands(s, pos, info_bytes(i)),
    ensures
        info_at(s, pos) == Ok::<(ChannelInfo, int), Error>((i, pos + info_bytes(i).len())),
{
    let comp = varint_bytes(i.1 as nat);
    let raw = varint_bytes(i.2 as nat);
    lemma_first_byte(s, pos, i.0, comp + raw);
    lemma_number(s, pos + 1, i.1, raw);
    assert(raw =~= raw + Seq::<u8>::empty());
    lemma_number(s, pos + 1 + comp.len(), i.2, Seq::empty());
}

proof fn lemma_infos_read(v: Seq<ChannelInfo>, n: nat, s: Seq<u8>, pos: int)
    requires
        n <= v.len(),
        stands(s, pos, infos_bytes(v, n)),
    ensures
        infos_at(s, pos, n) == Ok::<(Seq<ChannelInfo>, int), Error>(
            (v.take(n as int), pos + infos_bytes(v, n).len()),
        ),
    decreases n,
{
    if n == 0 {
        assert(v.take(0) =~= Seq::<ChannelInfo>::empty());
    } else {
        let a = infos_bytes(v, (n - 1) as nat);
        lemma_stands(s, pos, a, info_bytes(v[n - 1]));
        lemma_infos_read(v, (n - 1) as nat, s, pos);
        lemma_info_read(v[n - 1], s, pos + a.len());
        assert(v.take(n - 1).push(v[n - 1]) =~= v.take(n as int));
    }
}

/// A table of contents reads back as it was written.
pub proof fn lemma_toc_roundtrip(t: Table)
    requires
        readable_table(t),
    ensures
        table_of(table_bytes(t)) == Ok::<Table, Error>(t),
{
    let s = table_bytes(t);
    let items = items_bytes(t.items, t.items.len());
    let metas = metas_bytes(t.metas, t.metas.len());
    let infos = infos_bytes(t.infos, t.infos.len());
    let rest = varint_bytes(t.metas.len()) + (metas + infos);
    assert(s.subrange(0, s.len() as int) =~= s);
    lemma_number(s, 0, t.items.len() as u64, items + rest);
    let p1 = varint_bytes(t.items.len()).len() as int;
    lemma_stands(s, p1, items, rest);
    lemma_items_read(t.items, t.items.len(), s, p1);
    let p2 = p1 + items.len();
    lemma_number(s, p2, t.metas.len() as u64, metas + infos);
    let p3 = p2 + varint_bytes(t.metas.len()).len();
    lemma_stands(s, p3, metas, infos);
    lemma_metas_read(t.metas, t.metas.len(), s, p3);
    lemma_infos_read(t.infos, t.infos.len(), s, p3 + metas.len());
    assert(t.items.take(t.items.len() as int) =~= t.items);
    assert(t.metas.take(t.metas.len() as int) =~= t.metas);
    assert(t.infos.take(t.infos.len() as int) =~= t.infos);
}

proof fn lemma_metas_len(s: Seq<u8>, pos: int, n: nat)
    ensures
        metas_at(s, pos, n) matches Ok((v, p)) ==> v.len() == n,
    decreases n,
{
    if n > 0 {
        lemma_metas_len(s, pos, (n - 1) as nat);
    }
}

proof fn lemma_infos_len(s: Seq<u8>, pos: int, n: nat)
    ensures
        infos_at(s, pos, n) matches Ok((v, p)) ==> v.len() == n,
    decreases n,
{
    if n > 0 {
        lemma_infos_len(s, pos, (n - 1) as nat);
    }
}

/// A table that was read has four channels beside the blobs.
pub proof fn lemma_table_shape(s: Seq<u8>)
    ensures
        table_of(s) matches Ok(t) ==> t.infos.len() == t.metas.len() + 4,
{
    if let Ok((n, p1)) = varint_at(s, 0) {
        if let Ok((items, p2)) = items_at(s, p1, n as nat) {
            if let Ok((m, p3)) = varint_at(s, p2) {
                lemma_metas_len(s, p3, m as nat);
                if let Ok((metas, p4)) = metas_at(s, p3, m as nat) {
                    lemma_infos_len(s, p4, m as nat + 4);
                }
            }
        }
    }
}

/// Whether the lengths of an entry are numbers that can be written. Every
/// entry of the machine is so.
pub open spec fn countable_item(e: Item) -> bool {
    &&& encode_utf8(e.path).len() <= u64::MAX
    &&& if e.is_dir {
        e == dir_item(e.path)
    } else {
        countable_list(e.segs)
    }
}

pub open spec fn countable_table(t: Table) -> bool {
    &&& t.items.len() <= u64::MAX
    &&& t.metas.len() <= u64::MAX
    &&& t.infos.len() == t.metas.len() + 4
    &&& forall|i: int| 0 <= i < t.items.len() ==> countable_item(#[trigger] t.items[i])
}

proof fn lemma_item_limits(e: Item, s: Seq<u8>, pos: int)
    requires
        countable_item(e),
        stands(s, pos, item_bytes(e)),
        item_at(s, pos) is Ok,
    ensures
        readable_item(e),
{
    if !e.is_dir {
        let b = encode_utf8(e.path);
        let h = spec_u64_to_le_bytes(e.hash);
        let segs = pieces_bytes(e.segs);
        encode_utf8_valid_utf8(e.path);
        lemma_auto_spec_u64_to_from_le_bytes();
        lemma_first_byte(s, pos, 0, path_bytes(e));
        lemma_number(s, pos + 1, b.len() as u64, b + file_bytes(e));
        let p2 = pos + 1 + varint_bytes(b.len()).len();
        lemma_two(s, p2, b, file_bytes(e));
        let p3 = p2 + b.len();
        lemma_number(s, p3, e.size, h + segs);
        let p4 = p3 + varint_bytes(e.size as nat).len();
        lemma_two(s, p4, h, segs);
        lemma_limits(e.segs, s, p4 + 8);
    }
}

proof fn lemma_items_limits(v: Seq<Item>, n: nat, s: Seq<u8>, pos: int)
    requires
        n <= v.len(),
        forall|i: int| 0 <= i < v.len() ==> countable_item(#[trigger] v[i]),
        stands(s, pos, items_bytes(v, n)),
        items_at(s, pos, n) is Ok,
    ensures
        forall|i: int| 0 <= i < n ==> readable_item(#[trigger] v[i]),
    decreases n,
{
    if n > 0 {
        let a = items_bytes(v, (n - 1) as nat);
        lemma_stands(s, pos, a, item_bytes(v[n - 1]));
        lemma_items_limits(v, (n - 1) as nat, s, pos);
        let w = v.take(n - 1);
        assert forall|i: int| 0 <= i < w.len() implies readable_item(#[trigger] w[i]) by {
            assert(w[i] == v[i]);
        }
        lemma_items_prefix(v, w, (n - 1) as nat);
        lemma_items_read(w, (n - 1) as nat, s, pos);
        lemma_item_limits(v[n - 1], s, pos + a.len());
    }
}

proof fn lemma_items_prefix(v: Seq<Item>, w: Seq<Item>, n: nat)
    requires
        n <= v.len(),
        n <= w.len(),
        forall|i: int| 0 <= i < n ==> #[trigger] w[i] == v[i],
    ensures
        items_bytes(w, n) == items_bytes(v, n),
    decreases n,
{
    if n > 0 {
        lemma_items_prefix(v, w, (n - 1) as nat);
        assert(w[n - 1] == v[n - 1]);
    }
}

/// A table that a reader takes at all is within its limits, and so reads back
/// as it was written.
pub proof fn lemma_toc_limits(t: Table)
    requires
        countable_table(t),
        table_of(table_bytes(t)) is Ok,
    ensures
        readable_table(t),
{
    let s = table_bytes(t);
    let items = items_bytes(t.items, t.items.len());
    let metas = metas_bytes(t.metas, t.metas.len());
    let infos = infos_bytes(t.infos, t.infos.len());
    let rest = varint_bytes(t.metas.len()) + (metas + infos);
    assert(s.subrange(0, s.len() as int) =~= s);
    lemma_number(s, 0, t.items.len() as u64, items + rest);
    let p1 = varint_bytes(t.items.len()).len() as int;
    lemma_stands(s, p1, items, rest);
    lemma_items_limits(t.items, t.items.len(), s, p1);
    lemma_items_read(t.items, t.items.len(), s, p1);
    lemma_number(s, p1 + items.len(), t.metas.len() as u64, metas + infos);
}

} // verus!
