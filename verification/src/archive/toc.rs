//! The table of contents: the entries, what is to know of the blobs, and how
//! each channel was compressed.

use crate::error::Error;
use crate::outside::text_of;
use crate::plan::read::{lemma_pieces_end, pieces_at};
use crate::plan::write::pieces_bytes;
use crate::plan::{pieces, read_segs, write_segs, Piece, Seg};
use crate::util::reader::{byte_at, bytes_at};
use crate::util::varint::{lemma_varint_end, varint_at, varint_bytes};
use crate::util::{write_varint, Reader};
use vstd::bytes::{
    spec_u64_from_le_bytes, spec_u64_to_le_bytes, u64_from_le_bytes, u64_to_le_bytes,
};
use vstd::prelude::*;
use vstd::utf8::{decode_utf8, encode_utf8, valid_utf8};

verus! {

/// A file or a directory.
#[derive(Debug)]
pub struct Entry {
    pub path: String,
    pub is_dir: bool,
    pub size: u64,
    pub hash: u64,
    pub segs: Vec<Seg>,
}

pub struct Item {
    pub path: Seq<char>,
    pub is_dir: bool,
    pub size: u64,
    pub hash: u64,
    pub segs: Seq<Piece>,
}

impl View for Entry {
    type V = Item;

    open spec fn view(&self) -> Item {
        Item {
            path: self.path@,
            is_dir: self.is_dir,
            size: self.size,
            hash: self.hash,
            segs: pieces(self.segs@),
        }
    }
}

pub open spec fn items_of(v: Seq<Entry>) -> Seq<Item> {
    Seq::new(v.len(), |i: int| v[i]@)
}

/// What is to know of a blob beside its bytes.
#[derive(Debug, Clone, Copy, PartialEq, Eq)]
pub struct BlobMeta {
    pub stride: u32,
    pub bpp: u32,
    pub transform: u8,
}

/// How a channel was compressed: the backend, the length of the payload and
/// that of the channel.
pub type ChannelInfo = (u8, u64, u64);

#[derive(Debug)]
pub struct Toc {
    pub entries: Vec<Entry>,
    pub metas: Vec<BlobMeta>,
    pub infos: Vec<ChannelInfo>,
}

#[verifier::ext_equal]
pub struct Table {
    pub items: Seq<Item>,
    pub metas: Seq<BlobMeta>,
    pub infos: Seq<ChannelInfo>,
}

impl View for Toc {
    type V = Table;

    open spec fn view(&self) -> Table {
        Table { items: items_of(self.entries@), metas: self.metas@, infos: self.infos@ }
    }
}

/// The most entries, and the most blobs, of an archive.
pub const MAX_COUNT: u64 = 0x100_0000;

pub open spec fn file_bytes(e: Item) -> Seq<u8> {
    varint_bytes(e.size as nat) + (spec_u64_to_le_bytes(e.hash) + pieces_bytes(e.segs))
}

pub open spec fn path_bytes(e: Item) -> Seq<u8> {
    let p = encode_utf8(e.path);
    varint_bytes(p.len()) + (p + if e.is_dir {
        Seq::empty()
    } else {
        file_bytes(e)
    })
}

/// An entry: a flag for directories, the path, and of a file the size, the
/// hash and the segments.
pub open spec fn item_bytes(e: Item) -> Seq<u8> {
    seq![
        if e.is_dir {
            1u8
        } else {
            0u8
        },
    ] + path_bytes(e)
}

pub open spec fn items_bytes(v: Seq<Item>, n: nat) -> Seq<u8>
    decreases n,
{
    if n == 0 {
        Seq::empty()
    } else {
        items_bytes(v, (n - 1) as nat) + item_bytes(v[n - 1])
    }
}

pub open spec fn meta_bytes(m: BlobMeta) -> Seq<u8> {
    varint_bytes(m.stride as nat) + (varint_bytes(m.bpp as nat) + seq![m.transform])
}

pub open spec fn metas_bytes(v: Seq<BlobMeta>, n: nat) -> Seq<u8>
    decreases n,
{
    if n == 0 {
        Seq::empty()
    } else {
        metas_bytes(v, (n - 1) as nat) + meta_bytes(v[n - 1])
    }
}

pub open spec fn info_bytes(i: ChannelInfo) -> Seq<u8> {
    seq![i.0] + (varint_bytes(i.1 as nat) + varint_bytes(i.2 as nat))
}

pub open spec fn infos_bytes(v: Seq<ChannelInfo>, n: nat) -> Seq<u8>
    decreases n,
{
    if n == 0 {
        Seq::empty()
    } else {
        infos_bytes(v, (n - 1) as nat) + info_bytes(v[n - 1])
    }
}

pub open spec fn table_bytes(t: Table) -> Seq<u8> {
    varint_bytes(t.items.len()) + (items_bytes(t.items, t.items.len()) + (varint_bytes(
        t.metas.len(),
    ) + (metas_bytes(t.metas, t.metas.len()) + infos_bytes(t.infos, t.infos.len()))))
}

/// What of a file follows its path.
pub open spec fn file_at(s: Seq<u8>, pos: int, path: Seq<char>) -> Result<(Item, int), Error> {
    match varint_at(s, pos) {
        Err(e) => Err(e),
        Ok((size, p1)) => match bytes_at(s, p1, 8) {
            Err(e) => Err(e),
            Ok((h, p2)) => match pieces_at(s, p2) {
                Err(e) => Err(e),
                Ok((segs, p3)) => Ok(
                    (Item { path, is_dir: false, size, hash: spec_u64_from_le_bytes(h), segs }, p3),
                ),
            },
        },
    }
}

/// A directory has a path and nothing else.
pub open spec fn dir_item(path: Seq<char>) -> Item {
    Item { path, is_dir: true, size: 0, hash: 0, segs: Seq::empty() }
}

pub open spec fn item_at(s: Seq<u8>, pos: int) -> Result<(Item, int), Error> {
    match byte_at(s, pos) {
        Err(e) => Err(e),
        Ok((flags, p1)) => match varint_at(s, p1) {
            Err(e) => Err(e),
            Ok((n, p2)) => match bytes_at(s, p2, n as int) {
                Err(e) => Err(e),
                Ok((b, p3)) => if !valid_utf8(b) {
                    Err(Error::BadPathEncoding)
                } else if flags % 2 == 1 {
                    Ok((dir_item(decode_utf8(b)), p3))
                } else {
                    file_at(s, p3, decode_utf8(b))
                },
            },
        },
    }
}

pub open spec fn items_at(s: Seq<u8>, pos: int, n: nat) -> Result<(Seq<Item>, int), Error>
    decreases n,
{
    if n == 0 {
        Ok((Seq::empty(), pos))
    } else {
        match items_at(s, pos, (n - 1) as nat) {
            Err(e) => Err(e),
            Ok((v, p)) => match item_at(s, p) {
                Err(e) => Err(e),
                Ok((x, q)) => Ok((v.push(x), q)),
            },
        }
    }
}

pub open spec fn meta_at(s: Seq<u8>, pos: int) -> Result<(BlobMeta, int), Error> {
    match varint_at(s, pos) {
        Err(e) => Err(e),
        Ok((stride, p1)) => match varint_at(s, p1) {
            Err(e) => Err(e),
            Ok((bpp, p2)) => match byte_at(s, p2) {
                Err(e) => Err(e),
                Ok((transform, p3)) => Ok(
                    (BlobMeta { stride: stride as u32, bpp: bpp as u32, transform }, p3),
                ),
            },
        },
    }
}

pub open spec fn metas_at(s: Seq<u8>, pos: int, n: nat) -> Result<(Seq<BlobMeta>, int), Error>
    decreases n,
{
    if n == 0 {
        Ok((Seq::empty(), pos))
    } else {
        match metas_at(s, pos, (n - 1) as nat) {
            Err(e) => Err(e),
            Ok((v, p)) => match meta_at(s, p) {
                Err(e) => Err(e),
                Ok((x, q)) => Ok((v.push(x), q)),
            },
        }
    }
}

pub open spec fn info_at(s: Seq<u8>, pos: int) -> Result<(ChannelInfo, int), Error> {
    match byte_at(s, pos) {
        Err(e) => Err(e),
        Ok((backend, p1)) => match varint_at(s, p1) {
            Err(e) => Err(e),
            Ok((comp, p2)) => match varint_at(s, p2) {
                Err(e) => Err(e),
                Ok((raw, p3)) => Ok(((backend, comp, raw), p3)),
            },
        },
    }
}

pub open spec fn infos_at(s: Seq<u8>, pos: int, n: nat) -> Result<(Seq<ChannelInfo>, int), Error>
    decreases n,
{
    if n == 0 {
        Ok((Seq::empty(), pos))
    } else {
        match infos_at(s, pos, (n - 1) as nat) {
            Err(e) => Err(e),
            Ok((v, p)) => match info_at(s, p) {
                Err(e) => Err(e),
                Ok((x, q)) => Ok((v.push(x), q)),
            },
        }
    }
}

/// What follows the entries: there are four channels beside the blobs.
pub open spec fn rest_at(s: Seq<u8>, pos: int, items: Seq<Item>) -> Result<Table, Error> {
    match varint_at(s, pos) {
        Err(e) => Err(e),
        Ok((n, p1)) => if n > MAX_COUNT {
            Err(Error::ImplausibleBlobs)
        } else {
            match metas_at(s, p1, n as nat) {
                Err(e) => Err(e),
                Ok((metas, p2)) => match infos_at(s, p2, n as nat + 4) {
                    Err(e) => Err(e),
                    Ok((infos, p3)) => Ok(Table { items, metas, infos }),
                },
            }
        },
    }
}

/// The table that bytes hold; what follows it does not matter.
pub open spec fn table_of(s: Seq<u8>) -> Result<Table, Error> {
    match varint_at(s, 0) {
        Err(e) => Err(e),
        Ok((n, p1)) => if n > MAX_COUNT {
            Err(Error::ImplausibleEntries)
        } else {
            match items_at(s, p1, n as nat) {
                Err(e) => Err(e),
                Ok((items, p2)) => rest_at(s, p2, items),
            }
        },
    }
}

fn write_path(out: &mut Vec<u8>, path: &String)
    ensures
        final(out)@ == old(out)@ + varint_bytes(encode_utf8(path@).len()) + encode_utf8(path@),
        encode_utf8(path@).len() <= usize::MAX,
{
    let b: &[u8] = path.as_str().as_bytes();
    let n: usize = b.len();
    assert(n == encode_utf8(path@).len());
    write_varint(out, n as u64);
    let ghost before = out@;
    out.extend_from_slice(b);
    assert(out@ =~= before + b@);
}

fn write_entry(out: &mut Vec<u8>, e: &Entry)
    ensures
        final(out)@ == old(out)@ + item_bytes(e@),
        encode_utf8(e@.path).len() <= usize::MAX,
{
    let ghost start = out@;
    out.push(
        if e.is_dir {
            1u8
        } else {
            0u8
        },
    );
    write_path(out, &e.path);
    let ghost p = encode_utf8(e.path@);
    if !e.is_dir {
        write_varint(out, e.size);
        let h: Vec<u8> = u64_to_le_bytes(e.hash);
        let ghost before = out@;
        out.extend_from_slice(h.as_slice());
        assert(out@ =~= before + h@);
        write_segs(out, e.segs.as_slice());
    }
    assert(out@ =~= start + item_bytes(e@));
}

/// Writes the table of contents.
pub fn write_toc(toc: &Toc) -> (out: Vec<u8>)
    ensures
        out@ == table_bytes(toc@),
        forall|i: int|
            0 <= i < toc@.items.len() ==> encode_utf8((#[trigger] toc@.items[i]).path).len()
                <= usize::MAX,
{
    let mut out: Vec<u8> = Vec::new();
    let n: usize = toc.entries.len();
    write_varint(&mut out, n as u64);
    let ghost mut start = out@;
    let ghost t = toc@;
    let mut i: usize = 0;
    while i < n
        invariant
            i <= n,
            n == toc.entries@.len(),
            t == toc@,
            out@ == start + items_bytes(t.items, i as nat),
            forall|k: int|
                0 <= k < i ==> encode_utf8((#[trigger] t.items[k]).path).len() <= usize::MAX,
        decreases n - i,
    {
        write_entry(&mut out, &toc.entries[i]);
        i += 1;
        assert(out@ =~= start + items_bytes(t.items, i as nat));
    }
    let m: usize = toc.metas.len();
    write_varint(&mut out, m as u64);
    proof {
        start = out@;
    }
    let mut i: usize = 0;
    while i < m
        invariant
            i <= m,
            m == toc.metas@.len(),
            t == toc@,
            out@ == start + metas_bytes(t.metas, i as nat),
        decreases m - i,
    {
        write_varint(&mut out, toc.metas[i].stride as u64);
        write_varint(&mut out, toc.metas[i].bpp as u64);
        out.push(toc.metas[i].transform);
        i += 1;
        assert(out@ =~= start + metas_bytes(t.metas, i as nat));
    }
    let k: usize = toc.infos.len();
    proof {
        start = out@;
    }
    let mut i: usize = 0;
    while i < k
        invariant
            i <= k,
            k == toc.infos@.len(),
            t == toc@,
            out@ == start + infos_bytes(t.infos, i as nat),
        decreases k - i,
    {
        out.push(toc.infos[i].0);
        write_varint(&mut out, toc.infos[i].1);
        write_varint(&mut out, toc.infos[i].2);
        i += 1;
        assert(out@ =~= start + infos_bytes(t.infos, i as nat));
    }
    assert(out@ =~= table_bytes(t));
    out
}

proof fn lemma_item_end(s: Seq<u8>, pos: int)
    requires
        0 <= pos,
    ensures
        item_at(s, pos) matches Ok((x, p)) ==> pos < p <= s.len(),
{
    lemma_varint_end(s, pos + 1);
    if let Ok((n, p2)) = varint_at(s, pos + 1) {
        if let Ok((b, p3)) = bytes_at(s, p2, n as int) {
            lemma_varint_end(s, p3);
            if let Ok((size, p4)) = varint_at(s, p3) {
                if p4 + 8 <= s.len() {
                    lemma_pieces_end(s, p4 + 8);
                }
            }
        }
    }
}

/// Reads what of a file follows its path.
fn read_file(r: &mut Reader, path: String) -> (res: Result<Entry, Error>)
    requires
        old(r).pos <= old(r).data@.len(),
    ensures
        final(r).data@ == old(r).data@,
        match file_at(old(r).data@, old(r).pos as int, path@) {
            Ok((x, p)) => res matches Ok(e) && e@ == x && final(r).pos == p,
            Err(e) => res matches Err(x) && x == e,
        },
{
    let size: u64 = match r.varint() {
        Ok(v) => v,
        Err(e) => return Err(e),
    };
    let hash: u64 = match r.bytes(8) {
        Ok(b) => u64_from_le_bytes(b),
        Err(e) => return Err(e),
    };
    match read_segs(r) {
        Ok(segs) => Ok(Entry { path, is_dir: false, size, hash, segs }),
        Err(e) => Err(e),
    }
}

fn read_entry(r: &mut Reader) -> (res: Result<Entry, Error>)
    requires
        old(r).pos <= old(r).data@.len(),
    ensures
        final(r).data@ == old(r).data@,
        match item_at(old(r).data@, old(r).pos as int) {
            Ok((x, p)) => res matches Ok(e) && e@ == x && final(r).pos == p,
            Err(e) => res matches Err(x) && x == e,
        },
{
    let flags: u8 = match r.byte() {
        Ok(b) => b,
        Err(e) => return Err(e),
    };
    let n: u64 = match r.varint() {
        Ok(v) => v,
        Err(e) => return Err(e),
    };
    let b: Vec<u8> = match r.bytes_long(n) {
        Ok(b) => vstd::slice::slice_to_vec(b),
        Err(e) => return Err(e),
    };
    let path: String = match text_of(b) {
        Some(s) => s,
        None => return Err(Error::BadPathEncoding),
    };
    if flags % 2 == 1 {
        let e = Entry { path, is_dir: true, size: 0, hash: 0, segs: Vec::new() };
        assert(e@.segs =~= Seq::<Piece>::empty());
        return Ok(e);
    }
    read_file(r, path)
}

fn read_meta(r: &mut Reader) -> (res: Result<BlobMeta, Error>)
    ensures
        final(r).data@ == old(r).data@,
        match meta_at(old(r).data@, old(r).pos as int) {
            Ok((x, p)) => res matches Ok(m) && m == x && final(r).pos == p,
            Err(e) => res matches Err(x) && x == e,
        },
{
    let stride: u32 = match r.varint() {
        Ok(v) => v as u32,
        Err(e) => return Err(e),
    };
    let bpp: u32 = match r.varint() {
        Ok(v) => v as u32,
        Err(e) => return Err(e),
    };
    match r.byte() {
        Ok(transform) => Ok(BlobMeta { stride, bpp, transform }),
        Err(e) => Err(e),
    }
}

fn read_info(r: &mut Reader) -> (res: Result<ChannelInfo, Error>)
    ensures
        final(r).data@ == old(r).data@,
        match info_at(old(r).data@, old(r).pos as int) {
            Ok((x, p)) => res matches Ok(i) && i == x && final(r).pos == p,
            Err(e) => res matches Err(x) && x == e,
        },
{
    let backend: u8 = match r.byte() {
        Ok(b) => b,
        Err(e) => return Err(e),
    };
    let comp: u64 = match r.varint() {
        Ok(v) => v,
        Err(e) => return Err(e),
    };
    match r.varint() {
        Ok(raw) => Ok((backend, comp, raw)),
        Err(e) => Err(e),
    }
}

/// A run of items that ends in an error stays an error, however long it is.
proof fn lemma_items_err(s: Seq<u8>, pos: int, i: nat, n: nat)
    requires
        i <= n,
        items_at(s, pos, i) is Err,
    ensures
        items_at(s, pos, n) == items_at(s, pos, i),
    decreases n - i,
{
    if i < n {
        lemma_items_err(s, pos, i, (n - 1) as nat);
    }
}

proof fn lemma_metas_err(s: Seq<u8>, pos: int, i: nat, n: nat)
    requires
        i <= n,
        metas_at(s, pos, i) is Err,
    ensures
        metas_at(s, pos, n) == metas_at(s, pos, i),
    decreases n - i,
{
    if i < n {
        lemma_metas_err(s, pos, i, (n - 1) as nat);
    }
}

proof fn lemma_infos_err(s: Seq<u8>, pos: int, i: nat, n: nat)
    requires
        i <= n,
        infos_at(s, pos, i) is Err,
    ensures
        infos_at(s, pos, n) == infos_at(s, pos, i),
    decreases n - i,
{
    if i < n {
        lemma_infos_err(s, pos, i, (n - 1) as nat);
    }
}

fn read_entries(r: &mut Reader, n: u64) -> (res: Result<Vec<Entry>, Error>)
    requires
        old(r).pos <= old(r).data@.len(),
    ensures
        final(r).data@ == old(r).data@,
        match items_at(old(r).data@, old(r).pos as int, n as nat) {
            Ok((x, p)) => res matches Ok(v) && items_of(v@) == x && final(r).pos == p && p
                <= old(r).data@.len(),
            Err(e) => res matches Err(x) && x == e,
        },
{
    let ghost s = r.data@;
    let ghost pos = r.pos as int;
    let mut v: Vec<Entry> = Vec::new();
    let mut i: u64 = 0;
    assert(items_of(v@) =~= Seq::<Item>::empty());
    while i < n
        invariant
            i <= n,
            s == old(r).data@,
            pos == old(r).pos,
            r.data@ == s,
            r.pos <= s.len(),
            items_at(s, pos, i as nat) == Ok::<(Seq<Item>, int), Error>(
                (items_of(v@), r.pos as int),
            ),
        decreases n - i,
    {
        let ghost v0 = v@;
        proof {
            lemma_item_end(s, r.pos as int);
        }
        match read_entry(r) {
            Ok(e) => {
                assert(items_of(v0.push(e)) =~= items_of(v0).push(e@));
                v.push(e);
            },
            Err(e) => {
                proof {
                    lemma_items_err(s, pos, (i + 1) as nat, n as nat);
                }
                return Err(e);
            },
        }
        i += 1;
    }
    Ok(v)
}

fn read_metas(r: &mut Reader, n: u64) -> (res: Result<Vec<BlobMeta>, Error>)
    ensures
        final(r).data@ == old(r).data@,
        match metas_at(old(r).data@, old(r).pos as int, n as nat) {
            Ok((x, p)) => res matches Ok(v) && v@ == x && final(r).pos == p,
            Err(e) => res matches Err(x) && x == e,
        },
{
    let ghost s = r.data@;
    let ghost pos = r.pos as int;
    let mut v: Vec<BlobMeta> = Vec::new();
    let mut i: u64 = 0;
    while i < n
        invariant
            i <= n,
            s == old(r).data@,
            pos == old(r).pos,
            r.data@ == s,
            metas_at(s, pos, i as nat) == Ok::<(Seq<BlobMeta>, int), Error>((v@, r.pos as int)),
        decreases n - i,
    {
        match read_meta(r) {
            Ok(m) => v.push(m),
            Err(e) => {
                proof {
                    lemma_metas_err(s, pos, (i + 1) as nat, n as nat);
                }
                return Err(e);
            },
        }
        i += 1;
    }
    Ok(v)
}

fn read_infos(r: &mut Reader, n: u64) -> (res: Result<Vec<ChannelInfo>, Error>)
    ensures
        final(r).data@ == old(r).data@,
        match infos_at(old(r).data@, old(r).pos as int, n as nat) {
            Ok((x, p)) => res matches Ok(v) && v@ == x && final(r).pos == p,
            Err(e) => res matches Err(x) && x == e,
        },
{
    let ghost s = r.data@;
    let ghost pos = r.pos as int;
    let mut v: Vec<ChannelInfo> = Vec::new();
    let mut i: u64 = 0;
    while i < n
        invariant
            i <= n,
            s == old(r).data@,
            pos == old(r).pos,
            r.data@ == s,
            infos_at(s, pos, i as nat) == Ok::<(Seq<ChannelInfo>, int), Error>((v@, r.pos as int)),
        decreases n - i,
    {
        match read_info(r) {
            Ok(m) => v.push(m),
            Err(e) => {
                proof {
                    lemma_infos_err(s, pos, (i + 1) as nat, n as nat);
                }
                return Err(e);
            },
        }
        i += 1;
    }
    Ok(v)
}

/// Reads a table of contents.
pub fn read_toc(data: &[u8]) -> (res: Result<Toc, Error>)
    ensures
        match table_of(data@) {
            Ok(t) => res matches Ok(x) && x@ == t,
            Err(e) => res matches Err(x) && x == e,
        },
{
    let mut r = Reader::new(data);
    proof {
        lemma_varint_end(data@, 0);
    }
    let n: u64 = match r.varint() {
        Ok(v) => v,
        Err(e) => return Err(e),
    };
    if n > MAX_COUNT {
        return Err(Error::ImplausibleEntries);
    }
    let entries: Vec<Entry> = match read_entries(&mut r, n) {
        Ok(v) => v,
        Err(e) => return Err(e),
    };
    let m: u64 = match r.varint() {
        Ok(v) => v,
        Err(e) => return Err(e),
    };
    if m > MAX_COUNT {
        return Err(Error::ImplausibleBlobs);
    }
    let metas: Vec<BlobMeta> = match read_metas(&mut r, m) {
        Ok(v) => v,
        Err(e) => return Err(e),
    };
    match read_infos(&mut r, m + 4) {
        Ok(infos) => Ok(Toc { entries, metas, infos }),
        Err(e) => Err(e),
    }
}

} // verus!
