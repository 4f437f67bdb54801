//! Taking an archive apart: extracting and checking.

use crate::archive::content::{entry_content, item_asks, item_content, items_ask};
use crate::archive::open::{open_starved, opened, read_archive, toc_place, Archive, Opened};
use crate::archive::toc::{Entry, Item};
use crate::channels::{Cursors, Payload, Places};
use crate::error::{out_of_memory, Error};
use vstd::prelude::*;
use vstd::utf8::encode_utf8;

verus! {

/// Whether a part of the path that starts at `i` is "..".
pub open spec fn climbs_at(b: Seq<u8>, i: int) -> bool {
    &&& i == 0 || b[i - 1] == 0x2f
    &&& i + 2 <= b.len()
    &&& b[i] == 0x2e
    &&& b[i + 1] == 0x2e
    &&& i + 2 == b.len() || b[i + 2] == 0x2f
}

/// Whether a path stays below the directory that it is put in: it does not
/// start with a slash, and no part of it is "..".
pub open spec fn stays_below(b: Seq<u8>) -> bool {
    &&& b.len() == 0 || b[0] != 0x2f
    &&& forall|i: int| 0 <= i < b.len() ==> !#[trigger] climbs_at(b, i)
}

fn climbs(b: &[u8], i: usize) -> (r: bool)
    requires
        i < b@.len(),
    ensures
        r == climbs_at(b@, i as int),
{
    let n: usize = b.len();
    if i > 0 && b[i - 1] != 0x2f {
        return false;
    }
    if n - i < 2 || b[i] != 0x2e || b[i + 1] != 0x2e {
        return false;
    }
    n - i == 2 || b[i + 2] == 0x2f
}

/// Whether a path of an archive may be written to.
pub fn is_safe(path: &String) -> (r: bool)
    ensures
        r == stays_below(encode_utf8(path@)),
{
    let b: &[u8] = path.as_str().as_bytes();
    let n: usize = b.len();
    if n > 0 && b[0] == 0x2f {
        return false;
    }
    let mut i: usize = 0;
    while i < n
        invariant
            i <= n,
            n == b@.len(),
            b@ == encode_utf8(path@),
            forall|k: int| 0 <= k < i ==> !#[trigger] climbs_at(b@, k),
        decreases n - i,
    {
        if climbs(b, i) {
            assert(climbs_at(b@, i as int));
            return false;
        }
        i += 1;
    }
    true
}

/// What an entry becomes on disk.
#[derive(Debug, PartialEq, Eq)]
pub enum Output {
    Dir,
    File(Vec<u8>),
}

pub enum Product {
    Dir,
    File(Seq<u8>),
}

impl View for Output {
    type V = Product;

    open spec fn view(&self) -> Product {
        match self {
            Output::Dir => Product::Dir,
            Output::File(v) => Product::File(v@),
        }
    }
}

/// What an entry becomes, where `exists_already` says whether its file is
/// there. A file is rendered and checked before it is refused for that.
pub open spec fn product_of(e: Item, ch: Payload, c: Places, exists_already: bool, overwrite: bool) -> Result<
    (Product, Places),
    Error,
> {
    if !stays_below(encode_utf8(e.path)) {
        Err(Error::UnsafePath)
    } else if e.is_dir {
        Ok((Product::Dir, c))
    } else {
        match item_content(e, ch, c) {
            Err(x) => Err(x),
            Ok((s, c1)) => if exists_already && !overwrite {
                Err(Error::FileExists)
            } else {
                Ok((Product::File(s), c1))
            },
        }
    }
}

/// Makes of the next entry what goes to disk.
pub fn extract_entry(e: &Entry, cur: &mut Cursors, exists_already: bool, overwrite: bool) -> (r:
    Result<Output, Error>)
    ensures
        *final(cur).ch == *old(cur).ch,
        match r {
            Ok(o) => product_of(e@, old(cur).ch@, old(cur)@, exists_already, overwrite) == Ok::<
                (Product, Places),
                Error,
            >((o@, final(cur)@)),
            Err(x) => item_asks(e@) && out_of_memory(x) || product_of(
                e@,
                old(cur).ch@,
                old(cur)@,
                exists_already,
                overwrite,
            ) == Err::<(Product, Places), Error>(x),
        },
        !stays_below(encode_utf8(e.path@)) ==> r == Err::<Output, Error>(Error::UnsafePath),
        stays_below(encode_utf8(e.path@)) && e.is_dir ==> r is Ok,
{
    if !is_safe(&e.path) {
        return Err(Error::UnsafePath);
    }
    if e.is_dir {
        return Ok(Output::Dir);
    }
    match entry_content(e, cur) {
        Err(x) => Err(x),
        Ok(v) => if exists_already && !overwrite {
            Err(Error::FileExists)
        } else {
            Ok(Output::File(v))
        },
    }
}

/// What the first `n` entries become, in a place where nothing is yet.
pub open spec fn products(v: Seq<Item>, n: nat, ch: Payload, c: Places) -> Result<
    (Seq<Product>, Places),
    Error,
>
    decreases n,
{
    if n == 0 {
        Ok((Seq::empty(), c))
    } else {
        match products(v, (n - 1) as nat, ch, c) {
            Err(x) => Err(x),
            Ok((all, c1)) => match product_of(v[n - 1], ch, c1, false, false) {
                Err(x) => Err(x),
                Ok((p, c2)) => Ok((all.push(p), c2)),
            },
        }
    }
}

pub open spec fn extracted(o: Opened) -> Result<Seq<Product>, Error> {
    match products(o.items, o.items.len(), o.ch, Places::start()) {
        Err(x) => Err(x),
        Ok((all, c)) => Ok(all),
    }
}

pub open spec fn outputs_of(v: Seq<Output>) -> Seq<Product> {
    Seq::new(v.len(), |i: int| v[i]@)
}

proof fn lemma_products_err(v: Seq<Item>, i: nat, n: nat, ch: Payload, c: Places)
    requires
        i <= n,
        products(v, i, ch, c) is Err,
    ensures
        products(v, n, ch, c) == products(v, i, ch, c),
    decreases n - i,
{
    if i < n {
        lemma_products_err(v, i, (n - 1) as nat, ch, c);
    }
}

/// Makes of all the entries what goes to disk, or the first error.
pub fn extract(archive: &Archive) -> (r: Result<Vec<Output>, Error>)
    ensures
        match r {
            Ok(v) => extracted(archive@) == Ok::<Seq<Product>, Error>(outputs_of(v@)),
            Err(e) => items_ask(archive@.items) && out_of_memory(e) || extracted(archive@) == Err::<
                Seq<Product>,
                Error,
            >(e),
        },
{
    let ghost o = archive@;
    let mut cur = Cursors::new(&archive.channels);
    let mut out: Vec<Output> = Vec::new();
    let n: usize = archive.entries.len();
    let mut i: usize = 0;
    assert(outputs_of(out@) =~= Seq::<Product>::empty());
    while i < n
        invariant
            i <= n,
            n == archive.entries@.len(),
            o == archive@,
            *cur.ch == archive.channels,
            products(o.items, i as nat, o.ch, Places::start()) == Ok::<
                (Seq<Product>, Places),
                Error,
            >((outputs_of(out@), cur@)),
        decreases n - i,
    {
        assert(o.items[i as int] == archive.entries@[i as int]@);
        let ghost v0 = out@;
        match extract_entry(&archive.entries[i], &mut cur, false, false) {
            Ok(p) => {
                assert(outputs_of(v0.push(p)) =~= outputs_of(v0).push(p@));
                out.push(p);
            },
            Err(e) => {
                proof {
                    if products(o.items, (i + 1) as nat, o.ch, Places::start()) is Err {
                        lemma_products_err(
                            o.items,
                            (i + 1) as nat,
                            n as nat,
                            o.ch,
                            Places::start(),
                        );
                    }
                }
                return Err(e);
            },
        }
        i += 1;
    }
    Ok(out)
}

/// How many files there are, and how much they hold.
#[derive(Debug, Clone, Copy, PartialEq, Eq)]
pub struct Tally {
    pub files: u64,
    pub total: u64,
}

/// One entry more.
pub open spec fn tallied(t: Tally, e: Item) -> Result<Tally, Error> {
    if e.is_dir {
        Ok(t)
    } else if t.total + e.size > u64::MAX {
        Err(Error::SizeOverflow)
    } else {
        Ok(Tally { files: (t.files + 1) as u64, total: (t.total + e.size) as u64 })
    }
}

/// The first `n` entries, each rendered and checked.
pub open spec fn tally(v: Seq<Item>, n: nat, ch: Payload, c: Places) -> Result<
    (Tally, Places),
    Error,
>
    decreases n,
{
    if n == 0 {
        Ok((Tally { files: 0, total: 0 }, c))
    } else {
        match tally(v, (n - 1) as nat, ch, c) {
            Err(x) => Err(x),
            Ok((t, c1)) => match item_content(v[n - 1], ch, c1) {
                Err(x) => Err(x),
                Ok((s, c2)) => match tallied(t, v[n - 1]) {
                    Err(x) => Err(x),
                    Ok(t1) => Ok((t1, c2)),
                },
            },
        }
    }
}

pub open spec fn tested(o: Opened) -> Result<Tally, Error> {
    match tally(o.items, o.items.len(), o.ch, Places::start()) {
        Err(x) => Err(x),
        Ok((t, c)) => Ok(t),
    }
}

proof fn lemma_tally_err(v: Seq<Item>, i: nat, n: nat, ch: Payload, c: Places)
    requires
        i <= n,
        tally(v, i, ch, c) is Err,
    ensures
        tally(v, n, ch, c) == tally(v, i, ch, c),
    decreases n - i,
{
    if i < n {
        lemma_tally_err(v, i, (n - 1) as nat, ch, c);
    }
}

/// Renders every file and checks it.
pub fn test(archive: &Archive) -> (r: Result<Tally, Error>)
    ensures
        match r {
            Ok(t) => tested(archive@) == Ok::<Tally, Error>(t),
            Err(e) => items_ask(archive@.items) && out_of_memory(e) || tested(archive@) == Err::<
                Tally,
                Error,
            >(e),
        },
{
    let ghost o = archive@;
    let mut cur = Cursors::new(&archive.channels);
    let mut t = Tally { files: 0, total: 0 };
    let n: usize = archive.entries.len();
    let mut i: usize = 0;
    while i < n
        invariant
            i <= n,
            n == archive.entries@.len(),
            o == archive@,
            *cur.ch == archive.channels,
            t.files <= i,
            tally(o.items, i as nat, o.ch, Places::start()) == Ok::<(Tally, Places), Error>(
                (t, cur@),
            ),
        decreases n - i,
    {
        assert(o.items[i as int] == archive.entries@[i as int]@);
        let ghost next = tally(o.items, (i + 1) as nat, o.ch, Places::start());
        proof {
            if next is Err {
                lemma_tally_err(o.items, (i + 1) as nat, n as nat, o.ch, Places::start());
            }
        }
        match entry_content(&archive.entries[i], &mut cur) {
            Ok(_) => {},
            Err(e) => return Err(e),
        }
        if !archive.entries[i].is_dir {
            match t.total.checked_add(archive.entries[i].size) {
                Some(total) => {
                    t = Tally { files: t.files + 1, total };
                },
                None => return Err(Error::SizeOverflow),
            }
        }
        i += 1;
    }
    Ok(t)
}

/// What a check of the bytes of an archive comes to.
pub open spec fn verified(data: Seq<u8>) -> Result<Tally, Error> {
    match opened(data) {
        Err(e) => Err(e),
        Ok(o) => tested(o),
    }
}

/// Whether a check of the bytes may fail with this error though they are
/// sound: a codec that is asked may run out of memory.
pub open spec fn check_starved(data: Seq<u8>, e: Error) -> bool {
    ||| open_starved(data, e)
    ||| opened(data) matches Ok(o) && items_ask(o.items) && out_of_memory(e)
}

/// Reads an archive and checks every file in it.
pub fn verify(data: &[u8]) -> (r: Result<Tally, Error>)
    ensures
        match r {
            Ok(t) => verified(data@) == Ok::<Tally, Error>(t),
            Err(e) => check_starved(data@, e) || verified(data@) == Err::<Tally, Error>(e),
        },
        toc_place(data@) matches Err(e) ==> r == Err::<Tally, Error>(e),
{
    match read_archive(data) {
        Ok(a) => test(&a),
        Err(e) => Err(e),
    }
}

} // verus!
