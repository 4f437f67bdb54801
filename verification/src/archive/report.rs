//! What is said of an archive.

use crate::archive::open::Archive;
use crate::archive::output::{tallied, Tally};
use crate::archive::toc::{items_of, ChannelInfo, Entry, Item};
use crate::backends::{name, name_of};
use crate::error::Error;
use crate::util::text::{
    decimal, decimal_of, human, human_of, left_of, push_left, push_right, right_of,
};
use vstd::prelude::*;
use vstd::string::StringExecFns;

verus! {

/// The line of an entry: its size, or that it is a directory, and its path.
pub open spec fn item_line(e: Item) -> Seq<char> {
    if e.is_dir {
        right_of("dir"@, 12) + "  "@ + e.path + "/"@
    } else {
        right_of(human_of(e.size), 12) + "  "@ + e.path
    }
}

pub fn entry_line(e: &Entry) -> (r: String)
    ensures
        r@ == item_line(e@),
{
    let mut r: String = String::new();
    if e.is_dir {
        push_right(&mut r, "dir", 12);
    } else {
        push_right(&mut r, human(e.size).as_str(), 12);
    }
    r.append("  ");
    r.append(e.path.as_str());
    if e.is_dir {
        r.append("/");
    }
    assert(r@ =~= item_line(e@));
    r
}

pub open spec fn texts_of(v: Seq<String>) -> Seq<Seq<char>> {
    Seq::new(v.len(), |i: int| v[i]@)
}

/// A line for each entry.
pub fn list(archive: &Archive) -> (r: Vec<String>)
    ensures
        texts_of(r@) == archive@.items.map_values(|e: Item| item_line(e)),
{
    let mut r: Vec<String> = Vec::new();
    let n: usize = archive.entries.len();
    let mut i: usize = 0;
    while i < n
        invariant
            i <= n,
            n == archive.entries@.len(),
            r@.len() == i,
            forall|k: int| 0 <= k < i ==> (#[trigger] r@[k])@ == item_line(archive.entries@[k]@),
        decreases n - i,
    {
        r.push(entry_line(&archive.entries[i]));
        i += 1;
    }
    assert(texts_of(r@) =~= archive@.items.map_values(|e: Item| item_line(e)));
    r
}

/// The name of channel `i`.
pub open spec fn label_of(i: nat) -> Seq<char> {
    if i == 0 {
        "plain"@
    } else if i == 1 {
        "corrections"@
    } else if i == 2 {
        "filters"@
    } else if i == 3 {
        "lepton"@
    } else {
        "pixels#"@ + decimal_of((i - 4) as nat)
    }
}

pub fn label(i: usize) -> (r: String)
    ensures
        r@ == label_of(i as nat),
{
    match i {
        0 => String::from_str("plain"),
        1 => String::from_str("corrections"),
        2 => String::from_str("filters"),
        3 => String::from_str("lepton"),
        _ => {
            let mut r: String = String::from_str("pixels#");
            r.append(decimal((i - 4) as u64).as_str());
            r
        },
    }
}

/// The line of a channel: its name, its length, that of its payload, and the
/// backend.
pub open spec fn info_line(i: nat, info: ChannelInfo) -> Seq<char> {
    "  channel "@ + left_of(label_of(i), 12) + " "@ + right_of(human_of(info.2), 12) + " -> "@
        + right_of(human_of(info.1), 12) + "  ["@ + name_of(info.0) + "]"@
}

pub fn channel_line(i: usize, info: ChannelInfo) -> (r: String)
    ensures
        r@ == info_line(i as nat, info),
{
    let mut r: String = String::from_str("  channel ");
    push_left(&mut r, label(i).as_str(), 12);
    r.append(" ");
    push_right(&mut r, human(info.2).as_str(), 12);
    r.append(" -> ");
    push_right(&mut r, human(info.1).as_str(), 12);
    r.append("  [");
    r.append(name(info.0));
    r.append("]");
    r
}

/// The lines of those of the first `n` channels that hold something.
pub open spec fn info_lines(v: Seq<ChannelInfo>, n: nat) -> Seq<Seq<char>>
    decreases n,
{
    if n == 0 {
        Seq::empty()
    } else if v[n - 1].2 > 0 {
        info_lines(v, (n - 1) as nat).push(info_line((n - 1) as nat, v[n - 1]))
    } else {
        info_lines(v, (n - 1) as nat)
    }
}

/// A line for each channel that holds something.
pub fn channel_lines(infos: &Vec<ChannelInfo>) -> (r: Vec<String>)
    ensures
        texts_of(r@) == info_lines(infos@, infos@.len()),
{
    let mut r: Vec<String> = Vec::new();
    let n: usize = infos.len();
    let mut i: usize = 0;
    assert(texts_of(r@) =~= info_lines(infos@, 0));
    while i < n
        invariant
            i <= n,
            n == infos@.len(),
            texts_of(r@) == info_lines(infos@, i as nat),
        decreases n - i,
    {
        if infos[i].2 > 0 {
            let ghost r0 = r@;
            let line: String = channel_line(i, infos[i]);
            assert(texts_of(r0.push(line)) =~= texts_of(r0).push(line@));
            r.push(line);
        }
        i += 1;
    }
    r
}

/// How many of the first `n` entries are files, and how much they hold.
pub open spec fn counted(v: Seq<Item>, n: nat) -> Result<Tally, Error>
    decreases n,
{
    if n == 0 {
        Ok(Tally { files: 0, total: 0 })
    } else {
        match counted(v, (n - 1) as nat) {
            Err(e) => Err(e),
            Ok(t) => tallied(t, v[n - 1]),
        }
    }
}

proof fn lemma_counted_err(v: Seq<Item>, i: nat, n: nat)
    requires
        i <= n,
        counted(v, i) is Err,
    ensures
        counted(v, n) == counted(v, i),
    decreases n - i,
{
    if i < n {
        lemma_counted_err(v, i, (n - 1) as nat);
    }
}

/// Counts the files and adds up their sizes.
pub fn count(entries: &Vec<Entry>) -> (r: Result<Tally, Error>)
    ensures
        r == counted(items_of(entries@), entries@.len()),
{
    let ghost v = items_of(entries@);
    let mut t = Tally { files: 0, total: 0 };
    let n: usize = entries.len();
    let mut i: usize = 0;
    while i < n
        invariant
            i <= n,
            n == entries@.len(),
            v == items_of(entries@),
            t.files <= i,
            counted(v, i as nat) == Ok::<Tally, Error>(t),
        decreases n - i,
    {
        assert(v[i as int] == entries@[i as int]@);
        if !entries[i].is_dir {
            match t.total.checked_add(entries[i].size) {
                Some(total) => {
                    t = Tally { files: t.files + 1, total };
                },
                None => {
                    proof {
                        lemma_counted_err(v, (i + 1) as nat, n as nat);
                    }
                    return Err(Error::SizeOverflow);
                },
            }
        }
        i += 1;
    }
    Ok(t)
}

} // verus!
