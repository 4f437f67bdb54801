//! What an update does.

use crate::util::text::characters;
use vstd::prelude::*;
use vstd::string::{StrSliceExecFns, StringExecFns};

verus! {

/// Whether `p` stands at `i`.
pub open spec fn found_at(s: Seq<char>, p: Seq<char>, i: int) -> bool {
    &&& 0 <= i
    &&& i + p.len() <= s.len()
    &&& s.subrange(i, i + p.len()) == p
}

/// The first place from `from` on where `p` stands.
pub open spec fn find_from(s: Seq<char>, p: Seq<char>, from: int) -> Option<int>
    decreases s.len() + 1 - from,
{
    if from + p.len() > s.len() {
        None
    } else if found_at(s, p, from) {
        Some(from)
    } else {
        find_from(s, p, from + 1)
    }
}

/// The text between the next two quotes from `from` on.
pub open spec fn quoted_from(s: Seq<char>, from: int) -> Option<Seq<char>> {
    match find_from(s, "\""@, from) {
        None => None,
        Some(a) => match find_from(s, "\""@, a + 1) {
            None => None,
            Some(b) => Some(s.subrange(a + 1, b)),
        },
    }
}

/// The text behind the name "tag_name".
pub open spec fn tag_of(s: Seq<char>) -> Option<Seq<char>> {
    match find_from(s, "\"tag_name\""@, 0) {
        None => None,
        Some(i) => quoted_from(s, i + "\"tag_name\""@.len()),
    }
}

fn stands_at(s: &Vec<char>, p: &Vec<char>, i: usize) -> (r: bool)
    requires
        i + p@.len() <= s@.len(),
    ensures
        r == found_at(s@, p@, i as int),
{
    let n: usize = p.len();
    let m: usize = s.len();
    assert(i + n <= m);
    let ghost t = s@.subrange(i as int, i + n);
    let mut k: usize = 0;
    while k < n
        invariant
            k <= n,
            n == p@.len(),
            m == s@.len(),
            i + n <= m,
            t == s@.subrange(i as int, i + n),
            forall|j: int| 0 <= j < k ==> #[trigger] t[j] == p@[j],
        decreases n - k,
    {
        if s[i + k] != p[k] {
            assert(t[k as int] != p@[k as int]);
            return false;
        }
        k += 1;
    }
    assert(t =~= p@);
    true
}

fn find(s: &Vec<char>, p: &Vec<char>, from: usize) -> (r: Option<usize>)
    requires
        from <= s@.len(),
        p@.len() > 0,
    ensures
        match find_from(s@, p@, from as int) {
            Some(i) => r == Some(i as usize) && from <= i && i + p@.len() <= s@.len(),
            None => r is None,
        },
{
    let n: usize = p.len();
    let m: usize = s.len();
    let mut i: usize = from;
    while n <= m - i
        invariant
            n == p@.len(),
            n > 0,
            m == s@.len(),
            from <= i <= m,
            find_from(s@, p@, i as int) == find_from(s@, p@, from as int),
        decreases m - i,
    {
        if stands_at(s, p, i) {
            return Some(i);
        }
        i += 1;
    }
    None
}

/// The name of the release in an answer of the release server.
pub fn parse_tag_name(json: &str) -> (r: Option<String>)
    ensures
        match tag_of(json@) {
            Some(t) => r matches Some(x) && x@ == t,
            None => r is None,
        },
{
    proof {
        reveal_strlit("\"tag_name\"");
        reveal_strlit("\"");
    }
    let s: Vec<char> = characters(json);
    let tag: Vec<char> = characters("\"tag_name\"");
    let quote: Vec<char> = characters("\"");
    let n: usize = s.len();
    let i: usize = match find(&s, &tag, 0) {
        Some(i) => i,
        None => return None,
    };
    assert(i + tag@.len() <= n);
    let a: usize = match find(&s, &quote, i + tag.len()) {
        Some(a) => a,
        None => return None,
    };
    match find(&s, &quote, a + 1) {
        Some(b) => Some(String::from_str(json.substring_char(a + 1, b))),
        None => None,
    }
}

/// A release without the letters that its name starts with.
pub open spec fn version_of(tag: Seq<char>) -> Seq<char>
    decreases tag.len(),
{
    if tag.len() > 0 && tag[0] == 'v' {
        version_of(tag.drop_first())
    } else {
        tag
    }
}

/// The version that a release's name says: "v0.2.1" is version 0.2.1.
pub fn version(tag: &str) -> (r: String)
    ensures
        r@ == version_of(tag@),
{
    let s: Vec<char> = characters(tag);
    let n: usize = s.len();
    let mut i: usize = 0;
    assert(tag@.subrange(0, n as int) =~= tag@);
    while i < n && s[i] == 'v'
        invariant
            i <= n,
            n == s@.len(),
            s@ == tag@,
            version_of(tag@.subrange(i as int, n as int)) == version_of(tag@),
        decreases n - i,
    {
        assert(tag@.subrange(i as int, n as int).drop_first() =~= tag@.subrange(i + 1, n as int));
        i += 1;
    }
    String::from_str(tag.substring_char(i, n))
}

pub open spec fn names(v: Seq<String>, name: Seq<char>) -> bool {
    exists|i: int| 0 <= i < v.len() && (#[trigger] v[i])@ == name
}

fn has_part(v: &Vec<String>, name: &str) -> (r: bool)
    ensures
        r == names(v@, name@),
{
    let want: String = String::from_str(name);
    let n: usize = v.len();
    let mut i: usize = 0;
    while i < n
        invariant
            i <= n,
            n == v@.len(),
            want@ == name@,
            forall|k: int| 0 <= k < i ==> (#[trigger] v@[k])@ != name@,
        decreases n - i,
    {
        if v[i] == want {
            assert(v@[i as int]@ == name@);
            return true;
        }
        i += 1;
    }
    false
}

pub open spec fn hint_of(parts: Seq<String>) -> Option<Seq<char>> {
    if names(parts, "target"@) && (names(parts, "release"@) || names(parts, "debug"@)) {
        Some("Update it by rebuilding: git pull && cargo build --release"@)
    } else if names(parts, ".cargo"@) {
        Some("Update it with: cargo install --git https://github.com/dannyblaker/densezip"@)
    } else {
        None
    }
}

/// How to update a binary that was built from source, by the parts of its
/// path: to overwrite that one would surprise.
pub fn source_build_hint(parts: &Vec<String>) -> (r: Option<&'static str>)
    ensures
        match hint_of(parts@) {
            Some(t) => r matches Some(x) && x@ == t,
            None => r is None,
        },
{
    if has_part(parts, "target") && (has_part(parts, "release") || has_part(parts, "debug")) {
        Some("Update it by rebuilding: git pull && cargo build --release")
    } else if has_part(parts, ".cargo") {
        Some("Update it with: cargo install --git https://github.com/dannyblaker/densezip")
    } else {
        None
    }
}

/// What an update comes to.
#[derive(Debug, PartialEq, Eq)]
pub enum Step {
    /// The binary was built from source.
    Refuse(&'static str),
    /// There is nothing newer.
    Latest,
    /// The installer runs, for this version.
    Install(String),
    /// The latest version could not be found out; the installer finds it.
    InstallUnknown,
}

/// Decides what an update does. The latest version is none where it could not
/// be found out.
pub fn update(parts: &Vec<String>, latest: Option<String>, current: &str, force: bool) -> (r: Step)
    ensures
        match hint_of(parts@) {
            Some(t) => r matches Step::Refuse(x) && x@ == t,
            None => match latest {
                None => r is InstallUnknown,
                Some(v) => if v@ == current@ && !force {
                    r is Latest
                } else {
                    r matches Step::Install(x) && x@ == v@
                },
            },
        },
{
    match source_build_hint(parts) {
        Some(h) => return Step::Refuse(h),
        None => {},
    }
    match latest {
        None => Step::InstallUnknown,
        Some(v) => {
            let now: String = String::from_str(current);
            if v == now && !force {
                Step::Latest
            } else {
                Step::Install(v)
            }
        },
    }
}

proof fn lemma_found_first(s: Seq<char>, p: Seq<char>, from: int, i: int)
    requires
        from <= i,
        found_at(s, p, i),
        forall|k: int| from <= k < i ==> !#[trigger] found_at(s, p, k),
    ensures
        find_from(s, p, from) == Some(i),
    decreases i - from,
{
    if from < i {
        assert(!found_at(s, p, from));
        lemma_found_first(s, p, from + 1, i);
    }
}

proof fn lemma_quote_first(s: Seq<char>, from: int, i: int)
    requires
        0 <= from <= i < s.len(),
        s[i] == '"',
        forall|k: int| from <= k < i ==> s[k] != '"',
    ensures
        find_from(s, "\""@, from) == Some(i),
{
    reveal_strlit("\"");
    let p = "\""@;
    assert(s.subrange(i, i + 1) =~= p);
    assert forall|k: int| from <= k < i implies !#[trigger] found_at(s, p, k) by {
        assert(s.subrange(k, k + 1)[0] == s[k]);
    }
    lemma_found_first(s, p, from, i);
}

/// The release's name is what stands between the next two quotes behind the first
/// "tag_name", whatever stands before, between and behind.
pub proof fn lemma_tag_found(before: Seq<char>, gap: Seq<char>, tag: Seq<char>, after: Seq<char>)
    requires
        !gap.contains('"'),
        !tag.contains('"'),
        ({
            let s = before + "\"tag_name\""@ + gap + "\""@ + tag + "\""@ + after;
            forall|k: int| 0 <= k < before.len() ==> !#[trigger] found_at(s, "\"tag_name\""@, k)
        }),
    ensures
        tag_of(before + "\"tag_name\""@ + gap + "\""@ + tag + "\""@ + after) == Some(tag),
{
    reveal_strlit("\"");
    reveal_strlit("\"tag_name\"");
    let p = "\"tag_name\""@;
    let s = before + p + gap + "\""@ + tag + "\""@ + after;
    let i = before.len() as int;
    let a = i + p.len() + gap.len();
    let b = a + 1 + tag.len();
    assert(s.subrange(i, i + p.len()) =~= p);
    lemma_found_first(s, p, 0, i);
    assert(s[a] == '"' && s[b] == '"');
    assert forall|k: int| i + p.len() <= k < a implies s[k] != '"' by {
        let c = gap[k - i - p.len()];
        assert(s[k] == c);
        assert(gap.contains(c));
    }
    assert forall|k: int| a + 1 <= k < b implies s[k] != '"' by {
        let c = tag[k - a - 1];
        assert(s[k] == c);
        assert(tag.contains(c));
    }
    lemma_quote_first(s, i + p.len(), a);
    lemma_quote_first(s, a + 1, b);
    assert(s.subrange(a + 1, b) =~= tag);
}

/// A version is a release's name without the letters "v" before it, however many
/// there are.
pub proof fn lemma_version_bare(n: nat, rest: Seq<char>)
    requires
        rest.len() == 0 || rest[0] != 'v',
    ensures
        version_of(Seq::new(n, |i: int| 'v') + rest) == rest,
    decreases n,
{
    let s = Seq::new(n, |i: int| 'v') + rest;
    if n == 0 {
        assert(s =~= rest);
    } else {
        lemma_version_bare((n - 1) as nat, rest);
        assert(s.drop_first() =~= Seq::new((n - 1) as nat, |i: int| 'v') + rest);
    }
}

} // verus!
