//! How much memory there is.

use crate::util::text::characters;
use vstd::prelude::*;

verus! {

/// Where nothing is known: eight gibibytes.
pub const DEFAULT_RAM: u64 = 0x2_0000_0000;

/// Whether a character separates words.
pub open spec fn is_space(c: char) -> bool {
    let x = c as u32;
    ||| 0x09 <= x <= 0x0d
    ||| x == 0x20
    ||| x == 0x85
    ||| x == 0xa0
    ||| x == 0x1680
    ||| 0x2000 <= x <= 0x200a
    ||| x == 0x2028
    ||| x == 0x2029
    ||| x == 0x202f
    ||| x == 0x205f
    ||| x == 0x3000
}

fn space(c: char) -> (r: bool)
    ensures
        r == is_space(c),
{
    let x: u32 = c as u32;
    (0x09 <= x && x <= 0x0d) || x == 0x20 || x == 0x85 || x == 0xa0 || x == 0x1680 || (0x2000 <= x
        && x <= 0x200a) || x == 0x2028 || x == 0x2029 || x == 0x202f || x == 0x205f || x == 0x3000
}

pub open spec fn is_digit(c: char) -> bool {
    0x30 <= c as u32 <= 0x39
}

/// The number that digits say, one after the other, behind `v`; none where
/// there is another character, or it is more than 64 bits hold.
pub open spec fn number_from(s: Seq<char>, v: nat) -> Option<u64>
    decreases s.len(),
{
    if s.len() == 0 {
        if v <= u64::MAX {
            Some(v as u64)
        } else {
            None
        }
    } else if !is_digit(s[0]) {
        None
    } else {
        number_from(s.drop_first(), (10 * v + (s[0] as u32 - 0x30)) as nat)
    }
}

/// The number that a word says: digits, with a plus sign or without.
pub open spec fn number_of(w: Seq<char>) -> Option<u64> {
    let d = if w.len() > 0 && w[0] == '+' {
        w.drop_first()
    } else {
        w
    };
    if d.len() == 0 {
        None
    } else {
        number_from(d, 0)
    }
}

/// The text without the separators that it starts with.
pub open spec fn trimmed(s: Seq<char>) -> Seq<char>
    decreases s.len(),
{
    if s.len() > 0 && is_space(s[0]) {
        trimmed(s.drop_first())
    } else {
        s
    }
}

/// How many characters there are before a separator.
pub open spec fn word_len(s: Seq<char>) -> nat
    decreases s.len(),
{
    if s.len() == 0 || is_space(s[0]) {
        0
    } else {
        1 + word_len(s.drop_first())
    }
}

pub open spec fn first_word(s: Seq<char>) -> Seq<char> {
    let t = trimmed(s);
    t.take(word_len(t) as int)
}

/// How many characters there are before the end of the line.
pub open spec fn line_len(s: Seq<char>) -> nat
    decreases s.len(),
{
    if s.len() == 0 || s[0] == '\n' {
        0
    } else {
        1 + line_len(s.drop_first())
    }
}

/// The kibibytes that a line says are available.
pub open spec fn available_in(line: Seq<char>) -> Option<u64> {
    let p = "MemAvailable:"@;
    if p.is_prefix_of(line) {
        number_of(first_word(line.skip(p.len() as int)))
    } else {
        None
    }
}

/// The first line that says it.
pub open spec fn available_from(s: Seq<char>) -> Option<u64>
    decreases s.len(),
{
    let n = line_len(s) as int;
    match available_in(s.take(n)) {
        Some(kb) => Some(kb),
        None => if n < s.len() {
            available_from(s.skip(n + 1))
        } else {
            None
        },
    }
}

proof fn lemma_too_much(s: Seq<char>, v: nat)
    requires
        v > u64::MAX,
    ensures
        number_from(s, v) is None,
    decreases s.len(),
{
    if s.len() > 0 && is_digit(s[0]) {
        lemma_too_much(s.drop_first(), (10 * v + (s[0] as u32 - 0x30)) as nat);
    }
}

fn number(v: &Vec<char>, from: usize, to: usize) -> (r: Option<u64>)
    requires
        from <= to <= v@.len(),
    ensures
        r == number_of(v@.subrange(from as int, to as int)),
{
    let ghost w = v@.subrange(from as int, to as int);
    let start: usize = if from < to && v[from] == '+' {
        from + 1
    } else {
        from
    };
    if start == to {
        return None;
    }
    let mut x: u64 = 0;
    let mut i: usize = start;
    proof {
        if start > from {
            assert(w.drop_first() =~= v@.subrange(start as int, to as int));
        }
    }
    while i < to
        invariant
            start <= i <= to <= v@.len(),
            number_of(w) == number_from(v@.subrange(i as int, to as int), x as nat),
            w == v@.subrange(from as int, to as int),
        decreases to - i,
    {
        let c: u32 = v[i] as u32;
        let ghost t = v@.subrange(i as int, to as int);
        assert(t.drop_first() =~= v@.subrange(i + 1, to as int));
        if c < 0x30 || c > 0x39 {
            return None;
        }
        let d: u64 = (c - 0x30) as u64;
        if x > (u64::MAX - d) / 10 {
            proof {
                lemma_too_much(t.drop_first(), (10 * x + d) as nat);
            }
            return None;
        }
        x = 10 * x + d;
        i += 1;
    }
    Some(x)
}

/// The number of the first word between two places.
fn word_number(v: &Vec<char>, from: usize, to: usize) -> (r: Option<u64>)
    requires
        from <= to <= v@.len(),
    ensures
        r == number_of(first_word(v@.subrange(from as int, to as int))),
{
    let ghost line = v@.subrange(from as int, to as int);
    let mut a: usize = from;
    while a < to && space(v[a])
        invariant
            from <= a <= to <= v@.len(),
            trimmed(line) == trimmed(v@.subrange(a as int, to as int)),
        decreases to - a,
    {
        assert(v@.subrange(a as int, to as int).drop_first() =~= v@.subrange(a + 1, to as int));
        a += 1;
    }
    let ghost t = v@.subrange(a as int, to as int);
    assert(trimmed(line) == t);
    let mut b: usize = a;
    while b < to && !space(v[b])
        invariant
            a <= b <= to <= v@.len(),
            t == v@.subrange(a as int, to as int),
            word_len(t) == b - a + word_len(v@.subrange(b as int, to as int)),
        decreases to - b,
    {
        assert(v@.subrange(b as int, to as int).drop_first() =~= v@.subrange(b + 1, to as int));
        b += 1;
    }
    assert(t.take(b - a) =~= v@.subrange(a as int, b as int));
    number(v, a, b)
}

/// The end of the line that starts at `from`.
fn line_end(v: &Vec<char>, from: usize) -> (to: usize)
    requires
        from <= v@.len(),
    ensures
        from <= to <= v@.len(),
        to == from + line_len(v@.skip(from as int)),
{
    let n: usize = v.len();
    let mut to: usize = from;
    while to < n && v[to] != '\n'
        invariant
            from <= to <= n,
            n == v@.len(),
            to - from + line_len(v@.skip(to as int)) == line_len(v@.skip(from as int)),
        decreases n - to,
    {
        assert(v@.skip(to as int).drop_first() =~= v@.skip(to + 1));
        to += 1;
    }
    to
}

/// Whether the text from `from` on starts with a prefix.
fn starts(v: &Vec<char>, from: usize, to: usize, p: &Vec<char>) -> (r: bool)
    requires
        from <= to <= v@.len(),
    ensures
        r == p@.is_prefix_of(v@.subrange(from as int, to as int)),
{
    let ghost line = v@.subrange(from as int, to as int);
    let n: usize = p.len();
    if n > to - from {
        return false;
    }
    let mut i: usize = 0;
    while i < n
        invariant
            i <= n,
            n == p@.len(),
            n <= to - from,
            from <= to <= v@.len(),
            line == v@.subrange(from as int, to as int),
            forall|k: int| 0 <= k < i ==> #[trigger] p@[k] == line[k],
        decreases n - i,
    {
        if p[i] != v[from + i] {
            assert(p@[i as int] != line[i as int]);
            assert(line.take(n as int)[i as int] == line[i as int]);
            return false;
        }
        i += 1;
    }
    assert(line.take(n as int) =~= p@);
    true
}

fn available_kb(text: &str) -> (r: Option<u64>)
    ensures
        r == available_from(text@),
{
    let v: Vec<char> = characters(text);
    let p: Vec<char> = characters("MemAvailable:");
    let n: usize = v.len();
    let mut from: usize = 0;
    assert(v@.skip(0) =~= v@);
    loop
        invariant
            n == v@.len(),
            v@ == text@,
            p@ == "MemAvailable:"@,
            from <= n,
            available_from(text@) == available_from(v@.skip(from as int)),
        decreases n - from,
    {
        let to: usize = line_end(&v, from);
        let ghost line = v@.subrange(from as int, to as int);
        assert(v@.skip(from as int).take(to - from) =~= line);
        if starts(&v, from, to, &p) {
            assert(line.skip(p@.len() as int) =~= v@.subrange(from + p@.len(), to as int));
            match word_number(&v, from + p.len(), to) {
                Some(kb) => return Some(kb),
                None => {},
            }
        }
        if to >= n {
            return None;
        }
        assert(v@.skip(from as int).skip(to - from + 1) =~= v@.skip(to + 1));
        from = to + 1;
    }
}

/// What a text in the form of `/proc/meminfo` says, in bytes.
pub open spec fn ram_of(meminfo: Option<Seq<char>>) -> u64 {
    match meminfo {
        Some(s) => match available_from(s) {
            Some(kb) => if kb * 1024 <= u64::MAX {
                (kb * 1024) as u64
            } else {
                u64::MAX
            },
            None => DEFAULT_RAM,
        },
        None => DEFAULT_RAM,
    }
}

/// The memory that is available, by what `/proc/meminfo` says where it can be
/// read.
pub fn available_ram_bytes(meminfo: Option<&str>) -> (r: u64)
    ensures
        r == ram_of(
            match meminfo {
                Some(s) => Some(s@),
                None => None,
            },
        ),
{
    match meminfo {
        Some(s) => match available_kb(s) {
            Some(kb) => if kb <= u64::MAX / 1024 {
                kb * 1024
            } else {
                u64::MAX
            },
            None => DEFAULT_RAM,
        },
        None => DEFAULT_RAM,
    }
}

} // verus!
