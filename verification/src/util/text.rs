//! Text, and numbers as text for those who read them.

use vstd::prelude::*;
use vstd::string::{StringExecFns, StrSliceExecFns};

verus! {

/// The characters of a text.
pub fn characters(s: &str) -> (v: Vec<char>)
    ensures
        v@ == s@,
{
    let mut v: Vec<char> = Vec::new();
    for c in it: s.chars()
        invariant
            it.seq() == s@,
            v@ == s@.take(it.index() as int),
    {
        let ghost i = it.index() as int;
        assert(c == s@[i]);
        v.push(c);
        assert(v@ =~= s@.take(i + 1));
    }
    assert(s@.take(s@.len() as int) =~= s@);
    v
}

pub open spec fn digit(d: nat) -> char {
    (0x30 + d) as char
}

/// The decimal digits of a number.
pub open spec fn decimal_of(n: nat) -> Seq<char>
    decreases n,
{
    if n < 10 {
        seq![digit(n)]
    } else {
        decimal_of(n / 10).push(digit(n % 10))
    }
}

fn digit_text(d: u64) -> (r: &'static str)
    requires
        d < 10,
    ensures
        r@ == seq![digit(d as nat)],
{
    proof {
        reveal_strlit("0");
        reveal_strlit("1");
        reveal_strlit("2");
        reveal_strlit("3");
        reveal_strlit("4");
        reveal_strlit("5");
        reveal_strlit("6");
        reveal_strlit("7");
        reveal_strlit("8");
        reveal_strlit("9");
    }
    let r: &'static str = match d {
        0 => "0",
        1 => "1",
        2 => "2",
        3 => "3",
        4 => "4",
        5 => "5",
        6 => "6",
        7 => "7",
        8 => "8",
        _ => "9",
    };
    assert(r@ =~= seq![digit(d as nat)]);
    r
}

/// A number in decimal.
pub fn decimal(n: u64) -> (r: String)
    ensures
        r@ == decimal_of(n as nat),
    decreases n,
{
    if n < 10 {
        return String::from_str(digit_text(n));
    }
    let mut r: String = decimal(n / 10);
    r.append(digit_text(n % 10));
    assert(r@ =~= decimal_of(n as nat));
    r
}

/// `n` times the same character.
pub open spec fn repeated(c: char, n: nat) -> Seq<char> {
    Seq::new(n, |i: int| c)
}

/// How many characters are missing to a width.
pub open spec fn missing(len: nat, width: nat) -> nat {
    if len < width {
        (width - len) as nat
    } else {
        0
    }
}

/// The text at the right end of a column.
pub open spec fn right_of(s: Seq<char>, width: nat) -> Seq<char> {
    repeated(' ', missing(s.len(), width)) + s
}

/// The text at the left end of a column.
pub open spec fn left_of(s: Seq<char>, width: nat) -> Seq<char> {
    s + repeated(' ', missing(s.len(), width))
}

/// Appends the same character `n` times.
pub fn repeat(out: &mut String, c: &str, n: usize)
    requires
        c@.len() == 1,
    ensures
        final(out)@ == old(out)@ + repeated(c@[0], n as nat),
{
    let ghost start = out@;
    let mut i: usize = 0;
    assert(out@ =~= start + repeated(c@[0], 0));
    while i < n
        invariant
            i <= n,
            c@.len() == 1,
            out@ == start + repeated(c@[0], i as nat),
        decreases n - i,
    {
        out.append(c);
        i += 1;
        assert(out@ =~= start + repeated(c@[0], i as nat));
    }
}

/// Appends a text at the right end of a column.
pub fn push_right(out: &mut String, s: &str, width: usize)
    ensures
        final(out)@ == old(out)@ + right_of(s@, width as nat),
{
    proof {
        reveal_strlit(" ");
    }
    let ghost start = out@;
    let n: usize = s.unicode_len();
    if n < width {
        repeat(out, " ", width - n);
    }
    out.append(s);
    assert(out@ =~= start + right_of(s@, width as nat));
}

/// Appends a text at the left end of a column.
pub fn push_left(out: &mut String, s: &str, width: usize)
    ensures
        final(out)@ == old(out)@ + left_of(s@, width as nat),
{
    proof {
        reveal_strlit(" ");
    }
    let ghost start = out@;
    let n: usize = s.unicode_len();
    out.append(s);
    if n < width {
        repeat(out, " ", width - n);
    }
    assert(out@ =~= start + left_of(s@, width as nat));
}

/// `n / m`, rounded to the nearest, and to the even one where two are as near.
pub open spec fn even_quotient(n: nat, m: nat) -> nat {
    let q = n / m;
    let twice = 2 * (n % m);
    if twice < m || (twice == m && q % 2 == 0) {
        q
    } else {
        q + 1
    }
}

/// How far apart the numbers of 53 binary digits lie around `n`.
pub open spec fn spacing(n: nat) -> nat
    decreases n,
{
    if n < 0x20_0000_0000_0000 {
        1
    } else {
        2 * spacing(n / 2)
    }
}

/// The nearest number of 53 binary digits.
pub open spec fn nearest(n: nat) -> nat {
    even_quotient(n, spacing(n)) * spacing(n)
}

/// `n` in tenths of a unit.
pub open spec fn tenths_of(n: nat, unit: nat) -> nat {
    even_quotient(10 * nearest(n), unit)
}

/// Tenths with their point, and the unit.
pub open spec fn pointed(tenths: nat, unit: Seq<char>) -> Seq<char> {
    decimal_of(tenths / 10) + "."@ + seq![digit(tenths % 10)] + unit
}

/// A size: up to ten kibibytes in bytes, up to ten mebibytes in kibibytes, and
/// then in mebibytes.
pub open spec fn human_of(n: u64) -> Seq<char> {
    if n >= 0xa0_0000 {
        pointed(tenths_of(n as nat, 0x10_0000), " MiB"@)
    } else if n >= 0x2800 {
        pointed(tenths_of(n as nat, 0x400), " KiB"@)
    } else {
        decimal_of(n as nat) + " B"@
    }
}

fn quotient(n: u128, m: u128) -> (q: u128)
    requires
        0 < m < 0x1_0000_0000_0000_0000,
        n < 0x10_0000_0000_0000_0000_0000,
    ensures
        q == even_quotient(n as nat, m as nat),
        q <= n / m + 1,
{
    let q: u128 = n / m;
    let twice: u128 = 2 * (n % m);
    assert(q <= n) by (nonlinear_arith)
        requires
            q == n / m,
            m > 0,
    ;
    if twice < m || (twice == m && q % 2 == 0) {
        q
    } else {
        q + 1
    }
}

fn gap(n: u64) -> (s: u64)
    ensures
        s == spacing(n as nat),
        1 <= s <= 2048,
    decreases n,
{
    if n < 0x20_0000_0000_0000 {
        return 1;
    }
    proof {
        lemma_spacing(n);
    }
    2 * gap(n / 2)
}

proof fn lemma_spacing(n: u64)
    ensures
        spacing(n as nat) <= 2048,
        n >= 0x20_0000_0000_0000 ==> 2 * spacing((n / 2) as nat) <= 2048,
{
    reveal_with_fuel(spacing, 13);
}

fn tenths(n: u64, unit: u64) -> (t: u64)
    requires
        unit == 0x400 || unit == 0x10_0000,
        unit == 0x400 ==> n < 0x100_0000,
    ensures
        t == tenths_of(n as nat, unit as nat),
{
    let s: u64 = gap(n);
    let q: u128 = quotient(n as u128, s as u128);
    proof {
        let qq = n as int / s as int;
        assert(q * s <= n + s) by (nonlinear_arith)
            requires
                q <= qq + 1,
                qq == n as int / s as int,
                s >= 1,
        ;
    }
    let near: u128 = q * s as u128;
    quotient(10 * near, unit as u128) as u64
}

fn push_pointed(tenths: u64, unit: &str) -> (r: String)
    ensures
        r@ == pointed(tenths as nat, unit@),
{
    let mut r: String = decimal(tenths / 10);
    r.append(".");
    r.append(digit_text(tenths % 10));
    r.append(unit);
    r
}

/// A size as people read it.
pub fn human(n: u64) -> (r: String)
    ensures
        r@ == human_of(n),
{
    if n >= 0xa0_0000 {
        push_pointed(tenths(n, 0x10_0000), " MiB")
    } else if n >= 0x2800 {
        push_pointed(tenths(n, 0x400), " KiB")
    } else {
        let mut r: String = decimal(n);
        r.append(" B");
        r
    }
}

} // verus!
