//! What the helpers promise, of all that they are given.

use crate::error::Error;
use crate::util::checksum::{adler32_of, adler_sums};
use crate::util::memory::{
    available_from, available_in, first_word, is_digit, is_space, line_len, number_from, number_of,
    ram_of, trimmed, word_len,
};
use crate::util::text::{
    decimal_of, digit, even_quotient, human_of, left_of, nearest, right_of, spacing, tenths_of,
};
use crate::util::varint::{varint_at, varint_bytes, varint_rest};
use vstd::prelude::*;

verus! {

proof fn lemma_adler_small(s: Seq<u8>)
    ensures
        0 <= adler_sums(s).0 < 65521,
        0 <= adler_sums(s).1 < 65521,
    decreases s.len(),
{
}

proof fn lemma_mod_step(u: int, x: int)
    ensures
        (u % 65521 + x) % 65521 == (u + x) % 65521,
{
}

proof fn lemma_adler_next(a1: int, a2: int, p: int, q: int, x: int, t: int, n: int)
    requires
        t == (a1 - 1) * n,
    ensures
        ({
            let p1 = (p + x) % 65521;
            let q1 = (q + p1) % 65521;
            let a = ((a1 + p - 1) % 65521 + x) % 65521;
            let b = ((a2 + q + t) % 65521 + a) % 65521;
            &&& a == (a1 + p1 - 1) % 65521
            &&& b == (a2 + q1 + (a1 - 1) * (n + 1)) % 65521
        }),
{
    let p1 = (p + x) % 65521;
    let q1 = (q + p1) % 65521;
    let a = ((a1 + p - 1) % 65521 + x) % 65521;
    lemma_mod_step(a1 + p - 1, x);
    lemma_mod_step(p + x, a1 - 1);
    assert(a == (a1 + p1 - 1) % 65521);
    lemma_mod_step(a2 + q + t, a);
    lemma_mod_step(a1 + p1 - 1, a2 + q + t);
    lemma_mod_step(q + p1, a2 + t + a1 - 1);
    assert((a1 - 1) * (n + 1) == t + (a1 - 1)) by (nonlinear_arith)
        requires
            t == (a1 - 1) * n,
    ;
}

/// The sums of nothing are one and none; those of one byte are both one more than
/// the byte; and those of two texts one behind the other follow from their own and
/// the length of the second.
pub proof fn lemma_adler_joined(a: Seq<u8>, b: Seq<u8>, x: u8)
    ensures
        adler_sums(Seq::empty()) == (1int, 0int),
        adler_sums(seq![x]) == (1 + x, 1 + x),
        adler_sums(a + b).0 == (adler_sums(a).0 + adler_sums(b).0 - 1) % 65521,
        adler_sums(a + b).1 == (adler_sums(a).1 + adler_sums(b).1 + (adler_sums(a).0 - 1) * b.len())
            % 65521,
{
    reveal_with_fuel(adler_sums, 2);
    assert(seq![x].drop_last() =~= Seq::<u8>::empty());
    lemma_adler_appended(a, b);
}

proof fn lemma_adler_appended(a: Seq<u8>, b: Seq<u8>)
    ensures
        adler_sums(a + b).0 == (adler_sums(a).0 + adler_sums(b).0 - 1) % 65521,
        adler_sums(a + b).1 == (adler_sums(a).1 + adler_sums(b).1 + (adler_sums(a).0 - 1) * b.len())
            % 65521,
    decreases b.len(),
{
    let (a1, a2) = adler_sums(a);
    if b.len() == 0 {
        lemma_adler_small(a);
        assert(a + b =~= a);
        assert((a1 - 1) * b.len() == 0) by (nonlinear_arith)
            requires
                b.len() == 0,
        ;
    } else {
        let c = b.drop_last();
        let n = c.len() as int;
        let (p, q) = adler_sums(c);
        lemma_adler_appended(a, c);
        assert((a + b).drop_last() =~= a + c);
        assert((a + b).last() == b.last());
        lemma_adler_next(a1, a2, p, q, b.last() as int, (a1 - 1) * n, n);
        assert(b.len() == n + 1);
    }
}

/// The checksum is the second sum in its upper sixteen bits, and the first in its
/// lower.
pub proof fn lemma_adler_parts(s: Seq<u8>)
    ensures
        adler32_of(s) as int / 65536 == adler_sums(s).1,
        adler32_of(s) as int % 65536 == adler_sums(s).0,
{
    lemma_adler_small(s);
}

/// A byte below 128 is a number of its own.
pub proof fn lemma_varint_byte(s: Seq<u8>, pos: int)
    requires
        0 <= pos < s.len(),
        s[pos] < 128,
    ensures
        varint_at(s, pos) == Ok::<(u64, int), Error>((s[pos] as u64, pos + 1)),
{
}

proof fn lemma_rest_shift(s: Seq<u8>, pos: int, k: int)
    requires
        0 <= k < 10,
        varint_rest(s, pos, 0) matches Ok((v, p)) && p - pos + k <= 10,
    ensures
        varint_rest(s, pos, k) == varint_rest(s, pos, 0),
        varint_rest(s, pos, 0)->Ok_0.0 >= 0,
        varint_rest(s, pos, 0)->Ok_0.1 > pos,
    decreases 10 - k,
{
    lemma_rest_any(s, pos, 0, k);
}

proof fn lemma_rest_any(s: Seq<u8>, pos: int, j: int, k: int)
    requires
        0 <= j,
        0 <= k,
        j < 10,
        varint_rest(s, pos, j) matches Ok((v, p)) && p - pos + k <= 10,
    ensures
        varint_rest(s, pos, k) == varint_rest(s, pos, j),
        varint_rest(s, pos, j)->Ok_0.0 >= 0,
        varint_rest(s, pos, j)->Ok_0.1 > pos,
    decreases 10 - j,
{
    if s[pos] < 128 {
    } else {
        assert(varint_rest(s, pos + 1, j + 1) is Ok);
        if j + 1 < 10 {
            lemma_rest_any(s, pos + 1, j + 1, k + 1);
        }
    }
}

/// A byte from 128 on adds what it is more than 128 to 128 times the number behind
/// it, where they have no more than ten bytes together.
pub proof fn lemma_varint_goes_on(s: Seq<u8>, pos: int, v: u64, end: int)
    requires
        0 <= pos < s.len(),
        s[pos] >= 128,
        varint_at(s, pos + 1) == Ok::<(u64, int), Error>((v, end)),
        end - pos <= 10,
    ensures
        varint_at(s, pos) == Ok::<(u64, int), Error>(
            (((s[pos] - 128 + 128 * v) % 0x1_0000_0000_0000_0000) as u64, end),
        ),
{
    lemma_rest_shift(s, pos + 1, 1);
    let w = varint_rest(s, pos + 1, 0)->Ok_0.0;
    let m = 0x1_0000_0000_0000_0000int;
    assert(w == m * (w / m) + w % m) by (nonlinear_arith)
        requires
            m == 0x1_0000_0000_0000_0000int,
    ;
}

/// Bytes that all go on, to the end of the input, are no number; nor are ten of
/// them that a byte stands behind.
pub proof fn lemma_varint_refused(s: Seq<u8>, pos: int, n: int)
    requires
        0 <= pos,
        0 <= n <= 10,
        pos + n <= s.len(),
        forall|i: int| pos <= i < pos + n ==> s[i] >= 128,
    ensures
        pos + n == s.len() ==> varint_at(s, pos) == Err::<(u64, int), Error>(
            Error::TruncatedVarint,
        ),
        n == 10 && pos + n < s.len() ==> varint_at(s, pos) == Err::<(u64, int), Error>(
            Error::VarintOverflow,
        ),
{
    lemma_rest_refused(s, pos, n, 0);
}

proof fn lemma_rest_refused(s: Seq<u8>, pos: int, n: int, k: int)
    requires
        0 <= pos,
        0 <= n,
        0 <= k,
        n + k <= 10,
        pos + n <= s.len(),
        forall|i: int| pos <= i < pos + n ==> s[i] >= 128,
    ensures
        pos + n == s.len() ==> varint_rest(s, pos, k) == Err::<(int, int), Error>(
            Error::TruncatedVarint,
        ),
        n + k == 10 && pos + n < s.len() ==> varint_rest(s, pos, k) == Err::<(int, int), Error>(
            Error::VarintOverflow,
        ),
    decreases n,
{
    if n > 0 {
        lemma_rest_refused(s, pos + 1, n - 1, k + 1);
    }
}

/// What is written has one byte for each seven binary digits, and no more.
pub proof fn lemma_varint_short(v: nat, x: nat)
    requires
        x < 128,
        v > 0,
    ensures
        varint_bytes(x).len() == 1,
        varint_bytes(128 * v + x).len() == 1 + varint_bytes(v).len(),
{
}

proof fn lemma_decimal_then(n: nat, t: Seq<char>)
    ensures
        number_from(decimal_of(n) + t, 0) == number_from(t, n),
        decimal_of(n).len() > 0,
        forall|i: int| 0 <= i < decimal_of(n).len() ==> is_digit(#[trigger] decimal_of(n)[i]),
        n < 10 || decimal_of(n)[0] != '0',
    decreases n,
{
    if n < 10 {
        let s = decimal_of(n) + t;
        assert(s[0] == digit(n));
        assert(s.drop_first() =~= t);
        assert(n > 0 ==> digit(n) != '0');
    } else {
        let u = seq![digit(n % 10)] + t;
        lemma_decimal_then(n / 10, u);
        assert(decimal_of(n) + t =~= decimal_of(n / 10) + u);
        assert(u[0] == digit(n % 10));
        assert(u.drop_first() =~= t);
        assert(number_from(u, n / 10) == number_from(t, n));
        if n / 10 < 10 {
            assert(decimal_of(n)[0] == digit(n / 10));
        }
    }
}

/// The digits of a number say that number, and it is written without a nought
/// before it.
pub proof fn lemma_decimal_read(n: u64)
    ensures
        number_of(decimal_of(n as nat)) == Some(n),
        n < 10 || decimal_of(n as nat)[0] != '0',
{
    lemma_decimal_then(n as nat, Seq::empty());
    assert(decimal_of(n as nat) + Seq::<char>::empty() =~= decimal_of(n as nat));
    assert(is_digit(decimal_of(n as nat)[0]));
}

/// A column is as wide as it is told to be, or as the text in it; the text stands
/// at one end, and spaces before or behind it.
pub proof fn lemma_columns(s: Seq<char>, width: nat)
    ensures
        right_of(s, width).len() == if s.len() < width {
            width
        } else {
            s.len()
        },
        right_of(s, width).skip(right_of(s, width).len() - s.len()) == s,
        forall|i: int| 0 <= i < width - s.len() ==> #[trigger] right_of(s, width)[i] == ' ',
        left_of(s, width).len() == right_of(s, width).len(),
        left_of(s, width).take(s.len() as int) == s,
        forall|i: int|
            s.len() <= i < left_of(s, width).len() ==> #[trigger] left_of(s, width)[i] == ' ',
{
    assert(right_of(s, width).skip(right_of(s, width).len() - s.len()) =~= s);
    assert(left_of(s, width).take(s.len() as int) =~= s);
}

proof fn lemma_quotient_nearest(n: nat, m: nat, t: nat)
    requires
        m > 0,
        2 * n - m < 2 * t * m < 2 * n + m,
    ensures
        even_quotient(n, m) == t,
{
    let q = n / m;
    let r = n % m;
    assert(n == q * m + r && 0 <= r < m) by (nonlinear_arith)
        requires
            m > 0,
            q == n / m,
            r == n % m,
    ;
    assert(2 * r < m ==> t == q) by (nonlinear_arith)
        requires
            m > 0,
            n == q * m + r,
            0 <= r < m,
            2 * n - m < 2 * t * m < 2 * n + m,
    ;
    assert(2 * r >= m ==> t == q + 1) by (nonlinear_arith)
        requires
            m > 0,
            n == q * m + r,
            0 <= r < m,
            2 * n - m < 2 * t * m < 2 * n + m,
    ;
    assert(2 * r != m) by (nonlinear_arith)
        requires
            m > 0,
            n == q * m + r,
            0 <= r < m,
            2 * n - m < 2 * t * m < 2 * n + m,
    ;
}

/// A size is written in the nearest tenth of its unit: bytes below ten kibibytes,
/// kibibytes below ten mebibytes, mebibytes from there on.
pub proof fn lemma_size_nearest(n: u64, t: nat)
    requires
        n < 0x20_0000_0000_0000,
    ensures
        n < 10 * 1024 ==> human_of(n) == decimal_of(n as nat) + " B"@,
        10 * 1024 <= n < 10 * 1024 * 1024 && 20 * n - 1024 < 2 * t * 1024 < 20 * n + 1024
            ==> human_of(n) == decimal_of(t / 10) + "."@ + decimal_of(t % 10) + " KiB"@,
        10 * 1024 * 1024 <= n && 20 * n - 1024 * 1024 < 2 * t * (1024 * 1024) < 20 * n + 1024 * 1024
            ==> human_of(n) == decimal_of(t / 10) + "."@ + decimal_of(t % 10) + " MiB"@,
{
    assert(spacing(n as nat) == 1);
    assert(nearest(n as nat) == n);
    assert(decimal_of(t % 10) =~= seq![digit(t % 10)]);
    if 10 * 1024 <= n < 10 * 1024 * 1024 && 20 * n - 1024 < 2 * t * 1024 < 20 * n + 1024 {
        lemma_quotient_nearest(10 * n as nat, 1024, t);
        assert(tenths_of(n as nat, 1024) == t);
    }
    if 10 * 1024 * 1024 <= n && 20 * n - 1024 * 1024 < 2 * t * (1024 * 1024) < 20 * n + 1024 * 1024 {
        lemma_quotient_nearest(10 * n as nat, 0x10_0000, t);
        assert(tenths_of(n as nat, 0x10_0000) == t);
    }
}

proof fn lemma_line_len(line: Seq<char>, rest: Seq<char>)
    requires
        forall|i: int| 0 <= i < line.len() ==> line[i] != '\n',
        rest.len() == 0 || rest[0] == '\n',
    ensures
        line_len(line + rest) == line.len(),
    decreases line.len(),
{
    if line.len() == 0 {
        assert(line + rest =~= rest);
    } else {
        lemma_line_len(line.drop_first(), rest);
        assert((line + rest).drop_first() =~= line.drop_first() + rest);
    }
}

/// A line that does not start with "MemAvailable:" says nothing of the memory: what
/// the lines behind it say counts.
pub proof fn lemma_other_line(line: Seq<char>, rest: Seq<char>)
    requires
        forall|i: int| 0 <= i < line.len() ==> line[i] != '\n',
        !"MemAvailable:"@.is_prefix_of(line),
    ensures
        ram_of(Some(line + seq!['\n'] + rest)) == ram_of(Some(rest)),
{
    let s = line + seq!['\n'] + rest;
    lemma_line_len(line, seq!['\n'] + rest);
    assert(s =~= line + (seq!['\n'] + rest));
    assert(s.take(line.len() as int) =~= line);
    assert(s.skip(line.len() as int + 1) =~= rest);
}

/// Where no line says it, and where nothing can be read, there are eight gibibytes.
pub proof fn lemma_memory_unknown(line: Seq<char>)
    requires
        forall|i: int| 0 <= i < line.len() ==> line[i] != '\n',
        !"MemAvailable:"@.is_prefix_of(line),
    ensures
        ram_of(Some(line)) == 8 * 1024 * 1024 * 1024,
        ram_of(None) == 8 * 1024 * 1024 * 1024,
{
    lemma_line_len(line, Seq::empty());
    assert(line + Seq::<char>::empty() =~= line);
    assert(line.take(line.len() as int) =~= line);
}

proof fn lemma_spaces_trimmed(spaces: Seq<char>, t: Seq<char>)
    requires
        forall|i: int| 0 <= i < spaces.len() ==> is_space(#[trigger] spaces[i]),
        t.len() > 0,
        !is_space(t[0]),
    ensures
        trimmed(spaces + t) == t,
    decreases spaces.len(),
{
    if spaces.len() == 0 {
        assert(spaces + t =~= t);
    } else {
        lemma_spaces_trimmed(spaces.drop_first(), t);
        assert((spaces + t).drop_first() =~= spaces.drop_first() + t);
        assert(is_space(spaces[0]));
    }
}

proof fn lemma_word(word: Seq<char>, rest: Seq<char>)
    requires
        forall|i: int| 0 <= i < word.len() ==> !is_space(#[trigger] word[i]),
        rest.len() == 0 || is_space(rest[0]),
    ensures
        word_len(word + rest) == word.len(),
    decreases word.len(),
{
    if word.len() == 0 {
        assert(word + rest =~= rest);
    } else {
        assert(!is_space(word[0]));
        lemma_word(word.drop_first(), rest);
        assert((word + rest).drop_first() =~= word.drop_first() + rest);
    }
}

/// Whether a text is made of spaces.
pub open spec fn is_blank(s: Seq<char>) -> bool {
    forall|i: int| 0 <= i < s.len() ==> #[trigger] s[i] == ' '
}

/// A line "MemAvailable: n kB" says that there are `n` kibibytes, or as much as
/// fits in 64 bits.
pub proof fn lemma_memory_line(spaces: Seq<char>, n: u64, rest: Seq<char>)
    requires
        is_blank(spaces),
        rest.len() == 0 || rest[0] == '\n',
    ensures
        ram_of(
            Some("MemAvailable:"@ + spaces + decimal_of(n as nat) + " kB"@ + rest),
        ) == if n * 1024 <= u64::MAX {
            (n * 1024) as u64
        } else {
            u64::MAX
        },
{
    reveal_strlit("MemAvailable:");
    reveal_strlit(" kB");
    let p = "MemAvailable:"@;
    let d = decimal_of(n as nat);
    let line = p + spaces + d + " kB"@;
    let s = line + rest;
    lemma_decimal_then(n as nat, Seq::empty());
    lemma_decimal_read(n);
    assert forall|i: int| 0 <= i < line.len() implies line[i] != '\n' by {
        let j = i - p.len() - spaces.len();
        if i < p.len() {
            assert(line[i] == p[i]);
        } else if j < 0 {
            assert(line[i] == spaces[i - p.len()]);
        } else if j < d.len() {
            assert(line[i] == d[j]);
            assert(is_digit(d[j]));
        } else {
            assert(line[i] == " kB"@[j - d.len()]);
        }
    }
    lemma_line_len(line, rest);
    assert(s.take(line.len() as int) =~= line);
    assert(p.is_prefix_of(line)) by {
        assert(line.subrange(0, p.len() as int) =~= p);
    }
    let t = line.skip(p.len() as int);
    assert(t =~= spaces + (d + " kB"@));
    assert forall|i: int| 0 <= i < d.len() implies !is_space(#[trigger] d[i]) by {
        assert(is_digit(d[i]));
    }
    assert((d + " kB"@)[0] == d[0]);
    lemma_spaces_trimmed(spaces, d + " kB"@);
    lemma_word(d, " kB"@);
    assert((d + " kB"@).take(d.len() as int) =~= d);
    assert(first_word(t) == d);
    assert(available_in(line) == Some(n));
    assert(available_from(s) == Some(n));
}

} // verus!
