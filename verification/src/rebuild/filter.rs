//! The filters of PNG rows: each byte is stored as its difference from a
//! prediction out of the bytes to the left and in the row above.

use crate::error::{same_bytes, Error};
use crate::plan::{Image, PngIdatSeg};
use vstd::prelude::*;

verus! {

pub open spec fn gap(a: int, b: int) -> int {
    if a < b {
        b - a
    } else {
        a - b
    }
}

/// Of the left, the upper and the upper left byte, the one nearest to left plus
/// upper less upper left.
pub open spec fn nearest(a: int, b: int, c: int) -> int {
    let p = a + b - c;
    if gap(p, a) <= gap(p, b) && gap(p, a) <= gap(p, c) {
        a
    } else if gap(p, b) <= gap(p, c) {
        b
    } else {
        c
    }
}

/// What filter `ft` predicts from the left, the upper and the upper left byte.
pub open spec fn predicted(ft: u8, a: int, b: int, c: int) -> int {
    if ft == 1 {
        a
    } else if ft == 2 {
        b
    } else if ft == 3 {
        (a + b) / 2
    } else if ft == 4 {
        nearest(a, b, c)
    } else {
        0
    }
}

/// The byte one pixel before `i`, or zero.
pub open spec fn before(row: Seq<u8>, i: int, bpp: int) -> int {
    if i >= bpp {
        row[i - bpp] as int
    } else {
        0
    }
}

pub open spec fn prediction(ft: u8, row: Seq<u8>, up: Seq<u8>, bpp: int, i: int) -> int {
    predicted(ft, before(row, i, bpp), up[i] as int, before(up, i, bpp))
}

/// Row `y` of `s`, of `w` bytes; above the first there are zeros.
pub open spec fn row_at(s: Seq<u8>, w: int, y: int) -> Seq<u8> {
    if y < 0 {
        Seq::new(w as nat, |i: int| 0u8)
    } else {
        s.subrange(y * w, y * w + w)
    }
}

pub open spec fn filtered_row(ft: u8, row: Seq<u8>, up: Seq<u8>, bpp: int) -> Seq<u8> {
    Seq::new(
        row.len(),
        |i: int| ((row[i] - prediction(ft, row, up, bpp, i)) % 256) as u8,
    )
}

/// The first `n` rows, each behind its filter.
pub open spec fn filtered_rows(filters: Seq<u8>, pixels: Seq<u8>, w: int, bpp: int, n: nat) -> Result<
    Seq<u8>,
    Error,
>
    decreases n,
{
    if n == 0 {
        Ok(Seq::empty())
    } else {
        let y = n - 1;
        match filtered_rows(filters, pixels, w, bpp, y as nat) {
            Err(e) => Err(e),
            Ok(s) => if filters[y] > 4 {
                Err(Error::BadFilterType(filters[y]))
            } else {
                Ok(
                    s.push(filters[y]) + filtered_row(
                        filters[y],
                        row_at(pixels, w, y),
                        row_at(pixels, w, y - 1),
                        bpp,
                    ),
                )
            },
        }
    }
}

/// The filtered rows of an image.
pub open spec fn refiltered(p: Image, filters: Seq<u8>, pixels: Seq<u8>) -> Result<
    Seq<u8>,
    Error,
> {
    if filters.len() != p.height {
        Err(Error::FilterCountMismatch)
    } else if pixels.len() != p.row_len() * p.height {
        Err(Error::PixelSizeMismatch)
    } else {
        filtered_rows(filters, pixels, p.row_len(), p.pixel_len(), p.height as nat)
    }
}

/// The first `n` bytes of a row whose filtered bytes are `src`.
pub open spec fn unfiltered_row(ft: u8, src: Seq<u8>, up: Seq<u8>, bpp: int, n: nat) -> Seq<u8>
    decreases n,
{
    if n == 0 {
        Seq::empty()
    } else {
        let r = unfiltered_row(ft, src, up, bpp, (n - 1) as nat);
        r.push(((src[n - 1] + prediction(ft, r, up, bpp, n - 1)) % 256) as u8)
    }
}

/// The filtered bytes of row `y`, without its filter.
pub open spec fn source_row(plain: Seq<u8>, w: int, y: int) -> Seq<u8> {
    plain.subrange(y * (w + 1) + 1, y * (w + 1) + 1 + w)
}

pub open spec fn filter_at(plain: Seq<u8>, w: int, y: int) -> u8 {
    plain[y * (w + 1)]
}

/// The pixels of the first `n` rows.
pub open spec fn unfiltered_rows(plain: Seq<u8>, w: int, bpp: int, n: nat) -> Seq<u8>
    decreases n,
{
    if n == 0 {
        Seq::empty()
    } else {
        let y = n - 1;
        let p = unfiltered_rows(plain, w, bpp, y as nat);
        p + unfiltered_row(
            filter_at(plain, w, y),
            source_row(plain, w, y),
            row_at(p, w, y - 1),
            bpp,
            w as nat,
        )
    }
}

/// Whether the data has the rows of the image, each with a known filter.
pub open spec fn has_rows(p: Image, plain: Seq<u8>) -> bool {
    &&& p.row_len() > 0
    &&& p.height > 0
    &&& plain.len() == p.height * (p.row_len() + 1)
    &&& forall|y: int| 0 <= y < p.height ==> #[trigger] filter_at(plain, p.row_len(), y) <= 4
}

pub open spec fn filters_of(plain: Seq<u8>, w: int, n: nat) -> Seq<u8> {
    Seq::new(n, |y: int| filter_at(plain, w, y))
}

/// The filters and the pixels of an image, or nothing where the data has not
/// its rows.
pub open spec fn unfiltered(p: Image, plain: Seq<u8>) -> Option<(Seq<u8>, Seq<u8>)> {
    if has_rows(p, plain) {
        Some(
            (
                filters_of(plain, p.row_len(), p.height as nat),
                unfiltered_rows(plain, p.row_len(), p.pixel_len(), p.height as nat),
            ),
        )
    } else {
        None
    }
}

proof fn lemma_unfiltered_row(ft: u8, src: Seq<u8>, up: Seq<u8>, bpp: int, n: nat)
    requires
        n <= src.len(),
        bpp >= 1,
    ensures
        unfiltered_row(ft, src, up, bpp, n).len() == n,
        forall|i: int|
            0 <= i < n ==> (#[trigger] unfiltered_row(ft, src, up, bpp, n)[i] - prediction(
                ft,
                unfiltered_row(ft, src, up, bpp, n),
                up,
                bpp,
                i,
            )) % 256 == src[i],
    decreases n,
{
    if n > 0 {
        let r = unfiltered_row(ft, src, up, bpp, (n - 1) as nat);
        let q = unfiltered_row(ft, src, up, bpp, n);
        lemma_unfiltered_row(ft, src, up, bpp, (n - 1) as nat);
        assert forall|i: int| 0 <= i < n implies (#[trigger] q[i] - prediction(ft, q, up, bpp, i))
            % 256 == src[i] by {
            assert(before(q, i, bpp) == before(r, i, bpp));
            if i < n - 1 {
                assert(q[i] == r[i]);
            } else {
                let x: int = src[i] + prediction(ft, r, up, bpp, i);
                assert(q[i] == x % 256);
                assert((x % 256 - prediction(ft, r, up, bpp, i)) % 256 == src[i]);
            }
        }
    }
}

/// Filtering a row that was unfiltered gives its filtered bytes.
proof fn lemma_row_back(ft: u8, src: Seq<u8>, up: Seq<u8>, bpp: int)
    requires
        bpp >= 1,
    ensures
        unfiltered_row(ft, src, up, bpp, src.len()).len() == src.len(),
        filtered_row(ft, unfiltered_row(ft, src, up, bpp, src.len()), up, bpp) == src,
{
    let r = unfiltered_row(ft, src, up, bpp, src.len());
    lemma_unfiltered_row(ft, src, up, bpp, src.len());
    let f = filtered_row(ft, r, up, bpp);
    assert forall|i: int| 0 <= i < src.len() implies f[i] == src[i] by {
        assert((r[i] - prediction(ft, r, up, bpp, i)) % 256 == src[i]);
    }
    assert(f =~= src);
}

proof fn lemma_unfiltered_rows_len(plain: Seq<u8>, w: int, bpp: int, n: nat)
    requires
        w >= 0,
        bpp >= 1,
        n * (w + 1) <= plain.len(),
    ensures
        unfiltered_rows(plain, w, bpp, n).len() == n * w,
    decreases n,
{
    if n > 0 {
        let y = n - 1;
        lemma_rows_fit(y, w, n as int, plain.len() as int);
        lemma_unfiltered_rows_len(plain, w, bpp, y as nat);
        lemma_unfiltered_row(
            filter_at(plain, w, y),
            source_row(plain, w, y),
            row_at(unfiltered_rows(plain, w, bpp, y as nat), w, y - 1),
            bpp,
            w as nat,
        );
        assert(y * w + w == n * w) by (nonlinear_arith)
            requires
                y == n - 1,
        ;
    } else {
        assert(n * w == 0) by (nonlinear_arith)
            requires
                n == 0,
        ;
    }
}

proof fn lemma_rows_fit(y: int, w: int, n: int, len: int)
    requires
        0 <= y < n,
        0 <= w,
        n * (w + 1) <= len,
    ensures
        0 <= y * (w + 1),
        y * (w + 1) + 1 + w <= len,
        y * (w + 1) + (w + 1) == (y + 1) * (w + 1),
        y * (w + 1) <= n * (w + 1),
{
    assert(0 <= y * (w + 1) && y * (w + 1) + (w + 1) == (y + 1) * (w + 1) && (y + 1) * (w + 1) <= n
        * (w + 1)) by (nonlinear_arith)
        requires
            0 <= y < n,
            0 <= w,
    ;
}

pub proof fn lemma_row_in(y: int, w: int, n: int)
    requires
        0 <= y < n,
        0 <= w,
    ensures
        0 <= y * w,
        y * w + w <= n * w,
        y * w + w == (y + 1) * w,
{
    assert(0 <= y * w && y * w + w == (y + 1) * w && (y + 1) * w <= n * w) by (nonlinear_arith)
        requires
            0 <= y < n,
            0 <= w,
    ;
}

/// The rows of more rows start with the rows of fewer.
proof fn lemma_row_of_prefix(plain: Seq<u8>, w: int, bpp: int, y: int, n: nat)
    requires
        0 <= y < n,
        w >= 0,
        bpp >= 1,
        n * (w + 1) <= plain.len(),
    ensures
        row_at(unfiltered_rows(plain, w, bpp, n), w, y) == unfiltered_row(
            filter_at(plain, w, y),
            source_row(plain, w, y),
            row_at(unfiltered_rows(plain, w, bpp, y as nat), w, y - 1),
            bpp,
            w as nat,
        ),
    decreases n,
{
    let k = (n - 1) as nat;
    lemma_rows_fit(k as int, w, n as int, plain.len() as int);
    lemma_unfiltered_rows_len(plain, w, bpp, n);
    lemma_unfiltered_rows_len(plain, w, bpp, k);
    let p = unfiltered_rows(plain, w, bpp, k);
    let q = unfiltered_rows(plain, w, bpp, n);
    lemma_unfiltered_row(
        filter_at(plain, w, k as int),
        source_row(plain, w, k as int),
        row_at(p, w, k - 1),
        bpp,
        w as nat,
    );
    if y == k {
        assert(row_at(q, w, y) =~= unfiltered_row(
            filter_at(plain, w, y),
            source_row(plain, w, y),
            row_at(p, w, y - 1),
            bpp,
            w as nat,
        ));
    } else {
        lemma_row_in(y, w, k as int);
        assert(row_at(q, w, y) =~= row_at(p, w, y));
        lemma_row_of_prefix(plain, w, bpp, y, k);
    }
}

/// The row above is the same in fewer rows and in all.
proof fn lemma_up_same(plain: Seq<u8>, w: int, bpp: int, y: int, n: nat)
    requires
        0 <= y < n,
        w >= 0,
        bpp >= 1,
        n * (w + 1) <= plain.len(),
    ensures
        row_at(unfiltered_rows(plain, w, bpp, n), w, y - 1) == row_at(
            unfiltered_rows(plain, w, bpp, y as nat),
            w,
            y - 1,
        ),
{
    if y > 0 {
        lemma_rows_fit(y, w, n as int, plain.len() as int);
        lemma_row_of_prefix(plain, w, bpp, y - 1, n);
        lemma_row_of_prefix(plain, w, bpp, y - 1, y as nat);
    }
}

proof fn lemma_rows_back(plain: Seq<u8>, w: int, bpp: int, h: nat, n: nat)
    requires
        n <= h,
        w >= 0,
        bpp >= 1,
        plain.len() == h * (w + 1),
        forall|y: int| 0 <= y < h ==> #[trigger] filter_at(plain, w, y) <= 4,
    ensures
        filtered_rows(
            filters_of(plain, w, h),
            unfiltered_rows(plain, w, bpp, h),
            w,
            bpp,
            n,
        ) == Ok::<Seq<u8>, Error>(plain.take(n * (w + 1))),
    decreases n,
{
    if n == 0 {
        assert(plain.take(0) =~= Seq::<u8>::empty());
        assert(0 * (w + 1) == 0);
    } else {
        let y = n - 1;
        lemma_rows_back(plain, w, bpp, h, y as nat);
        lemma_rows_fit(y, w, h as int, plain.len() as int);
        let ft = filter_at(plain, w, y);
        let src = source_row(plain, w, y);
        let all = unfiltered_rows(plain, w, bpp, h);
        lemma_row_of_prefix(plain, w, bpp, y, h);
        lemma_up_same(plain, w, bpp, y, h);
        lemma_row_back(ft, src, row_at(all, w, y - 1), bpp);
        assert(plain.take(n * (w + 1)) =~= plain.take(y * (w + 1)).push(ft) + src);
    }
}

/// Filtering again gives what was unfiltered.
pub proof fn lemma_refilter_unfilter(p: Image, plain: Seq<u8>)
    requires
        has_rows(p, plain),
    ensures
        unfiltered(p, plain) matches Some((f, x)) && refiltered(p, f, x) == Ok::<Seq<u8>, Error>(
            plain,
        ),
{
    let w = p.row_len();
    lemma_unfiltered_rows_len(plain, w, p.pixel_len(), p.height as nat);
    assert(p.height * w == w * p.height) by (nonlinear_arith);
    lemma_rows_back(plain, w, p.pixel_len(), p.height as nat, p.height as nat);
    assert(plain.take(plain.len() as int) =~= plain);
}

/// Unfiltering a row that was filtered gives the row.
proof fn lemma_row_forth(ft: u8, row: Seq<u8>, up: Seq<u8>, bpp: int, n: nat)
    requires
        n <= row.len(),
        bpp >= 1,
    ensures
        unfiltered_row(ft, filtered_row(ft, row, up, bpp), up, bpp, n) == row.take(n as int),
    decreases n,
{
    let src = filtered_row(ft, row, up, bpp);
    if n == 0 {
        assert(row.take(0) =~= Seq::<u8>::empty());
    } else {
        let i = n - 1;
        lemma_row_forth(ft, row, up, bpp, i as nat);
        let r = row.take(i);
        assert(before(r, i, bpp) == before(row, i, bpp));
        let p = prediction(ft, row, up, bpp, i);
        assert(src[i] == (row[i] - p) % 256);
        assert(((row[i] - p) % 256 + p) % 256 == row[i]);
        assert(r.push(row[i]) =~= row.take(n as int));
    }
}

/// What rows that were filtered hold: each filter, and the filtered bytes.
pub proof fn lemma_rows_made(filters: Seq<u8>, pixels: Seq<u8>, w: int, bpp: int, n: nat, h: nat)
    requires
        n <= h,
        w >= 0,
        filters.len() == h,
        pixels.len() == h * w,
        filtered_rows(filters, pixels, w, bpp, n) is Ok,
    ensures
        ({
            let s = filtered_rows(filters, pixels, w, bpp, n)->Ok_0;
            &&& s.len() == n * (w + 1)
            &&& forall|y: int|
                0 <= y < n ==> #[trigger] filter_at(s, w, y) == filters[y] && filters[y] <= 4
            &&& forall|y: int|
                0 <= y < n ==> #[trigger] source_row(s, w, y) == filtered_row(
                    filters[y],
                    row_at(pixels, w, y),
                    row_at(pixels, w, y - 1),
                    bpp,
                )
        }),
    decreases n,
{
    if n == 0 {
        assert(0 * (w + 1) == 0);
    } else {
        let k = (n - 1) as nat;
        lemma_rows_made(filters, pixels, w, bpp, k, h);
        let t = filtered_rows(filters, pixels, w, bpp, k)->Ok_0;
        let s = filtered_rows(filters, pixels, w, bpp, n)->Ok_0;
        lemma_row_in(k as int, w, h as int);
        lemma_row_in(k as int, w + 1, n as int);
        let last = filtered_row(
            filters[k as int],
            row_at(pixels, w, k as int),
            row_at(pixels, w, k - 1),
            bpp,
        );
        assert(last.len() == w);
        assert forall|y: int| 0 <= y < n implies #[trigger] filter_at(s, w, y) == filters[y]
            && filters[y] <= 4 by {
            if y < k {
                lemma_row_in(y, w + 1, k as int);
                assert(filter_at(t, w, y) == filters[y]);
            }
        }
        assert forall|y: int| 0 <= y < n implies #[trigger] source_row(s, w, y) == filtered_row(
            filters[y],
            row_at(pixels, w, y),
            row_at(pixels, w, y - 1),
            bpp,
        ) by {
            if y < k {
                lemma_row_in(y, w + 1, k as int);
                assert(source_row(s, w, y) =~= source_row(t, w, y));
            } else {
                assert(source_row(s, w, y) =~= last);
            }
        }
    }
}

proof fn lemma_rows_forth(filters: Seq<u8>, pixels: Seq<u8>, s: Seq<u8>, w: int, bpp: int, n: nat, h: nat)
    requires
        n <= h,
        w >= 0,
        bpp >= 1,
        filters.len() == h,
        pixels.len() == h * w,
        filtered_rows(filters, pixels, w, bpp, h) == Ok::<Seq<u8>, Error>(s),
    ensures
        unfiltered_rows(s, w, bpp, n) == pixels.take(n * w),
    decreases n,
{
    if n == 0 {
        assert(0 * w == 0);
        assert(pixels.take(0) =~= Seq::<u8>::empty());
    } else {
        let y = n - 1;
        lemma_rows_forth(filters, pixels, s, w, bpp, y as nat, h);
        lemma_rows_made(filters, pixels, w, bpp, h, h);
        lemma_row_in(y, w, h as int);
        let p = pixels.take(y * w);
        let row = row_at(pixels, w, y);
        let up = row_at(pixels, w, y - 1);
        if y > 0 {
            lemma_row_in(y - 1, w, y);
            assert(row_at(p, w, y - 1) =~= up);
        }
        assert(row.len() == w);
        assert(filter_at(s, w, y) == filters[y]);
        assert(source_row(s, w, y) == filtered_row(filters[y], row, up, bpp));
        lemma_row_forth(filters[y], row, up, bpp, w as nat);
        assert(row.take(w) =~= row);
        assert(p + row =~= pixels.take(n * w));
    }
}

/// Unfiltering what was filtered again gives the filters and the pixels.
pub proof fn lemma_unfilter_refilter(p: Image, filters: Seq<u8>, pixels: Seq<u8>)
    requires
        p.row_len() > 0,
        p.height > 0,
        refiltered(p, filters, pixels) is Ok,
    ensures
        unfiltered(p, refiltered(p, filters, pixels)->Ok_0) == Some((filters, pixels)),
{
    let w = p.row_len();
    let h = p.height as nat;
    let s = refiltered(p, filters, pixels)->Ok_0;
    assert(w * p.height == h * w) by (nonlinear_arith)
        requires
            h == p.height,
    ;
    lemma_rows_made(filters, pixels, w, p.pixel_len(), h, h);
    lemma_rows_forth(filters, pixels, s, w, p.pixel_len(), h, h);
    assert(filters_of(s, w, h) =~= filters) by {
        assert forall|y: int| 0 <= y < h implies filter_at(s, w, y) == filters[y] by {}
    }
    assert(pixels.take(h * w) =~= pixels);
}

fn paeth(a: i32, b: i32, c: i32) -> (r: i32)
    requires
        0 <= a <= 255,
        0 <= b <= 255,
        0 <= c <= 255,
    ensures
        r == nearest(a as int, b as int, c as int),
        0 <= r <= 255,
{
    let p: i32 = a + b - c;
    let pa: i32 = if p < a {
        a - p
    } else {
        p - a
    };
    let pb: i32 = if p < b {
        b - p
    } else {
        p - b
    };
    let pc: i32 = if p < c {
        c - p
    } else {
        p - c
    };
    if pa <= pb && pa <= pc {
        a
    } else if pb <= pc {
        b
    } else {
        c
    }
}

fn predict(ft: u8, a: u8, b: u8, c: u8) -> (r: u8)
    ensures
        r == predicted(ft, a as int, b as int, c as int),
{
    match ft {
        1 => a,
        2 => b,
        3 => ((a as u32 + b as u32) / 2) as u8,
        4 => paeth(a as i32, b as i32, c as i32) as u8,
        _ => 0,
    }
}

/// The byte of `s` at `at`, which is `i` into its row, one pixel before, or
/// zero where the row starts.
fn byte_before(s: &[u8], at: usize, i: usize, bpp: usize, Ghost(row): Ghost<Seq<u8>>) -> (r: u8)
    requires
        1 <= bpp,
        i <= at <= s@.len(),
        i <= row.len(),
        forall|k: int| 0 <= k < i ==> #[trigger] row[k] == s@[at - i + k],
    ensures
        r == before(row, i as int, bpp as int),
{
    if i >= bpp {
        assert(row[i - bpp] == s@[at - i + (i - bpp)]);
        s[at - bpp]
    } else {
        0
    }
}

/// Filters the row that starts at `at`, below the row that starts at `up` or
/// below nothing.
fn filter_row(out: &mut Vec<u8>, ft: u8, pixels: &[u8], y: usize, w: usize, bpp: usize)
    requires
        1 <= bpp,
        y * w + w <= pixels@.len(),
    ensures
        final(out)@ == old(out)@ + filtered_row(
            ft,
            row_at(pixels@, w as int, y as int),
            row_at(pixels@, w as int, y - 1),
            bpp as int,
        ),
{
    let ghost row = row_at(pixels@, w as int, y as int);
    let ghost up = row_at(pixels@, w as int, y - 1);
    let ghost start = out@;
    proof {
        assert(0 <= y * w) by (nonlinear_arith);
        if y > 0 {
            lemma_row_in(y - 1, w as int, y as int);
        }
    }
    let len: usize = pixels.len();
    assert(y * w + w <= len);
    let at: usize = y * w;
    let mut i: usize = 0;
    while i < w
        invariant
            i <= w,
            1 <= bpp,
            at == y * w,
            at + w <= len,
            len == pixels@.len(),
            y > 0 ==> (y - 1) * w == at - w && at >= w,
            row == row_at(pixels@, w as int, y as int),
            up == row_at(pixels@, w as int, y - 1),
            out@.len() == start.len() + i,
            out@.take(start.len() as int) == start,
            forall|k: int|
                0 <= k < i ==> #[trigger] out@[start.len() + k] == ((row[k] - prediction(
                    ft,
                    row,
                    up,
                    bpp as int,
                    k,
                )) % 256) as u8,
        decreases w - i,
    {
        let a: u8 = byte_before(pixels, at + i, i, bpp, Ghost(row));
        let (b, c): (u8, u8) = if y == 0 {
            (0, 0)
        } else {
            (pixels[at - w + i], byte_before(pixels, at - w + i, i, bpp, Ghost(up)))
        };
        assert(b == up[i as int]);
        assert(c == before(up, i as int, bpp as int));
        let p: u8 = predict(ft, a, b, c);
        assert(pixels@[at + i] == row[i as int]);
        let ghost before_push = out@;
        out.push(pixels[at + i].wrapping_sub(p));
        proof {
            assert(out@.take(start.len() as int) =~= before_push.take(start.len() as int));
            assert forall|k: int| 0 <= k < i + 1 implies #[trigger] out@[start.len() + k] == ((row[k]
                - prediction(ft, row, up, bpp as int, k)) % 256) as u8 by {
                if k < i {
                    assert(out@[start.len() + k] == before_push[start.len() + k]);
                }
            }
        }
        i += 1;
    }
    let ghost f = filtered_row(ft, row, up, bpp as int);
    proof {
        assert forall|k: int| 0 <= k < out@.len() implies out@[k] == (start + f)[k] by {
            if k < start.len() {
                assert(out@.take(start.len() as int)[k] == start[k]);
            } else {
                assert(out@[start.len() + (k - start.len())] == f[k - start.len()]);
            }
        }
        assert(out@ =~= start + f);
    }
}

/// Applies the filters to the pixels again.
pub fn refilter(p: &PngIdatSeg, filters: &[u8], pixels: &[u8]) -> (r: Result<Vec<u8>, Error>)
    ensures
        same_bytes(r, refiltered(p@, filters@, pixels@)),
{
    let stride: u64 = p.row_bytes();
    let bpp: usize = p.filter_bpp();
    let h: u64 = p.height as u64;
    if filters.len() as u64 != h {
        return Err(Error::FilterCountMismatch);
    }
    assert(0 <= stride * h <= 0x80_0000_0000 * 0x1_0000_0000) by (nonlinear_arith)
        requires
            stride <= 0x80_0000_0000,
            h <= 0x1_0000_0000,
    ;
    if pixels.len() as u128 != stride as u128 * h as u128 {
        return Err(Error::PixelSizeMismatch);
    }
    let ghost w = p@.row_len();
    let mut out: Vec<u8> = Vec::new();
    let mut y: usize = 0;
    while y < filters.len()
        invariant
            y <= filters@.len(),
            filters@.len() == h,
            h == p.height,
            stride == w,
            w == p@.row_len(),
            bpp == p@.pixel_len(),
            1 <= bpp,
            pixels@.len() == stride * h,
            filtered_rows(filters@, pixels@, w, bpp as int, y as nat) == Ok::<Seq<u8>, Error>(out@),
        decreases filters.len() - y,
    {
        let ft: u8 = filters[y];
        if ft > 4 {
            proof {
                lemma_rows_err(filters@, pixels@, w, bpp as int, (y + 1) as nat, filters@.len());
            }
            return Err(Error::BadFilterType(ft));
        }
        let len: usize = pixels.len();
        proof {
            lemma_row_in(y as int, w, h as int);
            assert(stride * h == h * stride) by (nonlinear_arith);
            assert(y * w + w <= len);
        }
        out.push(ft);
        filter_row(&mut out, ft, pixels, y, stride as usize, bpp);
        y += 1;
    }
    Ok(out)
}

proof fn lemma_rows_err(filters: Seq<u8>, pixels: Seq<u8>, w: int, bpp: int, k: nat, n: nat)
    requires
        k <= n,
        filtered_rows(filters, pixels, w, bpp, k) is Err,
    ensures
        filtered_rows(filters, pixels, w, bpp, n) == filtered_rows(filters, pixels, w, bpp, k),
    decreases n,
{
    if k < n {
        lemma_rows_err(filters, pixels, w, bpp, k, (n - 1) as nat);
    }
}

/// The prediction of byte `i` of the row that comes after `start`, of which `r`
/// is there already.
fn predict_at(
    ft: u8,
    pixels: &[u8],
    at: usize,
    i: usize,
    y: usize,
    w: usize,
    bpp: usize,
    Ghost(start): Ghost<Seq<u8>>,
    Ghost(r): Ghost<Seq<u8>>,
) -> (p: u8)
    requires
        1 <= bpp,
        i < w,
        at == start.len(),
        at == y * w,
        r.len() == i,
        pixels@ == start + r,
    ensures
        p == prediction(ft, r, row_at(start, w as int, y - 1), bpp as int, i as int),
{
    let ghost up = row_at(start, w as int, y - 1);
    let n: usize = pixels.len();
    let a: u8 = byte_before(pixels, n, i, bpp, Ghost(r));
    if y == 0 {
        predict(ft, a, 0, 0)
    } else {
        proof {
            lemma_row_in(y - 1, w as int, y as int);
            assert forall|k: int| 0 <= k < w implies #[trigger] up[k] == pixels@[at - w + k] by {
                assert(up[k] == start[at - w + k]);
            }
        }
        assert(up[i as int] == pixels@[at - w + i]);
        let b: u8 = pixels[at - w + i];
        let c: u8 = byte_before(pixels, at - w + i, i, bpp, Ghost(up));
        predict(ft, a, b, c)
    }
}

/// Adds a row to the pixels, out of its filtered bytes from `from` on.
fn unfilter_row(
    pixels: &mut Vec<u8>,
    ft: u8,
    plain: &[u8],
    from: usize,
    y: usize,
    w: usize,
    bpp: usize,
)
    requires
        1 <= bpp,
        old(pixels)@.len() == y * w,
        from + w <= plain@.len(),
    ensures
        final(pixels)@ == old(pixels)@ + unfiltered_row(
            ft,
            plain@.subrange(from as int, from + w),
            row_at(old(pixels)@, w as int, y - 1),
            bpp as int,
            w as nat,
        ),
{
    let ghost start = pixels@;
    let ghost src = plain@.subrange(from as int, from + w);
    let ghost up = row_at(pixels@, w as int, y - 1);
    let at: usize = pixels.len();
    proof {
        if y > 0 {
            lemma_row_in(y - 1, w as int, y as int);
        }
    }
    let len: usize = plain.len();
    let mut i: usize = 0;
    assert(pixels@ =~= start + unfiltered_row(ft, src, up, bpp as int, 0));
    while i < w
        invariant
            i <= w,
            1 <= bpp,
            at == start.len(),
            at == y * w,
            y > 0 ==> (y - 1) * w == at - w && at >= w,
            from + w <= len,
            len == plain@.len(),
            src == plain@.subrange(from as int, from + w),
            up == row_at(start, w as int, y - 1),
            unfiltered_row(ft, src, up, bpp as int, i as nat).len() == i,
            pixels@ == start + unfiltered_row(ft, src, up, bpp as int, i as nat),
        decreases w - i,
    {
        let ghost r = unfiltered_row(ft, src, up, bpp as int, i as nat);
        let p: u8 = predict_at(
            ft,
            pixels.as_slice(),
            at,
            i,
            y,
            w,
            bpp,
            Ghost(start),
            Ghost(r),
        );
        assert(src[i as int] == plain@[from + i]);
        let v: u8 = plain[from + i].wrapping_add(p);
        pixels.push(v);
        i += 1;
        assert(pixels@ =~= start + unfiltered_row(ft, src, up, bpp as int, i as nat));
    }
}

/// Removes the filters: the filter of each row, and the pixels. None where the
/// data has not the rows of the image.
pub fn unfilter(p: &PngIdatSeg, plain: &[u8]) -> (r: Option<(Vec<u8>, Vec<u8>)>)
    ensures
        match unfiltered(p@, plain@) {
            Some((f, x)) => r matches Some((a, b)) && a@ == f && b@ == x,
            None => r is None,
        },
{
    let stride: u64 = p.row_bytes();
    let bpp: usize = p.filter_bpp();
    let h: u64 = p.height as u64;
    assert(0 <= h * (stride + 1) <= 0x1_0000_0000 * 0x100_0000_0000) by (nonlinear_arith)
        requires
            stride + 1 <= 0x100_0000_0000,
            h <= 0x1_0000_0000,
    ;
    if stride == 0 || h == 0 || plain.len() as u128 != h as u128 * (stride as u128 + 1) {
        return None;
    }
    let ghost w = p@.row_len();
    proof {
        lemma_rows_fit(0, w, h as int, plain@.len() as int);
    }
    let width: usize = stride as usize;
    let mut filters: Vec<u8> = Vec::new();
    let mut pixels: Vec<u8> = Vec::new();
    let mut at: usize = 0;
    let mut y: usize = 0;
    assert(filters@ =~= filters_of(plain@, w, 0));
    assert(0 * (w + 1) == 0);
    while (y as u64) < h
        invariant
            y <= h,
            h == p.height,
            h > 0,
            w == p@.row_len(),
            w == width,
            w > 0,
            bpp == p@.pixel_len(),
            1 <= bpp,
            plain@.len() == h * (w + 1),
            at == y * (w + 1),
            forall|k: int| 0 <= k < y ==> #[trigger] filter_at(plain@, w, k) <= 4,
            filters@ == filters_of(plain@, w, y as nat),
            pixels@ == unfiltered_rows(plain@, w, bpp as int, y as nat),
        decreases h - y,
    {
        proof {
            lemma_rows_fit(y as int, w, h as int, plain@.len() as int);
            lemma_unfiltered_rows_len(plain@, w, bpp as int, y as nat);
        }
        let ft: u8 = plain[at];
        assert(ft == filter_at(plain@, w, y as int));
        if ft > 4 {
            return None;
        }
        filters.push(ft);
        unfilter_row(&mut pixels, ft, plain, at + 1, y, width, bpp);
        at = at + 1 + width;
        y += 1;
        assert(filters@ =~= filters_of(plain@, w, y as nat));
    }
    Some((filters, pixels))
}

} // verus!
