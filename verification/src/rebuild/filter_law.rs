//! What the filters of PNG rows mean: each byte of a row is what is stored plus a
//! prediction out of the bytes of the image around it.

use crate::plan::Image;
use crate::rebuild::filter::{
    before, filter_at, filtered_row, filtered_rows, has_rows, lemma_refilter_unfilter, lemma_row_in,
    lemma_rows_made, predicted, prediction, refiltered, row_at, source_row, unfiltered,
};
use vstd::prelude::*;

verus! {

/// How far two numbers are apart.
pub open spec fn distance(x: int, y: int) -> int {
    if x >= y {
        x - y
    } else {
        y - x
    }
}

/// Whether `x` is what Paeth's filter takes of the left byte `a`, the upper byte
/// `b` and the upper left byte `c`: the one nearest to `a + b - c`, the left one
/// where it is as near as any, and else the upper one where it is as near as the
/// upper left.
pub open spec fn is_paeth(a: int, b: int, c: int, x: int) -> bool {
    let p = a + b - c;
    &&& x == a || x == b || x == c
    &&& distance(x, p) <= distance(a, p)
    &&& distance(x, p) <= distance(b, p)
    &&& distance(x, p) <= distance(c, p)
    &&& distance(a, p) <= distance(b, p) && distance(a, p) <= distance(c, p) ==> x == a
    &&& distance(b, p) < distance(a, p) && distance(b, p) <= distance(c, p) ==> x == b
}

/// Whether filter `ft` predicts `x` from the left, the upper and the upper left
/// byte: nothing, the left, the upper, the mean of both rounded down, or Paeth's.
pub open spec fn predicts(ft: u8, a: int, b: int, c: int, x: int) -> bool {
    &&& ft == 0 ==> x == 0
    &&& ft == 1 ==> x == a
    &&& ft == 2 ==> x == b
    &&& ft == 3 ==> 2 * x <= a + b <= 2 * x + 1
    &&& ft == 4 ==> is_paeth(a, b, c, x)
}

/// Each filter predicts what the PNG format says.
pub proof fn lemma_predicts(ft: u8, a: u8, b: u8, c: u8)
    requires
        ft <= 4,
    ensures
        predicts(ft, a as int, b as int, c as int, predicted(ft, a as int, b as int, c as int)),
        0 <= predicted(ft, a as int, b as int, c as int) <= 255,
{
}

/// The byte of an image in row `y` and column `i`; zero outside.
pub open spec fn pixel_at(pixels: Seq<u8>, w: int, y: int, i: int) -> int {
    if y < 0 || i < 0 {
        0
    } else {
        pixels[y * w + i] as int
    }
}

/// Whether the byte in row `y` and column `i` is `stored` plus what filter `ft`
/// predicts from its neighbours, which lie one pixel to the left and one row up.
pub open spec fn is_pixel(ft: u8, pixels: Seq<u8>, w: int, bpp: int, y: int, i: int, stored: u8) -> bool {
    exists|x: int|
        #![trigger predicts(
            ft,
            pixel_at(pixels, w, y, i - bpp),
            pixel_at(pixels, w, y - 1, i),
            pixel_at(pixels, w, y - 1, i - bpp),
            x,
        )]
        predicts(
            ft,
            pixel_at(pixels, w, y, i - bpp),
            pixel_at(pixels, w, y - 1, i),
            pixel_at(pixels, w, y - 1, i - bpp),
            x,
        ) && pixels[y * w + i] == (stored + x) % 256
}

/// The bytes of a row and of a pixel, by the depth of samples and how many a
/// pixel has: one, or three for colour, two for grey and alpha, four for colour
/// and alpha. Both are rounded up to whole bytes.
pub proof fn lemma_row_and_pixel(p: Image)
    ensures
        p.color_type == 0 || p.color_type == 3 ==> {
            &&& 8 * p.row_len() - 8 < p.width * p.bit_depth <= 8 * p.row_len()
            &&& p.bit_depth > 0 ==> 8 * p.pixel_len() - 8 < p.bit_depth <= 8 * p.pixel_len()
        },
        p.color_type == 2 ==> {
            &&& 8 * p.row_len() - 8 < p.width * p.bit_depth * 3 <= 8 * p.row_len()
            &&& p.bit_depth > 0 ==> 8 * p.pixel_len() - 8 < p.bit_depth * 3 <= 8 * p.pixel_len()
        },
        p.color_type == 4 ==> {
            &&& 8 * p.row_len() - 8 < p.width * p.bit_depth * 2 <= 8 * p.row_len()
            &&& p.bit_depth > 0 ==> 8 * p.pixel_len() - 8 < p.bit_depth * 2 <= 8 * p.pixel_len()
        },
        p.color_type == 6 ==> {
            &&& 8 * p.row_len() - 8 < p.width * p.bit_depth * 4 <= 8 * p.row_len()
            &&& p.bit_depth > 0 ==> 8 * p.pixel_len() - 8 < p.bit_depth * 4 <= 8 * p.pixel_len()
        },
        p.pixel_len() >= 1,
{
}

/// A row is cut out of the pixels.
proof fn lemma_row_byte(pixels: Seq<u8>, w: int, y: int, h: int, i: int)
    requires
        0 <= i < w,
        y < h,
        pixels.len() == h * w,
    ensures
        row_at(pixels, w, y).len() == w,
        row_at(pixels, w, y)[i] == pixel_at(pixels, w, y, i),
        y >= 0 ==> 0 <= y * w + i < pixels.len(),
{
    if y >= 0 {
        lemma_row_in(y, w, h);
    }
}

/// What filtering stores of a row.
proof fn lemma_stored(filters: Seq<u8>, pixels: Seq<u8>, w: int, bpp: int, y: int, h: int, i: int)
    requires
        0 <= y < h,
        0 <= i < w,
        bpp >= 1,
        filters.len() == h,
        filters[y] <= 4,
        pixels.len() == h * w,
    ensures
        is_pixel(
            filters[y],
            pixels,
            w,
            bpp,
            y,
            i,
            filtered_row(filters[y], row_at(pixels, w, y), row_at(pixels, w, y - 1), bpp)[i],
        ),
{
    let row = row_at(pixels, w, y);
    let up = row_at(pixels, w, y - 1);
    lemma_row_byte(pixels, w, y, h, i);
    lemma_row_byte(pixels, w, y - 1, h, i);
    if i >= bpp {
        lemma_row_byte(pixels, w, y, h, i - bpp);
        lemma_row_byte(pixels, w, y - 1, h, i - bpp);
    }
    let a = pixel_at(pixels, w, y, i - bpp);
    let b = pixel_at(pixels, w, y - 1, i);
    let c = pixel_at(pixels, w, y - 1, i - bpp);
    assert(before(row, i, bpp) == a);
    assert(before(up, i, bpp) == c);
    let x = prediction(filters[y], row, up, bpp, i);
    assert(0 <= a <= 255 && 0 <= b <= 255 && 0 <= c <= 255);
    lemma_predicts(filters[y], a as u8, b as u8, c as u8);
    assert(predicts(filters[y], a, b, c, x));
    let f = filtered_row(filters[y], row, up, bpp)[i];
    assert(f == (row[i] - x) % 256);
    assert((f + x) % 256 == row[i]);
}

/// Whether the data is `h` rows of `w` bytes, each behind one of the five filters.
pub open spec fn are_rows(plain: Seq<u8>, w: int, h: int) -> bool {
    &&& w > 0
    &&& h > 0
    &&& plain.len() == h * (w + 1)
    &&& forall|y: int| 0 <= y < h ==> plain[#[trigger] (y * (w + 1))] <= 4
}

proof fn lemma_has_rows(p: Image, plain: Seq<u8>)
    ensures
        has_rows(p, plain) == are_rows(plain, p.row_len(), p.height as int),
{
    let w = p.row_len();
    if has_rows(p, plain) {
        assert forall|y: int| 0 <= y < p.height implies plain[#[trigger] (y * (w + 1))] <= 4 by {
            assert(filter_at(plain, w, y) <= 4);
        }
    }
    if are_rows(plain, w, p.height as int) {
        assert forall|y: int| 0 <= y < p.height implies #[trigger] filter_at(plain, w, y) <= 4 by {
            assert(plain[y * (w + 1)] <= 4);
        }
    }
}

/// Filters are removed wherever the data is the rows of the image, and nowhere
/// else.
pub proof fn lemma_unfilter_owed(p: Image, plain: Seq<u8>)
    ensures
        (unfiltered(p, plain) is Some) == are_rows(plain, p.row_len(), p.height as int),
{
    lemma_has_rows(p, plain);
}

proof fn lemma_rows_owed(filters: Seq<u8>, pixels: Seq<u8>, w: int, bpp: int, n: nat)
    requires
        forall|y: int| 0 <= y < n ==> #[trigger] filters[y] <= 4,
    ensures
        filtered_rows(filters, pixels, w, bpp, n) is Ok,
    decreases n,
{
    if n > 0 {
        lemma_rows_owed(filters, pixels, w, bpp, (n - 1) as nat);
        assert(filters[n - 1] <= 4);
    }
}

/// Filters are applied wherever there is one of the five for each row, and as
/// many pixels as the image has.
pub proof fn lemma_filter_owed(p: Image, filters: Seq<u8>, pixels: Seq<u8>)
    requires
        filters.len() == p.height,
        pixels.len() == p.row_len() * p.height,
        forall|y: int| 0 <= y < filters.len() ==> #[trigger] filters[y] <= 4,
    ensures
        refiltered(p, filters, pixels) is Ok,
{
    lemma_rows_owed(filters, pixels, p.row_len(), p.pixel_len(), p.height as nat);
}

/// The pixels of an image are what its rows store, each byte plus what the filter
/// of its row predicts from the pixels around it; and the filters are those that
/// stand before the rows.
pub proof fn lemma_unfilter_means(p: Image, plain: Seq<u8>, y: int, i: int)
    requires
        are_rows(plain, p.row_len(), p.height as int),
        0 <= y < p.height,
        0 <= i < p.row_len(),
    ensures
        unfiltered(p, plain) matches Some((filters, pixels)) && {
            let w = p.row_len();
            &&& filters.len() == p.height
            &&& filters[y] == plain[y * (w + 1)]
            &&& pixels.len() == p.height * w
            &&& is_pixel(
                filters[y],
                pixels,
                w,
                p.pixel_len(),
                y,
                i,
                plain[y * (w + 1) + 1 + i],
            )
        },
{
    let w = p.row_len();
    lemma_has_rows(p, plain);
    let (filters, pixels) = unfiltered(p, plain)->Some_0;
    lemma_refilter_unfilter(p, plain);
    lemma_filter_means(p, filters, pixels, y, i);
    assert(filter_at(plain, w, y) <= 4);
    assert(w * p.height == p.height * w) by (nonlinear_arith);
}

/// What filtering stores of an image: for each row its filter, and each byte less
/// what the filter predicts from the pixels around it.
pub proof fn lemma_filter_means(p: Image, filters: Seq<u8>, pixels: Seq<u8>, y: int, i: int)
    requires
        refiltered(p, filters, pixels) is Ok,
        0 <= y < p.height,
        0 <= i < p.row_len(),
    ensures
        ({
            let w = p.row_len();
            let s = refiltered(p, filters, pixels)->Ok_0;
            &&& s.len() == p.height * (w + 1)
            &&& s[y * (w + 1)] == filters[y]
            &&& filters[y] <= 4
            &&& is_pixel(filters[y], pixels, w, p.pixel_len(), y, i, s[y * (w + 1) + 1 + i])
        }),
{
    let w = p.row_len();
    let h = p.height as nat;
    let s = refiltered(p, filters, pixels)->Ok_0;
    assert(w * p.height == h * w) by (nonlinear_arith)
        requires
            h == p.height,
    ;
    lemma_rows_made(filters, pixels, w, p.pixel_len(), h, h);
    lemma_row_in(y, w + 1, h as int);
    assert(filter_at(s, w, y) == filters[y]);
    assert(source_row(s, w, y)[i] == s[y * (w + 1) + 1 + i]);
    lemma_stored(filters, pixels, w, p.pixel_len(), y, h as int, i);
}

} // verus!
