//! Box blurs over premultiplied RGBA pixels; three of them make the Gaussian blur
//! of shadows and layer blurs.
use vstd::prelude::*;
use vstd::arithmetic::div_mod::lemma_fundamental_div_mod_converse;

verus! {

/// The pixel at `i` along the line `line` of a `w` pixels wide image: lines are
/// rows when `horizontal`, else columns.
pub open spec fn pixel(w: int, horizontal: bool, line: int, i: int) -> int {
    if horizontal {
        line * w + i
    } else {
        i * w + line
    }
}

/// The number of lines and their length.
pub open spec fn line_count(w: int, h: int, horizontal: bool) -> int {
    if horizontal {
        h
    } else {
        w
    }
}

pub open spec fn line_len(w: int, h: int, horizontal: bool) -> int {
    if horizontal {
        w
    } else {
        h
    }
}

/// The sum of channel `c` over the pixels `lo..hi` of a line.
pub open spec fn window_sum(
    src: Seq<u8>,
    w: int,
    horizontal: bool,
    line: int,
    c: int,
    lo: int,
    hi: int,
) -> int
    decreases hi - lo,
{
    if hi <= lo {
        0
    } else {
        window_sum(src, w, horizontal, line, c, lo, hi - 1) + src[pixel(w, horizontal, line, hi - 1)
            * 4 + c] as int
    }
}

/// What a box of radius `r` divides by: 2r + 1 as a 32-bit number.
pub open spec fn box_size(r: int) -> int {
    ((2 * r + 1) as u32) as int
}

pub open spec fn max0(v: int) -> int {
    if v < 0 {
        0
    } else {
        v
    }
}

pub open spec fn min_of(a: int, b: int) -> int {
    if a < b {
        a
    } else {
        b
    }
}

/// The sum of channel `c` over the box of radius `r` around pixel `i` on line
/// `line`, the pixels past the ends left out.
pub open spec fn window_at(
    src: Seq<u8>,
    w: int,
    h: int,
    r: int,
    horizontal: bool,
    line: int,
    i: int,
    c: int,
) -> int {
    window_sum(
        src,
        w,
        horizontal,
        line,
        c,
        max0(i - r),
        min_of(line_len(w, h, horizontal), i + r + 1),
    )
}

/// Every box sum, with the half box added for rounding, fits in 32 bits.
pub open spec fn sums_fit(src: Seq<u8>, w: int, h: int, r: int, horizontal: bool) -> bool {
    forall|line: int, i: int, c: int|
        0 <= line < line_count(w, h, horizontal) && 0 <= i < line_len(w, h, horizontal) && 0 <= c
            < 4 ==> #[trigger] window_at(src, w, h, r, horizontal, line, i, c) + box_size(r) / 2
            <= u32::MAX
}

/// Channel `c` of pixel `i` on line `line` after the box blur: the rounded mean over
/// the box of radius `r` around it, the pixels past the ends counting as 0.
pub open spec fn blurred(
    src: Seq<u8>,
    w: int,
    h: int,
    r: int,
    horizontal: bool,
    line: int,
    i: int,
    c: int,
) -> u8 {
    let len = line_len(w, h, horizontal);
    ((window_sum(src, w, horizontal, line, c, max0(i - r), min_of(len, i + r + 1)) + box_size(r)
        / 2) / box_size(r)) as u8
}

proof fn lemma_window_front(
    src: Seq<u8>,
    w: int,
    horizontal: bool,
    line: int,
    c: int,
    lo: int,
    hi: int,
)
    requires
        lo < hi,
    ensures
        window_sum(src, w, horizontal, line, c, lo, hi) == src[pixel(w, horizontal, line, lo) * 4
            + c] as int + window_sum(src, w, horizontal, line, c, lo + 1, hi),
    decreases hi - lo,
{
    if hi - 1 > lo {
        lemma_window_front(src, w, horizontal, line, c, lo, hi - 1);
        assert(window_sum(src, w, horizontal, line, c, lo + 1, hi) == window_sum(
            src,
            w,
            horizontal,
            line,
            c,
            lo + 1,
            hi - 1,
        ) + src[pixel(w, horizontal, line, hi - 1) * 4 + c] as int);
    } else {
        assert(window_sum(src, w, horizontal, line, c, lo, hi - 1) == 0);
        assert(window_sum(src, w, horizontal, line, c, lo + 1, hi) == 0);
    }
}

proof fn lemma_window_mono(
    src: Seq<u8>,
    w: int,
    horizontal: bool,
    line: int,
    c: int,
    lo: int,
    a: int,
    b: int,
)
    requires
        lo <= a <= b,
    ensures
        window_sum(src, w, horizontal, line, c, lo, a) <= window_sum(src, w, horizontal, line, c, lo, b),
    decreases b - a,
{
    if a < b {
        lemma_window_mono(src, w, horizontal, line, c, lo, a, b - 1);
    }
}

proof fn lemma_window_bound(
    src: Seq<u8>,
    w: int,
    horizontal: bool,
    line: int,
    c: int,
    lo: int,
    hi: int,
)
    ensures
        0 <= window_sum(src, w, horizontal, line, c, lo, hi) <= 255 * max0(hi - lo),
    decreases hi - lo,
{
    if hi > lo {
        lemma_window_bound(src, w, horizontal, line, c, lo, hi - 1);
    }
}

/// Pixels on the lines of an image are distinct and inside it.
proof fn lemma_pixel(w: int, h: int, horizontal: bool, line: int, i: int)
    requires
        0 <= line < line_count(w, h, horizontal),
        0 <= i < line_len(w, h, horizontal),
    ensures
        0 <= pixel(w, horizontal, line, i) < w * h,
        pixel(w, horizontal, line, i) / w == if horizontal {
            line
        } else {
            i
        },
        pixel(w, horizontal, line, i) % w == if horizontal {
            i
        } else {
            line
        },
{
    if horizontal {
        assert(0 <= line * w + i < w * h) by (nonlinear_arith)
            requires
                0 <= line < h,
                0 <= i < w,
        ;
        lemma_fundamental_div_mod_converse(line * w + i, w, line, i);
    } else {
        assert(0 <= i * w + line < w * h) by (nonlinear_arith)
            requires
                0 <= i < h,
                0 <= line < w,
        ;
        lemma_fundamental_div_mod_converse(i * w + line, w, i, line);
    }
}

proof fn lemma_cell_distinct(
    w: int,
    h: int,
    horizontal: bool,
    l1: int,
    i1: int,
    c1: int,
    l2: int,
    i2: int,
    c2: int,
)
    requires
        0 <= l1 < line_count(w, h, horizontal),
        0 <= i1 < line_len(w, h, horizontal),
        0 <= l2 < line_count(w, h, horizontal),
        0 <= i2 < line_len(w, h, horizontal),
        0 <= c1 < 4,
        0 <= c2 < 4,
        pixel(w, horizontal, l1, i1) * 4 + c1 == pixel(w, horizontal, l2, i2) * 4 + c2,
    ensures
        l1 == l2 && i1 == i2 && c1 == c2,
{
    let p1 = pixel(w, horizontal, l1, i1);
    let p2 = pixel(w, horizontal, l2, i2);
    lemma_pixel(w, h, horizontal, l1, i1);
    lemma_pixel(w, h, horizontal, l2, i2);
    lemma_fundamental_div_mod_converse(p1 * 4 + c1, 4, p1, c1);
    lemma_fundamental_div_mod_converse(p2 * 4 + c2, 4, p2, c2);
}

/// The cell `(line, i, c)` comes before the position `(cl, cc, ci)` of the blur.
pub open spec fn done_before(line: int, c: int, i: int, cl: int, cc: int, ci: int) -> bool {
    line < cl || (line == cl && (c < cc || (c == cc && i < ci)))
}

proof fn lemma_after_write(
    src: Seq<u8>,
    before: Seq<u8>,
    after: Seq<u8>,
    w: int,
    h: int,
    r: int,
    horizontal: bool,
    line: int,
    i: int,
    c: int,
)
    requires
        0 <= line < line_count(w, h, horizontal),
        0 <= i < line_len(w, h, horizontal),
        0 <= c < 4,
        w * h * 4 <= before.len(),
        after == before.update(
            pixel(w, horizontal, line, i) * 4 + c,
            blurred(src, w, h, r, horizontal, line, i, c),
        ),
        forall|l: int, ii: int, cc: int|
            0 <= l < line_count(w, h, horizontal) && 0 <= ii < line_len(w, h, horizontal) && 0
                <= cc < 4 && done_before(l, cc, ii, line, c, i) ==> #[trigger] before[pixel(
                w,
                horizontal,
                l,
                ii,
            ) * 4 + cc] == blurred(src, w, h, r, horizontal, l, ii, cc),
    ensures
        forall|l: int, ii: int, cc: int|
            0 <= l < line_count(w, h, horizontal) && 0 <= ii < line_len(w, h, horizontal) && 0
                <= cc < 4 && done_before(l, cc, ii, line, c, i + 1) ==> #[trigger] after[pixel(
                w,
                horizontal,
                l,
                ii,
            ) * 4 + cc] == blurred(src, w, h, r, horizontal, l, ii, cc),
{
    let m = pixel(w, horizontal, line, i) * 4 + c;
    lemma_pixel(w, h, horizontal, line, i);
    assert forall|l: int, ii: int, cc: int|
        0 <= l < line_count(w, h, horizontal) && 0 <= ii < line_len(w, h, horizontal) && 0 <= cc
            < 4 && done_before(l, cc, ii, line, c, i + 1) implies #[trigger] after[pixel(
        w,
        horizontal,
        l,
        ii,
    ) * 4 + cc] == blurred(src, w, h, r, horizontal, l, ii, cc) by {
        let k = pixel(w, horizontal, l, ii) * 4 + cc;
        lemma_pixel(w, h, horizontal, l, ii);
        if l == line && ii == i && cc == c {
        } else {
            if k == m {
                lemma_cell_distinct(w, h, horizontal, l, ii, cc, line, i, c);
            }
            assert(done_before(l, cc, ii, line, c, i));
            assert(after[k] == before[k]);
        }
    }
}

fn at(w: usize, h: usize, horizontal: bool, line: usize, i: usize, c: usize) -> (k: usize)
    requires
        w * h * 4 <= usize::MAX,
        line < line_count(w as int, h as int, horizontal),
        i < line_len(w as int, h as int, horizontal),
        c < 4,
    ensures
        k == pixel(w as int, horizontal, line as int, i as int) * 4 + c,
        k < w * h * 4,
{
    proof {
        lemma_pixel(w as int, h as int, horizontal, line as int, i as int);
    }
    let p = if horizontal {
        proof {
            assert(line * w <= (h - 1) * w) by (nonlinear_arith)
                requires
                    line < h,
            ;
            assert((h - 1) * w + w == h * w) by (nonlinear_arith);
        }
        line * w + i
    } else {
        proof {
            assert(i * w <= (h - 1) * w) by (nonlinear_arith)
                requires
                    i < h,
            ;
            assert((h - 1) * w + w == h * w) by (nonlinear_arith);
        }
        i * w + line
    };
    p * 4 + c
}

/// Box blur of radius `r` of the RGBA pixels `src`, `w` × `h`, along rows when
/// `horizontal`, else along columns, into `dst`.
pub fn box_blur(src: &[u8], dst: &mut [u8], w: usize, h: usize, r: usize, horizontal: bool)
    requires
        w * h * 4 <= src@.len(),
        w * h * 4 <= old(dst)@.len(),
        2 * r + 1 <= usize::MAX,
        sums_fit(src@, w as int, h as int, r as int, horizontal),
    ensures
        final(dst)@.len() == old(dst)@.len(),
        forall|line: int, i: int, c: int|
            0 <= line < line_count(w as int, h as int, horizontal) && 0 <= i < line_len(
                w as int,
                h as int,
                horizontal,
            ) && 0 <= c < 4 ==> #[trigger] final(dst)@[pixel(w as int, horizontal, line, i) * 4 + c]
                == blurred(src@, w as int, h as int, r as int, horizontal, line, i, c),
        forall|k: int| w * h * 4 <= k < old(dst)@.len() ==> #[trigger] final(dst)@[k] == old(dst)@[k],
{
    let (lines, len) = if horizontal {
        (h, w)
    } else {
        (w, h)
    };
    let size = 2 * r + 1;
    assert(size & 1 == 1) by (bit_vector)
        requires
            size == 2 * r + 1,
    ;
    let n = size as u32;
    assert(n & 1 == 1 && n > 0) by (bit_vector)
        requires
            n == size as u32,
            size & 1 == 1,
    ;
    let ghost wi = w as int;
    let ghost hi = h as int;
    let ghost total = w * h * 4;
    let src_len = src.len();
    assert(w * h * 4 <= usize::MAX);
    let mut line: usize = 0;
    while line < lines
        invariant
            lines == line_count(wi, hi, horizontal),
            len == line_len(wi, hi, horizontal),
            w * h * 4 <= src@.len(),
            w * h * 4 <= usize::MAX,
            wi == w as int,
            hi == h as int,
            total == w * h * 4,
            w * h * 4 <= dst@.len(),
            dst@.len() == old(dst)@.len(),
            n as int == box_size(r as int),
            n > 0,
            2 * r + 1 <= usize::MAX,
            sums_fit(src@, wi, hi, r as int, horizontal),
            line <= lines,
            forall|l: int, i: int, c: int|
                0 <= l < lines && 0 <= i < len && 0 <= c < 4 && done_before(
                    l,
                    c,
                    i,
                    line as int,
                    0,
                    0,
                ) ==> #[trigger] dst@[pixel(wi, horizontal, l, i) * 4 + c] == blurred(
                    src@,
                    wi,
                    hi,
                    r as int,
                    horizontal,
                    l,
                    i,
                    c,
                ),
            forall|k: int| total <= k < dst@.len() ==> #[trigger] dst@[k] == old(dst)@[k],
        decreases lines - line,
    {
        let mut c: usize = 0;
        while c < 4
            invariant
                lines == line_count(wi, hi, horizontal),
                len == line_len(wi, hi, horizontal),
                w * h * 4 <= src@.len(),
                w * h * 4 <= usize::MAX,
                wi == w as int,
                hi == h as int,
                total == w * h * 4,
                w * h * 4 <= dst@.len(),
                dst@.len() == old(dst)@.len(),
                n as int == box_size(r as int),
                n > 0,
                2 * r + 1 <= usize::MAX,
                sums_fit(src@, wi, hi, r as int, horizontal),
                line < lines,
                c <= 4,
                forall|l: int, i: int, cc: int|
                    0 <= l < lines && 0 <= i < len && 0 <= cc < 4 && done_before(
                        l,
                        cc,
                        i,
                        line as int,
                        c as int,
                        0,
                    ) ==> #[trigger] dst@[pixel(wi, horizontal, l, i) * 4 + cc] == blurred(
                        src@,
                        wi,
                        hi,
                        r as int,
                        horizontal,
                        l,
                        i,
                        cc,
                    ),
                forall|k: int| total <= k < dst@.len() ==> #[trigger] dst@[k] == old(dst)@[k],
            decreases 4 - c,
        {
            let first = if r < len {
                r
            } else {
                len
            };
            let mut sum: u32 = 0;
            let mut j: usize = 0;
            while j < first
                invariant
                    first <= len,
                    first <= r,
                    len == line_len(wi, hi, horizontal),
                    lines == line_count(wi, hi, horizontal),
                    line < lines,
                    c < 4,
                    w * h * 4 <= src@.len(),
                    w * h * 4 <= usize::MAX,
                    wi == w as int,
                    hi == h as int,
                    sums_fit(src@, wi, hi, r as int, horizontal),
                    j <= first,
                    sum as int == window_sum(src@, wi, horizontal, line as int, c as int, 0, j as int),
                decreases first - j,
            {
                let k = at(w, h, horizontal, line, j, c);
                proof {
                    assert(window_at(src@, wi, hi, r as int, horizontal, line as int, 0, c as int)
                        + box_size(r as int) / 2 <= u32::MAX);
                    lemma_window_mono(
                        src@,
                        wi,
                        horizontal,
                        line as int,
                        c as int,
                        0,
                        j + 1,
                        min_of(len as int, r + 1),
                    );
                    assert(window_sum(src@, wi, horizontal, line as int, c as int, 0, j + 1)
                        == sum + src@[k as int]);
                }
                sum = sum + src[k] as u32;
                j = j + 1;
            }
            let mut i: usize = 0;
            while i < len
                invariant
                    first == min_of(r as int, len as int),
                    len == line_len(wi, hi, horizontal),
                    lines == line_count(wi, hi, horizontal),
                    line < lines,
                    c < 4,
                    w * h * 4 <= src@.len(),
                    w * h * 4 <= usize::MAX,
                    wi == w as int,
                    hi == h as int,
                    w * h * 4 <= dst@.len(),
                    total == w * h * 4,
                    dst@.len() == old(dst)@.len(),
                    n as int == box_size(r as int),
                    n > 0,
                    2 * r + 1 <= usize::MAX,
                    sums_fit(src@, wi, hi, r as int, horizontal),
                    i <= len,
                    sum as int == window_sum(
                        src@,
                        wi,
                        horizontal,
                        line as int,
                        c as int,
                        max0(i - r),
                        min_of(len as int, i + r),
                    ),
                    forall|l: int, ii: int, cc: int|
                        0 <= l < lines && 0 <= ii < len && 0 <= cc < 4 && done_before(
                            l,
                            cc,
                            ii,
                            line as int,
                            c as int,
                            i as int,
                        ) ==> #[trigger] dst@[pixel(wi, horizontal, l, ii) * 4 + cc] == blurred(
                            src@,
                            wi,
                            hi,
                            r as int,
                            horizontal,
                            l,
                            ii,
                            cc,
                        ),
                    forall|k: int| total <= k < dst@.len() ==> #[trigger] dst@[k] == old(dst)@[k],
                decreases len - i,
            {
                let ghost lo = max0(i - r);
                let ghost hi0 = min_of(len as int, i + r);
                if r < len && i < len - r {
                    let k = at(w, h, horizontal, line, i + r, c);
                    proof {
                        assert(window_at(src@, wi, hi, r as int, horizontal, line as int, i as int, c as int)
                            + box_size(r as int) / 2 <= u32::MAX);
                        assert(window_sum(src@, wi, horizontal, line as int, c as int, lo, hi0 + 1)
                            == sum + src@[k as int]);
                    }
                    sum = sum + src[k] as u32;
                }
                let ghost hi1 = min_of(len as int, i + r + 1);
                assert(sum as int == window_sum(src@, wi, horizontal, line as int, c as int, lo, hi1));
                proof {
                    lemma_window_bound(src@, wi, horizontal, line as int, c as int, lo, hi1);
                    assert(window_at(src@, wi, hi, r as int, horizontal, line as int, i as int, c as int)
                        + box_size(r as int) / 2 <= u32::MAX);
                }
                let v = ((sum + n / 2) / n) as u8;
                let m = at(w, h, horizontal, line, i, c);
                let ghost before = dst@;
                dst[m] = v;
                assert(v == blurred(src@, wi, hi, r as int, horizontal, line as int, i as int, c as int));
                proof {
                    lemma_after_write(
                        src@,
                        before,
                        dst@,
                        wi,
                        hi,
                        r as int,
                        horizontal,
                        line as int,
                        i as int,
                        c as int,
                    );
                    assert forall|k: int| total <= k < dst@.len() implies #[trigger] dst@[k]
                        == old(dst)@[k] by {
                        assert(k != m);
                        assert(dst@[k] == before[k]);
                    }
                }
                if i >= r {
                    let k = at(w, h, horizontal, line, i - r, c);
                    proof {
                        lemma_window_front(src@, wi, horizontal, line as int, c as int, lo, hi1);
                        lemma_window_bound(src@, wi, horizontal, line as int, c as int, lo + 1, hi1);
                    }
                    sum = sum - src[k] as u32;
                }
                i = i + 1;
            }
            c = c + 1;
        }
        line = line + 1;
    }
}

/// A box of radius 0 leaves every pixel as it is.
pub proof fn lemma_radius_zero_copies(src: Seq<u8>, w: int, h: int, horizontal: bool)
    ensures
        forall|line: int, i: int, c: int|
            0 <= line < line_count(w, h, horizontal) && 0 <= i < line_len(w, h, horizontal) && 0
                <= c < 4 ==> #[trigger] blurred(src, w, h, 0, horizontal, line, i, c) == src[pixel(
                w,
                horizontal,
                line,
                i,
            ) * 4 + c],
{
    assert forall|line: int, i: int, c: int|
        0 <= line < line_count(w, h, horizontal) && 0 <= i < line_len(w, h, horizontal) && 0 <= c
            < 4 implies #[trigger] blurred(src, w, h, 0, horizontal, line, i, c) == src[pixel(
        w,
        horizontal,
        line,
        i,
    ) * 4 + c] by {
        assert(window_sum(src, w, horizontal, line, c, i, i) == 0);
        assert(box_size(0) == 1) by (bit_vector);
    }
}

proof fn lemma_flat_window(
    src: Seq<u8>,
    w: int,
    horizontal: bool,
    line: int,
    c: int,
    v: u8,
    lo: int,
    hi: int,
)
    requires
        lo <= hi,
        forall|j: int| lo <= j < hi ==> #[trigger] src[pixel(w, horizontal, line, j) * 4 + c] == v,
    ensures
        window_sum(src, w, horizontal, line, c, lo, hi) == (hi - lo) * v,
    decreases hi - lo,
{
    if lo < hi {
        lemma_flat_window(src, w, horizontal, line, c, v, lo, hi - 1);
        assert(src[pixel(w, horizontal, line, hi - 1) * 4 + c] == v);
        assert((hi - 1 - lo) * v + v == (hi - lo) * v) by (nonlinear_arith);
    } else {
        assert((hi - lo) * v == 0) by (nonlinear_arith)
            requires
                hi == lo,
        ;
    }
}

/// Where a line is of one colour around a pixel, as far as the box reaches, the
/// blur leaves that pixel's colour as it is: the blur is a mean.
pub proof fn lemma_flat_stays_flat(
    src: Seq<u8>,
    w: int,
    h: int,
    r: int,
    horizontal: bool,
    line: int,
    i: int,
    c: int,
    v: u8,
)
    requires
        0 <= r,
        2 * r + 1 <= u32::MAX,
        r <= i,
        i + r < line_len(w, h, horizontal),
        forall|j: int|
            i - r <= j <= i + r ==> #[trigger] src[pixel(w, horizontal, line, j) * 4 + c] == v,
    ensures
        blurred(src, w, h, r, horizontal, line, i, c) == v,
{
    lemma_flat_window(src, w, horizontal, line, c, v, i - r, i + r + 1);
    let n = 2 * r + 1;
    assert(box_size(r) == n);
    assert(0 <= n / 2 < n);
    vstd::arithmetic::div_mod::lemma_fundamental_div_mod_converse(n * v + n / 2, n, v as int, n / 2);
    assert((i + r + 1 - (i - r)) * v == n * v);
}

/// Whether `box_blur` can blur `src` with radius `r`: every box sum, with the half
/// box added for rounding, fits in 32 bits.
pub fn box_blur_fits(src: &[u8], w: usize, h: usize, r: usize, horizontal: bool) -> (b: bool)
    requires
        w * h * 4 <= src@.len(),
        2 * r + 1 <= usize::MAX,
    ensures
        b == sums_fit(src@, w as int, h as int, r as int, horizontal),
{
    let (lines, len) = if horizontal {
        (h, w)
    } else {
        (w, h)
    };
    let n = (2 * r + 1) as u32;
    let half = (n / 2) as u64;
    let limit: u64 = 0xffff_ffff - half;
    let ghost wi = w as int;
    let ghost hi = h as int;
    let ghost ri = r as int;
    let src_len = src.len();
    assert(w * h * 4 <= usize::MAX);
    let mut line: usize = 0;
    while line < lines
        invariant
            lines == line_count(wi, hi, horizontal),
            len == line_len(wi, hi, horizontal),
            w * h * 4 <= src@.len(),
            w * h * 4 <= usize::MAX,
            wi == w as int,
            hi == h as int,
            ri == r as int,
            half == box_size(ri) / 2,
            limit + half == 0xffff_ffff,
            line <= lines,
            forall|l: int, i: int, cc: int|
                0 <= l < lines && 0 <= i < len && 0 <= cc < 4 && done_before(l, cc, i, line as int, 0, 0)
                    ==> #[trigger] window_at(src@, wi, hi, ri, horizontal, l, i, cc) + box_size(ri) / 2
                    <= u32::MAX,
        decreases lines - line,
    {
        let mut c: usize = 0;
        while c < 4
            invariant
                lines == line_count(wi, hi, horizontal),
                len == line_len(wi, hi, horizontal),
                w * h * 4 <= src@.len(),
                w * h * 4 <= usize::MAX,
                wi == w as int,
                hi == h as int,
                ri == r as int,
                half == box_size(ri) / 2,
                limit + half == 0xffff_ffff,
                line < lines,
                c <= 4,
                forall|l: int, i: int, cc: int|
                    0 <= l < lines && 0 <= i < len && 0 <= cc < 4 && done_before(
                        l,
                        cc,
                        i,
                        line as int,
                        c as int,
                        0,
                    ) ==> #[trigger] window_at(src@, wi, hi, ri, horizontal, l, i, cc) + box_size(ri)
                        / 2 <= u32::MAX,
            decreases 4 - c,
        {
            let first = if r < len {
                r
            } else {
                len
            };
            let mut sum: u64 = 0;
            let mut j: usize = 0;
            while j < first
                invariant
                    first <= len,
                    first <= r,
                    len == line_len(wi, hi, horizontal),
                    lines == line_count(wi, hi, horizontal),
                    line < lines,
                    c < 4,
                    w * h * 4 <= src@.len(),
                    w * h * 4 <= usize::MAX,
                    wi == w as int,
                    hi == h as int,
                    ri == r as int,
                    half == box_size(ri) / 2,
                    limit + half == 0xffff_ffff,
                    j <= first,
                    sum <= limit,
                    sum as int == window_sum(src@, wi, horizontal, line as int, c as int, 0, j as int),
                decreases first - j,
            {
                let k = at(w, h, horizontal, line, j, c);
                proof {
                    assert(window_sum(src@, wi, horizontal, line as int, c as int, 0, j + 1) == sum
                        + src@[k as int]);
                }
                sum = sum + src[k] as u64;
                j = j + 1;
                if sum > limit {
                    proof {
                        lemma_window_mono(
                            src@,
                            wi,
                            horizontal,
                            line as int,
                            c as int,
                            0,
                            j as int,
                            min_of(len as int, r + 1),
                        );
                        assert(window_at(src@, wi, hi, ri, horizontal, line as int, 0, c as int)
                            + box_size(ri) / 2 > u32::MAX);
                    }
                    return false;
                }
            }
            let mut i: usize = 0;
            while i < len
                invariant
                    first == min_of(r as int, len as int),
                    len == line_len(wi, hi, horizontal),
                    lines == line_count(wi, hi, horizontal),
                    line < lines,
                    c < 4,
                    w * h * 4 <= src@.len(),
                    w * h * 4 <= usize::MAX,
                    wi == w as int,
                    hi == h as int,
                    ri == r as int,
                    half == box_size(ri) / 2,
                    limit + half == 0xffff_ffff,
                    i <= len,
                    sum <= limit,
                    sum as int == window_sum(
                        src@,
                        wi,
                        horizontal,
                        line as int,
                        c as int,
                        max0(i - r),
                        min_of(len as int, i + r),
                    ),
                    forall|l: int, ii: int, cc: int|
                        0 <= l < lines && 0 <= ii < len && 0 <= cc < 4 && done_before(
                            l,
                            cc,
                            ii,
                            line as int,
                            c as int,
                            i as int,
                        ) ==> #[trigger] window_at(src@, wi, hi, ri, horizontal, l, ii, cc)
                            + box_size(ri) / 2 <= u32::MAX,
                decreases len - i,
            {
                let ghost lo = max0(i - r);
                let ghost hi0 = min_of(len as int, i + r);
                if r < len && i < len - r {
                    let k = at(w, h, horizontal, line, i + r, c);
                    proof {
                        assert(window_sum(src@, wi, horizontal, line as int, c as int, lo, hi0 + 1)
                            == sum + src@[k as int]);
                    }
                    sum = sum + src[k] as u64;
                }
                let ghost hi1 = min_of(len as int, i + r + 1);
                assert(sum as int == window_sum(src@, wi, horizontal, line as int, c as int, lo, hi1));
                assert(sum as int == window_at(src@, wi, hi, ri, horizontal, line as int, i as int, c as int));
                if sum > limit {
                    return false;
                }
                proof {
                    assert forall|l: int, ii: int, cc: int|
                        0 <= l < lines && 0 <= ii < len && 0 <= cc < 4 && done_before(
                            l,
                            cc,
                            ii,
                            line as int,
                            c as int,
                            i + 1,
                        ) implies #[trigger] window_at(src@, wi, hi, ri, horizontal, l, ii, cc)
                        + box_size(ri) / 2 <= u32::MAX by {
                        if !(l == line && cc == c && ii == i) {
                            assert(done_before(l, cc, ii, line as int, c as int, i as int));
                        }
                    }
                }
                if i >= r {
                    let k = at(w, h, horizontal, line, i - r, c);
                    proof {
                        lemma_window_front(src@, wi, horizontal, line as int, c as int, lo, hi1);
                        lemma_window_bound(src@, wi, horizontal, line as int, c as int, lo + 1, hi1);
                    }
                    sum = sum - src[k] as u64;
                }
                i = i + 1;
            }
            c = c + 1;
        }
        line = line + 1;
    }
    true
}

} // verus!
