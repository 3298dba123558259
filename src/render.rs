use vstd::prelude::*;
use crate::color::{Color, color_total, has_levels, postprocess_color};

verus! {

/// Whether `p` lies in batch `k` of `ranges`, a half-open range of pixel indices.
pub open spec fn in_batch(ranges: Seq<(usize, usize)>, k: int, p: int) -> bool {
    &&& 0 <= k < ranges.len()
    &&& ranges[k].0 <= p < ranges[k].1
}

/// Whether `ranges` cuts pixels `0..n` into consecutive batches of
/// `size` pixels, the last one holding what is left.
pub open spec fn is_batching(ranges: Seq<(usize, usize)>, n: int, size: int) -> bool {
    &&& ranges.len() * size >= n
    &&& (ranges.len() == 0 || (ranges.len() - 1) * size < n)
    &&& forall|k: int| 0 <= k < ranges.len() ==> batch_is(#[trigger] ranges[k], k, n, size)
}

/// Whether `range` is batch `k` of pixels `0..n` in batches of `size`.
pub open spec fn batch_is(range: (usize, usize), k: int, n: int, size: int) -> bool {
    &&& range.0 == k * size
    &&& range.1 == if k * size + size <= n { k * size + size } else { n }
}

/// Splits the pixel indices `0..pixel_count` into batches of `batch_size`
/// consecutive pixels, in order; the last batch holds the remainder.
pub fn batch_ranges(pixel_count: usize, batch_size: usize) -> (ranges: Vec<(usize, usize)>)
    requires
        batch_size > 0,
    ensures
        is_batching(ranges@, pixel_count as int, batch_size as int),
{
    let n = pixel_count;
    let b = batch_size;
    let mut ranges: Vec<(usize, usize)> = Vec::new();
    let mut start: usize = 0;
    assert(ranges.len() == 0);
    assert(0 * b == 0);
    while start < n
        invariant
            b > 0,
            start <= n,
            start == ranges.len() * b || (start == n && ranges.len() * b >= n),
            ranges.len() == 0 || (ranges.len() - 1) * b < n,
            forall|k: int|
                0 <= k < ranges.len() ==> batch_is(#[trigger] ranges@[k], k, n as int, b as int),
        decreases n - start,
    {
        let len = ranges.len();
        assert(start == len * b);
        assert((len + 1) * b == len * b + b) by (nonlinear_arith);
        let end = if n - start > b { start + b } else { n };
        ranges.push((start, end));
        start = end;
    }
    ranges
}

/// Every pixel of `0..n` lies in exactly one batch of a batching.
pub proof fn lemma_batches_partition(ranges: Seq<(usize, usize)>, n: int, size: int, p: int)
    requires
        size > 0,
        0 <= p < n,
        is_batching(ranges, n, size),
    ensures
        in_batch(ranges, p / size, p),
        forall|k1: int, k2: int| in_batch(ranges, k1, p) && in_batch(ranges, k2, p) ==> k1 == k2,
{
    let k = p / size;
    assert(k * size <= p < k * size + size) by (nonlinear_arith)
        requires
            size > 0,
            p >= 0,
            k == p / size,
    ;
    assert(0 <= k < ranges.len()) by (nonlinear_arith)
        requires
            size > 0,
            0 <= p < n,
            k == p / size,
            ranges.len() * size >= n,
    ;
    assert(batch_is(ranges[k], k, n, size));
    assert forall|k1: int, k2: int| in_batch(ranges, k1, p) && in_batch(ranges, k2, p) implies k1
        == k2 by {
        assert(batch_is(ranges[k1], k1, n, size));
        assert(batch_is(ranges[k2], k2, n, size));
        assert(k1 * size <= p < k1 * size + size);
        assert(k2 * size <= p < k2 * size + size);
        assert(k1 == k2) by (nonlinear_arith)
            requires
                size > 0,
                k1 * size <= p < k1 * size + size,
                k2 * size <= p < k2 * size + size,
        ;
    }
}

/// The column of pixel `p` in an image `width` pixels wide.
pub open spec fn pixel_column(p: int, width: int) -> int {
    p % width
}

/// The row of pixel `p` counted from the bottom, as the viewport counts:
/// the image is stored top row first.
pub open spec fn pixel_row(p: int, width: int, height: int) -> int {
    height - 1 - p / width
}

/// The position in the stored image of the pixel at column `i` and row `j`
/// counted from the bottom.
pub open spec fn pixel_index(i: int, j: int, width: int, height: int) -> int {
    (height - 1 - j) * width + i
}

/// The viewport position (column, row from the bottom) of stored pixel `index`.
pub fn pixel_coords(index: usize, width: usize, height: usize) -> (c: (usize, usize))
    requires
        width > 0,
        index < width * height,
    ensures
        c.0 == pixel_column(index as int, width as int),
        c.1 == pixel_row(index as int, width as int, height as int),
        c.0 < width,
        c.1 < height,
{
    assert(index / width < height) by (nonlinear_arith)
        requires
            width > 0,
            index < width * height,
    ;
    (index % width, height - 1 - index / width)
}

/// Stored positions and viewport positions correspond one to one: every
/// stored pixel has a position in the viewport, and every position in the
/// viewport is stored at exactly one index.
pub proof fn lemma_pixel_positions(width: int, height: int, p: int, i: int, j: int)
    requires
        width > 0,
        height > 0,
        0 <= p < width * height,
        0 <= i < width,
        0 <= j < height,
    ensures
        0 <= pixel_column(p, width) < width,
        0 <= pixel_row(p, width, height) < height,
        pixel_index(pixel_column(p, width), pixel_row(p, width, height), width, height) == p,
        0 <= pixel_index(i, j, width, height) < width * height,
        pixel_column(pixel_index(i, j, width, height), width) == i,
        pixel_row(pixel_index(i, j, width, height), width, height) == j,
{
    assert(0 <= p / width < height && p == (p / width) * width + p % width && 0 <= p % width
        < width) by (nonlinear_arith)
        requires
            width > 0,
            0 <= p < width * height,
    ;
    let q = pixel_index(i, j, width, height);
    assert(0 <= q < width * height && q / width == height - 1 - j && q % width == i)
        by (nonlinear_arith)
        requires
            width > 0,
            0 <= i < width,
            0 <= j < height,
            q == (height - 1 - j) * width + i,
    ;
}

/// The viewport position of stored pixel `p`, as the arguments of a shading call.
pub open spec fn pixel_pos(p: int, width: int, height: int) -> (usize, usize) {
    (pixel_column(p, width) as usize, pixel_row(p, width, height) as usize)
}

/// Whether `cs` holds `samples` colours, sample `s` one that `shade` can
/// return for the viewport position `pos` and sample index `s`.
pub open spec fn are_samples<F: Fn(usize, usize, usize) -> Color>(
    shade: &F,
    pos: (usize, usize),
    samples: int,
    cs: Seq<Color>,
) -> bool {
    &&& cs.len() == samples
    &&& forall|s: int| 0 <= s < cs.len() ==> shade.ensures((pos.0, pos.1, s as usize), #[trigger] cs[s])
}

/// Whether `px` holds the output levels of the sum of `samples` colours that
/// `shade` can return for pixel `p` of the image.
pub open spec fn shaded<F: Fn(usize, usize, usize) -> Color>(
    shade: &F,
    p: int,
    width: int,
    height: int,
    samples: int,
    px: [i32; 3],
) -> bool {
    exists|cs: Seq<Color>|
        #[trigger] are_samples(shade, pixel_pos(p, width, height), samples, cs) && has_levels(
            px,
            color_total(cs),
            samples,
        )
}

/// Whether `pixels` renders the stored pixels `start..end` of the image
/// through `shade`, in order.
pub open spec fn renders<F: Fn(usize, usize, usize) -> Color>(
    shade: &F,
    start: int,
    end: int,
    width: int,
    height: int,
    samples: int,
    pixels: Seq<[i32; 3]>,
) -> bool {
    &&& pixels.len() == end - start
    &&& forall|k: int|
        0 <= k < pixels.len() ==> shaded(
            shade,
            start + k,
            width,
            height,
            samples,
            #[trigger] pixels[k],
        )
}

/// Renders the stored pixels `start..end` of a `width` by `height` image.
/// `shade(i, j, s)` returns sample `s` of the light through the pixel at
/// viewport column `i` and row `j`; it is called for `s` in `0..samples`,
/// and the result holds the post-processed sums of each pixel in order.
pub fn render_batch<F: Fn(usize, usize, usize) -> Color>(
    start: usize,
    end: usize,
    width: usize,
    height: usize,
    samples: usize,
    shade: &F,
) -> (pixels: Vec<[i32; 3]>)
    requires
        width > 0,
        start <= end <= width * height,
        forall|i: usize, j: usize, s: usize|
                i < width && j < height && s < samples ==> shade.requires((i, j, s)),
    ensures
        renders(
            shade,
            start as int,
            end as int,
            width as int,
            height as int,
            samples as int,
            pixels@,
        ),
{
    let mut pixels: Vec<[i32; 3]> = Vec::new();
    let mut p: usize = start;
    while p < end
        invariant
            width > 0,
            start <= p <= end <= width * height,
            forall|i: usize, j: usize, s: usize|
                i < width && j < height && s < samples ==> shade.requires((i, j, s)),
            pixels.len() == p - start,
            forall|k: int|
                0 <= k < pixels.len() ==> shaded(
                    shade,
                    start + k,
                    width as int,
                    height as int,
                    samples as int,
                    #[trigger] pixels@[k],
                ),
        decreases end - p,
    {
        let (i, j) = pixel_coords(p, width, height);
        assert(pixel_pos(p as int, width as int, height as int) == (i, j));
        let mut sum = Color::black();
        let ghost mut cs: Seq<Color> = Seq::empty();
        let mut s: usize = 0;
        while s < samples
            invariant
                i < width,
                j < height,
                forall|i: usize, j: usize, s: usize|
                i < width && j < height && s < samples ==> shade.requires((i, j, s)),
                s <= samples,
                are_samples(shade, (i, j), s as int, cs),
                sum == color_total(cs),
            decreases samples - s,
        {
            let c = shade(i, j, s);
            proof {
                let old_cs = cs;
                cs = cs.push(c);
                assert(cs.drop_last() =~= old_cs);
            }
            sum = sum.saturating_add(&c);
            s = s + 1;
        }
        let px = postprocess_color(sum, samples);
        assert(are_samples(shade, pixel_pos(p as int, width as int, height as int), samples as int, cs));
        assert(shaded(shade, p as int, width as int, height as int, samples as int, px));
        pixels.push(px);
        p = p + 1;
    }
    pixels
}

/// Rendering is a function of the shading: where `shade` returns one colour
/// for each position and sample index (its random draws come from a seed
/// fixed for that pixel and sample, or it draws none), any two renderings of
/// the same pixels are equal.
pub proof fn lemma_render_deterministic<F: Fn(usize, usize, usize) -> Color>(
    shade: &F,
    start: int,
    end: int,
    width: int,
    height: int,
    samples: int,
    pixels1: Seq<[i32; 3]>,
    pixels2: Seq<[i32; 3]>,
)
    requires
        forall|i: usize, j: usize, s: usize, c1: Color, c2: Color|
            #[trigger] shade.ensures((i, j, s), c1) && #[trigger] shade.ensures((i, j, s), c2)
                ==> c1 == c2,
        renders(shade, start, end, width, height, samples, pixels1),
        renders(shade, start, end, width, height, samples, pixels2),
    ensures
        pixels1 == pixels2,
{
    assert forall|k: int| 0 <= k < pixels1.len() implies pixels1[k] == pixels2[k] by {
        let pos = pixel_pos(start + k, width, height);
        assert(shaded(shade, start + k, width, height, samples, pixels1[k]));
        assert(shaded(shade, start + k, width, height, samples, pixels2[k]));
        let cs1 = choose|cs: Seq<Color>|
            #[trigger] are_samples(shade, pos, samples, cs) && has_levels(
                pixels1[k],
                color_total(cs),
                samples,
            );
        let cs2 = choose|cs: Seq<Color>|
            #[trigger] are_samples(shade, pos, samples, cs) && has_levels(
                pixels2[k],
                color_total(cs),
                samples,
            );
        assert forall|s: int| 0 <= s < cs1.len() implies cs1[s] == cs2[s] by {
            assert(shade.ensures((pos.0, pos.1, s as usize), cs1[s]));
            assert(shade.ensures((pos.0, pos.1, s as usize), cs2[s]));
        }
        assert(cs1 =~= cs2);
        assert(pixels1[k] =~= pixels2[k]);
    }
    assert(pixels1 =~= pixels2);
}

/// Renderings of two adjacent runs of pixels, joined, render both runs.
pub proof fn lemma_renders_append<F: Fn(usize, usize, usize) -> Color>(
    shade: &F,
    start: int,
    mid: int,
    end: int,
    width: int,
    height: int,
    samples: int,
    first: Seq<[i32; 3]>,
    second: Seq<[i32; 3]>,
)
    requires
        renders(shade, start, mid, width, height, samples, first),
        renders(shade, mid, end, width, height, samples, second),
    ensures
        renders(shade, start, end, width, height, samples, first + second),
{
    let joined = first + second;
    assert forall|k: int| 0 <= k < joined.len() implies shaded(
        shade,
        start + k,
        width,
        height,
        samples,
        #[trigger] joined[k],
    ) by {
        if k < first.len() {
            assert(joined[k] == first[k]);
        } else {
            let k2 = k - first.len();
            assert(joined[k] == second[k2]);
            assert(shaded(shade, mid + k2, width, height, samples, second[k2]));
            assert(mid + k2 == start + k);
        }
    }
}

/// Rendering every batch of a batching of `0..n` and joining the results in
/// batch order renders the whole image, each pixel once and in its place.
pub proof fn lemma_batches_assemble<F: Fn(usize, usize, usize) -> Color>(
    shade: &F,
    ranges: Seq<(usize, usize)>,
    parts: Seq<Seq<[i32; 3]>>,
    n: int,
    size: int,
    width: int,
    height: int,
    samples: int,
)
    requires
        size > 0,
        n >= 0,
        is_batching(ranges, n, size),
        parts.len() == ranges.len(),
        forall|k: int|
            0 <= k < ranges.len() ==> renders(
                shade,
                ranges[k].0 as int,
                ranges[k].1 as int,
                width,
                height,
                samples,
                #[trigger] parts[k],
            ),
    ensures
        renders(shade, 0, n, width, height, samples, parts.flatten()),
{
    lemma_batches_assemble_from(shade, ranges, parts, n, size, width, height, samples, 0);
    assert(parts.subrange(0, parts.len() as int) =~= parts);
    if ranges.len() == 0 {
        assert(n <= 0 * size);
    }
}

proof fn lemma_batches_assemble_from<F: Fn(usize, usize, usize) -> Color>(
    shade: &F,
    ranges: Seq<(usize, usize)>,
    parts: Seq<Seq<[i32; 3]>>,
    n: int,
    size: int,
    width: int,
    height: int,
    samples: int,
    m: int,
)
    requires
        size > 0,
        n >= 0,
        0 <= m <= ranges.len(),
        is_batching(ranges, n, size),
        parts.len() == ranges.len(),
        forall|k: int|
            0 <= k < ranges.len() ==> renders(
                shade,
                ranges[k].0 as int,
                ranges[k].1 as int,
                width,
                height,
                samples,
                #[trigger] parts[k],
            ),
    ensures
        renders(
            shade,
            if m < ranges.len() { m * size } else { n },
            n,
            width,
            height,
            samples,
            parts.subrange(m, parts.len() as int).flatten(),
        ),
    decreases ranges.len() - m,
{
    let len = ranges.len() as int;
    let rest = parts.subrange(m, len);
    if m == len {
        assert(rest.flatten() =~= Seq::<[i32; 3]>::empty());
    } else {
        lemma_batches_assemble_from(shade, ranges, parts, n, size, width, height, samples, m + 1);
        assert(rest.len() == len - m);
        assert(rest.drop_first() =~= parts.subrange(m + 1, len));
        assert(rest.flatten() == parts[m] + parts.subrange(m + 1, len).flatten());
        assert(batch_is(ranges[m], m, n, size));
        let next = if m + 1 < len { (m + 1) * size } else { n };
        if m + 1 < len {
            assert((m + 1) * size <= (len - 1) * size) by (nonlinear_arith)
                requires
                    size > 0,
                    m + 1 <= len - 1,
            ;
            assert((m + 1) * size == m * size + size) by (nonlinear_arith);
            assert(ranges[m].1 == next);
        } else {
            assert(m * size + size == len * size) by (nonlinear_arith)
                requires
                    m + 1 == len,
            ;
            assert(ranges[m].1 == next);
        }
        assert(renders(shade, m * size, next, width, height, samples, parts[m]));
        lemma_renders_append(
            shade,
            m * size,
            next,
            n,
            width,
            height,
            samples,
            parts[m],
            parts.subrange(m + 1, len).flatten(),
        );
    }
}

} // verus!
