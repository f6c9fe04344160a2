//! Laws of the scans and of the histograms they produce.

use crate::histogram::{is_occupied, occupied_counts, sum_of};
use crate::scan::{
    full_buckets, grid_buckets, grid_steps, lemma_step_in_extent, pixel_bucket, readable_pixels,
    row_buckets, strided_buckets, tally,
};
use vstd::prelude::*;

verus! {

/// Every readable pixel of the buffer falls into `bucket`.
pub open spec fn uniform(pixels: Seq<u8>, bucket: int) -> bool {
    forall|k: int| 0 <= k < readable_pixels(pixels.len()) ==> pixel_bucket(pixels, k) == bucket
}

/// Every sample is `bucket`.
pub open spec fn constant(buckets: Seq<int>, bucket: int) -> bool {
    forall|i: int| 0 <= i < buckets.len() ==> buckets[i] == bucket
}

/// The grid lines below an extent are exactly the multiples of the stride
/// that are less than it.
pub proof fn lemma_grid_steps_exact(extent: nat, stride: nat, step: nat)
    requires
        stride >= 1,
    ensures
        step < grid_steps(extent, stride) <==> step * stride < extent,
{
    if extent > 0 {
        let last = (extent - 1) / (stride as int);
        assert(last * stride <= extent - 1 < last * stride + stride) by (nonlinear_arith)
            requires
                last == (extent - 1) / (stride as int),
                stride >= 1,
                extent >= 1,
        ;
        if step <= last {
            assert(step * stride <= last * stride) by (nonlinear_arith)
                requires
                    step <= last,
                    stride >= 1,
            ;
        } else {
            assert(step * stride >= last * stride + stride) by (nonlinear_arith)
                requires
                    step >= last + 1,
                    stride >= 1,
            ;
        }
    } else {
        assert(step * stride >= 0) by (nonlinear_arith)
            requires
                step >= 0,
                stride >= 0,
        ;
    }
}

/// In a row whose grid points are all readable, there is a sample for
/// each, and sample `j` is the pixel `j * stride` after the first.
pub proof fn lemma_row_sample(pixels: Seq<u8>, base: nat, stride: nat, cols: nat, j: int)
    requires
        0 <= j < cols,
        base + (cols - 1) * stride < readable_pixels(pixels.len()),
    ensures
        row_buckets(pixels, base, stride, cols).len() == cols,
        row_buckets(pixels, base, stride, cols)[j] == pixel_bucket(
            pixels,
            base + j * stride,
        ),
    decreases cols,
{
    if cols > 1 {
        assert((cols - 2) * stride <= (cols - 1) * stride) by (nonlinear_arith)
            requires
                stride >= 0,
        ;
        if j < cols - 1 {
            lemma_row_sample(pixels, base, stride, (cols - 1) as nat, j);
        } else {
            lemma_row_sample(pixels, base, stride, (cols - 1) as nat, 0);
        }
    } else {
        assert(row_buckets(pixels, base, stride, 0).len() == 0);
        assert(0 * stride == 0);
    }
}

/// In a grid whose points are all readable, there is a sample for each,
/// and sample `j` of grid row `i` is the pixel at row `i * stride` and
/// column `j * stride`.
pub proof fn lemma_grid_sample(
    pixels: Seq<u8>,
    width: nat,
    stride: nat,
    rows: nat,
    cols: nat,
    i: int,
    j: int,
)
    requires
        0 <= i < rows,
        0 <= j < cols,
        (rows - 1) * stride * width + (cols - 1) * stride < readable_pixels(pixels.len()),
    ensures
        grid_buckets(pixels, width, stride, rows, cols).len() == rows * cols,
        i * cols + j < rows * cols,
        grid_buckets(pixels, width, stride, rows, cols)[i * cols + j] == pixel_bucket(
            pixels,
            i * stride * width + j * stride,
        ),
    decreases rows,
{
    let base = ((rows - 1) * stride * width) as nat;
    lemma_row_sample(pixels, base, stride, cols, j);
    assert((rows - 1) * cols + cols == rows * cols) by (nonlinear_arith);
    assert(i * cols + j < rows * cols) by (nonlinear_arith)
        requires
            i + 1 <= rows,
            j < cols,
    ;
    let above = grid_buckets(pixels, width, stride, (rows - 1) as nat, cols);
    let row = row_buckets(pixels, base, stride, cols);
    if rows > 1 {
        assert((rows - 2) * stride * width <= (rows - 1) * stride * width) by (nonlinear_arith)
            requires
                stride >= 0,
                width >= 0,
        ;
        if i < rows - 1 {
            lemma_grid_sample(pixels, width, stride, (rows - 1) as nat, cols, i, j);
        } else {
            lemma_grid_sample(pixels, width, stride, (rows - 1) as nat, cols, 0, j);
        }
    } else {
        assert(above.len() == 0);
    }
    assert(above.len() == (rows - 1) * cols) by (nonlinear_arith)
        requires
            above.len() == ((rows - 1) as nat) * cols,
            rows >= 1,
    ;
    assert(grid_buckets(pixels, width, stride, rows, cols) == above + row);
    if i < rows - 1 {
        assert(i * cols + j < (rows - 1) * cols) by (nonlinear_arith)
            requires
                0 <= i,
                i + 1 <= rows - 1,
                0 <= j < cols,
        ;
        assert((above + row)[i * cols + j] == above[i * cols + j]);
    } else {
        assert((above + row)[i * cols + j] == row[j]);
    }
}

/// Of a buffer that holds exactly `width * height` pixels, the strided
/// scan samples every grid point: there are as many samples as grid
/// points, and sample `j` of grid row `i` is the pixel at row `i * stride`
/// and column `j * stride`.
pub proof fn lemma_strided_sample(
    pixels: Seq<u8>,
    width: nat,
    height: nat,
    stride: nat,
    i: int,
    j: int,
)
    requires
        stride >= 1,
        pixels.len() == 4 * (width * height),
        0 <= i < grid_steps(height, stride),
        0 <= j < grid_steps(width, stride),
    ensures
        strided_buckets(pixels, width, height, stride).len() == grid_steps(height, stride)
            * grid_steps(width, stride),
        i * grid_steps(width, stride) + j < strided_buckets(pixels, width, height, stride).len(),
        i * stride < height,
        j * stride < width,
        strided_buckets(pixels, width, height, stride)[i * grid_steps(width, stride) + j]
            == pixel_bucket(pixels, i * stride * width + j * stride),
{
    let rows = grid_steps(height, stride);
    let cols = grid_steps(width, stride);
    lemma_step_in_extent(height, stride, (rows - 1) as nat);
    lemma_step_in_extent(width, stride, (cols - 1) as nat);
    lemma_step_in_extent(height, stride, i as nat);
    lemma_step_in_extent(width, stride, j as nat);
    let y = (rows - 1) * stride;
    assert(y * width + width <= height * width) by (nonlinear_arith)
        requires
            y + 1 <= height,
            width >= 0,
    ;
    assert(height * width == width * height) by (nonlinear_arith);
    lemma_grid_sample(pixels, width, stride, rows, cols, i, j);
}

/// At stride 1 a row of readable pixels is sampled whole.
pub proof fn lemma_row_at_stride_one(pixels: Seq<u8>, base: nat, cols: nat)
    requires
        base + cols <= readable_pixels(pixels.len()),
    ensures
        row_buckets(pixels, base, 1, cols) == full_buckets(pixels).subrange(
            base as int,
            (base + cols) as int,
        ),
    decreases cols,
{
    if cols > 0 {
        lemma_row_at_stride_one(pixels, base, (cols - 1) as nat);
    }
    assert(row_buckets(pixels, base, 1, cols) =~= full_buckets(pixels).subrange(
        base as int,
        (base + cols) as int,
    ));
}

/// At stride 1 the grid rows of readable pixels are sampled whole.
pub proof fn lemma_grid_at_stride_one(pixels: Seq<u8>, width: nat, rows: nat)
    requires
        rows * width <= readable_pixels(pixels.len()),
    ensures
        grid_buckets(pixels, width, 1, rows, width) == full_buckets(pixels).take((rows * width) as int),
    decreases rows,
{
    if rows > 0 {
        let base = ((rows - 1) * 1 * width) as nat;
        let above = ((rows - 1) as nat * width) as int;
        let whole = (rows * width) as int;
        assert(base + width == whole && base == above) by (nonlinear_arith)
            requires
                base == (rows - 1) * 1 * width,
                above == (rows - 1) * width,
                whole == rows * width,
                rows >= 1,
        ;
        lemma_grid_at_stride_one(pixels, width, (rows - 1) as nat);
        lemma_row_at_stride_one(pixels, base, width);
        assert(grid_buckets(pixels, width, 1, (rows - 1) as nat, width) == full_buckets(
            pixels,
        ).take(above));
        assert(row_buckets(pixels, base, 1, width) == full_buckets(pixels).subrange(above, whole));
        assert(full_buckets(pixels).take(above) + full_buckets(pixels).subrange(above, whole)
            =~= full_buckets(pixels).take(whole));
    } else {
        assert(rows * width == 0);
        assert(grid_buckets(pixels, width, 1, rows, width) =~= full_buckets(pixels).take(0));
    }
}

/// Of a buffer that holds exactly `width * height` pixels, the strided
/// scan at stride 1 samples what the full scan samples, in the same order.
pub proof fn lemma_stride_one_is_full_scan(pixels: Seq<u8>, width: nat, height: nat)
    requires
        pixels.len() == 4 * (width * height),
    ensures
        strided_buckets(pixels, width, height, 1) == full_buckets(pixels),
{
    assert(height * width == width * height) by (nonlinear_arith);
    lemma_grid_at_stride_one(pixels, width, height);
    assert(full_buckets(pixels).take((height * width) as int) =~= full_buckets(pixels));
}

/// A histogram depends on which buckets were sampled and how often, not on
/// the order in which they were sampled.
pub proof fn lemma_tally_order_independent(a: Seq<int>, b: Seq<int>)
    requires
        a.to_multiset() == b.to_multiset(),
    ensures
        tally(a) == tally(b),
{
    assert(tally(a) =~= tally(b));
}

/// Sampling in the opposite order gives the same histogram.
pub proof fn lemma_tally_reverse(buckets: Seq<int>)
    ensures
        tally(buckets.reverse()) == tally(buckets),
{
    buckets.lemma_reverse_to_multiset();
    lemma_tally_order_independent(buckets.reverse(), buckets);
}

/// Sampling two runs of pixels in either order gives the same histogram.
pub proof fn lemma_tally_swap(first: Seq<int>, second: Seq<int>)
    ensures
        tally(first + second) == tally(second + first),
{
    vstd::seq_lib::lemma_seq_union_to_multiset_commutative(first, second);
    lemma_tally_order_independent(first + second, second + first);
}

/// A scan of two buffers laid end to end, the first of whole pixels,
/// samples what the scans of the two sample, in that order.
pub proof fn lemma_full_buckets_concat(first: Seq<u8>, second: Seq<u8>)
    requires
        first.len() % 4 == 0,
    ensures
        full_buckets(first + second) == full_buckets(first) + full_buckets(second),
{
    let whole = first + second;
    let n = readable_pixels(first.len());
    assert forall|k: int| 0 <= k < readable_pixels(whole.len()) implies full_buckets(whole)[k] == (
    full_buckets(first) + full_buckets(second))[k] by {
        if k < n {
            assert(whole[4 * k] == first[4 * k]);
            assert(whole[4 * k + 1] == first[4 * k + 1]);
            assert(whole[4 * k + 2] == first[4 * k + 2]);
        } else {
            assert(whole[4 * k] == second[4 * (k - n)]);
            assert(whole[4 * k + 1] == second[4 * (k - n) + 1]);
            assert(whole[4 * k + 2] == second[4 * (k - n) + 2]);
        }
    }
    assert(full_buckets(whole) =~= full_buckets(first) + full_buckets(second));
}

/// Row `y` of an image that is `width` pixels wide.
pub open spec fn row_of(pixels: Seq<u8>, width: nat, y: int) -> Seq<u8> {
    pixels.subrange(4 * width * y, 4 * width * (y + 1))
}

/// `b` holds the rows of the image `a`, of the given dimensions, in the
/// opposite order.
pub open spec fn rows_reversed(a: Seq<u8>, b: Seq<u8>, width: nat, height: nat) -> bool {
    &&& a.len() == 4 * width * height
    &&& b.len() == a.len()
    &&& forall|y: int|
        0 <= y < height ==> #[trigger] row_of(b, width, y) == row_of(a, width, height - 1 - y)
}

proof fn lemma_row_bounds(row_bytes: nat, y: int, height: int)
    requires
        0 <= y < height,
    ensures
        row_bytes * (y + 1) == row_bytes * y + row_bytes,
        0 <= row_bytes * y,
        row_bytes * (y + 1) <= row_bytes * height,
{
    assert(row_bytes * (y + 1) == row_bytes * y + row_bytes) by (nonlinear_arith);
    assert(0 <= row_bytes * y) by (nonlinear_arith)
        requires
            0 <= y,
    ;
    assert(row_bytes * (y + 1) <= row_bytes * height) by (nonlinear_arith)
        requires
            y + 1 <= height,
    ;
}

proof fn lemma_rows_reversed_buckets(a: Seq<u8>, b: Seq<u8>, width: nat, height: nat)
    requires
        rows_reversed(a, b, width, height),
    ensures
        full_buckets(a).to_multiset() == full_buckets(b).to_multiset(),
    decreases height,
{
    if a.len() == 0 {
        assert(a =~= b);
    } else {
        let r: nat = 4 * width;
        let h: int = height as int;
        assert(h > 0) by (nonlinear_arith)
            requires
                r * h > 0,
                h >= 0,
        ;
        lemma_row_bounds(r, 0, h);
        lemma_row_bounds(r, h - 1, h);
        let cut = r * (h - 1);
        let top = a.take(cut);
        let last = a.skip(cut);
        let first = b.take(r as int);
        let rest = b.skip(r as int);
        assert(a =~= top + last);
        assert(b =~= first + rest);
        assert(first =~= row_of(b, width, 0));
        assert(last =~= row_of(a, width, h - 1));
        assert forall|y: int| 0 <= y < h - 1 implies #[trigger] row_of(rest, width, y) == row_of(
            top,
            width,
            h - 2 - y,
        ) by {
            lemma_row_bounds(r, y, h - 1);
            lemma_row_bounds(r, y + 1, h);
            lemma_row_bounds(r, h - 2 - y, h - 1);
            assert(row_of(rest, width, y) =~= row_of(b, width, y + 1));
            assert(row_of(top, width, h - 2 - y) =~= row_of(a, width, h - 1 - (y + 1)));
        }
        assert(rows_reversed(top, rest, width, (height - 1) as nat));
        lemma_rows_reversed_buckets(top, rest, width, (height - 1) as nat);
        assert(cut == 4 * (width * (h - 1))) by (nonlinear_arith)
            requires
                cut == (4 * width) * (h - 1),
        ;
        assert(first.len() % 4 == 0);
        lemma_full_buckets_concat(top, last);
        lemma_full_buckets_concat(first, rest);
        vstd::seq_lib::lemma_multiset_commutative(full_buckets(top), full_buckets(last));
        vstd::seq_lib::lemma_multiset_commutative(full_buckets(first), full_buckets(rest));
        assert(full_buckets(a).to_multiset() =~= full_buckets(b).to_multiset());
    }
}

/// Turning an image upside down does not change its histogram.
pub proof fn lemma_rows_reversed_same_histogram(
    a: Seq<u8>,
    b: Seq<u8>,
    width: nat,
    height: nat,
)
    requires
        rows_reversed(a, b, width, height),
    ensures
        tally(full_buckets(a)) == tally(full_buckets(b)),
{
    lemma_rows_reversed_buckets(a, b, width, height);
    lemma_tally_order_independent(full_buckets(a), full_buckets(b));
}

/// Trailing bytes that do not make up the three colour bytes of a pixel
/// are not sampled: the full scan sees the buffer as if they were cut off.
pub proof fn lemma_partial_pixel_excluded(pixels: Seq<u8>)
    requires
        pixels.len() % 4 != 3,
    ensures
        full_buckets(pixels) == full_buckets(pixels.take(pixels.len() - pixels.len() % 4)),
{
    let whole = pixels.take(pixels.len() - pixels.len() % 4);
    assert(full_buckets(pixels) =~= full_buckets(whole));
}

/// Samples that all fall into one bucket are all counted there.
pub proof fn lemma_tally_constant(buckets: Seq<int>, bucket: int)
    requires
        constant(buckets, bucket),
        0 <= bucket < 256,
    ensures
        tally(buckets)[bucket] == buckets.len(),
        forall|b: int| 0 <= b < 256 && b != bucket ==> tally(buckets)[b] == 0,
    decreases buckets.len(),
{
    broadcast use vstd::seq_lib::group_to_multiset_ensures;
    broadcast use vstd::multiset::group_multiset_axioms;

    if buckets.len() == 0 {
        crate::scan::lemma_tally_empty();
        assert(buckets =~= Seq::empty());
    } else {
        let before = buckets.drop_last();
        lemma_tally_constant(before, bucket);
        crate::scan::lemma_tally_push(before, bucket);
        assert(buckets =~= before.push(bucket));
    }
}

/// Whatever part of a uniform row is sampled falls into the one bucket.
pub proof fn lemma_row_uniform(pixels: Seq<u8>, base: nat, stride: nat, cols: nat, bucket: int)
    requires
        uniform(pixels, bucket),
    ensures
        constant(row_buckets(pixels, base, stride, cols), bucket),
    decreases cols,
{
    if cols > 0 {
        lemma_row_uniform(pixels, base, stride, (cols - 1) as nat, bucket);
    }
}

/// Whatever part of a uniform image is sampled falls into the one bucket.
pub proof fn lemma_grid_uniform(
    pixels: Seq<u8>,
    width: nat,
    stride: nat,
    rows: nat,
    cols: nat,
    bucket: int,
)
    requires
        uniform(pixels, bucket),
    ensures
        constant(grid_buckets(pixels, width, stride, rows, cols), bucket),
    decreases rows,
{
    if rows > 0 {
        lemma_grid_uniform(pixels, width, stride, (rows - 1) as nat, cols, bucket);
        lemma_row_uniform(pixels, ((rows - 1) * stride * width) as nat, stride, cols, bucket);
    }
}

/// Sampling cannot spread a constant signal: of an image whose pixels all
/// fall into one bucket, every scan, at whatever stride, counts all its
/// samples in that bucket and none elsewhere.
pub proof fn lemma_uniform_image_one_bucket(
    pixels: Seq<u8>,
    width: nat,
    height: nat,
    stride: nat,
    bucket: int,
)
    requires
        uniform(pixels, bucket),
        0 <= bucket < 256,
    ensures
        tally(full_buckets(pixels))[bucket] == readable_pixels(pixels.len()),
        tally(strided_buckets(pixels, width, height, stride))[bucket] == strided_buckets(
            pixels,
            width,
            height,
            stride,
        ).len(),
        forall|b: int| 0 <= b < 256 && b != bucket ==> tally(full_buckets(pixels))[b] == 0,
        forall|b: int|
            0 <= b < 256 && b != bucket ==> tally(
                strided_buckets(pixels, width, height, stride),
            )[b] == 0,
{
    lemma_grid_uniform(
        pixels,
        width,
        stride,
        grid_steps(height, stride),
        grid_steps(width, stride),
        bucket,
    );
    lemma_tally_constant(strided_buckets(pixels, width, height, stride), bucket);
    lemma_tally_constant(full_buckets(pixels), bucket);
}

/// Where one bucket holds as many samples as all buckets together, the
/// others hold none.
pub proof fn lemma_all_in_one_bucket(counts: Seq<nat>, bucket: int)
    requires
        0 <= bucket < counts.len(),
        counts[bucket] == sum_of(counts),
    ensures
        forall|b: int| 0 <= b < counts.len() && b != bucket ==> counts[b] == 0,
    decreases counts.len(),
{
    let rest = counts.drop_last();
    if bucket < counts.len() - 1 {
        crate::histogram::lemma_sum_bounds(rest, bucket);
        lemma_all_in_one_bucket(rest, bucket);
    }
    assert forall|b: int| 0 <= b < counts.len() && b != bucket implies counts[b] == 0 by {
        if b < rest.len() {
            crate::histogram::lemma_sum_bounds(rest, b);
            assert(rest[b] == counts[b]);
        }
    }
}

/// Where every bucket but one is empty, that one holds all the samples.
pub proof fn lemma_one_bucket_holds_all(counts: Seq<nat>, bucket: int)
    requires
        0 <= bucket < counts.len(),
        forall|b: int| 0 <= b < counts.len() && b != bucket ==> counts[b] == 0,
    ensures
        counts[bucket] == sum_of(counts),
    decreases counts.len(),
{
    let rest = counts.drop_last();
    if bucket == counts.len() - 1 {
        crate::histogram::lemma_sum_zero(rest);
    } else {
        lemma_one_bucket_holds_all(rest, bucket);
    }
}

/// Where every bucket but one is empty, the occupied counts are that one
/// count alone.
pub proof fn lemma_one_bucket_occupied(counts: Seq<nat>, bucket: int)
    requires
        0 <= bucket < counts.len(),
        counts[bucket] > 0,
        forall|b: int| 0 <= b < counts.len() && b != bucket ==> counts[b] == 0,
    ensures
        occupied_counts(counts) == seq![counts[bucket]],
    decreases counts.len(),
{
    broadcast use Seq::lemma_filter_push;

    let rest = counts.drop_last();
    assert(counts =~= rest.push(counts.last()));
    if bucket == counts.len() - 1 {
        rest.lemma_all_neg_filter_empty(is_occupied());
        assert(occupied_counts(counts) =~= seq![counts[bucket]]);
    } else {
        lemma_one_bucket_occupied(rest, bucket);
    }
}

/// Where exactly one count is occupied, its bucket holds all the samples.
pub proof fn lemma_one_occupied_holds_all(counts: Seq<nat>)
    requires
        occupied_counts(counts).len() == 1,
    ensures
        exists|bucket: int|
            0 <= bucket < counts.len() && counts[bucket] > 0 && #[trigger] counts[bucket] == sum_of(
                counts,
            ),
    decreases counts.len(),
{
    broadcast use Seq::lemma_filter_push;

    if counts.len() == 0 {
        assert(counts =~= Seq::empty());
        counts.lemma_filter_len(is_occupied());
    } else {
        let rest = counts.drop_last();
        assert(counts =~= rest.push(counts.last()));
        if counts.last() > 0 {
            assert forall|b: int| 0 <= b < rest.len() implies rest[b] == 0 by {
                broadcast use vstd::seq_lib::group_filter_ensures;

                if rest[b] > 0 {
                    assert(occupied_counts(rest).contains(rest[b]));
                }
            }
            crate::histogram::lemma_sum_zero(rest);
            assert(counts[counts.len() - 1] == sum_of(counts));
        } else {
            lemma_one_occupied_holds_all(rest);
            let bucket = choose|bucket: int|
                0 <= bucket < rest.len() && rest[bucket] > 0 && #[trigger] rest[bucket] == sum_of(
                    rest,
                );
            assert(counts[bucket] == sum_of(counts));
        }
    }
}

/// Of an image whose pixels all fall into one bucket, a scan at whatever
/// stride leaves at most one occupied count, and that count is the number
/// of samples: the one probability is 1.
pub proof fn lemma_uniform_image_occupied(
    pixels: Seq<u8>,
    width: nat,
    height: nat,
    stride: nat,
    bucket: int,
)
    requires
        uniform(pixels, bucket),
        0 <= bucket < 256,
    ensures
        ({
            let sampled = strided_buckets(pixels, width, height, stride);
            occupied_counts(tally(sampled)) == if sampled.len() > 0 {
                seq![sampled.len()]
            } else {
                Seq::<nat>::empty()
            }
        }),
        ({
            let sampled = full_buckets(pixels);
            occupied_counts(tally(sampled)) == if sampled.len() > 0 {
                seq![sampled.len()]
            } else {
                Seq::<nat>::empty()
            }
        }),
{
    lemma_uniform_image_one_bucket(pixels, width, height, stride, bucket);
    lemma_one_bucket_or_none_occupied(
        tally(strided_buckets(pixels, width, height, stride)),
        bucket,
    );
    lemma_one_bucket_or_none_occupied(tally(full_buckets(pixels)), bucket);
}

/// Where every bucket but one is empty, the occupied counts are that one
/// count, if it is above zero, and none otherwise.
pub proof fn lemma_one_bucket_or_none_occupied(counts: Seq<nat>, bucket: int)
    requires
        0 <= bucket < counts.len(),
        forall|b: int| 0 <= b < counts.len() && b != bucket ==> counts[b] == 0,
    ensures
        occupied_counts(counts) == if counts[bucket] > 0 {
            seq![counts[bucket]]
        } else {
            Seq::<nat>::empty()
        },
{
    if counts[bucket] > 0 {
        lemma_one_bucket_occupied(counts, bucket);
    } else {
        counts.lemma_all_neg_filter_empty(is_occupied());
        assert(occupied_counts(counts) =~= Seq::<nat>::empty());
    }
}

/// Where there are no samples, no bucket is occupied: a divisor of zero
/// meets no count.
pub proof fn lemma_no_samples_none_occupied(counts: Seq<nat>)
    requires
        sum_of(counts) == 0,
    ensures
        occupied_counts(counts) == Seq::<nat>::empty(),
{
    assert forall|b: int| 0 <= b < counts.len() implies counts[b] == 0 by {
        crate::histogram::lemma_sum_bounds(counts, b);
    }
    counts.lemma_all_neg_filter_empty(is_occupied());
    assert(occupied_counts(counts) =~= Seq::<nat>::empty());
}

} // verus!
