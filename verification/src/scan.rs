//! Scans of an RGBA pixel buffer: every pixel, or a regular subgrid.
//!
//! A buffer holds four bytes per pixel (red, green, blue, alpha), row by
//! row. A pixel is readable where its first three bytes lie within the
//! buffer. Dimensions that do not fit the buffer's length are not rejected:
//! a scan passes over every pixel that is not readable.

use crate::histogram::Histogram;
use crate::luma::{luma_bucket, luma_of};
use vstd::prelude::*;

verus! {

/// The number of readable pixels of a buffer of `len` bytes: pixel `k` is
/// readable when `4 * k + 2 < len`.
pub open spec fn readable_pixels(len: nat) -> nat {
    (len + 1) / 4
}

/// The luminance bucket of pixel `k`.
pub open spec fn pixel_bucket(pixels: Seq<u8>, k: int) -> int {
    luma_of(pixels[4 * k], pixels[4 * k + 1], pixels[4 * k + 2])
}

/// The buckets that a full scan samples: one for each readable pixel.
pub open spec fn full_buckets(pixels: Seq<u8>) -> Seq<int> {
    Seq::new(readable_pixels(pixels.len()), |k: int| pixel_bucket(pixels, k))
}

/// The number of grid lines below `extent`: the multiples of `stride`
/// that are less than `extent`.
pub open spec fn grid_steps(extent: nat, stride: nat) -> nat {
    if extent == 0 {
        0
    } else {
        ((extent - 1) / (stride as int) + 1) as nat
    }
}

/// The buckets sampled in the row that starts at pixel `base`, at the
/// first `cols` multiples of `stride`.
pub open spec fn row_buckets(pixels: Seq<u8>, base: nat, stride: nat, cols: nat) -> Seq<int>
    decreases cols,
{
    if cols == 0 {
        Seq::empty()
    } else {
        let before = row_buckets(pixels, base, stride, (cols - 1) as nat);
        let k = base + (cols - 1) * stride;
        if k < readable_pixels(pixels.len()) {
            before.push(pixel_bucket(pixels, k))
        } else {
            before
        }
    }
}

/// The buckets sampled in the first `rows` grid rows of an image that is
/// `width` pixels wide, `cols` grid points in each, row by row.
pub open spec fn grid_buckets(
    pixels: Seq<u8>,
    width: nat,
    stride: nat,
    rows: nat,
    cols: nat,
) -> Seq<int>
    decreases rows,
{
    if rows == 0 {
        Seq::empty()
    } else {
        grid_buckets(pixels, width, stride, (rows - 1) as nat, cols) + row_buckets(
            pixels,
            ((rows - 1) * stride * width) as nat,
            stride,
            cols,
        )
    }
}

/// The buckets that a strided scan samples: those of the readable pixels
/// at rows 0, `stride`, 2 * `stride`, ... below `height` and columns 0,
/// `stride`, 2 * `stride`, ... below `width`.
pub open spec fn strided_buckets(pixels: Seq<u8>, width: nat, height: nat, stride: nat) -> Seq<
    int,
> {
    grid_buckets(pixels, width, stride, grid_steps(height, stride), grid_steps(width, stride))
}

/// The histogram of a sequence of sampled buckets: for each bucket, how
/// often it occurs.
pub open spec fn tally(buckets: Seq<int>) -> Seq<nat> {
    Seq::new(256, |b: int| buckets.to_multiset().count(b))
}

/// Nothing sampled, nothing counted.
pub proof fn lemma_tally_empty()
    ensures
        forall|b: int| 0 <= b < 256 ==> tally(Seq::empty())[b] == 0,
{
    broadcast use vstd::seq_lib::group_to_multiset_ensures;
    broadcast use vstd::multiset::group_multiset_axioms;

    assert(Seq::<int>::empty().to_multiset().len() == 0);
}

/// One more sample raises the count of its bucket by one.
pub proof fn lemma_tally_push(buckets: Seq<int>, bucket: int)
    requires
        0 <= bucket < 256,
    ensures
        tally(buckets.push(bucket)) == tally(buckets).update(bucket, tally(buckets)[bucket] + 1),
{
    broadcast use vstd::seq_lib::group_to_multiset_ensures;
    broadcast use vstd::multiset::group_multiset_axioms;

    assert(tally(buckets.push(bucket)) =~= tally(buckets).update(
        bucket,
        tally(buckets)[bucket] + 1,
    ));
}

/// A grid line lies below the extent.
pub proof fn lemma_step_in_extent(extent: nat, stride: nat, step: nat)
    requires
        stride >= 1,
        step < grid_steps(extent, stride),
    ensures
        step * stride < extent,
{
    let last = (extent - 1) / (stride as int);
    assert(last * stride <= extent - 1) by (nonlinear_arith)
        requires
            last == (extent - 1) / (stride as int),
            stride >= 1,
            extent >= 1,
    ;
    assert(step * stride <= last * stride) by (nonlinear_arith)
        requires
            step <= last,
            stride >= 1,
    ;
}

/// A row holds at most one sample for each grid point.
pub proof fn lemma_row_len(pixels: Seq<u8>, base: nat, stride: nat, cols: nat)
    ensures
        row_buckets(pixels, base, stride, cols).len() <= cols,
    decreases cols,
{
    if cols > 0 {
        lemma_row_len(pixels, base, stride, (cols - 1) as nat);
    }
}

/// A grid holds at most one sample for each grid point.
pub proof fn lemma_grid_len(pixels: Seq<u8>, width: nat, stride: nat, rows: nat, cols: nat)
    ensures
        grid_buckets(pixels, width, stride, rows, cols).len() <= rows * cols,
    decreases rows,
{
    if rows > 0 {
        lemma_grid_len(pixels, width, stride, (rows - 1) as nat, cols);
        lemma_row_len(pixels, ((rows - 1) * stride * width) as nat, stride, cols);
        assert((rows - 1) * cols + cols == rows * cols) by (nonlinear_arith);
    }
}

/// From the first grid point that is not readable on, a row holds no
/// sample.
pub proof fn lemma_row_beyond(pixels: Seq<u8>, base: nat, stride: nat, from: nat, cols: nat)
    requires
        from <= cols,
        base + from * stride >= readable_pixels(pixels.len()),
    ensures
        row_buckets(pixels, base, stride, cols) == row_buckets(pixels, base, stride, from),
    decreases cols,
{
    if cols > from {
        assert((cols - 1) * stride >= from * stride) by (nonlinear_arith)
            requires
                cols - 1 >= from,
                stride >= 0,
        ;
        lemma_row_beyond(pixels, base, stride, from, (cols - 1) as nat);
    }
}

/// From the first row that starts at a pixel that is not readable on, a
/// grid holds no sample.
pub proof fn lemma_grid_beyond(
    pixels: Seq<u8>,
    width: nat,
    stride: nat,
    from: nat,
    rows: nat,
    cols: nat,
)
    requires
        from <= rows,
        from * stride * width >= readable_pixels(pixels.len()),
    ensures
        grid_buckets(pixels, width, stride, rows, cols) == grid_buckets(
            pixels,
            width,
            stride,
            from,
            cols,
        ),
    decreases rows,
{
    if rows > from {
        let base = ((rows - 1) * stride * width) as nat;
        assert((rows - 1) * stride * width >= from * stride * width) by (nonlinear_arith)
            requires
                rows - 1 >= from,
                stride >= 0,
                width >= 0,
        ;
        assert(base + 0 * stride >= readable_pixels(pixels.len()));
        lemma_row_beyond(pixels, base, stride, 0, cols);
        lemma_grid_beyond(pixels, width, stride, from, (rows - 1) as nat, cols);
        assert(grid_buckets(pixels, width, stride, rows, cols) =~= grid_buckets(
            pixels,
            width,
            stride,
            (rows - 1) as nat,
            cols,
        ));
    }
}

/// The number of readable pixels of a buffer of `len` bytes.
fn readable(len: usize) -> (n: usize)
    ensures
        n == readable_pixels(len as nat),
        n <= len,
{
    if len % 4 == 3 {
        len / 4 + 1
    } else {
        len / 4
    }
}

/// The number of grid lines below `extent`.
fn steps(extent: u32, stride: u32) -> (n: u32)
    requires
        stride >= 1,
    ensures
        n == grid_steps(extent as nat, stride as nat),
        n <= extent,
{
    if extent == 0 {
        0
    } else {
        let last: u32 = (extent - 1) / stride;
        assert(last <= extent - 1) by (nonlinear_arith)
            requires
                last == (extent - 1) / (stride as int),
                stride >= 1,
                extent >= 1,
        ;
        last + 1
    }
}

/// Scans every readable pixel of the buffer, in order.
///
/// A trailing pixel of which fewer than three bytes are there is passed
/// over.
pub fn scan_full(pixels: &[u8]) -> (h: Histogram)
    ensures
        h.wf(),
        h@ == tally(full_buckets(pixels@)),
        h.spec_total() == readable_pixels(pixels@.len()),
{
    let n: usize = readable(pixels.len());
    let mut h = Histogram::new();
    let mut k: usize = 0;
    proof {
        lemma_tally_empty();
        assert(full_buckets(pixels@).take(0) =~= Seq::empty());
        assert(h@ =~= tally(Seq::empty()));
    }
    while k < n
        invariant
            k <= n,
            n == readable_pixels(pixels@.len()),
            h.wf(),
            h.spec_total() == k,
            h@ == tally(full_buckets(pixels@).take(k as int)),
        decreases n - k,
    {
        assert(4 * k + 2 < pixels.len());
        let i: usize = 4 * k;
        let bucket: u8 = luma_bucket(pixels[i], pixels[i + 1], pixels[i + 2]);
        proof {
            let done = full_buckets(pixels@).take(k as int);
            lemma_tally_push(done, bucket as int);
            assert(full_buckets(pixels@).take(k + 1) =~= done.push(bucket as int));
        }
        h.record(bucket);
        k = k + 1;
    }
    assert(full_buckets(pixels@).take(n as int) =~= full_buckets(pixels@));
    h
}

/// Scans the readable pixels on the grid of every `stride`-th row and
/// every `stride`-th column of an image of the given dimensions, row by
/// row.
pub fn scan_strided(pixels: &[u8], width: u32, height: u32, stride: u32) -> (h: Histogram)
    requires
        stride >= 1,
    ensures
        h.wf(),
        h@ == tally(strided_buckets(pixels@, width as nat, height as nat, stride as nat)),
        h.spec_total() == strided_buckets(
            pixels@,
            width as nat,
            height as nat,
            stride as nat,
        ).len(),
{
    let n: usize = readable(pixels.len());
    let rows: u32 = steps(height, stride);
    let cols: u32 = steps(width, stride);
    let mut h = Histogram::new();
    let mut r: u32 = 0;
    proof {
        lemma_tally_empty();
        assert(h@ =~= tally(Seq::empty()));
        assert(rows * cols <= 0xFFFF_FFFF * 0xFFFF_FFFF) by (nonlinear_arith)
            requires
                rows <= 0xFFFF_FFFF,
                cols <= 0xFFFF_FFFF,
        ;
    }
    while r < rows
        invariant
            stride >= 1,
            r <= rows,
            rows == grid_steps(height as nat, stride as nat),
            cols == grid_steps(width as nat, stride as nat),
            rows * cols <= 0xFFFF_FFFF * 0xFFFF_FFFF,
            n == readable_pixels(pixels@.len()),
            h.wf(),
            h@ == tally(grid_buckets(pixels@, width as nat, stride as nat, r as nat, cols as nat)),
            h.spec_total() == grid_buckets(
                pixels@,
                width as nat,
                stride as nat,
                r as nat,
                cols as nat,
            ).len(),
        decreases rows - r,
    {
        let ghost above = grid_buckets(pixels@, width as nat, stride as nat, r as nat, cols as nat);
        proof {
            lemma_step_in_extent(height as nat, stride as nat, r as nat);
            lemma_grid_len(pixels@, width as nat, stride as nat, r as nat, cols as nat);
            assert(r * cols + cols <= rows * cols) by (nonlinear_arith)
                requires
                    r + 1 <= rows,
                    cols >= 0,
            ;
        }
        let y: u32 = r * stride;
        assert(y * width <= 0xFFFF_FFFF * 0xFFFF_FFFF) by (nonlinear_arith)
            requires
                y <= 0xFFFF_FFFF,
                width <= 0xFFFF_FFFF,
        ;
        let base: u64 = y as u64 * width as u64;
        let mut c: u32 = 0;
        assert(above + row_buckets(pixels@, base as nat, stride as nat, 0) =~= above);
        while c < cols
            invariant
                stride >= 1,
                c <= cols,
                cols == grid_steps(width as nat, stride as nat),
                base <= 0xFFFF_FFFF * 0xFFFF_FFFF,
                above.len() + cols <= 0xFFFF_FFFF * 0xFFFF_FFFF,
                n == readable_pixels(pixels@.len()),
                h.wf(),
                h@ == tally(above + row_buckets(pixels@, base as nat, stride as nat, c as nat)),
                h.spec_total() == above.len() + row_buckets(
                    pixels@,
                    base as nat,
                    stride as nat,
                    c as nat,
                ).len(),
            decreases cols - c,
        {
            let ghost left = row_buckets(pixels@, base as nat, stride as nat, c as nat);
            proof {
                lemma_step_in_extent(width as nat, stride as nat, c as nat);
                lemma_row_len(pixels@, base as nat, stride as nat, c as nat);
            }
            let x: u32 = c * stride;
            let k: u64 = base + x as u64;
            if k < n as u64 {
                assert(4 * k + 2 < pixels.len());
                let i: usize = 4 * (k as usize);
                let bucket: u8 = luma_bucket(pixels[i], pixels[i + 1], pixels[i + 2]);
                proof {
                    lemma_tally_push(above + left, bucket as int);
                    assert((above + left).push(bucket as int) =~= above + left.push(bucket as int));
                }
                h.record(bucket);
                c = c + 1;
            } else {
                // The rest of the row lies beyond the buffer.
                proof {
                    lemma_row_beyond(pixels@, base as nat, stride as nat, c as nat, cols as nat);
                }
                c = cols;
            }
        }
        if base < n as u64 {
            r = r + 1;
        } else {
            // So do the rows below.
            proof {
                lemma_grid_beyond(
                    pixels@,
                    width as nat,
                    stride as nat,
                    r as nat,
                    rows as nat,
                    cols as nat,
                );
                assert(row_buckets(pixels@, base as nat, stride as nat, cols as nat).len() == 0) by {
                    lemma_row_beyond(pixels@, base as nat, stride as nat, 0, cols as nat);
                }
                assert(grid_buckets(
                    pixels@,
                    width as nat,
                    stride as nat,
                    (r + 1) as nat,
                    cols as nat,
                ) =~= above);
            }
            r = rows;
        }
    }
    h
}

/// A histogram together with the number of samples that its counts are
/// measured against: the pixels that were counted into it.
pub struct Sampling {
    /// The luminance histogram of the scan.
    pub histogram: Histogram,
    /// The number of samples: the divisor of every count.
    pub samples: u64,
}

impl Sampling {
    /// The counts add up to the number of samples, so no count is above
    /// it, and where it is zero no bucket is occupied.
    pub open spec fn wf(&self) -> bool {
        &&& self.histogram.wf()
        &&& self.samples == self.histogram.spec_total()
    }
}

/// Samples every readable pixel of the buffer.
///
/// The number of samples is the number of pixels counted, whatever the
/// declared dimensions: it is `width * height` where the buffer holds
/// exactly that many pixels.
pub fn sample_image(pixels: &[u8], width: u32, height: u32) -> (s: Sampling)
    ensures
        s.wf(),
        s.histogram@ == tally(full_buckets(pixels@)),
        s.samples == readable_pixels(pixels@.len()),
        pixels@.len() == 4 * (width * height) ==> s.samples == width * height,
{
    let histogram = scan_full(pixels);
    let samples: u64 = histogram.total();
    Sampling { histogram, samples }
}

/// Samples the grid of every `sample_rate`-th row and column; the number
/// of samples is the number of grid points that were readable.
///
/// With a `sample_rate` of 0 or 1 this is `sample_image`.
pub fn sample_image_downsampled(pixels: &[u8], width: u32, height: u32, sample_rate: u32) -> (s:
    Sampling)
    ensures
        s.wf(),
        sample_rate <= 1 ==> {
            &&& s.histogram@ == tally(full_buckets(pixels@))
            &&& s.samples == readable_pixels(pixels@.len())
        },
        sample_rate > 1 ==> {
            &&& s.histogram@ == tally(
                strided_buckets(pixels@, width as nat, height as nat, sample_rate as nat),
            )
            &&& s.samples == strided_buckets(
                pixels@,
                width as nat,
                height as nat,
                sample_rate as nat,
            ).len()
        },
{
    if sample_rate <= 1 {
        sample_image(pixels, width, height)
    } else {
        let histogram = scan_strided(pixels, width, height, sample_rate);
        let samples: u64 = histogram.total();
        Sampling { histogram, samples }
    }
}

} // verus!
