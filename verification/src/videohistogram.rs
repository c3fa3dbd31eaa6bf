//! The colour histogram of a video: every pixel of every frame is counted in
//! one of 64 buckets, and the counts are scaled to bytes.
use vstd::prelude::*;
use crate::database::VideoHash;

verus! {

/// The number of pixels that are read of each frame: 128 by 128.
pub const PIXELS_PER_FRAME: usize = 16384;

/// The number of bytes that a frame must have: three for each pixel.
pub const FRAME_BYTES: usize = 49152;

/// The number of buckets: four levels each of red, green and blue.
pub const NUM_BUCKETS: usize = 64;

/// The bucket of a colour: the two highest bits of red, then of green, then
/// of blue.
pub open spec fn bucket_of(r: u8, g: u8, b: u8) -> int {
    (r / 64) * 16 + (g / 64) * 4 + (b / 64)
}

/// The bucket of the pixel at place `i` of a frame of RGB bytes.
pub open spec fn pixel_bucket(frame: Seq<u8>, i: int) -> int {
    bucket_of(frame[3 * i], frame[3 * i + 1], frame[3 * i + 2])
}

/// How many of the first `pixels` pixels of the frame fall in the bucket.
pub open spec fn pixels_in_bucket(frame: Seq<u8>, pixels: int, bucket: int) -> nat
    decreases pixels,
{
    if pixels <= 0 {
        0
    } else {
        pixels_in_bucket(frame, pixels - 1, bucket) + if pixel_bucket(frame, pixels - 1)
            == bucket {
            1nat
        } else {
            0nat
        }
    }
}

/// How many pixels of all the frames fall in the bucket.
pub open spec fn bucket_total(frames: Seq<Vec<u8>>, bucket: int) -> nat
    decreases frames.len(),
{
    if frames.len() == 0 {
        0
    } else {
        bucket_total(frames.drop_last(), bucket) + pixels_in_bucket(
            frames.last()@,
            PIXELS_PER_FRAME as int,
            bucket,
        )
    }
}

/// The share of a count in a total, on a scale from 0 to 255, rounded down.
/// Of no pixels at all, every share is 0.
pub open spec fn quantised(count: nat, total: nat) -> int {
    if total == 0 {
        0
    } else {
        (255 * count as int) / (total as int)
    }
}

/// The histogram of the frames: for each bucket, the share of the pixels
/// that fall in it.
pub open spec fn histogram_of(frames: Seq<Vec<u8>>) -> Seq<u8> {
    Seq::new(
        NUM_BUCKETS as nat,
        |b: int| quantised(bucket_total(frames, b), frames.len() * PIXELS_PER_FRAME as nat) as u8,
    )
}

/// No more pixels fall in a bucket than were looked at.
pub proof fn lemma_pixels_in_bucket_bound(frame: Seq<u8>, pixels: int, bucket: int)
    requires
        0 <= pixels,
    ensures
        pixels_in_bucket(frame, pixels, bucket) <= pixels,
    decreases pixels,
{
    if pixels > 0 {
        lemma_pixels_in_bucket_bound(frame, pixels - 1, bucket);
    }
}

/// A share is never more than 255.
pub proof fn lemma_quantised_bound(count: nat, total: nat)
    requires
        count <= total,
    ensures
        0 <= quantised(count, total) <= 255,
{
    if total > 0 {
        assert(0 <= (255 * count as int) / (total as int) <= 255) by (nonlinear_arith)
            requires
                0 <= count <= total,
                total > 0,
        ;
    }
}

/// The counts of a histogram in the making.
pub struct ColorHistogram {
    cube: Vec<u64>,
    num_pixel: u64,
}

impl ColorHistogram {
    /// The count of each bucket.
    pub closed spec fn counts(&self) -> Seq<u64> {
        self.cube@
    }

    /// The number of pixels counted.
    pub closed spec fn total(&self) -> nat {
        self.num_pixel as nat
    }

    /// There are 64 counts, none greater than the number of pixels.
    pub open spec fn wf(&self) -> bool {
        &&& self.counts().len() == NUM_BUCKETS
        &&& forall|b: int| 0 <= b < NUM_BUCKETS ==> #[trigger] self.counts()[b] <= self.total()
    }

    /// A histogram of no pixels.
    pub fn new() -> (r: ColorHistogram)
        ensures
            r.wf(),
            r.total() == 0,
            forall|b: int| 0 <= b < NUM_BUCKETS ==> #[trigger] r.counts()[b] == 0,
    {
        let mut cube: Vec<u64> = Vec::new();
        let mut b: usize = 0;
        while b < NUM_BUCKETS
            invariant
                b <= NUM_BUCKETS,
                cube.len() == b,
                forall|k: int| 0 <= k < b ==> #[trigger] cube[k] == 0,
            decreases NUM_BUCKETS - b,
        {
            cube.push(0);
            b += 1;
        }
        ColorHistogram { cube: cube, num_pixel: 0 }
    }

    /// Whether one frame more can be counted.
    pub fn has_room(&self) -> (r: bool)
        ensures
            r == (self.total() + PIXELS_PER_FRAME <= u64::MAX),
    {
        self.num_pixel <= u64::MAX - (PIXELS_PER_FRAME as u64)
    }

    /// Counts the first 128 by 128 pixels of a frame of RGB bytes.
    pub fn add_frame(&mut self, frame: &Vec<u8>)
        requires
            old(self).wf(),
            frame.len() >= FRAME_BYTES,
            old(self).total() + PIXELS_PER_FRAME <= u64::MAX,
        ensures
            final(self).wf(),
            final(self).total() == old(self).total() + PIXELS_PER_FRAME,
            forall|b: int|
                0 <= b < NUM_BUCKETS ==> #[trigger] final(self).counts()[b] == old(
                    self,
                ).counts()[b] + pixels_in_bucket(frame@, PIXELS_PER_FRAME as int, b),
    {
        let mut i: usize = 0;
        while i < PIXELS_PER_FRAME
            invariant
                i <= PIXELS_PER_FRAME,
                frame.len() >= FRAME_BYTES,
                self.cube.len() == NUM_BUCKETS,
                self.num_pixel == old(self).num_pixel,
                old(self).wf(),
                old(self).total() + PIXELS_PER_FRAME <= u64::MAX,
                forall|b: int|
                    0 <= b < NUM_BUCKETS ==> #[trigger] self.cube[b] == old(self).cube[b]
                        + pixels_in_bucket(frame@, i as int, b),
            decreases PIXELS_PER_FRAME - i,
        {
            let idx = i * 3;
            let red = frame[idx];
            let green = frame[idx + 1];
            let blue = frame[idx + 2];
            assert(red >> 6 == red / 64) by (bit_vector);
            assert(green >> 6 == green / 64) by (bit_vector);
            assert(blue >> 6 == blue / 64) by (bit_vector);
            let r: usize = (red >> 6) as usize;
            let g: usize = (green >> 6) as usize;
            let b: usize = (blue >> 6) as usize;
            let bucket = r * 16 + g * 4 + b;
            assert(bucket == pixel_bucket(frame@, i as int));
            proof {
                lemma_pixels_in_bucket_bound(frame@, i as int, bucket as int);
                assert(old(self).counts()[bucket as int] <= old(self).total());
            }
            let count = self.cube[bucket];
            self.cube.set(bucket, count + 1);
            i += 1;
        }
        self.num_pixel = self.num_pixel + PIXELS_PER_FRAME as u64;
        proof {
            assert forall|b: int| 0 <= b < NUM_BUCKETS implies #[trigger] self.counts()[b]
                <= self.total() by {
                lemma_pixels_in_bucket_bound(frame@, PIXELS_PER_FRAME as int, b);
                assert(old(self).counts()[b] <= old(self).total());
            }
        }
    }

    /// The histogram: for each bucket, the share of the pixels that were
    /// counted in it.
    pub fn finish(&self) -> (r: Vec<u8>)
        requires
            self.wf(),
        ensures
            r.len() == NUM_BUCKETS,
            forall|b: int|
                0 <= b < NUM_BUCKETS ==> #[trigger] r[b] == quantised(
                    self.counts()[b] as nat,
                    self.total(),
                ),
    {
        let mut out: Vec<u8> = Vec::new();
        let mut b: usize = 0;
        while b < NUM_BUCKETS
            invariant
                b <= NUM_BUCKETS,
                self.wf(),
                out.len() == b,
                forall|k: int|
                    0 <= k < b ==> #[trigger] out[k] == quantised(
                        self.counts()[k] as nat,
                        self.total(),
                    ),
            decreases NUM_BUCKETS - b,
        {
            let count = self.cube[b];
            assert(count <= self.total()) by {
                assert(self.counts()[b as int] <= self.total());
            }
            let share: u8 = if self.num_pixel == 0 {
                0
            } else {
                proof {
                    lemma_quantised_bound(count as nat, self.total());
                }
                let scaled: u128 = 255 * (count as u128);
                (scaled / (self.num_pixel as u128)) as u8
            };
            out.push(share);
            b += 1;
        }
        out
    }
}

/// The colour histogram of the frames of a video, each frame given as RGB
/// bytes of which the first 128 by 128 pixels are read.
pub fn calculate_color_histogram(frames: &Vec<Vec<u8>>) -> (r: Vec<u8>)
    requires
        forall|k: int| 0 <= k < frames.len() ==> (#[trigger] frames[k]).len() >= FRAME_BYTES,
        frames.len() * PIXELS_PER_FRAME <= u64::MAX,
    ensures
        r@ == histogram_of(frames@),
{
    let mut histogram = ColorHistogram::new();
    let mut k: usize = 0;
    assert(frames@.take(0) =~= Seq::<Vec<u8>>::empty());
    while k < frames.len()
        invariant
            k <= frames.len(),
            histogram.wf(),
            forall|j: int| 0 <= j < frames.len() ==> (#[trigger] frames[j]).len() >= FRAME_BYTES,
            frames.len() * PIXELS_PER_FRAME <= u64::MAX,
            histogram.total() == k * PIXELS_PER_FRAME,
            forall|b: int|
                0 <= b < NUM_BUCKETS ==> #[trigger] histogram.counts()[b] == bucket_total(
                    frames@.take(k as int),
                    b,
                ),
        decreases frames.len() - k,
    {
        assert(frames@.take(k + 1).drop_last() =~= frames@.take(k as int));
        assert(frames@.take(k + 1).last() == frames[k as int]);
        assert((k + 1) * PIXELS_PER_FRAME <= frames.len() * PIXELS_PER_FRAME) by (nonlinear_arith)
            requires
                k + 1 <= frames.len(),
        ;
        assert((k + 1) * PIXELS_PER_FRAME == k * PIXELS_PER_FRAME + PIXELS_PER_FRAME)
            by (nonlinear_arith);
        histogram.add_frame(&frames[k]);
        k += 1;
    }
    assert(frames@.take(frames.len() as int) =~= frames@);
    let out = histogram.finish();
    assert(out@ =~= histogram_of(frames@));
    out
}

/// The record of a video's histogram, ready to go into the index. Its path
/// is left empty: the index knows the path by the id.
pub fn _create_hash(id: i64, frames: &Vec<Vec<u8>>, size: u64) -> (r: VideoHash)
    requires
        forall|k: int| 0 <= k < frames.len() ==> (#[trigger] frames[k]).len() >= FRAME_BYTES,
        frames.len() * PIXELS_PER_FRAME <= u64::MAX,
    ensures
        r.id == id,
        r.path@ == Seq::<char>::empty(),
        r.histogram@ == histogram_of(frames@),
        r.size == size,
{
    VideoHash {
        id: id,
        path: String::new(),
        histogram: calculate_color_histogram(frames),
        size: size,
    }
}

} // verus!
