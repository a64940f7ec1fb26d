//! The sampling schedule: which pixel a job belongs to, where it stands in
//! the frame buffer, and which seed its random stream starts from.
//!
//! Every pixel of every pass draws from a stream of its own, seeded from the
//! pass, the pixel and the number of passes alone.  No two jobs of a render
//! share a seed, so the image does not depend on which worker runs which job.

use vstd::prelude::*;
use crate::config::{Profile, Resolution};

verus! {

/// Number of pixels of the frame, or `None` where it does not fit the 32-bit
/// pixel counter.
pub fn pixel_total(resolution: Resolution) -> (total: Option<u32>)
    ensures
        total == if resolution.pixel_count() <= u32::MAX {
            Some(resolution.pixel_count() as u32)
        } else {
            None::<u32>
        },
{
    resolution.width.checked_mul(resolution.height)
}

/// Column of the pixel with row-major index `index`.
pub open spec fn column_of(index: nat, resolution: Resolution) -> nat {
    index % (resolution.width as nat)
}

/// Row of the pixel with row-major index `index`.
pub open spec fn row_of(index: nat, resolution: Resolution) -> nat {
    index / (resolution.width as nat)
}

/// Row-major index of the pixel in column `x` of row `y`.
pub open spec fn index_of(x: nat, y: nat, resolution: Resolution) -> nat {
    x + y * (resolution.width as nat)
}

/// Column and row of the pixel that stands at `index` in the frame buffer.
pub fn pixel_coords(index: usize, resolution: Resolution) -> (xy: (u32, u32))
    requires
        index < resolution.pixel_count(),
    ensures
        xy.0 == column_of(index as nat, resolution),
        xy.1 == row_of(index as nat, resolution),
        xy.0 < resolution.width,
        xy.1 < resolution.height,
{
    proof {
        lemma_coords_in_frame(index as nat, resolution);
    }
    let width = resolution.width as usize;
    ((index % width) as u32, (index / width) as u32)
}

/// Place in the frame buffer of the pixel in column `x` of row `y`.
pub fn pixel_index(x: u32, y: u32, resolution: Resolution) -> (index: usize)
    requires
        x < resolution.width,
        y < resolution.height,
        resolution.pixel_count() <= usize::MAX,
    ensures
        index == index_of(x as nat, y as nat, resolution),
        index < resolution.pixel_count(),
{
    proof {
        lemma_index_in_frame(x as nat, y as nat, resolution);
        assert(y as nat * (resolution.width as nat) <= index_of(x as nat, y as nat, resolution));
    }
    x as usize + y as usize * resolution.width as usize
}

/// A pixel index inside the frame names a column and a row inside the frame,
/// and leads back to itself.
pub proof fn lemma_coords_in_frame(index: nat, resolution: Resolution)
    requires
        index < resolution.pixel_count(),
    ensures
        resolution.width > 0,
        column_of(index, resolution) < resolution.width,
        row_of(index, resolution) < resolution.height,
        index_of(column_of(index, resolution), row_of(index, resolution), resolution) == index,
{
    let w = resolution.width as int;
    let h = resolution.height as int;
    let i = index as int;
    assert(w > 0) by (nonlinear_arith)
        requires
            0 <= i < w * h,
            0 <= w,
    ;
    vstd::arithmetic::div_mod::lemma_fundamental_div_mod(i, w);
    vstd::arithmetic::div_mod::lemma_mod_bound(i, w);
    assert(i / w < h) by (nonlinear_arith)
        requires
            0 <= i < w * h,
            w > 0,
            i == w * (i / w) + i % w,
            0 <= i % w,
    ;
    assert(i / w >= 0) by (nonlinear_arith)
        requires
            0 <= i,
            w > 0,
    ;
    assert(w * (i / w) == (i / w) * w) by (nonlinear_arith);
}

/// A column and a row inside the frame name a pixel index inside the frame,
/// and that index leads back to them.
pub proof fn lemma_index_in_frame(x: nat, y: nat, resolution: Resolution)
    requires
        x < resolution.width,
        y < resolution.height,
    ensures
        index_of(x, y, resolution) < resolution.pixel_count(),
        column_of(index_of(x, y, resolution), resolution) == x,
        row_of(index_of(x, y, resolution), resolution) == y,
{
    let w = resolution.width as int;
    let h = resolution.height as int;
    let xi = x as int;
    let yi = y as int;
    assert(xi + yi * w < w * h) by (nonlinear_arith)
        requires
            0 <= xi < w,
            0 <= yi < h,
    ;
    vstd::arithmetic::div_mod::lemma_fundamental_div_mod_converse(xi + yi * w, w, yi, xi);
}

/// Place in a column-major buffer of the pixel in column `x` of row `y`.
/// The channel images of the debug mode are filled in this order.
pub fn column_major_index(x: u32, y: u32, resolution: Resolution) -> (index: usize)
    requires
        x < resolution.width,
        y < resolution.height,
        resolution.pixel_count() <= usize::MAX,
    ensures
        index == (x as nat) * (resolution.height as nat) + (y as nat),
        index < resolution.pixel_count(),
{
    proof {
        let w = resolution.width as int;
        let h = resolution.height as int;
        let xi = x as int;
        let yi = y as int;
        assert(xi * h + yi < w * h && 0 <= xi * h) by (nonlinear_arith)
            requires
                0 <= xi < w,
                0 <= yi < h,
        ;
    }
    x as usize * resolution.height as usize + y as usize
}

/// The seed of pass `sample` of pixel `pixel`, in a render of `samples` passes.
pub open spec fn seed_of(sample: nat, pixel: nat, samples: nat) -> nat {
    sample + pixel * samples
}

/// The seed from which a job's random stream starts.
pub fn sample_seed(sample: usize, pixel: usize, samples: usize) -> (seed: u64)
    requires
        seed_of(sample as nat, pixel as nat, samples as nat) <= u64::MAX,
    ensures
        seed == seed_of(sample as nat, pixel as nat, samples as nat),
{
    proof {
        assert(0 <= (pixel as nat) * (samples as nat)) by (nonlinear_arith);
    }
    sample as u64 + pixel as u64 * samples as u64
}

/// Whether the seed of every job of a render fits 64 bits: the jobs of
/// passes 1 to `samples` for each pixel of the frame.
pub open spec fn all_seeds_fit(resolution: Resolution, samples: nat) -> bool {
    forall|sample: nat, pixel: nat|
        1 <= sample <= samples && pixel < resolution.pixel_count() ==> #[trigger] seed_of(
            sample,
            pixel,
            samples,
        ) <= u64::MAX
}

/// Tells whether a render can seed all its jobs.
pub fn seeds_fit(resolution: Resolution, samples: usize) -> (ok: bool)
    ensures
        ok == all_seeds_fit(resolution, samples as nat),
{
    assert(0 <= resolution.width * resolution.height <= 0xffff_ffff * 0xffff_ffff)
        by (nonlinear_arith)
        requires
            0 <= resolution.width <= 0xffff_ffff,
            0 <= resolution.height <= 0xffff_ffff,
    ;
    let pixels: u128 = resolution.width as u128 * resolution.height as u128;
    let ghost count = resolution.pixel_count();
    let ghost n = samples as nat;
    if pixels == 0 || samples == 0 {
        proof {
            if count != 0 {
                assert(count * 1 == count);
            } else {
                assert((resolution.width as nat) * (resolution.height as nat) == 0);
            }
        }
        return true;
    }
    assert(pixels * (samples as u128) <= 0xffff_ffff_ffff_ffff * 0xffff_ffff_ffff_ffff) by (nonlinear_arith)
        requires
            pixels <= 0xffff_ffff * 0xffff_ffff,
            samples <= 0xffff_ffff_ffff_ffff,
    ;
    // The greatest seed is that of the last pass of the last pixel.
    let greatest: u128 = pixels * samples as u128;
    let ok = greatest <= u64::MAX as u128;
    proof {
        assert(seed_of(n, (count - 1) as nat, n) == count * n) by (nonlinear_arith)
            requires
                count >= 1,
        ;
        if ok {
            assert forall|sample: nat, pixel: nat|
                1 <= sample <= n && pixel < count implies #[trigger] seed_of(sample, pixel, n)
                <= u64::MAX by {
                assert(sample + pixel * n <= count * n) by (nonlinear_arith)
                    requires
                        sample <= n,
                        pixel < count,
                ;
            }
        } else {
            assert(seed_of(n, (count - 1) as nat, n) > u64::MAX);
        }
    }
    ok
}

/// No two jobs of a render share a seed: passes are numbered from 1 to
/// `samples`, and two jobs that differ in pass or pixel differ in seed.
pub proof fn lemma_seeds_differ(
    sample: nat,
    pixel: nat,
    other_sample: nat,
    other_pixel: nat,
    samples: nat,
)
    requires
        1 <= sample <= samples,
        1 <= other_sample <= samples,
        sample != other_sample || pixel != other_pixel,
    ensures
        seed_of(sample, pixel, samples) != seed_of(other_sample, other_pixel, samples),
{
    if pixel < other_pixel {
        assert(other_pixel * samples >= pixel * samples + samples) by (nonlinear_arith)
            requires
                pixel < other_pixel,
        ;
    } else if other_pixel < pixel {
        assert(pixel * samples >= other_pixel * samples + samples) by (nonlinear_arith)
            requires
                other_pixel < pixel,
        ;
    }
}

/// One path to trace: through which pixel, and from which seed.
#[derive(Copy, Clone, Debug, PartialEq, Eq, Structural)]
pub struct PixelJob {
    pub x: u32,
    pub y: u32,
    pub seed: u64,
}

/// The job of pass `sample` for the pixel at `pixel`, as a mathematical
/// value.  It is made of the frame's size and the number of passes alone.
pub open spec fn job_of(sample: nat, pixel: nat, resolution: Resolution, samples: nat) -> PixelJob {
    PixelJob {
        x: column_of(pixel, resolution) as u32,
        y: row_of(pixel, resolution) as u32,
        seed: seed_of(sample, pixel, samples) as u64,
    }
}

/// Two renders of one frame size and one number of passes give every job
/// the same pixel and the same seed, whatever else their profiles say and
/// whoever carries the job out.
pub proof fn lemma_jobs_repeat(sample: nat, pixel: nat, one: Profile, other: Profile)
    requires
        one.resolution == other.resolution,
        one.samples == other.samples,
    ensures
        job_of(sample, pixel, one.resolution, one.samples as nat) == job_of(
            sample,
            pixel,
            other.resolution,
            other.samples as nat,
        ),
{
}

/// The job of pass `sample` for the pixel at `pixel` in the frame buffer.
pub fn pixel_job(sample: usize, pixel: usize, profile: &Profile) -> (job: PixelJob)
    requires
        1 <= sample <= profile.samples,
        pixel < profile.resolution.pixel_count(),
        seed_of(sample as nat, pixel as nat, profile.samples as nat) <= u64::MAX,
    ensures
        job == job_of(sample as nat, pixel as nat, profile.resolution, profile.samples as nat),
        job.x == column_of(pixel as nat, profile.resolution),
        job.y == row_of(pixel as nat, profile.resolution),
        job.seed == seed_of(sample as nat, pixel as nat, profile.samples as nat),
{
    let xy = pixel_coords(pixel, profile.resolution);
    PixelJob { x: xy.0, y: xy.1, seed: sample_seed(sample, pixel, profile.samples) }
}

/// Whether pixel updates still go out to a viewer.  Once a send has failed
/// the viewer is gone, and nothing is sent for the rest of the render.
#[derive(Copy, Clone, Debug, PartialEq, Eq, Structural)]
pub struct ViewerLink {
    pub enabled: bool,
}

impl ViewerLink {
    /// The link at the start of a render.
    pub fn new(has_viewer: bool) -> (link: ViewerLink)
        ensures
            link.enabled == has_viewer,
    {
        ViewerLink { enabled: has_viewer }
    }

    /// Whether the next pixel update is to be sent.
    pub fn publishes(&self) -> (yes: bool)
        ensures
            yes == self.enabled,
    {
        self.enabled
    }

    /// Records how a send went.  A failed send closes the link for good.
    pub fn sent(&mut self, delivered: bool)
        ensures
            final(self).enabled == (old(self).enabled && delivered),
    {
        if !delivered {
            self.enabled = false;
        }
    }
}

} // verus!
