use vstd::prelude::*;
use crate::color::{Color, LUMINANCE_MAX, is_isqrt, luminance, luminance_spec};

verus! {

/// Most samples a pixel may take, its last batch included. The bound keeps the exact
/// convergence test, `c^2 (n * sq_sum - sum^2) < tol^2 * sum^2 * (n - 1)`, within 128-bit
/// integers for luminances up to `LUMINANCE_MAX` and thousandths up to `u16::MAX`.
pub const SAMPLE_LIMIT: u32 = 0x10_0000;

/// How a pixel is sampled. `confidence` (a z-value) and `tolerance` (relative) are in
/// thousandths; samples come in batches of `batch_size`, laid out as the largest square grid
/// that fits in it; a pixel stops once its mean has converged or it has taken more than
/// `max_samples`.
#[derive(Clone, Copy, Debug, PartialEq, Eq, Structural)]
pub struct SampleSettings {
    pub confidence: u16,
    pub tolerance: u16,
    pub batch_size: u32,
    pub max_samples: u32,
}

impl SampleSettings {
    pub open spec fn valid(self) -> bool {
        &&& self.batch_size >= 1
        &&& self.max_samples + self.batch_size <= SAMPLE_LIMIT
    }
}

/// Running sums over the samples of one pixel: their number, the sums of their luminance and
/// of its square, and the sum of each color channel.
#[derive(Clone, Copy, Debug, PartialEq, Eq, Structural)]
pub struct PixelStats {
    pub count: u32,
    pub sum: u64,
    pub sq_sum: u64,
    pub r_sum: u64,
    pub g_sum: u64,
    pub b_sum: u64,
}

/// The relative convergence test, with confidence `c` and tolerance `tol` in thousandths:
/// `c^2 * variance / n < tol^2 * mean^2`, where the variance is the unbiased estimate
/// `(sq_sum - sum^2 / n) / (n - 1)`. Both sides are multiplied by `n^2 (n - 1)` so that the
/// test is exact. Fewer than two samples never converge.
pub open spec fn converged_spec(sum: int, sq_sum: int, n: int, c: int, tol: int) -> bool {
    n >= 2 && c * c * (n * sq_sum - sum * sum) < tol * tol * (sum * sum) * (n - 1)
}

impl PixelStats {
    /// The sums are those of `count` samples, each of bounded luminance and channels.
    pub open spec fn inv(self) -> bool {
        &&& self.count <= SAMPLE_LIMIT
        &&& self.sum <= self.count * LUMINANCE_MAX
        &&& self.sq_sum <= self.count * (LUMINANCE_MAX * LUMINANCE_MAX)
        &&& self.r_sum <= self.count * 0xffff
        &&& self.g_sum <= self.count * 0xffff
        &&& self.b_sum <= self.count * 0xffff
    }

    pub open spec fn converged(self, settings: SampleSettings) -> bool {
        converged_spec(
            self.sum as int,
            self.sq_sum as int,
            self.count as int,
            settings.confidence as int,
            settings.tolerance as int,
        )
    }

    /// The pixel is done: converged, or past the sample cap.
    pub open spec fn done(self, settings: SampleSettings) -> bool {
        self.converged(settings) || self.count > settings.max_samples
    }

    pub fn new() -> (r: PixelStats)
        ensures
            r.count == 0 && r.sum == 0 && r.sq_sum == 0,
            r.r_sum == 0 && r.g_sum == 0 && r.b_sum == 0,
            r.inv(),
    {
        PixelStats { count: 0, sum: 0, sq_sum: 0, r_sum: 0, g_sum: 0, b_sum: 0 }
    }

    /// Adds one sample.
    pub fn add_sample(&mut self, c: Color)
        requires
            old(self).inv(),
            old(self).count < SAMPLE_LIMIT,
        ensures
            final(self).inv(),
            final(self).count == old(self).count + 1,
            final(self).sum == old(self).sum + luminance_spec(c),
            final(self).sq_sum == old(self).sq_sum + luminance_spec(c) * luminance_spec(c),
            final(self).r_sum == old(self).r_sum + c.r,
            final(self).g_sum == old(self).g_sum + c.g,
            final(self).b_sum == old(self).b_sum + c.b,
    {
        let lum = luminance(c) as u64;
        proof {
            assert(lum * lum <= LUMINANCE_MAX * LUMINANCE_MAX) by (nonlinear_arith)
                requires
                    lum <= LUMINANCE_MAX,
            ;
            assert(self.count * LUMINANCE_MAX + LUMINANCE_MAX == (self.count + 1) * LUMINANCE_MAX) by (nonlinear_arith);
            assert(self.count * (LUMINANCE_MAX * LUMINANCE_MAX) + LUMINANCE_MAX * LUMINANCE_MAX == (self.count + 1) * (
            LUMINANCE_MAX * LUMINANCE_MAX)) by (nonlinear_arith);
            assert(self.count * 0xffff + 0xffff == (self.count + 1) * 0xffff) by (nonlinear_arith);
        }
        self.count = self.count + 1;
        self.sum = self.sum + lum;
        self.sq_sum = self.sq_sum + lum * lum;
        self.r_sum = self.r_sum + c.r as u64;
        self.g_sum = self.g_sum + c.g as u64;
        self.b_sum = self.b_sum + c.b as u64;
    }

    /// The convergence test of `converged_spec`.
    pub fn is_converged(&self, settings: &SampleSettings) -> (r: bool)
        requires
            self.inv(),
        ensures
            r == self.converged(*settings),
    {
        if self.count < 2 {
            return false;
        }
        let n = self.count as i128;
        let s = self.sum as i128;
        let q = self.sq_sum as i128;
        let c = settings.confidence as i128;
        let tol = settings.tolerance as i128;
        proof {
            let lm = LUMINANCE_MAX as int;
            assert(0 <= s <= n * lm);
            assert(lm == 67502);
            assert(n <= 0x10_0000);
            assert(n * lm <= 70780977152) by (nonlinear_arith)
                requires
                    0 <= n <= 0x10_0000,
                    lm == 67502,
            ;
            assert(0 <= s * s <= 70780977152 * 70780977152) by (nonlinear_arith)
                requires
                    0 <= s <= 70780977152,
            ;
            assert(n * (lm * lm) <= 0x10_0000 * (67502 * 67502)) by (nonlinear_arith)
                requires
                    0 <= n <= 0x10_0000,
                    lm == 67502,
            ;
            assert(0 <= n * q <= 70780977152 * 70780977152) by (nonlinear_arith)
                requires
                    0 <= q <= n * (lm * lm),
                    n * (lm * lm) <= 0x10_0000 * (67502 * 67502),
                    0 <= n <= SAMPLE_LIMIT,
            ;
            assert(0 <= c * c <= 0x1_0000_0000) by (nonlinear_arith)
                requires
                    0 <= c <= 0xffff,
            ;
            assert(0 <= tol * tol <= 0x1_0000_0000) by (nonlinear_arith)
                requires
                    0 <= tol <= 0xffff,
            ;
            assert(-0x400_0000_0000_0000_0000_0000_0000 <= c * c * (n * q - s * s) <= 0x400_0000_0000_0000_0000_0000_0000)
                by (nonlinear_arith)
                requires
                    0 <= c * c <= 0x1_0000_0000,
                    0 <= s * s <= 70780977152 * 70780977152,
                    0 <= n * q <= 70780977152 * 70780977152,
            ;
            assert(0 <= tol * tol * (s * s) <= 0x400_0000_0000_0000_0000_0000_0000) by (nonlinear_arith)
                requires
                    0 <= tol * tol <= 0x1_0000_0000,
                    0 <= s * s <= 70780977152 * 70780977152,
            ;
            assert(0 <= tol * tol * (s * s) * (n - 1) <= 0x4000_0000_0000_0000_0000_0000_0000_0000) by (nonlinear_arith)
                requires
                    0 <= tol * tol * (s * s) <= 0x400_0000_0000_0000_0000_0000_0000,
                    2 <= n <= SAMPLE_LIMIT,
            ;
        }
        c * c * (n * q - s * s) < tol * tol * (s * s) * (n - 1)
    }

    /// Whether the pixel is done: converged, or past the sample cap.
    pub fn should_stop(&self, settings: &SampleSettings) -> (r: bool)
        requires
            self.inv(),
        ensures
            r == self.done(*settings),
    {
        self.is_converged(settings) || self.count > settings.max_samples
    }

    /// The mean color of the samples, channel by channel, rounded down.
    pub fn pixel_color(&self) -> (r: Color)
        requires
            self.inv(),
            self.count > 0,
        ensures
            r.r == self.r_sum as int / self.count as int,
            r.g == self.g_sum as int / self.count as int,
            r.b == self.b_sum as int / self.count as int,
    {
        let n = self.count as u64;
        proof {
            assert(self.r_sum / n <= 0xffff) by (nonlinear_arith)
                requires
                    self.r_sum <= n * 0xffff,
                    n > 0,
            ;
            assert(self.g_sum / n <= 0xffff) by (nonlinear_arith)
                requires
                    self.g_sum <= n * 0xffff,
                    n > 0,
            ;
            assert(self.b_sum / n <= 0xffff) by (nonlinear_arith)
                requires
                    self.b_sum <= n * 0xffff,
                    n > 0,
            ;
        }
        Color { r: (self.r_sum / n) as u16, g: (self.g_sum / n) as u16, b: (self.b_sum / n) as u16 }
    }
}

/// The side of the square grid of one batch: the largest `s` with `s * s <= batch_size`.
pub fn batch_side(batch_size: u32) -> (s: u32)
    requires
        1 <= batch_size <= SAMPLE_LIMIT,
    ensures
        1 <= s,
        s * s <= batch_size,
        batch_size < (s + 1) * (s + 1),
{
    let r = crate::color::isqrt(batch_size as u64);
    proof {
        assert(r <= 0x400) by (nonlinear_arith)
            requires
                r * r <= batch_size,
                batch_size <= SAMPLE_LIMIT,
        ;
        assert(r >= 1) by (nonlinear_arith)
            requires
                batch_size < (r + 1) * (r + 1),
                batch_size >= 1,
                r >= 0,
        ;
    }
    r as u32
}

/// Every sample that `sample` can give has luminance `lum`.
pub open spec fn uniform_luminance<F: Fn(u32, u32) -> Color>(sample: F, lum: int) -> bool {
    forall|i: u32, j: u32, c: Color| #[trigger] call_ensures(sample, (i, j), c) ==> luminance_spec(c) == lum
}

/// Each value has one integer square root.
proof fn lemma_isqrt_unique(a: int, b: int, v: int)
    requires
        is_isqrt(a, v),
        is_isqrt(b, v),
    ensures
        a == b,
{
    if a < b {
        assert((a + 1) * (a + 1) <= b * b) by (nonlinear_arith)
            requires
                0 <= a < b,
        ;
    } else if b < a {
        assert((b + 1) * (b + 1) <= a * a) by (nonlinear_arith)
            requires
                0 <= b < a,
        ;
    }
}

pub open spec fn lum_sum(cs: Seq<Color>) -> int
    decreases cs.len(),
{
    if cs.len() == 0 {
        0
    } else {
        lum_sum(cs.drop_last()) + luminance_spec(cs.last())
    }
}

pub open spec fn lum_sq_sum(cs: Seq<Color>) -> int
    decreases cs.len(),
{
    if cs.len() == 0 {
        0
    } else {
        lum_sq_sum(cs.drop_last()) + luminance_spec(cs.last()) * luminance_spec(cs.last())
    }
}

pub open spec fn red_sum(cs: Seq<Color>) -> int
    decreases cs.len(),
{
    if cs.len() == 0 {
        0
    } else {
        red_sum(cs.drop_last()) + cs.last().r
    }
}

pub open spec fn green_sum(cs: Seq<Color>) -> int
    decreases cs.len(),
{
    if cs.len() == 0 {
        0
    } else {
        green_sum(cs.drop_last()) + cs.last().g
    }
}

pub open spec fn blue_sum(cs: Seq<Color>) -> int
    decreases cs.len(),
{
    if cs.len() == 0 {
        0
    } else {
        blue_sum(cs.drop_last()) + cs.last().b
    }
}

/// `stats` holds the sums over the samples `cs`.
pub open spec fn sums_of(stats: PixelStats, cs: Seq<Color>) -> bool {
    &&& stats.count == cs.len()
    &&& stats.sum == lum_sum(cs)
    &&& stats.sq_sum == lum_sq_sum(cs)
    &&& stats.r_sum == red_sum(cs)
    &&& stats.g_sum == green_sum(cs)
    &&& stats.b_sum == blue_sum(cs)
}

/// A pixel with the samples `cs` is done: converged, or past the sample cap.
pub open spec fn done_after(cs: Seq<Color>, settings: SampleSettings) -> bool {
    converged_spec(lum_sum(cs), lum_sq_sum(cs), cs.len() as int, settings.confidence as int, settings.tolerance as int)
        || cs.len() > settings.max_samples
}

/// The side of a batch's square grid: the integer square root of the batch size.
pub open spec fn grid_side(batch_size: int) -> int {
    choose|s: int| is_isqrt(s, batch_size)
}

/// Sample `k` of a pixel lies in cell `(row, column)` of its batch's `side` by `side` grid.
pub open spec fn grid_row(k: int, side: int) -> int {
    (k % (side * side)) / side
}

pub open spec fn grid_column(k: int, side: int) -> int {
    k % side
}

/// Each sample of `cs` is one that `sample` can give for the grid cell it lies in.
pub open spec fn sampled_on_grid<F: Fn(u32, u32) -> Color>(sample: F, cs: Seq<Color>, side: int) -> bool {
    forall|k: int|
        0 <= k < cs.len() ==> call_ensures(sample, (grid_row(k, side) as u32, grid_column(k, side) as u32), #[trigger] cs[k])
}

/// Sample `b * side * side + i * side + j` lies in cell `(i, j)`.
proof fn lemma_grid_cell(b: int, i: int, j: int, side: int)
    requires
        side > 0,
        b >= 0,
        0 <= i < side,
        0 <= j < side,
    ensures
        grid_row(b * (side * side) + i * side + j, side) == i,
        grid_column(b * (side * side) + i * side + j, side) == j,
{
    let k = b * (side * side) + i * side + j;
    assert(0 <= i * side + j < side * side) by (nonlinear_arith)
        requires
            side > 0,
            0 <= i < side,
            0 <= j < side,
    ;
    vstd::arithmetic::div_mod::lemma_fundamental_div_mod_converse(k, side * side, b, i * side + j);
    vstd::arithmetic::div_mod::lemma_fundamental_div_mod_converse(i * side + j, side, i, j);
    assert(k == (b * side + i) * side + j) by (nonlinear_arith)
        requires
            k == b * (side * side) + i * side + j,
    ;
    vstd::arithmetic::div_mod::lemma_fundamental_div_mod_converse(k, side, b * side + i, j);
}

proof fn lemma_sums_push(cs: Seq<Color>, c: Color)
    ensures
        lum_sum(cs.push(c)) == lum_sum(cs) + luminance_spec(c),
        lum_sq_sum(cs.push(c)) == lum_sq_sum(cs) + luminance_spec(c) * luminance_spec(c),
        red_sum(cs.push(c)) == red_sum(cs) + c.r,
        green_sum(cs.push(c)) == green_sum(cs) + c.g,
        blue_sum(cs.push(c)) == blue_sum(cs) + c.b,
{
    assert(cs.push(c).drop_last() =~= cs);
}

/// Samples one pixel adaptively: batches of `side * side` samples, where `side` is the integer
/// square root of the batch size, `sample(i, j)` giving the sample of cell `(i, j)` of the
/// batch's grid, until the pixel is done. The result holds the sums over the samples taken,
/// in whole batches, and the pixel stops at the first batch after which it is done. A pixel
/// whose samples all share one positive luminance stops after its first batch when that batch
/// has two samples or more and the tolerance is positive.
pub fn sample_pixel<F: Fn(u32, u32) -> Color>(settings: &SampleSettings, sample: &F) -> (r: PixelStats)
    requires
        settings.valid(),
        forall|i: u32, j: u32| call_requires(*sample, (i, j)),
    ensures
        r.inv(),
        r.done(*settings),
        r.count >= 1,
        r.count <= settings.max_samples + settings.batch_size,
        exists|cs: Seq<Color>|
            {
                let side = grid_side(settings.batch_size as int);
                &&& #[trigger] sums_of(r, cs)
                &&& sampled_on_grid(*sample, cs, side)
                &&& cs.len() as int % (side * side) == 0
                &&& forall|b: int|
                    1 <= b < cs.len() as int / (side * side) ==> !#[trigger] done_after(cs.take(b * (side * side)), *settings)
            },
        forall|lum: int, side: int|
            lum >= 1 && #[trigger] uniform_luminance(*sample, lum) && settings.tolerance >= 1 && settings.batch_size >= 4
                && #[trigger] is_isqrt(side, settings.batch_size as int) ==> r.count == side * side,
{
    let side = batch_side(settings.batch_size);
    let per_batch = side * side;
    proof {
        assert(is_isqrt(side as int, settings.batch_size as int));
        lemma_isqrt_unique(side as int, grid_side(settings.batch_size as int), settings.batch_size as int);
    }
    let ghost s = side as int;
    let ghost uniform = settings.tolerance >= 1 && settings.batch_size >= 4 && exists|lum: int|
        lum >= 1 && #[trigger] uniform_luminance(*sample, lum);
    let ghost lum0 = if uniform {
        choose|lum: int| lum >= 1 && #[trigger] uniform_luminance(*sample, lum)
    } else {
        0
    };
    let mut stats = PixelStats::new();
    let ghost mut cs: Seq<Color> = Seq::empty();
    let ghost mut nb: int = 0;
    proof {
        if settings.batch_size >= 4 {
            assert(side >= 2) by (nonlinear_arith)
                requires
                    settings.batch_size < (side + 1) * (side + 1),
                    settings.batch_size >= 4,
                    side >= 1,
            ;
        }
        assert(0 * (s * s) == 0);
    }
    loop
        invariant
            settings.valid(),
            forall|i: u32, j: u32| call_requires(*sample, (i, j)),
            1 <= side,
            s == side,
            s == grid_side(settings.batch_size as int),
            per_batch == side * side,
            per_batch <= settings.batch_size,
            settings.batch_size < (side + 1) * (side + 1),
            settings.batch_size >= 4 ==> side >= 2,
            uniform == (settings.tolerance >= 1 && settings.batch_size >= 4 && exists|lum: int|
                lum >= 1 && #[trigger] uniform_luminance(*sample, lum)),
            uniform ==> lum0 >= 1 && uniform_luminance(*sample, lum0) && settings.tolerance >= 1
                && settings.batch_size >= 4,
            uniform ==> stats.count == 0,
            stats.inv(),
            stats.count <= settings.max_samples,
            sums_of(stats, cs),
            nb >= 0,
            cs.len() == nb * (s * s),
            sampled_on_grid(*sample, cs, s),
            forall|b: int| 1 <= b <= nb ==> !#[trigger] done_after(cs.take(b * (s * s)), *settings),
        decreases settings.max_samples + 1 - stats.count,
    {
        let start = stats.count;
        let ghost prev = cs;
        proof {
            assert(0 * side == 0);
            if uniform {
                assert(stats.count * LUMINANCE_MAX == 0 && stats.count * (LUMINANCE_MAX * LUMINANCE_MAX) == 0)
                    by (nonlinear_arith)
                    requires
                        stats.count == 0,
                ;
                assert(stats.sum == 0 && stats.sq_sum == 0);
                assert(0 * lum0 == 0 && 0 * (lum0 * lum0) == 0);
            }
            assert(cs.take(prev.len() as int) =~= prev);
        }
        for s_i in 0..side
            invariant
                settings.valid(),
                forall|i: u32, j: u32| call_requires(*sample, (i, j)),
                s == side,
                per_batch == side * side,
                per_batch <= settings.batch_size,
                start <= settings.max_samples,
                uniform ==> lum0 >= 1 && uniform_luminance(*sample, lum0),
                uniform ==> stats.sum == stats.count * lum0 && stats.sq_sum == stats.count * (lum0 * lum0),
                uniform ==> start == 0,
                stats.inv(),
                stats.count == start + s_i * side,
                sums_of(stats, cs),
                prev.len() == start,
                prev.len() == nb * (s * s),
                nb >= 0,
                cs.take(prev.len() as int) =~= prev,
                sampled_on_grid(*sample, cs, s),
        {
            for s_j in 0..side
                invariant
                    settings.valid(),
                    forall|i: u32, j: u32| call_requires(*sample, (i, j)),
                    s == side,
                    per_batch == side * side,
                    per_batch <= settings.batch_size,
                    start <= settings.max_samples,
                    s_i < side,
                    uniform ==> lum0 >= 1 && uniform_luminance(*sample, lum0),
                    uniform ==> stats.sum == stats.count * lum0 && stats.sq_sum == stats.count * (lum0 * lum0),
                    stats.inv(),
                    stats.count == start + s_i * side + s_j,
                    sums_of(stats, cs),
                    prev.len() == start,
                    prev.len() == nb * (s * s),
                    nb >= 0,
                    cs.take(prev.len() as int) =~= prev,
                    sampled_on_grid(*sample, cs, s),
            {
                proof {
                    assert(s_i * side + s_j < side * side) by (nonlinear_arith)
                        requires
                            s_i < side,
                            s_j < side,
                    ;
                }
                let ghost before = stats;
                let c = sample(s_i, s_j);
                stats.add_sample(c);
                proof {
                    if uniform {
                        assert(luminance_spec(c) == lum0);
                        assert(before.count * lum0 + lum0 == (before.count + 1) * lum0) by (nonlinear_arith);
                        assert(before.count * (lum0 * lum0) + lum0 * lum0 == (before.count + 1) * (lum0 * lum0))
                            by (nonlinear_arith);
                    }
                    let old_cs = cs;
                    lemma_sums_push(old_cs, c);
                    cs = old_cs.push(c);
                    lemma_grid_cell(nb, s_i as int, s_j as int, s);
                    assert(nb * (s * s) + s_i * s + s_j == old_cs.len());
                    assert forall|k: int| 0 <= k < cs.len() implies call_ensures(
                        *sample,
                        (grid_row(k, s) as u32, grid_column(k, s) as u32),
                        #[trigger] cs[k],
                    ) by {
                        if k < old_cs.len() {
                            assert(cs[k] == old_cs[k]);
                        }
                    }
                    assert(cs.take(prev.len() as int) =~= prev);
                }
            }
            proof {
                assert(start + s_i * side + side == start + (s_i + 1) * side) by (nonlinear_arith);
            }
        }
        proof {
            assert(side * side >= 1) by (nonlinear_arith)
                requires
                    side >= 1,
            ;
            if uniform {
                assert(side * side >= 4) by (nonlinear_arith)
                    requires
                        side >= 2,
                ;
                lemma_uniform_pixel_stops_after_one_batch(stats, *settings, lum0);
            }
            assert(cs.len() == (nb + 1) * (s * s)) by (nonlinear_arith)
                requires
                    cs.len() == stats.count,
                    stats.count == start + side * side,
                    start == nb * (s * s),
                    s == side,
            ;
            assert forall|b: int| 1 <= b <= nb implies !#[trigger] done_after(cs.take(b * (s * s)), *settings) by {
                assert(b * (s * s) <= nb * (s * s)) by (nonlinear_arith)
                    requires
                        b <= nb,
                        s >= 1,
                ;
                assert(cs.take(b * (s * s)) =~= prev.take(b * (s * s)));
                assert(!done_after(prev.take(b * (s * s)), *settings));
            }
            nb = nb + 1;
            assert(done_after(cs, *settings) == stats.done(*settings));
            assert(cs.take(nb * (s * s)) =~= cs);
        }
        if stats.should_stop(settings) {
            proof {
                assert forall|lum: int, sd: int|
                    lum >= 1 && #[trigger] uniform_luminance(*sample, lum) && settings.tolerance >= 1
                        && settings.batch_size >= 4 && #[trigger] is_isqrt(sd, settings.batch_size as int)
                    implies stats.count == sd * sd by {
                    assert(lum >= 1 && uniform_luminance(*sample, lum));
                    assert(uniform);
                    lemma_isqrt_unique(sd, side as int, settings.batch_size as int);
                }
                vstd::arithmetic::div_mod::lemma_fundamental_div_mod_converse(cs.len() as int, s * s, nb, 0);
                assert forall|b: int| 1 <= b < cs.len() as int / (s * s) implies !#[trigger] done_after(
                    cs.take(b * (s * s)),
                    *settings,
                ) by {}
            }
            return stats;
        }
    }
}

/// A pixel whose samples all have the same luminance `lum > 0` converges as soon as it has two
/// samples or more, whatever the confidence, for any positive tolerance: its variance is zero.
pub proof fn lemma_uniform_samples_converge(n: int, lum: int, confidence: int, tolerance: int)
    requires
        n >= 2,
        lum >= 1,
        tolerance >= 1,
    ensures
        converged_spec(n * lum, n * (lum * lum), n, confidence, tolerance),
{
    assert(n * (n * (lum * lum)) - (n * lum) * (n * lum) == 0) by (nonlinear_arith);
    assert(tolerance * tolerance * ((n * lum) * (n * lum)) * (n - 1) > 0) by (nonlinear_arith)
        requires
            n >= 2,
            lum >= 1,
            tolerance >= 1,
    ;
}

/// A pixel whose first batch holds two samples or more, all of the same luminance `lum > 0`,
/// is done after that batch, whatever the confidence, for any positive tolerance.
pub proof fn lemma_uniform_pixel_stops_after_one_batch(stats: PixelStats, settings: SampleSettings, lum: int)
    requires
        stats.count >= 2,
        stats.sum == stats.count * lum,
        stats.sq_sum == stats.count * (lum * lum),
        lum >= 1,
        settings.tolerance >= 1,
    ensures
        stats.done(settings),
{
    lemma_uniform_samples_converge(stats.count as int, lum, settings.confidence as int, settings.tolerance as int);
}

/// A pixel past its sample cap is done, however far it is from converging.
pub proof fn lemma_capped_pixel_stops(stats: PixelStats, settings: SampleSettings)
    requires
        stats.count > settings.max_samples,
    ensures
        stats.done(settings),
{
}

} // verus!
