use pathtrace::color::{channel_byte, isqrt, luminance, Color};
use pathtrace::sampler::{batch_side, sample_pixel, PixelStats, SampleSettings};

fn settings(tolerance: u16, batch_size: u32, max_samples: u32) -> SampleSettings {
    SampleSettings { confidence: 1960, tolerance, batch_size, max_samples }
}

#[test]
fn luminance_weights() {
    assert_eq!(luminance(Color::new(1000, 1000, 1000)), 1030);
    assert_eq!(luminance(Color::new(1000, 0, 0)), 299);
    assert_eq!(luminance(Color::new(0, 1000, 0)), 587);
    assert_eq!(luminance(Color::new(0, 0, 1000)), 144);
    assert_eq!(luminance(Color::black()), 0);
}

#[test]
fn gamma_bytes() {
    assert_eq!(channel_byte(0), 0);
    assert_eq!(channel_byte(250), 128);
    assert_eq!(channel_byte(1000), 255);
    assert_eq!(channel_byte(990), 254);
    assert_eq!(channel_byte(u16::MAX), 255);
}

#[test]
fn integer_square_roots() {
    assert_eq!(isqrt(0), 0);
    assert_eq!(isqrt(15), 3);
    assert_eq!(isqrt(16), 4);
    assert_eq!(isqrt(1 << 40), 1 << 20);
}

#[test]
fn batch_grid_side() {
    assert_eq!(batch_side(1), 1);
    assert_eq!(batch_side(10), 3);
    assert_eq!(batch_side(16), 4);
}

#[test]
fn uniform_pixel_stops_after_one_batch() {
    for tolerance in [1u16, 50, 1000] {
        let s = settings(tolerance, 16, 1024);
        let stats = sample_pixel(&s, &|_i: u32, _j: u32| Color::new(500, 500, 500));
        assert_eq!(stats.count, 16);
        assert!(stats.is_converged(&s));
        assert_eq!(stats.pixel_color(), Color::new(500, 500, 500));
    }
}

#[test]
fn noisy_pixel_stops_at_the_cap() {
    let s = settings(1, 16, 64);
    let stats = sample_pixel(&s, &|i: u32, j: u32| {
        if (i + j) % 2 == 0 { Color::new(1000, 1000, 1000) } else { Color::black() }
    });
    assert_eq!(stats.count, 80);
    assert!(!stats.is_converged(&s));
    assert!(stats.should_stop(&s));
    assert_eq!(stats.pixel_color(), Color::new(500, 500, 500));
}

#[test]
fn black_pixel_never_converges_and_is_capped() {
    let s = settings(50, 4, 20);
    let stats = sample_pixel(&s, &|_i: u32, _j: u32| Color::black());
    assert_eq!(stats.count, 24);
    assert!(!stats.is_converged(&s));
}

#[test]
fn convergence_formula() {
    let mut stats = PixelStats::new();
    stats.add_sample(Color::new(1000, 0, 0));
    assert!(!stats.is_converged(&settings(1000, 1, 10)));
    stats.add_sample(Color::new(1000, 0, 0));
    assert_eq!((stats.count, stats.sum, stats.sq_sum), (2, 598, 2 * 299 * 299));
    assert!(stats.is_converged(&settings(1, 1, 10)));
    stats.add_sample(Color::new(0, 0, 0));
    // n = 3, sum = 598, sq_sum = 178802: 1960^2 * (3 * 178802 - 598^2) = 686885763200, against
    // tol^2 * 598^2 * 2, which is larger for tol = 1000 and smaller for tol = 900.
    assert!(!stats.is_converged(&settings(900, 1, 10)));
    assert!(stats.is_converged(&settings(1000, 1, 10)));
    assert!(!stats.should_stop(&settings(1, 1, 10)));
    assert!(stats.should_stop(&settings(1, 1, 2)));
    assert_eq!(stats.pixel_color(), Color::new(666, 0, 0));
}

#[test]
fn only_black_has_no_luminance() {
    assert_eq!(luminance(Color::new(1, 0, 0)), 1);
    assert_eq!(luminance(Color::new(0, 0, 1)), 1);
    assert_eq!(luminance(Color::new(3, 1, 0)), 2);
    assert_eq!(luminance(Color::new(u16::MAX, u16::MAX, u16::MAX)), 67502);
}

#[test]
fn uniform_dim_pixel_stops_after_one_batch() {
    for tolerance in [1u16, 50] {
        let s = settings(tolerance, 16, 1024);
        let stats = sample_pixel(&s, &|_i: u32, _j: u32| Color::new(1, 0, 0));
        assert_eq!(stats.count, 16);
        assert_eq!(stats.pixel_color(), Color::new(1, 0, 0));
    }
}
