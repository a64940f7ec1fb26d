use pathtracer::config::{Profile, Resolution, TonemapType};
use pathtracer::sampler::{
    column_major_index, pixel_coords, pixel_index, pixel_job, pixel_total, sample_seed, seeds_fit,
    PixelJob, ViewerLink,
};

fn frame(width: u32, height: u32) -> Resolution {
    Resolution { width, height }
}

#[test]
fn pixel_total_is_the_product_of_the_sides() {
    assert_eq!(pixel_total(frame(800, 600)), Some(480_000));
    assert_eq!(pixel_total(frame(0, 600)), Some(0));
    assert_eq!(pixel_total(frame(65_535, 65_537)), Some(u32::MAX));
}

#[test]
fn pixel_total_refuses_what_does_not_fit() {
    assert_eq!(pixel_total(frame(65_536, 65_536)), None);
    assert_eq!(pixel_total(frame(u32::MAX, 2)), None);
}

#[test]
fn pixel_coords_run_row_by_row() {
    let r = frame(800, 600);
    assert_eq!(pixel_coords(0, r), (0, 0));
    assert_eq!(pixel_coords(799, r), (799, 0));
    assert_eq!(pixel_coords(800, r), (0, 1));
    assert_eq!(pixel_coords(1234, r), (434, 1));
    assert_eq!(pixel_coords(479_999, r), (799, 599));
}

#[test]
fn pixel_index_is_x_plus_y_times_width() {
    let r = frame(800, 600);
    assert_eq!(pixel_index(0, 0, r), 0);
    assert_eq!(pixel_index(434, 1, r), 1234);
    assert_eq!(pixel_index(799, 599, r), 479_999);
}

#[test]
fn coords_and_index_undo_each_other() {
    let r = frame(7, 5);
    for i in 0..35 {
        let (x, y) = pixel_coords(i, r);
        assert!(x < 7 && y < 5);
        assert_eq!(pixel_index(x, y, r), i);
    }
    for y in 0..5 {
        for x in 0..7 {
            assert_eq!(pixel_coords(pixel_index(x, y, r), r), (x, y));
        }
    }
}

#[test]
fn column_major_index_is_x_times_height_plus_y() {
    let r = frame(7, 5);
    assert_eq!(column_major_index(0, 0, r), 0);
    assert_eq!(column_major_index(0, 4, r), 4);
    assert_eq!(column_major_index(1, 0, r), 5);
    assert_eq!(column_major_index(6, 4, r), 34);
}

#[test]
fn seed_is_sample_plus_pixel_times_samples() {
    assert_eq!(sample_seed(1, 0, 16), 1);
    assert_eq!(sample_seed(16, 0, 16), 16);
    assert_eq!(sample_seed(1, 1, 16), 17);
    assert_eq!(sample_seed(3, 479_999, 16), 7_679_987);
    assert_eq!(sample_seed(5, 7, 0), 5);
}

#[test]
fn no_two_jobs_of_a_render_share_a_seed() {
    let samples = 6;
    let mut seen = std::collections::HashSet::new();
    for pixel in 0..50 {
        for sample in 1..=samples {
            assert!(seen.insert(sample_seed(sample, pixel, samples)));
        }
    }
    assert_eq!(seen.len(), 300);
}

#[test]
fn a_job_names_its_pixel_and_its_seed() {
    let profile = Profile { resolution: frame(800, 600), samples: 16, ..Profile::default() };
    assert_eq!(pixel_job(3, 1234, &profile), PixelJob { x: 434, y: 1, seed: 19_747 });
    assert_eq!(pixel_job(1, 0, &profile), PixelJob { x: 0, y: 0, seed: 1 });
}

#[test]
fn the_same_job_always_gets_the_same_seed() {
    let profile = Profile { resolution: frame(64, 64), samples: 4, ..Profile::default() };
    for pixel in [0usize, 1, 63, 64, 4095] {
        for sample in 1..=4 {
            assert_eq!(pixel_job(sample, pixel, &profile), pixel_job(sample, pixel, &profile));
        }
    }
}

#[test]
fn a_viewer_that_hung_up_gets_nothing_more() {
    let mut link = ViewerLink::new(true);
    assert!(link.publishes());
    link.sent(true);
    assert!(link.publishes());
    link.sent(false);
    assert!(!link.publishes());
    link.sent(true);
    assert!(!link.publishes());
}

#[test]
fn without_a_viewer_nothing_is_published() {
    let mut link = ViewerLink::new(false);
    assert!(!link.publishes());
    link.sent(true);
    assert!(!link.publishes());
}

#[test]
fn seeds_fit_an_ordinary_render() {
    assert!(seeds_fit(frame(800, 600), 16));
    assert!(seeds_fit(frame(65_535, 65_537), 1 << 31));
    assert!(seeds_fit(frame(0, 600), usize::MAX));
    assert!(seeds_fit(frame(800, 600), 0));
    assert!(seeds_fit(frame(1, 1), usize::MAX));
}

#[test]
fn seeds_do_not_fit_a_render_beyond_64_bits() {
    if usize::BITS == 64 {
        assert!(!seeds_fit(frame(2, 1), usize::MAX));
        assert!(!seeds_fit(frame(65_536, 65_536), 1 << 32));
        assert!(seeds_fit(frame(65_536, 65_536), (1 << 32) - 1));
    }
}

#[test]
fn jobs_depend_on_the_frame_and_the_passes_alone() {
    let one = Profile { resolution: frame(64, 48), samples: 8, ..Profile::default() };
    let other = Profile { bounces: 9, tonemap: TonemapType::Aces, nb_threads: 3, ..one };
    for pixel in [0usize, 1, 63, 64, 3071] {
        for sample in 1..=8 {
            assert_eq!(pixel_job(sample, pixel, &one), pixel_job(sample, pixel, &other));
        }
    }
}
