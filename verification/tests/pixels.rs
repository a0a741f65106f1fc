use ascii_engine::grid::{compute_cell_totals, compute_region_histograms, part_bounds, region_histogram, scan_pixels_cpu, span_bounds, LumaImage};
use ascii_engine::histogram::{histogram_total, luma_stats, merge_histograms, percentile_level};
use ascii_engine::neighborhood::{median_u8, neighbor_medians, window_neighbors};
use ascii_engine::histogram::RegionStats;

fn target(total: u64, percentile: f32) -> u64 {
    ((total as f64) * (percentile as f64)).round().max(1.0) as u64
}

#[test]
fn percentile_ignores_single_pixel_outliers() {
    let mut histogram = [0u32; 256];
    for level in 100..110 {
        histogram[level] = 100;
    }
    histogram[255] = 1;
    let total = histogram_total(&histogram);
    let p_high = percentile_level(&histogram, target(total, 0.98));
    assert!(p_high < 200);
}

#[test]
fn percentile_of_empty_histogram_is_zero() {
    let histogram = [0u32; 256];
    assert_eq!(percentile_level(&histogram, 5), 0);
}

#[test]
fn percentile_picks_first_level_reaching_target() {
    let mut histogram = [0u32; 256];
    histogram[10] = 3;
    histogram[20] = 3;
    assert_eq!(percentile_level(&histogram, 0), 10);
    assert_eq!(percentile_level(&histogram, 3), 10);
    assert_eq!(percentile_level(&histogram, 4), 20);
    assert_eq!(percentile_level(&histogram, 6), 20);
    assert_eq!(percentile_level(&histogram, 7), 255);
}

#[test]
fn stats_keep_high_above_low() {
    let mut histogram = [0u32; 256];
    histogram[42] = 10;
    let stats = luma_stats(&histogram, 1, 10);
    assert_eq!(stats.p_low, 42);
    assert_eq!(stats.p_high, 43);
    histogram[200] = 10;
    let stats = luma_stats(&histogram, 1, 20);
    assert_eq!((stats.p_low, stats.p_high), (42, 200));
}

#[test]
fn white_region_keeps_white_range() {
    let mut histogram = [0u32; 256];
    histogram[255] = 100;
    let total = histogram_total(&histogram);
    let stats = luma_stats(&histogram, target(total, 0.05), target(total, 0.95));
    assert_eq!((stats.p_low, stats.p_high), (255, 255));
}

#[test]
fn merged_histogram_sums_regions() {
    let mut a = [0u32; 256];
    let mut b = [0u32; 256];
    a[0] = 2;
    a[5] = 1;
    b[5] = 4;
    b[255] = 7;
    let merged = merge_histograms(&vec![a, b]);
    assert_eq!(merged[0], 2);
    assert_eq!(merged[5], 5);
    assert_eq!(merged[255], 7);
    assert_eq!(histogram_total(&merged), 14);
}

fn two_tone(width: u32, height: u32) -> LumaImage {
    let mut pixels = Vec::new();
    for _y in 0..height {
        for x in 0..width {
            pixels.push(if x < width / 2 { 40u8 } else { 210u8 });
        }
    }
    LumaImage::new(width, height, pixels).unwrap()
}

#[test]
fn image_needs_one_byte_per_pixel() {
    assert!(LumaImage::new(2, 2, vec![0; 3]).is_none());
    let image = LumaImage::new(2, 3, vec![7; 6]).unwrap();
    assert_eq!((image.width(), image.height()), (2, 3));
    assert_eq!(image.pixels().len(), 6);
}

#[test]
fn spans_cut_an_axis_without_gaps() {
    assert_eq!(span_bounds(10, 3, 0), (0, 3));
    assert_eq!(span_bounds(10, 3, 1), (3, 6));
    assert_eq!(span_bounds(10, 3, 2), (6, 10));
    // more parts than pixels: every part keeps at least one pixel
    assert_eq!(span_bounds(2, 4, 0), (0, 1));
    assert_eq!(span_bounds(2, 4, 1), (0, 1));
    assert_eq!(span_bounds(2, 4, 3), (1, 2));
    assert_eq!(span_bounds(0, 4, 2), (0, 0));
}

#[test]
fn regions_count_every_pixel_once() {
    let image = two_tone(64, 64);
    let histograms = compute_region_histograms(&image, 8, 8);
    assert_eq!(histograms.len(), 64);
    let merged = merge_histograms(&histograms);
    assert_eq!(histogram_total(&merged), 64 * 64);
    assert_eq!(merged[40], 32 * 64);
    assert_eq!(merged[210], 32 * 64);
    // left regions are dark, right regions bright
    assert_eq!(histograms[0][40], 64);
    assert_eq!(histograms[7][210], 64);
}

#[test]
fn regions_partition_tiny_images() {
    // more regions than pixels along each axis: some regions are empty, and
    // every pixel is still counted once
    let image = LumaImage::new(1, 1, vec![9]).unwrap();
    let histograms = compute_region_histograms(&image, 2, 2);
    let merged = merge_histograms(&histograms);
    assert_eq!(histogram_total(&merged), 1);
    assert_eq!(merged[9], 1);
    let image = LumaImage::new(3, 2, vec![1, 2, 3, 4, 5, 6]).unwrap();
    let merged = merge_histograms(&compute_region_histograms(&image, 32, 32));
    assert_eq!(histogram_total(&merged), 6);
    assert_eq!(part_bounds(3, 32, 0), (0, 0));
    assert_eq!(part_bounds(3, 32, 31), (2, 3));
    assert_eq!(part_bounds(10, 3, 1), (3, 6));
}

#[test]
fn single_region_histogram() {
    let image = LumaImage::new(3, 2, vec![1, 2, 3, 4, 5, 6]).unwrap();
    let h = region_histogram(&image, 2, 1, 1);
    // columns 1..3 of both rows
    assert_eq!(h[2] + h[3] + h[5] + h[6], 4);
    assert_eq!(h[1] + h[4], 0);
}

#[test]
fn cell_totals_sum_their_pixels() {
    let image = LumaImage::new(4, 2, vec![1, 2, 3, 4, 10, 20, 30, 40]).unwrap();
    let totals = compute_cell_totals(&image, 2, 1);
    assert_eq!(totals.len(), 2);
    assert_eq!((totals[0].sum, totals[0].count), (1 + 2 + 10 + 20, 4));
    assert_eq!((totals[1].sum, totals[1].count), (3 + 4 + 30 + 40, 4));
}

#[test]
fn scan_gives_histograms_and_totals() {
    let image = two_tone(64, 64);
    let scan = scan_pixels_cpu(&image, 20, 10, 4, 4);
    assert_eq!(scan.region_histograms.len(), 16);
    assert_eq!(scan.cell_totals.len(), 200);
    let left = scan.cell_totals[0];
    let right = scan.cell_totals[19];
    assert_eq!(left.sum, 40 * left.count);
    assert_eq!(right.sum, 210 * right.count);
    let counted: u64 = scan.cell_totals.iter().map(|c| c.count).sum();
    assert_eq!(counted, 64 * 64);
}

#[test]
fn empty_grid_gives_nothing() {
    let image = two_tone(4, 4);
    assert!(compute_region_histograms(&image, 0, 3).is_empty());
    assert!(compute_cell_totals(&image, 5, 0).is_empty());
}

#[test]
fn window_lists_neighbours_row_by_row() {
    // 3 x 3 grid, centre cell 4
    assert_eq!(window_neighbors(4, 3, 3, true), vec![0, 1, 2, 3, 4, 5, 6, 7, 8]);
    assert_eq!(window_neighbors(4, 3, 3, false), vec![0, 1, 2, 3, 5, 6, 7, 8]);
    // corner
    assert_eq!(window_neighbors(0, 3, 3, true), vec![0, 1, 3, 4]);
    assert_eq!(window_neighbors(0, 3, 3, false), vec![1, 3, 4]);
    // single cell grid has no neighbours but itself
    assert_eq!(window_neighbors(0, 1, 1, false), Vec::<usize>::new());
}

#[test]
fn median_is_middle_of_sorted_values() {
    assert_eq!(median_u8(&vec![5]), 5);
    assert_eq!(median_u8(&vec![9, 1, 5]), 5);
    assert_eq!(median_u8(&vec![9, 1, 5, 7]), 7);
    assert_eq!(median_u8(&vec![255, 255, 0]), 255);
    assert_eq!(median_u8(&vec![3, 3, 3, 0]), 3);
}

#[test]
fn neighbour_medians_smooth_outlier_region() {
    let mut regions = vec![RegionStats { p_low: 10, p_high: 100 }; 9];
    regions[4] = RegionStats { p_low: 200, p_high: 250 };
    let medians = neighbor_medians(&regions, 3, 3);
    assert_eq!(medians.len(), 9);
    assert_eq!((medians[4].low, medians[4].high), (10, 100));
    // the corner sees itself, two edges and the centre: sorted [10,10,10,200]
    assert_eq!((medians[0].low, medians[0].high), (10, 100));
}
