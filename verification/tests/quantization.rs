use face_off::histogram::{
    bin_histogram, bin_pixels, bins_by_count, initial_centroids, map_pixels_to_bins,
    occupied_span, quantized_image, render_quantized, resolve_bin_colors, Color,
    ColorQuantizationHistogram,
};

#[test]
fn new_quantizer_keeps_levels_and_runs_100_rounds() {
    let q = ColorQuantizationHistogram::new(16);
    assert_eq!(q.levels(), 16);
    assert_eq!(q.iterations(), 100);
}

#[test]
fn histograms_count_each_channel() {
    let data = [1u8, 2, 3, 255, 1, 5, 3, 0, 7, 2, 9, 10];
    let h = ColorQuantizationHistogram::calculate_histograms(&data);
    assert_eq!(h[0][1], 2);
    assert_eq!(h[0][7], 1);
    assert_eq!(h[1][2], 2);
    assert_eq!(h[1][5], 1);
    assert_eq!(h[2][3], 2);
    assert_eq!(h[2][9], 1);
    for c in 0..3 {
        let total: u32 = h[c].iter().sum();
        assert_eq!(total, 3);
    }
    // alpha bytes are not counted
    assert_eq!(h[0][255], 0);
}

#[test]
fn histograms_take_a_last_pixel_without_alpha() {
    let data = [4u8, 4, 4, 0, 6, 6, 6];
    let h = ColorQuantizationHistogram::calculate_histograms(&data);
    assert_eq!(h[0][4], 1);
    assert_eq!(h[0][6], 1);
    assert_eq!(h[2][6], 1);
}

#[test]
fn histograms_of_nothing_are_empty() {
    let h = ColorQuantizationHistogram::calculate_histograms(&[]);
    assert!(h.iter().all(|c| c.iter().all(|&v| v == 0)));
}

#[test]
fn occupied_span_trims_empty_ends() {
    let mut arr = [0u32; 256];
    arr[10] = 3;
    arr[200] = 1;
    assert_eq!(occupied_span(&arr), (10, 200));
}

#[test]
fn occupied_span_of_empty_channel_is_zero() {
    let arr = [0u32; 256];
    assert_eq!(occupied_span(&arr), (0, 0));
    let mut only_black = [0u32; 256];
    only_black[0] = 9;
    assert_eq!(occupied_span(&only_black), (0, 0));
}

#[test]
fn occupied_span_single_value_above_zero() {
    let mut arr = [0u32; 256];
    arr[255] = 2;
    assert_eq!(occupied_span(&arr), (255, 255));
}

#[test]
fn lookup_scales_cluster_index() {
    let ranges = [(0usize, 99usize), (100, 199), (200, 255)];
    let lut = ColorQuantizationHistogram::histogram_to_lookup_by_index(&ranges, 4);
    assert_eq!(lut[0], 0);
    assert_eq!(lut[99], 0);
    assert_eq!(lut[100], 4);
    assert_eq!(lut[199], 4);
    assert_eq!(lut[200], 8);
    assert_eq!(lut[255], 8);
}

#[test]
fn lookup_later_cluster_wins_and_gaps_stay_zero() {
    let ranges = [(10usize, 20usize), (15, 30), (50, 40)];
    let lut = ColorQuantizationHistogram::histogram_to_lookup_by_index(&ranges, 3);
    assert_eq!(lut[9], 0);
    assert_eq!(lut[10], 0);
    assert_eq!(lut[14], 0);
    assert_eq!(lut[15], 3);
    assert_eq!(lut[30], 3);
    assert_eq!(lut[31], 0);
    assert_eq!(lut[45], 0);
}

#[test]
fn pixels_map_to_summed_bins() {
    let mut r = [0u16; 256];
    let mut g = [0u16; 256];
    let mut b = [0u16; 256];
    r[200] = 1;
    g[50] = 2;
    b[7] = 4;
    let data = [200u8, 50, 7, 255, 0, 0, 0, 255, 200, 0, 7, 0];
    let bins = map_pixels_to_bins(&data, &r, &g, &b);
    assert_eq!(bins, vec![7, 0, 5]);
}

#[test]
fn bin_histogram_counts_pixels_per_bin() {
    let hist = bin_histogram(&[2, 0, 2, 3, 2], 5);
    assert_eq!(hist, vec![1, 0, 3, 1, 0]);
    assert_eq!(hist.iter().sum::<usize>(), 5);
}

#[test]
fn bins_sorted_by_count_stably() {
    let hist = [3usize, 0, 5, 3, 1, 5];
    assert_eq!(bins_by_count(&hist), vec![2, 5, 0, 3, 4]);
}

#[test]
fn bins_by_count_skips_empty() {
    assert_eq!(bins_by_count(&[0, 0, 0]), Vec::<usize>::new());
    assert_eq!(bins_by_count(&[]), Vec::<usize>::new());
}

#[test]
fn centroids_are_the_fullest_bins() {
    assert_eq!(initial_centroids(&[4, 1, 9], 2), vec![4, 1]);
    assert_eq!(initial_centroids(&[4, 1, 9], 8), vec![4, 1, 9]);
    assert_eq!(initial_centroids(&[4, 1, 9], 0), Vec::<usize>::new());
}

fn c(r: u8, g: u8, b: u8) -> Color {
    Color { r, g, b }
}

#[test]
fn bins_with_pixels_take_their_centroid_color() {
    let own = [c(1, 1, 1), c(2, 2, 2), c(3, 3, 3), c(4, 4, 4)];
    let order = [2usize, 0];
    let assignment = [1usize, 0];
    let centroids = [c(100, 0, 0), c(0, 100, 0)];
    let colors = resolve_bin_colors(&own, &order, &assignment, &centroids);
    assert_eq!(colors, vec![c(100, 0, 0), c(2, 2, 2), c(0, 100, 0), c(4, 4, 4)]);
}

#[test]
fn render_writes_opaque_bin_colors() {
    let colors = [c(10, 20, 30), c(40, 50, 60)];
    let out = render_quantized(&[1, 0, 1], &colors);
    assert_eq!(out, vec![40, 50, 60, 255, 10, 20, 30, 255, 40, 50, 60, 255]);
}

#[test]
fn quantized_image_uses_only_centroid_colors() {
    // two clusters per channel, factors 1 and 2 and 4
    let data = [10u8, 10, 10, 255, 10, 10, 10, 255, 240, 240, 240, 255, 240, 10, 10, 255];
    let r = ColorQuantizationHistogram::histogram_to_lookup_by_index(&[(0, 127), (128, 255)], 1);
    let g = ColorQuantizationHistogram::histogram_to_lookup_by_index(&[(0, 127), (128, 255)], 2);
    let b = ColorQuantizationHistogram::histogram_to_lookup_by_index(&[(0, 127), (128, 255)], 4);
    let bins = map_pixels_to_bins(&data, &r, &g, &b);
    assert_eq!(bins, vec![0, 0, 7, 1]);
    let hist = bin_histogram(&bins, 8);
    let order = bins_by_count(&hist);
    assert_eq!(order, vec![0, 1, 7]);
    let seeds = initial_centroids(&order, 2);
    assert_eq!(seeds, vec![0, 1]);
    let own: Vec<Color> = (0..8).map(|i| c(i as u8, i as u8, i as u8)).collect();
    let centroids = [c(9, 9, 9), c(200, 200, 200)];
    let assignment = [0usize, 0, 1];
    let colors = resolve_bin_colors(&own, &order, &assignment, &centroids);
    let out = render_quantized(&bins, &colors);
    for px in out.chunks(4) {
        let col = c(px[0], px[1], px[2]);
        assert!(centroids.contains(&col));
        assert_eq!(px[3], 255);
    }
}

#[test]
fn bin_pixels_combines_cluster_indices() {
    // red: 3 clusters, green: 2, blue: 2; bin = r + 3 * g + 6 * b
    let red = [(0, 84), (85, 169), (170, 255)];
    let green = [(0, 127), (128, 255)];
    let blue = [(0, 127), (128, 255)];
    let data = [0u8, 0, 0, 255, 100, 200, 0, 255, 255, 255, 255, 0, 170, 0, 130];
    let (bins, hist) = bin_pixels(&data, &red, &green, &blue);
    assert_eq!(bins, vec![0, 4, 11, 8]);
    assert_eq!(hist.len(), 12);
    assert_eq!(hist, vec![1, 0, 0, 0, 1, 0, 0, 0, 1, 0, 0, 1]);
}

#[test]
fn bin_pixels_of_single_clusters_is_one_bin() {
    let all = [(0usize, 255usize)];
    let data = [9u8, 8, 7, 6, 5, 4, 3, 2];
    let (bins, hist) = bin_pixels(&data, &all, &all, &all);
    assert_eq!(bins, vec![0, 0]);
    assert_eq!(hist, vec![2]);
}

#[test]
fn quantized_image_paints_bins_in_centroid_colors() {
    let rgb = [1u16, 0, 2, 1];
    let hist = [1usize, 2, 1, 0];
    let order = bins_by_count(&hist);
    assert_eq!(order, vec![1, 0, 2]);
    let own = [c(1, 1, 1), c(2, 2, 2), c(3, 3, 3), c(4, 4, 4)];
    let assignment = [0usize, 1, 1];
    let centroids = [c(50, 60, 70), c(80, 90, 100)];
    let out = quantized_image(&rgb, &hist, &order, &own, &assignment, &centroids);
    assert_eq!(
        out,
        vec![
            50, 60, 70, 255, 80, 90, 100, 255, 80, 90, 100, 255, 50, 60, 70, 255
        ]
    );
}
