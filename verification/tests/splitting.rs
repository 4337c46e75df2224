use image_splitter::buffer::PixelBuffer;
use image_splitter::rect::Rect;
use image_splitter::splitter::Splitter;

fn rect(x: usize, y: usize, width: usize, height: usize) -> Rect {
    Rect { x, y, width, height }
}

fn banded_buffer(width: usize, height: usize, bands: &[(usize, usize, u8)]) -> PixelBuffer {
    let mut data = vec![0u8; width * height];
    for &(start, end, value) in bands {
        for y in start..end {
            for x in 0..width {
                data[y * width + x] = value;
            }
        }
    }
    PixelBuffer::new(width, height, data)
}

fn white_splitter() -> Splitter {
    Splitter { remove_original: false, black_lines: false }
}

fn black_splitter() -> Splitter {
    Splitter { remove_original: false, black_lines: true }
}

/// Three black bands of height 100 separated by two white gutters of height
/// 20, white-gutter configuration.
fn three_band_buffer() -> PixelBuffer {
    banded_buffer(
        50,
        340,
        &[(0, 100, 0), (100, 120, 255), (120, 220, 0), (220, 240, 255), (240, 340, 0)],
    )
}

#[test]
fn scenario_uniform_small_returns_whole() {
    // A buffer entirely at the target intensity: no contrasting row ever
    // closes a run, so no cut is emitted and the whole extent is the one leaf.
    let buf = banded_buffer(20, 5, &[(0, 5, 255)]);
    let leaves = white_splitter().get_split_regions(&buf);
    assert_eq!(leaves, vec![rect(0, 0, 20, 5)]);
}

#[test]
fn scenario_uniform_narrow_returns_whole() {
    let buf = banded_buffer(2, 200, &[(0, 200, 255)]);
    let leaves = white_splitter().get_split_regions(&buf);
    assert_eq!(leaves, vec![rect(0, 0, 2, 200)]);
}

#[test]
fn scanner_no_gutter_returns_section_unchanged() {
    let buf = banded_buffer(20, 5, &[(0, 5, 255)]);
    let section = rect(0, 0, 20, 5);
    let tiling = white_splitter().scan_section(&buf, &section);
    assert_eq!(tiling, vec![section]);
}

#[test]
fn scenario_three_bands_scanner_finds_three() {
    // The first scan cuts at the middle of each 20-row gutter: three pieces
    // of heights 110, 120 and 110, top to bottom.
    let buf = three_band_buffer();
    let tiling = white_splitter().scan_section(&buf, &rect(0, 0, 50, 340));
    assert_eq!(
        tiling,
        vec![rect(0, 0, 50, 110), rect(0, 110, 50, 120), rect(0, 230, 50, 110)]
    );
}

#[test]
fn scenario_three_bands_partition_leaves() {
    // Recursion then trims the half-gutters left at piece edges: a sheared
    // pass inside the first two pieces re-finds them, leaving the three band
    // leaves plus two short gutter remnants.
    let buf = three_band_buffer();
    let leaves = white_splitter().get_split_regions(&buf);
    assert_eq!(
        leaves,
        vec![
            rect(0, 0, 50, 105),
            rect(0, 105, 50, 5),
            rect(0, 110, 50, 115),
            rect(0, 225, 50, 5),
            rect(0, 230, 50, 110),
        ]
    );
}

#[test]
fn scenario_noisy_gutter_still_splits() {
    // One off-color pixel inside a 20-row dark gutter: the block-averaging
    // test still classifies every gutter row as single-color, so the split
    // comes out exactly as it does without the noise.
    let bands: &[(usize, usize, u8)] = &[(0, 100, 255), (100, 120, 0), (120, 220, 255)];
    let mut noisy = vec![0u8; 20 * 220];
    for &(start, end, value) in bands {
        for y in start..end {
            for x in 0..20 {
                noisy[y * 20 + x] = value;
            }
        }
    }
    noisy[110 * 20 + 5] = 200;
    let noisy_buf = PixelBuffer::new(20, 220, noisy);
    let clean_buf = banded_buffer(20, 220, bands);

    let noisy_leaves = black_splitter().get_split_regions(&noisy_buf);
    let clean_leaves = black_splitter().get_split_regions(&clean_buf);
    assert!(noisy_leaves.len() > 1);
    assert_eq!(noisy_leaves, clean_leaves);
    assert_eq!(
        noisy_leaves,
        vec![
            rect(0, 0, 20, 104),
            rect(0, 104, 20, 2),
            rect(0, 106, 20, 4),
            rect(0, 110, 20, 110),
        ]
    );
}

#[test]
fn scenario_thin_gutter_below_threshold_yields_no_cut() {
    // A gutter of only 3 rows never reaches the 5-row minimum run, so no cut
    // is emitted and the whole extent stays one leaf.
    let buf = banded_buffer(20, 203, &[(0, 100, 255), (100, 103, 0), (103, 203, 255)]);
    let leaves = black_splitter().get_split_regions(&buf);
    assert_eq!(leaves, vec![rect(0, 0, 20, 203)]);
}

#[test]
fn partitioning_a_sub_section_respects_its_bounds() {
    let buf = three_band_buffer();
    let section = rect(0, 110, 50, 120);
    let leaves = white_splitter().get_split_regions_recursive(&buf, &section);
    assert_eq!(leaves, vec![rect(0, 110, 50, 115), rect(0, 225, 50, 5)]);
}

#[test]
fn rect_new_carries_its_fields() {
    let r = image_splitter::rect::Rect::new(3, 4, 5, 6);
    assert_eq!(r, rect(3, 4, 5, 6));
}

#[test]
fn partition_is_deterministic() {
    let buf = three_band_buffer();
    let first = white_splitter().get_split_regions(&buf);
    let second = white_splitter().get_split_regions(&buf);
    assert_eq!(first, second);
}

#[test]
fn leaves_tile_the_image() {
    // No gaps, no overlaps: each leaf spans the full width and starts where
    // the previous one ends, from the top edge to the bottom edge.
    let buf = three_band_buffer();
    let leaves = white_splitter().get_split_regions(&buf);
    assert!(!leaves.is_empty());
    let mut expected_y = 0usize;
    for leaf in &leaves {
        assert_eq!(leaf.x, 0);
        assert_eq!(leaf.width, 50);
        assert_eq!(leaf.y, expected_y);
        assert!(leaf.height >= 1);
        expected_y = leaf.y + leaf.height;
    }
    assert_eq!(expected_y, 340);
}

#[test]
fn split_pieces_are_strictly_shorter() {
    let buf = three_band_buffer();
    let section = rect(0, 0, 50, 340);
    let tiling = white_splitter().scan_section(&buf, &section);
    assert!(tiling.len() >= 2);
    for piece in &tiling {
        assert!(piece.height < section.height);
    }
}

#[test]
fn intermediate_pieces_clear_the_minimum_height() {
    let buf = three_band_buffer();
    let section = rect(0, 0, 50, 340);
    let tiling = white_splitter().scan_section(&buf, &section);
    assert!(tiling.len() >= 2);
    for piece in &tiling[..tiling.len() - 1] {
        assert!(piece.height > section.height / 5);
    }
}

#[test]
fn single_color_tolerates_one_noisy_sample() {
    let mut line = vec![0u8; 20];
    line[5] = 200;
    assert!(Splitter::line_is_single_color(line, 0, 100));
}

#[test]
fn single_color_rejects_sustained_deviation() {
    let mut line = vec![0u8; 20];
    for v in line.iter_mut().skip(10) {
        *v = 255;
    }
    assert!(!Splitter::line_is_single_color(line, 0, 100));
}

#[test]
fn single_color_rejects_empty_line() {
    assert!(!Splitter::line_is_single_color(Vec::new(), 255, 5));
}

#[test]
fn single_color_short_line_has_no_checkpoint() {
    // Fewer than ten samples never reach an averaging checkpoint, so any
    // non-empty short line counts as single-color.
    assert!(Splitter::line_is_single_color(vec![77u8; 9], 0, 5));
}

#[test]
fn abs_difference_is_symmetric() {
    assert_eq!(Splitter::abs_difference(3, 10), 7);
    assert_eq!(Splitter::abs_difference(10, 3), 7);
    assert_eq!(Splitter::abs_difference(42, 42), 0);
}

#[test]
fn get_y_floors_the_sheared_row() {
    assert_eq!(Splitter::get_y(50, 10, 0), 50);
    assert_eq!(Splitter::get_y(100, 10, 1), 101);
    assert_eq!(Splitter::get_y(100, 15, -1), 98);
    assert_eq!(Splitter::get_y(0, 5, -6), -3);
    assert_eq!(Splitter::get_y(7, 9, 6), 12);
}

#[test]
fn get_line_samples_a_straight_row() {
    let data = vec![
        10, 11, 12, 13, //
        20, 21, 22, 23, //
        30, 31, 32, 33,
    ];
    let buf = PixelBuffer::new(4, 3, data);
    let section = rect(0, 0, 4, 3);
    assert_eq!(Splitter::get_line(&buf, &section, 1, 0), vec![20, 21, 22, 23]);
}

#[test]
fn get_line_leaving_the_section_is_empty() {
    let data = vec![0u8; 12];
    let buf = PixelBuffer::new(4, 3, data);
    let section = rect(0, 0, 4, 3);
    // At slope 0.6 the line from row 2 reaches row 3 and leaves the section.
    assert_eq!(Splitter::get_line(&buf, &section, 2, 6), Vec::<u8>::new());
}

#[test]
fn get_pixel_reads_row_major_samples() {
    let data = vec![1, 2, 3, 4, 5, 6];
    let buf = PixelBuffer::new(3, 2, data);
    assert_eq!(buf.get_pixel(0, 0), 1);
    assert_eq!(buf.get_pixel(2, 0), 3);
    assert_eq!(buf.get_pixel(1, 1), 5);
}
