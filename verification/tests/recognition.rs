use dinoscore::recognition::{
    clip_borders, crop, double_heights, expand_to_content, follow_components, merge_systems,
    is_large_enough, overlaps_horizontally, post_process, same_system, share_a_label, sort_by_top,
    split_overlaps, widen, window_sum, AbsoluteStaff, GrayPixels,
};

fn white(width: u32, height: u32) -> GrayPixels {
    GrayPixels { width, height, pixels: vec![255; (width * height) as usize] }
}

/// Paints the columns `x0..x1` of the rows `y0..y1`.
fn paint(img: &mut GrayPixels, x0: u32, x1: u32, y0: u32, y1: u32, value: u8) {
    for y in y0..y1 {
        for x in x0..x1 {
            img.pixels[(y * img.width + x) as usize] = value;
        }
    }
}

fn staff(left: u32, top: u32, right: u32, bottom: u32) -> AbsoluteStaff {
    AbsoluteStaff { left, top, right, bottom }
}

/// A page of 100 x 60 pixels with two black staff blocks (columns 10..90, rows 10..14 and
/// 30..34); with `brace`, a one pixel line at column 7 joins them between their rows.
fn two_staves(brace: bool) -> GrayPixels {
    let mut img = white(100, 60);
    paint(&mut img, 10, 90, 10, 14, 0);
    paint(&mut img, 10, 90, 30, 34, 0);
    if brace {
        paint(&mut img, 7, 8, 14, 30, 0);
    }
    img
}

#[test]
fn window_sums_and_crops() {
    let mut img = white(6, 4);
    paint(&mut img, 1, 3, 1, 3, 5);
    assert_eq!(window_sum(&img, 0, 0, 5, 3), 24 * 255 - 4 * 250);
    assert_eq!(window_sum(&img, 1, 1, 2, 2), 20);
    assert_eq!(window_sum(&img, 1, 3, 2, 2), 0);
    let c = crop(&img, 1, 1, 3, 2);
    assert_eq!((c.width, c.height), (3, 2));
    assert_eq!(c.pixels, vec![5, 5, 255, 5, 5, 255]);
}

#[test]
fn widening_stops_at_blank_windows() {
    let img = two_staves(false);
    assert_eq!(widen(&img, staff(10, 10, 90, 14)), staff(6, 10, 94, 14));
    assert_eq!(widen(&img, staff(10, 30, 90, 34)), staff(6, 30, 94, 34));
}

#[test]
fn widening_stops_at_the_image_edge() {
    let mut img = white(20, 10);
    paint(&mut img, 0, 20, 2, 5, 0);
    assert_eq!(widen(&img, staff(5, 2, 12, 5)), staff(0, 2, 19, 5));
}

#[test]
fn sorting_by_top_is_stable() {
    let v = vec![staff(0, 30, 10, 40), staff(1, 10, 10, 20), staff(2, 30, 10, 45), staff(3, 5, 10, 8)];
    let s = sort_by_top(v);
    assert_eq!(s, vec![staff(3, 5, 10, 8), staff(1, 10, 10, 20), staff(0, 30, 10, 40), staff(2, 30, 10, 45)]);
}

#[test]
fn horizontal_overlap_needs_more_than_ninety_percent() {
    assert!(overlaps_horizontally(&staff(0, 0, 100, 1), &staff(5, 0, 100, 1)));
    assert!(!overlaps_horizontally(&staff(0, 0, 100, 1), &staff(10, 0, 100, 1)));
    assert!(!overlaps_horizontally(&staff(0, 0, 10, 1), &staff(20, 0, 30, 1)));
}

#[test]
fn overlapping_neighbours_are_cut_in_the_middle() {
    let s = split_overlaps(vec![staff(0, 0, 100, 30), staff(0, 20, 100, 50), staff(0, 60, 100, 70)]);
    assert_eq!(s, vec![staff(0, 0, 100, 25), staff(0, 25, 100, 50), staff(0, 60, 100, 70)]);
    // No cut without horizontal overlap.
    let t = split_overlaps(vec![staff(0, 0, 40, 30), staff(60, 20, 100, 50)]);
    assert_eq!(t, vec![staff(0, 0, 40, 30), staff(60, 20, 100, 50)]);
}

#[test]
fn heights_are_doubled_within_the_image() {
    let d = double_heights(vec![staff(0, 10, 50, 14), staff(0, 1, 50, 11), staff(0, 50, 50, 58)], 60);
    assert_eq!(d, vec![staff(0, 8, 50, 16), staff(0, 0, 50, 16), staff(0, 46, 50, 59)]);
}

#[test]
fn braced_staves_belong_to_one_system() {
    let img = two_staves(true);
    assert!(same_system(&img, staff(6, 8, 94, 16), staff(6, 28, 94, 36)));
    let merged = merge_systems(&img, vec![staff(6, 8, 94, 16), staff(6, 28, 94, 36)]);
    assert_eq!(merged, vec![staff(6, 8, 94, 36)]);
}

#[test]
fn the_blur_bridges_a_one_pixel_gap() {
    // Row 20 is white between two black blocks; blurred with a 5 x 5 box it turns dark, so the
    // blocks form one component.
    let mut img = white(100, 60);
    paint(&mut img, 10, 90, 10, 20, 0);
    paint(&mut img, 10, 90, 21, 31, 0);
    assert!(same_system(&img, staff(10, 10, 90, 20), staff(10, 21, 90, 31)));
}

#[test]
fn separate_staves_stay_apart() {
    let img = two_staves(false);
    assert!(!same_system(&img, staff(6, 8, 94, 16), staff(6, 28, 94, 36)));
    let merged = merge_systems(&img, vec![staff(6, 8, 94, 16), staff(6, 28, 94, 36)]);
    assert_eq!(merged, vec![staff(6, 8, 94, 16), staff(6, 28, 94, 36)]);
}

#[test]
fn staves_follow_their_components() {
    // Labels of a 10 x 10 page: component 1 fills rows 2..4, continues down column 3 to row 7
    // and up to column 6 of row 1; component 2 sits in row 0.
    let mut labels = vec![0u32; 100];
    for y in 2..4 {
        for x in 1..8 {
            labels[y * 10 + x] = 1;
        }
    }
    for y in 4..8 {
        labels[y * 10 + 3] = 1;
    }
    labels[5] = 2;
    labels[16] = 1;
    let out = follow_components(&labels, 10, 10, staff(1, 2, 8, 4));
    assert_eq!(out, staff(1, 1, 8, 5));
}

#[test]
fn staves_grow_to_nearby_content() {
    let mut img = white(40, 30);
    paint(&mut img, 4, 30, 10, 14, 0);
    let out = expand_to_content(&img, staff(2, 8, 34, 16));
    assert_eq!(out, staff(2, 6, 34, 18));
}

#[test]
fn borders_settle_on_a_blank_line() {
    let mut img = white(20, 60);
    paint(&mut img, 0, 20, 18, 26, 0);
    paint(&mut img, 0, 20, 29, 32, 0);
    let t = vec![staff(0, 0, 19, 35), staff(0, 15, 19, 50)];
    let backup = vec![staff(0, 0, 19, 20), staff(0, 30, 19, 50)];
    let out = clip_borders(&img, t, &backup);
    assert_eq!(out, vec![staff(0, 0, 19, 27), staff(0, 27, 19, 50)]);
}

#[test]
fn borders_settle_on_the_backup_without_overlap() {
    let img = white(20, 60);
    let t = vec![staff(0, 0, 19, 25), staff(0, 22, 19, 50)];
    let backup = vec![staff(0, 0, 19, 24), staff(0, 23, 19, 50)];
    let out = clip_borders(&img, t, &backup);
    assert_eq!(out, vec![staff(0, 0, 19, 23), staff(0, 24, 19, 50)]);
}

#[test]
fn refinement_merges_a_braced_system() {
    let img = two_staves(true);
    let out = post_process(vec![staff(10, 30, 90, 34), staff(10, 10, 90, 14)], &img);
    assert_eq!(out, vec![staff(6, 6, 94, 38)]);
}

#[test]
fn refinement_keeps_separate_staves() {
    let img = two_staves(false);
    // The second box reaches beyond the page and is cut to it first.
    let out = post_process(vec![staff(10, 10, 90, 14), staff(10, 30, 120, 34)], &img);
    assert_eq!(out, vec![staff(6, 6, 94, 18), staff(6, 26, 99, 38)]);
}

#[test]
fn refinement_takes_narrow_boxes() {
    // Three pixels wide: the windows of four columns still fit the page.
    let img = white(10, 10);
    let out = post_process(vec![staff(2, 2, 5, 6)], &img);
    assert_eq!(out, vec![staff(2, 0, 5, 8)]);
}

#[test]
fn refinement_takes_flat_boxes() {
    // No height: the box is widened to the page, and then left out as too low.
    let img = white(10, 10);
    assert!(post_process(vec![staff(1, 4, 9, 4)], &img).is_empty());
}

#[test]
fn refinement_leaves_out_small_staves() {
    // The same narrow box on a page three times as wide is less than a fifth of its width.
    let img = white(30, 10);
    assert!(post_process(vec![staff(2, 2, 5, 6)], &img).is_empty());
}

#[test]
fn staves_large_enough() {
    assert!(is_large_enough(&staff(0, 0, 20, 1), 100));
    assert!(!is_large_enough(&staff(0, 0, 19, 1), 100));
    assert!(!is_large_enough(&staff(0, 0, 20, 0), 100));
    assert!(is_large_enough(&staff(10, 5, 30, 6), 100));
    assert!(!is_large_enough(&staff(10, 6, 30, 5), 100));
    assert!(!is_large_enough(&staff(30, 5, 10, 6), 100));
}

#[test]
fn refinement_of_nothing_is_nothing() {
    let img = white(10, 10);
    assert!(post_process(vec![], &img).is_empty());
}

#[test]
fn labels_meet_only_when_nonzero() {
    let labels = vec![0, 3, 0, 0, 2, 0, 3, 0];
    assert!(share_a_label(&labels, 2, 5, 8, 8));
    assert!(!share_a_label(&labels, 2, 7, 8, 8));
    // Label 0 marks the background and never connects.
    assert!(!share_a_label(&labels, 1, 2, 4, 8));
    assert!(!share_a_label(&labels, 0, 0, 8, 8));
}

fn assert_inside(staves: &[AbsoluteStaff], width: u32, height: u32) {
    for s in staves {
        assert!(s.left <= s.right && s.right < width && 4 <= s.right && s.left + 4 <= width, "{:?}", s);
        assert!(s.top < height && s.bottom < height, "{:?}", s);
        assert!(5 * (s.right - s.left) >= width && s.bottom >= s.top && 100 * (s.bottom - s.top) >= width, "{:?}", s);
    }
}

#[test]
fn boxes_near_the_page_edges_are_refined() {
    // Boxes that once ran into the bounds of the page; the page is drawn from them: five staff
    // lines per box on a white page of 400 x 600 pixels.
    let sets = [
        vec![staff(31, 41, 369, 155), staff(33, 159, 370, 276), staff(31, 276, 371, 393), staff(34, 393, 370, 508)],
        vec![
            staff(8, 489, 400, 507),
            staff(7, 213, 394, 231),
            staff(7, 74, 397, 92),
            staff(8, 398, 400, 416),
            staff(7, 534, 400, 552),
            staff(16, 114, 394, 132),
            staff(9, 353, 400, 371),
            staff(9, 258, 400, 276),
            staff(9, 165, 387, 181),
            staff(8, 26, 386, 40),
            staff(9, 308, 400, 324),
            staff(9, 448, 400, 463),
        ],
    ];
    for raw in sets {
        let mut img = white(400, 600);
        for s in &raw {
            let right = s.right.min(399);
            let step = ((s.bottom - s.top) / 5).max(1);
            for line in 0..5 {
                let y = s.top + line * step;
                if y < s.bottom {
                    paint(&mut img, s.left, right, y, y + 1, 0);
                }
            }
        }
        let count = raw.len();
        let out = post_process(raw, &img);
        assert!(out.len() <= count);
        assert!(!out.is_empty());
        assert_inside(&out, 400, 600);
    }
}
