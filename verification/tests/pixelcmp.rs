use pdfl::pixelcmp::{box_blur, find_regions, maybe_blur, Change, Page, Region};

#[test]
fn overlay_colours_for_each_change() {
    assert_eq!(Change::Same.rgba(), [0, 0, 0, 0]);
    assert_eq!(Change::Removed.rgba(), [220, 38, 38, 255]);
    assert_eq!(Change::Added.rgba(), [22, 163, 74, 255]);
    assert_eq!(Change::Recoloured.rgba(), [37, 99, 235, 255]);
}

#[test]
fn outside_the_page_is_white() {
    let mut rgba = vec![0u8; 2 * 2 * 4];
    rgba[4..8].copy_from_slice(&[1, 2, 3, 4]);
    let p = Page::new(2, 2, rgba);
    assert_eq!(p.at(1, 0), [1, 2, 3, 4]);
    assert_eq!(p.at(0, 0), [0, 0, 0, 0]);
    assert_eq!(p.at(-1, 0), [255, 255, 255, 255]);
    assert_eq!(p.at(0, 2), [255, 255, 255, 255]);
    assert_eq!(p.at(2, 1), [255, 255, 255, 255]);
}

#[test]
fn a_changed_pixel_reports_its_block() {
    let (w, h) = (70u32, 40u32);
    let mut mask = vec![false; (w * h) as usize];
    mask[(35 * w + 65) as usize] = true;
    let regions = find_regions(&mask, w, h);
    assert_eq!(regions, vec![Region { x: 64, y: 32, width: 6, height: 8 }]);
}

#[test]
fn blocks_come_row_by_row() {
    let (w, h) = (64u32, 64u32);
    let mut mask = vec![false; (w * h) as usize];
    mask[(40 * w + 1) as usize] = true;
    mask[(1 * w + 40) as usize] = true;
    mask[(2 * w + 3) as usize] = true;
    let regions = find_regions(&mask, w, h);
    assert_eq!(
        regions,
        vec![
            Region { x: 0, y: 0, width: 32, height: 32 },
            Region { x: 32, y: 0, width: 32, height: 32 },
            Region { x: 0, y: 32, width: 32, height: 32 },
        ]
    );
}

#[test]
fn an_unchanged_page_has_no_region() {
    assert!(find_regions(&vec![false; 100], 10, 10).is_empty());
    assert!(find_regions(&[], 0, 0).is_empty());
}

#[test]
fn the_box_blur_averages_the_window_and_repeats_the_edge() {
    let rgba = vec![0, 0, 0, 255, 30, 30, 30, 255, 60, 60, 60, 255];
    let p = Page::new(3, 1, rgba);
    let out = box_blur(&p, 1);
    assert_eq!((out.width, out.height), (3, 1));
    assert_eq!(out.rgba, vec![10, 10, 10, 255, 30, 30, 30, 255, 50, 50, 50, 255]);
}

#[test]
fn a_blur_of_radius_zero_keeps_the_page() {
    let rgba = vec![1, 2, 3, 4, 5, 6, 7, 8];
    let p = Page::new(1, 2, rgba.clone());
    assert_eq!(maybe_blur(&p, 0).rgba, rgba);
    assert_eq!(box_blur(&p, 0).rgba, rgba);
}

#[test]
fn a_single_stray_pixel_is_spread_thin() {
    let mut rgba = vec![255u8; 3 * 3 * 4];
    rgba[(4 * 4)..(4 * 4 + 3)].copy_from_slice(&[0, 0, 0]);
    let p = Page::new(3, 3, rgba);
    let out = maybe_blur(&p, 1);
    // The centre keeps one ninth of the black: (8 * 255 + 0) / 9 after both passes.
    assert_eq!(out.at(1, 1), [226, 226, 226, 255]);
}
