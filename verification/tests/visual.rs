use pdfl::fixns::{check_deletion, check_page, check_rotation, check_split, page_order_valid};
use pdfl::viewer::{escape, js_string};
use pdfl::visualns::{has_banding, resize, resize_to_match};

fn gradiente(w: u32, h: u32) -> (u32, u32, Vec<u8>) {
    let px = (0..h).flat_map(|_| (0..w).map(move |x| (x * 255 / w.max(1)) as u8)).collect();
    (w, h, px)
}

fn posterizado(w: u32, h: u32, niveis: u8) -> (u32, u32, Vec<u8>) {
    let step = 255 / niveis as u32;
    let px = (0..h)
        .flat_map(|_| (0..w).map(move |x| (((x * 255 / w.max(1)) / step) * step) as u8))
        .collect();
    (w, h, px)
}

#[test]
fn resize_iguala_dimensoes() {
    let (a, b) = resize_to_match(gradiente(100, 50), gradiente(60, 30));
    assert_eq!((a.0, a.1), (60, 30));
    assert_eq!((b.0, b.1), (60, 30));
    assert_eq!(a.2.len(), 60 * 30);
}

#[test]
fn posterizacao_e_banding() {
    let suave = gradiente(128, 128);
    let ruim = posterizado(128, 128, 8);
    let niveis = |g: &(u32, u32, Vec<u8>)| {
        let mut seen = [false; 256];
        g.2.iter().for_each(|&p| seen[p as usize] = true);
        seen.iter().filter(|&&s| s).count()
    };
    assert!(niveis(&suave) > 24 && niveis(&ruim) < 24);
    assert!(has_banding(&ruim.2, ruim.0, ruim.1), "degradê quantizado = banding");
    assert!(!has_banding(&suave.2, suave.0, suave.1), "degradê suave não é banding");
}

#[test]
fn small_pages_never_band() {
    let ruim = posterizado(16, 16, 4);
    assert!(!has_banding(&ruim.2, ruim.0, ruim.1));
}

#[test]
fn nearest_neighbour_samples() {
    let src = (2u32, 2u32, vec![1u8, 2, 3, 4]);
    assert_eq!(resize(&src, 4, 1).2, vec![1, 1, 2, 2]);
    assert_eq!(resize(&src, 1, 2).2, vec![1, 3]);
    let (a, b) = resize_to_match(src.clone(), src.clone());
    assert_eq!((a, b), (src.clone(), src));
}

#[test]
fn viewer_quoting() {
    assert_eq!(escape("a\"b<c>&"), "a&quot;b&lt;c&gt;&amp;");
    assert_eq!(js_string("</script><!--x"), "\"\\u003C/script>\\u003C!--x\"");
    assert_eq!(js_string("tab\there \"q\" \\ \u{1}"), "\"tab\\there \\\"q\\\" \\\\ \\u0001\"");
}

#[test]
fn fix_pages_must_exist() {
    assert!(check_page(1, 3, "rotate_page").is_ok());
    assert!(check_page(3, 3, "rotate_page").is_ok());
    let e = check_page(9, 3, "delete_page").unwrap_err();
    assert_eq!(e.message, "fix::delete_page: page 9 does not exist (the PDF has 3)");
    assert_eq!(e.to_string(), "runtime error: fix::delete_page: page 9 does not exist (the PDF has 3)");
    assert!(check_page(0, 3, "x").is_err());
}

#[test]
fn js_string_keeps_the_value_while_defusing_the_tag() {
    let quoted = js_string("</script><!--x");
    assert!(!quoted.contains('<'), "{quoted}");
    let back: String = serde_json::from_str(&quoted).unwrap();
    assert_eq!(back, "</script><!--x");
}

#[test]
fn a_page_order_names_each_page_once() {
    assert!(page_order_valid(&vec![2, 1, 3], 3));
    assert!(page_order_valid(&vec![], 0));
    assert!(!page_order_valid(&vec![1, 1, 3], 3));
    assert!(!page_order_valid(&vec![1, 2], 3));
    assert!(!page_order_valid(&vec![0, 1, 2], 3));
    assert!(!page_order_valid(&vec![1, 2, 4], 3));
    assert!(!page_order_valid(&vec![1], -1));
}

#[test]
fn rotations_take_quarter_turns_of_existing_pages() {
    assert!(check_rotation(0, 90, 3, "rotate_page").is_ok());
    assert!(check_rotation(2, 270, 3, "rotate_page").is_ok());
    assert_eq!(
        check_rotation(2, 45, 3, "rotate_page").unwrap_err().message,
        "fix::rotate_page: rotation must be 90, 180 or 270 (got 45)"
    );
    assert_eq!(
        check_rotation(4, 180, 3, "rotate_page").unwrap_err().message,
        "fix::rotate_page: page 4 does not exist (the PDF has 3)"
    );
}

#[test]
fn the_only_page_cannot_be_removed() {
    assert!(check_deletion(2, 3, "delete_page").is_ok());
    assert_eq!(
        check_deletion(1, 1, "delete_page").unwrap_err().message,
        "fix::delete_page: cannot remove the only page of the PDF"
    );
    assert_eq!(
        check_deletion(0, 1, "delete_page").unwrap_err().message,
        "fix::delete_page: page 0 does not exist (the PDF has 1)"
    );
}

#[test]
fn a_split_range_runs_forward_over_existing_pages() {
    assert!(check_split(2, 2, 3, "split_document").is_ok());
    assert_eq!(
        check_split(3, 1, 3, "split_document").unwrap_err().message,
        "fix::split_document: invalid range (3 to 1)"
    );
    assert_eq!(
        check_split(1, 5, 3, "split_document").unwrap_err().message,
        "fix::split_document: page 5 does not exist (the PDF has 3)"
    );
}

#[test]
fn posterization_needs_a_wide_range_in_few_levels() {
    let few: Vec<u8> = (0..1000).map(|i| ((i % 10) * 25) as u8).collect();
    assert!(pdfl::visualns::posterized(&few));
    let many: Vec<u8> = (0..1000).map(|i| (i % 200) as u8).collect();
    assert!(!pdfl::visualns::posterized(&many));
    let narrow: Vec<u8> = (0..1000).map(|i| (100 + i % 5) as u8).collect();
    assert!(!pdfl::visualns::posterized(&narrow));
    assert!(!pdfl::visualns::posterized(&Vec::new()));
}

#[test]
fn a_longer_buffer_is_read_over_its_first_pixels() {
    let mut px: Vec<u8> = (0..64u32 * 64).map(|i| ((i % 64) * 4) as u8).collect();
    let exact = pdfl::visualns::has_banding(&px, 64, 64);
    px.extend_from_slice(&[7u8; 100]);
    assert_eq!(pdfl::visualns::has_banding(&px, 64, 64), exact);
    let (w, h, small) = pdfl::visualns::resize(&(64, 64, px), 8, 8);
    assert_eq!((w, h, small.len()), (8, 8, 64));
}
