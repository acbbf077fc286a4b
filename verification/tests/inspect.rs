use pdfl::inspect::{distinct_sorted, metadata_entries, page_boxes, summary_warnings};

fn strings(v: &[&str]) -> Vec<String> {
    v.iter().map(|s| s.to_string()).collect()
}

#[test]
fn only_metadata_with_a_value_is_listed_in_order() {
    let metadata = vec![
        ("Title".to_string(), "Book".to_string()),
        ("Author".to_string(), String::new()),
        ("Producer".to_string(), "pdfl".to_string()),
    ];
    let listed: Vec<(String, String)> =
        metadata_entries(&metadata).into_iter().map(|e| (e.key, e.value)).collect();
    assert_eq!(
        listed,
        vec![("Title".to_string(), "Book".to_string()), ("Producer".to_string(), "pdfl".to_string())]
    );
}

#[test]
fn media_box_is_always_listed_then_the_boxes_every_page_has() {
    assert_eq!(page_boxes(false, false, false), strings(&["MediaBox"]));
    assert_eq!(page_boxes(true, false, true), strings(&["MediaBox", "TrimBox", "CropBox"]));
}

#[test]
fn colour_spaces_are_listed_once_each_in_order() {
    let spaces = strings(&["DeviceRGB", "DeviceCMYK", "DeviceRGB", "DeviceGray", "DeviceCMYK"]);
    assert_eq!(distinct_sorted(spaces), strings(&["DeviceCMYK", "DeviceGray", "DeviceRGB"]));
    assert_eq!(distinct_sorted(Vec::new()), Vec::<String>::new());
}

#[test]
fn a_clean_document_has_no_warnings() {
    let w = summary_warnings(
        &vec![true, true],
        0,
        &strings(&["DeviceCMYK"]),
        &strings(&["  ", "Hello"]),
        &vec![true, true],
        "Book",
    );
    assert!(w.is_empty());
}

#[test]
fn every_warning_in_its_order() {
    let w = summary_warnings(
        &vec![true, false],
        2,
        &strings(&["DeviceRGB", "ICCBased"]),
        &strings(&[" \n\t", ""]),
        &vec![true, false],
        "",
    );
    assert_eq!(
        w,
        strings(&[
            "there are non-embedded fonts",
            "2 image(s) below 300 DPI",
            "there are RGB images (offset printing requires CMYK)",
            "the document has no extractable text",
            "TrimBox missing on some page",
            "no title in the metadata",
        ])
    );
}

#[test]
fn image_warnings_need_images() {
    let w = summary_warnings(&vec![], 3, &vec![], &strings(&["text"]), &vec![], "T");
    assert!(w.is_empty());
}
