use pdfl::linediff::{line_diff_sample, lines_of, text_diff};

#[test]
fn lines_are_trimmed_and_blank_ones_dropped() {
    let lines: Vec<String> = lines_of("  a \n\n\tb\r\n  \nc").iter().map(|l| l.iter().collect()).collect();
    assert_eq!(lines, vec!["a", "b", "c"]);
}

#[test]
fn the_text_diff_names_removed_then_added_lines() {
    assert_eq!(text_diff("a\nb\nc", "a\nc\nd"), vec!["-b", "+d"]);
    assert!(text_diff("x\n y ", "y\nx").is_empty());
    assert_eq!(text_diff("", "new"), vec!["+new"]);
}

#[test]
fn the_sample_keeps_three_of_each() {
    assert_eq!(line_diff_sample("1\n2\n3\n4\nk", "k\n5"), " | -1 | -2 | -3 | +5");
    assert_eq!(line_diff_sample("same", "same"), "");
}
