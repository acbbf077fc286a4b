use pdfl::progress::{bar, Progress, WIDTH};

#[test]
fn the_bar_fills_in_proportion() {
    assert!(bar("x", 0, 4).contains(&format!("[{}]", "-".repeat(WIDTH))));
    assert!(bar("x", 4, 4).contains(&format!("[{}]", "#".repeat(WIDTH))));
    let half = bar("x", 2, 4);
    assert!(half.contains(&format!("[{}{}]", "#".repeat(WIDTH / 2), "-".repeat(WIDTH / 2))), "{half}");
}

#[test]
fn it_names_the_stage_and_counts() {
    assert_eq!(
        bar("rasterising a.pdf", 3, 10),
        format!("rasterising a.pdf [{}{}]  3/10", "#".repeat(7), "-".repeat(17))
    );
}

#[test]
fn the_edges_do_not_break_the_line() {
    let empty = bar("x", 0, 0);
    assert!(empty.contains(&"#".repeat(WIDTH)), "{empty}");
    let over = bar("x", 99, 4);
    assert_eq!(over.matches('#').count(), WIDTH);
    assert_eq!(over.matches('-').count(), 0);
}

#[test]
fn every_step_is_the_same_width() {
    for total in [8, 10, 100, 207] {
        let widths: Vec<usize> = (0..=total).map(|i| bar("stage", i, total).chars().count()).collect();
        assert!(
            widths.windows(2).all(|w| w[0] == w[1]),
            "total {total} produced widths {:?}",
            &widths[..widths.len().min(12)]
        );
    }
}

#[test]
fn an_overshoot_prints_the_count_unpadded() {
    assert_eq!(bar("s", 123, 4), format!("s [{}] 123/4", "#".repeat(WIDTH)));
}

#[test]
fn a_quiet_bar_draws_nothing() {
    let mut p = Progress::new("x".to_string(), 3, false);
    assert_eq!(p.draw(), None);
    assert_eq!(p.tick(), None);
    assert_eq!(p.finish(), None);
}

#[test]
fn an_active_bar_redraws_and_then_clears_its_width() {
    let mut p = Progress::new("x".to_string(), 2, true);
    assert_eq!(p.draw().unwrap(), format!("\rx [{}] 0/2", "-".repeat(WIDTH)));
    let line = p.tick().unwrap();
    assert_eq!(line, format!("\rx [{}{}] 1/2", "#".repeat(12), "-".repeat(12)));
    let clear = p.finish().unwrap();
    assert_eq!(clear, format!("\r{}\r", " ".repeat(line.chars().count() - 1)));
    // Once finished, nothing more is drawn.
    assert_eq!(p.finish(), None);
    assert_eq!(p.draw(), None);
}
