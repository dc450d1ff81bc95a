use uttt_rs::uct::uct;

#[test]
fn uct_unvisited_child_scores_highest() {
    assert_eq!(uct(0, 0, 9), u64::MAX);
}

#[test]
fn uct_exact_values() {
    // One visit under a one-visit parent: ln(1) == 0, no wins, score 0.
    assert_eq!(uct(0, 1, 1), 0);
    // One win, one tie over two visits under a parent with four visits.
    assert_eq!(uct(3, 2, 10), 147515);
    // One win over two visits under a parent with four visits:
    // 0.5 * 65536 + floor(sqrt(2 * ln 4) * 65536) in fixed point.
    assert_eq!(uct(2, 2, 4), 109930);
}

#[test]
fn uct_prefers_higher_win_rate_at_equal_visits() {
    let lo = uct(1, 4, 100);
    let hi = uct(7, 4, 100);
    assert!(hi > lo);
    assert_eq!(hi - lo, (7 - 1) * 65536 / (2 * 4));
}
