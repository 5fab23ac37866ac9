use lockbook::display::{bar, preview, progress_line, push_decimal, short_name};

fn decimal(n: u128) -> String {
    let mut out = "n=".to_string();
    push_decimal(&mut out, n);
    out
}

#[test]
fn numbers_are_written_in_decimal() {
    for n in [0, 7, 9, 10, 11, 100, 1_000_000, 1_000_001, u128::MAX] {
        assert_eq!(decimal(n), format!("n={}", n));
    }
}

#[test]
fn bars_are_fifty_long() {
    assert_eq!(bar(0), "░".repeat(50));
    assert_eq!(bar(1), "░".repeat(50));
    assert_eq!(bar(31), format!("{}{}", "█".repeat(15), "░".repeat(35)));
    assert_eq!(bar(100), "█".repeat(50));
    for p in 0..=100 {
        assert_eq!(bar(p).chars().count(), 50);
    }
    assert_eq!(bar(120), "█".repeat(60));
}

#[test]
fn long_names_are_cut_off() {
    assert_eq!(short_name("notes"), "notes");
    let at_limit = "a".repeat(28);
    assert_eq!(short_name(&at_limit), at_limit);
    assert_eq!(short_name(&"a".repeat(29)), format!("{}...", at_limit));
    assert_eq!(short_name(&"é".repeat(15)), format!("{}...", "é".repeat(14)));
}

#[test]
fn progress_lines_show_bar_and_name() {
    assert_eq!(
        progress_line(1, 4, 25, "my notes"),
        format!(
            "\r\x1B[K  [{}{}] 2/4 (25%) - my notes",
            "█".repeat(12),
            "░".repeat(38)
        )
    );
}

#[test]
fn previews_are_one_short_line() {
    assert_eq!(preview("  one\ntwo\r\nthree \n"), "one two\r three");
    assert_eq!(preview(""), "");
    let long = "é".repeat(200);
    assert_eq!(preview(&long), "é".repeat(150));
    let spaced = format!("{}{}tail", "a".repeat(140), " ".repeat(20));
    assert_eq!(preview(&spaced), "a".repeat(140));
}
