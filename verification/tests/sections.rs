use lockbook::sections::split_markdown_sections;

#[test]
fn headings_open_sections() {
    assert_eq!(
        split_markdown_sections("# One\ntext\n## Two\nmore\n# Three"),
        vec!["# One\ntext", "## Two\nmore", "# Three"]
    );
}

#[test]
fn text_before_the_first_heading_is_a_section() {
    assert_eq!(
        split_markdown_sections("\n intro\n\n# One\nx\n"),
        vec!["intro", "# One\nx"]
    );
}

#[test]
fn blank_lines_before_a_heading_are_no_section() {
    assert_eq!(split_markdown_sections("\n \n\t\n# One\n"), vec!["# One"]);
}

#[test]
fn text_without_headings_is_one_section() {
    assert_eq!(
        split_markdown_sections("  a\nb #c\n # d\n"),
        vec!["a\nb #c\n # d"]
    );
}

#[test]
fn blank_text_is_one_empty_section() {
    assert_eq!(split_markdown_sections(""), vec![""]);
    assert_eq!(split_markdown_sections(" \n \n"), vec![""]);
}

#[test]
fn carriage_returns_end_lines_with_a_newline_only() {
    assert_eq!(
        split_markdown_sections("a\r\nb\rc\r\n#d\r\n"),
        vec!["a\nb\rc", "#d"]
    );
    assert_eq!(split_markdown_sections("a\r\r\nb"), vec!["a\r\nb"]);
}

#[test]
fn a_row_of_headings_is_a_row_of_sections() {
    assert_eq!(
        split_markdown_sections("#\n#\n##\n"),
        vec!["#", "#", "##"]
    );
}

#[test]
fn sections_keep_all_but_white_space() {
    let text = "é intro\n\n# A \n one\r\n## B\n\n\n#\n\u{3000}two\n";
    let joined: String = split_markdown_sections(text).concat();
    let solid = |s: &str| s.chars().filter(|c| !c.is_whitespace()).collect::<String>();
    assert_eq!(solid(&joined), solid(text));
}
