use lockbook::chunks::chunk_text;

fn chunks(text: &str, size: usize, overlap: usize, max: usize) -> Vec<String> {
    chunk_text(text, size, overlap, max)
}

#[test]
fn short_text_is_one_chunk() {
    assert_eq!(chunks("  hello  ", 10, 2, 5), vec!["hello"]);
    assert_eq!(chunks("hello", 5, 2, 5), vec!["hello"]);
}

#[test]
fn blank_text_has_no_chunks() {
    assert_eq!(chunks("", 10, 2, 5), Vec::<String>::new());
    assert_eq!(chunks(" \n\t ", 10, 2, 5), Vec::<String>::new());
}

#[test]
fn chunks_overlap() {
    assert_eq!(
        chunks("abcdefghij", 4, 1, 100),
        vec!["abcd", "defg", "ghij"]
    );
    assert_eq!(
        chunks("abcdefghijk", 4, 1, 100),
        vec!["abcd", "defg", "ghij", "jk"]
    );
}

#[test]
fn chunks_are_trimmed_and_blank_ones_left_out() {
    assert_eq!(chunks("ab      cd", 3, 0, 100), vec!["ab", "c", "d"]);
    assert_eq!(chunks("ab          cd", 3, 0, 100), vec!["ab", "cd"]);
}

#[test]
fn chunks_are_counted_in_characters() {
    assert_eq!(chunks("éééé🦀🦀", 4, 2, 100), vec!["éééé", "éé🦀🦀"]);
}

#[test]
fn overlap_as_large_as_the_chunk_moves_by_one() {
    assert_eq!(chunks("abcd", 2, 2, 100), vec!["ab", "bc", "cd"]);
    assert_eq!(chunks("abcd", 2, 7, 100), vec!["ab", "bc", "cd"]);
}

#[test]
fn chunks_stop_at_the_limit() {
    assert_eq!(chunks("abcdefghij", 2, 0, 3), vec!["ab", "cd", "ef"]);
    assert_eq!(chunks("abcdefghij", 2, 0, 0), Vec::<String>::new());
    assert_eq!(chunks("ab", 2, 0, 0), vec!["ab"]);
}

#[test]
fn chunks_of_no_size_are_none() {
    assert_eq!(chunks("abc", 0, 0, 10), Vec::<String>::new());
}

#[test]
fn huge_sizes_do_not_overflow() {
    assert_eq!(chunks("abc", usize::MAX, usize::MAX, 10), vec!["abc"]);
}

#[test]
fn chunks_cover_every_word() {
    let words: Vec<String> = (0..400).map(|i| format!("w{}", i)).collect();
    let text = words.join("");
    let found = chunks(&text, 50, 7, 10_000);
    for c in &found {
        assert!(c.chars().count() <= 50);
        assert!(text.contains(c.as_str()));
    }
    for pair in found.windows(2) {
        let head: String = pair[1].chars().take(7).collect();
        assert!(pair[0].ends_with(&head));
    }
    let mut joined = found[0].clone();
    for c in &found[1..] {
        joined.extend(c.chars().skip(7));
    }
    assert_eq!(joined, text);
}
