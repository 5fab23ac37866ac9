use lockbook::index::{Index, IndexEntry};
use lockbook::records::chunk_file;
use lockbook::scan::{
    current_ids, display_name, document_content, files_to_index, has_enough_content, is_searched, is_text_name, prepare_index, scanned_file, spaced, ScannedFile,
};

fn file(id: &str, hmac: u8) -> ScannedFile {
    scanned_file(
        id.to_string(),
        "a-note.md",
        Some(format!("/{}", id)),
        Some(vec![hmac]),
        "some content, long enough to be searched".to_string(),
    )
}

fn entry(hmac: u8) -> IndexEntry<f32> {
    IndexEntry {
        hmac: vec![hmac],
        chunks: vec![],
        vectors: vec![],
    }
}

#[test]
fn text_and_markdown_files_are_searched() {
    assert!(is_searched(false, "a.md"));
    assert!(is_searched(false, "a.txt"));
    assert!(is_searched(false, ".md"));
    assert!(is_searched(false, "NOTES.MD"));
    assert!(is_searched(false, "Ünïcödé.TxT"));
    assert!(!is_searched(false, "a.mdx"));
    assert!(!is_searched(false, "md"));
    assert!(!is_searched(false, "drawing.svg"));
    assert!(!is_searched(false, ""));
    assert!(!is_searched(true, "a.md"));
}

#[test]
fn lower_case_names_are_told_by_their_end() {
    assert!(is_text_name("x.md"));
    assert!(!is_text_name("x.MD"));
    assert!(!is_text_name("d"));
}

#[test]
fn short_documents_are_not_searched() {
    assert!(document_content(b"").is_none());
    assert!(document_content(b"  1234567890123456789  \n").is_none());
    assert_eq!(
        document_content(b"  12345678901234567890  \n"),
        Some("  12345678901234567890  \n".to_string())
    );
    assert!(has_enough_content(&"é".repeat(10)));
    assert!(!has_enough_content(&"é".repeat(9)));
}

#[test]
fn invalid_bytes_are_replaced() {
    let mut raw = b"a text with a bad byte: ".to_vec();
    raw.push(0xff);
    raw.push(b'!');
    assert_eq!(
        document_content(&raw),
        Some("a text with a bad byte: \u{fffd}!".to_string())
    );
    assert_eq!(
        document_content("übersetzt und lang genug".as_bytes()),
        Some("übersetzt und lang genug".to_string())
    );
}

#[test]
fn names_are_shown_without_extension() {
    assert_eq!(display_name("my-first_note.md"), "my first note");
    assert_eq!(display_name("archive.tar.gz"), "archive.tar");
    assert_eq!(display_name("no-extension"), "no extension");
    assert_eq!(display_name(".hidden"), ".hidden");
    assert_eq!(display_name(".hidden.md"), ".hidden");
    assert_eq!(display_name("trailing."), "trailing");
    assert_eq!(display_name("...md"), "..");
    assert_eq!(display_name(""), "");
    assert_eq!(display_name("."), ".");
    assert_eq!(display_name(".."), "..");
    assert_eq!(spaced("--_a_"), "   a ");
}

#[test]
fn unknown_paths_and_hashes_have_stand_ins() {
    let f = scanned_file("7".to_string(), "a_b.txt", None, None, "c".to_string());
    assert_eq!(f.id, "7");
    assert_eq!(f.path, "a_b.txt");
    assert_eq!(f.name, "a b");
    assert_eq!(f.content, "c");
    assert_eq!(f.hmac, Vec::<u8>::new());
    let f = file("8", 3);
    assert_eq!(f.path, "/8");
    assert_eq!(f.name, "a note");
    assert_eq!(f.hmac, vec![3]);
}

#[test]
fn new_and_changed_files_are_due() {
    let mut index = Index::new();
    index.insert("a".to_string(), entry(1));
    index.insert("b".to_string(), entry(2));
    let files = vec![file("c", 1), file("a", 1), file("b", 9)];
    assert_eq!(current_ids(&files), vec!["c", "a", "b"]);
    assert_eq!(files_to_index(&index, &files), vec![0, 2]);
}

#[test]
fn preparing_drops_what_is_gone() {
    let mut index = Index::new();
    index.insert("gone".to_string(), entry(1));
    index.insert("a".to_string(), entry(1));
    let files = vec![file("a", 1), file("new", 4)];
    assert_eq!(prepare_index(&mut index, &files), vec![1]);
    assert!(index.get("gone").is_none());
    assert_eq!(index.len(), 1);
}

#[test]
fn searched_documents_have_records() {
    for content in ["12345678901234567890", "\n\n# a heading that is long\n"] {
        assert!(has_enough_content(content));
        assert!(chunk_file("/p", "n", content).is_some());
    }
}

#[test]
fn names_with_separators_are_shown_in_part() {
    for name in ["Meeting: notes.md", "a/b-c.md", "a\\b_c.md", "/x.md", "C:d.txt"] {
        let shown = display_name(name);
        assert!(!shown.is_empty());
        assert!(spaced(name).contains(&shown));
        assert!(!shown.contains('-') && !shown.contains('_'));
    }
    assert_eq!(display_name("/"), "/");
    assert_eq!(display_name("a/b-c.md"), "b c");
}
