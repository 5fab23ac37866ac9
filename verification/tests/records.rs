use lockbook::records::{chunk_file, passages, prefixed, ChunkRecord, MAX_CHUNKS_FOR_INDEXING};

fn record(parent: &str, child: &str) -> ChunkRecord {
    ChunkRecord {
        file_path: "/p".to_string(),
        file_name: "n".to_string(),
        parent_chunk: parent.to_string(),
        child_text: child.to_string(),
    }
}

#[test]
fn a_file_has_a_record_for_each_chunk_and_one_for_its_name() {
    let chunks = chunk_file("/notes/todo.md", "todo", "intro\n# One\nbody\n").unwrap();
    assert!(!chunks.at_cap);
    let found: Vec<(&str, &str)> = chunks
        .records
        .iter()
        .map(|r| (r.parent_chunk.as_str(), r.child_text.as_str()))
        .collect();
    assert_eq!(
        found,
        vec![
            ("intro", "intro"),
            ("# One\nbody", "# One\nbody"),
            ("todo\nintro\n# One\nbody\n", "todo"),
        ]
    );
    for r in &chunks.records {
        assert_eq!(r.file_path, "/notes/todo.md");
        assert_eq!(r.file_name, "todo");
    }
}

#[test]
fn blank_files_have_no_records() {
    assert!(chunk_file("/p", "n", "").is_none());
    assert!(chunk_file("/p", "n", " \n\t\n").is_none());
}

#[test]
fn long_sections_have_parents_and_children() {
    let text: String = (0..3000u32)
        .map(|i| char::from_u32('a' as u32 + i % 26).unwrap())
        .collect();
    let chunks = chunk_file("/p", "n", &text).unwrap();
    let parents: Vec<String> = vec![text[0..2048].to_string(), text[1843..3000].to_string()];
    let mut expected: Vec<(String, String)> = Vec::new();
    for parent in &parents {
        let mut start = 0;
        loop {
            let end = (start + 512).min(parent.len());
            expected.push((parent.clone(), parent[start..end].to_string()));
            if end == parent.len() {
                break;
            }
            start += 461;
        }
    }
    expected.push((format!("n\n{}", &text[0..200]), "n".to_string()));
    let found: Vec<(String, String)> = chunks
        .records
        .iter()
        .map(|r| (r.parent_chunk.clone(), r.child_text.clone()))
        .collect();
    assert_eq!(found, expected);
}

#[test]
fn records_are_capped() {
    let text = "# x\n".repeat(MAX_CHUNKS_FOR_INDEXING + 5);
    let chunks = chunk_file("/p", "n", &text).unwrap();
    assert!(chunks.at_cap);
    assert_eq!(chunks.records.len(), MAX_CHUNKS_FOR_INDEXING + 1);
    assert_eq!(chunks.records[MAX_CHUNKS_FOR_INDEXING].child_text, "n");

    let text = "# x\n".repeat(MAX_CHUNKS_FOR_INDEXING - 1);
    let chunks = chunk_file("/p", "n", &text).unwrap();
    assert!(!chunks.at_cap);
    assert_eq!(chunks.records.len(), MAX_CHUNKS_FOR_INDEXING);
}

#[test]
fn passages_are_labelled() {
    let records = vec![record("x", "y z"), record("a", "b")];
    assert_eq!(passages(&records), vec!["passage: n | y z", "passage: n | b"]);
    assert_eq!(passages(&vec![]), Vec::<String>::new());
}

#[test]
fn queries_are_labelled() {
    assert_eq!(prefixed("query", "what is it"), "query: what is it");
}

#[test]
fn records_cover_every_word() {
    let words: Vec<String> = (0..3000).map(|i| format!("word{:04}", i)).collect();
    let mut text = String::new();
    for (i, w) in words.iter().enumerate() {
        text.push_str(if i % 700 == 0 { "\n# " } else { " " });
        text.push_str(w);
    }
    let chunks = chunk_file("/p", "n", &text).unwrap();
    assert!(!chunks.at_cap);
    for w in &words {
        assert!(chunks.records.iter().any(|r| r.child_text.contains(w.as_str())));
    }
}
