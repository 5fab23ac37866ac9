use lockbook::index::{Index, IndexEntry, BI_HIDDEN};
use lockbook::records::ChunkRecord;

fn chunk(text: &str) -> ChunkRecord {
    ChunkRecord {
        file_path: format!("/{}", text),
        file_name: text.to_string(),
        parent_chunk: text.to_string(),
        child_text: text.to_string(),
    }
}

fn entry(hmac: u8, texts: &[&str], components: usize) -> IndexEntry<f32> {
    IndexEntry {
        hmac: vec![hmac],
        chunks: texts.iter().map(|t| chunk(t)).collect(),
        vectors: (0..components).map(|i| hmac as f32 * 1e5 + i as f32).collect(),
    }
}

fn ids(index: &Index<f32>) -> Vec<String> {
    (0..index.len()).map(|i| index.id_at(i).to_string()).collect()
}

#[test]
fn a_new_index_is_empty() {
    let index: Index<f32> = Index::new();
    assert_eq!(index.len(), 0);
    assert_eq!(index.total_chunks(), 0);
    assert!(index.get("a").is_none());
    assert!(index.needs_index("a", &vec![]));
    let (chunks, vectors) = index.searchable();
    assert!(chunks.is_empty());
    assert!(vectors.is_empty());
}

#[test]
fn an_indexed_file_needs_indexing_when_it_changes() {
    let mut index = Index::new();
    index.insert("a".to_string(), entry(1, &["x"], BI_HIDDEN));
    assert!(!index.needs_index("a", &vec![1]));
    assert!(index.needs_index("a", &vec![2]));
    assert!(index.needs_index("a", &vec![1, 1]));
    assert!(index.needs_index("a", &vec![]));
    assert!(index.needs_index("b", &vec![1]));
}

#[test]
fn inserting_replaces() {
    let mut index = Index::new();
    index.insert("a".to_string(), entry(1, &["x"], 0));
    index.insert("b".to_string(), entry(2, &["y", "z"], 0));
    index.insert("a".to_string(), entry(3, &["p", "q", "r"], 0));
    assert_eq!(ids(&index), vec!["a", "b"]);
    assert_eq!(index.get("a").unwrap().hmac, vec![3]);
    assert_eq!(index.total_chunks(), 5);
}

#[test]
fn files_that_are_gone_are_dropped() {
    let mut index = Index::new();
    for (i, id) in ["a", "b", "c", "d"].iter().enumerate() {
        index.insert(id.to_string(), entry(i as u8, &["x"], 0));
    }
    index.retain(&vec!["d".to_string(), "b".to_string(), "e".to_string()]);
    assert_eq!(ids(&index), vec!["b", "d"]);
    assert!(index.get("a").is_none());
    assert_eq!(index.get("d").unwrap().hmac, vec![3]);
    index.retain(&vec![]);
    assert_eq!(index.len(), 0);
}

#[test]
fn chunks_are_searched_with_their_vectors() {
    let mut index = Index::new();
    index.insert("a".to_string(), entry(1, &["x", "y"], 2 * BI_HIDDEN));
    index.insert("b".to_string(), entry(2, &["z"], BI_HIDDEN));
    let (chunks, vectors) = index.searchable();
    let texts: Vec<&str> = chunks.iter().map(|c| c.child_text.as_str()).collect();
    assert_eq!(texts, vec!["x", "y", "z"]);
    assert_eq!(vectors.len(), 3 * BI_HIDDEN);
    assert_eq!(vectors[0], 1e5);
    assert_eq!(vectors[BI_HIDDEN], 1e5 + BI_HIDDEN as f32);
    assert_eq!(vectors[2 * BI_HIDDEN], 2e5);
}

#[test]
fn chunks_without_a_whole_vector_are_not_searched() {
    let mut index = Index::new();
    index.insert("a".to_string(), entry(1, &["x", "y"], 2 * BI_HIDDEN - 1));
    index.insert("b".to_string(), entry(2, &["z"], 0));
    index.insert("c".to_string(), entry(3, &["w"], 3 * BI_HIDDEN + 7));
    let (chunks, vectors) = index.searchable();
    let texts: Vec<&str> = chunks.iter().map(|c| c.child_text.as_str()).collect();
    assert_eq!(texts, vec!["x", "w"]);
    assert_eq!(vectors.len(), 2 * BI_HIDDEN);
    assert_eq!(vectors[BI_HIDDEN], 3e5);
}
