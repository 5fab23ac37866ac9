use lockbook::embed::EmbedAction;
use lockbook::index::{Index, BI_HIDDEN};
use lockbook::job::FileJob;
use lockbook::scan::{files_to_index, prepare_index, scanned_file, ScannedFile};

fn file(id: &str, hmac: u8, sections: usize) -> ScannedFile {
    let mut content = String::new();
    for i in 0..sections {
        content.push_str(&format!("# section {}\n", i));
    }
    scanned_file(
        id.to_string(),
        "a-note.md",
        Some(format!("/{}", id)),
        Some(vec![hmac]),
        content,
    )
}

/// Embeds all batches, each vector with the place of its text in all components.
fn run(job: &mut FileJob<f32>) {
    loop {
        match job.next_step(0) {
            EmbedAction::Embed { from, to } => {
                let texts = job.batch_texts(from, to);
                assert_eq!(texts.len(), to - from);
                let batch: Vec<Vec<f32>> = (from..to).map(|i| vec![i as f32; BI_HIDDEN]).collect();
                job.batch_embedded(&batch, 10);
            }
            EmbedAction::Complete => return,
            EmbedAction::TimedOut | EmbedAction::Failed => panic!("nothing went wrong"),
        }
    }
}

#[test]
fn embedded_files_go_into_the_index() {
    let f = file("a", 7, 39);
    let mut index: Index<f32> = Index::new();
    let mut job = FileJob::start(&f).unwrap();
    assert_eq!(job.records.len(), 40);
    assert!(!job.at_cap);
    assert_eq!(job.texts[0], "passage: a note | # section 0");
    assert_eq!(job.texts[39], "passage: a note | a note");
    run(&mut job);
    assert!(job.settle(&mut index));
    let entry = index.get("a").unwrap();
    assert_eq!(entry.hmac, vec![7]);
    assert_eq!(entry.chunks.len(), 40);
    assert_eq!(entry.vectors.len(), 40 * BI_HIDDEN);
    assert_eq!(entry.vectors[33 * BI_HIDDEN], 33.0);
    let last = &entry.chunks[39];
    assert_eq!(last.child_text, "a note");
    assert!(last.parent_chunk.starts_with("a note\n# section 0\n"));
    assert_eq!(index.searchable().0.len(), 40);
}

#[test]
fn files_without_text_are_not_indexed() {
    let f = file("a", 7, 0);
    assert!(FileJob::<f32>::start(&f).is_none());
}

#[test]
fn a_failed_batch_leaves_the_index_as_it_was() {
    let mut index: Index<f32> = Index::new();
    let before = file("a", 1, 2);
    let mut job = FileJob::start(&before).unwrap();
    run(&mut job);
    assert!(job.settle(&mut index));

    let changed = file("a", 2, 50);
    let other = file("b", 3, 1);
    let files = vec![changed, other];
    assert_eq!(prepare_index(&mut index, &files), vec![0, 1]);
    let mut job = FileJob::start(&files[0]).unwrap();
    assert!(matches!(job.next_step(5), EmbedAction::Embed { from: 0, to: 32 }));
    job.batch_embedded(&vec![vec![0.0; BI_HIDDEN]; 32], 10);
    job.batch_failed();
    assert!(matches!(job.next_step(5), EmbedAction::Failed));
    assert!(!job.settle(&mut index));
    assert_eq!(index.get("a").unwrap().hmac, vec![1]);
    assert_eq!(index.get("a").unwrap().chunks.len(), 3);

    let mut job = FileJob::start(&files[1]).unwrap();
    run(&mut job);
    assert!(job.settle(&mut index));
    assert_eq!(files_to_index(&index, &files), vec![0]);
}

#[test]
fn a_file_whose_time_is_up_is_given_up() {
    let f = file("a", 1, 40);
    let mut index: Index<f32> = Index::new();
    let mut job = FileJob::start(&f).unwrap();
    assert!(matches!(job.next_step(1800), EmbedAction::Embed { .. }));
    job.batch_embedded(&vec![vec![0.0; BI_HIDDEN]; 32], 2001);
    assert!(matches!(job.next_step(1801), EmbedAction::TimedOut));
    assert!(matches!(job.next_step(0), EmbedAction::Failed));
    assert!(!job.settle(&mut index));
    assert_eq!(index.len(), 0);
}

#[test]
fn an_unfinished_file_is_not_inserted() {
    let f = file("a", 1, 40);
    let mut index: Index<f32> = Index::new();
    let job = FileJob::start(&f).unwrap();
    assert!(!job.settle(&mut index));
    assert_eq!(index.len(), 0);
}

#[test]
fn only_the_first_slow_batch_is_reported() {
    let f = file("a", 1, 80);
    let mut job: FileJob<f32> = FileJob::start(&f).unwrap();
    let batch = vec![vec![0.0; BI_HIDDEN]; 32];
    assert!(!job.batch_embedded(&batch, 2000));
    assert!(job.batch_embedded(&batch, 2001));
    assert!(!job.batch_embedded(&vec![vec![0.0; BI_HIDDEN]; 17], 9000));
}

#[test]
fn only_current_files_are_searched() {
    let mut index: Index<f32> = Index::new();
    for id in ["gone", "kept"] {
        let f = file(id, 1, 1);
        let mut job = FileJob::start(&f).unwrap();
        run(&mut job);
        assert!(job.settle(&mut index));
    }
    assert_eq!(index.searchable().0.len(), 4);
    assert_eq!(prepare_index(&mut index, &vec![file("kept", 1, 1)]), Vec::<usize>::new());
    let (chunks, _) = index.searchable();
    assert_eq!(chunks.len(), 2);
    assert!(chunks.iter().all(|c| c.file_path == "/kept"));
}
