use lockbook::models::{
    download_url, models, next_download, start_download, Arrival, Download, ModelType,
};

#[test]
fn there_is_an_embedder_and_a_reranker() {
    let found = models();
    let names: Vec<&str> = found.iter().map(|m| m.name).collect();
    assert_eq!(names, vec!["multilingual-e5-large", "ms-marco-MiniLM-L-6-v2"]);
    assert_eq!(found[0].kind, ModelType::Embedder);
    assert_eq!(found[1].kind, ModelType::Reranker);
}

#[test]
fn files_are_downloaded_from_their_repository() {
    let urls: Vec<String> = models()
        .iter()
        .flat_map(|m| m.files.iter().map(download_url).collect::<Vec<String>>())
        .collect();
    assert_eq!(
        urls,
        vec![
            "https://huggingface.co/Xenova/multilingual-e5-large/resolve/main/onnx/model.onnx",
            "https://huggingface.co/Xenova/multilingual-e5-large/resolve/main/onnx/model.onnx_data",
            "https://huggingface.co/Xenova/multilingual-e5-large/resolve/main/tokenizer.json",
            "https://huggingface.co/Xenova/ms-marco-MiniLM-L-6-v2/resolve/main/onnx/model.onnx",
            "https://huggingface.co/Xenova/ms-marco-MiniLM-L-6-v2/resolve/main/tokenizer.json",
        ]
    );
}

fn run(present: &[(usize, usize)]) -> Vec<(usize, usize)> {
    let registry = models();
    let mut stored = Vec::new();
    let mut at = start_download(&registry);
    loop {
        let arrival = match at {
            Download::Directory { .. } => Arrival::DirectoryMade,
            Download::Look { model, file } => {
                if present.contains(&(model, file)) {
                    Arrival::Present
                } else {
                    Arrival::Absent
                }
            }
            Download::Request { .. } => Arrival::Response(200),
            Download::Store { model, file } => {
                stored.push((model, file));
                Arrival::Stored
            }
            Download::Finished => return stored,
        };
        at = next_download(&registry, at, arrival).unwrap();
    }
}

#[test]
fn missing_files_are_downloaded() {
    let all = vec![(0, 0), (0, 1), (0, 2), (1, 0), (1, 1)];
    assert_eq!(run(&[]), all);
    assert_eq!(run(&all), vec![]);
    assert_eq!(run(&[(0, 0), (0, 2), (1, 1)]), vec![(0, 1), (1, 0)]);
}

#[test]
fn refused_requests_are_reported() {
    let registry = models();
    let at = Download::Request { model: 1, file: 1 };
    assert_eq!(
        next_download(&registry, at, Arrival::Response(404)).err(),
        Some("HTTP 404 fetching ms-marco-MiniLM-L-6-v2/tokenizer.json".to_string())
    );
    assert!(next_download(&registry, at, Arrival::Response(199)).is_err());
    assert!(next_download(&registry, at, Arrival::Response(300)).is_err());
    assert!(matches!(
        next_download(&registry, at, Arrival::Response(299)),
        Ok(Download::Store { model: 1, file: 1 })
    ));
}

#[test]
fn nothing_is_downloaded_for_no_models() {
    assert!(matches!(start_download(&vec![]), Download::Finished));
}
