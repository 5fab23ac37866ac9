use lockbook::encode::{
    pad_batch, pad_pair, rerank_rows, text_encoding, Encoded, PairEncoder, TextEncoder,
};
use tokenizers::models::wordlevel::WordLevel;
use tokenizers::normalizers::{NormalizerWrapper, Precompiled};
use tokenizers::pre_tokenizers::fixed_length::FixedLength;
use tokenizers::pre_tokenizers::whitespace::WhitespaceSplit;
use tokenizers::pre_tokenizers::PreTokenizerWrapper;
use tokenizers::processors::bert::BertProcessing;
use tokenizers::processors::template::TemplateProcessing;
use tokenizers::processors::PostProcessorWrapper;
use tokenizers::{Tokenizer, TruncationDirection, TruncationParams, TruncationStrategy};

const WORDS: [&str; 9] = ["[UNK]", "[CLS]", "[SEP]", "query:", "passage:", "n", "|", "cat", "dog"];

/// A tokenizer that knows the words above by their places.
fn tokenizer(unknown: &str) -> Tokenizer {
    let model = WordLevel::builder()
        .vocab(
            WORDS
                .iter()
                .enumerate()
                .map(|(i, w)| (w.to_string(), i as u32))
                .collect(),
        )
        .unk_token(unknown.to_string())
        .build()
        .unwrap();
    let mut t = Tokenizer::new(model);
    t.with_pre_tokenizer(Some(WhitespaceSplit));
    t.with_post_processor(Some(BertProcessing::new(
        ("[SEP]".to_string(), 2),
        ("[CLS]".to_string(), 1),
    )));
    t
}

fn truncated(max_length: usize, stride: usize, strategy: TruncationStrategy) -> Tokenizer {
    let mut t = tokenizer("[UNK]");
    t.with_truncation(Some(TruncationParams {
        direction: TruncationDirection::Right,
        max_length: 512,
        strategy,
        stride: 0,
    }))
    .unwrap();
    let params = t.get_truncation_mut().unwrap();
    params.max_length = max_length;
    params.stride = stride;
    t
}

fn strings(texts: &[&str]) -> Vec<String> {
    texts.iter().map(|t| t.to_string()).collect()
}

fn encoded(ids: &[u32]) -> Encoded {
    Encoded {
        ids: ids.to_vec(),
        mask: vec![1; ids.len()],
        types: vec![0; ids.len()],
    }
}

#[test]
fn rows_are_padded_and_cut_off() {
    let b = pad_batch(&vec![encoded(&[5, 6]), encoded(&[7, 8, 9, 10, 11]), encoded(&[])], 4);
    assert_eq!(b.ids, vec![5, 6, 0, 0, 7, 8, 9, 10, 0, 0, 0, 0]);
    assert_eq!(b.mask, vec![1, 1, 0, 0, 1, 1, 1, 1, 0, 0, 0, 0]);
    assert_eq!(b.lengths, vec![2, 4, 0]);
}

#[test]
fn large_ids_stay_positive() {
    let b = pad_batch(&vec![encoded(&[u32::MAX])], 1);
    assert_eq!(b.ids, vec![4294967295i64]);
}

#[test]
fn no_texts_make_no_rows() {
    let b = pad_batch(&vec![], 4);
    assert!(b.ids.is_empty() && b.mask.is_empty() && b.lengths.is_empty());
}

#[test]
fn pairs_have_segments() {
    let e = Encoded {
        ids: vec![1, 7, 2, 8, 2],
        mask: vec![1, 1, 1, 1, 1],
        types: vec![0, 0, 0, 1, 1],
    };
    let r = pad_pair(&e, 6);
    assert_eq!(r.ids, vec![1, 7, 2, 8, 2, 0]);
    assert_eq!(r.mask, vec![1, 1, 1, 1, 1, 0]);
    assert_eq!(r.types, vec![0, 0, 0, 1, 1, 0]);
    let r = pad_pair(&e, 4);
    assert_eq!(r.types, vec![0, 0, 0, 1]);
}

#[test]
fn errors_are_reported_with_what_failed() {
    assert_eq!(
        text_encoding(Err("no".to_string())).err(),
        Some("Tokenization failed: no".to_string())
    );
    assert_eq!(text_encoding(Ok(encoded(&[3]))).unwrap().ids, vec![3]);
    assert_eq!(
        rerank_rows(Err("no".to_string()), 4).err(),
        Some("Reranker tokenization failed: no".to_string())
    );
    assert_eq!(rerank_rows(Ok(encoded(&[3])), 2).unwrap().ids, vec![3, 0]);
}

#[test]
fn batches_are_encoded_text_by_text() {
    let encoder = TextEncoder::new(tokenizer("[UNK]")).unwrap();
    let texts = strings(&["passage: n | cat", "", "dog what"]);
    let b = encoder.batch_inputs(&texts, 6).unwrap();
    assert_eq!(
        b.ids,
        vec![1, 4, 5, 6, 7, 2, 1, 2, 0, 0, 0, 0, 1, 8, 0, 2, 0, 0]
    );
    assert_eq!(
        b.mask,
        vec![1, 1, 1, 1, 1, 1, 1, 1, 0, 0, 0, 0, 1, 1, 1, 1, 0, 0]
    );
    assert_eq!(b.lengths, vec![6, 2, 4]);
    assert!(encoder.batch_inputs(&vec![], 6).unwrap().ids.is_empty());
}

#[test]
fn queries_are_encoded_with_their_label() {
    let encoder = TextEncoder::new(tokenizer("[UNK]")).unwrap();
    let b = encoder.single_inputs("cat dog", "query", 8).unwrap();
    assert_eq!(b.ids, vec![1, 3, 7, 8, 2, 0, 0, 0]);
    assert_eq!(b.mask, vec![1, 1, 1, 1, 1, 0, 0, 0]);
    assert_eq!(b.lengths, vec![5]);
}

#[test]
fn pairs_are_encoded_together() {
    let encoder = PairEncoder::new(tokenizer("[UNK]")).unwrap();
    let r = encoder.rerank_inputs("cat", "dog n", 8).unwrap();
    assert_eq!(r.ids, vec![1, 7, 2, 8, 5, 2, 0, 0]);
    assert_eq!(r.mask, vec![1, 1, 1, 1, 1, 1, 0, 0]);
    assert_eq!(r.types, vec![0, 0, 0, 1, 1, 1, 0, 0]);
}

#[test]
fn unknown_words_without_a_token_are_errors() {
    let message = "WordLevel error: Missing [UNK] token from the vocabulary";
    let encoder = TextEncoder::new(tokenizer("missing")).unwrap();
    assert_eq!(
        encoder.batch_inputs(&strings(&["cat", "bird"]), 8).err(),
        Some(format!("Tokenization failed: {}", message))
    );
    assert!(encoder.batch_inputs(&strings(&["cat", "dog"]), 8).is_ok());
    assert_eq!(
        encoder.single_inputs("bird", "query", 8).err(),
        Some(format!("Tokenization failed: {}", message))
    );
    let encoder = PairEncoder::new(tokenizer("missing")).unwrap();
    assert_eq!(
        encoder.rerank_inputs("cat", "bird", 8).err(),
        Some(format!("Reranker tokenization failed: {}", message))
    );
}

#[test]
fn tokenizers_that_cut_off_need_room_for_their_tokens() {
    let longest = TruncationStrategy::LongestFirst;
    assert!(TextEncoder::new(truncated(2, 0, longest)).is_some());
    assert!(TextEncoder::new(truncated(1, 0, longest)).is_none());
    assert!(PairEncoder::new(truncated(3, 0, longest)).is_some());
    assert!(PairEncoder::new(truncated(2, 0, longest)).is_none());
}

#[test]
fn tokenizers_that_cut_off_do_so() {
    let encoder = TextEncoder::new(truncated(4, 1, TruncationStrategy::LongestFirst)).unwrap();
    let b = encoder.batch_inputs(&strings(&["cat dog n n n"]), 6).unwrap();
    assert_eq!(b.ids, vec![1, 7, 8, 2, 0, 0]);
    assert_eq!(b.lengths, vec![4]);
    let encoder = TextEncoder::new(truncated(4, 2, TruncationStrategy::OnlySecond)).unwrap();
    assert!(encoder.batch_inputs(&strings(&["cat dog n n n"]), 6).is_err());
    assert!(encoder.batch_inputs(&strings(&["cat dog"]), 6).is_ok());
}

#[test]
fn what_overlaps_of_what_is_cut_off_does_not_matter() {
    let words = "cat dog n cat dog n cat dog n";
    for max in 3..12usize {
        for strategy in [
            TruncationStrategy::LongestFirst,
            TruncationStrategy::OnlyFirst,
            TruncationStrategy::OnlySecond,
        ] {
            let plain = PairEncoder::new(truncated(max, 0, strategy)).unwrap();
            let single = TextEncoder::new(truncated(max, 0, strategy)).unwrap();
            for stride in 1..6usize {
                let pairs = PairEncoder::new(truncated(max, stride, strategy)).unwrap();
                let texts = TextEncoder::new(truncated(max, stride, strategy)).unwrap();
                for a in 0..10usize {
                    let first: Vec<&str> = words.split(' ').take(a).collect();
                    let first = first.join(" ");
                    assert_eq!(
                        single.single_inputs(&first, "query", 16).map(|b| b.ids).ok(),
                        texts.single_inputs(&first, "query", 16).map(|b| b.ids).ok()
                    );
                    for b in 0..10usize {
                        let second: Vec<&str> = words.split(' ').take(b).collect();
                        let second = second.join(" ");
                        let x = plain.rerank_inputs(&first, &second, 16);
                        let y = pairs.rerank_inputs(&first, &second, 16);
                        assert_eq!(x.map(|r| (r.ids, r.types)), y.map(|r| (r.ids, r.types)));
                    }
                }
            }
        }
    }
}

/// A tokenizer whose post-processor is read as a file has it.
fn processed(json: &str) -> Tokenizer {
    let p: PostProcessorWrapper = serde_json::from_str(json).unwrap();
    let mut t = tokenizer("[UNK]");
    t.with_post_processor(Some(p));
    t
}

fn template(single: &str, pair: &str, tokens: &str) -> String {
    format!(
        "{{\"type\":\"TemplateProcessing\",\"single\":[{}],\"pair\":[{}],\"special_tokens\":{{{}}}}}",
        single, pair, tokens
    )
}

fn chain(members: &[String]) -> String {
    format!("{{\"type\":\"Sequence\",\"processors\":[{}]}}", members.join(","))
}

const A: &str = "{\"Sequence\":{\"id\":\"A\",\"type_id\":0}}";
const B: &str = "{\"Sequence\":{\"id\":\"B\",\"type_id\":1}}";
const CLS: &str = "{\"SpecialToken\":{\"id\":\"[CLS]\",\"type_id\":0}}";
const DEFINED: &str = "\"[CLS]\":{\"id\":\"[CLS]\",\"ids\":[1],\"tokens\":[\"[CLS]\"]}";

#[test]
fn templates_are_filled_in() {
    let json = template(
        &format!("{},{}", CLS, A),
        &format!("{},{},{}", CLS, B, A),
        DEFINED,
    );
    let encoder = TextEncoder::new(processed(&json)).unwrap();
    let b = encoder.batch_inputs(&strings(&["cat dog"]), 4).unwrap();
    assert_eq!(b.ids, vec![1, 7, 8, 0]);
    let encoder = PairEncoder::new(processed(&json)).unwrap();
    let r = encoder.rerank_inputs("cat", "dog", 4).unwrap();
    assert_eq!(r.ids, vec![1, 8, 7, 0]);
    assert_eq!(r.types, vec![0, 1, 0, 0]);
}

#[test]
fn templates_name_defined_tokens() {
    let single = template(&format!("{},{}", CLS, A), &format!("{},{}", A, B), "");
    assert!(TextEncoder::new(processed(&single)).is_none());
    assert!(PairEncoder::new(processed(&single)).is_some());
    let pair = template(A, &format!("{},{},{}", CLS, A, B), "");
    assert!(TextEncoder::new(processed(&pair)).is_some());
    assert!(PairEncoder::new(processed(&pair)).is_none());
}

#[test]
fn templates_for_one_text_use_one_text() {
    let json = template(&format!("{},{}", A, B), &format!("{},{}", A, B), "");
    assert!(TextEncoder::new(processed(&json)).is_none());
    assert!(PairEncoder::new(processed(&json)).is_some());
    let named = "{\"SpecialToken\":{\"id\":\"B\",\"type_id\":0}}";
    let defined = "\"B\":{\"id\":\"B\",\"ids\":[2],\"tokens\":[\"B\"]}";
    let json = template(&format!("{},{}", A, named), A, defined);
    let encoder = TextEncoder::new(processed(&json)).unwrap();
    let b = encoder.batch_inputs(&strings(&["cat"]), 3).unwrap();
    assert_eq!(b.ids, vec![7, 2, 0]);
}

#[test]
fn chains_hand_on_what_each_takes() {
    let keeps = "{\"type\":\"BertProcessing\",\"sep\":[\"[SEP]\",2],\"cls\":[\"[CLS]\",1]}".to_string();
    let one = template(A, A, "");
    let three = template(&format!("{},{},{}", A, A, A), &format!("{},{},{}", A, B, A), "");
    assert!(TextEncoder::new(processed(&chain(&[keeps.clone(), one.clone()]))).is_some());
    assert!(TextEncoder::new(processed(&chain(&[one.clone(), three.clone()]))).is_some());
    assert!(TextEncoder::new(processed(&chain(&[three.clone(), keeps.clone()]))).is_some());
    assert!(TextEncoder::new(processed(&chain(&[three.clone(), one.clone()]))).is_none());
    assert!(TextEncoder::new(processed(&chain(&[]))).is_some());
    let nested = chain(&[chain(&[three.clone()]), chain(&[keeps, one])]);
    assert!(TextEncoder::new(processed(&nested)).is_none());
    assert!(PairEncoder::new(processed(&nested)).is_none());
    let encoder = TextEncoder::new(processed(&chain(&[three.clone()]))).unwrap();
    let b = encoder.batch_inputs(&strings(&["cat"]), 4).unwrap();
    assert_eq!(b.ids, vec![7, 7, 7, 0]);
}

#[test]
fn templates_may_leave_a_text_out() {
    let mut t = tokenizer("[UNK]");
    t.with_post_processor(Some(TemplateProcessing::default()));
    let encoder = PairEncoder::new(t).unwrap();
    assert_eq!(encoder.rerank_inputs("cat", "dog", 3).unwrap().ids, vec![7, 0, 0]);
}

/// A table whose trie has one block, in which no word is found, with `root` as its root.
fn table(root: u32) -> Vec<u8> {
    let mut bytes = (4u32 * 256).to_le_bytes().to_vec();
    for i in 0..256u32 {
        let unit = if i == 0 { root } else { 0x8000_0000 };
        bytes.extend_from_slice(&unit.to_le_bytes());
    }
    bytes
}

#[test]
fn tables_are_looked_through() {
    let with = |bytes: &[u8]| {
        let mut t = tokenizer("[UNK]");
        t.with_normalizer(Some(Precompiled::from(bytes).unwrap()));
        t
    };
    let encoder = TextEncoder::new(with(&table(0))).unwrap();
    let b = encoder.batch_inputs(&strings(&["cat dog"]), 4).unwrap();
    assert_eq!(b.ids, vec![1, 7, 8, 2]);
    assert!(TextEncoder::new(with(&table(256 << 10))).is_none());
    assert!(PairEncoder::new(with(&table(256 << 10))).is_none());
    assert!(TextEncoder::new(with(&[0, 0, 0, 0])).is_none());
    let mut t = tokenizer("[UNK]");
    let inner = NormalizerWrapper::Precompiled(Precompiled::from(&[0, 0, 0, 0]).unwrap());
    t.with_normalizer(Some(tokenizers::normalizers::Sequence::new(vec![inner])));
    assert!(TextEncoder::new(t).is_none());
}

#[test]
fn pieces_of_a_text_have_a_length() {
    let with = |length: usize| {
        let mut t = tokenizer("[UNK]");
        t.with_pre_tokenizer(Some(FixedLength::new(length)));
        t
    };
    assert!(TextEncoder::new(with(0)).is_none());
    let encoder = TextEncoder::new(with(3)).unwrap();
    let b = encoder.batch_inputs(&strings(&["catdog"]), 4).unwrap();
    assert_eq!(b.ids, vec![1, 7, 8, 2]);
    let mut t = tokenizer("[UNK]");
    let inner = PreTokenizerWrapper::FixedLength(FixedLength::new(0));
    t.with_pre_tokenizer(Some(tokenizers::pre_tokenizers::sequence::Sequence::new(vec![inner])));
    assert!(TextEncoder::new(t).is_none());
}

#[test]
fn one_text_is_answered_as_a_batch_of_it() {
    let encoder = TextEncoder::new(tokenizer("[UNK]")).unwrap();
    let single = encoder.single_inputs("cat bird", "query", 8).unwrap();
    let batch = encoder.batch_inputs(&strings(&["query: cat bird"]), 8).unwrap();
    assert_eq!(single.ids, batch.ids);
    assert_eq!(single.mask, batch.mask);
    assert_eq!(single.lengths, batch.lengths);
}

#[test]
fn tokens_past_the_end_are_not_read() {
    let encoder = PairEncoder::new(tokenizer("[UNK]")).unwrap();
    let x = encoder.rerank_inputs("cat", "dog n cat", 5).unwrap();
    let y = encoder.rerank_inputs("cat", "dog n dog dog dog", 5).unwrap();
    assert_eq!((x.ids, x.mask, x.types), (y.ids, y.mask, y.types));
    let encoder = TextEncoder::new(tokenizer("[UNK]")).unwrap();
    let x = encoder.batch_inputs(&strings(&["cat dog n"]), 3).unwrap();
    let y = encoder.batch_inputs(&strings(&["cat dog dog dog"]), 3).unwrap();
    assert_eq!((x.ids, x.mask, x.lengths), (y.ids, y.mask, y.lengths));
}
