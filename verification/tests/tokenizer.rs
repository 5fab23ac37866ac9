use lockbook::encode::{PairEncoder, TextEncoder};
use lockbook::pattern::{pattern_is_steady, regex_is_steady, Pattern};
use lockbook::tokenizer::ready_tokenizer;
use tokenizers::normalizers::{Lowercase, NormalizerWrapper, Strip};
use tokenizers::pre_tokenizers::split::{Split, SplitPattern};
use tokenizers::{
    AddedToken, PaddingDirection, PaddingParams, PaddingStrategy, SplitDelimiterBehavior,
    Tokenizer,
};

const WORD_LEVEL: &str = r#"{"type": "WordLevel", "unk_token": "[UNK]",
    "vocab": {"[UNK]": 0, "cat": 1, "dog": 2, "x": 3, " ": 4, "é": 5, "_cat": 6, "cat dog": 7}}"#;
const WORD_PIECE: &str = r###"{"type": "WordPiece", "unk_token": "[UNK]",
    "continuing_subword_prefix": "##", "max_input_chars_per_word": 8,
    "vocab": {"[UNK]": 0, "a": 1, "##a": 2, "x": 3, "##x": 4, "é": 5, "한": 6}}"###;
const BPE: &str = r#"{"type": "BPE", "dropout": null, "unk_token": "[UNK]",
    "continuing_subword_prefix": null, "end_of_word_suffix": null, "fuse_unk": true,
    "byte_fallback": true, "ignore_merges": false,
    "vocab": {"[UNK]": 0, "a": 1, "x": 2, "ax": 3, "é": 4, "axé": 5},
    "merges": [["a", "x"], ["ax", "é"]]}"#;
const UNIGRAM: &str = r#"{"type": "Unigram", "unk_id": 0, "byte_fallback": false,
    "vocab": [["[UNK]", 0.0], ["a", -1.0], ["x", -2.0], ["ax", -1.5], ["é", -3.0]]}"#;

/// A tokenizer as it is read from a file.
fn tokenizer(model: &str, normalizer: &str, pre_tokenizer: &str, added: &str) -> Tokenizer {
    format!(
        r#"{{"version": "1.0", "truncation": null, "padding": null, "added_tokens": [{added}],
            "normalizer": {normalizer}, "pre_tokenizer": {pre_tokenizer},
            "post_processor": null, "decoder": null, "model": {model}}}"#
    )
    .parse()
    .unwrap()
}

fn normalizing(normalizer: &str) -> Tokenizer {
    tokenizer(WORD_LEVEL, normalizer, "null", "")
}

fn splitting(pre_tokenizer: &str) -> Tokenizer {
    tokenizer(WORD_LEVEL, "null", pre_tokenizer, "")
}

/// An added token, with the white space that it takes, and whether it is looked for in
/// what the normalizer makes of a text.
fn added(id: u32, content: &str, lstrip: bool, rstrip: bool, normalized: bool) -> String {
    format!(
        r#"{{"id": {id}, "content": "{content}", "single_word": false, "lstrip": {lstrip},
            "rstrip": {rstrip}, "normalized": {normalized}, "special": false}}"#
    )
}

fn replace(pattern: &str, content: &str) -> String {
    format!(r#"{{"type": "Replace", "pattern": {pattern}, "content": "{content}"}}"#)
}

fn split(pattern: &str, behavior: &str, invert: bool) -> String {
    format!(
        r#"{{"type": "Split", "pattern": {pattern}, "behavior": "{behavior}",
            "invert": {invert}}}"#
    )
}

fn sequence(normalizers: &[&str]) -> String {
    format!(r#"{{"type": "Sequence", "normalizers": [{}]}}"#, normalizers.join(", "))
}

fn is_asked(t: Tokenizer) -> bool {
    let pair = PairEncoder::new(t.clone()).is_some();
    let text = TextEncoder::new(t).is_some();
    assert_eq!(text, pair);
    text
}

/// The first tokens of a text.
fn ids(t: Tokenizer, text: &str) -> Vec<i64> {
    let encoder = TextEncoder::new(t).unwrap();
    let b = encoder.batch_inputs(&vec![text.to_string()], 8).unwrap();
    b.ids[..b.lengths[0]].to_vec()
}

#[test]
fn runs_of_one_item_are_steady() {
    for regex in [
        " ", " {2,}", " {12,}", " {9999,}", " +", "\\s", "\\s+", "\\S+", "\\d{3,}", "\\n", "[ab]",
        "[ab]+", "[ \t]{2,}", "é+", "-", "[+]", "[*]{2,}", "▁", "\t",
    ] {
        assert!(regex_is_steady(regex), "{regex}");
    }
    for regex in [
        "", "(x+x+)+y", "x*", "x?", "x+y", "xy", ".", ".+", "\\", "\\p", "\\b", "\\z", "\\1", "[]",
        "[^a]", "[a-b]", "[a", "[[:alpha:]]", "[a&&b]", "x{0,}", "x{2}", "x{,2}", "x{2,3}",
        "x{10000,}", "x{02,}", "x{,}", "x{2,", "x++", "x+?", "^", "$", "^x", "x$", "x|y", "x|",
        "(", "(?=x)", " {2,} ", "[a]]", "[ab]c+", "]", "{", "*",
    ] {
        assert!(!regex_is_steady(regex), "{regex}");
    }
    assert!(pattern_is_steady(&Pattern::Literal("(x+x+)+y".to_string())));
    assert!(!pattern_is_steady(&Pattern::Literal(String::new())));
    assert!(pattern_is_steady(&Pattern::Regex("x+".to_string())));
    assert!(!pattern_is_steady(&Pattern::Regex("(x+x+)+y".to_string())));
}

#[test]
fn patterns_of_normalizers_are_looked_through() {
    let slow = replace(r#"{"Regex": "(x+x+)+y"}"#, "_");
    assert!(!is_asked(normalizing(&slow)));
    assert!(!is_asked(normalizing(&sequence(&[r#"{"type": "NFC"}"#, &slow]))));
    assert!(!is_asked(normalizing(&replace(r#"{"Regex": "x*"}"#, "_"))));
    assert!(!is_asked(normalizing(&replace(r#"{"String": ""}"#, "_"))));
    assert!(!is_asked(normalizing(r#"{"type": "Prepend", "prepend": ""}"#)));
    let runs = replace(r#"{"Regex": " {2,}"}"#, " ");
    assert_eq!(ids(normalizing(&runs), "cat    dog"), vec![7]);
    assert_eq!(ids(normalizing(&sequence(&[&runs, &runs])), "cat  dog"), vec![7]);
    assert_eq!(ids(normalizing(&replace(r#"{"String": "(x+x+)+y"}"#, "cat")), "(x+x+)+y"), vec![1]);
    assert_eq!(ids(normalizing(r#"{"type": "Prepend", "prepend": "_"}"#), "cat"), vec![6]);
    let text = format!("{} y", "x".repeat(40));
    assert_eq!(ids(normalizing(&replace(r#"{"Regex": "x+"}"#, "cat")), &text), vec![0]);
}

#[test]
fn patterns_of_pre_tokenizers_are_looked_through() {
    let slow = split(r#"{"Regex": "(x+x+)+y"}"#, "Isolated", false);
    assert!(!is_asked(splitting(&slow)));
    let nested = format!(r#"{{"type": "Sequence", "pretokenizers": [{slow}]}}"#);
    assert!(!is_asked(splitting(&nested)));
    assert!(!is_asked(splitting(&split(r#"{"String": ""}"#, "Removed", false))));
    let runs = split(r#"{"Regex": "\\s+"}"#, "Removed", false);
    assert_eq!(ids(splitting(&runs), "cat   dog x"), vec![1, 2, 3]);
    let literal = split(r#"{"String": "(x+x+)+y"}"#, "Removed", false);
    assert_eq!(ids(splitting(&literal), "cat(x+x+)+ydog"), vec![1, 2]);
    let text = format!("{} y", "x".repeat(40));
    assert_eq!(ids(splitting(&split(r#"{"String": "x"}"#, "Removed", false)), &text), vec![0]);
}

#[test]
fn patterns_are_searched_for_as_they_are_given() {
    let mut split = Split::new("x", SplitDelimiterBehavior::Removed, false).unwrap();
    split.pattern = SplitPattern::String("_".to_string());
    let mut t = splitting("null");
    t.with_pre_tokenizer(Some(split));
    assert_eq!(ids(t, "x_cat"), vec![3, 1]);
}

#[test]
fn added_tokens_take_white_space_on_one_side() {
    let with = |tokens: &[String]| {
        tokenizer(WORD_LEVEL, "null", r#"{"type": "WhitespaceSplit"}"#, &tokens.join(", "))
    };
    let both = [added(8, "<a>", false, true, false), added(9, " ", true, false, false)];
    assert!(!is_asked(with(&both)));
    assert!(!is_asked(with(&[added(8, "<a>", true, true, false)])));
    let left = [added(8, "<a>", true, false, false), added(9, " ", true, false, false)];
    assert_eq!(ids(with(&left), "cat  <a>  x"), vec![1, 4, 4, 8, 4, 4, 3]);
    let left = [added(8, "<a>", true, false, true)];
    assert_eq!(ids(with(&left), "cat  <a>  x"), vec![1, 8, 3]);
    let right = [added(8, "<a>", false, true, false), added(9, " ", false, false, false)];
    assert_eq!(ids(with(&right), "<a>x"), vec![8, 3]);
    assert!(ids(with(&right), "<a>  x").starts_with(&[8]));
}

#[test]
fn added_tokens_leave_something_to_look_for() {
    let strip = r#"{"type": "Strip", "strip_left": true, "strip_right": true}"#;
    let blank = added(8, " ", false, false, true);
    assert!(!is_asked(tokenizer(WORD_LEVEL, strip, "null", &blank)));
    assert!(is_asked(tokenizer(WORD_LEVEL, r#"{"type": "NFC"}"#, "null", &blank)));
    assert!(is_asked(tokenizer(WORD_LEVEL, "null", "null", &blank)));
    let mask = added(8, "<MASK>", true, false, true);
    let lower = tokenizer(WORD_LEVEL, r#"{"type": "Lowercase"}"#, "null", &mask);
    assert_eq!(ids(lower, "CAT  <mask>x"), vec![1, 8, 3]);
}

#[test]
fn added_tokens_are_looked_for_as_the_normalizer_makes_them() {
    let mut t = normalizing("null");
    t.add_tokens(&[AddedToken::from(" ", false).normalized(true)]);
    t.with_normalizer(Some(NormalizerWrapper::from(Strip::new(true, true))));
    assert!(!is_asked(t.clone()));
    t.with_normalizer(Some(NormalizerWrapper::from(Lowercase)));
    assert!(is_asked(t));
    let mut t = normalizing("null");
    t.add_tokens(&[AddedToken::from("<A>", false).normalized(true)]);
    t.with_normalizer(Some(NormalizerWrapper::from(Lowercase)));
    assert_eq!(ids(t, "cat<A>"), vec![1, 8]);
}

#[test]
fn what_is_filled_up_fits_in_memory() {
    let with = |strategy: PaddingStrategy, multiple: Option<usize>| {
        let mut t = normalizing("null");
        t.with_padding(Some(PaddingParams {
            strategy,
            direction: PaddingDirection::Right,
            pad_to_multiple_of: multiple,
            pad_id: 9,
            pad_type_id: 0,
            pad_token: "[PAD]".to_string(),
        }));
        t
    };
    assert_eq!(ids(with(PaddingStrategy::Fixed(3), None), "cat"), vec![1, 9, 9]);
    assert_eq!(ids(with(PaddingStrategy::Fixed(3), Some(2)), "cat"), vec![1, 9, 9, 9]);
    assert_eq!(ids(with(PaddingStrategy::BatchLongest, Some(2)), "cat"), vec![1, 9]);
    assert_eq!(ids(with(PaddingStrategy::BatchLongest, Some(0)), "cat"), vec![1]);
    assert!(!is_asked(with(PaddingStrategy::Fixed(usize::MAX), None)));
    assert!(!is_asked(with(PaddingStrategy::BatchLongest, Some(usize::MAX))));
    assert!(is_asked(with(PaddingStrategy::Fixed(isize::MAX as usize / 64), None)));
    assert!(!is_asked(with(PaddingStrategy::Fixed(isize::MAX as usize / 64 + 1), None)));
}

#[test]
fn merges_may_be_dropped() {
    let dropping = |rate: &str| {
        let model = BPE.replace(r#""dropout": null"#, &format!(r#""dropout": {rate}"#));
        tokenizer(&model, "null", "null", "")
    };
    for model in [WORD_LEVEL, WORD_PIECE, BPE, UNIGRAM] {
        let t = tokenizer(model, "null", "null", "");
        assert!(!TextEncoder::new(t.clone()).unwrap().drops_merges());
        assert!(!PairEncoder::new(t).unwrap().drops_merges());
    }
    assert!(TextEncoder::new(dropping("0.5")).unwrap().drops_merges());
    assert!(PairEncoder::new(dropping("0.5")).unwrap().drops_merges());
    let encoder = TextEncoder::new(dropping("1.0")).unwrap();
    let b = encoder.batch_inputs(&vec!["ax".to_string()], 4).unwrap();
    assert_eq!(b.ids, vec![1, 2, 0, 0]);
    let encoder = TextEncoder::new(tokenizer(BPE, "null", "null", "")).unwrap();
    for _ in 0..20 {
        let b = encoder.batch_inputs(&vec!["axax".to_string()], 4).unwrap();
        assert_eq!(b.ids, vec![3, 3, 0, 0]);
        let pair = PairEncoder::new(tokenizer(BPE, "null", "null", "")).unwrap();
        assert_eq!(pair.rerank_inputs("ax", "x", 3).unwrap().ids, vec![3, 2, 0]);
    }
}

#[test]
fn ready_tokenizers_answer_as_those_they_are_made_from() {
    let t = tokenizer(BPE, r#"{"type": "NFC"}"#, "null", &added(6, "<a>", true, false, true));
    for n in [1, 2] {
        let ready = ready_tokenizer(&t, n).unwrap();
        for text in ["", " ", "axé", "ax <a> x", "<a><a>", "e\u{301}"] {
            let x = t.encode(text, true).unwrap();
            let y = ready.encode(text, true).unwrap();
            assert_eq!(x.get_ids(), y.get_ids());
            assert_eq!(x.get_attention_mask(), y.get_attention_mask());
            assert_eq!(x.get_type_ids(), y.get_type_ids());
        }
    }
}

/// Texts of characters that normalizers and pre-tokenizers treat in many ways.
fn texts(seed: u64, count: usize) -> Vec<String> {
    let pool: Vec<char> = "aAxX éÉ\u{301}\u{327}\u{345}ßİıﬃ\u{1100}\u{1161}\u{11a8}한글\u{0}\u{ad}\u{200b}\u{200d}\u{feff}\u{fffd}　\t\n\r漢字かなカ゛が.,!-'’(x)[<a>]▁_01٣½Ωﷺ👍🏽👨‍👩‍👧\u{1d15e}\u{2fa1d}\u{10ffff}\u{e000}\u{85}\u{2028}  "
        .chars()
        .collect();
    let mut state = seed;
    let mut next = |n: u64| {
        state = state.wrapping_mul(6364136223846793005).wrapping_add(1442695040888963407);
        (state >> 33) % n
    };
    let mut all: Vec<String> = vec![String::new(), " ".to_string(), "  \t ".to_string()];
    for _ in 0..count {
        let len = next(12);
        let mut text = String::new();
        for _ in 0..len {
            let code = if next(4) == 0 { next(0x110000) as u32 } else { 0xd800 };
            let c = char::from_u32(code);
            text.push(c.unwrap_or(pool[next(pool.len() as u64) as usize]));
        }
        all.push(text);
    }
    all
}

fn normalizers() -> Vec<String> {
    let mut all: Vec<String> = vec!["null".to_string()];
    for kind in ["StripAccents", "NFC", "NFD", "NFKC", "NFKD", "Lowercase", "Nmt", "ByteLevel"] {
        all.push(format!(r#"{{"type": "{kind}"}}"#));
    }
    for (clean, chinese, accents, lower) in
        [("true", "true", "null", "true"), ("false", "false", "true", "false")]
    {
        all.push(format!(
            r#"{{"type": "BertNormalizer", "clean_text": {clean},
                "handle_chinese_chars": {chinese}, "strip_accents": {accents},
                "lowercase": {lower}}}"#
        ));
    }
    for (left, right) in [(true, true), (true, false), (false, true)] {
        all.push(format!(
            r#"{{"type": "Strip", "strip_left": {left}, "strip_right": {right}}}"#
        ));
    }
    all.push(r#"{"type": "Prepend", "prepend": "▁"}"#.to_string());
    for content in ["", "▁", "ab c"] {
        all.push(replace(r#"{"Regex": " {2,}"}"#, content));
        all.push(replace(r#"{"Regex": "\\w+"}"#, content));
        all.push(replace(r#"{"String": "a"}"#, content));
    }
    all
}

fn pre_tokenizers() -> Vec<String> {
    let mut all: Vec<String> = vec!["null".to_string()];
    for kind in ["BertPreTokenizer", "Whitespace", "WhitespaceSplit", "UnicodeScripts"] {
        all.push(format!(r#"{{"type": "{kind}"}}"#));
    }
    for regex in [true, false] {
        all.push(format!(
            r#"{{"type": "ByteLevel", "add_prefix_space": {regex}, "trim_offsets": true,
                "use_regex": {regex}}}"#
        ));
        all.push(format!(r#"{{"type": "Digits", "individual_digits": {regex}}}"#));
    }
    for scheme in ["always", "first", "never"] {
        all.push(format!(
            r#"{{"type": "Metaspace", "replacement": "▁", "prepend_scheme": "{scheme}",
                "split": true}}"#
        ));
    }
    all.push(r#"{"type": "CharDelimiterSplit", "delimiter": "x"}"#.to_string());
    all.push(r#"{"type": "FixedLength", "length": 3}"#.to_string());
    for behavior in
        ["Removed", "Isolated", "MergedWithPrevious", "MergedWithNext", "Contiguous"]
    {
        all.push(format!(r#"{{"type": "Punctuation", "behavior": "{behavior}"}}"#));
        for invert in [true, false] {
            all.push(split(r#"{"Regex": "\\s+"}"#, behavior, invert));
            all.push(split(r#"{"String": "a"}"#, behavior, invert));
        }
    }
    all
}

/// Asks the tokenizer for each of the texts, and for each two that follow one another.
fn ask(t: Tokenizer, texts: &Vec<String>) {
    let pairs = PairEncoder::new(t.clone()).unwrap();
    let encoder = TextEncoder::new(t).unwrap();
    for i in 0..texts.len() {
        let _ = encoder.single_inputs(&texts[i], "query", 8);
        let _ = encoder.batch_inputs(&vec![texts[i].clone()], 8);
        if i > 0 {
            let _ = pairs.rerank_inputs(&texts[i - 1], &texts[i], 8);
        }
    }
}

/// Two steps in turn, as a sequence, or the one that is there.
fn in_turn(members: &str, a: &str, b: &str) -> String {
    if a == "null" {
        b.to_string()
    } else if b == "null" {
        a.to_string()
    } else {
        format!(r#"{{"type": "Sequence", "{members}": [{a}, {b}]}}"#)
    }
}

#[test]
fn normalizers_take_any_text() {
    let texts = texts(1, 30);
    let left = added(100, "<a>", true, false, true);
    let right = [added(100, "<a>", false, true, true), added(101, " x", false, true, false)];
    let all = normalizers();
    for (i, a) in all.iter().enumerate() {
        ask(tokenizer(WORD_LEVEL, a, "null", &right.join(", ")), &texts);
        for (j, b) in all.iter().enumerate() {
            if i == 0 || j == 0 || (i + j) % 3 == 0 {
                let chain = in_turn("normalizers", a, b);
                let t = tokenizer(WORD_LEVEL, &chain, r#"{"type": "WhitespaceSplit"}"#, &left);
                ask(t, &texts);
            }
        }
    }
}

#[test]
fn pre_tokenizers_take_any_text() {
    let texts = texts(2, 12);
    let left = added(100, "<a>", true, false, false);
    let all = pre_tokenizers();
    for (i, a) in all.iter().enumerate() {
        for (j, b) in all.iter().enumerate() {
            if i == 0 || j == 0 || (i + j) % 5 == 0 {
                let chain = in_turn("pretokenizers", a, b);
                ask(tokenizer(WORD_LEVEL, r#"{"type": "NFKD"}"#, &chain, &left), &texts);
            }
        }
    }
}

#[test]
fn models_take_any_text() {
    let texts = texts(3, 30);
    for a in pre_tokenizers() {
        for model in [WORD_PIECE, BPE, UNIGRAM] {
            ask(tokenizer(model, r#"{"type": "Lowercase"}"#, &a, ""), &texts);
        }
    }
}
