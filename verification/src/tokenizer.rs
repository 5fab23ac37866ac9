//! What a tokenizer is made of, as far as it decides whether the tokenizer can be asked.
//!
//! A tokenizer is read from a file, and nothing holds the parts of that file to one
//! another. Some combinations make the tokenizer panic when it is asked, so what it is
//! made of is looked at first.
use crate::charsmap::charsmap_is_sound;
use crate::pattern::{pattern_is_steady, Pattern};
use crate::text::chars_of;
use tokenizers::models::ModelWrapper;
use tokenizers::normalizers::replace::ReplacePattern;
use tokenizers::normalizers::{NormalizerWrapper, Precompiled, Replace};
use tokenizers::pre_tokenizers::split::SplitPattern;
use tokenizers::pre_tokenizers::PreTokenizerWrapper;
use tokenizers::processors::template::{Template, Tokens};
use tokenizers::processors::PostProcessorWrapper;
use tokenizers::{PaddingStrategy, Tokenizer};
use vstd::prelude::*;

verus! {

use crate::charsmap::is_sound_charsmap;
use crate::pattern::{is_steady, PatternView};
use crate::text::views;

/// The tokenizer type of the `tokenizers` crate.
#[verifier::external_type_specification]
#[verifier::external_body]
pub struct ExTokenizer(tokenizers::Tokenizer);

/// The type of a tokenizer's post-processor.
#[verifier::external_type_specification]
#[verifier::external_body]
pub struct ExPostProcessor(tokenizers::processors::PostProcessorWrapper);

/// The type of a template, by which a post-processor puts texts and special tokens
/// together.
#[verifier::external_type_specification]
#[verifier::external_body]
pub struct ExTemplate(tokenizers::processors::template::Template);

/// The type of the special tokens that a template may name.
#[verifier::external_type_specification]
#[verifier::external_body]
pub struct ExTokens(tokenizers::processors::template::Tokens);

/// The type of a tokenizer's normalizer, which rewrites a text.
#[verifier::external_type_specification]
#[verifier::external_body]
pub struct ExNormalizer(tokenizers::normalizers::NormalizerWrapper);

/// The type of a normalizer that looks up characters in a table.
#[verifier::external_type_specification]
#[verifier::external_body]
pub struct ExPrecompiled(tokenizers::normalizers::Precompiled);

/// The type of a normalizer that replaces what a pattern finds.
#[verifier::external_type_specification]
#[verifier::external_body]
pub struct ExReplace(tokenizers::normalizers::Replace);

/// The type of a tokenizer's pre-tokenizer, which splits a text.
#[verifier::external_type_specification]
#[verifier::external_body]
pub struct ExPreTokenizer(tokenizers::pre_tokenizers::PreTokenizerWrapper);

/// A piece of a template.
pub enum Piece {
    /// The tokens of the first text.
    First,
    /// The tokens of the second text.
    Second,
    /// The special token of this name.
    Special(String),
}

/// What a [`Piece`] holds.
pub enum PieceView {
    First,
    Second,
    Special(Seq<char>),
}

impl View for Piece {
    type V = PieceView;

    open spec fn view(&self) -> PieceView {
        match self {
            Piece::First => PieceView::First,
            Piece::Second => PieceView::Second,
            Piece::Special(id) => PieceView::Special(id@),
        }
    }
}

/// The pieces of a template.
pub uninterp spec fn pieces_of(template: Template) -> Seq<PieceView>;

/// `Template` holds its pieces in a private field, and serializes as the list of them,
/// by which they are read here with `serde_json::to_value`.
#[verifier::external_body]
fn pieces(template: &Template) -> (r: Vec<Piece>)
    ensures
        r@.map_values(|p: Piece| p@) == pieces_of(*template),
{
    let list = serde_json::to_value(template).expect("a template serializes");
    let pieces: Vec<tokenizers::processors::template::Piece> =
        serde_json::from_value(list).expect("a template serializes as its pieces");
    pieces.into_iter().map(|p| match p {
        tokenizers::processors::template::Piece::SpecialToken { id, .. } => Piece::Special(id),
        tokenizers::processors::template::Piece::Sequence { id, .. } => match id {
            tokenizers::processors::template::Sequence::A => Piece::First,
            tokenizers::processors::template::Sequence::B => Piece::Second,
        },
    }).collect()
}

/// The special token `id` is among `tokens`.
pub uninterp spec fn defines(tokens: Tokens, id: Seq<char>) -> bool;

/// `Tokens` maps names to special tokens, and its `contains_key` tells whether there is
/// one of the name `id`.
#[verifier::external_body]
fn is_defined(tokens: &Tokens, id: &str) -> (r: bool)
    ensures
        r == defines(*tokens, id@),
{
    tokens.0.contains_key(id)
}

/// What a post-processor is, as far as it decides how many encodings leave it.
pub enum Processor {
    /// One that gives back as many encodings as it is given.
    Keeps,
    /// One that fills in a template: one for single texts, and one for pairs.
    Fills { single: Template, pair: Template, tokens: Tokens },
    /// One that hands the encodings through others.
    Chain(Seq<Processor>),
}

/// What a post-processor is.
pub uninterp spec fn processor_of(p: PostProcessorWrapper) -> Processor;

/// What a post-processor is, with its parts.
pub enum Parts<'a> {
    Keeps,
    Fills { single: &'a Template, pair: &'a Template, tokens: &'a Tokens },
    Chain(&'a [PostProcessorWrapper]),
}

/// `PostProcessorWrapper` is one of five post-processors. Those of Bert and Roberta and
/// the one on bytes give an encoding for each that they are given; a template has its
/// two templates and its special tokens; and a sequence has its members.
#[verifier::external_body]
fn parts(p: &PostProcessorWrapper) -> (r: Parts<'_>)
    ensures
        processor_of(*p) == (match r {
            Parts::Keeps => Processor::Keeps,
            Parts::Fills { single, pair, tokens } => Processor::Fills {
                single: *single,
                pair: *pair,
                tokens: *tokens,
            },
            Parts::Chain(members) => Processor::Chain(
                members@.map_values(|m: PostProcessorWrapper| processor_of(m)),
            ),
        }),
{
    match p {
        PostProcessorWrapper::Bert(_) => Parts::Keeps,
        PostProcessorWrapper::Roberta(_) => Parts::Keeps,
        PostProcessorWrapper::ByteLevel(_) => Parts::Keeps,
        PostProcessorWrapper::Template(t) => Parts::Fills {
            single: &t.single,
            pair: t.get_pair(),
            tokens: t.get_special_tokens(),
        },
        PostProcessorWrapper::Sequence(s) => Parts::Chain(s.as_ref()),
    }
}

/// A piece that can be filled in, given `texts` texts.
pub open spec fn can_fill(piece: PieceView, tokens: Tokens, texts: int) -> bool {
    match piece {
        PieceView::First => texts >= 1,
        PieceView::Second => texts >= 2,
        PieceView::Special(id) => defines(tokens, id),
    }
}

/// Every piece of `template` can be filled in.
pub open spec fn fills(template: Template, tokens: Tokens, texts: int) -> bool {
    forall|i: int|
        0 <= i < pieces_of(template).len() ==> can_fill(
            #[trigger] pieces_of(template)[i],
            tokens,
            texts,
        )
}

/// How many encodings leave a post-processor that is given `n`, or none where it cannot
/// take them: a template takes one or two, of which it can use no others, and it can name
/// no special token that is not defined. It gives an encoding for each of its pieces.
pub open spec fn leaving(p: Processor, n: int) -> Option<int>
    decreases p,
{
    match p {
        Processor::Keeps => Some(n),
        Processor::Fills { single, pair, tokens } => {
            if n == 1 && fills(single, tokens, n) {
                Some(pieces_of(single).len() as int)
            } else if n == 2 && fills(pair, tokens, n) {
                Some(pieces_of(pair).len() as int)
            } else {
                None
            }
        },
        Processor::Chain(members) => leaving_all(members, n),
    }
}

/// How many encodings leave the last of `members`, given what leaves the one before it.
pub open spec fn leaving_all(members: Seq<Processor>, n: int) -> Option<int>
    decreases members,
{
    if members.len() == 0 {
        Some(n)
    } else {
        match leaving(members[0], n) {
            None => None,
            Some(m) => leaving_all(members.subrange(1, members.len() as int), m),
        }
    }
}

fn all_fill(template: &Template, tokens: &Tokens, texts: usize) -> (r: Option<usize>)
    ensures
        r matches Some(n) ==> n == pieces_of(*template).len(),
        r is Some <==> fills(*template, *tokens, texts as int),
{
    let pieces = pieces(template);
    let mut i: usize = 0;
    while i < pieces.len()
        invariant
            i <= pieces@.len(),
            pieces@.map_values(|p: Piece| p@) == pieces_of(*template),
            forall|k: int|
                0 <= k < i ==> can_fill(
                    #[trigger] pieces_of(*template)[k],
                    *tokens,
                    texts as int,
                ),
        decreases pieces@.len() - i,
    {
        proof {
            assert(pieces_of(*template)[i as int] == pieces@[i as int]@);
        }
        let ok: bool = match &pieces[i] {
            Piece::First => texts >= 1,
            Piece::Second => texts >= 2,
            Piece::Special(id) => is_defined(tokens, id.as_str()),
        };
        if !ok {
            return None;
        }
        i += 1;
    }
    Some(pieces.len())
}

pub open spec fn as_count(n: Option<usize>) -> Option<int> {
    match n {
        Some(k) => Some(k as int),
        None => None,
    }
}

/// How many encodings leave `p` when it is given `n`.
fn count_leaving(p: &PostProcessorWrapper, n: usize) -> (r: Option<usize>)
    ensures
        as_count(r) == leaving(processor_of(*p), n as int),
    decreases processor_of(*p),
{
    match parts(p) {
        Parts::Keeps => Some(n),
        Parts::Fills { single, pair, tokens } => {
            if n == 2 {
                all_fill(pair, tokens, n)
            } else if n == 1 {
                all_fill(single, tokens, n)
            } else {
                None
            }
        },
        Parts::Chain(members) => {
            let ghost all = members@.map_values(|m: PostProcessorWrapper| processor_of(m));
            let mut count: usize = n;
            let mut i: usize = 0;
            proof {
                assert(all.subrange(0, all.len() as int) =~= all);
            }
            while i < members.len()
                invariant
                    i <= members@.len(),
                    all == members@.map_values(|m: PostProcessorWrapper| processor_of(m)),
                    processor_of(*p) == Processor::Chain(all),
                    leaving_all(all.subrange(i as int, all.len() as int), count as int)
                        == leaving_all(all, n as int),
                decreases members@.len() - i,
            {
                let ghost rest = all.subrange(i as int, all.len() as int);
                proof {
                    assert(rest[0] == processor_of(members@[i as int]));
                    assert(rest.subrange(1, rest.len() as int) =~= all.subrange(
                        i + 1,
                        all.len() as int,
                    ));
                    assert(decreases_to!(processor_of(*p) => processor_of(*p)->Chain_0));
                    assert(decreases_to!(all => all[i as int]));
                }
                match count_leaving(&members[i], count) {
                    None => {
                        return None;
                    },
                    Some(m) => {
                        count = m;
                    },
                }
                i += 1;
            }
            proof {
                assert(all.subrange(i as int, all.len() as int) =~= seq![]);
            }
            Some(count)
        },
    }
}

/// The post-processor of a tokenizer, if it has one.
pub uninterp spec fn post_processor_of(tokenizer: Tokenizer) -> Option<PostProcessorWrapper>;

/// `Tokenizer::get_post_processor` gives the tokenizer's post-processor.
#[verifier::external_body]
fn post_processor(tokenizer: &Tokenizer) -> (r: Option<&PostProcessorWrapper>)
    ensures
        match r {
            Some(p) => post_processor_of(*tokenizer) == Some(*p),
            None => post_processor_of(*tokenizer) is None,
        },
{
    tokenizer.get_post_processor()
}

/// What a normalizer or a pre-tokenizer is, as far as it decides whether it takes any text.
pub enum Step {
    /// One that goes by single characters, or by rules that are built into it, and takes
    /// any text.
    Plain,
    /// A normalizer that looks up characters in a table, given in base 64.
    Table(Seq<char>),
    /// A normalizer or a pre-tokenizer that searches for a pattern.
    Search(PatternView),
    /// A normalizer that puts a text in front.
    Prefix(Seq<char>),
    /// A pre-tokenizer that splits a text after every so many characters.
    Every(usize),
    /// One that hands the text through others.
    Chain(Seq<Step>),
}

/// The step takes any text.
pub open spec fn is_sound_step(step: Step) -> bool
    decreases step,
{
    match step {
        Step::Plain => true,
        Step::Table(text) => is_sound_charsmap(text),
        Step::Search(pattern) => is_steady(pattern),
        Step::Prefix(text) => text.len() > 0,
        Step::Every(n) => n > 0,
        Step::Chain(members) => are_sound_steps(members),
    }
}

/// Every one of the steps takes any text.
pub open spec fn are_sound_steps(steps: Seq<Step>) -> bool
    decreases steps,
{
    steps.len() == 0 || is_sound_step(steps[0]) && are_sound_steps(
        steps.subrange(1, steps.len() as int),
    )
}

/// The table of a normalizer that looks up characters, in base 64.
pub uninterp spec fn table_of(p: Precompiled) -> Seq<char>;

/// `serde_json::to_value` gives the serialized form of the normalizer, which has its table
/// in base 64. The normalizer keeps the table to itself otherwise.
#[verifier::external_body]
fn table(p: &Precompiled) -> (r: String)
    ensures
        r@ == table_of(*p),
{
    let fields = serde_json::to_value(p).expect("a table serializes");
    fields["precompiled_charsmap"].as_str().expect("it is a text").to_string()
}

/// What a normalizer that replaces text searches for.
pub uninterp spec fn searched_by(r: Replace) -> PatternView;

/// `serde_json::to_value` gives the serialized form of the normalizer, which has its
/// pattern. The normalizer keeps the pattern to itself otherwise, and searches with what it
/// made of the pattern when it was made.
#[verifier::external_body]
fn searched(replace: &Replace) -> (r: Pattern)
    ensures
        r@ == searched_by(*replace),
{
    let mut fields = serde_json::to_value(replace).expect("a replacement serializes");
    match serde_json::from_value(fields["pattern"].take()).expect("it has a pattern") {
        ReplacePattern::String(text) => Pattern::Literal(text),
        ReplacePattern::Regex(text) => Pattern::Regex(text),
    }
}

/// What a normalizer is.
pub uninterp spec fn normalizer_step(n: NormalizerWrapper) -> Step;

/// What a normalizer is, with its parts.
pub enum NormalizerParts<'a> {
    Plain,
    Table(&'a Precompiled),
    Search(&'a Replace),
    Prefix(&'a str),
    Chain(&'a [NormalizerWrapper]),
}

/// `NormalizerWrapper` is one of several normalizers. One looks up characters in a table,
/// one replaces what a pattern finds, one puts a text in front, and a sequence has its
/// members. The others add, drop or change single characters by rules built into them.
#[verifier::external_body]
fn normalizer_parts(n: &NormalizerWrapper) -> (r: NormalizerParts<'_>)
    ensures
        normalizer_step(*n) == (match r {
            NormalizerParts::Plain => Step::Plain,
            NormalizerParts::Table(p) => Step::Table(table_of(*p)),
            NormalizerParts::Search(replace) => Step::Search(searched_by(*replace)),
            NormalizerParts::Prefix(text) => Step::Prefix(text@),
            NormalizerParts::Chain(members) => Step::Chain(
                members@.map_values(|m: NormalizerWrapper| normalizer_step(m)),
            ),
        }),
{
    match n {
        NormalizerWrapper::Precompiled(p) => NormalizerParts::Table(p),
        NormalizerWrapper::Replace(r) => NormalizerParts::Search(r),
        NormalizerWrapper::Prepend(p) => NormalizerParts::Prefix(p.prepend.as_str()),
        NormalizerWrapper::Sequence(s) => NormalizerParts::Chain(s.as_ref()),
        NormalizerWrapper::BertNormalizer(_) | NormalizerWrapper::StripNormalizer(_)
        | NormalizerWrapper::StripAccents(_) | NormalizerWrapper::NFC(_)
        | NormalizerWrapper::NFD(_) | NormalizerWrapper::NFKC(_)
        | NormalizerWrapper::NFKD(_) | NormalizerWrapper::Lowercase(_)
        | NormalizerWrapper::Nmt(_) | NormalizerWrapper::ByteLevel(_) => NormalizerParts::Plain,
    }
}

/// What a pre-tokenizer is.
pub uninterp spec fn pre_tokenizer_step(p: PreTokenizerWrapper) -> Step;

/// What a pre-tokenizer is, with its parts.
pub enum PreTokenizerParts<'a> {
    Plain,
    Search(Pattern),
    Every(usize),
    Chain(&'a [PreTokenizerWrapper]),
}

/// `PreTokenizerWrapper` is one of several pre-tokenizers. One splits where a pattern is
/// found, one splits a text into pieces of a fixed length, and a sequence has its members.
/// The others split at single characters, or by an expression built into them that never
/// goes back by more than one character.
#[verifier::external_body]
fn pre_tokenizer_parts(p: &PreTokenizerWrapper) -> (r: PreTokenizerParts<'_>)
    ensures
        pre_tokenizer_step(*p) == (match r {
            PreTokenizerParts::Plain => Step::Plain,
            PreTokenizerParts::Search(pattern) => Step::Search(pattern@),
            PreTokenizerParts::Every(n) => Step::Every(n),
            PreTokenizerParts::Chain(members) => Step::Chain(
                members@.map_values(|m: PreTokenizerWrapper| pre_tokenizer_step(m)),
            ),
        }),
{
    match p {
        PreTokenizerWrapper::Split(s) => PreTokenizerParts::Search(match s.pattern.clone() {
            SplitPattern::String(text) => Pattern::Literal(text),
            SplitPattern::Regex(text) => Pattern::Regex(text),
        }),
        PreTokenizerWrapper::FixedLength(f) => PreTokenizerParts::Every(f.length),
        PreTokenizerWrapper::Sequence(s) => PreTokenizerParts::Chain(s.as_ref()),
        PreTokenizerWrapper::BertPreTokenizer(_) | PreTokenizerWrapper::ByteLevel(_)
        | PreTokenizerWrapper::Delimiter(_) | PreTokenizerWrapper::Metaspace(_)
        | PreTokenizerWrapper::Whitespace(_) | PreTokenizerWrapper::Punctuation(_)
        | PreTokenizerWrapper::WhitespaceSplit(_) | PreTokenizerWrapper::Digits(_)
        | PreTokenizerWrapper::UnicodeScripts(_) => PreTokenizerParts::Plain,
    }
}

fn normalizer_is_sound(n: &NormalizerWrapper) -> (r: bool)
    ensures
        r == is_sound_step(normalizer_step(*n)),
    decreases normalizer_step(*n),
{
    match normalizer_parts(n) {
        NormalizerParts::Plain => true,
        NormalizerParts::Table(p) => charsmap_is_sound(table(p).as_str()),
        NormalizerParts::Search(replace) => pattern_is_steady(&searched(replace)),
        NormalizerParts::Prefix(text) => chars_of(text).len() > 0,
        NormalizerParts::Chain(members) => {
            let ghost all = members@.map_values(|m: NormalizerWrapper| normalizer_step(m));
            let mut i: usize = 0;
            proof {
                assert(all.subrange(0, all.len() as int) =~= all);
            }
            while i < members.len()
                invariant
                    i <= members@.len(),
                    all == members@.map_values(|m: NormalizerWrapper| normalizer_step(m)),
                    normalizer_step(*n) == Step::Chain(all),
                    are_sound_steps(all) == are_sound_steps(
                        all.subrange(i as int, all.len() as int),
                    ),
                decreases members@.len() - i,
            {
                proof {
                    let rest = all.subrange(i as int, all.len() as int);
                    assert(rest[0] == normalizer_step(members@[i as int]));
                    assert(rest.subrange(1, rest.len() as int) =~= all.subrange(
                        i + 1,
                        all.len() as int,
                    ));
                    assert(decreases_to!(normalizer_step(*n) => normalizer_step(*n)->Chain_0));
                    assert(decreases_to!(all => all[i as int]));
                }
                if !normalizer_is_sound(&members[i]) {
                    return false;
                }
                i += 1;
            }
            proof {
                assert(all.subrange(i as int, all.len() as int) =~= seq![]);
            }
            true
        },
    }
}

fn pre_tokenizer_is_sound(p: &PreTokenizerWrapper) -> (r: bool)
    ensures
        r == is_sound_step(pre_tokenizer_step(*p)),
    decreases pre_tokenizer_step(*p),
{
    match pre_tokenizer_parts(p) {
        PreTokenizerParts::Plain => true,
        PreTokenizerParts::Search(pattern) => pattern_is_steady(&pattern),
        PreTokenizerParts::Every(n) => n > 0,
        PreTokenizerParts::Chain(members) => {
            let ghost all = members@.map_values(|m: PreTokenizerWrapper| pre_tokenizer_step(m));
            let mut i: usize = 0;
            proof {
                assert(all.subrange(0, all.len() as int) =~= all);
            }
            while i < members.len()
                invariant
                    i <= members@.len(),
                    all == members@.map_values(|m: PreTokenizerWrapper| pre_tokenizer_step(m)),
                    pre_tokenizer_step(*p) == Step::Chain(all),
                    are_sound_steps(all) == are_sound_steps(
                        all.subrange(i as int, all.len() as int),
                    ),
                decreases members@.len() - i,
            {
                proof {
                    let rest = all.subrange(i as int, all.len() as int);
                    assert(rest[0] == pre_tokenizer_step(members@[i as int]));
                    assert(rest.subrange(1, rest.len() as int) =~= all.subrange(
                        i + 1,
                        all.len() as int,
                    ));
                    assert(decreases_to!(pre_tokenizer_step(*p) => pre_tokenizer_step(*p)->Chain_0));
                    assert(decreases_to!(all => all[i as int]));
                }
                if !pre_tokenizer_is_sound(&members[i]) {
                    return false;
                }
                i += 1;
            }
            proof {
                assert(all.subrange(i as int, all.len() as int) =~= seq![]);
            }
            true
        },
    }
}

/// The normalizer of a tokenizer, if it has one.
pub uninterp spec fn normalizer_of(tokenizer: Tokenizer) -> Option<NormalizerWrapper>;

/// `Tokenizer::get_normalizer` gives the tokenizer's normalizer.
#[verifier::external_body]
fn normalizer(tokenizer: &Tokenizer) -> (r: Option<&NormalizerWrapper>)
    ensures
        match r {
            Some(n) => normalizer_of(*tokenizer) == Some(*n),
            None => normalizer_of(*tokenizer) is None,
        },
{
    tokenizer.get_normalizer()
}

/// The pre-tokenizer of a tokenizer, if it has one.
pub uninterp spec fn pre_tokenizer_of(tokenizer: Tokenizer) -> Option<PreTokenizerWrapper>;

/// `Tokenizer::get_pre_tokenizer` gives the tokenizer's pre-tokenizer.
#[verifier::external_body]
fn pre_tokenizer(tokenizer: &Tokenizer) -> (r: Option<&PreTokenizerWrapper>)
    ensures
        match r {
            Some(p) => pre_tokenizer_of(*tokenizer) == Some(*p),
            None => pre_tokenizer_of(*tokenizer) is None,
        },
{
    tokenizer.get_pre_tokenizer()
}

/// How many tokens a post-processor adds to a text, or to a pair of texts.
pub uninterp spec fn added_tokens_of(p: PostProcessorWrapper, pair: bool) -> usize;

/// `PostProcessor::added_tokens` gives the number of tokens that a post-processor adds.
#[verifier::external_body]
fn added_tokens(p: &PostProcessorWrapper, pair: bool) -> (r: usize)
    ensures
        r == added_tokens_of(*p, pair),
{
    tokenizers::PostProcessor::added_tokens(p, pair)
}

/// How a tokenizer cuts off what is too long: the longest encoding that it gives, and by
/// how many tokens the parts that it cuts off overlap.
#[derive(Clone, Copy)]
pub struct Truncation {
    pub max: usize,
    pub stride: usize,
}

/// The truncation that the tokenizer is set to, if it is set to one.
pub uninterp spec fn truncation_of(tokenizer: Tokenizer) -> Option<Truncation>;

/// `Tokenizer::get_truncation` gives the truncation that the tokenizer is set to, of
/// which the length and the stride are kept.
#[verifier::external_body]
fn truncation(tokenizer: &Tokenizer) -> (r: Option<Truncation>)
    ensures
        r == truncation_of(*tokenizer),
{
    tokenizer.get_truncation().map(|t| Truncation { max: t.max_length, stride: t.stride })
}

/// How a tokenizer fills up what is too short: to a fixed length, and to a multiple of a
/// length.
#[derive(Clone, Copy)]
pub struct Padding {
    pub fixed: Option<usize>,
    pub multiple: Option<usize>,
}

/// The padding that the tokenizer is set to, if it is set to one.
pub uninterp spec fn padding_of(tokenizer: Tokenizer) -> Option<Padding>;

/// `Tokenizer::get_padding` gives the padding that the tokenizer is set to, of which the
/// lengths are kept.
#[verifier::external_body]
fn padding(tokenizer: &Tokenizer) -> (r: Option<Padding>)
    ensures
        r == padding_of(*tokenizer),
{
    tokenizer.get_padding().map(|p| Padding {
        fixed: match p.strategy {
            PaddingStrategy::Fixed(n) => Some(n),
            PaddingStrategy::BatchLongest => None,
        },
        multiple: p.pad_to_multiple_of,
    })
}

/// For each token that was added to the tokenizer's vocabulary, whether it takes the white
/// space to its left, and whether it takes that to its right.
pub uninterp spec fn strips_of(tokenizer: Tokenizer) -> Set<(bool, bool)>;

/// `Tokenizer::get_added_tokens_decoder` gives the added tokens, of which it is kept which
/// white space they take. The order in which they come is open.
#[verifier::external_body]
fn strips(tokenizer: &Tokenizer) -> (r: Vec<(bool, bool)>)
    ensures
        r@.to_set() == strips_of(*tokenizer),
{
    tokenizer.get_added_tokens_decoder().values().map(|t| (t.lstrip, t.rstrip)).collect()
}

/// The texts of the tokens that were added to the tokenizer's vocabulary.
pub uninterp spec fn added_texts_of(tokenizer: Tokenizer) -> Set<Seq<char>>;

/// `AddedVocabulary::get_vocab` gives the texts of the added tokens, also of those in
/// whose place another one with the same id has come. Their order is open.
#[verifier::external_body]
fn added_texts(tokenizer: &Tokenizer) -> (r: Vec<String>)
    ensures
        views(r@).to_set() == added_texts_of(*tokenizer),
{
    tokenizer.get_added_vocabulary().get_vocab().keys().cloned().collect()
}

/// What a normalizer makes of a text, if it does not fail.
pub uninterp spec fn normalized_by(n: NormalizerWrapper, text: Seq<char>) -> Option<Seq<char>>;

/// `Normalizer::normalize` rewrites a text, or fails. The precondition leaves out the
/// normalizers that panic on some text.
#[verifier::external_body]
fn normalized(n: &NormalizerWrapper, text: &str) -> (r: Option<String>)
    requires
        is_sound_step(normalizer_step(*n)),
    ensures
        match r {
            Some(out) => normalized_by(*n, text@) == Some(out@),
            None => normalized_by(*n, text@) is None,
        },
{
    let mut rewritten = tokenizers::NormalizedString::from(text);
    match tokenizers::Normalizer::normalize(n, &mut rewritten) {
        Ok(_) => Some(rewritten.get().to_string()),
        Err(_) => None,
    }
}

/// The model of the tokenizer drops merges at random.
pub uninterp spec fn drops_merges_of(tokenizer: Tokenizer) -> bool;

/// `Tokenizer::get_model` gives the model of the tokenizer. Of the models only `BPE` can
/// drop merges, and it does so if a rate is set for it.
#[verifier::external_body]
pub(crate) fn drops_merges(tokenizer: &Tokenizer) -> (r: bool)
    ensures
        r == drops_merges_of(*tokenizer),
{
    match tokenizer.get_model() {
        ModelWrapper::BPE(model) => model.dropout.is_some(),
        ModelWrapper::WordPiece(_) => false,
        ModelWrapper::WordLevel(_) => false,
        ModelWrapper::Unigram(_) => false,
    }
}

/// `outcome` is something that the tokenizer, made anew from its parts, may answer when it
/// is asked to encode `text`, or the pair of `text` and `pair`: the token ids, attention
/// flags and segments, or the message of an error. A tokenizer that drops merges at random
/// has more than one answer. The stride of its truncation, which says by how many tokens
/// the parts that it cuts off overlap, is left out of account.
pub uninterp spec fn may_encode(
    tokenizer: Tokenizer,
    text: Seq<char>,
    pair: Option<Seq<char>>,
    outcome: Result<(Seq<u32>, Seq<u32>, Seq<u32>), Seq<char>>,
) -> bool;

/// The answers of `a` are those of `b`.
pub open spec fn answers_like(a: Tokenizer, b: Tokenizer) -> bool {
    &&& drops_merges_of(a) == drops_merges_of(b)
    &&& forall|
        text: Seq<char>,
        pair: Option<Seq<char>>,
        outcome: Result<(Seq<u32>, Seq<u32>, Seq<u32>), Seq<char>>,
    |
        #![trigger may_encode(a, text, pair, outcome)]
        #![trigger may_encode(b, text, pair, outcome)]
        may_encode(a, text, pair, outcome) <==> may_encode(b, text, pair, outcome)
}

/// `a` and `b` are made of the same parts, but for their truncation.
pub open spec fn has_parts_of(a: Tokenizer, b: Tokenizer) -> bool {
    &&& normalizer_of(a) == normalizer_of(b)
    &&& pre_tokenizer_of(a) == pre_tokenizer_of(b)
    &&& post_processor_of(a) == post_processor_of(b)
    &&& padding_of(a) == padding_of(b)
    &&& strips_of(a) == strips_of(b)
    &&& added_texts_of(a) == added_texts_of(b)
}

/// What the tokenizer searches with is made from its parts as they are now: the
/// expressions from the patterns, and what finds the added tokens from their texts and the
/// normalizer.
pub uninterp spec fn is_fresh(tokenizer: Tokenizer) -> bool;

/// `Tokenizer::clone` makes the expressions that a tokenizer searches with anew from its
/// patterns, and `Tokenizer::add_tokens`, though nothing is added, makes anew what finds
/// the added tokens, with the normalizer that the tokenizer has now. A tokenizer that was
/// read from a file is already like that. The precondition leaves out the patterns and
/// normalizers on which that panics.
#[verifier::external_body]
fn remade(tokenizer: &Tokenizer) -> (r: Tokenizer)
    requires
        is_prepared(*tokenizer),
        has_sound_words(*tokenizer),
    ensures
        is_fresh(r),
        truncation_of(r) == truncation_of(*tokenizer),
        has_parts_of(r, *tokenizer),
        answers_like(r, *tokenizer),
{
    let mut fresh = tokenizer.clone();
    let _ = fresh.add_tokens(&[]);
    fresh
}

/// `Tokenizer::get_truncation_mut` gives access to the truncation, whose stride is set.
/// The stride says by how many tokens the parts that are cut off overlap, and these are
/// kept apart from the answer, so the answers stay the same.
#[verifier::external_body]
fn with_stride(tokenizer: Tokenizer, stride: usize) -> (r: Tokenizer)
    ensures
        truncation_of(r) == (match truncation_of(tokenizer) {
            Some(t) => Some(Truncation { max: t.max, stride }),
            None => None,
        }),
        is_fresh(r) == is_fresh(tokenizer),
        has_parts_of(r, tokenizer),
        answers_like(r, tokenizer),
{
    let mut tokenizer = tokenizer;
    let _ = tokenizer.get_truncation_mut().map(|t| t.stride = stride);
    tokenizer
}

/// How many tokens of its own the tokenizer adds to so many texts.
pub open spec fn special_tokens_of(tokenizer: Tokenizer, texts: int) -> usize {
    match post_processor_of(tokenizer) {
        Some(p) => added_tokens_of(p, texts == 2),
        None => 0,
    }
}

/// The post-processor of the tokenizer takes the encodings of so many texts.
pub open spec fn is_processed(tokenizer: Tokenizer, texts: int) -> bool {
    match post_processor_of(tokenizer) {
        Some(p) => leaving(processor_of(p), texts) is Some,
        None => true,
    }
}

/// The normalizer and the pre-tokenizer of the tokenizer take any text.
pub open spec fn is_prepared(tokenizer: Tokenizer) -> bool {
    &&& normalizer_of(tokenizer) matches Some(n) ==> is_sound_step(normalizer_step(n))
    &&& pre_tokenizer_of(tokenizer) matches Some(p) ==> is_sound_step(pre_tokenizer_step(p))
}

/// Something is left of the text of an added token when the normalizer rewrites it. The
/// text itself is never empty.
pub open spec fn is_left(normalizer: Option<NormalizerWrapper>, text: Seq<char>) -> bool {
    match normalizer {
        Some(n) => normalized_by(n, text) matches Some(out) && out.len() > 0,
        None => true,
    }
}

/// No added token takes the white space to its left, or none takes that to its right.
pub open spec fn strips_one_side(strips: Set<(bool, bool)>) -> bool {
    (forall|s: (bool, bool)| #[trigger] strips.contains(s) ==> !s.0) || (forall|s: (bool, bool)|
     #[trigger]
        strips.contains(s) ==> !s.1)
}

/// The added tokens of the tokenizer are found in any text: no two of them take the same
/// white space, and none is found where there is nothing. A token may be looked for in
/// what the normalizer made of a text, so all of them are held to that.
pub open spec fn has_sound_words(tokenizer: Tokenizer) -> bool {
    &&& strips_one_side(strips_of(tokenizer))
    &&& forall|text: Seq<char>| #[trigger]
        added_texts_of(tokenizer).contains(text) ==> is_left(normalizer_of(tokenizer), text)
}

/// So many tokens fit in memory, if there are not too many others: a token takes less
/// than 32 bytes in each array of an encoding.
pub open spec fn is_short(n: Option<usize>) -> bool {
    n matches Some(n) ==> n * 64 <= isize::MAX
}

/// What the tokenizer fills up fits in memory.
pub open spec fn is_filled(tokenizer: Tokenizer) -> bool {
    padding_of(tokenizer) matches Some(p) ==> is_short(p.fixed) && is_short(p.multiple)
}

/// What the tokenizer cuts off leaves room for its own tokens.
pub open spec fn has_room(tokenizer: Tokenizer, texts: int) -> bool {
    match truncation_of(tokenizer) {
        Some(t) => special_tokens_of(tokenizer, texts) <= t.max,
        None => true,
    }
}

/// The tokenizer can be asked for so many texts, one or two, whatever they are, once it is
/// made anew from its parts and the parts that it cuts off do not overlap.
pub open spec fn can_be_asked(tokenizer: Tokenizer, texts: int) -> bool {
    &&& is_prepared(tokenizer)
    &&& has_sound_words(tokenizer)
    &&& is_filled(tokenizer)
    &&& is_processed(tokenizer, texts)
    &&& has_room(tokenizer, texts)
}

/// The parts that the tokenizer cuts off do not overlap.
pub open spec fn has_no_overlap(tokenizer: Tokenizer) -> bool {
    truncation_of(tokenizer) matches Some(t) ==> t.stride == 0
}

/// Whether no added token takes the white space to its left, or none that to its right.
fn one_side_is_stripped(tokenizer: &Tokenizer) -> (r: bool)
    ensures
        r == strips_one_side(strips_of(*tokenizer)),
{
    let all = strips(tokenizer);
    let mut left: bool = false;
    let mut right: bool = false;
    let mut i: usize = 0;
    while i < all.len()
        invariant
            i <= all@.len(),
            left == exists|k: int| 0 <= k < i && (#[trigger] all@[k]).0,
            right == exists|k: int| 0 <= k < i && (#[trigger] all@[k]).1,
        decreases all@.len() - i,
    {
        let (l, r) = all[i];
        assert(all@[i as int] == (l, r));
        left = left || l;
        right = right || r;
        i += 1;
    }
    proof {
        let set = strips_of(*tokenizer);
        assert forall|k: int| 0 <= k < all@.len() implies set.contains(#[trigger] all@[k]) by {}
        if !left {
            assert forall|s: (bool, bool)| #[trigger] set.contains(s) implies !s.0 by {
                let k = choose|k: int| 0 <= k < all@.len() && all@[k] == s;
                assert(!all@[k].0);
            }
        }
        if !right {
            assert forall|s: (bool, bool)| #[trigger] set.contains(s) implies !s.1 by {
                let k = choose|k: int| 0 <= k < all@.len() && all@[k] == s;
                assert(!all@[k].1);
            }
        }
    }
    !(left && right)
}

/// Whether something is left of the text of each added token when the normalizer rewrites
/// it.
fn texts_are_left(tokenizer: &Tokenizer, n: &NormalizerWrapper) -> (r: bool)
    requires
        is_sound_step(normalizer_step(*n)),
    ensures
        r == forall|text: Seq<char>| #[trigger]
            added_texts_of(*tokenizer).contains(text) ==> is_left(Some(*n), text),
{
    let all = added_texts(tokenizer);
    let ghost set = added_texts_of(*tokenizer);
    let mut i: usize = 0;
    while i < all.len()
        invariant
            i <= all@.len(),
            is_sound_step(normalizer_step(*n)),
            set == views(all@).to_set(),
            set == added_texts_of(*tokenizer),
            forall|k: int| 0 <= k < i ==> is_left(Some(*n), #[trigger] views(all@)[k]),
        decreases all@.len() - i,
    {
        let left = match normalized(n, all[i].as_str()) {
            Some(out) => chars_of(out.as_str()).len() > 0,
            None => false,
        };
        assert(views(all@)[i as int] == all@[i as int]@);
        if !left {
            assert(set.contains(views(all@)[i as int]));
            return false;
        }
        i += 1;
    }
    assert forall|text: Seq<char>| #[trigger] set.contains(text) implies is_left(
        Some(*n),
        text,
    ) by {
        let k = choose|k: int| 0 <= k < views(all@).len() && views(all@)[k] == text;
        assert(is_left(Some(*n), views(all@)[k]));
    }
    true
}

/// Whether so many tokens fit in memory.
fn short(n: Option<usize>) -> (r: bool)
    ensures
        r == is_short(n),
{
    match n {
        Some(n) => n <= isize::MAX as usize / 64,
        None => true,
    }
}

/// Makes the tokenizer ready to be asked for `texts` texts, if it can be.
pub fn ready_tokenizer(tokenizer: &Tokenizer, texts: usize) -> (r: Option<Tokenizer>)
    requires
        texts == 1 || texts == 2,
    ensures
        r is Some <==> can_be_asked(*tokenizer, texts as int),
        r matches Some(t) ==> {
            &&& can_be_asked(t, texts as int)
            &&& has_no_overlap(t)
            &&& is_fresh(t)
            &&& answers_like(t, *tokenizer)
        },
{
    if let Some(n) = normalizer(tokenizer) {
        if !normalizer_is_sound(n) || !texts_are_left(tokenizer, n) {
            return None;
        }
    }
    if let Some(p) = pre_tokenizer(tokenizer) {
        if !pre_tokenizer_is_sound(p) {
            return None;
        }
    }
    if !one_side_is_stripped(tokenizer) {
        return None;
    }
    if let Some(p) = padding(tokenizer) {
        if !short(p.fixed) || !short(p.multiple) {
            return None;
        }
    }
    let mut added: usize = 0;
    if let Some(p) = post_processor(tokenizer) {
        if count_leaving(p, texts).is_none() {
            return None;
        }
        added = added_tokens(p, texts == 2);
    }
    if let Some(t) = truncation(tokenizer) {
        if added > t.max {
            return None;
        }
    }
    Some(with_stride(remade(tokenizer), 0))
}

/// A step that has no parts takes any text; one that searches, or puts a text in front,
/// where what it searches for or puts there is not empty; one that splits, where it does so
/// after at least one character; and a chain where each of its members does.
pub proof fn law_steps_take_any_text_by_their_kind(text: Seq<char>, n: usize, members: Seq<Step>)
    ensures
        is_sound_step(Step::Plain),
        is_sound_step(Step::Search(PatternView::Literal(text))) <==> text.len() > 0,
        is_sound_step(Step::Prefix(text)) <==> text.len() > 0,
        is_sound_step(Step::Every(n)) <==> n > 0,
        is_sound_step(Step::Table(text)) <==> is_sound_charsmap(text),
        is_sound_step(Step::Chain(members)) <==> forall|i: int|
            0 <= i < members.len() ==> is_sound_step(#[trigger] members[i]),
    decreases members.len(),
{
    if members.len() > 0 {
        let rest = members.subrange(1, members.len() as int);
        law_steps_take_any_text_by_their_kind(text, n, rest);
        assert(are_sound_steps(members) <==> is_sound_step(members[0]) && are_sound_steps(rest));
        assert(is_sound_step(Step::Chain(rest)) == are_sound_steps(rest));
        if forall|i: int| 0 <= i < members.len() ==> is_sound_step(#[trigger] members[i]) {
            assert forall|i: int| 0 <= i < rest.len() implies is_sound_step(#[trigger] rest[i]) by {
                assert(rest[i] == members[i + 1]);
            }
        }
        if is_sound_step(members[0]) && are_sound_steps(rest) {
            assert forall|i: int| 0 <= i < members.len() implies is_sound_step(
                #[trigger] members[i],
            ) by {
                if i > 0 {
                    assert(is_sound_step(rest[i - 1]));
                }
            }
        }
    }
}

/// A chain of post-processors hands on what leaves each of them: a chain of two chains gives
/// what the second gives for what leaves the first, and nothing where one of them takes
/// nothing.
pub proof fn law_chains_hand_on_what_leaves(a: Seq<Processor>, b: Seq<Processor>, n: int)
    ensures
        leaving(Processor::Keeps, n) == Some(n),
        leaving(Processor::Chain(Seq::<Processor>::empty()), n) == Some(n),
        leaving(Processor::Chain(a + b), n) == (match leaving(Processor::Chain(a), n) {
            Some(m) => leaving(Processor::Chain(b), m),
            None => None,
        }),
    decreases a.len(),
{
    if a.len() == 0 {
        assert(a + b =~= b);
    } else {
        let rest = a.subrange(1, a.len() as int);
        assert((a + b).subrange(1, (a + b).len() as int) =~= rest + b);
        match leaving(a[0], n) {
            Some(m) => {
                law_chains_hand_on_what_leaves(rest, b, m);
            },
            None => {},
        }
    }
}

/// A template is used for one text or for two, and gives an encoding for each of its pieces.
/// It takes them exactly where it has a text for each piece that stands for one, and each
/// special token that it names is defined.
pub proof fn law_templates_are_filled_in(single: Template, pair: Template, tokens: Tokens, n: int)
    ensures
        n != 1 && n != 2 ==> leaving(Processor::Fills { single, pair, tokens }, n) is None,
        leaving(Processor::Fills { single, pair, tokens }, 1) is Some <==> forall|i: int|
            0 <= i < pieces_of(single).len() ==> match #[trigger] pieces_of(single)[i] {
                PieceView::First => true,
                PieceView::Second => false,
                PieceView::Special(id) => defines(tokens, id),
            },
        leaving(Processor::Fills { single, pair, tokens }, 2) is Some <==> forall|i: int|
            0 <= i < pieces_of(pair).len() ==> match #[trigger] pieces_of(pair)[i] {
                PieceView::First => true,
                PieceView::Second => true,
                PieceView::Special(id) => defines(tokens, id),
            },
        leaving(Processor::Fills { single, pair, tokens }, 1) matches Some(m) ==> m == pieces_of(
            single,
        ).len(),
        leaving(Processor::Fills { single, pair, tokens }, 2) matches Some(m) ==> m == pieces_of(
            pair,
        ).len(),
{
    if fills(single, tokens, 1) {
        assert forall|i: int| 0 <= i < pieces_of(single).len() implies match #[trigger] pieces_of(
            single,
        )[i] {
            PieceView::First => true,
            PieceView::Second => false,
            PieceView::Special(id) => defines(tokens, id),
        } by {
            assert(can_fill(pieces_of(single)[i], tokens, 1));
        }
    }
    if fills(pair, tokens, 2) {
        assert forall|i: int| 0 <= i < pieces_of(pair).len() implies match #[trigger] pieces_of(
            pair,
        )[i] {
            PieceView::First => true,
            PieceView::Second => true,
            PieceView::Special(id) => defines(tokens, id),
        } by {
            assert(can_fill(pieces_of(pair)[i], tokens, 2));
        }
    }
}

/// A tokenizer is refused for one of six reasons only: its normalizer, its pre-tokenizer, its
/// added tokens, its padding, its post-processor or its truncation.
pub proof fn law_tokenizers_are_refused_for_a_reason(tokenizer: Tokenizer, texts: int)
    ensures
        can_be_asked(tokenizer, texts) <==> {
            &&& normalizer_of(tokenizer) matches Some(n) ==> is_sound_step(normalizer_step(n))
            &&& pre_tokenizer_of(tokenizer) matches Some(p) ==> is_sound_step(pre_tokenizer_step(p))
            &&& !strips_of(tokenizer).contains((true, true)) && !(strips_of(tokenizer).contains(
                (true, false),
            ) && strips_of(tokenizer).contains((false, true)))
            &&& normalizer_of(tokenizer) matches Some(n) ==> forall|text: Seq<char>| #[trigger]
                added_texts_of(tokenizer).contains(text) ==> (normalized_by(n, text) matches Some(
                    out,
                ) && out.len() > 0)
            &&& padding_of(tokenizer) matches Some(p) ==> (p.fixed matches Some(n) ==> n * 64
                <= isize::MAX) && (p.multiple matches Some(n) ==> n * 64 <= isize::MAX)
            &&& post_processor_of(tokenizer) matches Some(p) ==> leaving(
                processor_of(p),
                texts,
            ) is Some
            &&& truncation_of(tokenizer) matches Some(t) ==> t.max >= (match post_processor_of(
                tokenizer,
            ) {
                Some(p) => added_tokens_of(p, texts == 2) as int,
                None => 0,
            })
        },
{
    let strips = strips_of(tokenizer);
    if !strips.contains((true, true)) && !(strips.contains((true, false)) && strips.contains(
        (false, true),
    )) {
        if strips.contains((true, false)) {
            assert forall|s: (bool, bool)| #[trigger] strips.contains(s) implies !s.1 by {
                assert(s == (s.0, s.1));
            }
        } else {
            assert forall|s: (bool, bool)| #[trigger] strips.contains(s) implies !s.0 by {
                assert(s == (s.0, s.1));
            }
        }
    }
}

} // verus!
