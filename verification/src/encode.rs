//! From texts to the token arrays that the models take.
use crate::records::prefixed;
use crate::tokenizer::{drops_merges, ready_tokenizer};
use tokenizers::Tokenizer;
use vstd::prelude::*;
use vstd::string::*;

verus! {

use crate::text::views;
use crate::tokenizer::{
    answers_like, can_be_asked, drops_merges_of, has_no_overlap, is_fresh, may_encode,
};

/// Tokens of a passage or a query that the embedder reads.
pub const BI_MAX_LEN: usize = 128;

/// Tokens of a query and a passage that the reranker reads.
pub const RERANKER_MAX_LEN: usize = 512;

/// What a tokenizer makes of a text: a token id, an attention flag and a segment for
/// each token.
pub struct Encoded {
    pub ids: Vec<u32>,
    pub mask: Vec<u32>,
    pub types: Vec<u32>,
}

/// What an [`Encoded`] holds.
pub struct EncodedView {
    pub ids: Seq<u32>,
    pub mask: Seq<u32>,
    pub types: Seq<u32>,
}

impl View for Encoded {
    type V = EncodedView;

    open spec fn view(&self) -> EncodedView {
        EncodedView { ids: self.ids@, mask: self.mask@, types: self.types@ }
    }
}

/// The three arrays have an element for each token.
pub open spec fn is_aligned(e: EncodedView) -> bool {
    e.mask.len() == e.ids.len() && e.types.len() == e.ids.len()
}

pub open spec fn pair_view(pair: Option<&str>) -> Option<Seq<char>> {
    match pair {
        Some(p) => Some(p@),
        None => None,
    }
}

pub open spec fn outcome_view(outcome: Result<Encoded, String>) -> Result<
    (Seq<u32>, Seq<u32>, Seq<u32>),
    Seq<char>,
> {
    match outcome {
        Ok(e) => Ok((e.ids@, e.mask@, e.types@)),
        Err(message) => Err(message@),
    }
}

/// `Tokenizer::encode`, with the tokenizer's own tokens added, answers with some encoding
/// of the text or the pair of texts, whose three arrays are equally long, or with an
/// error. Where the model drops no merges at random, that is its only answer.
///
/// The precondition leaves out the tokenizers on which it panics: those whose normalizer
/// or pre-tokenizer does not take any text, as by a pattern that goes back over a text;
/// whose added tokens are not found in any text; which fill up to more than fits in
/// memory; whose post-processor does not take the encodings; whose truncation leaves no
/// room for their own tokens; which have the parts that they cut off overlap; or which
/// search with something other than what their parts say.
#[verifier::external_body]
fn encode(tokenizer: &Tokenizer, text: &str, pair: Option<&str>) -> (r: Result<Encoded, String>)
    requires
        can_be_asked(
            *tokenizer,
            if pair is Some {
                2
            } else {
                1
            },
        ),
        has_no_overlap(*tokenizer),
        is_fresh(*tokenizer),
    ensures
        may_encode(*tokenizer, text@, pair_view(pair), outcome_view(r)),
        !drops_merges_of(*tokenizer) ==> forall|
            outcome: Result<(Seq<u32>, Seq<u32>, Seq<u32>), Seq<char>>,
        | #[trigger]
            may_encode(*tokenizer, text@, pair_view(pair), outcome) ==> outcome == outcome_view(r),
        r matches Ok(e) ==> is_aligned(e@),
{
    let input: tokenizers::EncodeInput = match pair {
        Some(second) => (text, second).into(),
        None => text.into(),
    };
    match tokenizer.encode(input, true) {
        Ok(e) => Ok(Encoded {
            ids: e.get_ids().to_vec(),
            mask: e.get_attention_mask().to_vec(),
            types: e.get_type_ids().to_vec(),
        }),
        Err(e) => Err(e.to_string()),
    }
}

/// A row of a model's input: the first `max_len` values, and zeros behind them.
pub open spec fn padded(values: Seq<u32>, max_len: nat) -> Seq<i64> {
    Seq::new(
        max_len,
        |i: int|
            if i < values.len() {
                values[i] as i64
            } else {
                0
            },
    )
}

/// How many tokens of an encoding a row has room for.
pub open spec fn row_len(e: EncodedView, max_len: nat) -> nat {
    if e.ids.len() <= max_len {
        e.ids.len()
    } else {
        max_len
    }
}

/// `rows` rows of `max_len` values fit in memory.
pub open spec fn fits(rows: nat, max_len: nat) -> bool {
    rows * max_len * 8 <= isize::MAX
}

/// The inputs of the embedder for a batch of texts: for each text a row of token ids and
/// a row of attention flags, and how many tokens of it the rows hold.
pub struct BatchInputs {
    pub ids: Vec<i64>,
    pub mask: Vec<i64>,
    pub lengths: Vec<usize>,
}

/// The inputs of the reranker for one pair of texts.
pub struct RerankInputs {
    pub ids: Vec<i64>,
    pub mask: Vec<i64>,
    pub types: Vec<i64>,
}

/// The views of a vector of encodings.
pub open spec fn encoded_views(v: Seq<Encoded>) -> Seq<EncodedView> {
    v.map_values(|e: Encoded| e@)
}

/// `b` holds the rows of the encodings `encs`, in their order.
pub open spec fn is_batch_of(b: BatchInputs, encs: Seq<EncodedView>, max_len: nat) -> bool {
    &&& b.ids@ == encs.flat_map(|e: EncodedView| padded(e.ids, max_len))
    &&& b.mask@ == encs.flat_map(|e: EncodedView| padded(e.mask, max_len))
    &&& b.lengths@.len() == encs.len()
    &&& forall|k: int|
        0 <= k < encs.len() ==> #[trigger] b.lengths@[k] == row_len(encs[k], max_len)
}

/// `r` holds the rows of the encoding `e`.
pub open spec fn is_rerank_row_of(r: RerankInputs, e: EncodedView, max_len: nat) -> bool {
    &&& r.ids@ == padded(e.ids, max_len)
    &&& r.mask@ == padded(e.mask, max_len)
    &&& r.types@ == padded(e.types, max_len)
}

/// Appends a row of `max_len` values to `out`.
fn push_row(out: &mut Vec<i64>, values: &Vec<u32>, max_len: usize)
    ensures
        final(out)@ == old(out)@ + padded(values@, max_len as nat),
{
    let mut i: usize = 0;
    proof {
        assert(out@ =~= old(out)@ + padded(values@, max_len as nat).take(0));
    }
    while i < max_len
        invariant
            i <= max_len,
            out@ == old(out)@ + padded(values@, max_len as nat).take(i as int),
        decreases max_len - i,
    {
        let value: i64 = if i < values.len() {
            values[i] as i64
        } else {
            0
        };
        out.push(value);
        i += 1;
        proof {
            assert(out@ =~= old(out)@ + padded(values@, max_len as nat).take(i as int));
        }
    }
    proof {
        assert(padded(values@, max_len as nat).take(max_len as int) =~= padded(
            values@,
            max_len as nat,
        ));
    }
}

/// The rows of a batch of encodings.
pub fn pad_batch(encodings: &Vec<Encoded>, max_len: usize) -> (r: BatchInputs)
    requires
        fits(encodings@.len(), max_len as nat),
    ensures
        is_batch_of(r, encoded_views(encodings@), max_len as nat),
{
    let ghost encs = encoded_views(encodings@);
    let ghost f = |e: EncodedView| padded(e.ids, max_len as nat);
    let ghost g = |e: EncodedView| padded(e.mask, max_len as nat);
    let mut ids: Vec<i64> = Vec::new();
    let mut mask: Vec<i64> = Vec::new();
    let mut lengths: Vec<usize> = Vec::new();
    let mut b: usize = 0;
    proof {
        assert(encs.take(0).map_values(f) =~= seq![]);
        assert(encs.take(0).map_values(g) =~= seq![]);
        assert(ids@ =~= encs.take(0).flat_map(f));
        assert(mask@ =~= encs.take(0).flat_map(g));
    }
    while b < encodings.len()
        invariant
            encs == encoded_views(encodings@),
            f == (|e: EncodedView| padded(e.ids, max_len as nat)),
            g == (|e: EncodedView| padded(e.mask, max_len as nat)),
            b <= encodings@.len(),
            ids@ == encs.take(b as int).flat_map(f),
            mask@ == encs.take(b as int).flat_map(g),
            lengths@.len() == b,
            forall|k: int|
                0 <= k < b ==> #[trigger] lengths@[k] == row_len(encs[k], max_len as nat),
        decreases encodings@.len() - b,
    {
        proof {
            assert(encs[b as int] == encodings@[b as int]@);
            encs.lemma_flat_map_take_append(f, b as int);
            encs.lemma_flat_map_take_append(g, b as int);
        }
        push_row(&mut ids, &encodings[b].ids, max_len);
        push_row(&mut mask, &encodings[b].mask, max_len);
        let len: usize = encodings[b].ids.len();
        lengths.push(if len <= max_len { len } else { max_len });
        b += 1;
    }
    proof {
        assert(encs.take(b as int) =~= encs);
    }
    BatchInputs { ids, mask, lengths }
}

/// The rows of one encoding of a pair of texts.
pub fn pad_pair(encoding: &Encoded, max_len: usize) -> (r: RerankInputs)
    requires
        fits(1, max_len as nat),
    ensures
        is_rerank_row_of(r, encoding@, max_len as nat),
{
    let mut ids: Vec<i64> = Vec::new();
    let mut mask: Vec<i64> = Vec::new();
    let mut types: Vec<i64> = Vec::new();
    push_row(&mut ids, &encoding.ids, max_len);
    push_row(&mut mask, &encoding.mask, max_len);
    push_row(&mut types, &encoding.types, max_len);
    proof {
        assert(ids@ =~= padded(encoding.ids@, max_len as nat));
        assert(mask@ =~= padded(encoding.mask@, max_len as nat));
        assert(types@ =~= padded(encoding.types@, max_len as nat));
    }
    RerankInputs { ids, mask, types }
}

/// The message of a failed encoding, behind a word on what failed.
fn failure(what: &str, message: &str) -> (r: String)
    ensures
        r@ == what@ + message@,
{
    let mut out = what.to_owned();
    out.append(message);
    out
}

/// What comes of a tokenizer's answer on a text that is embedded: the encoding, or a
/// report of the error.
pub fn text_encoding(outcome: Result<Encoded, String>) -> (r: Result<Encoded, String>)
    ensures
        match outcome {
            Ok(e) => r == Ok::<Encoded, String>(e),
            Err(message) => r matches Err(report) && report@ == "Tokenization failed: "@ + message@,
        },
{
    match outcome {
        Ok(e) => Ok(e),
        Err(message) => Err(failure("Tokenization failed: ", message.as_str())),
    }
}

/// What comes of a tokenizer's answer on a query and a passage: the rows of the encoding,
/// or a report of the error.
pub fn rerank_rows(outcome: Result<Encoded, String>, max_len: usize) -> (r: Result<
    RerankInputs,
    String,
>)
    requires
        fits(1, max_len as nat),
    ensures
        match outcome {
            Ok(e) => r matches Ok(rows) && is_rerank_row_of(rows, e@, max_len as nat),
            Err(message) => r matches Err(report) && report@ == "Reranker tokenization failed: "@
                + message@,
        },
{
    match outcome {
        Ok(e) => Ok(pad_pair(&e, max_len)),
        Err(message) => Err(failure("Reranker tokenization failed: ", message.as_str())),
    }
}

/// The answer of the tokenizer on `text` and `pair` is the encoding `e`.
pub open spec fn encodes_to(
    tokenizer: Tokenizer,
    text: Seq<char>,
    pair: Option<Seq<char>>,
    e: EncodedView,
) -> bool {
    &&& may_encode(tokenizer, text, pair, Ok((e.ids, e.mask, e.types)))
    &&& is_aligned(e)
}

/// The answer of the tokenizer on `text` and `pair` is an error, which is reported with
/// the message `report`.
pub open spec fn fails_with(
    tokenizer: Tokenizer,
    text: Seq<char>,
    pair: Option<Seq<char>>,
    what: Seq<char>,
    report: Seq<char>,
) -> bool {
    exists|message: Seq<char>|
        #[trigger] may_encode(tokenizer, text, pair, Err(message)) && report == what + message
}

/// `encs` are answers of the tokenizer on `texts`, one for each.
pub open spec fn encode_to(
    tokenizer: Tokenizer,
    texts: Seq<Seq<char>>,
    encs: Seq<EncodedView>,
) -> bool {
    &&& encs.len() == texts.len()
    &&& forall|k: int|
        0 <= k < texts.len() ==> encodes_to(tokenizer, #[trigger] texts[k], None, encs[k])
}

/// The tokenizer answers on the first `k` texts with encodings, and on the next one with
/// an error, which is reported with the message `report`.
pub open spec fn fails_at(
    tokenizer: Tokenizer,
    texts: Seq<Seq<char>>,
    k: int,
    report: Seq<char>,
) -> bool {
    &&& 0 <= k < texts.len()
    &&& exists|encs: Seq<EncodedView>| encode_to(tokenizer, texts.take(k), encs)
    &&& fails_with(tokenizer, texts[k], None, "Tokenization failed: "@, report)
}

/// The tokenizer answers on some text with an error, and on all before it with encodings.
pub open spec fn some_fails(
    tokenizer: Tokenizer,
    texts: Seq<Seq<char>>,
    report: Seq<char>,
) -> bool {
    exists|k: int| #[trigger] fails_at(tokenizer, texts, k, report)
}

/// `r` answers for a batch of texts: the rows of their encodings, or the error of the
/// first text that has none.
pub open spec fn is_batch_answer(
    tokenizer: Tokenizer,
    texts: Seq<Seq<char>>,
    max_len: nat,
    r: Result<BatchInputs, String>,
) -> bool {
    match r {
        Ok(b) => exists|encs: Seq<EncodedView>| #[trigger]
            encode_to(tokenizer, texts, encs) && is_batch_of(b, encs, max_len),
        Err(report) => some_fails(tokenizer, texts, report@),
    }
}

/// `r` answers for one text: the rows of its encoding, or its error.
pub open spec fn is_single_answer(
    tokenizer: Tokenizer,
    text: Seq<char>,
    max_len: nat,
    r: Result<BatchInputs, String>,
) -> bool {
    match r {
        Ok(b) => exists|e: EncodedView| #[trigger]
            encodes_to(tokenizer, text, None, e) && is_batch_of(b, seq![e], max_len),
        Err(report) => fails_with(tokenizer, text, None, "Tokenization failed: "@, report@),
    }
}

/// `r` answers for a query and a passage: the rows of their encoding, or its error.
pub open spec fn is_rerank_answer(
    tokenizer: Tokenizer,
    query: Seq<char>,
    passage: Seq<char>,
    max_len: nat,
    r: Result<RerankInputs, String>,
) -> bool {
    match r {
        Ok(rows) => exists|e: EncodedView| #[trigger]
            encodes_to(tokenizer, query, Some(passage), e) && is_rerank_row_of(rows, e, max_len),
        Err(report) => fails_with(
            tokenizer,
            query,
            Some(passage),
            "Reranker tokenization failed: "@,
            report@,
        ),
    }
}

/// The tokenizer has one answer on `text` and `pair`.
pub open spec fn has_one_answer(
    tokenizer: Tokenizer,
    text: Seq<char>,
    pair: Option<Seq<char>>,
) -> bool {
    forall|
        x: Result<(Seq<u32>, Seq<u32>, Seq<u32>), Seq<char>>,
        y: Result<(Seq<u32>, Seq<u32>, Seq<u32>), Seq<char>>,
    |
        #![trigger may_encode(tokenizer, text, pair, x), may_encode(tokenizer, text, pair, y)]
        may_encode(tokenizer, text, pair, x) && may_encode(tokenizer, text, pair, y) ==> x == y
}

/// The two are the same rows, or the same report.
pub open spec fn is_same_answer(
    x: Result<BatchInputs, String>,
    y: Result<BatchInputs, String>,
) -> bool {
    match (x, y) {
        (Ok(a), Ok(b)) => a.ids@ == b.ids@ && a.mask@ == b.mask@ && a.lengths@ == b.lengths@,
        (Err(a), Err(b)) => a@ == b@,
        _ => false,
    }
}

/// Whatever answers for the batch of texts is `r`.
pub open spec fn is_only_batch_answer(
    tokenizer: Tokenizer,
    texts: Seq<Seq<char>>,
    max_len: nat,
    r: Result<BatchInputs, String>,
) -> bool {
    forall|other: Result<BatchInputs, String>| #[trigger]
        is_batch_answer(tokenizer, texts, max_len, other) ==> is_same_answer(other, r)
}

/// Whatever answers for the text is `r`.
pub open spec fn is_only_single_answer(
    tokenizer: Tokenizer,
    text: Seq<char>,
    max_len: nat,
    r: Result<BatchInputs, String>,
) -> bool {
    forall|other: Result<BatchInputs, String>| #[trigger]
        is_single_answer(tokenizer, text, max_len, other) ==> is_same_answer(other, r)
}

/// The two are the same rows for the reranker, or the same report.
pub open spec fn is_same_rerank_answer(
    x: Result<RerankInputs, String>,
    y: Result<RerankInputs, String>,
) -> bool {
    match (x, y) {
        (Ok(a), Ok(b)) => a.ids@ == b.ids@ && a.mask@ == b.mask@ && a.types@ == b.types@,
        (Err(a), Err(b)) => a@ == b@,
        _ => false,
    }
}

/// Whatever answers for the query and the passage is `r`.
pub open spec fn is_only_rerank_answer(
    tokenizer: Tokenizer,
    query: Seq<char>,
    passage: Seq<char>,
    max_len: nat,
    r: Result<RerankInputs, String>,
) -> bool {
    forall|other: Result<RerankInputs, String>| #[trigger]
        is_rerank_answer(tokenizer, query, passage, max_len, other) ==> is_same_rerank_answer(
            other,
            r,
        )
}

/// The tokenizer has one answer on each of the texts.
pub open spec fn have_one_answer(tokenizer: Tokenizer, texts: Seq<Seq<char>>) -> bool {
    forall|k: int| 0 <= k < texts.len() ==> has_one_answer(tokenizer, #[trigger] texts[k], None)
}

proof fn lemma_encodings_are_unique(
    tokenizer: Tokenizer,
    texts: Seq<Seq<char>>,
    d: Seq<EncodedView>,
    e: Seq<EncodedView>,
)
    requires
        have_one_answer(tokenizer, texts),
        encode_to(tokenizer, texts, d),
        encode_to(tokenizer, texts, e),
    ensures
        d == e,
{
    assert forall|k: int| 0 <= k < texts.len() implies d[k] == e[k] by {
        assert(has_one_answer(tokenizer, texts[k], None));
        assert(encodes_to(tokenizer, texts[k], None, d[k]));
        assert(encodes_to(tokenizer, texts[k], None, e[k]));
    }
    assert(d =~= e);
}

/// Rows of encodings of texts that have one answer each are the only answer.
proof fn lemma_rows_are_unique(
    tokenizer: Tokenizer,
    texts: Seq<Seq<char>>,
    encs: Seq<EncodedView>,
    max_len: nat,
    b: BatchInputs,
)
    requires
        have_one_answer(tokenizer, texts),
        encode_to(tokenizer, texts, encs),
        is_batch_of(b, encs, max_len),
    ensures
        is_only_batch_answer(tokenizer, texts, max_len, Ok(b)),
{
    assert forall|other: Result<BatchInputs, String>| #[trigger]
        is_batch_answer(tokenizer, texts, max_len, other) implies is_same_answer(
        other,
        Ok(b),
    ) by {
        match other {
            Ok(a) => {
                let d = choose|d: Seq<EncodedView>| #[trigger]
                    encode_to(tokenizer, texts, d) && is_batch_of(a, d, max_len);
                lemma_encodings_are_unique(tokenizer, texts, d, encs);
                assert(a.lengths@ =~= b.lengths@);
            },
            Err(report) => {
                let k = choose|k: int| #[trigger] fails_at(tokenizer, texts, k, report@);
                assert(has_one_answer(tokenizer, texts[k], None));
                assert(encodes_to(tokenizer, texts[k], None, encs[k]));
            },
        }
    }
}

/// The error of a text is the only answer, if the text and those before it have one
/// answer each.
proof fn lemma_report_is_unique(
    tokenizer: Tokenizer,
    texts: Seq<Seq<char>>,
    k: int,
    max_len: nat,
    report: String,
)
    requires
        fails_at(tokenizer, texts, k, report@),
        have_one_answer(tokenizer, texts.take(k + 1)),
    ensures
        is_only_batch_answer(tokenizer, texts, max_len, Err(report)),
{
    let before = choose|encs: Seq<EncodedView>| encode_to(tokenizer, texts.take(k), encs);
    assert forall|j: int| 0 <= j <= k implies has_one_answer(
        tokenizer,
        #[trigger] texts[j],
        None,
    ) by {
        assert(texts.take(k + 1)[j] == texts[j]);
    }
    assert forall|other: Result<BatchInputs, String>| #[trigger]
        is_batch_answer(tokenizer, texts, max_len, other) implies is_same_answer(
        other,
        Err(report),
    ) by {
        match other {
            Ok(a) => {
                let d = choose|d: Seq<EncodedView>| #[trigger]
                    encode_to(tokenizer, texts, d) && is_batch_of(a, d, max_len);
                assert(encodes_to(tokenizer, texts[k], None, d[k]));
            },
            Err(o) => {
                let j = choose|j: int| #[trigger] fails_at(tokenizer, texts, j, o@);
                let d = choose|encs: Seq<EncodedView>|
                    encode_to(tokenizer, texts.take(j), encs);
                if j < k {
                    assert(texts.take(k)[j] == texts[j]);
                    assert(encodes_to(tokenizer, texts[j], None, before[j]));
                } else if k < j {
                    assert(texts.take(j)[k] == texts[k]);
                    assert(encodes_to(tokenizer, texts[k], None, d[k]));
                } else {
                    assert(o@ == report@);
                }
            },
        }
    }
}

/// A tokenizer for the texts that are embedded.
pub struct TextEncoder {
    asked: Tokenizer,
    given: Ghost<Tokenizer>,
}

impl TextEncoder {
    /// The tokenizer whose answers the encoder gives.
    pub closed spec fn tokenizer(&self) -> Tokenizer {
        self.given@
    }

    #[verifier::type_invariant]
    spec fn takes_any_text(self) -> bool {
        &&& can_be_asked(self.asked, 1)
        &&& has_no_overlap(self.asked)
        &&& is_fresh(self.asked)
        &&& answers_like(self.asked, self.given@)
    }

    /// An encoder that asks `tokenizer`, if it can be asked for a text.
    pub fn new(tokenizer: Tokenizer) -> (r: Option<Self>)
        ensures
            r is Some <==> can_be_asked(tokenizer, 1),
            r matches Some(e) ==> e.tokenizer() == tokenizer,
    {
        let ghost given = tokenizer;
        match ready_tokenizer(&tokenizer, 1) {
            Some(asked) => Some(TextEncoder { asked, given: Ghost(given) }),
            None => None,
        }
    }

    /// Whether the encoder may answer in more than one way, as its model drops merges at
    /// random.
    pub fn drops_merges(&self) -> (r: bool)
        ensures
            r == drops_merges_of(self.tokenizer()),
    {
        proof {
            use_type_invariant(self);
        }
        drops_merges(&self.asked)
    }

    /// The inputs of the embedder for `texts`: the rows of their encodings, or the error
    /// of the first text that has none. Unless merges are dropped at random there is no
    /// other answer.
    pub fn batch_inputs(&self, texts: &Vec<String>, max_len: usize) -> (r: Result<
        BatchInputs,
        String,
    >)
        requires
            fits(texts@.len(), max_len as nat),
        ensures
            texts@.len() == 0 ==> r is Ok,
            is_batch_answer(self.tokenizer(), views(texts@), max_len as nat, r),
            !drops_merges_of(self.tokenizer()) ==> is_only_batch_answer(
                self.tokenizer(),
                views(texts@),
                max_len as nat,
                r,
            ),
    {
        let ghost one = !drops_merges_of(self.tokenizer());
        let ghost all = views(texts@);
        let mut encodings: Vec<Encoded> = Vec::new();
        let mut i: usize = 0;
        proof {
            assert(encode_to(self.tokenizer(), all.take(0), encoded_views(encodings@)));
        }
        while i < texts.len()
            invariant
                i <= texts@.len(),
                all == views(texts@),
                encodings@.len() == i,
                encode_to(self.tokenizer(), all.take(i as int), encoded_views(encodings@)),
                one == !drops_merges_of(self.tokenizer()),
                one ==> have_one_answer(self.tokenizer(), all.take(i as int)),
            decreases texts@.len() - i,
        {
            proof {
                use_type_invariant(self);
                assert(all[i as int] == texts@[i as int]@);
            }
            let ghost before = encoded_views(encodings@);
            let outcome = encode(&self.asked, texts[i].as_str(), None);
            let ghost answer = outcome_view(outcome);
            proof {
                assert(may_encode(self.asked, all[i as int], None, answer));
                assert(may_encode(self.tokenizer(), all[i as int], None, answer));
                if one {
                    assert(has_one_answer(self.tokenizer(), all[i as int], None));
                    assert(all.take(i + 1) =~= all.take(i as int).push(all[i as int]));
                    assert(have_one_answer(self.tokenizer(), all.take(i + 1)));
                }
            }
            match text_encoding(outcome) {
                Ok(e) => {
                    encodings.push(e);
                    proof {
                        let encs = encoded_views(encodings@);
                        assert(encs =~= before.push(e@));
                        assert forall|k: int| 0 <= k < i + 1 implies encodes_to(
                            self.tokenizer(),
                            #[trigger] all.take(i + 1)[k],
                            None,
                            encs[k],
                        ) by {
                            if k < i {
                                assert(all.take(i as int)[k] == all.take(i + 1)[k]);
                            }
                        }
                    }
                },
                Err(report) => {
                    proof {
                        assert(answer is Err);
                        assert(fails_with(
                            self.tokenizer(),
                            all[i as int],
                            None,
                            "Tokenization failed: "@,
                            report@,
                        ));
                        assert(fails_at(self.tokenizer(), all, i as int, report@));
                        assert(some_fails(self.tokenizer(), views(texts@), report@));
                        if one {
                            lemma_report_is_unique(
                                self.tokenizer(),
                                all,
                                i as int,
                                max_len as nat,
                                report,
                            );
                        }
                    }
                    return Err(report);
                },
            }
            i += 1;
        }
        let b = pad_batch(&encodings, max_len);
        proof {
            assert(all.take(i as int) =~= all);
            if one {
                lemma_rows_are_unique(
                    self.tokenizer(),
                    all,
                    encoded_views(encodings@),
                    max_len as nat,
                    b,
                );
            }
        }
        Ok(b)
    }

    /// The inputs of the embedder for one text, labelled with `prefix`: a batch of one.
    /// Unless merges are dropped at random there is no other answer.
    pub fn single_inputs(&self, text: &str, prefix: &str, max_len: usize) -> (r: Result<
        BatchInputs,
        String,
    >)
        requires
            fits(1, max_len as nat),
        ensures
            is_single_answer(self.tokenizer(), prefix@ + ": "@ + text@, max_len as nat, r),
            !drops_merges_of(self.tokenizer()) ==> is_only_single_answer(
                self.tokenizer(),
                prefix@ + ": "@ + text@,
                max_len as nat,
                r,
            ),
    {
        let mut texts: Vec<String> = Vec::new();
        texts.push(prefixed(prefix, text));
        let r = self.batch_inputs(&texts, max_len);
        proof {
            let asked = prefix@ + ": "@ + text@;
            assert(views(texts@) =~= seq![asked]);
            law_single_answers_are_batch_answers(self.tokenizer(), asked, max_len as nat, r);
            assert forall|other: Result<BatchInputs, String>| #[trigger]
                is_single_answer(self.tokenizer(), asked, max_len as nat, other)
                    && !drops_merges_of(self.tokenizer()) implies is_same_answer(other, r) by {
                law_single_answers_are_batch_answers(
                    self.tokenizer(),
                    asked,
                    max_len as nat,
                    other,
                );
            }
        }
        r
    }
}

/// A tokenizer for the pairs of texts that are reranked.
pub struct PairEncoder {
    asked: Tokenizer,
    given: Ghost<Tokenizer>,
}

impl PairEncoder {
    /// The tokenizer whose answers the encoder gives.
    pub closed spec fn tokenizer(&self) -> Tokenizer {
        self.given@
    }

    #[verifier::type_invariant]
    spec fn takes_any_pair(self) -> bool {
        &&& can_be_asked(self.asked, 2)
        &&& has_no_overlap(self.asked)
        &&& is_fresh(self.asked)
        &&& answers_like(self.asked, self.given@)
    }

    /// An encoder that asks `tokenizer`, if it can be asked for a pair of texts.
    pub fn new(tokenizer: Tokenizer) -> (r: Option<Self>)
        ensures
            r is Some <==> can_be_asked(tokenizer, 2),
            r matches Some(e) ==> e.tokenizer() == tokenizer,
    {
        let ghost given = tokenizer;
        match ready_tokenizer(&tokenizer, 2) {
            Some(asked) => Some(PairEncoder { asked, given: Ghost(given) }),
            None => None,
        }
    }

    /// Whether the encoder may answer in more than one way, as its model drops merges at
    /// random.
    pub fn drops_merges(&self) -> (r: bool)
        ensures
            r == drops_merges_of(self.tokenizer()),
    {
        proof {
            use_type_invariant(self);
        }
        drops_merges(&self.asked)
    }

    /// The inputs of the reranker for a query and a passage: the rows of their encoding,
    /// or the error where they have none. Unless merges are dropped at random there is no
    /// other answer.
    pub fn rerank_inputs(&self, query: &str, passage: &str, max_len: usize) -> (r: Result<
        RerankInputs,
        String,
    >)
        requires
            fits(1, max_len as nat),
        ensures
            is_rerank_answer(self.tokenizer(), query@, passage@, max_len as nat, r),
            !drops_merges_of(self.tokenizer()) ==> is_only_rerank_answer(
                self.tokenizer(),
                query@,
                passage@,
                max_len as nat,
                r,
            ),
    {
        proof {
            use_type_invariant(self);
        }
        let outcome = encode(&self.asked, query, Some(passage));
        proof {
            let answer = outcome_view(outcome);
            assert(may_encode(self.asked, query@, Some(passage@), answer));
            assert(may_encode(self.tokenizer(), query@, Some(passage@), answer));
            if outcome is Ok {
                assert(encodes_to(
                    self.tokenizer(),
                    query@,
                    Some(passage@),
                    outcome->Ok_0@,
                ));
            }
        }
        let ghost answer = outcome_view(outcome);
        let r = rerank_rows(outcome, max_len);
        proof {
            assert forall|other: Result<RerankInputs, String>| #[trigger]
                is_rerank_answer(self.tokenizer(), query@, passage@, max_len as nat, other)
                    && !drops_merges_of(self.tokenizer()) implies is_same_rerank_answer(
                other,
                r,
            ) by {
                assert(has_one_answer(self.tokenizer(), query@, Some(passage@)));
                match other {
                    Ok(rows) => {
                        let e = choose|e: EncodedView| #[trigger]
                            encodes_to(self.tokenizer(), query@, Some(passage@), e)
                                && is_rerank_row_of(rows, e, max_len as nat);
                        assert(answer == Ok::<
                            (Seq<u32>, Seq<u32>, Seq<u32>),
                            Seq<char>,
                        >((e.ids, e.mask, e.types)));
                    },
                    Err(_) => {},
                }
            }
        }
        r
    }
}

/// A text alone is answered as a batch of that text is.
pub proof fn law_single_answers_are_batch_answers(
    tokenizer: Tokenizer,
    text: Seq<char>,
    max_len: nat,
    r: Result<BatchInputs, String>,
)
    ensures
        is_single_answer(tokenizer, text, max_len, r) <==> is_batch_answer(
            tokenizer,
            seq![text],
            max_len,
            r,
        ),
{
    let all = seq![text];
    match r {
        Ok(b) => {
            if is_single_answer(tokenizer, text, max_len, r) {
                let e = choose|e: EncodedView| #[trigger]
                    encodes_to(tokenizer, text, None, e) && is_batch_of(b, seq![e], max_len);
                assert(encode_to(tokenizer, all, seq![e]));
            }
            if is_batch_answer(tokenizer, all, max_len, r) {
                let encs = choose|encs: Seq<EncodedView>| #[trigger]
                    encode_to(tokenizer, all, encs) && is_batch_of(b, encs, max_len);
                assert(encs =~= seq![encs[0]]);
                assert(encodes_to(tokenizer, all[0], None, encs[0]));
            }
        },
        Err(report) => {
            if is_single_answer(tokenizer, text, max_len, r) {
                assert(encode_to(tokenizer, all.take(0), seq![]));
                assert(fails_at(tokenizer, all, 0, report@));
            }
            if is_batch_answer(tokenizer, all, max_len, r) {
                let k = choose|k: int| #[trigger] fails_at(tokenizer, all, k, report@);
                assert(all[k] == text);
            }
        },
    }
}

/// Unless merges are dropped at random, so that a batch of one text has a single answer,
/// the model reads the same for the text alone and for the batch, or the same error is
/// reported.
pub proof fn law_single_and_batch_agree(
    tokenizer: Tokenizer,
    text: Seq<char>,
    max_len: nat,
    single: Result<BatchInputs, String>,
    batch: Result<BatchInputs, String>,
)
    requires
        is_single_answer(tokenizer, text, max_len, single),
        is_only_batch_answer(tokenizer, seq![text], max_len, batch),
    ensures
        is_same_answer(single, batch),
{
    law_single_answers_are_batch_answers(tokenizer, text, max_len, single);
}

/// Two encodings that are at least `n` tokens long and begin with the same `n` tokens.
pub open spec fn begin_alike(d: EncodedView, e: EncodedView, n: nat) -> bool {
    &&& is_aligned(d) && is_aligned(e)
    &&& d.ids.len() >= n && e.ids.len() >= n
    &&& d.ids.take(n as int) == e.ids.take(n as int)
    &&& d.mask.take(n as int) == e.mask.take(n as int)
    &&& d.types.take(n as int) == e.types.take(n as int)
}

proof fn lemma_padded_begin(x: Seq<u32>, y: Seq<u32>, max_len: nat)
    requires
        x.len() >= max_len,
        y.len() >= max_len,
        x.take(max_len as int) == y.take(max_len as int),
    ensures
        padded(x, max_len) == padded(y, max_len),
{
    assert forall|i: int| 0 <= i < max_len implies x[i] == y[i] by {
        assert(x[i] == x.take(max_len as int)[i]);
        assert(y[i] == y.take(max_len as int)[i]);
    }
    assert(padded(x, max_len) =~= padded(y, max_len));
}

/// The reranker never reads what stands behind `max_len` tokens: two pairs of texts whose
/// encodings begin with the same `max_len` tokens have the same rows.
pub proof fn law_reranker_reads_no_further(
    x: RerankInputs,
    y: RerankInputs,
    d: EncodedView,
    e: EncodedView,
    max_len: nat,
)
    requires
        begin_alike(d, e, max_len),
        is_rerank_row_of(x, d, max_len),
        is_rerank_row_of(y, e, max_len),
    ensures
        x.ids@ == y.ids@,
        x.mask@ == y.mask@,
        x.types@ == y.types@,
{
    lemma_padded_begin(d.ids, e.ids, max_len);
    lemma_padded_begin(d.mask, e.mask, max_len);
    lemma_padded_begin(d.types, e.types, max_len);
}

/// The embedder never reads what stands behind `max_len` tokens of a text either.
pub proof fn law_embedder_reads_no_further(
    x: BatchInputs,
    y: BatchInputs,
    ds: Seq<EncodedView>,
    es: Seq<EncodedView>,
    max_len: nat,
)
    requires
        ds.len() == es.len(),
        forall|k: int| 0 <= k < ds.len() ==> begin_alike(#[trigger] ds[k], es[k], max_len),
        is_batch_of(x, ds, max_len),
        is_batch_of(y, es, max_len),
    ensures
        x.ids@ == y.ids@,
        x.mask@ == y.mask@,
        x.lengths@ == y.lengths@,
{
    let f = |e: EncodedView| padded(e.ids, max_len);
    let g = |e: EncodedView| padded(e.mask, max_len);
    assert forall|k: int| 0 <= k < ds.len() implies f(#[trigger] ds[k]) == f(es[k]) && g(ds[k])
        == g(es[k]) by {
        lemma_padded_begin(ds[k].ids, es[k].ids, max_len);
        lemma_padded_begin(ds[k].mask, es[k].mask, max_len);
    }
    assert(ds.map_values(f) =~= es.map_values(f));
    assert(ds.map_values(g) =~= es.map_values(g));
    assert forall|k: int| 0 <= k < ds.len() implies #[trigger] x.lengths@[k] == y.lengths@[k] by {
        assert(begin_alike(ds[k], es[k], max_len));
    }
    assert(x.lengths@ =~= y.lengths@);
}

/// The rows of a batch stand one behind the other: what the model reads for the text at
/// place `k` is the row of its encoding.
pub proof fn law_rows_stand_in_order(
    b: BatchInputs,
    encs: Seq<EncodedView>,
    max_len: nat,
    k: int,
)
    requires
        is_batch_of(b, encs, max_len),
        0 <= k < encs.len(),
    ensures
        b.ids@.len() == encs.len() * max_len,
        b.mask@.len() == encs.len() * max_len,
        0 <= k * max_len <= (k + 1) * max_len <= b.ids@.len(),
        b.ids@.subrange(k * max_len, (k + 1) * max_len) == padded(encs[k].ids, max_len),
        b.mask@.subrange(k * max_len, (k + 1) * max_len) == padded(encs[k].mask, max_len),
{
    lemma_row_at(encs, |e: EncodedView| padded(e.ids, max_len), max_len, k);
    lemma_row_at(encs, |e: EncodedView| padded(e.mask, max_len), max_len, k);
}

proof fn lemma_row_at(
    encs: Seq<EncodedView>,
    f: spec_fn(EncodedView) -> Seq<i64>,
    max_len: nat,
    k: int,
)
    requires
        forall|e: EncodedView| (#[trigger] f(e)).len() == max_len,
        0 <= k < encs.len(),
    ensures
        encs.flat_map(f).len() == encs.len() * max_len,
        0 <= k * max_len <= (k + 1) * max_len <= encs.flat_map(f).len(),
        encs.flat_map(f).subrange(k * max_len, (k + 1) * max_len) == f(encs[k]),
    decreases encs.len(),
{
    let rest = encs.drop_first();
    assert(encs.map_values(f).drop_first() =~= rest.map_values(f));
    assert(encs.flat_map(f) == f(encs[0]) + rest.flat_map(f));
    lemma_rows_len(rest, f, max_len);
    assert(encs.len() * max_len == max_len + rest.len() * max_len) by (nonlinear_arith)
        requires
            encs.len() == rest.len() + 1,
    ;
    assert(0 <= k * max_len && (k + 1) * max_len == k * max_len + max_len) by (nonlinear_arith)
        requires
            0 <= k,
            0 <= max_len,
    ;
    assert((k + 1) * max_len <= encs.len() * max_len) by (nonlinear_arith)
        requires
            k + 1 <= encs.len(),
            0 <= max_len,
    ;
    if k == 0 {
        assert(0 * max_len == 0);
        assert(encs.flat_map(f).subrange(0, max_len as int) =~= f(encs[0]));
    } else {
        lemma_row_at(rest, f, max_len, k - 1);
        assert((k - 1) * max_len + max_len == k * max_len) by (nonlinear_arith);
        assert(encs.flat_map(f).subrange(k * max_len, (k + 1) * max_len) =~= rest.flat_map(
            f,
        ).subrange((k - 1) * max_len, k * max_len));
    }
}

proof fn lemma_rows_len(encs: Seq<EncodedView>, f: spec_fn(EncodedView) -> Seq<i64>, max_len: nat)
    requires
        forall|e: EncodedView| (#[trigger] f(e)).len() == max_len,
    ensures
        encs.flat_map(f).len() == encs.len() * max_len,
    decreases encs.len(),
{
    if encs.len() == 0 {
        assert(encs.map_values(f) =~= seq![]);
        assert(encs.len() * max_len == 0) by (nonlinear_arith)
            requires
                encs.len() == 0,
        ;
    } else {
        let rest = encs.drop_first();
        lemma_rows_len(rest, f, max_len);
        assert(encs.map_values(f).drop_first() =~= rest.map_values(f));
        assert(encs.len() * max_len == max_len + rest.len() * max_len) by (nonlinear_arith)
            requires
                encs.len() == rest.len() + 1,
        ;
    }
}

/// Every token that has room is in its row: the row of the text at place `k` holds at place
/// `i` the token id and the attention flag of the `i`-th token of that text, as long as
/// there is one, and zeros behind the last one. The length of a text is the number of its
/// tokens that have room.
pub proof fn law_rows_hold_every_token_that_has_room(
    b: BatchInputs,
    encs: Seq<EncodedView>,
    max_len: nat,
    k: int,
    i: int,
)
    requires
        is_batch_of(b, encs, max_len),
        0 <= k < encs.len(),
        encs[k].mask.len() == encs[k].ids.len(),
        0 <= i < max_len,
    ensures
        b.ids@.len() == encs.len() * max_len,
        b.mask@.len() == encs.len() * max_len,
        b.lengths@.len() == encs.len(),
        0 <= k * max_len + i < b.ids@.len(),
        i < encs[k].ids.len() ==> b.ids@[k * max_len + i] == encs[k].ids[i],
        i < encs[k].ids.len() ==> b.mask@[k * max_len + i] == encs[k].mask[i],
        i >= encs[k].ids.len() ==> b.ids@[k * max_len + i] == 0,
        i >= encs[k].ids.len() ==> b.mask@[k * max_len + i] == 0,
        encs[k].ids.len() <= max_len ==> b.lengths@[k] == encs[k].ids.len(),
        encs[k].ids.len() > max_len ==> b.lengths@[k] == max_len,
{
    law_rows_stand_in_order(b, encs, max_len, k);
    let from = k * max_len;
    let to = (k + 1) * max_len;
    assert(to == from + max_len) by (nonlinear_arith)
        requires
            from == k * max_len,
            to == (k + 1) * max_len,
    ;
    assert(b.ids@[from + i] == b.ids@.subrange(from, to)[i]);
    assert(b.mask@[from + i] == b.mask@.subrange(from, to)[i]);
    assert(b.lengths@[k] == row_len(encs[k], max_len));
}

/// A batch of no texts has no rows.
pub proof fn law_no_texts_have_no_rows(b: BatchInputs, max_len: nat)
    requires
        is_batch_of(b, seq![], max_len),
    ensures
        b.ids@.len() == 0,
        b.mask@.len() == 0,
        b.lengths@.len() == 0,
{
    let none = Seq::<EncodedView>::empty();
    lemma_rows_len(none, |e: EncodedView| padded(e.ids, max_len), max_len);
    lemma_rows_len(none, |e: EncodedView| padded(e.mask, max_len), max_len);
}

/// Every token of a pair of texts that has room is in the rows for the reranker, with its
/// attention flag and its segment, and behind the last one are zeros.
pub proof fn law_rerank_rows_hold_every_token_that_has_room(
    r: RerankInputs,
    e: EncodedView,
    max_len: nat,
)
    requires
        is_rerank_row_of(r, e, max_len),
        e.mask.len() == e.ids.len(),
        e.types.len() == e.ids.len(),
    ensures
        r.ids@.len() == max_len,
        r.mask@.len() == max_len,
        r.types@.len() == max_len,
        forall|i: int|
            0 <= i < max_len && i < e.ids.len() ==> #[trigger] r.ids@[i] == e.ids[i]
                && #[trigger] r.mask@[i] == e.mask[i] && #[trigger] r.types@[i] == e.types[i],
        forall|i: int|
            e.ids.len() <= i < max_len ==> #[trigger] r.ids@[i] == 0 && #[trigger] r.mask@[i] == 0
                && #[trigger] r.types@[i] == 0,
{
}

/// What the embedder is given for a batch comes from the tokenizer alone: rows are those of
/// encodings that the tokenizer gives for the texts, one for each and in their order; a
/// report is the message of the tokenizer's error on one of the texts, where it gives
/// encodings for all texts before that one.
pub proof fn law_batches_are_answered_by_the_tokenizer(
    tokenizer: Tokenizer,
    texts: Seq<Seq<char>>,
    max_len: nat,
    r: Result<BatchInputs, String>,
) -> (found: (Seq<EncodedView>, Seq<char>))
    requires
        is_batch_answer(tokenizer, texts, max_len, r),
    ensures
        forall|k: int|
            0 <= k < found.0.len() ==> may_encode(
                tokenizer,
                #[trigger] texts[k],
                None,
                Ok((found.0[k].ids, found.0[k].mask, found.0[k].types)),
            ) && found.0[k].mask.len() == found.0[k].ids.len() && found.0[k].types.len()
                == found.0[k].ids.len(),
        match r {
            Ok(b) => found.0.len() == texts.len() && is_batch_of(b, found.0, max_len),
            Err(report) => found.0.len() < texts.len() && may_encode(
                tokenizer,
                texts[found.0.len() as int],
                None,
                Err(found.1),
            ) && report@ == "Tokenization failed: "@ + found.1,
        },
{
    match r {
        Ok(b) => {
            let encs = choose|encs: Seq<EncodedView>| #[trigger]
                encode_to(tokenizer, texts, encs) && is_batch_of(b, encs, max_len);
            (encs, seq![])
        },
        Err(report) => {
            let k = choose|k: int| #[trigger] fails_at(tokenizer, texts, k, report@);
            let encs = choose|encs: Seq<EncodedView>| encode_to(tokenizer, texts.take(k), encs);
            assert forall|j: int| 0 <= j < encs.len() implies may_encode(
                tokenizer,
                #[trigger] texts[j],
                None,
                Ok((encs[j].ids, encs[j].mask, encs[j].types)),
            ) && encs[j].mask.len() == encs[j].ids.len() && encs[j].types.len()
                == encs[j].ids.len() by {
                assert(texts.take(k)[j] == texts[j]);
                assert(encodes_to(tokenizer, texts.take(k)[j], None, encs[j]));
            }
            let message = choose|message: Seq<char>| #[trigger]
                may_encode(tokenizer, texts[k], None, Err(message)) && report@
                    == "Tokenization failed: "@ + message;
            (encs, message)
        },
    }
}

/// What the reranker is given for a query and a passage comes from the tokenizer alone: the
/// rows of an encoding that it gives for the two, or the message of its error on them.
pub proof fn law_pairs_are_answered_by_the_tokenizer(
    tokenizer: Tokenizer,
    query: Seq<char>,
    passage: Seq<char>,
    max_len: nat,
    r: Result<RerankInputs, String>,
) -> (found: (EncodedView, Seq<char>))
    requires
        is_rerank_answer(tokenizer, query, passage, max_len, r),
    ensures
        match r {
            Ok(rows) => may_encode(
                tokenizer,
                query,
                Some(passage),
                Ok((found.0.ids, found.0.mask, found.0.types)),
            ) && found.0.mask.len() == found.0.ids.len() && found.0.types.len()
                == found.0.ids.len() && is_rerank_row_of(rows, found.0, max_len),
            Err(report) => may_encode(tokenizer, query, Some(passage), Err(found.1)) && report@
                == "Reranker tokenization failed: "@ + found.1,
        },
{
    match r {
        Ok(rows) => {
            let e = choose|e: EncodedView| #[trigger]
                encodes_to(tokenizer, query, Some(passage), e) && is_rerank_row_of(
                    rows,
                    e,
                    max_len,
                );
            (e, seq![])
        },
        Err(report) => {
            let message = choose|message: Seq<char>| #[trigger]
                may_encode(tokenizer, query, Some(passage), Err(message)) && report@
                    == "Reranker tokenization failed: "@ + message;
            (EncodedView { ids: seq![], mask: seq![], types: seq![] }, message)
        },
    }
}

/// An only answer is equal to any other one, row by row.
pub proof fn law_only_answers_are_equal(
    tokenizer: Tokenizer,
    texts: Seq<Seq<char>>,
    max_len: nat,
    x: Result<BatchInputs, String>,
    y: Result<BatchInputs, String>,
)
    requires
        is_only_batch_answer(tokenizer, texts, max_len, x),
        is_batch_answer(tokenizer, texts, max_len, y),
    ensures
        x is Ok <==> y is Ok,
        x matches Ok(a) ==> (y matches Ok(b) ==> a.ids@ == b.ids@ && a.mask@ == b.mask@ && a.lengths@
            == b.lengths@),
        x matches Err(a) ==> (y matches Err(b) ==> a@ == b@),
{
}

/// The same for one text.
pub proof fn law_only_single_answers_are_equal(
    tokenizer: Tokenizer,
    text: Seq<char>,
    max_len: nat,
    x: Result<BatchInputs, String>,
    y: Result<BatchInputs, String>,
)
    requires
        is_only_single_answer(tokenizer, text, max_len, x),
        is_single_answer(tokenizer, text, max_len, y),
    ensures
        x is Ok <==> y is Ok,
        x matches Ok(a) ==> (y matches Ok(b) ==> a.ids@ == b.ids@ && a.mask@ == b.mask@ && a.lengths@
            == b.lengths@),
        x matches Err(a) ==> (y matches Err(b) ==> a@ == b@),
{
}

/// The same for a query and a passage.
pub proof fn law_only_rerank_answers_are_equal(
    tokenizer: Tokenizer,
    query: Seq<char>,
    passage: Seq<char>,
    max_len: nat,
    x: Result<RerankInputs, String>,
    y: Result<RerankInputs, String>,
)
    requires
        is_only_rerank_answer(tokenizer, query, passage, max_len, x),
        is_rerank_answer(tokenizer, query, passage, max_len, y),
    ensures
        x is Ok <==> y is Ok,
        x matches Ok(a) ==> (y matches Ok(b) ==> a.ids@ == b.ids@ && a.mask@ == b.mask@ && a.types@
            == b.types@),
        x matches Err(a) ==> (y matches Err(b) ==> a@ == b@),
{
}

/// The view of an encoding holds its three arrays, and that of a list of encodings has at
/// each place the view of the encoding there.
pub proof fn law_encodings_are_seen_as_they_are(v: Seq<Encoded>)
    ensures
        encoded_views(v).len() == v.len(),
        forall|k: int|
            0 <= k < v.len() ==> (#[trigger] encoded_views(v)[k]).ids == v[k].ids@
                && encoded_views(v)[k].mask == v[k].mask@ && encoded_views(v)[k].types
                == v[k].types@,
{
}

/// The embedder reads 128 tokens of a text, and the reranker 512 of a pair of texts.
pub proof fn law_rows_are_limited()
    ensures
        BI_MAX_LEN == 128,
        RERANKER_MAX_LEN == 512,
{
}

} // verus!
