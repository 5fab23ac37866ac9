//! Running the embedder: whether to trust the GPU, and in which batches the texts of a
//! file are embedded.
use crate::encode::BI_MAX_LEN;
use vstd::prelude::*;

verus! {

/// Texts that are embedded together.
pub const BATCH_SIZE: usize = 32;

/// Seconds after which the embedding of a file is given up.
pub const PER_FILE_TIMEOUT_SECS: u64 = 1800;

/// Milliseconds above which a batch is slow.
pub const SLOW_BATCH_MS: u128 = 2000;

/// Texts in the batch that tries out a GPU session.
pub const PROBE_BATCH: usize = 8;

/// Milliseconds above which a GPU session must have fallen back to the CPU.
pub const PROBE_LIMIT_MS: u128 = 3000;

/// Chunks above which a file is announced as large.
pub const LARGE_FILE_CHUNKS: usize = 1000;

/// What came of trying out a GPU session.
pub enum Probe {
    /// The session could not be built.
    NoSession,
    /// The batch failed.
    Failed,
    /// The batch ran, in so many milliseconds.
    Ran(u128),
}

/// What the embedder runs on.
pub enum Device {
    Gpu,
    Cpu,
}

/// The embedder runs on the GPU exactly when the batch that tries it out does, fast
/// enough.
pub fn choose_device(probe: &Probe) -> (r: Device)
    ensures
        r is Gpu <==> (*probe matches Probe::Ran(ms) && ms <= PROBE_LIMIT_MS),
        r is Cpu <==> (*probe matches Probe::Ran(ms) ==> ms > 3000),
{
    match probe {
        Probe::NoSession => Device::Cpu,
        Probe::Failed => Device::Cpu,
        Probe::Ran(ms) => if *ms > PROBE_LIMIT_MS {
            Device::Cpu
        } else {
            Device::Gpu
        },
    }
}

fn filled(value: i64, n: usize) -> (r: Vec<i64>)
    ensures
        r@ == Seq::new(n as nat, |i: int| value),
{
    let mut out: Vec<i64> = Vec::new();
    let mut i: usize = 0;
    while i < n
        invariant
            i <= n,
            out@ =~= Seq::new(i as nat, |k: int| value),
        decreases n - i,
    {
        out.push(value);
        i += 1;
    }
    out
}

/// The token ids and the attention flags of the batch that tries out a GPU session: of
/// the size of a real batch, all ids zero, and all flags set.
pub fn probe_inputs() -> (r: (Vec<i64>, Vec<i64>))
    ensures
        r.0@ == Seq::new((PROBE_BATCH * BI_MAX_LEN) as nat, |i: int| 0i64),
        r.1@ == Seq::new((PROBE_BATCH * BI_MAX_LEN) as nat, |i: int| 1i64),
{
    let n: usize = PROBE_BATCH * BI_MAX_LEN;
    (filled(0, n), filled(1, n))
}

/// The number of batches that `n` texts make.
pub open spec fn batches(n: int) -> int {
    (n + BATCH_SIZE - 1) / BATCH_SIZE as int
}

/// The first and, one behind it, the last text of a batch of `n` texts.
pub open spec fn batch_bounds(n: int, batch: int) -> (int, int) {
    (
        batch * BATCH_SIZE,
        if (batch + 1) * BATCH_SIZE < n {
            (batch + 1) * BATCH_SIZE
        } else {
            n
        },
    )
}

/// The number of texts in the batches before `batch`.
pub open spec fn texts_before(n: int, batch: int) -> int {
    if batch * BATCH_SIZE < n {
        batch * BATCH_SIZE
    } else {
        n
    }
}

/// The number of batches that `n` texts make.
pub fn batch_count(n: usize) -> (r: usize)
    ensures
        r == batches(n as int),
{
    if n % BATCH_SIZE == 0 {
        n / BATCH_SIZE
    } else {
        n / BATCH_SIZE + 1
    }
}

/// How far the embedding of a file has come.
#[derive(Clone, Copy)]
pub struct EmbedRun {
    /// The number of texts of the file.
    pub texts: usize,
    /// The number of batches that are embedded.
    pub batch: usize,
    /// Whether a slow batch was reported.
    pub warned: bool,
}

impl EmbedRun {
    /// No more batches are embedded than the texts make.
    pub open spec fn wf(self) -> bool {
        self.batch <= batches(self.texts as int)
    }
}

/// What is to be done next for a file.
pub enum EmbedAction {
    /// Embed the texts from `from` up to `to`.
    Embed { from: usize, to: usize },
    /// Give up: too much time has passed. What the index holds of the file stays.
    TimedOut,
    /// Give up: a batch could not be embedded. What the index holds of the file stays.
    Failed,
    /// All texts are embedded: put the file in the index.
    Complete,
}

/// The beginning of the embedding of a file of `texts` texts.
pub fn start_run(texts: usize) -> (r: EmbedRun)
    ensures
        r.wf(),
        r == (EmbedRun { texts, batch: 0, warned: false }),
{
    EmbedRun { texts, batch: 0, warned: false }
}

/// What is to be done next, `elapsed_secs` seconds after the file was begun: the next
/// batch, unless there is none left, or the time is up.
pub fn next_action(run: &EmbedRun, elapsed_secs: u64) -> (r: EmbedAction)
    requires
        run.wf(),
    ensures
        r == (if run.batch == batches(run.texts as int) {
            EmbedAction::Complete
        } else if elapsed_secs > PER_FILE_TIMEOUT_SECS {
            EmbedAction::TimedOut
        } else {
            EmbedAction::Embed {
                from: batch_bounds(run.texts as int, run.batch as int).0 as usize,
                to: batch_bounds(run.texts as int, run.batch as int).1 as usize,
            }
        }),
{
    if run.batch >= batch_count(run.texts) {
        return EmbedAction::Complete;
    }
    if elapsed_secs > PER_FILE_TIMEOUT_SECS {
        return EmbedAction::TimedOut;
    }
    let from: usize = run.batch * BATCH_SIZE;
    let to: usize = if run.texts - from > BATCH_SIZE {
        from + BATCH_SIZE
    } else {
        run.texts
    };
    EmbedAction::Embed { from, to }
}

/// Takes note of a batch that was embedded in `batch_ms` milliseconds. The second result
/// says whether to report that it was slow, which is done once for a file.
pub fn batch_done(run: &EmbedRun, batch_ms: u128) -> (r: (EmbedRun, bool))
    requires
        run.wf(),
        run.batch < batches(run.texts as int),
    ensures
        r.0.wf(),
        r.0 == (EmbedRun {
            texts: run.texts,
            batch: (run.batch + 1) as usize,
            warned: run.warned || batch_ms > SLOW_BATCH_MS,
        }),
        r.1 == (batch_ms > SLOW_BATCH_MS && !run.warned),
{
    let slow: bool = batch_ms > SLOW_BATCH_MS;
    let next = EmbedRun { texts: run.texts, batch: run.batch + 1, warned: run.warned || slow };
    (next, slow && !run.warned)
}

/// Every text is embedded once: the batches take the texts in order, each batch begins
/// where the one before it ends, none is empty or larger than `BATCH_SIZE`, and the last
/// one ends with the last text.
pub proof fn law_batches_partition_the_texts(n: int, batch: int)
    requires
        0 <= batch < batches(n),
        0 <= n,
    ensures
        batch_bounds(n, 0).0 == 0,
        0 < batch_bounds(n, batch).1 - batch_bounds(n, batch).0 <= BATCH_SIZE,
        batch + 1 < batches(n) ==> batch_bounds(n, batch + 1).0 == batch_bounds(n, batch).1,
        batch + 1 == batches(n) ==> batch_bounds(n, batch).1 == n,
{
}

/// Where the components of a token's vector begin in the embedder's output, which holds
/// `max_len` vectors of `hidden` components for each text.
pub open spec fn token_base(text: int, token: int, max_len: int, hidden: int) -> int {
    (text * max_len + token) * hidden
}

/// Where the components of the vector of the token `token` of the text `text` begin.
pub fn token_offset(text: usize, token: usize, max_len: usize, hidden: usize) -> (r: usize)
    requires
        token < max_len,
        (text + 1) * max_len * hidden <= usize::MAX,
    ensures
        r == token_base(text as int, token as int, max_len as int, hidden as int),
        r == (text * max_len + token) * hidden,
        r + hidden <= (text + 1) * max_len * hidden,
{
    proof {
        let (t, k, m, h) = (text as int, token as int, max_len as int, hidden as int);
        assert(t * (m * h) + k * h == (t * m + k) * h) by (nonlinear_arith);
        assert((t * m + k) * h + h <= (t + 1) * m * h) by (nonlinear_arith)
            requires
                0 <= t,
                0 <= k < m,
                0 <= h,
        ;
        assert(0 <= t * (m * h) && 0 <= k * h && 0 <= m * h <= (t + 1) * m * h)
            by (nonlinear_arith)
            requires
                0 <= t,
                0 <= k,
                0 <= m,
                0 <= h,
        ;
    }
    let row: usize = max_len * hidden;
    text * row + token * hidden
}

/// The texts are embedded 32 at a time: batch `k` takes the texts from `32 * k` on, 32 of
/// them or as many as are left, and there are just enough batches to take all of them.
pub proof fn law_batches_take_thirty_two_texts(n: int, batch: int)
    requires
        0 <= n,
        0 <= batch,
    ensures
        32 * (batches(n) - 1) < n <= 32 * batches(n),
        batch < batches(n) <==> 32 * batch < n,
        batch < batches(n) ==> batch_bounds(n, batch).0 == 32 * batch,
        batch < batches(n) ==> batch_bounds(n, batch).1 == (if 32 * batch + 32 <= n {
            32 * batch + 32
        } else {
            n
        }),
        texts_before(n, batch) == (if 32 * batch <= n {
            32 * batch
        } else {
            n
        }),
{
}

/// The vectors of the tokens of a text stand one behind the other, and behind them those of
/// the next text.
pub proof fn law_tokens_stand_one_behind_the_other(text: int, token: int, max_len: int, hidden: int)
    ensures
        token_base(0, 0, max_len, hidden) == 0,
        token_base(text, token + 1, max_len, hidden) == token_base(text, token, max_len, hidden)
            + hidden,
        token_base(text + 1, token, max_len, hidden) == token_base(
            text,
            token + max_len,
            max_len,
            hidden,
        ),
{
    assert(0 * max_len == 0 && 0 * hidden == 0) by (nonlinear_arith);
    assert((text + 1) * max_len == text * max_len + max_len) by (nonlinear_arith);
    assert((text * max_len + token + 1) * hidden == (text * max_len + token) * hidden + hidden)
        by (nonlinear_arith);
}

/// A file is given up after half an hour, a batch is slow after two seconds, a file of more
/// than a thousand chunks is large, and the GPU is tried out with eight texts, for which it
/// has three seconds.
pub proof fn law_embedding_is_limited()
    ensures
        PER_FILE_TIMEOUT_SECS == 1800,
        SLOW_BATCH_MS == 2000,
        LARGE_FILE_CHUNKS == 1000,
        PROBE_BATCH == 8,
        PROBE_LIMIT_MS == 3000,
        BATCH_SIZE == 32,
{
}

} // verus!
