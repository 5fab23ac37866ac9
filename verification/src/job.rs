//! Indexing one file: its records, the vectors that are computed for them batch by batch,
//! and the entry that goes into the index once all of them are there.
use crate::embed::{batch_count, batch_done, next_action, start_run, EmbedAction, EmbedRun};
use crate::index::{Index, IndexEntry, BI_HIDDEN};
use crate::records::{chunk_file, passages, ChunkRecord, MAX_CHUNKS_FOR_INDEXING};
use crate::scan::ScannedFile;
use vstd::prelude::*;

verus! {

use crate::embed::{batch_bounds, batches, texts_before, PER_FILE_TIMEOUT_SECS, SLOW_BATCH_MS};
use crate::index::{embedded_chunks, Entries};
use crate::records::{
    anchor_record,
    capped,
    content_records,
    intro,
    passage,
    record_views,
    RecordView,
};
use crate::text::views;

/// The records that the index keeps of a file: those of its text, and its anchor.
pub open spec fn file_records(file: ScannedFile) -> Seq<RecordView> {
    capped(content_records(file.path@, file.name@, file.content@)).push(
        anchor_record(file.path@, file.name@, file.content@),
    )
}

/// The entry holds the records of the file, a whole vector for each, and the hash of the
/// content that they are made of.
pub open spec fn is_entry_of<V>(file: ScannedFile, e: IndexEntry<V>) -> bool {
    &&& e.hmac@ == file.hmac@
    &&& record_views(e.chunks@) == file_records(file)
    &&& e.vectors@.len() == e.chunks@.len() * BI_HIDDEN
}

/// The indexing of a file, under way.
#[verifier::reject_recursive_types(V)]
pub struct FileJob<'a, V> {
    pub file: &'a ScannedFile,
    /// The records of the file.
    pub records: Vec<ChunkRecord>,
    /// Whether the text of the file reached the limit on indexed chunks.
    pub at_cap: bool,
    /// The texts that are embedded, one for each record.
    pub texts: Vec<String>,
    /// How far the embedding has come.
    pub run: EmbedRun,
    /// The vectors of the texts that are embedded, one behind the other.
    pub vectors: Vec<V>,
    /// Whether the file was given up.
    pub given_up: bool,
}

impl<'a, V> FileJob<'a, V> {
    /// The records are those of the file, and there are `BI_HIDDEN` components for each
    /// text of the batches that are embedded.
    pub open spec fn wf(&self) -> bool {
        &&& record_views(self.records@) == file_records(*self.file)
        &&& content_records(self.file.path@, self.file.name@, self.file.content@).len() > 0
        &&& views(self.texts@) == record_views(self.records@).map_values(
            |r: RecordView| passage(r),
        )
        &&& self.run.wf()
        &&& self.run.texts == self.records@.len()
        &&& self.vectors@.len() == texts_before(self.run.texts as int, self.run.batch as int)
            * BI_HIDDEN
    }

    /// All texts are embedded.
    pub open spec fn is_done(&self) -> bool {
        !self.given_up && self.run.batch == batches(self.run.texts as int)
    }

    /// The same file, records and texts.
    pub open spec fn is_same_work(&self, other: &Self) -> bool {
        &&& self.file == other.file
        &&& self.records == other.records
        &&& self.at_cap == other.at_cap
        &&& self.texts == other.texts
    }

    /// Begins the indexing of a file. A file without records is not indexed.
    pub fn start(file: &'a ScannedFile) -> (r: Option<Self>)
        ensures
            r is None <==> content_records(file.path@, file.name@, file.content@).len() == 0,
            r matches Some(job) ==> {
                &&& job.wf()
                &&& job.file == file
                &&& job.at_cap == (content_records(file.path@, file.name@, file.content@).len()
                    >= MAX_CHUNKS_FOR_INDEXING)
                &&& job.run.batch == 0
                &&& !job.run.warned
                &&& !job.given_up
            },
    {
        let chunks = match chunk_file(file.path.as_str(), file.name.as_str(), file.content.as_str()) {
            Some(chunks) => chunks,
            None => {
                return None;
            },
        };
        let texts = passages(&chunks.records);
        let run = start_run(chunks.records.len());
        Some(
            FileJob {
                file,
                records: chunks.records,
                at_cap: chunks.at_cap,
                texts,
                run,
                vectors: Vec::new(),
                given_up: false,
            },
        )
    }

    /// What is to be done next, `elapsed_secs` seconds after the file was begun. A file
    /// whose time is up before a batch is given up.
    pub fn next_step(&mut self, elapsed_secs: u64) -> (r: EmbedAction)
        requires
            old(self).wf(),
        ensures
            final(self).wf(),
            final(self).is_same_work(old(self)),
            final(self).run == old(self).run,
            final(self).vectors == old(self).vectors,
            final(self).given_up == (old(self).given_up || r is TimedOut),
            r == (if old(self).given_up {
                EmbedAction::Failed
            } else if old(self).run.batch == batches(old(self).run.texts as int) {
                EmbedAction::Complete
            } else if elapsed_secs > PER_FILE_TIMEOUT_SECS {
                EmbedAction::TimedOut
            } else {
                EmbedAction::Embed {
                    from: batch_bounds(
                        old(self).run.texts as int,
                        old(self).run.batch as int,
                    ).0 as usize,
                    to: batch_bounds(
                        old(self).run.texts as int,
                        old(self).run.batch as int,
                    ).1 as usize,
                }
            }),
    {
        if self.given_up {
            return EmbedAction::Failed;
        }
        let action = next_action(&self.run, elapsed_secs);
        if let EmbedAction::TimedOut = action {
            self.given_up = true;
        }
        action
    }

    /// The texts from `from` up to `to`.
    pub fn batch_texts(&self, from: usize, to: usize) -> (r: Vec<String>)
        requires
            from <= to <= self.texts@.len(),
        ensures
            views(r@) == views(self.texts@).subrange(from as int, to as int),
    {
        let mut out: Vec<String> = Vec::new();
        let mut i: usize = from;
        proof {
            assert(views(out@) =~= views(self.texts@).subrange(from as int, from as int));
        }
        while i < to
            invariant
                from <= i <= to <= self.texts@.len(),
                views(out@) == views(self.texts@).subrange(from as int, i as int),
            decreases to - i,
        {
            let ghost before = out@;
            out.push(self.texts[i].clone());
            i += 1;
            proof {
                assert(views(out@) =~= views(before).push(views(self.texts@)[i - 1]));
                assert(views(out@) =~= views(self.texts@).subrange(from as int, i as int));
            }
        }
        out
    }

    /// Takes note that the next batch could not be embedded: the file is given up.
    pub fn batch_failed(&mut self)
        requires
            old(self).wf(),
        ensures
            final(self).wf(),
            final(self).is_same_work(old(self)),
            final(self).run == old(self).run,
            final(self).vectors == old(self).vectors,
            final(self).given_up,
    {
        self.given_up = true;
    }
}

/// The components of `batch`, vector by vector.
pub open spec fn components<V>(batch: Seq<Vec<V>>) -> Seq<V> {
    batch.map_values(|v: Vec<V>| v@).flatten()
}

/// Each vector of `batch` is whole.
pub open spec fn are_whole<V>(batch: Seq<Vec<V>>) -> bool {
    forall|k: int| 0 <= k < batch.len() ==> (#[trigger] batch[k])@.len() == BI_HIDDEN
}

/// Appends the components of `batch` to `out`.
fn append_vectors<V: Copy>(out: &mut Vec<V>, batch: &Vec<Vec<V>>)
    requires
        are_whole(batch@),
    ensures
        final(out)@ == old(out)@ + components(batch@),
        final(out)@.len() == old(out)@.len() + batch@.len() * BI_HIDDEN,
{
    let ghost parts = batch@.map_values(|v: Vec<V>| v@);
    let mut k: usize = 0;
    proof {
        assert(parts.take(0) =~= seq![]);
        assert(out@ =~= old(out)@ + parts.take(0).flatten());
    }
    while k < batch.len()
        invariant
            k <= batch@.len(),
            are_whole(batch@),
            parts == batch@.map_values(|v: Vec<V>| v@),
            out@ == old(out)@ + parts.take(k as int).flatten(),
            out@.len() == old(out)@.len() + k * BI_HIDDEN,
        decreases batch@.len() - k,
    {
        let ghost before = out@;
        let ghost part = batch@[k as int]@;
        let mut j: usize = 0;
        proof {
            assert(out@ =~= before + part.take(0));
        }
        while j < batch[k].len()
            invariant
                k < batch@.len(),
                part == batch@[k as int]@,
                j <= part.len(),
                out@ == before + part.take(j as int),
            decreases part.len() - j,
        {
            out.push(batch[k][j]);
            j += 1;
            proof {
                assert(out@ =~= before + part.take(j as int));
            }
        }
        proof {
            assert(part.take(j as int) =~= part);
            assert(parts.take(k + 1) =~= parts.take(k as int).push(part));
            parts.take(k as int).lemma_flatten_push(part);
            assert(out@ =~= old(out)@ + parts.take(k + 1).flatten());
        }
        k += 1;
    }
    proof {
        assert(parts.take(k as int) =~= parts);
    }
}

impl<'a, V: Copy> FileJob<'a, V> {
    /// Takes note of the next batch, whose vectors were computed in `batch_ms`
    /// milliseconds. The result says whether to report that it was slow, which is done
    /// once for a file.
    pub fn batch_embedded(&mut self, batch: &Vec<Vec<V>>, batch_ms: u128) -> (report: bool)
        requires
            old(self).wf(),
            !old(self).given_up,
            old(self).run.batch < batches(old(self).run.texts as int),
            batch@.len() == batch_bounds(
                old(self).run.texts as int,
                old(self).run.batch as int,
            ).1 - batch_bounds(old(self).run.texts as int, old(self).run.batch as int).0,
            are_whole(batch@),
        ensures
            final(self).wf(),
            final(self).is_same_work(old(self)),
            !final(self).given_up,
            final(self).vectors@ == old(self).vectors@ + components(batch@),
            final(self).run.texts == old(self).run.texts,
            final(self).run.batch == old(self).run.batch + 1,
            final(self).run.warned == (old(self).run.warned || report),
            report == (batch_ms > SLOW_BATCH_MS && !old(self).run.warned),
    {
        let (run, report) = batch_done(&self.run, batch_ms);
        append_vectors(&mut self.vectors, batch);
        proof {
            let n = run.texts as int;
            let b = run.batch as int;
            assert(texts_before(n, b) == texts_before(n, b - 1) + batch@.len());
            assert(texts_before(n, b) * BI_HIDDEN == texts_before(n, b - 1) * BI_HIDDEN
                + batch@.len() * BI_HIDDEN) by (nonlinear_arith)
                requires
                    texts_before(n, b) == texts_before(n, b - 1) + batch@.len(),
            ;
        }
        self.run = run;
        report
    }
}

/// The entries once the indexing of the file `id` has ended: with the entry that came of
/// it, or as they were where the file was given up.
pub open spec fn settled<V>(
    entries: Entries<V>,
    id: Seq<char>,
    outcome: Option<IndexEntry<V>>,
) -> Entries<V> {
    match outcome {
        Some(e) => entries.insert(id, e),
        None => entries,
    }
}

impl<'a, V> FileJob<'a, V> {
    /// Ends the indexing of a file: puts its entry in the index once all texts are
    /// embedded, and leaves the index as it is where they are not.
    pub fn settle(self, index: &mut Index<V>) -> (inserted: bool)
        requires
            self.wf(),
            old(index).wf(),
        ensures
            final(index).wf(),
            inserted == self.is_done(),
            final(index)@ == settled(
                old(index)@,
                self.file.id@,
                if inserted {
                    Some(final(index)@[self.file.id@])
                } else {
                    None
                },
            ),
            inserted ==> {
                &&& is_entry_of(*self.file, final(index)@[self.file.id@])
                &&& final(index)@[self.file.id@].vectors == self.vectors
                &&& final(index)@[self.file.id@].chunks == self.records
                &&& final(index).order() == (if old(index)@.contains_key(self.file.id@) {
                    old(index).order()
                } else {
                    old(index).order().push(self.file.id@)
                })
            },
            !inserted ==> *final(index) == *old(index),
    {
        if self.given_up || self.run.batch < batch_count(self.run.texts) {
            return false;
        }
        let hmac = self.file.hmac.clone();
        let id = self.file.id.clone();
        let entry = IndexEntry { hmac, chunks: self.records, vectors: self.vectors };
        proof {
            assert(hmac@ =~= self.file.hmac@);
            assert(record_views(self.records@).len() == self.records@.len());
        }
        index.insert(id, entry);
        true
    }
}

/// An entry is whole: it has a record for the text of its file and the anchor behind it,
/// at most `MAX_CHUNKS_FOR_INDEXING` besides that, and every record has its vector, so
/// that all of them are searched.
pub proof fn law_entries_are_whole<V>(file: ScannedFile, e: IndexEntry<V>)
    requires
        content_records(file.path@, file.name@, file.content@).len() > 0,
        is_entry_of(file, e),
    ensures
        2 <= e.chunks@.len() <= MAX_CHUNKS_FOR_INDEXING + 1,
        e.chunks@.last().child_text@ == file.name@,
        e.chunks@.last().parent_chunk@ == file.name@.push('\n') + intro(file.content@),
        embedded_chunks(e) == e.chunks@.len(),
{
    assert(record_views(e.chunks@).len() == e.chunks@.len());
    assert(record_views(e.chunks@).last() == e.chunks@.last()@);
}

/// The entries after the indexing of the files `ids`, one after the other.
pub open spec fn settled_all<V>(
    entries: Entries<V>,
    ids: Seq<Seq<char>>,
    outcomes: Seq<Option<IndexEntry<V>>>,
) -> Entries<V>
    decreases ids.len(),
{
    if ids.len() == 0 {
        entries
    } else {
        settled(
            settled_all(entries, ids.drop_last(), outcomes.drop_last()),
            ids.last(),
            outcomes.last(),
        )
    }
}

/// A file that is given up keeps what the index held of it, and keeps no other file from
/// being indexed: after all files, the index holds the entry of each one that was embedded,
/// and of each one that was given up what it held before.
pub proof fn law_given_up_files_stay_as_they_were<V>(
    entries: Entries<V>,
    ids: Seq<Seq<char>>,
    outcomes: Seq<Option<IndexEntry<V>>>,
    id: Seq<char>,
)
    requires
        ids.no_duplicates(),
        outcomes.len() == ids.len(),
    ensures
        !ids.contains(id) ==> settled_all(entries, ids, outcomes).contains_key(id)
            == entries.contains_key(id) && settled_all(entries, ids, outcomes)[id] == entries[id],
        forall|k: int|
            0 <= k < ids.len() && #[trigger] ids[k] == id ==> match outcomes[k] {
                Some(e) => settled_all(entries, ids, outcomes).contains_key(id) && settled_all(
                    entries,
                    ids,
                    outcomes,
                )[id] == e,
                None => settled_all(entries, ids, outcomes).contains_key(id)
                    == entries.contains_key(id) && settled_all(entries, ids, outcomes)[id]
                    == entries[id],
            },
    decreases ids.len(),
{
    if ids.len() > 0 {
        let n = ids.len() - 1;
        let front = ids.drop_last();
        law_given_up_files_stay_as_they_were(entries, front, outcomes.drop_last(), id);
        assert(forall|k: int| 0 <= k < n ==> front[k] == #[trigger] ids[k]);
        assert(ids.contains(ids[n]));
        assert(!front.contains(ids[n]));
        if front.contains(id) {
            let k = choose|k: int| 0 <= k < front.len() && front[k] == id;
            assert(ids[k] == id);
        }
        if !ids.contains(id) {
            assert(!front.contains(id));
        }
    }
}

/// The records of a file are those of its text, the first ten thousand, and behind them its
/// anchor.
pub proof fn law_the_anchor_comes_last(file: ScannedFile)
    ensures
        ({
            let text = content_records(file.path@, file.name@, file.content@);
            let kept = if text.len() < 10_000 {
                text.len() as int
            } else {
                10_000
            };
            &&& file_records(file).len() == kept + 1
            &&& file_records(file).take(kept) == text.take(kept)
            &&& file_records(file).last() == anchor_record(file.path@, file.name@, file.content@)
        }),
{
    let text = content_records(file.path@, file.name@, file.content@);
    let kept = if text.len() < 10_000 {
        text.len() as int
    } else {
        10_000
    };
    assert(file_records(file).take(kept) =~= text.take(kept));
}

/// A job embeds, for each record of its file, the name and the child text of the record,
/// marked as a passage, and has 1024 components for each text of the batches of 32 that are
/// embedded.
pub proof fn law_jobs_embed_every_record<'a, V>(job: FileJob<'a, V>)
    requires
        job.wf(),
    ensures
        job.texts@.len() == job.records@.len() == file_records(*job.file).len(),
        forall|i: int|
            0 <= i < job.records@.len() ==> {
                &&& (#[trigger] job.records@[i])@ == file_records(*job.file)[i]
                &&& job.texts@[i]@ == "passage: "@ + job.records@[i].file_name@ + " | "@
                    + job.records@[i].child_text@
            },
        job.run.texts == job.texts@.len(),
        32 * (job.run.batch - 1) < job.run.texts,
        job.vectors@.len() == 1024 * (if 32 * job.run.batch <= job.run.texts {
            32 * job.run.batch
        } else {
            job.run.texts as int
        }),
        job.is_done() <==> !job.given_up && 32 * job.run.batch >= job.run.texts,
{
    let texts = views(job.texts@);
    let records = record_views(job.records@);
    assert(texts.len() == job.texts@.len());
    assert forall|i: int| 0 <= i < job.records@.len() implies {
        &&& (#[trigger] job.records@[i])@ == file_records(*job.file)[i]
        &&& job.texts@[i]@ == "passage: "@ + job.records@[i].file_name@ + " | "@
            + job.records@[i].child_text@
    } by {
        assert(records[i] == job.records@[i]@);
        assert(texts[i] == job.texts@[i]@);
        assert(texts[i] == passage(records[i]));
    }
}

/// Two jobs are the same work where they have the same file, records and texts.
pub proof fn law_same_work_is_the_same_throughout<'a, V>(x: FileJob<'a, V>, y: FileJob<'a, V>)
    ensures
        x.is_same_work(&y) <==> x.file == y.file && x.records == y.records && x.at_cap == y.at_cap
            && x.texts == y.texts,
{
}

/// The components of a batch are those of its vectors, one vector behind the other.
pub proof fn law_components_stand_vector_by_vector<V>(a: Seq<Vec<V>>, v: Vec<V>)
    ensures
        components(Seq::<Vec<V>>::empty()) == Seq::<V>::empty(),
        components(a.push(v)) == components(a) + v@,
{
    let f = |v: Vec<V>| v@;
    assert(Seq::<Vec<V>>::empty().map_values(f) =~= seq![]);
    assert(a.push(v).map_values(f) =~= a.map_values(f).push(v@));
    a.map_values(f).lemma_flatten_push(v@);
}

/// The vectors of a batch are whole where each has 1024 components.
pub proof fn law_whole_vectors_have_all_components<V>(batch: Seq<Vec<V>>)
    ensures
        are_whole(batch) <==> forall|k: int|
            0 <= k < batch.len() ==> (#[trigger] batch[k])@.len() == 1024,
{
}

/// An entry of a file has the hash of its content, its records, and 1024 components for each
/// of them.
pub proof fn law_entries_hold_what_files_hold<V>(file: ScannedFile, e: IndexEntry<V>, i: int)
    requires
        is_entry_of(file, e),
        0 <= i < e.chunks@.len(),
    ensures
        e.hmac@ == file.hmac@,
        e.chunks@.len() == file_records(file).len(),
        e.chunks@[i]@ == file_records(file)[i],
        e.vectors@.len() == 1024 * e.chunks@.len(),
{
    assert(record_views(e.chunks@)[i] == e.chunks@[i]@);
    assert(record_views(e.chunks@).len() == e.chunks@.len());
}

/// A file that is settled with an entry has that entry, and no other file changes; without
/// one nothing changes at all.
pub proof fn law_settling_changes_one_file<V>(
    entries: Entries<V>,
    id: Seq<char>,
    e: IndexEntry<V>,
    other: Seq<char>,
)
    ensures
        settled(entries, id, None) == entries,
        settled(entries, id, Some(e)).dom() == entries.dom().insert(id),
        settled(entries, id, Some(e))[id] == e,
        other != id ==> settled(entries, id, Some(e))[other] == entries[other],
{
    assert(settled(entries, id, Some(e)).dom() =~= entries.dom().insert(id));
}

} // verus!
