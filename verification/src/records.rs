//! The records that a file contributes to the index: its text cut into parent and child
//! chunks, and the passages that are embedded for them.
use crate::chunks::chunk_text;
use crate::sections::split_markdown_sections;
use crate::text::{chars_of, string_of};
use vstd::prelude::*;
use vstd::string::*;

verus! {

use crate::chunks::{
    chunked,
    law_chunks_are_short_trimmed_pieces,
    law_chunks_cover_the_text,
    law_chunks_empty_iff_blank,
    lemma_texts_are_few,
    stands_at,
};
use crate::sections::{law_sections_are_trimmed_and_headed, law_text_has_a_section, sections};
use crate::text::{blank, lemma_trim_trimmed, trimmed, views, white_space};

/// Characters in a child chunk, the unit that is embedded.
pub const CHILD_CHARS: usize = 512;

/// Characters in a parent chunk, the unit that is reranked.
pub const PARENT_CHARS: usize = 2048;

/// Characters that neighbouring child chunks share.
pub const CHILD_OVERLAP: usize = 51;

/// Characters that neighbouring parent chunks share.
pub const PARENT_OVERLAP: usize = 205;

/// The most chunks that one text is cut into.
pub const MAX_CHUNKS_PER_FILE: usize = 10_000;

/// The most chunks of one file that are indexed, not counting its anchor.
pub const MAX_CHUNKS_FOR_INDEXING: usize = 10_000;

/// How many characters of a file stand in the parent text of its anchor.
pub const INTRO_CHARS: usize = 200;

/// One indexed chunk of a file.
#[derive(Clone, Debug)]
pub struct ChunkRecord {
    pub file_path: String,
    pub file_name: String,
    pub parent_chunk: String,
    pub child_text: String,
}

/// What a [`ChunkRecord`] holds.
pub struct RecordView {
    pub file_path: Seq<char>,
    pub file_name: Seq<char>,
    pub parent_chunk: Seq<char>,
    pub child_text: Seq<char>,
}

impl View for ChunkRecord {
    type V = RecordView;

    open spec fn view(&self) -> RecordView {
        RecordView {
            file_path: self.file_path@,
            file_name: self.file_name@,
            parent_chunk: self.parent_chunk@,
            child_text: self.child_text@,
        }
    }
}

/// The views of a vector of records.
pub open spec fn record_views(v: Seq<ChunkRecord>) -> Seq<RecordView> {
    v.map_values(|r: ChunkRecord| r@)
}

/// The records of one parent chunk, one for each of its child chunks.
pub open spec fn parent_records(path: Seq<char>, name: Seq<char>, parent: Seq<char>) -> Seq<
    RecordView,
> {
    chunked(
        parent,
        CHILD_CHARS as int,
        CHILD_OVERLAP as int,
        MAX_CHUNKS_PER_FILE as int,
    ).map_values(
        |child: Seq<char>|
            RecordView {
                file_path: path,
                file_name: name,
                parent_chunk: parent,
                child_text: child,
            },
    )
}

/// The parent chunks of a section.
pub open spec fn parents(section: Seq<char>) -> Seq<Seq<char>> {
    chunked(section, PARENT_CHARS as int, PARENT_OVERLAP as int, MAX_CHUNKS_PER_FILE as int)
}

/// The records of one section.
pub open spec fn section_records(path: Seq<char>, name: Seq<char>, section: Seq<char>) -> Seq<
    RecordView,
> {
    parents(section).flat_map(|parent: Seq<char>| parent_records(path, name, parent))
}

/// The records of a whole file, section by section.
pub open spec fn content_records(path: Seq<char>, name: Seq<char>, content: Seq<char>) -> Seq<
    RecordView,
> {
    sections(content).flat_map(|section: Seq<char>| section_records(path, name, section))
}

/// The first `MAX_CHUNKS_FOR_INDEXING` records.
pub open spec fn capped(records: Seq<RecordView>) -> Seq<RecordView> {
    if records.len() <= MAX_CHUNKS_FOR_INDEXING {
        records
    } else {
        records.take(MAX_CHUNKS_FOR_INDEXING as int)
    }
}

/// The beginning of a file.
pub open spec fn intro(content: Seq<char>) -> Seq<char> {
    if content.len() <= INTRO_CHARS {
        content
    } else {
        content.take(INTRO_CHARS as int)
    }
}

/// The record by which a file is found under its name.
pub open spec fn anchor_record(path: Seq<char>, name: Seq<char>, content: Seq<char>) -> RecordView {
    RecordView {
        file_path: path,
        file_name: name,
        parent_chunk: name.push('\n') + intro(content),
        child_text: name,
    }
}

/// What a file contributes to the index.
pub struct FileChunks {
    /// The records of the file's text, then its anchor.
    pub records: Vec<ChunkRecord>,
    /// Whether the text reached the limit on indexed chunks.
    pub at_cap: bool,
}

proof fn lemma_record_views_push(v: Seq<ChunkRecord>, r: ChunkRecord)
    ensures
        record_views(v.push(r)) == record_views(v).push(r@),
{
    assert(record_views(v.push(r)) =~= record_views(v).push(r@));
}

/// Appends the records of `parent` to `out`, up to the limit, and reports whether the
/// limit is reached.
fn add_parent(out: &mut Vec<ChunkRecord>, path: &str, name: &str, parent: &str) -> (full: bool)
    requires
        old(out)@.len() < MAX_CHUNKS_FOR_INDEXING,
    ensures
        record_views(final(out)@) == capped(
            record_views(old(out)@) + parent_records(path@, name@, parent@),
        ),
        full == (final(out)@.len() == MAX_CHUNKS_FOR_INDEXING),
        final(out)@.len() <= MAX_CHUNKS_FOR_INDEXING,
{
    let children = chunk_text(parent, CHILD_CHARS, CHILD_OVERLAP, MAX_CHUNKS_PER_FILE);
    let ghost before = record_views(out@);
    let ghost new = parent_records(path@, name@, parent@);
    let mut i: usize = 0;
    proof {
        assert(record_views(out@) =~= before + new.take(0));
        assert(new.len() == views(children@).len());
    }
    while i < children.len()
        invariant
            i <= children@.len(),
            before == record_views(old(out)@),
            new == parent_records(path@, name@, parent@),
            views(children@) == chunked(
                parent@,
                CHILD_CHARS as int,
                CHILD_OVERLAP as int,
                MAX_CHUNKS_PER_FILE as int,
            ),
            new.len() == children@.len(),
            record_views(out@) == before + new.take(i as int),
            out@.len() < MAX_CHUNKS_FOR_INDEXING,
        decreases children@.len() - i,
    {
        let record = ChunkRecord {
            file_path: path.to_owned(),
            file_name: name.to_owned(),
            parent_chunk: parent.to_owned(),
            child_text: children[i].clone(),
        };
        proof {
            assert(views(children@)[i as int] == children@[i as int]@);
            lemma_record_views_push(out@, record);
            assert(record@ == new[i as int]);
            assert(new.take(i + 1) =~= new.take(i as int).push(new[i as int]));
        }
        out.push(record);
        i += 1;
        proof {
            assert(record_views(out@) =~= before + new.take(i as int));
        }
        if out.len() >= MAX_CHUNKS_FOR_INDEXING {
            proof {
                assert(record_views(out@) =~= capped(before + new));
            }
            return true;
        }
    }
    proof {
        assert(new.take(i as int) =~= new);
    }
    false
}

/// Appends the records of `section` to `out`, up to the limit, and reports whether the
/// limit is reached.
fn add_section(out: &mut Vec<ChunkRecord>, path: &str, name: &str, section: &str) -> (full: bool)
    requires
        old(out)@.len() < MAX_CHUNKS_FOR_INDEXING,
    ensures
        record_views(final(out)@) == capped(
            record_views(old(out)@) + section_records(path@, name@, section@),
        ),
        full == (final(out)@.len() == MAX_CHUNKS_FOR_INDEXING),
        final(out)@.len() <= MAX_CHUNKS_FOR_INDEXING,
{
    let pieces = chunk_text(section, PARENT_CHARS, PARENT_OVERLAP, MAX_CHUNKS_PER_FILE);
    let ghost before = record_views(out@);
    let ghost f = |parent: Seq<char>| parent_records(path@, name@, parent);
    let ghost all = parents(section@);
    let mut i: usize = 0;
    proof {
        assert(all.take(0).map_values(f) =~= seq![]);
        assert(record_views(out@) =~= before + all.take(0).flat_map(f));
    }
    while i < pieces.len()
        invariant
            i <= pieces@.len(),
            before == record_views(old(out)@),
            all == parents(section@),
            views(pieces@) == all,
            f == (|parent: Seq<char>| parent_records(path@, name@, parent)),
            record_views(out@) == before + all.take(i as int).flat_map(f),
            out@.len() < MAX_CHUNKS_FOR_INDEXING,
        decreases pieces@.len() - i,
    {
        let ghost so_far = record_views(out@);
        let full = add_parent(out, path, name, pieces[i].as_str());
        proof {
            assert(views(pieces@)[i as int] == pieces@[i as int]@);
            let done = all.take(i as int).flat_map(f);
            let step = f(all[i as int]);
            all.lemma_flat_map_take_append(f, i as int);
            assert(so_far + step =~= before + all.take(i + 1).flat_map(f));
            if full {
                lemma_capped_prefix(before, all, f, i + 1);
            }
        }
        if full {
            return true;
        }
        i += 1;
    }
    proof {
        assert(all.take(i as int) =~= all);
    }
    false
}

/// Once the limit is reached, what would follow changes nothing.
proof fn lemma_capped_prefix(
    before: Seq<RecordView>,
    all: Seq<Seq<char>>,
    f: spec_fn(Seq<char>) -> Seq<RecordView>,
    n: int,
)
    requires
        0 <= n <= all.len(),
        (before + all.take(n).flat_map(f)).len() >= MAX_CHUNKS_FOR_INDEXING,
    ensures
        capped(before + all.flat_map(f)) == capped(before + all.take(n).flat_map(f)),
    decreases all.len() - n,
{
    if n < all.len() {
        all.lemma_flat_map_take_append(f, n);
        lemma_capped_prefix(before, all, f, n + 1);
        assert(capped(before + all.take(n + 1).flat_map(f)) =~= capped(
            before + all.take(n).flat_map(f),
        ));
    } else {
        assert(all.take(n) =~= all);
    }
}

/// The records of the text of a file, up to the limit, and whether the limit is reached.
fn text_records(path: &str, name: &str, content: &str) -> (r: FileChunks)
    ensures
        record_views(r.records@) == capped(content_records(path@, name@, content@)),
        r.at_cap == (content_records(path@, name@, content@).len() >= MAX_CHUNKS_FOR_INDEXING),
{
    let parts = split_markdown_sections(content);
    let mut out: Vec<ChunkRecord> = Vec::new();
    let ghost f = |section: Seq<char>| section_records(path@, name@, section);
    let ghost all = sections(content@);
    let ghost none = Seq::<RecordView>::empty();
    let mut i: usize = 0;
    proof {
        assert(all.take(0).map_values(f) =~= seq![]);
        assert(record_views(out@) =~= none + all.take(0).flat_map(f));
        assert(none + all.flat_map(f) =~= all.flat_map(f));
    }
    while i < parts.len()
        invariant
            i <= parts@.len(),
            all == sections(content@),
            views(parts@) == all,
            none.len() == 0,
            f == (|section: Seq<char>| section_records(path@, name@, section)),
            none + all.flat_map(f) == content_records(path@, name@, content@),
            record_views(out@) == none + all.take(i as int).flat_map(f),
            out@.len() < MAX_CHUNKS_FOR_INDEXING,
        decreases parts@.len() - i,
    {
        let ghost so_far = record_views(out@);
        let full = add_section(&mut out, path, name, parts[i].as_str());
        proof {
            assert(views(parts@)[i as int] == parts@[i as int]@);
            all.lemma_flat_map_take_append(f, i as int);
            let step = f(all[i as int]);
            assert(so_far + step =~= none + all.take(i + 1).flat_map(f));
            if full {
                lemma_capped_prefix(none, all, f, i + 1);
                assert(record_views(out@).len() == MAX_CHUNKS_FOR_INDEXING);
            }
        }
        if full {
            return FileChunks { records: out, at_cap: true };
        }
        i += 1;
    }
    proof {
        assert(all.take(i as int) =~= all);
    }
    FileChunks { records: out, at_cap: false }
}

/// The first `INTRO_CHARS` characters of `content`, behind `name` and a newline.
fn anchor_text(name: &str, content: &str) -> (r: String)
    ensures
        r@ == name@.push('\n') + intro(content@),
{
    let mut out = name.to_owned();
    out.push('\n');
    let chars = chars_of(content);
    let n: usize = if chars.len() < INTRO_CHARS {
        chars.len()
    } else {
        INTRO_CHARS
    };
    let head = string_of(&chars, 0, n);
    out.append(head.as_str());
    proof {
        assert(head@ =~= intro(content@));
    }
    out
}

/// Cuts a file into the records that the index keeps of it: those of its text, up to the
/// limit, and behind them its anchor. A file without text has none.
pub fn chunk_file(path: &str, name: &str, content: &str) -> (r: Option<FileChunks>)
    ensures
        r is None <==> content_records(path@, name@, content@).len() == 0,
        r matches Some(c) ==> record_views(c.records@) == capped(
            content_records(path@, name@, content@),
        ).push(anchor_record(path@, name@, content@)),
        r matches Some(c) ==> c.at_cap == (content_records(path@, name@, content@).len()
            >= MAX_CHUNKS_FOR_INDEXING),
{
    let mut chunks = text_records(path, name, content);
    proof {
        assert(record_views(chunks.records@).len() == chunks.records@.len());
    }
    if chunks.records.len() == 0 {
        return None;
    }
    let anchor = ChunkRecord {
        file_path: path.to_owned(),
        file_name: name.to_owned(),
        parent_chunk: anchor_text(name, content),
        child_text: name.to_owned(),
    };
    proof {
        lemma_record_views_push(chunks.records@, anchor);
    }
    chunks.records.push(anchor);
    Some(chunks)
}

/// The text that is embedded for a record.
pub open spec fn passage(record: RecordView) -> Seq<char> {
    "passage: "@ + record.file_name + " | "@ + record.child_text
}

/// The texts that are embedded for `records`, one for each.
pub fn passages(records: &Vec<ChunkRecord>) -> (r: Vec<String>)
    ensures
        views(r@) == record_views(records@).map_values(|record: RecordView| passage(record)),
        r@.len() == records@.len(),
        forall|i: int|
            0 <= i < r@.len() ==> (#[trigger] r@[i])@ == "passage: "@ + records@[i].file_name@
                + " | "@ + records@[i].child_text@,
{
    let mut out: Vec<String> = Vec::new();
    let mut i: usize = 0;
    while i < records.len()
        invariant
            i <= records@.len(),
            out@.len() == i,
            forall|k: int| 0 <= k < i ==> (#[trigger] out@[k])@ == passage(records@[k]@),
        decreases records@.len() - i,
    {
        let mut text = "passage: ".to_owned();
        text.append(records[i].file_name.as_str());
        text.append(" | ");
        text.append(records[i].child_text.as_str());
        out.push(text);
        i += 1;
    }
    proof {
        assert(views(out@) =~= record_views(records@).map_values(
            |record: RecordView| passage(record),
        ));
    }
    out
}

/// The text that is embedded for a query or another labelled text.
pub fn prefixed(prefix: &str, text: &str) -> (r: String)
    ensures
        r@ == prefix@ + ": "@ + text@,
{
    let mut out = prefix.to_owned();
    out.append(": ");
    out.append(text);
    out
}

/// A file whose content is not blank always has records, so it is always indexed.
pub proof fn law_written_files_have_records(path: Seq<char>, name: Seq<char>, content: Seq<char>)
    requires
        !blank(content),
    ensures
        content_records(path, name, content).len() > 0,
{
    let section = sections(content)[0];
    law_text_has_a_section(content);
    law_sections_are_trimmed_and_headed(content, 0);
    assert(!blank(section)) by {
        assert(!white_space(section[0]));
    }
    law_chunks_empty_iff_blank(
        section,
        PARENT_CHARS as int,
        PARENT_OVERLAP as int,
        MAX_CHUNKS_PER_FILE as int,
    );
    let parent = parents(section)[0];
    law_chunks_are_short_trimmed_pieces(
        section,
        PARENT_CHARS as int,
        PARENT_OVERLAP as int,
        MAX_CHUNKS_PER_FILE as int,
        0,
    );
    assert(!blank(parent)) by {
        assert(!white_space(parent[0]));
    }
    law_chunks_empty_iff_blank(
        parent,
        CHILD_CHARS as int,
        CHILD_OVERLAP as int,
        MAX_CHUNKS_PER_FILE as int,
    );
    let of_parent = |p: Seq<char>| parent_records(path, name, p);
    let of_section = |s: Seq<char>| section_records(path, name, s);
    lemma_flat_map_not_empty(parents(section), of_parent, 0);
    lemma_flat_map_not_empty(sections(content), of_section, 0);
}

proof fn lemma_flat_map_not_empty<B>(
    all: Seq<Seq<char>>,
    f: spec_fn(Seq<char>) -> Seq<B>,
    i: int,
)
    requires
        0 <= i < all.len(),
        f(all[i]).len() > 0,
    ensures
        all.flat_map(f).len() > 0,
{
    all.map_values(f).lemma_flatten_length_ge_single_element_length(i);
    all.map_values(f).lemma_flatten_and_flatten_alt_are_equivalent();
}

/// `piece` stands in one of the sections of `content`.
pub open spec fn stands_in_a_section(content: Seq<char>, piece: Seq<char>) -> bool {
    exists|k: int, at: int|
        0 <= k < sections(content).len() && #[trigger] stands_at(sections(content)[k], piece, at)
}

/// Every record of a file's text carries the file's path and name. Its parent text is a
/// piece of one section, and its child text is a piece of its parent text; both are
/// trimmed, not empty, and at most `PARENT_CHARS` and `CHILD_CHARS` long.
pub proof fn law_records_name_their_file(
    path: Seq<char>,
    name: Seq<char>,
    content: Seq<char>,
    i: int,
)
    requires
        0 <= i < content_records(path, name, content).len(),
    ensures
        ({
            let r = content_records(path, name, content)[i];
            &&& r.file_path == path
            &&& r.file_name == name
            &&& 0 < r.child_text.len() <= CHILD_CHARS
            &&& 0 < r.parent_chunk.len() <= PARENT_CHARS
            &&& trimmed(r.child_text)
            &&& trimmed(r.parent_chunk)
            &&& stands_in_a_section(content, r.parent_chunk)
            &&& exists|at: int| stands_at(r.parent_chunk, r.child_text, at)
        }),
{
    let of_section = |s: Seq<char>| section_records(path, name, s);
    let (k, j) = lemma_flat_map_at(sections(content), of_section, i);
    let section = sections(content)[k];
    let of_parent = |p: Seq<char>| parent_records(path, name, p);
    let (m, c) = lemma_flat_map_at(parents(section), of_parent, j);
    let parent = parents(section)[m];
    law_chunks_are_short_trimmed_pieces(
        section,
        PARENT_CHARS as int,
        PARENT_OVERLAP as int,
        MAX_CHUNKS_PER_FILE as int,
        m,
    );
    law_chunks_are_short_trimmed_pieces(
        parent,
        CHILD_CHARS as int,
        CHILD_OVERLAP as int,
        MAX_CHUNKS_PER_FILE as int,
        c,
    );
    lemma_trim_trimmed(parent);
    law_sections_are_trimmed_and_headed(content, k);
    lemma_trim_trimmed(section);
    let at = choose|at: int| stands_at(section, parent, at);
    assert(stands_at(sections(content)[k], parent, at));
}

/// The member of `all`, and the place within what it maps to, that the member at `i` of
/// the flattened sequence comes from.
proof fn lemma_flat_map_at<B>(all: Seq<Seq<char>>, f: spec_fn(Seq<char>) -> Seq<B>, i: int) -> (r: (
    int,
    int,
))
    requires
        0 <= i < all.flat_map(f).len(),
    ensures
        0 <= r.0 < all.len(),
        0 <= r.1 < f(all[r.0]).len(),
        all.flat_map(f)[i] == f(all[r.0])[r.1],
    decreases all.len(),
{
    let first = f(all[0]);
    let rest = all.drop_first();
    assert(all.map_values(f).drop_first() =~= rest.map_values(f));
    assert(all.flat_map(f) == first + rest.flat_map(f));
    if i < first.len() {
        (0, i)
    } else {
        let (k, j) = lemma_flat_map_at(rest, f, i - first.len());
        (k + 1, j)
    }
}

proof fn lemma_flat_map_contains<B>(
    all: Seq<Seq<char>>,
    f: spec_fn(Seq<char>) -> Seq<B>,
    i: int,
    x: B,
)
    requires
        0 <= i < all.len(),
        f(all[i]).contains(x),
    ensures
        all.flat_map(f).contains(x),
    decreases all.len(),
{
    let first = f(all[0]);
    let rest = all.drop_first();
    assert(all.map_values(f).drop_first() =~= rest.map_values(f));
    assert(all.flat_map(f) == first + rest.flat_map(f));
    if i == 0 {
        let k = choose|k: int| 0 <= k < first.len() && first[k] == x;
        assert(all.flat_map(f)[k] == x);
    } else {
        lemma_flat_map_contains(rest, f, i - 1, x);
        let k = choose|k: int| 0 <= k < rest.flat_map(f).len() && rest.flat_map(f)[k] == x;
        assert(all.flat_map(f)[first.len() + k] == x);
    }
}

/// What maps to something each time maps to at least as much as there is.
proof fn lemma_flat_map_not_shorter<B>(all: Seq<Seq<char>>, f: spec_fn(Seq<char>) -> Seq<B>)
    requires
        forall|i: int| 0 <= i < all.len() ==> f(#[trigger] all[i]).len() > 0,
    ensures
        all.flat_map(f).len() >= all.len(),
    decreases all.len(),
{
    if all.len() > 0 {
        let rest = all.drop_first();
        assert(all.map_values(f).drop_first() =~= rest.map_values(f));
        assert(all.flat_map(f) == f(all[0]) + rest.flat_map(f));
        assert forall|i: int| 0 <= i < rest.len() implies f(#[trigger] rest[i]).len() > 0 by {
            assert(rest[i] == all[i + 1]);
        }
        lemma_flat_map_not_shorter(rest, f);
    }
}

/// The child chunks of a trimmed parent chunk: it has some, and they hold every character
/// of it that is not white space.
proof fn lemma_children_cover(parent: Seq<char>, q: int) -> (r: (int, int))
    requires
        trimmed(parent),
        0 <= q < parent.len() <= PARENT_CHARS,
        !white_space(parent[q]),
    ensures
        ({
            let children = chunked(
                parent,
                CHILD_CHARS as int,
                CHILD_OVERLAP as int,
                MAX_CHUNKS_PER_FILE as int,
            );
            &&& 0 <= r.0 < children.len()
            &&& stands_at(parent, children[r.0], r.1)
            &&& r.1 <= q < r.1 + children[r.0].len()
        }),
{
    let children = chunked(
        parent,
        CHILD_CHARS as int,
        CHILD_OVERLAP as int,
        MAX_CHUNKS_PER_FILE as int,
    );
    lemma_trim_trimmed(parent);
    lemma_texts_are_few(parent, CHILD_CHARS as int, CHILD_OVERLAP as int);
    law_chunks_cover_the_text(
        parent,
        CHILD_CHARS as int,
        CHILD_OVERLAP as int,
        MAX_CHUNKS_PER_FILE as int,
        q,
    );
    choose|c: int, b: int|
        0 <= c < children.len() && #[trigger] stands_at(parent, children[c], b) && b <= q < b
            + children[c].len()
}

/// The child text of `record` stands in `section`, within the parent chunk, around the
/// position `p`.
pub open spec fn holds_position(record: RecordView, section: Seq<char>, p: int) -> bool {
    exists|a: int, b: int|
        #[trigger] stands_at(section, record.parent_chunk, a) && #[trigger] stands_at(
            record.parent_chunk,
            record.child_text,
            b,
        ) && a + b <= p < a + b + record.child_text.len()
}

/// Nothing of a file is left out of its records, unless the file reaches the limit: every
/// character of a section that is not white space stands in the child text of a record,
/// at its place in the section.
pub proof fn law_records_cover_the_sections(
    path: Seq<char>,
    name: Seq<char>,
    content: Seq<char>,
    i: int,
    p: int,
)
    requires
        content_records(path, name, content).len() < MAX_CHUNKS_FOR_INDEXING,
        0 <= i < sections(content).len(),
        0 <= p < sections(content)[i].len(),
        !white_space(sections(content)[i][p]),
    ensures
        exists|record: RecordView| #[trigger]
            content_records(path, name, content).contains(record) && holds_position(
                record,
                sections(content)[i],
                p,
            ),
{
    let section = sections(content)[i];
    let of_section = |s: Seq<char>| section_records(path, name, s);
    let of_parent = |s: Seq<char>| parent_records(path, name, s);
    law_sections_are_trimmed_and_headed(content, i);
    lemma_trim_trimmed(section);
    let all = parents(section);
    assert forall|j: int| 0 <= j < all.len() implies of_parent(#[trigger] all[j]).len() > 0 by {
        law_chunks_are_short_trimmed_pieces(
            section,
            PARENT_CHARS as int,
            PARENT_OVERLAP as int,
            MAX_CHUNKS_PER_FILE as int,
            j,
        );
        let _ = lemma_children_cover(all[j], 0);
    }
    lemma_flat_map_not_shorter(all, of_parent);
    sections(content).map_values(of_section).lemma_flatten_length_ge_single_element_length(i);
    sections(content).map_values(of_section).lemma_flatten_and_flatten_alt_are_equivalent();
    law_chunks_cover_the_text(
        section,
        PARENT_CHARS as int,
        PARENT_OVERLAP as int,
        MAX_CHUNKS_PER_FILE as int,
        p,
    );
    let (j, a) = choose|j: int, a: int|
        0 <= j < all.len() && #[trigger] stands_at(section, all[j], a) && a <= p < a
            + all[j].len();
    let parent = all[j];
    law_chunks_are_short_trimmed_pieces(
        section,
        PARENT_CHARS as int,
        PARENT_OVERLAP as int,
        MAX_CHUNKS_PER_FILE as int,
        j,
    );
    assert(parent[p - a] == section[p]);
    let (c, b) = lemma_children_cover(parent, p - a);
    let record = of_parent(parent)[c];
    assert(of_parent(parent).contains(record));
    lemma_flat_map_contains(all, of_parent, j, record);
    lemma_flat_map_contains(sections(content), of_section, i, record);
    assert(stands_at(section, record.parent_chunk, a));
    assert(stands_at(record.parent_chunk, record.child_text, b));
    assert(holds_position(record, section, p));
}

/// The view of a list of records has at each place the four texts of the record there.
pub proof fn law_records_are_seen_as_they_are(v: Seq<ChunkRecord>)
    ensures
        record_views(v).len() == v.len(),
        forall|i: int|
            0 <= i < v.len() ==> (#[trigger] record_views(v)[i]).file_path == v[i].file_path@
                && record_views(v)[i].file_name == v[i].file_name@ && record_views(
                v,
            )[i].parent_chunk == v[i].parent_chunk@ && record_views(v)[i].child_text
                == v[i].child_text@,
{
}

/// The records of a text come section by section. A section is cut into parent chunks of
/// 2048 characters, of which neighbours share 205, and each parent chunk into child chunks of
/// 512 characters, of which neighbours share 51. Each child chunk is a record, which has the
/// parent chunk with it.
pub proof fn law_records_are_children_of_parents(
    path: Seq<char>,
    name: Seq<char>,
    content: Seq<char>,
)
    ensures
        content_records(path, name, content) == sections(content).flat_map(
            |section: Seq<char>|
                chunked(section, 2048, 205, 10_000).flat_map(
                    |parent: Seq<char>|
                        chunked(parent, 512, 51, 10_000).map_values(
                            |child: Seq<char>|
                                RecordView {
                                    file_path: path,
                                    file_name: name,
                                    parent_chunk: parent,
                                    child_text: child,
                                },
                        ),
                ),
        ),
{
    let f = |parent: Seq<char>|
        chunked(parent, 512, 51, 10_000).map_values(
            |child: Seq<char>|
                RecordView {
                    file_path: path,
                    file_name: name,
                    parent_chunk: parent,
                    child_text: child,
                },
        );
    let g = |section: Seq<char>| chunked(section, 2048, 205, 10_000).flat_map(f);
    let all = sections(content);
    let h = |section: Seq<char>| section_records(path, name, section);
    assert forall|i: int| 0 <= i < all.len() implies h(#[trigger] all[i]) == g(all[i]) by {
        let ps = parents(all[i]);
        assert(ps.map_values(|parent: Seq<char>| parent_records(path, name, parent))
            =~= ps.map_values(f));
    }
    assert(all.map_values(h) =~= all.map_values(g));
}

/// Of the records of a text, the first ten thousand are kept, and they are kept in their
/// order.
pub proof fn law_ten_thousand_records_are_kept(records: Seq<RecordView>)
    ensures
        records.len() <= 10_000 ==> capped(records) == records,
        records.len() > 10_000 ==> capped(records) == records.take(10_000),
{
}

/// The anchor of a file is found by the file's name alone, and shows the name and, on the
/// next line, the first 200 characters of the file.
pub proof fn law_anchors_hold_the_name_and_the_beginning(
    path: Seq<char>,
    name: Seq<char>,
    content: Seq<char>,
)
    ensures
        ({
            let anchor = anchor_record(path, name, content);
            let shown = if content.len() < 200 {
                content.len() as int
            } else {
                200
            };
            &&& anchor.file_path == path
            &&& anchor.file_name == name
            &&& anchor.child_text == name
            &&& anchor.parent_chunk == name + seq!['\n'] + content.take(shown)
        }),
{
    assert(content.take(content.len() as int) =~= content);
    assert(name.push('\n') =~= name + seq!['\n']);
}

} // verus!
