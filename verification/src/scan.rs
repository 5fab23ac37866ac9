//! Which files are searched, and what is taken from each.
use crate::index::{Index, IndexEntry};
use crate::text::{chars_of, trim_str};
use vstd::prelude::*;
use vstd::string::*;

verus! {

use crate::index::{
    is_stale,
    law_chunks_keep_their_vectors,
    law_indexing_a_file_settles_it,
    law_retaining_keeps_current_files,
    searchable_chunks,
    Entries,
};
use crate::records::{content_records, law_written_files_have_records};
use crate::text::{lemma_blank_iff_trim_empty, trim, views};
use vstd::utf8::{decode_utf8, encode_utf8, is_ascii_chars, valid_utf8};

/// Files whose trimmed content has fewer bytes than this are not searched.
pub const MIN_CONTENT_BYTES: usize = 20;

/// The lower case of `s`, by the tables of Unicode.
pub uninterp spec fn lowercase(s: Seq<char>) -> Seq<char>;

/// An ASCII letter in lower case; any other character as it is.
pub open spec fn ascii_lowercase(c: char) -> char {
    if 'A' <= c && c <= 'Z' {
        (c as u32 + 32) as char
    } else {
        c
    }
}

/// `str::to_lowercase` gives the lower case of the text, which is a function of the text
/// alone. Of an ASCII text it is the text with its letters in lower case.
pub assume_specification[ str::to_lowercase ](s: &str) -> (r: String)
    ensures
        r@ == lowercase(s@),
        is_ascii_chars(s@) ==> r@ == s@.map_values(|c: char| ascii_lowercase(c)),
;

/// A name, in lower case, that ends like that of a text or Markdown file.
pub open spec fn has_text_extension(lower: Seq<char>) -> bool {
    ".md"@.is_suffix_of(lower) || ".txt"@.is_suffix_of(lower)
}

fn ends_with(s: &str, end: &str) -> (r: bool)
    ensures
        r == end@.is_suffix_of(s@),
{
    let a = chars_of(s);
    let b = chars_of(end);
    if b.len() > a.len() {
        return false;
    }
    let at: usize = a.len() - b.len();
    let mut i: usize = 0;
    while i < b.len()
        invariant
            a@ == s@,
            b@ == end@,
            at + b.len() == a.len(),
            i <= b@.len(),
            forall|k: int| 0 <= k < i ==> b@[k] == a@[at + k],
        decreases b@.len() - i,
    {
        if b[i] != a[at + i] {
            proof {
                assert(a@.subrange(at as int, a@.len() as int)[i as int] == a@[at + i]);
            }
            return false;
        }
        i += 1;
    }
    proof {
        assert(b@ =~= a@.subrange(at as int, a@.len() as int));
    }
    true
}

/// Reports whether a name that is already in lower case ends in `.md` or `.txt`.
pub fn is_text_name(lower: &str) -> (r: bool)
    ensures
        r == has_text_extension(lower@),
{
    ends_with(lower, ".md") || ends_with(lower, ".txt")
}

/// Reports whether a file is searched, as far as its kind and name tell: documents are,
/// whose name ends in `.md` or `.txt` in any case.
pub fn is_searched(is_folder: bool, name: &str) -> (r: bool)
    ensures
        r == (!is_folder && has_text_extension(lowercase(name@))),
        is_ascii_chars(name@) ==> r == (!is_folder && has_text_extension(
            name@.map_values(|c: char| ascii_lowercase(c)),
        )),
{
    if is_folder {
        return false;
    }
    let lower = name.to_lowercase();
    is_text_name(lower.as_str())
}

/// The text that `bytes` are the UTF-8 encoding of, with replacement characters for what
/// is not valid UTF-8.
pub uninterp spec fn utf8_lossy(bytes: Seq<u8>) -> Seq<char>;

/// `String::from_utf8_lossy` decodes the bytes, a function of the bytes alone. Valid
/// UTF-8 it gives back as the text that it encodes.
#[verifier::external_body]
fn from_utf8_lossy(bytes: &[u8]) -> (r: String)
    ensures
        r@ == utf8_lossy(bytes@),
        valid_utf8(bytes@) ==> r@ == decode_utf8(bytes@),
{
    String::from_utf8_lossy(bytes).to_string()
}

/// A text with enough in it to be searched.
pub open spec fn is_worth_indexing(content: Seq<char>) -> bool {
    encode_utf8(trim(content)).len() >= MIN_CONTENT_BYTES
}

/// Reports whether `content` has enough in it to be searched.
pub fn has_enough_content(content: &str) -> (r: bool)
    ensures
        r == is_worth_indexing(content@),
{
    let body = trim_str(content);
    body.as_str().as_bytes().len() >= MIN_CONTENT_BYTES
}

/// The content of a document, where there is enough of it to be searched.
pub fn document_content(raw: &[u8]) -> (r: Option<String>)
    ensures
        r is Some <==> is_worth_indexing(utf8_lossy(raw@)),
        r matches Some(content) ==> content@ == utf8_lossy(raw@),
        valid_utf8(raw@) ==> (r is Some <==> is_worth_indexing(decode_utf8(raw@))),
        valid_utf8(raw@) ==> (r matches Some(content) ==> content@ == decode_utf8(raw@)),
{
    let content = from_utf8_lossy(raw);
    if has_enough_content(content.as_str()) {
        Some(content)
    } else {
        None
    }
}

/// A character that separates the parts of a path on some system.
pub open spec fn is_separator(c: char) -> bool {
    c == '/' || c == '\\' || c == ':'
}

/// A name without such characters.
pub open spec fn is_plain_name(name: Seq<char>) -> bool {
    forall|i: int| 0 <= i < name.len() ==> !is_separator(#[trigger] name[i])
}

/// The characters of `name` from `i` up to `k` stand between two separators, or an end of
/// the name.
pub open spec fn is_part(name: Seq<char>, i: int, k: int) -> bool {
    &&& 0 <= i < k <= name.len()
    &&& i == 0 || is_separator(name[i - 1])
    &&& k == name.len() || is_separator(name[k])
}

/// The position of the last dot in `s`, or -1.
pub open spec fn last_dot(s: Seq<char>) -> int
    decreases s.len(),
{
    if s.len() == 0 {
        -1
    } else if s.last() == '.' {
        s.len() - 1
    } else {
        last_dot(s.drop_last())
    }
}

/// The part of a plain file name before its last dot; all of it where it has none but at
/// its beginning. The empty name and the two names for directories have none.
pub open spec fn stem(name: Seq<char>) -> Option<Seq<char>> {
    if name.len() == 0 || name == "."@ || name == ".."@ {
        None
    } else if last_dot(name) <= 0 {
        Some(name)
    } else {
        Some(name.take(last_dot(name)))
    }
}

/// `s` is the stem of some part of `name`.
pub open spec fn is_stem_in(name: Seq<char>, s: Seq<char>) -> bool {
    exists|i: int, k: int| #[trigger] is_part(name, i, k) && stem(name.subrange(i, k)) == Some(s)
}

/// `Path::file_stem` gives the part of the file name before its last dot. Which of the
/// separators count, and so which part of the name is the file name, depends on the
/// system; on each, the file name stands between separators. A name without separators
/// is its own file name, unless it is empty or stands for a directory.
#[verifier::external_body]
fn file_stem(name: &str) -> (r: Option<String>)
    ensures
        r matches Some(s) ==> is_stem_in(name@, s@),
        is_plain_name(name@) ==> (r is None <==> stem(name@) is None),
{
    let stem = std::path::Path::new(name).file_stem();
    stem.and_then(|s| s.to_str()).map(|s| s.to_string())
}

proof fn lemma_last_dot(s: Seq<char>)
    ensures
        -1 <= last_dot(s) < s.len(),
    decreases s.len(),
{
    if s.len() > 0 && s.last() != '.' {
        lemma_last_dot(s.drop_last());
    }
}

proof fn lemma_stem_is_not_empty(name: Seq<char>, s: Seq<char>)
    requires
        is_stem_in(name, s),
    ensures
        s.len() > 0,
{
    let (i, k) = choose|i: int, k: int| #[trigger]
        is_part(name, i, k) && stem(name.subrange(i, k)) == Some(s);
    lemma_last_dot(name.subrange(i, k));
}

proof fn lemma_plain_name_is_its_part(name: Seq<char>, s: Seq<char>)
    requires
        is_plain_name(name),
        is_stem_in(name, s),
    ensures
        stem(name) == Some(s),
{
    let (i, k) = choose|i: int, k: int| #[trigger]
        is_part(name, i, k) && stem(name.subrange(i, k)) == Some(s);
    assert(i == 0) by {
        if i > 0 {
            assert(is_separator(name[i - 1]));
        }
    }
    assert(k == name.len()) by {
        if k < name.len() {
            assert(is_separator(name[k]));
        }
    }
    assert(name.subrange(0, name.len() as int) =~= name);
}

/// Hyphens and underscores as blanks.
pub open spec fn spaced_text(s: Seq<char>) -> Seq<char> {
    s.map_values(
        |c: char|
            if c == '-' || c == '_' {
                ' '
            } else {
                c
            },
    )
}

/// `s` with a blank for each hyphen and underscore.
pub fn spaced(s: &str) -> (r: String)
    ensures
        r@ == spaced_text(s@),
{
    let chars = chars_of(s);
    let mut out = String::new();
    let mut i: usize = 0;
    proof {
        assert(out@ =~= spaced_text(chars@.take(0)));
    }
    while i < chars.len()
        invariant
            i <= chars@.len(),
            out@ == spaced_text(chars@.take(i as int)),
        decreases chars@.len() - i,
    {
        let c = chars[i];
        out.push(if c == '-' || c == '_' { ' ' } else { c });
        i += 1;
        proof {
            assert(out@ =~= spaced_text(chars@.take(i as int)));
        }
    }
    proof {
        assert(chars@.take(i as int) =~= chars@);
    }
    out
}

/// The name under which a file is shown and searched.
pub open spec fn display_text(name: Seq<char>) -> Seq<char> {
    match stem(name) {
        Some(s) => spaced_text(s),
        None => spaced_text(name),
    }
}

/// `shown` is a name under which the file `name` may be shown: the stem of one of its
/// parts, or all of it, with blanks for hyphens and underscores.
pub open spec fn may_be_shown_as(name: Seq<char>, shown: Seq<char>) -> bool {
    ||| shown == spaced_text(name)
    ||| exists|s: Seq<char>| #[trigger] is_stem_in(name, s) && shown == spaced_text(s)
}

/// The name under which the file `name` is shown and searched: its stem, with blanks for
/// hyphens and underscores. Of a name that holds a path separator, which part of it is
/// taken depends on the system.
pub fn display_name(name: &str) -> (r: String)
    ensures
        is_plain_name(name@) ==> r@ == display_text(name@),
        may_be_shown_as(name@, r@),
        name@.len() > 0 ==> r@.len() > 0,
{
    match file_stem(name) {
        Some(s) => {
            proof {
                if is_plain_name(name@) {
                    lemma_plain_name_is_its_part(name@, s@);
                }
                lemma_stem_is_not_empty(name@, s@);
            }
            spaced(s.as_str())
        },
        None => spaced(name),
    }
}

/// A file that is searched.
pub struct ScannedFile {
    pub id: String,
    pub path: String,
    pub name: String,
    pub content: String,
    pub hmac: Vec<u8>,
}

/// Puts together what is known of a file. A file whose path is not known goes by its
/// name, and one without a content hash has the empty one.
pub fn scanned_file(
    id: String,
    file_name: &str,
    path: Option<String>,
    hmac: Option<Vec<u8>>,
    content: String,
) -> (r: ScannedFile)
    ensures
        r.id == id,
        r.path@ == (match path {
            Some(p) => p@,
            None => file_name@,
        }),
        is_plain_name(file_name@) ==> r.name@ == display_text(file_name@),
        may_be_shown_as(file_name@, r.name@),
        file_name@.len() > 0 ==> r.name@.len() > 0,
        r.content == content,
        r.hmac@ == (match hmac {
            Some(h) => h@,
            None => Seq::<u8>::empty(),
        }),
{
    let path = match path {
        Some(p) => p,
        None => file_name.to_owned(),
    };
    let hmac = match hmac {
        Some(h) => h,
        None => Vec::new(),
    };
    ScannedFile { id, path, name: display_name(file_name), content, hmac }
}

/// The ids of the files.
pub open spec fn file_ids(files: Seq<ScannedFile>) -> Seq<Seq<char>> {
    files.map_values(|f: ScannedFile| f.id@)
}

/// The ids of the scanned files.
pub fn current_ids(files: &Vec<ScannedFile>) -> (r: Vec<String>)
    ensures
        views(r@) == file_ids(files@),
{
    let mut out: Vec<String> = Vec::new();
    let mut i: usize = 0;
    while i < files.len()
        invariant
            i <= files@.len(),
            out@.len() == i,
            forall|k: int| 0 <= k < i ==> (#[trigger] out@[k])@ == files@[k].id@,
        decreases files@.len() - i,
    {
        out.push(files[i].id.clone());
        i += 1;
    }
    proof {
        assert(views(out@) =~= file_ids(files@));
    }
    out
}

/// `due` lists, in order, the positions of exactly those files that have to be indexed.
pub open spec fn are_due<V>(entries: Entries<V>, files: Seq<ScannedFile>, due: Seq<usize>) -> bool {
    &&& forall|a: int, b: int| 0 <= a < b < due.len() ==> due[a] < due[b]
    &&& forall|i: usize| #[trigger]
        due.contains(i) <==> i < files.len() && is_stale(entries, files[i as int].id@, files[i as int].hmac@)
}

/// The positions of the files that have to be indexed: those that are new or changed.
pub fn files_to_index<V>(index: &Index<V>, files: &Vec<ScannedFile>) -> (due: Vec<usize>)
    ensures
        are_due(index@, files@, due@),
{
    let mut due: Vec<usize> = Vec::new();
    let mut i: usize = 0;
    while i < files.len()
        invariant
            i <= files@.len(),
            forall|a: int, b: int| 0 <= a < b < due@.len() ==> due@[a] < due@[b],
            forall|a: int| 0 <= a < due@.len() ==> #[trigger] due@[a] < i,
            forall|k: usize| #[trigger]
                due@.contains(k) <==> k < i && is_stale(
                    index@,
                    files@[k as int].id@,
                    files@[k as int].hmac@,
                ),
        decreases files@.len() - i,
    {
        let ghost before = due@;
        if index.needs_index(files[i].id.as_str(), &files[i].hmac) {
            due.push(i);
            proof {
                assert(due@[before.len() as int] == i);
            }
        }
        proof {
            assert forall|k: usize| #[trigger] due@.contains(k) <==> k < i + 1 && is_stale(
                index@,
                files@[k as int].id@,
                files@[k as int].hmac@,
            ) by {
                assert(before.contains(k) <==> k < i && is_stale(
                    index@,
                    files@[k as int].id@,
                    files@[k as int].hmac@,
                ));
                if before.contains(k) {
                    let a = choose|a: int| 0 <= a < before.len() && before[a] == k;
                    assert(due@[a] == k);
                }
                if due@.contains(k) {
                    let a = choose|a: int| 0 <= a < due@.len() && due@[a] == k;
                    if a < before.len() {
                        assert(before[a] == k);
                    }
                }
            }
        }
        i += 1;
    }
    due
}

/// Brings the index to the files that there are: drops the files that are gone, and gives
/// the positions of those that have to be indexed.
pub fn prepare_index<V>(index: &mut Index<V>, files: &Vec<ScannedFile>) -> (due: Vec<usize>)
    requires
        old(index).wf(),
    ensures
        final(index).wf(),
        final(index)@ == old(index)@.restrict(
            Set::new(|id: Seq<char>| file_ids(files@).contains(id)),
        ),
        are_due(final(index)@, files@, due@),
        are_due(old(index)@, files@, due@),
{
    let current = current_ids(files);
    index.retain(&current);
    let due = files_to_index(index, files);
    proof {
        let ids = Set::new(|id: Seq<char>| file_ids(files@).contains(id));
        assert forall|i: usize| i < files@.len() implies is_stale(
            index@,
            files@[i as int].id@,
            files@[i as int].hmac@,
        ) == #[trigger] is_stale(old(index)@, files@[i as int].id@, files@[i as int].hmac@) by {
            let id = files@[i as int].id@;
            assert(file_ids(files@)[i as int] == id);
            law_retaining_keeps_current_files(old(index)@, ids, id, files@[i as int].hmac@);
        }
    }
    due
}

/// A document that is searched always has records, so it gets into the index.
pub proof fn law_searched_documents_have_records(
    path: Seq<char>,
    name: Seq<char>,
    content: Seq<char>,
)
    requires
        is_worth_indexing(content),
    ensures
        content_records(path, name, content).len() > 0,
{
    if trim(content).len() == 0 {
        assert(trim(content) =~= seq![]);
        assert(encode_utf8(trim(content)).len() == 0);
    }
    lemma_blank_iff_trim_empty(content);
    law_written_files_have_records(path, name, content);
}

/// Indexing a file settles it: the files that are due afterwards are those that were due
/// before, without that one. The ids of the files tell them apart.
pub proof fn law_indexed_files_are_not_due<V>(
    entries: Entries<V>,
    files: Seq<ScannedFile>,
    at: int,
    entry: IndexEntry<V>,
    before: Seq<usize>,
    after: Seq<usize>,
    i: usize,
)
    requires
        file_ids(files).no_duplicates(),
        0 <= at < files.len(),
        entry.hmac@ == files[at].hmac@,
        are_due(entries, files, before),
        are_due(entries.insert(files[at].id@, entry), files, after),
    ensures
        after.contains(i) <==> before.contains(i) && i != at,
{
    if i < files.len() {
        assert(file_ids(files)[i as int] == files[i as int].id@);
        assert(file_ids(files)[at] == files[at].id@);
        law_indexing_a_file_settles_it(
            entries,
            files[at].id@,
            entry,
            files[i as int].id@,
            files[i as int].hmac@,
        );
    }
}

/// A prepared index holds current files only, so a search gives no chunk of a file that is
/// gone: every chunk that is searched is one that the index held of a current file.
pub proof fn law_only_current_files_are_searched<V>(
    entries: Entries<V>,
    files: Seq<ScannedFile>,
    order: Seq<Seq<char>>,
    i: int,
) -> (at: (Seq<char>, int))
    requires
        forall|id: Seq<char>| #[trigger]
            order.contains(id) ==> entries.restrict(
                Set::new(|id: Seq<char>| file_ids(files).contains(id)),
            ).contains_key(id),
        0 <= i < searchable_chunks(
            entries.restrict(Set::new(|id: Seq<char>| file_ids(files).contains(id))),
            order,
        ).len(),
    ensures
        file_ids(files).contains(at.0),
        0 <= at.1 < entries[at.0].chunks@.len(),
        searchable_chunks(
            entries.restrict(Set::new(|id: Seq<char>| file_ids(files).contains(id))),
            order,
        )[i] == entries[at.0].chunks@[at.1],
{
    let current = Set::new(|id: Seq<char>| file_ids(files).contains(id));
    let at = law_chunks_keep_their_vectors(entries.restrict(current), order, i);
    assert(order.contains(at.0));
    at
}

/// A name is that of a text exactly where its last characters are `.md` or `.txt`.
pub proof fn law_texts_end_in_md_or_txt(lower: Seq<char>)
    ensures
        has_text_extension(lower) <==> {
            ||| lower.len() >= 3 && lower.subrange(lower.len() - 3, lower.len() as int)
                == seq!['.', 'm', 'd']
            ||| lower.len() >= 4 && lower.subrange(lower.len() - 4, lower.len() as int)
                == seq!['.', 't', 'x', 't']
        },
{
    reveal_strlit(".md");
    reveal_strlit(".txt");
    assert(".md"@ =~= seq!['.', 'm', 'd']);
    assert(".txt"@ =~= seq!['.', 't', 'x', 't']);
}

/// The lower case of an ASCII letter is 32 behind it, and every other character is its own.
pub proof fn law_capitals_have_a_lower_case(c: char)
    ensures
        'A' <= c <= 'Z' ==> ascii_lowercase(c) as u32 == c as u32 + 32,
        c < 'A' || 'Z' < c ==> ascii_lowercase(c) == c,
{
}

/// A text has enough in it exactly where at least 20 bytes are left of it when it is
/// trimmed.
pub proof fn law_twenty_bytes_are_enough(content: Seq<char>)
    ensures
        is_worth_indexing(content) <==> encode_utf8(trim(content)).len() >= 20,
{
}

proof fn lemma_last_dot_at(s: Seq<char>, k: int)
    requires
        -1 <= k < s.len(),
        k >= 0 ==> s[k] == '.',
        forall|i: int| k < i < s.len() ==> s[i] != '.',
    ensures
        last_dot(s) == k,
    decreases s.len(),
{
    if s.len() > 0 && k < s.len() - 1 {
        lemma_last_dot_at(s.drop_last(), k);
    }
}

/// A plain name is shown up to its last dot, with a blank for each hyphen and underscore and
/// every other character as it is. A dot in front of the name does not count.
pub proof fn law_names_are_shown_up_to_their_last_dot(name: Seq<char>, k: int)
    requires
        0 < k <= name.len(),
        k < name.len() ==> name[k] == '.',
        forall|i: int| k < i < name.len() ==> name[i] != '.',
        k == name.len() ==> forall|i: int| 0 < i < name.len() ==> name[i] != '.',
        !(name.len() == 1 && name[0] == '.'),
        !(name.len() == 2 && name[0] == '.' && name[1] == '.'),
    ensures
        display_text(name).len() == k,
        forall|i: int|
            0 <= i < k ==> #[trigger] display_text(name)[i] == (if name[i] == '-' || name[i] == '_' {
                ' '
            } else {
                name[i]
            }),
{
    reveal_strlit(".");
    reveal_strlit("..");
    if k < name.len() {
        lemma_last_dot_at(name, k);
    } else if name[0] == '.' {
        lemma_last_dot_at(name, 0);
    } else {
        lemma_last_dot_at(name, -1);
    }
}

/// The names of one dot and of two, and the empty one, are shown as they are.
pub proof fn law_names_of_directories_are_shown_whole(name: Seq<char>)
    requires
        name.len() <= 2,
        forall|i: int| 0 <= i < name.len() ==> name[i] == '.',
    ensures
        display_text(name) == name,
{
    reveal_strlit(".");
    reveal_strlit("..");
    if name.len() == 1 {
        assert(name =~= "."@);
    }
    if name.len() == 2 {
        assert(name =~= ".."@);
    }
    assert(spaced_text(name) =~= name);
}

/// A name is plain where it has no slash, no backslash and no colon.
pub proof fn law_plain_names_have_no_separators(name: Seq<char>)
    ensures
        is_plain_name(name) <==> !name.contains('/') && !name.contains('\\') && !name.contains(
            ':',
        ),
{
    if !name.contains('/') && !name.contains('\\') && !name.contains(':') {
        assert forall|i: int| 0 <= i < name.len() implies !is_separator(#[trigger] name[i]) by {
            assert(name.contains(name[i]));
        }
    }
}

/// Hyphens and underscores become blanks, and every other character stays as it is.
pub proof fn law_hyphens_become_blanks(s: Seq<char>)
    ensures
        spaced_text(s).len() == s.len(),
        forall|i: int|
            0 <= i < s.len() ==> #[trigger] spaced_text(s)[i] == (if s[i] == '-' || s[i] == '_' {
                ' '
            } else {
                s[i]
            }),
{
}

/// Whatever name a file is shown under, it is a piece of its own name with blanks for
/// hyphens and underscores.
pub proof fn law_shown_names_are_pieces_of_names(name: Seq<char>, shown: Seq<char>) -> (at: int)
    requires
        may_be_shown_as(name, shown),
    ensures
        0 <= at,
        at + shown.len() <= name.len(),
        forall|i: int|
            0 <= i < shown.len() ==> #[trigger] shown[i] == (if name[at + i] == '-' || name[at + i]
                == '_' {
                ' '
            } else {
                name[at + i]
            }),
        at == 0 || name[at - 1] == '/' || name[at - 1] == '\\' || name[at - 1] == ':',
{
    if shown == spaced_text(name) {
        0
    } else {
        let s = choose|s: Seq<char>| #[trigger] is_stem_in(name, s) && shown == spaced_text(s);
        let (i, k) = choose|i: int, k: int| #[trigger]
            is_part(name, i, k) && stem(name.subrange(i, k)) == Some(s);
        let part = name.subrange(i, k);
        lemma_last_dot(part);
        assert forall|j: int| 0 <= j < s.len() implies #[trigger] s[j] == name[i + j] by {
            assert(s[j] == part[j]);
        }
        i
    }
}

/// The ids of the files are those of each, in their order.
pub proof fn law_ids_keep_places(files: Seq<ScannedFile>)
    ensures
        file_ids(files).len() == files.len(),
        forall|i: int| 0 <= i < files.len() ==> #[trigger] file_ids(files)[i] == files[i].id@,
{
}

/// The files to index are listed in their order, each once, and they are exactly those that
/// the index does not have, or has with another content.
pub proof fn law_new_and_changed_files_are_due<V>(
    entries: Entries<V>,
    files: Seq<ScannedFile>,
    due: Seq<usize>,
    i: usize,
)
    requires
        are_due(entries, files, due),
    ensures
        forall|a: int, b: int| 0 <= a < b < due.len() ==> due[a] < due[b],
        due.contains(i) ==> i < files.len(),
        i < files.len() ==> (due.contains(i) <==> (!entries.dom().contains(files[i as int].id@)
            || entries[files[i as int].id@].hmac@ != files[i as int].hmac@)),
{
}

} // verus!
