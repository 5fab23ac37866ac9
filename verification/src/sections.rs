//! Splitting a Markdown text into sections at its heading lines.
use crate::text::{chars_of, is_white_space, string_of, trim_bounds};
use vstd::prelude::*;

verus! {

use crate::text::{
    blank,
    lemma_blank_iff_trim_empty,
    lemma_trim_bounds,
    lemma_trim_cut,
    trim,
    trimmed,
    views,
    white_space,
};

/// How many characters stand before the first newline of `s`, or in all of `s` where it
/// has none.
pub open spec fn line_len(s: Seq<char>) -> nat
    decreases s.len(),
{
    if s.len() == 0 || s[0] == '\n' {
        0
    } else {
        1 + line_len(s.drop_first())
    }
}

/// The first line of `s`, without the newline, or the carriage return and newline, that
/// ends it.
pub open spec fn first_line(s: Seq<char>) -> Seq<char> {
    let k = line_len(s) as int;
    if 0 < k < s.len() && s[k - 1] == '\r' {
        s.take(k - 1)
    } else {
        s.take(k)
    }
}

/// What stands behind the first line of `s`.
pub open spec fn after_first_line(s: Seq<char>) -> Seq<char> {
    let k = line_len(s) as int;
    if k < s.len() {
        s.skip(k + 1)
    } else {
        seq![]
    }
}

/// The lines of `s`. The last one needs no newline behind it.
pub open spec fn lines(s: Seq<char>) -> Seq<Seq<char>>
    decreases s.len(),
{
    if s.len() == 0 {
        seq![]
    } else {
        seq![first_line(s)] + lines(after_first_line(s))
    }
}

pub open spec fn is_heading(line: Seq<char>) -> bool {
    line.len() > 0 && line[0] == '#'
}

/// The sections of `lines`, the first of which begins with `current`: a heading line
/// opens a new section unless all before it is blank. Blank sections are left out.
pub open spec fn grouped(current: Seq<char>, lines: Seq<Seq<char>>) -> Seq<Seq<char>>
    decreases lines.len(),
{
    if lines.len() == 0 {
        if blank(current) {
            seq![]
        } else {
            seq![trim(current)]
        }
    } else if is_heading(lines[0]) && !blank(current) {
        seq![trim(current)] + grouped(lines[0].push('\n'), lines.drop_first())
    } else {
        grouped((current + lines[0]).push('\n'), lines.drop_first())
    }
}

/// The sections of a text; of a blank one, its trimmed text alone.
pub open spec fn sections(text: Seq<char>) -> Seq<Seq<char>> {
    let found = grouped(seq![], lines(text));
    if found.len() == 0 {
        seq![trim(text)]
    } else {
        found
    }
}

proof fn lemma_line_len_bound(s: Seq<char>)
    ensures
        line_len(s) <= s.len(),
        line_len(s) < s.len() ==> s[line_len(s) as int] == '\n',
        forall|i: int| 0 <= i < line_len(s) ==> s[i] != '\n',
    decreases s.len(),
{
    if s.len() > 0 && s[0] != '\n' {
        lemma_line_len_bound(s.drop_first());
        assert forall|i: int| 0 <= i < line_len(s) implies s[i] != '\n' by {
            if i > 0 {
                assert(s[i] == s.drop_first()[i - 1]);
            }
        }
    }
}

proof fn lemma_lines_step(s: Seq<char>)
    requires
        s.len() > 0,
    ensures
        lines(s).len() > 0,
        lines(s)[0] == first_line(s),
        lines(s).drop_first() == lines(after_first_line(s)),
{
    assert(lines(s).drop_first() =~= lines(after_first_line(s)));
}

/// Reports whether `chars` holds nothing but white space.
fn is_blank(chars: &Vec<char>) -> (r: bool)
    ensures
        r == blank(chars@),
{
    let mut i: usize = 0;
    while i < chars.len()
        invariant
            i <= chars@.len(),
            forall|j: int| 0 <= j < i ==> white_space(#[trigger] chars@[j]),
        decreases chars@.len() - i,
    {
        if !is_white_space(chars[i]) {
            return false;
        }
        i += 1;
    }
    true
}

/// Appends the trimmed text of `current` to `out`.
fn push_trimmed(out: &mut Vec<String>, current: &Vec<char>)
    ensures
        views(final(out)@) == views(old(out)@).push(trim(current@)),
{
    let (a, b) = trim_bounds(current, 0, current.len());
    proof {
        assert(current@.subrange(0, current@.len() as int) =~= current@);
    }
    out.push(string_of(current, a, b));
    proof {
        assert(views(out@) =~= views(old(out)@).push(trim(current@)));
    }
}

/// Appends `chars[from..to]` to `current`.
fn push_range(current: &mut Vec<char>, chars: &Vec<char>, from: usize, to: usize)
    requires
        from <= to <= chars@.len(),
    ensures
        final(current)@ == old(current)@ + chars@.subrange(from as int, to as int),
{
    let mut i: usize = from;
    proof {
        assert(current@ =~= old(current)@ + chars@.subrange(from as int, from as int));
    }
    while i < to
        invariant
            from <= i <= to <= chars@.len(),
            current@ == old(current)@ + chars@.subrange(from as int, i as int),
        decreases to - i,
    {
        current.push(chars[i]);
        i += 1;
        proof {
            assert(current@ =~= old(current)@ + chars@.subrange(from as int, i as int));
        }
    }
}

/// The position of the first newline in `chars` at or behind `from`, or the end of
/// `chars`.
fn line_end(chars: &Vec<char>, from: usize) -> (r: usize)
    requires
        from <= chars@.len(),
    ensures
        r == from + line_len(chars@.skip(from as int)),
        r <= chars@.len(),
{
    let mut k: usize = from;
    while k < chars.len() && chars[k] != '\n'
        invariant
            from <= k <= chars@.len(),
            line_len(chars@.skip(from as int)) == (k - from) + line_len(chars@.skip(k as int)),
        decreases chars@.len() - k,
    {
        proof {
            assert(chars@.skip(k as int)[0] == chars@[k as int]);
            assert(chars@.skip(k as int).drop_first() =~= chars@.skip(k + 1));
        }
        k += 1;
    }
    proof {
        if k < chars@.len() {
            assert(chars@.skip(k as int)[0] == chars@[k as int]);
        }
    }
    k
}

/// Splits `text` at its heading lines, the lines that begin with `#`. Each section runs
/// from its heading up to the next one; what stands before the first heading is a
/// section of its own. Sections are trimmed, their lines end in a bare newline, and
/// blank ones are left out, except that a blank text gives one empty section.
pub fn split_markdown_sections(text: &str) -> (r: Vec<String>)
    ensures
        views(r@) == sections(text@),
{
    let chars = chars_of(text);
    let mut out: Vec<String> = Vec::new();
    let mut current: Vec<char> = Vec::new();
    let mut pos: usize = 0;
    let ghost all = grouped(seq![], lines(text@));
    proof {
        assert(chars@.skip(0) =~= chars@);
        assert(views(out@) + all =~= all);
    }
    while pos < chars.len()
        invariant
            chars@ == text@,
            pos <= chars@.len(),
            all == views(out@) + grouped(current@, lines(chars@.skip(pos as int))),
        decreases chars@.len() - pos,
    {
        let ghost s = chars@.skip(pos as int);
        let end: usize = line_end(&chars, pos);
        proof {
            lemma_line_len_bound(s);
            lemma_lines_step(s);
        }
        let stop: usize = if pos < end && end < chars.len() && chars[end - 1] == '\r' {
            end - 1
        } else {
            end
        };
        proof {
            assert(chars@.subrange(pos as int, stop as int) =~= first_line(s));
        }
        let heading: bool = pos < stop && chars[pos] == '#';
        if heading && !is_blank(&current) {
            let ghost before = out@;
            push_trimmed(&mut out, &current);
            proof {
                assert(all =~= views(out@) + grouped(
                    first_line(s).push('\n'),
                    lines(after_first_line(s)),
                ));
            }
            current = Vec::new();
        }
        let ghost kept = current@;
        push_range(&mut current, &chars, pos, stop);
        current.push('\n');
        proof {
            assert(seq![] + first_line(s) =~= first_line(s));
        }
        pos = if end < chars.len() {
            end + 1
        } else {
            end
        };
        proof {
            assert(after_first_line(s) =~= chars@.skip(pos as int));
        }
    }
    proof {
        assert(chars@.skip(pos as int) =~= seq![]);
        lemma_blank_iff_trim_empty(current@);
    }
    if !is_blank(&current) {
        push_trimmed(&mut out, &current);
    }
    proof {
        assert(views(out@) =~= all);
    }
    if out.len() == 0 {
        push_trimmed(&mut out, &chars);
        proof {
            assert(views(out@) =~= seq![trim(text@)]);
        }
    }
    out
}

/// The characters of `s` that are not white space.
pub open spec fn solid(s: Seq<char>) -> Seq<char> {
    s.filter(|c: char| !white_space(c))
}

proof fn lemma_solid_add(a: Seq<char>, b: Seq<char>)
    ensures
        solid(a + b) == solid(a) + solid(b),
{
    Seq::filter_distributes_over_add(a, b, |c: char| !white_space(c));
}

proof fn lemma_solid_blank(s: Seq<char>)
    requires
        blank(s),
    ensures
        solid(s) == Seq::<char>::empty(),
    decreases s.len(),
{
    reveal(Seq::filter);
    if s.len() > 0 {
        assert(white_space(s[s.len() - 1]));
        assert(blank(s.drop_last())) by {
            assert forall|i: int| 0 <= i < s.drop_last().len() implies white_space(
                #[trigger] s.drop_last()[i],
            ) by {
                assert(s.drop_last()[i] == s[i]);
            }
        }
        lemma_solid_blank(s.drop_last());
    } else {
        assert(solid(s) =~= seq![]);
    }
}

proof fn lemma_solid_trim(s: Seq<char>)
    ensures
        solid(trim(s)) == solid(s),
{
    let (a, b) = lemma_trim_bounds(s);
    let head = s.subrange(0, a);
    let body = s.subrange(a, b);
    let tail = s.subrange(b, s.len() as int);
    assert(s =~= (head + body) + tail);
    lemma_solid_add(head + body, tail);
    lemma_solid_add(head, body);
    lemma_solid_blank(head);
    lemma_solid_blank(tail);
    assert(solid(s) =~= solid(body));
}

proof fn lemma_solid_newline(s: Seq<char>)
    ensures
        solid(s.push('\n')) == solid(s),
{
    lemma_solid_add(s, seq!['\n']);
    lemma_solid_blank(seq!['\n']);
    assert(s.push('\n') =~= s + seq!['\n']);
    assert(solid(s) + Seq::<char>::empty() =~= solid(s));
}

/// Cutting a text into lines drops nothing but line ends.
proof fn lemma_solid_lines(s: Seq<char>)
    ensures
        solid(lines(s).flatten()) == solid(s),
    decreases s.len(),
{
    if s.len() == 0 {
        assert(lines(s).flatten() =~= s);
    } else {
        lemma_line_len_bound(s);
        lemma_lines_step(s);
        let rest = after_first_line(s);
        lemma_solid_lines(rest);
        let first = first_line(s);
        assert(lines(s).first() == first);
        assert(lines(s).flatten() == first + lines(rest).flatten());
        lemma_solid_add(first, lines(rest).flatten());
        let gap = s.subrange(first.len() as int, s.len() - rest.len());
        assert(s =~= (first + gap) + rest);
        lemma_solid_add(first + gap, rest);
        lemma_solid_add(first, gap);
        assert(blank(gap)) by {
            assert forall|i: int| 0 <= i < gap.len() implies white_space(#[trigger] gap[i]) by {
                assert(gap[i] == s[first.len() + i]);
            }
        }
        lemma_solid_blank(gap);
        assert(solid(s) =~= solid(first) + solid(rest));
    }
}

proof fn lemma_solid_grouped(current: Seq<char>, lines: Seq<Seq<char>>)
    ensures
        solid(grouped(current, lines).flatten()) == solid(current) + solid(lines.flatten()),
    decreases lines.len(),
{
    lemma_solid_trim(current);
    let empty = Seq::<char>::empty();
    if lines.len() == 0 {
        assert(lines.flatten() =~= empty);
        lemma_solid_blank(empty);
        if blank(current) {
            lemma_solid_blank(current);
            assert(grouped(current, lines).flatten() =~= empty);
        } else {
            let only = seq![trim(current)];
            assert(only.drop_first() =~= seq![]);
            assert(only.drop_first().flatten() =~= empty);
            assert(only.flatten() =~= trim(current));
        }
        assert(solid(current) + empty =~= solid(current));
    } else {
        let rest = lines.drop_first();
        assert(lines.flatten() == lines[0] + rest.flatten());
        lemma_solid_add(lines[0], rest.flatten());
        if is_heading(lines[0]) && !blank(current) {
            let next = lines[0].push('\n');
            lemma_solid_grouped(next, rest);
            lemma_solid_newline(lines[0]);
            let all = grouped(current, lines);
            assert(all.drop_first() =~= grouped(next, rest));
            assert(all.flatten() == trim(current) + grouped(next, rest).flatten());
            lemma_solid_add(trim(current), grouped(next, rest).flatten());
        } else {
            let joined = current + lines[0];
            lemma_solid_grouped(joined.push('\n'), rest);
            lemma_solid_newline(joined);
            lemma_solid_add(current, lines[0]);
            assert((solid(current) + solid(lines[0])) + solid(rest.flatten()) =~= solid(current)
                + (solid(lines[0]) + solid(rest.flatten())));
        }
    }
}

/// Nothing is lost: read one after the other, the sections hold exactly the characters
/// of the text that are not white space, in their order.
pub proof fn law_sections_keep_the_text(text: Seq<char>)
    ensures
        solid(sections(text).flatten()) == solid(text),
{
    lemma_solid_lines(text);
    let empty = Seq::<char>::empty();
    lemma_solid_grouped(empty, lines(text));
    lemma_solid_blank(empty);
    assert(empty + solid(text) =~= solid(text));
    if grouped(empty, lines(text)).len() == 0 {
        assert(grouped(empty, lines(text)).flatten() =~= empty);
        lemma_solid_trim(text);
        let only = seq![trim(text)];
        assert(only.drop_first() =~= seq![]);
        assert(only.drop_first().flatten() =~= empty);
        assert(only.flatten() =~= trim(text));
    }
}

/// A text that begins with a character other than white space keeps it when trimmed.
proof fn lemma_trim_keeps_first(s: Seq<char>)
    requires
        s.len() > 0,
        !white_space(s[0]),
    ensures
        trim(s).len() > 0,
        trim(s)[0] == s[0],
{
    let (a, b) = lemma_trim_bounds(s);
    if a > 0 {
        assert(s.subrange(0, a)[0] == s[0]);
    }
    if b == 0 {
        assert(s.subrange(b, s.len() as int)[0] == s[0]);
    }
}

proof fn lemma_grouped_shape(current: Seq<char>, lines: Seq<Seq<char>>, i: int)
    requires
        0 <= i < grouped(current, lines).len(),
    ensures
        trimmed(grouped(current, lines)[i]),
        grouped(current, lines)[i].len() > 0,
        i > 0 ==> is_heading(grouped(current, lines)[i]),
        is_heading(current) ==> is_heading(grouped(current, lines)[i]),
    decreases lines.len(),
{
    let _ = lemma_trim_bounds(current);
    lemma_blank_iff_trim_empty(current);
    if is_heading(current) {
        lemma_trim_keeps_first(current);
    }
    if lines.len() > 0 {
        if is_heading(lines[0]) && !blank(current) {
            if i > 0 {
                lemma_grouped_shape(lines[0].push('\n'), lines.drop_first(), i - 1);
            }
        } else {
            lemma_grouped_shape((current + lines[0]).push('\n'), lines.drop_first(), i);
        }
    }
}

/// A text has at least one section.
pub proof fn law_text_has_a_section(text: Seq<char>)
    ensures
        sections(text).len() > 0,
{
}

/// Each section is trimmed, and empty exactly where the text is blank. Each but the
/// first begins with its heading.
pub proof fn law_sections_are_trimmed_and_headed(text: Seq<char>, i: int)
    requires
        0 <= i < sections(text).len(),
    ensures
        trimmed(sections(text)[i]),
        i > 0 ==> is_heading(sections(text)[i]),
        sections(text)[i].len() == 0 <==> blank(text),
{
    let empty = Seq::<char>::empty();
    let found = grouped(empty, lines(text));
    law_sections_keep_the_text(text);
    lemma_blank_iff_trim_empty(text);
    let _ = lemma_trim_bounds(text);
    if found.len() == 0 {
        lemma_no_sections_is_blank(text);
    } else {
        lemma_grouped_shape(empty, lines(text), i);
        if blank(text) {
            lemma_solid_blank(text);
            lemma_flatten_has(found, i);
        }
    }
}

/// What is not blank has a solid character.
proof fn lemma_solid_finds(s: Seq<char>)
    requires
        !blank(s),
    ensures
        solid(s).len() > 0,
{
    let p = |c: char| !white_space(c);
    let i = choose|i: int| 0 <= i < s.len() && !white_space(#[trigger] s[i]);
    s.lemma_filter_contains(p, i);
}

/// A member that begins with a solid character shows in the flattened sequence.
proof fn lemma_flatten_has(all: Seq<Seq<char>>, i: int)
    requires
        0 <= i < all.len(),
        all[i].len() > 0,
        !white_space(all[i][0]),
    ensures
        solid(all.flatten()).len() > 0,
    decreases all.len(),
{
    let rest = all.drop_first();
    lemma_solid_add(all[0], rest.flatten());
    assert(all.flatten() == all[0] + rest.flatten());
    if i == 0 {
        lemma_solid_finds(all[0]);
    } else {
        lemma_flatten_has(rest, i - 1);
    }
}

/// No line of `s` but the first begins with `#`.
pub open spec fn heads_only(s: Seq<char>) -> bool {
    forall|j: int| 0 <= j < s.len() - 1 && #[trigger] s[j] == '\n' ==> s[j + 1] != '#'
}

/// Wherever a line of `s` after the first begins with `#`, all before it is blank.
pub open spec fn headings_lead(s: Seq<char>) -> bool {
    forall|i: int|
        0 <= i < s.len() - 1 && #[trigger] s[i] == '\n' && s[i + 1] == '#' ==> blank(s.take(i + 1))
}

proof fn lemma_headings_lead_append(current: Seq<char>, line: Seq<char>)
    requires
        headings_lead(current),
        forall|i: int| 0 <= i < line.len() ==> line[i] != '\n',
        is_heading(line) ==> blank(current),
    ensures
        headings_lead((current + line).push('\n')),
{
    let s = (current + line).push('\n');
    assert forall|i: int|
        0 <= i < s.len() - 1 && #[trigger] s[i] == '\n' && s[i + 1] == '#' implies blank(
        s.take(i + 1),
    ) by {
        if i < current.len() - 1 {
            assert(current[i] == '\n');
            assert(s.take(i + 1) =~= current.take(i + 1));
        } else if i == current.len() - 1 {
            assert(s[i + 1] == line[0]);
            assert(s.take(i + 1) =~= current);
        } else {
            assert(s[i] == line[i - current.len()]);
        }
    }
}

proof fn lemma_trim_headings_lead(s: Seq<char>)
    requires
        headings_lead(s),
    ensures
        heads_only(trim(s)),
{
    let (a, b) = lemma_trim_bounds(s);
    assert forall|j: int|
        0 <= j < trim(s).len() - 1 && #[trigger] trim(s)[j] == '\n' implies trim(s)[j + 1]
        != '#' by {
        let i = a + j;
        assert(trim(s)[j] == s[i] && trim(s)[j + 1] == s[i + 1]);
        if s[i + 1] == '#' {
            assert(s[i] == '\n');
            assert(blank(s.take(i + 1)));
            assert(s.take(i + 1)[a] == s[a]);
            assert(trim(s)[0] == s[a]);
        }
    }
}

proof fn lemma_lines_have_no_newline(s: Seq<char>, k: int)
    requires
        0 <= k < lines(s).len(),
    ensures
        forall|i: int| 0 <= i < lines(s)[k].len() ==> lines(s)[k][i] != '\n',
    decreases s.len(),
{
    lemma_line_len_bound(s);
    lemma_lines_step(s);
    if k > 0 {
        lemma_lines_have_no_newline(after_first_line(s), k - 1);
        assert(lines(s)[k] == lines(s).drop_first()[k - 1]);
    }
}

proof fn lemma_grouped_headings(current: Seq<char>, lines: Seq<Seq<char>>, i: int)
    requires
        headings_lead(current),
        forall|k: int, j: int|
            0 <= k < lines.len() && 0 <= j < lines[k].len() ==> #[trigger] lines[k][j] != '\n',
        0 <= i < grouped(current, lines).len(),
    ensures
        heads_only(grouped(current, lines)[i]),
    decreases lines.len(),
{
    lemma_trim_headings_lead(current);
    if lines.len() > 0 {
        let rest = lines.drop_first();
        assert forall|k: int, j: int|
            0 <= k < rest.len() && 0 <= j < rest[k].len() implies #[trigger] rest[k][j] != '\n' by {
            assert(rest[k] == lines[k + 1]);
        }
        if is_heading(lines[0]) && !blank(current) {
            let empty = Seq::<char>::empty();
            lemma_headings_lead_append(empty, lines[0]);
            assert((empty + lines[0]).push('\n') =~= lines[0].push('\n'));
            let later = grouped(lines[0].push('\n'), rest);
            assert(grouped(current, lines) == seq![trim(current)] + later);
            if i > 0 {
                lemma_grouped_headings(lines[0].push('\n'), rest, i - 1);
                assert(grouped(current, lines)[i] == later[i - 1]);
            }
        } else {
            lemma_headings_lead_append(current, lines[0]);
            lemma_grouped_headings((current + lines[0]).push('\n'), rest, i);
        }
    }
}

/// A heading stands only at the beginning of a section: no later line of a section
/// begins with `#`.
pub proof fn law_sections_hold_one_heading(text: Seq<char>, i: int)
    requires
        0 <= i < sections(text).len(),
    ensures
        heads_only(sections(text)[i]),
{
    let empty = Seq::<char>::empty();
    let ls = lines(text);
    let found = grouped(empty, ls);
    if found.len() == 0 {
        lemma_no_sections_is_blank(text);
        lemma_blank_iff_trim_empty(text);
    } else {
        assert forall|k: int, j: int|
            0 <= k < ls.len() && 0 <= j < ls[k].len() implies #[trigger] ls[k][j] != '\n' by {
            lemma_lines_have_no_newline(text, k);
        }
        lemma_grouped_headings(empty, ls, i);
    }
}

proof fn lemma_no_sections_is_blank(text: Seq<char>)
    requires
        grouped(seq![], lines(text)).len() == 0,
    ensures
        blank(text),
{
    let empty = Seq::<char>::empty();
    lemma_solid_lines(text);
    lemma_solid_grouped(empty, lines(text));
    lemma_solid_blank(empty);
    assert(grouped(empty, lines(text)).flatten() =~= empty);
    assert(empty + solid(text) =~= solid(text));
    if !blank(text) {
        lemma_solid_finds(text);
    }
}

/// A newline at the end of a text makes no difference to its trimmed text.
proof fn lemma_trim_newline(s: Seq<char>)
    ensures
        trim(s.push('\n')) == trim(s),
        blank(s.push('\n')) <==> blank(s),
{
    let t = s.push('\n');
    let (a, b) = lemma_trim_bounds(s);
    lemma_blank_iff_trim_empty(s);
    lemma_blank_iff_trim_empty(t);
    if blank(s) {
        assert(blank(t));
        assert(trim(t) =~= trim(s));
    } else {
        assert(!blank(t)) by {
            let i = choose|i: int| 0 <= i < s.len() && !white_space(#[trigger] s[i]);
            assert(t[i] == s[i]);
        }
        assert(t.subrange(0, a) =~= s.subrange(0, a));
        assert(t.subrange(a, b) =~= s.subrange(a, b));
        let tail = t.subrange(b, t.len() as int);
        assert forall|i: int| 0 <= i < tail.len() implies white_space(#[trigger] tail[i]) by {
            if i < s.len() - b {
                assert(s.subrange(b, s.len() as int)[i] == s[b + i]);
            }
        }
        lemma_trim_cut(t, a, b);
    }
}

/// The pieces stand in `whole` at the places `at`, one behind the other, and all that is
/// between and around them is white space. Each but the first begins a line.
spec fn lie_in(whole: Seq<char>, pieces: Seq<Seq<char>>, at: Seq<int>) -> bool {
    &&& at.len() == pieces.len()
    &&& forall|i: int|
        0 <= i < at.len() ==> 0 <= #[trigger] at[i] && at[i] + pieces[i].len() <= whole.len()
            && pieces[i] == whole.subrange(at[i], at[i] + pieces[i].len())
    &&& forall|i: int, j: int|
        0 <= i && j == i + 1 && j < at.len() ==> #[trigger] at[i] + pieces[i].len()
            <= #[trigger] at[j]
    &&& forall|p: int|
        0 <= p < whole.len() && !white_space(#[trigger] whole[p]) ==> is_held(pieces, at, p)
    &&& forall|i: int|
        0 < i < at.len() ==> 0 < #[trigger] at[i] < whole.len() && whole[at[i] - 1] == '\n'
            && whole[at[i]] == '#'
}

/// The position is within one of the pieces.
spec fn is_held(pieces: Seq<Seq<char>>, at: Seq<int>, p: int) -> bool {
    exists|i: int| 0 <= i < at.len() && #[trigger] at[i] <= p < at[i] + pieces[i].len()
}

/// The trimmed text of `current` lies in `current`.
proof fn lemma_trimmed_lies(current: Seq<char>) -> (at: Seq<int>)
    requires
        !blank(current),
    ensures
        lie_in(current, seq![trim(current)], at),
        at.len() == 1,
{
    let (a, b) = lemma_trim_bounds(current);
    let at = seq![a];
    let pieces = seq![trim(current)];
    assert forall|p: int|
        0 <= p < current.len() && !white_space(#[trigger] current[p]) implies is_held(
        pieces,
        at,
        p,
    ) by {
        if p < a {
            assert(current.subrange(0, a)[p] == current[p]);
        }
        if p >= b {
            assert(current.subrange(b, current.len() as int)[p - b] == current[p]);
        }
        assert(at[0] <= p < at[0] + pieces[0].len());
    }
    at
}

/// Pieces of one text, and behind it those of another, which begins with a heading.
proof fn lemma_lie_in_turn(
    first: Seq<char>,
    second: Seq<char>,
    later: Seq<Seq<char>>,
    at: Seq<int>,
) -> (all: Seq<int>)
    requires
        !blank(first),
        first.last() == '\n',
        is_heading(second),
        lie_in(second, later, at),
    ensures
        lie_in(first + second, seq![trim(first)] + later, all),
{
    let whole = first + second;
    let n = first.len() as int;
    let start = lemma_trimmed_lies(first);
    let moved = at.map_values(|p: int| p + n);
    let all = start + moved;
    let pieces = seq![trim(first)] + later;
    assert(is_held(later, at, 0)) by {
        assert(!white_space(second[0]));
    }
    let h = choose|i: int| 0 <= i < at.len() && #[trigger] at[i] <= 0 < at[i] + later[i].len();
    assert(at[0] == 0) by {
        if h > 0 {
            assert(at[h] > 0);
        }
    }
    assert forall|i: int| 0 <= i < all.len() implies 0 <= #[trigger] all[i] && all[i]
        + pieces[i].len() <= whole.len() && pieces[i] == whole.subrange(
        all[i],
        all[i] + pieces[i].len(),
    ) by {
        if i == 0 {
            assert(start[0] >= 0 && start[0] + trim(first).len() <= first.len());
            assert(whole.subrange(all[0], all[0] + pieces[0].len()) =~= first.subrange(
                start[0],
                start[0] + trim(first).len(),
            ));
        } else {
            assert(all[i] == at[i - 1] + n);
            assert(pieces[i] == later[i - 1]);
            assert(whole.subrange(all[i], all[i] + pieces[i].len()) =~= second.subrange(
                at[i - 1],
                at[i - 1] + later[i - 1].len(),
            ));
        }
    }
    assert forall|i: int, j: int| 0 <= i && j == i + 1 && j < all.len() implies #[trigger] all[i]
        + pieces[i].len() <= #[trigger] all[j] by {
        assert(all[j] == at[j - 1] + n);
        if i == 0 {
            assert(start[0] + trim(first).len() <= first.len());
            assert(0 <= at[j - 1]);
        } else {
            assert(all[i] == at[i - 1] + n);
            assert(at[i - 1] + later[i - 1].len() <= at[j - 1]);
        }
    }
    assert forall|p: int| 0 <= p < whole.len() && !white_space(#[trigger] whole[p]) implies is_held(
        pieces,
        all,
        p,
    ) by {
        if p < n {
            assert(!white_space(first[p]));
            assert(is_held(seq![trim(first)], start, p));
            assert(all[0] <= p < all[0] + pieces[0].len());
        } else {
            assert(!white_space(second[p - n]));
            assert(is_held(later, at, p - n));
            let i = choose|i: int|
                0 <= i < at.len() && #[trigger] at[i] <= p - n < at[i] + later[i].len();
            assert(all[i + 1] <= p < all[i + 1] + pieces[i + 1].len());
        }
    }
    assert forall|i: int| 0 < i < all.len() implies 0 < #[trigger] all[i] < whole.len()
        && whole[all[i] - 1] == '\n' && whole[all[i]] == '#' by {
        assert(all[i] == at[i - 1] + n);
        if i == 1 {
            assert(whole[n - 1] == first.last());
            assert(whole[n] == second[0]);
        } else {
            assert(at[i - 1] > 0 && second[at[i - 1] - 1] == '\n' && second[at[i - 1]] == '#');
        }
    }
    all
}

/// No carriage return stands before a newline.
spec fn has_bare_newlines(s: Seq<char>) -> bool {
    forall|i: int| 0 <= i < s.len() - 1 && #[trigger] s[i] == '\r' ==> s[i + 1] != '\n'
}

/// The sections of what is read and of a last line lie in the two together.
proof fn lemma_last_line_lies(current: Seq<char>, line: Seq<char>) -> (at: Seq<int>)
    requires
        line.len() > 0,
        line_len(line) == line.len(),
        current.len() > 0 ==> current.last() == '\n',
    ensures
        lie_in(current + line, grouped(current, lines(line)), at),
{
    let whole = current + line;
    let none = Seq::<Seq<char>>::empty();
    lemma_lines_step(line);
    assert(first_line(line) =~= line);
    assert(after_first_line(line) =~= seq![]);
    assert(lines(after_first_line(line)) =~= none);
    let all = lines(line);
    assert(all[0] == line);
    assert(all.drop_first() == none);
    if is_heading(line) && !blank(current) {
        lemma_trim_newline(line);
        assert(!white_space(line[0]));
        let at = lemma_trimmed_lies(line);
        let later = grouped(line.push('\n'), none);
        assert(later =~= seq![trim(line)]);
        assert(grouped(current, all) == seq![trim(current)] + later);
        lemma_lie_in_turn(current, line, later, at)
    } else {
        lemma_trim_newline(whole);
        let next = (current + line).push('\n');
        assert(grouped(current, all) == grouped(next, none));
        if blank(whole) {
            let at: Seq<int> = seq![];
            assert(grouped(next, none) =~= none);
            assert forall|p: int|
                0 <= p < whole.len() && !white_space(#[trigger] whole[p]) implies is_held(
                none,
                at,
                p,
            ) by {}
            at
        } else {
            assert(grouped(next, none) =~= seq![trim(whole)]);
            lemma_trimmed_lies(whole)
        }
    }
}

/// The sections of what is read and what is still to be read lie in the two together.
proof fn lemma_grouped_lie(current: Seq<char>, s: Seq<char>) -> (at: Seq<int>)
    requires
        has_bare_newlines(s),
        current.len() > 0 ==> current.last() == '\n',
    ensures
        lie_in(current + s, grouped(current, lines(s)), at),
    decreases s.len(),
{
    let whole = current + s;
    let empty = Seq::<char>::empty();
    if s.len() == 0 {
        assert(whole =~= current);
        if blank(current) {
            let at: Seq<int> = seq![];
            assert forall|p: int|
                0 <= p < whole.len() && !white_space(#[trigger] whole[p]) implies is_held(
                seq![],
                at,
                p,
            ) by {
                assert(whole[p] == current[p]);
            }
            at
        } else {
            lemma_trimmed_lies(current)
        }
    } else {
        lemma_line_len_bound(s);
        lemma_lines_step(s);
        let line = first_line(s);
        let rest = after_first_line(s);
        let k = line_len(s) as int;
        if 0 < k < s.len() && s[k - 1] == '\r' {
            assert(s[k] == '\n');
        }
        assert(line == s.take(k));
        if k < s.len() {
            assert(s =~= line.push('\n') + rest);
            assert(has_bare_newlines(rest)) by {
                assert forall|i: int| 0 <= i < rest.len() - 1 && #[trigger] rest[i] == '\r' implies
                    rest[i + 1] != '\n' by {
                    assert(rest[i] == s[k + 1 + i]);
                    assert(rest[i + 1] == s[k + 2 + i]);
                }
            }
            if is_heading(line) && !blank(current) {
                let at = lemma_grouped_lie(line.push('\n'), rest);
                assert(line.push('\n')[0] == line[0]);
                assert(s[0] == '#');
                lemma_lie_in_turn(current, s, grouped(line.push('\n'), lines(rest)), at)
            } else {
                let next = (current + line).push('\n');
                let at = lemma_grouped_lie(next, rest);
                assert(next + rest =~= whole);
                at
            }
        } else {
            lemma_last_line_lies(current, s)
        }
    }
}

/// Every section stands in the text, character by character, at the places `at`: one
/// section behind the other, and all that is between and around them is white space. A
/// section begins at each line that begins with `#` and nowhere else, except that what
/// stands before the first of them is a section too. Of the line ends, those of a carriage
/// return and a newline are left aside here.
pub proof fn law_sections_stand_in_the_text(text: Seq<char>) -> (at: Seq<int>)
    requires
        forall|i: int| 0 <= i < text.len() - 1 && #[trigger] text[i] == '\r' ==> text[i + 1] != '\n',
    ensures
        at.len() == sections(text).len() >= 1,
        forall|i: int|
            0 <= i < at.len() ==> 0 <= #[trigger] at[i] && at[i] + sections(text)[i].len()
                <= text.len() && sections(text)[i] == text.subrange(
                at[i],
                at[i] + sections(text)[i].len(),
            ),
        forall|i: int|
            0 <= i < at.len() - 1 ==> #[trigger] at[i] + sections(text)[i].len() <= at[i + 1],
        forall|p: int|
            0 <= p < text.len() && !white_space(#[trigger] text[p]) ==> exists|i: int|
                0 <= i < at.len() && #[trigger] at[i] <= p < at[i] + sections(text)[i].len(),
        forall|i: int|
            0 < i < at.len() ==> #[trigger] at[i] > 0 && text[at[i] - 1] == '\n' && text[at[i]]
                == '#',
        forall|i: int, j: int|
            0 <= i < at.len() && 0 <= j < sections(text)[i].len() - 1 && #[trigger] sections(
                text,
            )[i][j] == '\n' ==> sections(text)[i][j + 1] != '#',
        forall|i: int|
            0 <= i < at.len() && (#[trigger] sections(text)[i]).len() > 0 ==> !white_space(
                sections(text)[i][0],
            ) && !white_space(sections(text)[i].last()),
        forall|i: int|
            0 <= i < at.len() && (#[trigger] sections(text)[i]).len() == 0 ==> at.len() == 1,
{
    let empty = Seq::<char>::empty();
    let found = grouped(empty, lines(text));
    assert(has_bare_newlines(text));
    assert(empty + text =~= text);
    let lying = lemma_grouped_lie(empty, text);
    let at = if found.len() == 0 {
        seq![0int]
    } else {
        lying
    };
    if found.len() == 0 {
        lemma_no_sections_is_blank(text);
        lemma_blank_iff_trim_empty(text);
        assert(sections(text)[0] =~= text.subrange(0, 0));
    } else {
        assert forall|p: int|
            0 <= p < text.len() && !white_space(#[trigger] text[p]) implies exists|i: int|
            0 <= i < at.len() && #[trigger] at[i] <= p < at[i] + sections(text)[i].len() by {
            assert(is_held(found, at, p));
        }
    }
    assert forall|i: int| 0 <= i < at.len() implies heads_only(#[trigger] sections(text)[i])
        && trimmed(sections(text)[i]) && (sections(text)[i].len() == 0 ==> at.len() == 1) by {
        law_sections_hold_one_heading(text, i);
        law_sections_are_trimmed_and_headed(text, i);
        if found.len() > 0 {
            lemma_grouped_shape(empty, lines(text), i);
        }
    }
    at
}

/// How far the first newline is.
proof fn lemma_line_len_at(s: Seq<char>, k: int)
    requires
        0 <= k <= s.len(),
        forall|i: int| 0 <= i < k ==> s[i] != '\n',
        k < s.len() ==> s[k] == '\n',
    ensures
        line_len(s) == k,
    decreases s.len(),
{
    if k > 0 {
        assert forall|i: int| 0 <= i < k - 1 implies s.drop_first()[i] != '\n' by {
            assert(s.drop_first()[i] == s[i + 1]);
        }
        lemma_line_len_at(s.drop_first(), k - 1);
    }
}

/// A carriage return before a newline is part of the line end.
proof fn lemma_lines_drop_return(a: Seq<char>, b: Seq<char>)
    requires
        a.len() > 0 ==> a.last() != '\r',
    ensures
        lines(a + seq!['\r', '\n'] + b) == lines(a + seq!['\n'] + b),
    decreases a.len(),
{
    let s = a + seq!['\r', '\n'] + b;
    let t = a + seq!['\n'] + b;
    lemma_line_len_bound(a);
    let k = line_len(a) as int;
    if k < a.len() {
        lemma_line_len_at(s, k);
        lemma_line_len_at(t, k);
        let rest = a.skip(k + 1);
        assert(first_line(s) =~= first_line(t));
        assert(after_first_line(s) =~= rest + seq!['\r', '\n'] + b);
        assert(after_first_line(t) =~= rest + seq!['\n'] + b);
        lemma_lines_drop_return(rest, b);
    } else {
        let n = a.len() as int;
        lemma_line_len_at(s, n + 1);
        lemma_line_len_at(t, n);
        assert(s[n] == '\r');
        assert(first_line(s) =~= a);
        if n > 0 {
            assert(t[n - 1] == a.last());
        }
        assert(first_line(t) =~= a);
        assert(after_first_line(s) =~= b);
        assert(after_first_line(t) =~= b);
    }
}

/// A line that ends in a carriage return and a newline is as good as one that ends in the
/// newline alone.
pub proof fn law_line_ends_are_alike(a: Seq<char>, b: Seq<char>)
    requires
        a.len() > 0 ==> a.last() != '\r',
    ensures
        sections(a + seq!['\r', '\n'] + b) == sections(a + seq!['\n'] + b),
{
    let s = a + seq!['\r', '\n'] + b;
    let t = a + seq!['\n'] + b;
    lemma_lines_drop_return(a, b);
    if grouped(seq![], lines(s)).len() == 0 {
        lemma_no_sections_is_blank(s);
        lemma_no_sections_is_blank(t);
        lemma_blank_iff_trim_empty(s);
        lemma_blank_iff_trim_empty(t);
        assert(trim(s) =~= trim(t));
    }
}

/// A line ends at a newline, and a carriage return before it belongs to the line end too,
/// but no more than one. The last line needs no line end, and nothing is no line.
pub proof fn law_lines_end_at_newlines(line: Seq<char>, rest: Seq<char>)
    requires
        forall|i: int| 0 <= i < line.len() ==> line[i] != '\n',
    ensures
        lines(line + seq!['\r', '\n'] + rest) == seq![line] + lines(rest),
        line.len() == 0 || line.last() != '\r' ==> lines(line + seq!['\n'] + rest) == seq![line]
            + lines(rest),
        line.len() > 0 ==> lines(line) == seq![line],
        lines(Seq::<char>::empty()) == Seq::<Seq<char>>::empty(),
{
    let n = line.len() as int;
    let s = line + seq!['\r', '\n'] + rest;
    lemma_line_len_at(s, n + 1);
    assert(s[n] == '\r');
    assert(first_line(s) =~= line);
    assert(after_first_line(s) =~= rest);
    let t = line + seq!['\n'] + rest;
    lemma_line_len_at(t, n);
    if n > 0 {
        assert(t[n - 1] == line.last());
    }
    assert(after_first_line(t) =~= rest);
    if line.len() == 0 || line.last() != '\r' {
        assert(first_line(t) =~= line);
    }
    lemma_line_len_at(line, n);
    assert(first_line(line) =~= line);
    assert(after_first_line(line) =~= seq![]);
    assert(lines(seq![]) =~= seq![]);
    assert(seq![line] + Seq::<Seq<char>>::empty() =~= seq![line]);
}

/// The sections of what is read and of the lines to be read lie in the two together.
proof fn lemma_lines_lie(current: Seq<char>, ls: Seq<Seq<char>>) -> (at: Seq<int>)
    requires
        current.len() > 0 ==> current.last() == '\n',
    ensures
        lie_in(current + ls.flat_map(|l: Seq<char>| l.push('\n')), grouped(current, ls), at),
    decreases ls.len(),
{
    let f = |l: Seq<char>| l.push('\n');
    let behind = ls.flat_map(f);
    let whole = current + behind;
    if ls.len() == 0 {
        assert(ls.map_values(f) =~= seq![]);
        assert(behind =~= seq![]);
        assert(whole =~= current);
        if blank(current) {
            let at: Seq<int> = seq![];
            assert forall|p: int|
                0 <= p < whole.len() && !white_space(#[trigger] whole[p]) implies is_held(
                seq![],
                at,
                p,
            ) by {
                assert(whole[p] == current[p]);
            }
            at
        } else {
            lemma_trimmed_lies(current)
        }
    } else {
        let line = ls[0];
        let rest = ls.drop_first();
        assert(ls.map_values(f).drop_first() =~= rest.map_values(f));
        assert(behind == line.push('\n') + rest.flat_map(f));
        if is_heading(line) && !blank(current) {
            let at = lemma_lines_lie(line.push('\n'), rest);
            assert(behind[0] == line[0]);
            lemma_lie_in_turn(current, behind, grouped(line.push('\n'), rest), at)
        } else {
            let next = (current + line).push('\n');
            let at = lemma_lines_lie(next, rest);
            assert(next + rest.flat_map(f) =~= whole);
            at
        }
    }
}

/// Whatever its line ends are, the sections of a text stand in its lines, each with a
/// newline behind it: character by character, at the places `at`, one section behind the
/// other, and all that is between and around them is white space.
pub proof fn law_sections_stand_in_the_lines(text: Seq<char>) -> (at: Seq<int>)
    requires
        !blank(text),
    ensures
        ({
            let whole = lines(text).flat_map(|l: Seq<char>| l.push('\n'));
            &&& at.len() == sections(text).len() >= 1
            &&& forall|i: int|
                0 <= i < at.len() ==> 0 <= #[trigger] at[i] && at[i] + sections(text)[i].len()
                    <= whole.len() && sections(text)[i] == whole.subrange(
                    at[i],
                    at[i] + sections(text)[i].len(),
                )
            &&& forall|i: int|
                0 <= i < at.len() - 1 ==> #[trigger] at[i] + sections(text)[i].len() <= at[i + 1]
            &&& forall|p: int|
                0 <= p < whole.len() && !white_space(#[trigger] whole[p]) ==> exists|i: int|
                    0 <= i < at.len() && #[trigger] at[i] <= p < at[i] + sections(text)[i].len()
            &&& forall|i: int|
                0 < i < at.len() ==> #[trigger] at[i] > 0 && whole[at[i] - 1] == '\n'
                    && whole[at[i]] == '#'
        }),
{
    let empty = Seq::<char>::empty();
    let ls = lines(text);
    let found = grouped(empty, ls);
    let whole = ls.flat_map(|l: Seq<char>| l.push('\n'));
    let at = lemma_lines_lie(empty, ls);
    assert(empty + whole =~= whole);
    if found.len() == 0 {
        lemma_no_sections_is_blank(text);
    }
    assert forall|p: int|
        0 <= p < whole.len() && !white_space(#[trigger] whole[p]) implies exists|i: int|
        0 <= i < at.len() && #[trigger] at[i] <= p < at[i] + sections(text)[i].len() by {
        assert(is_held(found, at, p));
    }
    at
}

} // verus!
