//! Text as sequences of characters: white space, trimming, lines, and the small
//! string builders that the other modules share.
use vstd::prelude::*;
use vstd::string::*;

verus! {

/// `String::push` appends the one character it is given and changes nothing else.
pub assume_specification[ String::push ](s: &mut String, c: char)
    ensures
        final(s)@ == old(s)@.push(c),
;

/// The characters with the Unicode property `White_Space`.
pub open spec fn white_space(c: char) -> bool {
    let u = c as u32;
    ||| 0x9 <= u <= 0xd
    ||| u == 0x20
    ||| u == 0x85
    ||| u == 0xa0
    ||| u == 0x1680
    ||| 0x2000 <= u <= 0x200a
    ||| u == 0x2028
    ||| u == 0x2029
    ||| u == 0x202f
    ||| u == 0x205f
    ||| u == 0x3000
}

/// Nothing but white space.
pub open spec fn blank(s: Seq<char>) -> bool {
    forall|i: int| 0 <= i < s.len() ==> white_space(#[trigger] s[i])
}

/// Neither end of `s` is white space.
pub open spec fn trimmed(s: Seq<char>) -> bool {
    s.len() > 0 ==> !white_space(s[0]) && !white_space(s[s.len() - 1])
}

pub open spec fn trim_start(s: Seq<char>) -> Seq<char>
    decreases s.len(),
{
    if s.len() > 0 && white_space(s[0]) {
        trim_start(s.drop_first())
    } else {
        s
    }
}

pub open spec fn trim_end(s: Seq<char>) -> Seq<char>
    decreases s.len(),
{
    if s.len() > 0 && white_space(s[s.len() - 1]) {
        trim_end(s.drop_last())
    } else {
        s
    }
}

/// `s` without the white space at its two ends.
pub open spec fn trim(s: Seq<char>) -> Seq<char> {
    trim_end(trim_start(s))
}

/// `c`, `n` times.
pub open spec fn repeated(c: char, n: nat) -> Seq<char> {
    Seq::new(n, |i: int| c)
}

/// The views of a vector of strings.
pub open spec fn views(v: Seq<String>) -> Seq<Seq<char>> {
    v.map_values(|s: String| s@)
}

/// Trimming cuts one contiguous piece out of `s`: what is cut off is blank, and what
/// is left has no white space at its ends.
pub proof fn lemma_trim_cut(s: Seq<char>, from: int, to: int)
    requires
        0 <= from <= to <= s.len(),
        blank(s.subrange(0, from)),
        blank(s.subrange(to, s.len() as int)),
        trimmed(s.subrange(from, to)),
        from == to ==> to == s.len(),
    ensures
        trim(s) == s.subrange(from, to),
    decreases s.len(),
{
    if from > 0 {
        assert(s.subrange(0, from)[0] == s[0]);
        assert(blank(s.drop_first().subrange(0, from - 1))) by {
            assert forall|i: int| 0 <= i < from - 1 implies white_space(
                #[trigger] s.drop_first().subrange(0, from - 1)[i],
            ) by {
                assert(s.drop_first().subrange(0, from - 1)[i] == s.subrange(0, from)[i + 1]);
            }
        }
        assert(s.drop_first().subrange(to - 1, s.len() - 1) =~= s.subrange(to, s.len() as int));
        assert(s.drop_first().subrange(from - 1, to - 1) =~= s.subrange(from, to));
        lemma_trim_cut(s.drop_first(), from - 1, to - 1);
    } else if to < s.len() {
        assert(s.subrange(0, to)[0] == s[0]);
        assert(trim_start(s) == s);
        assert(s.subrange(to, s.len() as int)[s.len() - 1 - to] == s[s.len() - 1]);
        assert(blank(s.drop_last().subrange(to, s.len() - 1))) by {
            assert forall|i: int| 0 <= i < s.len() - 1 - to implies white_space(
                #[trigger] s.drop_last().subrange(to, s.len() - 1)[i],
            ) by {
                assert(s.drop_last().subrange(to, s.len() - 1)[i] == s.subrange(
                    to,
                    s.len() as int,
                )[i]);
            }
        }
        assert(s.drop_last().subrange(0, to) =~= s.subrange(0, to));
        assert(blank(s.drop_last().subrange(0, 0)));
        lemma_trim_cut(s.drop_last(), 0, to);
        assert(trim_start(s.drop_last()) == s.drop_last());
    } else {
        assert(s.subrange(from, to) =~= s);
    }
}

/// Where the trimmed text lies in `s`: the piece between the two bounds.
pub proof fn lemma_trim_bounds(s: Seq<char>) -> (bounds: (int, int))
    ensures
        0 <= bounds.0 <= bounds.1 <= s.len(),
        trim(s) == s.subrange(bounds.0, bounds.1),
        blank(s.subrange(0, bounds.0)),
        blank(s.subrange(bounds.1, s.len() as int)),
        trimmed(trim(s)),
    decreases s.len(),
{
    if s.len() == 0 {
        assert(s.subrange(0, 0) =~= s);
        (0, 0)
    } else if white_space(s[0]) {
        let (a, b) = lemma_trim_bounds(s.drop_first());
        assert(s.subrange(a + 1, b + 1) =~= s.drop_first().subrange(a, b));
        assert(blank(s.subrange(0, a + 1))) by {
            assert forall|i: int| 0 <= i < a + 1 implies white_space(
                #[trigger] s.subrange(0, a + 1)[i],
            ) by {
                if i > 0 {
                    assert(s.subrange(0, a + 1)[i] == s.drop_first().subrange(0, a)[i - 1]);
                }
            }
        }
        assert(s.subrange(b + 1, s.len() as int) =~= s.drop_first().subrange(
            b,
            s.drop_first().len() as int,
        ));
        (a + 1, b + 1)
    } else if white_space(s[s.len() - 1]) {
        assert(s.drop_last()[0] == s[0]);
        let (a, b) = lemma_trim_bounds(s.drop_last());
        assert(trim_start(s) == s);
        assert(trim_start(s.drop_last()) == s.drop_last());
        assert(s.subrange(a, b) =~= s.drop_last().subrange(a, b));
        assert(s.subrange(0, a) =~= s.drop_last().subrange(0, a));
        assert(blank(s.subrange(b, s.len() as int))) by {
            assert forall|i: int| 0 <= i < s.len() - b implies white_space(
                #[trigger] s.subrange(b, s.len() as int)[i],
            ) by {
                if i < s.len() - 1 - b {
                    assert(s.subrange(b, s.len() as int)[i] == s.drop_last().subrange(
                        b,
                        s.drop_last().len() as int,
                    )[i]);
                }
            }
        }
        (a, b)
    } else {
        assert(s.subrange(0, s.len() as int) =~= s);
        (0, s.len() as int)
    }
}

/// A text is blank exactly when trimming leaves nothing of it.
pub proof fn lemma_blank_iff_trim_empty(s: Seq<char>)
    ensures
        blank(s) <==> trim(s).len() == 0,
{
    let (a, b) = lemma_trim_bounds(s);
    if blank(s) && trim(s).len() > 0 {
        assert(trim(s)[0] == s[a]);
    }
    if trim(s).len() == 0 {
        assert forall|i: int| 0 <= i < s.len() implies white_space(#[trigger] s[i]) by {
            if i < a {
                assert(s.subrange(0, a)[i] == s[i]);
            } else {
                assert(s.subrange(b, s.len() as int)[i - b] == s[i]);
            }
        }
    }
}

/// Trimming a trimmed text changes nothing.
pub proof fn lemma_trim_trimmed(s: Seq<char>)
    requires
        trimmed(s),
    ensures
        trim(s) == s,
{
    lemma_trim_cut(s, 0, s.len() as int);
    assert(s.subrange(0, s.len() as int) =~= s);
}

pub fn is_white_space(c: char) -> (r: bool)
    ensures
        r == white_space(c),
{
    let u: u32 = c as u32;
    (0x9 <= u && u <= 0xd) || u == 0x20 || u == 0x85 || u == 0xa0 || u == 0x1680 || (0x2000 <= u
        && u <= 0x200a) || u == 0x2028 || u == 0x2029 || u == 0x202f || u == 0x205f || u == 0x3000
}

/// The characters of `s`.
pub fn chars_of(s: &str) -> (r: Vec<char>)
    ensures
        r@ == s@,
{
    let mut out: Vec<char> = Vec::new();
    for c in it: s.chars()
        invariant
            it.seq() == s@,
            out@ == s@.take(it.index() as int),
    {
        proof {
            assert(s@.take(it.index() + 1) =~= s@.take(it.index() as int).push(c));
        }
        out.push(c);
    }
    proof {
        assert(s@.take(s@.len() as int) =~= s@);
    }
    out
}

/// The characters of `chars` from `from` up to `to`, as a string.
pub fn string_of(chars: &Vec<char>, from: usize, to: usize) -> (r: String)
    requires
        from <= to <= chars@.len(),
    ensures
        r@ == chars@.subrange(from as int, to as int),
{
    let mut out = String::new();
    let mut i: usize = from;
    while i < to
        invariant
            from <= i <= to <= chars@.len(),
            out@ == chars@.subrange(from as int, i as int),
        decreases to - i,
    {
        proof {
            assert(chars@.subrange(from as int, i + 1) =~= chars@.subrange(
                from as int,
                i as int,
            ).push(chars@[i as int]));
        }
        out.push(chars[i]);
        i += 1;
    }
    out
}

/// The bounds of the trimmed text within `chars[from..to]`.
pub fn trim_bounds(chars: &Vec<char>, from: usize, to: usize) -> (r: (usize, usize))
    requires
        from <= to <= chars@.len(),
    ensures
        from <= r.0 <= r.1 <= to,
        chars@.subrange(r.0 as int, r.1 as int) == trim(chars@.subrange(from as int, to as int)),
{
    let ghost whole = chars@.subrange(from as int, to as int);
    let mut a: usize = from;
    while a < to && is_white_space(chars[a])
        invariant
            from <= a <= to <= chars@.len(),
            whole == chars@.subrange(from as int, to as int),
            forall|i: int| 0 <= i < a - from ==> white_space(#[trigger] whole[i]),
        decreases to - a,
    {
        proof {
            assert(whole[a - from] == chars@[a as int]);
        }
        a += 1;
    }
    let mut b: usize = to;
    while a < b && is_white_space(chars[b - 1])
        invariant
            from <= a <= b <= to <= chars@.len(),
            whole == chars@.subrange(from as int, to as int),
            a < to ==> a < b && !white_space(chars@[a as int]),
            forall|i: int| b - from <= i < whole.len() ==> white_space(#[trigger] whole[i]),
        decreases b - a,
    {
        proof {
            assert(whole[b - 1 - from] == chars@[b - 1]);
        }
        b -= 1;
    }
    proof {
        assert(whole.subrange(a - from, b - from) =~= chars@.subrange(a as int, b as int));
        lemma_trim_cut(whole, a - from, b - from);
    }
    (a, b)
}

/// `s` without the white space at its two ends.
pub fn trim_str(s: &str) -> (r: String)
    ensures
        r@ == trim(s@),
{
    let chars = chars_of(s);
    let (a, b) = trim_bounds(&chars, 0, chars.len());
    proof {
        assert(chars@.subrange(0, chars@.len() as int) =~= chars@);
    }
    string_of(&chars, a, b)
}

/// Reports whether two texts are the same.
pub fn same_text(a: &str, b: &str) -> (r: bool)
    ensures
        r == (a@ == b@),
{
    let x = chars_of(a);
    let y = chars_of(b);
    if x.len() != y.len() {
        return false;
    }
    let mut i: usize = 0;
    while i < x.len()
        invariant
            x@ == a@,
            y@ == b@,
            x@.len() == y@.len(),
            i <= x@.len(),
            forall|k: int| 0 <= k < i ==> x@[k] == y@[k],
        decreases x@.len() - i,
    {
        if x[i] != y[i] {
            return false;
        }
        i += 1;
    }
    proof {
        assert(x@ =~= y@);
    }
    true
}

/// White space is the tab and the four control characters behind it, the blank, the next
/// line, and the blanks and separators beyond ASCII; a letter, a digit or a mark never is.
pub proof fn law_white_space_is_blanks_and_breaks(c: char)
    ensures
        c < '\u{80}' ==> (white_space(c) <==> c == ' ' || '\t' <= c <= '\r'),
        '\u{80}' <= c < '\u{2000}' ==> (white_space(c) <==> c == '\u{85}' || c == '\u{a0}' || c
            == '\u{1680}'),
        '\u{2000}' <= c <= '\u{206f}' ==> (white_space(c) <==> c <= '\u{200a}' || c == '\u{2028}'
            || c == '\u{2029}' || c == '\u{202f}' || c == '\u{205f}'),
        c > '\u{206f}' ==> (white_space(c) <==> c == '\u{3000}'),
{
}

/// A text is blank exactly when each of its characters is white space: it is where the
/// texts before and behind any cut are, and a text of one character is as that character
/// is.
pub proof fn law_blank_texts_hold_white_space(a: Seq<char>, b: Seq<char>, c: char)
    ensures
        blank(Seq::<char>::empty()),
        blank(seq![c]) <==> white_space(c),
        blank(a + b) <==> blank(a) && blank(b),
{
    assert(blank(seq![c]) ==> white_space(c)) by {
        assert(seq![c][0] == c);
    }
    if blank(a + b) {
        assert forall|i: int| 0 <= i < a.len() implies white_space(#[trigger] a[i]) by {
            assert((a + b)[i] == a[i]);
        }
        assert forall|i: int| 0 <= i < b.len() implies white_space(#[trigger] b[i]) by {
            assert((a + b)[a.len() + i] == b[i]);
        }
    }
}

/// Trimming takes away white space at the two ends and nothing else: whatever white space
/// is put around a text that has none at its ends, what is left is that text.
pub proof fn law_trimming_takes_white_space_at_the_ends(
    before: Seq<char>,
    text: Seq<char>,
    behind: Seq<char>,
)
    requires
        forall|i: int| 0 <= i < before.len() ==> white_space(#[trigger] before[i]),
        forall|i: int| 0 <= i < behind.len() ==> white_space(#[trigger] behind[i]),
        text.len() > 0 ==> !white_space(text[0]) && !white_space(text[text.len() - 1]),
    ensures
        trim(before + text + behind) == text,
{
    let s = before + text + behind;
    let from = before.len() as int;
    let to = from + text.len();
    assert(s.subrange(0, from) =~= before);
    assert(s.subrange(to, s.len() as int) =~= behind);
    assert(s.subrange(from, to) =~= text);
    if text.len() == 0 {
        assert(s.subrange(0, s.len() as int) =~= s);
        assert(s.subrange(s.len() as int, s.len() as int) =~= text);
        assert(s =~= before + behind);
        lemma_trim_cut(s, s.len() as int, s.len() as int);
    } else {
        lemma_trim_cut(s, from, to);
    }
}

/// The view of a list of strings has at each place the characters of the string there.
pub proof fn law_views_keep_places(v: Seq<String>)
    ensures
        views(v).len() == v.len(),
        forall|i: int| 0 <= i < v.len() ==> #[trigger] views(v)[i] == v[i]@,
{
}

/// A repeated character stands at every place.
pub proof fn law_repeated_is_the_same_everywhere(c: char, n: nat)
    ensures
        repeated(c, n).len() == n,
        forall|i: int| 0 <= i < n ==> #[trigger] repeated(c, n)[i] == c,
{
}

} // verus!
