//! Which search patterns are found in any text.
//!
//! A search for a regular expression that can match in many ways may go back over the text
//! again and again, until it is given up. A pattern that matches nothing at all makes a
//! match of no length. The patterns told apart here as steady do neither.
use crate::text::chars_of;
use vstd::prelude::*;

verus! {

/// What is searched for: a text as it stands, or a regular expression.
pub enum Pattern {
    Literal(String),
    Regex(String),
}

/// What a [`Pattern`] holds.
pub enum PatternView {
    Literal(Seq<char>),
    Regex(Seq<char>),
}

impl View for Pattern {
    type V = PatternView;

    open spec fn view(&self) -> PatternView {
        match self {
            Pattern::Literal(text) => PatternView::Literal(text@),
            Pattern::Regex(text) => PatternView::Regex(text@),
        }
    }
}

/// The character has a meaning of its own in a regular expression.
pub open spec fn is_meta(c: char) -> bool {
    c == '\\' || c == '.' || c == '[' || c == ']' || c == '(' || c == ')' || c == '{' || c == '}'
        || c == '*' || c == '+' || c == '?' || c == '^' || c == '$' || c == '|'
}

/// The character, behind a backslash, stands for one character or for a class.
pub open spec fn is_escape(c: char) -> bool {
    c == 's' || c == 'S' || c == 'd' || c == 'D' || c == 'w' || c == 'W' || c == 'n' || c == 'r'
        || c == 't'
}

/// The character stands for itself between the brackets of a class.
pub open spec fn is_member(c: char) -> bool {
    c != '[' && c != ']' && c != '\\' && c != '^' && c != '-' && c != '&' && c != ':'
}

pub open spec fn is_digit(c: char) -> bool {
    '0' <= c <= '9'
}

/// The regular expression `item` matches one character: itself, one of a named class, or
/// one of those that stand in brackets.
pub open spec fn is_item(item: Seq<char>) -> bool {
    ||| item.len() == 1 && !is_meta(item[0])
    ||| item.len() == 2 && item[0] == '\\' && is_escape(item[1])
    ||| item.len() >= 3 && item[0] == '[' && item[item.len() - 1] == ']' && forall|i: int|
        1 <= i < item.len() - 1 ==> is_member(#[trigger] item[i])
}

/// `suffix` says how often an item is taken: once, as often as it occurs, or as often as
/// it occurs with a least number of times of up to four digits.
pub open spec fn is_repeat(suffix: Seq<char>) -> bool {
    ||| suffix.len() == 0
    ||| suffix.len() == 1 && suffix[0] == '+'
    ||| {
        &&& 4 <= suffix.len() <= 7
        &&& suffix[0] == '{' && suffix[suffix.len() - 2] == ',' && suffix[suffix.len() - 1] == '}'
        &&& suffix[1] != '0'
        &&& forall|i: int| 1 <= i < suffix.len() - 2 ==> is_digit(#[trigger] suffix[i])
    }
}

/// `regex` is an item up to `k`, and how often it is taken from there.
pub open spec fn is_item_up_to(regex: Seq<char>, k: int) -> bool {
    is_item(regex.take(k)) && is_repeat(regex.skip(k))
}

/// The regular expression matches one character, or a run of such characters, and
/// nothing behind it.
pub open spec fn is_steady_regex(regex: Seq<char>) -> bool {
    exists|k: int| 0 <= k <= regex.len() && #[trigger] is_item_up_to(regex, k)
}

/// The pattern is found in any text without going back over it, and never matches
/// nothing.
pub open spec fn is_steady(pattern: PatternView) -> bool {
    match pattern {
        PatternView::Literal(text) => text.len() > 0,
        PatternView::Regex(text) => is_steady_regex(text),
    }
}

fn meta(c: char) -> (r: bool)
    ensures
        r == is_meta(c),
{
    c == '\\' || c == '.' || c == '[' || c == ']' || c == '(' || c == ')' || c == '{' || c == '}'
        || c == '*' || c == '+' || c == '?' || c == '^' || c == '$' || c == '|'
}

fn escape(c: char) -> (r: bool)
    ensures
        r == is_escape(c),
{
    c == 's' || c == 'S' || c == 'd' || c == 'D' || c == 'w' || c == 'W' || c == 'n' || c == 'r'
        || c == 't'
}

fn member(c: char) -> (r: bool)
    ensures
        r == is_member(c),
{
    c != '[' && c != ']' && c != '\\' && c != '^' && c != '-' && c != '&' && c != ':'
}

/// Where the item ends that the regular expression begins with, if it begins with one.
fn item_end(regex: &Vec<char>) -> (r: Option<usize>)
    ensures
        match r {
            Some(k) => k <= regex@.len() && is_item(regex@.take(k as int)) && forall|j: int|
                0 <= j <= regex@.len() && #[trigger] is_item(regex@.take(j)) ==> j == k,
            None => forall|j: int|
                0 <= j <= regex@.len() ==> !#[trigger] is_item(regex@.take(j)),
        },
{
    if regex.len() == 0 {
        return None;
    }
    if !meta(regex[0]) {
        assert(regex@.take(1)[0] == regex@[0]);
        return Some(1);
    }
    if regex[0] == '\\' {
        if regex.len() >= 2 && escape(regex[1]) {
            assert(regex@.take(2)[1] == regex@[1]);
            return Some(2);
        }
        assert forall|j: int| 0 <= j <= regex@.len() implies !#[trigger] is_item(
            regex@.take(j),
        ) by {
            if j == 2 {
                assert(regex@.take(j)[1] == regex@[1]);
            }
        }
        return None;
    }
    if regex[0] != '[' {
        return None;
    }
    let mut i: usize = 1;
    while i < regex.len() && member(regex[i])
        invariant
            1 <= i <= regex@.len(),
            forall|j: int| 1 <= j < i ==> is_member(#[trigger] regex@[j]),
        decreases regex@.len() - i,
    {
        i += 1;
    }
    if i < regex.len() && i >= 2 && regex[i] == ']' {
        let k: usize = i + 1;
        assert(is_item(regex@.take(k as int)));
        assert forall|j: int|
            0 <= j <= regex@.len() && #[trigger] is_item(regex@.take(j)) implies j == k by {
            assert(regex@.take(j)[j - 1] == regex@[j - 1]);
            if j > k {
                assert(is_member(regex@.take(j)[i as int]));
            }
        }
        return Some(k);
    }
    assert forall|j: int| 0 <= j <= regex@.len() implies !#[trigger] is_item(regex@.take(j)) by {
        if is_item(regex@.take(j)) {
            assert(regex@.take(j)[j - 1] == regex@[j - 1]);
            if j > i + 1 {
                assert(is_member(regex@.take(j)[i as int]));
            }
        }
    }
    None
}

/// Whether the regular expression says how often an item is taken, from `k` on.
fn repeats_from(regex: &Vec<char>, k: usize) -> (r: bool)
    requires
        k <= regex@.len(),
    ensures
        r == is_repeat(regex@.skip(k as int)),
{
    let len: usize = regex.len() - k;
    if len == 0 {
        return true;
    }
    if len == 1 {
        return regex[k] == '+';
    }
    if len < 4 || len > 7 || regex[k] != '{' || regex[k + len - 2] != ',' || regex[k + len - 1]
        != '}' || regex[k + 1] == '0' {
        return false;
    }
    let ghost suffix = regex@.skip(k as int);
    let mut i: usize = 1;
    while i < len - 2
        invariant
            1 <= i <= len - 2,
            len == regex@.len() - k,
            suffix == regex@.skip(k as int),
            forall|j: int| 1 <= j < i ==> is_digit(#[trigger] suffix[j]),
        decreases len - i,
    {
        assert(k + i < regex.len());
        let c = regex[k + i];
        assert(c == suffix[i as int]);
        if c < '0' || c > '9' {
            return false;
        }
        i += 1;
    }
    true
}

/// Whether the regular expression matches one character or a run of such characters.
pub fn regex_is_steady(regex: &str) -> (r: bool)
    ensures
        r == is_steady_regex(regex@),
{
    let chars = chars_of(regex);
    match item_end(&chars) {
        Some(k) => {
            let r = repeats_from(&chars, k);
            proof {
                if r {
                    assert(is_item_up_to(regex@, k as int));
                }
            }
            r
        },
        None => false,
    }
}

/// Whether the pattern is found in any text without going back over it.
pub fn pattern_is_steady(pattern: &Pattern) -> (r: bool)
    ensures
        r == is_steady(pattern@),
{
    match pattern {
        Pattern::Literal(text) => chars_of(text.as_str()).len() > 0,
        Pattern::Regex(text) => regex_is_steady(text.as_str()),
    }
}

/// A plain character alone, a run of it, and a run of at least so many of it are steady; a
/// character that may be missing is not, nor is anything with another character behind it.
pub proof fn law_runs_of_a_character_are_steady(c: char, d: char, e: char)
    requires
        c != '\\' && c != '.' && c != '[' && c != ']' && c != '(' && c != ')' && c != '{' && c != '}'
            && c != '*' && c != '+' && c != '?' && c != '^' && c != '$' && c != '|',
        '1' <= d <= '9',
        e != '+',
    ensures
        is_steady_regex(seq![c]),
        is_steady_regex(seq![c, '+']),
        is_steady_regex(seq![c, '{', d, ',', '}']),
        !is_steady_regex(seq![c, e]),
        !is_steady_regex(seq![]),
{
    assert(is_item_up_to(seq![c], 1)) by {
        assert(seq![c].take(1) =~= seq![c]);
        assert(seq![c].skip(1) =~= seq![]);
    }
    let s = seq![c, '+'];
    assert(is_item_up_to(s, 1)) by {
        assert(s.take(1) =~= seq![c]);
        assert(s.skip(1) =~= seq!['+']);
    }
    let t = seq![c, '{', d, ',', '}'];
    assert(is_item_up_to(t, 1)) by {
        assert(t.take(1) =~= seq![c]);
        assert(t.skip(1) =~= seq!['{', d, ',', '}']);
    }
    let u = seq![c, e];
    assert forall|k: int| 0 <= k <= u.len() implies !#[trigger] is_item_up_to(u, k) by {
        if k > 0 {
            assert(u.take(k)[0] == c);
        }
        if k == 1 {
            assert(u.skip(1)[0] == e);
        }
    }
}

/// Nothing steady holds a group, a choice or an anchor, but in brackets.
pub proof fn law_steady_expressions_have_no_groups(regex: Seq<char>, i: int)
    requires
        is_steady_regex(regex),
        regex[0] != '[',
        0 <= i < regex.len(),
    ensures
        regex[i] != '(' && regex[i] != '|' && regex[i] != '*' && regex[i] != '?' && regex[i] != '^'
            && regex[i] != '$' && regex[i] != '.',
{
    let k = choose|k: int| 0 <= k <= regex.len() && #[trigger] is_item_up_to(regex, k);
    if i < k {
        assert(regex.take(k)[i] == regex[i]);
        assert(regex.take(k)[0] == regex[0]);
    } else {
        assert(regex.skip(k)[i - k] == regex[i]);
    }
}

} // verus!
