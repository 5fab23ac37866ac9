//! The texts that are shown to the user: numbers, bars, previews and progress lines.
use crate::text::{chars_of, trim_bounds};
use vstd::prelude::*;
use vstd::string::*;

verus! {

use crate::text::{repeated, trim};
use vstd::utf8::{decode_utf8, encode_utf8, is_char_boundary};

/// The length of a full bar.
pub const BAR_LEN: usize = 50;

/// How many bytes of a file's name the progress line has room for.
pub const SHORT_NAME_BYTES: usize = 28;

/// How many characters of a snippet a result shows.
pub const PREVIEW_CHARS: usize = 150;

/// The decimal digits of `n`.
pub open spec fn decimal(n: nat) -> Seq<char>
    decreases n,
{
    if n < 10 {
        seq![digit(n)]
    } else {
        decimal(n / 10).push(digit(n % 10))
    }
}

/// The character of a digit.
pub open spec fn digit(d: nat) -> char {
    (48 + d) as char
}

/// Appends the decimal digits of `n` to `out`.
pub fn push_decimal(out: &mut String, n: u128)
    ensures
        final(out)@ == old(out)@ + decimal(n as nat),
    decreases n,
{
    if n >= 10 {
        push_decimal(out, n / 10);
    }
    let d: u8 = (n % 10) as u8;
    out.push((48 + d) as char);
    proof {
        assert(out@ =~= old(out)@ + decimal(n as nat));
    }
}

/// A bar for `percent`: filled for half as many places, and empty up to its full length.
pub open spec fn bar_text(percent: nat) -> Seq<char> {
    repeated('\u{2588}', percent / 2) + repeated(
        '\u{2591}',
        (if percent / 2 <= BAR_LEN {
            BAR_LEN - percent / 2
        } else {
            0
        }) as nat,
    )
}

fn push_repeated(out: &mut String, c: char, n: usize)
    ensures
        final(out)@ == old(out)@ + repeated(c, n as nat),
{
    let mut i: usize = 0;
    proof {
        assert(out@ =~= old(out)@ + repeated(c, 0));
    }
    while i < n
        invariant
            i <= n,
            out@ == old(out)@ + repeated(c, i as nat),
        decreases n - i,
    {
        out.push(c);
        i += 1;
        proof {
            assert(out@ =~= old(out)@ + repeated(c, i as nat));
        }
    }
}

/// Draws the bar for `percent`.
pub fn bar(percent: usize) -> (r: String)
    ensures
        r@ == bar_text(percent as nat),
{
    let filled: usize = percent / 2;
    let empty: usize = if filled <= BAR_LEN {
        BAR_LEN - filled
    } else {
        0
    };
    let mut out = String::new();
    push_repeated(&mut out, '\u{2588}', filled);
    push_repeated(&mut out, '\u{2591}', empty);
    proof {
        assert(out@ =~= bar_text(percent as nat));
    }
    out
}

/// Up to 100 percent, every bar is as long as a full one.
pub proof fn law_bars_have_one_length(percent: nat)
    requires
        percent <= 100,
    ensures
        bar_text(percent).len() == BAR_LEN,
{
}

/// The name as the progress line shows it: cut off where it is too long.
pub open spec fn short_name_text(name: Seq<char>) -> Seq<char> {
    let bytes = encode_utf8(name);
    if bytes.len() > SHORT_NAME_BYTES {
        decode_utf8(bytes.subrange(0, SHORT_NAME_BYTES as int)) + "..."@
    } else {
        name
    }
}

/// Whether a name that is too long can be cut off between two characters.
pub open spec fn can_shorten(name: Seq<char>) -> bool {
    encode_utf8(name).len() > SHORT_NAME_BYTES ==> is_char_boundary(
        encode_utf8(name),
        SHORT_NAME_BYTES as int,
    )
}

/// Shortens `name` to `SHORT_NAME_BYTES` bytes and an ellipsis where it is longer.
pub fn short_name(name: &str) -> (r: String)
    requires
        can_shorten(name@),
    ensures
        r@ == short_name_text(name@),
{
    if name.as_bytes().len() > SHORT_NAME_BYTES {
        let (head, _tail) = name.split_at(SHORT_NAME_BYTES);
        proof {
            vstd::utf8::encode_utf8_decode_utf8(head@);
        }
        let mut out = head.to_owned();
        out.append("...");
        out
    } else {
        name.to_owned()
    }
}

/// The line that shows the progress of indexing, drawn over the one before it.
pub open spec fn progress_text(done: nat, total: nat, percent: nat, name: Seq<char>) -> Seq<char> {
    "\r\x1B[K  ["@ + bar_text(percent) + "] "@ + decimal(done + 1) + "/"@ + decimal(total) + " ("@
        + decimal(percent) + "%) - "@ + short_name_text(name)
}

/// The progress line for the file `name`, when `done` of `total` files are behind it.
pub fn progress_line(done: usize, total: usize, percent: usize, name: &str) -> (r: String)
    requires
        can_shorten(name@),
    ensures
        r@ == progress_text(done as nat, total as nat, percent as nat, name@),
{
    let mut out = "\r\x1B[K  [".to_owned();
    out.append(bar(percent).as_str());
    out.append("] ");
    push_decimal(&mut out, done as u128 + 1);
    out.append("/");
    push_decimal(&mut out, total as u128);
    out.append(" (");
    push_decimal(&mut out, percent as u128);
    out.append("%) - ");
    out.append(short_name(name).as_str());
    out
}

/// Newlines as blanks.
pub open spec fn one_line(s: Seq<char>) -> Seq<char> {
    s.map_values(
        |c: char|
            if c == '\n' {
                ' '
            } else {
                c
            },
    )
}

/// What a result shows of its snippet.
pub open spec fn preview_text(snippet: Seq<char>) -> Seq<char> {
    one_line(
        trim(
            if snippet.len() <= PREVIEW_CHARS {
                snippet
            } else {
                snippet.take(PREVIEW_CHARS as int)
            },
        ),
    )
}

/// The beginning of `snippet`, trimmed and on one line.
pub fn preview(snippet: &str) -> (r: String)
    ensures
        r@ == preview_text(snippet@),
{
    let chars = chars_of(snippet);
    let n: usize = if chars.len() < PREVIEW_CHARS {
        chars.len()
    } else {
        PREVIEW_CHARS
    };
    let (a, b) = trim_bounds(&chars, 0, n);
    let ghost text = chars@.subrange(a as int, b as int);
    proof {
        assert(chars@.subrange(0, n as int) =~= (if snippet@.len() <= PREVIEW_CHARS {
            snippet@
        } else {
            snippet@.take(PREVIEW_CHARS as int)
        }));
    }
    let mut out = String::new();
    let mut i: usize = a;
    proof {
        assert(out@ =~= one_line(text.take(0)));
    }
    while i < b
        invariant
            a <= i <= b <= chars@.len(),
            text == chars@.subrange(a as int, b as int),
            out@ == one_line(text.take(i - a)),
        decreases b - i,
    {
        let c = chars[i];
        out.push(if c == '\n' { ' ' } else { c });
        i += 1;
        proof {
            assert(text[i - 1 - a] == c);
            assert(out@ =~= one_line(text.take(i - a)));
        }
    }
    proof {
        assert(text.take(b - a) =~= text);
    }
    out
}

/// The digits of a number are digits, have no zero in front unless they are one digit, and
/// read back, from the left, as the number.
pub proof fn law_decimal_digits_read_back(n: nat)
    ensures
        decimal(n).len() > 0,
        forall|i: int|
            0 <= i < decimal(n).len() ==> '0' <= #[trigger] decimal(n)[i] && decimal(n)[i] <= '9',
        decimal(n)[0] == '0' ==> decimal(n).len() == 1,
        decimal(n).fold_left(0int, |value: int, c: char| value * 10 + (c as u32 - 48)) == n,
    decreases n,
{
    let read = |value: int, c: char| value * 10 + (c as u32 - 48);
    let all = decimal(n);
    if n < 10 {
        assert(all.drop_last() =~= seq![]);
        reveal_with_fuel(Seq::fold_left, 2);
        assert(all.fold_left(0int, read) == read(0, digit(n)));
        if n > 0 {
            assert(all[0] != '0');
        }
    } else {
        law_decimal_digits_read_back(n / 10);
        let front = decimal(n / 10);
        assert(all.drop_last() =~= front);
        assert(all.last() == digit(n % 10));
        assert(all.fold_left(0int, read) == read(front.fold_left(0int, read), digit(n % 10)));
        assert(all[0] == front[0]);
        if all[0] == '0' {
            assert(front.len() == 1);
            assert(front =~= seq!['0']);
            assert(front.drop_last() =~= seq![]);
            reveal_with_fuel(Seq::fold_left, 2);
            assert(front.fold_left(0int, read) == read(0, '0'));
        }
    }
}

/// A bar has a full block for every two percent, and behind them light ones up to fifty.
pub proof fn law_bars_are_filled_by_half_the_percent(percent: nat)
    ensures
        bar_text(percent).len() == (if percent <= 101 {
            50
        } else {
            percent / 2
        }),
        forall|i: int|
            0 <= i < bar_text(percent).len() ==> #[trigger] bar_text(percent)[i] == (if 2 * i + 2
                <= percent {
                '\u{2588}'
            } else {
                '\u{2591}'
            }),
{
}

/// A name of up to 28 bytes is shown as it is, and of a longer one its first 28 bytes and
/// three dots.
pub proof fn law_long_names_are_cut_off(name: Seq<char>)
    requires
        encode_utf8(name).len() > 28 ==> is_char_boundary(encode_utf8(name), 28),
    ensures
        encode_utf8(name).len() <= 28 ==> short_name_text(name) == name,
        encode_utf8(name).len() > 28 ==> {
            let shown = short_name_text(name);
            &&& shown.len() >= 3
            &&& shown.subrange(shown.len() - 3, shown.len() as int) == seq!['.', '.', '.']
            &&& encode_utf8(shown.take(shown.len() - 3)) == encode_utf8(name).take(28)
        },
{
    reveal_strlit("...");
    if encode_utf8(name).len() > 28 {
        let shown = short_name_text(name);
        let bytes = encode_utf8(name);
        vstd::utf8::encode_utf8_valid_utf8(name);
        vstd::utf8::valid_utf8_split(bytes, 28);
        vstd::utf8::decode_utf8_encode_utf8(bytes.subrange(0, 28));
        let head = decode_utf8(bytes.subrange(0, 28));
        assert(shown =~= head + "..."@);
        assert(shown.subrange(shown.len() - 3, shown.len() as int) =~= seq!['.', '.', '.']);
        assert(shown.take(shown.len() - 3) =~= head);
        assert(bytes.subrange(0, 28) =~= bytes.take(28));
    }
}

/// A preview is the beginning of the snippet, up to 150 characters, without the white space
/// at its ends, with a blank for each newline and every other character as it is.
pub proof fn law_previews_show_the_beginning(snippet: Seq<char>)
    ensures
        ({
            let start = trim(
                snippet.take(
                    if snippet.len() < 150 {
                        snippet.len() as int
                    } else {
                        150
                    },
                ),
            );
            &&& preview_text(snippet).len() == start.len()
            &&& forall|i: int|
                0 <= i < start.len() ==> #[trigger] preview_text(snippet)[i] == (if start[i]
                    == '\n' {
                    ' '
                } else {
                    start[i]
                })
        }),
{
    assert(snippet.take(snippet.len() as int) =~= snippet);
}

/// The progress line clears the line, and shows the bar, which file of how many is under
/// way, the percent, and the name.
pub proof fn law_progress_counts_from_one(done: nat, total: nat, percent: nat, name: Seq<char>)
    ensures
        progress_text(done, total, percent, name) == "\r\x1B[K  ["@ + bar_text(percent) + "] "@
            + decimal(done + 1) + "/"@ + decimal(total) + " ("@ + decimal(percent) + "%) - "@
            + short_name_text(name),
{
}


} // verus!
