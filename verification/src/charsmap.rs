//! The tables by which some tokenizers rewrite the characters of a text.
//!
//! A table begins with the size in bytes of a trie, four bytes, little endian. The units
//! of the trie follow, four bytes each, and behind them the text of all replacements. A
//! search in the trie walks from unit to unit as their bits say, and what it finds is
//! where a replacement begins.
use crate::text::chars_of;
use vstd::prelude::*;

verus! {

/// Each 256 units of a trie make a block.
pub const BLOCK: usize = 256;

/// The number that four bytes stand for, little endian.
pub open spec fn number_at(bytes: Seq<u8>, at: int) -> int {
    bytes[at] + 0x100 * bytes[at + 1] + 0x1_0000 * bytes[at + 2] + 0x100_0000 * bytes[at + 3]
}

/// How many units the trie of a table has.
pub open spec fn unit_count(table: Seq<u8>) -> int {
    number_at(table, 0) / 4
}

/// The unit at `i` of the trie.
pub open spec fn unit_at(table: Seq<u8>, i: int) -> u64 {
    number_at(table, 4 + 4 * i) as u64
}

/// How far from its own place a unit sends the search, as what the place is combined with.
pub open spec fn distance(unit: u64) -> u64 {
    (unit >> 10) << ((unit & 0x200) >> 6)
}

/// Where the unit at `i` sends the search.
pub open spec fn target(table: Seq<u8>, i: int) -> u64 {
    (i as u64) ^ distance(unit_at(table, i))
}

/// A unit at which a word ends.
pub open spec fn ends_a_word(unit: u64) -> bool {
    (unit >> 8) & 1 == 1
}

/// Where the text of all replacements begins in a table.
pub open spec fn text_start(table: Seq<u8>) -> int {
    4 + 4 * unit_count(table)
}

/// A replacement may begin at `at`: it is in the text, or at its end, and not inside of a
/// character.
pub open spec fn may_begin(table: Seq<u8>, at: int) -> bool {
    let from = text_start(table) + at;
    from == table.len() || from < table.len() && (table[from] < 0x80 || table[from] >= 0xc0)
}

/// A search that comes to the unit at `i` finds its way: where the unit sends it there is
/// a unit, and what a word leads to is where a replacement may begin. The units that hold
/// what a word leads to, marked by their highest bit, send no search anywhere.
pub open spec fn is_sound_unit(table: Seq<u8>, i: int) -> bool {
    let unit = unit_at(table, i);
    i == 0 || unit < 0x8000_0000 ==> {
        &&& target(table, i) < unit_count(table)
        &&& ends_a_word(unit) ==> may_begin(
            table,
            unit_at(table, target(table, i) as int) as int % 0x8000_0000,
        )
    }
}

/// Every search in the table finds its way. From where a unit sends it, a search goes on
/// within the same block, and the blocks are whole.
pub open spec fn is_sound_table(table: Seq<u8>) -> bool {
    &&& table.len() >= 4
    &&& text_start(table) <= table.len()
    &&& unit_count(table) > 0
    &&& unit_count(table) % BLOCK as int == 0
    &&& forall|i: int| 0 <= i < unit_count(table) ==> #[trigger] is_sound_unit(table, i)
}

fn read_number(bytes: &Vec<u8>, at: usize) -> (r: u64)
    requires
        at + 4 <= bytes@.len(),
    ensures
        r == number_at(bytes@, at as int),
        r <= 0xffff_ffff,
{
    proof {
        assert(at + 4 <= bytes.len());
    }
    bytes[at] as u64 + 0x100 * bytes[at + 1] as u64 + 0x1_0000 * bytes[at + 2] as u64 + 0x100_0000
        * bytes[at + 3] as u64
}

fn unit_is_sound(table: &Vec<u8>, count: usize, i: usize) -> (r: bool)
    requires
        table@.len() >= 4,
        count == unit_count(table@),
        text_start(table@) <= table@.len(),
        i < count,
    ensures
        r == is_sound_unit(table@, i as int),
{
    let unit: u64 = read_number(table, 4 + 4 * i);
    if i != 0 && unit >= 0x8000_0000 {
        return true;
    }
    proof {
        assert((unit & 0x200) >> 6 < 64) by (bit_vector);
    }
    let sent: u64 = (i as u64) ^ ((unit >> 10) << ((unit & 0x200) >> 6));
    if sent >= count as u64 {
        return false;
    }
    if (unit >> 8) & 1 != 1 {
        return true;
    }
    let at: usize = (read_number(table, 4 + 4 * (sent as usize)) % 0x8000_0000) as usize;
    proof {
        assert(4 + 4 * count <= table.len());
    }
    let start: usize = 4 + 4 * count;
    if at > table.len() - start {
        return false;
    }
    at == table.len() - start || table[start + at] < 0x80 || table[start + at] >= 0xc0
}

/// Reports whether every search in the table finds its way.
pub fn table_is_sound(table: &Vec<u8>) -> (r: bool)
    ensures
        r == is_sound_table(table@),
{
    if table.len() < 4 {
        return false;
    }
    let count: u64 = read_number(table, 0) / 4;
    if count > ((table.len() - 4) / 4) as u64 || count == 0 || count % 256 != 0 {
        return false;
    }
    let count: usize = count as usize;
    let mut i: usize = 0;
    while i < count
        invariant
            table@.len() >= 4,
            count == unit_count(table@),
            text_start(table@) <= table@.len(),
            i <= count,
            forall|k: int| 0 <= k < i ==> #[trigger] is_sound_unit(table@, k),
        decreases count - i,
    {
        if !unit_is_sound(table, count, i) {
            return false;
        }
        i += 1;
    }
    true
}

/// What a character of a text in base 64 stands for.
pub open spec fn digit_64(c: char) -> Option<int> {
    if 'A' <= c && c <= 'Z' {
        Some(c as int - 'A' as int)
    } else if 'a' <= c && c <= 'z' {
        Some(c as int - 'a' as int + 26)
    } else if '0' <= c && c <= '9' {
        Some(c as int - '0' as int + 52)
    } else if c == '+' {
        Some(62)
    } else if c == '/' {
        Some(63)
    } else {
        None
    }
}

/// The bytes that four characters in base 64 stand for: three, or fewer where the last
/// characters of the text are filled up with equals signs.
pub open spec fn group_64(a: char, b: char, c: char, d: char, last: bool) -> Option<Seq<u8>> {
    match (digit_64(a), digit_64(b)) {
        (Some(w), Some(x)) => {
            let first = (4 * w + x / 16) as u8;
            if last && c == '=' && d == '=' {
                Some(seq![first])
            } else {
                match (digit_64(c), digit_64(d)) {
                    (Some(y), Some(z)) => Some(
                        seq![first, (16 * (x % 16) + y / 4) as u8, (64 * (y % 4) + z) as u8],
                    ),
                    (Some(y), None) => if last && d == '=' {
                        Some(seq![first, (16 * (x % 16) + y / 4) as u8])
                    } else {
                        None
                    },
                    _ => None,
                }
            }
        },
        _ => None,
    }
}

/// The bytes that a text in base 64 stands for.
pub open spec fn bytes_64(text: Seq<char>) -> Option<Seq<u8>>
    decreases text.len(),
{
    if text.len() == 0 {
        Some(seq![])
    } else if text.len() < 4 {
        None
    } else {
        match (
            group_64(text[0], text[1], text[2], text[3], text.len() == 4),
            bytes_64(text.skip(4)),
        ) {
            (Some(x), Some(y)) => Some(x + y),
            _ => None,
        }
    }
}

fn read_digit(c: char) -> (r: Option<u8>)
    ensures
        match r {
            Some(d) => digit_64(c) == Some(d as int) && d < 64,
            None => digit_64(c) is None,
        },
{
    let u: u32 = c as u32;
    if 'A' <= c && c <= 'Z' {
        Some((u - 65) as u8)
    } else if 'a' <= c && c <= 'z' {
        Some((u - 97 + 26) as u8)
    } else if '0' <= c && c <= '9' {
        Some((u - 48 + 52) as u8)
    } else if c == '+' {
        Some(62)
    } else if c == '/' {
        Some(63)
    } else {
        None
    }
}

/// Appends the bytes of a group to `out`; false where the group stands for none.
fn push_group(out: &mut Vec<u8>, a: char, b: char, c: char, d: char, last: bool) -> (r: bool)
    ensures
        r == (group_64(a, b, c, d, last) is Some),
        r ==> final(out)@ == old(out)@ + group_64(a, b, c, d, last)->0,
{
    if let (Some(w), Some(x)) = (read_digit(a), read_digit(b)) {
        let first: u8 = 4 * w + x / 16;
        if last && c == '=' && d == '=' {
            out.push(first);
            proof {
                assert(out@ =~= old(out)@ + seq![first]);
            }
            return true;
        }
        if let Some(y) = read_digit(c) {
            let second: u8 = 16 * (x % 16) + y / 4;
            if let Some(z) = read_digit(d) {
                let third: u8 = 64 * (y % 4) + z;
                out.push(first);
                out.push(second);
                out.push(third);
                proof {
                    assert(out@ =~= old(out)@ + seq![first, second, third]);
                }
                return true;
            }
            if last && d == '=' {
                out.push(first);
                out.push(second);
                proof {
                    assert(out@ =~= old(out)@ + seq![first, second]);
                }
                return true;
            }
        }
    }
    false
}

/// The bytes that a text in base 64 stands for.
pub fn decode_64(text: &str) -> (r: Option<Vec<u8>>)
    ensures
        match r {
            Some(bytes) => bytes_64(text@) == Some(bytes@),
            None => bytes_64(text@) is None,
        },
{
    let chars = chars_of(text);
    let mut out: Vec<u8> = Vec::new();
    let mut i: usize = 0;
    proof {
        assert(chars@.skip(0) =~= chars@);
        if bytes_64(chars@) is Some {
            assert(out@ + bytes_64(chars@)->0 =~= bytes_64(chars@)->0);
        }
    }
    while i < chars.len()
        invariant
            i <= chars@.len(),
            chars@ == text@,
            bytes_64(chars@) is Some <==> bytes_64(chars@.skip(i as int)) is Some,
            bytes_64(chars@) matches Some(all) ==> all == out@ + bytes_64(chars@.skip(i as int))->0,
        decreases chars@.len() - i,
    {
        let ghost rest = chars@.skip(i as int);
        if chars.len() - i < 4 {
            return None;
        }
        let ghost before = out@;
        let last: bool = chars.len() - i == 4;
        let ok = push_group(&mut out, chars[i], chars[i + 1], chars[i + 2], chars[i + 3], last);
        proof {
            assert(rest[0] == chars@[i as int] && rest[1] == chars@[i + 1] && rest[2] == chars@[i
                + 2] && rest[3] == chars@[i + 3]);
            assert(rest.skip(4) =~= chars@.skip(i + 4));
            if ok && bytes_64(rest.skip(4)) is Some {
                let group = group_64(rest[0], rest[1], rest[2], rest[3], last)->0;
                assert(before + (group + bytes_64(rest.skip(4))->0) =~= out@ + bytes_64(
                    rest.skip(4),
                )->0);
            }
        }
        if !ok {
            return None;
        }
        i += 4;
    }
    proof {
        assert(chars@.skip(i as int) =~= seq![]);
        assert(out@ + Seq::<u8>::empty() =~= out@);
    }
    Some(out)
}

/// A table, given in base 64, in which every search finds its way.
pub open spec fn is_sound_charsmap(text: Seq<char>) -> bool {
    bytes_64(text) matches Some(table) && is_sound_table(table)
}

/// Reports whether every search finds its way in a table that is given in base 64.
pub fn charsmap_is_sound(text: &str) -> (r: bool)
    ensures
        r == is_sound_charsmap(text@),
{
    match decode_64(text) {
        Some(table) => table_is_sound(&table),
        None => false,
    }
}

/// Four digits in base 64 and the three bytes that they stand for are the same number.
pub proof fn law_groups_keep_the_number(a: char, b: char, c: char, d: char, last: bool)
    requires
        digit_64(a) is Some,
        digit_64(b) is Some,
        digit_64(c) is Some,
        digit_64(d) is Some,
    ensures
        group_64(a, b, c, d, last) matches Some(bytes) && bytes.len() == 3 && 0x1_0000 * bytes[0]
            + 0x100 * bytes[1] + bytes[2] == 0x4_0000 * digit_64(a)->0 + 0x1000 * digit_64(b)->0
            + 0x40 * digit_64(c)->0 + digit_64(d)->0,
{
}

/// The digits in base 64 are the capital letters, the small letters, the ten digits, the
/// plus sign and the slash, in this order.
pub proof fn law_digits_are_letters_digits_and_signs(c: char, n: int)
    ensures
        digit_64(c) == Some(n) <==> {
            ||| 'A' <= c <= 'Z' && n == c as int - 65
            ||| 'a' <= c <= 'z' && n == c as int - 71
            ||| '0' <= c <= '9' && n == c as int + 4
            ||| c == '+' && n == 62
            ||| c == '/' && n == 63
        },
{
}

} // verus!
