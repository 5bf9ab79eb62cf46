//! The text format of an instance, from bytes to rows of numbers.
//!
//! A text is cut into lines at each newline, a line into tokens at blanks, and
//! every token has to be a decimal number that fits in 16 bits.
//!
//! The first line is the header: the number of items `n`, the number of
//! dimensions `m`, and two further numbers that are not used. The second line
//! holds the `n` profits. Then come `m` lines, one per dimension, with the `n`
//! weights of the items in that dimension, and a last line with the `m`
//! capacities.

use vstd::prelude::*;
use crate::instance::Instance;
use crate::item::ItemModel;

verus! {

/// Why a text does not describe an instance.
#[derive(Clone, Copy, Debug, PartialEq, Eq, Structural)]
pub enum MalformedInstance {
    /// Some token is not a decimal number below 65536.
    NonNumericToken,
    /// Some line holds another number of tokens than its place asks for: four
    /// in the header, one per item in the profit line and in each weight line,
    /// one per dimension in the capacity line.
    WrongTokenCount,
    /// The number of lines is not the announced number of dimensions plus three.
    LengthMismatch,
    /// The header announces no item or no dimension.
    Empty,
}

/// The byte that ends a line.
pub open spec fn is_newline(byte: u8) -> bool {
    byte == 10
}

/// The bytes that separate tokens within a line: space, tab, vertical tab,
/// form feed and carriage return.
pub open spec fn is_blank(byte: u8) -> bool {
    byte == 32 || byte == 9 || byte == 11 || byte == 12 || byte == 13
}

/// The decimal digits.
pub open spec fn is_digit(byte: u8) -> bool {
    48 <= byte <= 57
}

/// The pieces into which the newlines cut a text; there is always one piece
/// more than there are newlines.
pub open spec fn pieces(text: Seq<u8>) -> Seq<Seq<u8>>
    decreases text.len(),
{
    if text.len() == 0 {
        seq![Seq::empty()]
    } else {
        let before = pieces(text.drop_last());
        if is_newline(text.last()) {
            before.push(Seq::empty())
        } else {
            before.drop_last().push(before.last().push(text.last()))
        }
    }
}

/// The lines of a text: its pieces, but for an empty piece at the very end, so
/// that a final newline opens no further line.
pub open spec fn lines(text: Seq<u8>) -> Seq<Seq<u8>> {
    let all = pieces(text);
    if all.last().len() == 0 {
        all.drop_last()
    } else {
        all
    }
}

/// The tokens of a line: its maximal runs of bytes that are not blank.
pub open spec fn words(line: Seq<u8>) -> Seq<Seq<u8>>
    decreases line.len(),
{
    if line.len() == 0 {
        Seq::empty()
    } else {
        let before = words(line.drop_last());
        if is_blank(line.last()) {
            before
        } else if line.len() >= 2 && !is_blank(line[line.len() - 2]) {
            before.drop_last().push(before.last().push(line.last()))
        } else {
            before.push(seq![line.last()])
        }
    }
}

/// The value of a digit; zero for any other byte.
pub open spec fn digit_value(byte: u8) -> nat {
    if is_digit(byte) {
        (byte - 48) as nat
    } else {
        0
    }
}

/// The number that a run of digits spells in base ten.
pub open spec fn decimal(digits: Seq<u8>) -> nat
    decreases digits.len(),
{
    if digits.len() == 0 {
        0
    } else {
        10 * decimal(digits.drop_last()) + digit_value(digits.last())
    }
}

/// The digits of a token: the token without a leading plus sign.
pub open spec fn unsigned(token: Seq<u8>) -> Seq<u8> {
    if token.len() > 0 && token[0] == 43 {
        token.skip(1)
    } else {
        token
    }
}

/// The number that a token spells, if it spells one: at least one digit and
/// nothing but digits after an optional plus sign, with a value below 65536.
pub open spec fn number(token: Seq<u8>) -> Option<u16> {
    let digits = unsigned(token);
    if digits.len() > 0 && (forall|i: int| 0 <= i < digits.len() ==> is_digit(digits[i]))
        && decimal(digits) <= u16::MAX {
        Some(decimal(digits) as u16)
    } else {
        None
    }
}

/// Whether every token spells a number.
pub open spec fn all_numbers(tokens: Seq<Seq<u8>>) -> bool {
    forall|i: int| 0 <= i < tokens.len() ==> (#[trigger] number(tokens[i])) is Some
}

/// The numbers that the tokens spell.
pub open spec fn numbers(tokens: Seq<Seq<u8>>) -> Seq<u16> {
    Seq::new(tokens.len(), |i: int| number(tokens[i]).unwrap())
}

/// The rows of numbers that a text holds, one row per line; none if some
/// token is no number.
pub open spec fn rows(text: Seq<u8>) -> Option<Seq<Seq<u16>>> {
    let all = lines(text);
    if forall|r: int| 0 <= r < all.len() ==> all_numbers(#[trigger] words(all[r])) {
        Some(Seq::new(all.len(), |r: int| numbers(words(all[r]))))
    } else {
        None
    }
}

/// Whether the lines after the header are as long as the header announces.
pub open spec fn counts_match(found: Seq<Seq<u16>>) -> bool {
    let n = found[0][0];
    let m = found[0][1];
    &&& forall|r: int| 1 <= r < m + 2 ==> (#[trigger] found[r]).len() == n
    &&& found[m + 2].len() == m
}

/// The instance that well-formed rows describe.
pub open spec fn instance_of(found: Seq<Seq<u16>>) -> Instance {
    let n = found[0][0];
    let m = found[0][1];
    Instance {
        items: Seq::new(
            n as nat,
            |i: int|
                ItemModel {
                    id: (i + 1) as usize,
                    profit: found[1][i],
                    weights: Seq::new(m as nat, |d: int| found[2 + d][i]),
                },
        ),
        capacity: found[m + 2],
    }
}

/// What rows of numbers describe: an instance, or the first thing found wrong
/// with them.
pub open spec fn read_rows(found: Seq<Seq<u16>>) -> Result<Instance, MalformedInstance> {
    if found.len() == 0 || found[0].len() != 4 {
        Err(MalformedInstance::WrongTokenCount)
    } else if found[0][0] == 0 || found[0][1] == 0 {
        Err(MalformedInstance::Empty)
    } else if found.len() != found[0][1] + 3 {
        Err(MalformedInstance::LengthMismatch)
    } else if !counts_match(found) {
        Err(MalformedInstance::WrongTokenCount)
    } else {
        Ok(instance_of(found))
    }
}

/// What a text describes: an instance, or the first thing found wrong with it.
/// A token that is no number is found before anything else.
pub open spec fn read_text(text: Seq<u8>) -> Result<Instance, MalformedInstance> {
    match rows(text) {
        None => Err(MalformedInstance::NonNumericToken),
        Some(found) => read_rows(found),
    }
}

/// What each of the byte vectors holds.
pub open spec fn views(parts: Seq<Vec<u8>>) -> Seq<Seq<u8>> {
    Seq::new(parts.len(), |i: int| parts[i]@)
}

/// What each of the rows holds.
pub open spec fn row_views(parts: Seq<Vec<u16>>) -> Seq<Seq<u16>> {
    Seq::new(parts.len(), |i: int| parts[i]@)
}

/// The pieces put together again, with a newline between each two of them.
pub open spec fn joined(parts: Seq<Seq<u8>>) -> Seq<u8>
    decreases parts.len(),
{
    if parts.len() == 0 {
        Seq::empty()
    } else if parts.len() == 1 {
        parts[0]
    } else {
        joined(parts.drop_last()).push(10) + parts.last()
    }
}

/// The pieces of a text hold no newline, and put together again with newlines
/// between them they are the text.
pub proof fn lemma_pieces_cut_at_newlines(text: Seq<u8>)
    ensures
        pieces(text).len() >= 1,
        forall|i: int, j: int|
            0 <= i < pieces(text).len() && 0 <= j < pieces(text)[i].len() ==> !is_newline(
                #[trigger] pieces(text)[i][j],
            ),
        joined(pieces(text)) == text,
    decreases text.len(),
{
    if text.len() == 0 {
        assert(joined(pieces(text)) == text);
    } else {
        let before = pieces(text.drop_last());
        lemma_pieces_cut_at_newlines(text.drop_last());
        if is_newline(text.last()) {
            assert(before.push(Seq::empty()).drop_last() == before);
            assert(joined(before).push(10) + Seq::<u8>::empty() == text);
        } else {
            let grown = before.last().push(text.last());
            let after = before.drop_last().push(grown);
            assert(after.drop_last() == before.drop_last());
            if before.len() == 1 {
                assert(grown == text);
            } else {
                assert(joined(before.drop_last()).push(10) + grown == (joined(
                    before.drop_last(),
                ).push(10) + before.last()).push(text.last()));
                assert(joined(after) == text);
            }
        }
    }
}

/// The tokens of a line are not empty and hold no blank.
pub proof fn lemma_words_hold_no_blank(line: Seq<u8>)
    ensures
        forall|i: int| 0 <= i < words(line).len() ==> (#[trigger] words(line)[i]).len() > 0,
        forall|i: int, j: int|
            0 <= i < words(line).len() && 0 <= j < words(line)[i].len() ==> !is_blank(
                #[trigger] words(line)[i][j],
            ),
        line.len() > 0 && !is_blank(line.last()) ==> words(line).len() > 0,
    decreases line.len(),
{
    if line.len() > 0 {
        let before = words(line.drop_last());
        let after = words(line);
        lemma_words_hold_no_blank(line.drop_last());
        if !is_blank(line.last()) {
            let last = after.len() - 1;
            if line.len() >= 2 && !is_blank(line[line.len() - 2]) {
                assert(line.drop_last().last() == line[line.len() - 2]);
                assert(before.len() > 0);
            }
            assert forall|i: int| 0 <= i < after.len() implies (#[trigger] after[i]).len() > 0 by {
                if i < last {
                    assert(after[i] == before[i]);
                }
            }
            assert forall|i: int, j: int|
                0 <= i < after.len() && 0 <= j < after[i].len() implies !is_blank(
                #[trigger] after[i][j],
            ) by {
                if i < last {
                    assert(after[i] == before[i]);
                } else if j < after[i].len() - 1 && before.len() > 0 {
                    assert(after[i][j] == before.last()[j]);
                }
            }
        }
    }
}

/// A number is at least what any of its leading digits spell.
proof fn lemma_decimal_grows(digits: Seq<u8>, k: int)
    requires
        0 <= k <= digits.len(),
    ensures
        decimal(digits.take(k)) <= decimal(digits),
    decreases digits.len(),
{
    if k == digits.len() {
        assert(digits.take(k) == digits);
    } else {
        assert(digits.drop_last().take(k) == digits.take(k));
        lemma_decimal_grows(digits.drop_last(), k);
    }
}

/// Cuts a text into its lines.
pub fn split_lines(text: &[u8]) -> (out: Vec<Vec<u8>>)
    ensures
        views(out@) == lines(text@),
{
    let mut done: Vec<Vec<u8>> = Vec::new();
    let mut current: Vec<u8> = Vec::new();
    let mut i: usize = 0;
    while i < text.len()
        invariant
            i <= text.len(),
            views(done@).push(current@) == pieces(text@.take(i as int)),
        decreases text.len() - i,
    {
        let byte = text[i];
        proof {
            assert(text@.take(i + 1).drop_last() == text@.take(i as int));
            assert(views(done@).push(current@).drop_last() == views(done@));
        }
        if byte == 10 {
            let ghost before = views(done@).push(current@);
            done.push(current);
            current = Vec::new();
            assert(views(done@) == before);
            assert(views(done@).push(current@) == before.push(Seq::empty()));
        } else {
            current.push(byte);
        }
        i = i + 1;
    }
    proof {
        assert(text@.take(i as int) == text@);
        assert(views(done@).push(current@).drop_last() == views(done@));
    }
    if current.len() > 0 {
        let ghost before = views(done@).push(current@);
        done.push(current);
        assert(views(done@) == before);
    }
    done
}

/// Cuts a line into its tokens.
pub fn split_words(line: &Vec<u8>) -> (out: Vec<Vec<u8>>)
    ensures
        views(out@) == words(line@),
{
    let mut done: Vec<Vec<u8>> = Vec::new();
    let mut current: Vec<u8> = Vec::new();
    let mut i: usize = 0;
    while i < line.len()
        invariant
            i <= line.len(),
            current.len() > 0 <==> i > 0 && !is_blank(line[i - 1]),
            words(line@.take(i as int)) == if current.len() > 0 {
                views(done@).push(current@)
            } else {
                views(done@)
            },
        decreases line.len() - i,
    {
        let byte = line[i];
        proof {
            assert(line@.take(i + 1).drop_last() == line@.take(i as int));
            assert(views(done@).push(current@).drop_last() == views(done@));
        }
        if byte == 32 || byte == 9 || byte == 11 || byte == 12 || byte == 13 {
            if current.len() > 0 {
                let ghost before = views(done@).push(current@);
                done.push(current);
                current = Vec::new();
                assert(views(done@) == before);
            }
        } else {
            let ghost earlier = current@;
            current.push(byte);
            assert(current@ == if earlier.len() > 0 {
                earlier.push(byte)
            } else {
                seq![byte]
            });
        }
        i = i + 1;
    }
    assert(line@.take(i as int) == line@);
    if current.len() > 0 {
        let ghost before = views(done@).push(current@);
        done.push(current);
        assert(views(done@) == before);
    }
    done
}

/// Reads the number that a token spells.
pub fn parse_number(token: &Vec<u8>) -> (out: Option<u16>)
    ensures
        out == number(token@),
{
    let start: usize = if token.len() > 0 && token[0] == 43 {
        1
    } else {
        0
    };
    let ghost digits = unsigned(token@);
    assert(digits == token@.skip(start as int));
    if start == token.len() {
        return None;
    }
    let mut value: u32 = 0;
    let mut i: usize = start;
    while i < token.len()
        invariant
            start <= i <= token.len(),
            digits == unsigned(token@),
            digits == token@.skip(start as int),
            forall|j: int| 0 <= j < i - start ==> is_digit(digits[j]),
            value == decimal(digits.take(i - start)),
            value <= u16::MAX,
        decreases token.len() - i,
    {
        let byte = token[i];
        if byte < 48 || byte > 57 {
            assert(!is_digit(digits[i - start]));
            return None;
        }
        proof {
            assert(digits.take(i + 1 - start).drop_last() == digits.take(i - start));
            lemma_decimal_grows(digits, i + 1 - start);
        }
        value = value * 10 + (byte - 48) as u32;
        if value > 65535 {
            return None;
        }
        i = i + 1;
    }
    assert(digits.take(i - start) == digits);
    Some(value as u16)
}

/// Reads the numbers of a line.
pub fn parse_row(line: &Vec<u8>) -> (out: Option<Vec<u16>>)
    ensures
        match out {
            Some(row) => all_numbers(words(line@)) && row@ == numbers(words(line@)),
            None => !all_numbers(words(line@)),
        },
{
    let tokens = split_words(line);
    let mut row: Vec<u16> = Vec::new();
    let mut i: usize = 0;
    while i < tokens.len()
        invariant
            i <= tokens.len(),
            views(tokens@) == words(line@),
            row.len() == i,
            forall|j: int| 0 <= j < i ==> number(#[trigger] words(line@)[j]) == Some(row[j]),
        decreases tokens.len() - i,
    {
        assert(views(tokens@)[i as int] == tokens[i as int]@);
        match parse_number(&tokens[i]) {
            Some(value) => {
                row.push(value);
            },
            None => {
                return None;
            },
        }
        i = i + 1;
    }
    assert(views(tokens@).len() == tokens.len());
    assert(row@ == numbers(words(line@)));
    Some(row)
}

/// Reads the rows of numbers that a text holds.
pub fn parse_rows(text: &[u8]) -> (out: Option<Vec<Vec<u16>>>)
    ensures
        match out {
            Some(found) => rows(text@) == Some(row_views(found@)),
            None => rows(text@) is None,
        },
{
    let all = split_lines(text);
    let mut found: Vec<Vec<u16>> = Vec::new();
    let mut r: usize = 0;
    while r < all.len()
        invariant
            r <= all.len(),
            views(all@) == lines(text@),
            found.len() == r,
            forall|j: int|
                0 <= j < r ==> all_numbers(#[trigger] words(lines(text@)[j])) && found[j]@
                    == numbers(words(lines(text@)[j])),
        decreases all.len() - r,
    {
        assert(views(all@)[r as int] == all[r as int]@);
        match parse_row(&all[r]) {
            Some(row) => {
                found.push(row);
            },
            None => {
                return None;
            },
        }
        r = r + 1;
    }
    assert(views(all@).len() == all.len());
    assert(row_views(found@) == Seq::new(
        lines(text@).len(),
        |j: int| numbers(words(lines(text@)[j])),
    ));
    Some(found)
}

} // verus!
