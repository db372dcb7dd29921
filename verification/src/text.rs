//! Text at the edge of the game: numbers, squares and dimensions as the
//! player types them, and as the game shows them.

use crate::position::{poison, BoardSize, Position};
use vstd::string::{StrSliceExecFns, StringExecFns};
use vstd::prelude::*;

verus! {

/// Whether `c` is a decimal digit.
pub open spec fn is_digit(c: char) -> bool {
    '0' <= c <= '9'
}

/// The number that the decimal digits spell.
pub open spec fn digits_value(digits: Seq<char>) -> int
    decreases digits.len(),
{
    if digits.len() == 0 {
        0
    } else {
        digits_value(digits.drop_last()) * 10 + (digits.last() as int - 48)
    }
}

/// The digits of a number's text: the text without a leading `+`.
pub open spec fn digits_of(text: Seq<char>) -> Seq<char> {
    if text.len() > 0 && text[0] == '+' {
        text.subrange(1, text.len() as int)
    } else {
        text
    }
}

/// The number that `text` spells: decimal digits, at least one, after an
/// optional `+`, with a value of at most 255.
pub open spec fn number_of(text: Seq<char>) -> Option<u8> {
    let digits = digits_of(text);
    if digits.len() > 0 && (forall|i: int| 0 <= i < digits.len() ==> is_digit(#[trigger] digits[i]))
        && digits_value(digits) <= 255 {
        Some(digits_value(digits) as u8)
    } else {
        None
    }
}

/// The value of digits is no less than the value of the digits before the
/// last.
proof fn lemma_digits_value_grows(digits: Seq<char>, upto: int)
    requires
        0 <= upto <= digits.len(),
        forall|i: int| 0 <= i < digits.len() ==> is_digit(#[trigger] digits[i]),
    ensures
        0 <= digits_value(digits.subrange(0, upto)) <= digits_value(digits),
    decreases digits.len() - upto,
{
    if upto == digits.len() {
        assert(digits.subrange(0, upto) =~= digits);
        lemma_digits_value_nonnegative(digits);
    } else {
        lemma_digits_value_grows(digits, upto + 1);
        let longer = digits.subrange(0, upto + 1);
        assert(longer.drop_last() =~= digits.subrange(0, upto));
        assert(is_digit(digits[upto]));
        assert(longer.last() == digits[upto]);
        lemma_digits_value_nonnegative(digits.subrange(0, upto));
    }
}

/// The value of digits is not negative.
proof fn lemma_digits_value_nonnegative(digits: Seq<char>)
    requires
        forall|i: int| 0 <= i < digits.len() ==> is_digit(#[trigger] digits[i]),
    ensures
        0 <= digits_value(digits),
    decreases digits.len(),
{
    if digits.len() > 0 {
        lemma_digits_value_nonnegative(digits.drop_last());
        assert(is_digit(digits[digits.len() - 1]));
    }
}

/// Reads a number from 0 to 255 as decimal text.
pub fn parse_number(text: &str) -> (number: Option<u8>)
    ensures
        number == number_of(text@),
{
    let length = text.unicode_len();
    let start: usize = if length > 0 && text.get_char(0) == '+' {
        1
    } else {
        0
    };
    if start == length {
        return None;
    }
    let ghost digits = digits_of(text@);
    assert(digits =~= text@.subrange(start as int, length as int));
    let mut value: u16 = 0;
    let mut at: usize = start;
    while at < length
        invariant
            start <= at <= length,
            length == text@.len(),
            digits == text@.subrange(start as int, length as int),
            digits == digits_of(text@),
            forall|i: int| 0 <= i < at - start ==> is_digit(#[trigger] digits[i]),
            value == digits_value(digits.subrange(0, at - start)),
            value <= 255,
        decreases length - at,
    {
        let c = text.get_char(at);
        assert(digits[at - start] == c);
        if !('0' <= c && c <= '9') {
            assert(!is_digit(digits[at - start]));
            return None;
        }
        let ghost longer = digits.subrange(0, at - start + 1);
        assert(longer.drop_last() =~= digits.subrange(0, at - start));
        assert(longer.last() == c);
        let digit: u16 = c as u16 - 48;
        value = value * 10 + digit;
        if value > 255 {
            proof {
                if forall|i: int| 0 <= i < digits.len() ==> is_digit(#[trigger] digits[i]) {
                    lemma_digits_value_grows(digits, at - start + 1);
                }
            }
            return None;
        }
        at += 1;
    }
    assert(digits.subrange(0, at - start) =~= digits);
    Some(value as u8)
}

/// What `str::to_lowercase` makes of a text.
pub uninterp spec fn lowercase_of(text: Seq<char>) -> Seq<char>;

/// Calls `str::to_lowercase`, which gives the text in lower case.
#[verifier::external_body]
fn lowercase(text: &str) -> (lowered: String)
    ensures
        lowered@ == lowercase_of(text@),
{
    text.to_lowercase()
}

/// Calls `String::push`, which appends the character to the text.
#[verifier::external_body]
fn push_char(text: &mut String, c: char)
    ensures
        final(text)@ == old(text)@.push(c),
{
    text.push(c)
}

/// The dimensions that the two texts spell: the number of rows, then the
/// number of columns.
pub open spec fn board_size_of(rows: Seq<char>, columns: Seq<char>) -> Option<BoardSize> {
    if number_of(rows) is Some && number_of(columns) is Some {
        Some(BoardSize(number_of(rows)->0, number_of(columns)->0))
    } else {
        None
    }
}

/// The square that the two texts spell: the first character of `column`, and
/// the number of the row.
pub open spec fn position_of(column: Seq<char>, row: Seq<char>) -> Option<Position> {
    if column.len() > 0 && number_of(row) is Some {
        Some(Position(column[0], number_of(row)->0))
    } else {
        None
    }
}

impl BoardSize {
    /// Reads dimensions from the texts of two numbers: rows, then columns.
    pub fn parse(rows: &str, columns: &str) -> (size: Option<BoardSize>)
        ensures
            size == board_size_of(rows@, columns@),
    {
        match (parse_number(rows), parse_number(columns)) {
            (Some(rows), Some(columns)) => Some(BoardSize(rows, columns)),
            _ => None,
        }
    }
}

impl Position {
    /// Reads a square from the text of its column, taken as it stands, and
    /// the text of its row.
    pub fn from_text(column: &str, row: &str) -> (square: Option<Position>)
        ensures
            square == position_of(column@, row@),
    {
        if column.unicode_len() == 0 {
            return None;
        }
        match parse_number(row) {
            Some(row) => Some(Position(column.get_char(0), row)),
            None => None,
        }
    }

    /// Reads a square from the text of its column, in either case, and the
    /// text of its row.
    pub fn parse(column: &str, row: &str) -> (square: Option<Position>)
        ensures
            square == position_of(lowercase_of(column@), row@),
    {
        let lowered = lowercase(column);
        Position::from_text(lowered.as_str(), row)
    }
}

/// The bytes of a line that are not spaces, in their order.
pub open spec fn without_spaces(line: Seq<u8>) -> Seq<u8> {
    line.filter(|b: u8| b != 32)
}

/// Whether a character of UTF-8 text can begin at `at`, or the text ends
/// there.
pub open spec fn is_boundary(bytes: Seq<u8>, at: int) -> bool {
    at == bytes.len() || (0 <= at < bytes.len() && !(128 <= bytes[at] < 192))
}

/// The bytes of the word `chomp`.
pub open spec fn chomp_word() -> Seq<u8> {
    seq![99u8, 104u8, 111u8, 109u8, 112u8]
}

/// The lower-case form of an ASCII letter, and any other byte as it is.
pub open spec fn ascii_lowercase(b: u8) -> u8 {
    if 65 <= b <= 90 {
        (b + 32) as u8
    } else {
        b
    }
}

/// The square that a line of the player chooses.
///
/// Spaces do not count. The first five bytes are the command, the character
/// after them the column and the character after that the row: each of the
/// two must be a single byte, and what follows the row must begin a
/// character. After the command `chomp` the column is taken in lower case
/// and the row must be a digit. After any other command the line chooses the
/// poison square.
pub open spec fn turn_of(line: Seq<u8>) -> Option<Position> {
    let bytes = without_spaces(line);
    if bytes.len() >= 6 && is_boundary(bytes, 5) && is_boundary(bytes, 6) && (bytes.len() <= 7
        || is_boundary(bytes, 7)) {
        if bytes.subrange(0, 5) == chomp_word() {
            if bytes[5] < 128 && bytes.len() >= 7 && 48 <= bytes[6] <= 57 {
                Some(Position(ascii_lowercase(bytes[5]) as char, (bytes[6] - 48) as u8))
            } else {
                None
            }
        } else {
            Some(poison())
        }
    } else {
        None
    }
}

/// Whether a character can begin at `at`, or the bytes end there.
fn begins_character(bytes: &Vec<u8>, at: usize) -> (begins: bool)
    requires
        at <= bytes@.len(),
    ensures
        begins == is_boundary(bytes@, at as int),
{
    at == bytes.len() || !(128 <= bytes[at] && bytes[at] < 192)
}

/// Reads the square that the player chooses from a line of input.
pub fn parse_turn(line: &[u8]) -> (turn: Option<Position>)
    ensures
        turn == turn_of(line@),
{
    let mut bytes: Vec<u8> = Vec::new();
    let mut at: usize = 0;
    proof {
        reveal(Seq::filter);
    }
    while at < line.len()
        invariant
            at <= line@.len(),
            bytes@ == without_spaces(line@.subrange(0, at as int)),
        decreases line@.len() - at,
    {
        let b = line[at];
        if b != 32 {
            bytes.push(b);
        }
        at += 1;
        proof {
            reveal(Seq::filter);
            assert(line@.subrange(0, at as int).drop_last() =~= line@.subrange(0, at - 1));
        }
    }
    assert(line@.subrange(0, at as int) =~= line@);
    if bytes.len() < 6 || !begins_character(&bytes, 5) || !begins_character(&bytes, 6) || (
    bytes.len() > 7 && !begins_character(&bytes, 7)) {
        return None;
    }
    let is_chomp = bytes[0] == 99 && bytes[1] == 104 && bytes[2] == 111 && bytes[3] == 109
        && bytes[4] == 112;
    proof {
        let word = bytes@.subrange(0, 5);
        if is_chomp {
            assert(word =~= chomp_word());
        } else {
            assert(word[0] == bytes@[0] && word[1] == bytes@[1] && word[2] == bytes@[2] && word[3]
                == bytes@[3] && word[4] == bytes@[4]);
            assert(chomp_word()[0] == 99 && chomp_word()[1] == 104 && chomp_word()[2] == 111
                && chomp_word()[3] == 109 && chomp_word()[4] == 112);
        }
    }
    if !is_chomp {
        return Some(Position('a', 1));
    }
    if bytes[5] >= 128 || bytes.len() < 7 || bytes[6] < 48 || bytes[6] > 57 {
        return None;
    }
    let column = if 65 <= bytes[5] && bytes[5] <= 90 {
        bytes[5] + 32
    } else {
        bytes[5]
    };
    Some(Position(column as char, bytes[6] - 48))
}

/// The decimal digits of a number, without leading zeros.
pub open spec fn decimal(n: nat) -> Seq<char>
    decreases n,
{
    if n < 10 {
        seq![(48 + n) as char]
    } else {
        decimal(n / 10).push((48 + n % 10) as char)
    }
}

/// The text of a square: `(a, 1)` for the first row of the first column.
pub open spec fn position_text(square: Position) -> Seq<char> {
    seq!['(', square.0, ',', ' '] + decimal(square.1 as nat) + seq![')']
}

/// The text of dimensions: `Board Size: 4 x 5` for four rows and five columns.
pub open spec fn board_size_text(size: BoardSize) -> Seq<char> {
    "Board Size: "@ + decimal(size.0 as nat) + " x "@ + decimal(size.1 as nat)
}

/// Appends the decimal digits of `n` to the text.
fn push_decimal(text: &mut String, n: u8)
    ensures
        final(text)@ == old(text)@ + decimal(n as nat),
{
    proof {
        reveal_with_fuel(decimal, 3);
    }
    let ghost before = text@;
    if n >= 100 {
        push_char(text, (48 + n / 100) as char);
    }
    if n >= 10 {
        push_char(text, (48 + n / 10 % 10) as char);
    }
    push_char(text, (48 + n % 10) as char);
    assert(text@ =~= before + decimal(n as nat));
}

impl Position {
    /// The square as text, such as `(a, 1)`.
    pub fn to_text(&self) -> (text: String)
        ensures
            text@ == position_text(*self),
    {
        let mut text = String::new();
        push_char(&mut text, '(');
        push_char(&mut text, self.0);
        push_char(&mut text, ',');
        push_char(&mut text, ' ');
        push_decimal(&mut text, self.1);
        push_char(&mut text, ')');
        assert(text@ =~= position_text(*self));
        text
    }
}

impl BoardSize {
    /// The dimensions as text, such as `Board Size: 4 x 5`.
    pub fn to_text(&self) -> (text: String)
        ensures
            text@ == board_size_text(*self),
    {
        let mut text = String::from_str("Board Size: ");
        push_decimal(&mut text, self.0);
        text.append(" x ");
        push_decimal(&mut text, self.1);
        text
    }
}

/// The digits that spell a number spell no other: reading the text of a
/// number gives the number back.
pub proof fn lemma_decimal_reads_back(n: u8)
    ensures
        number_of(decimal(n as nat)) == Some(n),
{
    reveal_with_fuel(decimal, 3);
    reveal_with_fuel(digits_value, 4);
    let digits = decimal(n as nat);
    assert(digits_of(digits) =~= digits);
    if n >= 100 {
        assert(digits.drop_last().drop_last().drop_last() =~= Seq::<char>::empty());
    } else if n >= 10 {
        assert(digits.drop_last().drop_last() =~= Seq::<char>::empty());
    } else {
        assert(digits.drop_last() =~= Seq::<char>::empty());
    }
}

} // verus!
