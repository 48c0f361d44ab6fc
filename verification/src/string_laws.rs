//! That strings read back from how they are written.

use vstd::prelude::*;

use crate::text;

verus! {

/// Whether a character is a decimal digit.
pub open spec fn is_digit(character: char) -> bool {
    '0' <= character && character <= '9'
}

/// How many digits stand at the front of a text, up to a limit.
pub open spec fn leading(written: Seq<char>, limit: nat) -> nat
    decreases limit,
{
    if limit > 0 && written.len() > 0 && is_digit(written[0]) {
        1 + leading(written.skip(1), (limit - 1) as nat)
    } else {
        0
    }
}

/// The number that up to three digits count.
pub open spec fn counted(written: Seq<char>, count: nat) -> int {
    if count == 1 {
        written[0] as int - 48
    } else if count == 2 {
        10 * (written[0] as int - 48) + (written[1] as int - 48)
    } else {
        100 * (written[0] as int - 48) + 10 * (written[1] as int - 48) + (written[2] as int - 48)
    }
}

/// The byte that an escape past its backslash stands for, and how many
/// characters it takes: a letter or a mark for some, for the others up to three
/// digits.
pub open spec fn escape(written: Seq<char>) -> Option<(int, nat)> {
    if written.len() == 0 {
        None
    } else if written[0] == 'n' {
        Some((10, 1))
    } else if written[0] == 'r' {
        Some((13, 1))
    } else if written[0] == 't' {
        Some((9, 1))
    } else if written[0] == 'f' {
        Some((12, 1))
    } else if written[0] == '"' {
        Some((34, 1))
    } else if written[0] == '\\' {
        Some((92, 1))
    } else if is_digit(written[0]) {
        let count = leading(written, 3);
        Some((counted(written, count), count))
    } else {
        None
    }
}

/// The bytes of a string up to its closing quote, and what follows.
pub open spec fn unescaped(written: Seq<char>) -> Option<(Seq<int>, Seq<char>)>
    decreases written.len(),
{
    if written.len() == 0 {
        None
    } else if written[0] == '"' {
        Some((Seq::empty(), written.skip(1)))
    } else {
        let (byte, count) = if written[0] == '\\' {
            match escape(written.skip(1)) {
                Some((byte, count)) => (byte, count + 1),
                None => (0int, 0nat),
            }
        } else {
            (written[0] as int, 1nat)
        };
        if 0 < count <= written.len() {
            match unescaped(written.skip(count as int)) {
                Some((bytes, rest)) => Some((seq![byte] + bytes, rest)),
                None => None,
            }
        } else {
            None
        }
    }
}

/// The numbers of bytes.
pub open spec fn numbers(bytes: Seq<u8>) -> Seq<int> {
    Seq::new(bytes.len(), |i: int| bytes[i] as int)
}

/// The digits of a byte.
proof fn lemma_numeral(byte: u8)
    ensures
        ({
            let numeral = text::decimal(byte as nat);
            &&& 1 <= numeral.len() <= 3
            &&& counted(numeral, numeral.len()) == byte
            &&& forall|i: int| 0 <= i < numeral.len() ==> is_digit(#[trigger] numeral[i])
        }),
{
    let value = byte as nat;
    let numeral = text::decimal(value);
    if value < 10 {
        assert(numeral =~= seq![text::digit(value)]);
    } else if value < 100 {
        assert(text::decimal(value / 10) =~= seq![text::digit(value / 10)]);
        assert(numeral =~= seq![text::digit(value / 10), text::digit(value % 10)]);
    } else {
        let tens = value / 10;
        assert(text::decimal(tens / 10) =~= seq![text::digit(tens / 10)]);
        assert(text::decimal(tens) =~= seq![text::digit(tens / 10), text::digit(tens % 10)]);
        assert(numeral =~= seq![
            text::digit(tens / 10),
            text::digit(tens % 10),
            text::digit(value % 10),
        ]);
    }
}

/// Digits, and something else behind them or three of them, are read to the
/// last.
proof fn lemma_leading(digits: Seq<char>, rest: Seq<char>, limit: nat)
    requires
        digits.len() <= limit,
        forall|i: int| 0 <= i < digits.len() ==> is_digit(#[trigger] digits[i]),
        digits.len() < limit ==> rest.len() == 0 || !is_digit(rest[0]),
    ensures
        leading(digits + rest, limit) == digits.len(),
    decreases digits.len(),
{
    let written = digits + rest;
    if digits.len() > 0 {
        assert(written[0] == digits[0]);
        assert(written.skip(1) =~= digits.skip(1) + rest);
        assert forall|i: int| 0 <= i < digits.skip(1).len() implies is_digit(
            #[trigger] digits.skip(1)[i],
        ) by {
            assert(is_digit(digits[i + 1]));
        }
        lemma_leading(digits.skip(1), rest, (limit - 1) as nat);
    } else {
        assert(written =~= rest);
    }
}

proof fn lemma_padding(count: nat)
    requires
        count <= 2,
    ensures
        text::repeated(seq!['0'], count).len() == count,
        forall|i: int|
            0 <= i < count ==> #[trigger] text::repeated(seq!['0'], count)[i] == '0',
    decreases count,
{
    if count > 0 {
        lemma_padding((count - 1) as nat);
    }
}

/// What one byte is written as is read as that byte, whatever the next is.
proof fn lemma_byte(byte: u8, next: Option<u8>, rest: Seq<char>)
    requires
        rest.len() > 0,
        match next {
            Some(next) => is_digit(rest[0]) ==> text::is_digit_byte(next),
            None => !is_digit(rest[0]),
        },
    ensures
        ({
            let written = text::escaped_byte(byte, next);
            &&& written.len() > 0
            &&& written[0] != '"'
            &&& if written[0] == '\\' {
                escape((written + rest).skip(1)) == Some((byte as int, (written.len() - 1) as nat))
            } else {
                written.len() == 1 && written[0] as int == byte
            }
        }),
{
    let written = text::escaped_byte(byte, next);
    let tail = (written + rest).skip(1);
    if text::prints_plainly(byte) {
        assert(written[0] as int == byte);
        assert(byte as char != '"' && byte as char != '\\');
    } else if byte == 10 || byte == 13 || byte == 9 || byte == 34 || byte == 92 || byte == 12 {
        assert(tail[0] == written[1]);
    } else {
        lemma_numeral(byte);
        let numeral = text::decimal(byte as nat);
        let padded = next is Some && text::is_digit_byte(next->0) && numeral.len() < 3;
        let padding = if padded {
            text::repeated(seq!['0'], (3 - numeral.len()) as nat)
        } else {
            Seq::empty()
        };
        if padded {
            lemma_padding((3 - numeral.len()) as nat);
        }
        let digits = padding + numeral;
        assert(written =~= seq!['\\'] + digits);
        assert(tail =~= digits + rest);
        assert forall|i: int| 0 <= i < digits.len() implies is_digit(#[trigger] digits[i]) by {
            if i < padding.len() {
                assert(digits[i] == padding[i]);
            } else {
                assert(digits[i] == numeral[i - padding.len()]);
            }
        }
        lemma_leading(digits, rest, 3);
        assert(tail[0] == digits[0]);
        lemma_counted(padding, numeral, tail, rest);
    }
}

proof fn lemma_counted(padding: Seq<char>, numeral: Seq<char>, tail: Seq<char>, rest: Seq<char>)
    requires
        tail == padding + numeral + rest,
        1 <= numeral.len(),
        padding.len() + numeral.len() <= 3,
        forall|i: int| 0 <= i < padding.len() ==> #[trigger] padding[i] == '0',
    ensures
        counted(tail, (padding.len() + numeral.len()) as nat) == counted(numeral, numeral.len()),
{
    let skip = padding.len() as int;
    assert forall|i: int| 0 <= i < padding.len() implies tail[i] == '0' by {
        assert(tail[i] == padding[i]);
    }
    assert forall|i: int| 0 <= i < numeral.len() implies tail[skip + i]
        == #[trigger] numeral[i] by {}
    if padding.len() > 0 {
        assert(tail[0] == '0');
    }
    if padding.len() > 1 {
        assert(tail[1] == '0');
    }
    assert(tail[skip + 0] == numeral[0]);
    if numeral.len() > 1 {
        assert(tail[skip + 1] == numeral[1]);
    }
    if numeral.len() > 2 {
        assert(tail[skip + 2] == numeral[2]);
    }
}

/// What is behind the first of some bytes starts with a digit only where the
/// next byte is one.
proof fn lemma_next(bytes: Seq<u8>, from: int, rest: Seq<char>)
    requires
        0 <= from <= bytes.len(),
    ensures
        ({
            let written = text::escaped_from(bytes, from) + (seq!['"'] + rest);
            &&& written.len() > 0
            &&& from < bytes.len() ==> (is_digit(written[0]) ==> text::is_digit_byte(bytes[from]))
            &&& from == bytes.len() ==> written[0] == '"'
        }),
{
    let written = text::escaped_from(bytes, from) + (seq!['"'] + rest);
    if from < bytes.len() {
        let next = if from + 1 < bytes.len() {
            Some(bytes[from + 1])
        } else {
            None
        };
        let first = text::escaped_byte(bytes[from], next);
        assert(first.len() > 0 && (first[0] == '\\' || first[0] == bytes[from] as char));
        assert(written[0] == first[0]);
        if text::prints_plainly(bytes[from]) {
            assert(written[0] as int == bytes[from]);
        }
    } else {
        assert(written =~= seq!['"'] + rest);
    }
}

proof fn lemma_unescaped(bytes: Seq<u8>, from: int, rest: Seq<char>)
    requires
        0 <= from <= bytes.len(),
    ensures
        unescaped(text::escaped_from(bytes, from) + (seq!['"'] + rest)) == Some(
            (numbers(bytes.skip(from)), rest),
        ),
    decreases bytes.len() - from,
{
    let ending = seq!['"'] + rest;
    let written = text::escaped_from(bytes, from) + ending;
    lemma_next(bytes, from, rest);
    if from < bytes.len() {
        let next = if from + 1 < bytes.len() {
            Some(bytes[from + 1])
        } else {
            None
        };
        let first = text::escaped_byte(bytes[from], next);
        let behind = text::escaped_from(bytes, from + 1) + ending;
        assert(written =~= first + behind);
        lemma_next(bytes, from + 1, rest);
        lemma_byte(bytes[from], next, behind);
        lemma_unescaped(bytes, from + 1, rest);
        assert(written.skip(first.len() as int) =~= behind);
        assert(written[0] == first[0]);
        assert(seq![bytes[from] as int] + numbers(bytes.skip(from + 1)) =~= numbers(
            bytes.skip(from),
        ));
    } else {
        assert(written.skip(1) =~= rest);
        assert(numbers(bytes.skip(from)) =~= Seq::<int>::empty());
    }
}

/// A string reads back as its bytes, up to the quote that closes it.
pub proof fn strings_read_back(bytes: Seq<u8>, rest: Seq<char>)
    ensures
        unescaped(text::escaped(bytes) + (seq!['"'] + rest)) == Some((numbers(bytes), rest)),
{
    lemma_unescaped(bytes, 0, rest);
    assert(bytes.skip(0) =~= bytes);
}

/// No two strings are written alike.
pub proof fn strings_are_told_apart(left: Seq<u8>, right: Seq<u8>)
    requires
        text::escaped(left) == text::escaped(right),
    ensures
        left == right,
{
    strings_read_back(left, Seq::empty());
    strings_read_back(right, Seq::empty());
    assert(numbers(left) == numbers(right));
    assert(left.len() == numbers(left).len() && right.len() == numbers(right).len());
    assert forall|i: int| 0 <= i < left.len() implies left[i] == right[i] by {
        assert(numbers(left)[i] == numbers(right)[i]);
    }
    assert(left =~= right);
}

} // verus!
