//! Text building blocks: decimal numerals, ASCII text and the string escapes.

use vstd::prelude::*;

verus! {

/// `String::push` appends the given character.
pub assume_specification[ std::string::String::push ](string: &mut std::string::String, character: char)
    ensures
        final(string)@ == old(string)@.push(character),
;

/// The character of a decimal digit.
pub open spec fn digit(value: nat) -> char {
    (48 + value) as char
}

/// The decimal numeral of a natural number, without leading zeros.
pub open spec fn decimal(value: nat) -> Seq<char>
    decreases value,
{
    if value < 10 {
        seq![digit(value)]
    } else {
        decimal(value / 10).push(digit(value % 10))
    }
}

/// The decimal numeral of an integer, with a leading `-` below zero.
pub open spec fn signed_decimal(value: int) -> Seq<char> {
    if value < 0 {
        seq!['-'] + decimal((-value) as nat)
    } else {
        decimal(value as nat)
    }
}

/// A byte string read as one character per byte.
pub open spec fn ascii_text(bytes: Seq<u8>) -> Seq<char> {
    Seq::new(bytes.len(), |i: int| bytes[i] as char)
}

/// `count` copies of `unit`, one after the other.
pub open spec fn repeated(unit: Seq<char>, count: nat) -> Seq<char>
    decreases count,
{
    if count == 0 {
        Seq::empty()
    } else {
        repeated(unit, (count - 1) as nat) + unit
    }
}

fn digit_char(value: u128) -> (character: char)
    requires
        value < 10,
    ensures
        character == digit(value as nat),
{
    (48u8 + value as u8) as char
}

/// Appends the decimal numeral of `value`.
pub fn push_decimal(out: &mut String, value: u128)
    ensures
        final(out)@ == old(out)@ + decimal(value as nat),
    decreases value,
{
    if value >= 10 {
        push_decimal(out, value / 10);
    }
    out.push(digit_char(value % 10));
    proof {
        assert(out@ =~= old(out)@ + decimal(value as nat));
    }
}

/// Appends the decimal numeral of `value`, with its sign.
pub fn push_signed_decimal(out: &mut String, value: i128)
    ensures
        final(out)@ == old(out)@ + signed_decimal(value as int),
{
    if value < 0 {
        out.push('-');
        let magnitude: u128 = (-(value + 1)) as u128 + 1;
        push_decimal(out, magnitude);
    } else {
        push_decimal(out, value as u128);
    }
    proof {
        assert(out@ =~= old(out)@ + signed_decimal(value as int));
    }
}

/// Appends `bytes`, one character per byte.
pub fn push_ascii(out: &mut String, bytes: &[u8])
    ensures
        final(out)@ == old(out)@ + ascii_text(bytes@),
{
    let mut index: usize = 0;
    while index < bytes.len()
        invariant
            index <= bytes.len(),
            out@ =~= old(out)@ + ascii_text(bytes@.take(index as int)),
        decreases bytes.len() - index,
    {
        out.push(bytes[index] as char);
        index += 1;
    }
    proof {
        assert(bytes@.take(bytes.len() as int) =~= bytes@);
    }
}

/// Whether `bytes` spells `word`.
pub fn spells(bytes: &[u8], word: &str) -> (result: bool)
    ensures
        result == (ascii_text(bytes@) == word@),
{
    let length = word.unicode_len();
    if length != bytes.len() {
        return false;
    }
    let mut index: usize = 0;
    while index < length
        invariant
            index <= length == bytes.len() == word@.len(),
            forall|i: int| 0 <= i < index ==> ascii_text(bytes@)[i] == word@[i],
        decreases length - index,
    {
        if word.get_char(index) != bytes[index] as char {
            proof {
                assert(ascii_text(bytes@)[index as int] != word@[index as int]);
            }
            return false;
        }
        index += 1;
    }
    proof {
        assert(ascii_text(bytes@) =~= word@);
    }
    true
}

/// Whether two texts are the same.
pub fn same_text(left: &String, right: &str) -> (result: bool)
    ensures
        result == (left@ == right@),
{
    let length = right.unicode_len();
    if left.as_str().unicode_len() != length {
        return false;
    }
    let mut index: usize = 0;
    while index < length
        invariant
            index <= length == left@.len() == right@.len(),
            forall|i: int| 0 <= i < index ==> left@[i] == right@[i],
        decreases length - index,
    {
        if left.as_str().get_char(index) != right.get_char(index) {
            return false;
        }
        index += 1;
    }
    proof {
        assert(left@ =~= right@);
    }
    true
}

/// The texts of a list of strings.
pub open spec fn texts(strings: Seq<String>) -> Seq<Seq<char>> {
    Seq::new(strings.len(), |i: int| strings[i]@)
}

/// Whether a text is among others.
pub fn is_among(strings: &Vec<String>, text: &str) -> (result: bool)
    ensures
        result == texts(strings@).contains(text@),
{
    let mut index: usize = 0;
    while index < strings.len()
        invariant
            index <= strings@.len(),
            forall|i: int| 0 <= i < index ==> texts(strings@)[i] != text@,
        decreases strings.len() - index,
    {
        if same_text(&strings[index], text) {
            assert(texts(strings@)[index as int] == text@);
            return true;
        }
        index += 1;
    }
    false
}

/// A string of a text.
pub fn owned(text: &str) -> (string: String)
    ensures
        string@ == text@,
{
    let mut string = String::new();
    string.append(text);
    proof {
        assert(string@ =~= text@);
    }
    string
}

/// Decimal numerals tell numbers apart.
pub proof fn lemma_decimal_injective(left: nat, right: nat)
    requires
        decimal(left) == decimal(right),
    ensures
        left == right,
    decreases left,
{
    lemma_decimal_length(left);
    lemma_decimal_length(right);
    if left < 10 && right < 10 {
        assert(decimal(left)[0] == digit(left));
        assert(decimal(right)[0] == digit(right));
    } else if left >= 10 && right >= 10 {
        assert(decimal(left).drop_last() =~= decimal(left / 10));
        assert(decimal(right).drop_last() =~= decimal(right / 10));
        assert(decimal(left).last() == digit(left % 10));
        assert(decimal(right).last() == digit(right % 10));
        lemma_decimal_injective(left / 10, right / 10);
    }
}

pub proof fn lemma_decimal_length(value: nat)
    ensures
        value < 10 ==> decimal(value).len() == 1,
        value >= 10 ==> decimal(value).len() >= 2,
        decimal(value).len() >= 1,
    decreases value,
{
    if value >= 10 {
        lemma_decimal_length(value / 10);
    }
}

/// Whether two byte strings are the same.
pub fn same_bytes(left: &[u8], right: &[u8]) -> (result: bool)
    ensures
        result == (left@ == right@),
{
    if left.len() != right.len() {
        return false;
    }
    let mut index: usize = 0;
    while index < left.len()
        invariant
            index <= left.len() == right.len(),
            forall|i: int| 0 <= i < index ==> left@[i] == right@[i],
        decreases left.len() - index,
    {
        if left[index] != right[index] {
            return false;
        }
        index += 1;
    }
    proof {
        assert(left@ =~= right@);
    }
    true
}

/// A copy of a byte string.
pub fn copy_bytes(bytes: &[u8]) -> (copy: Vec<u8>)
    ensures
        copy@ == bytes@,
{
    let mut copy: Vec<u8> = Vec::new();
    let mut index: usize = 0;
    while index < bytes.len()
        invariant
            index <= bytes.len(),
            copy@ =~= bytes@.take(index as int),
        decreases bytes.len() - index,
    {
        copy.push(bytes[index]);
        index += 1;
    }
    proof {
        assert(bytes@.take(bytes.len() as int) =~= bytes@);
    }
    copy
}

/// The bytes of a text.
pub fn text_bytes(text: &str) -> (bytes: Vec<u8>)
    ensures
        bytes@ == vstd::utf8::encode_utf8(text@),
{
    copy_bytes(text.as_bytes())
}

/// Whether a byte is printed as itself inside a double-quoted literal.
pub open spec fn prints_plainly(byte: u8) -> bool {
    32 <= byte <= 126 && byte != 92 && byte != 34
}

pub open spec fn is_digit_byte(byte: u8) -> bool {
    48 <= byte <= 57
}

/// How one byte is written inside a double-quoted literal. A numeric escape
/// is padded to three digits when a digit follows it, so that the digit is
/// not read as part of the escape.
pub open spec fn escaped_byte(byte: u8, next: Option<u8>) -> Seq<char> {
    if prints_plainly(byte) {
        seq![byte as char]
    } else if byte == 10 {
        seq!['\\', 'n']
    } else if byte == 13 {
        seq!['\\', 'r']
    } else if byte == 9 {
        seq!['\\', 't']
    } else if byte == 34 {
        seq!['\\', '"']
    } else if byte == 92 {
        seq!['\\', '\\']
    } else if byte == 12 {
        seq!['\\', 'f']
    } else {
        let numeral = decimal(byte as nat);
        let padding = if next is Some && is_digit_byte(next->0) && numeral.len() < 3 {
            repeated(seq!['0'], (3 - numeral.len()) as nat)
        } else {
            Seq::empty()
        };
        seq!['\\'] + padding + numeral
    }
}

/// The escapes of `bytes` from position `from` on.
pub open spec fn escaped_from(bytes: Seq<u8>, from: int) -> Seq<char>
    decreases bytes.len() - from,
{
    if 0 <= from < bytes.len() {
        let next = if from + 1 < bytes.len() { Some(bytes[from + 1]) } else { None };
        escaped_byte(bytes[from], next) + escaped_from(bytes, from + 1)
    } else {
        Seq::empty()
    }
}

/// A byte string as it is written between double quotes.
pub open spec fn escaped(bytes: Seq<u8>) -> Seq<char> {
    escaped_from(bytes, 0)
}

/// `itoa::Buffer::format` prints a byte as its decimal numeral.
#[verifier::external_body]
fn byte_numeral(byte: u8) -> (numeral: String)
    ensures
        numeral@ == decimal(byte as nat),
{
    itoa::Buffer::new().format(byte).to_string()
}

proof fn lemma_byte_numeral_length(byte: u8)
    ensures
        1 <= decimal(byte as nat).len() <= 3,
{
    reveal_with_fuel(decimal, 4);
}

proof fn lemma_zero_padding(count: nat)
    requires
        count < 3,
    ensures
        count == 0 ==> repeated(seq!['0'], count) =~= Seq::<char>::empty(),
        count == 1 ==> repeated(seq!['0'], count) =~= seq!['0'],
        count == 2 ==> repeated(seq!['0'], count) =~= seq!['0', '0'],
{
    reveal_with_fuel(repeated, 3);
}

fn push_escaped_byte(out: &mut String, byte: u8, next: Option<u8>)
    ensures
        final(out)@ == old(out)@ + escaped_byte(byte, next),
{
    if 32 <= byte && byte <= 126 && byte != 92 && byte != 34 {
        out.push(byte as char);
    } else {
        out.push('\\');
        if byte == 10 {
            out.push('n');
        } else if byte == 13 {
            out.push('r');
        } else if byte == 9 {
            out.push('t');
        } else if byte == 34 {
            out.push('"');
        } else if byte == 92 {
            out.push('\\');
        } else if byte == 12 {
            out.push('f');
        } else {
            let numeral = byte_numeral(byte);
            proof {
                lemma_byte_numeral_length(byte);
            }
            let length = numeral.as_str().unicode_len();
            let before_digit = match next {
                Some(following) => 48 <= following && following <= 57,
                None => false,
            };
            if before_digit && length < 3 {
                proof {
                    lemma_zero_padding((3 - length) as nat);
                }
                out.push('0');
                if length < 2 {
                    out.push('0');
                }
            }
            out.append(numeral.as_str());
        }
    }
    proof {
        assert(out@ =~= old(out)@ + escaped_byte(byte, next));
    }
}

/// Appends `bytes` as they are written between double quotes.
pub fn push_escaped(out: &mut String, bytes: &[u8])
    ensures
        final(out)@ == old(out)@ + escaped(bytes@),
{
    let mut index: usize = 0;
    while index < bytes.len()
        invariant
            index <= bytes.len(),
            out@ + escaped_from(bytes@, index as int) =~= old(out)@ + escaped(bytes@),
        decreases bytes.len() - index,
    {
        let next: Option<u8> = if index + 1 < bytes.len() { Some(bytes[index + 1]) } else { None };
        push_escaped_byte(out, bytes[index], next);
        index += 1;
    }
}

} // verus!
