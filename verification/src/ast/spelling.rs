//! How numbers are spelled.

use vstd::prelude::*;

use crate::text::push_decimal;

verus! {

/// The whole numbers that a double-precision number counts exactly.
pub const DOUBLE_EXACT: u128 = 0x20_0000_0000_0000;

/// The whole numbers that a single-precision number counts exactly.
pub const SINGLE_EXACT: u128 = 0x100_0000;

/// The whole numbers that are spelled without an exponent.
pub const LONGEST_PLAIN: u128 = 10_000_000_000_000_000;

/// The distance between the whole numbers around a value that a floating-point
/// number can hold: one as long as they are counted exactly, and twice as much
/// with every further binary digit.
pub open spec fn spacing(value: nat, exact: nat) -> nat
    decreases value,
{
    if exact == 0 || value < exact {
        1
    } else {
        2 * spacing(value / 2, exact)
    }
}

/// What a floating-point number holds for a whole number: the nearest that it
/// can hold, and halfway the one with an even count of distances.
pub open spec fn rounded(value: nat, exact: nat) -> nat {
    let distance = spacing(value, exact);
    let rest = value % distance;
    if 2 * rest < distance || 2 * rest == distance && (value / distance) % 2 == 0 {
        (value - rest) as nat
    } else {
        (value - rest + distance) as nat
    }
}

/// The nearest multiple of a step that is held as a value, if there is one.
pub open spec fn multiple_of(value: nat, step: nat, exact: nat) -> Option<nat> {
    let rest = value % step;
    let below = (value - rest) as nat;
    let above = below + step;
    if rounded(above, exact) == value && (2 * rest > step || rounded(below, exact) != value) {
        Some(above)
    } else if rounded(below, exact) == value {
        Some(below)
    } else {
        None
    }
}

/// The number with the most trailing zeros that is held as a value, from one
/// that has the zeros of a step.
pub open spec fn shortened(value: nat, found: nat, step: nat, exact: nat) -> nat
    decreases
            if step <= value {
                value - step + 1
            } else {
                0
            },
{
    if 0 < step <= value {
        match multiple_of(value, 10 * step, exact) {
            Some(next) => shortened(value, next, 10 * step, exact),
            None => found,
        }
    } else {
        found
    }
}

/// The whole number whose digits spell what a floating-point number holds for
/// a value: the shortest that reads back as the same.
pub open spec fn spelled(value: nat, exact: nat) -> nat {
    if value < exact {
        value
    } else {
        let held = rounded(value, exact);
        shortened(held, held, 1, exact)
    }
}

/// A number without its trailing zeros.
pub open spec fn significant(value: nat) -> nat
    decreases value,
{
    if value > 0 && value % 10 == 0 {
        significant(value / 10)
    } else {
        value
    }
}

/// A number by its significant digits, with a point behind the first, and the
/// count of digits behind that point.
pub open spec fn scientific(value: nat) -> Seq<char> {
    let digits = crate::text::decimal(significant(value));
    let exponent = crate::text::decimal((crate::text::decimal(value).len() - 1) as nat);
    if digits.len() == 1 {
        digits + seq!['e'] + exponent
    } else {
        digits.take(1) + seq!['.'] + digits.skip(1) + seq!['e'] + exponent
    }
}

/// Where a character first stands from a position on; the length where it does
/// not.
pub open spec fn place_from(text: Seq<char>, character: char, from: int) -> int
    decreases text.len() - from,
{
    if 0 <= from < text.len() && text[from] != character {
        place_from(text, character, from + 1)
    } else {
        from
    }
}

/// What a text of decimal digits counts.
pub open spec fn counted(text: Seq<char>) -> Option<nat>
    decreases text.len(),
{
    if text.len() == 0 {
        Some(0)
    } else {
        let last = text.last();
        match counted(text.drop_last()) {
            Some(value) => if '0' <= last && last <= '9' {
                Some((10 * value + (last as int - 48)) as nat)
            } else {
                None
            },
            None => None,
        }
    }
}

/// The exponent that a text spells: up to three digits, with a leading `-`
/// below zero.
pub open spec fn exponent_of(text: Seq<char>) -> Option<int> {
    let negative = text.len() > 0 && text[0] == '-';
    let digits = if negative {
        text.skip(1)
    } else {
        text
    };
    if 0 < digits.len() <= 3 {
        match counted(digits) {
            Some(value) => Some(
                if negative {
                    -(value as int)
                } else {
                    value as int
                },
            ),
            None => None,
        }
    } else {
        None
    }
}

/// Digits with a point behind the first `place` of them, filled up with zeros
/// where it stands outside them.
pub open spec fn placed(digits: Seq<char>, place: int) -> Seq<char> {
    if place <= 0 {
        seq!['0', '.'] + crate::text::repeated(seq!['0'], (-place) as nat) + digits
    } else if place < digits.len() {
        digits.take(place) + seq!['.'] + digits.skip(place)
    } else {
        digits + crate::text::repeated(seq!['0'], (place - digits.len()) as nat)
    }
}

/// Digits that a point may stand among, moved by an exponent.
pub open spec fn moved(mantissa: Seq<char>, exponent: int) -> Seq<char> {
    let point = place_from(mantissa, '.', 0);
    let digits = if point < mantissa.len() {
        mantissa.take(point) + mantissa.skip(point + 1)
    } else {
        mantissa
    };
    placed(digits, point + exponent)
}

/// The spelling of a number without an exponent.
pub open spec fn positional(text: Seq<char>) -> Seq<char> {
    let end = place_from(text, 'e', 0);
    if end < text.len() && exponent_of(text.skip(end + 1)) is Some {
        let exponent = exponent_of(text.skip(end + 1))->0;
        if text[0] == '-' {
            seq!['-'] + moved(text.subrange(1, end), exponent)
        } else {
            moved(text.take(end), exponent)
        }
    } else {
        text
    }
}

proof fn lemma_spacing(value: nat, exact: nat)
    requires
        exact >= 16,
    ensures
        spacing(value, exact) >= 1,
        value < exact ==> spacing(value, exact) == 1,
        value >= exact ==> spacing(value, exact) <= value / 8,
    decreases value,
{
    if value >= exact {
        lemma_spacing(value / 2, exact);
    }
}

/// What is held for a number falls short of it by an eighth at most.
pub proof fn lemma_rounded_near(value: nat, exact: nat)
    requires
        exact >= 16,
    ensures
        8 * rounded(value, exact) >= 7 * value,
        value < exact ==> rounded(value, exact) == value,
{
    lemma_spacing(value, exact);
    let distance = spacing(value, exact);
    assert(value % distance < distance);
}

fn find_spacing(value: u128, exact: u128) -> (distance: u128)
    requires
        exact >= 16,
    ensures
        distance == spacing(value as nat, exact as nat),
    decreases value,
{
    if value < exact {
        1
    } else {
        proof {
            lemma_spacing(value as nat / 2, exact as nat);
        }
        2 * find_spacing(value / 2, exact)
    }
}

/// The largest magnitude of a whole number that is spelled.
pub const LARGEST: u128 = 0x8000_0000_0000_0000_0000_0000_0000_0000;

/// More than what is held for any number that is spelled.
const LARGEST_HELD: u128 = 195_000_000_000_000_000_000_000_000_000_000_000_000;

/// A number that is held as more than any that is spelled.
const TOO_LARGE: u128 = 230_000_000_000_000_000_000_000_000_000_000_000_000;

fn find_rounded(value: u128, exact: u128) -> (held: u128)
    requires
        exact >= 16,
        value <= TOO_LARGE,
    ensures
        held == rounded(value as nat, exact as nat),
        held <= value + value / 8 + 1,
{
    let distance = find_spacing(value, exact);
    proof {
        lemma_spacing(value as nat, exact as nat);
    }
    let rest: u128 = value % distance;
    let other: u128 = distance - rest;
    if rest < other || rest == other && (value / distance) % 2 == 0 {
        value - rest
    } else {
        value - rest + distance
    }
}

fn find_multiple(value: u128, step: u128, exact: u128) -> (found: Option<u128>)
    requires
        exact >= 16,
        value <= LARGEST_HELD,
        0 < step,
    ensures
        match found {
            Some(found) => multiple_of(value as nat, step as nat, exact as nat) == Some(
                found as nat,
            ),
            None => multiple_of(value as nat, step as nat, exact as nat) is None,
        },
{
    let rest: u128 = value % step;
    proof {
        vstd::arithmetic::div_mod::lemma_mod_decreases(value as nat, step as nat);
    }
    let below: u128 = value - rest;
    let holds_below = find_rounded(below, exact) == value;
    if step <= TOO_LARGE - below {
        let above: u128 = below + step;
        if find_rounded(above, exact) == value && (rest > step - rest || !holds_below) {
            return Some(above);
        }
    } else {
        proof {
            lemma_rounded_near((below + step) as nat, exact as nat);
        }
    }
    if holds_below {
        Some(below)
    } else {
        None
    }
}

fn find_shortened(value: u128, exact: u128) -> (shortest: u128)
    requires
        exact >= 16,
        value <= LARGEST_HELD,
    ensures
        shortest == shortened(value as nat, value as nat, 1, exact as nat),
{
    let ghost whole = shortened(value as nat, value as nat, 1, exact as nat);
    let mut found: u128 = value;
    let mut step: u128 = 1;
    while step <= value / 8
        invariant
            exact >= 16,
            value <= LARGEST_HELD,
            0 < step,
            whole == shortened(value as nat, value as nat, 1, exact as nat),
            whole == shortened(value as nat, found as nat, step as nat, exact as nat),
        decreases
                if step <= value {
                    value - step + 1
                } else {
                    0
                },
    {
        match find_multiple(value, 10 * step, exact) {
            Some(next) => {
                found = next;
                step = 10 * step;
            },
            None => {
                return found;
            },
        }
    }
    proof {
        let next = (10 * step) as nat;
        if step <= value {
            assert(4 * next > 5 * value);
            vstd::arithmetic::div_mod::lemma_small_mod(value as nat, next);
            lemma_rounded_near(0, exact as nat);
            lemma_rounded_near(next, exact as nat);
            assert(multiple_of(value as nat, next, exact as nat) is None);
        }
    }
    found
}

/// The whole number whose digits spell what a floating-point number holds for
/// a value.
pub fn find_spelled(value: u128, exact: u128) -> (shortest: u128)
    requires
        exact >= 16,
        value <= LARGEST,
    ensures
        shortest == spelled(value as nat, exact as nat),
{
    if value < exact {
        value
    } else {
        let held = find_rounded(value, exact);
        find_shortened(held, exact)
    }
}

/// Appends the part of a text between two places.
fn push_part(out: &mut String, text: &str, from: usize, to: usize)
    requires
        from <= to <= text@.len(),
    ensures
        final(out)@ == old(out)@ + text@.subrange(from as int, to as int),
{
    let mut at: usize = from;
    while at < to
        invariant
            from <= at <= to <= text@.len(),
            out@ == old(out)@ + text@.subrange(from as int, at as int),
        decreases to - at,
    {
        out.push(text.get_char(at));
        at += 1;
        proof {
            assert(out@ =~= old(out)@ + text@.subrange(from as int, at as int));
        }
    }
}

/// Appends zeros.
fn push_zeros(out: &mut String, count: usize)
    ensures
        final(out)@ == old(out)@ + crate::text::repeated(seq!['0'], count as nat),
{
    let mut done: usize = 0;
    while done < count
        invariant
            done <= count,
            out@ == old(out)@ + crate::text::repeated(seq!['0'], done as nat),
        decreases count - done,
    {
        out.push('0');
        done += 1;
        proof {
            assert(out@ =~= old(out)@ + crate::text::repeated(seq!['0'], done as nat));
        }
    }
}

fn find_significant(value: u128) -> (result: u128)
    ensures
        result == significant(value as nat),
    decreases value,
{
    if value > 0 && value % 10 == 0 {
        find_significant(value / 10)
    } else {
        value
    }
}

/// Appends a number by its significant digits and an exponent.
pub fn push_scientific(out: &mut String, value: u128)
    ensures
        final(out)@ == old(out)@ + scientific(value as nat),
{
    let mut all = String::new();
    push_decimal(&mut all, value);
    let mut digits = String::new();
    push_decimal(&mut digits, find_significant(value));
    proof {
        assert(all@ =~= crate::text::decimal(value as nat));
        assert(digits@ =~= crate::text::decimal(significant(value as nat)));
        crate::text::lemma_decimal_length(value as nat);
        crate::text::lemma_decimal_length(significant(value as nat));
    }
    let count: usize = digits.as_str().unicode_len();
    push_part(out, digits.as_str(), 0, 1);
    if count > 1 {
        out.push('.');
        push_part(out, digits.as_str(), 1, count);
    }
    out.push('e');
    push_decimal(out, (all.as_str().unicode_len() - 1) as u128);
    proof {
        assert(digits@.subrange(0, 1) =~= digits@.take(1));
        assert(digits@.subrange(1, count as int) =~= digits@.skip(1));
        if count == 1 {
            assert(digits@.take(1) =~= digits@);
        }
        assert(out@ =~= old(out)@ + scientific(value as nat));
    }
}

proof fn lemma_place(text: Seq<char>, character: char, from: int)
    requires
        0 <= from <= text.len(),
    ensures
        from <= place_from(text, character, from) <= text.len(),
    decreases text.len() - from,
{
    if from < text.len() && text[from] != character {
        lemma_place(text, character, from + 1);
    }
}

fn find_place(text: &str, character: char) -> (place: usize)
    ensures
        place == place_from(text@, character, 0),
        place <= text@.len(),
{
    let length: usize = text.unicode_len();
    let mut at: usize = 0;
    while at < length && text.get_char(at) != character
        invariant
            at <= length == text@.len(),
            place_from(text@, character, 0) == place_from(text@, character, at as int),
        decreases length - at,
    {
        at += 1;
    }
    at
}

/// What a text of up to three decimal digits counts from a position on.
fn find_counted(text: &str, first: usize) -> (count: Option<i32>)
    requires
        first <= text@.len() <= first + 3,
    ensures
        match count {
            Some(value) => counted(text@.skip(first as int)) == Some(value as nat) && 0 <= value
                < 1000,
            None => counted(text@.skip(first as int)) is None,
        },
{
    let length: usize = text.unicode_len();
    let ghost digits = text@.skip(first as int);
    let mut value: i32 = 0;
    let mut at: usize = first;
    while at < length
        invariant
            first <= at <= length == text@.len(),
            length - first <= 3,
            digits == text@.skip(first as int),
            counted(digits.take(at - first)) == Some(value as nat),
            0 <= value,
            at - first == 0 ==> value == 0,
            at - first == 1 ==> value < 10,
            at - first == 2 ==> value < 100,
            at - first == 3 ==> value < 1000,
        decreases length - at,
    {
        let next = text.get_char(at);
        proof {
            let more = digits.take(at + 1 - first);
            assert(more.drop_last() =~= digits.take(at - first));
            assert(more.last() == next);
        }
        if !('0' <= next && next <= '9') {
            proof {
                lemma_not_counted(digits, at - first);
            }
            return None;
        }
        value = 10 * value + (next as i32 - 48);
        at += 1;
    }
    proof {
        assert(digits.take(length - first) =~= digits);
    }
    Some(value)
}

/// The exponent that a text spells from a position on.
fn find_exponent(text: &str, from: usize) -> (exponent: Option<i32>)
    requires
        from <= text@.len(),
    ensures
        match exponent {
            Some(value) => exponent_of(text@.skip(from as int)) == Some(value as int) && -1000
                < value < 1000,
            None => exponent_of(text@.skip(from as int)) is None,
        },
{
    let length: usize = text.unicode_len();
    let negative = from < length && text.get_char(from) == '-';
    let first: usize = if negative {
        from + 1
    } else {
        from
    };
    proof {
        assert(negative ==> text@.skip(from as int).skip(1) =~= text@.skip(first as int));
    }
    if first >= length || length - first > 3 {
        return None;
    }
    match find_counted(text, first) {
        Some(value) => if negative {
            Some(-value)
        } else {
            Some(value)
        },
        None => None,
    }
}

proof fn lemma_not_counted(digits: Seq<char>, at: int)
    requires
        0 <= at < digits.len(),
        !('0' <= digits[at] && digits[at] <= '9'),
    ensures
        counted(digits) is None,
    decreases digits.len(),
{
    if at + 1 < digits.len() {
        lemma_not_counted(digits.drop_last(), at);
    }
}

fn push_placed(out: &mut String, digits: &str, place: i128)
    requires
        -1000 < place < digits@.len() + 1000,
    ensures
        final(out)@ == old(out)@ + placed(digits@, place as int),
{
    let count: usize = digits.unicode_len();
    if place <= 0 {
        out.push('0');
        out.push('.');
        push_zeros(out, (-place) as usize);
        push_part(out, digits, 0, count);
    } else if place < count as i128 {
        push_part(out, digits, 0, place as usize);
        out.push('.');
        push_part(out, digits, place as usize, count);
    } else {
        push_part(out, digits, 0, count);
        push_zeros(out, (place - count as i128) as usize);
    }
    proof {
        assert(digits@.subrange(0, count as int) =~= digits@);
        if 0 < place < count {
            assert(digits@.subrange(0, place as int) =~= digits@.take(place as int));
            assert(digits@.subrange(place as int, count as int) =~= digits@.skip(place as int));
        }
        assert(out@ =~= old(out)@ + placed(digits@, place as int));
    }
}

fn push_moved(out: &mut String, mantissa: &str, exponent: i32)
    requires
        -1000 < exponent < 1000,
    ensures
        final(out)@ == old(out)@ + moved(mantissa@, exponent as int),
{
    let length: usize = mantissa.unicode_len();
    let point = find_place(mantissa, '.');
    let mut digits = String::new();
    push_part(&mut digits, mantissa, 0, point);
    if point < length {
        push_part(&mut digits, mantissa, point + 1, length);
    }
    proof {
        assert(mantissa@.subrange(0, point as int) =~= mantissa@.take(point as int));
        if point < length {
            assert(mantissa@.subrange(point + 1, length as int) =~= mantissa@.skip(point + 1));
            assert(digits@ =~= mantissa@.take(point as int) + mantissa@.skip(point + 1));
        } else {
            assert(digits@ =~= mantissa@);
        }
    }
    push_placed(out, digits.as_str(), point as i128 + exponent as i128);
}

/// Appends the spelling of a number without an exponent.
pub fn push_positional(out: &mut String, text: &str)
    ensures
        final(out)@ == old(out)@ + positional(text@),
{
    let length: usize = text.unicode_len();
    let end = find_place(text, 'e');
    if end < length {
        if let Some(exponent) = find_exponent(text, end + 1) {
            let negative = text.get_char(0) == '-';
            let first: usize = if negative {
                1
            } else {
                0
            };
            let mut mantissa = String::new();
            if negative {
                out.push('-');
            }
            proof {
                lemma_place(text@, 'e', 1);
            }
            push_part(&mut mantissa, text, first, end);
            proof {
                assert(mantissa@ =~= text@.subrange(first as int, end as int));
                assert(text@.subrange(0, end as int) =~= text@.take(end as int));
            }
            push_moved(out, mantissa.as_str(), exponent);
            proof {
                assert(out@ =~= old(out)@ + positional(text@));
            }
            return;
        }
    }
    out.append(text);
}

proof fn lemma_spacing_bounds(value: nat, exact: nat)
    requires
        exact >= 16,
        exact % 2 == 0,
        value >= exact,
    ensures
        (exact / 2) * spacing(value, exact) <= value < exact * spacing(value, exact),
    decreases value,
{
    let half = spacing(value / 2, exact);
    if value / 2 >= exact {
        lemma_spacing_bounds(value / 2, exact);
    } else {
        assert(half == 1);
    }
    assert((exact / 2) * (2 * half) == 2 * ((exact / 2) * half)) by (nonlinear_arith);
    assert(exact * (2 * half) == 2 * (exact * half)) by (nonlinear_arith);
}

/// A count of distances is itself a count of the distances around it.
proof fn lemma_counts_divide(value: nat, count: nat, exact: nat)
    requires
        exact >= 16,
        exact % 2 == 0,
        exact / 2 <= count <= exact,
    ensures
        (count * spacing(value, exact)) % spacing(count * spacing(value, exact), exact) == 0,
    decreases value,
{
    if value < exact {
        assert(count * 1 == count);
        if count == exact {
            assert(spacing(exact / 2, exact) == 1);
        }
    } else {
        let half = spacing(value / 2, exact);
        lemma_counts_divide(value / 2, count, exact);
        lemma_spacing(value / 2, exact);
        let base = count * half;
        assert(count * (2 * half) == 2 * base) by (nonlinear_arith)
            requires
                base == count * half,
        ;
        assert(base >= count) by (nonlinear_arith)
            requires
                base == count * half,
                half >= 1,
        ;
        assert((2 * base) / 2 == base);
        lemma_spacing(base, exact);
        vstd::arithmetic::div_mod::lemma_truncate_middle(base as int, 2, spacing(base, exact) as int);
    }
}

/// What is held for a number is held as itself.
proof fn lemma_rounded_twice(value: nat, exact: nat)
    requires
        exact >= 16,
        exact % 2 == 0,
    ensures
        rounded(rounded(value, exact), exact) == rounded(value, exact),
{
    lemma_rounded_near(value, exact);
    if value >= exact {
        let distance = spacing(value, exact);
        let rest = value % distance;
        let count = value / distance;
        lemma_spacing(value, exact);
        lemma_spacing_bounds(value, exact);
        vstd::arithmetic::div_mod::lemma_fundamental_div_mod(value as int, distance as int);
        assert(exact / 2 <= count < exact) by (nonlinear_arith)
            requires
                (exact / 2) * distance <= value < exact * distance,
                value == distance * count + rest,
                0 <= rest < distance,
        ;
        let taken = if rounded(value, exact) == value - rest {
            count
        } else {
            count + 1
        };
        assert(rounded(value, exact) == taken * distance) by (nonlinear_arith)
            requires
                value == distance * count + rest,
                taken == count && rounded(value, exact) == value - rest || taken == count + 1
                    && rounded(value, exact) == value - rest + distance,
        ;
        lemma_counts_divide(value, taken as nat, exact);
        lemma_spacing(rounded(value, exact), exact);
    }
}

proof fn lemma_shortened_held(value: nat, found: nat, step: nat, exact: nat)
    requires
        rounded(found, exact) == value,
    ensures
        rounded(shortened(value, found, step, exact), exact) == value,
    decreases
            if step <= value {
                value - step + 1
            } else {
                0
            },
{
    if 0 < step <= value {
        match multiple_of(value, 10 * step, exact) {
            Some(next) => lemma_shortened_held(value, next, 10 * step, exact),
            None => {},
        }
    }
}

/// A spelling reads back as the number that is held for the one that it spells.
pub proof fn spellings_read_back(value: nat, exact: nat)
    requires
        exact == DOUBLE_EXACT || exact == SINGLE_EXACT,
    ensures
        rounded(spelled(value, exact), exact) == rounded(value, exact),
{
    if value >= exact {
        lemma_rounded_twice(value, exact);
        let held = rounded(value, exact);
        lemma_shortened_held(held, held, 1, exact);
    }
}

/// Numbers that are held as the same are spelled alike.
pub proof fn spellings_agree(left: nat, right: nat, exact: nat)
    requires
        exact == DOUBLE_EXACT || exact == SINGLE_EXACT,
    ensures
        rounded(left, exact) == rounded(right, exact) <==> spelled(left, exact) == spelled(
            right,
            exact,
        ),
{
    spellings_read_back(left, exact);
    spellings_read_back(right, exact);
    lemma_rounded_near(left, exact);
    lemma_rounded_near(right, exact);
    lemma_rounded_kept(left, exact);
    lemma_rounded_kept(right, exact);
}

/// A number that is not counted exactly is held as such a one.
proof fn lemma_rounded_kept(value: nat, exact: nat)
    requires
        exact >= 16,
        exact % 2 == 0,
    ensures
        value >= exact ==> rounded(value, exact) >= exact,
{
    if value >= exact {
        let distance = spacing(value, exact);
        lemma_spacing(value, exact);
        lemma_spacing_bounds(value, exact);
        vstd::arithmetic::div_mod::lemma_fundamental_div_mod(value as int, distance as int);
        let count = value / distance;
        assert(distance >= 2) by {
            lemma_spacing(value / 2, exact);
        }
        assert(value - value % distance >= exact) by (nonlinear_arith)
            requires
                (exact / 2) * distance <= value,
                value == distance * count + value % distance,
                0 <= value % distance < distance,
                distance >= 2,
                exact % 2 == 0,
        ;
    }
}

spec fn tens(count: nat) -> nat
    decreases count,
{
    if count == 0 {
        1
    } else {
        10 * tens((count - 1) as nat)
    }
}

proof fn lemma_length_below(value: nat, count: nat)
    requires
        0 < count,
        value < tens(count),
    ensures
        crate::text::decimal(value).len() <= count,
    decreases count,
{
    if count == 1 {
        assert(tens(0) == 1);
    }
    if value >= 10 {
        lemma_length_below(value / 10, (count - 1) as nat);
    }
}

pub proof fn lemma_digits(value: nat)
    ensures
        forall|i: int|
            0 <= i < crate::text::decimal(value).len() ==> '0' <= (
            #[trigger] crate::text::decimal(value)[i]) && crate::text::decimal(value)[i] <= '9',
    decreases value,
{
    if value >= 10 {
        lemma_digits(value / 10);
        let less = crate::text::decimal(value / 10);
        assert forall|i: int| 0 <= i < crate::text::decimal(value).len() implies '0' <= (
        #[trigger] crate::text::decimal(value)[i]) && crate::text::decimal(value)[i] <= '9' by {
            if i < less.len() {
                assert(crate::text::decimal(value)[i] == less[i]);
            }
        }
    }
}

proof fn lemma_counted(value: nat)
    ensures
        counted(crate::text::decimal(value)) == Some(value),
    decreases value,
{
    let text = crate::text::decimal(value);
    if value >= 10 {
        lemma_counted(value / 10);
        assert(text.drop_last() =~= crate::text::decimal(value / 10));
    } else {
        assert(text.drop_last() =~= Seq::empty());
        assert(counted(text.drop_last()) == Some(0nat));
    }
}

proof fn lemma_place_at(text: Seq<char>, character: char, from: int, at: int)
    requires
        0 <= from <= at <= text.len(),
        forall|i: int| from <= i < at ==> text[i] != character,
        at == text.len() || text[at] == character,
    ensures
        place_from(text, character, from) == at,
    decreases at - from,
{
    if from < at {
        lemma_place_at(text, character, from + 1, at);
    }
}

/// A numeral is the one of its significant digits and zeros.
proof fn lemma_significant(value: nat)
    requires
        value > 0,
    ensures
        significant(value) > 0,
        crate::text::decimal(significant(value)).len() <= crate::text::decimal(value).len(),
        crate::text::decimal(value) == crate::text::decimal(significant(value))
            + crate::text::repeated(
            seq!['0'],
            (crate::text::decimal(value).len() - crate::text::decimal(
                significant(value),
            ).len()) as nat,
        ),
    decreases value,
{
    let whole = crate::text::decimal(value);
    let digits = crate::text::decimal(significant(value));
    if value % 10 == 0 {
        lemma_significant(value / 10);
        let count = (whole.len() - digits.len()) as nat;
        assert(crate::text::digit(0) == '0');
        assert(crate::text::repeated(seq!['0'], count) == crate::text::repeated(
            seq!['0'],
            (count - 1) as nat,
        ) + seq!['0']);
        assert(whole =~= digits + crate::text::repeated(seq!['0'], count));
    } else {
        assert(whole =~= digits + crate::text::repeated(seq!['0'], 0));
    }
}

/// The spelling with an exponent stands for the one without it.
pub proof fn exponents_move_the_point(value: nat)
    requires
        0 < value <= 2 * LARGEST,
    ensures
        positional(scientific(value)) == crate::text::decimal(value),
        positional(seq!['-'] + scientific(value)) == seq!['-'] + crate::text::decimal(value),
{
    let whole = crate::text::decimal(value);
    let digits = crate::text::decimal(significant(value));
    let count = (whole.len() - 1) as nat;
    let exponent = crate::text::decimal(count);
    lemma_significant(value);
    crate::text::lemma_decimal_length(value);
    crate::text::lemma_decimal_length(significant(value));
    crate::text::lemma_decimal_length(count);
    lemma_digits(significant(value));
    lemma_digits(count);
    lemma_counted(count);
    assert(tens(39) > 2 * LARGEST && tens(2) == 100) by {
        reveal_with_fuel(tens, 40);
    }
    lemma_length_below(value, 39);
    lemma_length_below(count, 2);
    let mantissa = if digits.len() == 1 {
        digits
    } else {
        digits.take(1) + seq!['.'] + digits.skip(1)
    };
    assert(forall|i: int| 0 <= i < mantissa.len() ==> mantissa[i] != 'e');
    let text = scientific(value);
    let end: int = mantissa.len() as int;
    assert(text =~= mantissa + seq!['e'] + exponent);
    lemma_place_at(text, 'e', 0, end);
    assert(text.skip(end + 1) =~= exponent);
    assert(text.take(end) =~= mantissa);
    assert(text[0] == digits[0]);
    let other = seq!['-'] + text;
    assert forall|i: int| 0 <= i < end + 1 implies other[i] != 'e' by {
        if i > 0 {
            assert(other[i] == mantissa[i - 1]);
        }
    }
    lemma_place_at(other, 'e', 0, end + 1);
    assert(other.skip(end + 2) =~= exponent);
    assert(other.subrange(1, end + 1) =~= mantissa);
    assert(exponent_of(exponent) == Some(count as int));
    assert(moved(mantissa, count as int) == whole) by {
        lemma_place_at(mantissa, '.', 0, 1);
        if digits.len() > 1 {
            assert(mantissa.take(1) + mantissa.skip(2) =~= digits);
        }
        assert(placed(digits, 1 + count as int) =~= whole);
    }
}

/// A spelling without an exponent stays.
pub proof fn numerals_stay(value: nat)
    ensures
        positional(crate::text::decimal(value)) == crate::text::decimal(value),
        positional(seq!['-'] + crate::text::decimal(value)) == seq!['-'] + crate::text::decimal(
            value,
        ),
{
    let digits = crate::text::decimal(value);
    let other = seq!['-'] + digits;
    lemma_digits(value);
    lemma_place_at(digits, 'e', 0, digits.len() as int);
    assert forall|i: int| 0 <= i < other.len() implies other[i] != 'e' by {
        if i > 0 {
            assert(other[i] == digits[i - 1]);
        }
    }
    lemma_place_at(other, 'e', 0, other.len() as int);
}

/// What is spelled is of the size of what it spells.
pub proof fn lemma_spelled_near(value: nat, exact: nat)
    requires
        exact == DOUBLE_EXACT || exact == SINGLE_EXACT,
    ensures
        spelled(value, exact) <= 2 * value,
        value > 0 ==> spelled(value, exact) > 0,
{
    let shortest = spelled(value, exact);
    spellings_read_back(value, exact);
    lemma_rounded_near(shortest, exact);
    lemma_rounded_near(value, exact);
    lemma_spacing(value, exact);
    assert(value % spacing(value, exact) < spacing(value, exact));
    lemma_rounded_near(0, exact);
}

} // verus!
