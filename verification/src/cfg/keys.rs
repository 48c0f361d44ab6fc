//! Keys by which compound values are put in order.
//!
//! A key spells out the fields of a value one after the other. A text is
//! followed by a zero and its characters count from one, so that a text comes
//! before the longer ones that it begins.

use vstd::prelude::*;

verus! {

/// Whether a key comes before another: by the first number in which they
/// differ.
pub open spec fn precedes(left: Seq<u64>, right: Seq<u64>) -> bool
    decreases left.len(),
{
    if right.len() == 0 {
        false
    } else if left.len() == 0 {
        true
    } else {
        left[0] < right[0] || left[0] == right[0] && precedes(left.skip(1), right.skip(1))
    }
}

pub open spec fn bytes_key(bytes: Seq<u8>) -> Seq<u64> {
    Seq::new(bytes.len(), |i: int| (bytes[i] + 1) as u64).push(0)
}

pub open spec fn text_key(text: Seq<char>) -> Seq<u64> {
    Seq::new(text.len(), |i: int| (text[i] as u64 + 1) as u64).push(0)
}

/// The key of a number that may be missing: missing ones come first.
pub open spec fn number_key(number: Option<usize>) -> Seq<u64> {
    match number {
        Some(number) => seq![1, number as u64],
        None => seq![0],
    }
}

/// The key of a pair that may be missing.
pub open spec fn pair_key(pair: Option<(usize, usize)>) -> Seq<u64> {
    match pair {
        Some(pair) => seq![1, pair.0 as u64, pair.1 as u64],
        None => seq![0],
    }
}

/// No key comes before itself, and of two different ones just one comes before
/// the other.
pub proof fn keys_are_ordered(left: Seq<u64>, right: Seq<u64>)
    ensures
        left == right ==> !precedes(left, right),
        left != right ==> precedes(left, right) || precedes(right, left),
        !(precedes(left, right) && precedes(right, left)),
    decreases left.len(),
{
    if left.len() > 0 && right.len() > 0 {
        keys_are_ordered(left.skip(1), right.skip(1));
        if left[0] == right[0] && left.skip(1) == right.skip(1) {
            assert(left =~= seq![left[0]] + left.skip(1));
            assert(right =~= seq![right[0]] + right.skip(1));
        }
    } else if left.len() == 0 && right.len() == 0 {
        assert(left =~= right);
    }
}

/// What comes before a key comes before the ones after it.
pub proof fn order_is_transitive(a: Seq<u64>, b: Seq<u64>, c: Seq<u64>)
    requires
        precedes(a, b),
        precedes(b, c),
    ensures
        precedes(a, c),
    decreases a.len(),
{
    if a.len() > 0 && a[0] == b[0] && b[0] == c[0] {
        order_is_transitive(a.skip(1), b.skip(1), c.skip(1));
    }
}

pub(crate) proof fn lemma_bytes_parted(
    left: Seq<u8>,
    right: Seq<u8>,
    left_rest: Seq<u64>,
    right_rest: Seq<u64>,
)
    requires
        bytes_key(left) + left_rest == bytes_key(right) + right_rest,
    ensures
        left == right,
        left_rest == right_rest,
{
    let whole = bytes_key(left) + left_rest;
    let other = bytes_key(right) + right_rest;
    if left.len() < right.len() {
        assert(whole[left.len() as int] == 0);
        assert(other[left.len() as int] == right[left.len() as int] + 1);
    }
    if right.len() < left.len() {
        assert(other[right.len() as int] == 0);
        assert(whole[right.len() as int] == left[right.len() as int] + 1);
    }
    assert forall|i: int| 0 <= i < left.len() implies left[i] == right[i] by {
        assert(whole[i] == left[i] + 1 && other[i] == right[i] + 1);
    }
    assert(left =~= right);
    assert(left_rest =~= whole.skip(left.len() as int + 1));
    assert(right_rest =~= other.skip(left.len() as int + 1));
}

proof fn lemma_letter(left: char, right: char)
    ensures
        left as u64 + 1 <= 0x11_0000,
        left as u64 == right as u64 ==> left == right,
{
}

pub(crate) proof fn lemma_text_parted(
    left: Seq<char>,
    right: Seq<char>,
    left_rest: Seq<u64>,
    right_rest: Seq<u64>,
)
    requires
        text_key(left) + left_rest == text_key(right) + right_rest,
    ensures
        left == right,
        left_rest == right_rest,
{
    let whole = text_key(left) + left_rest;
    let other = text_key(right) + right_rest;
    if left.len() < right.len() {
        assert(whole[left.len() as int] == 0);
        lemma_letter(right[left.len() as int], right[left.len() as int]);
        assert(other[left.len() as int] == right[left.len() as int] as u64 + 1);
    }
    if right.len() < left.len() {
        assert(other[right.len() as int] == 0);
        lemma_letter(left[right.len() as int], left[right.len() as int]);
        assert(whole[right.len() as int] == left[right.len() as int] as u64 + 1);
    }
    assert forall|i: int| 0 <= i < left.len() implies left[i] == right[i] by {
        lemma_letter(left[i], right[i]);
        lemma_letter(right[i], left[i]);
        assert(whole[i] == left[i] as u64 + 1 && other[i] == right[i] as u64 + 1);
    }
    assert(left =~= right);
    assert(left_rest =~= whole.skip(left.len() as int + 1));
    assert(right_rest =~= other.skip(left.len() as int + 1));
}

pub(crate) proof fn lemma_number_parted(
    left: Option<usize>,
    right: Option<usize>,
    left_rest: Seq<u64>,
    right_rest: Seq<u64>,
)
    requires
        number_key(left) + left_rest == number_key(right) + right_rest,
    ensures
        left == right,
        left_rest == right_rest,
{
    let whole = number_key(left) + left_rest;
    let other = number_key(right) + right_rest;
    assert(whole[0] == number_key(left)[0] && other[0] == number_key(right)[0]);
    if left is Some {
        assert(whole[1] == left->0 as u64 && other[1] == right->0 as u64);
    }
    assert(left_rest =~= whole.skip(number_key(left).len() as int));
    assert(right_rest =~= other.skip(number_key(left).len() as int));
}

pub(crate) proof fn lemma_pair_parted(
    left: Option<(usize, usize)>,
    right: Option<(usize, usize)>,
    left_rest: Seq<u64>,
    right_rest: Seq<u64>,
)
    requires
        pair_key(left) + left_rest == pair_key(right) + right_rest,
    ensures
        left == right,
        left_rest == right_rest,
{
    let whole = pair_key(left) + left_rest;
    let other = pair_key(right) + right_rest;
    assert(whole[0] == pair_key(left)[0] && other[0] == pair_key(right)[0]);
    if left is Some {
        assert(whole[1] == (left->0).0 as u64 && other[1] == (right->0).0 as u64);
        assert(whole[2] == (left->0).1 as u64 && other[2] == (right->0).1 as u64);
    }
    assert(left_rest =~= whole.skip(pair_key(left).len() as int));
    assert(right_rest =~= other.skip(pair_key(left).len() as int));
}

/// Whether a key comes before another.
pub fn comes_before(left: &Vec<u64>, right: &Vec<u64>) -> (result: bool)
    ensures
        result == precedes(left@, right@),
{
    let mut index: usize = 0;
    proof {
        assert(left@.skip(0) =~= left@);
        assert(right@.skip(0) =~= right@);
    }
    while index < left.len() && index < right.len()
        invariant
            index <= left@.len(),
            index <= right@.len(),
            precedes(left@, right@) == precedes(
                left@.skip(index as int),
                right@.skip(index as int),
            ),
        decreases left.len() - index,
    {
        if left[index] != right[index] {
            return left[index] < right[index];
        }
        proof {
            assert(left@.skip(index as int).skip(1) =~= left@.skip(index + 1));
            assert(right@.skip(index as int).skip(1) =~= right@.skip(index + 1));
        }
        index += 1;
    }
    index < right.len()
}

pub(crate) fn push_bytes(key: &mut Vec<u64>, bytes: &Vec<u8>)
    ensures
        final(key)@ == old(key)@ + bytes_key(bytes@),
{
    let ghost whole = bytes_key(bytes@);
    let mut index: usize = 0;
    while index < bytes.len()
        invariant
            index <= bytes@.len(),
            whole == bytes_key(bytes@),
            key@ =~= old(key)@ + whole.take(index as int),
        decreases bytes.len() - index,
    {
        key.push(bytes[index] as u64 + 1);
        index += 1;
    }
    key.push(0);
    proof {
        assert(key@ =~= old(key)@ + whole);
    }
}

pub(crate) fn push_text(key: &mut Vec<u64>, text: &String)
    ensures
        final(key)@ == old(key)@ + text_key(text@),
{
    let ghost whole = text_key(text@);
    let length = text.as_str().unicode_len();
    let mut index: usize = 0;
    while index < length
        invariant
            index <= length == text@.len(),
            whole == text_key(text@),
            key@ =~= old(key)@ + whole.take(index as int),
        decreases length - index,
    {
        let letter = text.as_str().get_char(index);
        key.push(letter as u64 + 1);
        index += 1;
    }
    key.push(0);
    proof {
        assert(key@ =~= old(key)@ + whole);
    }
}

pub(crate) fn push_number(key: &mut Vec<u64>, number: Option<usize>)
    ensures
        final(key)@ == old(key)@ + number_key(number),
{
    match number {
        Some(number) => {
            key.push(1);
            key.push(number as u64);
        },
        None => {
            key.push(0);
        },
    }
    proof {
        assert(key@ =~= old(key)@ + number_key(number));
    }
}

pub(crate) fn push_pair(key: &mut Vec<u64>, pair: Option<(usize, usize)>)
    ensures
        final(key)@ == old(key)@ + pair_key(pair),
{
    match pair {
        Some((left, right)) => {
            key.push(1);
            key.push(left as u64);
            key.push(right as u64);
        },
        None => {
            key.push(0);
        },
    }
    proof {
        assert(key@ =~= old(key)@ + pair_key(pair));
    }
}

/// Whether keys stand in ascending order, none twice.
pub open spec fn is_ascending(keys: Seq<Seq<u64>>) -> bool {
    forall|i: int, j: int|
        #![trigger keys[i], keys[j]]
        0 <= i < j < keys.len() ==> precedes(keys[i], keys[j])
}

/// A key put where those before it come first and those after it come later
/// leaves the keys in order.
pub(crate) proof fn lemma_put(keys: Seq<Seq<u64>>, place: int, key: Seq<u64>)
    requires
        is_ascending(keys),
        0 <= place <= keys.len(),
        place > 0 ==> precedes(keys[place - 1], key),
        place < keys.len() ==> precedes(key, keys[place]),
    ensures
        is_ascending(keys.insert(place, key)),
{
    let whole = keys.insert(place, key);
    assert forall|i: int, j: int|
        #![trigger whole[i], whole[j]]
        0 <= i < j < whole.len() implies precedes(whole[i], whole[j]) by {
        if i < place && j == place {
            if i < place - 1 {
                order_is_transitive(keys[i], keys[place - 1], key);
            }
        } else if i == place && j > place {
            if j > place + 1 {
                order_is_transitive(key, keys[place], keys[j - 1]);
            }
        } else if i > place {
            assert(whole[i] == keys[i - 1] && whole[j] == keys[j - 1]);
        } else if j > place {
            assert(whole[i] == keys[i] && whole[j] == keys[j - 1]);
        } else {
            assert(whole[i] == keys[i] && whole[j] == keys[j]);
        }
    }
}

} // verus!
