//! Which values of a column are there, as one bit for each.

use vstd::prelude::*;

use crate::types::views;
use crate::value::Value;
use crate::value::ValueView;

verus! {

/// One bit of a byte, counted from the lowest.
pub open spec fn bit(byte: u8, j: int) -> bool {
    if j == 0 {
        byte & 1 != 0
    } else if j == 1 {
        byte & 2 != 0
    } else if j == 2 {
        byte & 4 != 0
    } else if j == 3 {
        byte & 8 != 0
    } else if j == 4 {
        byte & 16 != 0
    } else if j == 5 {
        byte & 32 != 0
    } else if j == 6 {
        byte & 64 != 0
    } else {
        byte & 128 != 0
    }
}

fn bit_at(byte: u8, j: usize) -> (b: bool)
    requires
        j < 8,
    ensures
        b == bit(byte, j as int),
{
    if j == 0 {
        byte & 1 != 0
    } else if j == 1 {
        byte & 2 != 0
    } else if j == 2 {
        byte & 4 != 0
    } else if j == 3 {
        byte & 8 != 0
    } else if j == 4 {
        byte & 16 != 0
    } else if j == 5 {
        byte & 32 != 0
    } else if j == 6 {
        byte & 64 != 0
    } else {
        byte & 128 != 0
    }
}

/// A byte made of eight bits, the lowest first.
pub open spec fn packed(
    b0: bool,
    b1: bool,
    b2: bool,
    b3: bool,
    b4: bool,
    b5: bool,
    b6: bool,
    b7: bool,
) -> u8 {
    (if b0 { 1u8 } else { 0u8 }) | (if b1 { 2u8 } else { 0u8 }) | (if b2 { 4u8 } else { 0u8 }) | (
    if b3 { 8u8 } else { 0u8 }) | (if b4 { 16u8 } else { 0u8 }) | (if b5 { 32u8 } else { 0u8 }) | (
    if b6 { 64u8 } else { 0u8 }) | (if b7 { 128u8 } else { 0u8 })
}

proof fn lemma_packed(
    b0: bool,
    b1: bool,
    b2: bool,
    b3: bool,
    b4: bool,
    b5: bool,
    b6: bool,
    b7: bool,
)
    ensures
        bit(packed(b0, b1, b2, b3, b4, b5, b6, b7), 0) == b0,
        bit(packed(b0, b1, b2, b3, b4, b5, b6, b7), 1) == b1,
        bit(packed(b0, b1, b2, b3, b4, b5, b6, b7), 2) == b2,
        bit(packed(b0, b1, b2, b3, b4, b5, b6, b7), 3) == b3,
        bit(packed(b0, b1, b2, b3, b4, b5, b6, b7), 4) == b4,
        bit(packed(b0, b1, b2, b3, b4, b5, b6, b7), 5) == b5,
        bit(packed(b0, b1, b2, b3, b4, b5, b6, b7), 6) == b6,
        bit(packed(b0, b1, b2, b3, b4, b5, b6, b7), 7) == b7,
{
    let x0: u8 = if b0 { 1u8 } else { 0u8 };
    let x1: u8 = if b1 { 2u8 } else { 0u8 };
    let x2: u8 = if b2 { 4u8 } else { 0u8 };
    let x3: u8 = if b3 { 8u8 } else { 0u8 };
    let x4: u8 = if b4 { 16u8 } else { 0u8 };
    let x5: u8 = if b5 { 32u8 } else { 0u8 };
    let x6: u8 = if b6 { 64u8 } else { 0u8 };
    let x7: u8 = if b7 { 128u8 } else { 0u8 };
    let byte = x0 | x1 | x2 | x3 | x4 | x5 | x6 | x7;
    assert(byte == packed(b0, b1, b2, b3, b4, b5, b6, b7));
    assert((x0 | x1 | x2 | x3 | x4 | x5 | x6 | x7) & 1 == x0 && (x0 | x1 | x2 | x3 | x4 | x5 | x6
        | x7) & 2 == x1 && (x0 | x1 | x2 | x3 | x4 | x5 | x6 | x7) & 4 == x2 && (x0 | x1 | x2 | x3
        | x4 | x5 | x6 | x7) & 8 == x3 && (x0 | x1 | x2 | x3 | x4 | x5 | x6 | x7) & 16 == x4 && (x0
        | x1 | x2 | x3 | x4 | x5 | x6 | x7) & 32 == x5 && (x0 | x1 | x2 | x3 | x4 | x5 | x6 | x7)
        & 64 == x6 && (x0 | x1 | x2 | x3 | x4 | x5 | x6 | x7) & 128 == x7) by (bit_vector)
        requires
            x0 == 0 || x0 == 1,
            x1 == 0 || x1 == 2,
            x2 == 0 || x2 == 4,
            x3 == 0 || x3 == 8,
            x4 == 0 || x4 == 16,
            x5 == 0 || x5 == 32,
            x6 == 0 || x6 == 64,
            x7 == 0 || x7 == 128,
    ;
}

/// Whether there is a value at some place.
pub open spec fn present_at(values: Seq<ValueView>, i: int) -> bool {
    i < values.len() && !(values[i] is Null)
}

/// One byte of the mask of some values.
pub open spec fn mask_byte(values: Seq<ValueView>, k: int) -> u8 {
    packed(
        present_at(values, 8 * k),
        present_at(values, 8 * k + 1),
        present_at(values, 8 * k + 2),
        present_at(values, 8 * k + 3),
        present_at(values, 8 * k + 4),
        present_at(values, 8 * k + 5),
        present_at(values, 8 * k + 6),
        present_at(values, 8 * k + 7),
    )
}

/// How many bytes the mask of so many values takes: whole words of 64 bits.
pub open spec fn mask_length(count: nat) -> nat {
    8 * ((count + 63) / 64)
}

/// The mask of some values.
pub open spec fn mask_of(values: Seq<ValueView>) -> Seq<u8> {
    Seq::new(mask_length(values.len()), |k: int| mask_byte(values, k))
}

/// Whether a mask says that there is a value at some place.
pub open spec fn marked(mask: Seq<u8>, i: int) -> bool {
    bit(mask[i / 8], i % 8)
}

/// The mask of some values says of each whether it is there.
pub proof fn lemma_mask_of(values: Seq<ValueView>, i: int)
    requires
        0 <= i < values.len(),
    ensures
        i / 8 < mask_of(values).len(),
        marked(mask_of(values), i) == !(values[i] is Null),
        mask_of(values).len() * 8 >= values.len(),
{
    let k = i / 8;
    lemma_packed(
        present_at(values, 8 * k),
        present_at(values, 8 * k + 1),
        present_at(values, 8 * k + 2),
        present_at(values, 8 * k + 3),
        present_at(values, 8 * k + 4),
        present_at(values, 8 * k + 5),
        present_at(values, 8 * k + 6),
        present_at(values, 8 * k + 7),
    );
    assert(mask_of(values)[k] == mask_byte(values, k));
    assert(i == 8 * k + i % 8);
}

/// Whether some value is missing.
pub open spec fn any_null(values: Seq<ValueView>) -> bool {
    exists|i: int| 0 <= i < values.len() && (#[trigger] values[i]) is Null
}

fn is_null(v: &Value) -> (b: bool)
    ensures
        b == (v@ is Null),
{
    match v {
        Value::Null => true,
        _ => false,
    }
}

/// Whether some value is missing.
pub fn has_null(values: &Vec<&Value>) -> (b: bool)
    ensures
        b == any_null(views(values@)),
{
    let count: usize = values.len();
    for i in 0..count
        invariant
            count == values@.len(),
            forall|k: int| 0 <= k < i ==> !((#[trigger] views(values@)[k]) is Null),
    {
        if is_null(values[i]) {
            assert(views(values@)[i as int] is Null);
            return true;
        }
        assert(views(values@)[i as int] == values@[i as int]@);
    }
    false
}

fn present(values: &Vec<&Value>, i: usize) -> (b: bool)
    ensures
        b == present_at(views(values@), i as int),
{
    if i < values.len() {
        assert(views(values@)[i as int] == values@[i as int]@);
        !is_null(values[i])
    } else {
        false
    }
}

fn weight(b: bool, w: u8) -> (x: u8)
    ensures
        x == if b {
            w
        } else {
            0u8
        },
{
    if b {
        w
    } else {
        0
    }
}

/// The mask of some values.
pub fn validity_mask(values: &Vec<&Value>) -> (mask: Vec<u8>)
    ensures
        mask@ == mask_of(views(values@)),
{
    let whole: usize = values.len() / 64;
    let bytes: usize = if values.len() % 64 == 0 {
        8 * whole
    } else {
        8 * (whole + 1)
    };
    let mut mask: Vec<u8> = Vec::new();
    for k in 0..bytes
        invariant
            bytes == mask_length(values@.len()),
            mask@.len() == k,
            forall|j: int| 0 <= j < k ==> mask@[j] == mask_byte(views(values@), j),
    {
        mask.push(mask_byte_at(values, k));
    }
    assert(mask@ =~= mask_of(views(values@)));
    mask
}

fn mask_byte_at(values: &Vec<&Value>, k: usize) -> (byte: u8)
    ensures
        byte == mask_byte(views(values@), k as int),
{
    // Beyond this no index of a value can lie.
    if k > values.len() / 8 {
        proof {
            let v = views(values@);
            assert(mask_byte(v, k as int) == packed(
                false,
                false,
                false,
                false,
                false,
                false,
                false,
                false,
            ));
            assert(packed(false, false, false, false, false, false, false, false) == 0) by {
                assert(0u8 | 0u8 | 0u8 | 0u8 | 0u8 | 0u8 | 0u8 | 0u8 == 0u8) by (bit_vector);
            }
        }
        return 0;
    }
    let at: usize = 8 * k;
    let low: u8 = weight(present(values, at), 1) | nth(values, at, 1, 2) | nth(values, at, 2, 4)
        | nth(values, at, 3, 8);
    low | nth(values, at, 4, 16) | nth(values, at, 5, 32) | nth(values, at, 6, 64) | nth(
        values,
        at,
        7,
        128,
    )
}

fn nth(values: &Vec<&Value>, at: usize, j: usize, w: u8) -> (x: u8)
    requires
        at <= values@.len(),
        j < 8,
    ensures
        x == if present_at(views(values@), at + j) {
            w
        } else {
            0u8
        },
{
    if j < values.len() - at {
        weight(present(values, at + j), w)
    } else {
        0
    }
}

/// Whether a mask says that there is a value at some place.
pub(crate) fn is_marked(mask: &Vec<u8>, i: usize) -> (b: bool)
    requires
        i / 8 < mask@.len(),
    ensures
        b == marked(mask@, i as int),
{
    bit_at(mask[i / 8], i % 8)
}

/// Whether the bit of a byte with some weight is set.
pub open spec fn has_weight(byte: u8, weight: int) -> bool {
    byte as int / weight % 2 == 1
}

/// A mask has one bit for each place, eight to a byte, the lowest bit first.
pub proof fn law_mask_has_a_bit_for_each_place(mask: Seq<u8>, k: int)
    requires
        0 <= k < mask.len(),
    ensures
        marked(mask, 8 * k) == has_weight(mask[k], 1),
        marked(mask, 8 * k + 1) == has_weight(mask[k], 2),
        marked(mask, 8 * k + 2) == has_weight(mask[k], 4),
        marked(mask, 8 * k + 3) == has_weight(mask[k], 8),
        marked(mask, 8 * k + 4) == has_weight(mask[k], 16),
        marked(mask, 8 * k + 5) == has_weight(mask[k], 32),
        marked(mask, 8 * k + 6) == has_weight(mask[k], 64),
        marked(mask, 8 * k + 7) == has_weight(mask[k], 128),
{
    let b = mask[k];
    assert(((b & 1 != 0) == (b / 1 % 2 == 1)) && ((b & 2 != 0) == (b / 2 % 2 == 1)) && ((b & 4
        != 0) == (b / 4 % 2 == 1)) && ((b & 8 != 0) == (b / 8 % 2 == 1)) && ((b & 16 != 0) == (b
        / 16 % 2 == 1)) && ((b & 32 != 0) == (b / 32 % 2 == 1)) && ((b & 64 != 0) == (b / 64 % 2
        == 1)) && ((b & 128 != 0) == (b / 128 % 2 == 1))) by (bit_vector);
}

/// The mask of some values has a bit set for each that is there and for no other
/// place, and takes whole words of 64 bits.
pub proof fn law_mask_tells_what_is_there(values: Seq<ValueView>, i: int)
    requires
        0 <= i < values.len(),
    ensures
        marked(mask_of(values), i) <==> !(values[i] is Null),
        mask_of(values).len() % 8 == 0,
        values.len() <= 8 * mask_of(values).len() < values.len() + 64,
{
    lemma_mask_of(values, i);
}

} // verus!
