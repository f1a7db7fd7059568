//! How many leading bits of a field element must be dropped before it can be
//! used as an element (or scalar) of another field.
use vstd::prelude::*;

verus! {

/// The number of leading bits to skip in an element of a field with
/// `from` modulus bits so that what remains is a value below the modulus of a
/// field with `to` modulus bits: `from - to + 1` when `from > to`, `1` when they
/// are equal, and `0` when `from < to`.
pub open spec fn truncation_size(from: int, to: int) -> int {
    if from > to {
        from - to + 1
    } else if from == to {
        1
    } else {
        0
    }
}

/// Returns `truncation_size(modulus_from, modulus_to)`.
pub fn compute_truncation_size(modulus_from: i32, modulus_to: i32) -> (skip: usize)
    requires
        i32::MIN <= modulus_from - modulus_to < i32::MAX,
    ensures
        skip == truncation_size(modulus_from as int, modulus_to as int),
{
    let moduli_diff: i32 = modulus_from - modulus_to;
    if moduli_diff > 0 {
        (moduli_diff + 1) as usize
    } else if moduli_diff == 0 {
        1
    } else {
        0
    }
}

/// Leading bits dropped from the signature component `e`, an element of the
/// circuit field (`field_bits` modulus bits), before it multiplies the public
/// key as a scalar of the group's scalar field (`scalar_bits` modulus bits).
pub open spec fn e_skip(field_bits: int, scalar_bits: int) -> int {
    truncation_size(field_bits, scalar_bits)
}

/// Leading bits of the circuit-field representation of `s` that stand above
/// the scalar field's modulus width: `field_bits - scalar_bits` when positive.
pub open spec fn s_skip_init(field_bits: int, scalar_bits: int) -> int {
    if field_bits - scalar_bits > 0 {
        field_bits - scalar_bits
    } else {
        0
    }
}

/// Leading bits dropped from the signature component `s` before it multiplies
/// the generator: the normalizing skip plus the truncation from the scalar
/// width to the circuit-field width.
pub open spec fn s_skip(field_bits: int, scalar_bits: int) -> int {
    s_skip_init(field_bits, scalar_bits) + truncation_size(scalar_bits, field_bits)
}

/// The widths of the two fields as the gadget reads them (`as i32`), with the
/// differences that the truncation computes representable.
pub open spec fn widths_ok(field_bits: int, scalar_bits: int) -> bool {
    &&& 0 <= field_bits <= i32::MAX
    &&& 0 <= scalar_bits <= i32::MAX
    &&& field_bits - scalar_bits < i32::MAX
    &&& scalar_bits - field_bits < i32::MAX
}

/// Bits to skip when serializing `e`: `compute_truncation_size(field_bits, scalar_bits)`.
pub fn e_bits_to_skip(field_bits: usize, scalar_bits: usize) -> (skip: usize)
    requires
        widths_ok(field_bits as int, scalar_bits as int),
    ensures
        skip == e_skip(field_bits as int, scalar_bits as int),
{
    compute_truncation_size(field_bits as i32, scalar_bits as i32)
}

/// Bits to skip when serializing `s`: returns the normalizing part
/// `max(field_bits - scalar_bits, 0)` and the total skip.
pub fn s_bits_to_skip(field_bits: usize, scalar_bits: usize) -> (skips: (usize, usize))
    requires
        widths_ok(field_bits as int, scalar_bits as int),
    ensures
        skips.0 == s_skip_init(field_bits as int, scalar_bits as int),
        skips.1 == s_skip(field_bits as int, scalar_bits as int),
{
    let moduli_diff: i32 = field_bits as i32 - scalar_bits as i32;
    let to_skip_init: usize = if moduli_diff > 0 {
        moduli_diff as usize
    } else {
        0
    };
    let to_skip: usize = to_skip_init + compute_truncation_size(scalar_bits as i32, field_bits as i32);
    (to_skip_init, to_skip)
}

/// What is left of an element of a `from`-bit field after the truncation has
/// dropped its leading bits is exactly `min(from, to - 1)` bits wide: always
/// strictly narrower than the `to`-bit modulus, so it reads as a value below
/// that modulus; and nothing more is dropped than needed for that.
pub proof fn lemma_truncation_keeps_min(from: int, to: int)
    ensures
        from - truncation_size(from, to) == if from <= to - 1 { from } else { to - 1 },
        from - truncation_size(from, to) < to,
        0 <= truncation_size(from, to),
{
}

/// The bits of `e` that reach the scalar multiplication number
/// `min(field_bits, scalar_bits - 1)`.
pub proof fn lemma_e_bits_fit_scalar(field_bits: int, scalar_bits: int)
    ensures
        field_bits - e_skip(field_bits, scalar_bits) == if field_bits <= scalar_bits - 1 {
            field_bits
        } else {
            scalar_bits - 1
        },
{
    lemma_truncation_keeps_min(field_bits, scalar_bits);
}

/// When the circuit field is at least as wide as the scalar field, the bits of
/// `s` that reach the scalar multiplication number `min(scalar_bits, field_bits - 1)`,
/// and that count equals `scalar_bits + s_skip_init - s_skip`, the length the
/// gadget asserts; when the circuit field is narrower the two differ.
pub proof fn lemma_s_bits_len(field_bits: int, scalar_bits: int)
    ensures
        field_bits >= scalar_bits ==> field_bits - s_skip(field_bits, scalar_bits) == if scalar_bits
            <= field_bits - 1 {
            scalar_bits
        } else {
            field_bits - 1
        },
        (field_bits - s_skip(field_bits, scalar_bits) == scalar_bits + s_skip_init(
            field_bits,
            scalar_bits,
        ) - s_skip(field_bits, scalar_bits)) <==> field_bits >= scalar_bits,
{
}

} // verus!
