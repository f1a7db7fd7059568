//! What a plan computes, given what each gadget operation computes.
//!
//! Points are values of a type `P` and circuit-field elements values of a
//! type `F`; bits are booleans and bytes are `u8`. A well-formed plan writes
//! the next unused register of each kind, so its registers are sequences that
//! each operation extends.
use vstd::prelude::*;

use crate::plan::{HashPart, Instr};

verus! {

/// What the gadget operations compute.
#[verifier::reject_recursive_types(P)]
#[verifier::reject_recursive_types(F)]
pub struct Semantics<P, F> {
    /// The generator of the prime-order subgroup.
    pub generator: P,
    /// Point addition.
    pub add: spec_fn(P, P) -> P,
    /// Point subtraction.
    pub sub: spec_fn(P, P) -> P,
    /// Point negation.
    pub neg: spec_fn(P) -> P,
    /// Multiplication of a point by an integer scalar.
    pub mul: spec_fn(P, int) -> P,
    /// The bits of a field element, most significant first, without the
    /// given number of leading bits.
    pub field_bits: spec_fn(F, nat) -> Seq<bool>,
    /// The bits of a byte, least significant first.
    pub byte_bits: spec_fn(u8) -> Seq<bool>,
    /// The coordinates of a point as field elements.
    pub coords: spec_fn(P) -> Seq<F>,
    /// The hash of a sequence of field elements.
    pub hash: spec_fn(Seq<F>) -> F,
}

/// The registers of a running plan, and whether every equality it enforced
/// holds.
pub struct Regs<P, F> {
    pub points: Seq<P>,
    pub fields: Seq<F>,
    pub bits: Seq<bool>,
    pub bytes: Seq<u8>,
    pub coords: Seq<Seq<F>>,
    pub holds: bool,
}

/// The integer that `bits` denote, least significant first.
pub open spec fn le_value(bits: Seq<bool>) -> int
    decreases bits.len(),
{
    if bits.len() == 0 {
        0
    } else {
        (if bits[0] {
            1int
        } else {
            0int
        }) + 2 * le_value(bits.skip(1))
    }
}

/// The integer that `bits` denote, most significant first.
pub open spec fn be_value(bits: Seq<bool>) -> int {
    le_value(bits.reverse())
}

/// The integer that `bytes` denote, least significant first.
pub open spec fn le_bytes_value(bytes: Seq<u8>) -> int
    decreases bytes.len(),
{
    if bytes.len() == 0 {
        0
    } else {
        bytes[0] as int + 256 * le_bytes_value(bytes.skip(1))
    }
}

/// The bit registers `regs`, read in order.
pub open spec fn read_bits(bits: Seq<bool>, regs: Seq<usize>) -> Seq<bool> {
    Seq::new(regs.len(), |k: int| bits[regs[k] as int])
}

/// The field elements that hash parts stand for, concatenated.
pub open spec fn gather<F>(fields: Seq<F>, coords: Seq<Seq<F>>, parts: Seq<HashPart>) -> Seq<F>
    decreases parts.len(),
{
    if parts.len() == 0 {
        Seq::empty()
    } else {
        gather(fields, coords, parts.drop_last()) + match parts.last() {
            HashPart::Field(i) => seq![fields[i as int]],
            HashPart::Coords(i) => coords[i as int],
        }
    }
}

/// The registers after `instr`.
pub open spec fn step<P, F>(sem: Semantics<P, F>, instr: Instr, st: Regs<P, F>) -> Regs<P, F> {
    match instr {
        Instr::FieldToBits { src, to_skip, .. } => Regs {
            bits: st.bits + (sem.field_bits)(st.fields[src as int], to_skip as nat),
            ..st
        },
        Instr::ByteToBitsLe { src, .. } => Regs {
            bits: st.bits + (sem.byte_bits)(st.bytes[src as int]),
            ..st
        },
        Instr::Generator { .. } => Regs { points: st.points.push(sem.generator), ..st },
        Instr::MulBits { base, result, bits, .. } => Regs {
            points: st.points.push(
                (sem.add)(
                    st.points[result as int],
                    (sem.mul)(st.points[base as int], le_value(read_bits(st.bits, bits@))),
                ),
            ),
            ..st
        },
        Instr::MulBitsPrecomputed { base, result, bits, .. } => Regs {
            points: st.points.push(
                (sem.add)(
                    st.points[result as int],
                    (sem.mul)(st.points[base as int], le_value(read_bits(st.bits, bits@))),
                ),
            ),
            ..st
        },
        Instr::Sub { lhs, rhs, .. } => Regs {
            points: st.points.push((sem.sub)(st.points[lhs as int], st.points[rhs as int])),
            ..st
        },
        Instr::Negate { src, .. } => Regs {
            points: st.points.push((sem.neg)(st.points[src as int])),
            ..st
        },
        Instr::ToCoords { src, .. } => Regs {
            coords: st.coords.push((sem.coords)(st.points[src as int])),
            ..st
        },
        Instr::FirstCoord { src, .. } => Regs {
            fields: st.fields.push(st.coords[src as int][0]),
            ..st
        },
        Instr::Hash { input, .. } => Regs {
            fields: st.fields.push((sem.hash)(gather(st.fields, st.coords, input@))),
            ..st
        },
        Instr::Verdict { lhs, rhs, .. } => Regs {
            bits: st.bits.push(st.fields[lhs as int] == st.fields[rhs as int]),
            ..st
        },
        Instr::EnforceEqual { lhs, rhs, .. } => Regs {
            holds: st.holds && st.fields[lhs as int] == st.fields[rhs as int],
            ..st
        },
    }
}

/// The registers after running `instrs` from `st`.
pub open spec fn run<P, F>(sem: Semantics<P, F>, instrs: Seq<Instr>, st: Regs<P, F>) -> Regs<P, F>
    decreases instrs.len(),
{
    if instrs.len() == 0 {
        st
    } else {
        step(sem, instrs.last(), run(sem, instrs.drop_last(), st))
    }
}

/// Running the first `k + 1` operations is running the first `k`, then
/// operation `k`.
pub proof fn lemma_run_prefix<P, F>(sem: Semantics<P, F>, instrs: Seq<Instr>, k: int, st: Regs<P, F>)
    requires
        0 <= k < instrs.len(),
    ensures
        run(sem, instrs.take(k + 1), st) == step(sem, instrs[k], run(sem, instrs.take(k), st)),
{
    assert(instrs.take(k + 1).drop_last() =~= instrs.take(k));
    assert(instrs.take(k + 1).last() == instrs[k]);
}

/// Concatenated hash parts stand for the concatenation of what each part
/// stands for.
pub proof fn lemma_gather_append<F>(fields: Seq<F>, coords: Seq<Seq<F>>, a: Seq<HashPart>, b: Seq<HashPart>)
    ensures
        gather(fields, coords, a + b) == gather(fields, coords, a) + gather(fields, coords, b),
    decreases b.len(),
{
    if b.len() == 0 {
        assert(a + b =~= a);
        assert(gather(fields, coords, a) + gather(fields, coords, b) =~= gather(fields, coords, a));
    } else {
        assert((a + b).drop_last() =~= a + b.drop_last());
        assert((a + b).last() == b.last());
        lemma_gather_append(fields, coords, a, b.drop_last());
        let tail = match b.last() {
            HashPart::Field(i) => seq![fields[i as int]],
            HashPart::Coords(i) => coords[i as int],
        };
        assert(gather(fields, coords, a) + gather(fields, coords, b.drop_last()) + tail
            =~= gather(fields, coords, a) + (gather(fields, coords, b.drop_last()) + tail));
    }
}

/// The integer that a concatenation of bit strings denotes, least significant
/// first: the first string, plus the second shifted past the first.
pub proof fn lemma_le_value_append(a: Seq<bool>, b: Seq<bool>)
    ensures
        le_value(a + b) == le_value(a) + vstd::arithmetic::power2::pow2(a.len()) * le_value(b),
    decreases a.len(),
{
    if a.len() == 0 {
        assert(a + b =~= b);
        vstd::arithmetic::power2::lemma2_to64();
    } else {
        assert((a + b).skip(1) =~= a.skip(1) + b);
        lemma_le_value_append(a.skip(1), b);
        vstd::arithmetic::power2::lemma_pow2_unfold(a.len());
        let p = vstd::arithmetic::power2::pow2((a.len() - 1) as nat);
        assert(vstd::arithmetic::power2::pow2(a.len()) == 2 * p);
        assert(2 * (le_value(a.skip(1)) + p * le_value(b)) == 2 * le_value(a.skip(1)) + (2 * p)
            * le_value(b)) by (nonlinear_arith);
    }
}

} // verus!
