//! The Schnorr signature gadgets: their values, and the plans of the
//! operations they synthesize.
//!
//! Register conventions. A signature-check plan takes the public key in point
//! register 0, the signature's `e` and `s` in field registers 0 and 1, and the
//! message in field registers `2 ..= 1 + message_len`. A key-randomization plan
//! takes the generator in point register 0, the public key in point register 1
//! and the randomness in byte registers `0 .. randomness_len`.
use vstd::prelude::*;

use crate::plan::{
    hardcoded_before, precomputed_bases_hardcoded, fresh_run, part_ok, HashPart, Instr, Label, OnError, Output, Plan, PlanBuilder, RegisterCounts,
};
use crate::truncation::{e_bits_to_skip, e_skip, s_bits_to_skip, s_skip, widths_ok};

verus! {

/// Parameters of the Schnorr gadget: the group generator, as a gadget value.
#[derive(Clone, Debug)]
pub struct SchnorrSigGadgetParameters<GG> {
    pub generator: GG,
}

/// A Schnorr public key, as a gadget value.
#[derive(Clone, Debug, PartialEq, Eq)]
pub struct SchnorrSigGadgetPk<GG> {
    pub pub_key: GG,
}

/// Randomization of a Schnorr public key inside a circuit.
pub struct SchnorrRandomizePkGadget {}

/// A field-based Schnorr signature `(e, s)`, as gadget values.
#[derive(Clone, Debug, PartialEq, Eq)]
pub struct FieldBasedSchnorrSigGadget<FG> {
    pub e: FG,
    pub s: FG,
}

/// Verification of a field-based Schnorr signature inside a circuit.
pub struct FieldBasedSchnorrSigVerificationGadget {}

/// The error of an allocation whose value was not supplied.
#[derive(Clone, Copy, Debug, PartialEq, Eq, Structural)]
pub enum AllocError {
    AssignmentMissing,
}

/// `n` consecutive registers from `start`.
pub open spec fn reg_range(start: int, n: int) -> Seq<usize> {
    Seq::new(n as nat, |k: int| (start + k) as usize)
}

/// How many bits of `e` the signature check serializes.
pub open spec fn e_bit_count(field_bits: int, scalar_bits: int) -> int {
    field_bits - e_skip(field_bits, scalar_bits)
}

/// How many bits of `s` the signature check serializes.
pub open spec fn s_bit_count(field_bits: int, scalar_bits: int) -> int {
    field_bits - s_skip(field_bits, scalar_bits)
}

/// Widths the signature check accepts: readable as `i32`, and neither
/// serialization drops more bits than the circuit field has.
pub open spec fn check_widths_ok(field_bits: int, scalar_bits: int) -> bool {
    &&& widths_ok(field_bits, scalar_bits)
    &&& e_skip(field_bits, scalar_bits) <= field_bits
    &&& s_skip(field_bits, scalar_bits) <= field_bits
}

/// Whether the signature-check plans accept these widths.
pub fn widths_supported(field_bits: usize, scalar_bits: usize) -> (ok: bool)
    ensures
        ok == check_widths_ok(field_bits as int, scalar_bits as int),
{
    let max: usize = 0x7fff_ffff;
    if field_bits > max || scalar_bits > max {
        return false;
    }
    if field_bits >= max && scalar_bits == 0 || scalar_bits >= max && field_bits == 0 {
        return false;
    }
    let e_to_skip = e_bits_to_skip(field_bits, scalar_bits);
    let (_init, s_to_skip) = s_bits_to_skip(field_bits, scalar_bits);
    e_to_skip <= field_bits && s_to_skip <= field_bits
}

/// The input registers of a signature check over a message of `m` elements.
pub open spec fn signature_inputs(m: int) -> RegisterCounts {
    RegisterCounts { points: 1, fields: (2 + m) as usize, bits: 0, bytes: 0, coords: 0 }
}

/// The hash parts naming the message registers, in order.
pub open spec fn message_parts(m: int) -> Seq<HashPart> {
    Seq::new(m as nat, |k: int| HashPart::Field((2 + k) as usize))
}

/// `instrs` begins with the eleven operations of a signature check: serialize
/// `e`; hardcode the generator `g`; compute `g + pk·e`, subtract `g`, negate;
/// serialize `s`; add `s·g` with `g` precomputed, giving `R'`; take the first
/// coordinate of `R'`; take the coordinates of `pk`; and hash the message, that
/// coordinate and those of `pk`, in this order, giving `e'`.
pub open spec fn checks_signature(instrs: Seq<Instr>, field_bits: int, scalar_bits: int, m: int) -> bool {
    let ke = e_bit_count(field_bits, scalar_bits);
    let ks = s_bit_count(field_bits, scalar_bits);
    &&& instrs.len() >= 11
    &&& instrs[0] matches Instr::FieldToBits { label, src, to_skip, dst } && label == Label::EToBits
        && src == 0 && to_skip == e_skip(field_bits, scalar_bits) && dst@ == reg_range(0, ke)
    &&& instrs[1] == Instr::Generator { label: Label::HardcodeGenerator, dst: 1 }
    &&& instrs[2] matches Instr::MulBits { label, dst, base, result, bits } && label
        == Label::PkTimesEPlusG && dst == 2 && base == 0 && result == 1 && bits@ == reg_range(
        0,
        ke,
    ).reverse()
    &&& instrs[3] == Instr::Sub { label: Label::SubtractG, dst: 3, lhs: 2, rhs: 1 }
    &&& instrs[4] == Instr::Negate { label: Label::NegateEPk, dst: 4, src: 3 }
    &&& instrs[5] matches Instr::FieldToBits { label, src, to_skip, dst } && label == Label::SToBits
        && src == 1 && to_skip == s_skip(field_bits, scalar_bits) && dst@ == reg_range(ke, ks)
    &&& instrs[6] matches Instr::MulBitsPrecomputed { label, dst, base, result, bits } && label
        == Label::SGMinusEPk && dst == 5 && base == 1 && result == 4 && bits@ == reg_range(
        ke,
        ks,
    ).reverse()
    &&& instrs[7] == Instr::ToCoords { dst: 0, src: 5, on_error: OnError::Propagate }
    &&& instrs[8] == Instr::FirstCoord { dst: (2 + m) as usize, src: 0 }
    &&& instrs[9] == Instr::ToCoords { dst: 1, src: 0, on_error: OnError::Panic }
    &&& instrs[10] matches Instr::Hash { label, dst, input } && label == Label::CheckEPrime && dst
        == 3 + m && input@ == message_parts(m) + seq![
        HashPart::Field((2 + m) as usize),
        HashPart::Coords(1),
    ]
}

/// The registers in use after the signature check.
pub open spec fn signature_counts(field_bits: int, scalar_bits: int, m: int) -> RegisterCounts {
    RegisterCounts {
        points: 6,
        fields: (4 + m) as usize,
        bits: (e_bit_count(field_bits, scalar_bits) + s_bit_count(field_bits, scalar_bits)) as usize,
        bytes: 0,
        coords: 2,
    }
}

/// The input registers of a signature check over `message_len` elements.
fn signature_input_counts(message_len: usize) -> (c: RegisterCounts)
    requires
        message_len <= usize::MAX - 4,
    ensures
        c == signature_inputs(message_len as int),
{
    RegisterCounts { points: 1, fields: message_len + 2, bits: 0, bytes: 0, coords: 0 }
}

/// A copy of `v` in reverse order.
fn reversed(v: &Vec<usize>) -> (r: Vec<usize>)
    ensures
        r@ == v@.reverse(),
{
    let mut r: Vec<usize> = Vec::new();
    let mut k: usize = v.len();
    while k > 0
        invariant
            k <= v@.len(),
            r@.len() == v@.len() - k,
            forall|j: int| 0 <= j < r@.len() ==> #[trigger] r@[j] == v@[v@.len() - 1 - j],
        decreases k,
    {
        k = k - 1;
        r.push(v[k]);
    }
    assert(r@ =~= v@.reverse());
    r
}

/// Appends the operations of a signature check to an empty builder over the
/// signature-check inputs.
fn emit_signature_check(b: &mut PlanBuilder, field_bits: usize, scalar_bits: usize, message_len: usize)
    requires
        old(b).inv(),
        old(b).instrs@.len() == 0,
        old(b).inputs == signature_inputs(message_len as int),
        old(b).counts == signature_inputs(message_len as int),
        check_widths_ok(field_bits as int, scalar_bits as int),
        message_len <= usize::MAX - 4,
    ensures
        final(b).inv(),
        final(b).inputs == old(b).inputs,
        final(b).instrs@.len() == 11,
        checks_signature(final(b).instrs@, field_bits as int, scalar_bits as int, message_len as int),
        final(b).counts == signature_counts(field_bits as int, scalar_bits as int, message_len as int),
{
    let ghost m = message_len as int;
    // Serialize e, keeping the bits that fit the scalar field.
    let e_to_skip = e_bits_to_skip(field_bits, scalar_bits);
    let e_bits = b.next_bits(field_bits - e_to_skip);
    assert(e_bits@ =~= reg_range(0, e_bit_count(field_bits as int, scalar_bits as int)));
    let e_bits_le = reversed(&e_bits);
    b.emit(Instr::FieldToBits { label: Label::EToBits, src: 0, to_skip: e_to_skip, dst: e_bits });
    // -(e * pk), computed as (pk * e + g) - g to avoid the edge cases of addition.
    b.emit(Instr::Generator { label: Label::HardcodeGenerator, dst: 1 });
    b.emit(Instr::MulBits { label: Label::PkTimesEPlusG, dst: 2, base: 0, result: 1, bits: e_bits_le });
    b.emit(Instr::Sub { label: Label::SubtractG, dst: 3, lhs: 2, rhs: 1 });
    b.emit(Instr::Negate { label: Label::NegateEPk, dst: 4, src: 3 });
    // Serialize s, normalized to the scalar field's width, then R' = s * g - e * pk.
    let (_s_to_skip_init, s_to_skip) = s_bits_to_skip(field_bits, scalar_bits);
    let s_bits = b.next_bits(field_bits - s_to_skip);
    assert(s_bits@ =~= reg_range(
        e_bit_count(field_bits as int, scalar_bits as int),
        s_bit_count(field_bits as int, scalar_bits as int),
    ));
    let s_bits_le = reversed(&s_bits);
    b.emit(Instr::FieldToBits { label: Label::SToBits, src: 1, to_skip: s_to_skip, dst: s_bits });
    b.emit(
        Instr::MulBitsPrecomputed {
            label: Label::SGMinusEPk,
            dst: 5,
            base: 1,
            result: 4,
            bits: s_bits_le,
        },
    );
    // e' = H(m || R'.x || pk)
    b.emit(Instr::ToCoords { dst: 0, src: 5, on_error: OnError::Propagate });
    b.emit(Instr::FirstCoord { dst: message_len + 2, src: 0 });
    b.emit(Instr::ToCoords { dst: 1, src: 0, on_error: OnError::Panic });
    let mut input: Vec<HashPart> = Vec::new();
    let mut k: usize = 0;
    while k < message_len
        invariant
            k <= message_len,
            message_len <= usize::MAX - 4,
            input@ == message_parts(k as int),
        decreases message_len - k,
    {
        input.push(HashPart::Field(k + 2));
        k = k + 1;
        assert(input@ =~= message_parts(k as int));
    }
    input.push(HashPart::Field(message_len + 2));
    input.push(HashPart::Coords(1));
    assert(input@ =~= message_parts(m) + seq![
        HashPart::Field((2 + m) as usize),
        HashPart::Coords(1),
    ]);
    assert forall|j: int| 0 <= j < input@.len() implies part_ok(
        #[trigger] input@[j],
        b.counts,
    ) by {}
    b.emit(Instr::Hash { label: Label::CheckEPrime, dst: message_len + 3, input });
    assert(b.counts =~= signature_counts(field_bits as int, scalar_bits as int, m));
}

/// In a signature check the only multiplication with a constant base
/// multiplies the hardcoded generator, and the multiplication by the public
/// key starts from the hardcoded generator, never from an allocated point.
pub proof fn lemma_signature_check_constants(
    instrs: Seq<Instr>,
    field_bits: int,
    scalar_bits: int,
    m: int,
    n: int,
)
    requires
        checks_signature(instrs, field_bits, scalar_bits, m),
        11 <= n <= instrs.len(),
        forall|k: int| 11 <= k < n ==> !(#[trigger] instrs[k] is MulBitsPrecomputed),
    ensures
        precomputed_bases_hardcoded(instrs.take(n)),
        hardcoded_before(instrs, 2, instrs[2]->MulBits_result),
        instrs[3]->Sub_rhs == instrs[2]->MulBits_result,
{
    assert(instrs[1] is Generator && instrs[1]->Generator_dst == 1);
    let t = instrs.take(n);
    assert forall|k: int|
        0 <= k < t.len() && #[trigger] t[k] is MulBitsPrecomputed implies hardcoded_before(
        t,
        k,
        t[k]->MulBitsPrecomputed_base,
    ) by {
        assert(t[k] == instrs[k]);
        assert(k == 6);
        assert(t[1] == instrs[1]);
    }
}

/// A key randomization multiplies the allocated generator inside the circuit:
/// it treats no allocated point as a constant, and its one multiplication,
/// the last operation, is an in-circuit one whose base is the generator input
/// and whose accumulator is the public-key input.
pub proof fn lemma_randomization_in_circuit(instrs: Seq<Instr>, n: int)
    requires
        randomizes_key(instrs, n),
        0 <= n,
    ensures
        precomputed_bases_hardcoded(instrs),
        forall|k: int| 0 <= k < instrs.len() ==> !(#[trigger] instrs[k] is Generator),
        instrs[n] is MulBits,
        instrs[n]->MulBits_base == 0 && instrs[n]->MulBits_result == 1,
{
    assert forall|k: int| 0 <= k < instrs.len() implies !(#[trigger] instrs[k] is Generator) && !(
    instrs[k] is MulBitsPrecomputed) by {
        if k < n {
            assert(instrs[k] is ByteToBitsLe);
        }
    }
}

/// The input registers of a key randomization with `n` bytes of randomness.
pub open spec fn randomization_inputs(n: int) -> RegisterCounts {
    RegisterCounts { points: 2, fields: 0, bits: 0, bytes: n as usize, coords: 0 }
}

/// `instrs` expands each randomness byte `i`, least significant bit first,
/// into bit registers `8·i .. 8·i + 8`, then computes `pk + g·bits` with all
/// those bits, least significant first.
pub open spec fn randomizes_key(instrs: Seq<Instr>, n: int) -> bool {
    &&& instrs.len() == n + 1
    &&& forall|i: int|
        0 <= i < n ==> (#[trigger] instrs[i] matches Instr::ByteToBitsLe { src, dst } && src == i
            && dst@ == reg_range(8 * i, 8))
    &&& instrs[n] matches Instr::MulBits { label, dst, base, result, bits } && label
        == Label::ComputeRandomizer && dst == 2 && base == 0 && result == 1 && bits@ == reg_range(
        0,
        8 * n,
    )
}

/// The registers `start .. start + n`, in order.
fn consecutive(start: usize, n: usize) -> (regs: Vec<usize>)
    requires
        start + n <= usize::MAX,
    ensures
        regs@ == reg_range(start as int, n as int),
{
    let mut regs: Vec<usize> = Vec::new();
    let mut k: usize = 0;
    while k < n
        invariant
            k <= n,
            start + n <= usize::MAX,
            regs@ == reg_range(start as int, k as int),
        decreases n - k,
    {
        regs.push(start + k);
        k = k + 1;
        assert(regs@ =~= reg_range(start as int, k as int));
    }
    regs
}

impl SchnorrRandomizePkGadget {
    /// The plan of the public-key randomization: `pk + g·r`, where `r` is
    /// the randomness read as one little-endian bit string.
    pub fn check_randomization_gadget(randomness_len: usize) -> (plan: Plan)
        requires
            randomness_len <= usize::MAX / 8,
        ensures
            plan.well_formed(),
            plan.inputs == randomization_inputs(randomness_len as int),
            randomizes_key(plan.instrs@, randomness_len as int),
            plan.counts == (RegisterCounts {
                points: 3,
                fields: 0,
                bits: (8 * randomness_len) as usize,
                bytes: randomness_len,
                coords: 0,
            }),
            plan.output == Output::Point(2),
            plan.scoped == 0,
            precomputed_bases_hardcoded(plan.instrs@),
    {
        let inputs = RegisterCounts { points: 2, fields: 0, bits: 0, bytes: randomness_len, coords: 0 };
        let mut b = PlanBuilder::new(inputs);
        let mut i: usize = 0;
        assert(8 * randomness_len <= usize::MAX) by (nonlinear_arith)
            requires
                randomness_len <= usize::MAX / 8,
        ;
        while i < randomness_len
            invariant
                i <= randomness_len,
                randomness_len <= usize::MAX / 8,
                b.inv(),
                inputs == randomization_inputs(randomness_len as int),
                b.inputs == inputs,
                b.counts == (RegisterCounts { bits: (8 * i) as usize, ..inputs }),
                b.instrs@.len() == i,
                forall|j: int|
                    0 <= j < i ==> (#[trigger] b.instrs@[j] matches Instr::ByteToBitsLe { src, dst }
                        && src == j && dst@ == reg_range(8 * j, 8)),
            decreases randomness_len - i,
        {
            let dst = consecutive(8 * i, 8);
            assert(fresh_run(dst@, b.counts.bits));
            assert(8 * i + 8 <= usize::MAX) by (nonlinear_arith)
                requires
                    i < randomness_len,
                    randomness_len <= usize::MAX / 8,
            ;
            b.emit(Instr::ByteToBitsLe { src: i, dst });
            i = i + 1;
        }
        assert(8 * randomness_len <= usize::MAX) by (nonlinear_arith)
            requires
                randomness_len <= usize::MAX / 8,
        ;
        let bits = consecutive(0, 8 * randomness_len);
        b.emit(Instr::MulBits { label: Label::ComputeRandomizer, dst: 2, base: 0, result: 1, bits });
        proof {
            lemma_randomization_in_circuit(b.instrs@, randomness_len as int);
        }
        b.finish(Output::Point(2), 0)
    }
}

impl<FG> FieldBasedSchnorrSigGadget<FG> {
    /// The values handed to the allocations of `e` and `s`: the signature's
    /// components when it is known, otherwise `AssignmentMissing` for both
    /// (whatever the error that made it unknown).
    pub fn component_assignments<E>(signature: Result<(FG, FG), E>) -> (parts: (Result<FG, AllocError>, Result<FG, AllocError>))
        ensures
            match signature {
                Ok((e, s)) => parts.0 == Ok::<FG, AllocError>(e) && parts.1 == Ok::<FG, AllocError>(s),
                Err(_) => parts.0 == Err::<FG, AllocError>(AllocError::AssignmentMissing) && parts.1
                    == Err::<FG, AllocError>(AllocError::AssignmentMissing),
            },
    {
        match signature {
            Ok((e, s)) => (Ok(e), Ok(s)),
            _ => (Err(AllocError::AssignmentMissing), Err(AllocError::AssignmentMissing)),
        }
    }
}

impl FieldBasedSchnorrSigVerificationGadget {
    /// The plan of the signature check proper: it returns `e'`, the hash of
    /// the message, the first coordinate of `R' = s·g − e·pk` and the
    /// coordinates of `pk`.
    pub fn check_signature_gadget(field_bits: usize, scalar_bits: usize, message_len: usize) -> (plan: Plan)
        requires
            check_widths_ok(field_bits as int, scalar_bits as int),
            message_len <= usize::MAX - 4,
        ensures
            plan.well_formed(),
            plan.inputs == signature_inputs(message_len as int),
            plan.instrs@.len() == 11,
            checks_signature(plan.instrs@, field_bits as int, scalar_bits as int, message_len as int),
            plan.counts == signature_counts(field_bits as int, scalar_bits as int, message_len as int),
            plan.output == Output::Field((message_len + 3) as usize),
            precomputed_bases_hardcoded(plan.instrs@),
            plan.scoped == 0,
    {
        let mut b = PlanBuilder::new(signature_input_counts(message_len));
        emit_signature_check(&mut b, field_bits, scalar_bits, message_len);
        proof {
            lemma_signature_check_constants(b.instrs@, field_bits as int, scalar_bits as int, message_len as int, 11);
            assert(b.instrs@.take(11) =~= b.instrs@);
        }
        b.finish(Output::Field(message_len + 3), 0)
    }

    /// The plan of `check_gadget`: the signature check, in a namespace of its
    /// own, then a bit telling whether the signature's `e` equals `e'`.
    pub fn check_gadget(field_bits: usize, scalar_bits: usize, message_len: usize) -> (plan: Plan)
        requires
            check_widths_ok(field_bits as int, scalar_bits as int),
            message_len <= usize::MAX - 4,
        ensures
            plan.well_formed(),
            plan.inputs == signature_inputs(message_len as int),
            plan.instrs@.len() == 12,
            checks_signature(plan.instrs@, field_bits as int, scalar_bits as int, message_len as int),
            plan.instrs@[11] == (Instr::Verdict {
                label: Label::IsEEqualEPrime,
                dst: signature_counts(field_bits as int, scalar_bits as int, message_len as int).bits,
                lhs: 0,
                rhs: (message_len + 3) as usize,
            }),
            plan.counts == (RegisterCounts {
                bits: (signature_counts(field_bits as int, scalar_bits as int, message_len as int).bits
                    + 1) as usize,
                ..signature_counts(field_bits as int, scalar_bits as int, message_len as int)
            }),
            plan.output == Output::Bit(
                signature_counts(field_bits as int, scalar_bits as int, message_len as int).bits,
            ),
            precomputed_bases_hardcoded(plan.instrs@),
            plan.scoped == 11,
    {
        let mut b = PlanBuilder::new(signature_input_counts(message_len));
        emit_signature_check(&mut b, field_bits, scalar_bits, message_len);
        let verdict = b.counts.bits;
        b.emit(Instr::Verdict { label: Label::IsEEqualEPrime, dst: verdict, lhs: 0, rhs: message_len + 3 });
        proof {
            lemma_signature_check_constants(b.instrs@, field_bits as int, scalar_bits as int, message_len as int, 12);
            assert(b.instrs@.take(12) =~= b.instrs@);
        }
        b.finish(Output::Bit(verdict), 11)
    }

    /// The plan of `check_verify_gadget`: the signature check, in a namespace
    /// of its own, then the constraint that the signature's `e` equals `e'`.
    pub fn check_verify_gadget(field_bits: usize, scalar_bits: usize, message_len: usize) -> (plan: Plan)
        requires
            check_widths_ok(field_bits as int, scalar_bits as int),
            message_len <= usize::MAX - 4,
        ensures
            plan.well_formed(),
            plan.inputs == signature_inputs(message_len as int),
            plan.instrs@.len() == 12,
            checks_signature(plan.instrs@, field_bits as int, scalar_bits as int, message_len as int),
            plan.instrs@[11] == (Instr::EnforceEqual {
                label: Label::SignatureMustBeVerified,
                lhs: 0,
                rhs: (message_len + 3) as usize,
            }),
            plan.counts == signature_counts(field_bits as int, scalar_bits as int, message_len as int),
            plan.output == Output::Nothing,
            precomputed_bases_hardcoded(plan.instrs@),
            plan.scoped == 11,
    {
        let mut b = PlanBuilder::new(signature_input_counts(message_len));
        emit_signature_check(&mut b, field_bits, scalar_bits, message_len);
        b.emit(Instr::EnforceEqual { label: Label::SignatureMustBeVerified, lhs: 0, rhs: message_len + 3 });
        proof {
            lemma_signature_check_constants(b.instrs@, field_bits as int, scalar_bits as int, message_len as int, 12);
            assert(b.instrs@.take(12) =~= b.instrs@);
        }
        b.finish(Output::Nothing, 11)
    }
}

} // verus!
