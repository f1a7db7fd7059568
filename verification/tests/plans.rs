use crypto_primitives::gadgets::{
    AllocError, FieldBasedSchnorrSigGadget, FieldBasedSchnorrSigVerificationGadget,
    SchnorrRandomizePkGadget, SchnorrSigGadgetParameters, SchnorrSigGadgetPk,
};
use crypto_primitives::plan::{HashPart, Instr, Label, OnError, Output, RegisterCounts};

fn range(start: usize, n: usize) -> Vec<usize> {
    (start..start + n).collect()
}

fn rev(v: Vec<usize>) -> Vec<usize> {
    v.into_iter().rev().collect()
}

#[test]
fn signature_plan_bls_jubjub() {
    let plan = FieldBasedSchnorrSigVerificationGadget::check_signature_gadget(255, 252, 1);
    assert_eq!(
        plan.inputs,
        RegisterCounts { points: 1, fields: 3, bits: 0, bytes: 0, coords: 0 }
    );
    assert_eq!(plan.instrs.len(), 11);
    assert_eq!(
        plan.instrs[0],
        Instr::FieldToBits { label: Label::EToBits, src: 0, to_skip: 4, dst: range(0, 251) }
    );
    assert_eq!(plan.instrs[1], Instr::Generator { label: Label::HardcodeGenerator, dst: 1 });
    assert_eq!(
        plan.instrs[2],
        Instr::MulBits {
            label: Label::PkTimesEPlusG,
            dst: 2,
            base: 0,
            result: 1,
            bits: rev(range(0, 251)),
        }
    );
    assert_eq!(plan.instrs[3], Instr::Sub { label: Label::SubtractG, dst: 3, lhs: 2, rhs: 1 });
    assert_eq!(plan.instrs[4], Instr::Negate { label: Label::NegateEPk, dst: 4, src: 3 });
    assert_eq!(
        plan.instrs[5],
        Instr::FieldToBits { label: Label::SToBits, src: 1, to_skip: 3, dst: range(251, 252) }
    );
    assert_eq!(
        plan.instrs[6],
        Instr::MulBitsPrecomputed {
            label: Label::SGMinusEPk,
            dst: 5,
            base: 1,
            result: 4,
            bits: rev(range(251, 252)),
        }
    );
    assert_eq!(plan.instrs[7], Instr::ToCoords { dst: 0, src: 5, on_error: OnError::Propagate });
    assert_eq!(plan.instrs[8], Instr::FirstCoord { dst: 3, src: 0 });
    assert_eq!(plan.instrs[9], Instr::ToCoords { dst: 1, src: 0, on_error: OnError::Panic });
    assert_eq!(
        plan.instrs[10],
        Instr::Hash {
            label: Label::CheckEPrime,
            dst: 4,
            input: vec![HashPart::Field(2), HashPart::Field(3), HashPart::Coords(1)],
        }
    );
    assert_eq!(plan.output, Output::Field(4));
    assert_eq!(plan.scoped, 0);
    assert_eq!(
        plan.counts,
        RegisterCounts { points: 6, fields: 5, bits: 503, bytes: 0, coords: 2 }
    );
}

#[test]
fn signature_plan_hash_input_keeps_message_order() {
    let plan = FieldBasedSchnorrSigVerificationGadget::check_signature_gadget(753, 753, 3);
    assert_eq!(
        plan.instrs[10],
        Instr::Hash {
            label: Label::CheckEPrime,
            dst: 6,
            input: vec![
                HashPart::Field(2),
                HashPart::Field(3),
                HashPart::Field(4),
                HashPart::Field(5),
                HashPart::Coords(1),
            ],
        }
    );
    assert_eq!(plan.output, Output::Field(6));
}

#[test]
fn signature_plan_empty_message() {
    let plan = FieldBasedSchnorrSigVerificationGadget::check_signature_gadget(753, 753, 0);
    assert_eq!(plan.instrs[8], Instr::FirstCoord { dst: 2, src: 0 });
    assert_eq!(
        plan.instrs[10],
        Instr::Hash {
            label: Label::CheckEPrime,
            dst: 3,
            input: vec![HashPart::Field(2), HashPart::Coords(1)],
        }
    );
    // 752 bits of e and 752 of s.
    assert_eq!(plan.counts.bits, 1504);
}

#[test]
fn check_gadget_plan_ends_with_verdict() {
    let sig = FieldBasedSchnorrSigVerificationGadget::check_signature_gadget(255, 252, 2);
    let plan = FieldBasedSchnorrSigVerificationGadget::check_gadget(255, 252, 2);
    assert_eq!(plan.instrs.len(), 12);
    assert_eq!(plan.instrs[..11], sig.instrs[..]);
    assert_eq!(
        plan.instrs[11],
        Instr::Verdict { label: Label::IsEEqualEPrime, dst: 503, lhs: 0, rhs: 5 }
    );
    assert_eq!(plan.output, Output::Bit(503));
    assert_eq!(plan.scoped, 11);
    assert_eq!(plan.counts.bits, 504);
}

#[test]
fn check_verify_gadget_plan_ends_with_enforcement() {
    let sig = FieldBasedSchnorrSigVerificationGadget::check_signature_gadget(255, 252, 2);
    let plan = FieldBasedSchnorrSigVerificationGadget::check_verify_gadget(255, 252, 2);
    assert_eq!(plan.instrs.len(), 12);
    assert_eq!(plan.instrs[..11], sig.instrs[..]);
    assert_eq!(
        plan.instrs[11],
        Instr::EnforceEqual { label: Label::SignatureMustBeVerified, lhs: 0, rhs: 5 }
    );
    assert_eq!(plan.output, Output::Nothing);
    assert_eq!(plan.counts, sig.counts);
}

#[test]
fn randomization_plan_two_bytes() {
    let plan = SchnorrRandomizePkGadget::check_randomization_gadget(2);
    assert_eq!(
        plan.inputs,
        RegisterCounts { points: 2, fields: 0, bits: 0, bytes: 2, coords: 0 }
    );
    assert_eq!(plan.instrs.len(), 3);
    assert_eq!(plan.instrs[0], Instr::ByteToBitsLe { src: 0, dst: range(0, 8) });
    assert_eq!(plan.instrs[1], Instr::ByteToBitsLe { src: 1, dst: range(8, 8) });
    assert_eq!(
        plan.instrs[2],
        Instr::MulBits {
            label: Label::ComputeRandomizer,
            dst: 2,
            base: 0,
            result: 1,
            bits: range(0, 16),
        }
    );
    assert_eq!(plan.output, Output::Point(2));
    assert_eq!(
        plan.counts,
        RegisterCounts { points: 3, fields: 0, bits: 16, bytes: 2, coords: 0 }
    );
}

#[test]
fn randomization_plan_without_randomness() {
    let plan = SchnorrRandomizePkGadget::check_randomization_gadget(0);
    assert_eq!(plan.instrs.len(), 1);
    assert_eq!(
        plan.instrs[0],
        Instr::MulBits {
            label: Label::ComputeRandomizer,
            dst: 2,
            base: 0,
            result: 1,
            bits: vec![],
        }
    );
}

#[test]
fn known_signature_assigns_both_components() {
    let parts = FieldBasedSchnorrSigGadget::<u64>::component_assignments::<String>(Ok((7, 11)));
    assert_eq!(parts, (Ok(7), Ok(11)));
}

#[test]
fn unknown_signature_is_missing_assignment() {
    let parts = FieldBasedSchnorrSigGadget::<u64>::component_assignments(Err("no witness"));
    assert_eq!(
        parts,
        (Err(AllocError::AssignmentMissing), Err(AllocError::AssignmentMissing))
    );
}

#[test]
fn gadget_values_clone() {
    let params = SchnorrSigGadgetParameters { generator: vec![1u8, 2] };
    assert_eq!(params.clone().generator, vec![1u8, 2]);
    let pk = SchnorrSigGadgetPk { pub_key: 5u32 };
    assert_eq!(pk.clone(), pk);
    let sig = FieldBasedSchnorrSigGadget { e: 1u8, s: 2u8 };
    assert_eq!(sig.clone(), FieldBasedSchnorrSigGadget { e: 1, s: 2 });
}
