//! Runs the plans over a toy group: points are integers modulo a 12-bit prime
//! under addition, circuit-field elements are 16-bit integers.
use crypto_primitives::gadgets::{FieldBasedSchnorrSigVerificationGadget, SchnorrRandomizePkGadget};
use crypto_primitives::plan::{HashPart, Instr, Output, Plan};

const Q: u64 = 4093; // group order, 12 bits
const FIELD_BITS: usize = 16;
const SCALAR_BITS: usize = 12;
const G: u64 = 5;

#[derive(Default)]
struct Regs {
    points: Vec<Option<u64>>,
    fields: Vec<Option<u64>>,
    bits: Vec<Option<bool>>,
    bytes: Vec<Option<u8>>,
    coords: Vec<Option<Vec<u64>>>,
    holds: bool,
}

fn set<T>(v: &mut Vec<Option<T>>, i: usize, x: T) {
    while v.len() <= i {
        v.push(None);
    }
    assert!(v[i].is_none(), "register written twice");
    v[i] = Some(x);
}

fn get<T: Clone>(v: &[Option<T>], i: usize) -> T {
    v[i].clone().expect("register read before it was written")
}

fn le_value(bits: &[bool]) -> u64 {
    bits.iter().rev().fold(0, |acc, b| 2 * acc + (*b as u64))
}

fn field_bits(f: u64, skip: usize) -> Vec<bool> {
    (0..FIELD_BITS).rev().map(|k| (f >> k) & 1 == 1).skip(skip).collect()
}

fn coords(p: u64) -> Vec<u64> {
    vec![p, (p * 7 + 3) % 65536]
}

fn hash(xs: &[u64]) -> u64 {
    xs.iter().fold(17u64, |h, x| (h * 31 + x + 7) % 65521)
}

fn mul(p: u64, k: u64) -> u64 {
    (p * (k % Q)) % Q
}

fn run(plan: &Plan, regs: &mut Regs) {
    for instr in &plan.instrs {
        match instr {
            Instr::FieldToBits { src, to_skip, dst, .. } => {
                let bits = field_bits(get(&regs.fields, *src), *to_skip);
                assert_eq!(bits.len(), dst.len());
                for (r, b) in dst.iter().zip(bits) {
                    set(&mut regs.bits, *r, b);
                }
            }
            Instr::ByteToBitsLe { src, dst } => {
                let byte = get(&regs.bytes, *src);
                for (k, r) in dst.iter().enumerate() {
                    set(&mut regs.bits, *r, (byte >> k) & 1 == 1);
                }
            }
            Instr::Generator { dst, .. } => set(&mut regs.points, *dst, G),
            Instr::MulBits { dst, base, result, bits, .. }
            | Instr::MulBitsPrecomputed { dst, base, result, bits, .. } => {
                let bits: Vec<bool> = bits.iter().map(|b| get(&regs.bits, *b)).collect();
                let v = (get(&regs.points, *result) + mul(get(&regs.points, *base), le_value(&bits))) % Q;
                set(&mut regs.points, *dst, v);
            }
            Instr::Sub { dst, lhs, rhs, .. } => {
                let v = (get(&regs.points, *lhs) + Q - get(&regs.points, *rhs)) % Q;
                set(&mut regs.points, *dst, v);
            }
            Instr::Negate { dst, src, .. } => {
                let v = (Q - get(&regs.points, *src)) % Q;
                set(&mut regs.points, *dst, v);
            }
            Instr::ToCoords { dst, src, .. } => {
                let c = coords(get(&regs.points, *src));
                set(&mut regs.coords, *dst, c);
            }
            Instr::FirstCoord { dst, src } => {
                let x = get(&regs.coords, *src)[0];
                set(&mut regs.fields, *dst, x);
            }
            Instr::Hash { dst, input, .. } => {
                let mut xs = Vec::new();
                for part in input {
                    match part {
                        HashPart::Field(i) => xs.push(get(&regs.fields, *i)),
                        HashPart::Coords(i) => xs.extend(get(&regs.coords, *i)),
                    }
                }
                set(&mut regs.fields, *dst, hash(&xs));
            }
            Instr::Verdict { dst, lhs, rhs, .. } => {
                let v = get(&regs.fields, *lhs) == get(&regs.fields, *rhs);
                set(&mut regs.bits, *dst, v);
            }
            Instr::EnforceEqual { lhs, rhs, .. } => {
                regs.holds = regs.holds && get(&regs.fields, *lhs) == get(&regs.fields, *rhs);
            }
        }
    }
}

fn load_signature(pk: u64, e: u64, s: u64, message: &[u64]) -> Regs {
    let mut regs = Regs { holds: true, ..Default::default() };
    set(&mut regs.points, 0, pk);
    set(&mut regs.fields, 0, e);
    set(&mut regs.fields, 1, s);
    for (k, m) in message.iter().enumerate() {
        set(&mut regs.fields, 2 + k, *m);
    }
    regs
}

/// e = H(m ‖ x(k·g) ‖ pk), s = k + e'·sk, with e' the 11 low bits of e that
/// the check keeps.
fn sign(sk: u64, nonce: u64, message: &[u64]) -> (u64, u64, u64) {
    let pk = mul(G, sk);
    let r = mul(G, nonce);
    let mut xs = message.to_vec();
    xs.push(coords(r)[0]);
    xs.extend(coords(pk));
    let e = hash(&xs);
    let e_kept = e % (1 << 11);
    let s = (nonce + e_kept * sk) % Q;
    (pk, e, s)
}

fn verdict(pk: u64, e: u64, s: u64, message: &[u64]) -> bool {
    let plan = FieldBasedSchnorrSigVerificationGadget::check_gadget(FIELD_BITS, SCALAR_BITS, message.len());
    let mut regs = load_signature(pk, e, s, message);
    run(&plan, &mut regs);
    match plan.output {
        Output::Bit(b) => get(&regs.bits, b),
        _ => panic!("check_gadget outputs a bit"),
    }
}

fn enforced(pk: u64, e: u64, s: u64, message: &[u64]) -> bool {
    let plan =
        FieldBasedSchnorrSigVerificationGadget::check_verify_gadget(FIELD_BITS, SCALAR_BITS, message.len());
    let mut regs = load_signature(pk, e, s, message);
    run(&plan, &mut regs);
    regs.holds
}

#[test]
fn toy_signature_check_recomputes_e() {
    let message = [1234u64, 42];
    let (pk, e, s) = sign(77, 1001, &message);
    let plan =
        FieldBasedSchnorrSigVerificationGadget::check_signature_gadget(FIELD_BITS, SCALAR_BITS, message.len());
    let mut regs = load_signature(pk, e, s, &message);
    run(&plan, &mut regs);
    // R' = s·g − e·pk = nonce·g
    assert_eq!(get(&regs.points, 5), mul(G, 1001));
    assert_eq!(plan.output, Output::Field(5));
    assert_eq!(get(&regs.fields, 5), e);
}

#[test]
fn toy_valid_signature_verifies() {
    let message = [9u64];
    let (pk, e, s) = sign(1234, 55, &message);
    assert!(verdict(pk, e, s, &message));
    assert!(enforced(pk, e, s, &message));
}

#[test]
fn toy_wrong_message_fails() {
    let (pk, e, s) = sign(1234, 55, &[9]);
    assert!(!verdict(pk, e, s, &[10]));
    assert!(!enforced(pk, e, s, &[10]));
}

#[test]
fn toy_wrong_key_fails() {
    let (_pk, e, s) = sign(1234, 55, &[9]);
    let other_pk = mul(G, 999);
    assert!(!verdict(other_pk, e, s, &[9]));
    assert!(!enforced(other_pk, e, s, &[9]));
}

#[test]
fn toy_signature_of_other_message_fails() {
    let (pk, e, s) = sign(1234, 56, &[11]);
    assert!(!verdict(pk, e, s, &[9]));
}

#[test]
fn toy_randomized_key_adds_randomness_times_generator() {
    let randomness = [0x34u8, 0x12];
    let plan = SchnorrRandomizePkGadget::check_randomization_gadget(randomness.len());
    let mut regs = Regs { holds: true, ..Default::default() };
    let pk = mul(G, 321);
    set(&mut regs.points, 0, G);
    set(&mut regs.points, 1, pk);
    for (k, b) in randomness.iter().enumerate() {
        set(&mut regs.bytes, k, *b);
    }
    run(&plan, &mut regs);
    assert_eq!(plan.output, Output::Point(2));
    assert_eq!(get(&regs.points, 2), (pk + mul(G, 0x1234)) % Q);
}

#[test]
fn plans_write_each_register_once() {
    // `set` panics on a second write and `get` on a read before any write.
    let message = [1u64, 2, 3];
    let (pk, e, s) = sign(5, 6, &message);
    for plan in [
        FieldBasedSchnorrSigVerificationGadget::check_signature_gadget(FIELD_BITS, SCALAR_BITS, 3),
        FieldBasedSchnorrSigVerificationGadget::check_gadget(FIELD_BITS, SCALAR_BITS, 3),
        FieldBasedSchnorrSigVerificationGadget::check_verify_gadget(FIELD_BITS, SCALAR_BITS, 3),
    ] {
        let mut regs = load_signature(pk, e, s, &message);
        run(&plan, &mut regs);
        assert_eq!(regs.points.len(), plan.counts.points);
        assert_eq!(regs.fields.len(), plan.counts.fields);
        assert_eq!(regs.bits.len(), plan.counts.bits);
        assert_eq!(regs.coords.len(), plan.counts.coords);
        assert!(regs.points.iter().all(|p| p.is_some()));
        assert!(regs.bits.iter().all(|b| b.is_some()));
    }
}

#[test]
fn toy_verdict_matches_enforcement() {
    let (pk, e, s) = sign(4000, 17, &[3, 4]);
    for (pk, e, s, m) in [
        (pk, e, s, vec![3u64, 4]),
        (pk, e, s, vec![4u64, 3]),
        ((pk + 1) % Q, e, s, vec![3u64, 4]),
        (pk, e, (s + 1) % Q, vec![3u64, 4]),
        (pk, (e + 1) % 65536, s, vec![3u64, 4]),
    ] {
        assert_eq!(verdict(pk, e, s, &m), enforced(pk, e, s, &m));
    }
}

fn randomize(g: u64, pk: u64, randomness: &[u8]) -> u64 {
    let plan = SchnorrRandomizePkGadget::check_randomization_gadget(randomness.len());
    let mut regs = Regs { holds: true, ..Default::default() };
    set(&mut regs.points, 0, g);
    set(&mut regs.points, 1, pk);
    for (k, b) in randomness.iter().enumerate() {
        set(&mut regs.bytes, k, *b);
    }
    run(&plan, &mut regs);
    get(&regs.points, 2)
}

#[test]
fn toy_empty_randomness_keeps_key() {
    let pk = mul(G, 321);
    assert_eq!(randomize(G, pk, &[]), pk);
}

#[test]
fn toy_randomizations_compose_and_commute() {
    let pk = mul(G, 77);
    let a = [0x01u8, 0x02];
    let b = [0xffu8];
    let ab = randomize(G, randomize(G, pk, &a), &b);
    let ba = randomize(G, randomize(G, pk, &b), &a);
    assert_eq!(ab, ba);
    assert_eq!(ab, (pk + mul(G, 0x0201 + 0xff)) % Q);
}

#[test]
fn toy_violated_system_stays_violated() {
    let message = [9u64];
    let (pk, e, s) = sign(1234, 55, &message);
    let plan = FieldBasedSchnorrSigVerificationGadget::check_verify_gadget(FIELD_BITS, SCALAR_BITS, 1);
    let mut regs = load_signature(pk, e, s, &message);
    regs.holds = false;
    run(&plan, &mut regs);
    assert!(!regs.holds);
}

#[test]
fn toy_signature_plans_depend_only_on_widths_and_length() {
    let p1 = FieldBasedSchnorrSigVerificationGadget::check_gadget(FIELD_BITS, SCALAR_BITS, 2);
    let p2 = FieldBasedSchnorrSigVerificationGadget::check_gadget(FIELD_BITS, SCALAR_BITS, 2);
    let p3 = FieldBasedSchnorrSigVerificationGadget::check_verify_gadget(FIELD_BITS, SCALAR_BITS, 2);
    assert_eq!(p1, p2);
    assert_eq!(p1.instrs[..11], p3.instrs[..11]);
}
