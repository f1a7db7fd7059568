//! What the gadgets' plans compute: the signature check yields
//! `e' = H(m ‖ x(s·g − e·pk) ‖ pk)` and compares it with `e`, and the key
//! randomization yields `pk + g·r`, whenever the gadget operations behave as
//! their documentation says.
use vstd::prelude::*;

use crate::gadgets::{
    check_widths_ok, checks_signature, e_bit_count, message_parts, randomizes_key, s_bit_count,
    signature_counts,
};
use crate::plan::{HashPart, Instr, Label};
use crate::semantics::{
    be_value, gather, lemma_gather_append, lemma_le_value_append, lemma_run_prefix, le_bytes_value,
    le_value, read_bits, run, step, Regs, Semantics,
};
use crate::truncation::{e_skip, s_skip};
use vstd::arithmetic::power2::{lemma2_to64, lemma_pow2_adds, pow2};

verus! {

/// Subtracting what was added gives back the other summand:
/// `(x + y) − x = y`, as in any abelian group.
pub open spec fn cancels<P, F>(sem: Semantics<P, F>) -> bool {
    forall|x: P, y: P| #[trigger] (sem.sub)((sem.add)(x, y), x) == y
}

/// Serializing an element of the `field_bits`-bit circuit field without `k`
/// leading bits gives `field_bits - k` bits.
pub open spec fn serializes_width<P, F>(sem: Semantics<P, F>, field_bits: int) -> bool {
    forall|f: F, k: nat| k <= field_bits ==> (#[trigger] (sem.field_bits)(f, k)).len() == field_bits - k
}

/// The registers at the start of a signature check.
pub open spec fn signature_regs<P, F>(pk: P, e: F, s: F, message: Seq<F>) -> Regs<P, F> {
    Regs {
        points: seq![pk],
        fields: seq![e, s] + message,
        bits: Seq::empty(),
        bytes: Seq::empty(),
        coords: Seq::empty(),
        holds: true,
    }
}

/// The integers the signature check reads `e` and `s` as.
pub open spec fn e_scalar<P, F>(sem: Semantics<P, F>, e: F, field_bits: int, scalar_bits: int) -> int {
    be_value((sem.field_bits)(e, e_skip(field_bits, scalar_bits) as nat))
}

pub open spec fn s_scalar<P, F>(sem: Semantics<P, F>, s: F, field_bits: int, scalar_bits: int) -> int {
    be_value((sem.field_bits)(s, s_skip(field_bits, scalar_bits) as nat))
}

/// `R' = s·g − e·pk`, as the check forms it: `−(e·pk) + s·g`.
pub open spec fn r_prime<P, F>(sem: Semantics<P, F>, pk: P, e: F, s: F, field_bits: int, scalar_bits: int) -> P {
    (sem.add)(
        (sem.neg)((sem.mul)(pk, e_scalar(sem, e, field_bits, scalar_bits))),
        (sem.mul)(sem.generator, s_scalar(sem, s, field_bits, scalar_bits)),
    )
}

/// `e' = H(m ‖ x(R') ‖ pk)`: the hash of the message, the first coordinate of
/// `R'` and the coordinates of the public key.
pub open spec fn e_prime<P, F>(
    sem: Semantics<P, F>,
    pk: P,
    e: F,
    s: F,
    message: Seq<F>,
    field_bits: int,
    scalar_bits: int,
) -> F {
    (sem.hash)(
        message + seq![(sem.coords)(r_prime(sem, pk, e, s, field_bits, scalar_bits))[0]] + (sem.coords)(
            pk,
        ),
    )
}

/// The message registers stand for the message.
proof fn lemma_gather_message<F>(fields: Seq<F>, coords: Seq<Seq<F>>, m: int)
    requires
        0 <= m,
        2 + m <= fields.len(),
        2 + m <= usize::MAX,
    ensures
        gather(fields, coords, message_parts(m)) == fields.subrange(2, 2 + m),
    decreases m,
{
    if m > 0 {
        assert(message_parts(m).drop_last() =~= message_parts(m - 1));
        assert(message_parts(m).last() == HashPart::Field((1 + m) as usize));
        lemma_gather_message(fields, coords, m - 1);
        assert(gather(fields, coords, message_parts(m)) == gather(
            fields,
            coords,
            message_parts(m - 1),
        ) + seq![fields[1 + m]]);
        assert(fields.subrange(2, 2 + m) =~= fields.subrange(2, 2 + m - 1) + seq![fields[1 + m]]);
    } else {
        assert(fields.subrange(2, 2) =~= Seq::<F>::empty());
    }
}

/// A signature check computes `e' = H(m ‖ x(R') ‖ pk)` with
/// `R' = s·g − e·pk`, where `e` and `s` are read from their serializations,
/// most significant bit first, whenever point subtraction cancels addition and
/// serialization yields as many bits as the field has left: point register 5
/// holds `R'` and the hash output register holds `e'`.
#[verifier::rlimit(50)]
pub proof fn lemma_signature_check_computes<P, F>(
    sem: Semantics<P, F>,
    instrs: Seq<Instr>,
    field_bits: int,
    scalar_bits: int,
    pk: P,
    e: F,
    s: F,
    message: Seq<F>,
)
    requires
        check_widths_ok(field_bits, scalar_bits),
        checks_signature(instrs, field_bits, scalar_bits, message.len() as int),
        message.len() + 4 <= usize::MAX,
        cancels(sem),
        serializes_width(sem, field_bits),
    ensures
        ({
            let st = run(sem, instrs.take(11), signature_regs(pk, e, s, message));
            &&& st.points.len() == 6
            &&& st.points[5] == r_prime(sem, pk, e, s, field_bits, scalar_bits)
            &&& st.fields == seq![e, s] + message + seq![
                (sem.coords)(r_prime(sem, pk, e, s, field_bits, scalar_bits))[0],
                e_prime(sem, pk, e, s, message, field_bits, scalar_bits),
            ]
            &&& st.bits.len() == e_bit_count(field_bits, scalar_bits) + s_bit_count(field_bits, scalar_bits)
            &&& st.holds
        }),
{
    let m = message.len() as int;
    let ke = e_bit_count(field_bits, scalar_bits);
    let ks = s_bit_count(field_bits, scalar_bits);
    let st0 = signature_regs(pk, e, s, message);
    let eb = (sem.field_bits)(e, e_skip(field_bits, scalar_bits) as nat);
    let sb = (sem.field_bits)(s, s_skip(field_bits, scalar_bits) as nat);
    assert(eb.len() == ke);
    assert(sb.len() == ks);
    let g = sem.generator;
    assert(instrs.take(0) =~= Seq::<Instr>::empty());
    // e serialized
    lemma_run_prefix(sem, instrs, 0, st0);
    let st1 = run(sem, instrs.take(1), st0);
    assert(st1.bits =~= eb);
    // g hardcoded
    lemma_run_prefix(sem, instrs, 1, st0);
    let st2 = run(sem, instrs.take(2), st0);
    assert(st2.points =~= seq![pk, g]);
    // g + pk·e
    lemma_run_prefix(sem, instrs, 2, st0);
    let st3 = run(sem, instrs.take(3), st0);
    let ebits = instrs[2]->MulBits_bits;
    assert(read_bits(st2.bits, ebits@) =~= eb.reverse());
    let epk = (sem.mul)(pk, be_value(eb));
    assert(st3.points =~= seq![pk, g, (sem.add)(g, epk)]);
    // − g
    lemma_run_prefix(sem, instrs, 3, st0);
    let st4 = run(sem, instrs.take(4), st0);
    assert(st4.points =~= seq![pk, g, (sem.add)(g, epk), epk]);
    // negate
    lemma_run_prefix(sem, instrs, 4, st0);
    let st5 = run(sem, instrs.take(5), st0);
    let neg = (sem.neg)(epk);
    assert(st5.points =~= seq![pk, g, (sem.add)(g, epk), epk, neg]);
    // s serialized
    lemma_run_prefix(sem, instrs, 5, st0);
    let st6 = run(sem, instrs.take(6), st0);
    assert(st6.bits =~= eb + sb);
    // R' = −(e·pk) + s·g
    lemma_run_prefix(sem, instrs, 6, st0);
    let st7 = run(sem, instrs.take(7), st0);
    let sbits = instrs[6]->MulBitsPrecomputed_bits;
    assert(read_bits(st6.bits, sbits@) =~= sb.reverse());
    let r = r_prime(sem, pk, e, s, field_bits, scalar_bits);
    assert(st7.points =~= seq![pk, g, (sem.add)(g, epk), epk, neg, r]);
    // coordinates of R', its first one, those of pk
    lemma_run_prefix(sem, instrs, 7, st0);
    lemma_run_prefix(sem, instrs, 8, st0);
    lemma_run_prefix(sem, instrs, 9, st0);
    let st10 = run(sem, instrs.take(10), st0);
    let x = (sem.coords)(r)[0];
    assert(st10.coords =~= seq![(sem.coords)(r), (sem.coords)(pk)]);
    assert(st10.fields =~= seq![e, s] + message + seq![x]);
    // e' = H(m ‖ x ‖ pk)
    lemma_run_prefix(sem, instrs, 10, st0);
    let input = instrs[10]->Hash_input;
    let tail = seq![HashPart::Field((2 + m) as usize), HashPart::Coords(1)];
    lemma_gather_append(st10.fields, st10.coords, message_parts(m), tail);
    lemma_gather_message(st10.fields, st10.coords, m);
    assert(st10.fields.subrange(2, 2 + m) =~= message);
    assert(tail.drop_last() =~= seq![HashPart::Field((2 + m) as usize)]);
    assert(seq![HashPart::Field((2 + m) as usize)].drop_last() =~= Seq::<HashPart>::empty());
    let first = seq![HashPart::Field((2 + m) as usize)];
    assert(gather(st10.fields, st10.coords, first.drop_last()) =~= Seq::<F>::empty());
    assert(st10.fields[2 + m] == x);
    assert(gather(st10.fields, st10.coords, first) =~= seq![x]);
    assert(tail.last() == HashPart::Coords(1));
    assert(gather(st10.fields, st10.coords, tail) =~= seq![x] + (sem.coords)(pk));
    assert(gather(st10.fields, st10.coords, input@) =~= message + seq![x] + (sem.coords)(pk));
    let st11 = run(sem, instrs.take(11), st0);
    assert(st11.fields =~= seq![e, s] + message + seq![
        x,
        e_prime(sem, pk, e, s, message, field_bits, scalar_bits),
    ]);
}

/// `check_gadget`'s plan outputs a bit that is set exactly when the
/// signature's `e` equals `e' = H(m ‖ x(s·g − e·pk) ‖ pk)`.
pub proof fn lemma_verdict_is_signature_validity<P, F>(
    sem: Semantics<P, F>,
    instrs: Seq<Instr>,
    field_bits: int,
    scalar_bits: int,
    pk: P,
    e: F,
    s: F,
    message: Seq<F>,
)
    requires
        check_widths_ok(field_bits, scalar_bits),
        checks_signature(instrs, field_bits, scalar_bits, message.len() as int),
        message.len() + 4 <= usize::MAX,
        instrs.len() == 12,
        instrs[11] == (Instr::Verdict {
            label: Label::IsEEqualEPrime,
            dst: signature_counts(field_bits, scalar_bits, message.len() as int).bits,
            lhs: 0,
            rhs: (message.len() + 3) as usize,
        }),
        cancels(sem),
        serializes_width(sem, field_bits),
    ensures
        ({
            let st = run(sem, instrs, signature_regs(pk, e, s, message));
            &&& st.bits[e_bit_count(field_bits, scalar_bits) + s_bit_count(field_bits, scalar_bits)]
                == (e == e_prime(sem, pk, e, s, message, field_bits, scalar_bits))
            &&& st.holds
        }),
{
    let st0 = signature_regs(pk, e, s, message);
    lemma_signature_check_computes(sem, instrs, field_bits, scalar_bits, pk, e, s, message);
    lemma_run_prefix(sem, instrs, 11, st0);
    assert(instrs.take(12) =~= instrs);
    let st11 = run(sem, instrs.take(11), st0);
    assert(st11.fields[0] == e);
    assert(st11.fields[3 + message.len() as int] == e_prime(sem, pk, e, s, message, field_bits, scalar_bits));
}

/// `check_verify_gadget`'s plan enforces exactly the equality of the
/// signature's `e` with `e' = H(m ‖ x(s·g − e·pk) ‖ pk)`: the equalities it
/// enforces hold precisely when `e` equals that hash.
pub proof fn lemma_enforcement_is_signature_validity<P, F>(
    sem: Semantics<P, F>,
    instrs: Seq<Instr>,
    field_bits: int,
    scalar_bits: int,
    pk: P,
    e: F,
    s: F,
    message: Seq<F>,
)
    requires
        check_widths_ok(field_bits, scalar_bits),
        checks_signature(instrs, field_bits, scalar_bits, message.len() as int),
        message.len() + 4 <= usize::MAX,
        instrs.len() == 12,
        instrs[11] == (Instr::EnforceEqual {
            label: Label::SignatureMustBeVerified,
            lhs: 0,
            rhs: (message.len() + 3) as usize,
        }),
        cancels(sem),
        serializes_width(sem, field_bits),
    ensures
        run(sem, instrs, signature_regs(pk, e, s, message)).holds == (e == e_prime(
            sem,
            pk,
            e,
            s,
            message,
            field_bits,
            scalar_bits,
        )),
{
    let st0 = signature_regs(pk, e, s, message);
    lemma_signature_check_computes(sem, instrs, field_bits, scalar_bits, pk, e, s, message);
    lemma_run_prefix(sem, instrs, 11, st0);
    assert(instrs.take(12) =~= instrs);
    let st11 = run(sem, instrs.take(11), st0);
    assert(st11.fields[0] == e);
    assert(st11.fields[3 + message.len() as int] == e_prime(sem, pk, e, s, message, field_bits, scalar_bits));
}

/// `x` and `y` are the same operation: equal in every field, lists
/// compared by their contents.
pub open spec fn same_op(x: Instr, y: Instr) -> bool {
    match (x, y) {
        (
            Instr::FieldToBits { label: l1, src: s1, to_skip: t1, dst: d1 },
            Instr::FieldToBits { label: l2, src: s2, to_skip: t2, dst: d2 },
        ) => l1 == l2 && s1 == s2 && t1 == t2 && d1@ == d2@,
        (Instr::ByteToBitsLe { src: s1, dst: d1 }, Instr::ByteToBitsLe { src: s2, dst: d2 }) => s1
            == s2 && d1@ == d2@,
        (
            Instr::MulBits { label: l1, dst: d1, base: b1, result: r1, bits: k1 },
            Instr::MulBits { label: l2, dst: d2, base: b2, result: r2, bits: k2 },
        ) => l1 == l2 && d1 == d2 && b1 == b2 && r1 == r2 && k1@ == k2@,
        (
            Instr::MulBitsPrecomputed { label: l1, dst: d1, base: b1, result: r1, bits: k1 },
            Instr::MulBitsPrecomputed { label: l2, dst: d2, base: b2, result: r2, bits: k2 },
        ) => l1 == l2 && d1 == d2 && b1 == b2 && r1 == r2 && k1@ == k2@,
        (Instr::Hash { label: l1, dst: d1, input: i1 }, Instr::Hash { label: l2, dst: d2, input: i2 }) =>
            l1 == l2 && d1 == d2 && i1@ == i2@,
        _ => x == y,
    }
}

/// The same operation does the same to the registers.
pub proof fn lemma_same_op_same_step<P, F>(sem: Semantics<P, F>, x: Instr, y: Instr, st: Regs<P, F>)
    requires
        same_op(x, y),
    ensures
        step(sem, x, st) == step(sem, y, st),
{
}

/// A signature-check plan is fixed by the two field widths and the message
/// length alone: any two plans that perform the signature check for the same
/// widths and message length perform the same eleven operations, whatever the
/// public key, signature and message later placed in their input registers.
pub proof fn lemma_signature_plan_determined(
    a: Seq<Instr>,
    b: Seq<Instr>,
    field_bits: int,
    scalar_bits: int,
    m: int,
)
    requires
        checks_signature(a, field_bits, scalar_bits, m),
        checks_signature(b, field_bits, scalar_bits, m),
    ensures
        forall|k: int| 0 <= k < 11 ==> same_op(#[trigger] a[k], b[k]),
{
    assert forall|k: int| 0 <= k < 11 implies same_op(#[trigger] a[k], b[k]) by {
        if k == 0 || k == 2 || k == 5 || k == 6 || k == 10 {
        } else {
            assert(a[k] == b[k]);
        }
    }
}

/// Operation by operation the same runs reach the same registers.
proof fn lemma_same_ops_same_run<P, F>(
    sem: Semantics<P, F>,
    a: Seq<Instr>,
    b: Seq<Instr>,
    n: int,
    st: Regs<P, F>,
)
    requires
        0 <= n <= a.len(),
        n <= b.len(),
        forall|k: int| 0 <= k < n ==> same_op(#[trigger] a[k], b[k]),
    ensures
        run(sem, a.take(n), st) == run(sem, b.take(n), st),
    decreases n,
{
    if n == 0 {
        assert(a.take(0) =~= b.take(0));
    } else {
        lemma_same_ops_same_run(sem, a, b, n - 1, st);
        lemma_run_prefix(sem, a, n - 1, st);
        lemma_run_prefix(sem, b, n - 1, st);
        lemma_same_op_same_step(sem, a[n - 1], b[n - 1], run(sem, a.take(n - 1), st));
    }
}

/// Only enforced equalities change whether the enforced equalities hold, and
/// none can make them hold again: a run never repairs a violated system.
pub proof fn lemma_run_never_repairs<P, F>(sem: Semantics<P, F>, instrs: Seq<Instr>, st: Regs<P, F>)
    ensures
        run(sem, instrs, st).holds ==> st.holds,
    decreases instrs.len(),
{
    if instrs.len() > 0 {
        lemma_run_never_repairs(sem, instrs.drop_last(), st);
    }
}

/// Operations that enforce no equality leave unchanged whether the enforced
/// equalities hold.
proof fn lemma_no_enforcement_keeps_holds<P, F>(sem: Semantics<P, F>, instrs: Seq<Instr>, st: Regs<P, F>)
    requires
        forall|k: int| 0 <= k < instrs.len() ==> !(#[trigger] instrs[k] is EnforceEqual),
    ensures
        run(sem, instrs, st).holds == st.holds,
    decreases instrs.len(),
{
    if instrs.len() > 0 {
        lemma_no_enforcement_keeps_holds(sem, instrs.drop_last(), st);
        assert(!(instrs[instrs.len() - 1] is EnforceEqual));
    }
}

/// On the same public key, signature and message, for any behaviour of the
/// gadget operations, the verdict bit that `check_gadget`'s plan appends last
/// is set exactly when the equality that `check_verify_gadget`'s plan enforces
/// holds: both compare the signature's `e` with the same `e'`.
pub proof fn lemma_verdict_matches_enforcement<P, F>(
    sem: Semantics<P, F>,
    verdict_plan: Seq<Instr>,
    enforcing_plan: Seq<Instr>,
    field_bits: int,
    scalar_bits: int,
    pk: P,
    e: F,
    s: F,
    message: Seq<F>,
)
    requires
        checks_signature(verdict_plan, field_bits, scalar_bits, message.len() as int),
        verdict_plan.len() == 12,
        verdict_plan[11] == (Instr::Verdict {
            label: Label::IsEEqualEPrime,
            dst: signature_counts(field_bits, scalar_bits, message.len() as int).bits,
            lhs: 0,
            rhs: (message.len() + 3) as usize,
        }),
        checks_signature(enforcing_plan, field_bits, scalar_bits, message.len() as int),
        enforcing_plan.len() == 12,
        enforcing_plan[11] == (Instr::EnforceEqual {
            label: Label::SignatureMustBeVerified,
            lhs: 0,
            rhs: (message.len() + 3) as usize,
        }),
    ensures
        ({
            let st0 = signature_regs(pk, e, s, message);
            let checked = run(sem, verdict_plan.take(11), st0);
            &&& run(sem, verdict_plan, st0).bits == checked.bits.push(
                run(sem, enforcing_plan, st0).holds,
            )
            &&& run(sem, verdict_plan, st0).holds
        }),
{
    let m = message.len() as int;
    let st0 = signature_regs(pk, e, s, message);
    lemma_signature_plan_determined(verdict_plan, enforcing_plan, field_bits, scalar_bits, m);
    lemma_same_ops_same_run(sem, verdict_plan, enforcing_plan, 11, st0);
    lemma_run_prefix(sem, verdict_plan, 11, st0);
    lemma_run_prefix(sem, enforcing_plan, 11, st0);
    assert(verdict_plan.take(12) =~= verdict_plan);
    assert(enforcing_plan.take(12) =~= enforcing_plan);
    let prefix = verdict_plan.take(11);
    assert forall|k: int| 0 <= k < prefix.len() implies !(#[trigger] prefix[k] is EnforceEqual) by {
        assert(prefix[k] == verdict_plan[k]);
    }
    lemma_no_enforcement_keeps_holds(sem, prefix, st0);
}

/// With the parameters of the gadget semantics under which `check_gadget`'s
/// plan tells validity (`lemma_verdict_is_signature_validity`), its verdict
/// register also holds that bit.
pub proof fn lemma_verdict_register_matches_enforcement<P, F>(
    sem: Semantics<P, F>,
    verdict_plan: Seq<Instr>,
    enforcing_plan: Seq<Instr>,
    field_bits: int,
    scalar_bits: int,
    pk: P,
    e: F,
    s: F,
    message: Seq<F>,
)
    requires
        check_widths_ok(field_bits, scalar_bits),
        message.len() + 4 <= usize::MAX,
        checks_signature(verdict_plan, field_bits, scalar_bits, message.len() as int),
        verdict_plan.len() == 12,
        verdict_plan[11] == (Instr::Verdict {
            label: Label::IsEEqualEPrime,
            dst: signature_counts(field_bits, scalar_bits, message.len() as int).bits,
            lhs: 0,
            rhs: (message.len() + 3) as usize,
        }),
        checks_signature(enforcing_plan, field_bits, scalar_bits, message.len() as int),
        enforcing_plan.len() == 12,
        enforcing_plan[11] == (Instr::EnforceEqual {
            label: Label::SignatureMustBeVerified,
            lhs: 0,
            rhs: (message.len() + 3) as usize,
        }),
        cancels(sem),
        serializes_width(sem, field_bits),
    ensures
        run(sem, verdict_plan, signature_regs(pk, e, s, message)).bits[e_bit_count(
            field_bits,
            scalar_bits,
        ) + s_bit_count(field_bits, scalar_bits)] == run(
            sem,
            enforcing_plan,
            signature_regs(pk, e, s, message),
        ).holds,
{
    lemma_verdict_is_signature_validity(sem, verdict_plan, field_bits, scalar_bits, pk, e, s, message);
    lemma_enforcement_is_signature_validity(sem, enforcing_plan, field_bits, scalar_bits, pk, e, s, message);
}

/// A byte's bits are eight, least significant first, and denote the byte.
pub open spec fn byte_bits_exact<P, F>(sem: Semantics<P, F>) -> bool {
    forall|b: u8|
        #![trigger (sem.byte_bits)(b)]
        (sem.byte_bits)(b).len() == 8 && le_value((sem.byte_bits)(b)) == b as int
}

/// The registers at the start of a key randomization.
pub open spec fn randomization_regs<P, F>(generator: P, pk: P, randomness: Seq<u8>) -> Regs<P, F> {
    Regs {
        points: seq![generator, pk],
        fields: Seq::empty(),
        bits: Seq::empty(),
        bytes: randomness,
        coords: Seq::empty(),
        holds: true,
    }
}

/// Appending a byte adds it, shifted past the bytes before it.
proof fn lemma_le_bytes_push(a: Seq<u8>, x: u8)
    ensures
        le_bytes_value(a.push(x)) == le_bytes_value(a) + pow2((8 * a.len()) as nat) * x,
    decreases a.len(),
{
    lemma2_to64();
    if a.len() == 0 {
        assert(a.push(x).skip(1) =~= Seq::<u8>::empty());
        assert(le_bytes_value(a.push(x)) == x as int + 256 * le_bytes_value(a.push(x).skip(1)));
        assert(pow2(0) * x == x) by (nonlinear_arith)
            requires
                pow2(0) == 1,
        ;
    } else {
        assert(a.push(x).skip(1) =~= a.skip(1).push(x));
        assert(a.push(x)[0] == a[0]);
        assert(le_bytes_value(a.push(x)) == a[0] as int + 256 * le_bytes_value(a.skip(1).push(x)));
        assert(le_bytes_value(a) == a[0] as int + 256 * le_bytes_value(a.skip(1)));
        lemma_le_bytes_push(a.skip(1), x);
        let p = pow2((8 * (a.len() - 1)) as nat);
        let q = pow2((8 * a.len()) as nat);
        lemma_pow2_adds(8, (8 * (a.len() - 1)) as nat);
        assert(256 * (le_bytes_value(a.skip(1)) + p * x) == 256 * le_bytes_value(a.skip(1)) + q * x)
            by (nonlinear_arith)
            requires
                256 * p == q,
        ;
    }
}

/// After the first `i` byte expansions the bit registers hold the first `i`
/// bytes' bits, denoting those bytes read as a little-endian number.
proof fn lemma_randomization_prefix<P, F>(
    sem: Semantics<P, F>,
    instrs: Seq<Instr>,
    generator: P,
    pk: P,
    randomness: Seq<u8>,
    i: int,
)
    requires
        randomizes_key(instrs, randomness.len() as int),
        byte_bits_exact(sem),
        0 <= i <= randomness.len(),
    ensures
        ({
            let st = run(sem, instrs.take(i), randomization_regs::<P, F>(generator, pk, randomness));
            &&& st.points == seq![generator, pk]
            &&& st.bytes == randomness
            &&& st.bits.len() == 8 * i
            &&& le_value(st.bits) == le_bytes_value(randomness.take(i))
        }),
    decreases i,
{
    let st0 = randomization_regs::<P, F>(generator, pk, randomness);
    if i == 0 {
        assert(instrs.take(0) =~= Seq::<Instr>::empty());
        assert(randomness.take(0) =~= Seq::<u8>::empty());
    } else {
        let j = i - 1;
        lemma_randomization_prefix(sem, instrs, generator, pk, randomness, j);
        let st = run(sem, instrs.take(j), st0);
        lemma_run_prefix(sem, instrs, j, st0);
        assert(instrs[j] matches Instr::ByteToBitsLe { src, .. } && src == j);
        let bb = (sem.byte_bits)(randomness[j]);
        lemma_le_value_append(st.bits, bb);
        assert(randomness.take(i) =~= randomness.take(j).push(randomness[j]));
        lemma_le_bytes_push(randomness.take(j), randomness[j]);
    }
}

/// The key randomization computes `pk + g·r`, where `r` is the randomness
/// read as one little-endian number, whenever each byte's bits denote it.
pub proof fn lemma_randomization_computes<P, F>(
    sem: Semantics<P, F>,
    instrs: Seq<Instr>,
    generator: P,
    pk: P,
    randomness: Seq<u8>,
)
    requires
        randomizes_key(instrs, randomness.len() as int),
        8 * randomness.len() <= usize::MAX,
        byte_bits_exact(sem),
    ensures
        run(sem, instrs, randomization_regs::<P, F>(generator, pk, randomness)).points == seq![
            generator,
            pk,
            (sem.add)(pk, (sem.mul)(generator, le_bytes_value(randomness))),
        ],
{
    let n = randomness.len() as int;
    let st0 = randomization_regs::<P, F>(generator, pk, randomness);
    lemma_randomization_prefix(sem, instrs, generator, pk, randomness, n);
    assert(randomness.take(n) =~= randomness);
    lemma_run_prefix(sem, instrs, n, st0);
    assert(instrs.take(n + 1) =~= instrs);
    let st = run(sem, instrs.take(n), st0);
    let bits = instrs[n]->MulBits_bits;
    assert(read_bits(st.bits, bits@) =~= st.bits);
}

/// Multiplying by zero gives the neutral element: `p + q·0 = p`.
pub open spec fn zero_mul_neutral<P, F>(sem: Semantics<P, F>) -> bool {
    forall|p: P, q: P| #[trigger] (sem.add)(p, (sem.mul)(q, 0)) == p
}

/// Addition is associative, and multiplication by integers distributes over
/// their sum: `(x + y) + z = x + (y + z)`, `q·a + q·b = q·(a + b)`.
pub open spec fn adds_scalars<P, F>(sem: Semantics<P, F>) -> bool {
    &&& forall|x: P, y: P, z: P| #[trigger]
        (sem.add)((sem.add)(x, y), z) == (sem.add)(x, (sem.add)(y, z))
    &&& forall|q: P, a: int, b: int| #[trigger]
        (sem.add)((sem.mul)(q, a), (sem.mul)(q, b)) == (sem.mul)(q, a + b)
}

/// The key a randomization plan outputs.
pub open spec fn randomized<P, F>(
    sem: Semantics<P, F>,
    instrs: Seq<Instr>,
    generator: P,
    pk: P,
    randomness: Seq<u8>,
) -> P {
    run(sem, instrs, randomization_regs::<P, F>(generator, pk, randomness)).points[2]
}

/// Randomizing with no randomness leaves the key as it was.
pub proof fn lemma_randomization_without_randomness<P, F>(
    sem: Semantics<P, F>,
    instrs: Seq<Instr>,
    generator: P,
    pk: P,
)
    requires
        randomizes_key(instrs, 0),
        byte_bits_exact(sem),
        zero_mul_neutral(sem),
    ensures
        randomized(sem, instrs, generator, pk, Seq::<u8>::empty()) == pk,
{
    lemma_randomization_computes(sem, instrs, generator, pk, Seq::<u8>::empty());
    assert((sem.add)(pk, (sem.mul)(generator, 0)) == pk);
}

/// Randomizing by `a` and then by `b` adds `g·(r_a + r_b)` to the key, where
/// `r_a` and `r_b` are the two randomness strings read as little-endian
/// numbers; so the two orders give the same key.
pub proof fn lemma_randomizations_compose<P, F>(
    sem: Semantics<P, F>,
    plan_a: Seq<Instr>,
    plan_b: Seq<Instr>,
    generator: P,
    pk: P,
    a: Seq<u8>,
    b: Seq<u8>,
)
    requires
        randomizes_key(plan_a, a.len() as int),
        randomizes_key(plan_b, b.len() as int),
        8 * a.len() <= usize::MAX,
        8 * b.len() <= usize::MAX,
        byte_bits_exact(sem),
        adds_scalars(sem),
    ensures
        randomized(sem, plan_b, generator, randomized(sem, plan_a, generator, pk, a), b) == (sem.add)(
            pk,
            (sem.mul)(generator, le_bytes_value(a) + le_bytes_value(b)),
        ),
        randomized(sem, plan_b, generator, randomized(sem, plan_a, generator, pk, a), b) == randomized(
            sem,
            plan_a,
            generator,
            randomized(sem, plan_b, generator, pk, b),
            a,
        ),
{
    let ra = le_bytes_value(a);
    let rb = le_bytes_value(b);
    lemma_randomization_computes(sem, plan_a, generator, pk, a);
    let pa = (sem.add)(pk, (sem.mul)(generator, ra));
    lemma_randomization_computes(sem, plan_b, generator, pa, b);
    assert((sem.add)((sem.add)(pk, (sem.mul)(generator, ra)), (sem.mul)(generator, rb)) == (sem.add)(
        pk,
        (sem.add)((sem.mul)(generator, ra), (sem.mul)(generator, rb)),
    ));
    assert((sem.add)((sem.mul)(generator, ra), (sem.mul)(generator, rb)) == (sem.mul)(generator, ra + rb));
    lemma_randomization_computes(sem, plan_b, generator, pk, b);
    let pb = (sem.add)(pk, (sem.mul)(generator, rb));
    lemma_randomization_computes(sem, plan_a, generator, pb, a);
    assert((sem.add)((sem.add)(pk, (sem.mul)(generator, rb)), (sem.mul)(generator, ra)) == (sem.add)(
        pk,
        (sem.add)((sem.mul)(generator, rb), (sem.mul)(generator, ra)),
    ));
    assert((sem.add)((sem.mul)(generator, rb), (sem.mul)(generator, ra)) == (sem.mul)(generator, rb + ra));
    assert(rb + ra == ra + rb);
}

/// In a signature check, for any behaviour of the gadget operations, the
/// multiplication by the public key starts its accumulator at the hardcoded
/// generator and the generator is what is subtracted afterwards: the first
/// addition of that multiplication adds `pk` to the generator, not to itself,
/// so it avoids the exceptional cases of incomplete addition whenever `pk` is
/// not the generator.
pub proof fn lemma_e_times_pk_starts_from_generator<P, F>(
    sem: Semantics<P, F>,
    instrs: Seq<Instr>,
    field_bits: int,
    scalar_bits: int,
    pk: P,
    e: F,
    s: F,
    message: Seq<F>,
)
    requires
        checks_signature(instrs, field_bits, scalar_bits, message.len() as int),
    ensures
        ({
            let st0 = signature_regs(pk, e, s, message);
            let st2 = run(sem, instrs.take(2), st0);
            let st3 = run(sem, instrs.take(3), st0);
            &&& instrs[2] is MulBits
            &&& instrs[3] is Sub
            &&& st2.points[instrs[2]->MulBits_base as int] == pk
            &&& st2.points[instrs[2]->MulBits_result as int] == sem.generator
            &&& pk != sem.generator ==> st2.points[instrs[2]->MulBits_result as int] != pk
            &&& st3.points[instrs[3]->Sub_rhs as int] == sem.generator
            &&& st3.points[instrs[3]->Sub_lhs as int] == st3.points[2]
        }),
{
    let st0 = signature_regs(pk, e, s, message);
    assert(instrs.take(0) =~= Seq::<Instr>::empty());
    lemma_run_prefix(sem, instrs, 0, st0);
    lemma_run_prefix(sem, instrs, 1, st0);
    lemma_run_prefix(sem, instrs, 2, st0);
    let st2 = run(sem, instrs.take(2), st0);
    assert(st2.points =~= seq![pk, sem.generator]);
}

} // verus!
