//! Straight-line register programs for a constraint system.
//!
//! A plan lists the gadget operations that a synthesis performs, in order.
//! Each operation reads registers and writes fresh ones; registers come in
//! five kinds (points, circuit-field elements, bits, bytes, and coordinate
//! vectors), each numbered from zero in its own space. The inputs of a plan
//! occupy the lowest registers of each kind; every operation writes the next
//! unused registers of its kind, so a well-formed plan writes each register
//! once and reads only registers that are inputs or were written before.
use vstd::prelude::*;

verus! {

/// How many registers of each kind are in use.
#[derive(Clone, Copy, Debug, PartialEq, Eq, Structural)]
pub struct RegisterCounts {
    pub points: usize,
    pub fields: usize,
    pub bits: usize,
    pub bytes: usize,
    pub coords: usize,
}

/// The constraint-system namespace an operation runs in.
#[derive(Clone, Copy, Debug, PartialEq, Eq, Structural)]
pub enum Label {
    /// The operation takes no constraint system.
    Unscoped,
    ComputeRandomizer,
    EToBits,
    HardcodeGenerator,
    PkTimesEPlusG,
    SubtractG,
    NegateEPk,
    SToBits,
    SGMinusEPk,
    CheckEPrime,
    IsEEqualEPrime,
    SignatureMustBeVerified,
}

/// What happens when a conversion to field elements fails: the error is
/// returned to the caller, or the synthesis panics.
#[derive(Clone, Copy, Debug, PartialEq, Eq, Structural)]
pub enum OnError {
    Propagate,
    Panic,
}

/// One piece of the input of a hash evaluation.
#[derive(Clone, Copy, Debug, PartialEq, Eq, Structural)]
pub enum HashPart {
    /// A single field register.
    Field(usize),
    /// Every element of a coordinate-vector register, in order.
    Coords(usize),
}

/// One gadget operation.
#[derive(Clone, Debug, PartialEq, Eq)]
pub enum Instr {
    /// `dst` (bit registers) := the bits of field register `src`, most
    /// significant first, without its `to_skip` leading bits.
    FieldToBits { label: Label, src: usize, to_skip: usize, dst: Vec<usize> },
    /// `dst` (bit registers) := the bits of byte register `src`, least
    /// significant first.
    ByteToBitsLe { src: usize, dst: Vec<usize> },
    /// point `dst` := the generator of the prime-order subgroup, as a constant.
    Generator { label: Label, dst: usize },
    /// point `dst` := point `result` + point `base` · (`bits`, least
    /// significant first).
    MulBits { label: Label, dst: usize, base: usize, result: usize, bits: Vec<usize> },
    /// As `MulBits`, with the value of point `base` taken as a known constant.
    MulBitsPrecomputed { label: Label, dst: usize, base: usize, result: usize, bits: Vec<usize> },
    /// point `dst` := point `lhs` − point `rhs`.
    Sub { label: Label, dst: usize, lhs: usize, rhs: usize },
    /// point `dst` := −point `src`.
    Negate { label: Label, dst: usize, src: usize },
    /// coordinate vector `dst` := the coordinates of point `src` as field elements.
    ToCoords { dst: usize, src: usize, on_error: OnError },
    /// field `dst` := the first element of coordinate vector `src`.
    FirstCoord { dst: usize, src: usize },
    /// field `dst` := the hash of the concatenation of `input`.
    Hash { label: Label, dst: usize, input: Vec<HashPart> },
    /// bit `dst` := whether fields `lhs` and `rhs` are equal.
    Verdict { label: Label, dst: usize, lhs: usize, rhs: usize },
    /// Constrain fields `lhs` and `rhs` to be equal.
    EnforceEqual { label: Label, lhs: usize, rhs: usize },
}

/// The register that holds what a plan computes.
#[derive(Clone, Copy, Debug, PartialEq, Eq, Structural)]
pub enum Output {
    Nothing,
    Point(usize),
    Field(usize),
    Bit(usize),
}

/// A plan: its inputs, its operations, the registers in use after them, what
/// it returns, and how many of its leading operations run in a namespace of
/// their own (the embedded signature check).
#[derive(Clone, Debug, PartialEq, Eq)]
pub struct Plan {
    pub inputs: RegisterCounts,
    pub instrs: Vec<Instr>,
    pub counts: RegisterCounts,
    pub output: Output,
    pub scoped: usize,
}

/// `regs` are `start`, `start + 1`, ... in order.
pub open spec fn fresh_run(regs: Seq<usize>, start: usize) -> bool {
    forall|k: int| 0 <= k < regs.len() ==> #[trigger] regs[k] == start + k
}

/// Every register in `regs` is below `bound`.
pub open spec fn all_below(regs: Seq<usize>, bound: usize) -> bool {
    forall|k: int| 0 <= k < regs.len() ==> #[trigger] regs[k] < bound
}

pub open spec fn part_ok(part: HashPart, c: RegisterCounts) -> bool {
    match part {
        HashPart::Field(r) => r < c.fields,
        HashPart::Coords(r) => r < c.coords,
    }
}

/// `instr` reads only registers in use and writes exactly the next unused
/// registers of its kind.
pub open spec fn instr_ok(instr: Instr, c: RegisterCounts) -> bool {
    match instr {
        Instr::FieldToBits { src, dst, .. } => src < c.fields && fresh_run(dst@, c.bits) && c.bits
            + dst@.len() <= usize::MAX,
        Instr::ByteToBitsLe { src, dst } => src < c.bytes && fresh_run(dst@, c.bits) && c.bits
            + dst@.len() <= usize::MAX,
        Instr::Generator { dst, .. } => dst == c.points && c.points < usize::MAX,
        Instr::MulBits { dst, base, result, bits, .. } => base < c.points && result < c.points
            && all_below(bits@, c.bits) && dst == c.points && c.points < usize::MAX,
        Instr::MulBitsPrecomputed { dst, base, result, bits, .. } => base < c.points && result
            < c.points && all_below(bits@, c.bits) && dst == c.points && c.points < usize::MAX,
        Instr::Sub { dst, lhs, rhs, .. } => lhs < c.points && rhs < c.points && dst == c.points
            && c.points < usize::MAX,
        Instr::Negate { dst, src, .. } => src < c.points && dst == c.points && c.points
            < usize::MAX,
        Instr::ToCoords { dst, src, .. } => src < c.points && dst == c.coords && c.coords
            < usize::MAX,
        Instr::FirstCoord { dst, src } => src < c.coords && dst == c.fields && c.fields
            < usize::MAX,
        Instr::Hash { dst, input, .. } => (forall|k: int|
            0 <= k < input@.len() ==> part_ok(#[trigger] input@[k], c)) && dst == c.fields
            && c.fields < usize::MAX,
        Instr::Verdict { dst, lhs, rhs, .. } => lhs < c.fields && rhs < c.fields && dst == c.bits
            && c.bits < usize::MAX,
        Instr::EnforceEqual { lhs, rhs, .. } => lhs < c.fields && rhs < c.fields,
    }
}

/// The registers in use after `instr`.
pub open spec fn after(instr: Instr, c: RegisterCounts) -> RegisterCounts {
    match instr {
        Instr::FieldToBits { dst, .. } => RegisterCounts {
            bits: (c.bits + dst@.len()) as usize,
            ..c
        },
        Instr::ByteToBitsLe { dst, .. } => RegisterCounts {
            bits: (c.bits + dst@.len()) as usize,
            ..c
        },
        Instr::Generator { .. } => RegisterCounts { points: (c.points + 1) as usize, ..c },
        Instr::MulBits { .. } => RegisterCounts { points: (c.points + 1) as usize, ..c },
        Instr::MulBitsPrecomputed { .. } => RegisterCounts {
            points: (c.points + 1) as usize,
            ..c
        },
        Instr::Sub { .. } => RegisterCounts { points: (c.points + 1) as usize, ..c },
        Instr::Negate { .. } => RegisterCounts { points: (c.points + 1) as usize, ..c },
        Instr::ToCoords { .. } => RegisterCounts { coords: (c.coords + 1) as usize, ..c },
        Instr::FirstCoord { .. } => RegisterCounts { fields: (c.fields + 1) as usize, ..c },
        Instr::Hash { .. } => RegisterCounts { fields: (c.fields + 1) as usize, ..c },
        Instr::Verdict { .. } => RegisterCounts { bits: (c.bits + 1) as usize, ..c },
        Instr::EnforceEqual { .. } => c,
    }
}

/// The registers in use after running `instrs` from `init`, or `None` when
/// some operation reads a register not yet in use or does not write the next
/// unused ones.
pub open spec fn run_counts(instrs: Seq<Instr>, init: RegisterCounts) -> Option<RegisterCounts>
    decreases instrs.len(),
{
    if instrs.len() == 0 {
        Some(init)
    } else {
        match run_counts(instrs.drop_last(), init) {
            Some(c) => if instr_ok(instrs.last(), c) {
                Some(after(instrs.last(), c))
            } else {
                None
            },
            None => None,
        }
    }
}

pub open spec fn output_ok(output: Output, c: RegisterCounts) -> bool {
    match output {
        Output::Nothing => true,
        Output::Point(r) => r < c.points,
        Output::Field(r) => r < c.fields,
        Output::Bit(r) => r < c.bits,
    }
}

/// A register, by kind and index.
#[derive(Clone, Copy, Debug, PartialEq, Eq, Structural)]
pub enum Reg {
    Point(usize),
    Field(usize),
    Bit(usize),
    Byte(usize),
    Coords(usize),
}

/// `r` is among the registers in use.
pub open spec fn in_use(r: Reg, c: RegisterCounts) -> bool {
    match r {
        Reg::Point(i) => i < c.points,
        Reg::Field(i) => i < c.fields,
        Reg::Bit(i) => i < c.bits,
        Reg::Byte(i) => i < c.bytes,
        Reg::Coords(i) => i < c.coords,
    }
}

/// `r` is one of `bits`, as a bit register.
pub open spec fn among_bits(r: Reg, bits: Seq<usize>) -> bool {
    exists|k: int| 0 <= k < bits.len() && r == Reg::Bit(#[trigger] bits[k])
}

/// `instr` writes register `r`.
pub open spec fn writes(instr: Instr, r: Reg) -> bool {
    match instr {
        Instr::FieldToBits { dst, .. } => among_bits(r, dst@),
        Instr::ByteToBitsLe { dst, .. } => among_bits(r, dst@),
        Instr::Generator { dst, .. } => r == Reg::Point(dst),
        Instr::MulBits { dst, .. } => r == Reg::Point(dst),
        Instr::MulBitsPrecomputed { dst, .. } => r == Reg::Point(dst),
        Instr::Sub { dst, .. } => r == Reg::Point(dst),
        Instr::Negate { dst, .. } => r == Reg::Point(dst),
        Instr::ToCoords { dst, .. } => r == Reg::Coords(dst),
        Instr::FirstCoord { dst, .. } => r == Reg::Field(dst),
        Instr::Hash { dst, .. } => r == Reg::Field(dst),
        Instr::Verdict { dst, .. } => r == Reg::Bit(dst),
        Instr::EnforceEqual { .. } => false,
    }
}

/// `r` is one of the hash parts in `input`.
pub open spec fn among_parts(r: Reg, input: Seq<HashPart>) -> bool {
    exists|k: int|
        0 <= k < input.len() && match #[trigger] input[k] {
            HashPart::Field(i) => r == Reg::Field(i),
            HashPart::Coords(i) => r == Reg::Coords(i),
        }
}

/// `instr` reads register `r`.
pub open spec fn reads(instr: Instr, r: Reg) -> bool {
    match instr {
        Instr::FieldToBits { src, .. } => r == Reg::Field(src),
        Instr::ByteToBitsLe { src, .. } => r == Reg::Byte(src),
        Instr::Generator { .. } => false,
        Instr::MulBits { base, result, bits, .. } => r == Reg::Point(base) || r == Reg::Point(result)
            || among_bits(r, bits@),
        Instr::MulBitsPrecomputed { base, result, bits, .. } => r == Reg::Point(base) || r
            == Reg::Point(result) || among_bits(r, bits@),
        Instr::Sub { lhs, rhs, .. } => r == Reg::Point(lhs) || r == Reg::Point(rhs),
        Instr::Negate { src, .. } => r == Reg::Point(src),
        Instr::ToCoords { src, .. } => r == Reg::Point(src),
        Instr::FirstCoord { src, .. } => r == Reg::Coords(src),
        Instr::Hash { input, .. } => among_parts(r, input@),
        Instr::Verdict { lhs, rhs, .. } => r == Reg::Field(lhs) || r == Reg::Field(rhs),
        Instr::EnforceEqual { lhs, rhs, .. } => r == Reg::Field(lhs) || r == Reg::Field(rhs),
    }
}

/// Counts that never fall below `c`.
pub open spec fn counts_le(c: RegisterCounts, d: RegisterCounts) -> bool {
    &&& c.points <= d.points
    &&& c.fields <= d.fields
    &&& c.bits <= d.bits
    &&& c.bytes <= d.bytes
    &&& c.coords <= d.coords
}

/// One operation that reads registers in use and writes the next unused ones
/// reads only registers in use, writes only registers not in use, and the
/// registers in use after it are those in use before and those it writes.
proof fn lemma_instr_dataflow(instr: Instr, c: RegisterCounts)
    requires
        instr_ok(instr, c),
    ensures
        forall|r: Reg| #[trigger] reads(instr, r) ==> in_use(r, c),
        forall|r: Reg| #[trigger] writes(instr, r) ==> !in_use(r, c),
        forall|r: Reg| #[trigger] in_use(r, after(instr, c)) <==> (in_use(r, c) || writes(instr, r)),
        counts_le(c, after(instr, c)),
{
    match instr {
        Instr::FieldToBits { dst, .. } => {
            assert forall|r: Reg| #[trigger] in_use(r, after(instr, c)) implies (in_use(r, c)
                || writes(instr, r)) by {
                if let Reg::Bit(i) = r {
                    if i >= c.bits {
                        let k = i - c.bits;
                        assert(dst@[k] == i);
                    }
                }
            }
        },
        Instr::ByteToBitsLe { dst, .. } => {
            assert forall|r: Reg| #[trigger] in_use(r, after(instr, c)) implies (in_use(r, c)
                || writes(instr, r)) by {
                if let Reg::Bit(i) = r {
                    if i >= c.bits {
                        let k = i - c.bits;
                        assert(dst@[k] == i);
                    }
                }
            }
        },
        Instr::Hash { input, .. } => {
            assert forall|r: Reg| #[trigger] reads(instr, r) implies in_use(r, c) by {
                let k = choose|k: int|
                    0 <= k < input@.len() && match #[trigger] input@[k] {
                        HashPart::Field(i) => r == Reg::Field(i),
                        HashPart::Coords(i) => r == Reg::Coords(i),
                    };
                assert(part_ok(input@[k], c));
            }
        },
        _ => {},
    }
}

/// Running a sequence of operations only ever adds registers: those in use
/// at the end are those in use at the start and those some operation writes.
proof fn lemma_run_in_use(instrs: Seq<Instr>, init: RegisterCounts, fin: RegisterCounts)
    requires
        run_counts(instrs, init) == Some(fin),
    ensures
        counts_le(init, fin),
        forall|r: Reg|
            #[trigger] in_use(r, fin) <==> (in_use(r, init) || exists|j: int|
                0 <= j < instrs.len() && writes(#[trigger] instrs[j], r)),
    decreases instrs.len(),
{
    if instrs.len() > 0 {
        let pre = instrs.drop_last();
        let c = run_counts(pre, init)->Some_0;
        lemma_run_in_use(pre, init, c);
        lemma_instr_dataflow(instrs.last(), c);
        assert forall|r: Reg| #[trigger] in_use(r, fin) <==> (in_use(r, init) || exists|j: int|
            0 <= j < instrs.len() && writes(#[trigger] instrs[j], r)) by {
            if in_use(r, fin) && !in_use(r, init) {
                if in_use(r, c) {
                    let j = choose|j: int| 0 <= j < pre.len() && writes(#[trigger] pre[j], r);
                    assert(instrs[j] == pre[j]);
                } else {
                    assert(writes(instrs[instrs.len() - 1], r));
                }
            }
            if exists|j: int| 0 <= j < instrs.len() && writes(#[trigger] instrs[j], r) {
                let j = choose|j: int| 0 <= j < instrs.len() && writes(#[trigger] instrs[j], r);
                if j < instrs.len() - 1 {
                    assert(pre[j] == instrs[j]);
                }
            }
        }
    }
}

/// A sequence of operations that each read registers in use and write the
/// next unused ones forms a single-assignment program: every register an
/// operation reads is an input or was written by an earlier operation, and
/// every register an operation writes is neither an input nor written by an
/// earlier operation.
pub proof fn lemma_single_assignment(instrs: Seq<Instr>, init: RegisterCounts, fin: RegisterCounts)
    requires
        run_counts(instrs, init) == Some(fin),
    ensures
        forall|i: int, r: Reg|
            0 <= i < instrs.len() && #[trigger] reads(instrs[i], r) ==> in_use(r, init) || exists|
                j: int,
            | 0 <= j < i && writes(#[trigger] instrs[j], r),
        forall|i: int, j: int, r: Reg|
            0 <= j < i < instrs.len() && #[trigger] writes(instrs[i], r) ==> !in_use(r, init)
                && !writes(#[trigger] instrs[j], r),
        forall|i: int, r: Reg|
            0 <= i < instrs.len() && #[trigger] writes(instrs[i], r) ==> !in_use(r, init),
    decreases instrs.len(),
{
    if instrs.len() > 0 {
        let pre = instrs.drop_last();
        let n = instrs.len() - 1;
        let c = run_counts(pre, init)->Some_0;
        lemma_single_assignment(pre, init, c);
        lemma_run_in_use(pre, init, c);
        lemma_instr_dataflow(instrs.last(), c);
        assert forall|i: int, r: Reg|
            0 <= i < instrs.len() && #[trigger] reads(instrs[i], r) implies in_use(r, init) || exists|
                j: int,
            | 0 <= j < i && writes(#[trigger] instrs[j], r) by {
            if i < n {
                assert(pre[i] == instrs[i]);
                if !in_use(r, init) {
                    let j = choose|j: int| 0 <= j < i && writes(#[trigger] pre[j], r);
                    assert(pre[j] == instrs[j]);
                }
            } else if !in_use(r, init) {
                assert(in_use(r, c));
                let j = choose|j: int| 0 <= j < pre.len() && writes(#[trigger] pre[j], r);
                assert(pre[j] == instrs[j]);
            }
        }
        assert forall|i: int, j: int, r: Reg|
            0 <= j < i < instrs.len() && #[trigger] writes(instrs[i], r) implies !in_use(r, init)
                && !writes(#[trigger] instrs[j], r) by {
            assert(pre[j] == instrs[j]);
            if i < n {
                assert(pre[i] == instrs[i]);
            } else {
                assert(!in_use(r, c));
                if writes(pre[j], r) {
                    assert(in_use(r, c));
                }
            }
        }
        assert forall|i: int, r: Reg|
            0 <= i < instrs.len() && #[trigger] writes(instrs[i], r) implies !in_use(r, init) by {
            if i < n {
                assert(pre[i] == instrs[i]);
            } else {
                assert(!in_use(r, c));
            }
        }
    }
}

/// Point register `r` holds a hardcoded constant before operation `k`: an
/// earlier operation allocated the generator there.
pub open spec fn hardcoded_before(instrs: Seq<Instr>, k: int, r: usize) -> bool {
    exists|j: int|
        0 <= j < k && #[trigger] instrs[j] is Generator && instrs[j]->Generator_dst == r
}

/// Every multiplication that takes its base's value as a known constant has a
/// hardcoded base: no allocated point is treated as a constant.
pub open spec fn precomputed_bases_hardcoded(instrs: Seq<Instr>) -> bool {
    forall|k: int|
        0 <= k < instrs.len() && #[trigger] instrs[k] is MulBitsPrecomputed ==> hardcoded_before(
            instrs,
            k,
            instrs[k]->MulBitsPrecomputed_base,
        )
}

/// The register a well-formed plan returns is one of its inputs or is written
/// by one of its operations.
pub proof fn lemma_output_defined(plan: Plan, r: Reg)
    requires
        plan.well_formed(),
        match plan.output {
            Output::Nothing => false,
            Output::Point(i) => r == Reg::Point(i),
            Output::Field(i) => r == Reg::Field(i),
            Output::Bit(i) => r == Reg::Bit(i),
        },
    ensures
        in_use(r, plan.inputs) || exists|j: int|
            0 <= j < plan.instrs@.len() && writes(#[trigger] plan.instrs@[j], r),
{
    lemma_run_in_use(plan.instrs@, plan.inputs, plan.counts);
    assert(in_use(r, plan.counts));
}

impl Plan {
    /// Every operation reads registers in use and writes the next unused
    /// ones, the counts are those after the last operation, the output is in
    /// use, and the scoped prefix lies within the plan.
    pub open spec fn well_formed(&self) -> bool {
        &&& run_counts(self.instrs@, self.inputs) == Some(self.counts)
        &&& output_ok(self.output, self.counts)
        &&& self.scoped <= self.instrs@.len()
    }
}

/// Accumulates the operations of a plan, keeping it well formed.
pub struct PlanBuilder {
    pub inputs: RegisterCounts,
    pub instrs: Vec<Instr>,
    pub counts: RegisterCounts,
}

impl PlanBuilder {
    pub open spec fn inv(&self) -> bool {
        run_counts(self.instrs@, self.inputs) == Some(self.counts)
    }

    /// A builder with no operations over the given inputs.
    pub fn new(inputs: RegisterCounts) -> (b: PlanBuilder)
        ensures
            b.inv(),
            b.inputs == inputs,
            b.counts == inputs,
            b.instrs@.len() == 0,
    {
        PlanBuilder { inputs, instrs: Vec::new(), counts: inputs }
    }

    /// Appends `instr`, which must read registers in use and write the next
    /// unused ones.
    pub fn emit(&mut self, instr: Instr)
        requires
            old(self).inv(),
            instr_ok(instr, old(self).counts),
        ensures
            final(self).inv(),
            final(self).inputs == old(self).inputs,
            final(self).counts == after(instr, old(self).counts),
            final(self).instrs@ == old(self).instrs@.push(instr),
    {
        let ghost prev = self.instrs@;
        let c = self.counts;
        self.counts = match &instr {
            Instr::FieldToBits { dst, .. } => RegisterCounts { bits: c.bits + dst.len(), ..c },
            Instr::ByteToBitsLe { dst, .. } => RegisterCounts { bits: c.bits + dst.len(), ..c },
            Instr::Generator { .. } => RegisterCounts { points: c.points + 1, ..c },
            Instr::MulBits { .. } => RegisterCounts { points: c.points + 1, ..c },
            Instr::MulBitsPrecomputed { .. } => RegisterCounts { points: c.points + 1, ..c },
            Instr::Sub { .. } => RegisterCounts { points: c.points + 1, ..c },
            Instr::Negate { .. } => RegisterCounts { points: c.points + 1, ..c },
            Instr::ToCoords { .. } => RegisterCounts { coords: c.coords + 1, ..c },
            Instr::FirstCoord { .. } => RegisterCounts { fields: c.fields + 1, ..c },
            Instr::Hash { .. } => RegisterCounts { fields: c.fields + 1, ..c },
            Instr::Verdict { .. } => RegisterCounts { bits: c.bits + 1, ..c },
            Instr::EnforceEqual { .. } => c,
        };
        self.instrs.push(instr);
        proof {
            assert(self.instrs@.drop_last() =~= prev);
        }
    }

    /// The next `n` unused bit registers, in order (not yet taken).
    pub fn next_bits(&self, n: usize) -> (regs: Vec<usize>)
        requires
            self.counts.bits + n <= usize::MAX,
        ensures
            regs@.len() == n,
            fresh_run(regs@, self.counts.bits),
    {
        let mut regs: Vec<usize> = Vec::new();
        let mut k: usize = 0;
        while k < n
            invariant
                k <= n,
                self.counts.bits + n <= usize::MAX,
                regs@.len() == k,
                fresh_run(regs@, self.counts.bits),
            decreases n - k,
        {
            regs.push(self.counts.bits + k);
            k = k + 1;
        }
        regs
    }

    /// The finished plan.
    pub fn finish(self, output: Output, scoped: usize) -> (plan: Plan)
        requires
            self.inv(),
            output_ok(output, self.counts),
            scoped <= self.instrs@.len(),
        ensures
            plan.well_formed(),
            plan.inputs == self.inputs,
            plan.instrs@ == self.instrs@,
            plan.counts == self.counts,
            plan.output == output,
            plan.scoped == scoped,
    {
        Plan {
            inputs: self.inputs,
            instrs: self.instrs,
            counts: self.counts,
            output,
            scoped,
        }
    }
}

} // verus!
