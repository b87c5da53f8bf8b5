use crate::builder::{
    built_from, plans_fit, plans_wf, segment_fits, start_of, BuildError, PartBuilder, SegmentPlan,
};
use crate::grid::lemma_piece_plans_fit;
use crate::music::{Dynamic, Part, Pattern, MAX_PATTERN_LEN};
use crate::rational::{is_ratio, Rational};
use vstd::prelude::*;

verus! {

/// One step of the composition, applied to both parts at once.
#[derive(Clone, Debug)]
pub enum Instruction {
    /// The first part fades in over the second.
    Part1FadeIn { part1: Pattern, part2: Pattern, repetitions: u32 },
    /// The first part fades out over the second.
    Part1FadeOut { part1: Pattern, part2: Pattern, repetitions: u32 },
    /// The second part fades in over the first.
    Part2FadeIn { part1: Pattern, part2: Pattern, repetitions: u32 },
    /// The second part fades out over the first.
    Part2FadeOut { part1: Pattern, part2: Pattern, repetitions: u32 },
    /// The first part plays; the second keeps silent for as long.
    Part1Alone { pattern: Pattern, repetitions: u32 },
    /// The second part plays; the first keeps silent for as long.
    Part2Alone { pattern: Pattern, repetitions: u32 },
    /// Both parts play at the base speed.
    Repeat { part1: Pattern, part2: Pattern, repetitions: u32 },
    /// The second part plays one extra note over the span of the first.
    Part2Phase { part1: Pattern, part2: Pattern, repetitions: u32 },
    /// The second part alone plays its pattern once more.
    Part2CatchUp { part2: Pattern },
}

/// The repetition count that a step uses.
pub open spec fn effective_repetitions(repetitions: u32, shorten: bool) -> nat {
    if shorten {
        1
    } else {
        repetitions as nat
    }
}

pub open spec fn base_plan(p: Pattern, repetitions: nat, dynamic: Dynamic) -> SegmentPlan {
    SegmentPlan { pattern: p.0@, speed: (1, 1), repetitions, dynamic }
}

/// The phasing speed `n / (n - 1)` for a span of `n` notes.
pub open spec fn phase_speed(n: int) -> (int, int) {
    (n, n - 1)
}

/// The segment a step adds to the first part, if any.
pub open spec fn part1_step(i: Instruction, shorten: bool) -> Seq<SegmentPlan> {
    match i {
        Instruction::Part1FadeIn { part1, repetitions, .. } => seq![
            base_plan(part1, effective_repetitions(repetitions, shorten), Dynamic::Crescendo),
        ],
        Instruction::Part1FadeOut { part1, repetitions, .. } => seq![
            base_plan(part1, effective_repetitions(repetitions, shorten), Dynamic::Decrescendo),
        ],
        Instruction::Part2FadeIn { part1, repetitions, .. } => seq![
            base_plan(part1, effective_repetitions(repetitions, shorten), Dynamic::Flat),
        ],
        Instruction::Part2FadeOut { part1, repetitions, .. } => seq![
            base_plan(part1, effective_repetitions(repetitions, shorten), Dynamic::Flat),
        ],
        Instruction::Part1Alone { pattern, repetitions } => seq![
            base_plan(pattern, effective_repetitions(repetitions, shorten), Dynamic::Flat),
        ],
        Instruction::Part2Alone { pattern, repetitions } => seq![
            base_plan(pattern, effective_repetitions(repetitions, shorten), Dynamic::Silent),
        ],
        Instruction::Repeat { part1, repetitions, .. } => seq![
            base_plan(part1, effective_repetitions(repetitions, shorten), Dynamic::Flat),
        ],
        Instruction::Part2Phase { part1, repetitions, .. } => seq![
            base_plan(part1, effective_repetitions(repetitions, shorten), Dynamic::Flat),
        ],
        Instruction::Part2CatchUp { .. } => Seq::empty(),
    }
}

/// The segment a step adds to the second part.
pub open spec fn part2_step(i: Instruction, shorten: bool) -> Seq<SegmentPlan> {
    match i {
        Instruction::Part1FadeIn { part2, repetitions, .. } => seq![
            base_plan(part2, effective_repetitions(repetitions, shorten), Dynamic::Flat),
        ],
        Instruction::Part1FadeOut { part2, repetitions, .. } => seq![
            base_plan(part2, effective_repetitions(repetitions, shorten), Dynamic::Flat),
        ],
        Instruction::Part2FadeIn { part2, repetitions, .. } => seq![
            base_plan(part2, effective_repetitions(repetitions, shorten), Dynamic::Crescendo),
        ],
        Instruction::Part2FadeOut { part2, repetitions, .. } => seq![
            base_plan(part2, effective_repetitions(repetitions, shorten), Dynamic::Decrescendo),
        ],
        Instruction::Part1Alone { pattern, repetitions } => seq![
            base_plan(pattern, effective_repetitions(repetitions, shorten), Dynamic::Silent),
        ],
        Instruction::Part2Alone { pattern, repetitions } => seq![
            base_plan(pattern, effective_repetitions(repetitions, shorten), Dynamic::Flat),
        ],
        Instruction::Repeat { part2, repetitions, .. } => seq![
            base_plan(part2, effective_repetitions(repetitions, shorten), Dynamic::Flat),
        ],
        Instruction::Part2Phase { part1, part2, repetitions } => seq![
            SegmentPlan {
                pattern: part2.0@,
                speed: phase_speed((part1.0@.len() * effective_repetitions(repetitions, shorten)) as int),
                repetitions: effective_repetitions(repetitions, shorten),
                dynamic: Dynamic::Flat,
            },
        ],
        Instruction::Part2CatchUp { part2 } => seq![base_plan(part2, 1, Dynamic::Flat)],
    }
}

/// The segments of the first part after the first `n` steps.
pub open spec fn part1_plans(instrs: Seq<Instruction>, shorten: bool, n: int) -> Seq<SegmentPlan>
    decreases n,
{
    if n <= 0 {
        Seq::empty()
    } else {
        part1_plans(instrs, shorten, n - 1) + part1_step(instrs[n - 1], shorten)
    }
}

/// The segments of the second part after the first `n` steps.
pub open spec fn part2_plans(instrs: Seq<Instruction>, shorten: bool, n: int) -> Seq<SegmentPlan>
    decreases n,
{
    if n <= 0 {
        Seq::empty()
    } else {
        part2_plans(instrs, shorten, n - 1) + part2_step(instrs[n - 1], shorten)
    }
}

/// What is wrong with a step, if anything: a phase over patterns of
/// different lengths, or over a single note.
pub open spec fn step_error(i: Instruction, shorten: bool) -> Option<BuildError> {
    match i {
        Instruction::Part2Phase { part1, part2, repetitions } => if part1.0@.len() != part2.0@.len() {
            Some(BuildError::MismatchedPatternLengths)
        } else if part1.0@.len() * effective_repetitions(repetitions, shorten) == 1 {
            Some(BuildError::ZeroPhaseDenominator)
        } else {
            None
        },
        _ => None,
    }
}

/// The error of the earliest faulty step among the first `n`.
pub open spec fn first_error(instrs: Seq<Instruction>, shorten: bool, n: int) -> Option<BuildError>
    decreases n,
{
    if n <= 0 {
        None
    } else {
        match first_error(instrs, shorten, n - 1) {
            Some(e) => Some(e),
            None => step_error(instrs[n - 1], shorten),
        }
    }
}

pub open spec fn pattern_wf(p: Pattern) -> bool {
    0 < p.0@.len() <= MAX_PATTERN_LEN
}

/// Every pattern of the step holds notes and every repetition count is at
/// least one.
pub open spec fn instruction_wf(i: Instruction) -> bool {
    match i {
        Instruction::Part1FadeIn { part1, part2, repetitions }
        | Instruction::Part1FadeOut { part1, part2, repetitions }
        | Instruction::Part2FadeIn { part1, part2, repetitions }
        | Instruction::Part2FadeOut { part1, part2, repetitions }
        | Instruction::Repeat { part1, part2, repetitions }
        | Instruction::Part2Phase { part1, part2, repetitions } => pattern_wf(part1) && pattern_wf(part2)
            && repetitions >= 1,
        Instruction::Part1Alone { pattern, repetitions }
        | Instruction::Part2Alone { pattern, repetitions } => pattern_wf(pattern) && repetitions >= 1,
        Instruction::Part2CatchUp { part2 } => pattern_wf(part2),
    }
}

pub open spec fn instructions_wf(instrs: Seq<Instruction>) -> bool {
    forall|i: int| 0 <= i < instrs.len() ==> #[trigger] instruction_wf(instrs[i])
}

pub proof fn lemma_first_error_none(instrs: Seq<Instruction>, shorten: bool, n: int, i: int)
    requires
        first_error(instrs, shorten, n) is None,
        0 <= i < n,
    ensures
        step_error(instrs[i], shorten) is None,
    decreases n,
{
    if i < n - 1 {
        lemma_first_error_none(instrs, shorten, n - 1, i);
    }
}

pub proof fn lemma_first_error_grows(instrs: Seq<Instruction>, shorten: bool, n: int, m: int)
    requires
        0 <= n <= m,
        first_error(instrs, shorten, n) is Some,
    ensures
        first_error(instrs, shorten, m) == first_error(instrs, shorten, n),
    decreases m - n,
{
    if n < m {
        lemma_first_error_grows(instrs, shorten, n, m - 1);
    }
}

impl Pattern {
    /// A copy of the pattern.
    pub fn duplicate(&self) -> (r: Pattern)
        ensures
            r.0@ == self.0@,
    {
        let v = self.0.clone();
        assert(v@ =~= self.0@);
        Pattern(v)
    }
}

fn effective(repetitions: u32, shorten: bool) -> (r: u32)
    ensures
        r == effective_repetitions(repetitions, shorten),
{
    if shorten {
        1
    } else {
        repetitions
    }
}

/// Checks one step for the faults that `step_error` names.
pub fn check_instruction(i: &Instruction, shorten: bool) -> (r: Result<(), BuildError>)
    requires
        instruction_wf(*i),
    ensures
        r matches Err(e) ==> step_error(*i, shorten) == Some(e),
        r is Ok ==> step_error(*i, shorten) is None,
{
    match i {
        Instruction::Part2Phase { part1, part2, repetitions } => {
            if part1.0.len() != part2.0.len() {
                Err(BuildError::MismatchedPatternLengths)
            } else {
                let reps = effective(*repetitions, shorten);
                if part1.0.len() == 1 && reps == 1 {
                    Err(BuildError::ZeroPhaseDenominator)
                } else {
                    proof {
                        let l = part1.0@.len() as int;
                        let e = reps as int;
                        assert(l * e != 1) by (nonlinear_arith)
                            requires
                                l >= 1,
                                e >= 1,
                                !(l == 1 && e == 1),
                        ;
                    }
                    Ok(())
                }
            }
        },
        _ => Ok(()),
    }
}

/// The segment that a step adds, if any, fits after those of `p`.
pub open spec fn step_fits(p: Seq<SegmentPlan>, step: Seq<SegmentPlan>) -> bool {
    step.len() == 1 ==> segment_fits(step[0], start_of(p, p.len() as int))
}

/// Plans that agree on their first `i` segments place segment `i` alike.
pub proof fn lemma_start_of_agree(a: Seq<SegmentPlan>, b: Seq<SegmentPlan>, i: int)
    requires
        0 <= i <= a.len(),
        i <= b.len(),
        forall|j: int| 0 <= j < i ==> a[j] == b[j],
    ensures
        start_of(a, i) == start_of(b, i),
    decreases i,
{
    if i > 0 {
        lemma_start_of_agree(a, b, i - 1);
    }
}

/// The first part's plans after `k` steps begin those after `n >= k` steps.
pub proof fn lemma_plans_prefix1(instrs: Seq<Instruction>, shorten: bool, k: int, n: int)
    requires
        0 <= k <= n,
    ensures
        part1_plans(instrs, shorten, k).len() <= part1_plans(instrs, shorten, n).len(),
        forall|i: int|
            0 <= i < part1_plans(instrs, shorten, k).len() ==> #[trigger] part1_plans(instrs, shorten, n)[i]
                == part1_plans(instrs, shorten, k)[i],
    decreases n - k,
{
    if k < n {
        lemma_plans_prefix1(instrs, shorten, k, n - 1);
        let a = part1_plans(instrs, shorten, n - 1);
        assert forall|i: int| 0 <= i < part1_plans(instrs, shorten, k).len() implies #[trigger] part1_plans(
            instrs,
            shorten,
            n,
        )[i] == part1_plans(instrs, shorten, k)[i] by {
            assert(part1_plans(instrs, shorten, n)[i] == a[i]);
        }
    }
}

/// The second part's plans after `k` steps begin those after `n >= k` steps.
pub proof fn lemma_plans_prefix2(instrs: Seq<Instruction>, shorten: bool, k: int, n: int)
    requires
        0 <= k <= n,
    ensures
        part2_plans(instrs, shorten, k).len() <= part2_plans(instrs, shorten, n).len(),
        forall|i: int|
            0 <= i < part2_plans(instrs, shorten, k).len() ==> #[trigger] part2_plans(instrs, shorten, n)[i]
                == part2_plans(instrs, shorten, k)[i],
    decreases n - k,
{
    if k < n {
        lemma_plans_prefix2(instrs, shorten, k, n - 1);
        let a = part2_plans(instrs, shorten, n - 1);
        assert forall|i: int| 0 <= i < part2_plans(instrs, shorten, k).len() implies #[trigger] part2_plans(
            instrs,
            shorten,
            n,
        )[i] == part2_plans(instrs, shorten, k)[i] by {
            assert(part2_plans(instrs, shorten, n)[i] == a[i]);
        }
    }
}

/// Where all segments fit, so does one placed after agreeing plans.
proof fn lemma_fit_after(pk: Seq<SegmentPlan>, st: Seq<SegmentPlan>, pn: Seq<SegmentPlan>)
    requires
        plans_fit(pn),
        st.len() <= 1,
        (pk + st).len() <= pn.len(),
        forall|i: int| 0 <= i < (pk + st).len() ==> pn[i] == (pk + st)[i],
    ensures
        step_fits(pk, st),
{
    if st.len() == 1 {
        let idx = pk.len() as int;
        assert(pn[idx] == (pk + st)[idx]);
        assert(pn[idx] == st[0]);
        assert forall|j: int| 0 <= j < idx implies pn[j] == pk[j] by {
            assert(pn[j] == (pk + st)[j]);
        }
        lemma_start_of_agree(pn, pk, idx);
        assert(segment_fits(pn[idx], start_of(pn, idx)));
    }
}

/// Adds one base-speed segment to each part.
fn add_both(
    b1: &mut PartBuilder,
    b2: &mut PartBuilder,
    part1: &Pattern,
    dynamic1: Dynamic,
    part2: &Pattern,
    dynamic2: Dynamic,
    repetitions: u32,
    Ghost(p1): Ghost<Seq<SegmentPlan>>,
    Ghost(p2): Ghost<Seq<SegmentPlan>>,
) -> (r: Result<(), BuildError>)
    requires
        old(b1).wf(),
        old(b1).holds(p1),
        old(b2).wf(),
        old(b2).holds(p2),
        pattern_wf(*part1),
        pattern_wf(*part2),
        repetitions >= 1,
    ensures
        r is Ok ==> final(b1).wf() && final(b1).holds(p1 + seq![base_plan(*part1, repetitions as nat, dynamic1)])
            && final(b2).wf() && final(b2).holds(p2 + seq![base_plan(*part2, repetitions as nat, dynamic2)]),
        r matches Err(e) ==> e == BuildError::Overflow,
        segment_fits(base_plan(*part1, repetitions as nat, dynamic1), start_of(p1, p1.len() as int))
            && segment_fits(base_plan(*part2, repetitions as nat, dynamic2), start_of(p2, p2.len() as int))
            ==> r is Ok,
{
    let one = Rational::one();
    assert(is_ratio(one, 1, 1));
    let r1 = b1.add_segment(part1.duplicate(), one, repetitions, dynamic1, Ghost(p1), Ghost((1int, 1int)));
    if r1.is_err() {
        return Err(BuildError::Overflow);
    }
    let r2 = b2.add_segment(part2.duplicate(), one, repetitions, dynamic2, Ghost(p2), Ghost((1int, 1int)));
    if r2.is_err() {
        return Err(BuildError::Overflow);
    }
    assert(p1 + seq![base_plan(*part1, repetitions as nat, dynamic1)] =~= p1.push(
        base_plan(*part1, repetitions as nat, dynamic1),
    ));
    assert(p2 + seq![base_plan(*part2, repetitions as nat, dynamic2)] =~= p2.push(
        base_plan(*part2, repetitions as nat, dynamic2),
    ));
    Ok(())
}

/// Applies one step to both parts.
fn apply_instruction(
    b1: &mut PartBuilder,
    b2: &mut PartBuilder,
    i: &Instruction,
    shorten: bool,
    Ghost(p1): Ghost<Seq<SegmentPlan>>,
    Ghost(p2): Ghost<Seq<SegmentPlan>>,
) -> (r: Result<(), BuildError>)
    requires
        old(b1).wf(),
        old(b1).holds(p1),
        old(b2).wf(),
        old(b2).holds(p2),
        instruction_wf(*i),
        step_error(*i, shorten) is None,
    ensures
        r is Ok ==> final(b1).wf() && final(b1).holds(p1 + part1_step(*i, shorten)) && final(b2).wf()
            && final(b2).holds(p2 + part2_step(*i, shorten)),
        r matches Err(e) ==> e == BuildError::Overflow,
        step_fits(p1, part1_step(*i, shorten)) && step_fits(p2, part2_step(*i, shorten)) ==> r is Ok,
{
    match i {
        Instruction::Part1FadeIn { part1, part2, repetitions } => {
            let reps = effective(*repetitions, shorten);
            add_both(b1, b2, part1, Dynamic::Crescendo, part2, Dynamic::Flat, reps, Ghost(p1), Ghost(p2))
        },
        Instruction::Part1FadeOut { part1, part2, repetitions } => {
            let reps = effective(*repetitions, shorten);
            add_both(b1, b2, part1, Dynamic::Decrescendo, part2, Dynamic::Flat, reps, Ghost(p1), Ghost(p2))
        },
        Instruction::Part2FadeIn { part1, part2, repetitions } => {
            let reps = effective(*repetitions, shorten);
            add_both(b1, b2, part1, Dynamic::Flat, part2, Dynamic::Crescendo, reps, Ghost(p1), Ghost(p2))
        },
        Instruction::Part2FadeOut { part1, part2, repetitions } => {
            let reps = effective(*repetitions, shorten);
            add_both(b1, b2, part1, Dynamic::Flat, part2, Dynamic::Decrescendo, reps, Ghost(p1), Ghost(p2))
        },
        Instruction::Part1Alone { pattern, repetitions } => {
            let reps = effective(*repetitions, shorten);
            add_both(b1, b2, pattern, Dynamic::Flat, pattern, Dynamic::Silent, reps, Ghost(p1), Ghost(p2))
        },
        Instruction::Part2Alone { pattern, repetitions } => {
            let reps = effective(*repetitions, shorten);
            add_both(b1, b2, pattern, Dynamic::Silent, pattern, Dynamic::Flat, reps, Ghost(p1), Ghost(p2))
        },
        Instruction::Repeat { part1, part2, repetitions } => {
            let reps = effective(*repetitions, shorten);
            add_both(b1, b2, part1, Dynamic::Flat, part2, Dynamic::Flat, reps, Ghost(p1), Ghost(p2))
        },
        Instruction::Part2Phase { part1, part2, repetitions } => {
            let reps = effective(*repetitions, shorten);
            let len = part1.0.len();
            assert((len as int) * (reps as int) < i64::MAX) by (nonlinear_arith)
                requires
                    len <= 0x7fff_ffff,
                    reps <= 0xffff_ffff,
            ;
            assert((len as int) * (reps as int) >= 2) by (nonlinear_arith)
                requires
                    len >= 1,
                    reps >= 1,
                    (len as int) * (reps as int) != 1,
            ;
            let n: i64 = (len as i64) * (reps as i64);
            let speed = match Rational::new(n, n - 1) {
                Some(s) => s,
                None => return Err(BuildError::Overflow),
            };
            let one = Rational::one();
            assert(is_ratio(one, 1, 1));
            let r1 = b1.add_segment(part1.duplicate(), one, reps, Dynamic::Flat, Ghost(p1), Ghost((1int, 1int)));
            if r1.is_err() {
                return Err(BuildError::Overflow);
            }
            let ghost plan2 = SegmentPlan {
                pattern: part2.0@,
                speed: phase_speed(n as int),
                repetitions: reps as nat,
                dynamic: Dynamic::Flat,
            };
            let r2 = b2.add_segment(
                part2.duplicate(),
                speed,
                reps,
                Dynamic::Flat,
                Ghost(p2),
                Ghost(phase_speed(n as int)),
            );
            if r2.is_err() {
                return Err(BuildError::Overflow);
            }
            assert(p1 + part1_step(*i, shorten) =~= p1.push(base_plan(*part1, reps as nat, Dynamic::Flat)));
            assert(p2 + part2_step(*i, shorten) =~= p2.push(plan2));
            Ok(())
        },
        Instruction::Part2CatchUp { part2 } => {
            let one = Rational::one();
            assert(is_ratio(one, 1, 1));
            let r2 = b2.add_segment(part2.duplicate(), one, 1, Dynamic::Flat, Ghost(p2), Ghost((1int, 1int)));
            if r2.is_err() {
                return Err(BuildError::Overflow);
            }
            assert(p1 + part1_step(*i, shorten) =~= p1);
            assert(p2 + part2_step(*i, shorten) =~= p2.push(base_plan(*part2, 1, Dynamic::Flat)));
            Ok(())
        },
    }
}

/// Where all segments fit, so does the one that step `k` adds.
proof fn lemma_step_fits(instrs: Seq<Instruction>, shorten: bool, k: int, n: int, first: bool)
    requires
        0 <= k < n,
        first ==> plans_fit(part1_plans(instrs, shorten, n)),
        !first ==> plans_fit(part2_plans(instrs, shorten, n)),
    ensures
        first ==> step_fits(part1_plans(instrs, shorten, k), part1_step(instrs[k], shorten)),
        !first ==> step_fits(part2_plans(instrs, shorten, k), part2_step(instrs[k], shorten)),
{
    if first {
        lemma_plans_prefix1(instrs, shorten, k + 1, n);
        let pk1 = part1_plans(instrs, shorten, k + 1);
        let pn = part1_plans(instrs, shorten, n);
        assert forall|i: int| 0 <= i < pk1.len() implies pn[i] == pk1[i] by {
            assert(pn[i] == pk1[i]);
        }
        lemma_fit_after(part1_plans(instrs, shorten, k), part1_step(instrs[k], shorten), pn);
    } else {
        lemma_plans_prefix2(instrs, shorten, k + 1, n);
        let pk1 = part2_plans(instrs, shorten, k + 1);
        let pn = part2_plans(instrs, shorten, n);
        assert forall|i: int| 0 <= i < pk1.len() implies pn[i] == pk1[i] by {
            assert(pn[i] == pk1[i]);
        }
        lemma_fit_after(part2_plans(instrs, shorten, k), part2_step(instrs[k], shorten), pn);
    }
}

/// Expands a sequence of steps into the two parts, each step adding its
/// segments after those of the steps before it. With `shorten`, every
/// repetition count is taken as one. Fails with the fault of the earliest
/// faulty step before any note is placed, and with `Overflow` where a time
/// does not fit the fraction type.
pub fn build_parts(instrs: &Vec<Instruction>, shorten: bool) -> (r: Result<(Part, Part), BuildError>)
    requires
        instructions_wf(instrs@),
    ensures
        first_error(instrs@, shorten, instrs@.len() as int) matches Some(e) ==> r == Err::<
            (Part, Part),
            BuildError,
        >(e),
        first_error(instrs@, shorten, instrs@.len() as int) is None ==> (r is Ok || r == Err::<
            (Part, Part),
            BuildError,
        >(BuildError::Overflow)),
        first_error(instrs@, shorten, instrs@.len() as int) is None && plans_fit(
            part1_plans(instrs@, shorten, instrs@.len() as int),
        ) && plans_fit(part2_plans(instrs@, shorten, instrs@.len() as int)) ==> r is Ok,
        r matches Ok((a, b)) ==> {
            &&& a.wf()
            &&& b.wf()
            &&& plans_wf(part1_plans(instrs@, shorten, instrs@.len() as int))
            &&& plans_wf(part2_plans(instrs@, shorten, instrs@.len() as int))
            &&& built_from(a.segments@, a.flattened@, part1_plans(instrs@, shorten, instrs@.len() as int))
            &&& built_from(b.segments@, b.flattened@, part2_plans(instrs@, shorten, instrs@.len() as int))
        },
{
    let n = instrs.len();
    let mut k: usize = 0;
    while k < n
        invariant
            n == instrs@.len(),
            k <= n,
            instructions_wf(instrs@),
            first_error(instrs@, shorten, k as int) is None,
        decreases n - k,
    {
        assert(instruction_wf(instrs@[k as int]));
        match check_instruction(&instrs[k], shorten) {
            Err(e) => {
                proof {
                    lemma_first_error_grows(instrs@, shorten, k + 1, n as int);
                }
                return Err(e);
            },
            Ok(()) => {},
        }
        k = k + 1;
    }
    let ghost all_fit = plans_fit(part1_plans(instrs@, shorten, n as int)) && plans_fit(
        part2_plans(instrs@, shorten, n as int),
    );
    let mut b1 = PartBuilder::new();
    let mut b2 = PartBuilder::new();
    let mut k: usize = 0;
    proof {
        assert(part1_plans(instrs@, shorten, 0) =~= Seq::<SegmentPlan>::empty());
        assert(part2_plans(instrs@, shorten, 0) =~= Seq::<SegmentPlan>::empty());
    }
    while k < n
        invariant
            n == instrs@.len(),
            k <= n,
            instructions_wf(instrs@),
            first_error(instrs@, shorten, n as int) is None,
            b1.wf(),
            b2.wf(),
            b1.holds(part1_plans(instrs@, shorten, k as int)),
            b2.holds(part2_plans(instrs@, shorten, k as int)),
            all_fit == (plans_fit(part1_plans(instrs@, shorten, n as int)) && plans_fit(
                part2_plans(instrs@, shorten, n as int),
            )),
        decreases n - k,
    {
        proof {
            lemma_first_error_none(instrs@, shorten, n as int, k as int);
            if all_fit {
                lemma_step_fits(instrs@, shorten, k as int, n as int, true);
                lemma_step_fits(instrs@, shorten, k as int, n as int, false);
            }
        }
        assert(instruction_wf(instrs@[k as int]));
        let r = apply_instruction(
            &mut b1,
            &mut b2,
            &instrs[k],
            shorten,
            Ghost(part1_plans(instrs@, shorten, k as int)),
            Ghost(part2_plans(instrs@, shorten, k as int)),
        );
        if r.is_err() {
            return Err(BuildError::Overflow);
        }
        k = k + 1;
    }
    Ok((b1.into_part(), b2.into_part()))
}

pub fn pat1() -> (r: Pattern)
    ensures
        r.0@ == seq![64u8, 66, 71, 73, 74, 66, 64, 73, 71, 66, 74, 73],
{
    Pattern(vec![64, 66, 71, 73, 74, 66, 64, 73, 71, 66, 74, 73])
}

pub fn pat2_1() -> (r: Pattern)
    ensures
        r.0@ == seq![64u8, 66, 71, 73, 74, 66, 71, 73],
{
    Pattern(vec![64, 66, 71, 73, 74, 66, 71, 73])
}

pub fn pat2_2() -> (r: Pattern)
    ensures
        r.0@ == seq![64u8, 76, 69, 71, 74, 76, 69, 71],
{
    Pattern(vec![64, 76, 69, 71, 74, 76, 69, 71])
}

pub fn pat2_into_3() -> (r: Pattern)
    ensures
        r.0@ == seq![64u8, 76, 69, 71, 74, 76],
{
    Pattern(vec![64, 76, 69, 71, 74, 76])
}

pub fn pat3() -> (r: Pattern)
    ensures
        r.0@ == seq![69u8, 71, 74, 76],
{
    Pattern(vec![69, 71, 74, 76])
}

/// What a step is made of: which kind of step (in the order of the variants
/// of `Instruction`), the contents of its patterns and its repetition count.
pub struct StepView {
    pub kind: int,
    pub part1: Seq<u8>,
    pub part2: Seq<u8>,
    pub repetitions: nat,
}

pub open spec fn view_of(i: Instruction) -> StepView {
    match i {
        Instruction::Part1FadeIn { part1, part2, repetitions } => StepView {
            kind: 0,
            part1: part1.0@,
            part2: part2.0@,
            repetitions: repetitions as nat,
        },
        Instruction::Part1FadeOut { part1, part2, repetitions } => StepView {
            kind: 1,
            part1: part1.0@,
            part2: part2.0@,
            repetitions: repetitions as nat,
        },
        Instruction::Part2FadeIn { part1, part2, repetitions } => StepView {
            kind: 2,
            part1: part1.0@,
            part2: part2.0@,
            repetitions: repetitions as nat,
        },
        Instruction::Part2FadeOut { part1, part2, repetitions } => StepView {
            kind: 3,
            part1: part1.0@,
            part2: part2.0@,
            repetitions: repetitions as nat,
        },
        Instruction::Part1Alone { pattern, repetitions } => StepView {
            kind: 4,
            part1: pattern.0@,
            part2: pattern.0@,
            repetitions: repetitions as nat,
        },
        Instruction::Part2Alone { pattern, repetitions } => StepView {
            kind: 5,
            part1: pattern.0@,
            part2: pattern.0@,
            repetitions: repetitions as nat,
        },
        Instruction::Repeat { part1, part2, repetitions } => StepView {
            kind: 6,
            part1: part1.0@,
            part2: part2.0@,
            repetitions: repetitions as nat,
        },
        Instruction::Part2Phase { part1, part2, repetitions } => StepView {
            kind: 7,
            part1: part1.0@,
            part2: part2.0@,
            repetitions: repetitions as nat,
        },
        Instruction::Part2CatchUp { part2 } => StepView { kind: 8, part1: part2.0@, part2: part2.0@, repetitions: 1 },
    }
}

pub open spec fn views(s: Seq<Instruction>) -> Seq<StepView> {
    s.map_values(|x: Instruction| view_of(x))
}

pub open spec fn step_view(kind: int, part1: Seq<u8>, part2: Seq<u8>, repetitions: nat) -> StepView {
    StepView { kind, part1, part2, repetitions }
}

/// `count` phases over `repetitions`, each followed by a repeat over `held`.
pub open spec fn phase_cycles(count: nat, part1: Seq<u8>, part2: Seq<u8>, repetitions: nat, held: nat) -> Seq<
    StepView,
>
    decreases count,
{
    if count == 0 {
        Seq::empty()
    } else {
        phase_cycles((count - 1) as nat, part1, part2, repetitions, held).push(
            step_view(7, part1, part2, repetitions),
        ).push(step_view(6, part1, part2, held))
    }
}

pub open spec fn pat1_notes() -> Seq<u8> {
    seq![64u8, 66, 71, 73, 74, 66, 64, 73, 71, 66, 74, 73]
}

pub open spec fn pat2_1_notes() -> Seq<u8> {
    seq![64u8, 66, 71, 73, 74, 66, 71, 73]
}

pub open spec fn pat2_2_notes() -> Seq<u8> {
    seq![64u8, 76, 69, 71, 74, 76, 69, 71]
}

pub open spec fn pat2_into_3_notes() -> Seq<u8> {
    seq![64u8, 76, 69, 71, 74, 76]
}

pub open spec fn pat3_notes() -> Seq<u8> {
    seq![69u8, 71, 74, 76]
}

/// The steps of the whole piece, in order.
pub open spec fn piece_views() -> Seq<StepView> {
    let (a, b, c, d, e) = (pat1_notes(), pat2_1_notes(), pat2_2_notes(), pat2_into_3_notes(), pat3_notes());
    let first = (Seq::<StepView>::empty().push(step_view(4, a, a, 8)).push(step_view(2, a, a, 12)) + phase_cycles(
        11,
        a,
        a,
        8,
        18,
    )).push(step_view(7, a, a, 8)).push(step_view(8, a, a, 1)).push(step_view(3, a, a, 8)).push(
        step_view(4, a, a, 6),
    );
    let second = (first.push(step_view(4, b, b, 6)).push(step_view(2, b, c, 16)) + phase_cycles(7, b, c, 12, 16)).push(
        step_view(7, b, c, 12),
    ).push(step_view(8, c, c, 1)).push(step_view(1, b, c, 16)).push(step_view(5, c, c, 8));
    (second.push(step_view(5, d, d, 1)).push(step_view(5, e, e, 16)).push(step_view(0, e, e, 24)) + phase_cycles(
        3,
        e,
        e,
        18,
        48,
    )).push(step_view(7, e, e, 18)).push(step_view(8, e, e, 1)).push(step_view(6, e, e, 48))
}

pub proof fn lemma_phase_cycles_len(count: nat, part1: Seq<u8>, part2: Seq<u8>, repetitions: nat, held: nat)
    ensures
        phase_cycles(count, part1, part2, repetitions, held).len() == 2 * count,
    decreases count,
{
    if count > 0 {
        lemma_phase_cycles_len((count - 1) as nat, part1, part2, repetitions, held);
    }
}

/// The second step of the piece brings the second part in over the first,
/// twelve times.
pub proof fn lemma_piece_second_step()
    ensures
        piece_views().len() > 1,
        piece_views()[0] == step_view(4, pat1_notes(), pat1_notes(), 8),
        piece_views()[1] == step_view(2, pat1_notes(), pat1_notes(), 12),
{
    let a = pat1_notes();
    lemma_phase_cycles_len(11, a, a, 8, 18);
    lemma_phase_cycles_len(7, pat2_1_notes(), pat2_2_notes(), 12, 16);
    lemma_phase_cycles_len(3, pat3_notes(), pat3_notes(), 18, 48);
    let s0 = Seq::<StepView>::empty().push(step_view(4, a, a, 8)).push(step_view(2, a, a, 12));
    assert(s0[1] == step_view(2, a, a, 12));
    assert(s0[0] == step_view(4, a, a, 8));
    let s1 = s0 + phase_cycles(11, a, a, 8, 18);
    assert(s1[1] == s0[1]);
    assert(s1[0] == s0[0]);
    let first = s1.push(step_view(7, a, a, 8)).push(step_view(8, a, a, 1)).push(step_view(3, a, a, 8)).push(
        step_view(4, a, a, 6),
    );
    assert(first[1] == s1[1]);
    assert(first[0] == s1[0]);
    let (b, c, d, e) = (pat2_1_notes(), pat2_2_notes(), pat2_into_3_notes(), pat3_notes());
    let t0 = first.push(step_view(4, b, b, 6)).push(step_view(2, b, c, 16));
    assert(t0[1] == first[1]);
    assert(t0[0] == first[0]);
    let t1 = t0 + phase_cycles(7, b, c, 12, 16);
    assert(t1[1] == t0[1]);
    assert(t1[0] == t0[0]);
    let second = t1.push(step_view(7, b, c, 12)).push(step_view(8, c, c, 1)).push(step_view(1, b, c, 16)).push(
        step_view(5, c, c, 8),
    );
    assert(second[1] == t1[1]);
    assert(second[0] == t1[0]);
    let u0 = second.push(step_view(5, d, d, 1)).push(step_view(5, e, e, 16)).push(step_view(0, e, e, 24));
    assert(u0[1] == second[1]);
    assert(u0[0] == second[0]);
    let u1 = u0 + phase_cycles(3, e, e, 18, 48);
    assert(u1[1] == u0[1]);
    assert(u1[0] == u0[0]);
    let all = u1.push(step_view(7, e, e, 18)).push(step_view(8, e, e, 1)).push(step_view(6, e, e, 48));
    assert(all[1] == u1[1]);
    assert(all[0] == u1[0]);
    assert(all == piece_views());
}

/// Steps that look alike add alike segments and have alike faults.
pub proof fn lemma_view_step(x: Instruction, y: Instruction, shorten: bool)
    requires
        view_of(x) == view_of(y),
    ensures
        part1_step(x, shorten) == part1_step(y, shorten),
        part2_step(x, shorten) == part2_step(y, shorten),
        step_error(x, shorten) == step_error(y, shorten),
        instruction_wf(x) == instruction_wf(y),
{
}

/// Sequences of alike steps give alike plans and faults.
pub proof fn lemma_views_same_plans(a: Seq<Instruction>, b: Seq<Instruction>, shorten: bool, n: int)
    requires
        views(a) == views(b),
        0 <= n <= a.len(),
    ensures
        part1_plans(a, shorten, n) == part1_plans(b, shorten, n),
        part2_plans(a, shorten, n) == part2_plans(b, shorten, n),
        first_error(a, shorten, n) == first_error(b, shorten, n),
    decreases n,
{
    if n > 0 {
        lemma_views_same_plans(a, b, shorten, n - 1);
        assert(a.len() == views(a).len() == views(b).len() == b.len());
        assert(views(a)[n - 1] == view_of(a[n - 1]));
        assert(views(b)[n - 1] == view_of(b[n - 1]));
        lemma_view_step(a[n - 1], b[n - 1], shorten);
    }
}

/// A step that is well formed and faultless whether or not the piece is
/// shortened.
pub open spec fn sound_step(i: Instruction) -> bool {
    instruction_wf(i) && step_error(i, true) is None && step_error(i, false) is None
}

pub proof fn lemma_no_step_error(instrs: Seq<Instruction>, shorten: bool, n: int)
    requires
        0 <= n <= instrs.len(),
        forall|i: int| 0 <= i < instrs.len() ==> #[trigger] sound_step(instrs[i]),
    ensures
        first_error(instrs, shorten, n) is None,
    decreases n,
{
    if n > 0 {
        lemma_no_step_error(instrs, shorten, n - 1);
        assert(sound_step(instrs[n - 1]));
    }
}

fn push_step(v: &mut Vec<Instruction>, i: Instruction)
    requires
        forall|k: int| 0 <= k < old(v)@.len() ==> #[trigger] sound_step(old(v)@[k]),
        sound_step(i),
    ensures
        final(v)@ == old(v)@.push(i),
        views(final(v)@) == views(old(v)@).push(view_of(i)),
        forall|k: int| 0 <= k < final(v)@.len() ==> #[trigger] sound_step(final(v)@[k]),
{
    v.push(i);
    assert(views(v@) =~= views(old(v)@).push(view_of(i)));
    assert forall|k: int| 0 <= k < v@.len() implies #[trigger] sound_step(v@[k]) by {
        if k < v@.len() - 1 {
            assert(v@[k] == old(v)@[k]);
        }
    }
}

/// `count` times a phase over `repetitions` followed by a repeat over
/// `held` repetitions, both over the given patterns.
fn push_phase_cycles(
    v: &mut Vec<Instruction>,
    count: u32,
    part1: &Pattern,
    part2: &Pattern,
    repetitions: u32,
    held: u32,
)
    requires
        forall|k: int| 0 <= k < old(v)@.len() ==> #[trigger] sound_step(old(v)@[k]),
        pattern_wf(*part1),
        pattern_wf(*part2),
        part1.0@.len() == part2.0@.len(),
        part1.0@.len() >= 2,
        repetitions >= 1,
        held >= 1,
    ensures
        forall|k: int| 0 <= k < final(v)@.len() ==> #[trigger] sound_step(final(v)@[k]),
        final(v)@.len() == old(v)@.len() + 2 * count,
        views(final(v)@) == views(old(v)@) + phase_cycles(
            count as nat,
            part1.0@,
            part2.0@,
            repetitions as nat,
            held as nat,
        ),
        forall|k: int| 0 <= k < old(v)@.len() ==> #[trigger] final(v)@[k] == old(v)@[k],
{
    let mut c: u32 = 0;
    let ghost start = v@;
    assert(views(start) + phase_cycles(0, part1.0@, part2.0@, repetitions as nat, held as nat) =~= views(start));
    while c < count
        invariant
            forall|k: int| 0 <= k < v@.len() ==> #[trigger] sound_step(v@[k]),
            c <= count,
            v@.len() == start.len() + 2 * c,
            views(v@) == views(start) + phase_cycles(c as nat, part1.0@, part2.0@, repetitions as nat, held as nat),
            forall|k: int| 0 <= k < start.len() ==> #[trigger] v@[k] == start[k],
            pattern_wf(*part1),
            pattern_wf(*part2),
            part1.0@.len() == part2.0@.len(),
            part1.0@.len() >= 2,
            repetitions >= 1,
            held >= 1,
        decreases count - c,
    {
        let ghost before = v@;
        push_step(v, phase_step(part1, part2, repetitions));
        push_step(v, Instruction::Repeat { part1: part1.duplicate(), part2: part2.duplicate(), repetitions: held });
        assert forall|k: int| 0 <= k < start.len() implies #[trigger] v@[k] == start[k] by {
            assert(v@[k] == before[k]);
        }
        assert(views(v@) =~= views(start) + phase_cycles(
            (c + 1) as nat,
            part1.0@,
            part2.0@,
            repetitions as nat,
            held as nat,
        ));
        c = c + 1;
    }
}

fn phase_step(part1: &Pattern, part2: &Pattern, repetitions: u32) -> (r: Instruction)
    requires
        pattern_wf(*part1),
        pattern_wf(*part2),
        part1.0@.len() == part2.0@.len(),
        part1.0@.len() >= 2,
        repetitions >= 1,
    ensures
        sound_step(r),
        view_of(r) == step_view(7, part1.0@, part2.0@, repetitions as nat),
{
    let r = Instruction::Part2Phase { part1: part1.duplicate(), part2: part2.duplicate(), repetitions };
    proof {
        let l = part1.0@.len() as int;
        assert(l * (repetitions as int) != 1) by (nonlinear_arith)
            requires
                l >= 2,
                repetitions >= 1,
        ;
        assert(l * 1 != 1);
    }
    r
}

/// The steps of the whole piece, in order: three sections, each a pattern
/// that one part brings in, the other joins and slowly phases against, and
/// one part leaves.
pub fn piece_instructions() -> (r: Vec<Instruction>)
    ensures
        instructions_wf(r@),
        forall|shorten: bool| #[trigger] first_error(r@, shorten, r@.len() as int) is None,
        r@.len() == 60,
        views(r@) == piece_views(),
        r@[1] matches Instruction::Part2FadeIn { repetitions, .. } && repetitions == 12,
{
    let mut v: Vec<Instruction> = Vec::new();
    assert(views(v@) =~= Seq::<StepView>::empty());
    let p1 = pat1();
    let p21 = pat2_1();
    let p22 = pat2_2();
    let p23 = pat2_into_3();
    let p3 = pat3();

    push_step(&mut v, Instruction::Part1Alone { pattern: p1.duplicate(), repetitions: 8 });
    push_step(&mut v, Instruction::Part2FadeIn { part1: p1.duplicate(), part2: p1.duplicate(), repetitions: 12 });
    let ghost second = v@[1];
    assert(second matches Instruction::Part2FadeIn { repetitions, .. } && repetitions == 12);
    push_phase_cycles(&mut v, 11, &p1, &p1, 8, 18);
    push_step(&mut v, phase_step(&p1, &p1, 8));
    push_step(&mut v, Instruction::Part2CatchUp { part2: p1.duplicate() });
    push_step(&mut v, Instruction::Part2FadeOut { part1: p1.duplicate(), part2: p1.duplicate(), repetitions: 8 });
    push_step(&mut v, Instruction::Part1Alone { pattern: p1.duplicate(), repetitions: 6 });

    push_step(&mut v, Instruction::Part1Alone { pattern: p21.duplicate(), repetitions: 6 });
    push_step(&mut v, Instruction::Part2FadeIn { part1: p21.duplicate(), part2: p22.duplicate(), repetitions: 16 });
    push_phase_cycles(&mut v, 7, &p21, &p22, 12, 16);
    push_step(&mut v, phase_step(&p21, &p22, 12));
    push_step(&mut v, Instruction::Part2CatchUp { part2: p22.duplicate() });
    push_step(&mut v, Instruction::Part1FadeOut { part1: p21.duplicate(), part2: p22.duplicate(), repetitions: 16 });
    push_step(&mut v, Instruction::Part2Alone { pattern: p22.duplicate(), repetitions: 8 });

    push_step(&mut v, Instruction::Part2Alone { pattern: p23.duplicate(), repetitions: 1 });
    push_step(&mut v, Instruction::Part2Alone { pattern: p3.duplicate(), repetitions: 16 });
    push_step(&mut v, Instruction::Part1FadeIn { part1: p3.duplicate(), part2: p3.duplicate(), repetitions: 24 });
    push_phase_cycles(&mut v, 3, &p3, &p3, 18, 48);
    push_step(&mut v, phase_step(&p3, &p3, 18));
    push_step(&mut v, Instruction::Part2CatchUp { part2: p3.duplicate() });
    push_step(&mut v, Instruction::Repeat { part1: p3.duplicate(), part2: p3.duplicate(), repetitions: 48 });

    proof {
        assert(views(v@) == piece_views());
        assert(v@[1] == second);
        assert forall|shorten: bool| #[trigger] first_error(v@, shorten, v@.len() as int) is None by {
            lemma_no_step_error(v@, shorten, v@.len() as int);
        }
        assert forall|k: int| 0 <= k < v@.len() implies #[trigger] instruction_wf(v@[k]) by {
            assert(sound_step(v@[k]));
        }
    }
    v
}

/// `a` and `b` are exactly the two parts that the piece's steps describe,
/// shortened or not.
pub open spec fn piece_built(shorten: bool, a: Part, b: Part) -> bool {
    exists|instrs: Seq<Instruction>|
        #![trigger views(instrs)]
        {
            &&& views(instrs) == piece_views()
            &&& instructions_wf(instrs)
            &&& plans_wf(part1_plans(instrs, shorten, instrs.len() as int))
            &&& plans_wf(part2_plans(instrs, shorten, instrs.len() as int))
            &&& built_from(a.segments@, a.flattened@, part1_plans(instrs, shorten, instrs.len() as int))
            &&& built_from(b.segments@, b.flattened@, part2_plans(instrs, shorten, instrs.len() as int))
        }
}

/// Every segment of the piece, shortened or not, fits the fraction type.
pub open spec fn piece_fits(shorten: bool) -> bool {
    exists|instrs: Seq<Instruction>|
        #![trigger views(instrs)]
        {
            &&& views(instrs) == piece_views()
            &&& plans_fit(part1_plans(instrs, shorten, instrs.len() as int))
            &&& plans_fit(part2_plans(instrs, shorten, instrs.len() as int))
        }
}

/// Both parts of the whole piece, shortened or not. Every time of the piece
/// is a whole number of 1/288 units (1/24 when shortened), far inside the
/// fraction type, so this always succeeds.
pub fn parts(shorten: bool) -> (r: Result<(Part, Part), BuildError>)
    ensures
        r matches Ok((a, b)) ==> a.wf() && b.wf() && piece_built(shorten, a, b) && a.segments@.len() > 0
            && b.segments@.len() > 0,
        r matches Err(e) ==> e == BuildError::Overflow,
        piece_fits(shorten),
        r is Ok,
{
    let instrs = piece_instructions();
    assert(first_error(instrs@, shorten, instrs@.len() as int) is None);
    proof {
        lemma_piece_plans_fit(instrs@, shorten);
        assert(views(instrs@) == piece_views());
    }
    let r = build_parts(&instrs, shorten);
    proof {
        let n = instrs@.len() as int;
        if piece_fits(shorten) {
            let w = choose|w: Seq<Instruction>|
                #![trigger views(w)]
                {
                    &&& views(w) == piece_views()
                    &&& plans_fit(part1_plans(w, shorten, w.len() as int))
                    &&& plans_fit(part2_plans(w, shorten, w.len() as int))
                };
            assert(w.len() == views(w).len());
            assert(instrs@.len() == views(instrs@).len());
            lemma_views_same_plans(w, instrs@, shorten, n);
        }
        assert(views(instrs@) == piece_views());
        lemma_piece_second_step();
        assert(views(instrs@)[0] == view_of(instrs@[0]));
        lemma_plans_prefix1(instrs@, shorten, 1, n);
        lemma_plans_prefix2(instrs@, shorten, 1, n);
        assert(view_of(instrs@[0]).kind == 4);
        assert(instrs@[0] is Part1Alone);
        assert(part1_step(instrs@[0], shorten).len() == 1);
        assert(part2_step(instrs@[0], shorten).len() == 1);
        assert(part1_plans(instrs@, shorten, 0).len() == 0);
        assert(part2_plans(instrs@, shorten, 0).len() == 0);
        assert(part1_plans(instrs@, shorten, 1).len() == 1);
        assert(part2_plans(instrs@, shorten, 1).len() == 1);
    }
    r
}

/// The finished score: a tempo, in notes per minute, and the two parts.
pub struct PianoPhase {
    pub tempo: u16,
    pub part1: Part,
    pub part2: Part,
}

impl PianoPhase {
    pub open spec fn wf(self) -> bool {
        self.part1.wf() && self.part2.wf()
    }

    /// Builds both parts from `instrs`, shortened or not.
    pub fn from_instructions(tempo: u16, instrs: &Vec<Instruction>, shorten: bool) -> (r: Result<
        PianoPhase,
        BuildError,
    >)
        requires
            instructions_wf(instrs@),
        ensures
            first_error(instrs@, shorten, instrs@.len() as int) matches Some(e) ==> r == Err::<
                PianoPhase,
                BuildError,
            >(e),
            first_error(instrs@, shorten, instrs@.len() as int) is None ==> (r is Ok || r == Err::<
                PianoPhase,
                BuildError,
            >(BuildError::Overflow)),
            first_error(instrs@, shorten, instrs@.len() as int) is None && plans_fit(
                part1_plans(instrs@, shorten, instrs@.len() as int),
            ) && plans_fit(part2_plans(instrs@, shorten, instrs@.len() as int)) ==> r is Ok,
            r matches Ok(p) ==> {
                &&& p.wf()
                &&& p.tempo == tempo
                &&& built_from(
                    p.part1.segments@,
                    p.part1.flattened@,
                    part1_plans(instrs@, shorten, instrs@.len() as int),
                )
                &&& built_from(
                    p.part2.segments@,
                    p.part2.flattened@,
                    part2_plans(instrs@, shorten, instrs@.len() as int),
                )
            },
    {
        match build_parts(instrs, shorten) {
            Ok((part1, part2)) => Ok(PianoPhase { tempo, part1, part2 }),
            Err(e) => Err(e),
        }
    }

    /// Part `n` of the piece, counting from one.
    pub fn part(&self, n: usize) -> (r: Option<&Part>)
        ensures
            n == 1 ==> r == Some(&self.part1),
            n == 2 ==> r == Some(&self.part2),
            n != 1 && n != 2 ==> r is None,
    {
        if n == 1 {
            Some(&self.part1)
        } else if n == 2 {
            Some(&self.part2)
        } else {
            None
        }
    }

    /// The whole piece; it always builds.
    pub fn new(tempo: u16) -> (r: Result<PianoPhase, BuildError>)
        ensures
            r matches Ok(p) ==> p.wf() && p.tempo == tempo && piece_built(false, p.part1, p.part2)
                && p.part1.segments@.len() > 0 && p.part2.segments@.len() > 0,
            r matches Err(e) ==> e == BuildError::Overflow,
            r is Ok,
    {
        match parts(false) {
            Ok((part1, part2)) => Ok(PianoPhase { tempo, part1, part2 }),
            Err(e) => Err(e),
        }
    }

    /// The piece with every repetition count taken as one, for previewing.
    pub fn new_shortened(tempo: u16) -> (r: Result<PianoPhase, BuildError>)
        ensures
            r matches Ok(p) ==> p.wf() && p.tempo == tempo && piece_built(true, p.part1, p.part2)
                && p.part1.segments@.len() > 0 && p.part2.segments@.len() > 0,
            r matches Err(e) ==> e == BuildError::Overflow,
            r is Ok,
    {
        match parts(true) {
            Ok((part1, part2)) => Ok(PianoPhase { tempo, part1, part2 }),
            Err(e) => Err(e),
        }
    }
}

} // verus!
