use crate::builder::{
    cursor_at, lemma_start_of_positive, plan_wf, plans_fit, plans_wf, segment_fits, slots, start_of, SegmentPlan,
};
use crate::rational::{lemma_lowest_of_grid, lowest_small, SMALL};
use crate::score::{
    effective_repetitions, first_error, instruction_wf, lemma_first_error_none, step_error, instructions_wf, lemma_phase_cycles_len, part1_plans, part1_step,
    part2_plans, part2_step, pat1_notes, pat2_1_notes, pat2_2_notes, pat2_into_3_notes, pat3_notes, phase_cycles,
    piece_views, step_view, view_of, views, Instruction, StepView,
};
use vstd::prelude::*;

verus! {

proof fn lemma_grid_identity(pp: int, qq: int, s0: int, s1: int, grid: int, m: int, w: int, n: int)
    requires
        pp * grid == m * qq,
        w * s0 == grid * s1,
    ensures
        (pp * s0 + n * s1 * qq) * grid == (m + n * w) * (qq * s0),
{
    let a = pp * s0;
    let b = n * s1 * qq;
    assert((a + b) * grid == a * grid + b * grid) by (nonlinear_arith);
    assert(a * grid == (pp * grid) * s0) by (nonlinear_arith)
        requires
            a == pp * s0,
    ;
    assert(b * grid == (n * qq) * (s1 * grid)) by (nonlinear_arith)
        requires
            b == n * s1 * qq,
    ;
    assert((m * qq) * s0 + (n * qq) * (w * s0) == (m + n * w) * (qq * s0)) by (nonlinear_arith);
}

/// How many `1 / grid` units the step `1 / speed` of `p` spans.
pub open spec fn grid_step(p: SegmentPlan, grid: int) -> int {
    (grid * p.speed.1) / p.speed.0
}

/// The step of `p` is a whole, positive number of `1 / grid` units.
pub open spec fn on_grid(p: SegmentPlan, grid: int) -> bool {
    grid_step(p, grid) * p.speed.0 == grid * p.speed.1 && grid_step(p, grid) >= 1
}

/// The span of `plans`, counted in `1 / grid` units.
pub open spec fn grid_sum(plans: Seq<SegmentPlan>, grid: int) -> int
    decreases plans.len(),
{
    if plans.len() == 0 {
        0
    } else {
        grid_sum(plans.drop_last(), grid) + slots(plans.last()) * grid_step(plans.last(), grid)
    }
}

proof fn lemma_grid_sum_prefix(plans: Seq<SegmentPlan>, grid: int, i: int)
    requires
        0 <= i < plans.len(),
        plans_wf(plans),
        forall|j: int| 0 <= j < plans.len() ==> #[trigger] on_grid(plans[j], grid),
    ensures
        grid_sum(plans.subrange(0, i + 1), grid) == grid_sum(plans.subrange(0, i), grid) + slots(plans[i])
            * grid_step(plans[i], grid),
        grid_sum(plans.subrange(0, i), grid) >= 0,
        grid_sum(plans.subrange(0, i + 1), grid) <= grid_sum(plans, grid),
    decreases plans.len() - i,
{
    assert(plans.subrange(0, i + 1).drop_last() =~= plans.subrange(0, i));
    lemma_grid_sum_nonneg(plans.subrange(0, i), grid);
    if i + 1 < plans.len() {
        lemma_grid_sum_prefix(plans, grid, i + 1);
        assert(plan_wf(plans[i + 1]) && on_grid(plans[i + 1], grid));
        assert(slots(plans[i + 1]) * grid_step(plans[i + 1], grid) >= 0) by (nonlinear_arith)
            requires
                slots(plans[i + 1]) >= 0,
                grid_step(plans[i + 1], grid) >= 1,
        ;
    } else {
        assert(plans.subrange(0, i + 1) =~= plans);
    }
}

proof fn lemma_grid_sum_nonneg(plans: Seq<SegmentPlan>, grid: int)
    requires
        plans_wf(plans),
        forall|j: int| 0 <= j < plans.len() ==> #[trigger] on_grid(plans[j], grid),
    ensures
        grid_sum(plans, grid) >= 0,
    decreases plans.len(),
{
    if plans.len() > 0 {
        let init = plans.drop_last();
        assert forall|j: int| 0 <= j < init.len() implies #[trigger] on_grid(init[j], grid) by {
            assert(on_grid(plans[j], grid));
        }
        assert forall|j: int| 0 <= j < init.len() implies #[trigger] plan_wf(init[j]) by {
            assert(plan_wf(plans[j]));
        }
        lemma_grid_sum_nonneg(init, grid);
        assert(plan_wf(plans.last()) && on_grid(plans[plans.len() - 1], grid));
        assert(slots(plans.last()) >= 0) by (nonlinear_arith)
            requires
                slots(plans.last()) == plans.last().pattern.len() * plans.last().repetitions,
        ;
        assert(slots(plans.last()) * grid_step(plans.last(), grid) >= 0) by (nonlinear_arith)
            requires
                slots(plans.last()) >= 0,
                grid_step(plans.last(), grid) >= 1,
        ;
    }
}

/// On the grid, segment `i` starts at `grid_sum` of the segments before it.
proof fn lemma_start_on_grid(plans: Seq<SegmentPlan>, grid: int, i: int)
    requires
        0 <= i <= plans.len(),
        plans_wf(plans),
        forall|j: int| 0 <= j < plans.len() ==> #[trigger] on_grid(plans[j], grid),
    ensures
        start_of(plans, i).0 * grid == grid_sum(plans.subrange(0, i), grid) * start_of(plans, i).1,
    decreases i,
{
    if i == 0 {
        assert(plans.subrange(0, 0) =~= Seq::<SegmentPlan>::empty());
        assert(0 * grid == 0 * 1) by (nonlinear_arith);
    } else {
        lemma_start_on_grid(plans, grid, i - 1);
        lemma_grid_sum_prefix(plans, grid, i - 1);
        let p = plans[i - 1];
        assert(on_grid(p, grid));
        let (pp, qq) = start_of(plans, i - 1);
        let m = grid_sum(plans.subrange(0, i - 1), grid);
        let w = grid_step(p, grid);
        let n = slots(p);
        lemma_grid_identity(pp, qq, p.speed.0, p.speed.1, grid, m, w, n);
        assert(start_of(plans, i) == (pp * p.speed.0 + n * p.speed.1 * qq, qq * p.speed.0));
        assert(grid_sum(plans.subrange(0, i), grid) == m + n * w);
    }
}

/// Where every step is a whole number of `1 / grid` units and the whole
/// span stays below `SMALL` units, every segment fits.
pub proof fn lemma_plans_fit_on_grid(plans: Seq<SegmentPlan>, grid: int)
    requires
        plans_wf(plans),
        0 < grid < SMALL,
        forall|j: int| 0 <= j < plans.len() ==> #[trigger] on_grid(plans[j], grid),
        grid_sum(plans, grid) < SMALL,
    ensures
        plans_fit(plans),
{
    assert forall|i: int| 0 <= i < plans.len() implies #[trigger] segment_fits(plans[i], start_of(plans, i)) by {
        let p = plans[i];
        assert(plan_wf(p) && on_grid(p, grid));
        lemma_start_on_grid(plans, grid, i);
        lemma_grid_sum_prefix(plans, grid, i);
        lemma_start_of_positive(plans, i);
        let (pp, qq) = start_of(plans, i);
        let m = grid_sum(plans.subrange(0, i), grid);
        let w = grid_step(p, grid);
        let n = slots(p);
        assert(n >= 1) by (nonlinear_arith)
            requires
                n == p.pattern.len() * p.repetitions,
                p.pattern.len() >= 1,
                p.repetitions >= 1,
        ;
        assert(w <= n * w) by (nonlinear_arith)
            requires
                n >= 1,
                w >= 1,
        ;
        lemma_lowest_of_grid(p.speed.1, p.speed.0, w, grid);
        assert forall|k: int| 0 <= k <= n implies lowest_small(
            #[trigger] cursor_at(p, start_of(plans, i), k).0,
            cursor_at(p, start_of(plans, i), k).1,
        ) by {
            let c = cursor_at(p, start_of(plans, i), k);
            lemma_grid_identity(pp, qq, p.speed.0, p.speed.1, grid, m, w, k);
            assert(c.1 > 0) by (nonlinear_arith)
                requires
                    c.1 == qq * p.speed.0,
                    qq > 0,
                    p.speed.0 > 0,
            ;
            assert(k * w <= n * w) by (nonlinear_arith)
                requires
                    k <= n,
                    w >= 1,
            ;
            assert(m + k * w >= 0) by (nonlinear_arith)
                requires
                    m >= 0,
                    k >= 0,
                    w >= 1,
            ;
            lemma_lowest_of_grid(c.0, c.1, m + k * w, grid);
        }
    }
}

/// The repetition count a step uses.
pub open spec fn eff_reps(v: StepView, shorten: bool) -> int {
    if shorten {
        1
    } else {
        v.repetitions as int
    }
}

/// The note count over which a phase step spreads one extra note.
pub open spec fn phase_n(v: StepView, shorten: bool) -> int {
    v.part1.len() * eff_reps(v, shorten)
}

/// A phase step's speed puts its step on the grid.
pub open spec fn view_on_grid(v: StepView, shorten: bool, grid: int) -> bool {
    v.kind == 7 ==> phase_n(v, shorten) >= 2 && grid % phase_n(v, shorten) == 0
}

/// The span, in grid units, that a step adds to the first part.
pub open spec fn span1(v: StepView, shorten: bool, grid: int) -> int {
    if v.kind == 8 {
        0
    } else {
        v.part1.len() * eff_reps(v, shorten) * grid
    }
}

/// The span, in grid units, that a step adds to the second part.
pub open spec fn span2(v: StepView, shorten: bool, grid: int) -> int {
    if v.kind == 7 {
        v.part2.len() * eff_reps(v, shorten) * ((grid * (phase_n(v, shorten) - 1)) / phase_n(v, shorten))
    } else if v.kind == 8 {
        v.part2.len() * grid
    } else {
        v.part2.len() * eff_reps(v, shorten) * grid
    }
}

/// The spans of both parts over `vs`, and whether every step is on the grid.
pub open spec fn fold_views(vs: Seq<StepView>, shorten: bool, grid: int) -> (int, int, bool)
    decreases vs.len(),
{
    if vs.len() == 0 {
        (0, 0, true)
    } else {
        let f = fold_views(vs.drop_last(), shorten, grid);
        let v = vs.last();
        (f.0 + span1(v, shorten, grid), f.1 + span2(v, shorten, grid), f.2 && view_on_grid(v, shorten, grid))
    }
}

proof fn lemma_unit_speed(p: SegmentPlan, grid: int)
    requires
        p.speed == (1int, 1int),
        grid >= 1,
    ensures
        grid_step(p, grid) == grid,
        on_grid(p, grid),
{
    assert((grid * 1) / 1 == grid);
}

proof fn lemma_phase_speed(p: SegmentPlan, n: int, grid: int)
    requires
        p.speed == (n, n - 1),
        n >= 2,
        grid >= 1,
        grid % n == 0,
    ensures
        on_grid(p, grid),
        grid_step(p, grid) == (grid * (n - 1)) / n,
{
    vstd::arithmetic::div_mod::lemma_fundamental_div_mod(grid, n);
    let t = grid / n;
    assert(grid == n * t);
    assert(t >= 1) by (nonlinear_arith)
        requires
            grid == n * t,
            grid >= 1,
            n >= 2,
    ;
    assert(grid * (n - 1) == n * (t * (n - 1))) by (nonlinear_arith)
        requires
            grid == n * t,
    ;
    vstd::arithmetic::div_mod::lemma_div_multiples_vanish(t * (n - 1), n);
    assert(t * (n - 1) >= 1) by (nonlinear_arith)
        requires
            t >= 1,
            n >= 2,
    ;
    assert((t * (n - 1)) * n == grid * (n - 1)) by (nonlinear_arith)
        requires
            grid * (n - 1) == n * (t * (n - 1)),
    ;
}

/// A step on the grid adds segments on the grid, with the spans `span1` and
/// `span2`.
proof fn lemma_step_on_grid(x: Instruction, shorten: bool, grid: int)
    requires
        grid >= 1,
        instruction_wf(x),
        view_on_grid(view_of(x), shorten, grid),
    ensures
        part1_step(x, shorten).len() <= 1,
        part2_step(x, shorten).len() == 1,
        part1_step(x, shorten).len() == 1 ==> on_grid(part1_step(x, shorten)[0], grid) && slots(
            part1_step(x, shorten)[0],
        ) * grid_step(part1_step(x, shorten)[0], grid) == span1(view_of(x), shorten, grid),
        part1_step(x, shorten).len() == 0 ==> span1(view_of(x), shorten, grid) == 0,
        on_grid(part2_step(x, shorten)[0], grid),
        slots(part2_step(x, shorten)[0]) * grid_step(part2_step(x, shorten)[0], grid) == span2(
            view_of(x),
            shorten,
            grid,
        ),
{
    let v = view_of(x);
    let s1 = part1_step(x, shorten);
    let s2 = part2_step(x, shorten);
    if s1.len() == 1 {
        lemma_unit_speed(s1[0], grid);
        assert(slots(s1[0]) == v.part1.len() * eff_reps(v, shorten));
        assert(slots(s1[0]) * grid == v.part1.len() * eff_reps(v, shorten) * grid) by (nonlinear_arith)
            requires
                slots(s1[0]) == v.part1.len() * eff_reps(v, shorten),
        ;
    }
    if v.kind == 7 {
        let n = phase_n(v, shorten);
        assert(s2[0].speed == (n, n - 1));
        lemma_phase_speed(s2[0], n, grid);
        assert(slots(s2[0]) == v.part2.len() * eff_reps(v, shorten));
        let w = (grid * (n - 1)) / n;
        assert(slots(s2[0]) * w == v.part2.len() * eff_reps(v, shorten) * w) by (nonlinear_arith)
            requires
                slots(s2[0]) == v.part2.len() * eff_reps(v, shorten),
        ;
    } else {
        lemma_unit_speed(s2[0], grid);
        if v.kind == 8 {
            assert(s2[0].repetitions == 1 && s2[0].pattern.len() == v.part2.len());
            assert(slots(s2[0]) == v.part2.len()) by (nonlinear_arith)
                requires
                    slots(s2[0]) == s2[0].pattern.len() * s2[0].repetitions,
                    s2[0].repetitions == 1,
                    s2[0].pattern.len() == v.part2.len(),
            ;
        } else {
            assert(slots(s2[0]) == v.part2.len() * eff_reps(v, shorten));
            assert(slots(s2[0]) * grid == v.part2.len() * eff_reps(v, shorten) * grid) by (nonlinear_arith)
                requires
                    slots(s2[0]) == v.part2.len() * eff_reps(v, shorten),
            ;
        }
    }
}

proof fn lemma_grid_sum_step(p: Seq<SegmentPlan>, st: Seq<SegmentPlan>, grid: int)
    requires
        st.len() <= 1,
    ensures
        grid_sum(p + st, grid) == grid_sum(p, grid) + if st.len() == 0 {
            0
        } else {
            slots(st[0]) * grid_step(st[0], grid)
        },
{
    if st.len() == 0 {
        assert(p + st =~= p);
    } else {
        assert((p + st).drop_last() =~= p);
        assert((p + st).last() == st[0]);
    }
}

/// The plans of the first `n` steps lie on the grid, and their spans are
/// those that `fold_views` counts.
pub proof fn lemma_plans_on_grid(instrs: Seq<Instruction>, shorten: bool, grid: int, n: int)
    requires
        0 <= n <= instrs.len(),
        grid >= 1,
        instructions_wf(instrs),
        fold_views(views(instrs).subrange(0, n), shorten, grid).2,
    ensures
        forall|j: int|
            0 <= j < part1_plans(instrs, shorten, n).len() ==> #[trigger] on_grid(
                part1_plans(instrs, shorten, n)[j],
                grid,
            ),
        forall|j: int|
            0 <= j < part2_plans(instrs, shorten, n).len() ==> #[trigger] on_grid(
                part2_plans(instrs, shorten, n)[j],
                grid,
            ),
        grid_sum(part1_plans(instrs, shorten, n), grid) == fold_views(views(instrs).subrange(0, n), shorten, grid).0,
        grid_sum(part2_plans(instrs, shorten, n), grid) == fold_views(views(instrs).subrange(0, n), shorten, grid).1,
    decreases n,
{
    let vs = views(instrs).subrange(0, n);
    if n == 0 {
        assert(part1_plans(instrs, shorten, 0) =~= Seq::<SegmentPlan>::empty());
        assert(part2_plans(instrs, shorten, 0) =~= Seq::<SegmentPlan>::empty());
    } else {
        assert(vs.drop_last() =~= views(instrs).subrange(0, n - 1));
        assert(vs.last() == view_of(instrs[n - 1]));
        lemma_plans_on_grid(instrs, shorten, grid, n - 1);
        assert(instruction_wf(instrs[n - 1]));
        lemma_step_on_grid(instrs[n - 1], shorten, grid);
        let p1 = part1_plans(instrs, shorten, n - 1);
        let p2 = part2_plans(instrs, shorten, n - 1);
        let s1 = part1_step(instrs[n - 1], shorten);
        let s2 = part2_step(instrs[n - 1], shorten);
        lemma_grid_sum_step(p1, s1, grid);
        lemma_grid_sum_step(p2, s2, grid);
        assert forall|j: int| 0 <= j < (p1 + s1).len() implies #[trigger] on_grid((p1 + s1)[j], grid) by {
            if j < p1.len() {
                assert((p1 + s1)[j] == p1[j]);
            }
        }
        assert forall|j: int| 0 <= j < (p2 + s2).len() implies #[trigger] on_grid((p2 + s2)[j], grid) by {
            if j < p2.len() {
                assert((p2 + s2)[j] == p2[j]);
            }
        }
    }
}

proof fn lemma_fold_push(vs: Seq<StepView>, v: StepView, shorten: bool, grid: int)
    ensures
        fold_views(vs.push(v), shorten, grid) == (
            fold_views(vs, shorten, grid).0 + span1(v, shorten, grid),
            fold_views(vs, shorten, grid).1 + span2(v, shorten, grid),
            fold_views(vs, shorten, grid).2 && view_on_grid(v, shorten, grid),
        ),
{
    assert(vs.push(v).drop_last() =~= vs);
}

proof fn lemma_fold_concat(a: Seq<StepView>, b: Seq<StepView>, shorten: bool, grid: int)
    ensures
        fold_views(a + b, shorten, grid) == (
            fold_views(a, shorten, grid).0 + fold_views(b, shorten, grid).0,
            fold_views(a, shorten, grid).1 + fold_views(b, shorten, grid).1,
            fold_views(a, shorten, grid).2 && fold_views(b, shorten, grid).2,
        ),
    decreases b.len(),
{
    if b.len() == 0 {
        assert(a + b =~= a);
    } else {
        lemma_fold_concat(a, b.drop_last(), shorten, grid);
        assert((a + b).drop_last() =~= a + b.drop_last());
        assert((a + b).last() == b.last());
    }
}

proof fn lemma_fold_cycles(
    count: nat,
    part1: Seq<u8>,
    part2: Seq<u8>,
    repetitions: nat,
    held: nat,
    shorten: bool,
    grid: int,
)
    ensures
        ({
            let f = fold_views(phase_cycles(count, part1, part2, repetitions, held), shorten, grid);
            let vp = step_view(7, part1, part2, repetitions);
            let vr = step_view(6, part1, part2, held);
            &&& f.0 == count * (span1(vp, shorten, grid) + span1(vr, shorten, grid))
            &&& f.1 == count * (span2(vp, shorten, grid) + span2(vr, shorten, grid))
            &&& f.2 == (count == 0 || (view_on_grid(vp, shorten, grid) && view_on_grid(vr, shorten, grid)))
        }),
    decreases count,
{
    let vp = step_view(7, part1, part2, repetitions);
    let vr = step_view(6, part1, part2, held);
    if count > 0 {
        let c = (count - 1) as nat;
        lemma_fold_cycles(c, part1, part2, repetitions, held, shorten, grid);
        let prev = phase_cycles(c, part1, part2, repetitions, held);
        lemma_fold_push(prev, vp, shorten, grid);
        lemma_fold_push(prev.push(vp), vr, shorten, grid);
        let (a1, a2) = (span1(vp, shorten, grid) + span1(vr, shorten, grid), span2(vp, shorten, grid) + span2(vr, shorten, grid));
        assert(c * a1 + a1 == count * a1 && c * a2 + a2 == count * a2) by (nonlinear_arith)
            requires
                count == c + 1,
        ;
    }
}

/// The grid of the piece: every time in it is a whole number of
/// `1 / piece_grid` units.
pub open spec fn piece_grid(shorten: bool) -> int {
    if shorten {
        24
    } else {
        288
    }
}

/// Every step of the piece is on its grid, and each part spans fewer than
/// `SMALL` grid units.
pub proof fn lemma_piece_fold(shorten: bool)
    ensures
        fold_views(piece_views(), shorten, piece_grid(shorten)).2,
        fold_views(piece_views(), shorten, piece_grid(shorten)).0 < SMALL,
        fold_views(piece_views(), shorten, piece_grid(shorten)).1 < SMALL,
{
    if shorten {
        lemma_shortened_piece_fold();
    } else {
        lemma_full_piece_fold();
    }
}

#[verifier::rlimit(60)]
proof fn lemma_shortened_piece_fold()
    ensures
        fold_views(piece_views(), true, piece_grid(true)).2,
        fold_views(piece_views(), true, piece_grid(true)).0 < SMALL,
        fold_views(piece_views(), true, piece_grid(true)).1 < SMALL,
{
    let gr = piece_grid(true);
    let (a, b, c, d, e) = (pat1_notes(), pat2_1_notes(), pat2_2_notes(), pat2_into_3_notes(), pat3_notes());
    assert(a.len() == 12 && b.len() == 8 && c.len() == 8 && d.len() == 6 && e.len() == 4);
    let e0 = Seq::<StepView>::empty();
    assert(fold_views(e0, true, gr) == (0int, 0int, true));
    let s0a = e0.push(step_view(4, a, a, 8));
    lemma_fold_push(e0, step_view(4, a, a, 8), true, gr);
    let s0 = s0a.push(step_view(2, a, a, 12));
    lemma_fold_push(s0a, step_view(2, a, a, 12), true, gr);
    let cy1 = phase_cycles(11, a, a, 8, 18);
    lemma_fold_cycles(11, a, a, 8, 18, true, gr);
    let s1 = s0 + cy1;
    lemma_fold_concat(s0, cy1, true, gr);
    let f1 = s1.push(step_view(7, a, a, 8));
    lemma_fold_push(s1, step_view(7, a, a, 8), true, gr);
    let f2 = f1.push(step_view(8, a, a, 1));
    lemma_fold_push(f1, step_view(8, a, a, 1), true, gr);
    let f3 = f2.push(step_view(3, a, a, 8));
    lemma_fold_push(f2, step_view(3, a, a, 8), true, gr);
    let first = f3.push(step_view(4, a, a, 6));
    lemma_fold_push(f3, step_view(4, a, a, 6), true, gr);
    let t0a = first.push(step_view(4, b, b, 6));
    lemma_fold_push(first, step_view(4, b, b, 6), true, gr);
    let t0 = t0a.push(step_view(2, b, c, 16));
    lemma_fold_push(t0a, step_view(2, b, c, 16), true, gr);
    let cy2 = phase_cycles(7, b, c, 12, 16);
    lemma_fold_cycles(7, b, c, 12, 16, true, gr);
    let t1 = t0 + cy2;
    lemma_fold_concat(t0, cy2, true, gr);
    let g1 = t1.push(step_view(7, b, c, 12));
    lemma_fold_push(t1, step_view(7, b, c, 12), true, gr);
    let g2 = g1.push(step_view(8, c, c, 1));
    lemma_fold_push(g1, step_view(8, c, c, 1), true, gr);
    let g3 = g2.push(step_view(1, b, c, 16));
    lemma_fold_push(g2, step_view(1, b, c, 16), true, gr);
    let second = g3.push(step_view(5, c, c, 8));
    lemma_fold_push(g3, step_view(5, c, c, 8), true, gr);
    let u0a = second.push(step_view(5, d, d, 1));
    lemma_fold_push(second, step_view(5, d, d, 1), true, gr);
    let u0b = u0a.push(step_view(5, e, e, 16));
    lemma_fold_push(u0a, step_view(5, e, e, 16), true, gr);
    let u0 = u0b.push(step_view(0, e, e, 24));
    lemma_fold_push(u0b, step_view(0, e, e, 24), true, gr);
    let cy3 = phase_cycles(3, e, e, 18, 48);
    lemma_fold_cycles(3, e, e, 18, 48, true, gr);
    let u1 = u0 + cy3;
    lemma_fold_concat(u0, cy3, true, gr);
    let h1 = u1.push(step_view(7, e, e, 18));
    lemma_fold_push(u1, step_view(7, e, e, 18), true, gr);
    let h2 = h1.push(step_view(8, e, e, 1));
    lemma_fold_push(h1, step_view(8, e, e, 1), true, gr);
    let all = h2.push(step_view(6, e, e, 48));
    lemma_fold_push(h2, step_view(6, e, e, 48), true, gr);
    assert(phase_n(step_view(7, a, a, 8), true) == 12);
    vstd::arithmetic::div_mod::lemma_fundamental_div_mod_converse(264, 12, 22, 0);
    assert((24 * (12 - 1)) / 12 == 22);
    assert(span2(step_view(7, a, a, 8), true, gr) == a.len() * eff_reps(step_view(7, a, a, 8), true) * 22);
    assert(phase_n(step_view(7, b, c, 12), true) == 8);
    vstd::arithmetic::div_mod::lemma_fundamental_div_mod_converse(168, 8, 21, 0);
    assert((24 * (8 - 1)) / 8 == 21);
    assert(span2(step_view(7, b, c, 12), true, gr) == c.len() * eff_reps(step_view(7, b, c, 12), true) * 21);
    assert(phase_n(step_view(7, e, e, 18), true) == 4);
    vstd::arithmetic::div_mod::lemma_fundamental_div_mod_converse(72, 4, 18, 0);
    assert((24 * (4 - 1)) / 4 == 18);
    assert(span2(step_view(7, e, e, 18), true, gr) == e.len() * eff_reps(step_view(7, e, e, 18), true) * 18);
    assert(all == piece_views());
}

#[verifier::rlimit(60)]
proof fn lemma_full_piece_fold()
    ensures
        fold_views(piece_views(), false, piece_grid(false)).2,
        fold_views(piece_views(), false, piece_grid(false)).0 < SMALL,
        fold_views(piece_views(), false, piece_grid(false)).1 < SMALL,
{
    let gr = piece_grid(false);
    let (a, b, c, d, e) = (pat1_notes(), pat2_1_notes(), pat2_2_notes(), pat2_into_3_notes(), pat3_notes());
    assert(a.len() == 12 && b.len() == 8 && c.len() == 8 && d.len() == 6 && e.len() == 4);
    let e0 = Seq::<StepView>::empty();
    assert(fold_views(e0, false, gr) == (0int, 0int, true));
    let s0a = e0.push(step_view(4, a, a, 8));
    lemma_fold_push(e0, step_view(4, a, a, 8), false, gr);
    let s0 = s0a.push(step_view(2, a, a, 12));
    lemma_fold_push(s0a, step_view(2, a, a, 12), false, gr);
    let cy1 = phase_cycles(11, a, a, 8, 18);
    lemma_fold_cycles(11, a, a, 8, 18, false, gr);
    let s1 = s0 + cy1;
    lemma_fold_concat(s0, cy1, false, gr);
    let f1 = s1.push(step_view(7, a, a, 8));
    lemma_fold_push(s1, step_view(7, a, a, 8), false, gr);
    let f2 = f1.push(step_view(8, a, a, 1));
    lemma_fold_push(f1, step_view(8, a, a, 1), false, gr);
    let f3 = f2.push(step_view(3, a, a, 8));
    lemma_fold_push(f2, step_view(3, a, a, 8), false, gr);
    let first = f3.push(step_view(4, a, a, 6));
    lemma_fold_push(f3, step_view(4, a, a, 6), false, gr);
    let t0a = first.push(step_view(4, b, b, 6));
    lemma_fold_push(first, step_view(4, b, b, 6), false, gr);
    let t0 = t0a.push(step_view(2, b, c, 16));
    lemma_fold_push(t0a, step_view(2, b, c, 16), false, gr);
    let cy2 = phase_cycles(7, b, c, 12, 16);
    lemma_fold_cycles(7, b, c, 12, 16, false, gr);
    let t1 = t0 + cy2;
    lemma_fold_concat(t0, cy2, false, gr);
    let g1 = t1.push(step_view(7, b, c, 12));
    lemma_fold_push(t1, step_view(7, b, c, 12), false, gr);
    let g2 = g1.push(step_view(8, c, c, 1));
    lemma_fold_push(g1, step_view(8, c, c, 1), false, gr);
    let g3 = g2.push(step_view(1, b, c, 16));
    lemma_fold_push(g2, step_view(1, b, c, 16), false, gr);
    let second = g3.push(step_view(5, c, c, 8));
    lemma_fold_push(g3, step_view(5, c, c, 8), false, gr);
    let u0a = second.push(step_view(5, d, d, 1));
    lemma_fold_push(second, step_view(5, d, d, 1), false, gr);
    let u0b = u0a.push(step_view(5, e, e, 16));
    lemma_fold_push(u0a, step_view(5, e, e, 16), false, gr);
    let u0 = u0b.push(step_view(0, e, e, 24));
    lemma_fold_push(u0b, step_view(0, e, e, 24), false, gr);
    let cy3 = phase_cycles(3, e, e, 18, 48);
    lemma_fold_cycles(3, e, e, 18, 48, false, gr);
    let u1 = u0 + cy3;
    lemma_fold_concat(u0, cy3, false, gr);
    let h1 = u1.push(step_view(7, e, e, 18));
    lemma_fold_push(u1, step_view(7, e, e, 18), false, gr);
    let h2 = h1.push(step_view(8, e, e, 1));
    lemma_fold_push(h1, step_view(8, e, e, 1), false, gr);
    let all = h2.push(step_view(6, e, e, 48));
    lemma_fold_push(h2, step_view(6, e, e, 48), false, gr);
    assert(phase_n(step_view(7, a, a, 8), false) == 96);
    vstd::arithmetic::div_mod::lemma_fundamental_div_mod_converse(27360, 96, 285, 0);
    assert((288 * (96 - 1)) / 96 == 285);
    assert(span2(step_view(7, a, a, 8), false, gr) == a.len() * eff_reps(step_view(7, a, a, 8), false) * 285);
    assert(phase_n(step_view(7, b, c, 12), false) == 96);
    vstd::arithmetic::div_mod::lemma_fundamental_div_mod_converse(27360, 96, 285, 0);
    assert((288 * (96 - 1)) / 96 == 285);
    assert(span2(step_view(7, b, c, 12), false, gr) == c.len() * eff_reps(step_view(7, b, c, 12), false) * 285);
    assert(phase_n(step_view(7, e, e, 18), false) == 72);
    vstd::arithmetic::div_mod::lemma_fundamental_div_mod_converse(20448, 72, 284, 0);
    assert((288 * (72 - 1)) / 72 == 284);
    assert(span2(step_view(7, e, e, 18), false, gr) == e.len() * eff_reps(step_view(7, e, e, 18), false) * 284);
    assert(span1(step_view(0, e, e, 24), false, gr) == 27648) by (nonlinear_arith)
        requires
            span1(step_view(0, e, e, 24), false, gr) == e.len() * eff_reps(step_view(0, e, e, 24), false) * gr,
            e.len() == 4,
            eff_reps(step_view(0, e, e, 24), false) == 24,
            gr == 288,
    ;
    assert(span2(step_view(0, e, e, 24), false, gr) == 27648) by (nonlinear_arith)
        requires
            span2(step_view(0, e, e, 24), false, gr) == e.len() * eff_reps(step_view(0, e, e, 24), false) * gr,
            e.len() == 4,
            eff_reps(step_view(0, e, e, 24), false) == 24,
            gr == 288,
    ;
    assert(span1(step_view(1, b, c, 16), false, gr) == 36864) by (nonlinear_arith)
        requires
            span1(step_view(1, b, c, 16), false, gr) == b.len() * eff_reps(step_view(1, b, c, 16), false) * gr,
            b.len() == 8,
            eff_reps(step_view(1, b, c, 16), false) == 16,
            gr == 288,
    ;
    assert(span2(step_view(1, b, c, 16), false, gr) == 36864) by (nonlinear_arith)
        requires
            span2(step_view(1, b, c, 16), false, gr) == c.len() * eff_reps(step_view(1, b, c, 16), false) * gr,
            c.len() == 8,
            eff_reps(step_view(1, b, c, 16), false) == 16,
            gr == 288,
    ;
    assert(span1(step_view(2, a, a, 12), false, gr) == 41472) by (nonlinear_arith)
        requires
            span1(step_view(2, a, a, 12), false, gr) == a.len() * eff_reps(step_view(2, a, a, 12), false) * gr,
            a.len() == 12,
            eff_reps(step_view(2, a, a, 12), false) == 12,
            gr == 288,
    ;
    assert(span2(step_view(2, a, a, 12), false, gr) == 41472) by (nonlinear_arith)
        requires
            span2(step_view(2, a, a, 12), false, gr) == a.len() * eff_reps(step_view(2, a, a, 12), false) * gr,
            a.len() == 12,
            eff_reps(step_view(2, a, a, 12), false) == 12,
            gr == 288,
    ;
    assert(span1(step_view(2, b, c, 16), false, gr) == 36864) by (nonlinear_arith)
        requires
            span1(step_view(2, b, c, 16), false, gr) == b.len() * eff_reps(step_view(2, b, c, 16), false) * gr,
            b.len() == 8,
            eff_reps(step_view(2, b, c, 16), false) == 16,
            gr == 288,
    ;
    assert(span2(step_view(2, b, c, 16), false, gr) == 36864) by (nonlinear_arith)
        requires
            span2(step_view(2, b, c, 16), false, gr) == c.len() * eff_reps(step_view(2, b, c, 16), false) * gr,
            c.len() == 8,
            eff_reps(step_view(2, b, c, 16), false) == 16,
            gr == 288,
    ;
    assert(span1(step_view(3, a, a, 8), false, gr) == 27648) by (nonlinear_arith)
        requires
            span1(step_view(3, a, a, 8), false, gr) == a.len() * eff_reps(step_view(3, a, a, 8), false) * gr,
            a.len() == 12,
            eff_reps(step_view(3, a, a, 8), false) == 8,
            gr == 288,
    ;
    assert(span2(step_view(3, a, a, 8), false, gr) == 27648) by (nonlinear_arith)
        requires
            span2(step_view(3, a, a, 8), false, gr) == a.len() * eff_reps(step_view(3, a, a, 8), false) * gr,
            a.len() == 12,
            eff_reps(step_view(3, a, a, 8), false) == 8,
            gr == 288,
    ;
    assert(span1(step_view(4, a, a, 6), false, gr) == 20736) by (nonlinear_arith)
        requires
            span1(step_view(4, a, a, 6), false, gr) == a.len() * eff_reps(step_view(4, a, a, 6), false) * gr,
            a.len() == 12,
            eff_reps(step_view(4, a, a, 6), false) == 6,
            gr == 288,
    ;
    assert(span2(step_view(4, a, a, 6), false, gr) == 20736) by (nonlinear_arith)
        requires
            span2(step_view(4, a, a, 6), false, gr) == a.len() * eff_reps(step_view(4, a, a, 6), false) * gr,
            a.len() == 12,
            eff_reps(step_view(4, a, a, 6), false) == 6,
            gr == 288,
    ;
    assert(span1(step_view(4, a, a, 8), false, gr) == 27648) by (nonlinear_arith)
        requires
            span1(step_view(4, a, a, 8), false, gr) == a.len() * eff_reps(step_view(4, a, a, 8), false) * gr,
            a.len() == 12,
            eff_reps(step_view(4, a, a, 8), false) == 8,
            gr == 288,
    ;
    assert(span2(step_view(4, a, a, 8), false, gr) == 27648) by (nonlinear_arith)
        requires
            span2(step_view(4, a, a, 8), false, gr) == a.len() * eff_reps(step_view(4, a, a, 8), false) * gr,
            a.len() == 12,
            eff_reps(step_view(4, a, a, 8), false) == 8,
            gr == 288,
    ;
    assert(span1(step_view(4, b, b, 6), false, gr) == 13824) by (nonlinear_arith)
        requires
            span1(step_view(4, b, b, 6), false, gr) == b.len() * eff_reps(step_view(4, b, b, 6), false) * gr,
            b.len() == 8,
            eff_reps(step_view(4, b, b, 6), false) == 6,
            gr == 288,
    ;
    assert(span2(step_view(4, b, b, 6), false, gr) == 13824) by (nonlinear_arith)
        requires
            span2(step_view(4, b, b, 6), false, gr) == b.len() * eff_reps(step_view(4, b, b, 6), false) * gr,
            b.len() == 8,
            eff_reps(step_view(4, b, b, 6), false) == 6,
            gr == 288,
    ;
    assert(span1(step_view(5, c, c, 8), false, gr) == 18432) by (nonlinear_arith)
        requires
            span1(step_view(5, c, c, 8), false, gr) == c.len() * eff_reps(step_view(5, c, c, 8), false) * gr,
            c.len() == 8,
            eff_reps(step_view(5, c, c, 8), false) == 8,
            gr == 288,
    ;
    assert(span2(step_view(5, c, c, 8), false, gr) == 18432) by (nonlinear_arith)
        requires
            span2(step_view(5, c, c, 8), false, gr) == c.len() * eff_reps(step_view(5, c, c, 8), false) * gr,
            c.len() == 8,
            eff_reps(step_view(5, c, c, 8), false) == 8,
            gr == 288,
    ;
    assert(span1(step_view(5, d, d, 1), false, gr) == 1728) by (nonlinear_arith)
        requires
            span1(step_view(5, d, d, 1), false, gr) == d.len() * eff_reps(step_view(5, d, d, 1), false) * gr,
            d.len() == 6,
            eff_reps(step_view(5, d, d, 1), false) == 1,
            gr == 288,
    ;
    assert(span2(step_view(5, d, d, 1), false, gr) == 1728) by (nonlinear_arith)
        requires
            span2(step_view(5, d, d, 1), false, gr) == d.len() * eff_reps(step_view(5, d, d, 1), false) * gr,
            d.len() == 6,
            eff_reps(step_view(5, d, d, 1), false) == 1,
            gr == 288,
    ;
    assert(span1(step_view(5, e, e, 16), false, gr) == 18432) by (nonlinear_arith)
        requires
            span1(step_view(5, e, e, 16), false, gr) == e.len() * eff_reps(step_view(5, e, e, 16), false) * gr,
            e.len() == 4,
            eff_reps(step_view(5, e, e, 16), false) == 16,
            gr == 288,
    ;
    assert(span2(step_view(5, e, e, 16), false, gr) == 18432) by (nonlinear_arith)
        requires
            span2(step_view(5, e, e, 16), false, gr) == e.len() * eff_reps(step_view(5, e, e, 16), false) * gr,
            e.len() == 4,
            eff_reps(step_view(5, e, e, 16), false) == 16,
            gr == 288,
    ;
    assert(span1(step_view(6, a, a, 18), false, gr) == 62208) by (nonlinear_arith)
        requires
            span1(step_view(6, a, a, 18), false, gr) == a.len() * eff_reps(step_view(6, a, a, 18), false) * gr,
            a.len() == 12,
            eff_reps(step_view(6, a, a, 18), false) == 18,
            gr == 288,
    ;
    assert(span2(step_view(6, a, a, 18), false, gr) == 62208) by (nonlinear_arith)
        requires
            span2(step_view(6, a, a, 18), false, gr) == a.len() * eff_reps(step_view(6, a, a, 18), false) * gr,
            a.len() == 12,
            eff_reps(step_view(6, a, a, 18), false) == 18,
            gr == 288,
    ;
    assert(span1(step_view(6, b, c, 16), false, gr) == 36864) by (nonlinear_arith)
        requires
            span1(step_view(6, b, c, 16), false, gr) == b.len() * eff_reps(step_view(6, b, c, 16), false) * gr,
            b.len() == 8,
            eff_reps(step_view(6, b, c, 16), false) == 16,
            gr == 288,
    ;
    assert(span2(step_view(6, b, c, 16), false, gr) == 36864) by (nonlinear_arith)
        requires
            span2(step_view(6, b, c, 16), false, gr) == c.len() * eff_reps(step_view(6, b, c, 16), false) * gr,
            c.len() == 8,
            eff_reps(step_view(6, b, c, 16), false) == 16,
            gr == 288,
    ;
    assert(span1(step_view(6, e, e, 48), false, gr) == 55296) by (nonlinear_arith)
        requires
            span1(step_view(6, e, e, 48), false, gr) == e.len() * eff_reps(step_view(6, e, e, 48), false) * gr,
            e.len() == 4,
            eff_reps(step_view(6, e, e, 48), false) == 48,
            gr == 288,
    ;
    assert(span2(step_view(6, e, e, 48), false, gr) == 55296) by (nonlinear_arith)
        requires
            span2(step_view(6, e, e, 48), false, gr) == e.len() * eff_reps(step_view(6, e, e, 48), false) * gr,
            e.len() == 4,
            eff_reps(step_view(6, e, e, 48), false) == 48,
            gr == 288,
    ;
    assert(span1(step_view(7, a, a, 8), false, gr) == 27648) by (nonlinear_arith)
        requires
            span1(step_view(7, a, a, 8), false, gr) == a.len() * eff_reps(step_view(7, a, a, 8), false) * gr,
            a.len() == 12,
            eff_reps(step_view(7, a, a, 8), false) == 8,
            gr == 288,
    ;
    assert(span2(step_view(7, a, a, 8), false, gr) == 27360) by (nonlinear_arith)
        requires
            span2(step_view(7, a, a, 8), false, gr) == a.len() * eff_reps(step_view(7, a, a, 8), false) * 285,
            a.len() == 12,
            eff_reps(step_view(7, a, a, 8), false) == 8,
    ;
    assert(span1(step_view(7, b, c, 12), false, gr) == 27648) by (nonlinear_arith)
        requires
            span1(step_view(7, b, c, 12), false, gr) == b.len() * eff_reps(step_view(7, b, c, 12), false) * gr,
            b.len() == 8,
            eff_reps(step_view(7, b, c, 12), false) == 12,
            gr == 288,
    ;
    assert(span2(step_view(7, b, c, 12), false, gr) == 27360) by (nonlinear_arith)
        requires
            span2(step_view(7, b, c, 12), false, gr) == c.len() * eff_reps(step_view(7, b, c, 12), false) * 285,
            c.len() == 8,
            eff_reps(step_view(7, b, c, 12), false) == 12,
    ;
    assert(span1(step_view(7, e, e, 18), false, gr) == 20736) by (nonlinear_arith)
        requires
            span1(step_view(7, e, e, 18), false, gr) == e.len() * eff_reps(step_view(7, e, e, 18), false) * gr,
            e.len() == 4,
            eff_reps(step_view(7, e, e, 18), false) == 18,
            gr == 288,
    ;
    assert(span2(step_view(7, e, e, 18), false, gr) == 20448) by (nonlinear_arith)
        requires
            span2(step_view(7, e, e, 18), false, gr) == e.len() * eff_reps(step_view(7, e, e, 18), false) * 284,
            e.len() == 4,
            eff_reps(step_view(7, e, e, 18), false) == 18,
    ;
    assert(span1(step_view(8, a, a, 1), false, gr) == 0) by (nonlinear_arith)
        requires
            span1(step_view(8, a, a, 1), false, gr) == 0,
            a.len() == 12,
            eff_reps(step_view(8, a, a, 1), false) == 1,
            gr == 288,
    ;
    assert(span2(step_view(8, a, a, 1), false, gr) == 3456) by (nonlinear_arith)
        requires
            span2(step_view(8, a, a, 1), false, gr) == a.len() * gr,
            a.len() == 12,
            gr == 288,
    ;
    assert(span1(step_view(8, c, c, 1), false, gr) == 0) by (nonlinear_arith)
        requires
            span1(step_view(8, c, c, 1), false, gr) == 0,
            c.len() == 8,
            eff_reps(step_view(8, c, c, 1), false) == 1,
            gr == 288,
    ;
    assert(span2(step_view(8, c, c, 1), false, gr) == 2304) by (nonlinear_arith)
        requires
            span2(step_view(8, c, c, 1), false, gr) == c.len() * gr,
            c.len() == 8,
            gr == 288,
    ;
    assert(span1(step_view(8, e, e, 1), false, gr) == 0) by (nonlinear_arith)
        requires
            span1(step_view(8, e, e, 1), false, gr) == 0,
            e.len() == 4,
            eff_reps(step_view(8, e, e, 1), false) == 1,
            gr == 288,
    ;
    assert(span2(step_view(8, e, e, 1), false, gr) == 1152) by (nonlinear_arith)
        requires
            span2(step_view(8, e, e, 1), false, gr) == e.len() * gr,
            e.len() == 4,
            gr == 288,
    ;
    assert(all == piece_views());
}

proof fn lemma_step_plans_wf(x: Instruction, shorten: bool)
    requires
        instruction_wf(x),
        step_error(x, shorten) is None,
    ensures
        forall|j: int| 0 <= j < part1_step(x, shorten).len() ==> #[trigger] plan_wf(part1_step(x, shorten)[j]),
        forall|j: int| 0 <= j < part2_step(x, shorten).len() ==> #[trigger] plan_wf(part2_step(x, shorten)[j]),
{
    if let Instruction::Part2Phase { part1, part2, repetitions } = x {
        let l = part1.0@.len() as int;
        let r = effective_repetitions(repetitions, shorten) as int;
        assert(l * r >= 2) by (nonlinear_arith)
            requires
                l >= 1,
                r >= 1,
                l * r != 1,
        ;
    }
}

/// Faultless steps give well-formed plans.
pub proof fn lemma_plans_wf(instrs: Seq<Instruction>, shorten: bool, n: int)
    requires
        0 <= n <= instrs.len(),
        instructions_wf(instrs),
        first_error(instrs, shorten, instrs.len() as int) is None,
    ensures
        plans_wf(part1_plans(instrs, shorten, n)),
        plans_wf(part2_plans(instrs, shorten, n)),
    decreases n,
{
    if n > 0 {
        lemma_plans_wf(instrs, shorten, n - 1);
        lemma_first_error_none(instrs, shorten, instrs.len() as int, n - 1);
        assert(instruction_wf(instrs[n - 1]));
        lemma_step_plans_wf(instrs[n - 1], shorten);
        let (p1, s1) = (part1_plans(instrs, shorten, n - 1), part1_step(instrs[n - 1], shorten));
        let (p2, s2) = (part2_plans(instrs, shorten, n - 1), part2_step(instrs[n - 1], shorten));
        assert forall|j: int| 0 <= j < (p1 + s1).len() implies #[trigger] plan_wf((p1 + s1)[j]) by {
            if j < p1.len() {
                assert((p1 + s1)[j] == p1[j]);
            } else {
                assert((p1 + s1)[j] == s1[j - p1.len()]);
            }
        }
        assert forall|j: int| 0 <= j < (p2 + s2).len() implies #[trigger] plan_wf((p2 + s2)[j]) by {
            if j < p2.len() {
                assert((p2 + s2)[j] == p2[j]);
            } else {
                assert((p2 + s2)[j] == s2[j - p2.len()]);
            }
        }
    }
}

/// Every segment of the piece, shortened or not, fits the fraction type.
pub proof fn lemma_piece_plans_fit(instrs: Seq<Instruction>, shorten: bool)
    requires
        views(instrs) == piece_views(),
        instructions_wf(instrs),
        first_error(instrs, shorten, instrs.len() as int) is None,
    ensures
        plans_fit(part1_plans(instrs, shorten, instrs.len() as int)),
        plans_fit(part2_plans(instrs, shorten, instrs.len() as int)),
{
    let n = instrs.len() as int;
    let gr = piece_grid(shorten);
    lemma_piece_fold(shorten);
    assert(views(instrs).len() == n);
    assert(views(instrs).subrange(0, n) =~= views(instrs));
    lemma_plans_on_grid(instrs, shorten, gr, n);
    lemma_plans_wf(instrs, shorten, n);
    lemma_plans_fit_on_grid(part1_plans(instrs, shorten, n), gr);
    lemma_plans_fit_on_grid(part2_plans(instrs, shorten, n), gr);
}

} // verus!
