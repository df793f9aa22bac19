use vstd::prelude::*;
use crate::cloth::{
    Point, Stick, WindowView, stick_added, stick_removed, orphans_swept, orphans_gone, drop_from, sweep_from,
    ascending_below, snap_result, same_points, drops_flagged, orphans_deleted, compacts,
};
use crate::tools::{connection_ended, pin_result, valid_index, input_steps, Input, InputStep};
use crate::mode::Mode;
use crate::physics::{relax_move, relax_round, sim_trace};

verus! {

/// Removing the stick that was just added gives back the cloth exactly as
/// it was before, connection counts included, and the stick removed is the
/// stick that was added.
pub proof fn law_remove_undoes_add<P, L>(
    before: WindowView<P, L>,
    st: Stick<L>,
    added: WindowView<P, L>,
    after: WindowView<P, L>,
)
    requires
        before.wf(),
        stick_added(before, st, added),
        stick_removed(added, added.sticks.len() - 1, after),
    ensures
        added.sticks[added.sticks.len() - 1] == st,
        after == before,
{
    let last = added.sticks.len() - 1;
    assert(added.sticks[last] == st);
    assert(after.sticks =~= before.sticks);
    assert forall|p: int| 0 <= p < after.points.len() implies #[trigger] after.points[p] == before.points[p] by {
        assert(after.points[p].pos == added.points[p].pos);
        assert(added.points[p].pos == before.points[p].pos);
        assert(after.points[p].connection_count == added.points[p].connection_count - crate::degree::ends_at(
            st,
            p,
        ));
        assert(added.points[p].connection_count == before.points[p].connection_count
            + crate::degree::ends_at(st, p));
    }
    assert(after.points =~= before.points);
    assert(after =~= before);
}

/// Deleting the orphans twice in a row does no more than deleting them once.
pub proof fn law_orphan_deletion_settles<P, L>(
    first: WindowView<P, L>,
    once: WindowView<P, L>,
    twice: WindowView<P, L>,
)
    requires
        first.wf(),
        orphans_swept(first, once),
        orphans_swept(once, twice),
    ensures
        twice == once,
{
    assert(!crate::cloth::has_doomed(once));
    assert(once.orphans =~= Seq::<usize>::empty());
}

/// Pressing the right button at one point and releasing it at another
/// joins the two with a new stick (from the first to the second), as long
/// as `measure` gives for them, and nothing is left pending.
pub proof fn law_drag_joins_points<P, L, M: Fn(&P, &P) -> L>(
    before: WindowView<P, L>,
    a: usize,
    b: usize,
    measure: M,
    after: WindowView<P, L>,
)
    requires
        before.wf(),
        a != b,
        connection_ended(WindowView { newstickstart: Some(a), ..before }, Some(b), measure, after),
    ensures
        after.sticks == before.sticks.push(after.sticks.last()),
        after.sticks.last().start == a,
        after.sticks.last().end == b,
        measure.ensures((&before.points[a as int].pos, &before.points[b as int].pos), after.sticks.last().target_length),
        after.newstickstart is None,
        after.newstickend is None,
{
    assert(after.sticks =~= after.sticks.drop_last().push(after.sticks.last()));
}

/// Dropping the flagged sticks from the `i`-th on changes nothing when no
/// flag from there on is set.
proof fn lemma_drop_nothing<P, L>(v: WindowView<P, L>, flags: Seq<bool>, i: int)
    requires
        0 <= i,
        flags.len() == v.sticks.len(),
        forall|k: int| i <= k < flags.len() ==> !#[trigger] flags[k],
    ensures
        drop_from(v, flags, i) == v,
    decreases v.sticks.len() - i,
{
    reveal(drop_from);
    if i < v.sticks.len() {
        lemma_drop_nothing(v, flags, i + 1);
    }
}

/// No orphan, no sweep.
proof fn lemma_ascending_none(k: int)
    ensures
        ascending_below(Seq::<usize>::empty(), k) == Seq::<usize>::empty(),
    decreases k,
{
    if k > 0 {
        lemma_ascending_none(k - 1);
    }
}

/// When no stick is too long, snapping leaves the cloth exactly as it was.
pub proof fn law_snapping_nothing_changes_nothing<P, L>(v: WindowView<P, L>, flags: Seq<bool>)
    requires
        v.wf(),
        v.orphans.len() == 0,
        flags.len() == v.sticks.len(),
        forall|k: int| 0 <= k < flags.len() ==> !#[trigger] flags[k],
    ensures
        orphans_gone(drop_from(v, flags, 0)) == v,
{
    lemma_drop_nothing(v, flags, 0);
    lemma_ascending_none(v.points.len() as int);
    assert(v.orphans =~= Seq::<usize>::empty());
    let w = WindowView { orphans: ascending_below(v.orphans, v.points.len() as int), ..v };
    assert(w == v);
    reveal(sweep_from);
    assert(sweep_from(w, 0) =~= v);
}

/// Unpinning (D) undoes pinning (S): pinning the selected point and then
/// unpinning it, both near the mouse, gives back the cloth as it was when
/// that point was free.
pub proof fn law_unpin_undoes_pin<P, L>(v: WindowView<P, L>, near: bool)
    requires
        v.wf(),
        valid_index(v, v.closest_point),
        v.closest_point matches Some(c) ==> !v.points[c as int].is_static,
    ensures
        pin_result(pin_result(v, true, near), false, near) == v,
{
    if let Some(c) = v.closest_point {
        if near {
            let once = pin_result(v, true, near);
            assert(once.points[c as int] == Point { is_static: true, ..v.points[c as int] });
            assert(pin_result(once, false, near).points =~= v.points);
        }
    }
    assert(pin_result(pin_result(v, true, near), false, near) =~= v);
}

/// The flags of a length test on `v`: stick `m` is flagged when
/// `too_long` holds of the positions of its two ends and its length.
pub open spec fn flags_by<P, L>(v: WindowView<P, L>, too_long: spec_fn(P, P, L) -> bool) -> Seq<bool> {
    Seq::new(
        v.sticks.len(),
        |m: int|
            too_long(
                v.points[v.sticks[m].start as int].pos,
                v.points[v.sticks[m].end as int].pos,
                v.sticks[m].target_length,
            ),
    )
}

/// Snapping twice is snapping once: when the sticks to snap are those that
/// a test on the positions of their ends and their length picks, a second
/// snap right after the first changes nothing, since every stick left
/// passed the test and kept its ends where they were.
pub proof fn law_snapping_twice_is_snapping_once<P, L>(
    old: WindowView<P, L>,
    too_long: spec_fn(P, P, L) -> bool,
    once: WindowView<P, L>,
    twice: WindowView<P, L>,
)
    requires
        old.wf(),
        old.orphans.len() == 0,
        snap_result(old, flags_by(old, too_long), once),
        snap_result(once, flags_by(once, too_long), twice),
    ensures
        twice == once,
{
    let f1 = flags_by(old, too_long);
    let f2 = flags_by(once, too_long);
    let (mid, src, who) = choose|mid: WindowView<P, L>, src: Seq<int>, who: Seq<int>|
        mid.wf() && same_points(mid.points, old.points) && drops_flagged(old, f1, mid, src, who)
            && orphans_deleted(mid, once);
    let origin = choose|origin: Seq<int>| compacts(mid, once, origin);
    assert forall|m: int| 0 <= m < f2.len() implies !#[trigger] f2[m] by {
        let st1 = once.sticks[m];
        let ms = mid.sticks[m];
        let k = src[m];
        let os = old.sticks[k];
        assert(0 <= k < old.sticks.len() && !f1[k] && ms == os);
        assert(origin[st1.start as int] == ms.start && origin[st1.end as int] == ms.end);
        assert(st1.target_length == ms.target_length);
        assert(once.points[st1.start as int] == mid.points[origin[st1.start as int]]);
        assert(once.points[st1.end as int] == mid.points[origin[st1.end as int]]);
        assert(mid.points[ms.start as int].pos == old.points[ms.start as int].pos);
        assert(mid.points[ms.end as int].pos == old.points[ms.end as int].pos);
        assert(f1[k] == too_long(old.points[os.start as int].pos, old.points[os.end as int].pos, os.target_length));
    }
    law_snapping_nothing_changes_nothing(once, f2);
}

/// Deleting orphan points never leaves the selection naming a point that
/// is gone: either no point went and the selection stands, or it is cleared.
pub proof fn law_deletion_keeps_selection_valid<P, L>(old: WindowView<P, L>, new: WindowView<P, L>)
    requires
        old.wf(),
        valid_index(old, old.closest_point),
        orphans_swept(old, new),
    ensures
        valid_index(new, new.closest_point),
{
}

/// Relaxing a stick moves each free end to where `relax` put it, whether
/// or not the other end is pinned: a free start goes to the first answer
/// (unless the stick ends where it starts, when the second answer wins), a
/// free end to the second; a pinned end stays, and no other point, no
/// stick and nothing else moves.
pub proof fn law_relaxing_moves_each_free_end<P, L, R: Fn(&P, &P, &L) -> (P, P)>(
    a: WindowView<P, L>,
    k: int,
    relax: R,
    ends: (P, P),
    b: WindowView<P, L>,
)
    requires
        a.wf(),
        relax_move(a, k, relax, ends, b),
    ensures
        ({
            let st = a.sticks[k];
            let (s, e) = (st.start as int, st.end as int);
            &&& b.sticks == a.sticks
            &&& b.points.len() == a.points.len()
            &&& !a.points[s].is_static && s != e ==> b.points[s].pos == ends.0
            &&& !a.points[e].is_static ==> b.points[e].pos == ends.1
            &&& a.points[s].is_static ==> b.points[s] == a.points[s]
            &&& a.points[e].is_static ==> b.points[e] == a.points[e]
            &&& forall|p: int|
                0 <= p < a.points.len() ==> #[trigger] b.points[p].prev == a.points[p].prev
                    && b.points[p].is_static == a.points[p].is_static
                    && b.points[p].connection_count == a.points[p].connection_count
            &&& forall|p: int| 0 <= p < a.points.len() && p != s && p != e ==> #[trigger] b.points[p] == a.points[p]
        }),
{
    let st = a.sticks[k];
    assert(st.start < a.points.len() && st.end < a.points.len());
}

/// `s` is `s0` followed by steps none of which selects a point.
spec fn extends_without_pick(s0: Seq<InputStep>, s: Seq<InputStep>) -> bool {
    &&& s.len() >= s0.len()
    &&& forall|j: int| 0 <= j < s0.len() ==> s[j] == s0[j]
    &&& forall|j: int| s0.len() <= j < s.len() ==> s[j] != InputStep::PickClosest
}

proof fn lemma_push_other(s0: Seq<InputStep>, s: Seq<InputStep>, x: InputStep)
    requires
        extends_without_pick(s0, s),
        x != InputStep::PickClosest,
    ensures
        extends_without_pick(s0, s.push(x)),
{
    assert forall|j: int| s0.len() <= j < s.push(x).len() implies s.push(x)[j] != InputStep::PickClosest by {
        if j < s.len() {
            assert(s.push(x)[j] == s[j]);
        }
    }
}

/// The steps that follow the first: none of them selects a point.
#[verifier::rlimit(30)]
proof fn lemma_later_steps_do_not_select(s0: Seq<InputStep>, input: Input)
    ensures
        steps_after(s0, input).len() > s0.len(),
        extends_without_pick(s0, steps_after(s0, input)),
{
    let s1 = if input.key_s {
        lemma_push_other(s0, s0, InputStep::PinClosest(true));
        s0.push(InputStep::PinClosest(true))
    } else if input.key_d {
        lemma_push_other(s0, s0, InputStep::PinClosest(false));
        s0.push(InputStep::PinClosest(false))
    } else {
        s0
    };
    let x2 = if input.key_h {
        Some(InputStep::SetMode(Mode::Hand))
    } else if input.key_c {
        Some(InputStep::SetMode(Mode::Cut))
    } else if input.key_p {
        Some(InputStep::SetMode(Mode::Place))
    } else if input.key_f {
        Some(InputStep::SetMode(Mode::Force))
    } else {
        None
    };
    let s2 = match x2 {
        Some(x) => {
            lemma_push_other(s0, s1, x);
            s1.push(x)
        },
        None => s1,
    };
    let s3 = if input.key_g {
        lemma_push_other(s0, s2, InputStep::WeaveGrid);
        s2.push(InputStep::WeaveGrid)
    } else {
        s2
    };
    let s4 = if input.key_q {
        lemma_push_other(s0, s3, InputStep::PrintDebug);
        s3.push(InputStep::PrintDebug)
    } else {
        s3
    };
    let s5 = if input.key_a {
        lemma_push_other(s0, s4, InputStep::DeleteSticks);
        s4.push(InputStep::DeleteSticks)
    } else {
        s4
    };
    let s6 = if input.key_w {
        lemma_push_other(s0, s5, InputStep::DeleteAll);
        s5.push(InputStep::DeleteAll)
    } else {
        s5
    };
    let s7 = if input.key_t {
        lemma_push_other(s0, s6, InputStep::ConnectAll);
        s6.push(InputStep::ConnectAll)
    } else {
        s6
    };
    let s8 = if input.mouse1_pressed {
        lemma_push_other(s0, s7, InputStep::StartConnection);
        s7.push(InputStep::StartConnection)
    } else {
        let t = if input.mouse1_released {
            lemma_push_other(s0, s7, InputStep::EndConnection);
            s7.push(InputStep::EndConnection)
        } else {
            s7
        };
        if !input.mouse1_held {
            lemma_push_other(s0, t, InputStep::ResetConnection);
            t.push(InputStep::ResetConnection)
        } else {
            t
        }
    };
    lemma_push_other(s0, s8, InputStep::DrawPreview);
    assert(steps_after(s0, input) == s8.push(InputStep::DrawPreview));
}

/// `s0` followed by the steps that the keys and the right button add.
spec fn steps_after(s0: Seq<InputStep>, input: Input) -> Seq<InputStep> {
    let s1 = if input.key_s {
        s0.push(InputStep::PinClosest(true))
    } else if input.key_d {
        s0.push(InputStep::PinClosest(false))
    } else {
        s0
    };
    let s2 = if input.key_h {
        s1.push(InputStep::SetMode(Mode::Hand))
    } else if input.key_c {
        s1.push(InputStep::SetMode(Mode::Cut))
    } else if input.key_p {
        s1.push(InputStep::SetMode(Mode::Place))
    } else if input.key_f {
        s1.push(InputStep::SetMode(Mode::Force))
    } else {
        s1
    };
    let s3 = if input.key_g { s2.push(InputStep::WeaveGrid) } else { s2 };
    let s4 = if input.key_q { s3.push(InputStep::PrintDebug) } else { s3 };
    let s5 = if input.key_a { s4.push(InputStep::DeleteSticks) } else { s4 };
    let s6 = if input.key_w { s5.push(InputStep::DeleteAll) } else { s5 };
    let s7 = if input.key_t { s6.push(InputStep::ConnectAll) } else { s6 };
    let s8 = if input.mouse1_pressed {
        s7.push(InputStep::StartConnection)
    } else {
        let t = if input.mouse1_released { s7.push(InputStep::EndConnection) } else { s7 };
        if !input.mouse1_held { t.push(InputStep::ResetConnection) } else { t }
    };
    s8.push(InputStep::DrawPreview)
}

/// The frame's first step re-selects the point nearest the mouse exactly
/// when no point is being dragged by hand: with any tool but the hand, or
/// with the left button up, the selection follows the mouse; only a hand
/// drag keeps it, and then no step selects at all.
pub proof fn law_selection_follows_the_mouse_unless_dragging(mode: Mode, input: Input)
    ensures
        input_steps(mode, input).len() > 0,
        (input_steps(mode, input)[0] == InputStep::PickClosest) <==> !(mode == Mode::Hand && input.mouse0_held),
        mode != Mode::Hand ==> input_steps(mode, input)[0] == InputStep::PickClosest,
        (mode == Mode::Hand && input.mouse0_held) ==> !input_steps(mode, input).contains(InputStep::PickClosest),
{
    let steps = input_steps(mode, input);
    let dragging = mode == Mode::Hand && input.mouse0_held;
    let s0: Seq<InputStep> = if !dragging {
        seq![InputStep::PickClosest]
    } else {
        Seq::empty()
    };
    assert(steps =~= steps_after(s0, input));
    lemma_later_steps_do_not_select(s0, input);
    if dragging {
        assert forall|j: int| 0 <= j < steps.len() implies steps[j] != InputStep::PickClosest by {}
    }
}

/// S pins and D frees the selected point near the mouse, whatever it was
/// before: afterwards its pin is exactly what was asked, so pinning twice is
/// pinning once; its position and every other point stay as they were.
pub proof fn law_pinning_sets_the_pin<P, L>(v: WindowView<P, L>, pinned: bool)
    requires
        v.wf(),
        valid_index(v, v.closest_point),
    ensures
        v.closest_point matches Some(c) ==> {
            let w = pin_result(v, pinned, true);
            &&& w.points.len() == v.points.len()
            &&& w.points[c as int].is_static == pinned
            &&& w.points[c as int].pos == v.points[c as int].pos
            &&& w.points[c as int].prev == v.points[c as int].prev
            &&& forall|p: int| 0 <= p < v.points.len() && p != c ==> #[trigger] w.points[p] == v.points[p]
        },
        pin_result(pin_result(v, pinned, true), pinned, true) == pin_result(v, pinned, true),
{
    if let Some(c) = v.closest_point {
        let w = pin_result(v, pinned, true);
        assert(pin_result(w, pinned, true).points =~= w.points);
    }
    assert(pin_result(pin_result(v, pinned, true), pinned, true) =~= pin_result(v, pinned, true));
}

/// Relaxing and bouncing never touch the sticks: every state of a
/// relaxation round has the sticks it started with.
proof fn lemma_round_keeps_sticks<P, L, R: Fn(&P, &P, &L) -> (P, P), B: Fn(&Point<P>) -> (P, P)>(
    a: WindowView<P, L>,
    relax: R,
    bounce: B,
    states: Seq<WindowView<P, L>>,
    ends: Seq<(P, P)>,
    b: WindowView<P, L>,
)
    requires
        relax_round(a, relax, bounce, states, ends, b),
    ensures
        b.sticks == a.sticks,
{
    assert forall|k: int| 0 <= k <= ends.len() implies #[trigger] states[k].sticks == a.sticks by {
        lemma_states_keep_sticks(a, relax, bounce, states, ends, b, k);
    }
}

proof fn lemma_states_keep_sticks<P, L, R: Fn(&P, &P, &L) -> (P, P), B: Fn(&Point<P>) -> (P, P)>(
    a: WindowView<P, L>,
    relax: R,
    bounce: B,
    states: Seq<WindowView<P, L>>,
    ends: Seq<(P, P)>,
    b: WindowView<P, L>,
    k: int,
)
    requires
        relax_round(a, relax, bounce, states, ends, b),
        0 <= k <= ends.len(),
    ensures
        states[k].sticks == a.sticks,
    decreases k,
{
    if k > 0 {
        lemma_states_keep_sticks(a, relax, bounce, states, ends, b, k - 1);
        let j = k - 1;
        assert(relax_move(states[j], j, relax, ends[j], states[j + 1]));
    }
}

proof fn lemma_rounds_keep_sticks<P, L, I, R, B>(
    old: WindowView<P, L>,
    iterations: int,
    integrate: I,
    relax: R,
    bounce: B,
    rounds: Seq<WindowView<P, L>>,
    steps: Seq<Seq<WindowView<P, L>>>,
    ends: Seq<Seq<(P, P)>>,
    r: int,
)
    where
        I: Fn(&Point<P>) -> (P, P),
        R: Fn(&P, &P, &L) -> (P, P),
        B: Fn(&Point<P>) -> (P, P),
    requires
        sim_trace(old, iterations, integrate, relax, bounce, rounds, steps, ends),
        0 <= r <= iterations,
    ensures
        rounds[r].sticks == old.sticks,
    decreases r,
{
    if r > 0 {
        lemma_rounds_keep_sticks(old, iterations, integrate, relax, bounce, rounds, steps, ends, r - 1);
        let j = r - 1;
        assert(relax_round(rounds[j], relax, bounce, steps[j], ends[j], rounds[j + 1]));
        lemma_round_keeps_sticks(rounds[j], relax, bounce, steps[j], ends[j], rounds[j + 1]);
    }
}

/// A frame of `simulate` with `iterations` rounds relaxes every stick once
/// per round, so `relax` is asked `iterations` times for each stick: there
/// are `iterations` rounds, each with one answer per stick of the cloth.
pub proof fn law_simulate_relaxes_every_stick_each_round<P, L, I, R, B>(
    old: WindowView<P, L>,
    iterations: int,
    integrate: I,
    relax: R,
    bounce: B,
    rounds: Seq<WindowView<P, L>>,
    steps: Seq<Seq<WindowView<P, L>>>,
    ends: Seq<Seq<(P, P)>>,
)
    where
        I: Fn(&Point<P>) -> (P, P),
        R: Fn(&P, &P, &L) -> (P, P),
        B: Fn(&Point<P>) -> (P, P),
    requires
        0 <= iterations,
        sim_trace(old, iterations, integrate, relax, bounce, rounds, steps, ends),
    ensures
        rounds.len() == iterations + 1,
        ends.len() == iterations,
        forall|r: int| 0 <= r < iterations ==> (#[trigger] ends[r]).len() == old.sticks.len(),
        rounds.last().sticks == old.sticks,
{
    assert forall|r: int| 0 <= r < iterations implies (#[trigger] ends[r]).len() == old.sticks.len() by {
        lemma_rounds_keep_sticks(old, iterations, integrate, relax, bounce, rounds, steps, ends, r);
        assert(relax_round(rounds[r], relax, bounce, steps[r], ends[r], rounds[r + 1]));
    }
    lemma_rounds_keep_sticks(old, iterations, integrate, relax, bounce, rounds, steps, ends, iterations);
}

} // verus!
