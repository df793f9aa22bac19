use vstd::prelude::*;
use crate::degree::{
    ends_at, degree, relabel_stick, relabel_all, lemma_degree_push, lemma_degree_swap_remove,
    lemma_degree_zero, lemma_degree_relabel, lemma_degree_untouched, count_set, lemma_count_set_swap_remove,
};
use crate::mode::Mode;

verus! {

/// A mass point of the cloth. `pos` and `prev` are the current and the
/// previous position (verlet integration keeps the velocity implicit);
/// `connection_count` is the number of stick ends that rest on the point.
#[derive(Clone, Copy, Debug)]
pub struct Point<P> {
    pub pos: P,
    pub prev: P,
    pub connection_count: u32,
    pub is_static: bool,
}

/// A stick joins two points (by index) and tries to keep them `target_length` apart.
#[derive(Clone, Copy, Debug)]
pub struct Stick<L> {
    pub start: usize,
    pub end: usize,
    pub target_length: L,
}

/// The abstract state of a cloth.
#[verifier::ext_equal]
pub struct WindowView<P, L> {
    pub points: Seq<Point<P>>,
    pub sticks: Seq<Stick<L>>,
    pub stickscopy: Seq<Stick<L>>,
    pub orphans: Seq<usize>,
    pub closest_point: Option<usize>,
    pub newstickstart: Option<usize>,
    pub newstickend: Option<usize>,
    pub mode: Mode,
    pub counter: usize,
}

/// Both sequences have the same points, connection counts aside.
pub open spec fn same_points<P>(a: Seq<Point<P>>, b: Seq<Point<P>>) -> bool {
    &&& a.len() == b.len()
    &&& forall|k: int|
        0 <= k < a.len() ==> #[trigger] a[k].pos == b[k].pos && a[k].prev == b[k].prev
            && a[k].is_static == b[k].is_static
}

/// `same_points` chains.
pub proof fn lemma_same_points_trans<P>(a: Seq<Point<P>>, b: Seq<Point<P>>, c: Seq<Point<P>>)
    requires
        same_points(a, b),
        same_points(b, c),
    ensures
        same_points(a, c),
{
    assert forall|k: int| 0 <= k < a.len() implies #[trigger] a[k].pos == c[k].pos && a[k].prev == c[k].prev
        && a[k].is_static == c[k].is_static by {
        assert(a[k].pos == b[k].pos);
        assert(b[k].pos == c[k].pos);
    }
}

impl<P, L> WindowView<P, L> {
    /// The cloth is well formed: every stick joins two existing points, the
    /// two stick buffers agree, no connection count is below the number of
    /// stick ends on the point, and every pending orphan names an existing
    /// point. (Deleting all sticks leaves the counts as they were, so a count
    /// can exceed the number of stick ends.)
    pub open spec fn wf(self) -> bool {
        &&& self.stickscopy == self.sticks
        &&& forall|k: int|
            0 <= k < self.sticks.len() ==> #[trigger] self.sticks[k].start < self.points.len()
                && self.sticks[k].end < self.points.len()
        &&& forall|p: int|
            0 <= p < self.points.len() ==> #[trigger] self.points[p].connection_count >= degree(
                self.sticks,
                p,
            )
        &&& forall|j: int| 0 <= j < self.orphans.len() ==> #[trigger] self.orphans[j] < self.points.len()
    }

    /// Every connection count is exactly the number of stick ends on the point.
    pub open spec fn counts_exact(self) -> bool {
        forall|p: int|
            0 <= p < self.points.len() ==> #[trigger] self.points[p].connection_count == degree(self.sticks, p)
    }

    /// Neither the selection, the pending connection, the mode nor the snap counter differ.
    pub open spec fn same_controls(self, other: Self) -> bool {
        &&& self.orphans == other.orphans
        &&& self.closest_point == other.closest_point
        &&& self.newstickstart == other.newstickstart
        &&& self.newstickend == other.newstickend
        &&& self.mode == other.mode
        &&& self.counter == other.counter
    }
}

/// What `add_stick(st)` does: `st` is appended to the sticks, and each of
/// its ends adds one to the count of the point it rests on; nothing else
/// changes.
pub open spec fn stick_added<P, L>(old: WindowView<P, L>, st: Stick<L>, new: WindowView<P, L>) -> bool {
    &&& new.wf()
    &&& old.counts_exact() ==> new.counts_exact()
    &&& new.sticks == old.sticks.push(st)
    &&& same_points(new.points, old.points)
    &&& forall|p: int|
        0 <= p < new.points.len() ==> #[trigger] new.points[p].connection_count == old.points[p].connection_count
            + ends_at(st, p)
    &&& new.same_controls(old)
}

/// What `remove_stick(index)` does: the last stick takes the place of stick
/// `index`, and each end of the removed stick takes one from the count of
/// the point it rested on; nothing else changes.
pub open spec fn stick_removed<P, L>(old: WindowView<P, L>, index: int, new: WindowView<P, L>) -> bool {
    &&& new.wf()
    &&& old.counts_exact() ==> new.counts_exact()
    &&& new.sticks == old.sticks.update(index, old.sticks.last()).drop_last()
    &&& same_points(new.points, old.points)
    &&& forall|p: int|
        0 <= p < new.points.len() ==> #[trigger] new.points[p].connection_count == old.points[p].connection_count
            - ends_at(old.sticks[index], p)
    &&& new.same_controls(old)
}

/// Point `q` is a pending orphan that no stick holds any more.
pub open spec fn doomed<P, L>(v: WindowView<P, L>, q: int) -> bool {
    &&& 0 <= q < v.points.len()
    &&& v.orphans.contains(q as usize)
    &&& v.points[q].connection_count == 0
}

/// Some point of `v` is doomed.
pub open spec fn has_doomed<P, L>(v: WindowView<P, L>) -> bool {
    exists|q: int| doomed(v, q)
}

/// `new` holds exactly the points of `old` that are not doomed, each
/// unchanged; `origin[k]` is the index in `old` of point `k` of `new`. The
/// sticks are the same sticks in the same order, their ends renumbered.
pub open spec fn compacts<P, L>(old: WindowView<P, L>, new: WindowView<P, L>, origin: Seq<int>) -> bool {
    &&& origin.len() == new.points.len()
    &&& forall|k: int|
        0 <= k < origin.len() ==> 0 <= #[trigger] origin[k] < old.points.len() && !doomed(old, origin[k])
            && new.points[k] == old.points[origin[k]]
    &&& forall|k1: int, k2: int|
        0 <= k1 < origin.len() && 0 <= k2 < origin.len() && k1 != k2 ==> #[trigger] origin[k1]
            != #[trigger] origin[k2]
    &&& forall|q: int|
        0 <= q < old.points.len() && !doomed(old, q) ==> exists|k: int|
            0 <= k < origin.len() && #[trigger] origin[k] == q
    &&& new.sticks.len() == old.sticks.len()
    &&& forall|m: int|
        0 <= m < new.sticks.len() ==> origin[#[trigger] new.sticks[m].start as int] == old.sticks[m].start
            && origin[new.sticks[m].end as int] == old.sticks[m].end
            && new.sticks[m].target_length == old.sticks[m].target_length
}

/// A compaction never adds points: `origin` maps the points of `new` one to
/// one into those of `old`.
pub proof fn lemma_compacts_shrinks<P, L>(old: WindowView<P, L>, new: WindowView<P, L>, origin: Seq<int>)
    requires
        compacts(old, new, origin),
    ensures
        new.points.len() <= old.points.len(),
{
    let n = old.points.len() as int;
    assert(origin.no_duplicates());
    origin.unique_seq_to_set();
    vstd::set_lib::lemma_int_range(0, n);
    assert forall|x: int| origin.to_set().contains(x) implies vstd::set_lib::set_int_range(0, n).contains(x) by {
        let k = choose|k: int| 0 <= k < origin.len() && origin[k] == x;
        assert(0 <= origin[k] < n);
    }
    vstd::set_lib::lemma_len_subset(origin.to_set(), vstd::set_lib::set_int_range(0, n));
}

/// `new` keeps exactly the sticks of `old` whose flag is clear, each once
/// and unchanged, in some order (`src[m]` is the index in `old` of stick `m`
/// of `new`); the ends of the dropped sticks are the pending orphans (`who[w]`
/// is the index in `old` of the dropped stick that orphan `w` came from); the
/// snap counter went up by one per dropped stick; the other controls are as
/// they were.
pub open spec fn drops_flagged<P, L>(
    old: WindowView<P, L>,
    flags: Seq<bool>,
    new: WindowView<P, L>,
    src: Seq<int>,
    who: Seq<int>,
) -> bool {
    &&& src.len() == new.sticks.len()
    &&& forall|m: int|
        0 <= m < src.len() ==> 0 <= #[trigger] src[m] < old.sticks.len() && !flags[src[m]]
            && new.sticks[m] == old.sticks[src[m]]
    &&& forall|m1: int, m2: int|
        0 <= m1 < src.len() && 0 <= m2 < src.len() && m1 != m2 ==> #[trigger] src[m1] != #[trigger] src[m2]
    &&& forall|k: int|
        0 <= k < old.sticks.len() && !flags[k] ==> exists|m: int| 0 <= m < src.len() && #[trigger] src[m] == k
    &&& who.len() == new.orphans.len()
    &&& forall|w: int|
        0 <= w < who.len() ==> 0 <= #[trigger] who[w] < old.sticks.len() && flags[who[w]] && (
        new.orphans[w] == old.sticks[who[w]].start || new.orphans[w] == old.sticks[who[w]].end)
    &&& forall|k: int|
        0 <= k < old.sticks.len() && #[trigger] flags[k] ==> new.orphans.contains(old.sticks[k].start)
            && new.orphans.contains(old.sticks[k].end)
    &&& new.counter == old.counter + (old.sticks.len() - new.sticks.len())
    &&& new.closest_point == old.closest_point
    &&& new.newstickstart == old.newstickstart
    &&& new.newstickend == old.newstickend
    &&& new.mode == old.mode
}

/// `points` with the ends of `st` taken from their connection counts.
pub open spec fn uncount<P, L>(points: Seq<Point<P>>, st: Stick<L>) -> Seq<Point<P>> {
    Seq::new(
        points.len(),
        |p: int| Point { connection_count: (points[p].connection_count - ends_at(st, p)) as u32, ..points[p] },
    )
}

/// `v` with stick `i` snapped off: the last stick takes its place, its ends
/// leave the counts of their points and join the orphans, start first, and
/// the counter goes up by one.
pub open spec fn snapped_off<P, L>(v: WindowView<P, L>, i: int) -> WindowView<P, L> {
    let st = v.sticks[i];
    WindowView {
        points: uncount(v.points, st),
        sticks: v.sticks.update(i, v.sticks.last()).drop_last(),
        stickscopy: v.stickscopy.update(i, v.stickscopy.last()).drop_last(),
        orphans: v.orphans.push(st.start).push(st.end),
        counter: (v.counter + 1) as usize,
        ..v
    }
}

/// Dropping the flagged sticks of `v` from the `i`-th on, in the order
/// `snap_apart_too_long_sticks` visits them: a flagged stick is snapped off
/// (its flag goes with it, the last flag taking its place, and that slot is
/// visited again); an unflagged stick is passed over.
#[verifier::opaque]
pub open spec fn drop_from<P, L>(v: WindowView<P, L>, flags: Seq<bool>, i: int) -> WindowView<P, L>
    decreases v.sticks.len() - i,
{
    if 0 <= i < v.sticks.len() && i < flags.len() {
        if flags[i] {
            drop_from(snapped_off(v, i), flags.update(i, flags.last()).drop_last(), i)
        } else {
            drop_from(v, flags, i + 1)
        }
    } else {
        v
    }
}

/// What `snap_apart_too_long_sticks(flags)` makes of `old`: the flagged
/// sticks dropped in visiting order, then the points left without a stick
/// deleted. Seen whole: the unflagged sticks are kept (renumbered), the
/// points that lost their last stick go, and no point is added.
pub open spec fn snap_result<P, L>(old: WindowView<P, L>, flags: Seq<bool>, new: WindowView<P, L>) -> bool {
    &&& new == orphans_gone(drop_from(old, flags, 0))
    &&& new.points.len() <= old.points.len()
    &&& old.counts_exact() ==> new.counts_exact()
    &&& exists|mid: WindowView<P, L>, src: Seq<int>, who: Seq<int>|
        mid.wf() && same_points(mid.points, old.points) && drops_flagged(old, flags, mid, src, who)
            && orphans_deleted(mid, new)
}

/// The answer of a cutting test says to cut the stick apart.
pub open spec fn snaps<D>(a: Option<(D, bool)>) -> bool {
    match a {
        Some((_, b)) => b,
        None => false,
    }
}

/// A record of a sweep of the cutting tool over the sticks of `old`, which
/// left `new`: the points are the same points (only their positions may have
/// moved), and old stick `k` was tested once, on `asked[k]` (its two ends as
/// they then were), answered `answers[k]`, and marked in `snapped` exactly
/// when the answer said to cut it apart.
pub open spec fn swept<P, L, D, C: Fn(&Point<P>, &Point<P>, &Stick<L>) -> Option<(D, bool)>>(
    old: WindowView<P, L>,
    new: WindowView<P, L>,
    cut: C,
    snapped: Seq<bool>,
    asked: Seq<(Point<P>, Point<P>)>,
    answers: Seq<Option<(D, bool)>>,
) -> bool {
    &&& new.points.len() == old.points.len()
    &&& forall|p: int|
        0 <= p < new.points.len() ==> #[trigger] new.points[p].prev == old.points[p].prev
            && new.points[p].is_static == old.points[p].is_static
    &&& snapped.len() == old.sticks.len()
    &&& asked.len() == old.sticks.len()
    &&& answers.len() == old.sticks.len()
    &&& forall|k: int|
        0 <= k < old.sticks.len() ==> {
            let st = old.sticks[k];
            &&& cut.ensures((&asked[k].0, &asked[k].1, &st), #[trigger] answers[k])
            &&& snapped[k] == snaps(answers[k])
            &&& asked[k].0.prev == old.points[st.start as int].prev
            &&& asked[k].0.is_static == old.points[st.start as int].is_static
            &&& asked[k].1.prev == old.points[st.end as int].prev
            &&& asked[k].1.is_static == old.points[st.end as int].is_static
        }
}

/// `pts` with point `p` moved to `pos`.
pub open spec fn moved<P>(pts: Seq<Point<P>>, p: int, pos: P) -> Seq<Point<P>> {
    pts.update(p, Point { pos: pos, ..pts[p] })
}

/// One step of a cutting sweep, at stick `i` of `a`: `cut` answered
/// `verdict` for the stick and its two ends as they then were; on an answer
/// `Some((d, apart))` the start moved to `ps` and then the end to `pe`, as
/// `shift` gave for `d` and the position each had at that moment, and if
/// `apart` the stick snapped off. `b` is the result and `j` the stick to look
/// at next (the same slot after a snap, the next one otherwise).
pub open spec fn cut_move<P, L, D, C, S>(
    a: WindowView<P, L>,
    i: int,
    cut: C,
    shift: S,
    verdict: Option<(D, bool)>,
    ps: P,
    pe: P,
    b: WindowView<P, L>,
    j: int,
) -> bool
    where
        C: Fn(&Point<P>, &Point<P>, &Stick<L>) -> Option<(D, bool)>,
        S: Fn(&P, &D) -> P,
{
    let st = a.sticks[i];
    &&& 0 <= i < a.sticks.len()
    &&& cut.ensures((&a.points[st.start as int], &a.points[st.end as int], &st), verdict)
    &&& match verdict {
        None => b == a && j == i + 1,
        Some((d, apart)) => {
            let a1 = WindowView { points: moved(a.points, st.start as int, ps), ..a };
            let a2 = WindowView { points: moved(a1.points, st.end as int, pe), ..a };
            &&& shift.ensures((&a.points[st.start as int].pos, &d), ps)
            &&& shift.ensures((&a1.points[st.end as int].pos, &d), pe)
            &&& if apart {
                b == snapped_off(a2, i) && j == i
            } else {
                b == a2 && j == i + 1
            }
        },
    }
}

/// A whole cutting sweep of `old`, step by step: step `t` turns
/// `states[t]`, looking at stick `at[t]`, into `states[t + 1]` (see
/// `cut_move`, with the answers and new positions of that step); the sweep
/// starts at the first stick of `old` and ends once no stick is left to look
/// at.
pub open spec fn cut_trace<P, L, D, C, S>(
    old: WindowView<P, L>,
    cut: C,
    shift: S,
    states: Seq<WindowView<P, L>>,
    at: Seq<int>,
    verdicts: Seq<Option<(D, bool)>>,
    ps: Seq<P>,
    pe: Seq<P>,
) -> bool
    where
        C: Fn(&Point<P>, &Point<P>, &Stick<L>) -> Option<(D, bool)>,
        S: Fn(&P, &D) -> P,
{
    &&& states.len() == verdicts.len() + 1
    &&& at.len() == states.len()
    &&& ps.len() == verdicts.len()
    &&& pe.len() == verdicts.len()
    &&& states[0] == old
    &&& at[0] == 0
    &&& at.last() == states.last().sticks.len()
    &&& forall|t: int|
        0 <= t < verdicts.len() ==> #[trigger] cut_move(
            states[t],
            at[t],
            cut,
            shift,
            verdicts[t],
            ps[t],
            pe[t],
            states[t + 1],
            at[t + 1],
        )
}

/// `new` is what deleting the orphans of `mid` leaves (see `delete_orphan_points`).
pub open spec fn orphans_deleted<P, L>(mid: WindowView<P, L>, new: WindowView<P, L>) -> bool {
    &&& new.wf()
    &&& exists|origin: Seq<int>| compacts(mid, new, origin)
    &&& new.orphans.len() == 0
    &&& new.closest_point == (if has_doomed(mid) {
        None
    } else {
        mid.closest_point
    })
    &&& new.newstickstart == mid.newstickstart
    &&& new.newstickend == mid.newstickend
    &&& new.mode == mid.mode
    &&& new.counter == mid.counter
}

/// The bookkeeping of `remove_flagged` after its first `i` sticks were kept:
/// `src` maps each current stick to its old index, `place` maps each old
/// stick to its current index or to -1 once dropped, and `who` names, for
/// each pending orphan, the dropped stick it came from.
#[verifier::opaque]
pub open spec fn flag_loop<P, L>(
    old_v: WindowView<P, L>,
    old_flags: Seq<bool>,
    cur: WindowView<P, L>,
    flags: Seq<bool>,
    i: int,
    src: Seq<int>,
    place: Seq<int>,
    who: Seq<int>,
) -> bool {
    &&& flags.len() == cur.sticks.len()
    &&& src.len() == cur.sticks.len()
    &&& place.len() == old_v.sticks.len()
    &&& old_flags.len() == old_v.sticks.len()
    &&& forall|m: int| 0 <= m < i ==> !#[trigger] flags[m]
    &&& forall|m: int|
        0 <= m < src.len() ==> 0 <= #[trigger] src[m] < old_v.sticks.len() && place[src[m]] == m
            && flags[m] == old_flags[src[m]] && cur.sticks[m] == old_v.sticks[src[m]]
    &&& forall|k: int|
        0 <= k < old_v.sticks.len() && #[trigger] place[k] != -1 ==> 0 <= place[k] < src.len()
            && src[place[k]] == k
    &&& forall|k: int|
        0 <= k < old_v.sticks.len() && #[trigger] place[k] == -1 ==> old_flags[k]
            && cur.orphans.contains(old_v.sticks[k].start) && cur.orphans.contains(old_v.sticks[k].end)
    &&& who.len() == cur.orphans.len()
    &&& forall|w: int|
        0 <= w < who.len() ==> 0 <= #[trigger] who[w] < old_v.sticks.len() && place[who[w]] == -1
            && (cur.orphans[w] == old_v.sticks[who[w]].start || cur.orphans[w]
            == old_v.sticks[who[w]].end)
    &&& cur.counter == old_v.counter + (old_v.sticks.len() - cur.sticks.len())
    &&& cur.closest_point == old_v.closest_point
    &&& cur.newstickstart == old_v.newstickstart
    &&& cur.newstickend == old_v.newstickend
    &&& cur.mode == old_v.mode
}

/// `remove_stick(i)` followed by noting the two ends as orphans and counting
/// the snap is `snapped_off(v0, i)`.
proof fn lemma_snapped_off<P, L>(v0: WindowView<P, L>, i: int, removed: WindowView<P, L>, v1: WindowView<P, L>)
    requires
        v0.wf(),
        0 <= i < v0.sticks.len(),
        stick_removed(v0, i, removed),
        v1 == (WindowView {
            orphans: removed.orphans.push(v0.sticks[i].start).push(v0.sticks[i].end),
            counter: (removed.counter + 1) as usize,
            ..removed
        }),
    ensures
        v1 == snapped_off(v0, i),
{
    let st = v0.sticks[i];
    let next = snapped_off(v0, i);
    assert(v1.points == removed.points);
    assert(v1.points.len() == v0.points.len());
    assert forall|p: int| 0 <= p < v1.points.len() implies #[trigger] v1.points[p] == next.points[p] by {
        assert(removed.points[p].pos == v0.points[p].pos);
        assert(removed.points[p].prev == v0.points[p].prev);
        assert(removed.points[p].is_static == v0.points[p].is_static);
        assert(removed.points[p].connection_count == v0.points[p].connection_count - ends_at(st, p));
        assert(next.points[p] == Point {
            connection_count: (v0.points[p].connection_count - ends_at(st, p)) as u32,
            ..v0.points[p]
        });
    }
    assert(v1.points =~= next.points);
    assert(v1 =~= next);
}

/// One flagged stick of `drop_from`.
proof fn lemma_drop_step<P, L>(v0: WindowView<P, L>, f0: Seq<bool>, i: int, v1: WindowView<P, L>, f1: Seq<bool>)
    requires
        f0.len() == v0.sticks.len(),
        0 <= i < v0.sticks.len(),
        f0[i],
        f1 == f0.update(i, f0.last()).drop_last(),
        v1 == snapped_off(v0, i),
    ensures
        drop_from(v0, f0, i) == drop_from(v1, f1, i),
{
    reveal(drop_from);
}

proof fn lemma_flag_loop_start<P, L>(old_v: WindowView<P, L>, old_flags: Seq<bool>)
    requires
        old_v.orphans.len() == 0,
        old_flags.len() == old_v.sticks.len(),
    ensures
        flag_loop(
            old_v,
            old_flags,
            old_v,
            old_flags,
            0,
            Seq::new(old_v.sticks.len(), |k: int| k),
            Seq::new(old_v.sticks.len(), |k: int| k),
            Seq::empty(),
        ),
{
    reveal(flag_loop);
}

/// What `flag_loop` says of the stick at index `i`.
proof fn lemma_flag_loop_at<P, L>(
    old_v: WindowView<P, L>,
    old_flags: Seq<bool>,
    cur: WindowView<P, L>,
    flags: Seq<bool>,
    i: int,
    src: Seq<int>,
    place: Seq<int>,
    who: Seq<int>,
)
    requires
        flag_loop(old_v, old_flags, cur, flags, i, src, place, who),
        0 <= i < cur.sticks.len(),
    ensures
        0 <= src[i] < old_v.sticks.len(),
        place.len() == old_v.sticks.len(),
        flags.len() == cur.sticks.len(),
        place[src[i]] == i,
        cur.sticks[i] == old_v.sticks[src[i]],
        forall|k: int| 0 <= k < old_v.sticks.len() && #[trigger] place[k] == i ==> k == src[i],
{
    reveal(flag_loop);
}

/// Every stick still in place sits at an index of the current sticks.
proof fn lemma_flag_loop_place<P, L>(
    old_v: WindowView<P, L>,
    old_flags: Seq<bool>,
    cur: WindowView<P, L>,
    flags: Seq<bool>,
    i: int,
    src: Seq<int>,
    place: Seq<int>,
    who: Seq<int>,
)
    requires
        flag_loop(old_v, old_flags, cur, flags, i, src, place, who),
    ensures
        forall|k: int| 0 <= k < old_v.sticks.len() && #[trigger] place[k] != -1 ==> 0 <= place[k] < cur.sticks.len(),
        flags.len() == cur.sticks.len(),
        place.len() == old_v.sticks.len(),
{
    reveal(flag_loop);
}

/// Marks the stick at index `i` (not yet visited) for removal.
proof fn lemma_flag_loop_mark<P, L>(
    old_v: WindowView<P, L>,
    old_flags: Seq<bool>,
    cur: WindowView<P, L>,
    flags: Seq<bool>,
    i: int,
    src: Seq<int>,
    place: Seq<int>,
    who: Seq<int>,
)
    requires
        flag_loop(old_v, old_flags, cur, flags, i, src, place, who),
        0 <= i < cur.sticks.len(),
    ensures
        flag_loop(old_v, old_flags.update(src[i], true), cur, flags.update(i, true), i, src, place, who),
{
    reveal(flag_loop);
    let f2 = flags.update(i, true);
    let of2 = old_flags.update(src[i], true);
    assert forall|m: int| 0 <= m < src.len() implies 0 <= #[trigger] src[m] < old_v.sticks.len()
        && place[src[m]] == m && f2[m] == of2[src[m]] && cur.sticks[m] == old_v.sticks[src[m]] by {
        if m != i {
            assert(place[src[m]] == m);
            assert(place[src[i]] == i);
        }
    }
    assert forall|k: int| 0 <= k < old_v.sticks.len() && #[trigger] place[k] == -1 implies of2[k]
        && cur.orphans.contains(old_v.sticks[k].start) && cur.orphans.contains(old_v.sticks[k].end) by {
        assert(place[src[i]] == i);
    }
}

/// `flag_loop` does not look at the points.
proof fn lemma_flag_loop_points<P, L>(
    old_v: WindowView<P, L>,
    old_flags: Seq<bool>,
    cur: WindowView<P, L>,
    cur2: WindowView<P, L>,
    flags: Seq<bool>,
    i: int,
    src: Seq<int>,
    place: Seq<int>,
    who: Seq<int>,
)
    requires
        flag_loop(old_v, old_flags, cur, flags, i, src, place, who),
        cur2 == (WindowView { points: cur2.points, ..cur }),
    ensures
        flag_loop(old_v, old_flags, cur2, flags, i, src, place, who),
{
    reveal(flag_loop);
}

/// One dropped stick: stick `i` (whose flag is set) left by a swap-remove,
/// its two ends pushed as orphans, the counter bumped.
#[verifier::spinoff_prover]
proof fn lemma_flag_loop_step<P, L>(
    old_v: WindowView<P, L>,
    old_flags: Seq<bool>,
    v0: WindowView<P, L>,
    f0: Seq<bool>,
    i: int,
    src: Seq<int>,
    place: Seq<int>,
    who: Seq<int>,
    v2: WindowView<P, L>,
    f2: Seq<bool>,
) -> (r: (Seq<int>, Seq<int>, Seq<int>))
    requires
        flag_loop(old_v, old_flags, v0, f0, i, src, place, who),
        0 <= i < v0.sticks.len(),
        f0[i],
        f2 == f0.update(i, f0.last()).drop_last(),
        v2.sticks == v0.sticks.update(i, v0.sticks.last()).drop_last(),
        v2.orphans == v0.orphans.push(v0.sticks[i].start).push(v0.sticks[i].end),
        v2.counter == v0.counter + 1,
        v2.closest_point == v0.closest_point,
        v2.newstickstart == v0.newstickstart,
        v2.newstickend == v0.newstickend,
        v2.mode == v0.mode,
    ensures
        flag_loop(old_v, old_flags, v2, f2, i, r.0, r.1, r.2),
        r.1.len() == place.len(),
        r.1[src[i]] == -1,
        forall|k: int|
            0 <= k < place.len() && #[trigger] r.1[k] != -1 && r.1[k] >= i ==> k != src[i] && place[k] != -1
                && place[k] >= i,
        forall|k: int|
            0 <= k < place.len() && k != src[i] && #[trigger] place[k] != -1 && place[k] >= i ==> r.1[k] != -1
                && r.1[k] >= i,
{
    reveal(flag_loop);
    let k = src[i];
    let last = (src.len() - 1) as int;
    let kl = src[last];
    let new_src = src.update(i, kl).drop_last();
    let new_place = if i < last {
        place.update(k, -1).update(kl, i)
    } else {
        place.update(k, -1)
    };
    if i < last {
        assert(k != kl);
    }
    assert forall|m: int|
        0 <= m < new_src.len() implies 0 <= #[trigger] new_src[m] < old_v.sticks.len() && new_place[new_src[m]]
            == m && f2[m] == old_flags[new_src[m]] && v2.sticks[m] == old_v.sticks[new_src[m]] by {
        if m != i {
            assert(place[src[m]] == m);
        }
    }
    assert forall|kk: int|
        0 <= kk < old_v.sticks.len() && #[trigger] new_place[kk] != -1 implies 0 <= new_place[kk]
            < new_src.len() && new_src[new_place[kk]] == kk by {
        if kk != k && !(kk == kl && i < last) {
            assert(src[place[kk]] == kk);
            if place[kk] == last {
                assert(kk == kl);
            }
            if place[kk] == i {
                assert(kk == k);
            }
        }
    }
    let o = v2.orphans;
    assert(o[o.len() - 2] == old_v.sticks[k].start);
    assert(o[o.len() - 1] == old_v.sticks[k].end);
    assert forall|kk: int|
        0 <= kk < old_v.sticks.len() && #[trigger] new_place[kk] == -1 implies old_flags[kk] && o.contains(
            old_v.sticks[kk].start) && o.contains(old_v.sticks[kk].end) by {
        if kk != k {
            assert(place[kk] == -1);
            let a = choose|w: int| 0 <= w < v0.orphans.len() && v0.orphans[w] == old_v.sticks[kk].start;
            let b = choose|w: int| 0 <= w < v0.orphans.len() && v0.orphans[w] == old_v.sticks[kk].end;
            assert(o[a] == v0.orphans[a]);
            assert(o[b] == v0.orphans[b]);
        }
    }
    let new_who = who.push(k).push(k);
    assert forall|w: int|
        0 <= w < new_who.len() implies 0 <= #[trigger] new_who[w] < old_v.sticks.len() && new_place[new_who[w]]
            == -1 && (o[w] == old_v.sticks[new_who[w]].start || o[w] == old_v.sticks[new_who[w]].end) by {
        if w < who.len() {
            assert(new_who[w] == who[w]);
            assert(o[w] == v0.orphans[w]);
            assert(who[w] != k) by {
                if who[w] == k {
                    assert(place[k] == i);
                }
            }
            if i < last {
                assert(who[w] != kl);
            }
        }
    }
    assert forall|m: int| 0 <= m < i implies !#[trigger] f2[m] by {
        assert(f2[m] == f0[m]);
    }
    (new_src, new_place, new_who)
}

proof fn lemma_drops_flagged_intro<P, L>(
    old: WindowView<P, L>,
    flags: Seq<bool>,
    new: WindowView<P, L>,
    src: Seq<int>,
    who: Seq<int>,
)
    requires
        src.len() == new.sticks.len(),
        forall|m: int|
            0 <= m < src.len() ==> 0 <= #[trigger] src[m] < old.sticks.len() && !flags[src[m]]
                && new.sticks[m] == old.sticks[src[m]],
        forall|m1: int, m2: int|
            0 <= m1 < src.len() && 0 <= m2 < src.len() && m1 != m2 ==> #[trigger] src[m1] != #[trigger] src[m2],
        forall|k: int|
            0 <= k < old.sticks.len() && !flags[k] ==> exists|m: int| 0 <= m < src.len() && #[trigger] src[m] == k,
        who.len() == new.orphans.len(),
        forall|w: int|
            0 <= w < who.len() ==> 0 <= #[trigger] who[w] < old.sticks.len() && flags[who[w]] && (
            new.orphans[w] == old.sticks[who[w]].start || new.orphans[w] == old.sticks[who[w]].end),
        forall|k: int|
            0 <= k < old.sticks.len() && #[trigger] flags[k] ==> new.orphans.contains(old.sticks[k].start)
                && new.orphans.contains(old.sticks[k].end),
        new.counter == old.counter + (old.sticks.len() - new.sticks.len()),
        new.closest_point == old.closest_point,
        new.newstickstart == old.newstickstart,
        new.newstickend == old.newstickend,
        new.mode == old.mode,
    ensures
        drops_flagged(old, flags, new, src, who),
{
}

proof fn lemma_flag_loop_end<P, L>(
    old_v: WindowView<P, L>,
    old_flags: Seq<bool>,
    mid: WindowView<P, L>,
    flags: Seq<bool>,
    src: Seq<int>,
    place: Seq<int>,
    who: Seq<int>,
)
    requires
        flag_loop(old_v, old_flags, mid, flags, flags.len() as int, src, place, who),
    ensures
        drops_flagged(old_v, old_flags, mid, src, who),
{
    lemma_drops_flagged_done(old_v, old_flags, mid, flags, src, place, who);
    lemma_drops_flagged_intro(old_v, old_flags, mid, src, who);
}

/// Closes the loop of `remove_flagged`: once every remaining flag is clear,
/// the bookkeeping of the loop amounts to `drops_flagged`.
#[verifier::spinoff_prover]
proof fn lemma_drops_flagged_done<P, L>(
    old_v: WindowView<P, L>,
    old_flags: Seq<bool>,
    mid: WindowView<P, L>,
    flags: Seq<bool>,
    src: Seq<int>,
    place: Seq<int>,
    who: Seq<int>,
)
    requires
        flag_loop(old_v, old_flags, mid, flags, flags.len() as int, src, place, who),
    ensures
        mid.counter == old_v.counter + (old_v.sticks.len() - mid.sticks.len()),
        mid.closest_point == old_v.closest_point,
        mid.newstickstart == old_v.newstickstart,
        mid.newstickend == old_v.newstickend,
        mid.mode == old_v.mode,
        who.len() == mid.orphans.len(),
        src.len() == mid.sticks.len(),
        forall|m: int|
            0 <= m < src.len() ==> 0 <= #[trigger] src[m] < old_v.sticks.len() && !old_flags[src[m]]
                && mid.sticks[m] == old_v.sticks[src[m]],
        forall|m1: int, m2: int|
            0 <= m1 < src.len() && 0 <= m2 < src.len() && m1 != m2 ==> #[trigger] src[m1] != #[trigger] src[m2],
        forall|k: int|
            0 <= k < old_v.sticks.len() && !old_flags[k] ==> exists|m: int| 0 <= m < src.len() && #[trigger] src[m] == k,
        forall|k: int|
            0 <= k < old_v.sticks.len() && #[trigger] old_flags[k] ==> mid.orphans.contains(
                old_v.sticks[k].start) && mid.orphans.contains(old_v.sticks[k].end),
        forall|w: int|
            0 <= w < who.len() ==> 0 <= #[trigger] who[w] < old_v.sticks.len() && old_flags[who[w]]
                && (mid.orphans[w] == old_v.sticks[who[w]].start || mid.orphans[w]
                == old_v.sticks[who[w]].end),
{
    reveal(flag_loop);
    lemma_flagged_src(old_v, old_flags, flags, src, place);
    lemma_flagged_ends_kept(old_v, old_flags, mid, flags, src, place);
    assert forall|w: int| 0 <= w < who.len() implies 0 <= #[trigger] who[w] < old_v.sticks.len()
        && old_flags[who[w]] by {
        assert(place[who[w]] == -1);
    }
}

proof fn lemma_flagged_src<P, L>(
    old_v: WindowView<P, L>,
    old_flags: Seq<bool>,
    flags: Seq<bool>,
    src: Seq<int>,
    place: Seq<int>,
)
    requires
        src.len() == flags.len(),
        place.len() == old_v.sticks.len(),
        forall|m: int|
            0 <= m < src.len() ==> 0 <= #[trigger] src[m] < old_v.sticks.len() && place[src[m]] == m,
        forall|k: int|
            0 <= k < old_v.sticks.len() && #[trigger] place[k] != -1 ==> 0 <= place[k] < src.len()
                && src[place[k]] == k,
        forall|k: int| 0 <= k < old_v.sticks.len() && #[trigger] place[k] == -1 ==> old_flags[k],
    ensures
        forall|k: int|
            0 <= k < old_v.sticks.len() && !old_flags[k] ==> exists|m: int|
                0 <= m < src.len() && #[trigger] src[m] == k,
        forall|m1: int, m2: int|
            0 <= m1 < src.len() && 0 <= m2 < src.len() && m1 != m2 ==> #[trigger] src[m1] != #[trigger] src[m2],
{
    assert forall|k: int|
        0 <= k < old_v.sticks.len() && !old_flags[k] implies exists|m: int|
            0 <= m < src.len() && #[trigger] src[m] == k by {
        if place[k] == -1 {
            assert(old_flags[k]);
        }
        assert(src[place[k]] == k);
    }
    assert forall|m1: int, m2: int|
        0 <= m1 < src.len() && 0 <= m2 < src.len() && m1 != m2 implies #[trigger] src[m1]
            != #[trigger] src[m2] by {
        assert(place[src[m1]] == m1);
        assert(place[src[m2]] == m2);
    }
}

proof fn lemma_flagged_ends_kept<P, L>(
    old_v: WindowView<P, L>,
    old_flags: Seq<bool>,
    mid: WindowView<P, L>,
    flags: Seq<bool>,
    src: Seq<int>,
    place: Seq<int>,
)
    requires
        src.len() == flags.len(),
        place.len() == old_v.sticks.len(),
        forall|m: int| 0 <= m < flags.len() ==> !#[trigger] flags[m],
        forall|m: int| 0 <= m < src.len() ==> flags[m] == old_flags[#[trigger] src[m]],
        forall|k: int|
            0 <= k < old_v.sticks.len() && #[trigger] place[k] != -1 ==> 0 <= place[k] < src.len()
                && src[place[k]] == k,
        forall|k: int|
            0 <= k < old_v.sticks.len() && #[trigger] place[k] == -1 ==> mid.orphans.contains(
                old_v.sticks[k].start) && mid.orphans.contains(old_v.sticks[k].end),
    ensures
        forall|k: int|
            0 <= k < old_v.sticks.len() && #[trigger] old_flags[k] ==> mid.orphans.contains(
                old_v.sticks[k].start) && mid.orphans.contains(old_v.sticks[k].end),
{
    assert forall|k: int| 0 <= k < old_v.sticks.len() && #[trigger] old_flags[k] implies mid.orphans.contains(
        old_v.sticks[k].start) && mid.orphans.contains(old_v.sticks[k].end) by {
        if place[k] != -1 {
            let m = place[k];
            assert(src[m] == k);
            assert(!flags[m]);
        }
    }
}


/// The distinct values below `k` that occur in `s`, in increasing order.
pub open spec fn ascending_below(s: Seq<usize>, k: int) -> Seq<usize>
    decreases k,
{
    if k <= 0 {
        Seq::empty()
    } else {
        let r = ascending_below(s, k - 1);
        if s.contains((k - 1) as usize) {
            r.push((k - 1) as usize)
        } else {
            r
        }
    }
}

/// The sweep over the orphans of `v` from the `i`-th on: an orphan that
/// names a point no stick holds deletes it, the last point moving into its
/// slot, every stick end and later orphan that named the last point now
/// naming the slot, and the selection cleared; at the end the orphan list is
/// emptied.
#[verifier::opaque]
pub open spec fn sweep_from<P, L>(v: WindowView<P, L>, i: int) -> WindowView<P, L>
    decreases v.orphans.len() - i,
{
    if 0 <= i < v.orphans.len() {
        let q = v.orphans[i] as int;
        if q < v.points.len() && v.points[q].connection_count == 0 {
            let last = v.points.len() - 1;
            sweep_from(
                WindowView {
                    points: v.points.update(q, v.points.last()).drop_last(),
                    sticks: relabel_all(v.sticks, last, q),
                    stickscopy: relabel_all(v.stickscopy, last, q),
                    orphans: v.orphans.map_values(|o: usize| if o as int == last { q as usize } else { o }),
                    closest_point: None,
                    ..v
                },
                i + 1,
            )
        } else {
            sweep_from(v, i + 1)
        }
    } else {
        WindowView { orphans: Seq::empty(), ..v }
    }
}

/// `v` after the sweep over its distinct orphans in increasing order.
pub open spec fn orphans_gone<P, L>(v: WindowView<P, L>) -> WindowView<P, L> {
    sweep_from(WindowView { orphans: ascending_below(v.orphans, v.points.len() as int), ..v }, 0)
}

/// What `delete_orphan_points` does to `old`: the sweep over its distinct
/// orphans in increasing order. It amounts to `orphans_deleted`, and when no
/// point is doomed nothing but the orphan list changes.
pub open spec fn orphans_swept<P, L>(old: WindowView<P, L>, new: WindowView<P, L>) -> bool {
    &&& new == orphans_gone(old)
    &&& orphans_deleted(old, new)
    &&& old.counts_exact() ==> new.counts_exact()
    &&& !has_doomed(old) ==> new == (WindowView { orphans: Seq::empty(), ..old })
}

/// The distinct values of `v`, in increasing order.
fn sorted_distinct(v: &Vec<usize>, n: usize) -> (r: Vec<usize>)
    requires
        forall|j: int| 0 <= j < v.len() ==> #[trigger] v[j] < n,
    ensures
        forall|j1: int, j2: int| 0 <= j1 < j2 < r.len() ==> #[trigger] r[j1] < #[trigger] r[j2],
        forall|j: int| 0 <= j < r.len() ==> #[trigger] r[j] < n,
        forall|q: usize| r@.contains(q) <==> v@.contains(q),
        r@ == ascending_below(v@, n as int),
{
    let mut marks: Vec<bool> = Vec::new();
    let mut k: usize = 0;
    while k < n
        invariant
            k <= n,
            marks.len() == k,
            forall|t: int| 0 <= t < k ==> !#[trigger] marks[t],
        decreases n - k,
    {
        marks.push(false);
        k += 1;
    }
    let mut j: usize = 0;
    while j < v.len()
        invariant
            j <= v.len(),
            marks.len() == n,
            forall|jj: int| 0 <= jj < v.len() ==> #[trigger] v[jj] < n,
            forall|t: int| 0 <= t < n ==> (#[trigger] marks[t] <==> v@.subrange(0, j as int).contains(t as usize)),
        decreases v.len() - j,
    {
        let t = v[j];
        marks[t] = true;
        proof {
            let s1 = v@.subrange(0, j as int);
            let s2 = v@.subrange(0, j + 1);
            assert(s2 =~= s1.push(t));
            assert forall|u: int| 0 <= u < n implies (#[trigger] marks[u] <==> s2.contains(u as usize)) by {
                if s2.contains(u as usize) && u != t {
                    let w = choose|w: int| 0 <= w < s2.len() && s2[w] == u as usize;
                    assert(s1[w] == u as usize);
                }
                if s1.contains(u as usize) {
                    let w = choose|w: int| 0 <= w < s1.len() && s1[w] == u as usize;
                    assert(s2[w] == u as usize);
                }
                if u == t {
                    assert(s2[j as int] == t);
                }
            }
        }
        j += 1;
    }
    assert(v@.subrange(0, v.len() as int) =~= v@);
    let mut r: Vec<usize> = Vec::new();
    let mut k: usize = 0;
    while k < n
        invariant
            k <= n,
            marks.len() == n,
            forall|t: int| 0 <= t < n ==> (#[trigger] marks[t] <==> v@.contains(t as usize)),
            forall|jj: int| 0 <= jj < v.len() ==> #[trigger] v[jj] < n,
            forall|j1: int, j2: int| 0 <= j1 < j2 < r.len() ==> #[trigger] r[j1] < #[trigger] r[j2],
            forall|jj: int| 0 <= jj < r.len() ==> #[trigger] r[jj] < k,
            forall|q: usize| q < k ==> (r@.contains(q) <==> v@.contains(q)),
            r@ == ascending_below(v@, k as int),
        decreases n - k,
    {
        let ghost r0 = r@;
        if marks[k] {
            r.push(k);
        }
        proof {
            assert forall|q: usize| q < k + 1 implies (r@.contains(q) <==> v@.contains(q)) by {
                if r@.contains(q) {
                    let w = choose|w: int| 0 <= w < r.len() && r[w] == q;
                    if w < r0.len() {
                        assert(r0[w] == q);
                    }
                }
                if q < k && r0.contains(q) {
                    let w = choose|w: int| 0 <= w < r0.len() && r0[w] == q;
                    assert(r[w] == q);
                }
                if q == k && marks[k as int] {
                    assert(r[r.len() - 1] == q);
                }
                if q == k && r@.contains(q) && !marks[k as int] {
                    let w = choose|w: int| 0 <= w < r.len() && r[w] == q;
                    assert(r0[w] < k);
                }
            }
        }
        k += 1;
    }
    proof {
        assert forall|q: usize| r@.contains(q) <==> v@.contains(q) by {
            if v@.contains(q) {
                let w = choose|w: int| 0 <= w < v.len() && v[w] == q;
                assert(v[w] < n);
            }
            if r@.contains(q) {
                let w = choose|w: int| 0 <= w < r.len() && r[w] == q;
                assert(r[w] < n);
            }
        }
    }
    r
}

/// Moves every stick end that rests on `from` to `to`.
fn relabel_sticks<L: Copy>(v: &mut Vec<Stick<L>>, from: usize, to: usize)
    ensures
        final(v)@ == relabel_all(old(v)@, from as int, to as int),
{
    let ghost v0 = v@;
    let mut k: usize = 0;
    while k < v.len()
        invariant
            k <= v.len(),
            v.len() == v0.len(),
            forall|t: int| 0 <= t < k ==> #[trigger] v[t] == relabel_stick(v0[t], from as int, to as int),
            forall|t: int| k <= t < v.len() ==> #[trigger] v[t] == v0[t],
        decreases v.len() - k,
    {
        let mut st = v[k];
        if st.start == from {
            st.start = to;
        }
        if st.end == from {
            st.end = to;
        }
        v[k] = st;
        k += 1;
    }
    assert(v@ =~= relabel_all(v0, from as int, to as int));
}

/// Replaces every `from` in `v` by `to`.
fn relabel_indices(v: &mut Vec<usize>, from: usize, to: usize)
    ensures
        final(v).len() == old(v).len(),
        forall|t: int| 0 <= t < final(v).len() ==> #[trigger] final(v)[t] == (if old(v)[t] == from { to } else { old(v)[t] }),
{
    let ghost v0 = v@;
    let mut j: usize = 0;
    while j != v.len()
        invariant
            j <= v.len(),
            v.len() == v0.len(),
            forall|t: int| 0 <= t < j ==> #[trigger] v[t] == (if v0[t] == from { to } else { v0[t] }),
            forall|t: int| j <= t < v.len() ==> #[trigger] v[t] == v0[t],
        decreases v.len() - j,
    {
        if v[j] == from {
            v[j] = to;
        }
        j += 1;
    }
}

/// The cloth and the tool state that acts on it.
pub struct Window<P, L> {
    points: Vec<Point<P>>,
    sticks: Vec<Stick<L>>,
    stickscopy: Vec<Stick<L>>,
    orphans: Vec<usize>,
    closest_point: Option<usize>,
    newstickstart: Option<usize>,
    newstickend: Option<usize>,
    currentmode: Mode,
    counter: usize,
}

impl<P, L> View for Window<P, L> {
    type V = WindowView<P, L>;

    closed spec fn view(&self) -> WindowView<P, L> {
        WindowView {
            points: self.points@,
            sticks: self.sticks@,
            stickscopy: self.stickscopy@,
            orphans: self.orphans@,
            closest_point: self.closest_point,
            newstickstart: self.newstickstart,
            newstickend: self.newstickend,
            mode: self.currentmode,
            counter: self.counter,
        }
    }
}

impl<P: Copy, L: Copy> Window<P, L> {
    /// An empty cloth in place mode.
    pub fn new() -> (w: Self)
        ensures
            w@.wf(),
            w@.points.len() == 0,
            w@.sticks.len() == 0,
            w@.orphans.len() == 0,
            w@.closest_point is None,
            w@.newstickstart is None,
            w@.newstickend is None,
            w@.mode == Mode::Place,
            w@.counter == 0,
    {
        Window {
            points: Vec::new(),
            sticks: Vec::new(),
            stickscopy: Vec::new(),
            orphans: Vec::new(),
            closest_point: None,
            newstickstart: None,
            newstickend: None,
            currentmode: Mode::Place,
            counter: 0,
        }
    }

    /// The points.
    pub fn points(&self) -> (r: &Vec<Point<P>>)
        ensures
            r@ == self@.points,
    {
        &self.points
    }

    /// The sticks.
    pub fn sticks(&self) -> (r: &Vec<Stick<L>>)
        ensures
            r@ == self@.sticks,
    {
        &self.sticks
    }

    /// The point nearest the mouse, as last computed.
    pub fn closest_point(&self) -> (r: Option<usize>)
        ensures
            r == self@.closest_point,
    {
        self.closest_point
    }

    /// The point a new stick starts from, while one is being drawn.
    pub fn newstickstart(&self) -> (r: Option<usize>)
        ensures
            r == self@.newstickstart,
    {
        self.newstickstart
    }

    /// The point a new stick ends at, once the button is released.
    pub fn newstickend(&self) -> (r: Option<usize>)
        ensures
            r == self@.newstickend,
    {
        self.newstickend
    }

    /// The current tool.
    pub fn mode(&self) -> (r: Mode)
        ensures
            r == self@.mode,
    {
        self.currentmode
    }

    /// The number of sticks cut or snapped since the counter was last taken.
    pub fn counter(&self) -> (r: usize)
        ensures
            r == self@.counter,
    {
        self.counter
    }

    /// Takes the number of sticks cut or snapped so far, and starts counting
    /// again from zero.
    pub fn take_counter(&mut self) -> (n: usize)
        requires
            old(self)@.wf(),
        ensures
            n == old(self)@.counter,
            final(self)@.wf(),
            old(self)@.counts_exact() ==> final(self)@.counts_exact(),
            final(self)@ == (WindowView { counter: 0, ..old(self)@ }),
    {
        let n = self.counter;
        self.counter = 0;
        n
    }

    /// The points waiting to be deleted if they lost their last stick; none
    /// between two tool calls.
    pub fn orphans(&self) -> (r: &Vec<usize>)
        ensures
            r@ == self@.orphans,
    {
        &self.orphans
    }

    /// Selects a point (or none) as the one nearest the mouse.
    pub fn set_closest_point(&mut self, closest: Option<usize>)
        requires
            old(self)@.wf(),
        ensures
            final(self)@.wf(),
            old(self)@.counts_exact() ==> final(self)@.counts_exact(),
            final(self)@ == (WindowView { closest_point: closest, ..old(self)@ }),
    {
        self.closest_point = closest;
    }

    /// Switches the tool.
    pub fn set_mode(&mut self, mode: Mode)
        requires
            old(self)@.wf(),
        ensures
            final(self)@.wf(),
            old(self)@.counts_exact() ==> final(self)@.counts_exact(),
            final(self)@ == (WindowView { mode: mode, ..old(self)@ }),
    {
        self.currentmode = mode;
    }

    /// Sets the two ends of the stick being drawn.
    pub(crate) fn set_connection(&mut self, start: Option<usize>, end: Option<usize>)
        requires
            old(self)@.wf(),
        ensures
            final(self)@.wf(),
            old(self)@.counts_exact() ==> final(self)@.counts_exact(),
            final(self)@ == (WindowView { newstickstart: start, newstickend: end, ..old(self)@ }),
    {
        self.newstickstart = start;
        self.newstickend = end;
    }

    /// Pins or unpins point `i`.
    pub(crate) fn set_static(&mut self, i: usize, pinned: bool)
        requires
            old(self)@.wf(),
            i < old(self)@.points.len(),
        ensures
            final(self)@.wf(),
            old(self)@.counts_exact() ==> final(self)@.counts_exact(),
            final(self)@ == (WindowView {
                points: old(self)@.points.update(
                    i as int,
                    Point { is_static: pinned, ..old(self)@.points[i as int] },
                ),
                ..old(self)@
            }),
    {
        let mut p = self.points[i];
        p.is_static = pinned;
        self.points[i] = p;
    }

    /// Sets the position and the previous position of point `i`.
    pub(crate) fn set_motion(&mut self, i: usize, pos: P, prev: P)
        requires
            old(self)@.wf(),
            i < old(self)@.points.len(),
        ensures
            final(self)@.wf(),
            old(self)@.counts_exact() ==> final(self)@.counts_exact(),
            final(self)@ == (WindowView {
                points: old(self)@.points.update(
                    i as int,
                    Point { pos: pos, prev: prev, ..old(self)@.points[i as int] },
                ),
                ..old(self)@
            }),
    {
        let mut p = self.points[i];
        p.pos = pos;
        p.prev = prev;
        self.points[i] = p;
    }

    /// Exchanges the two stick buffers (the read and the write buffer of a
    /// relaxation pass); being equal, they stay as they were.
    pub(crate) fn swap_stick_buffers(&mut self)
        requires
            old(self)@.wf(),
        ensures
            final(self)@ == old(self)@,
    {
        std::mem::swap(&mut self.sticks, &mut self.stickscopy);
        assert(self@ =~= old(self)@);
    }

    /// The stick at index `k` of the read buffer.
    pub(crate) fn stick_copy(&self, k: usize) -> (st: Stick<L>)
        requires
            self@.wf(),
            k < self@.sticks.len(),
        ensures
            st == self@.sticks[k as int],
    {
        self.stickscopy[k]
    }

    /// Disconnects every point: both stick buffers are emptied. The
    /// connection counts are left as they were.
    pub fn clear_sticks(&mut self)
        requires
            old(self)@.wf(),
        ensures
            final(self)@.wf(),
            final(self)@ == (WindowView { sticks: Seq::empty(), stickscopy: Seq::empty(), ..old(self)@ }),
    {
        self.sticks.clear();
        self.stickscopy.clear();
        proof {
            assert forall|p: int| 0 <= p < self@.points.len() implies #[trigger] self@.points[p].connection_count
                >= degree(self@.sticks, p) by {
            }
        }
    }

    /// Erases everything: sticks and points. With no point left, nothing is
    /// selected; a stick being drawn stays pending.
    pub fn clear_all(&mut self)
        requires
            old(self)@.wf(),
            old(self)@.orphans.len() == 0,
        ensures
            final(self)@.wf(),
            final(self)@.counts_exact(),
            final(self)@ == (WindowView {
                sticks: Seq::empty(),
                stickscopy: Seq::empty(),
                points: Seq::empty(),
                closest_point: None,
                ..old(self)@
            }),
    {
        self.sticks.clear();
        self.stickscopy.clear();
        self.points.clear();
        self.closest_point = None;
    }

    /// The points as last drawn: the position of each point and whether it
    /// is the selected one.
    pub fn render_points(&self) -> (r: Vec<(P, bool)>)
        ensures
            r.len() == self@.points.len(),
            forall|i: int|
                0 <= i < r.len() ==> #[trigger] r[i] == (self@.points[i].pos, self@.closest_point == Some(
                    i as usize,
                )),
    {
        let mut r: Vec<(P, bool)> = Vec::new();
        let mut i: usize = 0;
        while i < self.points.len()
            invariant
                i <= self.points.len(),
                r.len() == i,
                forall|k: int|
                    0 <= k < i ==> #[trigger] r[k] == (self@.points[k].pos, self@.closest_point == Some(
                        k as usize,
                    )),
            decreases self.points.len() - i,
        {
            let pos = self.points[i].pos;
            let highlighted = match self.closest_point {
                Some(c) => c == i,
                None => false,
            };
            r.push((pos, highlighted));
            i += 1;
        }
        r
    }

    /// The sticks as last drawn: the positions of the two ends of each stick.
    pub fn render_sticks(&self) -> (r: Vec<(P, P)>)
        requires
            self@.wf(),
        ensures
            r.len() == self@.sticks.len(),
            forall|k: int|
                0 <= k < r.len() ==> #[trigger] r[k] == (
                    self@.points[self@.sticks[k].start as int].pos,
                    self@.points[self@.sticks[k].end as int].pos,
                ),
    {
        let mut r: Vec<(P, P)> = Vec::new();
        let mut k: usize = 0;
        while k < self.sticks.len()
            invariant
                self@.wf(),
                k <= self.sticks.len(),
                r.len() == k,
                forall|t: int|
                    0 <= t < k ==> #[trigger] r[t] == (
                        self@.points[self@.sticks[t].start as int].pos,
                        self@.points[self@.sticks[t].end as int].pos,
                    ),
            decreases self.sticks.len() - k,
        {
            let stick = self.sticks[k];
            assert(self@.sticks[k as int].start < self@.points.len());
            r.push((self.points[stick.start].pos, self.points[stick.end].pos));
            k += 1;
        }
        r
    }

    /// Appends a fresh, unconnected point resting at `pos`.
    pub(crate) fn push_point(&mut self, pos: P, is_static: bool)
        requires
            old(self)@.wf(),
        ensures
            final(self)@.wf(),
            old(self)@.counts_exact() ==> final(self)@.counts_exact(),
            final(self)@ == (WindowView {
                points: old(self)@.points.push(
                    Point { pos: pos, prev: pos, connection_count: 0, is_static: is_static },
                ),
                ..old(self)@
            }),
    {
        self.points.push(Point { pos: pos, prev: pos, connection_count: 0, is_static: is_static });
        proof {
            let v = self@;
            let q = v.points.len() - 1;
            assert forall|k: int| 0 <= k < v.sticks.len() implies v.sticks[k].start != q && v.sticks[k].end
                != q by {
                assert(v.sticks[k].start < q);
            }
            lemma_degree_untouched(v.sticks, q);
            assert forall|p: int| 0 <= p < v.points.len() implies #[trigger] v.points[p].connection_count
                >= degree(v.sticks, p) && (old(self)@.counts_exact() ==> v.points[p].connection_count
                == degree(v.sticks, p)) by {
                if p < q {
                    assert(v.points[p] == old(self)@.points[p]);
                }
            }
        }
    }

    /// Moves point `i` to `pos`, leaving its previous position alone.
    pub(crate) fn set_pos(&mut self, i: usize, pos: P)
        requires
            old(self)@.wf(),
            i < old(self)@.points.len(),
        ensures
            final(self)@.wf(),
            old(self)@.counts_exact() ==> final(self)@.counts_exact(),
            final(self)@ == (WindowView {
                points: old(self)@.points.update(i as int, Point { pos: pos, ..old(self)@.points[i as int] }),
                ..old(self)@
            }),
    {
        let mut p = self.points[i];
        p.pos = pos;
        self.points[i] = p;
    }

    /// Adds `n` to the connection count of point `i`.
    fn bump_count(&mut self, i: usize, n: u32)
        requires
            i < old(self)@.points.len(),
            old(self)@.points[i as int].connection_count + n <= u32::MAX,
        ensures
            final(self)@ == (WindowView {
                points: old(self)@.points.update(
                    i as int,
                    final(self)@.points[i as int],
                ),
                ..old(self)@
            }),
            final(self)@.points[i as int].connection_count == old(self)@.points[i as int].connection_count + n,
            final(self)@.points[i as int].pos == old(self)@.points[i as int].pos,
            final(self)@.points[i as int].prev == old(self)@.points[i as int].prev,
            final(self)@.points[i as int].is_static == old(self)@.points[i as int].is_static,
    {
        let mut p = self.points[i];
        p.connection_count = p.connection_count + n;
        self.points[i] = p;
    }

    /// Takes `n` from the connection count of point `i`.
    fn drop_count(&mut self, i: usize, n: u32)
        requires
            i < old(self)@.points.len(),
            old(self)@.points[i as int].connection_count >= n,
        ensures
            final(self)@ == (WindowView {
                points: old(self)@.points.update(
                    i as int,
                    final(self)@.points[i as int],
                ),
                ..old(self)@
            }),
            final(self)@.points[i as int].connection_count == old(self)@.points[i as int].connection_count - n,
            final(self)@.points[i as int].pos == old(self)@.points[i as int].pos,
            final(self)@.points[i as int].prev == old(self)@.points[i as int].prev,
            final(self)@.points[i as int].is_static == old(self)@.points[i as int].is_static,
    {
        let mut p = self.points[i];
        p.connection_count = p.connection_count - n;
        self.points[i] = p;
    }

    /// Removes stick `index` (the last stick takes its place) and returns the
    /// indices of the two points it joined.
    pub fn remove_stick(&mut self, index: usize) -> (ends: (usize, usize))
        requires
            old(self)@.wf(),
            index < old(self)@.sticks.len(),
        ensures
            stick_removed(old(self)@, index as int, final(self)@),
            ends == (old(self)@.sticks[index as int].start, old(self)@.sticks[index as int].end),
    {
        let ghost old_v = self@;
        let stick = self.sticks.swap_remove(index);
        let _ = self.stickscopy.swap_remove(index);
        let ghost mid = self@.sticks;
        proof {
            lemma_degree_swap_remove(old_v.sticks, index as int, stick.start as int);
            lemma_degree_swap_remove(old_v.sticks, index as int, stick.end as int);
        }
        self.drop_count(stick.start, 1);
        self.drop_count(stick.end, 1);
        proof {
            assert(old_v.wf());
            assert forall|k: int| 0 <= k < self@.sticks.len() implies #[trigger] self@.sticks[k].start
                < self@.points.len() && self@.sticks[k].end < self@.points.len() by {
                if k == index {
                    assert(self@.sticks[k] == old_v.sticks.last());
                } else {
                    assert(self@.sticks[k] == old_v.sticks[k]);
                }
            }
            assert forall|p: int| 0 <= p < self@.points.len() implies #[trigger] self@.points[p].connection_count
                >= degree(self@.sticks, p) && (old_v.counts_exact() ==> self@.points[p].connection_count
                == degree(self@.sticks, p)) && self@.points[p].connection_count
                == old_v.points[p].connection_count - ends_at(stick, p) by {
                lemma_degree_swap_remove(old_v.sticks, index as int, p);
            }
            assert(self@.orphans == old_v.orphans);
            assert(self@.points.len() == old_v.points.len());
        }
        (stick.start, stick.end)
    }

    /// Deletes every pending orphan that no stick holds any more, each by
    /// moving the last point into its slot and renumbering the stick ends
    /// (and the orphans still to visit) that named the last point. Clears the
    /// orphan list, and the selection if any point went.
    #[verifier::spinoff_prover]
    pub fn delete_orphan_points(&mut self)
        requires
            old(self)@.wf(),
        ensures
            orphans_swept(old(self)@, final(self)@),
            final(self)@.points.len() <= old(self)@.points.len(),
    {
        let ghost old_v = self@;
        let n = self.points.len();
        assert(forall|j: int| 0 <= j < self.orphans.len() ==> #[trigger] self@.orphans[j] < n);
        self.orphans = sorted_distinct(&self.orphans, n);
        let ghost ord = self.orphans@;
        let ghost start = self@;
        assert(start == WindowView { orphans: ascending_below(old_v.orphans, n as int), ..old_v });
        let ghost mut origin: Seq<int> = Seq::new(n as nat, |k: int| k);
        let ghost mut place: Seq<int> = Seq::new(n as nat, |k: int| k);
        let ghost mut gone: Option<int> = None;
        proof {
            assert forall|m: int| 0 <= m < self.sticks.len() implies #[trigger] self.sticks[m].start
                < self.points.len() && self.sticks[m].end < self.points.len() && origin[self.sticks[m].start as int]
                == old_v.sticks[m].start && origin[self.sticks[m].end as int] == old_v.sticks[m].end
                && self.sticks[m].target_length == old_v.sticks[m].target_length by {
                assert(self@.sticks[m] == old_v.sticks[m]);
                assert(old_v.sticks[m].start < n);
                assert(old_v.sticks[m].end < n);
            }
        }
        let mut i: usize = 0;
        while i != self.orphans.len()
            invariant
                old_v.wf(),
                n == old_v.points.len(),
                i <= ord.len(),
                self.orphans.len() == ord.len(),
                forall|j1: int, j2: int| 0 <= j1 < j2 < ord.len() ==> #[trigger] ord[j1] < #[trigger] ord[j2],
                forall|j: int| 0 <= j < ord.len() ==> #[trigger] ord[j] < n,
                forall|q: usize| ord.contains(q) <==> old_v.orphans.contains(q),
                origin.len() == self.points.len(),
                place.len() == n,
                forall|k: int|
                    0 <= k < self.points.len() ==> 0 <= #[trigger] origin[k] < n && place[origin[k]] == k
                        && self.points[k] == old_v.points[origin[k]],
                forall|q: int|
                    0 <= q < n ==> (#[trigger] place[q] == -1 <==> (exists|j: int|
                        0 <= j < i && ord[j] == q && old_v.points[q].connection_count == 0)),
                forall|q: int|
                    0 <= q < n && #[trigger] place[q] != -1 ==> 0 <= place[q] < self.points.len()
                        && origin[place[q]] == q,
                self.sticks.len() == old_v.sticks.len(),
                forall|m: int|
                    0 <= m < self.sticks.len() ==> #[trigger] self.sticks[m].start < self.points.len()
                        && self.sticks[m].end < self.points.len()
                        && origin[self.sticks[m].start as int] == old_v.sticks[m].start
                        && origin[self.sticks[m].end as int] == old_v.sticks[m].end
                        && self.sticks[m].target_length == old_v.sticks[m].target_length,
                self.stickscopy@ == self.sticks@,
                forall|k: int|
                    0 <= k < self.points.len() ==> #[trigger] self.points[k].connection_count >= degree(
                        self.sticks@,
                        k,
                    ) && (old_v.counts_exact() ==> self.points[k].connection_count == degree(self.sticks@, k)),
                forall|j: int|
                    i <= j < ord.len() ==> #[trigger] self.orphans[j] < self.points.len()
                        && origin[self.orphans[j] as int] == ord[j],
                gone is None ==> self.closest_point == old_v.closest_point,
                gone is None ==> self.points@ == old_v.points && self.sticks@ == old_v.sticks
                    && self.stickscopy@ == old_v.stickscopy,
                gone is None ==> forall|q: int| 0 <= q < n ==> #[trigger] place[q] != -1,
                gone matches Some(g) ==> 0 <= g < n && place[g] == -1 && self.closest_point is None,
                self.newstickstart == old_v.newstickstart,
                self.newstickend == old_v.newstickend,
                self.currentmode == old_v.mode,
                self.counter == old_v.counter,
                sweep_from(self@, i as int) == sweep_from(start, 0),
            decreases ord.len() - i,
        {
            let ghost cur = self@;
            let point = self.orphans[i];
            let remove = if point < self.points.len() {
                self.points[point].connection_count == 0
            } else {
                false
            };
            if remove {
                if self.points.len() == 0 {
                    return;
                }
                let ghost pts0 = self.points@;
                let ghost sticks0 = self.sticks@;
                let ghost orph0 = self.orphans@;
                let _ = self.points.swap_remove(point);
                self.closest_point = None;
                let last = self.points.len();
                relabel_sticks(&mut self.sticks, last, point);
                relabel_sticks(&mut self.stickscopy, last, point);
                relabel_indices(&mut self.orphans, last, point);
                proof {
                    let next = WindowView {
                        points: cur.points.update(point as int, cur.points.last()).drop_last(),
                        sticks: relabel_all(cur.sticks, last as int, point as int),
                        stickscopy: relabel_all(cur.stickscopy, last as int, point as int),
                        orphans: cur.orphans.map_values(
                            |o: usize| if o as int == last as int { point as usize } else { o },
                        ),
                        closest_point: None,
                        ..cur
                    };
                    assert(self.orphans@ =~= next.orphans);
                    assert(self@ =~= next);
                    assert(sweep_from(cur, i as int) == sweep_from(next, i + 1)) by {
                        reveal(sweep_from);
                    }
                }
                proof {
                    let o_p = origin[point as int];
                    let o_l = origin[last as int];
                    lemma_degree_zero(sticks0, point as int);
                    let new_place = if point < last {
                        place.update(o_p, -1).update(o_l, point as int)
                    } else {
                        place.update(o_p, -1)
                    };
                    let new_origin = origin.update(point as int, o_l).drop_last();
                    assert(o_p == ord[i as int]);
                    if point < last {
                        assert(o_p != o_l);
                    }
                    assert forall|k: int|
                        0 <= k < self.points.len() implies 0 <= #[trigger] new_origin[k] < n
                            && new_place[new_origin[k]] == k && self.points[k]
                            == old_v.points[new_origin[k]] by {
                        if k != point {
                            assert(place[origin[k]] == k);
                        }
                    }
                    assert forall|q: int|
                        0 <= q < n implies (#[trigger] new_place[q] == -1 <==> (exists|j: int|
                            0 <= j < i + 1 && ord[j] == q && old_v.points[q].connection_count == 0)) by {
                        if q == o_p {
                            assert(ord[i as int] == q);
                        } else {
                            if exists|j: int|
                                0 <= j < i + 1 && ord[j] == q && old_v.points[q].connection_count == 0 {
                                let j = choose|j: int|
                                    0 <= j < i + 1 && ord[j] == q && old_v.points[q].connection_count
                                        == 0;
                                assert(j < i);
                            }
                            if q == o_l && point < last {
                                assert(place[q] == last);
                            }
                        }
                    }
                    assert forall|q: int|
                        0 <= q < n && #[trigger] new_place[q] != -1 implies 0 <= new_place[q]
                            < self.points.len() && new_origin[new_place[q]] == q by {
                        if q != o_p && !(q == o_l && point < last) {
                            assert(place[q] != -1);
                            assert(origin[place[q]] == q);
                            if place[q] == last {
                                assert(q == o_l);
                            }
                            if place[q] == point {
                                assert(q == o_p);
                            }
                        }
                    }
                    assert forall|m: int|
                        0 <= m < self.sticks.len() implies #[trigger] self.sticks[m].start
                            < self.points.len() && self.sticks[m].end < self.points.len()
                            && new_origin[self.sticks[m].start as int] == old_v.sticks[m].start
                            && new_origin[self.sticks[m].end as int] == old_v.sticks[m].end
                            && self.sticks[m].target_length == old_v.sticks[m].target_length by {
                        assert(self.sticks[m] == relabel_stick(sticks0[m], last as int, point as int));
                    }
                    assert forall|k: int|
                        0 <= k < self.points.len() implies #[trigger] self.points[k].connection_count
                            >= degree(self.sticks@, k) && (old_v.counts_exact() ==> self.points[k].connection_count
                            == degree(self.sticks@, k)) by {
                        if point < last {
                            lemma_degree_relabel(sticks0, last as int, point as int, k);
                        } else {
                            assert(self.sticks@ =~= sticks0);
                        }
                    }
                    assert forall|j: int|
                        i + 1 <= j < ord.len() implies #[trigger] self.orphans[j] < self.points.len()
                            && new_origin[self.orphans[j] as int] == ord[j] by {
                        assert(ord[i as int] < ord[j]);
                        if orph0[j] == point {
                            assert(origin[orph0[j] as int] == o_p);
                        }
                    }
                    origin = new_origin;
                    place = new_place;
                    gone = Some(o_p);
                }
            } else {
                proof {
                    assert(sweep_from(cur, i as int) == sweep_from(cur, i + 1)) by {
                        reveal(sweep_from);
                    }
                    assert forall|q: int|
                        0 <= q < n implies (#[trigger] place[q] == -1 <==> (exists|j: int|
                            0 <= j < i + 1 && ord[j] == q && old_v.points[q].connection_count == 0)) by {
                        if exists|j: int|
                            0 <= j < i + 1 && ord[j] == q && old_v.points[q].connection_count == 0 {
                            let j = choose|j: int|
                                0 <= j < i + 1 && ord[j] == q && old_v.points[q].connection_count == 0;
                            if j == i {
                                assert(origin[point as int] == q);
                            }
                        }
                    }
                }
            }
            i += 1;
        }
        let ghost end = self@;
        let ghost kept = self.sticks@;
        assert(forall|m: int|
            0 <= m < kept.len() ==> #[trigger] kept[m].start < self.points.len() && kept[m].end
                < self.points.len() && origin[kept[m].start as int] == old_v.sticks[m].start
                && origin[kept[m].end as int] == old_v.sticks[m].end
                && kept[m].target_length == old_v.sticks[m].target_length);
        self.orphans.clear();
        assert(self.sticks@ == kept);
        proof {
            assert(self@ =~= sweep_from(end, i as int)) by {
                reveal(sweep_from);
            }
            assert forall|q: int| 0 <= q < n implies (#[trigger] place[q] == -1 <==> doomed(old_v, q)) by {
                if place[q] == -1 {
                    let j = choose|j: int|
                        0 <= j < ord.len() && ord[j] == q && old_v.points[q].connection_count == 0;
                    assert(ord.contains(q as usize));
                }
                if doomed(old_v, q) {
                    assert(ord.contains(q as usize));
                    let j = choose|j: int| 0 <= j < ord.len() && ord[j] == q as usize;
                    assert(ord[j] == q);
                }
            }
            assert forall|q: int|
                0 <= q < n && !doomed(old_v, q) implies exists|k: int|
                    0 <= k < origin.len() && #[trigger] origin[k] == q by {
                assert(origin[place[q]] == q);
            }
            assert forall|k1: int, k2: int|
                0 <= k1 < origin.len() && 0 <= k2 < origin.len() && k1 != k2 implies #[trigger] origin[k1]
                    != #[trigger] origin[k2] by {
                assert(place[origin[k1]] == k1);
                assert(place[origin[k2]] == k2);
            }
            let fin = self@;
            assert(origin.len() == fin.points.len());
            assert(forall|k: int|
                0 <= k < origin.len() ==> 0 <= #[trigger] origin[k] < old_v.points.len() && !doomed(old_v, origin[k])
                    && fin.points[k] == old_v.points[origin[k]]);
            assert(fin.sticks == kept);
            assert(fin.sticks.len() == old_v.sticks.len());
            assert forall|m: int|
                0 <= m < fin.sticks.len() implies origin[#[trigger] fin.sticks[m].start as int] == old_v.sticks[m].start
                    && origin[fin.sticks[m].end as int] == old_v.sticks[m].end
                    && fin.sticks[m].target_length == old_v.sticks[m].target_length by {
                assert(fin.sticks[m] == kept[m]);
            }
            assert(compacts(old_v, fin, origin));
            lemma_compacts_shrinks(old_v, fin, origin);
            if let Some(g) = gone {
                assert(doomed(old_v, g));
            } else {
                assert forall|q: int| !doomed(old_v, q) by {
                    if 0 <= q < n {
                        assert(place[q] != -1);
                    }
                }
                assert(self@ =~= WindowView { orphans: Seq::empty(), ..old_v });
            }
            assert(self@ == sweep_from(start, 0));
            assert(orphans_deleted(old_v, self@));
            assert(old_v.counts_exact() ==> self@.counts_exact());
            assert(!has_doomed(old_v) ==> self@ == (WindowView { orphans: Seq::empty(), ..old_v }));
        }
    }

    /// Snaps every stick whose flag in `too_long` is set (the flags follow
    /// the order of the sticks), counts the snaps, and deletes the points
    /// that were left without any stick.
    pub fn snap_apart_too_long_sticks(&mut self, too_long: Vec<bool>)
        requires
            old(self)@.wf(),
            old(self)@.orphans.len() == 0,
            too_long.len() == old(self)@.sticks.len(),
            old(self)@.counter + count_set(too_long@) <= usize::MAX,
        ensures
            snap_result(old(self)@, too_long@, final(self)@),
    {
        let ghost flags = too_long@;
        self.remove_flagged(too_long);
        self.delete_orphan_points();
    }

    /// Sweeps the cutting tool over the sticks while the button is `held`.
    /// Each stick is shown to `cut` with its two ends; an answer `Some((d,
    /// apart))` moves both ends by `d` (through `shift`, the start first)
    /// and, if `apart`, removes the stick, notes its ends as orphans and
    /// counts the cut. The points left without any stick are then deleted.
    pub fn cut_sticks<D, C, S>(&mut self, held: bool, cut: C, shift: S)
        where
            C: Fn(&Point<P>, &Point<P>, &Stick<L>) -> Option<(D, bool)>,
            S: Fn(&P, &D) -> P,
        requires
            old(self)@.wf(),
            old(self)@.orphans.len() == 0,
            forall|a: &Point<P>, b: &Point<P>, st: &Stick<L>| #[trigger] cut.requires((a, b, st)),
            forall|p: &P, d: &D| #[trigger] shift.requires((p, d)),
            old(self)@.counter + old(self)@.sticks.len() <= usize::MAX,
        ensures
            old(self)@.counts_exact() ==> final(self)@.counts_exact(),
            final(self)@.points.len() <= old(self)@.points.len(),
            !held ==> final(self)@ == old(self)@,
            held ==> exists|
                mid: WindowView<P, L>,
                snapped: Seq<bool>,
                asked: Seq<(Point<P>, Point<P>)>,
                answers: Seq<Option<(D, bool)>>,
                src: Seq<int>,
                who: Seq<int>,
            |
                mid.wf() && swept(old(self)@, mid, cut, snapped, asked, answers) && drops_flagged(
                    old(self)@,
                    snapped,
                    mid,
                    src,
                    who,
                ) && orphans_deleted(mid, final(self)@) && final(self)@ == orphans_gone(mid),
            held ==> exists|
                states: Seq<WindowView<P, L>>,
                at: Seq<int>,
                verdicts: Seq<Option<(D, bool)>>,
                ps: Seq<P>,
                pe: Seq<P>,
            |
                #[trigger] cut_trace(old(self)@, cut, shift, states, at, verdicts, ps, pe) && final(self)@
                    == orphans_gone(states.last()),
    {
        let ghost mut trace: (Seq<WindowView<P, L>>, Seq<int>, Seq<Option<(D, bool)>>, Seq<P>, Seq<P>) = (
            seq![self@],
            seq![0int],
            Seq::empty(),
            Seq::empty(),
            Seq::empty(),
        );
        if held {
            let ghost old_v = self@;
            let ghost n = old_v.sticks.len();
            let ghost mut snapped: Seq<bool> = Seq::new(n, |k: int| false);
            let ghost mut flags: Seq<bool> = Seq::new(n, |k: int| false);
            let ghost mut asked: Seq<(Point<P>, Point<P>)> = Seq::new(
                n,
                |k: int| (old_v.points[0], old_v.points[0]),
            );
            let ghost mut answers: Seq<Option<(D, bool)>> = Seq::new(n, |k: int| None);
            let ghost mut seen: Seq<bool> = Seq::new(n, |k: int| false);
            let ghost mut src: Seq<int> = Seq::new(n, |k: int| k);
            let ghost mut place: Seq<int> = Seq::new(n, |k: int| k);
            let ghost mut who: Seq<int> = Seq::empty();
            proof {
                lemma_flag_loop_start(old_v, snapped);
            }
            let mut i: usize = 0;
            while i != self.sticks.len()
                invariant
                    self@.wf(),
                    i <= self.sticks.len(),
                    flag_loop(old_v, snapped, self@, flags, i as int, src, place, who),
                    old_v.counts_exact() ==> self@.counts_exact(),
                    forall|a: &Point<P>, b: &Point<P>, st: &Stick<L>| #[trigger] cut.requires((a, b, st)),
                    forall|p: &P, d: &D| #[trigger] shift.requires((p, d)),
                    old_v.counter + old_v.sticks.len() <= usize::MAX,
                    self@.counter == old_v.counter + (old_v.sticks.len() - self@.sticks.len()),
                    self@.points.len() == old_v.points.len(),
                    forall|p: int|
                        0 <= p < self@.points.len() ==> #[trigger] self@.points[p].prev == old_v.points[p].prev
                            && self@.points[p].is_static == old_v.points[p].is_static,
                    snapped.len() == n,
                    asked.len() == n,
                    answers.len() == n,
                    seen.len() == n,
                    place.len() == n,
                    forall|k: int| 0 <= k < n && !#[trigger] seen[k] ==> !snapped[k] && place[k] != -1 && place[k] >= i,
                    forall|k: int| 0 <= k < n && #[trigger] place[k] != -1 && place[k] >= i ==> !seen[k],
                    forall|k: int|
                        0 <= k < n && #[trigger] seen[k] ==> {
                            let st = old_v.sticks[k];
                            &&& cut.ensures((&asked[k].0, &asked[k].1, &st), answers[k])
                            &&& snapped[k] == snaps(answers[k])
                            &&& asked[k].0.prev == old_v.points[st.start as int].prev
                            &&& asked[k].0.is_static == old_v.points[st.start as int].is_static
                            &&& asked[k].1.prev == old_v.points[st.end as int].prev
                            &&& asked[k].1.is_static == old_v.points[st.end as int].is_static
                        },
                    trace.0.len() == trace.2.len() + 1,
                    trace.1.len() == trace.0.len(),
                    trace.3.len() == trace.2.len(),
                    trace.4.len() == trace.2.len(),
                    trace.0[0] == old_v,
                    trace.1[0] == 0,
                    trace.0.last() == self@,
                    trace.1.last() == i,
                    forall|t: int|
                        0 <= t < trace.2.len() ==> #[trigger] cut_move(
                            trace.0[t],
                            trace.1[t],
                            cut,
                            shift,
                            trace.2[t],
                            trace.3[t],
                            trace.4[t],
                            trace.0[t + 1],
                            trace.1[t + 1],
                        ),
                decreases self.sticks.len() - i,
            {
                let ghost seen0 = seen;
                let ghost asked0 = asked;
                let ghost answers0 = answers;
                let ghost snapped0 = snapped;
                let ghost v0 = self@;
                proof {
                    lemma_flag_loop_at(old_v, snapped, self@, flags, i as int, src, place, who);
                }
                let ghost k = src[i as int];
                let (apart, Ghost(step)) = self.cut_step(i, &cut, &shift);
                let ghost verdict = step.0;
                proof {
                    let t0 = trace;
                    let next_at = if apart { i as int } else { i + 1 };
                    trace = (
                        t0.0.push(self@),
                        t0.1.push(next_at),
                        t0.2.push(step.0),
                        t0.3.push(step.1),
                        t0.4.push(step.2),
                    );
                    assert forall|t: int| 0 <= t < trace.2.len() implies #[trigger] cut_move(
                        trace.0[t],
                        trace.1[t],
                        cut,
                        shift,
                        trace.2[t],
                        trace.3[t],
                        trace.4[t],
                        trace.0[t + 1],
                        trace.1[t + 1],
                    ) by {
                        if t < t0.2.len() {
                            assert(trace.0[t] == t0.0[t]);
                            assert(trace.0[t + 1] == t0.0[t + 1]);
                            assert(trace.1[t] == t0.1[t]);
                            assert(trace.1[t + 1] == t0.1[t + 1]);
                            assert(trace.2[t] == t0.2[t]);
                            assert(trace.3[t] == t0.3[t]);
                            assert(trace.4[t] == t0.4[t]);
                            assert(cut_move(
                                t0.0[t],
                                t0.1[t],
                                cut,
                                shift,
                                t0.2[t],
                                t0.3[t],
                                t0.4[t],
                                t0.0[t + 1],
                                t0.1[t + 1],
                            ));
                        } else {
                            assert(trace.0[t] == v0);
                            assert(trace.1[t] == i);
                        }
                    }
                }
                proof {
                    assert(!seen[k]) by {
                        if seen[k] {
                            assert(snapped[k] == snaps(answers[k]));
                        }
                    }
                    let st = v0.sticks[i as int];
                    asked = asked.update(k, (v0.points[st.start as int], v0.points[st.end as int]));
                    answers = answers.update(k, verdict);
                    seen = seen.update(k, true);
                    assert forall|p: int| 0 <= p < self@.points.len() implies #[trigger] self@.points[p].prev
                        == old_v.points[p].prev && self@.points[p].is_static == old_v.points[p].is_static by {
                        assert(self@.points[p].prev == v0.points[p].prev);
                        assert(self@.points[p].is_static == v0.points[p].is_static);
                    }
                }
                if apart {
                    proof {
                        lemma_flag_loop_mark(old_v, snapped, v0, flags, i as int, src, place, who);
                        flags = flags.update(i as int, true);
                        snapped = snapped.update(k, true);
                        let f2 = flags.update(i as int, flags.last()).drop_last();
                        let ghost (s2, p2, w2) = lemma_flag_loop_step(
                            old_v,
                            snapped,
                            v0,
                            flags,
                            i as int,
                            src,
                            place,
                            who,
                            self@,
                            f2,
                        );
                        src = s2;
                        place = p2;
                        who = w2;
                        flags = f2;
                    }
                } else {
                    proof {
                        lemma_flag_loop_points(old_v, snapped, v0, self@, flags, i as int, src, place, who);
                        reveal(flag_loop);
                    }
                    i += 1;
                }
                proof {
                    assert(forall|p: int|
                        0 <= p < self@.points.len() ==> #[trigger] self@.points[p].prev == old_v.points[p].prev
                            && self@.points[p].is_static == old_v.points[p].is_static);
                    assert forall|k2: int| 0 <= k2 < n && #[trigger] seen[k2] implies {
                        let st = old_v.sticks[k2];
                        &&& cut.ensures((&asked[k2].0, &asked[k2].1, &st), answers[k2])
                        &&& snapped[k2] == snaps(answers[k2])
                        &&& asked[k2].0.prev == old_v.points[st.start as int].prev
                        &&& asked[k2].0.is_static == old_v.points[st.start as int].is_static
                        &&& asked[k2].1.prev == old_v.points[st.end as int].prev
                        &&& asked[k2].1.is_static == old_v.points[st.end as int].is_static
                    } by {
                        if k2 != k {
                            assert(seen0[k2]);
                            assert(asked[k2] == asked0[k2]);
                            assert(answers[k2] == answers0[k2]);
                            assert(snapped[k2] == snapped0[k2]);
                            assert(cut.ensures((&asked0[k2].0, &asked0[k2].1, &old_v.sticks[k2]), answers0[k2]));
                            assert(snapped0[k2] == snaps(answers0[k2]));
                        } else {
                            assert(cut.ensures((&asked[k2].0, &asked[k2].1, &old_v.sticks[k2]), answers[k2]));
                            assert(snapped[k2] == snaps(answers[k2]));
                            assert(asked[k2].0.prev == old_v.points[old_v.sticks[k2].start as int].prev);
                            assert(asked[k2].1.prev == old_v.points[old_v.sticks[k2].end as int].prev);
                            assert(asked[k2].0.is_static == old_v.points[old_v.sticks[k2].start as int].is_static);
                            assert(asked[k2].1.is_static == old_v.points[old_v.sticks[k2].end as int].is_static);
                        }
                    }
                }
            }
            proof {
                lemma_flag_loop_place(old_v, snapped, self@, flags, i as int, src, place, who);
                assert forall|k: int| 0 <= k < n implies #[trigger] seen[k] by {
                    if !seen[k] {
                        assert(place[k] != -1);
                    }
                }
                assert forall|k: int| 0 <= k < old_v.sticks.len() implies {
                    let st = old_v.sticks[k];
                    &&& cut.ensures((&asked[k].0, &asked[k].1, &st), #[trigger] answers[k])
                    &&& snapped[k] == snaps(answers[k])
                    &&& asked[k].0.prev == old_v.points[st.start as int].prev
                    &&& asked[k].0.is_static == old_v.points[st.start as int].is_static
                    &&& asked[k].1.prev == old_v.points[st.end as int].prev
                    &&& asked[k].1.is_static == old_v.points[st.end as int].is_static
                } by {
                    assert(seen[k]);
                }
                assert(swept(old_v, self@, cut, snapped, asked, answers));
                lemma_flag_loop_end(old_v, snapped, self@, flags, src, place, who);
                assert(cut_trace(old_v, cut, shift, trace.0, trace.1, trace.2, trace.3, trace.4));
            }
        }
        self.delete_orphan_points();
        proof {
            if held {
                assert(cut_trace(old(self)@, cut, shift, trace.0, trace.1, trace.2, trace.3, trace.4));
                assert(self@ == orphans_gone(trace.0.last()));
            }
        }
    }

    /// Shows stick `i` to `cut` and acts on the answer (see `cut_sticks`);
    /// tells whether the stick was removed, and what `cut` answered.
    fn cut_step<D, C, S>(&mut self, i: usize, cut: &C, shift: &S) -> (r: (bool, Ghost<(Option<(D, bool)>, P, P)>))
        where
            C: Fn(&Point<P>, &Point<P>, &Stick<L>) -> Option<(D, bool)>,
            S: Fn(&P, &D) -> P,
        requires
            old(self)@.wf(),
            i < old(self)@.sticks.len(),
            old(self)@.counter < usize::MAX,
            forall|a: &Point<P>, b: &Point<P>, st: &Stick<L>| #[trigger] cut.requires((a, b, st)),
            forall|p: &P, d: &D| #[trigger] shift.requires((p, d)),
        ensures
            cut_move(
                old(self)@,
                i as int,
                *cut,
                *shift,
                r.1@.0,
                r.1@.1,
                r.1@.2,
                final(self)@,
                if r.0 { i as int } else { i + 1 },
            ),
            ({
                let st = old(self)@.sticks[i as int];
                let verdict = r.1@.0;
                &&& cut.ensures((&old(self)@.points[st.start as int], &old(self)@.points[st.end as int], &st), verdict)
                &&& r.0 == snaps(verdict)
                &&& final(self)@.wf()
                &&& old(self)@.counts_exact() ==> final(self)@.counts_exact()
                &&& final(self)@.points.len() == old(self)@.points.len()
                &&& forall|p: int|
                    0 <= p < final(self)@.points.len() ==> #[trigger] final(self)@.points[p].prev
                        == old(self)@.points[p].prev && final(self)@.points[p].is_static
                        == old(self)@.points[p].is_static
                &&& if r.0 {
                    &&& final(self)@.sticks == old(self)@.sticks.update(i as int, old(self)@.sticks.last()).drop_last()
                    &&& final(self)@.stickscopy == final(self)@.sticks
                    &&& final(self)@.orphans == old(self)@.orphans.push(st.start).push(st.end)
                    &&& final(self)@.counter == old(self)@.counter + 1
                    &&& final(self)@.closest_point == old(self)@.closest_point
                    &&& final(self)@.newstickstart == old(self)@.newstickstart
                    &&& final(self)@.newstickend == old(self)@.newstickend
                    &&& final(self)@.mode == old(self)@.mode
                } else {
                    final(self)@ == (WindowView { points: final(self)@.points, ..old(self)@ })
                }
            }),
    {
        let st = self.sticks[i];
        let verdict = cut(&self.points[st.start], &self.points[st.end], &st);
        let ghost g = verdict;
        let ghost here = self@.points[st.start as int].pos;
        match verdict {
            None => (false, Ghost((g, here, here))),
            Some((d, apart)) => {
                let ghost v0 = self@;
                let a = shift(&self.points[st.start].pos, &d);
                self.set_pos(st.start, a);
                let b = shift(&self.points[st.end].pos, &d);
                self.set_pos(st.end, b);
                let ghost v1 = self@;
                proof {
                    assert forall|p: int| 0 <= p < v1.points.len() implies #[trigger] v1.points[p].prev
                        == v0.points[p].prev && v1.points[p].is_static == v0.points[p].is_static by {
                    }
                }
                proof {
                    let a1 = WindowView { points: moved(v0.points, st.start as int, a), ..v0 };
                    assert(v1 =~= WindowView { points: moved(a1.points, st.end as int, b), ..v0 });
                }
                if apart {
                    let dot_indices = self.remove_stick(i);
                    let ghost removed = self@;
                    self.orphans.push(dot_indices.0);
                    self.orphans.push(dot_indices.1);
                    self.counter = self.counter + 1;
                    proof {
                        assert(self@ =~= WindowView {
                            orphans: removed.orphans.push(v1.sticks[i as int].start).push(v1.sticks[i as int].end),
                            counter: (removed.counter + 1) as usize,
                            ..removed
                        });
                        lemma_snapped_off(v1, i as int, removed, self@);
                        assert forall|p: int| 0 <= p < self@.points.len() implies #[trigger] self@.points[p].prev
                            == v0.points[p].prev && self@.points[p].is_static == v0.points[p].is_static by {
                            assert(self@.points[p].pos == v1.points[p].pos);
                        }
                        assert forall|j: int| 0 <= j < self@.orphans.len() implies #[trigger] self@.orphans[j]
                            < self@.points.len() by {
                            if j < v1.orphans.len() {
                                assert(self@.orphans[j] == v1.orphans[j]);
                            }
                        }
                        assert forall|p: int| 0 <= p < self@.points.len() implies #[trigger] self@.points[p].connection_count
                            >= degree(self@.sticks, p) by {
                        }
                        assert(self@.wf());
                        assert(self@.sticks == v0.sticks.update(i as int, v0.sticks.last()).drop_last());
                        assert(self@.orphans == v0.orphans.push(st.start).push(st.end));
                        assert(v0.counts_exact() ==> self@.counts_exact());
                    }
                } else {
                    proof {
                        assert(self@ == (WindowView { points: self@.points, ..v0 }));
                    }
                }
                proof {
                    assert(v0.points[st.start as int] == old(self)@.points[st.start as int]);
                    assert(cut.ensures((&old(self)@.points[st.start as int], &old(self)@.points[st.end as int], &st), g));
                }
                (apart, Ghost((g, a, b)))
            },
        }
    }

    /// Removes the sticks whose flag is set, noting their ends as orphans.
    #[verifier::spinoff_prover]
    fn remove_flagged(&mut self, too_long: Vec<bool>)
        requires
            old(self)@.wf(),
            old(self)@.orphans.len() == 0,
            too_long.len() == old(self)@.sticks.len(),
            old(self)@.counter + count_set(too_long@) <= usize::MAX,
        ensures
            final(self)@.wf(),
            old(self)@.counts_exact() ==> final(self)@.counts_exact(),
            same_points(final(self)@.points, old(self)@.points),
            exists|src: Seq<int>, who: Seq<int>| drops_flagged(old(self)@, too_long@, final(self)@, src, who),
            final(self)@ == drop_from(old(self)@, too_long@, 0),
    {
        let ghost old_v = self@;
        let ghost old_flags = too_long@;
        let mut flags = too_long;
        let ghost mut src: Seq<int> = Seq::new(old_v.sticks.len(), |k: int| k);
        let ghost mut place: Seq<int> = Seq::new(old_v.sticks.len(), |k: int| k);
        let ghost mut who: Seq<int> = Seq::empty();
        proof {
            lemma_flag_loop_start(old_v, old_flags);
        }
        let mut i: usize = 0;
        while i != self.sticks.len()
            invariant
                self@.wf(),
                i <= self.sticks.len(),
                flags.len() == self.sticks.len(),
                flag_loop(old_v, old_flags, self@, flags@, i as int, src, place, who),
                old_v.counts_exact() ==> self@.counts_exact(),
                same_points(self@.points, old_v.points),
                self@.counter + count_set(flags@) == old_v.counter + count_set(old_flags),
                old_v.counter + count_set(old_flags) <= usize::MAX,
                drop_from(self@, flags@, i as int) == drop_from(old_v, old_flags, 0),
            decreases self.sticks.len() - i,
        {
            if flags[i] {
                let ghost v0 = self@;
                let ghost f0 = flags@;
                proof {
                    lemma_count_set_swap_remove(f0, i as int);
                }
                let dot_indices = self.remove_stick(i);
                let ghost removed = self@;
                flags.swap_remove(i);
                self.orphans.push(dot_indices.0);
                self.orphans.push(dot_indices.1);
                self.counter = self.counter + 1;
                proof {
                    let ghost (s2, p2, w2) = lemma_flag_loop_step(
                        old_v,
                        old_flags,
                        v0,
                        f0,
                        i as int,
                        src,
                        place,
                        who,
                        self@,
                        flags@,
                    );
                    src = s2;
                    place = p2;
                    who = w2;
                    assert forall|p: int| 0 <= p < self@.points.len() implies #[trigger] self@.points[p].pos
                        == old_v.points[p].pos && self@.points[p].prev == old_v.points[p].prev
                        && self@.points[p].is_static == old_v.points[p].is_static by {
                        assert(self@.points[p].pos == v0.points[p].pos);
                        assert(self@.points[p].prev == v0.points[p].prev);
                        assert(self@.points[p].is_static == v0.points[p].is_static);
                    }
                    assert(self@.points.len() == old_v.points.len());
                    assert forall|j: int| 0 <= j < self@.orphans.len() implies #[trigger] self@.orphans[j]
                        < self@.points.len() by {
                        if j < v0.orphans.len() {
                            assert(self@.orphans[j] == v0.orphans[j]);
                        }
                    }
                    assert(stick_removed(v0, i as int, removed));
                    assert(self@ =~= WindowView {
                        orphans: removed.orphans.push(v0.sticks[i as int].start).push(v0.sticks[i as int].end),
                        counter: (removed.counter + 1) as usize,
                        ..removed
                    });
                    lemma_snapped_off(v0, i as int, removed, self@);
                    lemma_drop_step(v0, f0, i as int, self@, flags@);
                }
            } else {
                proof {
                    reveal(flag_loop);
                    reveal(drop_from);
                }
                i += 1;
            }
        }
        proof {
            lemma_flag_loop_end(old_v, old_flags, self@, flags@, src, place, who);
            reveal(drop_from);
        }
    }

    /// Joins two points with a stick.
    pub fn add_stick(&mut self, st: Stick<L>)
        requires
            old(self)@.wf(),
            st.start < old(self)@.points.len(),
            st.end < old(self)@.points.len(),
            old(self)@.points[st.start as int].connection_count + ends_at(st, st.start as int) <= u32::MAX,
            old(self)@.points[st.end as int].connection_count + ends_at(st, st.end as int) <= u32::MAX,
        ensures
            stick_added(old(self)@, st, final(self)@),
    {
        let ghost old_v = self@;
        self.sticks.push(st);
        self.stickscopy.push(st);
        self.bump_count(st.start, 1);
        self.bump_count(st.end, 1);
        proof {
            assert(self@.sticks == old_v.sticks.push(st));
            assert forall|k: int| 0 <= k < self@.sticks.len() implies #[trigger] self@.sticks[k].start
                < self@.points.len() && self@.sticks[k].end < self@.points.len() by {
                if k < old_v.sticks.len() {
                    assert(self@.sticks[k] == old_v.sticks[k]);
                }
            }
            assert forall|p: int| 0 <= p < self@.points.len() implies #[trigger] self@.points[p].connection_count
                >= degree(self@.sticks, p) && (old_v.counts_exact() ==> self@.points[p].connection_count
                == degree(self@.sticks, p)) && self@.points[p].connection_count
                == old_v.points[p].connection_count + ends_at(st, p) by {
                lemma_degree_push(old_v.sticks, st, p);
            }
            assert(self@.stickscopy == self@.sticks);
            assert(old_v.wf());
            assert(self@.orphans == old_v.orphans);
            assert(self@.points.len() == old_v.points.len());
            assert(forall|j: int| 0 <= j < self@.orphans.len() ==> #[trigger] self@.orphans[j] < self@.points.len());
        }
    }
}

} // verus!
