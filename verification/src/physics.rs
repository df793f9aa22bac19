use vstd::prelude::*;
use crate::cloth::{Point, Window, WindowView, moved};

verus! {

/// `new` differs from `old` at most in the positions of its points: the
/// sticks, the connection counts, the pins and the controls are unchanged.
pub open spec fn moves_only<P, L>(old: WindowView<P, L>, new: WindowView<P, L>) -> bool {
    &&& new.sticks == old.sticks
    &&& new.stickscopy == old.stickscopy
    &&& new.same_controls(old)
    &&& new.points.len() == old.points.len()
    &&& forall|i: int|
        0 <= i < new.points.len() ==> #[trigger] new.points[i].connection_count == old.points[i].connection_count
            && new.points[i].is_static == old.points[i].is_static
}

/// The integration pass that turned `a` into `b`: every free point took the
/// position and previous position that `integrate` gave for it; pinned points
/// and everything else stayed.
pub open spec fn integrate_pass<P, L, I: Fn(&Point<P>) -> (P, P)>(
    a: WindowView<P, L>,
    integrate: I,
    b: WindowView<P, L>,
) -> bool {
    &&& b == (WindowView { points: b.points, ..a })
    &&& b.points.len() == a.points.len()
    &&& forall|i: int|
        0 <= i < a.points.len() ==> {
            let (p, q) = (a.points[i], #[trigger] b.points[i]);
            if p.is_static {
                q == p
            } else {
                q == (Point { pos: q.pos, prev: q.prev, ..p }) && integrate.ensures((&p,), (q.pos, q.prev))
            }
        }
}

/// The bounce pass that turned `a` into `b`: every point, pinned or not,
/// took the position and previous position that `bounce` gave for it.
pub open spec fn bounce_pass<P, L, B: Fn(&Point<P>) -> (P, P)>(
    a: WindowView<P, L>,
    bounce: B,
    b: WindowView<P, L>,
) -> bool {
    &&& b == (WindowView { points: b.points, ..a })
    &&& b.points.len() == a.points.len()
    &&& forall|i: int|
        0 <= i < a.points.len() ==> {
            let q = #[trigger] b.points[i];
            q == (Point { pos: q.pos, prev: q.prev, ..a.points[i] }) && bounce.ensures((&a.points[i],), (q.pos, q.prev))
        }
}

/// The relaxation of stick `k` of `a`, giving `b`: `relax` answered `ends`
/// for the positions of the stick's ends and its length; the start moved to
/// `ends.0` unless pinned, then the end to `ends.1` unless pinned.
pub open spec fn relax_move<P, L, R: Fn(&P, &P, &L) -> (P, P)>(
    a: WindowView<P, L>,
    k: int,
    relax: R,
    ends: (P, P),
    b: WindowView<P, L>,
) -> bool {
    let st = a.sticks[k];
    let p1 = if a.points[st.start as int].is_static {
        a.points
    } else {
        moved(a.points, st.start as int, ends.0)
    };
    let p2 = if a.points[st.end as int].is_static {
        p1
    } else {
        moved(p1, st.end as int, ends.1)
    };
    &&& 0 <= k < a.sticks.len()
    &&& relax.ensures((&a.points[st.start as int].pos, &a.points[st.end as int].pos, &st.target_length), ends)
    &&& b == (WindowView { points: p2, ..a })
}

/// One round of relaxation from `a` to `b`: each stick in turn is relaxed
/// (`states[k]` before stick `k`, which `relax` answered with `ends[k]`),
/// then one bounce pass.
pub open spec fn relax_round<P, L, R: Fn(&P, &P, &L) -> (P, P), B: Fn(&Point<P>) -> (P, P)>(
    a: WindowView<P, L>,
    relax: R,
    bounce: B,
    states: Seq<WindowView<P, L>>,
    ends: Seq<(P, P)>,
    b: WindowView<P, L>,
) -> bool {
    &&& states.len() == a.sticks.len() + 1
    &&& ends.len() == a.sticks.len()
    &&& states[0] == a
    &&& forall|k: int| 0 <= k < ends.len() ==> #[trigger] relax_move(states[k], k, relax, ends[k], states[k + 1])
    &&& bounce_pass(states.last(), bounce, b)
}

/// A whole frame of `simulate` from `old`: the integration pass gives
/// `rounds[0]`, and round `r` of relaxation turns `rounds[r]` into
/// `rounds[r + 1]` (with the states and answers `steps[r]` and `ends[r]`).
pub open spec fn sim_trace<P, L, I, R, B>(
    old: WindowView<P, L>,
    iterations: int,
    integrate: I,
    relax: R,
    bounce: B,
    rounds: Seq<WindowView<P, L>>,
    steps: Seq<Seq<WindowView<P, L>>>,
    ends: Seq<Seq<(P, P)>>,
) -> bool
    where
        I: Fn(&Point<P>) -> (P, P),
        R: Fn(&P, &P, &L) -> (P, P),
        B: Fn(&Point<P>) -> (P, P),
{
    &&& rounds.len() == iterations + 1
    &&& steps.len() == iterations
    &&& ends.len() == iterations
    &&& integrate_pass(old, integrate, rounds[0])
    &&& forall|r: int|
        0 <= r < iterations ==> #[trigger] relax_round(rounds[r], relax, bounce, steps[r], ends[r], rounds[r + 1])
}

impl<P: Copy, L: Copy> Window<P, L> {
    /// Keeps the points inside the window: each point, pinned or not, gets
    /// the position and previous position that `bounce` gives for it.
    pub fn constrain_points<B: Fn(&Point<P>) -> (P, P)>(&mut self, bounce: &B)
        requires
            old(self)@.wf(),
            forall|p: &Point<P>| #[trigger] bounce.requires((p,)),
        ensures
            final(self)@.wf(),
            old(self)@.counts_exact() ==> final(self)@.counts_exact(),
            moves_only(old(self)@, final(self)@),
            forall|i: int|
                0 <= i < final(self)@.points.len() ==> bounce.ensures(
                    (&old(self)@.points[i],),
                    (#[trigger] final(self)@.points[i].pos, final(self)@.points[i].prev),
                ),
    {
        let ghost old_v = self@;
        let n = self.points().len();
        let mut i: usize = 0;
        while i < n
            invariant
                n == old_v.points.len(),
                i <= n,
                forall|p: &Point<P>| #[trigger] bounce.requires((p,)),
                self@.wf(),
                old_v.counts_exact() ==> self@.counts_exact(),
                moves_only(old_v, self@),
                forall|k: int| i <= k < n ==> #[trigger] self@.points[k] == old_v.points[k],
                forall|k: int|
                    0 <= k < i ==> bounce.ensures(
                        (&old_v.points[k],),
                        (#[trigger] self@.points[k].pos, self@.points[k].prev),
                    ),
            decreases n - i,
        {
            let (pos, prev) = bounce(&self.points()[i]);
            let ghost v0 = self@;
            self.set_motion(i, pos, prev);
            proof {
                assert forall|k: int| 0 <= k < self@.points.len() implies #[trigger] self@.points[k].connection_count
                    == old_v.points[k].connection_count && self@.points[k].is_static == old_v.points[k].is_static by {
                    assert(self@.points[k].connection_count == v0.points[k].connection_count);
                    assert(self@.points[k].is_static == v0.points[k].is_static);
                }
            }
            i += 1;
        }
    }

    /// One frame of verlet integration: every free point moves to where
    /// `integrate` sends it (new position, new previous position); then,
    /// `iterations` times, each stick in turn asks `relax` where its two ends
    /// should be and moves the ends that are free, after which the stick
    /// buffers are exchanged and the points are kept inside the window by
    /// `bounce`. Only positions change.
    pub fn simulate<I, R, B>(&mut self, iterations: u32, integrate: &I, relax: &R, bounce: &B)
        where
            I: Fn(&Point<P>) -> (P, P),
            R: Fn(&P, &P, &L) -> (P, P),
            B: Fn(&Point<P>) -> (P, P),
        requires
            old(self)@.wf(),
            forall|p: &Point<P>| #[trigger] integrate.requires((p,)),
            forall|a: &P, b: &P, l: &L| #[trigger] relax.requires((a, b, l)),
            forall|p: &Point<P>| #[trigger] bounce.requires((p,)),
        ensures
            final(self)@.wf(),
            old(self)@.counts_exact() ==> final(self)@.counts_exact(),
            moves_only(old(self)@, final(self)@),
            iterations == 0 ==> forall|i: int|
                0 <= i < final(self)@.points.len() ==> {
                    let (a, b) = (old(self)@.points[i], #[trigger] final(self)@.points[i]);
                    if a.is_static {
                        b == a
                    } else {
                        integrate.ensures((&a,), (b.pos, b.prev))
                    }
                },
            exists|rounds: Seq<WindowView<P, L>>, steps: Seq<Seq<WindowView<P, L>>>, ends: Seq<Seq<(P, P)>>|
                #[trigger] sim_trace(old(self)@, iterations as int, *integrate, *relax, *bounce, rounds, steps, ends)
                    && final(self)@ == rounds.last(),
    {
        let ghost old_v = self@;
        let n = self.points().len();
        let mut i: usize = 0;
        while i < n
            invariant
                n == old_v.points.len(),
                i <= n,
                forall|p: &Point<P>| #[trigger] integrate.requires((p,)),
                self@.wf(),
                old_v.counts_exact() ==> self@.counts_exact(),
                moves_only(old_v, self@),
                forall|k: int| i <= k < n ==> #[trigger] self@.points[k] == old_v.points[k],
                forall|k: int|
                    0 <= k < i ==> {
                        let (a, b) = (old_v.points[k], #[trigger] self@.points[k]);
                        if a.is_static {
                            b == a
                        } else {
                            integrate.ensures((&a,), (b.pos, b.prev))
                        }
                    },
            decreases n - i,
        {
            if !self.points()[i].is_static {
                let (pos, prev) = integrate(&self.points()[i]);
                let ghost v0 = self@;
                self.set_motion(i, pos, prev);
                proof {
                    assert forall|k: int| 0 <= k < self@.points.len() implies #[trigger] self@.points[k].connection_count
                        == old_v.points[k].connection_count && self@.points[k].is_static == old_v.points[k].is_static by {
                        assert(self@.points[k].connection_count == v0.points[k].connection_count);
                        assert(self@.points[k].is_static == v0.points[k].is_static);
                    }
                }
            }
            i += 1;
        }
        let ghost v1 = self@;
        proof {
            assert forall|k: int| 0 <= k < old_v.points.len() implies {
                let (p, q) = (old_v.points[k], #[trigger] v1.points[k]);
                if p.is_static {
                    q == p
                } else {
                    q == (Point { pos: q.pos, prev: q.prev, ..p }) && integrate.ensures((&p,), (q.pos, q.prev))
                }
            } by {
                assert(v1.points[k].connection_count == old_v.points[k].connection_count);
            }
            assert(v1 =~= WindowView { points: v1.points, ..old_v });
        }
        let ghost mut rounds: Seq<WindowView<P, L>> = seq![v1];
        let ghost mut steps: Seq<Seq<WindowView<P, L>>> = Seq::empty();
        let ghost mut ends: Seq<Seq<(P, P)>> = Seq::empty();
        let mut round: u32 = 0;
        while round < iterations
            invariant
                round <= iterations,
                round == 0 ==> self@ == v1,
                forall|a: &P, b: &P, l: &L| #[trigger] relax.requires((a, b, l)),
                forall|p: &Point<P>| #[trigger] bounce.requires((p,)),
                self@.wf(),
                old_v.counts_exact() ==> self@.counts_exact(),
                moves_only(old_v, self@),
                rounds.len() == round + 1,
                steps.len() == round,
                ends.len() == round,
                rounds[0] == v1,
                rounds.last() == self@,
                forall|r: int|
                    0 <= r < round ==> #[trigger] relax_round(rounds[r], *relax, *bounce, steps[r], ends[r], rounds[r + 1]),
            decreases iterations - round,
        {
            let ghost v0 = self@;
            let ghost mut round_states: Seq<WindowView<P, L>> = seq![v0];
            let ghost mut round_ends: Seq<(P, P)> = Seq::empty();
            let mut k: usize = 0;
            while k < self.sticks().len()
                invariant
                    forall|a: &P, b: &P, l: &L| #[trigger] relax.requires((a, b, l)),
                    self@.wf(),
                    old_v.counts_exact() ==> self@.counts_exact(),
                    moves_only(old_v, self@),
                    moves_only(old_v, v0),
                    k <= self@.sticks.len(),
                    round_states.len() == k + 1,
                    round_ends.len() == k,
                    round_states[0] == v0,
                    round_states.last() == self@,
                    forall|kk: int|
                        0 <= kk < k ==> #[trigger] relax_move(
                            round_states[kk],
                            kk,
                            *relax,
                            round_ends[kk],
                            round_states[kk + 1],
                        ),
                decreases self@.sticks.len() - k,
            {
                let ghost cur = self@;
                let s = self.sticks()[k];
                let scopy = self.stick_copy(k);
                let (a, b) = relax(&self.points()[s.start].pos, &self.points()[s.end].pos, &s.target_length);
                if !self.points()[s.start].is_static {
                    let ghost w0 = self@;
                    self.set_pos(scopy.start, a);
                    proof {
                        assert forall|j: int| 0 <= j < self@.points.len() implies #[trigger] self@.points[j].connection_count
                            == old_v.points[j].connection_count && self@.points[j].is_static == old_v.points[j].is_static by {
                            assert(self@.points[j].connection_count == w0.points[j].connection_count);
                            assert(self@.points[j].is_static == w0.points[j].is_static);
                        }
                    }
                }
                let ghost mid = self@;
                if !self.points()[s.end].is_static {
                    let ghost w0 = self@;
                    self.set_pos(scopy.end, b);
                    proof {
                        assert forall|j: int| 0 <= j < self@.points.len() implies #[trigger] self@.points[j].connection_count
                            == old_v.points[j].connection_count && self@.points[j].is_static == old_v.points[j].is_static by {
                            assert(self@.points[j].connection_count == w0.points[j].connection_count);
                            assert(self@.points[j].is_static == w0.points[j].is_static);
                        }
                    }
                }
                proof {
                    let p1 = if cur.points[s.start as int].is_static {
                        cur.points
                    } else {
                        moved(cur.points, s.start as int, a)
                    };
                    assert(mid == (WindowView { points: p1, ..cur }));
                    assert(mid.points[s.end as int].is_static == cur.points[s.end as int].is_static);
                    assert(relax_move(cur, k as int, *relax, (a, b), self@));
                    let rs0 = round_states;
                    let re0 = round_ends;
                    round_states = rs0.push(self@);
                    round_ends = re0.push((a, b));
                    assert forall|kk: int| 0 <= kk < k + 1 implies #[trigger] relax_move(
                        round_states[kk],
                        kk,
                        *relax,
                        round_ends[kk],
                        round_states[kk + 1],
                    ) by {
                        if kk < k {
                            assert(round_states[kk] == rs0[kk]);
                            assert(round_states[kk + 1] == rs0[kk + 1]);
                            assert(round_ends[kk] == re0[kk]);
                            assert(relax_move(rs0[kk], kk, *relax, re0[kk], rs0[kk + 1]));
                        } else {
                            assert(round_states[kk] == cur);
                        }
                    }
                }
                k += 1;
            }
            self.swap_stick_buffers();
            let ghost w1 = self@;
            self.constrain_points(bounce);
            proof {
                assert forall|j: int| 0 <= j < self@.points.len() implies #[trigger] self@.points[j].connection_count
                    == old_v.points[j].connection_count && self@.points[j].is_static == old_v.points[j].is_static by {
                    assert(self@.points[j].connection_count == w1.points[j].connection_count);
                }
                assert forall|i: int| 0 <= i < w1.points.len() implies {
                    let q = #[trigger] self@.points[i];
                    q == (Point { pos: q.pos, prev: q.prev, ..w1.points[i] }) && bounce.ensures((&w1.points[i],), (q.pos, q.prev))
                } by {
                    assert(self@.points[i].connection_count == w1.points[i].connection_count);
                    assert(self@.points[i].is_static == w1.points[i].is_static);
                }
                assert(self@ =~= WindowView { points: self@.points, ..w1 });
                assert(bounce_pass(w1, *bounce, self@));
                assert(relax_round(v0, *relax, *bounce, round_states, round_ends, self@));
                let r0 = rounds;
                let s0 = steps;
                let e0 = ends;
                rounds = r0.push(self@);
                steps = s0.push(round_states);
                ends = e0.push(round_ends);
                assert forall|r: int| 0 <= r < round + 1 implies #[trigger] relax_round(
                    rounds[r],
                    *relax,
                    *bounce,
                    steps[r],
                    ends[r],
                    rounds[r + 1],
                ) by {
                    if r < round {
                        assert(rounds[r] == r0[r]);
                        assert(rounds[r + 1] == r0[r + 1]);
                        assert(steps[r] == s0[r]);
                        assert(ends[r] == e0[r]);
                        assert(relax_round(r0[r], *relax, *bounce, s0[r], e0[r], r0[r + 1]));
                    } else {
                        assert(rounds[r] == v0);
                    }
                }
            }
            round += 1;
        }
        proof {
            assert(sim_trace(old_v, iterations as int, *integrate, *relax, *bounce, rounds, steps, ends));
        }
    }
}

} // verus!
