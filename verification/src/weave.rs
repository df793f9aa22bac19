use vstd::prelude::*;
use crate::cloth::{Point, Stick, Window, WindowView, same_points};
use crate::degree::ends_at;

verus! {

/// Where the stick from `i` to `j` stands among the `n * (n - 1)` sticks that
/// join every ordered pair of distinct points out of `n`, row by row.
pub open spec fn pair_index(n: int, i: int, j: int) -> int {
    i * (n - 1) + if j < i {
        j
    } else {
        j - 1
    }
}

/// How many of those sticks come before row `i`, column `j`.
pub open spec fn pairs_done(n: int, i: int, j: int) -> int {
    i * (n - 1) + j - if i < j {
        1int
    } else {
        0
    }
}

/// How many ends of those first `pairs_done(n, i, j)` sticks rest on point `p`.
pub open spec fn pair_ends_done(n: int, i: int, j: int, p: int) -> int {
    (if p < i {
        n - 1
    } else if p == i {
        j - if i < j {
            1int
        } else {
            0
        }
    } else {
        0
    }) + (i - if p < i {
        1int
    } else {
        0
    }) + (if p < j && p != i {
        1int
    } else {
        0
    })
}

proof fn lemma_pair_index_before(n: int, i: int, j: int, i2: int, j2: int)
    requires
        0 <= i < n,
        0 <= j <= n,
        0 <= i2 < n,
        0 <= j2 < n,
        i2 != j2,
        i2 < i || (i2 == i && j2 < j),
    ensures
        0 <= pair_index(n, i2, j2) < pairs_done(n, i, j),
{
    let c2 = if j2 < i2 {
        j2
    } else {
        j2 - 1
    };
    assert(0 <= c2 <= n - 2);
    assert(0 <= i2 * (n - 1)) by (nonlinear_arith)
        requires
            0 <= i2,
            1 <= n,
    ;
    if i2 < i {
        assert(i2 * (n - 1) + (n - 1) <= i * (n - 1)) by (nonlinear_arith)
            requires
                i2 < i,
                1 <= n,
        ;
    }
}

proof fn lemma_next_row(n: int, i: int)
    ensures
        (i + 1) * (n - 1) == i * (n - 1) + (n - 1),
{
    assert((i + 1) * (n - 1) == i * (n - 1) + (n - 1)) by (nonlinear_arith);
}

impl<P: Copy, L: Copy> Window<P, L> {
    /// Joins every point to every other point, once in each direction: row
    /// `i` holds the sticks from point `i` to each other point in turn. Each
    /// new stick gets the length that `measure` gives for its two points.
    pub fn generate_connections<F: Fn(&P, &P) -> L>(&mut self, measure: F)
        requires
            old(self)@.wf(),
            forall|a: &P, b: &P| #[trigger] measure.requires((a, b)),
            forall|p: int|
                0 <= p < old(self)@.points.len() ==> #[trigger] old(self)@.points[p].connection_count + 2 * (
                old(self)@.points.len() - 1) <= u32::MAX,
        ensures
            final(self)@.wf(),
            old(self)@.counts_exact() ==> final(self)@.counts_exact(),
            same_points(final(self)@.points, old(self)@.points),
            final(self)@.same_controls(old(self)@),
            final(self)@.sticks.len() == old(self)@.sticks.len() + old(self)@.points.len() * (
            old(self)@.points.len() - 1),
            forall|p: int|
                0 <= p < final(self)@.points.len() ==> #[trigger] final(self)@.points[p].connection_count
                    == old(self)@.points[p].connection_count + 2 * (old(self)@.points.len() - 1),
            forall|m: int| 0 <= m < old(self)@.sticks.len() ==> #[trigger] final(self)@.sticks[m] == old(self)@.sticks[m],
            forall|i: int, j: int|
                #![trigger pair_index(old(self)@.points.len() as int, i, j)]
                0 <= i < old(self)@.points.len() && 0 <= j < old(self)@.points.len() && i != j ==> {
                    let st = final(self)@.sticks[old(self)@.sticks.len() + pair_index(
                        old(self)@.points.len() as int,
                        i,
                        j,
                    )];
                    &&& st.start == i
                    &&& st.end == j
                    &&& measure.ensures(
                        (&old(self)@.points[i].pos, &old(self)@.points[j].pos),
                        st.target_length,
                    )
                },
    {
        let ghost old_v = self@;
        let n = self.points().len();
        let ghost base = old_v.sticks.len() as int;
        let mut i: usize = 0;
        while i < n
            invariant
                n == old_v.points.len(),
                base == old_v.sticks.len(),
                i <= n,
                self@.wf(),
                old_v.counts_exact() ==> self@.counts_exact(),
                same_points(self@.points, old_v.points),
                self@.same_controls(old_v),
                forall|a: &P, b: &P| #[trigger] measure.requires((a, b)),
                forall|p: int|
                    0 <= p < n ==> #[trigger] old_v.points[p].connection_count + 2 * (n - 1) <= u32::MAX,
                forall|p: int|
                    0 <= p < n ==> #[trigger] self@.points[p].connection_count == old_v.points[p].connection_count
                        + pair_ends_done(n as int, i as int, 0, p),
                self@.sticks.len() == base + pairs_done(n as int, i as int, 0),
                forall|m: int| 0 <= m < base ==> #[trigger] self@.sticks[m] == old_v.sticks[m],
                forall|i2: int, j2: int|
                    #![trigger pair_index(n as int, i2, j2)]
                    0 <= i2 < n && 0 <= j2 < n && i2 != j2 && i2 < i ==> {
                        let st = self@.sticks[base + pair_index(n as int, i2, j2)];
                        &&& st.start == i2
                        &&& st.end == j2
                        &&& measure.ensures((&old_v.points[i2].pos, &old_v.points[j2].pos), st.target_length)
                    },
            decreases n - i,
        {
            let mut j: usize = 0;
            while j < n
                invariant
                    n == old_v.points.len(),
                    base == old_v.sticks.len(),
                    i < n,
                    j <= n,
                    self@.wf(),
                    old_v.counts_exact() ==> self@.counts_exact(),
                    same_points(self@.points, old_v.points),
                    self@.same_controls(old_v),
                    forall|a: &P, b: &P| #[trigger] measure.requires((a, b)),
                    forall|p: int|
                        0 <= p < n ==> #[trigger] old_v.points[p].connection_count + 2 * (n - 1) <= u32::MAX,
                    forall|p: int|
                        0 <= p < n ==> #[trigger] self@.points[p].connection_count
                            == old_v.points[p].connection_count + pair_ends_done(n as int, i as int, j as int, p),
                    self@.sticks.len() == base + pairs_done(n as int, i as int, j as int),
                    forall|m: int| 0 <= m < base ==> #[trigger] self@.sticks[m] == old_v.sticks[m],
                    forall|i2: int, j2: int|
                        #![trigger pair_index(n as int, i2, j2)]
                        0 <= i2 < n && 0 <= j2 < n && i2 != j2 && (i2 < i || (i2 == i && j2 < j)) ==> {
                            let st = self@.sticks[base + pair_index(n as int, i2, j2)];
                            &&& st.start == i2
                            &&& st.end == j2
                            &&& measure.ensures(
                                (&old_v.points[i2].pos, &old_v.points[j2].pos),
                                st.target_length,
                            )
                        },
                decreases n - j,
            {
                if i != j {
                    let len = measure(&self.points()[i].pos, &self.points()[j].pos);
                    let stick = Stick { start: i, end: j, target_length: len };
                    let ghost before = self@;
                    proof {
                        assert(self@.points[i as int].pos == old_v.points[i as int].pos);
                        assert(self@.points[j as int].pos == old_v.points[j as int].pos);
                        assert(ends_at(stick, i as int) == 1);
                        assert(ends_at(stick, j as int) == 1);
                    }
                    self.add_stick(stick);
                    proof {
                        assert forall|i2: int, j2: int|
                            #![trigger pair_index(n as int, i2, j2)]
                            0 <= i2 < n && 0 <= j2 < n && i2 != j2 && (i2 < i || (i2 == i && j2 < j + 1))
                                implies {
                                let st = self@.sticks[base + pair_index(n as int, i2, j2)];
                                &&& st.start == i2
                                &&& st.end == j2
                                &&& measure.ensures(
                                    (&old_v.points[i2].pos, &old_v.points[j2].pos),
                                    st.target_length,
                                )
                            } by {
                            if i2 < i || (i2 == i && j2 < j) {
                                lemma_pair_index_before(n as int, i as int, j as int, i2, j2);
                                assert(0 <= pair_index(n as int, i2, j2));
                                assert(pair_index(n as int, i2, j2) < pairs_done(n as int, i as int, j as int));
                                assert(before.sticks.len() == base + pairs_done(n as int, i as int, j as int));
                                assert(self@.sticks == before.sticks.push(stick));
                                assert(0 <= base + pair_index(n as int, i2, j2) < before.sticks.len());
                                assert(self@.sticks[base + pair_index(n as int, i2, j2)] == before.sticks[base
                                    + pair_index(n as int, i2, j2)]);
                            } else {
                                assert(i2 == i && j2 == j);
                                assert(base + pair_index(n as int, i2, j2) == before.sticks.len());
                                assert(self@.sticks[before.sticks.len() as int] == stick);
                            }
                        }
                        assert forall|p: int| 0 <= p < n implies #[trigger] self@.points[p].connection_count
                            == old_v.points[p].connection_count + pair_ends_done(
                            n as int,
                            i as int,
                            j + 1,
                            p,
                        ) by {
                            assert(self@.points[p].connection_count == before.points[p].connection_count
                                + ends_at(stick, p));
                        }
                        assert forall|m: int| 0 <= m < base implies #[trigger] self@.sticks[m]
                            == old_v.sticks[m] by {
                            assert(self@.sticks[m] == before.sticks[m]);
                        }
                        assert forall|k: int|
                            0 <= k < self@.points.len() implies #[trigger] self@.points[k].pos
                            == old_v.points[k].pos && self@.points[k].prev == old_v.points[k].prev
                            && self@.points[k].is_static == old_v.points[k].is_static by {
                            assert(self@.points[k].pos == before.points[k].pos);
                            assert(self@.points[k].prev == before.points[k].prev);
                            assert(self@.points[k].is_static == before.points[k].is_static);
                        }
                    }
                }
                j += 1;
            }
            proof {
                lemma_next_row(n as int, i as int);
            }
            i += 1;
        }
        proof {
            assert(pairs_done(n as int, n as int, 0) == n * (n - 1));
            assert forall|p: int| 0 <= p < n implies #[trigger] self@.points[p].connection_count
                == old_v.points[p].connection_count + 2 * (n - 1) by {
                assert(pair_ends_done(n as int, n as int, 0, p) == 2 * (n - 1));
            }
        }
    }
}

} // verus!
