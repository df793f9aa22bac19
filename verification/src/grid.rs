use vstd::prelude::*;
use crate::cloth::{Point, Stick, Window, WindowView, same_points, lemma_same_points_trans};
use crate::degree::ends_at;

verus! {

/// Index of grid node (`r`, `c`) when the grid's first node is point `base`.
pub open spec fn node(base: int, dim: int, r: int, c: int) -> int {
    base + r * dim + c
}

/// Index of cell (`i`, `j`) among the `(dim - 1) * (dim - 1)` cells of the grid.
pub open spec fn cell(dim: int, i: int, j: int) -> int {
    i * (dim - 1) + j
}

/// Grid nodes pinned in place: every fourth node of the top row, and its last node.
pub open spec fn grid_static(dim: int, r: int, c: int) -> bool {
    r == 0 && (c % 4 == 0 || c == dim - 1)
}

/// The number of nodes next to (`r`, `c`) up, down, left and right.
pub open spec fn neighbours(dim: int, r: int, c: int) -> nat {
    (if r > 0 {
        1nat
    } else {
        0
    }) + (if r < dim - 1 {
        1nat
    } else {
        0
    }) + (if c > 0 {
        1nat
    } else {
        0
    }) + (if c < dim - 1 {
        1nat
    } else {
        0
    })
}

/// Stick `st` runs from point `a` to point `b`.
pub open spec fn joins<L>(st: Stick<L>, a: int, b: int) -> bool {
    st.start == a && st.end == b
}

/// `st` has the length that `measure` gives for its two points in `pts`.
pub open spec fn measured<P, L, M: Fn(&P, &P) -> L>(measure: M, pts: Seq<Point<P>>, st: Stick<L>) -> bool {
    measure.ensures((&pts[st.start as int].pos, &pts[st.end as int].pos), st.target_length)
}

/// Index of the `i`-th pair of edge sticks, after the first `start` sticks.
pub open spec fn hem_index(start: int, i: int) -> int {
    start + 2 * i
}

/// (`a`, `b`) comes before (`i`, `j`) in row-major order.
pub open spec fn before(a: int, b: int, i: int, j: int) -> bool {
    a < i || (a == i && b < j)
}

/// The connection count of node (`r`, `c`) once the cells before (`i`, `j`)
/// have their right and down sticks.
pub open spec fn woven(dim: int, i: int, j: int, r: int, c: int) -> int {
    (if r < dim - 1 && c < dim - 1 && before(r, c, i, j) {
        2int
    } else {
        0
    }) + (if 1 <= c && r < dim - 1 && before(r, c - 1, i, j) {
        1int
    } else {
        0
    }) + (if 1 <= r && c < dim - 1 && before(r - 1, c, i, j) {
        1int
    } else {
        0
    })
}

/// The connection count of node (`r`, `c`) once all cells are done and the
/// first `i` sticks of the right edge and of the bottom edge are added.
pub open spec fn hemmed(dim: int, i: int, r: int, c: int) -> int {
    woven(dim, dim - 1, 0, r, c) + (if c == dim - 1 && 1 <= r && r - 1 < i {
        1int
    } else {
        0
    }) + (if c == dim - 1 && r < i {
        1int
    } else {
        0
    }) + (if r == dim - 1 && c < i {
        1int
    } else {
        0
    }) + (if r == dim - 1 && 1 <= c && c - 1 < i {
        1int
    } else {
        0
    })
}

proof fn lemma_lex(w: int, a: int, b: int, c: int, d: int)
    requires
        0 <= a,
        0 <= c,
        0 <= b < w,
        0 <= d < w,
        before(a, b, c, d),
    ensures
        a * w + b < c * w + d,
{
    if a < c {
        assert(a * w + w <= c * w) by (nonlinear_arith)
            requires
                a < c,
                0 <= w,
        ;
    }
}

proof fn lemma_node_eq(base: int, dim: int, r: int, c: int, i: int, j: int)
    requires
        0 <= r,
        0 <= i,
        0 <= c < dim,
        0 <= j < dim,
    ensures
        node(base, dim, r, c) == node(base, dim, i, j) <==> r == i && c == j,
{
    if before(r, c, i, j) {
        lemma_lex(dim, r, c, i, j);
    } else if before(i, j, r, c) {
        lemma_lex(dim, i, j, r, c);
    }
}

proof fn lemma_next(w: int, a: int)
    ensures
        (a + 1) * w == a * w + w,
        a * w == w * a,
{
    assert((a + 1) * w == a * w + w) by (nonlinear_arith);
    assert(a * w == w * a) by (nonlinear_arith);
}

proof fn lemma_in_square(dim: int, r: int, c: int)
    requires
        0 <= r < dim,
        0 <= c < dim,
    ensures
        0 <= r * dim + c < dim * dim,
        0 <= r * dim,
{
    lemma_lex(dim, r, c, dim, 0);
    assert(0 <= r * dim) by (nonlinear_arith)
        requires
            0 <= r,
            0 <= dim,
    ;
}

impl<P: Copy, L: Copy> Window<P, L> {
    /// Appends the `dim * dim` nodes of a grid, row by row, each where
    /// `place` puts it; the nodes of `grid_static` are pinned.
    fn grid_points<F: Fn(u32, u32) -> P>(&mut self, dim: u32, place: &F)
        requires
            old(self)@.wf(),
            1 <= dim,
            dim * dim <= u32::MAX,
            old(self)@.points.len() + dim * dim <= usize::MAX,
            forall|r: u32, c: u32| #[trigger] place.requires((r, c)),
        ensures
            final(self)@.wf(),
            old(self)@.counts_exact() ==> final(self)@.counts_exact(),
            final(self)@.sticks == old(self)@.sticks,
            final(self)@.same_controls(old(self)@),
            final(self)@.points.len() == old(self)@.points.len() + dim * dim,
            forall|p: int| 0 <= p < old(self)@.points.len() ==> #[trigger] final(self)@.points[p] == old(self)@.points[p],
            forall|r: int, c: int|
                0 <= r < dim && 0 <= c < dim ==> {
                    let pt = final(self)@.points[#[trigger] node(old(self)@.points.len() as int, dim as int, r, c)];
                    &&& pt.prev == pt.pos
                    &&& place.ensures((r as u32, c as u32), pt.pos)
                    &&& pt.is_static == grid_static(dim as int, r, c)
                    &&& pt.connection_count == 0
                },
    {
        let ghost old_v = self@;
        let ghost base = old_v.points.len() as int;
        let mut i: u32 = 0;
        while i < dim
            invariant
                base == old_v.points.len(),
                1 <= dim,
                dim * dim <= u32::MAX,
                base + dim * dim <= usize::MAX,
                forall|r: u32, c: u32| #[trigger] place.requires((r, c)),
                i <= dim,
                self@.wf(),
                old_v.counts_exact() ==> self@.counts_exact(),
                self@.sticks == old_v.sticks,
                self@.same_controls(old_v),
                self@.points.len() == base + i * dim,
                forall|p: int| 0 <= p < base ==> #[trigger] self@.points[p] == old_v.points[p],
                forall|r: int, c: int|
                    0 <= r < i && 0 <= c < dim ==> {
                        let pt = self@.points[#[trigger] node(base, dim as int, r, c)];
                        &&& pt.prev == pt.pos
                        &&& place.ensures((r as u32, c as u32), pt.pos)
                        &&& pt.is_static == grid_static(dim as int, r, c)
                        &&& pt.connection_count == 0
                    },
            decreases dim - i,
        {
            let mut j: u32 = 0;
            proof {
                lemma_in_square(dim as int, i as int, 0);
            }
            while j < dim
                invariant
                    base == old_v.points.len(),
                    1 <= dim,
                    dim * dim <= u32::MAX,
                    base + dim * dim <= usize::MAX,
                    forall|r: u32, c: u32| #[trigger] place.requires((r, c)),
                    i < dim,
                    j <= dim,
                    self@.wf(),
                    old_v.counts_exact() ==> self@.counts_exact(),
                    self@.sticks == old_v.sticks,
                    self@.same_controls(old_v),
                    self@.points.len() == base + i * dim + j,
                    forall|p: int| 0 <= p < base ==> #[trigger] self@.points[p] == old_v.points[p],
                    forall|r: int, c: int|
                        0 <= r < dim && 0 <= c < dim && before(r, c, i as int, j as int) ==> {
                            let pt = self@.points[#[trigger] node(base, dim as int, r, c)];
                            &&& pt.prev == pt.pos
                            &&& place.ensures((r as u32, c as u32), pt.pos)
                            &&& pt.is_static == grid_static(dim as int, r, c)
                            &&& pt.connection_count == 0
                        },
                decreases dim - j,
            {
                let temp = place(i, j);
                let should_be_static = i == 0 && (j % 4 == 0 || j == dim - 1);
                let ghost before_push = self@;
                proof {
                    lemma_in_square(dim as int, i as int, j as int);
                }
                self.push_point(temp, should_be_static);
                proof {
                    assert forall|r: int, c: int|
                        0 <= r < dim && 0 <= c < dim && before(r, c, i as int, j + 1) implies {
                            let pt = self@.points[#[trigger] node(base, dim as int, r, c)];
                            &&& pt.prev == pt.pos
                            &&& place.ensures((r as u32, c as u32), pt.pos)
                            &&& pt.is_static == grid_static(dim as int, r, c)
                            &&& pt.connection_count == 0
                        } by {
                        if before(r, c, i as int, j as int) {
                            lemma_lex(dim as int, r, c, i as int, j as int);
                            assert(self@.points[node(base, dim as int, r, c)]
                                == before_push.points[node(base, dim as int, r, c)]);
                        }
                    }
                }
                j += 1;
            }
            proof {
                lemma_next(dim as int, i as int);
            }
            i += 1;
        }
    }
}

impl<P: Copy, L: Copy> Window<P, L> {
    /// Adds, cell by cell, the stick from each node to its right neighbour
    /// and the stick from it to the node below, for every node not on the
    /// last row or column of the grid whose first node is `base`.
    fn grid_cells<M: Fn(&P, &P) -> L>(&mut self, dim: u32, base: usize, measure: &M)
        requires
            old(self)@.wf(),
            1 <= dim,
            dim * dim <= u32::MAX,
            base + dim * dim == old(self)@.points.len(),
            base + dim * dim <= usize::MAX,
            forall|r: int, c: int|
                0 <= r < dim && 0 <= c < dim ==> old(self)@.points[#[trigger] node(base as int, dim as int, r, c)].connection_count == 0,
            forall|a: &P, b: &P| #[trigger] measure.requires((a, b)),
        ensures
            final(self)@.wf(),
            old(self)@.counts_exact() ==> final(self)@.counts_exact(),
            same_points(final(self)@.points, old(self)@.points),
            final(self)@.same_controls(old(self)@),
            forall|p: int| 0 <= p < base ==> #[trigger] final(self)@.points[p].connection_count == old(self)@.points[p].connection_count,
            forall|r: int, c: int|
                0 <= r < dim && 0 <= c < dim ==> final(self)@.points[#[trigger] node(base as int, dim as int, r, c)].connection_count
                    == woven(dim as int, dim - 1, 0, r, c),
            final(self)@.sticks.len() == old(self)@.sticks.len() + 2 * ((dim - 1) * (dim - 1)),
            forall|m: int| 0 <= m < old(self)@.sticks.len() ==> #[trigger] final(self)@.sticks[m] == old(self)@.sticks[m],
            forall|i: int, j: int|
                0 <= i < dim - 1 && 0 <= j < dim - 1 ==> {
                    let k = old(self)@.sticks.len() + 2 * #[trigger] cell(dim as int, i, j);
                    &&& joins(final(self)@.sticks[k], node(base as int, dim as int, i, j), node(base as int, dim as int, i, j + 1))
                    &&& measured(*measure, final(self)@.points, final(self)@.sticks[k])
                    &&& joins(final(self)@.sticks[k + 1], node(base as int, dim as int, i, j), node(base as int, dim as int, i + 1, j))
                    &&& measured(*measure, final(self)@.points, final(self)@.sticks[k + 1])
                },
    {
        let ghost old_v = self@;
        let ghost b = base as int;
        let ghost d = dim as int;
        let ghost s0 = old_v.sticks.len() as int;
        let mut i: u32 = 0;
        while i < dim - 1
            invariant
                b == base,
                d == dim,
                s0 == old_v.sticks.len(),
                1 <= dim,
                dim * dim <= u32::MAX,
                base + dim * dim == old_v.points.len(),
                base + dim * dim <= usize::MAX,
                forall|r: int, c: int|
                    0 <= r < dim && 0 <= c < dim ==> old_v.points[#[trigger] node(b, d, r, c)].connection_count == 0,
                forall|a: &P, b: &P| #[trigger] measure.requires((a, b)),
                i <= dim - 1,
                self@.wf(),
                old_v.counts_exact() ==> self@.counts_exact(),
                same_points(self@.points, old_v.points),
                self@.same_controls(old_v),
                forall|p: int| 0 <= p < base ==> #[trigger] self@.points[p].connection_count == old_v.points[p].connection_count,
                forall|r: int, c: int|
                    0 <= r < dim && 0 <= c < dim ==> self@.points[#[trigger] node(b, d, r, c)].connection_count
                        == woven(d, i as int, 0, r, c),
                self@.sticks.len() == s0 + 2 * cell(d, i as int, 0),
                forall|m: int| 0 <= m < s0 ==> #[trigger] self@.sticks[m] == old_v.sticks[m],
                forall|i2: int, j2: int|
                    0 <= i2 < dim - 1 && 0 <= j2 < dim - 1 && i2 < i ==> {
                        let k = s0 + 2 * #[trigger] cell(d, i2, j2);
                        &&& joins(self@.sticks[k], node(b, d, i2, j2), node(b, d, i2, j2 + 1))
                        &&& measured(*measure, self@.points, self@.sticks[k])
                        &&& joins(self@.sticks[k + 1], node(b, d, i2, j2), node(b, d, i2 + 1, j2))
                        &&& measured(*measure, self@.points, self@.sticks[k + 1])
                    },
            decreases dim - 1 - i,
        {
            let mut j: u32 = 0;
            while j < dim - 1
                invariant
                    b == base,
                    d == dim,
                    s0 == old_v.sticks.len(),
                    1 <= dim,
                    dim * dim <= u32::MAX,
                    base + dim * dim == old_v.points.len(),
                    base + dim * dim <= usize::MAX,
                base + dim * dim <= usize::MAX,
                    forall|r: int, c: int|
                        0 <= r < dim && 0 <= c < dim ==> old_v.points[#[trigger] node(b, d, r, c)].connection_count == 0,
                    forall|a: &P, b: &P| #[trigger] measure.requires((a, b)),
                    i < dim - 1,
                    j <= dim - 1,
                    self@.wf(),
                    old_v.counts_exact() ==> self@.counts_exact(),
                    same_points(self@.points, old_v.points),
                    self@.same_controls(old_v),
                    forall|p: int| 0 <= p < base ==> #[trigger] self@.points[p].connection_count == old_v.points[p].connection_count,
                    forall|r: int, c: int|
                        0 <= r < dim && 0 <= c < dim ==> self@.points[#[trigger] node(b, d, r, c)].connection_count
                            == woven(d, i as int, j as int, r, c),
                    self@.sticks.len() == s0 + 2 * cell(d, i as int, j as int),
                    forall|m: int| 0 <= m < s0 ==> #[trigger] self@.sticks[m] == old_v.sticks[m],
                    forall|i2: int, j2: int|
                        0 <= i2 < dim - 1 && 0 <= j2 < dim - 1 && before(i2, j2, i as int, j as int) ==> {
                            let k = s0 + 2 * #[trigger] cell(d, i2, j2);
                            &&& joins(self@.sticks[k], node(b, d, i2, j2), node(b, d, i2, j2 + 1))
                            &&& measured(*measure, self@.points, self@.sticks[k])
                            &&& joins(self@.sticks[k + 1], node(b, d, i2, j2), node(b, d, i2 + 1, j2))
                            &&& measured(*measure, self@.points, self@.sticks[k + 1])
                        },
                decreases dim - 1 - j,
            {
                proof {
                    lemma_in_square(d, i + 1, j as int);
                    lemma_in_square(d, i as int, j + 1);
                    lemma_in_square(d, i as int, j as int);
                    lemma_next(d, i as int);
                }
                let s = base + (i * dim + j) as usize;
                let e1 = base + (i * dim + j + 1) as usize;
                let len1 = measure(&self.points()[s].pos, &self.points()[e1].pos);
                let st1 = Stick { start: s, end: e1, target_length: len1 };
                let ghost v0 = self@;
                proof {
                    assert(s as int == node(b, d, i as int, j as int));
                    assert(e1 as int == node(b, d, i as int, j + 1));
                    assert(v0.points[s as int].connection_count == woven(d, i as int, j as int, i as int, j as int));
                    assert(v0.points[e1 as int].connection_count == woven(d, i as int, j as int, i as int, j + 1));
                }
                self.add_stick(st1);
                let e2 = base + ((i + 1) * dim + j) as usize;
                let len2 = measure(&self.points()[s].pos, &self.points()[e2].pos);
                let st2 = Stick { start: s, end: e2, target_length: len2 };
                let ghost v1 = self@;
                proof {
                    assert(e2 as int == node(b, d, i + 1, j as int));
                    lemma_node_eq(b, d, i as int, j as int, i as int, j + 1);
                    lemma_node_eq(b, d, i + 1, j as int, i as int, j + 1);
                    assert(v1.points[e2 as int].connection_count == v0.points[e2 as int].connection_count);
                    assert(v0.points[e2 as int].connection_count == woven(d, i as int, j as int, i + 1, j as int));
                    assert(v1.points[s as int].connection_count == v0.points[s as int].connection_count + 1);
                }
                self.add_stick(st2);
                proof {
                    let v2 = self@;
                    lemma_node_eq(b, d, i as int, j as int, i + 1, j as int);
                    assert forall|r: int, c: int|
                        0 <= r < dim && 0 <= c < dim implies v2.points[#[trigger] node(b, d, r, c)].connection_count
                            == woven(d, i as int, j + 1, r, c) by {
                        lemma_node_eq(b, d, r, c, i as int, j as int);
                        lemma_node_eq(b, d, r, c, i as int, j + 1);
                        lemma_node_eq(b, d, r, c, i + 1, j as int);
                        lemma_in_square(d, r, c);
                        let q = node(b, d, r, c);
                        assert(v2.points[q].connection_count == v0.points[q].connection_count + ends_at(st1, q) + ends_at(st2, q));
                    }
                    assert forall|p: int| 0 <= p < base implies #[trigger] v2.points[p].connection_count
                        == old_v.points[p].connection_count by {
                        assert(v2.points[p].connection_count == v0.points[p].connection_count + ends_at(st1, p) + ends_at(st2, p));
                    }
                    assert forall|m: int| 0 <= m < s0 implies #[trigger] v2.sticks[m] == old_v.sticks[m] by {
                        assert(v2.sticks[m] == v0.sticks[m]);
                    }
                    lemma_same_points_trans(v2.points, v1.points, v0.points);
                    lemma_same_points_trans(v2.points, v0.points, old_v.points);
                    assert(cell(d, i as int, j + 1) == cell(d, i as int, j as int) + 1);
                    assert forall|i2: int, j2: int|
                        0 <= i2 < dim - 1 && 0 <= j2 < dim - 1 && before(i2, j2, i as int, j + 1) implies {
                            let k = s0 + 2 * #[trigger] cell(d, i2, j2);
                            &&& joins(v2.sticks[k], node(b, d, i2, j2), node(b, d, i2, j2 + 1))
                            &&& measured(*measure, v2.points, v2.sticks[k])
                            &&& joins(v2.sticks[k + 1], node(b, d, i2, j2), node(b, d, i2 + 1, j2))
                            &&& measured(*measure, v2.points, v2.sticks[k + 1])
                        } by {
                        let k = s0 + 2 * cell(d, i2, j2);
                        if before(i2, j2, i as int, j as int) {
                            lemma_lex(d - 1, i2, j2, i as int, j as int);
                            assert(v2.sticks[k] == v0.sticks[k]);
                            assert(v2.sticks[k + 1] == v0.sticks[k + 1]);
                        } else {
                            assert(i2 == i && j2 == j);
                            assert(v2.sticks[k] == st1);
                            assert(v2.sticks[k + 1] == st2);
                        }
                        assert(v2.points[v2.sticks[k].start as int].pos == v0.points[v2.sticks[k].start as int].pos);
                        assert(v2.points[v2.sticks[k].end as int].pos == v0.points[v2.sticks[k].end as int].pos);
                        assert(v2.points[v2.sticks[k + 1].start as int].pos == v0.points[v2.sticks[k + 1].start as int].pos);
                        assert(v2.points[v2.sticks[k + 1].end as int].pos == v0.points[v2.sticks[k + 1].end as int].pos);
                    }
                }
                j += 1;
            }
            proof {
                lemma_next(d - 1, i as int);
            }
            i += 1;
        }
    }
}

impl<P: Copy, L: Copy> Window<P, L> {
    /// Adds the sticks of the last column (each node to the one above it)
    /// and of the last row (each node to the one on its right), in turns.
    #[verifier::rlimit(40)]
    fn grid_hems<M: Fn(&P, &P) -> L>(&mut self, dim: u32, base: usize, measure: &M)
        requires
            old(self)@.wf(),
            1 <= dim,
            dim * dim <= u32::MAX,
            base + dim * dim == old(self)@.points.len(),
            base + dim * dim <= usize::MAX,
            forall|r: int, c: int|
                0 <= r < dim && 0 <= c < dim ==> old(self)@.points[#[trigger] node(base as int, dim as int, r, c)].connection_count
                    == hemmed(dim as int, 0, r, c),
            forall|a: &P, b: &P| #[trigger] measure.requires((a, b)),
        ensures
            final(self)@.wf(),
            old(self)@.counts_exact() ==> final(self)@.counts_exact(),
            same_points(final(self)@.points, old(self)@.points),
            final(self)@.same_controls(old(self)@),
            forall|p: int| 0 <= p < base ==> #[trigger] final(self)@.points[p].connection_count == old(self)@.points[p].connection_count,
            forall|r: int, c: int|
                0 <= r < dim && 0 <= c < dim ==> final(self)@.points[#[trigger] node(base as int, dim as int, r, c)].connection_count
                    == hemmed(dim as int, dim - 1, r, c),
            final(self)@.sticks.len() == old(self)@.sticks.len() + 2 * (dim - 1),
            forall|m: int| 0 <= m < old(self)@.sticks.len() ==> #[trigger] final(self)@.sticks[m] == old(self)@.sticks[m],
            forall|i: int|
                0 <= i < dim - 1 ==> {
                    let k = #[trigger] hem_index(old(self)@.sticks.len() as int, i);
                    &&& joins(final(self)@.sticks[k], node(base as int, dim as int, i + 1, dim - 1), node(base as int, dim as int, i, dim - 1))
                    &&& measured(*measure, final(self)@.points, final(self)@.sticks[k])
                    &&& joins(final(self)@.sticks[k + 1], node(base as int, dim as int, dim - 1, i), node(base as int, dim as int, dim - 1, i + 1))
                    &&& measured(*measure, final(self)@.points, final(self)@.sticks[k + 1])
                },
    {
        let ghost old_v = self@;
        let ghost b = base as int;
        let ghost d = dim as int;
        let ghost s0 = old_v.sticks.len() as int;
        let mut i: u32 = 0;
        while i < dim - 1
            invariant
                b == base,
                d == dim,
                s0 == old_v.sticks.len(),
                1 <= dim,
                dim * dim <= u32::MAX,
                base + dim * dim == old_v.points.len(),
                base + dim * dim <= usize::MAX,
                forall|a: &P, b: &P| #[trigger] measure.requires((a, b)),
                i <= dim - 1,
                self@.wf(),
                old_v.counts_exact() ==> self@.counts_exact(),
                same_points(self@.points, old_v.points),
                self@.same_controls(old_v),
                forall|p: int| 0 <= p < base ==> #[trigger] self@.points[p].connection_count == old_v.points[p].connection_count,
                forall|r: int, c: int|
                    0 <= r < dim && 0 <= c < dim ==> self@.points[#[trigger] node(b, d, r, c)].connection_count
                        == hemmed(d, i as int, r, c),
                self@.sticks.len() == s0 + 2 * i,
                forall|m: int| 0 <= m < s0 ==> #[trigger] self@.sticks[m] == old_v.sticks[m],
                forall|i2: int|
                    0 <= i2 < i ==> {
                        let k = #[trigger] hem_index(s0, i2);
                        &&& joins(self@.sticks[k], node(b, d, i2 + 1, d - 1), node(b, d, i2, d - 1))
                        &&& measured(*measure, self@.points, self@.sticks[k])
                        &&& joins(self@.sticks[k + 1], node(b, d, d - 1, i2), node(b, d, d - 1, i2 + 1))
                        &&& measured(*measure, self@.points, self@.sticks[k + 1])
                    },
            decreases dim - 1 - i,
        {
            proof {
                lemma_in_square(d, i + 1, d - 1);
                lemma_in_square(d, i as int, d - 1);
                lemma_in_square(d, d - 1, i + 1);
                lemma_in_square(d, d - 1, i as int);
                lemma_next(d, i as int);
                lemma_next(d, d - 1);
                lemma_next(d, i + 1);
                assert((i + 2) * d <= d * d) by (nonlinear_arith)
                    requires
                        i + 2 <= d,
                        0 <= d,
                ;
            }
            let mut s = base + ((i + 1) * dim + dim - 1) as usize;
            let mut e = base + (i * dim + dim - 1) as usize;
            let len1 = measure(&self.points()[s].pos, &self.points()[e].pos);
            let st1 = Stick { start: s, end: e, target_length: len1 };
            let ghost v0 = self@;
            proof {
                assert(s as int == node(b, d, i + 1, d - 1));
                assert(e as int == node(b, d, i as int, d - 1));
                lemma_node_eq(b, d, i + 1, d - 1, i as int, d - 1);
            }
            self.add_stick(st1);
            s = base + (dim * (dim - 1) + i) as usize;
            e = base + (dim * (dim - 1) + i + 1) as usize;
            let len2 = measure(&self.points()[s].pos, &self.points()[e].pos);
            let st2 = Stick { start: s, end: e, target_length: len2 };
            let ghost v1 = self@;
            proof {
                assert(s as int == node(b, d, d - 1, i as int));
                assert(e as int == node(b, d, d - 1, i + 1));
                lemma_node_eq(b, d, d - 1, i as int, d - 1, i + 1);
                assert forall|r: int, c: int|
                    0 <= r < dim && 0 <= c < dim implies v1.points[#[trigger] node(b, d, r, c)].connection_count + 1
                        <= u32::MAX by {
                    lemma_in_square(d, r, c);
                    let q = node(b, d, r, c);
                    assert(v1.points[q].connection_count == v0.points[q].connection_count + ends_at(st1, q));
                }
            }
            self.add_stick(st2);
            proof {
                let v2 = self@;
                assert forall|r: int, c: int|
                    0 <= r < dim && 0 <= c < dim implies v2.points[#[trigger] node(b, d, r, c)].connection_count
                        == hemmed(d, i + 1, r, c) by {
                    lemma_node_eq(b, d, r, c, i + 1, d - 1);
                    lemma_node_eq(b, d, r, c, i as int, d - 1);
                    lemma_node_eq(b, d, r, c, d - 1, i as int);
                    lemma_node_eq(b, d, r, c, d - 1, i + 1);
                    lemma_in_square(d, r, c);
                    let q = node(b, d, r, c);
                    assert(v2.points[q].connection_count == v0.points[q].connection_count + ends_at(st1, q) + ends_at(st2, q));
                }
                assert forall|p: int| 0 <= p < base implies #[trigger] v2.points[p].connection_count
                    == old_v.points[p].connection_count by {
                    assert(v2.points[p].connection_count == v0.points[p].connection_count + ends_at(st1, p) + ends_at(st2, p));
                }
                assert forall|m: int| 0 <= m < s0 implies #[trigger] v2.sticks[m] == old_v.sticks[m] by {
                    assert(v2.sticks[m] == v0.sticks[m]);
                }
                lemma_same_points_trans(v2.points, v1.points, v0.points);
                lemma_same_points_trans(v2.points, v0.points, old_v.points);
                assert forall|i2: int|
                    0 <= i2 < i + 1 implies {
                        let k = #[trigger] hem_index(s0, i2);
                        &&& joins(v2.sticks[k], node(b, d, i2 + 1, d - 1), node(b, d, i2, d - 1))
                        &&& measured(*measure, v2.points, v2.sticks[k])
                        &&& joins(v2.sticks[k + 1], node(b, d, d - 1, i2), node(b, d, d - 1, i2 + 1))
                        &&& measured(*measure, v2.points, v2.sticks[k + 1])
                    } by {
                    let k = s0 + 2 * i2;
                    if i2 < i {
                        assert(v2.sticks[k] == v0.sticks[k]);
                        assert(v2.sticks[k + 1] == v0.sticks[k + 1]);
                    } else {
                        assert(v2.sticks[k] == st1);
                        assert(v2.sticks[k + 1] == st2);
                    }
                    assert(v2.points[v2.sticks[k].start as int].pos == v0.points[v2.sticks[k].start as int].pos);
                    assert(v2.points[v2.sticks[k].end as int].pos == v0.points[v2.sticks[k].end as int].pos);
                    assert(v2.points[v2.sticks[k + 1].start as int].pos == v0.points[v2.sticks[k + 1].start as int].pos);
                    assert(v2.points[v2.sticks[k + 1].end as int].pos == v0.points[v2.sticks[k + 1].end as int].pos);
                }
            }
            i += 1;
        }
    }
}

impl<P: Copy, L: Copy> Window<P, L> {
    /// Weaves a `dim` by `dim` cloth after the existing points: node (`r`,
    /// `c`) is new point `node(base, dim, r, c)`, resting where `place(r, c)`
    /// puts it, pinned when `grid_static` says so, and joined to each of its
    /// (up to four) neighbours. The sticks come cell by cell (to the right
    /// neighbour, then to the one below), then the last column and the last
    /// row in turns; each has the length `measure` gives for its two ends.
    pub fn generate_grid<F: Fn(u32, u32) -> P, M: Fn(&P, &P) -> L>(&mut self, dim: u32, place: F, measure: M)
        requires
            old(self)@.wf(),
            1 <= dim,
            dim * dim <= u32::MAX,
            old(self)@.points.len() + dim * dim <= usize::MAX,
            forall|r: u32, c: u32| #[trigger] place.requires((r, c)),
            forall|a: &P, b: &P| #[trigger] measure.requires((a, b)),
        ensures
            final(self)@.wf(),
            old(self)@.counts_exact() ==> final(self)@.counts_exact(),
            final(self)@.same_controls(old(self)@),
            final(self)@.points.len() == old(self)@.points.len() + dim * dim,
            forall|p: int| 0 <= p < old(self)@.points.len() ==> #[trigger] final(self)@.points[p] == old(self)@.points[p],
            forall|r: int, c: int|
                0 <= r < dim && 0 <= c < dim ==> {
                    let pt = final(self)@.points[#[trigger] node(old(self)@.points.len() as int, dim as int, r, c)];
                    &&& pt.prev == pt.pos
                    &&& place.ensures((r as u32, c as u32), pt.pos)
                    &&& pt.is_static == grid_static(dim as int, r, c)
                    &&& pt.connection_count == neighbours(dim as int, r, c)
                },
            final(self)@.sticks.len() == old(self)@.sticks.len() + 2 * ((dim - 1) * (dim - 1)) + 2 * (dim - 1),
            forall|m: int| 0 <= m < old(self)@.sticks.len() ==> #[trigger] final(self)@.sticks[m] == old(self)@.sticks[m],
            forall|i: int, j: int|
                0 <= i < dim - 1 && 0 <= j < dim - 1 ==> {
                    let b = old(self)@.points.len() as int;
                    let k = old(self)@.sticks.len() + 2 * #[trigger] cell(dim as int, i, j);
                    &&& joins(final(self)@.sticks[k], node(b, dim as int, i, j), node(b, dim as int, i, j + 1))
                    &&& measured(measure, final(self)@.points, final(self)@.sticks[k])
                    &&& joins(final(self)@.sticks[k + 1], node(b, dim as int, i, j), node(b, dim as int, i + 1, j))
                    &&& measured(measure, final(self)@.points, final(self)@.sticks[k + 1])
                },
            forall|i: int|
                0 <= i < dim - 1 ==> {
                    let b = old(self)@.points.len() as int;
                    let k = #[trigger] hem_index(old(self)@.sticks.len() + 2 * ((dim - 1) * (dim - 1)), i);
                    &&& joins(final(self)@.sticks[k], node(b, dim as int, i + 1, dim - 1), node(b, dim as int, i, dim - 1))
                    &&& measured(measure, final(self)@.points, final(self)@.sticks[k])
                    &&& joins(final(self)@.sticks[k + 1], node(b, dim as int, dim - 1, i), node(b, dim as int, dim - 1, i + 1))
                    &&& measured(measure, final(self)@.points, final(self)@.sticks[k + 1])
                },
    {
        let ghost v0 = self@;
        let initial_size = self.points().len();
        self.grid_points(dim, &place);
        let ghost v1 = self@;
        self.grid_cells(dim, initial_size, &measure);
        let ghost v2 = self@;
        proof {
            assert forall|r: int, c: int|
                0 <= r < dim && 0 <= c < dim implies v2.points[#[trigger] node(initial_size as int, dim as int, r, c)].connection_count
                    == hemmed(dim as int, 0, r, c) by {
            }
        }
        self.grid_hems(dim, initial_size, &measure);
        proof {
            let v3 = self@;
            let b = initial_size as int;
            let d = dim as int;
            assert forall|p: int| 0 <= p < v0.points.len() implies #[trigger] v3.points[p] == v0.points[p] by {
                assert(v3.points[p].pos == v2.points[p].pos);
                assert(v2.points[p].pos == v1.points[p].pos);
                assert(v3.points[p].prev == v2.points[p].prev);
                assert(v2.points[p].prev == v1.points[p].prev);
                assert(v3.points[p].is_static == v2.points[p].is_static);
                assert(v2.points[p].is_static == v1.points[p].is_static);
                assert(v3.points[p].connection_count == v2.points[p].connection_count);
            }
            assert forall|r: int, c: int|
                0 <= r < dim && 0 <= c < dim implies {
                    let pt = v3.points[#[trigger] node(b, d, r, c)];
                    &&& pt.prev == pt.pos
                    &&& place.ensures((r as u32, c as u32), pt.pos)
                    &&& pt.is_static == grid_static(d, r, c)
                    &&& pt.connection_count == neighbours(d, r, c)
                } by {
                lemma_in_square(d, r, c);
                let q = node(b, d, r, c);
                assert(v3.points[q].pos == v2.points[q].pos);
                assert(v2.points[q].pos == v1.points[q].pos);
                assert(v3.points[q].prev == v2.points[q].prev);
                assert(v2.points[q].prev == v1.points[q].prev);
                assert(v3.points[q].is_static == v2.points[q].is_static);
                assert(v2.points[q].is_static == v1.points[q].is_static);
            }
            assert forall|i: int, j: int|
                0 <= i < dim - 1 && 0 <= j < dim - 1 implies {
                    let k = v0.sticks.len() + 2 * #[trigger] cell(d, i, j);
                    &&& joins(v3.sticks[k], node(b, d, i, j), node(b, d, i, j + 1))
                    &&& measured(measure, v3.points, v3.sticks[k])
                    &&& joins(v3.sticks[k + 1], node(b, d, i, j), node(b, d, i + 1, j))
                    &&& measured(measure, v3.points, v3.sticks[k + 1])
                } by {
                let k = v0.sticks.len() + 2 * cell(d, i, j);
                lemma_lex(d - 1, i, j, d - 1, 0);
                assert(cell(d, d - 1, 0) == (d - 1) * (d - 1));
                assert(v3.sticks[k] == v2.sticks[k]);
                assert(v3.sticks[k + 1] == v2.sticks[k + 1]);
                let s1 = v3.sticks[k];
                let s2 = v3.sticks[k + 1];
                assert(v3.points[s1.start as int].pos == v2.points[s1.start as int].pos);
                assert(v3.points[s1.end as int].pos == v2.points[s1.end as int].pos);
                assert(v3.points[s2.start as int].pos == v2.points[s2.start as int].pos);
                assert(v3.points[s2.end as int].pos == v2.points[s2.end as int].pos);
            }
            assert forall|m: int| 0 <= m < v0.sticks.len() implies #[trigger] v3.sticks[m] == v0.sticks[m] by {
                assert(v3.sticks[m] == v2.sticks[m]);
            }
        }
    }
}

} // verus!
