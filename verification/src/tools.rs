use vstd::prelude::*;
use crate::cloth::{Point, Stick, Window, WindowView, same_points};
use crate::degree::ends_at;
use crate::mode::Mode;

verus! {

/// The keys pressed and the mouse buttons' states, as read for one frame.
/// Button 0 is the left button (the tool), button 1 the right one (drawing a
/// new stick).
#[derive(Clone, Copy, Debug)]
pub struct Input {
    pub mouse0_held: bool,
    pub mouse1_pressed: bool,
    pub mouse1_released: bool,
    pub mouse1_held: bool,
    pub key_s: bool,
    pub key_d: bool,
    pub key_h: bool,
    pub key_c: bool,
    pub key_p: bool,
    pub key_f: bool,
    pub key_g: bool,
    pub key_q: bool,
    pub key_a: bool,
    pub key_w: bool,
    pub key_t: bool,
}

/// One thing the input of a frame asks for, in the order it is to be done.
#[derive(PartialEq, Eq, Structural, Clone, Copy, Debug)]
pub enum InputStep {
    /// Select the point nearest the mouse.
    PickClosest,
    /// Pin (`true`) or unpin (`false`) the selected point, if it is near the mouse.
    PinClosest(bool),
    /// Switch the tool.
    SetMode(Mode),
    /// Weave a 64 by 64 cloth.
    WeaveGrid,
    /// Print the debug information.
    PrintDebug,
    /// Delete all sticks.
    DeleteSticks,
    /// Delete all points and sticks.
    DeleteAll,
    /// Join every point to every other point.
    ConnectAll,
    /// Start drawing a stick at the point nearest the mouse.
    StartConnection,
    /// Finish the stick being drawn at the point nearest the mouse.
    EndConnection,
    /// Forget the stick being drawn.
    ResetConnection,
    /// Show the stick being drawn.
    DrawPreview,
}

/// The steps that `input` asks of a cloth whose tool is `mode`.
pub open spec fn input_steps(mode: Mode, input: Input) -> Seq<InputStep> {
    let s: Seq<InputStep> = if !(mode == Mode::Hand && input.mouse0_held) {
        seq![InputStep::PickClosest]
    } else {
        Seq::empty()
    };
    let s = if input.key_s {
        s.push(InputStep::PinClosest(true))
    } else if input.key_d {
        s.push(InputStep::PinClosest(false))
    } else {
        s
    };
    let s = if input.key_h {
        s.push(InputStep::SetMode(Mode::Hand))
    } else if input.key_c {
        s.push(InputStep::SetMode(Mode::Cut))
    } else if input.key_p {
        s.push(InputStep::SetMode(Mode::Place))
    } else if input.key_f {
        s.push(InputStep::SetMode(Mode::Force))
    } else {
        s
    };
    let s = if input.key_g {
        s.push(InputStep::WeaveGrid)
    } else {
        s
    };
    let s = if input.key_q {
        s.push(InputStep::PrintDebug)
    } else {
        s
    };
    let s = if input.key_a {
        s.push(InputStep::DeleteSticks)
    } else {
        s
    };
    let s = if input.key_w {
        s.push(InputStep::DeleteAll)
    } else {
        s
    };
    let s = if input.key_t {
        s.push(InputStep::ConnectAll)
    } else {
        s
    };
    let s = if input.mouse1_pressed {
        s.push(InputStep::StartConnection)
    } else {
        let s = if input.mouse1_released {
            s.push(InputStep::EndConnection)
        } else {
            s
        };
        if !input.mouse1_held {
            s.push(InputStep::ResetConnection)
        } else {
            s
        }
    };
    s.push(InputStep::DrawPreview)
}

/// What the debug key prints.
#[derive(Clone, Copy, Debug)]
pub struct DebugInfo<P> {
    pub points: usize,
    pub sticks: usize,
    pub newstickstart: Option<usize>,
    pub newstickend: Option<usize>,
    pub closest_point: Option<usize>,
    pub closest: Option<Point<P>>,
}

/// What `end_connection(closest, measure)` does (see there).
pub open spec fn connection_ended<P, L, M: Fn(&P, &P) -> L>(
    old: WindowView<P, L>,
    closest: Option<usize>,
    measure: M,
    new: WindowView<P, L>,
) -> bool {
    match (old.newstickstart, closest) {
        (None, _) => new == old,
        (Some(s), Some(e)) => if s != e {
            &&& new.sticks.len() == old.sticks.len() + 1
            &&& new.sticks.drop_last() == old.sticks
            &&& new.sticks.last().start == s
            &&& new.sticks.last().end == e
            &&& measure.ensures(
                (&old.points[s as int].pos, &old.points[e as int].pos),
                new.sticks.last().target_length,
            )
            &&& same_points(new.points, old.points)
            &&& forall|p: int|
                0 <= p < new.points.len() ==> #[trigger] new.points[p].connection_count
                    == old.points[p].connection_count + (if p == s || p == e {
                    1int
                } else {
                    0
                })
            &&& new.newstickstart is None
            &&& new.newstickend is None
            &&& new.orphans == old.orphans
            &&& new.closest_point == old.closest_point
            &&& new.mode == old.mode
            &&& new.counter == old.counter
        } else {
            new == (WindowView { newstickend: closest, ..old })
        },
        (Some(_), None) => new == (WindowView { newstickend: None, ..old }),
    }
}

/// What `pin_closest(pinned, near)` makes of `v`: the selected point, when
/// there is one and it is `near` the mouse, is pinned (or unpinned); nothing
/// else changes.
pub open spec fn pin_result<P, L>(v: WindowView<P, L>, pinned: bool, near: bool) -> WindowView<P, L> {
    match v.closest_point {
        Some(c) => if near {
            WindowView { points: v.points.update(c as int, Point { is_static: pinned, ..v.points[c as int] }), ..v }
        } else {
            v
        },
        None => v,
    }
}

/// A search for the point nearest the mouse over `pts`: the first point is
/// the first pick; then each point `i` in turn is compared with the current
/// pick, `nearer` answering `answers[i]` (whether point `i` is strictly
/// nearer), and becomes the pick when it is.
pub open spec fn nearest_search<P, C: Fn(&P, &P) -> bool>(
    pts: Seq<Point<P>>,
    nearer: C,
    picks: Seq<int>,
    answers: Seq<bool>,
) -> bool {
    &&& picks.len() == pts.len() + 1
    &&& answers.len() == pts.len()
    &&& picks[0] == 0
    &&& forall|i: int|
        #![trigger answers[i]]
        0 <= i < pts.len() ==> 0 <= picks[i] < pts.len() && nearer.ensures(
            (&pts[i].pos, &pts[picks[i]].pos),
            answers[i],
        ) && picks[i + 1] == (if answers[i] {
            i
        } else {
            picks[i]
        })
}

/// `i` names an existing point, if it names any.
pub open spec fn valid_index<P, L>(v: WindowView<P, L>, i: Option<usize>) -> bool {
    i matches Some(k) ==> k < v.points.len()
}

impl<P: Copy, L: Copy> Window<P, L> {
    /// The steps this frame's input asks for: select the point nearest the
    /// mouse (unless a point is being dragged by hand), pin or unpin it (S
    /// before D), switch the tool (H, C, P, F in that order of precedence),
    /// weave a cloth (G), print (Q), delete the sticks (A), delete everything
    /// (W), join all points (T), then start, finish or forget the stick being
    /// drawn with the right button, and show it.
    pub fn handle_input(&self, input: &Input) -> (steps: Vec<InputStep>)
        ensures
            steps@ == input_steps(self@.mode, *input),
    {
        let mut s: Vec<InputStep> = Vec::new();
        let hand = match self.mode() {
            Mode::Hand => true,
            _ => false,
        };
        if !(hand && input.mouse0_held) {
            s.push(InputStep::PickClosest);
        }
        if input.key_s {
            s.push(InputStep::PinClosest(true));
        } else if input.key_d {
            s.push(InputStep::PinClosest(false));
        }
        if input.key_h {
            s.push(InputStep::SetMode(Mode::Hand));
        } else if input.key_c {
            s.push(InputStep::SetMode(Mode::Cut));
        } else if input.key_p {
            s.push(InputStep::SetMode(Mode::Place));
        } else if input.key_f {
            s.push(InputStep::SetMode(Mode::Force));
        }
        if input.key_g {
            s.push(InputStep::WeaveGrid);
        }
        if input.key_q {
            s.push(InputStep::PrintDebug);
        }
        if input.key_a {
            s.push(InputStep::DeleteSticks);
        }
        if input.key_w {
            s.push(InputStep::DeleteAll);
        }
        if input.key_t {
            s.push(InputStep::ConnectAll);
        }
        if input.mouse1_pressed {
            s.push(InputStep::StartConnection);
        } else {
            if input.mouse1_released {
                s.push(InputStep::EndConnection);
            }
            if !input.mouse1_held {
                s.push(InputStep::ResetConnection);
            }
        }
        s.push(InputStep::DrawPreview);
        proof {
            assert(s@ =~= input_steps(self@.mode, *input));
        }
        s
    }

    /// The point nearest the mouse, if there is any point: `nearer(a, b)`
    /// tells whether position `a` is strictly nearer the mouse than `b`, and
    /// the earliest of the nearest points wins.
    pub fn get_closest_point<C: Fn(&P, &P) -> bool>(&self, nearer: C) -> (r: Option<usize>)
        requires
            forall|a: &P, b: &P| #[trigger] nearer.requires((a, b)),
        ensures
            r is None <==> self@.points.len() == 0,
            valid_index(self@, r),
            r matches Some(c) ==> exists|picks: Seq<int>, answers: Seq<bool>|
                #[trigger] nearest_search(self@.points, nearer, picks, answers) && picks.last() == c,
    {
        let pts = self.points();
        let n = pts.len();
        if n == 0 {
            return None;
        }
        let mut out: usize = 0;
        let ghost mut picks: Seq<int> = seq![0int];
        let ghost mut answers: Seq<bool> = Seq::empty();
        let mut i: usize = 0;
        while i < n
            invariant
                n == pts@.len(),
                pts@ == self@.points,
                0 < n,
                i <= n,
                out < n,
                forall|a: &P, b: &P| #[trigger] nearer.requires((a, b)),
                picks.len() == i + 1,
                answers.len() == i,
                picks[0] == 0,
                picks.last() == out,
                forall|j: int| 0 <= j <= i ==> 0 <= #[trigger] picks[j] < n,
                forall|j: int|
                    #![trigger answers[j]]
                    0 <= j < i ==> nearer.ensures((&pts@[j].pos, &pts@[picks[j]].pos), answers[j])
                        && picks[j + 1] == (if answers[j] {
                        j
                    } else {
                        picks[j]
                    }),
            decreases n - i,
        {
            let b = nearer(&pts[i].pos, &pts[out].pos);
            proof {
                assert(nearer.ensures((&pts@[i as int].pos, &pts@[out as int].pos), b));
                let p0 = picks;
                let a0 = answers;
                answers = a0.push(b);
                picks = p0.push(if b { i as int } else { out as int });
                assert forall|j: int| 0 <= j <= i + 1 implies 0 <= #[trigger] picks[j] < n by {
                    if j <= i {
                        assert(picks[j] == p0[j]);
                    }
                }
                assert forall|j: int|
                    #![trigger answers[j]]
                    0 <= j < i + 1 implies nearer.ensures((&pts@[j].pos, &pts@[picks[j]].pos), answers[j])
                        && picks[j + 1] == (if answers[j] {
                        j
                    } else {
                        picks[j]
                    }) by {
                    if j < i {
                        assert(answers[j] == a0[j]);
                        assert(picks[j] == p0[j]);
                        assert(picks[j + 1] == p0[j + 1]);
                    } else {
                        assert(picks[j] == out);
                        assert(answers[j] == b);
                        assert(nearer.ensures((&pts@[j].pos, &pts@[picks[j]].pos), b));
                    }
                }
            }
            if b {
                out = i;
            }
            i += 1;
        }
        proof {
            assert forall|j: int|
                #![trigger answers[j]]
                0 <= j < n implies 0 <= picks[j] < n && nearer.ensures((&pts@[j].pos, &pts@[picks[j]].pos), answers[j])
                    && picks[j + 1] == (if answers[j] {
                    j
                } else {
                    picks[j]
                }) by {
                assert(0 <= picks[j] < n);
            }
            assert(nearest_search(self@.points, nearer, picks, answers));
        }
        Some(out)
    }

    /// Pins (or unpins) the selected point when it is `near` the mouse.
    pub fn pin_closest(&mut self, pinned: bool, near: bool)
        requires
            old(self)@.wf(),
            valid_index(old(self)@, old(self)@.closest_point),
        ensures
            final(self)@.wf(),
            old(self)@.counts_exact() ==> final(self)@.counts_exact(),
            final(self)@ == pin_result(old(self)@, pinned, near),
    {
        if let Some(closest) = self.closest_point() {
            if near {
                self.set_static(closest, pinned);
            }
        }
    }

    /// Starts drawing a stick at `closest`, the point nearest the mouse.
    pub fn start_connection(&mut self, closest: Option<usize>)
        requires
            old(self)@.wf(),
        ensures
            final(self)@ == (WindowView { newstickstart: closest, ..old(self)@ }),
    {
        let end = self.newstickend();
        self.set_connection(closest, end);
    }

    /// Forgets the stick being drawn.
    pub fn reset_connection(&mut self)
        requires
            old(self)@.wf(),
        ensures
            final(self)@ == (WindowView { newstickstart: None, newstickend: None, ..old(self)@ }),
    {
        self.set_connection(None, None);
    }

    /// Finishes the stick being drawn at `closest`, the point nearest the
    /// mouse: when a stick is being drawn, `closest` becomes its end, and if
    /// that is another point than its start the stick is added, as long as
    /// `measure` says, and the drawing is over.
    pub fn end_connection<M: Fn(&P, &P) -> L>(&mut self, closest: Option<usize>, measure: M)
        requires
            old(self)@.wf(),
            valid_index(old(self)@, closest),
            forall|a: &P, b: &P| #[trigger] measure.requires((a, b)),
            old(self)@.newstickstart matches Some(s) ==> (closest matches Some(e) ==> (s != e ==> s
                < old(self)@.points.len() && old(self)@.points[s as int].connection_count < u32::MAX
                && old(self)@.points[e as int].connection_count < u32::MAX)),
        ensures
            final(self)@.wf(),
            old(self)@.counts_exact() ==> final(self)@.counts_exact(),
            connection_ended(old(self)@, closest, measure, final(self)@),
    {
        if let Some(newstart) = self.newstickstart() {
            self.set_connection(Some(newstart), closest);
            if let Some(newend) = closest {
                if newstart != newend {
                    let len = measure(&self.points()[newstart].pos, &self.points()[newend].pos);
                    let st = Stick { start: newstart, end: newend, target_length: len };
                    let ghost v0 = self@;
                    proof {
                        assert(v0.wf());
                        assert(ends_at(st, newstart as int) == 1);
                        assert(ends_at(st, newend as int) == 1);
                    }
                    self.add_stick(st);
                    self.set_connection(None, None);
                    proof {
                        assert(self@.sticks.drop_last() =~= old(self)@.sticks);
                        assert forall|p: int| 0 <= p < self@.points.len() implies #[trigger] self@.points[p].connection_count
                            == old(self)@.points[p].connection_count + (if p == newstart || p == newend {
                            1int
                        } else {
                            0
                        }) by {
                            assert(self@.points[p].connection_count == v0.points[p].connection_count + ends_at(st, p));
                        }
                    }
                }
            }
        }
    }

    /// The stick being drawn, from its start to `closest`, the point
    /// nearest the mouse, when that is another point.
    pub fn preview(&self, closest: Option<usize>) -> (r: Option<(P, P)>)
        requires
            valid_index(self@, closest),
            self@.newstickstart matches Some(s) ==> (closest matches Some(t) ==> (t != s ==> s
                < self@.points.len())),
        ensures
            r == (match (self@.newstickstart, closest) {
                (Some(s), Some(t)) => if t != s {
                    Some((self@.points[s as int].pos, self@.points[t as int].pos))
                } else {
                    None
                },
                _ => None,
            }),
    {
        if let Some(newstart) = self.newstickstart() {
            if let Some(tempend) = closest {
                if tempend != newstart {
                    return Some((self.points()[newstart].pos, self.points()[tempend].pos));
                }
            }
        }
        None
    }

    /// What the debug key prints: the numbers of points and sticks, the
    /// pending stick, the selection and the selected point.
    pub fn debug_info(&self) -> (r: DebugInfo<P>)
        requires
            valid_index(self@, self@.closest_point),
        ensures
            r.points == self@.points.len(),
            r.sticks == self@.sticks.len(),
            r.newstickstart == self@.newstickstart,
            r.newstickend == self@.newstickend,
            r.closest_point == self@.closest_point,
            r.closest == (match self@.closest_point {
                Some(c) => Some(self@.points[c as int]),
                None => None,
            }),
    {
        let closest = match self.closest_point() {
            Some(c) => Some(self.points()[c]),
            None => None,
        };
        DebugInfo {
            points: self.points().len(),
            sticks: self.sticks().len(),
            newstickstart: self.newstickstart(),
            newstickend: self.newstickend(),
            closest_point: self.closest_point(),
            closest: closest,
        }
    }

    /// Hand tool: while the button is `held`, the selected point follows the mouse.
    pub fn move_point(&mut self, held: bool, mouse: P)
        requires
            old(self)@.wf(),
            held ==> valid_index(old(self)@, old(self)@.closest_point),
        ensures
            final(self)@.wf(),
            old(self)@.counts_exact() ==> final(self)@.counts_exact(),
            final(self)@ == (match old(self)@.closest_point {
                Some(c) => if held {
                    WindowView {
                        points: old(self)@.points.update(c as int, Point { pos: mouse, ..old(self)@.points[c as int] }),
                        ..old(self)@
                    }
                } else {
                    old(self)@
                },
                None => old(self)@,
            }),
    {
        if held {
            if let Some(closest) = self.closest_point() {
                self.set_pos(closest, mouse);
            }
        }
    }

    /// Place tool: when the button is `pressed`, a free, unconnected point
    /// appears at the mouse.
    pub fn spawn_point(&mut self, pressed: bool, mouse: P)
        requires
            old(self)@.wf(),
        ensures
            final(self)@.wf(),
            old(self)@.counts_exact() ==> final(self)@.counts_exact(),
            final(self)@ == (if pressed {
                WindowView {
                    points: old(self)@.points.push(
                        Point { pos: mouse, prev: mouse, connection_count: 0, is_static: false },
                    ),
                    ..old(self)@
                }
            } else {
                old(self)@
            }),
    {
        if pressed {
            self.push_point(mouse, false);
        }
    }

    /// Force tool: while the button is `held`, every free point moves to
    /// where `force` sends it; pinned points stay.
    pub fn apply_force<F: Fn(&P) -> P>(&mut self, held: bool, force: F)
        requires
            old(self)@.wf(),
            forall|p: &P| #[trigger] force.requires((p,)),
        ensures
            final(self)@.wf(),
            old(self)@.counts_exact() ==> final(self)@.counts_exact(),
            final(self)@.sticks == old(self)@.sticks,
            final(self)@.same_controls(old(self)@),
            final(self)@.points.len() == old(self)@.points.len(),
            forall|i: int|
                0 <= i < final(self)@.points.len() ==> {
                    let (a, b) = (old(self)@.points[i], #[trigger] final(self)@.points[i]);
                    &&& b.prev == a.prev
                    &&& b.is_static == a.is_static
                    &&& b.connection_count == a.connection_count
                    &&& if held && !a.is_static {
                        force.ensures((&a.pos,), b.pos)
                    } else {
                        b.pos == a.pos
                    }
                },
    {
        if held {
            let n = self.points().len();
            let ghost old_v = self@;
            let mut i: usize = 0;
            while i < n
                invariant
                    n == old_v.points.len(),
                    i <= n,
                    held,
                    forall|p: &P| #[trigger] force.requires((p,)),
                    self@.wf(),
                    old_v.counts_exact() ==> self@.counts_exact(),
                    self@.sticks == old_v.sticks,
                    self@.same_controls(old_v),
                    self@.points.len() == n,
                    forall|k: int|
                        i <= k < n ==> #[trigger] self@.points[k] == old_v.points[k],
                    forall|k: int|
                        0 <= k < i ==> {
                            let (a, b) = (old_v.points[k], #[trigger] self@.points[k]);
                            &&& b.prev == a.prev
                            &&& b.is_static == a.is_static
                            &&& b.connection_count == a.connection_count
                            &&& if !a.is_static {
                                force.ensures((&a.pos,), b.pos)
                            } else {
                                b.pos == a.pos
                            }
                        },
                decreases n - i,
            {
                if !self.points()[i].is_static {
                    let p = force(&self.points()[i].pos);
                    self.set_pos(i, p);
                }
                i += 1;
            }
        }
    }
}

} // verus!
