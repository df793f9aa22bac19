use vstd::prelude::*;
use crate::cloth::Stick;

verus! {

/// How many ends of `st` rest on point `p` (a stick from a point to itself counts twice).
pub open spec fn ends_at<L>(st: Stick<L>, p: int) -> nat {
    (if st.start == p { 1nat } else { 0nat }) + (if st.end == p { 1nat } else { 0nat })
}

/// The number of stick ends in `s` that rest on point `p`.
pub open spec fn degree<L>(s: Seq<Stick<L>>, p: int) -> nat
    decreases s.len(),
{
    if s.len() == 0 {
        0
    } else {
        degree(s.drop_last(), p) + ends_at(s.last(), p)
    }
}

/// `st` with every end that rests on `from` moved to `to`.
pub open spec fn relabel_stick<L>(st: Stick<L>, from: int, to: int) -> Stick<L> {
    Stick {
        start: if st.start == from { to as usize } else { st.start },
        end: if st.end == from { to as usize } else { st.end },
        target_length: st.target_length,
    }
}

/// Every stick of `s` relabelled from `from` to `to`.
pub open spec fn relabel_all<L>(s: Seq<Stick<L>>, from: int, to: int) -> Seq<Stick<L>> {
    s.map_values(|st: Stick<L>| relabel_stick(st, from, to))
}

pub proof fn lemma_degree_push<L>(s: Seq<Stick<L>>, x: Stick<L>, p: int)
    ensures
        degree(s.push(x), p) == degree(s, p) + ends_at(x, p),
{
    assert(s.push(x).drop_last() =~= s);
}

pub proof fn lemma_degree_update<L>(s: Seq<Stick<L>>, i: int, x: Stick<L>, p: int)
    requires
        0 <= i < s.len(),
    ensures
        degree(s.update(i, x), p) + ends_at(s[i], p) == degree(s, p) + ends_at(x, p),
    decreases s.len(),
{
    let t = s.update(i, x);
    if i == s.len() - 1 {
        assert(t.drop_last() =~= s.drop_last());
    } else {
        assert(t.drop_last() =~= s.drop_last().update(i, x));
        lemma_degree_update(s.drop_last(), i, x, p);
    }
}

/// Removing stick `i` by moving the last stick into its place takes away its ends.
pub proof fn lemma_degree_swap_remove<L>(s: Seq<Stick<L>>, i: int, p: int)
    requires
        0 <= i < s.len(),
    ensures
        degree(s.update(i, s.last()).drop_last(), p) + ends_at(s[i], p) == degree(s, p),
{
    let t = s.update(i, s.last());
    lemma_degree_update(s, i, s.last(), p);
    assert(t.last() == s.last());
}

/// A point of degree zero is no end of any stick.
pub proof fn lemma_degree_zero<L>(s: Seq<Stick<L>>, p: int)
    requires
        degree(s, p) == 0,
    ensures
        forall|k: int| 0 <= k < s.len() ==> s[k].start != p && s[k].end != p,
    decreases s.len(),
{
    if s.len() > 0 {
        lemma_degree_zero(s.drop_last(), p);
        assert forall|k: int| 0 <= k < s.len() implies s[k].start != p && s[k].end != p by {
            if k < s.len() - 1 {
                assert(s[k] == s.drop_last()[k]);
            }
        }
    }
}

/// A point that no stick touches has degree zero.
pub proof fn lemma_degree_untouched<L>(s: Seq<Stick<L>>, p: int)
    requires
        forall|k: int| 0 <= k < s.len() ==> s[k].start != p && s[k].end != p,
    ensures
        degree(s, p) == 0,
    decreases s.len(),
{
    if s.len() > 0 {
        assert forall|k: int| 0 <= k < s.drop_last().len() implies s.drop_last()[k].start != p
            && s.drop_last()[k].end != p by {
            assert(s.drop_last()[k] == s[k]);
        }
        lemma_degree_untouched(s.drop_last(), p);
    }
}

/// Relabelling `from` to `to` hands the ends of `from` over to `to` and leaves every other point alone.
pub proof fn lemma_degree_relabel<L>(s: Seq<Stick<L>>, from: int, to: int, q: int)
    requires
        from != to,
        0 <= to,
        to <= usize::MAX,
    ensures
        q == to ==> degree(relabel_all(s, from, to), q) == degree(s, to) + degree(s, from),
        q == from ==> degree(relabel_all(s, from, to), q) == 0,
        q != to && q != from ==> degree(relabel_all(s, from, to), q) == degree(s, q),
    decreases s.len(),
{
    if s.len() > 0 {
        assert(relabel_all(s, from, to).drop_last() =~= relabel_all(s.drop_last(), from, to));
        lemma_degree_relabel(s.drop_last(), from, to, q);
    }
}

/// The number of set flags in `s`.
pub open spec fn count_set(s: Seq<bool>) -> nat
    decreases s.len(),
{
    if s.len() == 0 {
        0
    } else {
        count_set(s.drop_last()) + if s.last() { 1nat } else { 0nat }
    }
}

pub proof fn lemma_count_set_update(s: Seq<bool>, i: int, x: bool)
    requires
        0 <= i < s.len(),
    ensures
        count_set(s.update(i, x)) + (if s[i] { 1nat } else { 0nat }) == count_set(s) + (if x { 1nat } else { 0nat }),
    decreases s.len(),
{
    let t = s.update(i, x);
    if i == s.len() - 1 {
        assert(t.drop_last() =~= s.drop_last());
    } else {
        assert(t.drop_last() =~= s.drop_last().update(i, x));
        lemma_count_set_update(s.drop_last(), i, x);
    }
}

/// Removing flag `i` by moving the last flag into its place.
pub proof fn lemma_count_set_swap_remove(s: Seq<bool>, i: int)
    requires
        0 <= i < s.len(),
    ensures
        count_set(s.update(i, s.last()).drop_last()) + (if s[i] { 1nat } else { 0nat }) == count_set(s),
{
    lemma_count_set_update(s, i, s.last());
    assert(s.update(i, s.last()).last() == s.last());
}

} // verus!
