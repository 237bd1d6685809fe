//! Greedy selection of unspent outputs against a target value.

use vstd::prelude::*;
use crate::utxo::{
    Utxo, UtxoSet, disjoint_outpoints, distinct_outpoints, holds_outpoint,
    lemma_ordered_unique, lemma_remove_keeps_order, lemma_remove_members,
    lemma_total_value_nonnegative, lemma_total_value_remove, same_members, strictly_ordered,
    union_of,
    total_value,
};

verus! {

/// Position of the most valuable output; of several equally valuable ones,
/// the last in order.
pub open spec fn max_index(s: Seq<Utxo>) -> int
    decreases s.len(),
{
    if s.len() <= 1 {
        0
    } else {
        let m = max_index(s.drop_last());
        if s.last().value >= s[m].value {
            s.len() - 1
        } else {
            m
        }
    }
}

/// Position of the least valuable output that is worth at least `goal`; of
/// several such, the first in order. Negative if no output is worth `goal`.
pub open spec fn tightest_index(goal: u64, s: Seq<Utxo>) -> int
    decreases s.len(),
{
    if s.len() == 0 {
        -1
    } else {
        let t = tightest_index(goal, s.drop_last());
        if s.last().value >= goal && (t < 0 || s.last().value < s[t].value) {
            s.len() - 1
        } else {
            t
        }
    }
}

/// What `max_index` finds: an output that none exceeds and that every later
/// one falls short of.
pub proof fn lemma_max_index(s: Seq<Utxo>)
    requires
        s.len() > 0,
    ensures
        0 <= max_index(s) < s.len(),
        forall|j: int| 0 <= j < s.len() ==> (#[trigger] s[j]).value <= s[max_index(s)].value,
        forall|j: int|
            max_index(s) < j < s.len() ==> (#[trigger] s[j]).value < s[max_index(s)].value,
    decreases s.len(),
{
    if s.len() > 1 {
        let d = s.drop_last();
        lemma_max_index(d);
        assert forall|j: int| 0 <= j < s.len() implies (#[trigger] s[j]).value <= s[max_index(
            s,
        )].value by {
            if j < d.len() {
                assert(d[j].value <= d[max_index(d)].value);
            }
        }
        assert forall|j: int| max_index(s) < j < s.len() implies (#[trigger] s[j]).value
            < s[max_index(s)].value by {
            if j < d.len() {
                assert(d[j].value < d[max_index(d)].value);
            }
        }
    }
}

/// What `tightest_index` finds: the cheapest output that covers the goal, and
/// the first of the cheapest; none exactly when no output covers the goal.
pub proof fn lemma_tightest_index(goal: u64, s: Seq<Utxo>)
    ensures
        -1 <= tightest_index(goal, s) < s.len(),
        tightest_index(goal, s) < 0 ==> forall|j: int|
            0 <= j < s.len() ==> (#[trigger] s[j]).value < goal,
        tightest_index(goal, s) >= 0 ==> {
            let t = tightest_index(goal, s);
            &&& s[t].value >= goal
            &&& forall|j: int|
                0 <= j < s.len() && (#[trigger] s[j]).value >= goal ==> s[j].value >= s[t].value
            &&& forall|j: int|
                0 <= j < t && (#[trigger] s[j]).value >= goal ==> s[j].value > s[t].value
        },
    decreases s.len(),
{
    if s.len() > 0 {
        let d = s.drop_last();
        lemma_tightest_index(goal, d);
        let t = tightest_index(goal, s);
        let td = tightest_index(goal, d);
        if t < 0 {
            assert forall|j: int| 0 <= j < s.len() implies (#[trigger] s[j]).value < goal by {
                if j < d.len() {
                    assert(d[j].value < goal);
                }
            }
        } else {
            assert forall|j: int| 0 <= j < s.len() && (#[trigger] s[j]).value >= goal implies s[j].value
                >= s[t].value by {
                if j < d.len() {
                    assert(d[j].value >= goal);
                    if td >= 0 {
                        assert(d[j].value >= d[td].value);
                    }
                }
            }
            assert forall|j: int| 0 <= j < t && (#[trigger] s[j]).value >= goal implies s[j].value
                > s[t].value by {
                assert(d[j].value >= goal);
                if td >= 0 {
                    assert(d[j].value >= d[td].value);
                }
            }
        }
    }
}

/// The output that the selection takes next while `goal` is still open: the
/// most valuable one if even that falls short of the goal, else the cheapest
/// that covers it.
pub open spec fn pick(goal: u64, s: Seq<Utxo>) -> int {
    if s[max_index(s)].value < goal {
        max_index(s)
    } else {
        tightest_index(goal, s)
    }
}

pub proof fn lemma_pick_in_range(goal: u64, s: Seq<Utxo>)
    requires
        s.len() > 0,
    ensures
        0 <= pick(goal, s) < s.len(),
{
    lemma_max_index(s);
    lemma_tightest_index(goal, s);
}

/// What is left of a goal once `value` has been put towards it.
pub open spec fn goal_after(goal: u64, value: u64) -> u64 {
    if value >= goal {
        0
    } else {
        (goal - value) as u64
    }
}

/// The outputs that the greedy selection takes for `goal` from `avail`, in
/// the order of taking; `None` where the outputs run out before the goal is
/// met.
pub open spec fn selection(goal: u64, avail: Seq<Utxo>) -> Option<Seq<Utxo>>
    decreases avail.len(),
{
    if goal == 0 {
        Some(Seq::empty())
    } else if avail.len() == 0 {
        None
    } else {
        let i = pick(goal, avail);
        proof {
            lemma_pick_in_range(goal, avail);
        }
        match selection(goal_after(goal, avail[i].value), avail.remove(i)) {
            Some(rest) => Some(seq![avail[i]] + rest),
            None => None,
        }
    }
}

/// The outputs that a successful selection leaves behind.
pub open spec fn leftover(goal: u64, avail: Seq<Utxo>) -> Seq<Utxo>
    decreases avail.len(),
{
    if goal == 0 || avail.len() == 0 {
        avail
    } else {
        let i = pick(goal, avail);
        proof {
            lemma_pick_in_range(goal, avail);
        }
        leftover(goal_after(goal, avail[i].value), avail.remove(i))
    }
}

/// The outputs handed out for `target`: those of the selection, or none
/// where it fails.
pub open spec fn selected(target: u64, avail: Seq<Utxo>) -> Seq<Utxo> {
    match selection(target, avail) {
        Some(s) => s,
        None => Seq::empty(),
    }
}

/// The outputs that stay available: all of them where the selection fails.
pub open spec fn remaining(target: u64, avail: Seq<Utxo>) -> Seq<Utxo> {
    match selection(target, avail) {
        Some(_) => leftover(target, avail),
        None => avail,
    }
}

/// Total value of an output followed by others.
pub proof fn lemma_total_value_prepend(u: Utxo, rest: Seq<Utxo>)
    ensures
        total_value(seq![u] + rest) == u.value + total_value(rest),
    decreases rest.len(),
{
    let s = seq![u] + rest;
    if rest.len() == 0 {
        assert(s.drop_last() =~= Seq::<Utxo>::empty());
        assert(total_value(s.drop_last()) == 0);
        assert(s.last() == u);
        assert(total_value(rest) == 0);
    } else {
        lemma_total_value_prepend(u, rest.drop_last());
        assert(s.drop_last() =~= seq![u] + rest.drop_last());
        assert(s.last() == rest.last());
    }
}

/// Where the available outputs are worth the goal, the selection succeeds,
/// and for a positive goal it takes at least one output.
pub proof fn lemma_selection_succeeds(goal: u64, avail: Seq<Utxo>)
    requires
        total_value(avail) >= goal,
    ensures
        selection(goal, avail) is Some,
        goal > 0 ==> selection(goal, avail)->0.len() > 0,
    decreases avail.len(),
{
    if goal > 0 {
        assert(avail.len() > 0);
        lemma_pick_in_range(goal, avail);
        let i = pick(goal, avail);
        lemma_total_value_remove(avail, i);
        lemma_total_value_nonnegative(avail.remove(i));
        lemma_selection_succeeds(goal_after(goal, avail[i].value), avail.remove(i));
    }
}

/// What a successful selection takes is worth the goal at least.
pub proof fn lemma_selection_covers(goal: u64, avail: Seq<Utxo>)
    requires
        selection(goal, avail) is Some,
    ensures
        total_value(selection(goal, avail)->0) >= goal,
    decreases avail.len(),
{
    if goal > 0 {
        lemma_pick_in_range(goal, avail);
        let i = pick(goal, avail);
        let next = goal_after(goal, avail[i].value);
        lemma_selection_covers(next, avail.remove(i));
        lemma_total_value_prepend(avail[i], selection(next, avail.remove(i))->0);
    } else {
        lemma_total_value_nonnegative(selection(goal, avail)->0);
    }
}

/// A successful selection divides the available outputs in two: every
/// output is either selected or left, none is both, what is left is still
/// in order, and the two parts are worth what the whole was.
pub proof fn lemma_selection_partition(goal: u64, avail: Seq<Utxo>)
    requires
        strictly_ordered(avail),
        selection(goal, avail) is Some,
    ensures
        strictly_ordered(leftover(goal, avail)),
        forall|x: Utxo|
            avail.contains(x) <==> (selection(goal, avail)->0.contains(x) || leftover(
                goal,
                avail,
            ).contains(x)),
        distinct_outpoints(selection(goal, avail)->0),
        disjoint_outpoints(selection(goal, avail)->0, leftover(goal, avail)),
        total_value(selection(goal, avail)->0) + total_value(leftover(goal, avail)) == total_value(
            avail,
        ),
        selection(goal, avail)->0.len() + leftover(goal, avail).len() == avail.len(),
    decreases avail.len(),
{
    let sel = selection(goal, avail)->0;
    let left = leftover(goal, avail);
    if goal == 0 {
        assert(sel.len() == 0);
    } else {
        lemma_pick_in_range(goal, avail);
        let i = pick(goal, avail);
        let u = avail[i];
        let next = goal_after(goal, u.value);
        let rem = avail.remove(i);
        lemma_remove_keeps_order(avail, i);
        lemma_remove_members(avail, i);
        lemma_total_value_remove(avail, i);
        lemma_selection_partition(next, rem);
        let rest = selection(next, rem)->0;
        assert(sel == seq![u] + rest);
        assert(left == leftover(next, rem));
        lemma_total_value_prepend(u, rest);
        assert forall|x: Utxo| avail.contains(x) <==> (sel.contains(x) || left.contains(x)) by {
            if sel.contains(x) {
                let k = choose|k: int| 0 <= k < sel.len() && sel[k] == x;
                if k > 0 {
                    assert(rest[k - 1] == x);
                    assert(rest.contains(x));
                }
            }
            if rest.contains(x) {
                let k = choose|k: int| 0 <= k < rest.len() && rest[k] == x;
                assert(sel[k + 1] == x);
            }
            assert(sel[0] == u);
            assert(avail.contains(u));
        }
        assert forall|k: int| 0 <= k < rest.len() implies (#[trigger] rest[k]).outpoint
            != u.outpoint by {
            assert(rest.contains(rest[k]));
            assert(rem.contains(rest[k]));
            let m = choose|m: int| 0 <= m < rem.len() && rem[m] == rest[k];
            assert(rem[m].outpoint == rest[k].outpoint);
        }
        assert forall|a: int, b: int| 0 <= a < b < sel.len() implies (#[trigger] sel[a]).outpoint != (
        #[trigger] sel[b]).outpoint by {
            if a == 0 {
                assert(rest[b - 1].outpoint != u.outpoint);
            } else {
                assert(rest[a - 1].outpoint != rest[b - 1].outpoint);
            }
        }
        assert forall|a: int| 0 <= a < sel.len() implies !holds_outpoint(
            left,
            (#[trigger] sel[a]).outpoint,
        ) by {
            if a == 0 {
                if holds_outpoint(left, u.outpoint) {
                    let m = choose|m: int|
                        0 <= m < left.len() && (#[trigger] left[m]).outpoint == u.outpoint;
                    assert(left.contains(left[m]));
                    assert(rem.contains(left[m]));
                    let q = choose|q: int| 0 <= q < rem.len() && rem[q] == left[m];
                    assert(rem[q].outpoint == u.outpoint);
                }
            } else {
                assert(!holds_outpoint(left, rest[a - 1].outpoint));
            }
        }
    }
}

/// Putting the selected outputs back among those that were left gives the
/// available outputs as they were before the selection.
pub proof fn lemma_selection_undone(goal: u64, avail: Seq<Utxo>, restored: Seq<Utxo>)
    requires
        strictly_ordered(avail),
        strictly_ordered(restored),
        union_of(restored, remaining(goal, avail), selected(goal, avail)),
    ensures
        restored == avail,
{
    if selection(goal, avail) is Some {
        lemma_selection_partition(goal, avail);
    }
    assert(same_members(restored, avail));
    lemma_ordered_unique(restored, avail);
}

spec fn prepend(prefix: Seq<Utxo>, tail: Option<Seq<Utxo>>) -> Option<Seq<Utxo>> {
    match tail {
        Some(rest) => Some(prefix + rest),
        None => None,
    }
}

fn max_position(set: &UtxoSet) -> (m: usize)
    requires
        set@.len() > 0,
    ensures
        m == max_index(set@),
        m < set@.len(),
{
    let mut m: usize = 0;
    let mut i: usize = 1;
    assert(set@.take(1).len() == 1);
    while i < set.len()
        invariant
            1 <= i <= set@.len(),
            m < i,
            m == max_index(set@.take(i as int)),
        decreases set@.len() - i,
    {
        proof {
            let s = set@.take(i + 1);
            assert(s.drop_last() =~= set@.take(i as int));
        }
        if set.get(i).value >= set.get(m).value {
            m = i;
        }
        i = i + 1;
    }
    assert(set@.take(i as int) =~= set@);
    m
}

fn tightest_position(goal: u64, set: &UtxoSet) -> (t: Option<usize>)
    ensures
        match t {
            Some(i) => i == tightest_index(goal, set@),
            None => tightest_index(goal, set@) < 0,
        },
{
    let mut t: Option<usize> = None;
    let mut i: usize = 0;
    assert(set@.take(0).len() == 0);
    while i < set.len()
        invariant
            i <= set@.len(),
            match t {
                Some(k) => k < i && k == tightest_index(goal, set@.take(i as int)),
                None => tightest_index(goal, set@.take(i as int)) < 0,
            },
        decreases set@.len() - i,
    {
        proof {
            let s = set@.take(i + 1);
            assert(s.drop_last() =~= set@.take(i as int));
        }
        let v: u64 = set.get(i).value;
        if v >= goal {
            match t {
                Some(k) => {
                    if v < set.get(k).value {
                        t = Some(i);
                    }
                },
                None => {
                    t = Some(i);
                },
            }
        }
        i = i + 1;
    }
    assert(set@.take(i as int) =~= set@);
    t
}

/// Selects outputs worth at least `target` and takes them out of the
/// available set. While the goal is open it takes the most valuable output
/// if that falls short of the goal, else the cheapest output that covers it.
/// Where the outputs run out first, nothing is selected and the set is as it
/// was.
pub fn greedy(target: u64, available: &mut UtxoSet) -> (solution: Vec<Utxo>)
    requires
        old(available).wf(),
    ensures
        final(available).wf(),
        solution@ == selected(target, old(available)@),
        final(available)@ == remaining(target, old(available)@),
        target > 0 && total_value(old(available)@) >= target ==> solution@.len() > 0,
        solution@.len() > 0 ==> total_value(solution@) >= target,
        solution@.len() == 0 ==> final(available)@ == old(available)@,
        total_value(solution@) + total_value(final(available)@) == total_value(old(available)@),
{
    let saved: UtxoSet = available.snapshot();
    let mut solution: Vec<Utxo> = Vec::new();
    let mut goal: u64 = target;
    let ghost before = available@;
    assert(solution@ + selected(target, before) =~= selected(target, before));
    assert(prepend(solution@, selection(goal, available@)) == selection(target, before)) by {
        match selection(goal, available@) {
            Some(r) => {
                assert(solution@ + r =~= r);
            },
            None => {},
        }
    }
    while goal > 0
        invariant
            available.wf(),
            saved@ == before,
            saved.wf(),
            before == old(available)@,
            selection(target, before) == prepend(solution@, selection(goal, available@)),
            selection(goal, available@) is Some ==> leftover(target, before) == leftover(
                goal,
                available@,
            ),
            total_value(solution@) + total_value(available@) == total_value(before),
            goal > 0 ==> goal == target - total_value(solution@),
            goal == 0 ==> total_value(solution@) >= target,
            solution@.len() == 0 ==> goal == target,
        decreases available@.len(),
    {
        if available.is_empty() {
            proof {
                lemma_total_value_nonnegative(available@);
                assert(total_value(available@) == 0);
                assert(selection(goal, available@) is None);
            }
            *available = saved;
            return Vec::new();
        }
        proof {
            lemma_max_index(available@);
            lemma_tightest_index(goal, available@);
        }
        let m: usize = max_position(available);
        let i: usize = if available.get(m).value < goal {
            m
        } else {
            match tightest_position(goal, available) {
                Some(t) => t,
                None => {
                    proof {
                        assert(available@[m as int].value < goal);
                    }
                    m
                },
            }
        };
        let ghost avail = available@;
        let ghost taken = solution@;
        assert(i == pick(goal, avail));
        proof {
            lemma_total_value_remove(avail, i as int);
        }
        let utxo: Utxo = available.remove_at(i);
        let next: u64 = goal.saturating_sub(utxo.value);
        assert(next == goal_after(goal, utxo.value));
        solution.push(utxo);
        proof {
            assert(solution@.drop_last() =~= taken);
            match selection(next, available@) {
                Some(r) => {
                    assert(taken + (seq![utxo] + r) =~= solution@ + r);
                },
                None => {},
            }
        }
        goal = next;
    }
    proof {
        assert(solution@ + Seq::<Utxo>::empty() =~= solution@);
    }
    solution
}

} // verus!
