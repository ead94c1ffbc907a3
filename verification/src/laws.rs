//! What holds of every plan: each element of either list is settled by exactly the
//! invocations that its matches call for, in an order that the lists fix. A reconciliation
//! in which no callback fails makes the invocations of the plan, so all of this holds of
//! what it invokes.

use crate::plan::{
    change_matched, due, in_order, lemma_filter_in_order, lemma_in_order_no_duplicates,
    lemma_plan_holds_what_is_due, lemma_plan_in_order, original_matched, plan, precedes, Action,
};
use vstd::prelude::*;

verus! {

/// How many times `act` is invoked in the course of `s`.
pub open spec fn times(s: Seq<Action>, act: Action) -> nat {
    s.to_multiset().count(act)
}

/// The updates among `s`, in the order in which they stand there.
pub open spec fn updates_of(s: Seq<Action>) -> Seq<Action> {
    s.filter(|act: Action| act is Update)
}

/// The pairs of a position in `original` and a position in `changes` whose elements match.
pub open spec fn matching_pairs<A, B>(
    m: spec_fn(A, B) -> bool,
    original: Seq<A>,
    changes: Seq<B>,
) -> Set<(int, int)> {
    Set::new(
        |pair: (int, int)|
            0 <= pair.0 < original.len() && 0 <= pair.1 < changes.len() && m(
                original[pair.0],
                changes[pair.1],
            ),
    )
}

/// The pair of positions that an update is made on; for another action, a pair that no
/// update is made on.
spec fn pair_of(act: Action) -> (int, int) {
    match act {
        Action::Update { original, change } => (original, change),
        Action::Delete { original } => (original, -1),
        Action::Insert { change } => (-1, change),
    }
}

/// The plan invokes every action that is due exactly once, and no other action at all.
pub proof fn lemma_plan_invokes_what_is_due_once<A, B>(
    m: spec_fn(A, B) -> bool,
    original: Seq<A>,
    changes: Seq<B>,
    act: Action,
)
    ensures
        times(plan(m, original, changes), act) == if due(m, original, changes, act) {
            1nat
        } else {
            0nat
        },
{
    let p = plan(m, original, changes);
    lemma_plan_holds_what_is_due(m, original, changes, act);
    lemma_plan_in_order(m, original, changes);
    p.to_multiset_ensures();
    p.lemma_multiset_has_no_duplicates();
}

/// Every element of the original list is either updated at least once or deleted exactly
/// once: never both, never neither.
pub proof fn lemma_original_updated_or_deleted<A, B>(
    m: spec_fn(A, B) -> bool,
    original: Seq<A>,
    changes: Seq<B>,
    i: int,
)
    requires
        0 <= i < original.len(),
    ensures
        ({
            let p = plan(m, original, changes);
            let updated = exists|j: int|
                #[trigger] times(p, Action::Update { original: i, change: j }) >= 1;
            let deleted = times(p, Action::Delete { original: i });
            (updated && deleted == 0) || (!updated && deleted == 1)
        }),
{
    let p = plan(m, original, changes);
    lemma_plan_invokes_what_is_due_once(m, original, changes, Action::Delete { original: i });
    if original_matched(m, original, changes, i) {
        let j = choose|j: int| 0 <= j < changes.len() && #[trigger] m(original[i], changes[j]);
        lemma_plan_invokes_what_is_due_once(
            m,
            original,
            changes,
            Action::Update { original: i, change: j },
        );
        assert(times(p, Action::Update { original: i, change: j }) >= 1);
    } else {
        assert forall|j: int| times(p, Action::Update { original: i, change: j }) == 0 by {
            lemma_plan_invokes_what_is_due_once(
                m,
                original,
                changes,
                Action::Update { original: i, change: j },
            );
            if 0 <= j < changes.len() {
                assert(!m(original[i], changes[j]));
            }
        }
    }
}

/// Every element of the changed list is either the object of at least one update or
/// inserted exactly once: never both, never neither.
pub proof fn lemma_change_updated_or_inserted<A, B>(
    m: spec_fn(A, B) -> bool,
    original: Seq<A>,
    changes: Seq<B>,
    j: int,
)
    requires
        0 <= j < changes.len(),
    ensures
        ({
            let p = plan(m, original, changes);
            let updated = exists|i: int|
                #[trigger] times(p, Action::Update { original: i, change: j }) >= 1;
            let inserted = times(p, Action::Insert { change: j });
            (updated && inserted == 0) || (!updated && inserted == 1)
        }),
{
    let p = plan(m, original, changes);
    lemma_plan_invokes_what_is_due_once(m, original, changes, Action::Insert { change: j });
    if change_matched(m, original, changes, j) {
        let i = choose|i: int| 0 <= i < original.len() && #[trigger] m(original[i], changes[j]);
        lemma_plan_invokes_what_is_due_once(
            m,
            original,
            changes,
            Action::Update { original: i, change: j },
        );
        assert(times(p, Action::Update { original: i, change: j }) >= 1);
    } else {
        assert forall|i: int| times(p, Action::Update { original: i, change: j }) == 0 by {
            lemma_plan_invokes_what_is_due_once(
                m,
                original,
                changes,
                Action::Update { original: i, change: j },
            );
            if 0 <= i < original.len() {
                assert(!m(original[i], changes[j]));
            }
        }
    }
}

/// There is one update for each matching pair and none for any other pair, so the plan
/// holds as many updates as there are matching pairs.
pub proof fn lemma_one_update_per_matching_pair<A, B>(
    m: spec_fn(A, B) -> bool,
    original: Seq<A>,
    changes: Seq<B>,
)
    ensures
        forall|i: int, j: int|
            #[trigger] times(plan(m, original, changes), Action::Update { original: i, change: j })
                == if matching_pairs(m, original, changes).contains((i, j)) {
                1nat
            } else {
                0nat
            },
        matching_pairs(m, original, changes).finite(),
        updates_of(plan(m, original, changes)).len() == matching_pairs(m, original, changes).len(),
{
    let p = plan(m, original, changes);
    let pairs = matching_pairs(m, original, changes);
    let is_update = |act: Action| act is Update;
    let updates = updates_of(p);
    assert forall|i: int, j: int|
        #[trigger] times(p, Action::Update { original: i, change: j }) == if pairs.contains(
            (i, j),
        ) {
            1nat
        } else {
            0nat
        } by {
        lemma_plan_invokes_what_is_due_once(
            m,
            original,
            changes,
            Action::Update { original: i, change: j },
        );
    }
    lemma_plan_in_order(m, original, changes);
    lemma_filter_in_order(p, is_update);
    lemma_in_order_no_duplicates(updates);
    let on = updates.map_values(|act: Action| pair_of(act));
    assert forall|q: int| 0 <= q < updates.len() implies #[trigger] updates[q] is Update
        && pairs.contains(pair_of(updates[q])) by {
        p.lemma_filter_pred(is_update, q);
        assert(updates.contains(updates[q]));
        p.lemma_filter_contains_rev(is_update, updates[q]);
        lemma_plan_holds_what_is_due(m, original, changes, updates[q]);
    }
    assert(on.no_duplicates()) by {
        assert forall|q: int, r: int| 0 <= q < on.len() && 0 <= r < on.len() && q != r implies on[q]
            != on[r] by {
            assert(updates[q] != updates[r]);
        }
    }
    assert(on.to_set() =~= pairs) by {
        assert forall|pair: (int, int)| pairs.contains(pair) implies on.to_set().contains(pair) by {
            let act = Action::Update { original: pair.0, change: pair.1 };
            lemma_plan_holds_what_is_due(m, original, changes, act);
            let at = choose|at: int| 0 <= at < p.len() && p[at] == act;
            p.lemma_filter_contains(is_update, at);
            let q = choose|q: int| 0 <= q < updates.len() && updates[q] == act;
            assert(on[q] == pair);
        }
        assert forall|pair: (int, int)| on.to_set().contains(pair) implies pairs.contains(pair) by {
            let q = choose|q: int| 0 <= q < on.len() && on[q] == pair;
            assert(pairs.contains(pair_of(updates[q])));
        }
    }
    on.unique_seq_to_set();
    vstd::seq_lib::seq_to_set_is_finite(on);
}

/// Two sequences in the order of invocation that hold the same actions are equal.
pub proof fn lemma_in_order_is_determined(s: Seq<Action>, t: Seq<Action>)
    requires
        in_order(s),
        in_order(t),
        forall|act: Action| s.contains(act) <==> t.contains(act),
    ensures
        s == t,
    decreases t.len(),
{
    if t.len() == 0 {
        if s.len() > 0 {
            assert(s.contains(s[0]));
        }
        assert(s =~= t);
    } else {
        let last = t.last();
        assert(t.contains(last));
        let at = choose|at: int| 0 <= at < s.len() && s[at] == last;
        if at != s.len() - 1 {
            assert(precedes(s[at], s.last()));
            assert(s.contains(s.last()));
            let back = choose|back: int| 0 <= back < t.len() && t[back] == s.last();
            if back != t.len() - 1 {
                assert(precedes(t[back], t.last()));
            }
        }
        let front_s = s.drop_last();
        let front_t = t.drop_last();
        assert forall|act: Action| front_s.contains(act) implies front_t.contains(act) by {
            let a = choose|a: int| 0 <= a < front_s.len() && front_s[a] == act;
            assert(precedes(s[a], s.last()));
            assert(s.contains(act));
            let b = choose|b: int| 0 <= b < t.len() && t[b] == act;
            assert(front_t[b] == act);
        }
        assert forall|act: Action| front_t.contains(act) implies front_s.contains(act) by {
            let b = choose|b: int| 0 <= b < front_t.len() && front_t[b] == act;
            assert(precedes(t[b], t.last()));
            assert(t.contains(act));
            let a = choose|a: int| 0 <= a < s.len() && s[a] == act;
            assert(front_s[a] == act);
        }
        assert forall|p: int, q: int| 0 <= p < q < front_s.len() implies precedes(
            front_s[p],
            front_s[q],
        ) by {
            assert(precedes(s[p], s[q]));
        }
        assert forall|p: int, q: int| 0 <= p < q < front_t.len() implies precedes(
            front_t[p],
            front_t[q],
        ) by {
            assert(precedes(t[p], t[q]));
        }
        lemma_in_order_is_determined(front_s, front_t);
        assert(s =~= front_s.push(last));
        assert(t =~= front_t.push(last));
    }
}

/// What is due and the order of invocation leave no choice: a sequence that holds exactly
/// the actions that are due, in the order of invocation, is the plan.
pub proof fn lemma_plan_is_determined<A, B>(
    m: spec_fn(A, B) -> bool,
    original: Seq<A>,
    changes: Seq<B>,
    s: Seq<Action>,
)
    requires
        in_order(s),
        forall|act: Action| s.contains(act) <==> due(m, original, changes, act),
    ensures
        s == plan(m, original, changes),
{
    lemma_plan_in_order(m, original, changes);
    assert forall|act: Action| s.contains(act) <==> plan(m, original, changes).contains(act) by {
        lemma_plan_holds_what_is_due(m, original, changes, act);
    }
    lemma_in_order_is_determined(s, plan(m, original, changes));
}

/// Where both lists are empty nothing is due, and the plan is empty.
pub proof fn lemma_nothing_to_do<A, B>(m: spec_fn(A, B) -> bool, original: Seq<A>, changes: Seq<B>)
    requires
        original.len() == 0,
        changes.len() == 0,
    ensures
        plan(m, original, changes).len() == 0,
{
    let p = plan(m, original, changes);
    if p.len() > 0 {
        assert(p.contains(p[0]));
        lemma_plan_holds_what_is_due(m, original, changes, p[0]);
    }
}

} // verus!
