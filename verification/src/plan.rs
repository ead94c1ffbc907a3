//! The reconciliation plan: which callback invocations a reconciliation of two lists makes,
//! and in which order, for a given matching relation.
//!
//! Elements are identified by their positions, since a list may hold the same value twice.

use vstd::prelude::*;

verus! {

/// One callback invocation, named by the positions of the elements it is made on. Only
/// contracts and proofs speak of actions: no executable code holds one.
pub enum Action {
    /// `on_update` on the element at `original` of the original list and the element at
    /// `change` of the changed list.
    Update { original: int, change: int },
    /// `on_delete` on the element at `original` of the original list.
    Delete { original: int },
    /// `on_insert` on the element at `change` of the changed list.
    Insert { change: int },
}

/// The element at position `i` of `original` matches at least one element of `changes`.
pub open spec fn original_matched<A, B>(
    m: spec_fn(A, B) -> bool,
    original: Seq<A>,
    changes: Seq<B>,
    i: int,
) -> bool {
    exists|j: int| 0 <= j < changes.len() && #[trigger] m(original[i], changes[j])
}

/// The element at position `j` of `changes` is matched by at least one element of `original`.
pub open spec fn change_matched<A, B>(
    m: spec_fn(A, B) -> bool,
    original: Seq<A>,
    changes: Seq<B>,
    j: int,
) -> bool {
    exists|i: int| 0 <= i < original.len() && #[trigger] m(original[i], changes[j])
}

/// Whether reconciling `original` with `changes` under the relation `m` calls for `act`:
/// an update for every matching pair, a delete for every original element that matches
/// nothing, an insert for every changed element that nothing matches.
pub open spec fn due<A, B>(
    m: spec_fn(A, B) -> bool,
    original: Seq<A>,
    changes: Seq<B>,
    act: Action,
) -> bool {
    match act {
        Action::Update { original: i, change: j } => {
            &&& 0 <= i < original.len()
            &&& 0 <= j < changes.len()
            &&& m(original[i], changes[j])
        },
        Action::Delete { original: i } => {
            &&& 0 <= i < original.len()
            &&& !original_matched(m, original, changes, i)
        },
        Action::Insert { change: j } => {
            &&& 0 <= j < changes.len()
            &&& !change_matched(m, original, changes, j)
        },
    }
}

/// `due` as a predicate on actions, for a fixed relation and fixed lists.
pub open spec fn is_due<A, B>(
    m: spec_fn(A, B) -> bool,
    original: Seq<A>,
    changes: Seq<B>,
) -> spec_fn(Action) -> bool {
    |act: Action| due(m, original, changes, act)
}

/// The updates of the original element at `i` against the first `upto` changed elements.
pub open spec fn update_candidates(i: int, upto: nat) -> Seq<Action> {
    Seq::new(upto, |j: int| Action::Update { original: i, change: j })
}

/// Everything that may be invoked for the original element at `i` while it is scanned
/// against `k` changed elements: its updates in the order of the changed list, then its
/// delete.
pub open spec fn row_candidates(i: int, k: nat) -> Seq<Action> {
    update_candidates(i, k).push(Action::Delete { original: i })
}

/// The candidates of the first `upto` original elements, element after element.
pub open spec fn first_pass_candidates(upto: nat, k: nat) -> Seq<Action> {
    Seq::new(upto, |i: int| row_candidates(i, k)).flatten()
}

/// The inserts of the first `upto` changed elements.
pub open spec fn insert_candidates(upto: nat) -> Seq<Action> {
    Seq::new(upto, |j: int| Action::Insert { change: j })
}

/// Every invocation that a reconciliation of `n` original with `k` changed elements could
/// make, in the order in which it would make them: the first pass walks the original list
/// and the second pass walks the changed list.
pub open spec fn candidates(n: nat, k: nat) -> Seq<Action> {
    first_pass_candidates(n, k) + insert_candidates(k)
}

/// The candidates that the first pass has gone through once it has scanned the first `i`
/// original elements, and the element at `i` against the first `j` changed elements.
pub open spec fn seen_in_first_pass(i: nat, j: nat, k: nat) -> Seq<Action> {
    first_pass_candidates(i, k) + update_candidates(i as int, j)
}

/// The candidates gone through once the first pass over `n` original elements is over and
/// the second pass has decided on the first `j` changed elements.
pub open spec fn seen_in_second_pass(n: nat, j: nat, k: nat) -> Seq<Action> {
    first_pass_candidates(n, k) + insert_candidates(j)
}

/// The invocations that reconciling `original` with `changes` under `m` makes when no
/// callback fails, in order: the candidates that are due.
pub open spec fn plan<A, B>(m: spec_fn(A, B) -> bool, original: Seq<A>, changes: Seq<B>) -> Seq<
    Action,
> {
    candidates(original.len(), changes.len()).filter(is_due(m, original, changes))
}

/// The order of invocation: `x` comes strictly before `y`.
pub open spec fn precedes(x: Action, y: Action) -> bool {
    match (x, y) {
        (
            Action::Update { original: i, change: j },
            Action::Update { original: i2, change: j2 },
        ) => i < i2 || (i == i2 && j < j2),
        (Action::Update { original: i, .. }, Action::Delete { original: i2 }) => i <= i2,
        (Action::Delete { original: i }, Action::Update { original: i2, .. }) => i < i2,
        (Action::Delete { original: i }, Action::Delete { original: i2 }) => i < i2,
        (Action::Insert { change: j }, Action::Insert { change: j2 }) => j < j2,
        (Action::Insert { .. }, _) => false,
        (_, Action::Insert { .. }) => true,
    }
}

/// Any two entries of `s` stand in the order of invocation.
pub open spec fn in_order(s: Seq<Action>) -> bool {
    forall|p: int, q: int| 0 <= p < q < s.len() ==> precedes(#[trigger] s[p], #[trigger] s[q])
}

/// `act` names positions that exist in lists of `n` original and `k` changed elements.
pub open spec fn in_range(act: Action, n: nat, k: nat) -> bool {
    match act {
        Action::Update { original: i, change: j } => 0 <= i < n && 0 <= j < k,
        Action::Delete { original: i } => 0 <= i < n,
        Action::Insert { change: j } => 0 <= j < k,
    }
}

/// The candidates of one more original element are those of the elements before it,
/// followed by its own.
pub proof fn lemma_first_pass_candidates_step(upto: nat, k: nat)
    ensures
        first_pass_candidates(upto + 1, k) == first_pass_candidates(upto, k) + row_candidates(
            upto as int,
            k,
        ),
{
    let rows = Seq::new(upto, |i: int| row_candidates(i, k));
    let row = row_candidates(upto as int, k);
    assert(Seq::new(upto + 1, |i: int| row_candidates(i, k)) =~= rows.push(row));
    rows.lemma_flatten_push(row);
}

/// The first pass over `upto` original elements has, in the order of invocation, exactly
/// the updates and deletes of those elements.
pub proof fn lemma_first_pass_candidates(upto: nat, k: nat)
    ensures
        forall|p: int|
            0 <= p < first_pass_candidates(upto, k).len() ==> {
                &&& !(#[trigger] first_pass_candidates(upto, k)[p] is Insert)
                &&& in_range(first_pass_candidates(upto, k)[p], upto, k)
            },
        forall|act: Action|
            !(act is Insert) && in_range(act, upto, k) ==> #[trigger] first_pass_candidates(
                upto,
                k,
            ).contains(act),
        in_order(first_pass_candidates(upto, k)),
    decreases upto,
{
    let all = first_pass_candidates(upto, k);
    if upto > 0 {
        let i = upto - 1;
        let before = first_pass_candidates(i as nat, k);
        let row = row_candidates(i, k);
        lemma_first_pass_candidates(i as nat, k);
        lemma_first_pass_candidates_step(i as nat, k);
        assert(all == before + row);
        assert forall|act: Action| !(act is Insert) && in_range(act, upto, k) implies all.contains(
            act,
        ) by {
            match act {
                Action::Update { original, change } => {
                    if original < i {
                        assert(before.contains(act));
                        let p = choose|p: int| 0 <= p < before.len() && before[p] == act;
                        assert(all[p] == act);
                    } else {
                        assert(row[change] == act);
                        assert(all[before.len() + change] == act);
                    }
                },
                Action::Delete { original } => {
                    if original < i {
                        assert(before.contains(act));
                        let p = choose|p: int| 0 <= p < before.len() && before[p] == act;
                        assert(all[p] == act);
                    } else {
                        assert(row[k as int] == act);
                        assert(all[before.len() + k as int] == act);
                    }
                },
                Action::Insert { .. } => {},
            }
        }
        assert forall|p: int, q: int| 0 <= p < q < all.len() implies precedes(all[p], all[q]) by {
            if q < before.len() {
                assert(precedes(before[p], before[q]));
            } else if p < before.len() {
                assert(in_range(before[p], i as nat, k));
                assert(all[q] == row[q - before.len()]);
            } else {
                assert(all[p] == row[p - before.len()]);
                assert(all[q] == row[q - before.len()]);
            }
        }
    }
}

/// The candidates are, in the order of invocation, exactly the actions in range.
pub proof fn lemma_candidates(n: nat, k: nat)
    ensures
        forall|p: int|
            0 <= p < candidates(n, k).len() ==> in_range(#[trigger] candidates(n, k)[p], n, k),
        forall|act: Action| in_range(act, n, k) ==> #[trigger] candidates(n, k).contains(act),
        in_order(candidates(n, k)),
{
    let first = first_pass_candidates(n, k);
    let second = insert_candidates(k);
    let all = candidates(n, k);
    lemma_first_pass_candidates(n, k);
    assert forall|act: Action| in_range(act, n, k) implies all.contains(act) by {
        match act {
            Action::Insert { change } => {
                assert(second[change] == act);
                assert(all[first.len() + change] == act);
            },
            _ => {
                assert(first.contains(act));
                let p = choose|p: int| 0 <= p < first.len() && first[p] == act;
                assert(all[p] == act);
            },
        }
    }
    assert forall|p: int, q: int| 0 <= p < q < all.len() implies precedes(all[p], all[q]) by {
        if q < first.len() {
            assert(precedes(first[p], first[q]));
        } else if p < first.len() {
            assert(!(first[p] is Insert));
            assert(all[q] == second[q - first.len()]);
        } else {
            assert(all[p] == second[p - first.len()]);
            assert(all[q] == second[q - first.len()]);
        }
    }
}

/// Selecting from a sequence that is in the order of invocation leaves it in that order.
pub proof fn lemma_filter_in_order(s: Seq<Action>, keep: spec_fn(Action) -> bool)
    requires
        in_order(s),
    ensures
        in_order(s.filter(keep)),
    decreases s.len(),
{
    reveal(Seq::filter);
    if s.len() > 0 {
        let front = s.drop_last();
        let kept = front.filter(keep);
        assert forall|p: int, q: int| 0 <= p < q < front.len() implies precedes(
            front[p],
            front[q],
        ) by {
            assert(precedes(s[p], s[q]));
        }
        lemma_filter_in_order(front, keep);
        if keep(s.last()) {
            let out = kept.push(s.last());
            assert forall|p: int, q: int| 0 <= p < q < out.len() implies precedes(
                out[p],
                out[q],
            ) by {
                if q < kept.len() {
                    assert(precedes(kept[p], kept[q]));
                } else {
                    assert(kept.contains(kept[p]));
                    front.lemma_filter_contains_rev(keep, kept[p]);
                    let r = choose|r: int| 0 <= r < front.len() && front[r] == kept[p];
                    assert(precedes(s[r], s[s.len() - 1]));
                }
            }
        }
    }
}

/// No action comes before itself, so a sequence in the order of invocation holds no
/// action twice.
pub proof fn lemma_in_order_no_duplicates(s: Seq<Action>)
    requires
        in_order(s),
    ensures
        s.no_duplicates(),
{
    assert forall|p: int, q: int| 0 <= p < s.len() && 0 <= q < s.len() && p != q implies s[p]
        != s[q] by {
        if p < q {
            assert(precedes(s[p], s[q]));
        } else {
            assert(precedes(s[q], s[p]));
        }
    }
}

/// The plan holds an action if and only if the action is due.
pub proof fn lemma_plan_holds_what_is_due<A, B>(
    m: spec_fn(A, B) -> bool,
    original: Seq<A>,
    changes: Seq<B>,
    act: Action,
)
    ensures
        plan(m, original, changes).contains(act) <==> due(m, original, changes, act),
{
    let all = candidates(original.len(), changes.len());
    let keep = is_due(m, original, changes);
    lemma_candidates(original.len(), changes.len());
    if plan(m, original, changes).contains(act) {
        let p = choose|p: int|
            0 <= p < plan(m, original, changes).len() && plan(m, original, changes)[p] == act;
        all.lemma_filter_pred(keep, p);
    }
    if due(m, original, changes, act) {
        assert(in_range(act, original.len(), changes.len()));
        assert(all.contains(act));
        let p = choose|p: int| 0 <= p < all.len() && all[p] == act;
        all.lemma_filter_contains(keep, p);
    }
}

/// The plan is in the order of invocation, and holds no action twice.
pub proof fn lemma_plan_in_order<A, B>(m: spec_fn(A, B) -> bool, original: Seq<A>, changes: Seq<B>)
    ensures
        in_order(plan(m, original, changes)),
        plan(m, original, changes).no_duplicates(),
{
    lemma_candidates(original.len(), changes.len());
    lemma_filter_in_order(
        candidates(original.len(), changes.len()),
        is_due(m, original, changes),
    );
    lemma_in_order_no_duplicates(plan(m, original, changes));
}

/// Scanning one more changed element in the first pass goes through one more update.
pub proof fn lemma_first_pass_sees_update(i: nat, j: nat, k: nat)
    ensures
        seen_in_first_pass(i, j + 1, k) == seen_in_first_pass(i, j, k).push(
            Action::Update { original: i as int, change: j as int },
        ),
{
    assert(seen_in_first_pass(i, j + 1, k) =~= seen_in_first_pass(i, j, k).push(
        Action::Update { original: i as int, change: j as int },
    ));
}

/// Once an original element is scanned against all changed elements, its delete is gone
/// through, and the next element's turn begins.
pub proof fn lemma_first_pass_sees_delete(i: nat, k: nat)
    ensures
        seen_in_first_pass(i + 1, 0, k) == seen_in_first_pass(i, k, k).push(
            Action::Delete { original: i as int },
        ),
{
    lemma_first_pass_candidates_step(i, k);
    assert(seen_in_first_pass(i + 1, 0, k) =~= seen_in_first_pass(i, k, k).push(
        Action::Delete { original: i as int },
    ));
}

/// The second pass begins where the first one ends, and each changed element it decides
/// on is one more insert gone through; after the last, every candidate has been.
pub proof fn lemma_second_pass_sees_insert(n: nat, j: nat, k: nat)
    ensures
        seen_in_second_pass(n, 0, k) == seen_in_first_pass(n, 0, k),
        seen_in_second_pass(n, j + 1, k) == seen_in_second_pass(n, j, k).push(
            Action::Insert { change: j as int },
        ),
        seen_in_second_pass(n, k, k) == candidates(n, k),
{
    assert(seen_in_second_pass(n, 0, k) =~= seen_in_first_pass(n, 0, k));
    assert(seen_in_second_pass(n, j + 1, k) =~= seen_in_second_pass(n, j, k).push(
        Action::Insert { change: j as int },
    ));
}

/// The first pass over fewer original elements is the beginning of the first pass over
/// more of them.
pub proof fn lemma_first_pass_grows(i: nat, n: nat, k: nat)
    requires
        i <= n,
    ensures
        first_pass_candidates(i, k).is_prefix_of(first_pass_candidates(n, k)),
    decreases n,
{
    if i < n {
        lemma_first_pass_grows(i, (n - 1) as nat, k);
        lemma_first_pass_candidates_step((n - 1) as nat, k);
    }
}

/// What the first pass has gone through at any moment is a beginning of the candidates.
pub proof fn lemma_seen_in_first_pass(i: nat, j: nat, n: nat, k: nat)
    requires
        i < n,
        j <= k,
    ensures
        seen_in_first_pass(i, j, k).is_prefix_of(candidates(n, k)),
{
    lemma_first_pass_candidates_step(i, k);
    lemma_first_pass_grows(i + 1, n, k);
    let seen = seen_in_first_pass(i, j, k);
    let next = first_pass_candidates(i + 1, k);
    assert(seen =~= next.subrange(0, seen.len() as int));
}

/// What the second pass has gone through at any moment is a beginning of the candidates.
pub proof fn lemma_seen_in_second_pass(n: nat, j: nat, k: nat)
    requires
        j <= k,
    ensures
        seen_in_second_pass(n, j, k).is_prefix_of(candidates(n, k)),
{
}

/// The due ones among a beginning of the candidates are a beginning of the plan.
pub proof fn lemma_plan_begins_with<A, B>(
    m: spec_fn(A, B) -> bool,
    original: Seq<A>,
    changes: Seq<B>,
    seen: Seq<Action>,
)
    requires
        seen.is_prefix_of(candidates(original.len(), changes.len())),
    ensures
        seen.filter(is_due(m, original, changes)).is_prefix_of(plan(m, original, changes)),
{
    let all = candidates(original.len(), changes.len());
    let rest = all.skip(seen.len() as int);
    let keep = is_due(m, original, changes);
    assert(all =~= seen + rest);
    Seq::filter_distributes_over_add(seen, rest, keep);
}

} // verus!
