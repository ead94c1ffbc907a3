//! The reconciliation itself: it walks both lists, asks the caller's predicate which
//! elements match, and invokes the caller's callbacks as the plan says, until one fails.
//!
//! A callback gets the context as `&mut C`. A run is described by `steps`, the sequence of
//! the references handed to the invocations that were made: the value behind a reference
//! when it is handed over is the context that the invocation finds, and its final value is
//! the context that the invocation leaves.

use crate::plan::{
    candidates, due, in_order, is_due, lemma_candidates, lemma_first_pass_sees_delete,
    lemma_first_pass_sees_update, lemma_plan_begins_with, lemma_second_pass_sees_insert,
    lemma_seen_in_first_pass, lemma_seen_in_second_pass, plan, precedes, seen_in_first_pass,
    seen_in_second_pass, Action,
};
use vstd::prelude::*;

verus! {

/// The predicate `matches` computes the relation `m` on the two lists: whatever it answers
/// on a pair of their elements is what `m` says of that pair.
pub open spec fn computes<A, B, M>(
    matches: M,
    original: Seq<A>,
    changes: Seq<B>,
    m: spec_fn(A, B) -> bool,
) -> bool where M: Fn(&A, &B) -> bool {
    forall|i: int, j: int, r: bool|
        0 <= i < original.len() && 0 <= j < changes.len() && #[trigger] call_ensures(
            matches,
            (&original[i], &changes[j]),
            r,
        ) ==> r == m(original[i], changes[j])
}

/// The predicate `matches` may be asked about every pair of elements of the two lists.
pub open spec fn askable<A, B, M>(matches: M, original: Seq<A>, changes: Seq<B>) -> bool where
    M: Fn(&A, &B) -> bool,
 {
    forall|i: int, j: int|
        0 <= i < original.len() && 0 <= j < changes.len() ==> #[trigger] call_requires(
            matches,
            (&original[i], &changes[j]),
        )
}

/// As far as the answers that `matches` may give can tell, `act` may be due: an update on
/// a pair that it may accept, a delete of an original element that it may reject against
/// every changed element, an insert of a changed element against which it may reject
/// every original element.
pub open spec fn may_be_due<A, B, M>(
    matches: M,
    original: Seq<A>,
    changes: Seq<B>,
    act: Action,
) -> bool where M: Fn(&A, &B) -> bool {
    match act {
        Action::Update { original: i, change: j } => {
            &&& 0 <= i < original.len()
            &&& 0 <= j < changes.len()
            &&& call_ensures(matches, (&original[i], &changes[j]), true)
        },
        Action::Delete { original: i } => {
            &&& 0 <= i < original.len()
            &&& forall|j: int|
                0 <= j < changes.len() ==> call_ensures(
                    matches,
                    (&original[i], &#[trigger] changes[j]),
                    false,
                )
        },
        Action::Insert { change: j } => {
            &&& 0 <= j < changes.len()
            &&& forall|i: int|
                0 <= i < original.len() ==> call_ensures(
                    matches,
                    (&#[trigger] original[i], &changes[j]),
                    false,
                )
        },
    }
}

/// A reconciliation of the two lists can make the invocations `acts` one after another:
/// they are in the order of invocation, and each of them may be due.
pub open spec fn possible<A, B, M>(
    matches: M,
    original: Seq<A>,
    changes: Seq<B>,
    acts: Seq<Action>,
) -> bool where M: Fn(&A, &B) -> bool {
    &&& in_order(acts)
    &&& forall|s: int|
        0 <= s < acts.len() ==> may_be_due(matches, original, changes, #[trigger] acts[s])
}

/// The callback of the invocation `act` accepts being called with `context`.
pub open spec fn accepts<A, B, C, E, I, U, D>(
    on_insert: I,
    on_update: U,
    on_delete: D,
    original: Seq<A>,
    changes: Seq<B>,
    act: Action,
    context: &mut C,
) -> bool where
    I: Fn(&mut C, &B) -> Result<(), E>,
    U: Fn(&mut C, &A, &B) -> Result<(), E>,
    D: Fn(&mut C, &A) -> Result<(), E>,
 {
    match act {
        Action::Update { original: i, change: j } => call_requires(
            on_update,
            (context, &original[i], &changes[j]),
        ),
        Action::Delete { original: i } => call_requires(on_delete, (context, &original[i])),
        Action::Insert { change: j } => call_requires(on_insert, (context, &changes[j])),
    }
}

/// The invocation `act`, made with `context`, may return `outcome`.
pub open spec fn performs<A, B, C, E, I, U, D>(
    on_insert: I,
    on_update: U,
    on_delete: D,
    original: Seq<A>,
    changes: Seq<B>,
    act: Action,
    context: &mut C,
    outcome: Result<(), E>,
) -> bool where
    I: Fn(&mut C, &B) -> Result<(), E>,
    U: Fn(&mut C, &A, &B) -> Result<(), E>,
    D: Fn(&mut C, &A) -> Result<(), E>,
 {
    match act {
        Action::Update { original: i, change: j } => call_ensures(
            on_update,
            (context, &original[i], &changes[j]),
            outcome,
        ),
        Action::Delete { original: i } => call_ensures(on_delete, (context, &original[i]), outcome),
        Action::Insert { change: j } => call_ensures(on_insert, (context, &changes[j]), outcome),
    }
}

/// What the invocation at position `s` returned, where `invoked` invocations were made and
/// the reconciliation returned `res`: the last one returned `res`, each one before it `Ok`.
pub open spec fn outcome_of<E>(res: Result<(), E>, invoked: int, s: int) -> Result<(), E> {
    if s + 1 == invoked {
        res
    } else {
        Ok(())
    }
}

/// `steps` is a run of the invocations `made`, from the context `start`, of a
/// reconciliation that returned `res`: it holds the reference handed to each of them. The
/// first was handed `start`. Each but the last returned `Ok`, and the last returned `res`;
/// where `res` is an error, there is a last one.
pub open spec fn runs<A, B, C, E, I, U, D>(
    on_insert: I,
    on_update: U,
    on_delete: D,
    original: Seq<A>,
    changes: Seq<B>,
    made: Seq<Action>,
    steps: Seq<&mut C>,
    start: C,
    res: Result<(), E>,
) -> bool where
    I: Fn(&mut C, &B) -> Result<(), E>,
    U: Fn(&mut C, &A, &B) -> Result<(), E>,
    D: Fn(&mut C, &A) -> Result<(), E>,
 {
    &&& steps.len() == made.len()
    &&& res is Err ==> steps.len() >= 1
    &&& steps.len() > 0 ==> *steps[0] == start
    &&& forall|s: int|
        0 <= s < steps.len() ==> performs(
            on_insert,
            on_update,
            on_delete,
            original,
            changes,
            made[s],
            #[trigger] steps[s],
            outcome_of(res, steps.len() as int, s),
        )
}

/// The invocations `made` by a reconciliation that returned `res` are what `planned` asks
/// for: all of it where `res` is `Ok`, and else its beginning up to the invocation that
/// failed.
pub open spec fn fulfils<E>(made: Seq<Action>, planned: Seq<Action>, res: Result<(), E>) -> bool {
    &&& made.is_prefix_of(planned)
    &&& res is Ok ==> made == planned
}

/// Where the walk through the candidates stands: `seen` are the candidates gone through
/// and `done` the invocations made. Under every relation that `matches` computes, `done`
/// holds the due ones among `seen`; whatever `matches` computes, `done` is possible.
spec fn walked<A, B, M>(
    matches: M,
    original: Seq<A>,
    changes: Seq<B>,
    seen: Seq<Action>,
    done: Seq<Action>,
) -> bool where M: Fn(&A, &B) -> bool {
    &&& forall|m: spec_fn(A, B) -> bool| #[trigger]
        computes(matches, original, changes, m) ==> done == seen.filter(
            is_due(m, original, changes),
        )
    &&& possible(matches, original, changes, done)
    &&& forall|s: int| 0 <= s < done.len() ==> seen.contains(#[trigger] done[s])
}

/// Before the first candidate nothing is seen and nothing done.
proof fn lemma_walk_begins<A, B, M>(matches: M, original: Seq<A>, changes: Seq<B>) where
    M: Fn(&A, &B) -> bool,

    ensures
        walked(matches, original, changes, Seq::empty(), Seq::empty()),
{
    assert forall|m: spec_fn(A, B) -> bool| #[trigger]
        computes(matches, original, changes, m) implies Seq::<Action>::empty()
        == Seq::<Action>::empty().filter(is_due(m, original, changes)) by {
        Seq::<Action>::empty().lemma_filter_len(is_due(m, original, changes));
    }
}

/// The walk goes past a candidate that is not due.
proof fn lemma_walk_passes<A, B, M>(
    matches: M,
    original: Seq<A>,
    changes: Seq<B>,
    seen: Seq<Action>,
    done: Seq<Action>,
    act: Action,
) where M: Fn(&A, &B) -> bool
    requires
        walked(matches, original, changes, seen, done),
        forall|m: spec_fn(A, B) -> bool| #[trigger]
            computes(matches, original, changes, m) ==> !due(m, original, changes, act),
    ensures
        walked(matches, original, changes, seen.push(act), done),
{
    assert forall|m: spec_fn(A, B) -> bool| #[trigger]
        computes(matches, original, changes, m) implies done == seen.push(act).filter(
        is_due(m, original, changes),
    ) by {
        seen.lemma_filter_push(act, is_due(m, original, changes));
    }
    assert forall|s: int| 0 <= s < done.len() implies seen.push(act).contains(
        #[trigger] done[s],
    ) by {
        let at = choose|at: int| 0 <= at < seen.len() && seen[at] == done[s];
        assert(seen.push(act)[at] == done[s]);
    }
}

/// The walk invokes a candidate that is due: it is then the last of what is done, which
/// is still possible, and a beginning of the plan.
proof fn lemma_walk_invokes<A, B, M>(
    matches: M,
    original: Seq<A>,
    changes: Seq<B>,
    seen: Seq<Action>,
    done: Seq<Action>,
    act: Action,
) where M: Fn(&A, &B) -> bool
    requires
        walked(matches, original, changes, seen, done),
        seen.push(act).is_prefix_of(candidates(original.len(), changes.len())),
        may_be_due(matches, original, changes, act),
        forall|m: spec_fn(A, B) -> bool| #[trigger]
            computes(matches, original, changes, m) ==> due(m, original, changes, act),
    ensures
        walked(matches, original, changes, seen.push(act), done.push(act)),
        possible(matches, original, changes, done.push(act)),
        forall|m: spec_fn(A, B) -> bool| #[trigger]
            computes(matches, original, changes, m) ==> done.push(act).is_prefix_of(
                plan(m, original, changes),
            ),
{
    let all = candidates(original.len(), changes.len());
    let next = done.push(act);
    lemma_candidates(original.len(), changes.len());
    assert forall|m: spec_fn(A, B) -> bool| #[trigger]
        computes(matches, original, changes, m) implies next == seen.push(act).filter(
        is_due(m, original, changes),
    ) && next.is_prefix_of(plan(m, original, changes)) by {
        seen.lemma_filter_push(act, is_due(m, original, changes));
        lemma_plan_begins_with(m, original, changes, seen.push(act));
    }
    assert(all[seen.len() as int] == seen.push(act)[seen.len() as int]);
    assert forall|s: int| 0 <= s < next.len() implies seen.push(act).contains(
        #[trigger] next[s],
    ) by {
        if s < done.len() {
            let at = choose|at: int| 0 <= at < seen.len() && seen[at] == done[s];
            assert(seen.push(act)[at] == next[s]);
        } else {
            assert(seen.push(act)[seen.len() as int] == next[s]);
        }
    }
    assert forall|p: int, q: int| 0 <= p < q < next.len() implies precedes(next[p], next[q]) by {
        if q < done.len() {
            assert(precedes(done[p], done[q]));
        } else {
            let at = choose|at: int| 0 <= at < seen.len() && seen[at] == done[p];
            assert(all[at] == seen.push(act)[at]);
            assert(precedes(all[at], all[seen.len() as int]));
        }
    }
}

/// When every candidate has been seen, what is done is the plan.
proof fn lemma_walk_ends<A, B, M>(
    matches: M,
    original: Seq<A>,
    changes: Seq<B>,
    done: Seq<Action>,
) where M: Fn(&A, &B) -> bool
    requires
        walked(matches, original, changes, candidates(original.len(), changes.len()), done),
    ensures
        forall|m: spec_fn(A, B) -> bool| #[trigger]
            computes(matches, original, changes, m) ==> done == plan(m, original, changes),
{
}

/// One more invocation, made with the context that a run without failure has left, makes
/// a run of one more step, which returns what that invocation returned and leaves the
/// context as that invocation left it.
proof fn lemma_run_goes_on<A, B, C, E, I, U, D>(
    on_insert: I,
    on_update: U,
    on_delete: D,
    original: Seq<A>,
    changes: Seq<B>,
    done: Seq<Action>,
    act: Action,
    context: &mut C,
    start: C,
    r: Result<(), E>,
) where
    I: Fn(&mut C, &B) -> Result<(), E>,
    U: Fn(&mut C, &A, &B) -> Result<(), E>,
    D: Fn(&mut C, &A) -> Result<(), E>,

    requires
        exists|steps: Seq<&mut C>|
            {
                &&& #[trigger] runs(
                    on_insert,
                    on_update,
                    on_delete,
                    original,
                    changes,
                    done,
                    steps,
                    start,
                    Ok::<(), E>(()),
                )
                &&& forall|s: int|
                    0 < s < steps.len() ==> *(#[trigger] steps[s]) == *final(steps[s - 1])
                &&& *context == if steps.len() == 0 {
                    start
                } else {
                    *final(steps.last())
                }
            },
        performs(on_insert, on_update, on_delete, original, changes, act, context, r),
    ensures
        exists|steps: Seq<&mut C>|
            {
                &&& #[trigger] runs(
                    on_insert,
                    on_update,
                    on_delete,
                    original,
                    changes,
                    done.push(act),
                    steps,
                    start,
                    r,
                )
                &&& forall|s: int|
                    0 < s < steps.len() ==> *(#[trigger] steps[s]) == *final(steps[s - 1])
                &&& *final(context) == if steps.len() == 0 {
                    start
                } else {
                    *final(steps.last())
                }
            },
        r is Ok ==> r == Ok::<(), E>(()),
{
    let prior = choose|steps: Seq<&mut C>|
        {
            &&& #[trigger] runs(
                on_insert,
                on_update,
                on_delete,
                original,
                changes,
                done,
                steps,
                start,
                Ok::<(), E>(()),
            )
            &&& forall|s: int|
                0 < s < steps.len() ==> *(#[trigger] steps[s]) == *final(steps[s - 1])
            &&& *context == if steps.len() == 0 {
                start
            } else {
                *final(steps.last())
            }
        };
    let next = prior.push(context);
    if r is Ok {
        assert(r->Ok_0 == ());
        assert(r == Ok::<(), E>(r->Ok_0));
    }
    assert(runs(
        on_insert,
        on_update,
        on_delete,
        original,
        changes,
        done.push(act),
        next,
        start,
        r,
    ));
    assert(next.last() == context);
}

/// A property of the context that holds when a run begins, and that no step of the run
/// destroys, holds before and after each of its steps. This is how a caller whose
/// callbacks ask for such a property shows that they accept every context that comes
/// about, and that the property holds of the context that the reconciliation leaves.
pub proof fn lemma_run_keeps<C>(steps: Seq<&mut C>, start: C, kept: spec_fn(C) -> bool)
    requires
        kept(start),
        steps.len() > 0 ==> *steps[0] == start,
        forall|s: int|
            0 <= s < steps.len() && kept(*(#[trigger] steps[s])) ==> kept(*final(steps[s])),
        forall|s: int| 0 < s < steps.len() ==> *(#[trigger] steps[s]) == *final(steps[s - 1]),
    ensures
        forall|s: int|
            0 <= s < steps.len() ==> kept(*(#[trigger] steps[s])) && kept(*final(steps[s])),
    decreases steps.len(),
{
    if steps.len() > 0 {
        let front = steps.drop_last();
        lemma_run_keeps(front, start, kept);
        if steps.len() > 1 {
            assert(front[steps.len() - 2] == steps[steps.len() - 2]);
        }
        assert forall|s: int| 0 <= s < steps.len() implies kept(*(#[trigger] steps[s])) && kept(
            *final(steps[s]),
        ) by {
            if s < steps.len() - 1 {
                assert(front[s] == steps[s]);
            }
        }
    }
}

/// Synchronises `changes` with `original`: invokes `on_update` on every pair of an original
/// and a changed element that `matches` accepts, `on_delete` on every original element that
/// matches no changed one, and `on_insert` on every changed element that no original one
/// matches. The updates and the delete of each original element come first, element after
/// element, then the inserts. The first failure of a callback ends the run and is returned;
/// what the callbacks did to the context before it stays done.
///
/// The callbacks need not accept every context: it is enough that each accepts the
/// contexts that invocations which the reconciliation can make, one after another and
/// without failure, lead to from the context passed in.
///
/// The result is stated by `made`, the invocations that were made, and `steps`, the
/// context references handed to them: each invocation found the context as the one before
/// it left it, the first found it as the caller passed it, and the last left it as the
/// caller gets it back; and for any relation `m` that `matches` computes, `made` is the
/// plan for `m`, or its beginning up to the invocation that failed.
#[verifier::loop_isolation(false)]
pub fn list_sync<A, B, C, M, I, U, D, E>(
    original: &Vec<A>,
    changes: &Vec<B>,
    context: &mut C,
    matches: M,
    on_insert: I,
    on_update: U,
    on_delete: D,
) -> (res: Result<(), E>) where
    M: Fn(&A, &B) -> bool,
    I: Fn(&mut C, &B) -> Result<(), E>,
    U: Fn(&mut C, &A, &B) -> Result<(), E>,
    D: Fn(&mut C, &A) -> Result<(), E>,

    requires
        askable(matches, original@, changes@),
        forall|made: Seq<Action>, next: Action, steps: Seq<&mut C>, c: &mut C|
            {
                &&& possible(matches, original@, changes@, made.push(next))
                &&& #[trigger] runs(
                    on_insert,
                    on_update,
                    on_delete,
                    original@,
                    changes@,
                    made,
                    steps,
                    *old(context),
                    Ok::<(), E>(()),
                )
                &&& forall|s: int|
                    0 < s < steps.len() ==> *(#[trigger] steps[s]) == *final(steps[s - 1])
                &&& *c == if steps.len() == 0 {
                    *old(context)
                } else {
                    *final(steps.last())
                }
            } ==> #[trigger] accepts(on_insert, on_update, on_delete, original@, changes@, next, c),
    ensures
        exists|made: Seq<Action>, steps: Seq<&mut C>|
            {
                &&& #[trigger] runs(
                    on_insert,
                    on_update,
                    on_delete,
                    original@,
                    changes@,
                    made,
                    steps,
                    *old(context),
                    res,
                )
                &&& forall|s: int|
                    0 < s < steps.len() ==> *(#[trigger] steps[s]) == *final(steps[s - 1])
                &&& *final(context) == if steps.len() == 0 {
                    *old(context)
                } else {
                    *final(steps.last())
                }
                &&& possible(matches, original@, changes@, made)
                &&& forall|m: spec_fn(A, B) -> bool| #[trigger]
                    computes(matches, original@, changes@, m) ==> fulfils(
                        made,
                        plan(m, original@, changes@),
                        res,
                    )
            },
        original@.len() == 0 && changes@.len() == 0 ==> res is Ok && *final(context) == *old(
            context,
        ),
{
    let n = original.len();
    let k = changes.len();
    let ghost mut seen: Seq<Action> = Seq::empty();
    let ghost mut done: Seq<Action> = Seq::empty();
    proof {
        lemma_walk_begins(matches, original@, changes@);
        assert(seen =~= seen_in_first_pass(0, 0, k as nat));
        assert(runs(
            on_insert,
            on_update,
            on_delete,
            original@,
            changes@,
            done,
            Seq::<&mut C>::empty(),
            *old(context),
            Ok::<(), E>(()),
        ));
    }
    let mut i: usize = 0;
    while i < n
        invariant
            i <= n,
            seen == seen_in_first_pass(i as nat, 0, k as nat),
            walked(matches, original@, changes@, seen, done),
            n == 0 ==> done.len() == 0,
            exists|steps: Seq<&mut C>|
                {
                    &&& #[trigger] runs(
                        on_insert,
                        on_update,
                        on_delete,
                        original@,
                        changes@,
                        done,
                        steps,
                        *old(context),
                        Ok::<(), E>(()),
                    )
                    &&& forall|s: int|
                        0 < s < steps.len() ==> *(#[trigger] steps[s]) == *final(steps[s - 1])
                    &&& *context == if steps.len() == 0 {
                        *old(context)
                    } else {
                        *final(steps.last())
                    }
                },
        decreases n - i,
    {
        let mut matched = false;
        let mut j: usize = 0;
        while j < k
            invariant
                i < n,
                j <= k,
                seen == seen_in_first_pass(i as nat, j as nat, k as nat),
                walked(matches, original@, changes@, seen, done),
                forall|m: spec_fn(A, B) -> bool| #[trigger]
                    computes(matches, original@, changes@, m) ==> (matched <==> exists|j2: int|
                        0 <= j2 < j && #[trigger] m(original@[i as int], changes@[j2])),
                !matched ==> forall|j2: int|
                    0 <= j2 < j ==> call_ensures(
                        matches,
                        (&original@[i as int], &#[trigger] changes@[j2]),
                        false,
                    ),
                exists|steps: Seq<&mut C>|
                    {
                        &&& #[trigger] runs(
                            on_insert,
                            on_update,
                            on_delete,
                            original@,
                            changes@,
                            done,
                            steps,
                            *old(context),
                            Ok::<(), E>(()),
                        )
                        &&& forall|s: int|
                            0 < s < steps.len() ==> *(#[trigger] steps[s]) == *final(steps[s - 1])
                        &&& *context == if steps.len() == 0 {
                            *old(context)
                        } else {
                            *final(steps.last())
                        }
                    },
            decreases k - j,
        {
            let ghost act = Action::Update { original: i as int, change: j as int };
            let hit = matches(&original[i], &changes[j]);
            proof {
                lemma_first_pass_sees_update(i as nat, j as nat, k as nat);
                lemma_seen_in_first_pass(i as nat, (j + 1) as nat, n as nat, k as nat);
                assert forall|m: spec_fn(A, B) -> bool| #[trigger]
                    computes(matches, original@, changes@, m) implies hit == due(
                    m,
                    original@,
                    changes@,
                    act,
                ) by {}
            }
            if hit {
                matched = true;
                let ghost before = *context;
                proof {
                    lemma_walk_invokes(matches, original@, changes@, seen, done, act);
                    assert forall|c: &mut C| *c == before implies call_requires(
                        on_update,
                        (c, &original@[i as int], &changes@[j as int]),
                    ) by {
                        assert(accepts(
                            on_insert,
                            on_update,
                            on_delete,
                            original@,
                            changes@,
                            act,
                            c,
                        ));
                    }
                }
                let r = on_update(context, &original[i], &changes[j]);
                proof {
                    let c = choose|c: &mut C|
                        *c == before && *final(c) == *context
                            && call_ensures(
                            on_update,
                            (c, &original@[i as int], &changes@[j as int]),
                            r,
                        );
                    lemma_run_goes_on(
                        on_insert,
                        on_update,
                        on_delete,
                        original@,
                        changes@,
                        done,
                        act,
                        c,
                        *old(context),
                        r,
                    );
                    done = done.push(act);
                }
                match r {
                    Ok(()) => {},
                    Err(e) => {
                        return Err(e);
                    },
                }
            } else {
                proof {
                    lemma_walk_passes(matches, original@, changes@, seen, done, act);
                }
            }
            proof {
                seen = seen.push(act);
            }
            j += 1;
        }
        let ghost act = Action::Delete { original: i as int };
        proof {
            lemma_first_pass_sees_delete(i as nat, k as nat);
            if i + 1 < n {
                lemma_seen_in_first_pass((i + 1) as nat, 0, n as nat, k as nat);
            } else {
                lemma_second_pass_sees_insert(n as nat, 0, k as nat);
                lemma_seen_in_second_pass(n as nat, 0, k as nat);
            }
            assert forall|m: spec_fn(A, B) -> bool| #[trigger]
                computes(matches, original@, changes@, m) implies !matched == due(
                m,
                original@,
                changes@,
                act,
            ) by {}
        }
        if !matched {
            let ghost before = *context;
            proof {
                lemma_walk_invokes(matches, original@, changes@, seen, done, act);
                assert forall|c: &mut C| *c == before implies call_requires(
                    on_delete,
                    (c, &original@[i as int]),
                ) by {
                    assert(accepts(on_insert, on_update, on_delete, original@, changes@, act, c));
                }
            }
            let r = on_delete(context, &original[i]);
            proof {
                let c = choose|c: &mut C|
                    *c == before && *final(c) == *context && call_ensures(
                        on_delete,
                        (c, &original@[i as int]),
                        r,
                    );
                lemma_run_goes_on(
                    on_insert,
                    on_update,
                    on_delete,
                    original@,
                    changes@,
                    done,
                    act,
                    c,
                    *old(context),
                    r,
                );
                done = done.push(act);
            }
            match r {
                Ok(()) => {},
                Err(e) => {
                    return Err(e);
                },
            }
        } else {
            proof {
                lemma_walk_passes(matches, original@, changes@, seen, done, act);
            }
        }
        proof {
            seen = seen.push(act);
        }
        i += 1;
    }
    proof {
        lemma_second_pass_sees_insert(n as nat, 0, k as nat);
    }
    let mut j: usize = 0;
    while j < k
        invariant
            j <= k,
            seen == seen_in_second_pass(n as nat, j as nat, k as nat),
            walked(matches, original@, changes@, seen, done),
            n == 0 && k == 0 ==> done.len() == 0,
            exists|steps: Seq<&mut C>|
                {
                    &&& #[trigger] runs(
                        on_insert,
                        on_update,
                        on_delete,
                        original@,
                        changes@,
                        done,
                        steps,
                        *old(context),
                        Ok::<(), E>(()),
                    )
                    &&& forall|s: int|
                        0 < s < steps.len() ==> *(#[trigger] steps[s]) == *final(steps[s - 1])
                    &&& *context == if steps.len() == 0 {
                        *old(context)
                    } else {
                        *final(steps.last())
                    }
                },
        decreases k - j,
    {
        let mut matched = false;
        let mut i: usize = 0;
        while i < n
            invariant
                j < k,
                i <= n,
                forall|m: spec_fn(A, B) -> bool| #[trigger]
                    computes(matches, original@, changes@, m) ==> (matched <==> exists|i2: int|
                        0 <= i2 < i && #[trigger] m(original@[i2], changes@[j as int])),
                !matched ==> forall|i2: int|
                    0 <= i2 < i ==> call_ensures(
                        matches,
                        (&#[trigger] original@[i2], &changes@[j as int]),
                        false,
                    ),
            decreases n - i,
        {
            if matches(&original[i], &changes[j]) {
                matched = true;
            }
            i += 1;
        }
        let ghost act = Action::Insert { change: j as int };
        proof {
            lemma_second_pass_sees_insert(n as nat, j as nat, k as nat);
            lemma_seen_in_second_pass(n as nat, (j + 1) as nat, k as nat);
            assert forall|m: spec_fn(A, B) -> bool| #[trigger]
                computes(matches, original@, changes@, m) implies !matched == due(
                m,
                original@,
                changes@,
                act,
            ) by {}
        }
        if !matched {
            let ghost before = *context;
            proof {
                lemma_walk_invokes(matches, original@, changes@, seen, done, act);
                assert forall|c: &mut C| *c == before implies call_requires(
                    on_insert,
                    (c, &changes@[j as int]),
                ) by {
                    assert(accepts(on_insert, on_update, on_delete, original@, changes@, act, c));
                }
            }
            let r = on_insert(context, &changes[j]);
            proof {
                let c = choose|c: &mut C|
                    *c == before && *final(c) == *context && call_ensures(
                        on_insert,
                        (c, &changes@[j as int]),
                        r,
                    );
                lemma_run_goes_on(
                    on_insert,
                    on_update,
                    on_delete,
                    original@,
                    changes@,
                    done,
                    act,
                    c,
                    *old(context),
                    r,
                );
                done = done.push(act);
            }
            match r {
                Ok(()) => {},
                Err(e) => {
                    return Err(e);
                },
            }
        } else {
            proof {
                lemma_walk_passes(matches, original@, changes@, seen, done, act);
            }
        }
        proof {
            seen = seen.push(act);
        }
        j += 1;
    }
    proof {
        lemma_second_pass_sees_insert(n as nat, k as nat, k as nat);
        lemma_walk_ends(matches, original@, changes@, done);
    }
    Ok(())
}

} // verus!
