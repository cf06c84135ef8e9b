//! Evaluation of counters into hit counts.
//!
//! A counter is resolved against a function's expression table and a buffer
//! of live instrumentation values. Expressions may share operands, so the
//! table is a graph; every entry is combined at most once per call, and a
//! table that leads back into itself is rejected.

use vstd::prelude::*;
use crate::coverageinfo::{
    Counter, CounterExpression, CounterKind, CounterRegion, ExprKind, RegionView,
};

verus! {

/// Why a counter could not be evaluated.
#[derive(Clone, Copy, Debug, PartialEq, Eq, Structural)]
pub enum EvalError {
    /// A counter names an instrumentation value beyond the buffer, or an
    /// expression beyond the table.
    OutOfRange,
    /// The expression table leads from an entry back to itself.
    CyclicExpression,
}

/// The hit count of a counter, and whether any operation on the way to it
/// had to be clamped to the range of a count.
#[derive(Clone, Copy, Debug, PartialEq, Eq, Structural)]
pub struct Evaluation {
    pub value: u64,
    pub saturated: bool,
}

/// The value of one operation: counts never leave `0..=u64::MAX`, so a
/// difference below zero is 0 and a sum above the maximum is the maximum.
pub open spec fn combine(kind: ExprKind, lhs: u64, rhs: u64) -> u64 {
    match kind {
        ExprKind::Subtract => if lhs < rhs {
            0
        } else {
            (lhs - rhs) as u64
        },
        ExprKind::Add => if lhs + rhs > u64::MAX {
            u64::MAX
        } else {
            (lhs + rhs) as u64
        },
    }
}

/// Whether `combine` had to clamp.
pub open spec fn saturates(kind: ExprKind, lhs: u64, rhs: u64) -> bool {
    match kind {
        ExprKind::Subtract => lhs < rhs,
        ExprKind::Add => lhs + rhs > u64::MAX,
    }
}

/// The result of one operation on two evaluated operands.
pub open spec fn join(kind: ExprKind, lhs: Evaluation, rhs: Evaluation) -> Evaluation {
    Evaluation {
        value: combine(kind, lhs.value, rhs.value),
        saturated: lhs.saturated || rhs.saturated || saturates(kind, lhs.value, rhs.value),
    }
}

/// The counter that stands for entry `id` of the expression table.
pub open spec fn entry(id: u32) -> Counter {
    Counter { kind: CounterKind::Expression, id }
}

/// The value of `counter` when expressions may nest at most `depth` deep.
/// The left operand is resolved before the right one, and the first failure
/// met is the result. Running out of depth is reported as a cycle.
pub open spec fn eval_within(
    expressions: Seq<CounterExpression>,
    values: Seq<u64>,
    counter: Counter,
    depth: nat,
) -> Result<Evaluation, EvalError>
    decreases depth,
{
    match counter.kind {
        CounterKind::Zero => Ok(Evaluation { value: 0, saturated: false }),
        CounterKind::CounterValueReference => if counter.id < values.len() {
            Ok(Evaluation { value: values[counter.id as int], saturated: false })
        } else {
            Err(EvalError::OutOfRange)
        },
        CounterKind::Expression => if counter.id >= expressions.len() {
            Err(EvalError::OutOfRange)
        } else if depth == 0 {
            Err(EvalError::CyclicExpression)
        } else {
            let e = expressions[counter.id as int];
            match eval_within(expressions, values, e.lhs, (depth - 1) as nat) {
                Err(err) => Err(err),
                Ok(l) => match eval_within(expressions, values, e.rhs, (depth - 1) as nat) {
                    Err(err) => Err(err),
                    Ok(r) => Ok(join(e.kind, l, r)),
                },
            }
        },
    }
}

/// What evaluating `counter` yields. A table of `n` entries that is free of
/// cycles never nests deeper than `n`, so that is the depth allowed.
pub open spec fn evaluate_spec(
    expressions: Seq<CounterExpression>,
    values: Seq<u64>,
    counter: Counter,
) -> Result<Evaluation, EvalError> {
    eval_within(expressions, values, counter, expressions.len())
}

/// The table entries that evaluating `counter` has to combine, when
/// expressions may nest at most `depth` deep: the entry that `counter` names
/// and those that its operands need.
pub open spec fn entries_under(
    expressions: Seq<CounterExpression>,
    counter: Counter,
    depth: nat,
) -> Set<int>
    decreases depth,
{
    if counter.kind == CounterKind::Expression && counter.id < expressions.len() && depth > 0 {
        let e = expressions[counter.id as int];
        entries_under(expressions, e.lhs, (depth - 1) as nat).union(
            entries_under(expressions, e.rhs, (depth - 1) as nat),
        ).insert(counter.id as int)
    } else {
        Set::empty()
    }
}

/// What an evaluation found, and how many table entries it combined on the
/// way.
#[derive(Clone, Copy, Debug, PartialEq, Eq, Structural)]
pub struct EvaluationReport {
    pub evaluation: Evaluation,
    pub entries_combined: usize,
}

/// A result other than a cycle does not depend on the depth allowed, once
/// that depth suffices.
pub proof fn lemma_settled(
    expressions: Seq<CounterExpression>,
    values: Seq<u64>,
    counter: Counter,
    depth: nat,
    deeper: nat,
)
    requires
        depth <= deeper,
        eval_within(expressions, values, counter, depth) != Err::<Evaluation, EvalError>(
            EvalError::CyclicExpression,
        ),
    ensures
        eval_within(expressions, values, counter, deeper) == eval_within(
            expressions,
            values,
            counter,
            depth,
        ),
    decreases depth,
{
    if counter.kind == CounterKind::Expression && counter.id < expressions.len() {
        let e = expressions[counter.id as int];
        let below = (depth - 1) as nat;
        let l = eval_within(expressions, values, e.lhs, below);
        lemma_settled(expressions, values, e.lhs, below, (deeper - 1) as nat);
        if l is Ok {
            lemma_settled(expressions, values, e.rhs, below, (deeper - 1) as nat);
        }
    }
}

/// Where a counter has a value, the entries it needs do not depend on the
/// depth allowed either.
pub proof fn lemma_entries_settled(
    expressions: Seq<CounterExpression>,
    values: Seq<u64>,
    counter: Counter,
    depth: nat,
    deeper: nat,
)
    requires
        depth <= deeper,
        eval_within(expressions, values, counter, depth) is Ok,
    ensures
        entries_under(expressions, counter, deeper) == entries_under(expressions, counter, depth),
        entries_under(expressions, counter, depth).finite(),
    decreases depth,
{
    if counter.kind == CounterKind::Expression && counter.id < expressions.len() {
        let e = expressions[counter.id as int];
        let below = (depth - 1) as nat;
        lemma_entries_settled(expressions, values, e.lhs, below, (deeper - 1) as nat);
        lemma_entries_settled(expressions, values, e.rhs, below, (deeper - 1) as nat);
    }
}

/// Where the evaluation of one table entry stands during a call.
#[derive(Clone, Copy)]
enum Slot {
    Unvisited,
    Visiting,
    Done(Evaluation),
}

spec fn is_kind(slot: Slot, kind: int) -> bool {
    match slot {
        Slot::Unvisited => kind == 0,
        Slot::Visiting => kind == 1,
        Slot::Done(_) => kind == 2,
    }
}

/// How many slots of `memo` are of the given kind.
spec fn tally(memo: Seq<Slot>, kind: int) -> nat
    decreases memo.len(),
{
    if memo.len() == 0 {
        0
    } else {
        tally(memo.drop_last(), kind) + if is_kind(memo.last(), kind) {
            1nat
        } else {
            0nat
        }
    }
}

proof fn lemma_tally_update(memo: Seq<Slot>, at: int, slot: Slot, kind: int)
    requires
        0 <= at < memo.len(),
    ensures
        tally(memo.update(at, slot), kind) + (if is_kind(memo[at], kind) {
            1nat
        } else {
            0nat
        }) == tally(memo, kind) + (if is_kind(slot, kind) {
            1nat
        } else {
            0nat
        }),
    decreases memo.len(),
{
    let changed = memo.update(at, slot);
    if at == memo.len() - 1 {
        assert(changed.drop_last() =~= memo.drop_last());
    } else {
        assert(changed.drop_last() =~= memo.drop_last().update(at, slot));
        lemma_tally_update(memo.drop_last(), at, slot, kind);
    }
}

proof fn lemma_tally_total(memo: Seq<Slot>)
    ensures
        tally(memo, 0) + tally(memo, 1) + tally(memo, 2) == memo.len(),
    decreases memo.len(),
{
    if memo.len() > 0 {
        lemma_tally_total(memo.drop_last());
    }
}

proof fn lemma_tally_none(memo: Seq<Slot>, kind: int)
    requires
        forall|i: int| 0 <= i < memo.len() ==> !is_kind(#[trigger] memo[i], kind),
    ensures
        tally(memo, kind) == 0,
    decreases memo.len(),
{
    if memo.len() > 0 {
        lemma_tally_none(memo.drop_last(), kind);
    }
}

/// The entries that are finished.
spec fn done_set(memo: Seq<Slot>) -> Set<int> {
    Set::new(|i: int| 0 <= i < memo.len() && memo[i] is Done)
}

proof fn lemma_done_count(memo: Seq<Slot>)
    ensures
        done_set(memo).finite(),
        done_set(memo).len() == tally(memo, 2),
    decreases memo.len(),
{
    if memo.len() == 0 {
        assert(done_set(memo) =~= Set::<int>::empty());
    } else {
        lemma_done_count(memo.drop_last());
        if memo.last() is Done {
            assert(done_set(memo) =~= done_set(memo.drop_last()).insert(memo.len() - 1));
        } else {
            assert(done_set(memo) =~= done_set(memo.drop_last()));
        }
    }
}

/// Every finished slot holds the value of its entry, at a depth that the
/// finished entries alone account for, and the entries it needs are
/// finished too.
#[verifier::opaque]
spec fn memo_ok(expressions: Seq<CounterExpression>, values: Seq<u64>, memo: Seq<Slot>) -> bool {
    forall|id: u32|
        id < memo.len() ==> (#[trigger] memo[id as int] matches Slot::Done(e) ==> eval_within(
            expressions,
            values,
            entry(id),
            tally(memo, 2),
        ) == Ok::<Evaluation, EvalError>(e) && entries_under(
            expressions,
            entry(id),
            tally(memo, 2),
        ).subset_of(done_set(memo)))
}

/// `after` is `before` with some unvisited slots finished.
#[verifier::opaque]
spec fn grows(before: Seq<Slot>, after: Seq<Slot>) -> bool {
    &&& after.len() == before.len()
    &&& tally(after, 1) == tally(before, 1)
    &&& tally(after, 2) >= tally(before, 2)
    &&& tally(after, 0) <= tally(before, 0)
    &&& forall|i: int|
        0 <= i < before.len() ==> (#[trigger] after[i] is Visiting <==> before[i] is Visiting)
}

/// Every entry that is being visited is a cycle at depth `depth`.
#[verifier::opaque]
spec fn path_cyclic(
    expressions: Seq<CounterExpression>,
    values: Seq<u64>,
    memo: Seq<Slot>,
    depth: nat,
) -> bool {
    forall|id: u32|
        id < memo.len() && (#[trigger] memo[id as int]) is Visiting ==> eval_within(
            expressions,
            values,
            entry(id),
            depth,
        ) == Err::<Evaluation, EvalError>(EvalError::CyclicExpression)
}

/// `counter` is a cycle at every depth at which the entries being visited are.
#[verifier::opaque]
spec fn cyclic_with_path(
    expressions: Seq<CounterExpression>,
    values: Seq<u64>,
    memo: Seq<Slot>,
    counter: Counter,
) -> bool {
    forall|depth: nat| #[trigger]
        path_cyclic(expressions, values, memo, depth) ==> eval_within(
            expressions,
            values,
            counter,
            depth,
        ) == Err::<Evaluation, EvalError>(EvalError::CyclicExpression)
}

proof fn lemma_path_cyclic_below(
    expressions: Seq<CounterExpression>,
    values: Seq<u64>,
    memo: Seq<Slot>,
    depth: nat,
    below: nat,
)
    requires
        below <= depth,
        path_cyclic(expressions, values, memo, depth),
    ensures
        path_cyclic(expressions, values, memo, below),
{
    reveal(path_cyclic);
    assert forall|id: u32| id < memo.len() && (#[trigger] memo[id as int]) is Visiting implies eval_within(
        expressions,
        values,
        entry(id),
        below,
    ) == Err::<Evaluation, EvalError>(EvalError::CyclicExpression) by {
        if eval_within(expressions, values, entry(id), below) != Err::<Evaluation, EvalError>(
            EvalError::CyclicExpression,
        ) {
            lemma_settled(expressions, values, entry(id), below, depth);
        }
    }
}

/// Marking one more entry as visited keeps the path a cycle, if that entry
/// is one.
proof fn lemma_path_cyclic_marked(
    expressions: Seq<CounterExpression>,
    values: Seq<u64>,
    memo: Seq<Slot>,
    id: u32,
    depth: nat,
)
    requires
        id < memo.len(),
        path_cyclic(expressions, values, memo, depth),
        eval_within(expressions, values, entry(id), depth) == Err::<Evaluation, EvalError>(
            EvalError::CyclicExpression,
        ),
    ensures
        path_cyclic(expressions, values, memo.update(id as int, Slot::Visiting), depth),
{
    reveal(path_cyclic);
    let marked = memo.update(id as int, Slot::Visiting);
    assert forall|j: u32| j < marked.len() && (#[trigger] marked[j as int]) is Visiting implies eval_within(
        expressions,
        values,
        entry(j),
        depth,
    ) == Err::<Evaluation, EvalError>(EvalError::CyclicExpression) by {
        if j != id {
            assert(memo[j as int] is Visiting);
        }
    }
}

/// The path is the same after some unvisited slots were finished.
proof fn lemma_path_cyclic_grown(
    expressions: Seq<CounterExpression>,
    values: Seq<u64>,
    before: Seq<Slot>,
    after: Seq<Slot>,
    depth: nat,
)
    requires
        grows(before, after),
        path_cyclic(expressions, values, before, depth),
    ensures
        path_cyclic(expressions, values, after, depth),
{
    reveal(path_cyclic);
    reveal(grows);
    assert forall|j: u32| j < after.len() && (#[trigger] after[j as int]) is Visiting implies eval_within(
        expressions,
        values,
        entry(j),
        depth,
    ) == Err::<Evaluation, EvalError>(EvalError::CyclicExpression) by {
        assert(before[j as int] is Visiting);
    }
}

/// An entry whose operand runs into the path being visited, or into the
/// entry itself, is a cycle at every depth at which that path is. The
/// operand is the left one, or the right one once the left one has a value.
proof fn lemma_cycle_closes(
    expressions: Seq<CounterExpression>,
    values: Seq<u64>,
    memo: Seq<Slot>,
    id: u32,
    via_rhs: bool,
    lhs_depth: nat,
    depth: nat,
)
    requires
        id < expressions.len(),
        memo.len() == expressions.len(),
        !via_rhs ==> cyclic_with_path(
            expressions,
            values,
            memo.update(id as int, Slot::Visiting),
            expressions[id as int].lhs,
        ),
        via_rhs ==> eval_within(expressions, values, expressions[id as int].lhs, lhs_depth) is Ok
            && cyclic_with_path(
            expressions,
            values,
            memo.update(id as int, Slot::Visiting),
            expressions[id as int].rhs,
        ),
        path_cyclic(expressions, values, memo, depth),
    ensures
        eval_within(expressions, values, entry(id), depth) == Err::<Evaluation, EvalError>(
            EvalError::CyclicExpression,
        ),
    decreases depth,
{
    if depth > 0 {
        let below = (depth - 1) as nat;
        let marked = memo.update(id as int, Slot::Visiting);
        let e = expressions[id as int];
        lemma_path_cyclic_below(expressions, values, memo, depth, below);
        lemma_cycle_closes(expressions, values, memo, id, via_rhs, lhs_depth, below);
        lemma_path_cyclic_marked(expressions, values, memo, id, below);
        reveal(cyclic_with_path);
        if via_rhs {
            let l = eval_within(expressions, values, e.lhs, below);
            if l != Err::<Evaluation, EvalError>(EvalError::CyclicExpression) {
                if below <= lhs_depth {
                    lemma_settled(expressions, values, e.lhs, below, lhs_depth);
                } else {
                    lemma_settled(expressions, values, e.lhs, lhs_depth, below);
                }
            }
        }
    }
}

proof fn lemma_done_slot(
    expressions: Seq<CounterExpression>,
    values: Seq<u64>,
    memo: Seq<Slot>,
    id: u32,
)
    requires
        memo_ok(expressions, values, memo),
        id < memo.len(),
        memo[id as int] is Done,
    ensures
        eval_within(expressions, values, entry(id), tally(memo, 2)) == Ok::<Evaluation, EvalError>(
            memo[id as int]->Done_0,
        ),
        done_set(memo) == done_set(memo).union(
            entries_under(expressions, entry(id), tally(memo, 2)),
        ),
{
    reveal(memo_ok);
    assert(done_set(memo) =~= done_set(memo).union(
        entries_under(expressions, entry(id), tally(memo, 2)),
    ));
}

proof fn lemma_visiting_slot(
    expressions: Seq<CounterExpression>,
    values: Seq<u64>,
    memo: Seq<Slot>,
    id: u32,
)
    requires
        id < memo.len(),
        memo[id as int] is Visiting,
    ensures
        cyclic_with_path(expressions, values, memo, entry(id)),
{
    reveal(path_cyclic);
    reveal(cyclic_with_path);
}

proof fn lemma_enter(
    expressions: Seq<CounterExpression>,
    values: Seq<u64>,
    memo: Seq<Slot>,
    id: u32,
)
    requires
        memo_ok(expressions, values, memo),
        id < memo.len(),
        memo[id as int] is Unvisited,
    ensures
        memo_ok(expressions, values, memo.update(id as int, Slot::Visiting)),
        tally(memo.update(id as int, Slot::Visiting), 0) + 1 == tally(memo, 0),
        tally(memo.update(id as int, Slot::Visiting), 1) == tally(memo, 1) + 1,
        tally(memo.update(id as int, Slot::Visiting), 2) == tally(memo, 2),
        tally(memo, 1) + 1 + tally(memo, 2) <= memo.len(),
        done_set(memo.update(id as int, Slot::Visiting)) == done_set(memo),
{
    reveal(memo_ok);
    let marked = memo.update(id as int, Slot::Visiting);
    assert(done_set(marked) =~= done_set(memo));
    lemma_tally_update(memo, id as int, Slot::Visiting, 0);
    lemma_tally_update(memo, id as int, Slot::Visiting, 1);
    lemma_tally_update(memo, id as int, Slot::Visiting, 2);
    lemma_tally_total(marked);
    assert forall|j: u32| j < marked.len() implies (#[trigger] marked[j as int] matches Slot::Done(
        v,
    ) ==> eval_within(expressions, values, entry(j), tally(marked, 2)) == Ok::<
        Evaluation,
        EvalError,
    >(v) && entries_under(expressions, entry(j), tally(marked, 2)).subset_of(
        done_set(marked),
    )) by {
        if j != id {
            assert(marked[j as int] == memo[j as int]);
        }
    }
}

/// The left operand fails on an index: so does the entry.
proof fn lemma_fail_left(
    expressions: Seq<CounterExpression>,
    values: Seq<u64>,
    id: u32,
    visiting: nat,
)
    requires
        id < expressions.len(),
        visiting + 1 <= expressions.len(),
        eval_within(
            expressions,
            values,
            expressions[id as int].lhs,
            (expressions.len() - (visiting + 1)) as nat,
        ) == Err::<Evaluation, EvalError>(EvalError::OutOfRange),
    ensures
        eval_within(expressions, values, entry(id), (expressions.len() - visiting) as nat) == Err::<
            Evaluation,
            EvalError,
        >(EvalError::OutOfRange),
{
}

/// The left operand has a value and the right one fails on an index: so does
/// the entry.
proof fn lemma_fail_right(
    expressions: Seq<CounterExpression>,
    values: Seq<u64>,
    id: u32,
    visiting: nat,
    lhs_depth: nat,
)
    requires
        id < expressions.len(),
        visiting + 1 + lhs_depth <= expressions.len(),
        eval_within(expressions, values, expressions[id as int].lhs, lhs_depth) is Ok,
        eval_within(
            expressions,
            values,
            expressions[id as int].rhs,
            (expressions.len() - (visiting + 1)) as nat,
        ) == Err::<Evaluation, EvalError>(EvalError::OutOfRange),
    ensures
        eval_within(expressions, values, entry(id), (expressions.len() - visiting) as nat) == Err::<
            Evaluation,
            EvalError,
        >(EvalError::OutOfRange),
{
    lemma_settled(
        expressions,
        values,
        expressions[id as int].lhs,
        lhs_depth,
        (expressions.len() - (visiting + 1)) as nat,
    );
}

proof fn lemma_cycle_left(
    expressions: Seq<CounterExpression>,
    values: Seq<u64>,
    memo: Seq<Slot>,
    id: u32,
)
    requires
        id < expressions.len(),
        memo.len() == expressions.len(),
        cyclic_with_path(
            expressions,
            values,
            memo.update(id as int, Slot::Visiting),
            expressions[id as int].lhs,
        ),
    ensures
        cyclic_with_path(expressions, values, memo, entry(id)),
{
    assert forall|depth: nat| #[trigger]
        path_cyclic(expressions, values, memo, depth) implies eval_within(
        expressions,
        values,
        entry(id),
        depth,
    ) == Err::<Evaluation, EvalError>(EvalError::CyclicExpression) by {
        lemma_cycle_closes(expressions, values, memo, id, false, 0, depth);
    }
    reveal(cyclic_with_path);
}

proof fn lemma_cycle_right(
    expressions: Seq<CounterExpression>,
    values: Seq<u64>,
    memo: Seq<Slot>,
    grown: Seq<Slot>,
    id: u32,
    lhs_depth: nat,
)
    requires
        id < expressions.len(),
        memo.len() == expressions.len(),
        grows(memo.update(id as int, Slot::Visiting), grown),
        eval_within(expressions, values, expressions[id as int].lhs, lhs_depth) is Ok,
        cyclic_with_path(expressions, values, grown, expressions[id as int].rhs),
    ensures
        cyclic_with_path(expressions, values, memo, entry(id)),
{
    let marked = memo.update(id as int, Slot::Visiting);
    let rhs = expressions[id as int].rhs;
    assert(cyclic_with_path(expressions, values, marked, rhs)) by {
        assert forall|depth: nat| #[trigger]
            path_cyclic(expressions, values, marked, depth) implies eval_within(
            expressions,
            values,
            rhs,
            depth,
        ) == Err::<Evaluation, EvalError>(EvalError::CyclicExpression) by {
            lemma_path_cyclic_grown(expressions, values, marked, grown, depth);
            reveal(cyclic_with_path);
        }
        reveal(cyclic_with_path);
    }
    assert forall|depth: nat| #[trigger]
        path_cyclic(expressions, values, memo, depth) implies eval_within(
        expressions,
        values,
        entry(id),
        depth,
    ) == Err::<Evaluation, EvalError>(EvalError::CyclicExpression) by {
        lemma_cycle_closes(expressions, values, memo, id, true, lhs_depth, depth);
    }
    reveal(cyclic_with_path);
}

/// Both operands have a value: the entry is finished with their join.
proof fn lemma_finish(
    expressions: Seq<CounterExpression>,
    values: Seq<u64>,
    memo: Seq<Slot>,
    after_lhs: Seq<Slot>,
    after_rhs: Seq<Slot>,
    id: u32,
    l: Evaluation,
    r: Evaluation,
)
    requires
        id < expressions.len(),
        memo.len() == expressions.len(),
        memo[id as int] is Unvisited,
        grows(memo.update(id as int, Slot::Visiting), after_lhs),
        grows(after_lhs, after_rhs),
        memo_ok(expressions, values, after_rhs),
        eval_within(expressions, values, expressions[id as int].lhs, tally(after_lhs, 2)) == Ok::<
            Evaluation,
            EvalError,
        >(l),
        eval_within(expressions, values, expressions[id as int].rhs, tally(after_rhs, 2)) == Ok::<
            Evaluation,
            EvalError,
        >(r),
        done_set(after_lhs) == done_set(memo).union(
            entries_under(expressions, expressions[id as int].lhs, tally(after_lhs, 2)),
        ),
        done_set(after_rhs) == done_set(after_lhs).union(
            entries_under(expressions, expressions[id as int].rhs, tally(after_rhs, 2)),
        ),
    ensures
        ({
            let done = join(expressions[id as int].kind, l, r);
            let last = after_rhs.update(id as int, Slot::Done(done));
            &&& memo_ok(expressions, values, last)
            &&& grows(memo, last)
            &&& eval_within(expressions, values, entry(id), tally(last, 2)) == Ok::<
                Evaluation,
                EvalError,
            >(done)
            &&& tally(last, 2) == tally(after_rhs, 2) + 1
            &&& done_set(last) == done_set(memo).union(
                entries_under(expressions, entry(id), tally(last, 2)),
            )
        }),
{
    reveal(grows);
    let marked = memo.update(id as int, Slot::Visiting);
    let done = join(expressions[id as int].kind, l, r);
    let last = after_rhs.update(id as int, Slot::Done(done));
    let before = tally(after_rhs, 2);
    assert(marked[id as int] is Visiting);
    assert(after_lhs[id as int] is Visiting);
    assert(after_rhs[id as int] is Visiting);
    lemma_tally_update(memo, id as int, Slot::Visiting, 0);
    lemma_tally_update(memo, id as int, Slot::Visiting, 1);
    lemma_tally_update(memo, id as int, Slot::Visiting, 2);
    lemma_tally_update(after_rhs, id as int, Slot::Done(done), 0);
    lemma_tally_update(after_rhs, id as int, Slot::Done(done), 1);
    lemma_tally_update(after_rhs, id as int, Slot::Done(done), 2);
    assert(tally(last, 2) == before + 1);
    lemma_settled(expressions, values, expressions[id as int].lhs, tally(after_lhs, 2), before);
    assert(eval_within(expressions, values, entry(id), before + 1) == Ok::<Evaluation, EvalError>(
        done,
    ));
    let lhs = expressions[id as int].lhs;
    let rhs = expressions[id as int].rhs;
    lemma_entries_settled(expressions, values, lhs, tally(after_lhs, 2), before);
    assert(done_set(last) =~= done_set(after_rhs).insert(id as int));
    assert(entries_under(expressions, entry(id), before + 1) == entries_under(
        expressions,
        lhs,
        before,
    ).union(entries_under(expressions, rhs, before)).insert(id as int));
    assert(done_set(last) =~= done_set(memo).union(
        entries_under(expressions, entry(id), tally(last, 2)),
    ));
    assert(memo_ok(expressions, values, last)) by {
        reveal(memo_ok);
        assert forall|j: u32| j < last.len() implies (#[trigger] last[j as int] matches Slot::Done(
            v,
        ) ==> eval_within(expressions, values, entry(j), tally(last, 2)) == Ok::<
            Evaluation,
            EvalError,
        >(v) && entries_under(expressions, entry(j), tally(last, 2)).subset_of(
            done_set(last),
        )) by {
            if j != id {
                if after_rhs[j as int] matches Slot::Done(v) {
                    lemma_settled(expressions, values, entry(j), before, before + 1);
                    lemma_entries_settled(expressions, values, entry(j), before, before + 1);
                }
            }
        }
    }
    assert forall|i: int| 0 <= i < memo.len() implies (#[trigger] last[i] is Visiting
        <==> memo[i] is Visiting) by {
        assert(after_rhs[i] is Visiting <==> after_lhs[i] is Visiting);
        assert(after_lhs[i] is Visiting <==> marked[i] is Visiting);
    }
}

/// Applies one operation, clamping the result to the range of a count.
fn apply(kind: ExprKind, lhs: Evaluation, rhs: Evaluation) -> (joined: Evaluation)
    ensures
        joined == join(kind, lhs, rhs),
{
    match kind {
        ExprKind::Subtract => {
            if lhs.value < rhs.value {
                Evaluation { value: 0, saturated: true }
            } else {
                Evaluation {
                    value: lhs.value - rhs.value,
                    saturated: lhs.saturated || rhs.saturated,
                }
            }
        },
        ExprKind::Add => {
            if rhs.value > u64::MAX - lhs.value {
                Evaluation { value: u64::MAX, saturated: true }
            } else {
                Evaluation {
                    value: lhs.value + rhs.value,
                    saturated: lhs.saturated || rhs.saturated,
                }
            }
        },
    }
}

/// Resolves `counter`, finishing in `memo` every entry it had to combine.
fn resolve(
    expressions: &Vec<CounterExpression>,
    values: &Vec<u64>,
    counter: Counter,
    memo: &mut Vec<Slot>,
    combined: &mut usize,
) -> (res: Result<Evaluation, EvalError>)
    requires
        old(memo)@.len() == expressions@.len(),
        memo_ok(expressions@, values@, old(memo)@),
        *old(combined) == tally(old(memo)@, 2),
    ensures
        final(memo)@.len() == expressions@.len(),
        match res {
            Ok(e) => {
                &&& memo_ok(expressions@, values@, final(memo)@)
                &&& grows(old(memo)@, final(memo)@)
                &&& eval_within(expressions@, values@, counter, tally(final(memo)@, 2)) == Ok::<
                    Evaluation,
                    EvalError,
                >(e)
                &&& *final(combined) == tally(final(memo)@, 2)
                &&& done_set(final(memo)@) == done_set(old(memo)@).union(
                    entries_under(expressions@, counter, tally(final(memo)@, 2)),
                )
            },
            Err(EvalError::OutOfRange) => tally(old(memo)@, 1) <= expressions@.len()
                && eval_within(
                expressions@,
                values@,
                counter,
                (expressions@.len() - tally(old(memo)@, 1)) as nat,
            ) == Err::<Evaluation, EvalError>(EvalError::OutOfRange),
            Err(EvalError::CyclicExpression) => cyclic_with_path(
                expressions@,
                values@,
                old(memo)@,
                counter,
            ),
        },
    decreases tally(old(memo)@, 0),
{
    let ghost xs = expressions@;
    let ghost vs = values@;
    let ghost m0 = memo@;
    proof {
        lemma_tally_total(m0);
        assert(grows(m0, m0)) by {
            reveal(grows);
        }
        if counter.kind != CounterKind::Expression {
            assert(done_set(m0) =~= done_set(m0).union(
                entries_under(xs, counter, tally(m0, 2)),
            ));
        }
    }
    match counter.kind {
        CounterKind::Zero => Ok(Evaluation { value: 0, saturated: false }),
        CounterKind::CounterValueReference => {
            let at: usize = counter.id as usize;
            if at < values.len() {
                Ok(Evaluation { value: values[at], saturated: false })
            } else {
                Err(EvalError::OutOfRange)
            }
        },
        CounterKind::Expression => {
            let at: usize = counter.id as usize;
            if at >= expressions.len() {
                return Err(EvalError::OutOfRange);
            }
            assert(counter == entry(counter.id));
            match memo[at] {
                Slot::Done(e) => {
                    proof {
                        lemma_done_slot(xs, vs, m0, counter.id);
                    }
                    Ok(e)
                },
                Slot::Visiting => {
                    proof {
                        lemma_visiting_slot(xs, vs, m0, counter.id);
                    }
                    Err(EvalError::CyclicExpression)
                },
                Slot::Unvisited => {
                    let e = expressions[at];
                    memo.set(at, Slot::Visiting);
                    let ghost m1 = memo@;
                    proof {
                        lemma_enter(xs, vs, m0, counter.id);
                    }
                    let l = match resolve(expressions, values, e.lhs, memo, combined) {
                        Ok(l) => l,
                        Err(EvalError::OutOfRange) => {
                            proof {
                                lemma_fail_left(xs, vs, counter.id, tally(m0, 1));
                            }
                            return Err(EvalError::OutOfRange);
                        },
                        Err(EvalError::CyclicExpression) => {
                            proof {
                                lemma_cycle_left(xs, vs, m0, counter.id);
                            }
                            return Err(EvalError::CyclicExpression);
                        },
                    };
                    let ghost m2 = memo@;
                    proof {
                        lemma_tally_total(m2);
                        reveal(grows);
                    }
                    let r = match resolve(expressions, values, e.rhs, memo, combined) {
                        Ok(r) => r,
                        Err(EvalError::OutOfRange) => {
                            proof {
                                lemma_fail_right(xs, vs, counter.id, tally(m0, 1), tally(m2, 2));
                            }
                            return Err(EvalError::OutOfRange);
                        },
                        Err(EvalError::CyclicExpression) => {
                            proof {
                                lemma_cycle_right(xs, vs, m0, m2, counter.id, tally(m2, 2));
                            }
                            return Err(EvalError::CyclicExpression);
                        },
                    };
                    let ghost m3 = memo@;
                    let done = apply(e.kind, l, r);
                    memo.set(at, Slot::Done(done));
                    proof {
                        lemma_finish(xs, vs, m0, m2, m3, counter.id, l, r);
                        lemma_tally_total(memo@);
                    }
                    *combined = *combined + 1;
                    Ok(done)
                },
            }
        },
    }
}

/// A memo for the table, with no entry visited yet.
fn fresh_memo(expressions: &Vec<CounterExpression>, values: &Vec<u64>) -> (memo: Vec<Slot>)
    ensures
        memo@.len() == expressions@.len(),
        memo_ok(expressions@, values@, memo@),
        forall|i: int| 0 <= i < memo@.len() ==> !(#[trigger] memo@[i] is Visiting),
        tally(memo@, 2) == 0,
        done_set(memo@) == Set::<int>::empty(),
{
    let mut memo: Vec<Slot> = Vec::new();
    let len: usize = expressions.len();
    let mut i: usize = 0;
    while i < len
        invariant
            i <= len,
            memo@.len() == i,
            forall|j: int| 0 <= j < memo@.len() ==> #[trigger] memo@[j] is Unvisited,
        decreases len - i,
    {
        memo.push(Slot::Unvisited);
        i += 1;
    }
    proof {
        reveal(memo_ok);
        lemma_tally_none(memo@, 2);
        assert(done_set(memo@) =~= Set::<int>::empty());
    }
    memo
}

/// With no entry being visited, what `resolve` found is what the table says.
proof fn lemma_resolved(
    expressions: Seq<CounterExpression>,
    values: Seq<u64>,
    before: Seq<Slot>,
    after: Seq<Slot>,
    counter: Counter,
    res: Result<Evaluation, EvalError>,
)
    requires
        before.len() == expressions.len(),
        after.len() == expressions.len(),
        forall|i: int| 0 <= i < before.len() ==> !(#[trigger] before[i] is Visiting),
        match res {
            Ok(e) => grows(before, after) && eval_within(
                expressions,
                values,
                counter,
                tally(after, 2),
            ) == Ok::<Evaluation, EvalError>(e),
            Err(EvalError::OutOfRange) => eval_within(
                expressions,
                values,
                counter,
                (expressions.len() - tally(before, 1)) as nat,
            ) == Err::<Evaluation, EvalError>(EvalError::OutOfRange),
            Err(EvalError::CyclicExpression) => cyclic_with_path(
                expressions,
                values,
                before,
                counter,
            ),
        },
    ensures
        res == evaluate_spec(expressions, values, counter),
        res is Ok ==> forall|i: int| 0 <= i < after.len() ==> !(#[trigger] after[i] is Visiting),
{
    match res {
        Ok(e) => {
            reveal(grows);
            lemma_tally_total(after);
            lemma_settled(expressions, values, counter, tally(after, 2), expressions.len());
        },
        Err(EvalError::OutOfRange) => {
            lemma_tally_none(before, 1);
        },
        Err(EvalError::CyclicExpression) => {
            reveal(path_cyclic);
            reveal(cyclic_with_path);
            assert(path_cyclic(expressions, values, before, expressions.len()));
        },
    }
}

/// Evaluates `counter` against a function's expression table and the live
/// instrumentation values. The report says whether an operation was clamped,
/// and how many table entries were combined: each entry that the counter
/// rests on, once, however many expressions share it.
pub fn evaluate_reporting(
    expressions: &Vec<CounterExpression>,
    counter: Counter,
    instrumentation_values: &Vec<u64>,
) -> (res: Result<EvaluationReport, EvalError>)
    ensures
        match res {
            Ok(report) => {
                &&& evaluate_spec(expressions@, instrumentation_values@, counter) == Ok::<
                    Evaluation,
                    EvalError,
                >(report.evaluation)
                &&& report.entries_combined == entries_under(
                    expressions@,
                    counter,
                    expressions@.len(),
                ).len()
            },
            Err(err) => evaluate_spec(expressions@, instrumentation_values@, counter) == Err::<
                Evaluation,
                EvalError,
            >(err),
        },
{
    let mut memo = fresh_memo(expressions, instrumentation_values);
    let mut combined: usize = 0;
    let ghost before = memo@;
    let res = resolve(expressions, instrumentation_values, counter, &mut memo, &mut combined);
    proof {
        lemma_resolved(expressions@, instrumentation_values@, before, memo@, counter, res);
    }
    match res {
        Ok(evaluation) => {
            proof {
                lemma_tally_total(memo@);
                lemma_done_count(memo@);
                lemma_entries_settled(
                    expressions@,
                    instrumentation_values@,
                    counter,
                    tally(memo@, 2),
                    expressions@.len(),
                );
                assert(done_set(memo@) =~= entries_under(expressions@, counter, tally(memo@, 2)));
            }
            Ok(EvaluationReport { evaluation, entries_combined: combined })
        },
        Err(err) => Err(err),
    }
}

/// Evaluates `counter` into a hit count.
pub fn evaluate(
    expressions: &Vec<CounterExpression>,
    counter: Counter,
    instrumentation_values: &Vec<u64>,
) -> (res: Result<u64, EvalError>)
    ensures
        res == match evaluate_spec(expressions@, instrumentation_values@, counter) {
            Ok(e) => Ok::<u64, EvalError>(e.value),
            Err(err) => Err::<u64, EvalError>(err),
        },
{
    match evaluate_reporting(expressions, counter, instrumentation_values) {
        Ok(report) => Ok(report.evaluation.value),
        Err(err) => Err(err),
    }
}

/// The counters of a sequence of regions, in order.
pub open spec fn counters_of(regions: Seq<RegionView>) -> Seq<Counter> {
    Seq::new(regions.len(), |k: int| regions[k].counter)
}

/// The hit counts of `counters`, in order; or the error of the first of them
/// that cannot be evaluated.
pub open spec fn region_counts(
    expressions: Seq<CounterExpression>,
    values: Seq<u64>,
    counters: Seq<Counter>,
) -> Result<Seq<Evaluation>, EvalError>
    decreases counters.len(),
{
    if counters.len() == 0 {
        Ok(Seq::empty())
    } else {
        match region_counts(expressions, values, counters.drop_last()) {
            Err(err) => Err(err),
            Ok(counts) => match evaluate_spec(expressions, values, counters.last()) {
                Err(err) => Err(err),
                Ok(count) => Ok(counts.push(count)),
            },
        }
    }
}

/// The table entries that evaluating all of `counters` has to combine.
pub open spec fn entries_under_all(
    expressions: Seq<CounterExpression>,
    counters: Seq<Counter>,
    depth: nat,
) -> Set<int>
    decreases counters.len(),
{
    if counters.len() == 0 {
        Set::empty()
    } else {
        entries_under_all(expressions, counters.drop_last(), depth).union(
            entries_under(expressions, counters.last(), depth),
        )
    }
}

/// The hit counts of the regions of a function, in the order of the
/// regions, and how many table entries were combined for all of them.
pub struct RegionCounts {
    pub counts: Vec<Evaluation>,
    pub entries_combined: usize,
}

/// Evaluates the counter of every region, in order. Entries that several
/// regions share are combined once for all of them. The first region that
/// cannot be evaluated ends the call with its error.
pub fn evaluate_regions(
    expressions: &Vec<CounterExpression>,
    regions: &Vec<CounterRegion>,
    instrumentation_values: &Vec<u64>,
) -> (res: Result<RegionCounts, EvalError>)
    ensures
        match res {
            Ok(found) => {
                &&& region_counts(
                    expressions@,
                    instrumentation_values@,
                    counters_of(crate::coverageinfo::region_views(regions@)),
                ) == Ok::<Seq<Evaluation>, EvalError>(found.counts@)
                &&& found.entries_combined == entries_under_all(
                    expressions@,
                    counters_of(crate::coverageinfo::region_views(regions@)),
                    expressions@.len(),
                ).len()
            },
            Err(err) => region_counts(
                expressions@,
                instrumentation_values@,
                counters_of(crate::coverageinfo::region_views(regions@)),
            ) == Err::<Seq<Evaluation>, EvalError>(err),
        },
{
    let ghost counters = counters_of(crate::coverageinfo::region_views(regions@));
    let mut memo = fresh_memo(expressions, instrumentation_values);
    let mut combined: usize = 0;
    let mut counts: Vec<Evaluation> = Vec::new();
    let len: usize = regions.len();
    let mut k: usize = 0;
    proof {
        assert(counters.take(0) =~= Seq::<Counter>::empty());
    }
    while k < len
        invariant
            k <= len,
            len == regions@.len(),
            counters == counters_of(crate::coverageinfo::region_views(regions@)),
            memo@.len() == expressions@.len(),
            memo_ok(expressions@, instrumentation_values@, memo@),
            forall|i: int| 0 <= i < memo@.len() ==> !(#[trigger] memo@[i] is Visiting),
            region_counts(expressions@, instrumentation_values@, counters.take(k as int)) == Ok::<
                Seq<Evaluation>,
                EvalError,
            >(counts@),
            combined == tally(memo@, 2),
            done_set(memo@) == entries_under_all(
                expressions@,
                counters.take(k as int),
                expressions@.len(),
            ),
        decreases len - k,
    {
        let counter = regions[k].counter;
        let ghost before = memo@;
        let res = resolve(expressions, instrumentation_values, counter, &mut memo, &mut combined);
        proof {
            lemma_resolved(expressions@, instrumentation_values@, before, memo@, counter, res);
            assert(counters.take(k + 1).drop_last() =~= counters.take(k as int));
            assert(counters.take(k + 1).last() == counter);
        }
        match res {
            Ok(e) => {
                proof {
                    lemma_tally_total(memo@);
                    lemma_entries_settled(
                        expressions@,
                        instrumentation_values@,
                        counter,
                        tally(memo@, 2),
                        expressions@.len(),
                    );
                }
                counts.push(e);
            },
            Err(err) => {
                proof {
                    lemma_region_counts_fail(
                        expressions@,
                        instrumentation_values@,
                        counters,
                        k + 1,
                    );
                }
                return Err(err);
            },
        }
        k += 1;
    }
    proof {
        assert(counters.take(len as int) =~= counters);
        lemma_done_count(memo@);
    }
    Ok(RegionCounts { counts, entries_combined: combined })
}

/// Once the first `upto` counters fail, so do all of them, in the same way.
proof fn lemma_region_counts_fail(
    expressions: Seq<CounterExpression>,
    values: Seq<u64>,
    counters: Seq<Counter>,
    upto: int,
)
    requires
        0 <= upto <= counters.len(),
        region_counts(expressions, values, counters.take(upto)) is Err,
    ensures
        region_counts(expressions, values, counters) == region_counts(
            expressions,
            values,
            counters.take(upto),
        ),
    decreases counters.len() - upto,
{
    if upto < counters.len() {
        assert(counters.take(upto + 1).drop_last() =~= counters.take(upto));
        lemma_region_counts_fail(expressions, values, counters, upto + 1);
    } else {
        assert(counters.take(upto) =~= counters);
    }
}

/// Whether evaluation goes from entry `from` on to entry `to`: `to` is the
/// left operand of `from`, or its right operand where the left one has a
/// value.
pub open spec fn leads_to(
    expressions: Seq<CounterExpression>,
    values: Seq<u64>,
    from: u32,
    to: u32,
) -> bool {
    &&& from < expressions.len()
    &&& {
        let e = expressions[from as int];
        ||| e.lhs == entry(to)
        ||| e.rhs == entry(to) && evaluate_spec(expressions, values, e.lhs) is Ok
    }
}

/// Whether evaluation can descend along `walk`: every entry of it is in the
/// table and leads to the next.
pub open spec fn descends(
    expressions: Seq<CounterExpression>,
    values: Seq<u64>,
    walk: Seq<u32>,
) -> bool {
    &&& forall|k: int| 0 <= k < walk.len() ==> #[trigger] walk[k] < expressions.len()
    &&& forall|k: int, next: int|
        0 <= k && next == k + 1 && next < walk.len() ==> #[trigger] leads_to(
            expressions,
            values,
            walk[k],
            walk[next],
        )
}

proof fn lemma_walk_cyclic(
    expressions: Seq<CounterExpression>,
    values: Seq<u64>,
    walk: Seq<u32>,
    first: int,
    again: int,
    k: int,
    depth: nat,
)
    requires
        descends(expressions, values, walk),
        0 <= first < again < walk.len(),
        walk[first] == walk[again],
        0 <= k <= again,
    ensures
        eval_within(expressions, values, entry(walk[k]), depth) == Err::<Evaluation, EvalError>(
            EvalError::CyclicExpression,
        ),
    decreases depth, k,
{
    assert(walk[k] < expressions.len());
    if depth > 0 {
        if k == again {
            lemma_walk_cyclic(expressions, values, walk, first, again, first, depth);
        } else {
            let below = (depth - 1) as nat;
            let e = expressions[walk[k] as int];
            assert(leads_to(expressions, values, walk[k], walk[k + 1]));
            lemma_walk_cyclic(expressions, values, walk, first, again, k + 1, below);
            if e.lhs != entry(walk[k + 1]) {
                let l = eval_within(expressions, values, e.lhs, below);
                if l != Err::<Evaluation, EvalError>(EvalError::CyclicExpression) {
                    if below <= expressions.len() {
                        lemma_settled(expressions, values, e.lhs, below, expressions.len());
                    } else {
                        lemma_settled(expressions, values, e.lhs, expressions.len(), below);
                    }
                }
            }
        }
    }
}

/// A table that leads evaluation from an entry back to that entry is
/// rejected: once evaluation can descend from `walk[0]` along `walk`, and
/// `walk` holds one entry twice, evaluating `walk[0]` fails with
/// `CyclicExpression`.
pub proof fn law_cycle_is_rejected(
    expressions: Seq<CounterExpression>,
    values: Seq<u64>,
    walk: Seq<u32>,
    first: int,
    again: int,
)
    requires
        descends(expressions, values, walk),
        0 <= first < again < walk.len(),
        walk[first] == walk[again],
    ensures
        evaluate_spec(expressions, values, entry(walk[0])) == Err::<Evaluation, EvalError>(
            EvalError::CyclicExpression,
        ),
{
    lemma_walk_cyclic(expressions, values, walk, first, again, 0, expressions.len());
}

/// The entries through which the failure of `counter` at `depth` comes
/// about, where that failure is a cycle: each is followed by the operand that
/// is a cycle one level further down.
spec fn blame(
    expressions: Seq<CounterExpression>,
    values: Seq<u64>,
    counter: Counter,
    depth: nat,
) -> Seq<u32>
    decreases depth,
{
    if eval_within(expressions, values, counter, depth) != Err::<Evaluation, EvalError>(
        EvalError::CyclicExpression,
    ) {
        Seq::empty()
    } else if depth == 0 {
        seq![counter.id]
    } else {
        let e = expressions[counter.id as int];
        let below = (depth - 1) as nat;
        let next = if eval_within(expressions, values, e.lhs, below) == Err::<
            Evaluation,
            EvalError,
        >(EvalError::CyclicExpression) {
            e.lhs
        } else {
            e.rhs
        };
        seq![counter.id] + blame(expressions, values, next, below)
    }
}

proof fn lemma_blame(
    expressions: Seq<CounterExpression>,
    values: Seq<u64>,
    counter: Counter,
    depth: nat,
)
    requires
        depth <= expressions.len(),
        eval_within(expressions, values, counter, depth) == Err::<Evaluation, EvalError>(
            EvalError::CyclicExpression,
        ),
    ensures
        blame(expressions, values, counter, depth).len() == depth + 1,
        counter == entry(blame(expressions, values, counter, depth)[0]),
        descends(expressions, values, blame(expressions, values, counter, depth)),
    decreases depth,
{
    let walk = blame(expressions, values, counter, depth);
    if depth > 0 {
        let e = expressions[counter.id as int];
        let below = (depth - 1) as nat;
        let l = eval_within(expressions, values, e.lhs, below);
        let next = if l == Err::<Evaluation, EvalError>(EvalError::CyclicExpression) {
            e.lhs
        } else {
            e.rhs
        };
        let rest = blame(expressions, values, next, below);
        lemma_blame(expressions, values, next, below);
        assert(walk =~= seq![counter.id] + rest);
        if next != e.lhs {
            lemma_settled(expressions, values, e.lhs, below, expressions.len());
        }
        assert forall|k: int| 0 <= k < walk.len() implies #[trigger] walk[k]
            < expressions.len() by {
            if k > 0 {
                assert(walk[k] == rest[k - 1]);
            }
        }
        assert forall|k: int, after: int|
            0 <= k && after == k + 1 && after < walk.len() implies #[trigger] leads_to(
            expressions,
            values,
            walk[k],
            walk[after],
        ) by {
            assert(walk[after] == rest[k]);
            if k > 0 {
                assert(walk[k] == rest[k - 1]);
                assert(leads_to(expressions, values, rest[k - 1], rest[k]));
            }
        }
    }
}

/// More entries than the table has cannot all be different.
proof fn lemma_repeat(walk: Seq<u32>, len: nat) -> (found: (int, int))
    requires
        walk.len() > len,
        forall|k: int| 0 <= k < walk.len() ==> #[trigger] walk[k] < len,
    ensures
        0 <= found.0 < found.1 < walk.len(),
        walk[found.0] == walk[found.1],
{
    let wide = Seq::new(walk.len(), |k: int| walk[k] as int);
    if wide.no_duplicates() {
        wide.unique_seq_to_set();
        vstd::set_lib::lemma_int_range(0, len as int);
        assert(wide.to_set().subset_of(vstd::set_lib::set_int_range(0, len as int))) by {
            assert forall|x: int| wide.to_set().contains(x) implies vstd::set_lib::set_int_range(
                0,
                len as int,
            ).contains(x) by {
                let at = choose|at: int| 0 <= at < wide.len() && wide[at] == x;
                assert(walk[at] < len);
            }
        }
        vstd::set_lib::lemma_len_subset(
            wide.to_set(),
            vstd::set_lib::set_int_range(0, len as int),
        );
    }
    let (i, j) = choose|i: int, j: int|
        0 <= i < wide.len() && 0 <= j < wide.len() && i != j && wide[i] == wide[j];
    if i < j {
        (i, j)
    } else {
        (j, i)
    }
}

/// `CyclicExpression` is the result only where the table does lead from an
/// entry back to it: evaluation can then descend from `counter` along a walk
/// that holds one entry twice. With `law_cycle_is_rejected`, that is the one
/// case in which a cycle is reported.
pub proof fn law_cyclic_only_for_cycles(
    expressions: Seq<CounterExpression>,
    values: Seq<u64>,
    counter: Counter,
) -> (found: (Seq<u32>, int, int))
    requires
        evaluate_spec(expressions, values, counter) == Err::<Evaluation, EvalError>(
            EvalError::CyclicExpression,
        ),
    ensures
        descends(expressions, values, found.0),
        found.0.len() > 0,
        counter == entry(found.0[0]),
        0 <= found.1 < found.2 < found.0.len(),
        found.0[found.1] == found.0[found.2],
{
    let walk = blame(expressions, values, counter, expressions.len());
    lemma_blame(expressions, values, counter, expressions.len());
    let (first, again) = lemma_repeat(walk, expressions.len());
    (walk, first, again)
}

/// No evaluation combines more entries than the table has.
pub proof fn law_entries_within_table(
    expressions: Seq<CounterExpression>,
    counter: Counter,
    depth: nat,
)
    ensures
        entries_under(expressions, counter, depth).finite(),
        entries_under(expressions, counter, depth).len() <= expressions.len(),
{
    let all = vstd::set_lib::set_int_range(0, expressions.len() as int);
    lemma_entries_in_table(expressions, counter, depth);
    vstd::set_lib::lemma_int_range(0, expressions.len() as int);
    vstd::set_lib::lemma_len_subset(entries_under(expressions, counter, depth), all);
}

proof fn lemma_entries_in_table(expressions: Seq<CounterExpression>, counter: Counter, depth: nat)
    ensures
        entries_under(expressions, counter, depth).subset_of(
            vstd::set_lib::set_int_range(0, expressions.len() as int),
        ),
    decreases depth,
{
    if counter.kind == CounterKind::Expression && counter.id < expressions.len() && depth > 0 {
        let e = expressions[counter.id as int];
        lemma_entries_in_table(expressions, e.lhs, (depth - 1) as nat);
        lemma_entries_in_table(expressions, e.rhs, (depth - 1) as nat);
    }
}

/// A subtraction never yields a count below zero: where an entry that
/// subtracts has a value, both operands have one, and the entry's value is
/// their difference, or 0 where the right operand is the larger one.
pub proof fn law_subtraction_clamps_at_zero(
    expressions: Seq<CounterExpression>,
    values: Seq<u64>,
    id: u32,
)
    requires
        id < expressions.len(),
        expressions[id as int].kind == ExprKind::Subtract,
        evaluate_spec(expressions, values, entry(id)) is Ok,
    ensures
        evaluate_spec(expressions, values, expressions[id as int].lhs) is Ok,
        evaluate_spec(expressions, values, expressions[id as int].rhs) is Ok,
        ({
            let l = evaluate_spec(expressions, values, expressions[id as int].lhs)->Ok_0.value;
            let r = evaluate_spec(expressions, values, expressions[id as int].rhs)->Ok_0.value;
            let e = evaluate_spec(expressions, values, entry(id))->Ok_0;
            &&& e.value == if l < r {
                0
            } else {
                l - r
            }
            &&& l < r ==> e.saturated
        }),
{
    let e = expressions[id as int];
    let below = (expressions.len() - 1) as nat;
    lemma_settled(expressions, values, e.lhs, below, expressions.len());
    lemma_settled(expressions, values, e.rhs, below, expressions.len());
}

/// Where all regions can be evaluated, each count is the value of that
/// region's counter, so regions that name the same counter have the same
/// count.
pub proof fn law_shared_counter_same_count(
    expressions: Seq<CounterExpression>,
    values: Seq<u64>,
    counters: Seq<Counter>,
    i: int,
    j: int,
)
    requires
        region_counts(expressions, values, counters) is Ok,
        0 <= i < counters.len(),
        0 <= j < counters.len(),
        counters[i] == counters[j],
    ensures
        region_counts(expressions, values, counters)->Ok_0.len() == counters.len(),
        evaluate_spec(expressions, values, counters[i]) == Ok::<Evaluation, EvalError>(
            region_counts(expressions, values, counters)->Ok_0[i],
        ),
        region_counts(expressions, values, counters)->Ok_0[i] == region_counts(
            expressions,
            values,
            counters,
        )->Ok_0[j],
{
    lemma_region_count(expressions, values, counters, i);
    lemma_region_count(expressions, values, counters, j);
}

proof fn lemma_region_count(
    expressions: Seq<CounterExpression>,
    values: Seq<u64>,
    counters: Seq<Counter>,
    k: int,
)
    requires
        region_counts(expressions, values, counters) is Ok,
        0 <= k < counters.len(),
    ensures
        region_counts(expressions, values, counters)->Ok_0.len() == counters.len(),
        evaluate_spec(expressions, values, counters[k]) == Ok::<Evaluation, EvalError>(
            region_counts(expressions, values, counters)->Ok_0[k],
        ),
    decreases counters.len(),
{
    let front = counters.drop_last();
    assert(region_counts(expressions, values, front) is Ok);
    if front.len() > 0 {
        lemma_region_count(expressions, values, front, if k < front.len() {
            k
        } else {
            0
        });
    } else {
        assert(region_counts(expressions, values, front) == Ok::<Seq<Evaluation>, EvalError>(
            Seq::empty(),
        ));
    }
}

} // verus!
