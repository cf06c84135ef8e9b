//! Incremental projection: from the basic blocks that changed since the
//! last session to the downstream identifiers they touch.
//!
//! The consumer supplies the lookups; the engine groups the changed blocks
//! by function, asks for the identifiers of each block, hands every
//! identifier on at most once, and stops as soon as the sink turns a batch
//! down.

use abi_stable::external_types::crossbeam_channel::RSender;
use abi_stable::std_types::RVec;
use vstd::prelude::*;
use crate::coverageinfo::copy_of;
use crate::dedup::SeenSet;
use crate::grouping::{group_by_function, GroupView};
use crate::sink::send_batch;
use crate::ids::{BasicBlock, Function, ProjectionId};

verus! {

/// The consumer's sequence of identifiers for a block broke off.
#[derive(Clone, Copy, Debug, PartialEq, Eq)]
pub struct BlockLookupFailed;

/// The consumer's answer to "which identifiers does this block touch?".
/// Nothing is assumed of an implementation: the engine works with whatever
/// comes back.
pub trait BlockLookup {
    /// The identifiers of `block_path`, in the consumer's order.
    fn lookup(&self, block_path: BasicBlock) -> (found: Result<
        Vec<ProjectionId>,
        BlockLookupFailed,
    >);
}

/// The consumer's answer to "who knows the blocks of this function?".
/// Nothing is assumed of an implementation.
pub trait ProjectorLookup {
    type Blocks: BlockLookup;

    /// The block lookup of `function`, or `None` where none is registered.
    fn lookup(&self, function: Function) -> (blocks: Option<Self::Blocks>);
}

/// What the consumer answered for one block.
pub ghost enum Answer {
    /// No block lookup is registered for the block's function.
    Unavailable,
    /// The block lookup failed.
    Failed,
    /// The identifiers of the block, in the consumer's order.
    Found(Seq<ProjectionId>),
}

/// What became of one changed block during a call.
pub ghost struct Visit {
    pub function: Function,
    pub block: BasicBlock,
    pub answer: Answer,
    /// `false` where a batch was sent for this block and the sink turned it
    /// down; `true` otherwise, also where there was nothing to send.
    pub accepted: bool,
}

/// The identifiers that the sink has taken once the blocks of `trace` have
/// been visited, in the order in which it took them: the new identifiers of
/// every block whose batch was accepted.
pub open spec fn delivered_after(trace: Seq<Visit>) -> Seq<ProjectionId>
    decreases trace.len(),
{
    if trace.len() == 0 {
        Seq::empty()
    } else {
        let before = delivered_after(trace.drop_last());
        match trace.last().answer {
            Answer::Found(ids) => if trace.last().accepted {
                before + crate::dedup::fresh(before.to_set(), ids)
            } else {
                before
            },
            _ => before,
        }
    }
}

/// The blocks of `trace` whose lookup failed, in the order visited.
pub open spec fn failed_after(trace: Seq<Visit>) -> Seq<(Function, BasicBlock)>
    decreases trace.len(),
{
    if trace.len() == 0 {
        Seq::empty()
    } else {
        let before = failed_after(trace.drop_last());
        if trace.last().answer is Failed {
            before.push((trace.last().function, trace.last().block))
        } else {
            before
        }
    }
}

/// The blocks of `trace`, in the order visited.
pub open spec fn places(trace: Seq<Visit>) -> Seq<(Function, BasicBlock)> {
    Seq::new(trace.len(), |k: int| (trace[k].function, trace[k].block))
}

/// The blocks of one group, each with the group's function.
pub open spec fn group_places(group: GroupView) -> Seq<(Function, BasicBlock)> {
    Seq::new(group.blocks.len(), |j: int| (group.function, group.blocks[j]))
}

/// The order in which the blocks of `groups` are visited: group by group.
pub open spec fn plan(groups: Seq<GroupView>) -> Seq<(Function, BasicBlock)>
    decreases groups.len(),
{
    if groups.len() == 0 {
        Seq::empty()
    } else {
        plan(groups.drop_last()) + group_places(groups.last())
    }
}

/// How far a call went: it visits the blocks in the planned order, goes on
/// while the sink accepts, and stops at the first batch that is turned down.
pub open spec fn follows(
    trace: Seq<Visit>,
    planned: Seq<(Function, BasicBlock)>,
    cancelled: bool,
) -> bool {
    &&& places(trace).is_prefix_of(planned)
    &&& forall|k: int| 0 <= k < trace.len() - 1 ==> (#[trigger] trace[k]).accepted
    &&& cancelled <==> trace.len() > 0 && !trace.last().accepted
    &&& !cancelled ==> trace.len() == planned.len()
}

/// Whether a function has a block lookup is asked once: all blocks of one
/// function are without a lookup, or none is.
pub open spec fn one_answer_per_function(trace: Seq<Visit>) -> bool {
    forall|i: int, j: int|
        0 <= i < trace.len() && 0 <= j < trace.len() && (#[trigger] trace[i]).function == (
        #[trigger] trace[j]).function ==> (trace[i].answer is Unavailable
            <==> trace[j].answer is Unavailable)
}

/// Whether `function` has a group before group `upto`.
spec fn in_earlier_group(groups: Seq<GroupView>, upto: int, function: Function) -> bool {
    exists|h: int| 0 <= h < upto && (#[trigger] groups[h]).function == function
}

/// What a projection call did.
pub struct ProjectionReport {
    /// The identifiers that the sink took, in the order sent.
    pub delivered: Vec<ProjectionId>,
    /// The blocks whose lookup failed; they contributed nothing.
    pub failed_blocks: Vec<(Function, BasicBlock)>,
    /// Whether the sink turned a batch down, which ended the call.
    pub cancelled: bool,
    /// What became of each block that was visited, in order.
    pub trace: Ghost<Seq<Visit>>,
}

proof fn lemma_concat_contains<T>(a: Seq<T>, b: Seq<T>, x: T)
    ensures
        (a + b).contains(x) <==> a.contains(x) || b.contains(x),
{
    if (a + b).contains(x) {
        let at = choose|at: int| 0 <= at < (a + b).len() && (a + b)[at] == x;
        if at < a.len() {
            assert(a[at] == x);
        } else {
            assert(b[at - a.len()] == x);
        }
    }
    if a.contains(x) {
        let at = choose|at: int| 0 <= at < a.len() && a[at] == x;
        assert((a + b)[at] == x);
    }
    if b.contains(x) {
        let at = choose|at: int| 0 <= at < b.len() && b[at] == x;
        assert((a + b)[at + a.len()] == x);
    }
}

/// Appending the new identifiers of a block keeps the sequence free of
/// repeats, and makes it hold exactly what was held or found.
proof fn lemma_deliver(before: Seq<ProjectionId>, ids: Seq<ProjectionId>)
    requires
        before.no_duplicates(),
    ensures
        (before + crate::dedup::fresh(before.to_set(), ids)).no_duplicates(),
        (before + crate::dedup::fresh(before.to_set(), ids)).to_set() == before.to_set().union(
            ids.to_set(),
        ),
{
    let new = crate::dedup::fresh(before.to_set(), ids);
    let all = before + new;
    crate::dedup::lemma_fresh(before.to_set(), ids);
    assert forall|i: int, j: int| 0 <= i < all.len() && 0 <= j < all.len() && i != j implies all[i]
        != all[j] by {
        if i < before.len() && j >= before.len() {
            assert(new.contains(new[j - before.len()]));
            assert(before.contains(before[i]));
        } else if j < before.len() && i >= before.len() {
            assert(new.contains(new[i - before.len()]));
            assert(before.contains(before[j]));
        }
    }
    assert forall|x: ProjectionId|
        all.to_set().contains(x) == before.to_set().union(ids.to_set()).contains(x) by {
        lemma_concat_contains(before, new, x);
    }
    assert(all.to_set() =~= before.to_set().union(ids.to_set()));
}

/// Every identifier is delivered at most once per call, however many blocks
/// it was found for.
pub proof fn law_delivered_at_most_once(trace: Seq<Visit>)
    ensures
        delivered_after(trace).no_duplicates(),
    decreases trace.len(),
{
    if trace.len() > 0 {
        law_delivered_at_most_once(trace.drop_last());
        if let Answer::Found(ids) = trace.last().answer {
            lemma_deliver(delivered_after(trace.drop_last()), ids);
        }
    }
}

/// What is delivered is exactly what was found for the blocks whose batch
/// the sink accepted.
pub proof fn law_delivered_is_what_was_found(trace: Seq<Visit>, id: ProjectionId)
    ensures
        delivered_after(trace).contains(id) <==> exists|k: int|
            0 <= k < trace.len() && (#[trigger] trace[k]).accepted && trace[k].answer is Found
                && trace[k].answer->Found_0.contains(id),
    decreases trace.len(),
{
    if trace.len() > 0 {
        let front = trace.drop_last();
        let before = delivered_after(front);
        law_delivered_is_what_was_found(front, id);
        law_delivered_at_most_once(front);
        let last = trace.last();
        if before.contains(id) {
            let k = choose|k: int|
                0 <= k < front.len() && (#[trigger] front[k]).accepted && front[k].answer is Found
                    && front[k].answer->Found_0.contains(id);
            assert(trace[k] == front[k]);
        }
        if let Answer::Found(ids) = last.answer {
            if last.accepted {
                lemma_deliver(before, ids);
                lemma_concat_contains(before, crate::dedup::fresh(before.to_set(), ids), id);
                crate::dedup::lemma_fresh(before.to_set(), ids);
                if ids.contains(id) {
                    assert(trace[trace.len() - 1].answer->Found_0.contains(id));
                }
            }
        }
        if exists|k: int|
            0 <= k < trace.len() && (#[trigger] trace[k]).accepted && trace[k].answer is Found
                && trace[k].answer->Found_0.contains(id) {
            let k = choose|k: int|
                0 <= k < trace.len() && (#[trigger] trace[k]).accepted && trace[k].answer is Found
                    && trace[k].answer->Found_0.contains(id);
            if k < front.len() {
                assert(front[k] == trace[k]);
            }
        }
    }
}

/// A block that has no lookup, or whose lookup failed, contributes nothing:
/// what is delivered is what would be delivered had the block not been
/// listed.
pub proof fn law_no_answer_contributes_nothing(trace: Seq<Visit>, k: int)
    requires
        0 <= k < trace.len(),
        !(trace[k].answer is Found),
    ensures
        delivered_after(trace) == delivered_after(trace.remove(k)),
    decreases trace.len(),
{
    if k == trace.len() - 1 {
        assert(trace.remove(k) =~= trace.drop_last());
    } else {
        assert(trace.remove(k).drop_last() =~= trace.drop_last().remove(k));
        assert(trace.remove(k).last() == trace.last());
        law_no_answer_contributes_nothing(trace.drop_last(), k);
    }
}

/// Once the sink has turned a batch down, no block is visited any more: the
/// block of that batch is the last of the call, and the call is cancelled.
pub proof fn law_nothing_follows_a_rejected_batch(
    trace: Seq<Visit>,
    planned: Seq<(Function, BasicBlock)>,
    cancelled: bool,
    k: int,
)
    requires
        follows(trace, planned, cancelled),
        0 <= k < trace.len(),
        !trace[k].accepted,
    ensures
        k == trace.len() - 1,
        cancelled,
{
}

/// Whether some group holds `block` for `function`.
spec fn some_group_holds(groups: Seq<GroupView>, function: Function, block: BasicBlock) -> bool {
    exists|g: int|
        0 <= g < groups.len() && (#[trigger] groups[g]).function == function
            && groups[g].blocks.contains(block)
}

proof fn lemma_plan_holds(groups: Seq<GroupView>, function: Function, block: BasicBlock)
    ensures
        plan(groups).contains((function, block)) <==> some_group_holds(groups, function, block),
    decreases groups.len(),
{
    if groups.len() > 0 {
        let front = groups.drop_last();
        let last = groups.last();
        let these = group_places(last);
        lemma_plan_holds(front, function, block);
        lemma_concat_contains(plan(front), these, (function, block));
        if these.contains((function, block)) {
            let at = choose|at: int| 0 <= at < these.len() && these[at] == (function, block);
            assert(last.blocks[at] == block);
            assert(groups[groups.len() - 1].blocks.contains(block));
        }
        if some_group_holds(front, function, block) {
            let g = choose|g: int|
                0 <= g < front.len() && (#[trigger] front[g]).function == function
                    && front[g].blocks.contains(block);
            assert(groups[g] == front[g]);
        }
        if some_group_holds(groups, function, block) {
            let g = choose|g: int|
                0 <= g < groups.len() && (#[trigger] groups[g]).function == function
                    && groups[g].blocks.contains(block);
            if g < front.len() {
                assert(front[g] == groups[g]);
            } else {
                let at = choose|at: int| 0 <= at < last.blocks.len() && last.blocks[at] == block;
                assert(these[at] == (function, block));
            }
        }
    }
}

/// The plan visits what was listed and nothing else: a block is planned for
/// a function exactly when it was listed for it. So a call that is not
/// cancelled gets to every listed block, whatever became of the others.
pub proof fn law_plan_is_what_was_listed(
    pairs: Seq<(Function, BasicBlock)>,
    function: Function,
    block: BasicBlock,
)
    ensures
        plan(crate::grouping::grouped(pairs)).contains((function, block)) <==> pairs.contains(
            (function, block),
        ),
{
    let groups = crate::grouping::grouped(pairs);
    let functions = crate::grouping::functions_of(pairs);
    lemma_plan_holds(groups, function, block);
    crate::grouping::law_grouping_keeps_pairs(pairs, function, block);
    if some_group_holds(groups, function, block) {
        let g = choose|g: int|
            0 <= g < groups.len() && (#[trigger] groups[g]).function == function
                && groups[g].blocks.contains(block);
        assert(functions[g] == function);
    }
    if functions.contains(function) && crate::grouping::blocks_of(pairs, function).contains(block) {
        let g = choose|g: int| 0 <= g < functions.len() && functions[g] == function;
        assert(groups[g].function == function);
        assert(groups[g].blocks.contains(block));
    }
}

/// The plan of the first groups is where the plan of all groups starts.
proof fn lemma_plan_prefix(groups: Seq<GroupView>, upto: int)
    requires
        0 <= upto <= groups.len(),
    ensures
        plan(groups.take(upto)).is_prefix_of(plan(groups)),
    decreases groups.len() - upto,
{
    if upto == groups.len() {
        assert(groups.take(upto) =~= groups);
    } else {
        lemma_plan_prefix(groups, upto + 1);
        assert(groups.take(upto + 1).drop_last() =~= groups.take(upto));
    }
}

/// A projection call between two blocks, while the sink accepts: what has
/// been seen, what has been delivered, and what became of every block so
/// far. A block that the consumer has no answer for is passed; the
/// identifiers found for a block are staged, and the staged batch is settled
/// once the sink has said whether it takes it.
pub struct ProjectionRun {
    seen: SeenSet,
    delivered: Vec<ProjectionId>,
    failed: Vec<(Function, BasicBlock)>,
    trace: Ghost<Seq<Visit>>,
}

impl ProjectionRun {
    #[verifier::type_invariant]
    spec fn inv(self) -> bool {
        &&& self.delivered@ == delivered_after(self.trace@)
        &&& self.failed@ == failed_after(self.trace@)
        &&& self.seen@ == self.delivered@.to_set()
        &&& forall|k: int| 0 <= k < self.trace@.len() ==> (#[trigger] self.trace@[k]).accepted
    }

    /// What became of each block so far, in order.
    pub closed spec fn trace(&self) -> Seq<Visit> {
        self.trace@
    }

    pub fn new() -> (run: Self)
        ensures
            run.trace() == Seq::<Visit>::empty(),
    {
        let seen = SeenSet::new();
        let delivered: Vec<ProjectionId> = Vec::new();
        assert(delivered@.to_set() =~= Set::<ProjectionId>::empty());
        ProjectionRun { seen, delivered, failed: Vec::new(), trace: Ghost(Seq::empty()) }
    }

    /// Passes a block that has no lookup, or whose lookup failed. It
    /// contributes nothing; a failed lookup is kept for the report.
    pub fn pass(self, function: Function, block: BasicBlock, lookup_failed: bool) -> (next: Self)
        ensures
            next.trace() == self.trace().push(
                Visit {
                    function,
                    block,
                    answer: if lookup_failed {
                        Answer::Failed
                    } else {
                        Answer::Unavailable
                    },
                    accepted: true,
                },
            ),
    {
        proof {
            use_type_invariant(&self);
        }
        let ghost visit = Visit {
            function,
            block,
            answer: if lookup_failed {
                Answer::Failed
            } else {
                Answer::Unavailable
            },
            accepted: true,
        };
        let ProjectionRun { seen, delivered, failed, trace } = self;
        let mut failed = failed;
        if lookup_failed {
            failed.push((function, block));
        }
        proof {
            assert(trace@.push(visit).drop_last() =~= trace@);
        }
        ProjectionRun { seen, delivered, failed, trace: Ghost(trace@.push(visit)) }
    }

    /// Stages the identifiers found for a block: those that were not
    /// delivered before make up the batch to send.
    pub fn stage(self, function: Function, block: BasicBlock, ids: &Vec<ProjectionId>) -> (staged:
        StagedBatch)
        ensures
            staged.before() == self.trace(),
            staged.function() == function,
            staged.block() == block,
            staged.ids() == ids@,
    {
        proof {
            use_type_invariant(&self);
        }
        let ProjectionRun { seen, delivered, failed, trace } = self;
        let mut seen = seen;
        let batch = seen.absorb(ids);
        StagedBatch { seen, delivered, failed, trace, function, block, ids: Ghost(ids@), batch }
    }

    /// Ends a call that got through all its blocks.
    pub fn finish(self) -> (report: ProjectionReport)
        ensures
            report.trace@ == self.trace(),
            !report.cancelled,
            report.delivered@ == delivered_after(report.trace@),
            report.failed_blocks@ == failed_after(report.trace@),
            forall|k: int| 0 <= k < report.trace@.len() ==> (#[trigger] report.trace@[k]).accepted,
    {
        proof {
            use_type_invariant(&self);
        }
        let ProjectionRun { seen, delivered, failed, trace } = self;
        ProjectionReport { delivered, failed_blocks: failed, cancelled: false, trace }
    }
}

/// A projection call that has a batch to send for a block, and waits to hear
/// whether the sink takes it.
pub struct StagedBatch {
    seen: SeenSet,
    delivered: Vec<ProjectionId>,
    failed: Vec<(Function, BasicBlock)>,
    trace: Ghost<Seq<Visit>>,
    function: Function,
    block: BasicBlock,
    ids: Ghost<Seq<ProjectionId>>,
    batch: Vec<ProjectionId>,
}

impl StagedBatch {
    #[verifier::type_invariant]
    spec fn inv(self) -> bool {
        &&& self.delivered@ == delivered_after(self.trace@)
        &&& self.failed@ == failed_after(self.trace@)
        &&& self.seen@ == self.delivered@.to_set().union(self.ids@.to_set())
        &&& self.batch@ == crate::dedup::fresh(self.delivered@.to_set(), self.ids@)
        &&& forall|k: int| 0 <= k < self.trace@.len() ==> (#[trigger] self.trace@[k]).accepted
    }

    /// What became of each block before the one that the batch is for.
    pub closed spec fn before(&self) -> Seq<Visit> {
        self.trace@
    }

    pub closed spec fn function(&self) -> Function {
        self.function
    }

    pub closed spec fn block(&self) -> BasicBlock {
        self.block
    }

    /// The identifiers that were found for the block.
    pub closed spec fn ids(&self) -> Seq<ProjectionId> {
        self.ids@
    }

    /// What becomes of the block, once the sink has answered.
    pub open spec fn visit(&self, accepted: bool) -> Visit {
        Visit {
            function: self.function(),
            block: self.block(),
            answer: Answer::Found(self.ids()),
            accepted,
        }
    }

    /// The batch to send: the identifiers of the block that were not
    /// delivered before, each once, in the consumer's order. Where it is
    /// empty there is nothing to send, and the batch counts as accepted.
    pub fn batch(&self) -> (batch: Vec<ProjectionId>)
        ensures
            batch@ == crate::dedup::fresh(delivered_after(self.before()).to_set(), self.ids()),
    {
        proof {
            use_type_invariant(self);
        }
        copy_of(&self.batch)
    }

    /// Settles the batch. If the sink took it, its identifiers count as
    /// delivered and the call goes on. If not, the call is cancelled, and
    /// this is its report.
    pub fn settle(self, accepted: bool) -> (res: Result<ProjectionRun, ProjectionReport>)
        ensures
            match res {
                Ok(next) => accepted && next.trace() == self.before().push(self.visit(true)),
                Err(report) => {
                    &&& !accepted
                    &&& report.cancelled
                    &&& report.trace@ == self.before().push(self.visit(false))
                    &&& report.delivered@ == delivered_after(report.trace@)
                    &&& report.failed_blocks@ == failed_after(report.trace@)
                    &&& forall|k: int|
                        0 <= k < self.before().len() ==> (#[trigger] self.before()[k]).accepted
                },
            },
    {
        proof {
            use_type_invariant(&self);
        }
        let ghost visit = self.visit(accepted);
        let StagedBatch { seen, delivered, failed, trace, function, block, ids, batch } = self;
        proof {
            assert(trace@.push(visit).drop_last() =~= trace@);
            law_delivered_at_most_once(trace@);
            lemma_deliver(delivered@, ids@);
        }
        if accepted {
            let mut delivered = delivered;
            let mut batch = batch;
            delivered.append(&mut batch);
            Ok(ProjectionRun { seen, delivered, failed, trace: Ghost(trace@.push(visit)) })
        } else {
            Err(
                ProjectionReport {
                    delivered,
                    failed_blocks: failed,
                    cancelled: true,
                    trace: Ghost(trace@.push(visit)),
                },
            )
        }
    }
}

/// Where a call stands within its plan: `trace` holds the blocks of the
/// groups before group `g` and the first `j` blocks of group `g`, whose
/// function has a block lookup or not as `has_lookup` says.
spec fn on_plan(
    groups: Seq<GroupView>,
    g: int,
    j: int,
    has_lookup: bool,
    trace: Seq<Visit>,
) -> bool {
    &&& 0 <= g < groups.len()
    &&& 0 <= j <= groups[g].blocks.len()
    &&& places(trace) == plan(groups.take(g)) + group_places(groups[g]).take(j)
    &&& one_answer_per_function(trace)
    &&& !in_earlier_group(groups, g, groups[g].function)
    &&& forall|i: int|
        0 <= i < trace.len() ==> in_earlier_group(groups, g, (#[trigger] trace[i]).function) || (
        trace[i].function == groups[g].function && (trace[i].answer is Unavailable <==> !has_lookup))
}

/// A call enters group `g` once it is through the groups before it.
proof fn lemma_enter_group(pairs: Seq<(Function, BasicBlock)>, g: int, has_lookup: bool, trace: Seq<Visit>)
    requires
        0 <= g < crate::grouping::grouped(pairs).len(),
        places(trace) == plan(crate::grouping::grouped(pairs).take(g)),
        one_answer_per_function(trace),
        forall|i: int|
            0 <= i < trace.len() ==> in_earlier_group(
                crate::grouping::grouped(pairs),
                g,
                (#[trigger] trace[i]).function,
            ),
    ensures
        on_plan(crate::grouping::grouped(pairs), g, 0, has_lookup, trace),
{
    let groups = crate::grouping::grouped(pairs);
    let functions = crate::grouping::functions_of(pairs);
    crate::grouping::lemma_functions_distinct(pairs);
    if in_earlier_group(groups, g, groups[g].function) {
        let h = choose|h: int| 0 <= h < g && (#[trigger] groups[h]).function == groups[g].function;
        assert(functions[h] == functions[g]);
    }
    assert(group_places(groups[g]).take(0) =~= Seq::<(Function, BasicBlock)>::empty());
    assert(places(trace) =~= plan(groups.take(g)) + group_places(groups[g]).take(0));
}

/// A call moves on by one block of the group it is in.
proof fn lemma_next_block(
    groups: Seq<GroupView>,
    g: int,
    j: int,
    has_lookup: bool,
    trace: Seq<Visit>,
    visit: Visit,
)
    requires
        on_plan(groups, g, j, has_lookup, trace),
        j < groups[g].blocks.len(),
        visit.function == groups[g].function,
        visit.block == groups[g].blocks[j],
        visit.answer is Unavailable <==> !has_lookup,
    ensures
        on_plan(groups, g, j + 1, has_lookup, trace.push(visit)),
        places(trace.push(visit)).is_prefix_of(plan(groups)),
{
    let after = trace.push(visit);
    let whole = group_places(groups[g]);
    assert forall|i: int| 0 <= i < after.len() implies in_earlier_group(
        groups,
        g,
        (#[trigger] after[i]).function,
    ) || (after[i].function == groups[g].function && (after[i].answer is Unavailable
        <==> !has_lookup)) by {
        if i < trace.len() {
            assert(after[i] == trace[i]);
        }
    }
    assert forall|a: int, b: int|
        0 <= a < after.len() && 0 <= b < after.len() && (#[trigger] after[a]).function == (
        #[trigger] after[b]).function implies (after[a].answer is Unavailable
        <==> after[b].answer is Unavailable) by {
        if a < trace.len() {
            assert(after[a] == trace[a]);
        }
        if b < trace.len() {
            assert(after[b] == trace[b]);
        }
    }
    assert(places(after) =~= places(trace).push((visit.function, visit.block)));
    assert(whole.take(j + 1) =~= whole.take(j).push((visit.function, visit.block)));
    assert(places(after) =~= plan(groups.take(g)) + whole.take(j + 1));
    assert(groups.take(g + 1).drop_last() =~= groups.take(g));
    assert(groups.take(g + 1).last() == groups[g]);
    assert(plan(groups.take(g + 1)) == plan(groups.take(g)) + whole);
    lemma_plan_prefix(groups, g + 1);
    assert(places(after) =~= plan(groups.take(g + 1)).take(places(after).len() as int));
    assert(places(after) =~= plan(groups).take(places(after).len() as int));
}

/// A call leaves group `g` once it is through its blocks.
proof fn lemma_leave_group(groups: Seq<GroupView>, g: int, has_lookup: bool, trace: Seq<Visit>)
    requires
        on_plan(groups, g, groups[g].blocks.len() as int, has_lookup, trace),
    ensures
        places(trace) == plan(groups.take(g + 1)),
        forall|i: int|
            0 <= i < trace.len() ==> in_earlier_group(groups, g + 1, (#[trigger] trace[i]).function),
{
    let whole = group_places(groups[g]);
    assert forall|i: int| 0 <= i < trace.len() implies in_earlier_group(
        groups,
        g + 1,
        (#[trigger] trace[i]).function,
    ) by {
        if in_earlier_group(groups, g, trace[i].function) {
            let h = choose|h: int|
                0 <= h < g && (#[trigger] groups[h]).function == trace[i].function;
            assert(groups[h].function == trace[i].function);
        } else {
            assert(groups[g].function == trace[i].function);
        }
    }
    assert(whole.take(groups[g].blocks.len() as int) =~= whole);
    assert(groups.take(g + 1).drop_last() =~= groups.take(g));
    assert(groups.take(g + 1).last() == groups[g]);
}

/// Projects the changed blocks onto the identifiers they touch and streams
/// those to `tx`, each at most once.
///
/// The blocks are grouped by function. `projector_lookup` is asked once per
/// function; a function without a block lookup is passed over. Each block of
/// the others is looked up once, and the identifiers that were not sent
/// before go out as one batch. A failed block lookup costs that block only.
/// The first batch that `tx` turns down ends the call: no block is looked up
/// after it.
pub fn project_updated_blocks<L: ProjectorLookup>(
    projector_lookup: &L,
    updated_blocks: &Vec<(Function, BasicBlock)>,
    tx: &RSender<RVec<ProjectionId>>,
) -> (report: ProjectionReport)
    ensures
        follows(
            report.trace@,
            plan(crate::grouping::grouped(updated_blocks@)),
            report.cancelled,
        ),
        report.delivered@ == delivered_after(report.trace@),
        report.delivered@.no_duplicates(),
        report.failed_blocks@ == failed_after(report.trace@),
        one_answer_per_function(report.trace@),
{
    let groups = group_by_function(updated_blocks);
    let ghost gv = crate::grouping::grouped(updated_blocks@);
    let mut run = ProjectionRun::new();
    let count: usize = groups.len();
    let mut g: usize = 0;
    proof {
        assert(places(run.trace()) =~= plan(gv.take(0)));
    }
    while g < count
        invariant
            g <= count,
            count == groups@.len(),
            gv == crate::grouping::group_views(groups@),
            gv == crate::grouping::grouped(updated_blocks@),
            places(run.trace()) == plan(gv.take(g as int)),
            one_answer_per_function(run.trace()),
            forall|i: int|
                0 <= i < run.trace().len() ==> in_earlier_group(
                    gv,
                    g as int,
                    (#[trigger] run.trace()[i]).function,
                ),
        decreases count - g,
    {
        let function = groups[g].function;
        let blocks_lookup = projector_lookup.lookup(function);
        let len: usize = groups[g].blocks.len();
        let mut j: usize = 0;
        proof {
            assert(gv[g as int] == groups@[g as int]@);
            lemma_enter_group(updated_blocks@, g as int, blocks_lookup is Some, run.trace());
        }
        while j < len
            invariant
                j <= len,
                g < count,
                count == groups@.len(),
                len == groups@[g as int].blocks@.len(),
                function == groups@[g as int].function,
                gv[g as int] == groups@[g as int]@,
                gv == crate::grouping::grouped(updated_blocks@),
                on_plan(gv, g as int, j as int, blocks_lookup is Some, run.trace()),
            decreases len - j,
        {
            let block = groups[g].blocks[j];
            let ghost before = run.trace();
            let found: Option<Vec<ProjectionId>> = match &blocks_lookup {
                None => {
                    run = run.pass(function, block, false);
                    None
                },
                Some(lookup) => match lookup.lookup(block) {
                    Err(_) => {
                        run = run.pass(function, block, true);
                        None
                    },
                    Ok(ids) => Some(ids),
                },
            };
            match found {
                None => {
                    proof {
                        lemma_next_block(
                            gv,
                            g as int,
                            j as int,
                            blocks_lookup is Some,
                            before,
                            run.trace().last(),
                        );
                        assert(run.trace() =~= before.push(run.trace().last()));
                    }
                },
                Some(ids) => {
                    let staged = run.stage(function, block, &ids);
                    let batch = staged.batch();
                    let accepted: bool = if batch.len() == 0 {
                        true
                    } else {
                        send_batch(tx, batch)
                    };
                    proof {
                        lemma_next_block(
                            gv,
                            g as int,
                            j as int,
                            blocks_lookup is Some,
                            before,
                            staged.visit(accepted),
                        );
                    }
                    match staged.settle(accepted) {
                        Ok(next) => {
                            run = next;
                        },
                        Err(report) => {
                            proof {
                                let visit = staged.visit(false);
                                assert(report.trace@ == before.push(visit));
                                assert(report.trace@.last() == visit);
                                assert forall|k: int|
                                    0 <= k < report.trace@.len() - 1 implies (
                                #[trigger] report.trace@[k]).accepted by {
                                    assert(report.trace@[k] == before[k]);
                                }
                                law_delivered_at_most_once(report.trace@);
                            }
                            return report;
                        },
                    }
                },
            }
            j += 1;
        }
        proof {
            lemma_leave_group(gv, g as int, blocks_lookup is Some, run.trace());
        }
        g += 1;
    }
    let report = run.finish();
    proof {
        assert(gv.take(count as int) =~= gv);
        law_delivered_at_most_once(report.trace@);
    }
    report
}

} // verus!
