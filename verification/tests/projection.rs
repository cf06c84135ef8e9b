use std::cell::{Cell, RefCell};
use std::collections::HashMap;
use std::rc::Rc;

use abi_stable::external_types::crossbeam_channel::{bounded, unbounded, RReceiver};
use abi_stable::std_types::RVec;
use coverageinfo_iface::dedup::SeenSet;
use coverageinfo_iface::grouping::group_by_function;
use coverageinfo_iface::ids::{BasicBlock, Function, ProjectionId};
use coverageinfo_iface::projection::{
    project_updated_blocks, BlockLookup, BlockLookupFailed, ProjectionRun, ProjectorLookup,
};

type Receiver = RReceiver<RVec<ProjectionId>>;

/// What the consumer knows: per function and block, the ids or a failure.
#[derive(Default)]
struct Consumer {
    answers: HashMap<u64, HashMap<u64, Option<Vec<u64>>>>,
    function_lookups: RefCell<Vec<u64>>,
    block_lookups: Rc<RefCell<Vec<u64>>>,
    /// Dropped once this many block lookups have been made.
    receiver: Rc<RefCell<Option<Receiver>>>,
    drop_receiver_at: Rc<Cell<usize>>,
}

struct BlocksOf {
    answers: HashMap<u64, Option<Vec<u64>>>,
    block_lookups: Rc<RefCell<Vec<u64>>>,
    receiver: Rc<RefCell<Option<Receiver>>>,
    drop_receiver_at: Rc<Cell<usize>>,
}

impl Consumer {
    fn new() -> Self {
        let consumer = Consumer::default();
        consumer.drop_receiver_at.set(usize::MAX);
        consumer
    }

    fn knows(mut self, function: u64, block: u64, ids: &[u64]) -> Self {
        self.answers.entry(function).or_default().insert(block, Some(ids.to_vec()));
        self
    }

    fn fails(mut self, function: u64, block: u64) -> Self {
        self.answers.entry(function).or_default().insert(block, None);
        self
    }
}

impl ProjectorLookup for Consumer {
    type Blocks = BlocksOf;

    fn lookup(&self, function: Function) -> Option<BlocksOf> {
        self.function_lookups.borrow_mut().push(function.raw());
        self.answers.get(&function.raw()).map(|answers| BlocksOf {
            answers: answers.clone(),
            block_lookups: self.block_lookups.clone(),
            receiver: self.receiver.clone(),
            drop_receiver_at: self.drop_receiver_at.clone(),
        })
    }
}

impl BlockLookup for BlocksOf {
    fn lookup(&self, block_path: BasicBlock) -> Result<Vec<ProjectionId>, BlockLookupFailed> {
        self.block_lookups.borrow_mut().push(block_path.raw());
        if self.block_lookups.borrow().len() >= self.drop_receiver_at.get() {
            self.receiver.borrow_mut().take();
        }
        match self.answers.get(&block_path.raw()) {
            Some(Some(ids)) => Ok(ids.iter().map(|id| ProjectionId::new(*id)).collect()),
            _ => Err(BlockLookupFailed),
        }
    }
}

fn pairs(listed: &[(u64, u64)]) -> Vec<(Function, BasicBlock)> {
    listed.iter().map(|(f, b)| (Function::new(*f), BasicBlock::new(*b))).collect()
}

fn raw(ids: &[ProjectionId]) -> Vec<u64> {
    ids.iter().map(|id| id.raw()).collect()
}

fn received(rx: &Receiver) -> Vec<Vec<u64>> {
    let mut batches = Vec::new();
    while let Ok(batch) = rx.try_recv() {
        batches.push(raw(&batch.into_vec()));
    }
    batches
}

#[test]
fn seen_set_tests_and_sets() {
    let mut seen = SeenSet::new();
    assert!(!seen.contains(ProjectionId::new(1)));
    assert!(seen.insert(ProjectionId::new(1)));
    assert!(seen.contains(ProjectionId::new(1)));
    assert!(!seen.insert(ProjectionId::new(1)));
    assert!(seen.insert(ProjectionId::new(2)));
    assert!(!seen.contains(ProjectionId::new(3)));
}

#[test]
fn seen_set_absorbs_what_is_new() {
    let mut seen = SeenSet::new();
    seen.insert(ProjectionId::new(5));
    let ids: Vec<ProjectionId> = [3, 5, 4, 3, 6, 4].iter().map(|id| ProjectionId::new(*id)).collect();
    assert_eq!(raw(&seen.absorb(&ids)), vec![3, 4, 6]);
    assert_eq!(raw(&seen.absorb(&ids)), Vec::<u64>::new());
    for id in [3, 4, 5, 6] {
        assert!(seen.contains(ProjectionId::new(id)));
    }
    assert_eq!(raw(&seen.absorb(&vec![])), Vec::<u64>::new());
}

#[test]
fn blocks_are_grouped_by_function() {
    let groups = group_by_function(&pairs(&[(2, 10), (1, 11), (2, 12), (3, 13), (1, 14), (2, 10)]));
    let got: Vec<(u64, Vec<u64>)> = groups
        .iter()
        .map(|g| (g.function.raw(), g.blocks.iter().map(|b| b.raw()).collect()))
        .collect();
    assert_eq!(
        got,
        vec![(2, vec![10, 12, 10]), (1, vec![11, 14]), (3, vec![13])]
    );
    assert!(group_by_function(&vec![]).is_empty());
}

#[test]
fn shared_identifier_is_delivered_once() {
    let consumer = Consumer::new().knows(1, 1, &[1, 2]).knows(1, 2, &[2, 3]);
    let (tx, rx) = unbounded();
    let report = project_updated_blocks(&consumer, &pairs(&[(1, 1), (1, 2)]), &tx);
    assert_eq!(received(&rx), vec![vec![1, 2], vec![3]]);
    assert_eq!(raw(&report.delivered), vec![1, 2, 3]);
    assert!(!report.cancelled);
    assert!(report.failed_blocks.is_empty());
}

#[test]
fn identifier_shared_across_functions_is_delivered_once() {
    let consumer = Consumer::new().knows(1, 1, &[7, 8]).knows(2, 1, &[8, 7, 9]);
    let (tx, rx) = unbounded();
    let report = project_updated_blocks(&consumer, &pairs(&[(1, 1), (2, 1)]), &tx);
    assert_eq!(received(&rx), vec![vec![7, 8], vec![9]]);
    assert_eq!(raw(&report.delivered), vec![7, 8, 9]);
}

#[test]
fn identifier_repeated_within_a_block_is_delivered_once() {
    let consumer = Consumer::new().knows(1, 1, &[4, 4, 5, 4]);
    let (tx, rx) = unbounded();
    let report = project_updated_blocks(&consumer, &pairs(&[(1, 1)]), &tx);
    assert_eq!(received(&rx), vec![vec![4, 5]]);
    assert_eq!(raw(&report.delivered), vec![4, 5]);
}

#[test]
fn nothing_new_nothing_sent() {
    let consumer = Consumer::new().knows(1, 1, &[1]).knows(1, 2, &[1]).knows(1, 3, &[]);
    let (tx, rx) = unbounded();
    let report = project_updated_blocks(&consumer, &pairs(&[(1, 1), (1, 2), (1, 3)]), &tx);
    assert_eq!(received(&rx), vec![vec![1]]);
    assert_eq!(raw(&report.delivered), vec![1]);
    assert!(!report.cancelled);
}

#[test]
fn no_blocks_no_work() {
    let consumer = Consumer::new().knows(1, 1, &[1]);
    let (tx, rx) = unbounded();
    let report = project_updated_blocks(&consumer, &vec![], &tx);
    assert!(received(&rx).is_empty());
    assert!(report.delivered.is_empty());
    assert!(!report.cancelled);
    assert!(consumer.function_lookups.borrow().is_empty());
}

#[test]
fn function_without_lookup_is_passed_over() {
    let consumer = Consumer::new().knows(2, 1, &[5]).knows(2, 2, &[6]);
    let (tx, rx) = unbounded();
    let report =
        project_updated_blocks(&consumer, &pairs(&[(1, 1), (2, 1), (1, 2), (2, 2)]), &tx);
    assert_eq!(received(&rx), vec![vec![5], vec![6]]);
    assert_eq!(raw(&report.delivered), vec![5, 6]);
    assert!(!report.cancelled);
    assert!(report.failed_blocks.is_empty());
    assert_eq!(*consumer.block_lookups.borrow(), vec![1, 2]);
}

#[test]
fn each_function_is_asked_for_once() {
    let consumer = Consumer::new().knows(1, 1, &[1]).knows(1, 3, &[3]).knows(2, 2, &[2]);
    let (tx, rx) = unbounded();
    project_updated_blocks(&consumer, &pairs(&[(1, 1), (2, 2), (1, 3), (9, 9)]), &tx);
    assert_eq!(*consumer.function_lookups.borrow(), vec![1, 2, 9]);
    assert_eq!(*consumer.block_lookups.borrow(), vec![1, 3, 2]);
    assert_eq!(received(&rx), vec![vec![1], vec![3], vec![2]]);
}

#[test]
fn failed_block_lookup_costs_that_block_only() {
    let consumer = Consumer::new().knows(1, 1, &[1]).fails(1, 2).knows(1, 3, &[3]).knows(2, 1, &[4]);
    let (tx, rx) = unbounded();
    let report =
        project_updated_blocks(&consumer, &pairs(&[(1, 1), (1, 2), (1, 3), (2, 1)]), &tx);
    assert_eq!(received(&rx), vec![vec![1], vec![3], vec![4]]);
    assert_eq!(raw(&report.delivered), vec![1, 3, 4]);
    assert_eq!(report.failed_blocks, pairs(&[(1, 2)]));
    assert!(!report.cancelled);
}

#[test]
fn block_the_consumer_does_not_know_is_reported() {
    let consumer = Consumer::new().knows(1, 1, &[1]);
    let (tx, _rx) = unbounded();
    let report = project_updated_blocks(&consumer, &pairs(&[(1, 8), (1, 1)]), &tx);
    assert_eq!(report.failed_blocks, pairs(&[(1, 8)]));
    assert_eq!(raw(&report.delivered), vec![1]);
}

#[test]
fn closed_sink_ends_the_call() {
    let consumer =
        Consumer::new().knows(1, 1, &[1]).knows(1, 2, &[2]).knows(1, 3, &[3]).knows(2, 1, &[4]);
    let (tx, rx) = unbounded();
    *consumer.receiver.borrow_mut() = Some(rx);
    consumer.drop_receiver_at.set(2);
    let report =
        project_updated_blocks(&consumer, &pairs(&[(1, 1), (1, 2), (1, 3), (2, 1)]), &tx);
    assert!(report.cancelled);
    assert_eq!(raw(&report.delivered), vec![1]);
    assert_eq!(*consumer.block_lookups.borrow(), vec![1, 2]);
    assert_eq!(*consumer.function_lookups.borrow(), vec![1]);
}

#[test]
fn sink_closed_from_the_start_allows_one_lookup() {
    let consumer = Consumer::new().knows(1, 1, &[1]).knows(2, 1, &[2]);
    let (tx, rx) = unbounded();
    drop(rx);
    let report = project_updated_blocks(&consumer, &pairs(&[(1, 1), (2, 1)]), &tx);
    assert!(report.cancelled);
    assert!(report.delivered.is_empty());
    assert_eq!(*consumer.block_lookups.borrow(), vec![1]);
}

#[test]
fn closed_sink_goes_unnoticed_while_nothing_is_sent() {
    let consumer = Consumer::new().knows(1, 1, &[]).fails(1, 2);
    let (tx, rx) = unbounded();
    drop(rx);
    let report = project_updated_blocks(&consumer, &pairs(&[(1, 1), (1, 2), (3, 1)]), &tx);
    assert!(!report.cancelled);
    assert!(report.delivered.is_empty());
    assert_eq!(report.failed_blocks, pairs(&[(1, 2)]));
}

#[test]
fn bounded_sink_takes_what_fits() {
    let consumer = Consumer::new().knows(1, 1, &[1, 2]).knows(1, 2, &[3]);
    let (tx, rx) = bounded(2);
    let report = project_updated_blocks(&consumer, &pairs(&[(1, 1), (1, 2)]), &tx);
    assert!(!report.cancelled);
    assert_eq!(received(&rx), vec![vec![1, 2], vec![3]]);
}

#[test]
fn calls_do_not_share_what_they_have_seen() {
    let consumer = Consumer::new().knows(1, 1, &[1, 2]);
    let (tx, rx) = unbounded();
    project_updated_blocks(&consumer, &pairs(&[(1, 1)]), &tx);
    project_updated_blocks(&consumer, &pairs(&[(1, 1)]), &tx);
    assert_eq!(received(&rx), vec![vec![1, 2], vec![1, 2]]);
}

#[test]
fn batches_keep_the_order_of_the_consumer() {
    let consumer = Consumer::new().knows(1, 1, &[9, 3, 7, 1]);
    let (tx, rx) = unbounded();
    project_updated_blocks(&consumer, &pairs(&[(1, 1)]), &tx);
    assert_eq!(received(&rx), vec![vec![9, 3, 7, 1]]);
}

fn ids(raw: &[u64]) -> Vec<ProjectionId> {
    raw.iter().map(|id| ProjectionId::new(*id)).collect()
}

#[test]
fn run_stages_what_was_not_delivered() {
    let f = Function::new(1);
    let run = ProjectionRun::new();
    let staged = run.stage(f, BasicBlock::new(1), &ids(&[1, 2]));
    assert_eq!(raw(&staged.batch()), vec![1, 2]);
    let run = staged.settle(true).ok().unwrap();
    let staged = run.stage(f, BasicBlock::new(2), &ids(&[2, 3]));
    assert_eq!(raw(&staged.batch()), vec![3]);
    let run = staged.settle(true).ok().unwrap();
    let report = run.finish();
    assert_eq!(raw(&report.delivered), vec![1, 2, 3]);
    assert!(!report.cancelled);
    assert!(report.failed_blocks.is_empty());
}

#[test]
fn run_that_is_turned_down_is_cancelled() {
    let f = Function::new(1);
    let run = ProjectionRun::new();
    let run = run.stage(f, BasicBlock::new(1), &ids(&[1, 2])).settle(true).ok().unwrap();
    let staged = run.stage(f, BasicBlock::new(2), &ids(&[2, 3]));
    assert_eq!(raw(&staged.batch()), vec![3]);
    let report = staged.settle(false).err().unwrap();
    assert!(report.cancelled);
    assert_eq!(raw(&report.delivered), vec![1, 2]);
}

#[test]
fn run_passes_blocks_without_an_answer() {
    let run = ProjectionRun::new();
    let run = run.pass(Function::new(1), BasicBlock::new(1), false);
    let run = run.pass(Function::new(2), BasicBlock::new(1), true);
    let run = run.stage(Function::new(2), BasicBlock::new(2), &ids(&[5])).settle(true).ok().unwrap();
    let run = run.pass(Function::new(2), BasicBlock::new(3), true);
    let report = run.finish();
    assert_eq!(raw(&report.delivered), vec![5]);
    assert_eq!(report.failed_blocks, pairs(&[(2, 1), (2, 3)]));
    assert!(!report.cancelled);
}

#[test]
fn run_with_nothing_new_stages_an_empty_batch() {
    let run = ProjectionRun::new();
    let run = run.stage(Function::new(1), BasicBlock::new(1), &ids(&[4, 4])).settle(true).ok().unwrap();
    let staged = run.stage(Function::new(1), BasicBlock::new(2), &ids(&[4]));
    assert!(staged.batch().is_empty());
    let report = staged.settle(true).ok().unwrap().finish();
    assert_eq!(raw(&report.delivered), vec![4]);
}
