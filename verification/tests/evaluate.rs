use coverageinfo_iface::coverageinfo::{
    Counter, CounterExpression, CounterKind, CounterRegion, ExprKind,
};
use coverageinfo_iface::evaluate::{
    evaluate, evaluate_regions, evaluate_reporting, EvalError, Evaluation, EvaluationReport,
};
use coverageinfo_iface::ids::BasicBlock;

fn zero() -> Counter {
    Counter { kind: CounterKind::Zero, id: 0 }
}

fn value(id: u32) -> Counter {
    Counter { kind: CounterKind::CounterValueReference, id }
}

fn expr(id: u32) -> Counter {
    Counter { kind: CounterKind::Expression, id }
}

fn add(lhs: Counter, rhs: Counter) -> CounterExpression {
    CounterExpression { kind: ExprKind::Add, lhs, rhs }
}

fn sub(lhs: Counter, rhs: Counter) -> CounterExpression {
    CounterExpression { kind: ExprKind::Subtract, lhs, rhs }
}

fn found(value: u64, saturated: bool, entries_combined: usize) -> Result<EvaluationReport, EvalError> {
    Ok(EvaluationReport { evaluation: Evaluation { value, saturated }, entries_combined })
}

fn region(counter: Counter, block: u64) -> CounterRegion {
    CounterRegion {
        counter,
        basic_blocks: vec![BasicBlock::new(block)],
        source_region: vec![],
    }
}

#[test]
fn zero_counter_is_zero() {
    assert_eq!(evaluate(&vec![], zero(), &vec![9, 9]), Ok(0));
}

#[test]
fn zero_counter_ignores_its_id() {
    let counter = Counter { kind: CounterKind::Zero, id: 99 };
    assert_eq!(evaluate(&vec![], counter, &vec![4]), Ok(0));
}

#[test]
fn value_reference_reads_the_buffer() {
    let values = vec![11, 22, 33];
    assert_eq!(evaluate(&vec![], value(0), &values), Ok(11));
    assert_eq!(evaluate(&vec![], value(2), &values), Ok(33));
}

#[test]
fn value_reference_beyond_the_buffer_is_out_of_range() {
    let values = vec![11, 22, 33];
    assert_eq!(evaluate(&vec![], value(3), &values), Err(EvalError::OutOfRange));
    assert_eq!(evaluate(&vec![], value(u32::MAX), &values), Err(EvalError::OutOfRange));
    assert_eq!(evaluate(&vec![], value(0), &vec![]), Err(EvalError::OutOfRange));
}

#[test]
fn expression_beyond_the_table_is_out_of_range() {
    let table = vec![add(value(0), value(0))];
    assert_eq!(evaluate(&table, expr(1), &vec![1]), Err(EvalError::OutOfRange));
    assert_eq!(evaluate(&vec![], expr(0), &vec![1]), Err(EvalError::OutOfRange));
}

#[test]
fn out_of_range_operand_fails_the_expression() {
    let table = vec![add(value(0), value(7))];
    assert_eq!(evaluate(&table, expr(0), &vec![1]), Err(EvalError::OutOfRange));
}

#[test]
fn addition_adds() {
    let table = vec![add(value(0), value(1))];
    assert_eq!(
        evaluate_reporting(&table, expr(0), &vec![2, 5]),
        found(7, false, 1)
    );
}

#[test]
fn subtraction_subtracts() {
    let table = vec![sub(value(0), value(1))];
    assert_eq!(
        evaluate_reporting(&table, expr(0), &vec![5, 3]),
        found(2, false, 1)
    );
}

#[test]
fn subtraction_below_zero_is_zero_and_reported() {
    let table = vec![sub(value(0), value(1))];
    let values = vec![3, 5];
    assert_eq!(evaluate(&table, expr(0), &values), Ok(0));
    assert_eq!(
        evaluate_reporting(&table, expr(0), &values),
        found(0, true, 1)
    );
}

#[test]
fn subtraction_of_equal_values_is_zero_and_not_reported() {
    let table = vec![sub(value(0), value(0))];
    assert_eq!(
        evaluate_reporting(&table, expr(0), &vec![8]),
        found(0, false, 1)
    );
}

#[test]
fn addition_above_the_maximum_is_the_maximum_and_reported() {
    let table = vec![add(value(0), value(1))];
    assert_eq!(
        evaluate_reporting(&table, expr(0), &vec![u64::MAX, 1]),
        found(u64::MAX, true, 1)
    );
    assert_eq!(
        evaluate_reporting(&table, expr(0), &vec![u64::MAX - 1, 1]),
        found(u64::MAX, false, 1)
    );
}

#[test]
fn clamping_below_is_reported_above() {
    // (3 - 5) + 4
    let table = vec![sub(value(0), value(1)), add(expr(0), value(2))];
    assert_eq!(
        evaluate_reporting(&table, expr(1), &vec![3, 5, 4]),
        found(4, true, 2)
    );
}

#[test]
fn nested_expressions() {
    // ((v0 + v1) - v2) + (v0 + v1)
    let table = vec![
        add(value(0), value(1)),
        sub(expr(0), value(2)),
        add(expr(1), expr(0)),
    ];
    assert_eq!(evaluate(&table, expr(2), &vec![10, 20, 5]), Ok(55));
}

#[test]
fn expression_may_refer_forward() {
    let table = vec![add(expr(1), value(0)), add(value(0), value(0))];
    assert_eq!(evaluate(&table, expr(0), &vec![3]), Ok(9));
}

#[test]
fn self_reference_is_cyclic() {
    let table = vec![add(expr(0), zero())];
    assert_eq!(evaluate(&table, expr(0), &vec![]), Err(EvalError::CyclicExpression));
}

#[test]
fn self_reference_on_the_right_is_cyclic() {
    let table = vec![add(value(0), expr(0))];
    assert_eq!(evaluate(&table, expr(0), &vec![1]), Err(EvalError::CyclicExpression));
}

#[test]
fn longer_cycle_is_cyclic() {
    let table = vec![
        add(value(0), expr(1)),
        sub(expr(2), value(0)),
        add(expr(0), value(0)),
    ];
    let values = vec![1];
    for start in 0..3 {
        assert_eq!(evaluate(&table, expr(start), &values), Err(EvalError::CyclicExpression));
    }
}

#[test]
fn cycle_reached_from_outside_is_cyclic() {
    let table = vec![add(value(0), expr(1)), add(expr(1), value(0))];
    assert_eq!(evaluate(&table, expr(0), &vec![1]), Err(EvalError::CyclicExpression));
}

#[test]
fn large_cycle_ends() {
    let len: u32 = 10_000;
    let table: Vec<CounterExpression> =
        (0..len).map(|k| add(expr((k + 1) % len), zero())).collect();
    assert_eq!(evaluate(&table, expr(0), &vec![]), Err(EvalError::CyclicExpression));
}

#[test]
fn failure_on_the_left_comes_first() {
    // left operand out of range, right operand cyclic
    let table = vec![add(value(5), expr(0))];
    assert_eq!(evaluate(&table, expr(0), &vec![]), Err(EvalError::OutOfRange));
    // left operand cyclic, right operand out of range
    let table = vec![add(expr(0), value(5))];
    assert_eq!(evaluate(&table, expr(0), &vec![]), Err(EvalError::CyclicExpression));
}

#[test]
fn cycle_that_is_not_reached_does_no_harm() {
    let table = vec![add(expr(0), zero()), add(value(0), value(0))];
    assert_eq!(evaluate(&table, expr(1), &vec![4]), Ok(8));
    assert_eq!(evaluate(&table, zero(), &vec![4]), Ok(0));
}

#[test]
fn evaluation_is_repeatable() {
    let table = vec![add(value(0), value(1)), sub(expr(0), value(2))];
    let values = vec![7, 8, 9];
    let first = evaluate_reporting(&table, expr(1), &values);
    let second = evaluate_reporting(&table, expr(1), &values);
    assert_eq!(first, second);
    assert_eq!(first, found(6, false, 2));
}

#[test]
fn shared_operands_are_combined_once() {
    // entry k is twice entry k - 1: without a memo this takes 2^40 steps
    let mut table = vec![add(value(0), value(0))];
    for k in 1..40u32 {
        table.push(add(expr(k - 1), expr(k - 1)));
    }
    assert_eq!(evaluate(&table, expr(39), &vec![1]), Ok(1u64 << 40));
    assert_eq!(evaluate_reporting(&table, expr(39), &vec![1]), found(1u64 << 40, false, 40));
    assert_eq!(evaluate_reporting(&table, expr(9), &vec![1]), found(1u64 << 10, false, 10));
}

#[test]
fn shared_operands_saturate_once_the_count_is_full() {
    let mut table = vec![add(value(0), value(0))];
    for k in 1..100u32 {
        table.push(add(expr(k - 1), expr(k - 1)));
    }
    assert_eq!(
        evaluate_reporting(&table, expr(62), &vec![1]),
        found(1u64 << 63, false, 63)
    );
    assert_eq!(
        evaluate_reporting(&table, expr(99), &vec![1]),
        found(u64::MAX, true, 100)
    );
}

#[test]
fn deep_chain_is_evaluated() {
    let len: u32 = 2_000;
    let mut table = vec![add(value(0), zero())];
    for k in 1..len {
        table.push(add(expr(k - 1), value(0)));
    }
    assert_eq!(evaluate(&table, expr(len - 1), &vec![3]), Ok(3 * len as u64));
}

#[test]
fn regions_of_a_function_are_counted() {
    let table = vec![add(value(0), value(1))];
    let regions = vec![region(value(0), 1), region(expr(0), 2)];
    let found = evaluate_regions(&table, &regions, &vec![2, 5]).unwrap();
    assert_eq!(found.counts.len(), 2);
    assert_eq!(found.counts[0], Evaluation { value: 2, saturated: false });
    assert_eq!(found.counts[1], Evaluation { value: 7, saturated: false });
    assert_eq!(found.entries_combined, 1);
}

#[test]
fn regions_that_share_an_expression_agree() {
    let table = vec![sub(value(0), value(1)), add(expr(0), value(1))];
    let regions = vec![region(expr(1), 1), region(expr(0), 2), region(expr(1), 3)];
    let found = evaluate_regions(&table, &regions, &vec![9, 4]).unwrap();
    let counts = found.counts;
    assert_eq!(counts[0], counts[2]);
    assert_eq!(counts[0].value, 9);
    assert_eq!(counts[1].value, 5);
    assert_eq!(found.entries_combined, 2);
    for (k, r) in regions.iter().enumerate() {
        let alone = evaluate_reporting(&table, r.counter, &vec![9, 4]).unwrap();
        assert_eq!(alone.evaluation, counts[k]);
    }
}

#[test]
fn no_regions_no_counts() {
    let found = evaluate_regions(&vec![], &vec![], &vec![]).unwrap();
    assert!(found.counts.is_empty());
    assert_eq!(found.entries_combined, 0);
}

#[test]
fn first_failing_region_decides() {
    let table = vec![add(expr(0), zero())];
    let regions = vec![region(value(0), 1), region(value(9), 2), region(expr(0), 3)];
    assert_eq!(evaluate_regions(&table, &regions, &vec![1]).err(), Some(EvalError::OutOfRange));
    let regions = vec![region(value(0), 1), region(expr(0), 2), region(value(9), 3)];
    assert_eq!(
        evaluate_regions(&table, &regions, &vec![1]).err(),
        Some(EvalError::CyclicExpression)
    );
}

#[test]
fn leaves_combine_no_entry() {
    let table = vec![add(value(0), value(0))];
    assert_eq!(evaluate_reporting(&table, zero(), &vec![1]), found(0, false, 0));
    assert_eq!(evaluate_reporting(&table, value(0), &vec![1]), found(1, false, 0));
}

#[test]
fn only_entries_in_use_are_combined() {
    let table = vec![
        add(value(0), value(0)),
        add(value(0), value(0)),
        sub(expr(0), expr(0)),
        add(expr(2), expr(0)),
    ];
    assert_eq!(evaluate_reporting(&table, expr(3), &vec![6]), found(12, false, 3));
    assert_eq!(evaluate_reporting(&table, expr(1), &vec![6]), found(12, false, 1));
}
