//! The counter model of a session: the coverage tables of every function
//! that has been instrumented so far.

use std::collections::HashMap;
use vstd::prelude::*;
use crate::coverageinfo::{copy_of, Counter, CounterExpression, CounterRegion, RegionView};
use crate::evaluate::{evaluate_regions, EvalError, Evaluation, RegionCounts};
use crate::ids::Function;

verus! {

broadcast use vstd::std_specs::hash::group_hash_axioms;

/// The coverage tables of one function: its expression table, which
/// `Expression` counters index, and its regions in order.
pub struct CoverageMap {
    pub expressions: Vec<CounterExpression>,
    pub regions: Vec<CounterRegion>,
}

/// Coverage tables as plain values.
pub ghost struct CoverageTables {
    pub expressions: Seq<CounterExpression>,
    pub regions: Seq<RegionView>,
}

impl View for CoverageMap {
    type V = CoverageTables;

    open spec fn view(&self) -> CoverageTables {
        CoverageTables {
            expressions: self.expressions@,
            regions: crate::coverageinfo::region_views(self.regions@),
        }
    }
}

/// The tables of a function that has no coverage data yet.
pub open spec fn no_tables() -> CoverageTables {
    CoverageTables { expressions: Seq::empty(), regions: Seq::empty() }
}

/// Per function, the tables published last. Tables are replaced as a whole
/// when a function is recompiled, never changed in place.
pub struct CounterModel {
    functions: HashMap<u64, CoverageMap>,
}

impl CounterModel {
    /// The tables of every function that has been published.
    pub closed spec fn view(&self) -> Map<Function, CoverageTables> {
        Map::new(
            |f: Function| self.functions@.contains_key(f@),
            |f: Function| self.functions@[f@]@,
        )
    }

    /// The tables that a query for `function` sees: those published last, or
    /// empty ones where the function was never instrumented.
    pub open spec fn tables_of(&self, function: Function) -> CoverageTables {
        if self@.contains_key(function) {
            self@[function]
        } else {
            no_tables()
        }
    }

    pub fn new() -> (model: Self)
        ensures
            model@ == Map::<Function, CoverageTables>::empty(),
    {
        let model = CounterModel { functions: HashMap::new() };
        assert(model@ =~= Map::<Function, CoverageTables>::empty());
        model
    }

    /// Publishes the tables of `function`, in place of any published before.
    pub fn publish(
        &mut self,
        function: Function,
        expressions: Vec<CounterExpression>,
        regions: Vec<CounterRegion>,
    )
        ensures
            final(self)@ == old(self)@.insert(
                function,
                CoverageTables {
                    expressions: expressions@,
                    regions: crate::coverageinfo::region_views(regions@),
                },
            ),
    {
        let ghost tables = CoverageTables {
            expressions: expressions@,
            regions: crate::coverageinfo::region_views(regions@),
        };
        self.functions.insert(function.raw(), CoverageMap { expressions, regions });
        proof {
            assert forall|f: Function| #[trigger]
                self@.contains_key(f) == old(self)@.insert(function, tables).contains_key(f) by {
                Function::lemma_same_handle(f, function);
            }
            assert forall|f: Function| #[trigger] self@.contains_key(f) implies self@[f] == old(
                self,
            )@.insert(function, tables)[f] by {
                Function::lemma_same_handle(f, function);
            }
            assert(self@ =~= old(self)@.insert(function, tables));
        }
    }

    /// A snapshot of the expression table and the regions of `function`.
    /// A function that was never instrumented has empty tables.
    pub fn get_expressions_and_counter_regions(&self, function: Function) -> (snapshot: (
        Vec<CounterExpression>,
        Vec<CounterRegion>,
    ))
        ensures
            snapshot.0@ == self.tables_of(function).expressions,
            crate::coverageinfo::region_views(snapshot.1@) == self.tables_of(function).regions,
    {
        let key: u64 = function.raw();
        match self.functions.get(&key) {
            None => (Vec::new(), Vec::new()),
            Some(map) => {
                let expressions = copy_of(&map.expressions);
                let mut regions: Vec<CounterRegion> = Vec::new();
                let len: usize = map.regions.len();
                let mut k: usize = 0;
                while k < len
                    invariant
                        k <= len,
                        len == map.regions@.len(),
                        regions@.len() == k,
                        forall|j: int| 0 <= j < k ==> (#[trigger] regions@[j])@ == map.regions@[j]@,
                    decreases len - k,
                {
                    regions.push(map.regions[k].clone());
                    k += 1;
                }
                proof {
                    assert(crate::coverageinfo::region_views(regions@)
                        =~= crate::coverageinfo::region_views(map.regions@));
                }
                (expressions, regions)
            },
        }
    }

    /// The hit count of every region of `function`, in order, for the given
    /// instrumentation values.
    pub fn evaluate_function(&self, function: Function, instrumentation_values: &Vec<u64>) -> (res:
        Result<RegionCounts, EvalError>)
        ensures
            match res {
                Ok(found) => {
                    &&& crate::evaluate::region_counts(
                        self.tables_of(function).expressions,
                        instrumentation_values@,
                        crate::evaluate::counters_of(self.tables_of(function).regions),
                    ) == Ok::<Seq<Evaluation>, EvalError>(found.counts@)
                    &&& found.entries_combined == crate::evaluate::entries_under_all(
                        self.tables_of(function).expressions,
                        crate::evaluate::counters_of(self.tables_of(function).regions),
                        self.tables_of(function).expressions.len(),
                    ).len()
                },
                Err(err) => crate::evaluate::region_counts(
                    self.tables_of(function).expressions,
                    instrumentation_values@,
                    crate::evaluate::counters_of(self.tables_of(function).regions),
                ) == Err::<Seq<Evaluation>, EvalError>(err),
            },
    {
        let key: u64 = function.raw();
        match self.functions.get(&key) {
            None => {
                proof {
                    assert(crate::evaluate::counters_of(no_tables().regions) =~= Seq::<
                        Counter,
                    >::empty());
                }
                Ok(RegionCounts { counts: Vec::new(), entries_combined: 0 })
            },
            Some(map) => evaluate_regions(&map.expressions, &map.regions, instrumentation_values),
        }
    }
}

} // verus!
