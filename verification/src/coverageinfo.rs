//! The counter model: counters, the expressions over them, and the regions
//! they are attached to.

use vstd::prelude::*;
use crate::ids::BasicBlock;

verus! {

#[derive(Clone, Copy, Debug, PartialEq, Eq, Structural)]
pub enum CounterKind {
    Zero,
    CounterValueReference,
    Expression,
}

/// A reference to a value that contributes to a coverage report. What `id`
/// means depends on `kind`:
///   * `Zero`: nothing, the counter is the constant 0 whatever `id` holds;
///   * `CounterValueReference`: the index of a live instrumentation counter;
///   * `Expression`: an index into the function's expression table.
#[derive(Clone, Copy, Debug, PartialEq, Eq, Structural)]
pub struct Counter {
    pub kind: CounterKind,
    pub id: u32,
}

#[derive(Clone, Copy, Debug, PartialEq, Eq, Structural)]
pub enum ExprKind {
    Subtract,
    Add,
}

#[derive(Clone, Copy, Debug, PartialEq, Eq, Structural)]
pub struct CounterExpression {
    pub kind: ExprKind,
    pub lhs: Counter,
    pub rhs: Counter,
}

/// A `Counter`, together with the basic blocks it covers and the source
/// region it stands for. The region descriptor is carried as an opaque blob.
pub struct CounterRegion {
    pub counter: Counter,
    pub basic_blocks: Vec<BasicBlock>,
    pub source_region: Vec<u8>,
}

/// What a region holds, as plain values.
pub ghost struct RegionView {
    pub counter: Counter,
    pub basic_blocks: Seq<BasicBlock>,
    pub source_region: Seq<u8>,
}

impl View for CounterRegion {
    type V = RegionView;

    open spec fn view(&self) -> RegionView {
        RegionView {
            counter: self.counter,
            basic_blocks: self.basic_blocks@,
            source_region: self.source_region@,
        }
    }
}

impl Clone for CounterRegion {
    fn clone(&self) -> (copy: Self)
        ensures
            copy@ == self@,
    {
        CounterRegion {
            counter: self.counter,
            basic_blocks: copy_of(&self.basic_blocks),
            source_region: copy_of(&self.source_region),
        }
    }
}

/// The regions of a sequence, each as plain values.
pub open spec fn region_views(regions: Seq<CounterRegion>) -> Seq<RegionView> {
    Seq::new(regions.len(), |k: int| regions[k]@)
}

/// A vector with the same items in the same order.
pub(crate) fn copy_of<T: Copy>(items: &Vec<T>) -> (copy: Vec<T>)
    ensures
        copy@ == items@,
{
    let mut copy: Vec<T> = Vec::new();
    let len: usize = items.len();
    let mut k: usize = 0;
    while k < len
        invariant
            k <= len,
            len == items@.len(),
            copy@ == items@.take(k as int),
        decreases len - k,
    {
        copy.push(items[k]);
        proof {
            assert(items@.take(k + 1) =~= items@.take(k as int).push(items@[k as int]));
        }
        k += 1;
    }
    proof {
        assert(items@.take(len as int) =~= items@);
    }
    copy
}

} // verus!
