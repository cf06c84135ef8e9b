//! Grouping of changed blocks by the function they belong to.

use std::collections::HashMap;
use vstd::prelude::*;
use crate::ids::{BasicBlock, Function};

verus! {

broadcast use vstd::std_specs::hash::group_hash_axioms;

/// The changed blocks of one function.
pub struct FunctionBlocks {
    pub function: Function,
    pub blocks: Vec<BasicBlock>,
}

/// A group as plain values.
pub ghost struct GroupView {
    pub function: Function,
    pub blocks: Seq<BasicBlock>,
}

impl View for FunctionBlocks {
    type V = GroupView;

    open spec fn view(&self) -> GroupView {
        GroupView { function: self.function, blocks: self.blocks@ }
    }
}

/// The groups of a sequence, each as plain values.
pub open spec fn group_views(groups: Seq<FunctionBlocks>) -> Seq<GroupView> {
    Seq::new(groups.len(), |g: int| groups[g]@)
}

/// The functions that `pairs` names, each once, in the order in which they
/// first occur.
pub open spec fn functions_of(pairs: Seq<(Function, BasicBlock)>) -> Seq<Function>
    decreases pairs.len(),
{
    if pairs.len() == 0 {
        Seq::empty()
    } else {
        let earlier = functions_of(pairs.drop_last());
        if earlier.contains(pairs.last().0) {
            earlier
        } else {
            earlier.push(pairs.last().0)
        }
    }
}

/// The blocks that `pairs` lists for `function`, in the order listed.
pub open spec fn blocks_of(pairs: Seq<(Function, BasicBlock)>, function: Function) -> Seq<
    BasicBlock,
>
    decreases pairs.len(),
{
    if pairs.len() == 0 {
        Seq::empty()
    } else {
        let earlier = blocks_of(pairs.drop_last(), function);
        if pairs.last().0 == function {
            earlier.push(pairs.last().1)
        } else {
            earlier
        }
    }
}

/// `pairs` grouped by function: one group per function, in the order in which
/// the functions first occur, each with its blocks in the order listed.
pub open spec fn grouped(pairs: Seq<(Function, BasicBlock)>) -> Seq<GroupView> {
    Seq::new(
        functions_of(pairs).len(),
        |g: int|
            GroupView {
                function: functions_of(pairs)[g],
                blocks: blocks_of(pairs, functions_of(pairs)[g]),
            },
    )
}

/// The function of every pair is among `functions_of`.
pub proof fn lemma_functions_cover(pairs: Seq<(Function, BasicBlock)>, at: int)
    requires
        0 <= at < pairs.len(),
    ensures
        functions_of(pairs).contains(pairs[at].0),
    decreases pairs.len(),
{
    let earlier = functions_of(pairs.drop_last());
    if at < pairs.len() - 1 {
        lemma_functions_cover(pairs.drop_last(), at);
        let w = choose|w: int| 0 <= w < earlier.len() && earlier[w] == pairs[at].0;
        if !earlier.contains(pairs.last().0) {
            assert(earlier.push(pairs.last().0)[w] == pairs[at].0);
        }
    } else {
        if !earlier.contains(pairs.last().0) {
            assert(earlier.push(pairs.last().0)[earlier.len() as int] == pairs.last().0);
        }
    }
}

/// A function that no pair names has no blocks.
proof fn lemma_blocks_absent(pairs: Seq<(Function, BasicBlock)>, function: Function)
    requires
        !functions_of(pairs).contains(function),
    ensures
        blocks_of(pairs, function) == Seq::<BasicBlock>::empty(),
    decreases pairs.len(),
{
    if pairs.len() > 0 {
        lemma_functions_cover(pairs, pairs.len() - 1);
        let earlier = functions_of(pairs.drop_last());
        if earlier.contains(function) {
            let w = choose|w: int| 0 <= w < earlier.len() && earlier[w] == function;
            if !earlier.contains(pairs.last().0) {
                assert(earlier.push(pairs.last().0)[w] == function);
            }
        }
        lemma_blocks_absent(pairs.drop_last(), function);
    }
}

/// No function has two groups.
pub proof fn lemma_functions_distinct(pairs: Seq<(Function, BasicBlock)>)
    ensures
        functions_of(pairs).no_duplicates(),
    decreases pairs.len(),
{
    if pairs.len() > 0 {
        lemma_functions_distinct(pairs.drop_last());
        let earlier = functions_of(pairs.drop_last());
        let f = pairs.last().0;
        if !earlier.contains(f) {
            assert forall|i: int, j: int|
                0 <= i < earlier.push(f).len() && 0 <= j < earlier.push(f).len() && i
                    != j implies earlier.push(f)[i] != earlier.push(f)[j] by {
                if i < earlier.len() && j < earlier.len() {
                } else if i < earlier.len() {
                    assert(earlier.contains(earlier[i]));
                } else if j < earlier.len() {
                    assert(earlier.contains(earlier[j]));
                }
            }
        }
    }
}

/// Grouping loses and invents nothing: every listed pair is in the group of
/// its function, and every block of a group was listed for that function.
pub proof fn law_grouping_keeps_pairs(
    pairs: Seq<(Function, BasicBlock)>,
    function: Function,
    block: BasicBlock,
)
    ensures
        pairs.contains((function, block)) <==> functions_of(pairs).contains(function) && blocks_of(
            pairs,
            function,
        ).contains(block),
    decreases pairs.len(),
{
    if pairs.len() > 0 {
        let front = pairs.drop_last();
        let last = pairs.last();
        law_grouping_keeps_pairs(front, function, block);
        lemma_functions_cover(pairs, pairs.len() - 1);
        let earlier = blocks_of(front, function);
        if pairs.contains((function, block)) {
            let at = choose|at: int| 0 <= at < pairs.len() && pairs[at] == (function, block);
            lemma_functions_cover(pairs, at);
            if at < front.len() {
                assert(front[at] == (function, block));
                let w = choose|w: int| 0 <= w < earlier.len() && earlier[w] == block;
                if last.0 == function {
                    assert(earlier.push(last.1)[w] == block);
                }
            } else {
                assert(earlier.push(last.1)[earlier.len() as int] == block);
            }
        }
        if functions_of(pairs).contains(function) && blocks_of(pairs, function).contains(block) {
            let w = choose|w: int|
                0 <= w < blocks_of(pairs, function).len() && blocks_of(pairs, function)[w]
                    == block;
            if last.0 == function && w == earlier.len() {
                assert(pairs[pairs.len() - 1] == (function, block));
            } else {
                assert(earlier[w] == block);
                if !functions_of(front).contains(function) {
                    lemma_blocks_absent(front, function);
                }
                let at = choose|at: int| 0 <= at < front.len() && front[at] == (function, block);
                assert(pairs[at] == (function, block));
            }
        }
    }
}

/// Where each function's group stands, by the function's raw handle.
spec fn index_ok(index: Map<u64, usize>, functions: Seq<Function>) -> bool {
    &&& forall|g: int|
        0 <= g < functions.len() ==> index.contains_key(#[trigger] functions[g]@)
            && index[functions[g]@] == g
    &&& forall|key: u64| #[trigger]
        index.contains_key(key) ==> index[key] < functions.len() && functions[index[key] as int]@
            == key
}

/// `groups` is `pairs` grouped.
spec fn groups_match(groups: Seq<FunctionBlocks>, pairs: Seq<(Function, BasicBlock)>) -> bool {
    &&& groups.len() == functions_of(pairs).len()
    &&& forall|g: int|
        0 <= g < groups.len() ==> (#[trigger] groups[g]).function == functions_of(pairs)[g]
            && groups[g].blocks@ == blocks_of(pairs, functions_of(pairs)[g])
}

/// Groups the changed blocks by function. Functions keep the order in which
/// they first occur, and the blocks of a function the order in which they
/// are listed.
pub fn group_by_function(updated_blocks: &Vec<(Function, BasicBlock)>) -> (groups: Vec<
    FunctionBlocks,
>)
    ensures
        group_views(groups@) == grouped(updated_blocks@),
{
    let ghost pairs = updated_blocks@;
    let mut groups: Vec<FunctionBlocks> = Vec::new();
    let mut index: HashMap<u64, usize> = HashMap::new();
    let len: usize = updated_blocks.len();
    let mut k: usize = 0;
    while k < len
        invariant
            k <= len,
            len == pairs.len(),
            pairs == updated_blocks@,
            groups_match(groups@, pairs.take(k as int)),
            index_ok(index@, functions_of(pairs.take(k as int))),
        decreases len - k,
    {
        let function = updated_blocks[k].0;
        let block = updated_blocks[k].1;
        let ghost before = pairs.take(k as int);
        let ghost upto = pairs.take(k + 1);
        let ghost fs = functions_of(before);
        let ghost old_groups = groups@;
        let key: u64 = function.raw();
        proof {
            assert(upto.drop_last() =~= before);
            assert(upto.last() == (function, block));
        }
        let place: Option<usize> = match index.get(&key) {
            Some(g) => Some(*g),
            None => None,
        };
        match place {
            Some(g) => {
                proof {
                    Function::lemma_same_handle(fs[g as int], function);
                    assert(fs.contains(function));
                }
                groups[g].blocks.push(block);
                proof {
                    assert forall|h: int| 0 <= h < groups@.len() implies (#[trigger] groups@[h]).function
                        == functions_of(upto)[h] && groups@[h].blocks@ == blocks_of(
                        upto,
                        functions_of(upto)[h],
                    ) by {
                        assert(old_groups[h].function == fs[h]);
                        if h != g {
                            Function::lemma_same_handle(fs[h], function);
                        }
                    }
                }
            },
            None => {
                proof {
                    if fs.contains(function) {
                        let w = choose|w: int| 0 <= w < fs.len() && fs[w] == function;
                        assert(index@.contains_key(fs[w]@));
                    }
                    lemma_blocks_absent(before, function);
                }
                let mut blocks: Vec<BasicBlock> = Vec::new();
                blocks.push(block);
                index.insert(key, groups.len());
                groups.push(FunctionBlocks { function, blocks });
                proof {
                    let fs2 = functions_of(upto);
                    assert(fs2 == fs.push(function));
                    assert forall|h: int| 0 <= h < groups@.len() implies (#[trigger] groups@[h]).function
                        == fs2[h] && groups@[h].blocks@ == blocks_of(upto, fs2[h]) by {
                        if h < old_groups.len() {
                            assert(old_groups[h].function == fs[h]);
                            assert(fs.contains(fs[h]));
                        } else {
                            assert(blocks_of(upto, function) =~= Seq::<BasicBlock>::empty().push(
                                block,
                            ));
                        }
                    }
                    assert forall|h: int| 0 <= h < fs2.len() implies index@.contains_key(
                        #[trigger] fs2[h]@,
                    ) && index@[fs2[h]@] == h by {
                        if h < fs.len() {
                            assert(fs.contains(fs[h]));
                            Function::lemma_same_handle(fs[h], function);
                        }
                    }
                    assert forall|other: u64| #[trigger] index@.contains_key(other) implies index@[other]
                        < fs2.len() && fs2[index@[other] as int]@ == other by {
                        if other != key {
                            assert(fs[index@[other] as int]@ == other);
                        }
                    }
                }
            },
        }
        k += 1;
    }
    proof {
        assert(pairs.take(len as int) =~= pairs);
        assert(group_views(groups@) =~= grouped(pairs));
    }
    groups
}

} // verus!
