use vstd::prelude::*;
use crate::builder::InterlockBuilder;
use crate::cell::CountCell;
use crate::executor::{lemma_same_plans, same_plans, valid_order, InterlockExecutor};

verus! {

/// Reruns: a run leaves the executor ready for the next one with the same
/// plans, and the order of that next run is valid for the first plans,
/// so every run executes each task once, after its predecessors.
pub proof fn lemma_rerun<Q>(
    first: InterlockExecutor<Q>,
    second: InterlockExecutor<Q>,
    third: InterlockExecutor<Q>,
    order1: Seq<usize>,
    order2: Seq<usize>,
)
    requires
        first.wf(),
        first.resettable(),
        InterlockExecutor::ran(first, second, order1),
        InterlockExecutor::ran(second, third, order2),
    ensures
        second.wf(),
        second.resettable(),
        third.wf(),
        third.resettable(),
        same_plans(first.plans(), third.plans()),
        valid_order(first.plans(), order1),
        valid_order(first.plans(), order2),
{
    assert forall|x: int| 0 <= x < first.plans().len() implies (#[trigger] first.plans()[x]).same_plan(
        third.plans()[x],
    ) by {
        assert(first.plans()[x].same_plan(second.plans()[x]));
        assert(second.plans()[x].same_plan(third.plans()[x]));
    }
    assert forall|x: int| 0 <= x < first.plans().len() implies (#[trigger] third.plans()[x]).same_plan(
        first.plans()[x],
    ) by {
        assert(first.plans()[x].same_plan(third.plans()[x]));
    }
    assert forall|x: int| 0 <= x < first.plans().len() implies (#[trigger] second.plans()[x]).same_plan(
        first.plans()[x],
    ) by {
        assert(first.plans()[x].same_plan(second.plans()[x]));
    }
    lemma_same_plans(third.plans(), first.plans(), order2);
    lemma_same_plans(second.plans(), first.plans(), order1);
}

/// Read-read concurrency: two distinct tasks that write nothing never
/// conflict, so neither locks the other.
pub proof fn lemma_readers_do_not_conflict<Q>(b: InterlockBuilder<Q>, x: int, y: int)
    requires
        b.decl_writes(x).len() == 0,
        b.decl_writes(y).len() == 0,
    ensures
        !b.conflicting(x, y),
{
    assert forall|r: u64| !b.conflict_on(x, y, r) by {
        if b.decl_writes(x).contains(r) {
            let k = choose|k: int| 0 <= k < b.decl_writes(x).len() && b.decl_writes(x)[k] == r;
        }
        if b.decl_writes(y).contains(r) {
            let k = choose|k: int| 0 <= k < b.decl_writes(y).len() && b.decl_writes(y)[k] == r;
        }
    }
}

/// Resource exclusion: conflicting is symmetric, so of two tasks that
/// conflict each locks the other when it starts, and neither can become
/// ready while the other runs.
pub proof fn lemma_conflict_symmetric<Q>(b: InterlockBuilder<Q>, x: int, y: int)
    ensures
        b.conflicting(x, y) == b.conflicting(y, x),
{
    if b.conflicting(x, y) {
        let r = choose|r: u64| #[trigger] b.conflict_on(x, y, r);
        assert(b.conflict_on(y, x, r));
    }
    if b.conflicting(y, x) {
        let r = choose|r: u64| #[trigger] b.conflict_on(y, x, r);
        assert(b.conflict_on(x, y, r));
    }
}

/// A taken cell cannot be taken again before it is reset: neither Running
/// nor Completed is ready, and counting up or down keeps both flags.
pub proof fn lemma_taken_not_ready<P>(c: CountCell<P>)
    requires
        c.is_locked() || c.is_completed(),
    ensures
        !c.is_ready(),
{
}

} // verus!
