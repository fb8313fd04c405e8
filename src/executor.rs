use vstd::prelude::*;
use crate::cell::CNT_MASK;
use crate::context::Context;
use crate::task::{count_in, lemma_count_in_concat, Task, TaskId};
use crate::Executable;

verus! {

/// The sum of `f` over `[0, m)`.
pub open spec fn sum_upto(f: spec_fn(int) -> nat, m: int) -> nat
    decreases m,
{
    if m <= 0 {
        0
    } else {
        sum_upto(f, m - 1) + f(m - 1)
    }
}

pub proof fn lemma_sum_update(f: spec_fn(int) -> nat, g: spec_fn(int) -> nat, m: int, k: int)
    requires
        0 <= k < m,
        forall|t: int| 0 <= t < m && t != k ==> #[trigger] f(t) == g(t),
    ensures
        sum_upto(g, m) + f(k) == sum_upto(f, m) + g(k),
    decreases m,
{
    if m - 1 != k {
        lemma_sum_update(f, g, m - 1, k);
    } else {
        lemma_sum_ext(f, g, m - 1);
    }
}

pub proof fn lemma_sum_ext(f: spec_fn(int) -> nat, g: spec_fn(int) -> nat, m: int)
    requires
        forall|t: int| 0 <= t < m ==> #[trigger] f(t) == g(t),
    ensures
        sum_upto(f, m) == sum_upto(g, m),
    decreases m,
{
    if m > 0 {
        lemma_sum_ext(f, g, m - 1);
    }
}

pub proof fn lemma_sum_le(f: spec_fn(int) -> nat, g: spec_fn(int) -> nat, m: int)
    requires
        forall|t: int| 0 <= t < m ==> #[trigger] f(t) <= g(t),
    ensures
        sum_upto(f, m) <= sum_upto(g, m),
    decreases m,
{
    if m > 0 {
        lemma_sum_le(f, g, m - 1);
    }
}

pub proof fn lemma_sum_part(f: spec_fn(int) -> nat, m: int, k: int)
    requires
        0 <= k < m,
    ensures
        f(k) <= sum_upto(f, m),
    decreases m,
{
    if m - 1 != k {
        lemma_sum_part(f, m - 1, k);
    }
}

pub proof fn lemma_sum_plus_one(f: spec_fn(int) -> nat, g: spec_fn(int) -> nat, m: int)
    requires
        m >= 0,
        forall|t: int| 0 <= t < m ==> #[trigger] g(t) == f(t) + 1,
    ensures
        sum_upto(g, m) == sum_upto(f, m) + m,
    decreases m,
{
    if m > 0 {
        lemma_sum_plus_one(f, g, m - 1);
    }
}

pub proof fn lemma_count_in_contains(s: Seq<usize>, x: usize)
    ensures
        (count_in(s, x) > 0) == s.contains(x),
    decreases s.len(),
{
    if s.len() > 0 {
        lemma_count_in_contains(s.drop_last(), x);
        if s.drop_last().contains(x) {
            let k = choose|k: int| 0 <= k < s.drop_last().len() && s.drop_last()[k] == x;
            assert(s[k] == x);
        }
        if s.contains(x) && s.last() != x {
            let k = choose|k: int| 0 <= k < s.len() && s[k] == x;
            assert(s.drop_last()[k] == x);
        }
    }
}

pub proof fn lemma_count_in_unique(s: Seq<usize>, x: usize)
    requires
        s.no_duplicates(),
    ensures
        count_in(s, x) <= 1,
    decreases s.len(),
{
    if s.len() > 0 {
        lemma_count_in_unique(s.drop_last(), x);
        if s.last() == x {
            lemma_count_in_contains(s.drop_last(), x);
            if s.drop_last().contains(x) {
                let k = choose|k: int| 0 <= k < s.drop_last().len() && s.drop_last()[k] == x;
                assert(s[k] == s[s.len() - 1]);
            }
        }
    }
}

pub proof fn lemma_count_in_split(s: Seq<usize>, p: int, x: usize)
    requires
        0 <= p <= s.len(),
    ensures
        count_in(s, x) == count_in(s.take(p), x) + count_in(s.skip(p), x),
{
    lemma_count_in_concat(s.take(p), s.skip(p), x);
    assert(s.take(p) + s.skip(p) =~= s);
}

/// The part of task `t`'s unlock sequence that names its explicit dependants.
pub open spec fn deps_part<Q>(ts: Seq<Task<Q>>, t: int) -> Seq<usize> {
    ts[t].unlock_ids().take(ts[t].unlock_ids().len() - ts[t].lock_ids().len())
}

/// How many times `x` is named among the explicit dependants of all tasks.
pub open spec fn named_count<Q>(ts: Seq<Task<Q>>, x: usize) -> nat {
    sum_upto(|t: int| count_in(deps_part(ts, t), x), ts.len() as int)
}

/// A well-formed plan: ids in place, lock sets without duplicates or self,
/// each unlock sequence its dependants followed by its lock set, dependants
/// declared later, and each initial count the number of times the task is
/// named as a dependant, with room for every lock the others may add.
pub open spec fn plans_wf<Q>(ts: Seq<Task<Q>>) -> bool {
    let n = ts.len();
    &&& forall|x: int| 0 <= x < n ==> (#[trigger] ts[x]).spec_id() == x
    &&& forall|x: int| 0 <= x < n ==> (#[trigger] ts[x]).lock_ids().no_duplicates()
    &&& forall|x: int, k: int|
        0 <= x < n && 0 <= k < ts[x].lock_ids().len() ==> #[trigger] ts[x].lock_ids()[k] < n
            && ts[x].lock_ids()[k] != x
    &&& forall|x: int|
        0 <= x < n ==> (#[trigger] ts[x]).unlock_ids().len() >= ts[x].lock_ids().len()
            && ts[x].unlock_ids().skip(ts[x].unlock_ids().len() - ts[x].lock_ids().len())
            == ts[x].lock_ids()
    &&& forall|x: int, k: int|
        0 <= x < n && 0 <= k < deps_part(ts, x).len() ==> x < #[trigger] deps_part(ts, x)[k] < n
    &&& forall|x: int| 0 <= x < n ==> (#[trigger] ts[x]).spec_initial() == named_count(ts, x as usize)
    &&& forall|x: int| 0 <= x < n ==> (#[trigger] ts[x]).spec_initial() + n < CNT_MASK
}

/// Both task tables hold the same plans.
pub open spec fn same_plans<Q>(a: Seq<Task<Q>>, b: Seq<Task<Q>>) -> bool {
    &&& a.len() == b.len()
    &&& forall|x: int| 0 <= x < a.len() ==> (#[trigger] a[x]).same_plan(b[x])
}

/// An order of execution: every task once, and each task after every task
/// that names it as an explicit dependant.
pub open spec fn valid_order<Q>(ts: Seq<Task<Q>>, order: Seq<usize>) -> bool {
    &&& order.len() == ts.len()
    &&& order.no_duplicates()
    &&& forall|i: int| 0 <= i < order.len() ==> #[trigger] order[i] < ts.len()
    &&& forall|i: int, j: int|
        0 <= i < order.len() && 0 <= j < order.len() && #[trigger] deps_part(ts, order[i] as int).contains(
            #[trigger] order[j],
        ) ==> i < j
}

/// Well-formedness and valid orders depend on the plans alone.
pub proof fn lemma_same_plans<Q>(a: Seq<Task<Q>>, b: Seq<Task<Q>>, order: Seq<usize>)
    requires
        same_plans(a, b),
    ensures
        plans_wf(a) ==> plans_wf(b),
        valid_order(a, order) ==> valid_order(b, order),
{
    let n = a.len() as int;
    assert forall|t: int| 0 <= t < n implies #[trigger] deps_part(b, t) == deps_part(a, t) by {
        assert(a[t].same_plan(b[t]));
    }
    assert forall|x: usize| #[trigger] named_count(b, x) == named_count(a, x) by {
        let f = |t: int| count_in(deps_part(a, t), x);
        let g = |t: int| count_in(deps_part(b, t), x);
        assert forall|t: int| 0 <= t < n implies #[trigger] f(t) == g(t) by {
            assert(deps_part(b, t) == deps_part(a, t));
        }
        lemma_sum_ext(f, g, n);
    }
    if plans_wf(a) {
        assert forall|x: int| 0 <= x < n implies (#[trigger] b[x]).spec_id() == x && b[x].lock_ids()
            == a[x].lock_ids() && b[x].unlock_ids() == a[x].unlock_ids() && b[x].spec_initial()
            == a[x].spec_initial() by {
            assert(a[x].same_plan(b[x]));
        }
        assert forall|x: int, k: int| 0 <= x < n && 0 <= k < deps_part(b, x).len() implies x
            < #[trigger] deps_part(b, x)[k] < n by {
            assert(deps_part(b, x) == deps_part(a, x));
        }
        assert forall|x: int, k: int|
            0 <= x < n && 0 <= k < b[x].lock_ids().len() implies #[trigger] b[x].lock_ids()[k] < n
            && b[x].lock_ids()[k] != x by {
            assert(a[x].same_plan(b[x]));
        }
    }
    if valid_order(a, order) {
        assert forall|i: int, j: int|
            0 <= i < order.len() && 0 <= j < order.len() && #[trigger] deps_part(b, order[i] as int).contains(
                #[trigger] order[j],
            ) implies i < j by {
            assert(deps_part(b, order[i] as int) == deps_part(a, order[i] as int));
        }
    }
}

/// A compiled task graph, ready to be run any number of times.
pub struct InterlockExecutor<Q> {
    tasks: Vec<Task<Q>>,
}

impl<Q> InterlockExecutor<Q> {
    pub closed spec fn spec_len(&self) -> nat {
        self.tasks@.len()
    }

    pub closed spec fn task_at(&self, x: int) -> Task<Q> {
        self.tasks@[x]
    }

    pub closed spec fn plans(&self) -> Seq<Task<Q>> {
        self.tasks@
    }

    pub open spec fn wf(&self) -> bool {
        plans_wf(self.plans())
    }

    /// Every cell is Completed with no pending lock: a run may start.
    pub open spec fn resettable(&self) -> bool {
        forall|x: int| 0 <= x < self.spec_len() ==> (#[trigger] self.task_at(x)).cell().is_resettable()
    }

    /// `after` is what a run of `before` leaves, the tasks having run in `order`.
    pub open spec fn ran(before: Self, after: Self, order: Seq<usize>) -> bool {
        &&& after.wf()
        &&& after.resettable()
        &&& same_plans(before.plans(), after.plans())
        &&& valid_order(after.plans(), order)
    }

    /// An executor over already compiled tasks.
    pub fn from_tasks(tasks: Vec<Task<Q>>) -> (r: Self)
        ensures
            r.spec_len() == tasks.len(),
            forall|x: int| 0 <= x < tasks.len() ==> r.task_at(x) == tasks@[x],
            r.plans() == tasks@,
    {
        InterlockExecutor { tasks }
    }

    /// The compiled tasks.
    pub fn tasks(&self) -> (r: &[Task<Q>])
        ensures
            r@ == self.plans(),
    {
        self.tasks.as_slice()
    }

    /// Runs every task once against `data`, each after the tasks it depends
    /// on, and leaves the executor ready for the next run. Returns the ids in
    /// the order the tasks ran.
    pub fn run<T>(&mut self, data: &T) -> (r: Vec<TaskId>)
        where Q: Executable<T>,
        requires
            old(self).wf(),
            old(self).resettable(),
        ensures
            Self::ran(*old(self), *final(self), crate::task::ids(r@)),
    {
        let mut tasks: Vec<Task<Q>> = Vec::new();
        std::mem::swap(&mut self.tasks, &mut tasks);
        assert(tasks@ == old(self).plans());
        assert forall|x: int| 0 <= x < tasks@.len() implies (#[trigger] tasks@[x]).cell().is_resettable() by {
            assert(tasks@[x] == old(self).task_at(x));
        }
        let mut ctx = Context::new(data, tasks);
        let order = ctx.run();
        self.tasks = ctx.into_tasks();
        proof {
            lemma_same_plans(old(self).plans(), self.plans(), crate::task::ids(order@));
            assert forall|x: int| 0 <= x < self.spec_len() implies (#[trigger] self.task_at(x)).cell().is_resettable() by {
                assert(self.task_at(x) == self.plans()[x]);
            }
        }
        order
    }
}

} // verus!
