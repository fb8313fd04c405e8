use vstd::prelude::*;
use crate::cell::CNT_MASK;
use crate::executor::{
    deps_part, lemma_count_in_contains, lemma_count_in_split, lemma_count_in_unique,
    lemma_sum_ext, lemma_sum_le, lemma_sum_part, lemma_sum_plus_one, lemma_sum_update,
    plans_wf, same_plans, sum_upto, valid_order,
};
use crate::task::{count_in, ids, Task, TaskId};
use crate::Executable;

verus! {

/// How many unlocks `t` still owes `x`: those of its dependants while it has
/// not begun, else those left in its unlock sequence past `prog[t]`.
pub open spec fn owed_by<Q>(plans: Seq<Task<Q>>, prog: Seq<int>, t: int, x: usize) -> nat {
    if prog[t] < 0 {
        count_in(deps_part(plans, t), x)
    } else {
        count_in(plans[t].unlock_ids().skip(prog[t]), x)
    }
}

/// How many unlocks all tasks together still owe `x`.
pub open spec fn owed<Q>(plans: Seq<Task<Q>>, prog: Seq<int>, x: usize) -> nat {
    sum_upto(|t: int| owed_by(plans, prog, t, x), plans.len() as int)
}

/// Steps left to task `t`: beginning it, then each unlock.
pub open spec fn steps_left<Q>(plans: Seq<Task<Q>>, prog: Seq<int>, t: int) -> nat {
    if prog[t] < 0 {
        plans[t].unlock_ids().len() + 1
    } else {
        (plans[t].unlock_ids().len() - prog[t]) as nat
    }
}

/// How many tasks have begun.
pub open spec fn begun_count(prog: Seq<int>) -> nat {
    sum_upto(|t: int| if prog[t] >= 0 { 1nat } else { 0nat }, prog.len() as int)
}

/// The run's invariant: plans kept; each task Counting until it begins and
/// Completed after; each counter equal to the unlocks still owed to it; the
/// log holds the begun tasks once each, every task after the tasks that name
/// it as a dependant, and those have all begun.
spec fn run_inv<Q>(plans: Seq<Task<Q>>, ts: Seq<Task<Q>>, prog: Seq<int>, log: Seq<usize>) -> bool {
    let n = plans.len();
    &&& plans_wf(plans)
    &&& same_plans(plans, ts)
    &&& prog.len() == n
    &&& forall|x: int| 0 <= x < n ==> (prog[x] < 0) == (#[trigger] ts[x]).cell().is_counting()
    &&& forall|x: int|
        0 <= x < n && prog[x] >= 0 ==> (#[trigger] ts[x]).cell().is_completed()
            && !ts[x].cell().is_locked() && prog[x] <= plans[x].unlock_ids().len()
    &&& forall|x: int| 0 <= x < n ==> (#[trigger] ts[x]).cell().count() == owed(plans, prog, x as usize)
    &&& log.no_duplicates()
    &&& log.len() == begun_count(prog)
    &&& forall|i: int| 0 <= i < log.len() ==> #[trigger] log[i] < n
    &&& forall|x: int| 0 <= x < n ==> log.contains(x as usize) == (#[trigger] prog[x] >= 0)
    &&& forall|i: int, j: int|
        0 <= i < log.len() && 0 <= j < log.len() && #[trigger] deps_part(plans, log[i] as int).contains(
            #[trigger] log[j],
        ) ==> i < j
    &&& forall|j: int, t: int|
        0 <= j < log.len() && 0 <= t < n && #[trigger] deps_part(plans, t).contains(#[trigger] log[j])
            ==> log.contains(t as usize)
}

/// The state right after task `t`, ready in `before`, has begun: its peers
/// locked, its payload run, its cell released.
proof fn lemma_after_begin<Q>(
    plans: Seq<Task<Q>>,
    before: Seq<Task<Q>>,
    ts: Seq<Task<Q>>,
    prog0: Seq<int>,
    log0: Seq<usize>,
    t: usize,
)
    requires
        run_inv(plans, before, prog0, log0),
        t < plans.len(),
        before[t as int].cell().is_ready(),
        same_plans(plans, ts),
        ts[t as int].cell().is_completed(),
        !ts[t as int].cell().is_locked(),
        ts[t as int].cell().count() == 0,
        forall|x: int|
            0 <= x < plans.len() && x != t ==> (#[trigger] ts[x]).cell().is_locked()
                == before[x].cell().is_locked() && ts[x].cell().is_completed()
                == before[x].cell().is_completed() && ts[x].cell().count() == before[x].cell().count()
                + count_in(plans[t as int].lock_ids(), x as usize),
        forall|x: int|
            0 <= x < plans.len() ==> owed(plans, prog0.update(t as int, 0), x as usize)
                == #[trigger] before[x].cell().count() + count_in(plans[t as int].lock_ids(), x as usize),
    ensures
        run_inv(plans, ts, prog0.update(t as int, 0), log0.push(t)),
{
    let n = plans.len() as int;
    let prog1 = prog0.update(t as int, 0);
    let log1 = log0.push(t);
    let lock_t = plans[t as int].lock_ids();
    assert(prog0[t as int] < 0);
    // the task itself is owed nothing
    lemma_count_in_contains(lock_t, t);
    if lock_t.contains(t) {
        let k = choose|k: int| 0 <= k < lock_t.len() && lock_t[k] == t;
    }
    // counting and flags
    assert forall|x: int| 0 <= x < n implies (prog1[x] < 0) == (#[trigger] ts[x]).cell().is_counting() by {}
    assert forall|x: int| 0 <= x < n && prog1[x] >= 0 implies (#[trigger] ts[x]).cell().is_completed()
        && !ts[x].cell().is_locked() && prog1[x] <= plans[x].unlock_ids().len() by {}
    assert forall|x: int| 0 <= x < n implies (#[trigger] ts[x]).cell().count() == owed(plans, prog1, x as usize) by {}
    // begun count
    let f0 = |s: int| if prog0[s] >= 0 { 1nat } else { 0nat };
    let f1 = |s: int| if prog1[s] >= 0 { 1nat } else { 0nat };
    assert forall|s: int| 0 <= s < n && s != t implies #[trigger] f0(s) == f1(s) by {}
    lemma_sum_update(f0, f1, n, t as int);
    // log
    assert(!log0.contains(t));
    assert forall|i: int, j: int| 0 <= i < log1.len() && 0 <= j < log1.len() && i != j implies log1[i]
        != log1[j] by {
        if i == log0.len() {
            assert(log0.contains(log1[j]));
        } else if j == log0.len() {
            assert(log0.contains(log1[i]));
        }
    }
    assert forall|x: int| 0 <= x < n implies log1.contains(x as usize) == (#[trigger] prog1[x] >= 0) by {
        if x != t {
            if log1.contains(x as usize) {
                let k = choose|k: int| 0 <= k < log1.len() && log1[k] == x as usize;
                assert(log0[k] == x);
            }
            if log0.contains(x as usize) {
                let k = choose|k: int| 0 <= k < log0.len() && log0[k] == x as usize;
                assert(log1[k] == x);
            }
        } else {
            assert(log1[log0.len() as int] == t);
        }
    }
    // every task naming `t` as a dependant has begun
    assert forall|s: int| 0 <= s < n && #[trigger] deps_part(plans, s).contains(t) implies log0.contains(
        s as usize,
    ) by {
        let f = |u: int| owed_by(plans, prog0, u, t);
        lemma_sum_part(f, n, s);
        lemma_count_in_contains(deps_part(plans, s), t);
        assert(before[t as int].cell().count() == 0);
    }
    assert forall|i: int, j: int|
        0 <= i < log1.len() && 0 <= j < log1.len() && #[trigger] deps_part(plans, log1[i] as int).contains(
            #[trigger] log1[j],
        ) implies i < j by {
        if i == log0.len() && j < log0.len() {
            assert(log0.contains(t));
        } else if i < log0.len() && j < log0.len() {
            assert(deps_part(plans, log0[i] as int).contains(log0[j]));
        } else if i == j {
            let k = choose|k: int|
                0 <= k < deps_part(plans, t as int).len() && deps_part(plans, t as int)[k] == t;
        }
    }
    assert forall|j: int, s: int|
        0 <= j < log1.len() && 0 <= s < n && #[trigger] deps_part(plans, s).contains(#[trigger] log1[j])
            implies log1.contains(s as usize) by {
        if j < log0.len() {
            assert(deps_part(plans, s).contains(log0[j]));
            let k = choose|k: int| 0 <= k < log0.len() && log0[k] == s as usize;
            assert(log1[k] == s);
        } else {
            let k = choose|k: int| 0 <= k < log0.len() && log0[k] == s as usize;
            assert(log1[k] == s);
        }
    }
}

/// The state of one run: the tasks, and what has happened to each.
pub struct Context<'r, T, Q> {
    data: &'r T,
    tasks: Vec<Task<Q>>,
    plans: Ghost<Seq<Task<Q>>>,
    progress: Ghost<Seq<int>>,
    log: Ghost<Seq<usize>>,
}

impl<'r, T, Q: Executable<T>> Context<'r, T, Q> {
    pub closed spec fn spec_plans(&self) -> Seq<Task<Q>> {
        self.plans@
    }

    pub closed spec fn spec_tasks(&self) -> Seq<Task<Q>> {
        self.tasks@
    }

    pub closed spec fn spec_log(&self) -> Seq<usize> {
        self.log@
    }

    pub closed spec fn spec_progress(&self) -> Seq<int> {
        self.progress@
    }

    /// The run's invariant, whatever the stack of pending unlock sequences.
    pub closed spec fn inv(&self) -> bool {
        run_inv(self.plans@, self.tasks@, self.progress@, self.log@)
    }

    /// The pending unlock sequences: each a begun task and its position.
    pub closed spec fn frames_ok(&self, stack: Seq<(usize, usize)>) -> bool {
        let plans = self.plans@;
        let prog = self.progress@;
        let n = plans.len();
        &&& forall|i: int| 0 <= i < stack.len() ==> (#[trigger] stack[i]).0 < n && prog[stack[i].0 as int]
            == stack[i].1 as int
        &&& forall|i: int, j: int|
            0 <= i < stack.len() && 0 <= j < stack.len() && i != j ==> (#[trigger] stack[i]).0
                != (#[trigger] stack[j]).0
        &&& forall|t: int|
            0 <= t < n && 0 <= #[trigger] prog[t] < plans[t].unlock_ids().len() ==> exists|i: int|
                0 <= i < stack.len() && (#[trigger] stack[i]).0 == t
    }

    /// Every task that has not begun is ready to be tried after `seed`, or
    /// still waits for unlocks.
    pub closed spec fn waiting(&self, seed: int) -> bool {
        forall|x: int|
            0 <= x < self.plans@.len() && #[trigger] self.progress@[x] < 0 ==> x >= seed
                || self.tasks@[x].cell().count() > 0
    }


    /// A run over `tasks`: every cell is reset to its initial count.
    pub fn new(data: &'r T, tasks: Vec<Task<Q>>) -> (r: Self)
        requires
            plans_wf(tasks@),
            forall|x: int| 0 <= x < tasks@.len() ==> (#[trigger] tasks@[x]).cell().is_resettable(),
        ensures
            r.inv(),
            r.waiting(0),
            r.frames_ok(seq![]),
            r.spec_log().len() == 0,
            r.spec_plans() == tasks@,
    {
        let ghost plans = tasks@;
        let n = tasks.len();
        let mut tasks = tasks;
        let mut i: usize = 0;
        while i < n
            invariant
                n == plans.len(),
                plans_wf(plans),
                same_plans(plans, tasks@),
                i <= n,
                forall|x: int| 0 <= x < i ==> (#[trigger] tasks@[x]).cell().is_counting()
                    && tasks@[x].cell().count() == plans[x].spec_initial(),
                forall|x: int| i <= x < n ==> (#[trigger] tasks@[x]).cell().is_resettable(),
            decreases n - i,
        {
            assert(tasks@[i as int].same_plan(plans[i as int]));
            tasks[i].init();
            i = i + 1;
        }
        let ghost prog = Seq::new(n as nat, |_t: int| -1int);
        proof {
            assert forall|x: int| 0 <= x < n implies (#[trigger] tasks@[x]).cell().count() == owed(
                plans,
                prog,
                x as usize,
            ) by {
                assert(tasks@[x].same_plan(plans[x]));
                let f = |t: int| owed_by(plans, prog, t, x as usize);
                let g = |t: int| count_in(deps_part(plans, t), x as usize);
                assert forall|t: int| 0 <= t < n implies #[trigger] f(t) == g(t) by {}
                lemma_sum_ext(f, g, n as int);
            }
            let f = |t: int| if prog[t] >= 0 { 1nat } else { 0nat };
            assert forall|t: int| 0 <= t < n implies #[trigger] f(t) == (|t: int| 0nat)(t) by {}
            lemma_sum_ext(f, |t: int| 0nat, n as int);
            lemma_sum_zero(n as int);
        }
        let ghost empty: Seq<usize> = seq![];
        Context { data, tasks, plans: Ghost(plans), progress: Ghost(prog), log: Ghost(empty) }
    }

    /// The tasks, handed back after the run.
    pub fn into_tasks(self) -> (r: Vec<Task<Q>>)
        ensures
            r@ == self.spec_tasks(),
    {
        self.tasks
    }

    /// Takes task `t` if it is ready; then locks the peers it conflicts with,
    /// runs it and releases it.
    fn try_begin(&mut self, t: usize) -> (r: bool)
        requires
            old(self).inv(),
            t < old(self).spec_plans().len(),
        ensures
            final(self).inv(),
            final(self).spec_plans() == old(self).spec_plans(),
            r == old(self).spec_tasks()[t as int].cell().is_ready(),
            r ==> final(self).spec_progress() == old(self).spec_progress().update(t as int, 0)
                && final(self).spec_log() == old(self).spec_log().push(t),
            !r ==> final(self).spec_progress() == old(self).spec_progress(),
            !r ==> final(self).spec_log() == old(self).spec_log(),
            !r ==> final(self).spec_tasks() == old(self).spec_tasks(),
            forall|x: int|
                0 <= x < old(self).spec_plans().len() && x != t ==> (#[trigger] final(self).spec_tasks()[x]).cell().count()
                    >= old(self).spec_tasks()[x].cell().count(),
    {
        let ghost plans = self.plans@;
        let ghost prog0 = self.progress@;
        let ghost log0 = self.log@;
        let ghost before = self.tasks@;
        let n = self.tasks.len();
        match self.tasks[t].take() {
            None => false,
            Some(handle) => {
                let ghost prog1 = prog0.update(t as int, 0);
                let ghost lock_t = plans[t as int].lock_ids();
                proof {
                    assert(before[t as int].same_plan(plans[t as int]));
                    assert forall|x: int|
                        0 <= x < n implies owed(plans, prog1, x as usize) == #[trigger] before[x].cell().count()
                        + count_in(lock_t, x as usize) && owed(plans, prog1, x as usize) < CNT_MASK by {
                        let f0 = |s: int| owed_by(plans, prog0, s, x as usize);
                        let f1 = |s: int| owed_by(plans, prog1, s, x as usize);
                        assert forall|s: int| 0 <= s < n && s != t implies #[trigger] f0(s) == f1(
                            s,
                        ) by {}
                        lemma_sum_update(f0, f1, n as int, t as int);
                        let u = plans[t as int].unlock_ids();
                        assert(u.skip(0) =~= u);
                        lemma_count_in_split(u, u.len() - lock_t.len(), x as usize);
                        assert forall|s: int| 0 <= s < n implies #[trigger] prog1[s]
                            <= plans[s].unlock_ids().len() by {
                            assert(before[s].same_plan(plans[s]));
                        }
                        Self::lemma_owed_bound(plans, prog1, x as usize);
                        assert(before[x].same_plan(plans[x]));
                    }
                }
                let n_lock = self.tasks[t].lockable_deps().len();
                let mut j: usize = 0;
                while j < n_lock
                    invariant
                        n == plans.len(),
                        t < n,
                        plans_wf(plans),
                        same_plans(plans, self.tasks@),
                        self.plans@ == plans,
                        self.progress@ == prog0,
                        self.log@ == log0,
                        lock_t == plans[t as int].lock_ids(),
                        n_lock == lock_t.len(),
                        j <= n_lock,
                        self.tasks@[t as int].cell().is_running(),
                        self.tasks@[t as int].cell().count() == 0,
                        forall|x: int|
                            0 <= x < n && x != t ==> (#[trigger] self.tasks@[x]).cell().is_locked()
                                == before[x].cell().is_locked() && self.tasks@[x].cell().is_completed()
                                == before[x].cell().is_completed() && self.tasks@[x].cell().count()
                                == before[x].cell().count() + count_in(lock_t.take(j as int), x as usize),
                        forall|x: int|
                            0 <= x < n ==> owed(plans, prog1, x as usize) == #[trigger] before[x].cell().count()
                                + count_in(lock_t, x as usize) && owed(plans, prog1, x as usize)
                                < CNT_MASK,
                    decreases n_lock - j,
                {
                    let y = self.tasks[t].lockable_deps()[j].0;
                    proof {
                        assert(self.tasks@[t as int].same_plan(plans[t as int]));
                        assert(y == lock_t[j as int]);
                        assert(y < n && y != t);
                        assert(lock_t.take(j as int + 1) =~= lock_t.take(j as int).push(y));
                        crate::task::lemma_count_in_concat(lock_t.take(j as int), seq![y], y);
                        assert(lock_t.take(j as int).push(y) =~= lock_t.take(j as int) + seq![y]);
                        lemma_count_in_split(lock_t, j as int + 1, y);
                        crate::task::lemma_count_in_single(y, y);
                    }
                    let ghost mid = self.tasks@;
                    self.tasks[y].lock();
                    proof {
                        assert forall|x: int|
                            0 <= x < n && x != t implies (#[trigger] self.tasks@[x]).cell().is_locked()
                            == before[x].cell().is_locked() && self.tasks@[x].cell().is_completed()
                            == before[x].cell().is_completed() && self.tasks@[x].cell().count()
                            == before[x].cell().count() + count_in(
                            lock_t.take(j as int + 1),
                            x as usize,
                        ) by {
                            crate::task::lemma_count_in_concat(
                                lock_t.take(j as int),
                                seq![y],
                                x as usize,
                            );
                            crate::task::lemma_count_in_single(y, x as usize);
                            assert(lock_t.take(j as int + 1) =~= lock_t.take(j as int) + seq![y]);
                            if x != y {
                                assert(self.tasks@[x] == mid[x]);
                            }
                        }
                        assert(self.tasks@[t as int] == mid[t as int]);
                    }
                    j = j + 1;
                }
                self.tasks[t].execute(&handle, self.data);
                self.tasks[t].release(handle);
                self.progress = Ghost(prog1);
                let ghost log1 = log0.push(t);
                self.log = Ghost(log1);
                proof {
                    assert(lock_t.take(n_lock as int) =~= lock_t);
                    lemma_after_begin(plans, before, self.tasks@, prog0, log0, t);
                }
                true
            },
        }
    }


    /// Steps left to the run, with the pending frames.
    pub closed spec fn measure(&self, frames: nat) -> nat {
        2 * sum_upto(|t: int| steps_left(self.plans@, self.progress@, t), self.plans@.len() as int)
            + frames
    }

    /// Performs the next unlock of the top frame; takes, runs and pushes the
    /// task it leaves ready.
    #[verifier::rlimit(100)]
    fn advance(
        &mut self,
        stack: &mut Vec<(usize, usize)>,
        order: &mut Vec<TaskId>,
        Ghost(seed): Ghost<int>,
        Ghost(prog_start): Ghost<Seq<int>>,
    )
        requires
            old(self).inv(),
            old(self).frames_ok(old(stack)@),
            old(self).waiting(seed),
            ids(old(order)@) == old(self).spec_log(),
            old(stack)@.len() > 0,
            old(stack)@.last().1 < old(self).spec_plans()[old(stack)@.last().0 as int].unlock_ids().len(),
            prog_start.len() == old(self).spec_plans().len(),
            forall|z: int|
                0 <= z < prog_start.len() && #[trigger] prog_start[z] >= 0 ==> old(self).spec_progress()[z] >= 0,
        ensures
            final(self).inv(),
            final(self).frames_ok(final(stack)@),
            final(self).waiting(seed),
            ids(final(order)@) == final(self).spec_log(),
            final(self).spec_plans() == old(self).spec_plans(),
            forall|z: int|
                0 <= z < prog_start.len() && #[trigger] prog_start[z] >= 0 ==> final(self).spec_progress()[z] >= 0,
            final(self).measure(final(stack)@.len()) < old(self).measure(old(stack)@.len()),
    {
        let ghost plans = self.plans@;
        let n = self.tasks.len();
        let top = stack.len() - 1;
        let (t, pos) = stack[top];
        assert(stack@[top as int].0 < n);
        assert(self.tasks@[t as int].same_plan(plans[t as int]));
        let ghost prog0 = self.progress@;
        let x = self.tasks[t].unlockable_deps()[pos].0;
        let ghost prog1 = prog0.update(t as int, pos + 1);
        let ghost u = plans[t as int].unlock_ids();
        proof {
            assert(x == u[pos as int]);
            assert(u.skip(pos as int) =~= seq![x] + u.skip(pos as int + 1));
            assert forall|z: usize| #[trigger] count_in(u.skip(pos as int), z) == count_in(
                seq![x],
                z,
            ) + count_in(u.skip(pos as int + 1), z) by {
                crate::task::lemma_count_in_concat(seq![x], u.skip(pos as int + 1), z);
            }
            crate::task::lemma_count_in_single(x, x);
            let a = u.len() - plans[t as int].lock_ids().len();
            if pos < a {
                assert(deps_part(plans, t as int)[pos as int] == u[pos as int]);
            } else {
                assert(u.skip(a)[pos - a] == u[pos as int]);
                assert(plans[t as int].lock_ids()[pos - a] == x);
            }
            assert(x < n);
            let f0 = |s: int| owed_by(plans, prog0, s, x);
            lemma_sum_part(f0, n as int, t as int);
            assert(self.tasks@[x as int].cell().count() >= 1);
        }
        let ghost before = self.tasks@;
        let ghost st0 = stack@;
        let ready = self.tasks[x].unlock();
        self.progress = Ghost(prog1);
        stack.set(top, (t, pos + 1));
        proof {
            assert forall|z: int| 0 <= z < n implies (#[trigger] self.tasks@[z]).cell().count()
                == owed(plans, prog1, z as usize) by {
                let f0 = |s: int| owed_by(plans, prog0, s, z as usize);
                let f1 = |s: int| owed_by(plans, prog1, s, z as usize);
                assert forall|s: int| 0 <= s < n && s != t implies #[trigger] f0(s) == f1(s) by {}
                lemma_sum_update(f0, f1, n as int, t as int);
                crate::task::lemma_count_in_single(x, z as usize);
                if z != x {
                    assert(self.tasks@[z] == before[z]);
                }
            }
            let g0 = |s: int| if prog0[s] >= 0 { 1nat } else { 0nat };
            let g1 = |s: int| if prog1[s] >= 0 { 1nat } else { 0nat };
            assert forall|s: int| 0 <= s < n implies #[trigger] g0(s) == g1(s) by {}
            lemma_sum_ext(g0, g1, n as int);
            let h0 = |s: int| steps_left(plans, prog0, s);
            let h1 = |s: int| steps_left(plans, prog1, s);
            assert forall|s: int| 0 <= s < n && s != t implies #[trigger] h0(s) == h1(s) by {}
            lemma_sum_update(h0, h1, n as int, t as int);
            assert forall|z: int| 0 <= z < n implies (#[trigger] self.tasks@[z]).same_plan(plans[z]) by {
                assert(before[z].same_plan(plans[z]));
            }
            assert(self.inv());
            assert(self.frames_ok(stack@)) by {
                assert forall|s: int|
                    0 <= s < n && 0 <= #[trigger] prog1[s] < plans[s].unlock_ids().len()
                        implies exists|i: int| 0 <= i < stack@.len() && (#[trigger] stack@[i]).0 == s by {
                    assert(prog0[s] >= 0);
                    if s != t {
                        assert(0 <= prog0[s] < plans[s].unlock_ids().len());
                        let i = choose|i: int| 0 <= i < st0.len() && (#[trigger] st0[i]).0 == s;
                        assert(stack@[i] == st0[i]);
                    } else {
                        assert(stack@[top as int].0 == s);
                    }
                }
            }
        }
        if ready {
            let ghost mid_stack = stack@;
            let ghost mid_prog = self.progress@;
            let ghost mid_tasks = self.tasks@;
            let ghost mid_steps = sum_upto(|u: int| steps_left(plans, mid_prog, u), n as int);
            let began = self.try_begin(x);
            assert(began);
            order.push(TaskId::new(x));
            stack.push((x, 0));
            proof {
                assert(ids(order@) =~= self.log@);
                let h0 = |s: int| steps_left(plans, mid_prog, s);
                let h1 = |s: int| steps_left(plans, self.progress@, s);
                assert forall|s: int| 0 <= s < n && s != x implies #[trigger] h0(s) == h1(s) by {}
                lemma_sum_update(h0, h1, n as int, x as int);
                assert(self.frames_ok(stack@)) by {
                    let p = self.progress@;
                    assert forall|i: int| 0 <= i < stack@.len() implies (#[trigger] stack@[i]).0 < n
                        && p[stack@[i].0 as int] == stack@[i].1 as int by {
                        if i < stack@.len() - 1 {
                            assert(mid_prog[stack@[i].0 as int] >= 0);
                        }
                    }
                    assert forall|i: int, j: int|
                        0 <= i < stack@.len() && 0 <= j < stack@.len() && i != j implies (#[trigger] stack@[i]).0
                            != (#[trigger] stack@[j]).0 by {
                        if i == stack@.len() - 1 {
                            assert(mid_prog[stack@[j].0 as int] >= 0);
                        } else if j == stack@.len() - 1 {
                            assert(mid_prog[stack@[i].0 as int] >= 0);
                        }
                    }
                    assert forall|s: int|
                        0 <= s < n && 0 <= #[trigger] p[s] < plans[s].unlock_ids().len()
                            implies exists|i: int| 0 <= i < stack@.len() && (#[trigger] stack@[i]).0 == s by {
                        if s == x {
                            assert(stack@[stack@.len() - 1].0 == s);
                        } else {
                            assert(0 <= mid_prog[s] < plans[s].unlock_ids().len());
                            let i = choose|i: int| 0 <= i < mid_stack.len() && (#[trigger] mid_stack[i]).0 == s;
                            assert(stack@[i] == mid_stack[i]);
                        }
                    }
                }
                assert forall|z: int|
                    0 <= z < n && #[trigger] self.progress@[z] < 0 implies z >= seed
                        || self.tasks@[z].cell().count() > 0 by {
                    assert(z != x);
                    assert(mid_tasks[z] == before[z]);
                    assert(self.spec_tasks()[z].cell().count() >= mid_tasks[z].cell().count());
                }
            }
        } else {
            proof {
                assert forall|z: int|
                    0 <= z < n && #[trigger] self.progress@[z] < 0 implies z >= seed
                        || self.tasks@[z].cell().count() > 0 by {
                    if z != x {
                        assert(self.tasks@[z] == before[z]);
                    }
                }
            }
        }
    }

    /// Works through the unlock sequence of `first`, which has just begun,
    /// and of every task that it leaves ready, depth first.
    fn drive(&mut self, first: usize, order: &mut Vec<TaskId>, Ghost(seed): Ghost<int>)
        requires
            old(self).inv(),
            old(self).frames_ok(seq![(first, 0usize)]),
            old(self).waiting(seed),
            ids(old(order)@) == old(self).spec_log(),
        ensures
            final(self).inv(),
            final(self).frames_ok(seq![]),
            final(self).waiting(seed),
            final(self).spec_plans() == old(self).spec_plans(),
            ids(final(order)@) == final(self).spec_log(),
            forall|z: int|
                0 <= z < old(self).spec_plans().len() && #[trigger] old(self).spec_progress()[z] >= 0
                    ==> final(self).spec_progress()[z] >= 0,
    {
        let ghost prog_start = self.progress@;
        let mut stack: Vec<(usize, usize)> = Vec::new();
        stack.push((first, 0));
        assert(stack@ =~= seq![(first, 0usize)]);
        let ghost plans = self.plans@;
        let n = self.tasks.len();
        while stack.len() > 0
            invariant
                n == plans.len(),
                self.plans@ == plans,
                self.inv(),
                self.frames_ok(stack@),
                self.waiting(seed),
                ids(order@) == self.log@,
                prog_start.len() == n,
                forall|z: int| 0 <= z < n && #[trigger] prog_start[z] >= 0 ==> self.progress@[z] >= 0,
            decreases self.measure(stack@.len()),
        {
            let top = stack.len() - 1;
            let (t, pos) = stack[top];
            assert(stack@[top as int].0 < n);
            assert(self.tasks@[t as int].same_plan(plans[t as int]));
            let len = self.tasks[t].unlockable_deps().len();
            let ghost prog0 = self.progress@;
            if pos < len {
                self.advance(&mut stack, order, Ghost(seed), Ghost(prog_start));
            } else {
                let ghost old_stack = stack@;
                stack.pop();
                proof {
                    assert(prog0[t as int] == len);
                    assert(self.frames_ok(stack@)) by {
                        assert forall|i: int| 0 <= i < stack@.len() implies (#[trigger] stack@[i]).0 < n
                            && prog0[stack@[i].0 as int] == stack@[i].1 as int by {
                            assert(stack@[i] == old_stack[i]);
                        }
                        assert forall|i: int, j: int|
                            0 <= i < stack@.len() && 0 <= j < stack@.len() && i != j implies (#[trigger] stack@[i]).0
                                != (#[trigger] stack@[j]).0 by {
                            assert(stack@[i] == old_stack[i] && stack@[j] == old_stack[j]);
                        }
                        assert forall|s: int|
                            0 <= s < n && 0 <= #[trigger] prog0[s] < plans[s].unlock_ids().len()
                                implies exists|i: int| 0 <= i < stack@.len() && (#[trigger] stack@[i]).0 == s by {
                            let i = choose|i: int| 0 <= i < old_stack.len() && (#[trigger] old_stack[i]).0 == s;
                            assert(i != top);
                            assert(stack@[i] == old_stack[i]);
                        }
                    }
                }
            }
        }
    }


    /// Runs every task once, each after the tasks it depends on, and leaves
    /// every cell Completed with its counter at zero. Returns the ids in the
    /// order the tasks ran.
    pub fn run(&mut self) -> (r: Vec<TaskId>)
        requires
            old(self).inv(),
            old(self).waiting(0),
            old(self).frames_ok(seq![]),
            old(self).spec_log().len() == 0,
        ensures
            same_plans(old(self).spec_plans(), final(self).spec_tasks()),
            forall|x: int|
                0 <= x < final(self).spec_tasks().len() ==> (#[trigger] final(self).spec_tasks()[x]).cell().is_resettable(),
            valid_order(old(self).spec_plans(), ids(r@)),
    {
        let ghost plans = self.plans@;
        let n = self.tasks.len();
        let mut order: Vec<TaskId> = Vec::new();
        let mut i: usize = 0;
        assert(ids(order@) =~= self.log@);
        while i < n
            invariant
                n == plans.len(),
                self.plans@ == plans,
                self.inv(),
                self.frames_ok(seq![]),
                self.waiting(i as int),
                i <= n,
                ids(order@) == self.log@,
            decreases n - i,
        {
            let ghost before = self.tasks@;
            let ghost prog0 = self.progress@;
            let began = self.try_begin(i);
            if began {
                order.push(TaskId::new(i));
                proof {
                    assert(ids(order@) =~= self.log@);
                    assert(self.frames_ok(seq![(i, 0usize)])) by {
                        let st = seq![(i, 0usize)];
                        assert forall|t: int|
                            0 <= t < n && 0 <= #[trigger] self.progress@[t] < plans[t].unlock_ids().len()
                                implies exists|k: int| 0 <= k < st.len() && (#[trigger] st[k]).0 == t by {
                            if t != i {
                                assert(prog0[t] == self.progress@[t]);
                            } else {
                                assert(st[0].0 == t);
                            }
                        }
                    }
                    assert forall|z: int|
                        0 <= z < n && #[trigger] self.progress@[z] < 0 implies z >= i
                            || self.tasks@[z].cell().count() > 0 by {
                        assert(self.spec_tasks()[z].cell().count() >= before[z].cell().count());
                    }
                }
                self.drive(i, &mut order, Ghost(i as int));
            }
            proof {
                assert forall|z: int|
                    0 <= z < n && #[trigger] self.progress@[z] < 0 implies z >= i + 1
                        || self.tasks@[z].cell().count() > 0 by {
                    if z == i {
                        if began {
                            assert(self.spec_progress()[z] >= 0);
                        } else {
                            assert(self.tasks@[z] == before[z]);
                            assert(before[z].cell().is_counting());
                        }
                    }
                }
            }
            i = i + 1;
        }
        proof {
            self.lemma_all_begun(n as int);
            let prog = self.progress@;
            assert forall|t: int| 0 <= t < n && #[trigger] prog[t] >= 0 implies prog[t]
                == plans[t].unlock_ids().len() by {
                if prog[t] < plans[t].unlock_ids().len() {
                    let st: Seq<(usize, usize)> = seq![];
                    assert(st.len() == 0);
                }
            }
            assert forall|x: int| 0 <= x < n implies (#[trigger] self.tasks@[x]).cell().is_resettable() by {
                Self::lemma_owed_zero(plans, prog, x as usize);
            }
            let f = |t: int| if prog[t] >= 0 { 1nat } else { 0nat };
            let z = |t: int| 0nat;
            assert forall|t: int| 0 <= t < n implies #[trigger] f(t) == z(t) + 1 by {}
            lemma_sum_plus_one(z, f, n as int);
            lemma_sum_zero(n as int);
        }
        order
    }

    /// With nothing left to drive and every task tried, all tasks have begun.
    proof fn lemma_all_begun(&self, k: int)
        requires
            self.inv(),
            self.frames_ok(seq![]),
            self.waiting(self.plans@.len() as int),
            0 <= k <= self.plans@.len(),
        ensures
            forall|x: int| 0 <= x < k ==> #[trigger] self.progress@[x] >= 0,
        decreases k,
    {
        if k > 0 {
            self.lemma_all_begun(k - 1);
            let plans = self.plans@;
            let prog = self.progress@;
            assert forall|t: int| 0 <= t < plans.len() && #[trigger] prog[t] >= 0 implies prog[t]
                == plans[t].unlock_ids().len() by {
                if prog[t] < plans[t].unlock_ids().len() {
                    let st: Seq<(usize, usize)> = seq![];
                    assert(st.len() == 0);
                }
            }
            if prog[k - 1] < 0 {
                Self::lemma_owed_zero(plans, prog, (k - 1) as usize);
                assert(self.tasks@[k - 1].cell().count() == 0);
            }
        }
    }

    /// Resource exclusion: while a begun task has not yet released its lock
    /// set (its pending unlocks still reach into it), every peer it locked
    /// has a counter of at least one, so it cannot be taken.
    pub proof fn lemma_locked_out(&self, stack: Seq<(usize, usize)>, i: int, y: usize)
        requires
            self.inv(),
            self.frames_ok(stack),
            0 <= i < stack.len(),
            stack[i].1 <= self.spec_plans()[stack[i].0 as int].unlock_ids().len()
                - self.spec_plans()[stack[i].0 as int].lock_ids().len(),
            self.spec_plans()[stack[i].0 as int].lock_ids().contains(y),
        ensures
            self.spec_tasks()[y as int].cell().count() >= 1,
            !self.spec_tasks()[y as int].cell().is_ready(),
    {
        let plans = self.plans@;
        let prog = self.progress@;
        let n = plans.len() as int;
        let t = stack[i].0 as int;
        let pos = stack[i].1 as int;
        let u = plans[t].unlock_ids();
        let l = plans[t].lock_ids();
        let a = u.len() - l.len();
        let k = choose|k: int| 0 <= k < l.len() && l[k] == y;
        assert(l[k] < n);
        assert(prog[t] == pos);
        let f = |s: int| owed_by(plans, prog, s, y);
        lemma_sum_part(f, n, t);
        lemma_count_in_split(u.skip(pos), a - pos, y);
        assert(u.skip(pos).skip(a - pos) =~= u.skip(a));
        lemma_count_in_contains(l, y);
    }

    proof fn lemma_owed_bound(plans: Seq<Task<Q>>, prog: Seq<int>, x: usize)
        requires
            plans_wf(plans),
            prog.len() == plans.len(),
            forall|t: int| 0 <= t < plans.len() ==> #[trigger] prog[t] <= plans[t].unlock_ids().len(),
        ensures
            owed(plans, prog, x) <= plans[x as int].spec_initial() + plans.len() || x >= plans.len(),
    {
        if x < plans.len() {
            let n = plans.len() as int;
            let f = |t: int| owed_by(plans, prog, t, x);
            let d = |t: int| count_in(deps_part(plans, t), x);
            let g = |t: int| count_in(deps_part(plans, t), x) + 1;
            assert forall|t: int| 0 <= t < n implies #[trigger] f(t) <= g(t) by {
                let u = plans[t].unlock_ids();
                let a = u.len() - plans[t].lock_ids().len();
                assert(plans[t].lock_ids() == u.skip(a));
                lemma_count_in_split(u, a, x);
                lemma_count_in_unique(plans[t].lock_ids(), x);
                if prog[t] >= 0 {
                    lemma_count_in_split(u, prog[t], x);
                }
            }
            lemma_sum_le(f, g, n);
            lemma_sum_plus_one(d, g, n);
        }
    }

    /// Finished: every begun task has done all its unlocks.
    proof fn lemma_owed_zero(plans: Seq<Task<Q>>, prog: Seq<int>, x: usize)
        requires
            plans_wf(plans),
            prog.len() == plans.len(),
            x < plans.len(),
            forall|t: int|
                0 <= t < plans.len() && #[trigger] prog[t] >= 0 ==> prog[t]
                    == plans[t].unlock_ids().len(),
            forall|t: int| 0 <= t < x ==> #[trigger] prog[t] >= 0,
        ensures
            owed(plans, prog, x) == 0,
    {
        let n = plans.len() as int;
        let f = |t: int| owed_by(plans, prog, t, x);
        let z = |t: int| 0nat;
        assert forall|t: int| 0 <= t < n implies #[trigger] f(t) == z(t) by {
            if prog[t] >= 0 {
                assert(plans[t].unlock_ids().skip(prog[t]) =~= Seq::<usize>::empty());
            } else {
                assert(t >= x);
                lemma_count_in_contains(deps_part(plans, t), x);
                if deps_part(plans, t).contains(x) {
                    let k = choose|k: int|
                        0 <= k < deps_part(plans, t).len() && deps_part(plans, t)[k] == x;
                }
            }
        }
        lemma_sum_ext(f, z, n);
        lemma_sum_zero(n);
    }
}

proof fn lemma_sum_zero(m: int)
    ensures
        sum_upto(|t: int| 0nat, m) == 0,
    decreases m,
{
    if m > 0 {
        lemma_sum_zero(m - 1);
    }
}

} // verus!
