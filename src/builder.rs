use vstd::prelude::*;
use multimap::MultiMap;
use crate::task::{count_in, ids, lemma_count_in_concat, Task, TaskId};
use crate::executor::{deps_part, named_count, plans_wf, sum_upto, lemma_sum_ext, InterlockExecutor};
use crate::cell::{CNT_MASK, COMP_BIT};

verus! {

#[verifier::external_type_specification]
#[verifier::external_body]
#[verifier::reject_recursive_types(K)]
#[verifier::reject_recursive_types(V)]
#[verifier::reject_recursive_types(S)]
pub struct ExMultiMap<K, V, S>(MultiMap<K, V, S>);

/// Resources mapped to the tasks that name them.
pub type ResourceIndex = MultiMap<u64, usize>;

/// What a resource index holds: for each resource, the tasks that named it,
/// in the order they were inserted.
pub uninterp spec fn multimap_entries(m: ResourceIndex) -> Map<u64, Seq<usize>>;

/// The entries of an index that holds no key.
pub open spec fn no_entries() -> Map<u64, Seq<usize>> {
    Map::empty()
}

/// The vector a key holds after `v` is inserted under it.
pub open spec fn appended(e: Map<u64, Seq<usize>>, k: u64, v: usize) -> Seq<usize> {
    if e.contains_key(k) {
        e[k].push(v)
    } else {
        seq![v]
    }
}

/// Relies on multimap::MultiMap::new: a new map holds no key.
#[verifier::external_body]
fn index_new() -> (r: ResourceIndex)
    ensures
        multimap_entries(r) == no_entries(),
{
    MultiMap::new()
}

/// Relies on multimap::MultiMap::insert: the value is pushed onto the key's
/// vector, which is created when the key is absent.
#[verifier::external_body]
fn index_insert(m: &mut ResourceIndex, k: u64, v: usize)
    ensures
        multimap_entries(*final(m)) == multimap_entries(*old(m)).insert(
            k,
            appended(multimap_entries(*old(m)), k, v),
        ),
{
    m.insert(k, v)
}

/// Relies on multimap::MultiMap::get_vec: the key's vector, when the key is present.
#[verifier::external_body]
fn index_get(m: &ResourceIndex, k: u64) -> (r: Option<Vec<usize>>)
    ensures
        r.is_some() == multimap_entries(*m).contains_key(k),
        r.is_some() ==> r.unwrap()@ == multimap_entries(*m)[k],
{
    m.get_vec(&k).cloned()
}

/// Relies on multimap::MultiMap::keys: every key once, in an order the map picks.
#[verifier::external_body]
fn index_keys(m: &ResourceIndex) -> (r: Vec<u64>)
    ensures
        r@.no_duplicates(),
        forall|k: u64|
            #![trigger r@.contains(k)]
            #![trigger multimap_entries(*m).contains_key(k)]
            r@.contains(k) <==> multimap_entries(*m).contains_key(k),
{
    m.keys().copied().collect()
}

/// A declared task: its payload, its explicit predecessors and the resources
/// it reads and writes.
struct TaskBuilder<Q> {
    task: Q,
    dependencies: Vec<TaskId>,
    reads: Vec<u64>,
    writes: Vec<u64>,
}

/// Collects declared tasks; `build` compiles them into an executor.
pub struct InterlockBuilder<Q> {
    tasks: Vec<TaskBuilder<Q>>,
}

/// Whether `s` holds `y` for the task at `x` of a table of task lists.
pub open spec fn listed(s: Seq<Vec<usize>>, x: int, y: int) -> bool {
    0 <= y <= usize::MAX && s[x]@.contains(y as usize)
}

/// `next` holds everything that `prev` holds.
pub open spec fn grows(prev: Seq<Vec<usize>>, next: Seq<Vec<usize>>) -> bool {
    &&& next.len() == prev.len()
    &&& forall|x: int, y: int| #[trigger]
        listed(prev, x, y) && 0 <= x < prev.len() ==> listed(next, x, y)
}

proof fn lemma_push_contains<A>(s: Seq<A>, a: A, x: A)
    ensures
        s.push(a).contains(x) == (s.contains(x) || x == a),
{
    if s.contains(x) {
        let k = choose|k: int| 0 <= k < s.len() && s[k] == x;
        assert(s.push(a)[k] == x);
    }
    if x == a {
        assert(s.push(a)[s.len() as int] == x);
    }
    if s.push(a).contains(x) {
        let k = choose|k: int| 0 <= k < s.push(a).len() && s.push(a)[k] == x;
        if k < s.len() {
            assert(s[k] == x);
        }
    }
}

/// Whether `v` holds `y`.
fn holds(v: &Vec<usize>, y: usize) -> (r: bool)
    ensures
        r == v@.contains(y),
{
    let mut i: usize = 0;
    while i < v.len()
        invariant
            i <= v.len(),
            forall|k: int| 0 <= k < i ==> v@[k] != y,
        decreases v.len() - i,
    {
        if v[i] == y {
            return true;
        }
        i = i + 1;
    }
    false
}

/// Adds `y` to the list of `x`, unless it is there already.
fn add_lock(sets: &mut Vec<Vec<usize>>, x: usize, y: usize)
    requires
        x < old(sets).len(),
        old(sets)@[x as int]@.no_duplicates(),
    ensures
        final(sets).len() == old(sets).len(),
        forall|i: int| 0 <= i < old(sets).len() && i != x ==> final(sets)@[i] == old(sets)@[i],
        final(sets)@[x as int]@.no_duplicates(),
        forall|z: usize|
            final(sets)@[x as int]@.contains(z) == (old(sets)@[x as int]@.contains(z) || z == y),
{
    if !holds(&sets[x], y) {
        proof {
            assert forall|z: usize|
                sets@[x as int]@.push(y).contains(z) == (sets@[x as int]@.contains(z) || z == y) by {
                lemma_push_contains(sets@[x as int]@, y, z);
            }
        }
        sets[x].push(y);
    }
}

/// A table of `n` empty lists.
fn empty_lists(n: usize) -> (r: Vec<Vec<usize>>)
    ensures
        r.len() == n,
        forall|x: int| 0 <= x < n ==> (#[trigger] r@[x])@.len() == 0,
{
    let mut r: Vec<Vec<usize>> = Vec::new();
    while r.len() < n
        invariant
            r.len() <= n,
            forall|x: int| 0 <= x < r.len() ==> (#[trigger] r@[x])@.len() == 0,
        decreases n - r.len(),
    {
        r.push(Vec::new());
    }
    r
}

/// How many times `s` names task `x`.
pub open spec fn occurrences(s: Seq<TaskId>, x: int) -> nat
    decreases s.len(),
{
    if s.len() == 0 {
        0
    } else {
        occurrences(s.drop_last(), x) + if s.last().0 == x {
            1nat
        } else {
            0nat
        }
    }
}

/// `k` copies of the task index `i`.
pub open spec fn copies(k: nat, i: int) -> Seq<usize> {
    Seq::new(k, |_j: int| i as usize)
}

proof fn lemma_to_ids_push(s: Seq<usize>, v: Seq<TaskId>, t: TaskId)
    requires
        ids(v) == s,
    ensures
        ids(v.push(t)) == s.push(t.0),
{
    assert(ids(v.push(t)) =~= s.push(t.0));
}

/// The task ids of `v`, in order.
fn to_ids(v: &Vec<usize>) -> (r: Vec<TaskId>)
    ensures
        ids(r@) == v@,
{
    let mut r: Vec<TaskId> = Vec::new();
    let mut i: usize = 0;
    proof {
        assert(ids(r@) =~= v@.take(0));
    }
    while i < v.len()
        invariant
            i <= v.len(),
            ids(r@) == v@.take(i as int),
        decreases v.len() - i,
    {
        proof {
            lemma_to_ids_push(v@.take(i as int), r@, TaskId(v@[i as int]));
            assert(v@.take(i as int).push(v@[i as int]) =~= v@.take(i as int + 1));
        }
        r.push(TaskId::new(v[i]));
        i = i + 1;
    }
    proof {
        assert(v@.take(v.len() as int) =~= v@);
    }
    r
}

/// Lists `rest` after `first`.
fn ids_concat(first: &Vec<usize>, rest: &Vec<usize>) -> (r: Vec<TaskId>)
    ensures
        ids(r@) == first@ + rest@,
{
    let mut r = to_ids(first);
    let mut i: usize = 0;
    proof {
        assert(first@ + rest@.take(0) =~= first@);
    }
    while i < rest.len()
        invariant
            i <= rest.len(),
            ids(r@) == first@ + rest@.take(i as int),
        decreases rest.len() - i,
    {
        proof {
            lemma_to_ids_push(first@ + rest@.take(i as int), r@, TaskId(rest@[i as int]));
            assert((first@ + rest@.take(i as int)).push(rest@[i as int]) =~= first@ + rest@.take(
                i as int + 1,
            ));
        }
        r.push(TaskId::new(rest[i]));
        i = i + 1;
    }
    proof {
        assert(rest@.take(rest.len() as int) =~= rest@);
    }
    r
}

proof fn lemma_occurrences_named(s: Seq<TaskId>, x: int)
    ensures
        occurrences(s, x) > 0 ==> exists|j: int| 0 <= j < s.len() && s[j].0 == x,
    decreases s.len(),
{
    if s.len() > 0 {
        lemma_occurrences_named(s.drop_last(), x);
        if occurrences(s.drop_last(), x) > 0 {
            let sd = s.drop_last();
            let j = choose|j: int| 0 <= j < sd.len() && (#[trigger] sd[j]).0 == x;
            assert(s[j].0 == x);
        } else if s.last().0 == x {
            assert(s[s.len() - 1].0 == x);
        }
    }
}

proof fn lemma_count_in_copies(k: nat, i: int, x: usize)
    ensures
        count_in(copies(k, i), x) == if x == i as usize {
            k
        } else {
            0
        },
    decreases k,
{
    if k > 0 {
        assert(copies(k, i).drop_last() =~= copies((k - 1) as nat, i));
        lemma_count_in_copies((k - 1) as nat, i, x);
    } else {
        assert(copies(k, i) =~= Seq::<usize>::empty());
    }
}

/// How many ids of `s` are below `m`.
pub open spec fn below(s: Seq<TaskId>, m: int) -> nat
    decreases s.len(),
{
    if s.len() == 0 {
        0
    } else {
        below(s.drop_last(), m) + if s.last().0 < m {
            1nat
        } else {
            0nat
        }
    }
}

/// The number of ids of `s` that are below `m`, counted id by id.
pub open spec fn named_below(s: Seq<TaskId>, m: int) -> nat
    decreases m,
{
    if m <= 0 {
        0
    } else {
        named_below(s, m - 1) + occurrences(s, m - 1)
    }
}

proof fn lemma_below_step(s: Seq<TaskId>, m: int)
    requires
        m >= 0,
    ensures
        below(s, m + 1) == below(s, m) + occurrences(s, m),
    decreases s.len(),
{
    if s.len() > 0 {
        lemma_below_step(s.drop_last(), m);
    }
}

proof fn lemma_named_below(s: Seq<TaskId>, m: int)
    requires
        m >= 0,
    ensures
        named_below(s, m) == below(s, m),
    decreases m,
{
    if m > 0 {
        lemma_named_below(s, m - 1);
        lemma_below_step(s, m - 1);
    } else {
        lemma_below_zero(s);
    }
}

proof fn lemma_below_zero(s: Seq<TaskId>)
    ensures
        below(s, 0) == 0,
    decreases s.len(),
{
    if s.len() > 0 {
        lemma_below_zero(s.drop_last());
    }
}

proof fn lemma_below_all(s: Seq<TaskId>, m: int)
    requires
        forall|j: int| 0 <= j < s.len() ==> (#[trigger] s[j]).0 < m,
    ensures
        below(s, m) == s.len(),
    decreases s.len(),
{
    if s.len() > 0 {
        lemma_below_all(s.drop_last(), m);
    }
}

impl<Q> InterlockBuilder<Q> {
    pub closed spec fn spec_len(&self) -> nat {
        self.tasks@.len()
    }

    pub closed spec fn decl_reads(&self, i: int) -> Seq<u64> {
        self.tasks@[i].reads@
    }

    pub closed spec fn decl_writes(&self, i: int) -> Seq<u64> {
        self.tasks@[i].writes@
    }

    pub closed spec fn decl_deps(&self, i: int) -> Seq<TaskId> {
        self.tasks@[i].dependencies@
    }

    pub closed spec fn decl_payload(&self, i: int) -> Q {
        self.tasks@[i].task
    }

    /// The reads (`writes == false`) or the writes of the task at `i`.
    pub open spec fn decl_list(&self, writes: bool, i: int) -> Seq<u64> {
        if writes {
            self.decl_writes(i)
        } else {
            self.decl_reads(i)
        }
    }

    /// Tasks `a` and `b` conflict on `r`: both write it, or one writes it and
    /// the other reads it.
    pub open spec fn conflict_on(&self, a: int, b: int, r: u64) -> bool {
        ||| self.decl_writes(a).contains(r) && (self.decl_writes(b).contains(r)
            || self.decl_reads(b).contains(r))
        ||| self.decl_reads(a).contains(r) && self.decl_writes(b).contains(r)
    }

    /// Two distinct tasks that conflict on some resource.
    pub open spec fn conflicting(&self, a: int, b: int) -> bool {
        a != b && exists|r: u64| #[trigger] self.conflict_on(a, b, r)
    }

    /// Every explicit predecessor was declared before its dependant.
    pub open spec fn wf(&self) -> bool {
        forall|i: int, j: int|
            0 <= i < self.spec_len() && 0 <= j < self.decl_deps(i).len() ==> (#[trigger] self.decl_deps(
                i,
            )[j]).0 < i
    }

    /// The lock-set table is sound: no duplicates, only conflicting peers.
    pub open spec fn sound_locks(&self, sets: Seq<Vec<usize>>) -> bool {
        &&& sets.len() == self.spec_len()
        &&& forall|x: int| 0 <= x < sets.len() ==> (#[trigger] sets[x])@.no_duplicates()
        &&& forall|x: int, y: int| #[trigger]
            listed(sets, x, y) && 0 <= x < sets.len() ==> 0 <= y < self.spec_len()
                && self.conflicting(x, y)
    }

    /// An index of resources to the tasks that read (or write) them, over the
    /// tasks before `done` and the first `part` resources of task `done`.
    pub open spec fn indexes(&self, e: Map<u64, Seq<usize>>, writes: bool, done: int, part: int) -> bool {
        &&& forall|r: u64, i: usize|
            #![trigger e[r].contains(i)]
            e.contains_key(r) && e[r].contains(i) ==> ((0 <= i < done && self.decl_list(
                writes,
                i as int,
            ).contains(r)) || (i == done && self.decl_list(writes, done).take(part).contains(r)))
        &&& forall|r: u64, i: usize|
            0 <= i < done && #[trigger] self.decl_list(writes, i as int).contains(r)
                ==> e.contains_key(r) && e[r].contains(i)
        &&& forall|r: u64|
            #[trigger] self.decl_list(writes, done).take(part).contains(r) ==> e.contains_key(r)
                && e[r].contains(done as usize)
    }

    /// `m` indexes every resource to exactly the tasks that write it.
    pub open spec fn index_of_writes(&self, m: ResourceIndex) -> bool {
        &&& forall|r: u64, i: usize|
            #![trigger multimap_entries(m)[r].contains(i)]
            multimap_entries(m).contains_key(r) && multimap_entries(m)[r].contains(i) ==> i
                < self.spec_len() && self.decl_writes(i as int).contains(r)
        &&& forall|r: u64, i: usize|
            i < self.spec_len() && #[trigger] self.decl_writes(i as int).contains(r)
                ==> multimap_entries(m).contains_key(r) && multimap_entries(m)[r].contains(i)
    }

    /// `m` indexes every resource to exactly the tasks that read it.
    pub open spec fn index_of_reads(&self, m: ResourceIndex) -> bool {
        &&& forall|r: u64, i: usize|
            #![trigger multimap_entries(m)[r].contains(i)]
            multimap_entries(m).contains_key(r) && multimap_entries(m)[r].contains(i) ==> i
                < self.spec_len() && self.decl_reads(i as int).contains(r)
        &&& forall|r: u64, i: usize|
            i < self.spec_len() && #[trigger] self.decl_reads(i as int).contains(r)
                ==> multimap_entries(m).contains_key(r) && multimap_entries(m)[r].contains(i)
    }

    pub fn new() -> (r: Self)
        ensures
            r.spec_len() == 0,
            r.wf(),
    {
        InterlockBuilder { tasks: Vec::new() }
    }

    /// The index of every resource that the tasks read (`writes == false`) or write.
    fn resource_index(&self, writes: bool) -> (m: ResourceIndex)
        ensures
            writes ==> self.index_of_writes(m),
            !writes ==> self.index_of_reads(m),
    {
        let mut m = index_new();
        let n = self.tasks.len();
        let mut id: usize = 0;
        proof {
            assert(self.decl_list(writes, 0).take(0) =~= Seq::<u64>::empty());
        }
        while id < n
            invariant
                n == self.spec_len(),
                id <= n,
                self.indexes(multimap_entries(m), writes, id as int, 0),
            decreases n - id,
        {
            let list = if writes {
                &self.tasks[id].writes
            } else {
                &self.tasks[id].reads
            };
            assert(list@ == self.decl_list(writes, id as int));
            let mut j: usize = 0;
            while j < list.len()
                invariant
                    n == self.spec_len(),
                    id < n,
                    j <= list.len(),
                    list@ == self.decl_list(writes, id as int),
                    self.indexes(multimap_entries(m), writes, id as int, j as int),
                decreases list.len() - j,
            {
                let ghost prev = multimap_entries(m);
                index_insert(&mut m, list[j], id);
                proof {
                    let t0 = list@.take(j as int);
                    assert(list@.take(j as int + 1) =~= t0.push(list@[j as int]));
                    let e = multimap_entries(m);
                    assert forall|r: u64|
                        #[trigger] e.contains_key(r) implies e[r] == (if r == list@[j as int] {
                            appended(prev, r, id)
                        } else {
                            prev[r]
                        }) && (r != list@[j as int] ==> prev.contains_key(r)) by {}
                    assert forall|r: u64| t0.push(list@[j as int]).contains(r) == (t0.contains(r)
                        || r == list@[j as int]) by {
                        lemma_push_contains(t0, list@[j as int], r);
                    }
                    assert forall|r: u64, i: usize| prev.contains_key(r) implies (prev[r].push(
                        id,
                    ).contains(i) == (prev[r].contains(i) || i == id)) by {
                        if prev.contains_key(r) {
                            lemma_push_contains(prev[r], id, i);
                        }
                    }
                    assert forall|i: usize| seq![id].contains(i) == (i == id) by {
                        lemma_push_contains(Seq::<usize>::empty(), id, i);
                        assert(seq![id] =~= Seq::<usize>::empty().push(id));
                    }
                    let lj = self.decl_list(writes, id as int).take(j + 1);
                    assert(lj == t0.push(list@[j as int]));
                    assert forall|r: u64, i: usize|
                        #![trigger e[r].contains(i)]
                        e.contains_key(r) && e[r].contains(i) implies ((0 <= i < id
                        && self.decl_list(writes, i as int).contains(r)) || (i == id
                        && lj.contains(r))) by {
                        lemma_push_contains(t0, list@[j as int], r);
                        if r == list@[j as int] {
                            if prev.contains_key(r) {
                                lemma_push_contains(prev[r], id, i);
                                assert(e[r] == prev[r].push(id));
                                if prev[r].contains(i) {
                                    assert(t0.contains(r) ==> lj.contains(r));
                                }
                            } else {
                                lemma_push_contains(Seq::<usize>::empty(), id, i);
                                assert(seq![id] =~= Seq::<usize>::empty().push(id));
                                assert(e[r] == seq![id]);
                            }
                        } else {
                            assert(e[r] == prev[r]);
                            assert(prev[r].contains(i));
                        }
                    }
                    assert forall|r: u64, i: usize|
                        0 <= i < id && #[trigger] self.decl_list(writes, i as int).contains(r)
                            implies e.contains_key(r) && e[r].contains(i) by {
                        assert(prev.contains_key(r) && prev[r].contains(i));
                    }
                    assert forall|r: u64| #[trigger] lj.contains(r) implies e.contains_key(r)
                        && e[r].contains(id as usize) by {
                        lemma_push_contains(t0, list@[j as int], r);
                        if r != list@[j as int] {
                            assert(t0.contains(r));
                            assert(prev.contains_key(r) && prev[r].contains(id as usize));
                            assert(e[r] == prev[r]);
                        } else if prev.contains_key(r) {
                            lemma_push_contains(prev[r], id, id);
                            assert(e[r] == prev[r].push(id));
                        } else {
                            lemma_push_contains(Seq::<usize>::empty(), id, id);
                            assert(seq![id] =~= Seq::<usize>::empty().push(id));
                            assert(e[r] == seq![id]);
                        }
                    }
                }
                j = j + 1;
            }
            proof {
                assert(list@.take(list.len() as int) =~= list@);
                if id + 1 < n {
                    assert(self.decl_list(writes, id + 1).take(0) =~= Seq::<u64>::empty());
                }
            }
            id = id + 1;
        }
        proof {
            let e = multimap_entries(m);
            assert forall|r: u64, i: usize|
                #![trigger e[r].contains(i)]
                e.contains_key(r) && e[r].contains(i) implies i < n && self.decl_list(
                writes,
                i as int,
            ).contains(r) by {
                if i == n {
                    assert(self.decl_list(writes, n as int).take(0) =~= Seq::<u64>::empty());
                }
            }
            if writes {
                assert forall|r: u64, i: usize|
                    #![trigger e[r].contains(i)]
                    e.contains_key(r) && e[r].contains(i) implies i < n && self.decl_writes(
                    i as int,
                ).contains(r) by {
                    assert(self.decl_list(writes, i as int) == self.decl_writes(i as int));
                }
                assert forall|r: u64, i: usize|
                    i < n && #[trigger] self.decl_writes(i as int).contains(r) implies e.contains_key(
                    r,
                ) && e[r].contains(i) by {
                    assert(self.decl_list(writes, i as int) == self.decl_writes(i as int));
                    assert(self.decl_list(writes, i as int).contains(r));
                }
            } else {
                assert forall|r: u64, i: usize|
                    #![trigger e[r].contains(i)]
                    e.contains_key(r) && e[r].contains(i) implies i < n && self.decl_reads(
                    i as int,
                ).contains(r) by {
                    assert(self.decl_list(writes, i as int) == self.decl_reads(i as int));
                }
                assert forall|r: u64, i: usize|
                    i < n && #[trigger] self.decl_reads(i as int).contains(r) implies e.contains_key(
                    r,
                ) && e[r].contains(i) by {
                    assert(self.decl_list(writes, i as int) == self.decl_reads(i as int));
                    assert(self.decl_list(writes, i as int).contains(r));
                }
            }
        }
        m
    }

    /// The tasks among the first `m` that name `x` as a predecessor, each as
    /// many times as it names it, in declaration order.
    pub open spec fn dependants_upto(&self, x: int, m: int) -> Seq<usize>
        decreases m,
    {
        if m <= 0 {
            seq![]
        } else {
            self.dependants_upto(x, m - 1) + copies(occurrences(self.decl_deps(m - 1), x), m - 1)
        }
    }

    /// The explicit dependants of `x`.
    pub open spec fn dependants_of(&self, x: int) -> Seq<usize> {
        self.dependants_upto(x, self.spec_len() as int)
    }

    /// How many times `x` is named among the dependants of the first `m` tasks.
    pub open spec fn named_upto(&self, x: usize, m: int) -> nat
        decreases m,
    {
        if m <= 0 {
            0
        } else {
            self.named_upto(x, m - 1) + count_in(self.dependants_of(m - 1), x)
        }
    }

    proof fn lemma_dependants_count(&self, t: int, m: int, x: usize)
        requires
            0 <= m <= usize::MAX,
        ensures
            count_in(self.dependants_upto(t, m), x) == if x < m {
                occurrences(self.decl_deps(x as int), t)
            } else {
                0
            },
        decreases m,
    {
        if m > 0 {
            self.lemma_dependants_count(t, m - 1, x);
            lemma_count_in_concat(
                self.dependants_upto(t, m - 1),
                copies(occurrences(self.decl_deps(m - 1), t), m - 1),
                x,
            );
            lemma_count_in_copies(occurrences(self.decl_deps(m - 1), t), m - 1, x);
        } else {
            assert(self.dependants_upto(t, m) =~= Seq::<usize>::empty());
        }
    }

    proof fn lemma_named_upto(&self, x: usize, m: int)
        requires
            m >= 0,
            x < self.spec_len() <= usize::MAX,
        ensures
            self.named_upto(x, m) == named_below(self.decl_deps(x as int), m),
        decreases m,
    {
        if m > 0 {
            self.lemma_named_upto(x, m - 1);
            self.lemma_dependants_count(m - 1, self.spec_len() as int, x);
        }
    }

    /// Each task is named among the dependants as often as it names predecessors.
    proof fn lemma_initial_count(&self, x: usize)
        requires
            self.wf(),
            self.spec_len() <= usize::MAX,
            x < self.spec_len(),
        ensures
            self.named_upto(x, self.spec_len() as int) == self.decl_deps(x as int).len(),
    {
        self.lemma_named_upto(x, self.spec_len() as int);
        lemma_named_below(self.decl_deps(x as int), self.spec_len() as int);
        assert forall|j: int| 0 <= j < self.decl_deps(x as int).len() implies (
        #[trigger] self.decl_deps(x as int)[j]).0 < self.spec_len() by {}
        lemma_below_all(self.decl_deps(x as int), self.spec_len() as int);
    }

    /// The dependants of the first `m` tasks are all below `m`.
    proof fn lemma_dependants_below(&self, t: int, m: int)
        requires
            m >= 0,
        ensures
            forall|k: int|
                0 <= k < self.dependants_upto(t, m).len() ==> #[trigger] self.dependants_upto(
                    t,
                    m,
                )[k] < m,
        decreases m,
    {
        if m > 0 {
            self.lemma_dependants_below(t, m - 1);
            let a = self.dependants_upto(t, m - 1);
            let b = copies(occurrences(self.decl_deps(m - 1), t), m - 1);
            assert forall|k: int| 0 <= k < (a + b).len() implies #[trigger] (a + b)[k] < m by {
                if k >= a.len() {
                    assert(b[k - a.len()] == (m - 1) as usize);
                }
            }
        }
    }

    /// The dependants of `t` among the first `m` tasks come after `t`.
    proof fn lemma_dependants_above(&self, t: int, m: int)
        requires
            self.wf(),
            0 <= m <= self.spec_len() <= usize::MAX,
        ensures
            forall|k: int|
                0 <= k < self.dependants_upto(t, m).len() ==> t < #[trigger] self.dependants_upto(
                    t,
                    m,
                )[k],
        decreases m,
    {
        if m > 0 {
            self.lemma_dependants_above(t, m - 1);
            let a = self.dependants_upto(t, m - 1);
            let b = copies(occurrences(self.decl_deps(m - 1), t), m - 1);
            if b.len() > 0 {
                lemma_occurrences_named(self.decl_deps(m - 1), t);
                let dd = self.decl_deps(m - 1);
                let j = choose|j: int| 0 <= j < dd.len() && dd[j].0 == t;
                assert(dd[j].0 < m - 1);
            }
            assert forall|k: int| 0 <= k < (a + b).len() implies t < #[trigger] (a + b)[k] by {
                if k >= a.len() {
                    assert(b[k - a.len()] == (m - 1) as usize);
                }
            }
        }
    }

    /// A table of compiled tasks makes a well-formed plan.
    proof fn lemma_compiled_wf(&self, ts: Seq<Task<Q>>)
        requires
            self.wf(),
            ts.len() == self.spec_len() <= usize::MAX,
            forall|i: int|
                0 <= i < self.spec_len() ==> #[trigger] self.decl_deps(i).len() + self.spec_len()
                    < CNT_MASK,
            forall|k: int| 0 <= k < ts.len() ==> self.compiles_to(#[trigger] ts[k], k),
        ensures
            plans_wf(ts),
    {
        let n = ts.len() as int;
        assert forall|x: int| 0 <= x < n implies deps_part(ts, x) == self.dependants_of(x) by {
            assert(self.compiles_to(ts[x], x));
            assert(deps_part(ts, x) =~= self.dependants_of(x));
        }
        assert forall|x: int, k: int|
            0 <= x < n && 0 <= k < ts[x].lock_ids().len() implies #[trigger] ts[x].lock_ids()[k] < n
            && ts[x].lock_ids()[k] != x by {
            assert(self.compiles_to(ts[x], x));
            assert(ts[x].lock_ids().contains(ts[x].lock_ids()[k]));
        }
        assert forall|x: int|
            0 <= x < n implies (#[trigger] ts[x]).unlock_ids().len() >= ts[x].lock_ids().len()
            && ts[x].unlock_ids().skip(ts[x].unlock_ids().len() - ts[x].lock_ids().len())
            == ts[x].lock_ids() by {
            assert(self.compiles_to(ts[x], x));
            assert(ts[x].unlock_ids().skip(ts[x].unlock_ids().len() - ts[x].lock_ids().len())
                =~= ts[x].lock_ids());
        }
        assert forall|x: int, k: int|
            0 <= x < n && 0 <= k < deps_part(ts, x).len() implies x < #[trigger] deps_part(ts, x)[k]
            < n by {
            self.lemma_dependants_above(x, n);
            self.lemma_dependants_below(x, n);
        }
        assert forall|x: int| 0 <= x < n implies (#[trigger] ts[x]).spec_initial() == named_count(
            ts,
            x as usize,
        ) by {
            assert(self.compiles_to(ts[x], x));
            self.lemma_initial_count(x as usize);
            self.lemma_named_sum(ts, x as usize, n);
        }
        assert forall|x: int| 0 <= x < n implies (#[trigger] ts[x]).spec_initial() + n < CNT_MASK by {
            assert(self.compiles_to(ts[x], x));
        }
    }

    proof fn lemma_named_sum(&self, ts: Seq<Task<Q>>, x: usize, m: int)
        requires
            0 <= m <= ts.len(),
            forall|t: int| 0 <= t < ts.len() ==> deps_part(ts, t) == #[trigger] self.dependants_of(t),
        ensures
            sum_upto(|t: int| count_in(deps_part(ts, t), x), m) == self.named_upto(x, m),
        decreases m,
    {
        if m > 0 {
            self.lemma_named_sum(ts, x, m - 1);
            assert(deps_part(ts, m - 1) == self.dependants_of(m - 1));
        }
    }

    /// `t` is the compiled form of the declared task `x`.
    pub open spec fn compiles_to(&self, t: Task<Q>, x: int) -> bool {
        &&& t.spec_id() == x
        &&& t.cell().is_resettable()
        &&& t.cell().payload() == self.decl_payload(x)
        &&& t.lock_ids().no_duplicates()
        &&& forall|y: usize| #[trigger]
            t.lock_ids().contains(y) <==> (y < self.spec_len() && self.conflicting(x, y as int))
        &&& t.unlock_ids() == self.dependants_of(x) + t.lock_ids()
        &&& t.spec_initial() == self.decl_deps(x).len()
    }

    /// For each task, its explicit dependants.
    fn dependants(&self) -> (r: Vec<Vec<usize>>)
        requires
            self.wf(),
        ensures
            r.len() == self.spec_len(),
            forall|x: int| 0 <= x < r.len() ==> (#[trigger] r@[x])@ == self.dependants_of(x),
    {
        let n = self.tasks.len();
        let mut r = empty_lists(n);
        let mut id: usize = 0;
        proof {
            assert forall|x: int| 0 <= x < n implies (#[trigger] r@[x])@ == self.dependants_upto(x, 0)
                + copies(occurrences(self.decl_deps(0).take(0), x), 0) by {
                assert(r@[x]@ =~= self.dependants_upto(x, 0) + copies(
                    occurrences(self.decl_deps(0).take(0), x),
                    0,
                ));
            }
        }
        while id < n
            invariant
                n == self.spec_len(),
                self.wf(),
                id <= n,
                r.len() == n,
                forall|x: int|
                    0 <= x < n ==> (#[trigger] r@[x])@ == self.dependants_upto(x, id as int)
                        + copies(occurrences(self.decl_deps(id as int).take(0), x), id as int),
            decreases n - id,
        {
            let deps = &self.tasks[id].dependencies;
            assert(deps@ == self.decl_deps(id as int));
            let mut j: usize = 0;
            while j < deps.len()
                invariant
                    n == self.spec_len(),
                    self.wf(),
                    id < n,
                    j <= deps.len(),
                    r.len() == n,
                    deps@ == self.decl_deps(id as int),
                    forall|x: int|
                        0 <= x < n ==> (#[trigger] r@[x])@ == self.dependants_upto(x, id as int)
                            + copies(occurrences(deps@.take(j as int), x), id as int),
                decreases deps.len() - j,
            {
                let d = deps[j].0;
                assert(deps@.take(j as int + 1).drop_last() =~= deps@.take(j as int));
                assert(d < id);
                let ghost prev = r@;
                r[d].push(id);
                proof {
                    assert forall|x: int| 0 <= x < n implies (#[trigger] r@[x])@
                        == self.dependants_upto(x, id as int) + copies(
                        occurrences(deps@.take(j as int + 1), x),
                        id as int,
                    ) by {
                        let k = occurrences(deps@.take(j as int), x);
                        if x == d {
                            assert(copies(k + 1, id as int) =~= copies(k, id as int).push(id));
                            assert((self.dependants_upto(x, id as int) + copies(k, id as int)).push(
                                id,
                            ) =~= self.dependants_upto(x, id as int) + copies(k + 1, id as int));
                        } else {
                            assert(r@[x] == prev[x]);
                        }
                    }
                }
                j = j + 1;
            }
            proof {
                assert(deps@.take(deps.len() as int) =~= deps@);
                assert forall|x: int| 0 <= x < n implies (#[trigger] r@[x])@
                    == self.dependants_upto(x, id + 1) + copies(
                    occurrences(self.decl_deps(id + 1).take(0), x),
                    id + 1,
                ) by {
                    assert(self.dependants_upto(x, id + 1) + copies(
                        occurrences(self.decl_deps(id + 1).take(0), x),
                        id + 1,
                    ) =~= self.dependants_upto(x, id + 1));
                }
            }
            id = id + 1;
        }
        proof {
            assert forall|x: int| 0 <= x < n implies (#[trigger] r@[x])@ == self.dependants_of(x) by {
                assert(self.dependants_upto(x, n as int) + copies(
                    occurrences(self.decl_deps(n as int).take(0), x),
                    n as int,
                ) =~= self.dependants_upto(x, n as int));
            }
        }
        r
    }

    /// Declares a task; returns the id it was given, which is its position.
    pub fn add(&mut self, task: Q, reads: Vec<u64>, writes: Vec<u64>, deps: Vec<TaskId>) -> (r:
        TaskId)
        requires
            old(self).wf(),
            forall|j: int| 0 <= j < deps.len() ==> (#[trigger] deps@[j]).0 < old(self).spec_len(),
        ensures
            final(self).wf(),
            r.0 == old(self).spec_len(),
            final(self).spec_len() == old(self).spec_len() + 1,
            forall|i: int|
                0 <= i < old(self).spec_len() ==> final(self).same_decl(*old(self), i),
            final(self).decl_payload(r.0 as int) == task,
            final(self).decl_reads(r.0 as int) == reads@,
            final(self).decl_writes(r.0 as int) == writes@,
            final(self).decl_deps(r.0 as int) == deps@,
    {
        let id = TaskId::new(self.tasks.len());
        self.tasks.push(TaskBuilder { task, dependencies: deps, reads, writes });
        proof {
            assert forall|i: int, j: int|
                0 <= i < self.spec_len() && 0 <= j < self.decl_deps(i).len() implies (
                #[trigger] self.decl_deps(i)[j]).0 < i by {
                if i < old(self).spec_len() {
                    assert(self.decl_deps(i) == old(self).decl_deps(i));
                }
            }
        }
        id
    }

    /// Task `i` is declared alike in both builders.
    pub open spec fn same_decl(&self, other: Self, i: int) -> bool {
        &&& self.decl_payload(i) == other.decl_payload(i)
        &&& self.decl_reads(i) == other.decl_reads(i)
        &&& self.decl_writes(i) == other.decl_writes(i)
        &&& self.decl_deps(i) == other.decl_deps(i)
    }

    /// Compiles the declared tasks into an executor: each task locks the peers
    /// it conflicts with, unlocks its dependants and those peers, and starts
    /// each run counting its explicit predecessors.
    pub fn build(self) -> (r: InterlockExecutor<Q>)
        requires
            self.wf(),
            forall|i: int|
                0 <= i < self.spec_len() ==> #[trigger] self.decl_deps(i).len() + self.spec_len()
                    < CNT_MASK,
        ensures
            r.wf(),
            r.spec_len() == self.spec_len(),
            forall|x: int| 0 <= x < r.spec_len() ==> self.compiles_to(#[trigger] r.task_at(x), x),
            r.resettable(),
    {
        let n = self.tasks.len();
        let locks = self.resource_locks();
        let deps = self.dependants();
        let ghost decl = self;
        let mut rest = self.tasks;
        let mut rev: Vec<Task<Q>> = Vec::new();
        while rest.len() > 0
            invariant
                decl.wf(),
                n == decl.spec_len(),
                locks.len() == n,
                deps.len() == n,
                forall|x: int| 0 <= x < n ==> (#[trigger] locks@[x])@.no_duplicates(),
                forall|x: int, y: int|
                    0 <= x < n ==> (#[trigger] listed(locks@, x, y) <==> (0 <= y < n
                        && decl.conflicting(x, y))),
                forall|x: int| 0 <= x < n ==> (#[trigger] deps@[x])@ == decl.dependants_of(x),
                rest@ == decl.tasks@.take(rest.len() as int),
                rev.len() + rest.len() == n,
                forall|k: int| 0 <= k < rev.len() ==> decl.compiles_to(#[trigger] rev@[k], n - 1 - k),
            decreases rest.len(),
        {
            let tb = rest.pop().unwrap();
            let x = rest.len();
            assert(tb == decl.tasks@[x as int]);
            let lock = to_ids(&locks[x]);
            let unlock = ids_concat(&deps[x], &locks[x]);
            let task = Task::new(TaskId::new(x), tb.task, lock, unlock, tb.dependencies.len());
            proof {
                assert forall|y: usize| #[trigger] task.lock_ids().contains(y) <==> (y < n
                    && decl.conflicting(x as int, y as int)) by {
                    assert(listed(locks@, x as int, y as int) == locks@[x as int]@.contains(y));
                }
                assert(rest@ =~= decl.tasks@.take(rest.len() as int));
            }
            rev.push(task);
        }
        let mut out: Vec<Task<Q>> = Vec::new();
        while rev.len() > 0
            invariant
                n == decl.spec_len(),
                rev.len() + out.len() == n,
                forall|k: int| 0 <= k < rev.len() ==> decl.compiles_to(#[trigger] rev@[k], n - 1 - k),
                forall|k: int| 0 <= k < out.len() ==> decl.compiles_to(#[trigger] out@[k], k),
            decreases rev.len(),
        {
            let t = rev.pop().unwrap();
            out.push(t);
        }
        proof {
            assert(decl.spec_len() == n);
            decl.lemma_compiled_wf(out@);
        }
        InterlockExecutor::from_tasks(out)
    }

    /// Every task of `locked` locks every other task of `lockers`: each pair
    /// conflicts on `r`.
    fn lock_pairs(&self, sets: &mut Vec<Vec<usize>>, lockers: &Vec<usize>, locked: &Vec<usize>, r: u64)
        requires
            self.sound_locks(old(sets)@),
            forall|i: int| 0 <= i < lockers.len() ==> #[trigger] lockers@[i] < self.spec_len(),
            forall|j: int| 0 <= j < locked.len() ==> #[trigger] locked@[j] < self.spec_len(),
            forall|i: int, j: int|
                0 <= i < lockers.len() && 0 <= j < locked.len() ==> self.conflict_on(
                    #[trigger] locked@[j] as int,
                    #[trigger] lockers@[i] as int,
                    r,
                ),
        ensures
            self.sound_locks(final(sets)@),
            grows(old(sets)@, final(sets)@),
            forall|i: int, j: int|
                0 <= i < lockers.len() && 0 <= j < locked.len() && lockers@[i] != locked@[j]
                    ==> listed(final(sets)@, #[trigger] locked@[j] as int, #[trigger] lockers@[i] as int),
    {
        let ghost start = sets@;
        let mut c: usize = 0;
        while c < lockers.len()
            invariant
                self.sound_locks(sets@),
                grows(start, sets@),
                c <= lockers.len(),
                forall|i: int| 0 <= i < lockers.len() ==> #[trigger] lockers@[i] < self.spec_len(),
                forall|j: int| 0 <= j < locked.len() ==> #[trigger] locked@[j] < self.spec_len(),
                forall|i: int, j: int|
                    0 <= i < lockers.len() && 0 <= j < locked.len() ==> self.conflict_on(
                        #[trigger] locked@[j] as int,
                        #[trigger] lockers@[i] as int,
                        r,
                    ),
                forall|i: int, j: int|
                    0 <= i < c && 0 <= j < locked.len() && lockers@[i] != locked@[j] ==> listed(
                        sets@,
                        #[trigger] locked@[j] as int,
                        #[trigger] lockers@[i] as int,
                    ),
            decreases lockers.len() - c,
        {
            let current = lockers[c];
            let ghost before = sets@;
            let mut j: usize = 0;
            while j < locked.len()
                invariant
                    self.sound_locks(sets@),
                    grows(before, sets@),
                    grows(start, sets@),
                    c < lockers.len(),
                    current == lockers@[c as int],
                    j <= locked.len(),
                    current < self.spec_len(),
                    forall|jj: int| 0 <= jj < locked.len() ==> #[trigger] locked@[jj] < self.spec_len(),
                    forall|jj: int|
                        0 <= jj < locked.len() ==> self.conflict_on(
                            #[trigger] locked@[jj] as int,
                            current as int,
                            r,
                        ),
                    forall|jj: int|
                        0 <= jj < j && current != locked@[jj] ==> listed(
                            sets@,
                            #[trigger] locked@[jj] as int,
                            current as int,
                        ),
                decreases locked.len() - j,
            {
                let next = locked[j];
                if current != next {
                    self.add_lock_sound(sets, next, current, r);
                }
                j = j + 1;
            }
            proof {
                assert forall|i: int, j: int|
                    0 <= i < c + 1 && 0 <= j < locked.len() && lockers@[i] != locked@[j] implies listed(
                    sets@,
                    #[trigger] locked@[j] as int,
                    #[trigger] lockers@[i] as int,
                ) by {
                    if i < c {
                        assert(listed(before, locked@[j] as int, lockers@[i] as int));
                    }
                }
            }
            c = c + 1;
        }
    }

    /// For each task, the set of peers it conflicts with: the tasks it locks
    /// when it starts.
    fn resource_locks(&self) -> (sets: Vec<Vec<usize>>)
        ensures
            sets.len() == self.spec_len(),
            forall|x: int| 0 <= x < sets.len() ==> (#[trigger] sets@[x])@.no_duplicates(),
            forall|x: int, y: int|
                0 <= x < sets.len() ==> (#[trigger] listed(sets@, x, y) <==> (0 <= y
                    < self.spec_len() && self.conflicting(x, y))),
    {
        let n = self.tasks.len();
        let read_map = self.resource_index(false);
        let write_map = self.resource_index(true);
        let mut sets = empty_lists(n);
        proof {
            assert forall|x: int, y: int| #[trigger]
                listed(sets@, x, y) && 0 <= x < sets.len() implies 0 <= y < self.spec_len()
                && self.conflicting(x, y) by {
                assert(sets@[x]@.len() == 0);
            }
        }
        // every write locks every write and every read
        let wkeys = index_keys(&write_map);
        let mut k: usize = 0;
        while k < wkeys.len()
            invariant
                n == self.spec_len(),
                self.index_of_writes(write_map),
                self.index_of_reads(read_map),
                k <= wkeys.len(),
                forall|q: u64| wkeys@.contains(q) <==> multimap_entries(write_map).contains_key(q),
                self.sound_locks(sets@),
                forall|kk: int, w: int, x: int|
                    0 <= kk < k && 0 <= w < n && 0 <= x < n && w != x && #[trigger] self.decl_writes(
                        w,
                    ).contains(wkeys@[kk]) && (self.decl_writes(x).contains(wkeys@[kk])
                        || self.decl_reads(x).contains(wkeys@[kk])) ==> #[trigger] listed(
                        sets@,
                        x,
                        w,
                    ),
            decreases wkeys.len() - k,
        {
            let r = wkeys[k];
            let ghost before = sets@;
            assert(wkeys@.contains(r));
            let writers = match index_get(&write_map, r) {
                Some(v) => v,
                None => Vec::new(),
            };
            let readers = match index_get(&read_map, r) {
                Some(v) => v,
                None => Vec::new(),
            };
            proof {
                assert forall|i: int| 0 <= i < readers.len() implies #[trigger] readers@[i] < n
                    && self.decl_reads(readers@[i] as int).contains(r) by {
                    assert(multimap_entries(read_map)[r].contains(readers@[i]));
                }
                assert forall|i: int| 0 <= i < writers.len() implies #[trigger] writers@[i] < n
                    && self.decl_writes(writers@[i] as int).contains(r) by {
                    assert(multimap_entries(write_map)[r].contains(writers@[i]));
                }
            }
            self.lock_pairs(&mut sets, &writers, &writers, r);
            let ghost middle = sets@;
            self.lock_pairs(&mut sets, &writers, &readers, r);
            proof {
                assert forall|kk: int, w: int, x: int|
                    0 <= kk < k + 1 && 0 <= w < n && 0 <= x < n && w != x
                        && #[trigger] self.decl_writes(w).contains(wkeys@[kk]) && (self.decl_writes(
                        x,
                    ).contains(wkeys@[kk]) || self.decl_reads(x).contains(
                        wkeys@[kk],
                    )) implies #[trigger] listed(sets@, x, w) by {
                    if kk < k {
                        assert(listed(before, x, w));
                    } else {
                        assert(multimap_entries(write_map)[r].contains(w as usize));
                        let i = choose|i: int| 0 <= i < writers@.len() && writers@[i] == w;
                        if self.decl_writes(x).contains(r) {
                            assert(multimap_entries(write_map)[r].contains(x as usize));
                            let j = choose|j: int| 0 <= j < writers@.len() && writers@[j] == x;
                            assert(listed(middle, writers@[j] as int, writers@[i] as int));
                        } else {
                            assert(multimap_entries(read_map)[r].contains(x as usize));
                            let j = choose|j: int| 0 <= j < readers@.len() && readers@[j] == x;
                            assert(listed(sets@, readers@[j] as int, writers@[i] as int));
                        }
                    }
                }
            }
            k = k + 1;
        }
        // every read locks every write
        let ghost after_writes = sets@;
        let rkeys = index_keys(&read_map);
        let mut k: usize = 0;
        while k < rkeys.len()
            invariant
                n == self.spec_len(),
                self.index_of_writes(write_map),
                self.index_of_reads(read_map),
                k <= rkeys.len(),
                forall|q: u64| rkeys@.contains(q) <==> multimap_entries(read_map).contains_key(q),
                self.sound_locks(sets@),
                grows(after_writes, sets@),
                forall|kk: int, c: int, x: int|
                    0 <= kk < k && 0 <= c < n && 0 <= x < n && c != x && #[trigger] self.decl_reads(
                        c,
                    ).contains(rkeys@[kk]) && self.decl_writes(x).contains(rkeys@[kk])
                        ==> #[trigger] listed(sets@, x, c),
            decreases rkeys.len() - k,
        {
            let r = rkeys[k];
            let ghost before = sets@;
            assert(rkeys@.contains(r));
            let reads = match index_get(&read_map, r) {
                Some(v) => v,
                None => Vec::new(),
            };
            let writes = match index_get(&write_map, r) {
                Some(v) => v,
                None => Vec::new(),
            };
            proof {
                assert forall|i: int| 0 <= i < reads.len() implies #[trigger] reads@[i] < n
                    && self.decl_reads(reads@[i] as int).contains(r) by {
                    assert(multimap_entries(read_map)[r].contains(reads@[i]));
                }
                assert forall|i: int| 0 <= i < writes.len() implies #[trigger] writes@[i] < n
                    && self.decl_writes(writes@[i] as int).contains(r) by {
                    assert(multimap_entries(write_map)[r].contains(writes@[i]));
                }
            }
            self.lock_pairs(&mut sets, &reads, &writes, r);
            proof {
                assert forall|kk: int, c: int, x: int|
                    0 <= kk < k + 1 && 0 <= c < n && 0 <= x < n && c != x
                        && #[trigger] self.decl_reads(c).contains(rkeys@[kk])
                        && self.decl_writes(x).contains(rkeys@[kk]) implies #[trigger] listed(
                    sets@,
                    x,
                    c,
                ) by {
                    if kk < k {
                        assert(listed(before, x, c));
                    } else {
                        assert(multimap_entries(read_map)[r].contains(c as usize));
                        let i = choose|i: int| 0 <= i < reads@.len() && reads@[i] == c;
                        assert(multimap_entries(write_map)[r].contains(x as usize));
                        let j = choose|j: int| 0 <= j < writes@.len() && writes@[j] == x;
                        assert(listed(sets@, writes@[j] as int, reads@[i] as int));
                    }
                }
            }
            k = k + 1;
        }
        proof {
            assert forall|x: int, y: int|
                0 <= x < sets.len() && 0 <= y < self.spec_len() && self.conflicting(x, y) implies #[trigger]
                listed(sets@, x, y) by {
                let r = choose|r: u64| #[trigger] self.conflict_on(x, y, r);
                if self.decl_writes(y).contains(r) && (self.decl_writes(x).contains(r)
                    || self.decl_reads(x).contains(r)) {
                    assert(multimap_entries(write_map).contains_key(r));
                    assert(wkeys@.contains(r));
                    let kk = choose|kk: int| 0 <= kk < wkeys@.len() && wkeys@[kk] == r;
                    assert(listed(after_writes, x, y));
                } else {
                    assert(self.decl_reads(y).contains(r) && self.decl_writes(x).contains(r));
                    assert(multimap_entries(read_map).contains_key(r));
                    assert(rkeys@.contains(r));
                    let kk = choose|kk: int| 0 <= kk < rkeys@.len() && rkeys@[kk] == r;
                }
            }
        }
        sets
    }

    /// Records that `x` locks `y`, which conflicts with it on `r`.
    fn add_lock_sound(&self, sets: &mut Vec<Vec<usize>>, x: usize, y: usize, r: u64)
        requires
            self.sound_locks(old(sets)@),
            x < self.spec_len(),
            y < self.spec_len(),
            x != y,
            self.conflict_on(x as int, y as int, r),
        ensures
            self.sound_locks(final(sets)@),
            grows(old(sets)@, final(sets)@),
            listed(final(sets)@, x as int, y as int),
    {
        let ghost prev = sets@;
        add_lock(sets, x, y);
        proof {
            assert forall|a: int, b: int| #[trigger]
                listed(sets@, a, b) && 0 <= a < sets.len() implies 0 <= b < self.spec_len()
                && self.conflicting(a, b) by {
                if a != x {
                    assert(sets@[a] == prev[a]);
                    assert(listed(prev, a, b));
                } else if b != y {
                    assert(sets@[a]@.contains(b as usize) == (prev[a]@.contains(b as usize)
                        || b as usize == y));
                    assert(listed(prev, a, b));
                } else {
                    assert(self.conflict_on(x as int, y as int, r));
                }
            }
            assert forall|a: int, b: int| #[trigger]
                listed(prev, a, b) && 0 <= a < prev.len() implies listed(sets@, a, b) by {
                if a != x {
                    assert(sets@[a] == prev[a]);
                } else {
                    assert(sets@[a]@.contains(b as usize) == (prev[a]@.contains(b as usize)
                        || b as usize == y));
                }
            }
            assert(sets@[x as int]@.contains(y) == (prev[x as int]@.contains(y) || y == y));
        }
    }
}

} // verus!
