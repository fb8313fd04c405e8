use vstd::prelude::*;
use vstd::std_specs::cmp::PartialEqSpec;
use vstd::multiset::Multiset;

verus! {

/// How one recorded interval stands to another.
#[derive(PartialEq, Eq, Structural, Clone, Copy, Hash, Debug)]
pub enum TimelineOrder {
    Before,
    Parallel,
    After,
}

/// How an interval `[b_start, b_end)` stands to `[a_start, a_end)`: they
/// overlap, or it begins after, or before.
pub open spec fn order_between(a_start: int, a_end: int, b_start: int, b_end: int) -> TimelineOrder {
    if b_start < a_end && a_start < b_end {
        TimelineOrder::Parallel
    } else if b_start > a_start {
        TimelineOrder::After
    } else {
        TimelineOrder::Before
    }
}

/// A named interval: where it starts and how long it lasts, in nanoseconds.
#[derive(PartialEq, Eq, Clone, Hash, Debug)]
pub struct TimelineTask<N> {
    name: N,
    start: u64,
    length: u64,
}

impl<N> TimelineTask<N> {
    pub closed spec fn spec_name(&self) -> N {
        self.name
    }

    pub closed spec fn spec_start(&self) -> u64 {
        self.start
    }

    pub closed spec fn spec_length(&self) -> u64 {
        self.length
    }

    pub open spec fn spec_end(&self) -> int {
        self.spec_start() + self.spec_length()
    }

    /// The interval ends within the range of times.
    pub open spec fn wf(&self) -> bool {
        self.spec_end() <= u64::MAX
    }

    pub fn new(name: N, start: u64, length: u64) -> (r: Self)
        requires
            start + length <= u64::MAX,
        ensures
            r.spec_name() == name,
            r.spec_start() == start,
            r.spec_length() == length,
            r.wf(),
    {
        TimelineTask { name, start, length }
    }

    pub fn name(&self) -> (r: &N)
        ensures
            *r == self.spec_name(),
    {
        &self.name
    }

    pub fn start(&self) -> (r: u64)
        ensures
            r == self.spec_start(),
    {
        self.start
    }

    pub fn end(&self) -> (r: u64)
        requires
            self.wf(),
        ensures
            r == self.spec_end(),
    {
        self.start + self.length
    }

    pub fn len(&self) -> (r: u64)
        ensures
            r == self.spec_length(),
    {
        self.length
    }

    /// How `task` stands to this interval.
    pub fn order_to(&self, task: &Self) -> (r: TimelineOrder)
        requires
            self.wf(),
            task.wf(),
        ensures
            r == order_between(
                self.spec_start() as int,
                self.spec_end(),
                task.spec_start() as int,
                task.spec_end(),
            ),
    {
        if task.start() < self.end() && self.start() < task.end() {
            TimelineOrder::Parallel
        } else if task.start() > self.start() {
            TimelineOrder::After
        } else {
            TimelineOrder::Before
        }
    }
}

/// A start or an end of a named interval, at a time in nanoseconds.
#[derive(PartialEq, Eq, Clone, Copy, Hash, Debug)]
pub enum TimelineEvent<N> {
    Start(N, u64),
    End(N, u64),
}

impl<N> TimelineEvent<N> {
    pub open spec fn spec_name(&self) -> N {
        match self {
            TimelineEvent::Start(name, _) => *name,
            TimelineEvent::End(name, _) => *name,
        }
    }

    pub open spec fn spec_time(&self) -> u64 {
        match self {
            TimelineEvent::Start(_, time) => *time,
            TimelineEvent::End(_, time) => *time,
        }
    }

    pub fn name(&self) -> (r: &N)
        ensures
            *r == self.spec_name(),
    {
        match self {
            TimelineEvent::Start(name, _) => name,
            TimelineEvent::End(name, _) => name,
        }
    }

    pub fn time(&self) -> (r: u64)
        ensures
            r == self.spec_time(),
    {
        match self {
            TimelineEvent::Start(_, time) => *time,
            TimelineEvent::End(_, time) => *time,
        }
    }
}

/// The intervals of `s` named `name`, in order.
pub open spec fn matching<N: PartialEq>(s: Seq<TimelineTask<N>>, name: N) -> Seq<TimelineTask<N>>
    decreases s.len(),
{
    if s.len() == 0 {
        seq![]
    } else {
        let rest = matching(s.drop_last(), name);
        if s.last().spec_name().eq_spec(&name) {
            rest.push(s.last())
        } else {
            rest
        }
    }
}

/// The latest end among the intervals of `s`, or zero.
pub open spec fn latest_end<N>(s: Seq<TimelineTask<N>>) -> int
    decreases s.len(),
{
    if s.len() == 0 {
        0
    } else {
        let rest = latest_end(s.drop_last());
        if s.last().spec_end() > rest {
            s.last().spec_end()
        } else {
            rest
        }
    }
}

/// The sum of the lengths of the intervals of `s`.
pub open spec fn total_length<N>(s: Seq<TimelineTask<N>>) -> int
    decreases s.len(),
{
    if s.len() == 0 {
        0
    } else {
        total_length(s.drop_last()) + s.last().spec_length()
    }
}

/// The first slot free at `start`: one whose last interval ended by then.
pub open spec fn free_slot(slots: Seq<u64>, start: u64) -> Option<int>
    decreases slots.len(),
{
    if slots.len() == 0 {
        None
    } else {
        match free_slot(slots.drop_last(), start) {
            Some(i) => Some(i),
            None => if start >= slots.last() {
                Some(slots.len() - 1)
            } else {
                None
            },
        }
    }
}

/// The end times of the slots after laying the intervals of `s` out in order,
/// each in the first free slot, or in a new one.
pub open spec fn slots_for<N>(s: Seq<TimelineTask<N>>) -> Seq<u64>
    decreases s.len(),
{
    if s.len() == 0 {
        seq![]
    } else {
        let slots = slots_for(s.drop_last());
        let t = s.last();
        match free_slot(slots, t.spec_start()) {
            Some(i) => slots.update(i, t.spec_end() as u64),
            None => slots.push(t.spec_end() as u64),
        }
    }
}

/// Sorted by start: each interval starts no earlier than the one before.
pub open spec fn by_start<N>(s: Seq<TimelineTask<N>>) -> bool {
    forall|i: int, j: int| 0 <= i < j < s.len() ==> s[i].spec_start() <= s[j].spec_start()
}

/// Recorded intervals, sorted by start.
#[derive(Clone, Debug)]
pub struct TimelineAnalyzer<N> {
    tasks: Vec<TimelineTask<N>>,
}

impl<N: PartialEq> TimelineAnalyzer<N> {
    pub closed spec fn view(&self) -> Seq<TimelineTask<N>> {
        self.tasks@
    }

    pub open spec fn wf(&self) -> bool {
        &&& by_start(self@)
        &&& forall|i: int| 0 <= i < self@.len() ==> (#[trigger] self@[i]).wf()
    }

    /// An analyzer over `tasks`, sorted by start; intervals that start
    /// together keep their order.
    pub fn from_tasks(tasks: Vec<TimelineTask<N>>) -> (r: Self)
        requires
            forall|i: int| 0 <= i < tasks@.len() ==> (#[trigger] tasks@[i]).wf(),
        ensures
            r.wf(),
            r@.to_multiset() == tasks@.to_multiset(),
    {
        broadcast use vstd::seq_lib::group_to_multiset_ensures;

        let ghost all = tasks@;
        let mut rest = tasks;
        let mut sorted: Vec<TimelineTask<N>> = Vec::new();
        while rest.len() > 0
            invariant
                by_start(sorted@),
                forall|i: int| 0 <= i < sorted@.len() ==> (#[trigger] sorted@[i]).wf(),
                forall|i: int| 0 <= i < rest@.len() ==> (#[trigger] rest@[i]).wf(),
                sorted@.to_multiset().add(rest@.to_multiset()) == all.to_multiset(),
            decreases rest.len(),
        {
            let ghost old_rest = rest@;
            proof {
                vstd::seq_lib::to_multiset_remove(rest@, 0);
                vstd::seq_lib::to_multiset_contains(old_rest, old_rest[0]);
                assert(old_rest.contains(old_rest[0]));
            }
            let t = rest.remove(0);
            assert(rest@ == old_rest.remove(0));
            let mut pos: usize = 0;
            while pos < sorted.len() && sorted[pos].start <= t.start
                invariant
                    pos <= sorted@.len(),
                    forall|i: int| 0 <= i < pos ==> (#[trigger] sorted@[i]).spec_start()
                        <= t.spec_start(),
                decreases sorted@.len() - pos,
            {
                pos = pos + 1;
            }
            proof {
                vstd::seq_lib::to_multiset_insert(sorted@, pos as int, t);
                assert(pos < sorted@.len() ==> sorted@[pos as int].spec_start() > t.spec_start());
            }
            let ghost prev = sorted@;
            sorted.insert(pos, t);
            proof {
                assert forall|i: int, j: int| 0 <= i < j < sorted@.len() implies sorted@[i].spec_start()
                    <= sorted@[j].spec_start() by {
                    if i < pos && j > pos {
                        assert(prev[i].spec_start() <= prev[j - 1].spec_start());
                    } else if i == pos && j > pos {
                        assert(prev[pos as int].spec_start() <= prev[j - 1].spec_start());
                    }
                }
                assert(sorted@.to_multiset() == prev.to_multiset().insert(t));
                assert(rest@.to_multiset() == old_rest.to_multiset().remove(t));
                assert(sorted@.to_multiset().add(rest@.to_multiset()) =~= prev.to_multiset().add(
                    old_rest.to_multiset(),
                ));
            }
        }
        proof {
            assert(rest@.to_multiset() =~= Multiset::empty());
            assert(sorted@.to_multiset().add(Multiset::empty()) =~= sorted@.to_multiset());
        }
        TimelineAnalyzer { tasks: sorted }
    }

    /// Pairs each start with the end of the same name that follows it, times
    /// taken from the earliest event; nothing when a name starts twice before
    /// it ends, ends without a start, ends before it starts, or never ends.
    pub fn from_events(events: Vec<TimelineEvent<N>>) -> (r: Option<Self>)
        ensures
            r.is_some() ==> r.unwrap().wf(),
            events@.len() == 0 ==> r.is_some() && r.unwrap()@.len() == 0,
    {
        if events.len() == 0 {
            return Some(TimelineAnalyzer { tasks: Vec::new() });
        }
        let mut min: u64 = u64::MAX;
        let mut i: usize = 0;
        while i < events.len()
            invariant
                i <= events@.len(),
                forall|k: int| 0 <= k < i ==> min <= (#[trigger] events@[k]).spec_time(),
            decreases events@.len() - i,
        {
            let t = events[i].time();
            if t < min {
                min = t;
            }
            i = i + 1;
        }
        let ghost all = events@;
        let mut rest = events;
        let mut pending: Vec<(N, u64)> = Vec::new();
        let mut done: Vec<TimelineTask<N>> = Vec::new();
        while rest.len() > 0
            invariant
                events@.len() > 0,
                forall|k: int| 0 <= k < rest@.len() ==> min <= (#[trigger] rest@[k]).spec_time(),
                forall|k: int| 0 <= k < pending@.len() ==> min <= (#[trigger] pending@[k]).1,
                forall|k: int| 0 <= k < done@.len() ==> (#[trigger] done@[k]).wf(),
            decreases rest.len(),
        {
            let e = rest.remove(0);
            match e {
                TimelineEvent::Start(name, time) => {
                    if find_named(&pending, &name).is_some() {
                        return None;
                    }
                    pending.push((name, time));
                },
                TimelineEvent::End(name, end) => {
                    match find_named(&pending, &name) {
                        None => {
                            return None;
                        },
                        Some(k) => {
                            let (_, start) = pending.remove(k);
                            if end < start {
                                return None;
                            }
                            done.push(TimelineTask::new(name, start - min, end - start));
                        },
                    }
                },
            }
        }
        if pending.len() > 0 {
            return None;
        }
        Some(TimelineAnalyzer::from_tasks(done))
    }

    /// The intervals named `name`, in order.
    pub fn get<'a>(&'a self, name: &N) -> (r: Vec<&'a TimelineTask<N>>)
        ensures
            N::obeys_eq_spec() ==> r@.len() == matching(self@, *name).len() && forall|i: int|
                0 <= i < r@.len() ==> *r@[i] == matching(self@, *name)[i],
    {
        let mut r: Vec<&'a TimelineTask<N>> = Vec::new();
        let mut i: usize = 0;
        while i < self.tasks.len()
            invariant
                i <= self@.len(),
                N::obeys_eq_spec() ==> r@.len() == matching(self@.take(i as int), *name).len()
                    && forall|k: int|
                    0 <= k < r@.len() ==> *r@[k] == matching(self@.take(i as int), *name)[k],
            decreases self@.len() - i,
        {
            let t = &self.tasks[i];
            assert(self@.take(i as int + 1).drop_last() =~= self@.take(i as int));
            if t.name.eq(name) {
                r.push(t);
            }
            i = i + 1;
        }
        assert(self@.take(self@.len() as int) =~= self@);
        r
    }

    /// How many intervals are named `name`.
    pub fn count(&self, name: &N) -> (r: usize)
        ensures
            N::obeys_eq_spec() ==> r == matching(self@, *name).len(),
    {
        self.get(name).len()
    }

    /// Whether any interval is named `name`.
    pub fn has(&self, name: &N) -> (r: bool)
        ensures
            N::obeys_eq_spec() ==> r == (matching(self@, *name).len() > 0),
    {
        self.get(name).len() > 0
    }

    /// The earliest interval named `name`.
    pub fn first<'a>(&'a self, name: &N) -> (r: Option<&'a TimelineTask<N>>)
        ensures
            N::obeys_eq_spec() ==> (r.is_some() == (matching(self@, *name).len() > 0)),
            N::obeys_eq_spec() && r.is_some() ==> *r.unwrap() == matching(self@, *name)[0],
    {
        let all = self.get(name);
        if all.len() > 0 {
            Some(all[0])
        } else {
            None
        }
    }

    /// The latest interval named `name`.
    pub fn last<'a>(&'a self, name: &N) -> (r: Option<&'a TimelineTask<N>>)
        ensures
            N::obeys_eq_spec() ==> (r.is_some() == (matching(self@, *name).len() > 0)),
            N::obeys_eq_spec() && r.is_some() ==> *r.unwrap() == matching(self@, *name).last(),
    {
        let all = self.get(name);
        if all.len() > 0 {
            Some(all[all.len() - 1])
        } else {
            None
        }
    }

    /// The only interval named `name`, if there is exactly one.
    pub fn single<'a>(&'a self, name: &N) -> (r: Option<&'a TimelineTask<N>>)
        ensures
            N::obeys_eq_spec() ==> (r.is_some() == (matching(self@, *name).len() == 1)),
            N::obeys_eq_spec() && r.is_some() ==> *r.unwrap() == matching(self@, *name)[0],
    {
        let all = self.get(name);
        if all.len() == 1 {
            Some(all[0])
        } else {
            None
        }
    }

    /// All intervals, sorted by start.
    pub fn iter(&self) -> (r: &[TimelineTask<N>])
        ensures
            r@ == self@,
    {
        self.tasks.as_slice()
    }

    /// The span of the timeline: the latest end, or zero.
    pub fn len(&self) -> (r: u64)
        requires
            self.wf(),
        ensures
            r == latest_end(self@),
    {
        let mut r: u64 = 0;
        let mut i: usize = 0;
        while i < self.tasks.len()
            invariant
                i <= self@.len(),
                self.wf(),
                r == latest_end(self@.take(i as int)),
            decreases self@.len() - i,
        {
            assert(self@.take(i as int + 1).drop_last() =~= self@.take(i as int));
            assert(self@[i as int].wf());
            let end = self.tasks[i].end();
            if end > r {
                r = end;
            }
            i = i + 1;
        }
        assert(self@.take(self@.len() as int) =~= self@);
        r
    }

    /// The sum of the intervals' lengths.
    pub fn serial_len(&self) -> (r: u64)
        requires
            total_length(self@) <= u64::MAX,
        ensures
            r == total_length(self@),
    {
        let mut r: u64 = 0;
        let mut i: usize = 0;
        while i < self.tasks.len()
            invariant
                i <= self@.len(),
                total_length(self@) <= u64::MAX,
                r == total_length(self@.take(i as int)),
            decreases self@.len() - i,
        {
            assert(self@.take(i as int + 1).drop_last() =~= self@.take(i as int));
            proof {
                lemma_total_length_prefix(self@, i as int + 1);
            }
            r = r + self.tasks[i].len();
            i = i + 1;
        }
        assert(self@.take(self@.len() as int) =~= self@);
        r
    }

    /// How many slots a first-fit layout of the intervals needs: the number of
    /// workers the timeline shows.
    pub fn threads(&self) -> (r: usize)
        requires
            self.wf(),
        ensures
            r == slots_for(self@).len(),
    {
        let mut slots: Vec<u64> = Vec::new();
        let mut i: usize = 0;
        while i < self.tasks.len()
            invariant
                i <= self@.len(),
                self.wf(),
                slots@ == slots_for(self@.take(i as int)),
                slots@.len() <= i,
            decreases self@.len() - i,
        {
            assert(self@.take(i as int + 1).drop_last() =~= self@.take(i as int));
            assert(self@[i as int].wf());
            let start = self.tasks[i].start();
            let end = self.tasks[i].end();
            match find_slot(&slots, start) {
                Some(k) => {
                    slots.set(k, end);
                },
                None => {
                    slots.push(end);
                },
            }
            i = i + 1;
        }
        assert(self@.take(self@.len() as int) =~= self@);
        slots.len()
    }
}

proof fn lemma_total_length_prefix<N>(s: Seq<TimelineTask<N>>, k: int)
    requires
        0 <= k <= s.len(),
    ensures
        total_length(s.take(k)) <= total_length(s),
    decreases s.len() - k,
{
    if k < s.len() {
        lemma_total_length_prefix(s, k + 1);
        assert(s.take(k + 1).drop_last() =~= s.take(k));
    } else {
        assert(s.take(k) =~= s);
    }
}

proof fn lemma_free_slot_extends(s: Seq<u64>, k: int, start: u64)
    requires
        0 < k <= s.len(),
        free_slot(s.take(k), start) is Some,
    ensures
        free_slot(s, start) == free_slot(s.take(k), start),
    decreases s.len() - k,
{
    if k < s.len() {
        assert(s.take(k + 1).drop_last() =~= s.take(k));
        lemma_free_slot_extends(s, k + 1, start);
    } else {
        assert(s.take(k) =~= s);
    }
}

/// The position of an entry named `name`.
fn find_named<N: PartialEq>(pending: &Vec<(N, u64)>, name: &N) -> (r: Option<usize>)
    ensures
        r.is_some() ==> r.unwrap() < pending@.len(),
{
    let mut i: usize = 0;
    while i < pending.len()
        invariant
            i <= pending@.len(),
        decreases pending@.len() - i,
    {
        if pending[i].0.eq(name) {
            return Some(i);
        }
        i = i + 1;
    }
    None
}

/// The first slot whose last interval ended by `start`.
fn find_slot(slots: &Vec<u64>, start: u64) -> (r: Option<usize>)
    ensures
        match r {
            Some(k) => k < slots@.len() && free_slot(slots@, start) == Some(k as int),
            None => free_slot(slots@, start) is None,
        },
{
    let mut i: usize = 0;
    while i < slots.len()
        invariant
            i <= slots@.len(),
            free_slot(slots@.take(i as int), start) is None,
        decreases slots@.len() - i,
    {
        assert(slots@.take(i as int + 1).drop_last() =~= slots@.take(i as int));
        if start >= slots[i] {
            proof {
                lemma_free_slot_extends(slots@, i as int + 1, start);
            }
            return Some(i);
        }
        i = i + 1;
    }
    assert(slots@.take(slots@.len() as int) =~= slots@);
    None
}

} // verus!
