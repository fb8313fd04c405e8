use interlock::analysis::{TimelineAnalyzer, TimelineEvent, TimelineOrder};
use interlock::builder::InterlockBuilder;
use interlock::executor::InterlockExecutor;
use interlock::task::TaskId;
use interlock::{builder, par, Executable};
use std::cell::{Cell, RefCell};
use std::rc::Rc;

/// Records a start and an end event around each run, one clock tick apart.
struct Stamp {
    name: &'static str,
    clock: Rc<Cell<u64>>,
    events: Rc<RefCell<Vec<TimelineEvent<&'static str>>>>,
}

impl Executable<()> for Stamp {
    fn run(&mut self, _: &()) {
        let start = self.clock.get();
        self.events.borrow_mut().push(TimelineEvent::Start(self.name, start));
        self.clock.set(start + 10);
        self.events.borrow_mut().push(TimelineEvent::End(self.name, start + 10));
    }
}

struct Recorder {
    clock: Rc<Cell<u64>>,
    events: Rc<RefCell<Vec<TimelineEvent<&'static str>>>>,
}

impl Recorder {
    fn new() -> Self {
        Recorder { clock: Rc::new(Cell::new(0)), events: Rc::new(RefCell::new(Vec::new())) }
    }

    fn wrap(&self, name: &'static str) -> Stamp {
        Stamp { name, clock: self.clock.clone(), events: self.events.clone() }
    }

    fn analyze(&self) -> TimelineAnalyzer<&'static str> {
        let events = self.events.borrow_mut().drain(..).collect();
        TimelineAnalyzer::from_events(events).expect("every start is matched by an end")
    }
}

fn order(n: &TimelineAnalyzer<&str>, a: &str, b: &str) -> TimelineOrder {
    let task_a = n.first(&a).unwrap_or_else(|| panic!("task '{}' was not executed", a));
    let task_b = n.first(&b).unwrap_or_else(|| panic!("task '{}' was not executed", b));

    assert_eq!(n.count(&a), 1, "task '{}' was executed multiple times", a);
    assert_eq!(n.count(&b), 1, "task '{}' was executed multiple times", b);

    task_a.order_to(task_b)
}

fn mutex(n: &TimelineAnalyzer<&str>, a: &str, b: &str) {
    assert_ne!(order(n, a, b), TimelineOrder::Parallel, "tasks '{}' and '{}' were executed in parallel when they should not", a, b)
}

fn dep(n: &TimelineAnalyzer<&str>, a: &str, b: &str) {
    assert_eq!(order(n, a, b), TimelineOrder::After, "task '{}' depends on '{}' but they were executed out of order", b, a)
}

fn eight_tasks(reader: &Recorder) -> InterlockExecutor<Stamp> {
    let mut builder = builder();

    let a_task = builder.add(reader.wrap("a"), vec![1], vec![0], vec![]);
    let b_task = builder.add(reader.wrap("b"), vec![0], vec![1], vec![]);
    let c_task = builder.add(reader.wrap("c"), vec![1], vec![2], vec![a_task, b_task]);
    let d_task = builder.add(reader.wrap("d"), vec![0, 2], vec![3], vec![a_task]);
    let e_task = builder.add(reader.wrap("e"), vec![], vec![4], vec![d_task]);
    let _f_task = builder.add(reader.wrap("f"), vec![6], vec![5], vec![e_task, c_task]);
    let _g_task = builder.add(reader.wrap("g"), vec![], vec![6], vec![d_task, c_task]);
    let _h_task = builder.add(reader.wrap("h"), vec![], vec![7], vec![c_task]);

    builder.build()
}

fn check_eight(analyzer: &TimelineAnalyzer<&str>) {
    mutex(analyzer, "a", "b");
    mutex(analyzer, "a", "d");
    mutex(analyzer, "c", "d");
    mutex(analyzer, "b", "c");
    mutex(analyzer, "f", "g");

    dep(analyzer, "a", "c");
    dep(analyzer, "b", "c");
    dep(analyzer, "a", "d");
    dep(analyzer, "d", "e");
    dep(analyzer, "c", "f");
    dep(analyzer, "e", "f");
    dep(analyzer, "d", "g");
    dep(analyzer, "c", "g");
    dep(analyzer, "c", "h");
}

#[test]
fn the_ultimate_test() {
    let reader = Recorder::new();
    let mut exec = eight_tasks(&reader);
    let ran = exec.run(&());
    assert_eq!(ran.len(), 8);

    let analyzer = reader.analyze();
    for name in ["a", "b", "c", "d", "e", "f", "g", "h"] {
        assert_eq!(analyzer.count(&name), 1);
    }
    check_eight(&analyzer);
}

#[test]
fn rerun_three_times() {
    let reader = Recorder::new();
    let mut exec = eight_tasks(&reader);
    for _ in 0..3 {
        let ran = exec.run(&());
        let mut ids: Vec<usize> = ran.iter().map(|t| t.id()).collect();
        ids.sort();
        assert_eq!(ids, (0..8).collect::<Vec<usize>>());
        check_eight(&reader.analyze());
    }
}

#[test]
fn compiled_sets_of_eight_tasks() {
    let reader = Recorder::new();
    let exec = eight_tasks(&reader);
    let tasks = exec.tasks();
    let set = |i: usize| {
        let mut v: Vec<usize> = tasks[i].lockable_deps().iter().map(|t| t.id()).collect();
        v.sort();
        v
    };
    // a writes 0, read by b and d; a reads 1, written by b
    assert_eq!(set(0), vec![1, 3]);
    // b writes 1, read by a and c; b reads 0, written by a
    assert_eq!(set(1), vec![0, 2]);
    // c writes 2, read by d; c reads 1, written by b
    assert_eq!(set(2), vec![1, 3]);
    assert_eq!(set(3), vec![0, 2]);
    assert_eq!(set(4), Vec::<usize>::new());
    assert_eq!(set(5), vec![6]);
    assert_eq!(set(6), vec![5]);
    assert_eq!(set(7), Vec::<usize>::new());
    for (i, t) in tasks.iter().enumerate() {
        assert_eq!(t.id().id(), i);
    }
    assert_eq!(tasks[2].initial_count(), 2);
    assert_eq!(tasks[0].initial_count(), 0);
    assert_eq!(tasks[5].initial_count(), 2);
    // c's dependants in declaration order, then its lock set
    let unlock: Vec<usize> = tasks[2].unlockable_deps().iter().map(|t| t.id()).collect();
    assert_eq!(&unlock[..3], &[5, 6, 7]);
    assert_eq!(unlock.len(), 5);
}

#[test]
fn single_task() {
    let reader = Recorder::new();
    let mut b = builder();
    let id = b.add(reader.wrap("only"), vec![], vec![], vec![]);
    assert_eq!(id.id(), 0);
    let mut exec = b.build();
    let ran = exec.run(&());
    assert_eq!(ran, vec![TaskId(0)]);
    assert_eq!(reader.analyze().count(&"only"), 1);
}

#[test]
fn pure_chain() {
    const NAMES: [&str; 10] = ["t0", "t1", "t2", "t3", "t4", "t5", "t6", "t7", "t8", "t9"];
    let reader = Recorder::new();
    let mut b: InterlockBuilder<Stamp> = builder();
    let mut prev: Option<TaskId> = None;
    for name in NAMES {
        let deps = prev.into_iter().collect();
        prev = Some(b.add(reader.wrap(name), vec![], vec![], deps));
    }
    let mut exec = b.build();
    let ran: Vec<usize> = exec.run(&()).iter().map(|t| t.id()).collect();
    assert_eq!(ran, (0..10).collect::<Vec<usize>>());
    let analyzer = reader.analyze();
    for w in NAMES.windows(2) {
        dep(&analyzer, w[0], w[1]);
    }
}

#[test]
fn pure_fan_out() {
    const READERS: [&str; 9] = ["r1", "r2", "r3", "r4", "r5", "r6", "r7", "r8", "r9"];
    let reader = Recorder::new();
    let mut b = builder();
    let root = b.add(reader.wrap("root"), vec![], vec![9], vec![]);
    for name in READERS {
        b.add(reader.wrap(name), vec![9], vec![], vec![root]);
    }
    let mut exec = b.build();
    for i in 1..10 {
        // each reader conflicts with the writer alone, never with another reader
        assert_eq!(exec.tasks()[i].lockable_deps(), &[root][..]);
    }
    let ran = exec.run(&());
    assert_eq!(ran[0], root);
    let analyzer = reader.analyze();
    for name in READERS {
        dep(&analyzer, "root", name);
    }
}

#[test]
fn write_contention() {
    const NAMES: [&str; 10] = ["w0", "w1", "w2", "w3", "w4", "w5", "w6", "w7", "w8", "w9"];
    let reader = Recorder::new();
    let mut b = builder();
    for name in NAMES {
        b.add(reader.wrap(name), vec![], vec![42], vec![]);
    }
    let mut exec = b.build();
    for i in 0..10 {
        assert_eq!(exec.tasks()[i].lockable_deps().len(), 9);
    }
    let ran = exec.run(&());
    assert_eq!(ran.len(), 10);
    let analyzer = reader.analyze();
    for x in NAMES {
        for y in NAMES {
            if x != y {
                mutex(&analyzer, x, y);
            }
        }
    }
}

#[test]
fn duplicate_predecessor_is_counted_twice() {
    let reader = Recorder::new();
    let mut b = builder();
    let a = b.add(reader.wrap("a"), vec![], vec![], vec![]);
    b.add(reader.wrap("b"), vec![], vec![], vec![a, a]);
    let mut exec = b.build();
    assert_eq!(exec.tasks()[1].initial_count(), 2);
    let ids: Vec<usize> = exec.tasks()[0].unlockable_deps().iter().map(|t| t.id()).collect();
    assert_eq!(ids, vec![1, 1]);
    let ran: Vec<usize> = exec.run(&()).iter().map(|t| t.id()).collect();
    assert_eq!(ran, vec![0, 1]);
}

#[test]
fn combinators_run_both() {
    let reader = Recorder::new();
    let mut s = interlock::seq(reader.wrap("x"), reader.wrap("y"));
    s.run(&());
    let analyzer = reader.analyze();
    dep(&analyzer, "x", "y");

    let hits = std::sync::atomic::AtomicUsize::new(0);
    struct Hit<'a>(&'a std::sync::atomic::AtomicUsize);
    impl<'a> Executable<()> for Hit<'a> {
        fn run(&mut self, _: &()) {
            self.0.fetch_add(1, std::sync::atomic::Ordering::SeqCst);
        }
    }
    let mut p = par(Hit(&hits), Hit(&hits));
    p.run(&());
    assert_eq!(hits.load(std::sync::atomic::Ordering::SeqCst), 2);
}
