use interlock::analysis::TimelineEvent::{End, Start};
use interlock::analysis::{TimelineAnalyzer, TimelineEvent, TimelineOrder, TimelineTask};
use std::time::Duration;

fn ms(t: u64) -> u64 {
    Duration::from_millis(t).as_nanos() as u64
}

#[test]
fn task_order() {
    let a = TimelineTask::new((), ms(0), ms(10));
    let b = TimelineTask::new((), ms(5), ms(10));
    let c = TimelineTask::new((), ms(10), ms(10));
    let d = TimelineTask::new((), ms(15), ms(10));
    let e = TimelineTask::new((), ms(10), ms(0));

    assert_eq!(a.order_to(&b), TimelineOrder::Parallel);
    assert_eq!(a.order_to(&c), TimelineOrder::After);
    assert_eq!(a.order_to(&e), TimelineOrder::After);

    assert_eq!(b.order_to(&c), TimelineOrder::Parallel);
    assert_eq!(b.order_to(&d), TimelineOrder::After);
    assert_eq!(b.order_to(&e), TimelineOrder::Parallel);

    //inverse cases
    assert_eq!(b.order_to(&a), TimelineOrder::Parallel);
    assert_eq!(e.order_to(&a), TimelineOrder::Before);
    assert_eq!(c.order_to(&a), TimelineOrder::Before);

    assert_eq!(c.order_to(&b), TimelineOrder::Parallel);
    assert_eq!(d.order_to(&b), TimelineOrder::Before);
    assert_eq!(e.order_to(&b), TimelineOrder::Parallel);
}

fn construct_analyzer() -> TimelineAnalyzer<&'static str> {
    let now = ms(1000);
    let instant = |t| now + ms(t);

    TimelineAnalyzer::from_events(vec![
        Start("a", instant(0)),
        Start("b", instant(0)),
        End("b", instant(5)),
        Start("c", instant(5)),
        End("a", instant(10)),
        Start("e", instant(10)),
        End("c", instant(15)),
        Start("d", instant(15)),
        Start("f", instant(15)),
        End("d", instant(20)),
        End("e", instant(20)),
        End("f", instant(30)),
        Start("a", instant(30)),
        Start("g", instant(30)),
        End("g", instant(35)),
        End("a", instant(40)),
        Start("b", instant(40)),
        End("b", instant(40)),
    ])
    .expect("well-formed events")
}

#[test]
fn analyzer_construct() {
    construct_analyzer();
}

#[test]
fn analyzer_single() {
    let a = construct_analyzer();

    assert!(a.single(&"a").is_none());
    assert!(a.single(&"b").is_none());
    assert!(a.single(&"c").is_some());
    assert!(a.single(&"d").is_some());
    assert!(a.single(&"e").is_some());
    assert!(a.single(&"f").is_some());
    assert!(a.single(&"g").is_some());
    assert!(a.single(&"x").is_none());
    assert!(a.single(&"y").is_none());
    assert!(a.single(&"z").is_none());
}

#[test]
fn analyzer_first() {
    let a = construct_analyzer();

    assert!(a.first(&"a").is_some());
    assert!(a.first(&"b").is_some());
    assert!(a.first(&"c").is_some());
    assert!(a.first(&"d").is_some());
    assert!(a.first(&"e").is_some());
    assert!(a.first(&"f").is_some());
    assert!(a.first(&"g").is_some());
    assert!(a.first(&"x").is_none());
    assert!(a.first(&"y").is_none());
    assert!(a.first(&"z").is_none());
}

#[test]
fn analyzer_count() {
    let a = construct_analyzer();

    assert_eq!(a.count(&"a"), 2);
    assert_eq!(a.count(&"b"), 2);
    assert_eq!(a.count(&"c"), 1);
    assert_eq!(a.count(&"d"), 1);
    assert_eq!(a.count(&"e"), 1);
    assert_eq!(a.count(&"f"), 1);
    assert_eq!(a.count(&"g"), 1);
    assert_eq!(a.count(&"x"), 0);
    assert_eq!(a.count(&"y"), 0);
    assert_eq!(a.count(&"z"), 0);
}

#[test]
fn analyzer_tasks() {
    let a = construct_analyzer();
    let task = |name, start, end| Some(TimelineTask::new(name, ms(start), ms(end - start)));

    assert_eq!(a.first(&"a"), task("a", 0, 10).as_ref());
    assert_eq!(a.first(&"b"), task("b", 0, 5).as_ref());
    assert_eq!(a.first(&"c"), task("c", 5, 15).as_ref());
    assert_eq!(a.first(&"d"), task("d", 15, 20).as_ref());
    assert_eq!(a.first(&"e"), task("e", 10, 20).as_ref());
    assert_eq!(a.first(&"f"), task("f", 15, 30).as_ref());
    assert_eq!(a.first(&"g"), task("g", 30, 35).as_ref());

    assert_eq!(a.last(&"a"), task("a", 30, 40).as_ref());
    assert_eq!(a.last(&"b"), task("b", 40, 40).as_ref());
}

#[test]
fn analyzer_spans() {
    let a = construct_analyzer();
    assert_eq!(a.len(), ms(40));
    assert_eq!(a.serial_len(), ms(10 + 5 + 10 + 10 + 5 + 15 + 5 + 10 + 0));
    assert_eq!(a.threads(), 3);
    assert!(a.has(&"g"));
    assert!(!a.has(&"x"));
    assert_eq!(a.get(&"a").len(), 2);
    assert_eq!(a.iter().len(), 9);
}

#[test]
fn analyzer_sorts_by_start() {
    let a = TimelineAnalyzer::from_tasks(vec![
        TimelineTask::new("late", 30, 5),
        TimelineTask::new("early", 0, 5),
        TimelineTask::new("mid", 10, 5),
    ]);
    let names: Vec<&str> = a.iter().iter().map(|t| *t.name()).collect();
    assert_eq!(names, vec!["early", "mid", "late"]);
    assert_eq!(a.threads(), 1);
}

#[test]
fn analyzer_rejects_malformed_events() {
    assert!(TimelineAnalyzer::from_events(vec![End("a", 1u64)]).is_none());
    assert!(TimelineAnalyzer::from_events(vec![Start("a", 1u64), Start("a", 2)]).is_none());
    assert!(TimelineAnalyzer::from_events(vec![Start("a", 1u64)]).is_none());
    assert!(TimelineAnalyzer::<&str>::from_events(vec![]).is_some());
}

#[test]
fn event_accessors() {
    let e = TimelineEvent::Start("a", 7u64);
    assert_eq!(*e.name(), "a");
    assert_eq!(e.time(), 7);
}
