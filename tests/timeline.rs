use interlock::analysis::TimelineEvent;
use interlock::timeline::TimelineReader;
use interlock::Executable;

struct Noop;

impl Executable<()> for Noop {
    fn run(&mut self, _: &()) {}
}

#[test]
fn reader() {
    fn start(event: Option<TimelineEvent<&str>>, name: &str) {
        let event = event.unwrap_or_else(|| panic!("iterator is empty: expected Start({})", name));
        if let TimelineEvent::Start(event_name, _) = event {
            assert_eq!(event_name, name, "unexpected name")
        } else {
            panic!("unexpected end")
        }
    }

    fn end(event: Option<TimelineEvent<&str>>, name: &str) {
        let event = event.unwrap_or_else(|| panic!("iterator is empty: expected End({})", name));
        if let TimelineEvent::End(event_name, _) = event {
            assert_eq!(event_name, name, "unexpected name")
        } else {
            panic!("unexpected start")
        }
    }

    let reader = TimelineReader::new();

    reader.wrap("a", Noop).run(&());
    reader.wrap("b", Noop).run(&());
    reader.wrap("c", Noop).run(&());
    reader.wrap("d", Noop).run(&());
    reader.wrap("e", Noop).run(&());

    let mut iter = reader.collect();

    start(iter.next(), "a");
    end(iter.next(), "a");
    start(iter.next(), "b");
    end(iter.next(), "b");
    start(iter.next(), "c");
    end(iter.next(), "c");
    start(iter.next(), "d");
    end(iter.next(), "d");
    start(iter.next(), "e");
    end(iter.next(), "e");
    assert_eq!(iter.next(), None, "expected end of iterator")
}

#[test]
fn reader_analyzes_wrapped_runs() {
    let reader = TimelineReader::new();
    let mut a = reader.wrap("a", Noop);
    a.run(&());
    a.run(&());
    reader.wrap("b", Noop).run(&());
    let analyzer = reader.analyze().expect("every start is matched by an end");
    assert_eq!(analyzer.count(&"a"), 2);
    assert_eq!(analyzer.count(&"b"), 1);
}
