use lsp_rpc::{
    sink_fn, Async, AsyncSink, Entry, Poll, SharedSink, Sink, StartSend, UniqueQueue,
};
use std::cell::{Cell, RefCell};
use std::rc::Rc;

struct Valve {
    open: Rc<Cell<bool>>,
    taken: Rc<RefCell<Vec<(char, u32)>>>,
    flushed: Rc<Cell<u32>>,
    closed: Rc<Cell<u32>>,
}

impl Sink for Valve {
    type SinkItem = Entry<char, u32>;
    type SinkError = String;

    fn start_send(&mut self, item: Entry<char, u32>) -> StartSend<Entry<char, u32>, String> {
        if item.value == 666 {
            return Err("refused".to_string());
        }
        if self.open.get() {
            self.taken.borrow_mut().push((item.key, item.value));
            Ok(AsyncSink::Ready)
        } else {
            Ok(AsyncSink::NotReady(item))
        }
    }

    fn poll_complete(&mut self) -> Poll<(), String> {
        self.flushed.set(self.flushed.get() + 1);
        if self.open.get() {
            Ok(Async::Ready(()))
        } else {
            Ok(Async::NotReady)
        }
    }

    fn close(&mut self) -> Poll<(), String> {
        self.closed.set(self.closed.get() + 1);
        Ok(Async::Ready(()))
    }
}

struct Probe {
    open: Rc<Cell<bool>>,
    taken: Rc<RefCell<Vec<(char, u32)>>>,
    flushed: Rc<Cell<u32>>,
    closed: Rc<Cell<u32>>,
}

fn valve() -> (Valve, Probe) {
    let open = Rc::new(Cell::new(false));
    let taken = Rc::new(RefCell::new(Vec::new()));
    let flushed = Rc::new(Cell::new(0));
    let closed = Rc::new(Cell::new(0));
    (
        Valve { open: open.clone(), taken: taken.clone(), flushed: flushed.clone(), closed: closed.clone() },
        Probe { open, taken, flushed, closed },
    )
}

fn entry(key: char, value: u32) -> Entry<char, u32> {
    Entry { key, value }
}

#[test]
fn unique_queue_keeps_latest_value_per_key() {
    let (sink, probe) = valve();
    let mut queue = UniqueQueue::new(sink);
    assert!(matches!(queue.start_send(entry('A', 1)), Ok(AsyncSink::Ready)));
    assert!(matches!(queue.start_send(entry('B', 2)), Ok(AsyncSink::Ready)));
    assert!(matches!(queue.start_send(entry('A', 3)), Ok(AsyncSink::Ready)));
    assert_eq!(queue.len(), 2);
    assert!(probe.taken.borrow().is_empty());
    assert_eq!(queue.poll_complete(), Ok(Async::NotReady));
    assert_eq!(queue.len(), 2);
    probe.open.set(true);
    assert_eq!(queue.poll_complete(), Ok(Async::Ready(())));
    assert_eq!(queue.len(), 0);
    assert_eq!(*probe.taken.borrow(), vec![('A', 3), ('B', 2)]);
}

#[test]
fn unique_queue_keeps_first_rejected_item_of_a_new_key() {
    let (sink, probe) = valve();
    let mut queue = UniqueQueue::new(sink);
    assert!(matches!(queue.start_send(entry('Z', 9)), Ok(AsyncSink::Ready)));
    assert_eq!(queue.len(), 1);
    probe.open.set(true);
    assert_eq!(queue.poll_complete(), Ok(Async::Ready(())));
    assert_eq!(*probe.taken.borrow(), vec![('Z', 9)]);
}

#[test]
fn unique_queue_forwards_when_the_sink_is_ready() {
    let (sink, probe) = valve();
    probe.open.set(true);
    let mut queue = UniqueQueue::new(sink);
    assert!(matches!(queue.start_send(entry('A', 1)), Ok(AsyncSink::Ready)));
    assert!(matches!(queue.start_send(entry('A', 2)), Ok(AsyncSink::Ready)));
    assert_eq!(queue.len(), 0);
    assert_eq!(*probe.taken.borrow(), vec![('A', 1), ('A', 2)]);
    assert_eq!(probe.flushed.get(), 0);
    assert_eq!(queue.poll_complete(), Ok(Async::Ready(())));
    assert_eq!(probe.flushed.get(), 1);
}

#[test]
fn unique_queue_keeps_the_order_of_first_insertion() {
    let (sink, probe) = valve();
    let mut queue = UniqueQueue::new(sink);
    for (key, value) in [('C', 1), ('A', 2), ('B', 3), ('A', 4), ('C', 5), ('D', 6), ('B', 7)] {
        assert!(matches!(queue.start_send(entry(key, value)), Ok(AsyncSink::Ready)));
    }
    assert_eq!(queue.len(), 4);
    probe.open.set(true);
    assert_eq!(queue.poll_complete(), Ok(Async::Ready(())));
    assert_eq!(*probe.taken.borrow(), vec![('C', 5), ('A', 4), ('B', 7), ('D', 6)]);
}

#[test]
fn unique_queue_does_not_flush_the_sink_while_entries_wait() {
    let (sink, probe) = valve();
    let mut queue = UniqueQueue::new(sink);
    assert!(matches!(queue.start_send(entry('A', 1)), Ok(AsyncSink::Ready)));
    assert_eq!(queue.poll_complete(), Ok(Async::NotReady));
    assert_eq!(probe.flushed.get(), 0);
    assert_eq!(queue.close(), Ok(Async::NotReady));
    assert_eq!(probe.closed.get(), 0);
    probe.open.set(true);
    assert_eq!(queue.close(), Ok(Async::Ready(())));
    assert_eq!(probe.flushed.get(), 1);
    assert_eq!(probe.closed.get(), 1);
    assert_eq!(*probe.taken.borrow(), vec![('A', 1)]);
}

#[test]
fn unique_queue_passes_errors_on() {
    let (sink, probe) = valve();
    let mut queue = UniqueQueue::new(sink);
    assert!(matches!(queue.start_send(entry('A', 666)), Err(ref e) if e == "refused"));
    assert_eq!(queue.len(), 0);
    assert!(matches!(queue.start_send(entry('A', 1)), Ok(AsyncSink::Ready)));
    assert!(matches!(queue.start_send(entry('B', 2)), Ok(AsyncSink::Ready)));
    assert!(matches!(queue.settle(AsyncSink::NotReady(entry('A', 666))), AsyncSink::Ready));
    probe.open.set(true);
    assert_eq!(queue.poll_complete(), Err("refused".to_string()));
    assert_eq!(queue.len(), 1);
    assert_eq!(queue.poll_complete(), Ok(Async::Ready(())));
    assert_eq!(*probe.taken.borrow(), vec![('B', 2)]);
}

#[test]
fn sink_fn_hands_items_to_the_function() {
    let seen = Rc::new(RefCell::new(Vec::new()));
    let log = seen.clone();
    let mut sink = sink_fn(move |item: u8| -> StartSend<u8, ()> {
        if item == 0 {
            Ok(AsyncSink::NotReady(item))
        } else {
            log.borrow_mut().push(item);
            Ok(AsyncSink::Ready)
        }
    });
    assert_eq!(sink.start_send(7), Ok(AsyncSink::Ready));
    assert_eq!(sink.start_send(0), Ok(AsyncSink::NotReady(0)));
    assert_eq!(sink.start_send(9), Ok(AsyncSink::Ready));
    assert_eq!(*seen.borrow(), vec![7, 9]);
}

#[test]
fn sink_fn_is_always_flushed() {
    let mut sink = sink_fn(|item: u8| -> StartSend<u8, String> { Ok(AsyncSink::NotReady(item)) });
    assert_eq!(sink.poll_complete(), Ok(Async::Ready(())));
    assert_eq!(sink.start_send(1), Ok(AsyncSink::NotReady(1)));
    assert_eq!(sink.poll_complete(), Ok(Async::Ready(())));
    assert_eq!(sink.close(), Ok(Async::Ready(())));
}

#[test]
fn sink_fn_passes_errors_on() {
    let mut sink = sink_fn(|item: u8| -> StartSend<u8, String> { Err(format!("no {}", item)) });
    assert_eq!(sink.start_send(4), Err("no 4".to_string()));
}

struct Lines(Vec<String>);

impl Sink for Lines {
    type SinkItem = String;
    type SinkError = ();

    fn start_send(&mut self, item: String) -> StartSend<String, ()> {
        self.0.push(item);
        Ok(AsyncSink::Ready)
    }

    fn poll_complete(&mut self) -> Poll<(), ()> {
        self.0.push("flush".to_string());
        Ok(Async::Ready(()))
    }
}

#[test]
fn shared_sink_clones_feed_one_sink() {
    let seen = Rc::new(RefCell::new(Vec::new()));
    let log = seen.clone();
    let mut first = SharedSink::new(sink_fn(move |item: u8| -> StartSend<u8, ()> {
        log.borrow_mut().push(item);
        Ok(AsyncSink::Ready)
    }));
    let mut second = first.clone();
    assert_eq!(first.start_send(1), Ok(AsyncSink::Ready));
    assert_eq!(second.start_send(2), Ok(AsyncSink::Ready));
    assert_eq!(first.start_send(3), Ok(AsyncSink::Ready));
    assert_eq!(second.poll_complete(), Ok(Async::Ready(())));
    assert_eq!(*seen.borrow(), vec![1, 2, 3]);
}

#[test]
fn shared_sink_returns_what_the_inner_sink_returns() {
    let mut shared = SharedSink::new(Lines(Vec::new()));
    let mut other = shared.clone();
    assert_eq!(shared.start_send("a".to_string()), Ok(AsyncSink::Ready));
    assert_eq!(other.poll_complete(), Ok(Async::Ready(())));
    assert_eq!(other.close(), Ok(Async::Ready(())));
    let (valve, probe) = valve();
    let mut behind = SharedSink::new(valve);
    assert!(matches!(behind.start_send(entry('A', 1)), Ok(AsyncSink::NotReady(Entry { key: 'A', value: 1 }))));
    assert_eq!(behind.poll_complete(), Ok(Async::NotReady));
    assert_eq!(behind.close(), Ok(Async::Ready(())));
    assert_eq!(probe.closed.get(), 1);
    assert!(matches!(behind.start_send(entry('A', 666)), Err(ref e) if e == "refused"));
}

#[test]
fn unique_queue_behind_a_shared_sink() {
    let (valve, probe) = valve();
    let mut shared = SharedSink::new(UniqueQueue::new(valve));
    let mut other = shared.clone();
    assert!(matches!(shared.start_send(entry('A', 1)), Ok(AsyncSink::Ready)));
    assert!(matches!(other.start_send(entry('A', 2)), Ok(AsyncSink::Ready)));
    probe.open.set(true);
    assert_eq!(shared.poll_complete(), Ok(Async::Ready(())));
    assert_eq!(*probe.taken.borrow(), vec![('A', 2)]);
}

struct Meter {
    room: Rc<Cell<u32>>,
    flush_ready: Rc<Cell<bool>>,
    calls: Rc<RefCell<Vec<String>>>,
}

impl Sink for Meter {
    type SinkItem = Entry<char, u32>;
    type SinkError = String;

    fn start_send(&mut self, item: Entry<char, u32>) -> StartSend<Entry<char, u32>, String> {
        self.calls.borrow_mut().push(format!("offer {}{}", item.key, item.value));
        if item.value == 666 {
            Err("refused".to_string())
        } else if self.room.get() > 0 {
            self.room.set(self.room.get() - 1);
            Ok(AsyncSink::Ready)
        } else {
            Ok(AsyncSink::NotReady(item))
        }
    }

    fn poll_complete(&mut self) -> Poll<(), String> {
        self.calls.borrow_mut().push("flush".to_string());
        if self.flush_ready.get() {
            Ok(Async::Ready(()))
        } else {
            Ok(Async::NotReady)
        }
    }

    fn close(&mut self) -> Poll<(), String> {
        self.calls.borrow_mut().push("close".to_string());
        Ok(Async::Ready(()))
    }
}

struct Dial {
    room: Rc<Cell<u32>>,
    flush_ready: Rc<Cell<bool>>,
    calls: Rc<RefCell<Vec<String>>>,
}

impl Dial {
    fn calls(&self) -> Vec<String> {
        self.calls.borrow_mut().drain(..).collect()
    }
}

fn meter() -> (Meter, Dial) {
    let room = Rc::new(Cell::new(0));
    let flush_ready = Rc::new(Cell::new(true));
    let calls = Rc::new(RefCell::new(Vec::new()));
    (
        Meter { room: room.clone(), flush_ready: flush_ready.clone(), calls: calls.clone() },
        Dial { room, flush_ready, calls },
    )
}

fn waiting(entries: &[(char, u32)]) -> (UniqueQueue<Meter, char, u32>, Dial) {
    let (sink, dial) = meter();
    let mut queue = UniqueQueue::new(sink);
    for (key, value) in entries.iter() {
        assert!(matches!(queue.settle(AsyncSink::NotReady(entry(*key, *value))), AsyncSink::Ready));
    }
    assert_eq!(queue.len(), entries.len());
    (queue, dial)
}

#[test]
fn flush_of_a_refusing_sink_offers_the_oldest_entry_only() {
    let (mut queue, dial) = waiting(&[('A', 1), ('B', 2), ('C', 3)]);
    assert_eq!(queue.poll_complete(), Ok(Async::NotReady));
    assert_eq!(dial.calls(), vec!["offer A1".to_string()]);
    assert_eq!(queue.len(), 3);
    assert_eq!(queue.poll_complete(), Ok(Async::NotReady));
    assert_eq!(dial.calls(), vec!["offer A1".to_string()]);
    dial.room.set(3);
    assert_eq!(queue.poll_complete(), Ok(Async::Ready(())));
    assert_eq!(dial.calls(), vec!["offer A1", "offer B2", "offer C3", "flush"]);
}

#[test]
fn flush_stops_at_the_first_entry_that_comes_back() {
    let (mut queue, dial) = waiting(&[('A', 1), ('B', 2), ('C', 3)]);
    dial.room.set(1);
    assert_eq!(queue.poll_complete(), Ok(Async::NotReady));
    assert_eq!(dial.calls(), vec!["offer A1", "offer B2"]);
    assert_eq!(queue.len(), 2);
    dial.room.set(2);
    assert_eq!(queue.poll_complete(), Ok(Async::Ready(())));
    assert_eq!(dial.calls(), vec!["offer B2", "offer C3", "flush"]);
    assert_eq!(queue.len(), 0);
}

#[test]
fn flush_offers_every_entry_once_and_then_flushes_the_sink() {
    let (mut queue, dial) = waiting(&[('C', 1), ('A', 2), ('B', 3), ('D', 4)]);
    dial.room.set(10);
    dial.flush_ready.set(false);
    assert_eq!(queue.poll_complete(), Ok(Async::NotReady));
    assert_eq!(dial.calls(), vec!["offer C1", "offer A2", "offer B3", "offer D4", "flush"]);
    assert_eq!(queue.len(), 0);
    dial.flush_ready.set(true);
    assert_eq!(queue.poll_complete(), Ok(Async::Ready(())));
    assert_eq!(dial.calls(), vec!["flush"]);
}

#[test]
fn flush_of_an_empty_queue_is_the_flush_of_the_sink() {
    let (mut queue, dial) = waiting(&[]);
    dial.flush_ready.set(false);
    assert_eq!(queue.poll_complete(), Ok(Async::NotReady));
    dial.flush_ready.set(true);
    assert_eq!(queue.poll_complete(), Ok(Async::Ready(())));
    assert_eq!(dial.calls(), vec!["flush", "flush"]);
}

#[test]
fn flush_passes_on_the_error_of_an_offer_and_loses_that_entry() {
    let (mut queue, dial) = waiting(&[('A', 1), ('B', 666), ('C', 3)]);
    dial.room.set(10);
    assert_eq!(queue.poll_complete(), Err("refused".to_string()));
    assert_eq!(dial.calls(), vec!["offer A1", "offer B666"]);
    assert_eq!(queue.len(), 1);
    assert_eq!(queue.poll_complete(), Ok(Async::Ready(())));
    assert_eq!(dial.calls(), vec!["offer C3", "flush"]);
}

#[test]
fn close_closes_the_sink_only_after_a_flush_that_is_done() {
    let (mut queue, dial) = waiting(&[('A', 1), ('B', 2)]);
    assert_eq!(queue.close(), Ok(Async::NotReady));
    assert_eq!(dial.calls(), vec!["offer A1"]);
    dial.room.set(2);
    dial.flush_ready.set(false);
    assert_eq!(queue.close(), Ok(Async::NotReady));
    assert_eq!(dial.calls(), vec!["offer A1", "offer B2", "flush"]);
    dial.flush_ready.set(true);
    assert_eq!(queue.close(), Ok(Async::Ready(())));
    assert_eq!(dial.calls(), vec!["flush", "close"]);
    assert_eq!(queue.len(), 0);
}

#[test]
fn close_passes_on_the_error_of_the_flush() {
    let (mut queue, dial) = waiting(&[('A', 666), ('B', 2)]);
    dial.room.set(2);
    assert_eq!(queue.close(), Err("refused".to_string()));
    assert_eq!(dial.calls(), vec!["offer A666"]);
    assert_eq!(queue.len(), 1);
    assert_eq!(queue.close(), Ok(Async::Ready(())));
    assert_eq!(dial.calls(), vec!["offer B2", "flush", "close"]);
}

#[test]
fn offers_to_a_function_that_hands_every_item_back_are_accepted() {
    let mut queue = UniqueQueue::new(sink_fn(
        |e: Entry<&str, i32>| -> StartSend<Entry<&str, i32>, ()> { Ok(AsyncSink::NotReady(e)) },
    ));
    assert!(matches!(queue.start_send(Entry { key: "A", value: 1 }), Ok(AsyncSink::Ready)));
    assert!(matches!(queue.start_send(Entry { key: "B", value: 2 }), Ok(AsyncSink::Ready)));
    assert!(matches!(queue.start_send(Entry { key: "A", value: 3 }), Ok(AsyncSink::Ready)));
    assert_eq!(queue.len(), 2);
    assert_eq!(queue.poll_complete(), Ok(Async::NotReady));
    assert_eq!(queue.len(), 2);
}
