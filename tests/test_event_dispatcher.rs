use entity_system::{
    AccessEventAdapter, Connection, Dispatcher, EventDispatcher, EventHandler, HandlerKey, Outbox,
};

const EVENT1: usize = 0;
const EVENT2: usize = 1;

enum Event {
    Event1(i32),
    Event2(i32),
}

impl AccessEventAdapter for Event {
    fn adapter(&self) -> usize {
        match self {
            Event::Event1(_) => EVENT1,
            Event::Event2(_) => EVENT2,
        }
    }
}

struct Receiver1 {
    event1: u32,
    event2: u32,
}

impl Receiver1 {
    fn new() -> Self {
        Self {
            event1: 0,
            event2: 0,
        }
    }
}

impl EventHandler<Event> for Receiver1 {
    fn on_event(&mut self, event: &Event, _outbox: &mut Outbox<Event>) {
        match event {
            Event::Event1(_) => self.event1 += 1,
            Event::Event2(_) => self.event2 += 1,
        }
    }
}

struct Receiver2 {
    event1: u32,
    event2: u32,
    connection1: Connection,
    connection2: Connection,
}

impl Receiver2 {
    fn new(dispatcher: &mut EventDispatcher<Event, Receiver2>) -> HandlerKey {
        let key = dispatcher.add_handler(Self {
            event1: 0,
            event2: 0,
            connection1: Default::default(),
            connection2: Default::default(),
        });
        let connection1 = dispatcher.create_connection(EVENT1, key);
        let connection2 = dispatcher.create_connection(EVENT2, key);
        connection1.connect(dispatcher);
        let instance = dispatcher.handler_mut(key).unwrap();
        instance.connection1 = connection1;
        instance.connection2 = connection2;
        key
    }
}

impl EventHandler<Event> for Receiver2 {
    fn on_event(&mut self, event: &Event, outbox: &mut Outbox<Event>) {
        match event {
            Event::Event1(_) => {
                self.event1 += 1;
                self.connection1.disconnect(outbox);
                self.connection2.connect(outbox);
                outbox.push(Event::Event2(0));
            }
            Event::Event2(_) => {
                self.event2 += 1;
                self.connection2.disconnect(outbox);
            }
        }
    }
}

#[test]
fn test_event_dispatcher_01() {
    let mut dispatcher = EventDispatcher::new();
    let receiver = dispatcher.add_handler(Receiver1::new());
    dispatcher.create_connection(EVENT1, receiver);
    dispatcher.push(Event::Event1(0));
    dispatcher.dispatch();
    assert_eq!(dispatcher.handler(receiver).unwrap().event1, 0);
    assert_eq!(dispatcher.handler(receiver).unwrap().event2, 0);
}

#[test]
fn test_event_dispatcher_02() {
    let mut dispatcher = EventDispatcher::new();
    let receiver = dispatcher.add_handler(Receiver1::new());
    let connection = dispatcher.create_connection(EVENT1, receiver);
    connection.connect(&mut dispatcher);
    dispatcher.push(Event::Event1(0));
    dispatcher.dispatch();
    assert_eq!(dispatcher.handler(receiver).unwrap().event1, 1);
    assert_eq!(dispatcher.handler(receiver).unwrap().event2, 0);
    connection.disconnect(&mut dispatcher);
    dispatcher.push(Event::Event1(0));
    dispatcher.dispatch();
    assert_eq!(dispatcher.handler(receiver).unwrap().event1, 1);
    assert_eq!(dispatcher.handler(receiver).unwrap().event2, 0);
}

#[test]
fn test_event_dispatcher_03() {
    let mut dispatcher = EventDispatcher::new();
    let receiver = dispatcher.add_handler(Receiver1::new());
    let connection1 = dispatcher.create_connection(EVENT1, receiver);
    connection1.connect(&mut dispatcher);
    let connection2 = dispatcher.create_connection(EVENT2, receiver);
    connection2.connect(&mut dispatcher);
    dispatcher.push(Event::Event2(0));
    dispatcher.push(Event::Event1(0));
    dispatcher.dispatch();
    assert_eq!(dispatcher.handler(receiver).unwrap().event1, 1);
    assert_eq!(dispatcher.handler(receiver).unwrap().event2, 1);
    connection1.disconnect(&mut dispatcher);
    dispatcher.push(Event::Event2(0));
    dispatcher.push(Event::Event2(0));
    dispatcher.dispatch();
    assert_eq!(dispatcher.handler(receiver).unwrap().event1, 1);
    assert_eq!(dispatcher.handler(receiver).unwrap().event2, 3);
}

#[test]
fn test_event_dispatcher_04() {
    let mut dispatcher = EventDispatcher::new();
    let receiver = Receiver2::new(&mut dispatcher);
    dispatcher.push(Event::Event1(0));
    dispatcher.dispatch();
    assert_eq!(dispatcher.handler(receiver).unwrap().event1, 1);
    assert_eq!(dispatcher.handler(receiver).unwrap().event2, 1);
}

struct Recorder {
    tag: u32,
    seen: Vec<(u32, i32)>,
}

impl EventHandler<Event> for Recorder {
    fn on_event(&mut self, event: &Event, _outbox: &mut Outbox<Event>) {
        match event {
            Event::Event1(v) => self.seen.push((self.tag * 10 + 1, *v)),
            Event::Event2(v) => self.seen.push((self.tag * 10 + 2, *v)),
        }
    }
}

fn recorder(tag: u32) -> Recorder {
    Recorder {
        tag,
        seen: Vec::new(),
    }
}

#[test]
fn events_reach_handlers_in_push_order() {
    let mut dispatcher = EventDispatcher::new();
    let r = dispatcher.add_handler(recorder(1));
    dispatcher.create_connection(EVENT1, r).connect(&mut dispatcher);
    dispatcher.create_connection(EVENT2, r).connect(&mut dispatcher);
    dispatcher.push(Event::Event2(7));
    dispatcher.push(Event::Event1(8));
    dispatcher.push(Event::Event2(9));
    assert_eq!(dispatcher.dispatch(), 5);
    assert_eq!(dispatcher.handler(r).unwrap().seen, [(12, 7), (11, 8), (12, 9)]);
}

#[test]
fn subscribers_run_in_connection_order() {
    let mut dispatcher = EventDispatcher::new();
    let a = dispatcher.add_handler(recorder(1));
    let b = dispatcher.add_handler(recorder(2));
    dispatcher.create_connection(EVENT1, b).connect(&mut dispatcher);
    dispatcher.create_connection(EVENT1, a).connect(&mut dispatcher);
    dispatcher.push(Event::Event1(3));
    dispatcher.dispatch();
    assert_eq!(dispatcher.handler(a).unwrap().seen, [(11, 3)]);
    assert_eq!(dispatcher.handler(b).unwrap().seen, [(21, 3)]);
}

#[test]
fn removed_handler_is_not_invoked() {
    let mut dispatcher = EventDispatcher::new();
    let gone = dispatcher.add_handler(recorder(1));
    let kept = dispatcher.add_handler(recorder(2));
    let connection = dispatcher.create_connection(EVENT1, gone);
    connection.connect(&mut dispatcher);
    dispatcher.create_connection(EVENT1, kept).connect(&mut dispatcher);
    dispatcher.dispatch();

    let removed = dispatcher.remove_handler(gone).unwrap();
    assert!(removed.seen.is_empty());
    assert!(dispatcher.handler(gone).is_none());
    assert!(dispatcher.remove_handler(gone).is_none());

    dispatcher.push(Event::Event1(4));
    connection.connect(&mut dispatcher);
    connection.disconnect(&mut dispatcher);
    dispatcher.push(Event::Event1(5));
    dispatcher.dispatch();
    assert_eq!(dispatcher.handler(kept).unwrap().seen, [(21, 4), (21, 5)]);
}

#[test]
fn empty_connection_asks_nothing() {
    let mut dispatcher: EventDispatcher<Event, Recorder> = EventDispatcher::new();
    let connection = Connection::empty();
    connection.connect(&mut dispatcher);
    connection.disconnect(&mut dispatcher);
    assert_eq!(dispatcher.dispatch(), 0);

    let mut outbox: Outbox<Event> = Outbox::new();
    Connection::default().connect(&mut outbox);
    assert_eq!(outbox.len(), 0);
}

#[test]
fn duplicate_subscription_is_removed_one_at_a_time() {
    let mut dispatcher = EventDispatcher::new();
    let r = dispatcher.add_handler(recorder(1));
    let connection = dispatcher.create_connection(EVENT2, r);
    connection.connect(&mut dispatcher);
    connection.connect(&mut dispatcher);
    dispatcher.push(Event::Event2(1));
    connection.disconnect(&mut dispatcher);
    dispatcher.push(Event::Event2(2));
    connection.disconnect(&mut dispatcher);
    dispatcher.push(Event::Event2(3));
    dispatcher.dispatch();
    assert_eq!(dispatcher.handler(r).unwrap().seen, [(12, 1), (12, 1), (12, 2)]);
}

#[test]
fn event_without_subscribers_is_dropped() {
    let mut dispatcher = EventDispatcher::new();
    let r = dispatcher.add_handler(recorder(1));
    dispatcher.push(Event::Event1(1));
    assert_eq!(dispatcher.dispatch(), 1);
    assert!(dispatcher.handler(r).unwrap().seen.is_empty());
}

#[test]
fn handler_state_can_be_changed_in_place() {
    let mut dispatcher = EventDispatcher::new();
    let r = dispatcher.add_handler(recorder(1));
    dispatcher.handler_mut(r).unwrap().tag = 4;
    dispatcher.create_connection(EVENT1, r).connect(&mut dispatcher);
    dispatcher.push(Event::Event1(0));
    dispatcher.dispatch();
    assert_eq!(dispatcher.handler(r).unwrap().seen, [(41, 0)]);
    assert!(dispatcher.handler_mut(HandlerKey { slot: 9 }).is_none());
}
