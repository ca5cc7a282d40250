use entity_system::RefreshPeriod;

const SECOND: u64 = 1_000_000_000;

#[allow(clippy::eq_op)]
#[test]
fn test_system_manager_01() {
    let now: u64 = 42 * SECOND;

    assert!(RefreshPeriod::Stop < RefreshPeriod::EveryTime);
    assert!(RefreshPeriod::Stop < RefreshPeriod::At(now));
    assert!(RefreshPeriod::Stop == RefreshPeriod::Stop);

    assert!(RefreshPeriod::EveryTime > RefreshPeriod::Stop);
    assert!(RefreshPeriod::EveryTime > RefreshPeriod::At(now));
    assert!(RefreshPeriod::EveryTime == RefreshPeriod::EveryTime);

    assert!(RefreshPeriod::At(now) < RefreshPeriod::EveryTime);
    assert!(RefreshPeriod::At(now) > RefreshPeriod::Stop);
    assert!(RefreshPeriod::At(now) == RefreshPeriod::At(now));

    assert!(RefreshPeriod::At(now) < RefreshPeriod::At(now + 5 * SECOND));
    assert!(RefreshPeriod::At(now + 5 * SECOND) > RefreshPeriod::At(now));
}

use entity_system::{AccessEventAdapter, EventDispatcher, EventHandler, Outbox, System, SystemManager};

struct Ping(u32);

impl AccessEventAdapter for Ping {
    fn adapter(&self) -> usize {
        0
    }
}

struct PingCounter {
    count: u32,
}

impl EventHandler<Ping> for PingCounter {
    fn on_event(&mut self, _event: &Ping, _outbox: &mut Outbox<Ping>) {
        self.count += 1;
    }
}

enum Behaviour {
    Every,
    Wait(u64),
    Once,
}

struct Probe {
    name: &'static str,
    behaviour: Behaviour,
}

impl System for Probe {
    type Context = Vec<&'static str>;
    type Event = Ping;

    fn name(&self) -> &'static str {
        self.name
    }

    fn run(&mut self, now: u64, ctx: &mut Vec<&'static str>, outbox: &mut Outbox<Ping>) -> RefreshPeriod {
        ctx.push(self.name);
        outbox.push(Ping(0));
        match self.behaviour {
            Behaviour::Every => RefreshPeriod::EveryTime,
            Behaviour::Wait(delay) => RefreshPeriod::At(now + delay),
            Behaviour::Once => RefreshPeriod::Stop,
        }
    }
}

use entity_system::Dispatcher;

fn probe(name: &'static str, behaviour: Behaviour) -> Probe {
    Probe { name, behaviour }
}

#[test]
fn scheduler_refresh_semantics() {
    let mut bus: EventDispatcher<Ping, PingCounter> = EventDispatcher::new();
    let counter = bus.add_handler(PingCounter { count: 0 });
    bus.create_connection(0, counter).connect(&mut bus);
    bus.dispatch();

    let mut manager = SystemManager::new();
    manager.add_system(probe("timer", Behaviour::Wait(5 * SECOND)));
    manager.add_system(probe("once", Behaviour::Once));
    let mut ran = Vec::new();

    assert_eq!(manager.update(0, &mut ran, &mut bus), RefreshPeriod::EveryTime);
    assert_eq!(ran, ["timer", "once"]);
    assert_eq!(bus.handler(counter).unwrap().count, 2);

    ran.clear();
    assert_eq!(manager.update(SECOND, &mut ran, &mut bus), RefreshPeriod::At(5 * SECOND));
    assert!(ran.is_empty());
    assert_eq!(manager.update(5 * SECOND - 1, &mut ran, &mut bus), RefreshPeriod::At(5 * SECOND));
    assert!(ran.is_empty());

    assert_eq!(manager.update(5 * SECOND, &mut ran, &mut bus), RefreshPeriod::At(5 * SECOND));
    assert_eq!(ran, ["timer"]);
    assert_eq!(manager.update(6 * SECOND, &mut ran, &mut bus), RefreshPeriod::At(10 * SECOND));
    assert_eq!(ran, ["timer"]);
    assert_eq!(bus.handler(counter).unwrap().count, 3);
}

#[test]
fn update_returns_the_largest_refresh_period() {
    let mut bus: EventDispatcher<Ping, PingCounter> = EventDispatcher::new();
    let mut manager = SystemManager::default();
    let mut ran = Vec::new();
    assert_eq!(manager.update(0, &mut ran, &mut bus), RefreshPeriod::Stop);

    manager.add_system(probe("a", Behaviour::Wait(3)));
    manager.add_system(probe("b", Behaviour::Wait(7)));
    manager.update(10, &mut ran, &mut bus);
    assert_eq!(manager.update(11, &mut ran, &mut bus), RefreshPeriod::At(17));

    manager.add_system(probe("c", Behaviour::Every));
    assert_eq!(manager.update(12, &mut ran, &mut bus), RefreshPeriod::EveryTime);
}

#[test]
fn set_refresh_overrides_a_named_system() {
    let mut bus: EventDispatcher<Ping, PingCounter> = EventDispatcher::new();
    let mut manager = SystemManager::new();
    manager.add_system(probe("a", Behaviour::Every));
    manager.add_system(probe("b", Behaviour::Every));
    let mut ran = Vec::new();

    manager.set_refresh("a", RefreshPeriod::Stop);
    manager.set_refresh("missing", RefreshPeriod::Stop);
    manager.update(0, &mut ran, &mut bus);
    assert_eq!(ran, ["b"]);

    manager.set_refresh("a", RefreshPeriod::At(20));
    ran.clear();
    manager.update(19, &mut ran, &mut bus);
    assert_eq!(ran, ["b"]);
    ran.clear();
    manager.update(20, &mut ran, &mut bus);
    assert_eq!(ran, ["a", "b"]);
}

#[test]
fn later_system_takes_a_shared_name_over() {
    let mut bus: EventDispatcher<Ping, PingCounter> = EventDispatcher::new();
    let mut manager = SystemManager::new();
    manager.add_system(probe("same", Behaviour::Every));
    manager.add_system(probe("same", Behaviour::Every));
    manager.set_refresh("same", RefreshPeriod::Stop);
    let mut ran = Vec::new();
    manager.update(0, &mut ran, &mut bus);
    assert_eq!(ran, ["same"]);
}
