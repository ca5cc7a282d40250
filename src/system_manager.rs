//! The scheduler: systems run in order, each when its refresh period says.

use vstd::prelude::*;

use core::cmp::Ordering;

use crate::event_dispatcher::{AccessEventAdapter, Dispatcher, EventDispatcher, EventHandler, Outbox};

verus! {

/// When a system wants to run again. Ordered `Stop < At(t) < EveryTime`, and
/// two `At` by their instants.
#[derive(Debug, Clone, Copy, PartialEq, Eq, Ord, Structural)]
pub enum RefreshPeriod {
    /// Never again.
    Stop,
    /// At the first update at or after this instant, in nanoseconds on the
    /// caller's monotonic clock.
    At(u64),
    /// At every update.
    EveryTime,
}

/// The order of refresh periods.
pub open spec fn refresh_cmp(a: RefreshPeriod, b: RefreshPeriod) -> Ordering {
    match (a, b) {
        (RefreshPeriod::Stop, RefreshPeriod::Stop) => Ordering::Equal,
        (RefreshPeriod::Stop, _) => Ordering::Less,
        (RefreshPeriod::At(_), RefreshPeriod::Stop) => Ordering::Greater,
        (RefreshPeriod::At(x), RefreshPeriod::At(y)) => if x < y {
            Ordering::Less
        } else if x == y {
            Ordering::Equal
        } else {
            Ordering::Greater
        },
        (RefreshPeriod::At(_), RefreshPeriod::EveryTime) => Ordering::Less,
        (RefreshPeriod::EveryTime, RefreshPeriod::EveryTime) => Ordering::Equal,
        (RefreshPeriod::EveryTime, _) => Ordering::Greater,
    }
}

impl PartialOrd for RefreshPeriod {
    fn partial_cmp(&self, other: &RefreshPeriod) -> (r: Option<Ordering>) {
        let o = match (self, other) {
            (RefreshPeriod::Stop, RefreshPeriod::Stop) => Ordering::Equal,
            (RefreshPeriod::Stop, _) => Ordering::Less,
            (RefreshPeriod::At(_), RefreshPeriod::Stop) => Ordering::Greater,
            (RefreshPeriod::At(x), RefreshPeriod::At(y)) => if *x < *y {
                Ordering::Less
            } else if *x == *y {
                Ordering::Equal
            } else {
                Ordering::Greater
            },
            (RefreshPeriod::At(_), RefreshPeriod::EveryTime) => Ordering::Less,
            (RefreshPeriod::EveryTime, RefreshPeriod::EveryTime) => Ordering::Equal,
            (RefreshPeriod::EveryTime, _) => Ordering::Greater,
        };
        Some(o)
    }
}

impl vstd::std_specs::cmp::PartialOrdSpecImpl for RefreshPeriod {
    open spec fn obeys_partial_cmp_spec() -> bool {
        true
    }

    open spec fn partial_cmp_spec(&self, other: &RefreshPeriod) -> Option<Ordering> {
        Some(refresh_cmp(*self, *other))
    }
}

/// The larger of two refresh periods.
pub open spec fn refresh_max(a: RefreshPeriod, b: RefreshPeriod) -> RefreshPeriod {
    if refresh_cmp(a, b) == Ordering::Less {
        b
    } else {
        a
    }
}

/// The largest of `s`, or `Stop` for an empty sequence.
pub open spec fn refresh_max_of(s: Seq<RefreshPeriod>) -> RefreshPeriod
    decreases s.len(),
{
    if s.len() == 0 {
        RefreshPeriod::Stop
    } else {
        refresh_max(refresh_max_of(s.drop_last()), s.last())
    }
}

/// A system whose state is `refresh` runs at an update at instant `now`.
pub open spec fn is_due(refresh: RefreshPeriod, now: u64) -> bool {
    match refresh {
        RefreshPeriod::Stop => false,
        RefreshPeriod::At(t) => t <= now,
        RefreshPeriod::EveryTime => true,
    }
}

/// The positions, in order, of the systems of states `s` that run at `now`.
pub open spec fn due_systems(s: Seq<RefreshPeriod>, now: u64) -> Seq<int>
    decreases s.len(),
{
    if s.len() == 0 {
        Seq::empty()
    } else if is_due(s.last(), now) {
        due_systems(s.drop_last(), now).push(s.len() - 1)
    } else {
        due_systems(s.drop_last(), now)
    }
}

/// A unit of work that the scheduler runs when its refresh period says so.
/// It reaches the rest of the program through `ctx`, and the event bus
/// through `outbox`.
pub trait System {
    /// What the system works on.
    type Context;

    /// The events it may publish.
    type Event;

    /// The system's name: unique among the systems of one scheduler, and
    /// constant.
    fn name(&self) -> &'static str;

    /// Does the system's work at instant `now` and tells when to run next.
    fn run(
        &mut self,
        now: u64,
        ctx: &mut Self::Context,
        outbox: &mut Outbox<Self::Event>,
    ) -> RefreshPeriod;
}

/// Runs systems in the order they were added, each when its refresh period
/// says so.
pub struct SystemManager<S> {
    systems: Vec<S>,
    refresh: Vec<RefreshPeriod>,
    names: Vec<String>,
    runs: Ghost<Seq<int>>,
}

impl<S> SystemManager<S> {
    pub closed spec fn refresh_states(&self) -> Seq<RefreshPeriod> {
        self.refresh@
    }

    /// The systems, in the order they were added.
    pub closed spec fn systems(&self) -> Seq<S> {
        self.systems@
    }

    pub closed spec fn names(&self) -> Seq<Seq<char>> {
        self.names@.map_values(|n: String| n@)
    }

    /// The positions of the systems that ran, in the order they ran.
    pub closed spec fn runs(&self) -> Seq<int> {
        self.runs@
    }

    pub closed spec fn wf(&self) -> bool {
        self.systems@.len() == self.refresh@.len() && self.refresh@.len() == self.names@.len()
    }

    pub fn new() -> (r: Self)
        ensures
            r.wf(),
            r.refresh_states() == Seq::<RefreshPeriod>::empty(),
            r.names() == Seq::<Seq<char>>::empty(),
            r.runs() == Seq::<int>::empty(),
    {
        let r = SystemManager {
            systems: Vec::new(),
            refresh: Vec::new(),
            names: Vec::new(),
            runs: Ghost(Seq::empty()),
        };
        assert(r.names() =~= Seq::<Seq<char>>::empty());
        r
    }
}

impl<S> Default for SystemManager<S> {
    fn default() -> (r: SystemManager<S>)
        ensures
            r.wf(),
            r.refresh_states() == Seq::<RefreshPeriod>::empty(),
            r.names() == Seq::<Seq<char>>::empty(),
            r.runs() == Seq::<int>::empty(),
    {
        SystemManager::new()
    }
}

impl<S: System> SystemManager<S> where S::Event: AccessEventAdapter {
    /// Adds `system` at the end of the order, to run at every update. A later
    /// system of the same name takes the name over for `set_refresh`.
    pub fn add_system(&mut self, system: S)
        requires
            old(self).wf(),
        ensures
            final(self).wf(),
            final(self).refresh_states() == old(self).refresh_states().push(
                RefreshPeriod::EveryTime,
            ),
            final(self).names().len() == old(self).names().len() + 1,
            final(self).names().drop_last() == old(self).names(),
            exists|name: &'static str|
                call_ensures(S::name, (&system,), name) && final(self).names().last() == name@,
            final(self).systems() == old(self).systems().push(system),
            final(self).runs() == old(self).runs(),
    {
        let given = system.name();
        let name = given.to_owned();
        self.names.push(name);
        self.systems.push(system);
        self.refresh.push(RefreshPeriod::EveryTime);
        assert(self.names().drop_last() =~= old(self).names());
        assert(self.names().last() == given@);
    }

    /// Sets the refresh period of the last system added under `name`; does
    /// nothing if there is none.
    pub fn set_refresh(&mut self, name: &str, value: RefreshPeriod)
        requires
            old(self).wf(),
        ensures
            final(self).wf(),
            final(self).names() == old(self).names(),
            final(self).runs() == old(self).runs(),
            final(self).refresh_states() == match last_named(old(self).names(), name@) {
                Some(i) => old(self).refresh_states().update(i, value),
                None => old(self).refresh_states(),
            },
    {
        let wanted = name.to_owned();
        let mut i: usize = self.names.len();
        while i > 0
            invariant
                0 <= i <= self.names@.len(),
                self.wf(),
                self == old(self),
                wanted@ == name@,
                forall|j: int| i <= j < self.names@.len() ==> self.names@[j]@ != name@,
            decreases i,
        {
            i = i - 1;
            if self.names[i] == wanted {
                proof {
                    lemma_last_named(self.names(), name@, i as int);
                }
                self.set_refresh_by_pos(i, value);
                return;
            }
        }
        proof {
            lemma_last_named_none(self.names(), name@);
        }
    }

    fn set_refresh_by_pos(&mut self, id: usize, value: RefreshPeriod)
        requires
            old(self).wf(),
            id < old(self).refresh_states().len(),
        ensures
            final(self).wf(),
            final(self).names() == old(self).names(),
            final(self).runs() == old(self).runs(),
            final(self).refresh_states() == old(self).refresh_states().update(id as int, value),
    {
        self.refresh.set(id, value);
    }

    /// Runs, in order, each system that is due at `now`, and drains `bus`
    /// after each one. A system that ran takes the refresh period that its
    /// `run` returned; the others keep theirs. Returns the largest refresh
    /// period that the systems had as the pass reached them.
    pub fn update<H: EventHandler<S::Event>>(
        &mut self,
        now: u64,
        ctx: &mut S::Context,
        bus: &mut EventDispatcher<S::Event, H>,
    ) -> (r: RefreshPeriod)
        requires
            old(self).wf(),
        ensures
            final(self).wf(),
            final(self).names() == old(self).names(),
            r == refresh_max_of(old(self).refresh_states()),
            final(self).runs() == old(self).runs() + due_systems(old(self).refresh_states(), now),
            update_step(old(self).refresh_states(), final(self).refresh_states(), now),
            final(self).systems().len() == old(self).systems().len(),
            forall|j: int|
                0 <= j < old(self).systems().len() && !is_due(old(self).refresh_states()[j], now)
                    ==> final(self).systems()[j] == old(self).systems()[j],
            forall|j: int|
                0 <= j < old(self).systems().len() && is_due(old(self).refresh_states()[j], now)
                    ==> exists|system: &mut S, c: &mut S::Context, o: &mut Outbox<S::Event>|
                    {
                        &&& *system == old(self).systems()[j]
                        &&& call_ensures(S::run, (system, now, c, o), final(self).refresh_states()[j])
                    },
            final(bus).handler_table().same_slots(&old(bus).handler_table()),
            final(bus).processed() >= old(bus).processed(),
            due_systems(old(self).refresh_states(), now).len() > 0 ==> final(bus).queued().len()
                == 0 || final(bus).processed() >= old(bus).processed() + u64::MAX,
    {
        let mut ret = RefreshPeriod::Stop;
        let mut i: usize = 0;
        while i < self.systems.len()
            invariant
                self.wf(),
                0 <= i <= self.systems@.len(),
                self.names() == old(self).names(),
                self.refresh@.len() == old(self).refresh@.len(),
                forall|j: int| i <= j < self.refresh@.len() ==> self.refresh@[j] == old(self).refresh@[j],
                forall|j: int|
                    0 <= j < i && !is_due(old(self).refresh@[j], now) ==> self.refresh@[j] == old(
                        self,
                    ).refresh@[j],
                ret == refresh_max_of(old(self).refresh@.take(i as int)),
                self.runs() == old(self).runs() + due_systems(old(self).refresh@.take(i as int), now),
                forall|j: int| i <= j < self.systems@.len() ==> self.systems@[j] == old(self).systems@[j],
                forall|j: int|
                    0 <= j < i && !is_due(old(self).refresh@[j], now) ==> self.systems@[j] == old(
                        self,
                    ).systems@[j],
                forall|j: int|
                    0 <= j < i && is_due(old(self).refresh@[j], now) ==> exists|
                        system: &mut S,
                        c: &mut S::Context,
                        o: &mut Outbox<S::Event>,
                    |
                        {
                            &&& *system == old(self).systems@[j]
                            &&& call_ensures(S::run, (system, now, c, o), self.refresh@[j])
                        },
                bus.handler_table().same_slots(&old(bus).handler_table()),
                bus.processed() >= old(bus).processed(),
                due_systems(old(self).refresh@.take(i as int), now).len() > 0 ==> bus.queued().len()
                    == 0 || bus.processed() >= old(bus).processed() + u64::MAX,
            decreases self.systems@.len() - i,
        {
            let refresh = self.refresh[i];
            proof {
                assert(old(self).refresh@.take(i + 1).drop_last() =~= old(self).refresh@.take(i as int));
            }
            if ret < refresh {
                ret = refresh;
            }
            let due = match refresh {
                RefreshPeriod::Stop => false,
                RefreshPeriod::At(t) => t <= now,
                RefreshPeriod::EveryTime => true,
            };
            if due {
                let mut outbox: Outbox<S::Event> = Outbox::new();
                let ghost pre = *self;
                let system = &mut self.systems[i];
                let context: &mut S::Context = &mut *ctx;
                let out = &mut outbox;
                let new_refresh = S::run(system, now, context, out);
                assert(exists|a: &mut S, c: &mut S::Context, o: &mut Outbox<S::Event>|
                    *a == pre.systems@[i as int] && call_ensures(
                        S::run,
                        (a, now, c, o),
                        new_refresh,
                    ));
                if new_refresh != refresh {
                    self.refresh.set(i, new_refresh);
                }
                bus.take_outbox(&mut outbox);
                bus.dispatch();
                self.runs = Ghost(self.runs@.push(i as int));
                proof {
                    assert(self.refresh@[i as int] == new_refresh);
                    assert forall|j: int|
                        0 <= j < i + 1 && is_due(old(self).refresh@[j], now) implies exists|
                        system: &mut S,
                        c: &mut S::Context,
                        o: &mut Outbox<S::Event>,
                    |
                        {
                            &&& *system == old(self).systems@[j]
                            &&& call_ensures(S::run, (system, now, c, o), self.refresh@[j])
                        } by {
                        if j == i {
                            assert(pre.systems@[j] == old(self).systems@[j]);
                        } else {
                            assert(self.systems@[j] == pre.systems@[j]);
                            assert(self.refresh@[j] == pre.refresh@[j]);
                        }
                    }
                }
            } else {
                assert(!is_due(old(self).refresh@[i as int], now));
            }
            i = i + 1;
        }
        proof {
            assert(old(self).refresh@.take(self.refresh@.len() as int) =~= old(self).refresh@);
        }
        ret
    }
}

/// Between the states `before` and `after` of an update at `now`, a system
/// that was not due kept its refresh period.
pub open spec fn update_step(before: Seq<RefreshPeriod>, after: Seq<RefreshPeriod>, now: u64) -> bool {
    &&& after.len() == before.len()
    &&& forall|i: int| 0 <= i < before.len() && !is_due(before[i], now) ==> after[i] == before[i]
}

/// A system is among those that run at `now` exactly when it is due.
pub proof fn lemma_due_systems(s: Seq<RefreshPeriod>, now: u64, i: int)
    ensures
        due_systems(s, now).contains(i) <==> (0 <= i < s.len() && is_due(s[i], now)),
    decreases s.len(),
{
    if s.len() > 0 {
        lemma_due_systems(s.drop_last(), now, i);
        if is_due(s.last(), now) {
            let d = due_systems(s.drop_last(), now);
            assert(d.push(s.len() - 1).contains(i) <==> (d.contains(i) || i == s.len() - 1)) by {
                if d.push(s.len() - 1).contains(i) {
                    let k = choose|k: int| 0 <= k < d.len() + 1 && #[trigger] d.push(s.len() - 1)[k] == i;
                    if k < d.len() {
                        assert(d[k] == i);
                    }
                }
                if d.contains(i) {
                    let k = choose|k: int| 0 <= k < d.len() && #[trigger] d[k] == i;
                    assert(d.push(s.len() - 1)[k] == i);
                }
                if i == s.len() - 1 {
                    assert(d.push(s.len() - 1)[d.len() as int] == i);
                }
            }
        }
    }
}

/// A stopped system is never run and stays stopped.
pub proof fn lemma_stopped_system_stays_stopped(
    before: Seq<RefreshPeriod>,
    after: Seq<RefreshPeriod>,
    now: u64,
    i: int,
)
    requires
        update_step(before, after, now),
        0 <= i < before.len(),
        before[i] == RefreshPeriod::Stop,
    ensures
        !due_systems(before, now).contains(i),
        after[i] == RefreshPeriod::Stop,
{
    lemma_due_systems(before, now, i);
}

/// A system waiting for instant `t` is skipped, and keeps waiting, at every
/// update before `t`; it runs at the first update at or after `t`.
pub proof fn lemma_deadline(
    before: Seq<RefreshPeriod>,
    after: Seq<RefreshPeriod>,
    now: u64,
    i: int,
    t: u64,
)
    requires
        update_step(before, after, now),
        0 <= i < before.len(),
        before[i] == RefreshPeriod::At(t),
    ensures
        now < t ==> !due_systems(before, now).contains(i) && after[i] == before[i],
        t <= now ==> due_systems(before, now).contains(i),
{
    lemma_due_systems(before, now, i);
}

/// The value of an update is the largest refresh period of the systems: no
/// system's is larger, and it is one of them unless there is none.
pub proof fn lemma_refresh_max_of(s: Seq<RefreshPeriod>)
    ensures
        forall|i: int|
            0 <= i < s.len() ==> refresh_cmp(#[trigger] s[i], refresh_max_of(s)) != Ordering::Greater,
        s.len() == 0 ==> refresh_max_of(s) == RefreshPeriod::Stop,
        s.len() > 0 ==> s.contains(refresh_max_of(s)),
    decreases s.len(),
{
    if s.len() > 0 {
        let init = s.drop_last();
        lemma_refresh_max_of(init);
        assert forall|i: int| 0 <= i < s.len() implies refresh_cmp(#[trigger] s[i], refresh_max_of(s))
            != Ordering::Greater by {
            if i < s.len() - 1 {
                assert(s[i] == init[i]);
            }
        }
        if init.len() > 0 && refresh_max_of(s) == refresh_max_of(init) {
            let k = choose|k: int| 0 <= k < init.len() && init[k] == refresh_max_of(init);
            assert(s[k] == refresh_max_of(s));
        } else {
            assert(s[s.len() - 1] == refresh_max_of(s));
        }
    }
}

/// The position of the last name in `names` equal to `name`.
pub open spec fn last_named(names: Seq<Seq<char>>, name: Seq<char>) -> Option<int>
    decreases names.len(),
{
    if names.len() == 0 {
        None
    } else if names.last() == name {
        Some(names.len() - 1)
    } else {
        last_named(names.drop_last(), name)
    }
}

proof fn lemma_last_named(names: Seq<Seq<char>>, name: Seq<char>, i: int)
    requires
        0 <= i < names.len(),
        names[i] == name,
        forall|j: int| i < j < names.len() ==> names[j] != name,
    ensures
        last_named(names, name) == Some(i),
    decreases names.len(),
{
    if i < names.len() - 1 {
        lemma_last_named(names.drop_last(), name, i);
    }
}

proof fn lemma_last_named_none(names: Seq<Seq<char>>, name: Seq<char>)
    requires
        forall|j: int| 0 <= j < names.len() ==> names[j] != name,
    ensures
        last_named(names, name) is None,
    decreases names.len(),
{
    if names.len() > 0 {
        lemma_last_named_none(names.drop_last(), name);
    }
}

} // verus!
