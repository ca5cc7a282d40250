//! The deferred event bus: handlers, adapters, connections and the
//! dispatcher that runs queued requests in order.

use vstd::prelude::*;

use std::collections::VecDeque;

verus! {

/// Names a handler held by a dispatcher: the slot it was given. Slots are
/// never reused, so a key outlives its handler without ever naming another.
#[derive(Debug, Clone, Copy, PartialEq, Eq, Hash, Structural)]
pub struct HandlerKey {
    pub slot: usize,
}

/// Tells which adapter of a dispatcher an event goes to: one adapter per
/// kind of event.
pub trait AccessEventAdapter {
    fn adapter(&self) -> usize;
}

/// Receives the events of the adapters it is connected to. What it asks of
/// the bus meanwhile goes into `outbox` and runs after the current request.
pub trait EventHandler<E> {
    fn on_event(&mut self, event: &E, outbox: &mut Outbox<E>);
}

/// A request to the event bus, run when the bus drains its queue.
pub enum Request<E> {
    /// Appends `handler` to the subscribers of `adapter`.
    Connect { adapter: usize, handler: HandlerKey },
    /// Removes the first `handler` from the subscribers of `adapter`.
    Disconnect { adapter: usize, handler: HandlerKey },
    /// Hands `event` to each subscriber of `adapter`, in order.
    Publish { adapter: usize, event: E },
}

/// What takes requests for the event bus, in order.
pub trait Dispatcher<E: AccessEventAdapter>: Sized {
    /// The requests taken and not yet run, oldest first.
    spec fn queued(&self) -> Seq<Request<E>>;

    fn connect(&mut self, adapter: usize, handler: HandlerKey)
        ensures
            final(self).queued() == old(self).queued().push(
                Request::Connect { adapter, handler },
            ),
    ;

    fn disconnect(&mut self, adapter: usize, handler: HandlerKey)
        ensures
            final(self).queued() == old(self).queued().push(
                Request::Disconnect { adapter, handler },
            ),
    ;

    /// Queues `event` for the adapter that `event.adapter()` names.
    fn push(&mut self, event: E)
        ensures
            final(self).queued().len() == old(self).queued().len() + 1,
            final(self).queued().drop_last() == old(self).queued(),
            final(self).queued().last() matches Request::Publish { adapter, event: ev } && ev == event
                && call_ensures(E::adapter, (&event,), adapter),
    ;
}

/// Requests gathered while a handler or a system runs; the bus runs them
/// afterwards, in the order they were made.
pub struct Outbox<E> {
    requests: VecDeque<Request<E>>,
}

impl<E> Outbox<E> {
    pub closed spec fn requests(&self) -> Seq<Request<E>> {
        self.requests@
    }

    pub fn new() -> (r: Self)
        ensures
            r.requests() == Seq::<Request<E>>::empty(),
    {
        Outbox { requests: VecDeque::new() }
    }

    /// Number of requests gathered.
    pub fn len(&self) -> (r: usize)
        ensures
            r == self.requests().len(),
    {
        self.requests.len()
    }
}

impl<E: AccessEventAdapter> Dispatcher<E> for Outbox<E> {
    closed spec fn queued(&self) -> Seq<Request<E>> {
        self.requests@
    }

    fn connect(&mut self, adapter: usize, handler: HandlerKey) {
        self.requests.push_back(Request::Connect { adapter, handler });
    }

    fn disconnect(&mut self, adapter: usize, handler: HandlerKey) {
        self.requests.push_back(Request::Disconnect { adapter, handler });
    }

    fn push(&mut self, event: E) {
        let adapter = event.adapter();
        self.requests.push_back(Request::Publish { adapter, event });
        assert(self.requests@.drop_last() =~= old(self).requests@);
    }
}

/// A subscription of one handler to one adapter, made or revoked on request.
/// An empty connection names no handler: connecting or disconnecting it does
/// nothing.
#[derive(Debug, Clone, Copy)]
pub struct Connection {
    target: Option<(usize, HandlerKey)>,
}

impl Connection {
    /// The adapter and the handler that the connection binds, if any.
    pub closed spec fn target(&self) -> Option<(usize, HandlerKey)> {
        self.target
    }

    pub fn new(adapter: usize, handler: HandlerKey) -> (r: Connection)
        ensures
            r.target() == Some((adapter, handler)),
    {
        Connection { target: Some((adapter, handler)) }
    }

    pub fn empty() -> (r: Connection)
        ensures
            r.target() is None,
    {
        Connection { target: None }
    }

    /// Asks `dispatcher` to subscribe the handler to the adapter.
    pub fn connect<E: AccessEventAdapter, D: Dispatcher<E>>(&self, dispatcher: &mut D)
        ensures
            self.target() is None ==> final(dispatcher).queued() == old(dispatcher).queued(),
            self.target() matches Some((adapter, handler)) ==> final(dispatcher).queued() == old(
                dispatcher,
            ).queued().push(Request::Connect { adapter, handler }),
    {
        if let Some((adapter, handler)) = self.target {
            dispatcher.connect(adapter, handler);
        }
    }

    /// Asks `dispatcher` to unsubscribe the handler from the adapter.
    pub fn disconnect<E: AccessEventAdapter, D: Dispatcher<E>>(&self, dispatcher: &mut D)
        ensures
            self.target() is None ==> final(dispatcher).queued() == old(dispatcher).queued(),
            self.target() matches Some((adapter, handler)) ==> final(dispatcher).queued() == old(
                dispatcher,
            ).queued().push(Request::Disconnect { adapter, handler }),
    {
        if let Some((adapter, handler)) = self.target {
            dispatcher.disconnect(adapter, handler);
        }
    }
}

impl Default for Connection {
    fn default() -> (r: Connection)
        ensures
            r.target() is None,
    {
        Connection::empty()
    }
}

/// The handlers held by a dispatcher, each in a slot of its own. A removed
/// handler leaves its slot empty for good.
pub struct HandlerTable<H> {
    slots: Vec<Option<H>>,
    delivered: Ghost<Seq<HandlerKey>>,
}

impl<H> HandlerTable<H> {
    pub closed spec fn slots(&self) -> Seq<Option<H>> {
        self.slots@
    }

    /// The handlers that received an event, in the order they received it.
    pub closed spec fn deliveries(&self) -> Seq<HandlerKey> {
        self.delivered@
    }

    pub open spec fn is_live(&self, key: HandlerKey) -> bool {
        key.slot < self.slots().len() && self.slots()[key.slot as int] is Some
    }

    /// Same handlers alive in the same slots.
    pub open spec fn same_slots(&self, other: &Self) -> bool {
        &&& self.slots().len() == other.slots().len()
        &&& forall|i: int|
            0 <= i < self.slots().len() ==> (#[trigger] self.slots()[i] is Some <==> other.slots()[i] is Some)
    }

    pub fn new() -> (r: Self)
        ensures
            r.slots() == Seq::<Option<H>>::empty(),
            r.deliveries() == Seq::<HandlerKey>::empty(),
    {
        HandlerTable { slots: Vec::new(), delivered: Ghost(Seq::empty()) }
    }

    pub fn add(&mut self, handler: H) -> (r: HandlerKey)
        ensures
            r.slot == old(self).slots().len(),
            final(self).slots() == old(self).slots().push(Some(handler)),
            final(self).deliveries() == old(self).deliveries(),
    {
        let slot = self.slots.len();
        self.slots.push(Some(handler));
        HandlerKey { slot }
    }

    pub fn remove(&mut self, key: HandlerKey) -> (r: Option<H>)
        ensures
            final(self).deliveries() == old(self).deliveries(),
            final(self).slots().len() == old(self).slots().len(),
            !final(self).is_live(key),
            old(self).is_live(key) ==> {
                &&& r == old(self).slots()[key.slot as int]
                &&& final(self).slots() == old(self).slots().update(key.slot as int, None)
            },
            !old(self).is_live(key) ==> r is None && final(self).slots() == old(self).slots(),
    {
        if key.slot < self.slots.len() {
            let mut taken: Option<H> = None;
            std::mem::swap(&mut taken, &mut self.slots[key.slot]);
            taken
        } else {
            None
        }
    }

    pub fn get(&self, key: HandlerKey) -> (r: Option<&H>)
        ensures
            self.is_live(key) ==> r == Some(&self.slots()[key.slot as int]->Some_0),
            !self.is_live(key) ==> r is None,
    {
        if key.slot < self.slots.len() {
            self.slots[key.slot].as_ref()
        } else {
            None
        }
    }

    pub fn get_mut(&mut self, key: HandlerKey) -> (r: Option<&mut H>)
        ensures
            final(self).deliveries() == old(self).deliveries(),
            old(self).is_live(key) ==> (r matches Some(h) && *h == old(
                self,
            ).slots()[key.slot as int]->Some_0 && final(self).slots() == old(self).slots().update(
                key.slot as int,
                Some(*final(h)),
            )),
            !old(self).is_live(key) ==> r is None && final(self).slots() == old(self).slots(),
    {
        if key.slot < self.slots.len() {
            self.slots[key.slot].as_mut()
        } else {
            None
        }
    }

    /// Hands `event` to the handler of `key`, if it is alive, and adds what it
    /// asks of the bus to `outbox`.
    fn deliver<E>(&mut self, key: HandlerKey, event: &E, outbox: &mut Outbox<E>) where
        H: EventHandler<E>,

        ensures
            final(self).same_slots(old(self)),
            old(self).is_live(key) ==> final(self).deliveries() == old(self).deliveries().push(key),
            !old(self).is_live(key) ==> final(self).deliveries() == old(self).deliveries(),
            old(outbox).requests().len() <= final(outbox).requests().len(),
            final(outbox).requests().subrange(0, old(outbox).requests().len() as int) == old(
                outbox,
            ).requests(),
    {
        if key.slot < self.slots.len() {
            match &mut self.slots[key.slot] {
                Some(h) => {
                    let mut fresh: Outbox<E> = Outbox::new();
                    h.on_event(event, &mut fresh);
                    outbox.requests.append(&mut fresh.requests);
                    self.delivered = Ghost(self.delivered@.push(key));
                },
                None => {},
            }
        }
        assert(final(outbox).requests().subrange(0, old(outbox).requests().len() as int) =~= old(
            outbox,
        ).requests());
    }
}

/// The subscribers of one kind of event, in the order they connected. A
/// handler may stand in the list more than once.
pub struct Adapter {
    handlers: Vec<HandlerKey>,
}

impl Adapter {
    pub closed spec fn subscribers(&self) -> Seq<HandlerKey> {
        self.handlers@
    }

    pub fn new() -> (r: Adapter)
        ensures
            r.subscribers() == Seq::<HandlerKey>::empty(),
    {
        Adapter { handlers: Vec::new() }
    }

    pub fn connect(&mut self, handler: HandlerKey)
        ensures
            final(self).subscribers() == old(self).subscribers().push(handler),
    {
        self.handlers.push(handler);
    }

    /// Removes the first occurrence of `handler`, if there is one.
    pub fn disconnect(&mut self, handler: HandlerKey)
        ensures
            final(self).subscribers() == without_first(old(self).subscribers(), handler),
    {
        let mut i: usize = 0;
        while i < self.handlers.len()
            invariant
                self.handlers@ == old(self).handlers@,
                0 <= i <= self.handlers@.len(),
                forall|j: int| 0 <= j < i ==> self.handlers@[j] != handler,
            decreases self.handlers@.len() - i,
        {
            if self.handlers[i] == handler {
                self.handlers.remove(i);
                proof {
                    lemma_without_first_at(old(self).handlers@, handler, i as int);
                }
                return;
            }
            i = i + 1;
        }
        proof {
            lemma_without_first_absent(old(self).handlers@, handler);
        }
    }

    /// Hands `event` to each live subscriber, in order, and adds what they
    /// ask of the bus to `outbox`.
    pub fn invoke<E, H: EventHandler<E>>(
        &self,
        event: &E,
        handlers: &mut HandlerTable<H>,
        outbox: &mut Outbox<E>,
    )
        ensures
            final(handlers).same_slots(old(handlers)),
            final(handlers).deliveries() == old(handlers).deliveries() + self.subscribers().filter(
                |k: HandlerKey| old(handlers).is_live(k),
            ),
            old(outbox).requests().len() <= final(outbox).requests().len(),
            final(outbox).requests().subrange(0, old(outbox).requests().len() as int) == old(
                outbox,
            ).requests(),
    {
        let ghost live = |k: HandlerKey| old(handlers).is_live(k);
        let mut i: usize = 0;
        while i < self.handlers.len()
            invariant
                0 <= i <= self.handlers@.len(),
                live == (|k: HandlerKey| old(handlers).is_live(k)),
                handlers.same_slots(old(handlers)),
                handlers.deliveries() == old(handlers).deliveries() + self.handlers@.take(
                    i as int,
                ).filter(live),
                old(outbox).requests().len() <= outbox.requests().len(),
                outbox.requests().subrange(0, old(outbox).requests().len() as int) == old(
                    outbox,
                ).requests(),
            decreases self.handlers@.len() - i,
        {
            let key = self.handlers[i];
            let ghost before = outbox.requests();
            assert(handlers.is_live(key) == old(handlers).is_live(key));
            handlers.deliver(key, event, outbox);
            proof {
                reveal(Seq::filter);
                assert(self.handlers@.take(i + 1).drop_last() =~= self.handlers@.take(i as int));
                assert(outbox.requests().subrange(0, old(outbox).requests().len() as int) =~= before.subrange(
                    0,
                    old(outbox).requests().len() as int,
                ));
            }
            i = i + 1;
        }
        assert(self.handlers@.take(self.handlers@.len() as int) =~= self.handlers@);
    }
}

impl Default for Adapter {
    fn default() -> (r: Adapter)
        ensures
            r.subscribers() == Seq::<HandlerKey>::empty(),
    {
        Adapter::new()
    }
}

/// `s` without its first occurrence of `x`, if any.
pub open spec fn without_first<T>(s: Seq<T>, x: T) -> Seq<T>
    decreases s.len(),
{
    if s.len() == 0 {
        s
    } else if s[0] == x {
        s.drop_first()
    } else {
        seq![s[0]] + without_first(s.drop_first(), x)
    }
}

proof fn lemma_without_first_at<T>(s: Seq<T>, x: T, i: int)
    requires
        0 <= i < s.len(),
        s[i] == x,
        forall|j: int| 0 <= j < i ==> s[j] != x,
    ensures
        without_first(s, x) == s.remove(i),
    decreases i,
{
    if i > 0 {
        lemma_without_first_at(s.drop_first(), x, i - 1);
        assert(s.remove(i) =~= seq![s[0]] + s.drop_first().remove(i - 1));
    } else {
        assert(s.remove(0) =~= s.drop_first());
    }
}

proof fn lemma_without_first_absent<T>(s: Seq<T>, x: T)
    requires
        forall|j: int| 0 <= j < s.len() ==> s[j] != x,
    ensures
        without_first(s, x) == s,
    decreases s.len(),
{
    if s.len() > 0 {
        lemma_without_first_absent(s.drop_first(), x);
        assert(s =~= seq![s[0]] + s.drop_first());
    }
}

/// `after` is `before` once its oldest request, `request`, was taken off
/// the queue.
pub open spec fn popped<E: AccessEventAdapter, H: EventHandler<E>>(
    before: EventDispatcher<E, H>,
    after: EventDispatcher<E, H>,
    request: Request<E>,
) -> bool {
    &&& before.queued().len() > 0
    &&& request == before.queued()[0]
    &&& after.queued() == before.queued().drop_first()
    &&& after.processed() == before.processed()
    &&& after.handler_table() == before.handler_table()
    &&& forall|a: usize| after.subscribers(a) == before.subscribers(a)
}

/// `after` is `before` once `request` ran: a connection of a live handler
/// joins the end of its adapter's list, a disconnection removes the first
/// match, and an event reaches the live subscribers of its adapter in list
/// order while what they ask for joins the end of the queue.
pub open spec fn ran<E: AccessEventAdapter, H: EventHandler<E>>(
    before: EventDispatcher<E, H>,
    after: EventDispatcher<E, H>,
    request: Request<E>,
) -> bool {
    &&& after.handler_table().same_slots(&before.handler_table())
    &&& after.processed() == before.processed() + 1
    &&& match request {
        Request::Connect { adapter, handler } => {
            &&& after.queued() == before.queued()
            &&& after.handler_table() == before.handler_table()
            &&& forall|a: usize|
                #![trigger after.subscribers(a)]
                after.subscribers(a) == if a == adapter && before.handler_table().is_live(handler) {
                    before.subscribers(a).push(handler)
                } else {
                    before.subscribers(a)
                }
        },
        Request::Disconnect { adapter, handler } => {
            &&& after.queued() == before.queued()
            &&& after.handler_table() == before.handler_table()
            &&& forall|a: usize|
                #![trigger after.subscribers(a)]
                after.subscribers(a) == if a == adapter {
                    without_first(before.subscribers(a), handler)
                } else {
                    before.subscribers(a)
                }
        },
        Request::Publish { adapter, event } => {
            &&& forall|a: usize| after.subscribers(a) == before.subscribers(a)
            &&& after.handler_table().deliveries() == before.handler_table().deliveries()
                + live_subscribers(before, adapter)
            &&& before.queued().len() <= after.queued().len()
            &&& after.queued().subrange(0, before.queued().len() as int) == before.queued()
        },
    }
}

/// The subscribers of `adapter` whose handler is alive, in list order.
pub open spec fn live_subscribers<E: AccessEventAdapter, H: EventHandler<E>>(
    d: EventDispatcher<E, H>,
    adapter: usize,
) -> Seq<HandlerKey> {
    d.subscribers(adapter).filter(|k: HandlerKey| d.handler_table().is_live(k))
}

/// Two events at the head of the queue reach their subscribers in the order
/// they were queued, whatever their kinds: the first event's live
/// subscribers, then the second's, as the lists stood before either ran.
/// Nothing that the first event's handlers ask for runs in between.
pub proof fn lemma_events_in_queue_order<E: AccessEventAdapter, H: EventHandler<E>>(
    d0: EventDispatcher<E, H>,
    d1: EventDispatcher<E, H>,
    d2: EventDispatcher<E, H>,
    d3: EventDispatcher<E, H>,
    d4: EventDispatcher<E, H>,
    first: Request<E>,
    second: Request<E>,
    a1: usize,
    a2: usize,
)
    requires
        d0.queued().len() >= 2,
        d0.queued()[0] matches Request::Publish { adapter, .. } && adapter == a1,
        d0.queued()[1] matches Request::Publish { adapter, .. } && adapter == a2,
        popped(d0, d1, first),
        ran(d1, d2, first),
        popped(d2, d3, second),
        ran(d3, d4, second),
    ensures
        first == d0.queued()[0],
        second == d0.queued()[1],
        d4.handler_table().deliveries() == d0.handler_table().deliveries() + live_subscribers(
            d0,
            a1,
        ) + live_subscribers(d0, a2),
{
    assert(d2.queued()[0] == d1.queued()[0]);
    assert(d1.queued()[0] == d0.queued()[1]);
    assert((|k: HandlerKey| d3.handler_table().is_live(k)) =~= (|k: HandlerKey|
        d0.handler_table().is_live(k)));
    assert(d3.subscribers(a2) == d0.subscribers(a2));
}

/// A deferred publish/subscribe bus. Connecting, disconnecting and publishing
/// only queue a request; `dispatch` runs the queue in order, including the
/// requests that handlers make while it runs.
pub struct EventDispatcher<E, H> {
    pendings: VecDeque<Request<E>>,
    adapters: Vec<Adapter>,
    handlers: HandlerTable<H>,
    processed: Ghost<nat>,
}

impl<E: AccessEventAdapter, H: EventHandler<E>> EventDispatcher<E, H> {
    pub closed spec fn handler_table(&self) -> HandlerTable<H> {
        self.handlers
    }

    /// How many requests the bus has run since it was made.
    pub closed spec fn processed(&self) -> nat {
        self.processed@
    }

    pub closed spec fn adapter_count(&self) -> nat {
        self.adapters@.len()
    }

    /// The subscribers of `adapter`; none for an adapter never connected to.
    pub closed spec fn subscribers(&self, adapter: usize) -> Seq<HandlerKey> {
        if adapter < self.adapters@.len() {
            self.adapters@[adapter as int].subscribers()
        } else {
            Seq::empty()
        }
    }

    pub fn new() -> (r: Self)
        ensures
            r.queued() == Seq::<Request<E>>::empty(),
            forall|a: usize| r.subscribers(a) == Seq::<HandlerKey>::empty(),
            r.handler_table().slots() == Seq::<Option<H>>::empty(),
            r.handler_table().deliveries() == Seq::<HandlerKey>::empty(),
    {
        EventDispatcher {
            pendings: VecDeque::new(),
            adapters: Vec::new(),
            handlers: HandlerTable::new(),
            processed: Ghost(0),
        }
    }

    /// Takes `handler` into a new slot.
    pub fn add_handler(&mut self, handler: H) -> (r: HandlerKey)
        ensures
            r.slot == old(self).handler_table().slots().len(),
            final(self).handler_table().slots() == old(self).handler_table().slots().push(
                Some(handler),
            ),
            final(self).handler_table().deliveries() == old(self).handler_table().deliveries(),
            final(self).queued() == old(self).queued(),
            forall|a: usize| final(self).subscribers(a) == old(self).subscribers(a),
    {
        self.handlers.add(handler)
    }

    /// Drops the handler of `key` and hands it back. Its subscriptions stay
    /// listed but no event reaches it any more.
    pub fn remove_handler(&mut self, key: HandlerKey) -> (r: Option<H>)
        ensures
            !final(self).handler_table().is_live(key),
            old(self).handler_table().is_live(key) ==> r == old(
                self,
            ).handler_table().slots()[key.slot as int],
            !old(self).handler_table().is_live(key) ==> r is None,
            final(self).handler_table().slots() == if old(self).handler_table().is_live(key) {
                old(self).handler_table().slots().update(key.slot as int, None)
            } else {
                old(self).handler_table().slots()
            },
            final(self).handler_table().deliveries() == old(self).handler_table().deliveries(),
            final(self).queued() == old(self).queued(),
            forall|a: usize| final(self).subscribers(a) == old(self).subscribers(a),
    {
        self.handlers.remove(key)
    }

    pub fn handler(&self, key: HandlerKey) -> (r: Option<&H>)
        ensures
            self.handler_table().is_live(key) ==> r == Some(
                &self.handler_table().slots()[key.slot as int]->Some_0,
            ),
            !self.handler_table().is_live(key) ==> r is None,
    {
        self.handlers.get(key)
    }

    pub fn handler_mut(&mut self, key: HandlerKey) -> (r: Option<&mut H>)
        ensures
            final(self).handler_table().deliveries() == old(self).handler_table().deliveries(),
            final(self).queued() == old(self).queued(),
            forall|a: usize| final(self).subscribers(a) == old(self).subscribers(a),
            old(self).handler_table().is_live(key) ==> (r matches Some(h) && *h == old(
                self,
            ).handler_table().slots()[key.slot as int]->Some_0 && final(self).handler_table().slots() == old(self).handler_table().slots().update(
                key.slot as int,
                Some(*final(h)),
            )),
            !old(self).handler_table().is_live(key) ==> r is None && final(self).handler_table().slots() == old(self).handler_table().slots(),
    {
        self.handlers.get_mut(key)
    }

    /// A connection of `handler` to `adapter` on this bus.
    pub fn create_connection(&self, adapter: usize, handler: HandlerKey) -> (r: Connection)
        ensures
            r.target() == Some((adapter, handler)),
    {
        Connection::new(adapter, handler)
    }

    /// Moves the requests gathered in `outbox` to the end of the queue.
    pub fn take_outbox(&mut self, outbox: &mut Outbox<E>)
        ensures
            final(self).queued() == old(self).queued() + old(outbox).requests(),
            final(outbox).requests() == Seq::<Request<E>>::empty(),
            final(self).processed() == old(self).processed(),
            final(self).handler_table() == old(self).handler_table(),
            forall|a: usize| final(self).subscribers(a) == old(self).subscribers(a),
    {
        self.pendings.append(&mut outbox.requests);
    }

    /// Takes the oldest queued request.
    fn pop_event_(&mut self) -> (r: Option<Request<E>>)
        ensures
            r matches Some(request) ==> popped(*old(self), *final(self), request),
            r is None ==> {
                &&& old(self).queued().len() == 0
                &&& final(self).queued() == old(self).queued()
                &&& final(self).processed() == old(self).processed()
                &&& final(self).handler_table() == old(self).handler_table()
                &&& forall|a: usize| final(self).subscribers(a) == old(self).subscribers(a)
            },
    {
        let r = self.pendings.pop_front();
        assert(old(self).queued().len() > 0 ==> old(self).queued().drop_first() =~= old(
            self,
        ).queued().subrange(1, old(self).queued().len() as int));
        r
    }

    /// Runs one request against the adapters as they stand now. Connecting a
    /// handler that is no longer alive does nothing.
    pub fn run_request(&mut self, request: Request<E>)
        ensures
            ran(*old(self), *final(self), request),
    {
        self.processed = Ghost(self.processed@ + 1);
        match request {
            Request::Connect { adapter, handler } => {
                if self.handlers.get(handler).is_some() {
                    let ghost before = self.adapters@;
                    while self.adapters.len() <= adapter
                        invariant
                            self.adapters@.len() >= before.len(),
                            forall|i: int| 0 <= i < before.len() ==> self.adapters@[i] == before[i],
                            forall|i: int|
                                before.len() <= i < self.adapters@.len() ==> (
                                #[trigger] self.adapters@[i]).subscribers() == Seq::<
                                    HandlerKey,
                                >::empty(),
                            self.handlers == old(self).handlers,
                            self.pendings@ == old(self).pendings@,
                            self.processed@ == old(self).processed@ + 1,
                        decreases adapter + 1 - self.adapters@.len(),
                    {
                        self.adapters.push(Adapter::new());
                    }
                    let ghost grown = self.adapters@;
                    self.adapters[adapter].connect(handler);
                    assert forall|a: usize| #[trigger] self.subscribers(a) == if a == adapter {
                        old(self).subscribers(a).push(handler)
                    } else {
                        old(self).subscribers(a)
                    } by {
                        if a < grown.len() && a != adapter {
                            assert(self.adapters@[a as int] == grown[a as int]);
                        }
                    }
                }
            },
            Request::Disconnect { adapter, handler } => {
                if adapter < self.adapters.len() {
                    self.adapters[adapter].disconnect(handler);
                }
                assert forall|a: usize| #[trigger] self.subscribers(a) == if a == adapter {
                    without_first(old(self).subscribers(a), handler)
                } else {
                    old(self).subscribers(a)
                } by {
                    if a == adapter && adapter >= self.adapters@.len() {
                        lemma_without_first_absent(old(self).subscribers(a), handler);
                    }
                }
            },
            Request::Publish { adapter, event } => {
                let mut outbox: Outbox<E> = Outbox::new();
                if adapter < self.adapters.len() {
                    self.adapters[adapter].invoke(&event, &mut self.handlers, &mut outbox);
                } else {
                    proof {
                        reveal(Seq::filter);
                    }
                    assert(self.handlers.deliveries() =~= old(self).handlers.deliveries() + old(
                        self,
                    ).subscribers(adapter).filter(|k: HandlerKey| old(self).handler_table().is_live(k)));
                }
                self.pendings.append(&mut outbox.requests);
                assert(self.queued().subrange(0, old(self).queued().len() as int) =~= old(
                    self,
                ).queued());
            },
        }
    }

    /// Runs queued requests, oldest first, until none is left; requests made
    /// meanwhile join the end of the queue and run in the same call. Returns
    /// how many ran, each step of the run being recorded by `dispatch_trace`.
    /// It gives up only after `u64::MAX` requests.
    pub fn dispatch(&mut self) -> (r: u64)
        ensures
            exists|states: Seq<EventDispatcher<E, H>>, requests: Seq<Request<E>>|
                {
                    &&& dispatch_trace(states, requests)
                    &&& requests.len() == r
                    &&& states[0] == *old(self)
                    &&& states.last() == *final(self)
                },
            r < u64::MAX ==> final(self).queued().len() == 0,
            publishes_nothing(old(self).queued()) ==> r == old(self).queued().len(),
            final(self).processed() == old(self).processed() + r,
            final(self).handler_table().same_slots(&old(self).handler_table()),
    {
        let n = self.pendings.len();
        let ghost start = *self;
        let ghost quiet = publishes_nothing(start.queued());
        let ghost mut states: Seq<EventDispatcher<E, H>> = seq![start];
        let ghost mut requests: Seq<Request<E>> = Seq::empty();
        let mut count: u64 = 0;
        while count < u64::MAX
            invariant
                n == start.queued().len(),
                start == *old(self),
                quiet == publishes_nothing(start.queued()),
                dispatch_trace(states, requests),
                requests.len() == count,
                states[0] == start,
                states.last() == *self,
                self.processed() == start.processed() + count,
                self.handler_table().same_slots(&start.handler_table()),
                quiet ==> count <= start.queued().len() && self.queued() == start.queued().subrange(
                    count as int,
                    start.queued().len() as int,
                ),
            decreases u64::MAX - count,
        {
            let ghost before = *self;
            if self.pendings.len() == 0 {
                assert(quiet ==> before.queued().len() == n - count);
                return count;
            }
            match self.pop_event_() {
                Some(request) => {
                    let ghost mid = *self;
                    self.run_request(request);
                    proof {
                        let prev_states = states;
                        let prev_requests = requests;
                        states = states.push(mid).push(*self);
                        requests = requests.push(request);
                        assert forall|i: int| 0 <= i < requests.len() implies popped(
                            states[2 * i],
                            states[2 * i + 1],
                            #[trigger] requests[i],
                        ) && ran(states[2 * i + 1], states[2 * i + 2], requests[i]) by {
                            if i < prev_requests.len() {
                                assert(requests[i] == prev_requests[i]);
                                assert(popped(
                                    prev_states[2 * i],
                                    prev_states[2 * i + 1],
                                    prev_requests[i],
                                ));
                            }
                        }
                        if quiet {
                            assert(count < start.queued().len());
                            assert(before.queued()[0] == start.queued().subrange(
                                count as int,
                                start.queued().len() as int,
                            )[0]);
                            assert(request == start.queued()[count as int]);
                            assert(!(start.queued()[count as int] is Publish));
                            assert(self.queued() =~= start.queued().subrange(
                                count + 1,
                                start.queued().len() as int,
                            ));
                        }
                    }
                    count = count + 1;
                },
                None => {
                    return count;
                },
            }
        }
        assert(dispatch_trace(states, requests) && requests.len() == count && states[0] == *old(
            self,
        ) && states.last() == *self);
        assert(n <= u64::MAX);
        count
    }
}

/// No request of `q` publishes an event.
pub open spec fn publishes_nothing<E>(q: Seq<Request<E>>) -> bool {
    forall|i: int| 0 <= i < q.len() ==> !(#[trigger] q[i] is Publish)
}

/// `states` and `requests` record a run of the queue, one request at a
/// time: each request is taken off the front of the queue and then run.
pub open spec fn dispatch_trace<E: AccessEventAdapter, H: EventHandler<E>>(
    states: Seq<EventDispatcher<E, H>>,
    requests: Seq<Request<E>>,
) -> bool {
    &&& states.len() == 2 * requests.len() + 1
    &&& forall|i: int|
        0 <= i < requests.len() ==> popped(states[2 * i], states[2 * i + 1], #[trigger] requests[i])
            && ran(states[2 * i + 1], states[2 * i + 2], requests[i])
}

/// A run of the queue takes the requests that were queued when it started
/// first, in the order they were queued, before any request made meanwhile.
pub proof fn lemma_trace_in_queue_order<E: AccessEventAdapter, H: EventHandler<E>>(
    states: Seq<EventDispatcher<E, H>>,
    requests: Seq<Request<E>>,
)
    requires
        dispatch_trace(states, requests),
    ensures
        forall|i: int|
            0 <= i < requests.len() && i < states[0].queued().len() ==> #[trigger] requests[i]
                == states[0].queued()[i],
{
    let q = states[0].queued();
    let n = q.len();
    assert forall|i: int| 0 <= i < requests.len() && i < n implies #[trigger] requests[i] == q[i] by {
        lemma_trace_prefix(states, requests, i);
    }
}

proof fn lemma_trace_prefix<E: AccessEventAdapter, H: EventHandler<E>>(
    states: Seq<EventDispatcher<E, H>>,
    requests: Seq<Request<E>>,
    k: int,
)
    requires
        dispatch_trace(states, requests),
        0 <= k <= requests.len(),
        k <= states[0].queued().len(),
    ensures
        states[2 * k].queued().len() >= states[0].queued().len() - k,
        states[2 * k].queued().subrange(0, states[0].queued().len() - k) == states[0].queued().subrange(
            k,
            states[0].queued().len() as int,
        ),
        k < requests.len() && k < states[0].queued().len() ==> requests[k] == states[0].queued()[k],
    decreases k,
{
    let q = states[0].queued();
    let n = q.len();
    if k == 0 {
        assert(states[0].queued().subrange(0, n as int) =~= q);
    } else {
        lemma_trace_prefix(states, requests, k - 1);
        let a = states[2 * (k - 1)];
        let b = states[2 * (k - 1) + 1];
        let c = states[2 * k];
        assert(popped(a, b, requests[k - 1]) && ran(b, c, requests[k - 1]));
        assert(a.queued().subrange(0, n - (k - 1)) == q.subrange(k - 1, n as int));
        assert(b.queued() == a.queued().drop_first());
        assert(c.queued().len() >= b.queued().len());
        assert(c.queued().subrange(0, b.queued().len() as int) == b.queued());
        assert(c.queued().subrange(0, n - k) =~= q.subrange(k, n as int)) by {
            assert forall|j: int| 0 <= j < n - k implies c.queued().subrange(0, n - k)[j] == q.subrange(
                k,
                n as int,
            )[j] by {
                assert(c.queued()[j] == c.queued().subrange(0, b.queued().len() as int)[j]);
                assert(b.queued()[j] == a.queued()[j + 1]);
                assert(a.queued()[j + 1] == a.queued().subrange(0, n - (k - 1))[j + 1]);
                assert(q.subrange(k - 1, n as int)[j + 1] == q[k + j]);
            }
        }
    }
    if k < requests.len() && k < n {
        let a = states[2 * k];
        let b = states[2 * k + 1];
        assert(popped(a, b, requests[k]));
        assert(a.queued()[0] == a.queued().subrange(0, n - k)[0]);
        assert(q.subrange(k, n as int)[0] == q[k]);
    }
}

impl<E: AccessEventAdapter, H: EventHandler<E>> Dispatcher<E> for EventDispatcher<E, H> {
    closed spec fn queued(&self) -> Seq<Request<E>> {
        self.pendings@
    }

    fn connect(&mut self, adapter: usize, handler: HandlerKey)
        ensures
            final(self).handler_table() == old(self).handler_table(),
            forall|a: usize| final(self).subscribers(a) == old(self).subscribers(a),
    {
        self.pendings.push_back(Request::Connect { adapter, handler });
    }

    fn disconnect(&mut self, adapter: usize, handler: HandlerKey)
        ensures
            final(self).handler_table() == old(self).handler_table(),
            forall|a: usize| final(self).subscribers(a) == old(self).subscribers(a),
    {
        self.pendings.push_back(Request::Disconnect { adapter, handler });
    }

    fn push(&mut self, event: E)
        ensures
            final(self).handler_table() == old(self).handler_table(),
            forall|a: usize| final(self).subscribers(a) == old(self).subscribers(a),
    {
        let adapter = event.adapter();
        self.pendings.push_back(Request::Publish { adapter, event });
        assert(self.pendings@.drop_last() =~= old(self).pendings@);
    }
}

} // verus!
