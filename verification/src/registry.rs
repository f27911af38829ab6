//! The subscription registry: live filters per connection, and the
//! broadcast path that fans a freshly stored event out into each matching
//! connection's bounded mailbox. A connection's new mailbox depends only on
//! its own previous state, so a slow or full connection never affects
//! delivery to the others.
use vstd::prelude::*;

verus! {

use crate::event::Event;
use crate::event::EventView;
use crate::event::clone_event;
use crate::filter::Filter;
use crate::filter::FilterView;
use crate::filter::views_of_filters;
use crate::filter::any_filter_matches;
use crate::filter::matches_any;

/// One message bound for a client: an event delivery for a subscription, or
/// the end-of-stored-events marker that closes its historical scan.
pub enum Delivery {
    Event { sub_id: String, event: Event },
    EndOfStored { sub_id: String },
}

pub enum DeliveryView {
    Event { sub_id: Seq<char>, event: EventView },
    EndOfStored { sub_id: Seq<char> },
}

impl View for Delivery {
    type V = DeliveryView;

    open spec fn view(&self) -> DeliveryView {
        match self {
            Delivery::Event { sub_id, event } => DeliveryView::Event {
                sub_id: sub_id@,
                event: event@,
            },
            Delivery::EndOfStored { sub_id } => DeliveryView::EndOfStored { sub_id: sub_id@ },
        }
    }
}

/// A named set of filters owned by one connection.
pub struct Subscription {
    pub sub_id: String,
    pub filters: Vec<Filter>,
}

pub struct SubscriptionView {
    pub sub_id: Seq<char>,
    pub filters: Seq<FilterView>,
}

impl View for Subscription {
    type V = SubscriptionView;

    open spec fn view(&self) -> SubscriptionView {
        SubscriptionView { sub_id: self.sub_id@, filters: views_of_filters(self.filters@) }
    }
}

/// One live connection: its subscriptions and its bounded outbound mailbox.
pub struct Connection {
    pub conn_id: u64,
    pub capacity: usize,
    pub subs: Vec<Subscription>,
    pub mailbox: Vec<Delivery>,
}

pub struct ConnectionView {
    pub conn_id: u64,
    pub capacity: usize,
    pub subs: Seq<SubscriptionView>,
    pub mailbox: Seq<DeliveryView>,
}

/// The views of a list of subscriptions.
pub open spec fn views_of_subs(s: Seq<Subscription>) -> Seq<SubscriptionView> {
    Seq::new(s.len(), |i: int| s[i]@)
}

impl View for Connection {
    type V = ConnectionView;

    open spec fn view(&self) -> ConnectionView {
        ConnectionView {
            conn_id: self.conn_id,
            capacity: self.capacity,
            subs: views_of_subs(self.subs@),
            mailbox: views_of_deliveries(self.mailbox@),
        }
    }
}

/// The registry of live connections, with the per-connection subscription
/// cap.
pub struct Registry {
    pub conns: Vec<Connection>,
    pub max_subs: usize,
}

impl View for Registry {
    type V = Seq<ConnectionView>;

    open spec fn view(&self) -> Seq<ConnectionView> {
        Seq::new(self.conns@.len(), |i: int| self.conns@[i]@)
    }
}

pub open spec fn conn_wf(c: ConnectionView) -> bool {
    &&& forall|i: int, j: int| 0 <= i < j < c.subs.len() ==> c.subs[i].sub_id != c.subs[j].sub_id
    &&& c.mailbox.len() <= c.capacity
}

pub open spec fn registry_wf(r: Seq<ConnectionView>) -> bool {
    &&& forall|i: int, j: int| 0 <= i < j < r.len() ==> r[i].conn_id != r[j].conn_id
    &&& forall|i: int| 0 <= i < r.len() ==> conn_wf(#[trigger] r[i])
}

pub open spec fn has_conn(r: Seq<ConnectionView>, conn_id: u64) -> bool {
    exists|i: int| 0 <= i < r.len() && r[i].conn_id == conn_id
}

pub open spec fn has_sub(subs: Seq<SubscriptionView>, sid: Seq<char>) -> bool {
    exists|i: int| 0 <= i < subs.len() && subs[i].sub_id == sid
}

/// Bounded enqueue: push, dropping the oldest undelivered message on
/// overflow.
pub open spec fn enqueue_bounded(mb: Seq<DeliveryView>, d: DeliveryView, cap: usize) -> Seq<
    DeliveryView,
> {
    if mb.len() < cap {
        mb.push(d)
    } else if cap > 0 {
        mb.skip(1).push(d)
    } else {
        mb
    }
}

/// Enqueue a sequence of deliveries in order.
pub open spec fn deliver_all(mb: Seq<DeliveryView>, ds: Seq<DeliveryView>, cap: usize) -> Seq<
    DeliveryView,
>
    decreases ds.len(),
{
    if ds.len() == 0 {
        mb
    } else {
        deliver_all(enqueue_bounded(mb, ds[0], cap), ds.skip(1), cap)
    }
}

/// The deliveries one event produces for a connection: one per matching
/// subscription, in subscription order.
pub open spec fn matched_deliveries(subs: Seq<SubscriptionView>, e: EventView) -> Seq<DeliveryView>
    decreases subs.len(),
{
    if subs.len() == 0 {
        Seq::empty()
    } else {
        let rest = matched_deliveries(subs.skip(1), e);
        if any_filter_matches(subs[0].filters, e) {
            seq![DeliveryView::Event { sub_id: subs[0].sub_id, event: e }] + rest
        } else {
            rest
        }
    }
}

/// What one broadcast does to one connection: its own matched deliveries
/// are enqueued into its own mailbox; nothing else about it changes.
pub open spec fn broadcast_conn(c: ConnectionView, e: EventView) -> ConnectionView {
    ConnectionView {
        conn_id: c.conn_id,
        capacity: c.capacity,
        subs: c.subs,
        mailbox: deliver_all(c.mailbox, matched_deliveries(c.subs, e), c.capacity),
    }
}

proof fn lemma_matched_snoc(subs: Seq<SubscriptionView>, x: SubscriptionView, e: EventView)
    ensures
        matched_deliveries(subs.push(x), e) == matched_deliveries(subs, e) + (if any_filter_matches(
            x.filters,
            e,
        ) {
            seq![DeliveryView::Event { sub_id: x.sub_id, event: e }]
        } else {
            Seq::<DeliveryView>::empty()
        }),
    decreases subs.len(),
{
    let tail: Seq<DeliveryView> = if any_filter_matches(x.filters, e) {
        seq![DeliveryView::Event { sub_id: x.sub_id, event: e }]
    } else {
        Seq::<DeliveryView>::empty()
    };
    if subs.len() == 0 {
        assert(subs.push(x)[0] == x);
        assert(subs.push(x).skip(1) =~= Seq::<SubscriptionView>::empty());
        assert(matched_deliveries(subs.push(x).skip(1), e) == Seq::<DeliveryView>::empty());
        assert(matched_deliveries(subs.push(x), e) =~= tail);
        assert(matched_deliveries(subs, e) + tail =~= tail);
    } else {
        assert(subs.push(x).skip(1) =~= subs.skip(1).push(x));
        lemma_matched_snoc(subs.skip(1), x, e);
        assert(subs.push(x)[0] == subs[0]);
        if any_filter_matches(subs[0].filters, e) {
            let h = seq![DeliveryView::Event { sub_id: subs[0].sub_id, event: e }];
            assert(matched_deliveries(subs.push(x), e) == h + (matched_deliveries(subs.skip(1), e)
                + tail));
            assert(h + (matched_deliveries(subs.skip(1), e) + tail) =~= (h + matched_deliveries(
                subs.skip(1),
                e,
            )) + tail);
        }
    }
}

proof fn lemma_deliver_all_append(
    mb: Seq<DeliveryView>,
    d1: Seq<DeliveryView>,
    d2: Seq<DeliveryView>,
    cap: usize,
)
    ensures
        deliver_all(mb, d1 + d2, cap) == deliver_all(deliver_all(mb, d1, cap), d2, cap),
    decreases d1.len(),
{
    if d1.len() == 0 {
        assert(d1 + d2 =~= d2);
    } else {
        assert((d1 + d2)[0] == d1[0]);
        assert((d1 + d2).skip(1) =~= d1.skip(1) + d2);
        lemma_deliver_all_append(enqueue_bounded(mb, d1[0], cap), d1.skip(1), d2, cap);
    }
}

/// Delivering one more message is one more bounded enqueue.
pub proof fn lemma_deliver_all_snoc(
    mb: Seq<DeliveryView>,
    ds: Seq<DeliveryView>,
    d: DeliveryView,
    cap: usize,
)
    ensures
        deliver_all(mb, ds.push(d), cap) == enqueue_bounded(deliver_all(mb, ds, cap), d, cap),
{
    assert(ds.push(d) =~= ds + seq![d]);
    lemma_deliver_all_append(mb, ds, seq![d], cap);
    assert(seq![d][0] == d);
    assert(seq![d].skip(1) =~= Seq::<DeliveryView>::empty());
    let base = deliver_all(mb, ds, cap);
    assert(deliver_all(enqueue_bounded(base, d, cap), Seq::<DeliveryView>::empty(), cap)
        == enqueue_bounded(base, d, cap));
    assert(deliver_all(base, seq![d], cap) == enqueue_bounded(base, d, cap));
}

/// Without overflow the mailbox simply grows by the deliveries, in order.
pub proof fn lemma_deliver_all_no_overflow(
    mb: Seq<DeliveryView>,
    ds: Seq<DeliveryView>,
    cap: usize,
)
    requires
        mb.len() + ds.len() <= cap,
    ensures
        deliver_all(mb, ds, cap) == mb + ds,
    decreases ds.len(),
{
    if ds.len() == 0 {
        assert(mb + ds =~= mb);
    } else {
        assert(enqueue_bounded(mb, ds[0], cap) == mb.push(ds[0]));
        lemma_deliver_all_no_overflow(mb.push(ds[0]), ds.skip(1), cap);
        assert(mb.push(ds[0]) + ds.skip(1) =~= mb + ds);
    }
}

proof fn lemma_deliver_all_len(mb: Seq<DeliveryView>, ds: Seq<DeliveryView>, cap: usize)
    requires
        mb.len() <= cap,
    ensures
        deliver_all(mb, ds, cap).len() <= cap,
    decreases ds.len(),
{
    if ds.len() > 0 {
        lemma_deliver_all_len(enqueue_bounded(mb, ds[0], cap), ds.skip(1), cap);
    }
}

/// A matching subscription's delivery appears in the matched sequence.
pub proof fn lemma_matched_contains(subs: Seq<SubscriptionView>, e: EventView, i: int)
    requires
        0 <= i < subs.len(),
        any_filter_matches(subs[i].filters, e),
    ensures
        (exists|j: int|
            0 <= j < matched_deliveries(subs, e).len() && matched_deliveries(subs, e)[j]
                == (DeliveryView::Event { sub_id: subs[i].sub_id, event: e })),
    decreases subs.len(),
{
    let d = DeliveryView::Event { sub_id: subs[i].sub_id, event: e };
    if i == 0 {
        assert(matched_deliveries(subs, e)[0] == d);
    } else {
        assert(subs.skip(1)[i - 1] == subs[i]);
        lemma_matched_contains(subs.skip(1), e, i - 1);
        let j = choose|j: int|
            0 <= j < matched_deliveries(subs.skip(1), e).len() && matched_deliveries(
                subs.skip(1),
                e,
            )[j] == d;
        if any_filter_matches(subs[0].filters, e) {
            assert(matched_deliveries(subs, e)[j + 1] == d);
        } else {
            assert(matched_deliveries(subs, e)[j] == d);
        }
    }
}

/// The views of a list of deliveries.
pub open spec fn views_of_deliveries(s: Seq<Delivery>) -> Seq<DeliveryView> {
    Seq::new(s.len(), |i: int| s[i]@)
}

fn enqueue_delivery(mb: &mut Vec<Delivery>, d: Delivery, cap: usize)
    ensures
        views_of_deliveries(final(mb)@) == enqueue_bounded(
            views_of_deliveries(old(mb)@),
            d@,
            cap,
        ),
{
    let ghost pre = views_of_deliveries(mb@);
    if mb.len() < cap {
        mb.push(d);
        proof {
            assert(views_of_deliveries(mb@) =~= pre.push(d@));
        }
    } else if cap > 0 {
        mb.remove(0);
        mb.push(d);
        proof {
            assert(views_of_deliveries(mb@) =~= pre.skip(1).push(d@));
        }
    } else {
        proof {
            assert(views_of_deliveries(mb@) =~= pre);
        }
    }
}

fn deliver_event(c: &mut Connection, ev: &Event)
    ensures
        final(c)@ == broadcast_conn(old(c)@, ev@),
{
    let ghost c0 = c@;
    let cap = c.capacity;
    let n = c.subs.len();
    let mut si: usize = 0;
    proof {
        assert(c0.subs.take(0) =~= Seq::<SubscriptionView>::empty());
        assert(deliver_all(c0.mailbox, matched_deliveries(c0.subs.take(0), ev@), cap)
            == c0.mailbox);
    }
    while si < n
        invariant
            si <= n,
            n == c.subs@.len(),
            cap == c.capacity,
            c@.conn_id == c0.conn_id,
            c@.capacity == c0.capacity,
            c@.subs == c0.subs,
            c@.mailbox == deliver_all(
                c0.mailbox,
                matched_deliveries(c0.subs.take(si as int), ev@),
                cap,
            ),
        decreases n - si,
    {
        let ghost taken = c0.subs.take(si as int);
        let ghost sv = c0.subs[si as int];
        proof {
            assert(c0.subs.take(si + 1) =~= taken.push(sv));
            lemma_matched_snoc(taken, sv, ev@);
        }
        let sub = &c.subs[si];
        if matches_any(&sub.filters, ev) {
            let ghost d = DeliveryView::Event { sub_id: sv.sub_id, event: ev@ };
            proof {
                assert(c@.subs[si as int] == sv);
                assert(any_filter_matches(sv.filters, ev@));
                assert(matched_deliveries(c0.subs.take(si + 1), ev@) == matched_deliveries(
                    taken,
                    ev@,
                ) + seq![d]);
                lemma_deliver_all_append(c0.mailbox, matched_deliveries(taken, ev@), seq![d], cap);
                assert(seq![d].skip(1) =~= Seq::<DeliveryView>::empty());
                assert(seq![d][0] == d);
                assert(deliver_all(
                    enqueue_bounded(c@.mailbox, d, cap),
                    Seq::<DeliveryView>::empty(),
                    cap,
                ) == enqueue_bounded(c@.mailbox, d, cap));
                assert(deliver_all(c@.mailbox, seq![d], cap) == enqueue_bounded(
                    c@.mailbox,
                    d,
                    cap,
                ));
            }
            let deliv = Delivery::Event {
                sub_id: sub.sub_id.clone(),
                event: clone_event(ev),
            };
            proof {
                assert(deliv@ == d);
            }
            enqueue_delivery(&mut c.mailbox, deliv, cap);
        } else {
            proof {
                assert(c@.subs[si as int] == sv);
                assert(!any_filter_matches(sv.filters, ev@));
                assert(matched_deliveries(c0.subs.take(si + 1), ev@) =~= matched_deliveries(
                    taken,
                    ev@,
                ));
            }
        }
        si += 1;
    }
    proof {
        assert(c0.subs.take(n as int) =~= c0.subs);
    }
}

/// Why a registry operation was refused.
#[derive(Clone, Copy, Debug, PartialEq, Eq, Structural)]
pub enum RegistryError {
    UnknownConnection,
    DuplicateConnection,
    TooManySubscriptions,
}

/// A connection as it joins: no subscriptions, an empty mailbox.
pub open spec fn new_conn_view(conn_id: u64, capacity: usize) -> ConnectionView {
    ConnectionView {
        conn_id,
        capacity,
        subs: Seq::empty(),
        mailbox: Seq::empty(),
    }
}

/// The connection with the named subscription's filters replaced.
pub open spec fn with_sub_replaced(
    c: ConnectionView,
    sid: Seq<char>,
    fs: Seq<FilterView>,
) -> ConnectionView {
    ConnectionView {
        conn_id: c.conn_id,
        capacity: c.capacity,
        mailbox: c.mailbox,
        subs: Seq::new(
            c.subs.len(),
            |i: int|
                if c.subs[i].sub_id == sid {
                    SubscriptionView { sub_id: sid, filters: fs }
                } else {
                    c.subs[i]
                },
        ),
    }
}

/// The connection with a new subscription appended.
pub open spec fn with_sub_added(
    c: ConnectionView,
    sid: Seq<char>,
    fs: Seq<FilterView>,
) -> ConnectionView {
    ConnectionView {
        conn_id: c.conn_id,
        capacity: c.capacity,
        mailbox: c.mailbox,
        subs: c.subs.push(SubscriptionView { sub_id: sid, filters: fs }),
    }
}

/// The connection with the subscription at `j` removed.
pub open spec fn with_sub_removed(c: ConnectionView, j: int) -> ConnectionView {
    ConnectionView {
        conn_id: c.conn_id,
        capacity: c.capacity,
        mailbox: c.mailbox,
        subs: c.subs.remove(j),
    }
}

/// The connection with all subscriptions dropped.
pub open spec fn with_no_subs(c: ConnectionView) -> ConnectionView {
    ConnectionView {
        conn_id: c.conn_id,
        capacity: c.capacity,
        mailbox: c.mailbox,
        subs: Seq::empty(),
    }
}

/// The connection with its mailbox exchanged.
pub open spec fn with_mailbox(c: ConnectionView, mb: Seq<DeliveryView>) -> ConnectionView {
    ConnectionView { conn_id: c.conn_id, capacity: c.capacity, subs: c.subs, mailbox: mb }
}

fn find_sub(c: &Connection, sid: &String) -> (r: Option<usize>)
    ensures
        r matches Some(j) ==> j < c@.subs.len() && c@.subs[j as int].sub_id == sid@,
        r is None ==> !has_sub(c@.subs, sid@),
{
    let mut j: usize = 0;
    while j < c.subs.len()
        invariant
            j <= c@.subs.len(),
            c@.subs.len() == c.subs@.len(),
            forall|i: int| 0 <= i < j ==> c@.subs[i].sub_id != sid@,
        decreases c.subs@.len() - j,
    {
        if c.subs[j].sub_id.eq(sid) {
            return Some(j);
        }
        j += 1;
    }
    None
}

impl Registry {
    /// A fresh registry with the given per-connection subscription cap.
    pub fn new(max_subs: usize) -> (r: Registry)
        ensures
            r@ == Seq::<ConnectionView>::empty(),
            registry_wf(r@),
            r.max_subs == max_subs,
    {
        let r = Registry { conns: Vec::new(), max_subs };
        proof {
            assert(r@ =~= Seq::<ConnectionView>::empty());
        }
        r
    }

    fn find_conn(&self, conn_id: u64) -> (r: Option<usize>)
        ensures
            r matches Some(i) ==> i < self@.len() && self@[i as int].conn_id == conn_id,
            r is None ==> !has_conn(self@, conn_id),
    {
        let mut i: usize = 0;
        while i < self.conns.len()
            invariant
                i <= self@.len(),
                self@.len() == self.conns@.len(),
                forall|j: int| 0 <= j < i ==> self@[j].conn_id != conn_id,
            decreases self@.len() - i,
        {
            if self.conns[i].conn_id == conn_id {
                return Some(i);
            }
            i += 1;
        }
        None
    }

    /// Evaluate a freshly stored event against every live subscription and
    /// enqueue a delivery into each matching connection's mailbox. Each
    /// connection's new state is a function of its own old state alone.
    pub fn broadcast(&mut self, ev: &Event)
        requires
            registry_wf(old(self)@),
        ensures
            registry_wf(final(self)@),
            final(self).max_subs == old(self).max_subs,
            final(self)@.len() == old(self)@.len(),
            forall|i: int|
                0 <= i < old(self)@.len() ==> final(self)@[i] == broadcast_conn(
                    old(self)@[i],
                    ev@,
                ),
    {
        let ghost pre = self@;
        let n = self.conns.len();
        let mut ci: usize = 0;
        while ci < n
            invariant
                ci <= n,
                n == self.conns@.len(),
                self@.len() == n,
                pre.len() == n,
                self.max_subs == old(self).max_subs,
                forall|i: int| 0 <= i < ci ==> self@[i] == broadcast_conn(pre[i], ev@),
                forall|i: int| ci <= i < n ==> self@[i] == pre[i],
            decreases n - ci,
        {
            let ghost snap = self@;
            deliver_event(&mut self.conns[ci], ev);
            proof {
                assert(self@[ci as int] == broadcast_conn(snap[ci as int], ev@));
                assert forall|i: int| 0 <= i < ci + 1 implies self@[i] == broadcast_conn(
                    pre[i],
                    ev@,
                ) by {
                    if i < ci {
                        assert(self@[i] == snap[i]);
                    }
                }
                assert forall|i: int| ci + 1 <= i < n implies self@[i] == pre[i] by {
                    assert(self@[i] == snap[i]);
                }
            }
            ci += 1;
        }
        proof {
            assert forall|i: int| 0 <= i < pre.len() implies conn_wf(#[trigger] self@[i]) by {
                assert(self@[i] == broadcast_conn(pre[i], ev@));
                assert(conn_wf(pre[i]));
                lemma_deliver_all_len(
                    pre[i].mailbox,
                    matched_deliveries(pre[i].subs, ev@),
                    pre[i].capacity,
                );
            }
            assert forall|i: int, j: int| 0 <= i < j < self@.len() implies self@[i].conn_id
                != self@[j].conn_id by {
                assert(self@[i] == broadcast_conn(pre[i], ev@));
                assert(self@[j] == broadcast_conn(pre[j], ev@));
            }
        }
    }

    /// Admit a new connection with the given mailbox capacity.
    pub fn connect(&mut self, conn_id: u64, capacity: usize) -> (r: Result<(), RegistryError>)
        requires
            registry_wf(old(self)@),
        ensures
            registry_wf(final(self)@),
            final(self).max_subs == old(self).max_subs,
            (r is Ok) <==> !has_conn(old(self)@, conn_id),
            r is Ok ==> final(self)@ == old(self)@.push(new_conn_view(conn_id, capacity)),
            r is Err ==> final(self)@ == old(self)@ && r == Err::<(), RegistryError>(
                RegistryError::DuplicateConnection,
            ),
            has_conn(final(self)@, conn_id),
    {
        match self.find_conn(conn_id) {
            Some(k) => {
                proof {
                    assert(self@[k as int].conn_id == conn_id);
                }
                Err(RegistryError::DuplicateConnection)
            },
            None => {
                let ghost pre = self@;
                self.conns.push(
                    Connection { conn_id, capacity, subs: Vec::new(), mailbox: Vec::new() },
                );
                proof {
                    assert(views_of_subs(Seq::<Subscription>::empty()) =~= Seq::<
                        SubscriptionView,
                    >::empty());
                    assert(views_of_deliveries(Seq::<Delivery>::empty()) =~= Seq::<
                        DeliveryView,
                    >::empty());
                    assert(self@ =~= pre.push(new_conn_view(conn_id, capacity)));
                    assert(self@[pre.len() as int].conn_id == conn_id);
                    assert forall|i: int, j: int| 0 <= i < j < self@.len() implies self@[i].conn_id
                        != self@[j].conn_id by {
                        if j == pre.len() {
                            assert(pre[i].conn_id != conn_id);
                        }
                    }
                    assert forall|i: int| 0 <= i < self@.len() implies conn_wf(
                        #[trigger] self@[i],
                    ) by {
                        if i < pre.len() {
                            assert(self@[i] == pre[i]);
                        }
                    }
                }
                Ok(())
            },
        }
    }

    /// Tear a connection down: its subscriptions leave the registry with it,
    /// so no delivery can reach it afterwards.
    pub fn disconnect(&mut self, conn_id: u64) -> (r: bool)
        requires
            registry_wf(old(self)@),
        ensures
            registry_wf(final(self)@),
            final(self).max_subs == old(self).max_subs,
            r == has_conn(old(self)@, conn_id),
            !r ==> final(self)@ == old(self)@,
            r ==> (exists|k: int|
                0 <= k < old(self)@.len() && old(self)@[k].conn_id == conn_id && final(self)@
                    == old(self)@.remove(k)),
            !has_conn(final(self)@, conn_id),
    {
        match self.find_conn(conn_id) {
            None => false,
            Some(k) => {
                let ghost pre = self@;
                self.conns.remove(k);
                proof {
                    assert(pre[k as int].conn_id == conn_id);
                    assert(self@ =~= pre.remove(k as int));
                    assert forall|i: int| 0 <= i < self@.len() implies self@[i] == (if i < k {
                        pre[i]
                    } else {
                        pre[i + 1]
                    }) by {}
                    assert forall|i: int, j: int| 0 <= i < j < self@.len() implies self@[i].conn_id
                        != self@[j].conn_id by {}
                    assert forall|i: int| 0 <= i < self@.len() implies conn_wf(
                        #[trigger] self@[i],
                    ) by {
                        if i < k {
                            assert(conn_wf(pre[i]));
                        } else {
                            assert(conn_wf(pre[i + 1]));
                        }
                    }
                    assert forall|i: int| 0 <= i < self@.len() implies self@[i].conn_id
                        != conn_id by {}
                }
                true
            },
        }
    }

    /// Register (or replace) the named subscription on a connection,
    /// atomically: on any error nothing is registered.
    pub fn register(&mut self, conn_id: u64, sub_id: String, filters: Vec<Filter>) -> (r: Result<
        (),
        RegistryError,
    >)
        requires
            registry_wf(old(self)@),
        ensures
            registry_wf(final(self)@),
            final(self).max_subs == old(self).max_subs,
            !has_conn(old(self)@, conn_id) ==> r == Err::<(), RegistryError>(
                RegistryError::UnknownConnection,
            ) && final(self)@ == old(self)@,
            (forall|k: int|
                0 <= k < old(self)@.len() && (#[trigger] old(self)@[k]).conn_id == conn_id ==> ({
                    let c = old(self)@[k];
                    if has_sub(c.subs, sub_id@) {
                        r is Ok && final(self)@ == old(self)@.update(
                            k,
                            with_sub_replaced(c, sub_id@, views_of_filters(filters@)),
                        )
                    } else if c.subs.len() < old(self).max_subs {
                        r is Ok && final(self)@ == old(self)@.update(
                            k,
                            with_sub_added(c, sub_id@, views_of_filters(filters@)),
                        )
                    } else {
                        r == Err::<(), RegistryError>(RegistryError::TooManySubscriptions)
                            && final(self)@ == old(self)@
                    }
                })),
    {
        let k = match self.find_conn(conn_id) {
            None => {
                return Err(RegistryError::UnknownConnection);
            },
            Some(k) => k,
        };
        let ghost pre = self@;
        let ghost c = pre[k as int];
        proof {
            assert forall|k2: int|
                0 <= k2 < pre.len() && (#[trigger] pre[k2]).conn_id == conn_id implies k2
                == k as int by {
                if k2 != k as int {
                    assert(pre[k2].conn_id != pre[k as int].conn_id);
                }
            }
            assert(conn_wf(c));
        }
        match find_sub(&self.conns[k], &sub_id) {
            Some(j) => {
                let ghost sid = sub_id@;
                let ghost fs = views_of_filters(filters@);
                self.conns[k].subs[j] = Subscription { sub_id, filters };
                proof {
                    assert forall|i: int| 0 <= i < c.subs.len() && i != j implies c.subs[i].sub_id
                        != sid by {
                        if i < j {
                            assert(c.subs[i].sub_id != c.subs[j as int].sub_id);
                        } else {
                            assert(c.subs[j as int].sub_id != c.subs[i].sub_id);
                        }
                    }
                    assert(self@[k as int].subs =~= with_sub_replaced(c, sid, fs).subs);
                    assert(self@[k as int] == with_sub_replaced(c, sid, fs));
                    assert(self@ =~= pre.update(k as int, with_sub_replaced(c, sid, fs)));
                    assert forall|i: int| 0 <= i < self@.len() implies conn_wf(
                        #[trigger] self@[i],
                    ) by {
                        if i != k as int {
                            assert(self@[i] == pre[i]);
                        } else {
                            let nc = with_sub_replaced(c, sid, fs);
                            assert forall|a: int, b: int|
                                0 <= a < b < nc.subs.len() implies nc.subs[a].sub_id
                                != nc.subs[b].sub_id by {
                                assert(c.subs[a].sub_id != c.subs[b].sub_id);
                            }
                        }
                    }
                    assert forall|i: int, j2: int| 0 <= i < j2 < self@.len() implies self@[i].conn_id
                        != self@[j2].conn_id by {}
                }
                Ok(())
            },
            None => {
                if self.conns[k].subs.len() >= self.max_subs {
                    return Err(RegistryError::TooManySubscriptions);
                }
                let ghost sid = sub_id@;
                let ghost fs = views_of_filters(filters@);
                self.conns[k].subs.push(Subscription { sub_id, filters });
                proof {
                    assert(self@[k as int].subs =~= with_sub_added(c, sid, fs).subs);
                    assert(self@[k as int] == with_sub_added(c, sid, fs));
                    assert(self@ =~= pre.update(k as int, with_sub_added(c, sid, fs)));
                    assert forall|i: int| 0 <= i < self@.len() implies conn_wf(
                        #[trigger] self@[i],
                    ) by {
                        if i != k as int {
                            assert(self@[i] == pre[i]);
                        } else {
                            let nc = with_sub_added(c, sid, fs);
                            assert forall|a: int, b: int|
                                0 <= a < b < nc.subs.len() implies nc.subs[a].sub_id
                                != nc.subs[b].sub_id by {
                                if b < c.subs.len() {
                                    assert(c.subs[a].sub_id != c.subs[b].sub_id);
                                } else {
                                    assert(!has_sub(c.subs, sid));
                                    assert(nc.subs[a] == c.subs[a]);
                                }
                            }
                        }
                    }
                    assert forall|i: int, j2: int| 0 <= i < j2 < self@.len() implies self@[i].conn_id
                        != self@[j2].conn_id by {}
                }
                Ok(())
            },
        }
    }

    /// Drop the named subscription from a connection; no further broadcast
    /// delivers to it once this returns.
    pub fn unregister(&mut self, conn_id: u64, sub_id: &String) -> (r: bool)
        requires
            registry_wf(old(self)@),
        ensures
            registry_wf(final(self)@),
            final(self).max_subs == old(self).max_subs,
            !has_conn(old(self)@, conn_id) ==> final(self)@ == old(self)@ && !r,
            (forall|k: int|
                0 <= k < old(self)@.len() && (#[trigger] old(self)@[k]).conn_id == conn_id ==> ({
                    let c = old(self)@[k];
                    if has_sub(c.subs, sub_id@) {
                        r && (exists|j: int|
                            0 <= j < c.subs.len() && c.subs[j].sub_id == sub_id@ && final(self)@
                                == old(self)@.update(k, with_sub_removed(c, j)))
                    } else {
                        !r && final(self)@ == old(self)@
                    }
                })),
    {
        let k = match self.find_conn(conn_id) {
            None => {
                return false;
            },
            Some(k) => k,
        };
        let ghost pre = self@;
        let ghost c = pre[k as int];
        proof {
            assert forall|k2: int|
                0 <= k2 < pre.len() && (#[trigger] pre[k2]).conn_id == conn_id implies k2
                == k as int by {
                if k2 != k as int {
                    assert(pre[k2].conn_id != pre[k as int].conn_id);
                }
            }
            assert(conn_wf(c));
        }
        match find_sub(&self.conns[k], sub_id) {
            None => false,
            Some(j) => {
                self.conns[k].subs.remove(j);
                proof {
                    assert(self@[k as int].subs =~= with_sub_removed(c, j as int).subs);
                    assert(self@[k as int] == with_sub_removed(c, j as int));
                    assert(self@ =~= pre.update(k as int, with_sub_removed(c, j as int)));
                    assert forall|i: int| 0 <= i < self@.len() implies conn_wf(
                        #[trigger] self@[i],
                    ) by {
                        if i != k as int {
                            assert(self@[i] == pre[i]);
                        } else {
                            let nc = with_sub_removed(c, j as int);
                            assert forall|a: int, b: int|
                                0 <= a < b < nc.subs.len() implies nc.subs[a].sub_id
                                != nc.subs[b].sub_id by {
                                let a0: int = if a < j { a } else { a + 1 };
                                let b0: int = if b < j { b } else { b + 1 };
                                assert(nc.subs[a] == c.subs[a0]);
                                assert(nc.subs[b] == c.subs[b0]);
                                assert(c.subs[a0].sub_id != c.subs[b0].sub_id);
                            }
                        }
                    }
                    assert forall|i: int, j2: int| 0 <= i < j2 < self@.len() implies self@[i].conn_id
                        != self@[j2].conn_id by {}
                }
                true
            },
        }
    }

    /// Drop every subscription of a connection at once, as on transport
    /// teardown; the connection itself stays until `disconnect`.
    pub fn unregister_all(&mut self, conn_id: u64) -> (r: bool)
        requires
            registry_wf(old(self)@),
        ensures
            registry_wf(final(self)@),
            final(self).max_subs == old(self).max_subs,
            r == has_conn(old(self)@, conn_id),
            !r ==> final(self)@ == old(self)@,
            (forall|k: int|
                0 <= k < old(self)@.len() && (#[trigger] old(self)@[k]).conn_id == conn_id
                    ==> final(self)@ == old(self)@.update(k, with_no_subs(old(self)@[k]))),
    {
        let k = match self.find_conn(conn_id) {
            None => {
                return false;
            },
            Some(k) => k,
        };
        let ghost pre = self@;
        let ghost c = pre[k as int];
        proof {
            assert forall|k2: int|
                0 <= k2 < pre.len() && (#[trigger] pre[k2]).conn_id == conn_id implies k2
                == k as int by {
                if k2 != k as int {
                    assert(pre[k2].conn_id != pre[k as int].conn_id);
                }
            }
        }
        self.conns[k].subs.clear();
        proof {
            assert(self@[k as int].subs =~= with_no_subs(c).subs);
            assert(self@[k as int] == with_no_subs(c));
            assert(self@ =~= pre.update(k as int, with_no_subs(c)));
            assert forall|i: int| 0 <= i < self@.len() implies conn_wf(#[trigger] self@[i]) by {
                if i != k as int {
                    assert(self@[i] == pre[i]);
                } else {
                    assert(conn_wf(c));
                }
            }
            assert forall|i: int, j2: int| 0 <= i < j2 < self@.len() implies self@[i].conn_id
                != self@[j2].conn_id by {}
        }
        true
    }

    /// Enqueue one delivery into a connection's mailbox, dropping the oldest
    /// on overflow.
    pub fn push_delivery(&mut self, conn_id: u64, d: Delivery) -> (r: bool)
        requires
            registry_wf(old(self)@),
        ensures
            registry_wf(final(self)@),
            final(self).max_subs == old(self).max_subs,
            r == has_conn(old(self)@, conn_id),
            !r ==> final(self)@ == old(self)@,
            (forall|k: int|
                0 <= k < old(self)@.len() && (#[trigger] old(self)@[k]).conn_id == conn_id
                    ==> final(self)@ == old(self)@.update(
                    k,
                    with_mailbox(
                        old(self)@[k],
                        enqueue_bounded(old(self)@[k].mailbox, d@, old(self)@[k].capacity),
                    ),
                )),
    {
        let k = match self.find_conn(conn_id) {
            None => {
                return false;
            },
            Some(k) => k,
        };
        let ghost pre = self@;
        let ghost c = pre[k as int];
        proof {
            assert forall|k2: int|
                0 <= k2 < pre.len() && (#[trigger] pre[k2]).conn_id == conn_id implies k2
                == k as int by {
                if k2 != k as int {
                    assert(pre[k2].conn_id != pre[k as int].conn_id);
                }
            }
            assert(conn_wf(c));
        }
        let cap = self.conns[k].capacity;
        enqueue_delivery(&mut self.conns[k].mailbox, d, cap);
        proof {
            let nc = with_mailbox(c, enqueue_bounded(c.mailbox, d@, c.capacity));
            assert(self@[k as int] == nc);
            assert(self@ =~= pre.update(k as int, nc));
            assert forall|i: int| 0 <= i < self@.len() implies conn_wf(#[trigger] self@[i]) by {
                if i != k as int {
                    assert(self@[i] == pre[i]);
                } else {
                    assert(nc.mailbox.len() <= nc.capacity);
                }
            }
            assert forall|i: int, j2: int| 0 <= i < j2 < self@.len() implies self@[i].conn_id
                != self@[j2].conn_id by {}
        }
        true
    }

    /// Drain a connection's mailbox: the pending deliveries, in order.
    pub fn take_mailbox(&mut self, conn_id: u64) -> (r: Vec<Delivery>)
        requires
            registry_wf(old(self)@),
        ensures
            registry_wf(final(self)@),
            final(self).max_subs == old(self).max_subs,
            !has_conn(old(self)@, conn_id) ==> final(self)@ == old(self)@ && r@.len() == 0,
            (forall|k: int|
                0 <= k < old(self)@.len() && (#[trigger] old(self)@[k]).conn_id == conn_id
                    ==> views_of_deliveries(r@) == old(self)@[k].mailbox && final(self)@ == old(
                    self,
                )@.update(k, with_mailbox(old(self)@[k], Seq::<DeliveryView>::empty()))),
    {
        let k = match self.find_conn(conn_id) {
            None => {
                return Vec::new();
            },
            Some(k) => k,
        };
        let ghost pre = self@;
        let ghost c = pre[k as int];
        proof {
            assert forall|k2: int|
                0 <= k2 < pre.len() && (#[trigger] pre[k2]).conn_id == conn_id implies k2
                == k as int by {
                if k2 != k as int {
                    assert(pre[k2].conn_id != pre[k as int].conn_id);
                }
            }
            assert(conn_wf(c));
        }
        let mut out: Vec<Delivery> = Vec::new();
        core::mem::swap(&mut out, &mut self.conns[k].mailbox);
        proof {
            assert(views_of_deliveries(out@) =~= c.mailbox);
            let nc = with_mailbox(c, Seq::<DeliveryView>::empty());
            assert(self@[k as int].mailbox =~= nc.mailbox);
            assert(self@[k as int] == nc);
            assert(self@ =~= pre.update(k as int, nc));
            assert forall|i: int| 0 <= i < self@.len() implies conn_wf(#[trigger] self@[i]) by {
                if i != k as int {
                    assert(self@[i] == pre[i]);
                }
            }
            assert forall|i: int, j2: int| 0 <= i < j2 < self@.len() implies self@[i].conn_id
                != self@[j2].conn_id by {}
        }
        out
    }
}

/// Delivery ordering: when a connection has room for both, two broadcasts
/// enqueue their deliveries in broadcast order — the first event's delivery
/// sits in the mailbox before the second's.
pub proof fn lemma_delivery_order(c0: ConnectionView, e1: EventView, e2: EventView, i: int)
    requires
        0 <= i < c0.subs.len(),
        any_filter_matches(c0.subs[i].filters, e1),
        any_filter_matches(c0.subs[i].filters, e2),
        c0.mailbox.len() + matched_deliveries(c0.subs, e1).len() + matched_deliveries(
            c0.subs,
            e2,
        ).len() <= c0.capacity,
    ensures
        (exists|p: int, q: int|
            0 <= p < q < broadcast_conn(broadcast_conn(c0, e1), e2).mailbox.len()
                && broadcast_conn(broadcast_conn(c0, e1), e2).mailbox[p] == (DeliveryView::Event {
                sub_id: c0.subs[i].sub_id,
                event: e1,
            }) && broadcast_conn(broadcast_conn(c0, e1), e2).mailbox[q] == (DeliveryView::Event {
                sub_id: c0.subs[i].sub_id,
                event: e2,
            })),
{
    let m1 = matched_deliveries(c0.subs, e1);
    let m2 = matched_deliveries(c0.subs, e2);
    let c1 = broadcast_conn(c0, e1);
    lemma_deliver_all_no_overflow(c0.mailbox, m1, c0.capacity);
    assert(c1.mailbox == c0.mailbox + m1);
    assert(c1.subs == c0.subs);
    lemma_deliver_all_no_overflow(c1.mailbox, m2, c0.capacity);
    let c2 = broadcast_conn(c1, e2);
    assert(c2.mailbox == (c0.mailbox + m1) + m2);
    lemma_matched_contains(c0.subs, e1, i);
    lemma_matched_contains(c0.subs, e2, i);
    let d1 = DeliveryView::Event { sub_id: c0.subs[i].sub_id, event: e1 };
    let d2 = DeliveryView::Event { sub_id: c0.subs[i].sub_id, event: e2 };
    let j1 = choose|j: int| 0 <= j < m1.len() && m1[j] == d1;
    let j2 = choose|j: int| 0 <= j < m2.len() && m2[j] == d2;
    let p = c0.mailbox.len() + j1;
    let q = c0.mailbox.len() + m1.len() + j2;
    assert(c2.mailbox[p] == d1);
    assert(c2.mailbox[q] == d2);
}

/// Isolation: a broadcast updates each connection by a function of that
/// connection's own state alone, so a full mailbox on one connection never
/// blocks or loses delivery to another that has room.
pub proof fn lemma_isolation(conns: Seq<ConnectionView>, e: EventView, a: int, b: int, i: int)
    requires
        0 <= a < conns.len(),
        0 <= b < conns.len(),
        a != b,
        conns[b].mailbox.len() >= conns[b].capacity,
        0 <= i < conns[a].subs.len(),
        any_filter_matches(conns[a].subs[i].filters, e),
        conns[a].mailbox.len() + matched_deliveries(conns[a].subs, e).len() <= conns[a].capacity,
    ensures
        broadcast_conn(conns[a], e).mailbox == conns[a].mailbox + matched_deliveries(
            conns[a].subs,
            e,
        ),
        (exists|q: int|
            0 <= q < broadcast_conn(conns[a], e).mailbox.len() && broadcast_conn(
                conns[a],
                e,
            ).mailbox[q] == (DeliveryView::Event { sub_id: conns[a].subs[i].sub_id, event: e })),
{
    lemma_deliver_all_no_overflow(conns[a].mailbox, matched_deliveries(conns[a].subs, e), conns[a].capacity);
    lemma_matched_contains(conns[a].subs, e, i);
    let d = DeliveryView::Event { sub_id: conns[a].subs[i].sub_id, event: e };
    let m = matched_deliveries(conns[a].subs, e);
    let j = choose|j: int| 0 <= j < m.len() && m[j] == d;
    assert(broadcast_conn(conns[a], e).mailbox[conns[a].mailbox.len() + j] == d);
}

} // verus!
