//! The relay core: validation, persistence and fan-out in one place. A
//! publish validates, stores (plain, replaceable or deletion semantics by
//! kind) and broadcasts; a subscribe registers first and then streams the
//! historical snapshot, closing it with the end-of-stored-events marker.
//! Registering before the scan means an event arriving in the overlap
//! window may be delivered twice; clients dedup by id.
use vstd::prelude::*;

verus! {

use crate::event::Event;
use crate::event::EventView;
use crate::event::RawEvent;
use crate::event::ValidationError;
use crate::event::validate;
use crate::event::validate_spec;
use crate::event::event_wf;
use crate::event::event_valid;
use crate::event::is_deletion_kind;
use crate::event::is_replaceable_kind;
use crate::event::is_param_replaceable_kind;
use crate::event::deletion_kind;
use crate::event::replaceable_kind;
use crate::event::param_replaceable_kind;
use crate::event::clone_event;
use crate::filter::Filter;
use crate::filter::FilterView;
use crate::filter::views_of_filters;
use crate::filter::clone_filters;
use crate::store::Store;
use crate::store::StoredEventView;
use crate::store::store_wf;
use crate::store::stored;
use crate::store::visible;
use crate::store::has_id;
use crate::store::del_targets;
use crate::store::replace_effect;
use crate::store::query_spec;
use crate::store::views_of_events;
use crate::store::PutOutcome;
use crate::registry::Registry;
use crate::registry::ConnectionView;
use crate::registry::Delivery;
use crate::registry::DeliveryView;
use crate::registry::RegistryError;
use crate::registry::registry_wf;
use crate::registry::has_conn;
use crate::registry::has_sub;
use crate::registry::broadcast_conn;
use crate::registry::deliver_all;
use crate::registry::enqueue_bounded;
use crate::registry::with_sub_replaced;
use crate::registry::with_sub_added;
use crate::registry::with_mailbox;
use crate::registry::views_of_deliveries;

/// What a publish request comes back with.
#[derive(Clone, Copy, Debug, PartialEq, Eq, Structural)]
pub enum PublishOutcome {
    Accepted,
    Duplicate,
    Rejected(ValidationError),
}

/// What storing one accepted event does, by its kind: deletions tombstone
/// their targets, replaceable kinds keep one winner per key, anything else
/// simply becomes visible.
pub open spec fn publish_effect(
    pre: Seq<StoredEventView>,
    post: Seq<StoredEventView>,
    e: EventView,
) -> bool {
    if is_deletion_kind(e.kind) {
        &&& forall|x: EventView| stored(post, x) <==> (stored(pre, x) || x == e)
        &&& forall|x: EventView|
            visible(post, x) <==> ((visible(pre, x) || x == e) && !del_targets(e, x))
    } else if is_replaceable_kind(e.kind) || is_param_replaceable_kind(e.kind) {
        replace_effect(pre, post, e)
    } else {
        &&& forall|x: EventView| stored(post, x) <==> (stored(pre, x) || x == e)
        &&& forall|x: EventView| visible(post, x) <==> (visible(pre, x) || x == e)
    }
}

proof fn lemma_publish_effect_deletion(
    pre: Seq<StoredEventView>,
    post: Seq<StoredEventView>,
    e: EventView,
)
    requires
        is_deletion_kind(e.kind),
        forall|x: EventView| stored(post, x) <==> (stored(pre, x) || x == e),
        forall|x: EventView|
            visible(post, x) <==> ((visible(pre, x) || x == e) && !del_targets(e, x)),
    ensures
        publish_effect(pre, post, e),
{
}

/// The historical deliveries of a snapshot, in query order.
pub open spec fn hist_deliveries(sid: Seq<char>, evs: Seq<EventView>) -> Seq<DeliveryView> {
    Seq::new(evs.len(), |i: int| DeliveryView::Event { sub_id: sid, event: evs[i] })
}

/// The historical stream a subscription opens with: each snapshot result in
/// query order, then the end-of-stored-events marker.
pub open spec fn sub_stream(sid: Seq<char>, evs: Seq<EventView>) -> Seq<DeliveryView> {
    hist_deliveries(sid, evs).push(DeliveryView::EndOfStored { sub_id: sid })
}

/// The requested result cap: the smallest `limit` any filter carries, or no
/// cap when none does (the store still applies its server-wide cap).
pub open spec fn req_limit(fs: Seq<FilterView>) -> usize
    decreases fs.len(),
{
    if fs.len() == 0 {
        usize::MAX
    } else {
        let rest = req_limit(fs.skip(1));
        match fs[0].limit {
            Some(l) => if l < rest {
                l
            } else {
                rest
            },
            None => rest,
        }
    }
}

fn requested_limit(filters: &Vec<Filter>) -> (r: usize)
    ensures
        r == req_limit(views_of_filters(filters@)),
{
    let ghost fs = views_of_filters(filters@);
    let mut r: usize = usize::MAX;
    let mut i: usize = filters.len();
    proof {
        assert(fs.skip(filters@.len() as int).len() == 0);
    }
    while i > 0
        invariant
            i <= filters@.len(),
            fs == views_of_filters(filters@),
            r == req_limit(fs.skip(i as int)),
        decreases i,
    {
        i -= 1;
        let ghost ss = fs.skip(i as int);
        proof {
            assert(ss[0] == fs[i as int]);
            assert(ss.skip(1) =~= fs.skip(i + 1));
        }
        match filters[i].limit {
            Some(l) => {
                if l < r {
                    r = l;
                }
            },
            None => {},
        }
    }
    proof {
        assert(fs.skip(0) =~= fs);
    }
    r
}

/// The relay core: the event store and the live subscription registry.
pub struct Relay {
    pub store: Store,
    pub registry: Registry,
}

impl Relay {
    pub open spec fn wf(&self) -> bool {
        store_wf(self.store@) && registry_wf(self.registry@)
    }

    /// A fresh relay with the given server-wide query cap and per-connection
    /// subscription cap.
    pub fn new(max_limit: usize, max_subs: usize) -> (r: Relay)
        ensures
            r.wf(),
            r.store@ == Seq::<StoredEventView>::empty(),
            r.registry@ == Seq::<ConnectionView>::empty(),
    {
        Relay { store: Store::new(max_limit), registry: Registry::new(max_subs) }
    }

    /// Store an already-validated event by its kind's semantics and, if it
    /// was new, broadcast it to every matching live subscription.
    #[verifier::rlimit(60)]
    pub fn publish_event(&mut self, ev: Event) -> (r: PutOutcome)
        requires
            old(self).wf(),
            event_wf(ev@),
        ensures
            final(self).wf(),
            (r == PutOutcome::Duplicate) <==> has_id(old(self).store@, ev@.id),
            r == PutOutcome::Duplicate ==> final(self).store@ == old(self).store@ && final(self).registry@ == old(self).registry@,
            r == PutOutcome::Inserted ==> publish_effect(old(self).store@, final(self).store@, ev@),
            r == PutOutcome::Inserted ==> has_id(final(self).store@, ev@.id),
            r == PutOutcome::Inserted ==> final(self).registry@.len() == old(self).registry@.len() && (forall|i: int|
                0 <= i < old(self).registry@.len() ==> final(self).registry@[i] == broadcast_conn(
                    old(self).registry@[i],
                    ev@,
                )),
    {
        let bc = clone_event(&ev);
        let outcome: PutOutcome;
        if deletion_kind(ev.kind) {
            let dc = clone_event(&ev);
            let ghost pre = self.store@;
            outcome = self.store.put(ev);
            match outcome {
                PutOutcome::Duplicate => {
                    return PutOutcome::Duplicate;
                },
                PutOutcome::Inserted => {},
            }
            let ghost mid = self.store@;
            self.store.delete(&dc);
            proof {
                assert forall|x: EventView| stored(self.store@, x) implies stored(mid, x) by {
                    let j = choose|j: int|
                        0 <= j < self.store@.len() && self.store@[j].event == x;
                    assert(mid[j].event == x);
                }
                assert forall|x: EventView| stored(mid, x) implies stored(self.store@, x) by {
                    let j = choose|j: int| 0 <= j < mid.len() && mid[j].event == x;
                    assert(self.store@[j].event == x);
                }
                assert forall|x: EventView| stored(self.store@, x) <==> (stored(pre, x) || x
                    == dc@) by {}
                assert forall|x: EventView| visible(self.store@, x) <==> ((visible(pre, x) || x
                    == dc@) && !del_targets(dc@, x)) by {
                    assert(visible(self.store@, x) <==> (visible(mid, x) && !del_targets(
                        dc@,
                        x,
                    )));
                    assert(visible(mid, x) <==> (visible(pre, x) || x == dc@));
                }
                lemma_publish_effect_deletion(pre, self.store@, dc@);
            }
        } else if replaceable_kind(ev.kind) || param_replaceable_kind(ev.kind) {
            outcome = self.store.replace_if_newer(ev);
            match outcome {
                PutOutcome::Duplicate => {
                    return PutOutcome::Duplicate;
                },
                PutOutcome::Inserted => {},
            }
        } else {
            outcome = self.store.put(ev);
            match outcome {
                PutOutcome::Duplicate => {
                    return PutOutcome::Duplicate;
                },
                PutOutcome::Inserted => {},
            }
        }
        proof {
            assert(stored(self.store@, bc@));
            let j = choose|j: int| 0 <= j < self.store@.len() && self.store@[j].event == bc@;
            assert(self.store@[j].event.id == bc@.id);
        }
        self.registry.broadcast(&bc);
        PutOutcome::Inserted
    }

    /// Handle a publish request: validate the raw event, store it by its
    /// kind's semantics, broadcast it if newly stored, and acknowledge.
    /// `latest` is the policy bound on `created_at` (None disables it).
    pub fn publish(&mut self, raw: &RawEvent, latest: Option<i64>) -> (r: PublishOutcome)
        requires
            old(self).wf(),
        ensures
            final(self).wf(),
            (validate_spec(raw@, latest) matches Err(x) ==> r == PublishOutcome::Rejected(x)
                && final(self).store@ == old(self).store@ && final(self).registry@ == old(self).registry@),
            (validate_spec(raw@, latest) matches Ok(e) ==> {
                &&& ((r == PublishOutcome::Duplicate) <==> has_id(old(self).store@, e.id))
                &&& (r == PublishOutcome::Duplicate ==> final(self).store@ == old(self).store@
                    && final(self).registry@ == old(self).registry@)
                &&& (r != PublishOutcome::Duplicate ==> r == PublishOutcome::Accepted)
                &&& (r == PublishOutcome::Accepted ==> has_id(final(self).store@, e.id))
                &&& (r == PublishOutcome::Accepted ==> publish_effect(
                    old(self).store@,
                    final(self).store@,
                    e,
                ) && final(self).registry@.len() == old(self).registry@.len() && (forall|i: int|
                    0 <= i < old(self).registry@.len() ==> final(self).registry@[i]
                        == broadcast_conn(old(self).registry@[i], e)))
            }),
    {
        let ev = match validate(raw, latest) {
            Err(x) => {
                return PublishOutcome::Rejected(x);
            },
            Ok(ev) => ev,
        };
        proof {
            assert(event_valid(ev@));
        }
        let ghost evv = ev@;
        match self.publish_event(ev) {
            PutOutcome::Duplicate => PublishOutcome::Duplicate,
            PutOutcome::Inserted => PublishOutcome::Accepted,
        }
    }

    /// Open (or replace) the named subscription on a connection. The
    /// registration happens first; then the historical snapshot streams into
    /// the mailbox in query order, closed by the end-of-stored-events
    /// marker. An event published in the overlap window may be delivered
    /// twice, never missed; clients dedup deliveries by id. On any error
    /// nothing is registered and the mailbox is untouched.
    #[verifier::rlimit(80)]
    pub fn subscribe(&mut self, conn_id: u64, sub_id: String, filters: Vec<Filter>) -> (r: Result<
        (),
        RegistryError,
    >)
        requires
            old(self).wf(),
        ensures
            final(self).wf(),
            final(self).store@ == old(self).store@,
            r is Err ==> final(self).registry@ == old(self).registry@,
            !has_conn(old(self).registry@, conn_id) ==> r == Err::<(), RegistryError>(
                RegistryError::UnknownConnection,
            ),
            (forall|k: int|
                0 <= k < old(self).registry@.len() && (#[trigger] old(
                    self,
                ).registry@[k]).conn_id == conn_id ==> ({
                    let c = old(self).registry@[k];
                    let fs = views_of_filters(filters@);
                    let results = query_spec(
                        old(self).store@,
                        fs,
                        old(self).store.effective_limit(req_limit(fs)),
                    );
                    let c1 = if has_sub(c.subs, sub_id@) {
                        with_sub_replaced(c, sub_id@, fs)
                    } else {
                        with_sub_added(c, sub_id@, fs)
                    };
                    &&& (has_sub(c.subs, sub_id@) || c.subs.len() < old(self).registry.max_subs
                        ==> r is Ok)
                    &&& (!has_sub(c.subs, sub_id@) && c.subs.len() >= old(self).registry.max_subs
                        ==> r == Err::<(), RegistryError>(RegistryError::TooManySubscriptions))
                    &&& (r is Ok ==> final(self).registry@ == old(self).registry@.update(
                        k,
                        with_mailbox(
                            c1,
                            deliver_all(c.mailbox, sub_stream(sub_id@, results), c.capacity),
                        ),
                    ))
                })),
    {
        let ghost regpre = self.registry@;
        let filters_q = clone_filters(&filters);
        let sid = sub_id.clone();
        let ghost fs = views_of_filters(filters@);
        match self.registry.register(conn_id, sub_id, filters) {
            Err(e) => {
                return Err(e);
            },
            Ok(()) => {},
        }
        let ghost k = choose|k: int| 0 <= k < regpre.len() && regpre[k].conn_id == conn_id;
        let ghost c = regpre[k];
        let ghost c1 = if has_sub(c.subs, sid@) {
            with_sub_replaced(c, sid@, fs)
        } else {
            with_sub_added(c, sid@, fs)
        };
        proof {
            assert(has_conn(regpre, conn_id));
            assert forall|k2: int|
                0 <= k2 < regpre.len() && (#[trigger] regpre[k2]).conn_id == conn_id implies k2
                == k by {
                if k2 != k {
                    assert(regpre[k2].conn_id != regpre[k].conn_id);
                }
            }
            assert(views_of_filters(filters_q@) == fs);
            assert(self.registry@ == regpre.update(k, c1));
            assert(c1.mailbox == c.mailbox);
            assert(c1.capacity == c.capacity);
        }
        let lim = requested_limit(&filters_q);
        let events = self.store.query(&filters_q, lim);
        let ghost results = views_of_events(events@);
        let ghost hist = hist_deliveries(sid@, results);
        let n = events.len();
        let mut i: usize = 0;
        proof {
            assert(hist.take(0) =~= Seq::<DeliveryView>::empty());
            assert(deliver_all(c.mailbox, hist.take(0), c.capacity) == c.mailbox);
            assert(with_mailbox(c1, c.mailbox) == c1);
            assert(regpre.update(k, c1) =~= regpre.update(k, with_mailbox(c1, c.mailbox)));
        }
        while i < n
            invariant
                i <= n,
                n == events@.len(),
                results == views_of_events(events@),
                hist == hist_deliveries(sid@, results),
                self.store@ == old(self).store@,
                self.store.max_limit == old(self).store.max_limit,
                self.registry.max_subs == old(self).registry.max_subs,
                store_wf(self.store@),
                registry_wf(self.registry@),
                0 <= k < regpre.len(),
                regpre[k].conn_id == conn_id,
                c == regpre[k],
                forall|k2: int|
                    0 <= k2 < regpre.len() && (#[trigger] regpre[k2]).conn_id == conn_id ==> k2
                        == k,
                c1.conn_id == conn_id,
                c1.capacity == c.capacity,
                self.registry@ == regpre.update(
                    k,
                    with_mailbox(
                        c1,
                        deliver_all(c.mailbox, hist.take(i as int), c.capacity),
                    ),
                ),
            decreases n - i,
        {
            let ghost regcur = self.registry@;
            let ghost d = DeliveryView::Event { sub_id: sid@, event: results[i as int] };
            let deliv = Delivery::Event { sub_id: sid.clone(), event: clone_event(&events[i]) };
            proof {
                assert(views_of_events(events@)[i as int] == events@[i as int]@);
                assert(deliv@ == d);
                assert(regcur[k].conn_id == conn_id);
                assert forall|k2: int|
                    0 <= k2 < regcur.len() && (#[trigger] regcur[k2]).conn_id == conn_id implies
                    k2 == k by {
                    if k2 != k {
                        assert(regcur[k2] == regpre[k2]);
                    }
                }
            }
            let ok = self.registry.push_delivery(conn_id, deliv);
            proof {
                assert(ok);
                let mbi = deliver_all(c.mailbox, hist.take(i as int), c.capacity);
                assert(regcur[k] == with_mailbox(c1, mbi));
                assert(regcur[k].capacity == c.capacity);
                assert(self.registry@ == regcur.update(
                    k,
                    with_mailbox(regcur[k], enqueue_bounded(mbi, d, c.capacity)),
                ));
                assert(with_mailbox(regcur[k], enqueue_bounded(mbi, d, c.capacity))
                    == with_mailbox(c1, enqueue_bounded(mbi, d, c.capacity)));
                assert(hist.take(i + 1) =~= hist.take(i as int).push(d));
                crate::registry::lemma_deliver_all_snoc(
                    c.mailbox,
                    hist.take(i as int),
                    d,
                    c.capacity,
                );
                assert(regpre.update(k, with_mailbox(c1, mbi)).update(
                    k,
                    with_mailbox(c1, enqueue_bounded(mbi, d, c.capacity)),
                ) =~= regpre.update(k, with_mailbox(c1, enqueue_bounded(mbi, d, c.capacity))));
            }
            i += 1;
        }
        let ghost regcur = self.registry@;
        let ghost eose = DeliveryView::EndOfStored { sub_id: sid@ };
        proof {
            assert(hist.take(n as int) =~= hist);
            assert(regcur[k].conn_id == conn_id);
            assert forall|k2: int|
                0 <= k2 < regcur.len() && (#[trigger] regcur[k2]).conn_id == conn_id implies k2
                == k by {
                if k2 != k {
                    assert(regcur[k2] == regpre[k2]);
                }
            }
        }
        let marker = Delivery::EndOfStored { sub_id: sid };
        let ok = self.registry.push_delivery(conn_id, marker);
        proof {
            assert(ok);
            let mbn = deliver_all(c.mailbox, hist, c.capacity);
            assert(regcur[k] == with_mailbox(c1, mbn));
            assert(self.registry@ == regcur.update(
                k,
                with_mailbox(regcur[k], enqueue_bounded(mbn, eose, c.capacity)),
            ));
            assert(with_mailbox(regcur[k], enqueue_bounded(mbn, eose, c.capacity))
                == with_mailbox(c1, enqueue_bounded(mbn, eose, c.capacity)));
            crate::registry::lemma_deliver_all_snoc(c.mailbox, hist, eose, c.capacity);
            assert(sub_stream(sid@, results) == hist.push(eose));
            assert(regpre.update(k, with_mailbox(c1, mbn)).update(
                k,
                with_mailbox(c1, deliver_all(c.mailbox, sub_stream(sid@, results), c.capacity)),
            ) =~= regpre.update(
                k,
                with_mailbox(c1, deliver_all(c.mailbox, sub_stream(sid@, results), c.capacity)),
            ));
            assert(results == query_spec(
                old(self).store@,
                fs,
                old(self).store.effective_limit(req_limit(fs)),
            ));
        }
        Ok(())
    }


    /// Open a connection with the given mailbox capacity.
    pub fn connect(&mut self, conn_id: u64, capacity: usize) -> (r: Result<(), RegistryError>)
        requires
            old(self).wf(),
        ensures
            final(self).wf(),
            final(self).store@ == old(self).store@,
            (r is Ok) <==> !has_conn(old(self).registry@, conn_id),
            r is Ok ==> final(self).registry@ == old(self).registry@.push(
                crate::registry::new_conn_view(conn_id, capacity),
            ),
            r is Err ==> final(self).registry@ == old(self).registry@,
    {
        self.registry.connect(conn_id, capacity)
    }

    /// Tear a connection down; all its subscriptions leave with it.
    pub fn disconnect(&mut self, conn_id: u64) -> (r: bool)
        requires
            old(self).wf(),
        ensures
            final(self).wf(),
            final(self).store@ == old(self).store@,
            !has_conn(final(self).registry@, conn_id),
            !r ==> final(self).registry@ == old(self).registry@,
            r ==> (exists|k: int|
                0 <= k < old(self).registry@.len() && old(self).registry@[k].conn_id == conn_id
                    && final(self).registry@ == old(self).registry@.remove(k)),
    {
        self.registry.disconnect(conn_id)
    }

    /// Close one subscription; no further broadcast delivers to it.
    pub fn unsubscribe(&mut self, conn_id: u64, sub_id: &String) -> (r: bool)
        requires
            old(self).wf(),
        ensures
            final(self).wf(),
            final(self).store@ == old(self).store@,
            !has_conn(old(self).registry@, conn_id) ==> final(self).registry@ == old(self).registry@ && !r,
            (forall|k: int|
                0 <= k < old(self).registry@.len() && (#[trigger] old(self).registry@[k]).conn_id == conn_id ==> ({
                    let c = old(self).registry@[k];
                    if has_sub(c.subs, sub_id@) {
                        r && (exists|j: int|
                            0 <= j < c.subs.len() && c.subs[j].sub_id == sub_id@ && final(self).registry@ == old(self).registry@.update(
                                k,
                                crate::registry::with_sub_removed(c, j),
                            ))
                    } else {
                        !r && final(self).registry@ == old(self).registry@
                    }
                })),
    {
        self.registry.unregister(conn_id, sub_id)
    }

    /// Drain a connection's pending deliveries, in order.
    pub fn take_mailbox(&mut self, conn_id: u64) -> (r: Vec<Delivery>)
        requires
            old(self).wf(),
        ensures
            final(self).wf(),
            final(self).store@ == old(self).store@,
            !has_conn(old(self).registry@, conn_id) ==> final(self).registry@ == old(self).registry@ && r@.len() == 0,
            (forall|k: int|
                0 <= k < old(self).registry@.len() && (#[trigger] old(self).registry@[k]).conn_id == conn_id ==> views_of_deliveries(r@) == old(self).registry@[k].mailbox && final(self).registry@ == old(self).registry@.update(
                    k,
                    with_mailbox(old(self).registry@[k], Seq::<DeliveryView>::empty()),
                )),
    {
        self.registry.take_mailbox(conn_id)
    }
}

} // verus!
