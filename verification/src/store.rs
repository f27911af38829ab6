//! The event store: an indexed, tombstoning collection of immutable events.
//! Entries are kept in storage order (newest first, ties by larger id
//! first), ids are unique, and deletion and replacement only flip
//! visibility flags — stored bytes are never mutated.
use vstd::prelude::*;

verus! {

use crate::event::Event;
use crate::event::EventView;
use crate::event::event_wf;
use crate::event::clone_event;
use crate::event::is_param_replaceable_kind;
use crate::filter::Filter;
use crate::filter::FilterView;
use crate::filter::views_of_filters;
use crate::filter::any_filter_matches;
use crate::filter::matches_any;
use crate::order::key_lt;
use crate::order::key_less;
use crate::order::lemma_key_total;
use crate::order::lemma_key_trans;
use crate::order::wins;
use crate::order::wins_over;
use crate::order::lemma_wins_total;
use crate::order::lemma_wins_asym;
use crate::order::lemma_wins_trans;
use crate::hexcode::hex_of;
use crate::text::eq_bytes;
use crate::text::eq_chars;
use crate::text::chars_of;
use crate::hexcode::encode_hex;
use vstd::string::StringExecFns;

/// One stored entry: the immutable event and its visibility flag.
pub struct StoredEvent {
    pub event: Event,
    pub tombstoned: bool,
}

pub struct StoredEventView {
    pub event: EventView,
    pub tombstoned: bool,
}

impl View for StoredEvent {
    type V = StoredEventView;

    open spec fn view(&self) -> StoredEventView {
        StoredEventView { event: self.event@, tombstoned: self.tombstoned }
    }
}

/// The store: entries in storage order plus the server-wide query cap.
pub struct Store {
    pub events: Vec<StoredEvent>,
    pub max_limit: usize,
}

impl View for Store {
    type V = Seq<StoredEventView>;

    open spec fn view(&self) -> Seq<StoredEventView> {
        Seq::new(self.events@.len(), |i: int| self.events@[i]@)
    }
}

/// Well-formedness: entries strictly ordered newest first, unique ids,
/// fixed-length fields.
pub open spec fn store_wf(s: Seq<StoredEventView>) -> bool {
    &&& forall|i: int, j: int| 0 <= i < j < s.len() ==> key_lt(s[j].event, s[i].event)
    &&& forall|i: int, j: int| 0 <= i < j < s.len() ==> s[i].event.id != s[j].event.id
    &&& forall|i: int| 0 <= i < s.len() ==> event_wf(#[trigger] s[i].event)
}

/// Whether some entry carries this id, tombstoned or not.
pub open spec fn has_id(s: Seq<StoredEventView>, id: Seq<u8>) -> bool {
    exists|i: int| 0 <= i < s.len() && s[i].event.id == id
}

/// Whether this event value is stored, tombstoned or not.
pub open spec fn stored(s: Seq<StoredEventView>, e: EventView) -> bool {
    exists|i: int| 0 <= i < s.len() && s[i].event == e
}

/// Whether this event value is stored and queryable.
pub open spec fn visible(s: Seq<StoredEventView>, e: EventView) -> bool {
    exists|i: int| 0 <= i < s.len() && s[i].event == e && !s[i].tombstoned
}

/// The outcome of an insertion: new, or already present under the same id.
#[derive(Clone, Copy, Debug, PartialEq, Eq, Structural)]
pub enum PutOutcome {
    Inserted,
    Duplicate,
}

proof fn lemma_sorted_insert(s: Seq<StoredEventView>, k: int, nv: StoredEventView)
    requires
        store_wf(s),
        0 <= k <= s.len(),
        forall|j: int| 0 <= j < k ==> key_lt(nv.event, s[j].event),
        forall|j: int| k <= j < s.len() ==> key_lt(s[j].event, nv.event),
        forall|j: int| 0 <= j < s.len() ==> s[j].event.id != nv.event.id,
        event_wf(nv.event),
    ensures
        store_wf(s.insert(k, nv)),
        forall|e: EventView| stored(s.insert(k, nv), e) <==> (stored(s, e) || e == nv.event),
        forall|e: EventView|
            visible(s.insert(k, nv), e) <==> (visible(s, e) || (e == nv.event
                && !nv.tombstoned)),
        has_id(s.insert(k, nv), nv.event.id),
{
    let s2 = s.insert(k, nv);
    assert(s2.len() == s.len() + 1);
    assert forall|i: int| 0 <= i < s2.len() implies s2[i] == (if i < k {
        s[i]
    } else if i == k {
        nv
    } else {
        s[i - 1]
    }) by {}
    assert forall|i: int, j: int| 0 <= i < j < s2.len() implies key_lt(
        s2[j].event,
        s2[i].event,
    ) by {
        if j < k {
        } else if i < k && j == k {
        } else if i < k && j > k {
        } else if i == k {
        } else {
        }
    }
    assert forall|i: int, j: int| 0 <= i < j < s2.len() implies s2[i].event.id
        != s2[j].event.id by {
        if i != k && j != k && i < k && j > k {
            if s[i].event.id == s[j - 1].event.id {
                if i < j - 1 {
                } else {
                    assert(i == j - 1);
                    assert(key_lt(nv.event, s[i].event));
                    assert(key_lt(s[j - 1].event, nv.event));
                    lemma_key_trans(s[j - 1].event, nv.event, s[i].event);
                    assert(key_lt(s[i].event, s[i].event));
                    crate::order::lemma_key_asym(s[i].event, s[i].event);
                }
            }
        }
    }
    assert forall|e: EventView| stored(s2, e) implies (stored(s, e) || e == nv.event) by {
        let i = choose|i: int| 0 <= i < s2.len() && s2[i].event == e;
        if i < k {
            assert(s[i].event == e);
        } else if i > k {
            assert(s[i - 1].event == e);
        }
    }
    assert forall|e: EventView| stored(s, e) implies stored(s2, e) by {
        let i = choose|i: int| 0 <= i < s.len() && s[i].event == e;
        if i < k {
            assert(s2[i].event == e);
        } else {
            assert(s2[i + 1].event == e);
        }
    }
    assert(s2[k].event == nv.event);
    assert forall|e: EventView| visible(s2, e) implies (visible(s, e) || (e == nv.event
        && !nv.tombstoned)) by {
        let i = choose|i: int| 0 <= i < s2.len() && s2[i].event == e && !s2[i].tombstoned;
        if i < k {
            assert(s[i].event == e && !s[i].tombstoned);
        } else if i > k {
            assert(s[i - 1].event == e && !s[i - 1].tombstoned);
        }
    }
    assert forall|e: EventView| visible(s, e) implies visible(s2, e) by {
        let i = choose|i: int| 0 <= i < s.len() && s[i].event == e && !s[i].tombstoned;
        if i < k {
            assert(s2[i].event == e && !s2[i].tombstoned);
        } else {
            assert(s2[i + 1].event == e && !s2[i + 1].tombstoned);
        }
    }
}

impl Store {
    /// A fresh, empty store with the given server-wide query cap.
    pub fn new(max_limit: usize) -> (s: Store)
        ensures
            s@ == Seq::<StoredEventView>::empty(),
            store_wf(s@),
            s.max_limit == max_limit,
    {
        let s = Store { events: Vec::new(), max_limit };
        proof {
            assert(s@ =~= Seq::<StoredEventView>::empty());
        }
        s
    }

    fn find_by_id(&self, id: &Vec<u8>) -> (r: Option<usize>)
        ensures
            r matches Some(i) ==> i < self@.len() && self@[i as int].event.id == id@,
            r is None ==> !has_id(self@, id@),
    {
        let mut i: usize = 0;
        while i < self.events.len()
            invariant
                i <= self@.len(),
                self@.len() == self.events@.len(),
                forall|j: int| 0 <= j < i ==> self@[j].event.id != id@,
            decreases self@.len() - i,
        {
            if eq_bytes(&self.events[i].event.id, id) {
                proof {
                    assert(self@[i as int].event.id == id@);
                }
                return Some(i);
            }
            i += 1;
        }
        None
    }

    fn insert_pos(&self, ev: &Event) -> (k: usize)
        requires
            store_wf(self@),
        ensures
            k <= self@.len(),
            forall|j: int| 0 <= j < k ==> !key_lt(self@[j].event, ev@),
            k < self@.len() ==> key_lt(self@[k as int].event, ev@),
    {
        let mut k: usize = 0;
        loop
            invariant
                k <= self@.len(),
                self@.len() == self.events@.len(),
                forall|j: int| 0 <= j < k ==> !key_lt(self@[j].event, ev@),
            decreases self@.len() - k,
        {
            if k == self.events.len() {
                return k;
            }
            if key_less(&self.events[k].event, ev) {
                return k;
            }
            k += 1;
        }
    }

    /// Insert an event. Idempotent on the id: an already-present id is a
    /// no-op reported as `Duplicate`, never an error.
    pub fn put(&mut self, ev: Event) -> (r: PutOutcome)
        requires
            store_wf(old(self)@),
            event_wf(ev@),
        ensures
            store_wf(final(self)@),
            final(self).max_limit == old(self).max_limit,
            (r == PutOutcome::Duplicate) <==> has_id(old(self)@, ev@.id),
            r == PutOutcome::Duplicate ==> final(self)@ == old(self)@,
            r == PutOutcome::Inserted ==> has_id(final(self)@, ev@.id),
            forall|e: EventView|
                stored(final(self)@, e) <==> (stored(old(self)@, e) || (r == PutOutcome::Inserted
                    && e == ev@)),
            forall|e: EventView|
                visible(final(self)@, e) <==> (visible(old(self)@, e) || (r
                    == PutOutcome::Inserted && e == ev@)),
    {
        match self.find_by_id(&ev.id) {
            Some(_) => {
                return PutOutcome::Duplicate;
            },
            None => {},
        }
        let k = self.insert_pos(&ev);
        let ghost pre = self@;
        let ghost nv = StoredEventView { event: ev@, tombstoned: false };
        proof {
            assert forall|j: int| 0 <= j < k implies key_lt(nv.event, pre[j].event) by {
                assert(pre[j].event.id != ev@.id);
                lemma_key_total(nv.event, pre[j].event);
            }
            assert forall|j: int| k <= j < pre.len() implies key_lt(pre[j].event, nv.event) by {
                if j > k {
                    lemma_key_trans(pre[j].event, pre[k as int].event, nv.event);
                }
            }
        }
        self.events.insert(k, StoredEvent { event: ev, tombstoned: false });
        proof {
            assert(self@ =~= pre.insert(k as int, nv));
            lemma_sorted_insert(pre, k as int, nv);
        }
        PutOutcome::Inserted
    }

    /// Insert a replaceable-kind event and keep exactly one queryable
    /// instance per replacement key: the newest creation time wins, ties
    /// broken toward the lexicographically smaller id, whatever the arrival
    /// order. Losing instances stay stored but tombstoned.
    pub fn replace_if_newer(&mut self, ev: Event) -> (r: PutOutcome)
        requires
            store_wf(old(self)@),
            event_wf(ev@),
        ensures
            store_wf(final(self)@),
            final(self).max_limit == old(self).max_limit,
            (r == PutOutcome::Duplicate) <==> has_id(old(self)@, ev@.id),
            r == PutOutcome::Duplicate ==> final(self)@ == old(self)@,
            r == PutOutcome::Inserted ==> replace_effect(old(self)@, final(self)@, ev@),
    {
        let ghost pre = self@;
        let ghost evv = ev@;
        let evc = clone_event(&ev);
        match self.find_by_id(&ev.id) {
            Some(_) => {
                return PutOutcome::Duplicate;
            },
            None => {},
        }
        let outcome = self.put(ev);
        proof {
            assert(outcome == PutOutcome::Inserted);
        }
        let ghost mid = self@;
        let n = self.events.len();
        let mut w: usize = 0;
        let mut found = false;
        let mut i: usize = 0;
        while i < n
            invariant
                self@ == mid,
                store_wf(mid),
                n == self@.len(),
                n == self.events@.len(),
                i <= n,
                evc@ == evv,
                visible(mid, evv),
                found ==> w < i && !mid[w as int].tombstoned && same_rkey(
                    mid[w as int].event,
                    evv,
                ),
                found ==> forall|j: int|
                    0 <= j < i && j != w && !mid[j].tombstoned && same_rkey(mid[j].event, evv)
                        ==> wins(mid[w as int].event, mid[j].event),
                !found ==> forall|j: int|
                    0 <= j < i ==> !(!mid[j].tombstoned && same_rkey(mid[j].event, evv)),
            decreases n - i,
        {
            let e_i = &self.events[i];
            if !e_i.tombstoned && same_rkey_ev(&e_i.event, &evc) {
                if !found {
                    w = i;
                    found = true;
                } else {
                    let ghost wv = mid[w as int].event;
                    let ghost iv = mid[i as int].event;
                    if wins_over(&self.events[i].event, &self.events[w].event) {
                        proof {
                            assert forall|j: int|
                                0 <= j < i + 1 && j != i && !mid[j].tombstoned && same_rkey(
                                    mid[j].event,
                                    evv,
                                ) implies wins(iv, mid[j].event) by {
                                if j == w {
                                } else {
                                    lemma_wins_trans(iv, wv, mid[j].event);
                                }
                            }
                        }
                        w = i;
                    } else {
                        proof {
                            assert(w < i);
                            assert((i as int) < mid.len());
                            assert(mid[w as int].event.id != mid[i as int].event.id);
                            assert(wv.id != iv.id);
                            lemma_wins_total(wv, iv);
                        }
                    }
                }
            }
            i += 1;
        }
        proof {
            if !found {
                let j = choose|j: int|
                    0 <= j < mid.len() && mid[j].event == evv && !mid[j].tombstoned;
                assert(same_rkey(mid[j].event, evv));
                assert(false);
            }
        }
        let ghost wv = mid[w as int].event;
        let mut i: usize = 0;
        while i < n
            invariant
                n == self@.len(),
                n == self.events@.len(),
                n == mid.len(),
                w < n,
                i <= n,
                evc@ == evv,
                self.max_limit == old(self).max_limit,
                forall|j: int| 0 <= j < n ==> self@[j].event == mid[j].event,
                forall|j: int|
                    0 <= j < n ==> self@[j].tombstoned == (if 0 <= j < i && j != w {
                        (mid[j].tombstoned || same_rkey(mid[j].event, evv))
                    } else {
                        mid[j].tombstoned
                    }),
            decreases n - i,
        {
            if i != w {
                let c = same_rkey_ev(&self.events[i].event, &evc);
                if c {
                    self.events[i].tombstoned = true;
                }
            }
            i += 1;
        }
        proof {
            let fin = self@;
            assert forall|a: int, b: int| 0 <= a < b < fin.len() implies key_lt(
                fin[b].event,
                fin[a].event,
            ) by {
                assert(fin[a].event == mid[a].event);
                assert(fin[b].event == mid[b].event);
            }
            assert forall|a: int, b: int| 0 <= a < b < fin.len() implies fin[a].event.id
                != fin[b].event.id by {
                assert(fin[a].event == mid[a].event);
                assert(fin[b].event == mid[b].event);
            }
            assert forall|a: int| 0 <= a < fin.len() implies event_wf(#[trigger] fin[a].event) by {
                assert(fin[a].event == mid[a].event);
            }
            assert(store_wf(fin));
            // the scanned winner is visible, same-keyed, and beats every
            // other visible same-keyed entry
            assert(!mid[w as int].tombstoned && same_rkey(wv, evv));
            // candidates of the starting store are exactly the visible
            // same-keyed entries after the plain insert
            assert forall|o: EventView| repl_cand(pre, evv, o) implies visible(mid, o) by {}
            assert forall|o: EventView| visible(mid, o) && same_rkey(o, evv) implies repl_cand(
                pre,
                evv,
                o,
            ) by {}
            assert(repl_cand(pre, evv, wv));
            assert forall|o: EventView| repl_cand(pre, evv, o) && o.id != wv.id implies wins(
                wv,
                o,
            ) by {
                assert(visible(mid, o));
                let j = choose|j: int|
                    0 <= j < mid.len() && mid[j].event == o && !mid[j].tombstoned;
                assert(j != w);
                assert(wins(mid[w as int].event, mid[j].event));
            }
            assert(repl_winner(pre, evv, wv));
            // goal: stored set grows by exactly the new event
            assert forall|e: EventView| stored(self@, e) implies stored(mid, e) by {
                let j = choose|j: int| 0 <= j < self@.len() && self@[j].event == e;
                assert(mid[j].event == e);
            }
            assert forall|e: EventView| stored(mid, e) implies stored(self@, e) by {
                let j = choose|j: int| 0 <= j < mid.len() && mid[j].event == e;
                assert(self@[j].event == e);
            }
            // goal: other keys keep their visibility
            assert forall|e: EventView| !same_rkey(e, evv) implies (visible(self@, e) <==> visible(
                pre,
                e,
            )) by {
                if visible(self@, e) {
                    let j = choose|j: int|
                        0 <= j < self@.len() && self@[j].event == e && !self@[j].tombstoned;
                    assert(mid[j].event == e);
                    assert(!mid[j].tombstoned);
                    assert(visible(mid, e));
                    assert(e != evv);
                }
                if visible(pre, e) {
                    assert(visible(mid, e));
                    let j = choose|j: int|
                        0 <= j < mid.len() && mid[j].event == e && !mid[j].tombstoned;
                    assert(!same_rkey(mid[j].event, evv));
                    assert(!self@[j].tombstoned);
                    assert(visible(self@, e));
                }
            }
            // goal: within the key, exactly the winner is visible
            assert forall|e: EventView| same_rkey(e, evv) implies (visible(self@, e)
                <==> repl_winner(pre, evv, e)) by {
                if visible(self@, e) {
                    let j = choose|j: int|
                        0 <= j < self@.len() && self@[j].event == e && !self@[j].tombstoned;
                    assert(mid[j].event == e);
                    if j != w {
                        assert(self@[j].tombstoned);
                        assert(false);
                    }
                    assert(e == wv);
                }
                if repl_winner(pre, evv, e) {
                    if e.id != wv.id {
                        assert(wins(e, wv));
                        assert(wins(wv, e));
                        lemma_wins_asym(e, wv);
                        assert(false);
                    }
                    assert(repl_cand(pre, evv, e));
                    assert(visible(mid, e));
                    let j = choose|j: int|
                        0 <= j < mid.len() && mid[j].event == e && !mid[j].tombstoned;
                    if j != w {
                        assert(mid[j].event.id != mid[w as int].event.id);
                        assert(false);
                    }
                    assert(e == wv);
                    assert(!self@[w as int].tombstoned);
                    assert(visible(self@, e));
                }
            }
        }
        PutOutcome::Inserted
    }

    /// The number of results a query may return: the requested limit capped
    /// by the server-wide maximum.
    pub open spec fn effective_limit(&self, limit: usize) -> nat {
        if limit <= self.max_limit {
            limit as nat
        } else {
            self.max_limit as nat
        }
    }

    /// A one-shot bounded scan: the first `effective_limit` visible entries
    /// in storage order (newest first, ties by larger id) that match any of
    /// the filters.
    pub fn query(&self, filters: &Vec<Filter>, limit: usize) -> (r: Vec<Event>)
        requires
            store_wf(self@),
        ensures
            views_of_events(r@) == query_spec(
                self@,
                views_of_filters(filters@),
                self.effective_limit(limit),
            ),
            r@.len() <= self.effective_limit(limit),
            forall|i: int|
                0 <= i < r@.len() ==> visible(self@, #[trigger] r@[i]@) && any_filter_matches(
                    views_of_filters(filters@),
                    r@[i]@,
                ),
            forall|i: int, j: int| 0 <= i < j < r@.len() ==> key_lt(r@[j]@, r@[i]@),
            forall|i: int, j: int| 0 <= i < j < r@.len() ==> r@[i]@.id != r@[j]@.id,
    {
        let n: usize = if limit <= self.max_limit {
            limit
        } else {
            self.max_limit
        };
        let ghost fs = views_of_filters(filters@);
        let mut out: Vec<Event> = Vec::new();
        let mut i: usize = 0;
        proof {
            assert(self@.skip(0) =~= self@);
            assert(views_of_events(out@) =~= Seq::<EventView>::empty());
            assert(Seq::<EventView>::empty() + query_spec(self@, fs, n as nat) =~= query_spec(
                self@,
                fs,
                n as nat,
            ));
        }
        while i < self.events.len() && out.len() < n
            invariant
                i <= self@.len(),
                self@.len() == self.events@.len(),
                out@.len() <= n,
                fs == views_of_filters(filters@),
                views_of_events(out@) + query_spec(
                    self@.skip(i as int),
                    fs,
                    (n - out@.len()) as nat,
                ) == query_spec(self@, fs, n as nat),
            decreases self@.len() - i,
        {
            let ghost ss = self@.skip(i as int);
            let ghost rem = (n - out@.len()) as nat;
            proof {
                assert(ss[0] == self@[i as int]);
                assert(ss.skip(1) =~= self@.skip(i + 1));
            }
            let se = &self.events[i];
            let m = matches_any(filters, &se.event);
            if !se.tombstoned && m {
                let ghost prev = out@;
                out.push(clone_event(&se.event));
                proof {
                    assert(vis_match(ss[0], fs));
                    assert(query_spec(ss, fs, rem) == seq![ss[0].event] + query_spec(
                        ss.skip(1),
                        fs,
                        (rem - 1) as nat,
                    ));
                    assert(views_of_events(out@) =~= views_of_events(prev).push(ss[0].event));
                    assert(views_of_events(prev).push(ss[0].event) =~= views_of_events(prev)
                        + seq![ss[0].event]);
                    assert((views_of_events(prev) + seq![ss[0].event]) + query_spec(
                        ss.skip(1),
                        fs,
                        (rem - 1) as nat,
                    ) =~= views_of_events(prev) + (seq![ss[0].event] + query_spec(
                        ss.skip(1),
                        fs,
                        (rem - 1) as nat,
                    )));
                }
            } else {
                proof {
                    assert(!vis_match(ss[0], fs));
                    assert(query_spec(ss, fs, rem) == query_spec(ss.skip(1), fs, rem));
                }
            }
            i += 1;
        }
        proof {
            if out@.len() == n {
                assert(query_spec(self@.skip(i as int), fs, 0nat) == Seq::<EventView>::empty());
            } else {
                assert(self@.skip(i as int).len() == 0);
                assert(query_spec(self@.skip(i as int), fs, (n - out@.len()) as nat)
                    == Seq::<EventView>::empty());
            }
            assert(views_of_events(out@) + Seq::<EventView>::empty() =~= views_of_events(out@));
            lemma_query_props(self@, fs, self.effective_limit(limit));
            let res = query_spec(self@, fs, self.effective_limit(limit));
            assert(n as nat == self.effective_limit(limit));
            assert(views_of_events(out@) == res);
            assert(out@.len() == res.len());
            assert forall|k: int| 0 <= k < out@.len() implies out@[k]@ == res[k] by {
                assert(views_of_events(out@)[k] == out@[k]@);
            }
            assert forall|a: int| 0 <= a < out@.len() implies visible(self@, #[trigger] out@[a]@)
                && any_filter_matches(fs, out@[a]@) by {
                assert(views_of_events(out@)[a] == out@[a]@);
                assert(out@[a]@ == res[a]);
            }
            assert forall|a: int, b: int| 0 <= a < b < out@.len() implies key_lt(
                out@[b]@,
                out@[a]@,
            ) by {
                assert(views_of_events(out@)[a] == out@[a]@);
                assert(views_of_events(out@)[b] == out@[b]@);
                assert(out@[a]@ == res[a]);
                assert(out@[b]@ == res[b]);
            }
            assert forall|a: int, b: int| 0 <= a < b < out@.len() implies out@[a]@.id
                != out@[b]@.id by {
                assert(views_of_events(out@)[a] == out@[a]@);
                assert(views_of_events(out@)[b] == out@[b]@);
                assert(out@[a]@ == res[a]);
                assert(out@[b]@ == res[b]);
            }
        }
        out
    }

    /// Tombstone every stored event that a deletion event targets: same
    /// author, and the event's id (in hex) among the deletion's `e` tags.
    /// Stored bytes and order are untouched; only visibility changes.
    pub fn delete(&mut self, ev: &Event)
        requires
            store_wf(old(self)@),
        ensures
            store_wf(final(self)@),
            final(self).max_limit == old(self).max_limit,
            final(self)@.len() == old(self)@.len(),
            forall|i: int|
                0 <= i < old(self)@.len() ==> final(self)@[i].event == old(self)@[i].event
                    && final(self)@[i].tombstoned == (old(self)@[i].tombstoned || del_targets(
                    ev@,
                    old(self)@[i].event,
                )),
            forall|e: EventView|
                visible(final(self)@, e) <==> (visible(old(self)@, e) && !del_targets(ev@, e)),
    {
        let ghost pre = self@;
        let mut i: usize = 0;
        while i < self.events.len()
            invariant
                i <= pre.len(),
                self@.len() == pre.len(),
                self@.len() == self.events@.len(),
                self.max_limit == old(self).max_limit,
                forall|j: int| 0 <= j < pre.len() ==> self@[j].event == pre[j].event,
                forall|j: int|
                    0 <= j < i ==> self@[j].tombstoned == (pre[j].tombstoned || del_targets(
                        ev@,
                        pre[j].event,
                    )),
                forall|j: int| i <= j < pre.len() ==> self@[j].tombstoned == pre[j].tombstoned,
            decreases pre.len() - i,
        {
            let t = is_targeted(ev, &self.events[i].event);
            if t {
                self.events[i].tombstoned = true;
            }
            proof {
                assert(self@[i as int].tombstoned == (pre[i as int].tombstoned || del_targets(
                    ev@,
                    pre[i as int].event,
                )));
            }
            i += 1;
        }
        proof {
            assert forall|a: int, b: int| 0 <= a < b < self@.len() implies key_lt(
                self@[b].event,
                self@[a].event,
            ) by {
                assert(self@[a].event == pre[a].event);
                assert(self@[b].event == pre[b].event);
            }
            assert forall|a: int, b: int| 0 <= a < b < self@.len() implies self@[a].event.id
                != self@[b].event.id by {
                assert(self@[a].event == pre[a].event);
                assert(self@[b].event == pre[b].event);
            }
            assert forall|a: int| 0 <= a < self@.len() implies event_wf(
                #[trigger] self@[a].event,
            ) by {
                assert(self@[a].event == pre[a].event);
            }
            assert forall|e: EventView| visible(self@, e) implies (visible(pre, e) && !del_targets(
                ev@,
                e,
            )) by {
                let j = choose|j: int| 0 <= j < self@.len() && self@[j].event == e
                    && !self@[j].tombstoned;
                assert(pre[j].event == e && !pre[j].tombstoned);
            }
            assert forall|e: EventView| visible(pre, e) && !del_targets(ev@, e) implies visible(
                self@,
                e,
            ) by {
                let j = choose|j: int| 0 <= j < pre.len() && pre[j].event == e
                    && !pre[j].tombstoned;
                assert(self@[j].event == e && !self@[j].tombstoned);
            }
        }
    }
}

/// Whether a deletion event targets a stored event: authored by the same
/// key, with the target's id (lower-case hex) among the deletion's `e` tags.
pub open spec fn del_targets(d: EventView, e: EventView) -> bool {
    d.pubkey == e.pubkey && has_e_tag(d.tags, hex_of(e.id))
}

pub open spec fn has_e_tag(tags: Seq<Seq<Seq<char>>>, idhex: Seq<char>) -> bool {
    exists|i: int|
        0 <= i < tags.len() && tags[i].len() >= 2 && tags[i][0] == "e"@ && tags[i][1] == idhex
}

fn is_targeted(d: &Event, e: &Event) -> (r: bool)
    ensures
        r == del_targets(d@, e@),
{
    if !eq_bytes(&d.pubkey, &e.pubkey) {
        return false;
    }
    let idh = encode_hex(&e.id);
    let ename: String = String::from_str("e");
    let mut i: usize = 0;
    while i < d.tags.len()
        invariant
            i <= d.tags@.len(),
            d@.pubkey == e@.pubkey,
            ename@ == "e"@,
            idh@ == hex_of(e@.id),
            forall|j: int|
                0 <= j < i ==> !(d@.tags[j].len() >= 2 && d@.tags[j][0] == "e"@ && d@.tags[j][1]
                    == hex_of(e@.id)),
        decreases d.tags@.len() - i,
    {
        let tag = &d.tags[i];
        if tag.len() >= 2 {
            if tag[0].eq(&ename) {
                let tv = chars_of(tag[1].as_str());
                if eq_chars(&tv, &idh) {
                    proof {
                        assert(d@.tags[i as int] == d.tags@[i as int].deep_view());
                        assert(d@.tags[i as int].len() == d.tags@[i as int]@.len());
                        assert(d@.tags[i as int][0] == d.tags@[i as int]@[0]@);
                        assert(d@.tags[i as int][1] == d.tags@[i as int]@[1]@);
                        assert(has_e_tag(d@.tags, hex_of(e@.id)));
                    }
                    return true;
                }
            }
        }
        proof {
            assert(d@.tags[i as int] == d.tags@[i as int].deep_view());
            assert(d@.tags[i as int].len() == d.tags@[i as int]@.len());
            if d@.tags[i as int].len() >= 2 {
                assert(d@.tags[i as int][0] == d.tags@[i as int]@[0]@);
                assert(d@.tags[i as int][1] == d.tags@[i as int]@[1]@);
            }
        }
        i += 1;
    }
    false
}

/// The first value of the first `d` tag, or empty when there is none.
pub open spec fn dtag_from(tags: Seq<Seq<Seq<char>>>) -> Seq<char>
    decreases tags.len(),
{
    if tags.len() == 0 {
        Seq::empty()
    } else if tags[0].len() >= 2 && tags[0][0] == "d"@ {
        tags[0][1]
    } else {
        dtag_from(tags.skip(1))
    }
}

/// The scope distinguishing parameterized replaceable instances: the `d`
/// tag value for parameterized kinds, empty otherwise.
pub open spec fn repl_scope(e: EventView) -> Seq<char> {
    if is_param_replaceable_kind(e.kind) {
        dtag_from(e.tags)
    } else {
        Seq::empty()
    }
}

/// Whether two events compete for the same replacement key:
/// `(pubkey, kind)`, scoped by the `d` tag for parameterized kinds.
pub open spec fn same_rkey(a: EventView, b: EventView) -> bool {
    a.pubkey == b.pubkey && a.kind == b.kind && repl_scope(a) == repl_scope(b)
}

/// A candidate for a replacement key after publishing `v` over store `s`:
/// a previously visible instance, or `v` itself.
pub open spec fn repl_cand(s: Seq<StoredEventView>, v: EventView, e: EventView) -> bool {
    same_rkey(e, v) && (visible(s, e) || e == v)
}

/// The candidate that survives: it beats every other candidate.
pub open spec fn repl_winner(s: Seq<StoredEventView>, v: EventView, e: EventView) -> bool {
    repl_cand(s, v, e) && (forall|o: EventView|
        repl_cand(s, v, o) && o.id != e.id ==> wins(e, o))
}

/// What a replacement publish does to the store: the new event is stored,
/// visibility elsewhere is untouched, and within the replacement key
/// exactly the winner is queryable.
pub open spec fn replace_effect(
    pre: Seq<StoredEventView>,
    post: Seq<StoredEventView>,
    v: EventView,
) -> bool {
    &&& forall|e: EventView| stored(post, e) <==> (stored(pre, e) || e == v)
    &&& forall|e: EventView| !same_rkey(e, v) ==> (visible(post, e) <==> visible(pre, e))
    &&& forall|e: EventView| same_rkey(e, v) ==> (visible(post, e) <==> repl_winner(pre, v, e))
}

fn dtag_chars(e: &Event) -> (r: Vec<char>)
    ensures
        r@ == dtag_from(e@.tags),
{
    let dname: String = String::from_str("d");
    let mut i: usize = 0;
    proof {
        assert(e@.tags.skip(0) =~= e@.tags);
    }
    while i < e.tags.len()
        invariant
            i <= e.tags@.len(),
            dname@ == "d"@,
            dtag_from(e@.tags) == dtag_from(e@.tags.skip(i as int)),
        decreases e.tags@.len() - i,
    {
        let ghost ss = e@.tags.skip(i as int);
        proof {
            assert(ss[0] == e@.tags[i as int]);
            assert(ss.skip(1) =~= e@.tags.skip(i + 1));
            assert(e@.tags[i as int] == e.tags@[i as int].deep_view());
            assert(e@.tags[i as int].len() == e.tags@[i as int]@.len());
            if e@.tags[i as int].len() >= 2 {
                assert(e@.tags[i as int][0] == e.tags@[i as int]@[0]@);
                assert(e@.tags[i as int][1] == e.tags@[i as int]@[1]@);
            }
        }
        let tag = &e.tags[i];
        if tag.len() >= 2 {
            if tag[0].eq(&dname) {
                let r = chars_of(tag[1].as_str());
                proof {
                    assert(dtag_from(ss) == ss[0][1]);
                }
                return r;
            }
        }
        i += 1;
    }
    proof {
        assert(e@.tags.skip(i as int).len() == 0);
        assert(dtag_from(e@.tags.skip(i as int)) == Seq::<char>::empty());
    }
    let r: Vec<char> = Vec::new();
    proof {
        assert(r@ =~= dtag_from(e@.tags));
    }
    r
}

fn scope_chars(e: &Event) -> (r: Vec<char>)
    ensures
        r@ == repl_scope(e@),
{
    if crate::event::param_replaceable_kind(e.kind) {
        dtag_chars(e)
    } else {
        let r: Vec<char> = Vec::new();
        proof {
            assert(r@ =~= Seq::<char>::empty());
        }
        r
    }
}

fn same_rkey_ev(a: &Event, b: &Event) -> (r: bool)
    ensures
        r == same_rkey(a@, b@),
{
    if !eq_bytes(&a.pubkey, &b.pubkey) {
        return false;
    }
    if a.kind != b.kind {
        return false;
    }
    let sa = scope_chars(a);
    let sb = scope_chars(b);
    eq_chars(&sa, &sb)
}

/// Idempotence at the store level: once an event is inserted at any
/// position, its id is present, so a later `put` or `replace_if_newer` of
/// the same event reports `Duplicate` and leaves the store unchanged, by
/// those functions' contracts.
pub proof fn lemma_put_then_duplicate(
    pre: Seq<StoredEventView>,
    post: Seq<StoredEventView>,
    ev: EventView,
    k: int,
)
    requires
        0 <= k <= pre.len(),
        post == pre.insert(k, StoredEventView { event: ev, tombstoned: false }),
    ensures
        has_id(post, ev.id),
{
    assert(post[k].event.id == ev.id);
}

/// Replacement converges: publishing two instances of one replacement key
/// over a store with no prior instance leaves, in either order, exactly the
/// instance with the newer creation time (ties toward the smaller id)
/// queryable, and the other one not. The hypotheses are exactly what two
/// `Inserted` outcomes of `replace_if_newer` report: each publish had its
/// stated effect, and the second one's id was not yet present (else it
/// would have been a `Duplicate`).
pub proof fn lemma_replacement_converges(
    s0: Seq<StoredEventView>,
    s1: Seq<StoredEventView>,
    s2: Seq<StoredEventView>,
    x: EventView,
    y: EventView,
)
    requires
        same_rkey(x, y),
        !has_id(s1, y.id),
        replace_effect(s0, s1, x),
        replace_effect(s1, s2, y),
        forall|e: EventView| same_rkey(e, x) ==> !visible(s0, e),
    ensures
        wins(x, y) ==> visible(s2, x) && !visible(s2, y),
        !wins(x, y) ==> visible(s2, y) && !visible(s2, x),
        forall|e: EventView| same_rkey(e, x) && e != x && e != y ==> !visible(s2, e),
{
    assert(stored(s1, x));
    let xi = choose|i: int| 0 <= i < s1.len() && s1[i].event == x;
    assert(s1[xi].event.id == x.id);
    if x.id == y.id {
        assert(has_id(s1, y.id));
    }
    assert(x.id != y.id);
    lemma_wins_total(x, y);
    assert(repl_cand(s0, x, x));
    assert forall|o: EventView| repl_cand(s0, x, o) implies o == x by {}
    assert(repl_winner(s0, x, x));
    assert(visible(s1, x));
    assert forall|e: EventView| same_rkey(e, x) && e != x implies !visible(s1, e) by {
        if visible(s1, e) {
            assert(repl_winner(s0, x, e));
            assert(repl_cand(s0, x, e));
        }
    }
    assert forall|o: EventView| repl_cand(s1, y, o) implies (o == x || o == y) by {}
    assert(repl_cand(s1, y, x));
    assert(repl_cand(s1, y, y));
    if wins(x, y) {
        assert forall|o: EventView| repl_cand(s1, y, o) && o.id != x.id implies wins(x, o) by {}
        assert(repl_winner(s1, y, x));
        assert(visible(s2, x));
        lemma_wins_asym(x, y);
        assert(!repl_winner(s1, y, y));
        assert(!visible(s2, y));
    } else {
        assert(wins(y, x));
        assert forall|o: EventView| repl_cand(s1, y, o) && o.id != y.id implies wins(y, o) by {}
        assert(repl_winner(s1, y, y));
        assert(visible(s2, y));
        lemma_wins_asym(y, x);
        assert(!repl_winner(s1, y, x));
        assert(!visible(s2, x));
    }
    assert forall|e: EventView| same_rkey(e, x) && e != x && e != y implies !visible(s2, e) by {
        if visible(s2, e) {
            assert(repl_winner(s1, y, e));
            assert(repl_cand(s1, y, e));
        }
    }
}

/// The views of a list of events.
pub open spec fn views_of_events(s: Seq<Event>) -> Seq<EventView> {
    Seq::new(s.len(), |i: int| s[i]@)
}

/// Whether a stored entry is queryable under a filter set.
pub open spec fn vis_match(se: StoredEventView, fs: Seq<FilterView>) -> bool {
    !se.tombstoned && any_filter_matches(fs, se.event)
}

/// What a query returns: the first `n` queryable matching entries, in
/// storage order.
pub open spec fn query_spec(s: Seq<StoredEventView>, fs: Seq<FilterView>, n: nat) -> Seq<
    EventView,
>
    decreases s.len(),
{
    if s.len() == 0 || n == 0 {
        Seq::empty()
    } else if vis_match(s[0], fs) {
        seq![s[0].event] + query_spec(s.skip(1), fs, (n - 1) as nat)
    } else {
        query_spec(s.skip(1), fs, n)
    }
}

/// Queries are bounded, return only visible matching events, keep storage
/// order (newest first), and never return one event twice.
pub proof fn lemma_query_props(s: Seq<StoredEventView>, fs: Seq<FilterView>, n: nat)
    requires
        store_wf(s),
    ensures
        query_spec(s, fs, n).len() <= n,
        forall|i: int|
            0 <= i < query_spec(s, fs, n).len() ==> visible(s, #[trigger] query_spec(s, fs, n)[i])
                && any_filter_matches(fs, query_spec(s, fs, n)[i]),
        forall|i: int, j: int|
            0 <= i < j < query_spec(s, fs, n).len() ==> key_lt(
                query_spec(s, fs, n)[j],
                query_spec(s, fs, n)[i],
            ),
        forall|i: int, j: int|
            0 <= i < j < query_spec(s, fs, n).len() ==> query_spec(s, fs, n)[i].id != query_spec(
                s,
                fs,
                n,
            )[j].id,
    decreases s.len(),
{
    if s.len() == 0 || n == 0 {
    } else {
        let t = s.skip(1);
        assert forall|i: int| 0 <= i < t.len() implies t[i] == s[i + 1] by {}
        assert(store_wf(t));
        lemma_query_props(t, fs, (n - 1) as nat);
        lemma_query_props(t, fs, n);
        let res = query_spec(s, fs, n);
        if vis_match(s[0], fs) {
            let rec = query_spec(t, fs, (n - 1) as nat);
            assert(res == seq![s[0].event] + rec);
            assert(res[0] == s[0].event);
            assert forall|i: int| 0 < i < res.len() implies res[i] == rec[i - 1] by {}
            assert(visible(s, s[0].event));
            assert forall|e: EventView| visible(t, e) implies visible(s, e) by {
                let j = choose|j: int| 0 <= j < t.len() && t[j].event == e && !t[j].tombstoned;
                assert(s[j + 1].event == e && !s[j + 1].tombstoned);
            }
            assert forall|i: int| 0 < i < res.len() implies key_lt(res[i], res[0]) && res[0].id
                != res[i].id by {
                assert(visible(t, rec[i - 1]));
                let j = choose|j: int|
                    0 <= j < t.len() && t[j].event == rec[i - 1] && !t[j].tombstoned;
                assert(s[j + 1].event == rec[i - 1]);
                assert(key_lt(s[j + 1].event, s[0].event));
                assert(s[0].event.id != s[j + 1].event.id);
            }
        } else {
            assert(res == query_spec(t, fs, n));
            assert forall|e: EventView| visible(t, e) implies visible(s, e) by {
                let j = choose|j: int| 0 <= j < t.len() && t[j].event == e && !t[j].tombstoned;
                assert(s[j + 1].event == e && !s[j + 1].tombstoned);
            }
        }
    }
}

} // verus!
