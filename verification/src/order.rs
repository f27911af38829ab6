//! The ordering of stored events: creation time first, then the event id
//! lexicographically. Queries return events newest first, ties broken by
//! larger id first; replacement ties are broken toward the smaller id.
use vstd::prelude::*;

verus! {

use crate::event::Event;
use crate::event::EventView;

/// Strict lexicographic order on byte strings; a proper prefix sorts first.
pub open spec fn lex_lt(a: Seq<u8>, b: Seq<u8>) -> bool
    decreases a.len(),
{
    if b.len() == 0 {
        false
    } else if a.len() == 0 {
        true
    } else if a[0] < b[0] {
        true
    } else if a[0] > b[0] {
        false
    } else {
        lex_lt(a.skip(1), b.skip(1))
    }
}

pub proof fn lemma_lex_total(a: Seq<u8>, b: Seq<u8>)
    requires
        a != b,
    ensures
        lex_lt(a, b) || lex_lt(b, a),
    decreases a.len(),
{
    if a.len() == 0 {
        if b.len() == 0 {
            assert(a =~= b);
        }
    } else if b.len() == 0 {
    } else if a[0] == b[0] {
        if a.skip(1) == b.skip(1) {
            assert(a.skip(1).len() == a.len() - 1);
            assert(b.skip(1).len() == b.len() - 1);
            assert(a.len() == b.len());
            assert forall|i: int| 0 <= i < a.len() implies a[i] == b[i] by {
                if i > 0 {
                    assert(a.skip(1)[i - 1] == a[i]);
                    assert(b.skip(1)[i - 1] == b[i]);
                }
            }
            assert(a =~= b);
        }
        lemma_lex_total(a.skip(1), b.skip(1));
    }
}

pub proof fn lemma_lex_asym(a: Seq<u8>, b: Seq<u8>)
    requires
        lex_lt(a, b),
    ensures
        !lex_lt(b, a),
        a != b,
    decreases a.len(),
{
    if a.len() == 0 {
    } else if a[0] == b[0] {
        lemma_lex_asym(a.skip(1), b.skip(1));
    }
}

pub proof fn lemma_lex_trans(a: Seq<u8>, b: Seq<u8>, c: Seq<u8>)
    requires
        lex_lt(a, b),
        lex_lt(b, c),
    ensures
        lex_lt(a, c),
    decreases a.len(),
{
    if a.len() == 0 {
    } else if b.len() == 0 {
    } else if a[0] == b[0] && b[0] == c[0] {
        lemma_lex_trans(a.skip(1), b.skip(1), c.skip(1));
    }
}

/// Compare two byte strings lexicographically.
pub fn lex_less(a: &Vec<u8>, b: &Vec<u8>) -> (r: bool)
    ensures
        r == lex_lt(a@, b@),
{
    let mut i: usize = 0;
    proof {
        assert(a@.skip(0) =~= a@);
        assert(b@.skip(0) =~= b@);
    }
    while i < a.len() && i < b.len()
        invariant
            i <= a@.len(),
            i <= b@.len(),
            forall|j: int| 0 <= j < i ==> a@[j] == b@[j],
            lex_lt(a@, b@) == lex_lt(a@.skip(i as int), b@.skip(i as int)),
        decreases a@.len() - i,
    {
        proof {
            let sa = a@.skip(i as int);
            let sb = b@.skip(i as int);
            assert(sa[0] == a@[i as int]);
            assert(sb[0] == b@[i as int]);
            assert(sa.skip(1) =~= a@.skip(i + 1));
            assert(sb.skip(1) =~= b@.skip(i + 1));
        }
        if a[i] < b[i] {
            return true;
        }
        if a[i] > b[i] {
            return false;
        }
        i += 1;
    }
    proof {
        let sa = a@.skip(i as int);
        let sb = b@.skip(i as int);
        assert(sa.len() == a@.len() - i);
        assert(sb.len() == b@.len() - i);
    }
    if i < b.len() {
        proof {
            assert(a@.skip(i as int).len() == 0);
            assert(b@.skip(i as int).len() > 0);
        }
        true
    } else {
        false
    }
}

/// The storage order: strictly older first, equal times ordered by id.
pub open spec fn key_lt(a: EventView, b: EventView) -> bool {
    a.created_at < b.created_at || (a.created_at == b.created_at && lex_lt(a.id, b.id))
}

pub proof fn lemma_key_total(a: EventView, b: EventView)
    requires
        a.id != b.id,
    ensures
        key_lt(a, b) || key_lt(b, a),
{
    if a.created_at == b.created_at {
        lemma_lex_total(a.id, b.id);
    }
}

pub proof fn lemma_key_asym(a: EventView, b: EventView)
    requires
        key_lt(a, b),
    ensures
        !key_lt(b, a),
{
    if a.created_at == b.created_at {
        lemma_lex_asym(a.id, b.id);
    }
}

pub proof fn lemma_key_trans(a: EventView, b: EventView, c: EventView)
    requires
        key_lt(a, b),
        key_lt(b, c),
    ensures
        key_lt(a, c),
{
    if a.created_at == b.created_at && b.created_at == c.created_at {
        lemma_lex_trans(a.id, b.id, c.id);
    }
}

/// Compare two events in storage order.
pub fn key_less(a: &Event, b: &Event) -> (r: bool)
    ensures
        r == key_lt(a@, b@),
{
    if a.created_at < b.created_at {
        true
    } else if a.created_at == b.created_at {
        lex_less(&a.id, &b.id)
    } else {
        false
    }
}

/// Which of two candidate instances of a replaceable key survives: the
/// newer creation time, ties broken toward the lexicographically smaller id.
pub open spec fn wins(a: EventView, b: EventView) -> bool {
    a.created_at > b.created_at || (a.created_at == b.created_at && lex_lt(a.id, b.id))
}

pub proof fn lemma_wins_total(a: EventView, b: EventView)
    requires
        a.id != b.id,
    ensures
        wins(a, b) || wins(b, a),
{
    if a.created_at == b.created_at {
        lemma_lex_total(a.id, b.id);
    }
}

pub proof fn lemma_wins_asym(a: EventView, b: EventView)
    requires
        wins(a, b),
    ensures
        !wins(b, a),
{
    if a.created_at == b.created_at {
        lemma_lex_asym(a.id, b.id);
    }
}

pub proof fn lemma_wins_trans(a: EventView, b: EventView, c: EventView)
    requires
        wins(a, b),
        wins(b, c),
    ensures
        wins(a, c),
{
    if a.created_at == b.created_at && b.created_at == c.created_at {
        lemma_lex_trans(a.id, b.id, c.id);
    }
}

/// Compare two candidate instances of a replaceable key.
pub fn wins_over(a: &Event, b: &Event) -> (r: bool)
    ensures
        r == wins(a@, b@),
{
    if a.created_at > b.created_at {
        true
    } else if a.created_at == b.created_at {
        lex_less(&a.id, &b.id)
    } else {
        false
    }
}

} // verus!
