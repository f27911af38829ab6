//! Subscription filters: a declarative predicate over events. All present
//! fields are ANDed; within a field, values are ORed; an empty filter
//! matches every event. `limit` only bounds historical queries and plays no
//! part in matching.
use vstd::prelude::*;

verus! {

use crate::event::Event;
use crate::event::EventView;
use crate::hexcode::hex_of;
use crate::hexcode::encode_hex;
use crate::text::is_prefix;
use crate::text::starts_with;
use crate::text::clone_chars;
use crate::text::clone_strings;

/// One tag condition: the event must carry a tag with this name whose first
/// value is among `values`. An empty value set matches no event.
pub struct TagQuery {
    pub name: String,
    pub values: Vec<String>,
}

pub struct TagQueryView {
    pub name: Seq<char>,
    pub values: Seq<Seq<char>>,
}

impl View for TagQuery {
    type V = TagQueryView;

    open spec fn view(&self) -> TagQueryView {
        TagQueryView { name: self.name@, values: self.values.deep_view() }
    }
}

/// A query predicate. `ids` and `authors` hold lower-case hex prefixes.
pub struct Filter {
    pub ids: Vec<Vec<char>>,
    pub authors: Vec<Vec<char>>,
    pub kinds: Vec<u64>,
    pub since: Option<i64>,
    pub until: Option<i64>,
    pub tags: Vec<TagQuery>,
    pub limit: Option<usize>,
}

pub struct FilterView {
    pub ids: Seq<Seq<char>>,
    pub authors: Seq<Seq<char>>,
    pub kinds: Seq<u64>,
    pub since: Option<i64>,
    pub until: Option<i64>,
    pub tags: Seq<TagQueryView>,
    pub limit: Option<usize>,
}

impl View for Filter {
    type V = FilterView;

    open spec fn view(&self) -> FilterView {
        FilterView {
            ids: self.ids.deep_view(),
            authors: self.authors.deep_view(),
            kinds: self.kinds@,
            since: self.since,
            until: self.until,
            tags: Seq::new(self.tags@.len(), |i: int| self.tags@[i]@),
            limit: self.limit,
        }
    }
}

/// Whether one tag entry of an event satisfies a tag condition: same name,
/// and the entry's first (indexed) value among the accepted values.
pub open spec fn tag_entry_matches(q: TagQueryView, tag: Seq<Seq<char>>) -> bool {
    tag.len() >= 2 && tag[0] == q.name && q.values.contains(tag[1])
}

pub open spec fn tag_query_matches(q: TagQueryView, e: EventView) -> bool {
    exists|j: int| 0 <= j < e.tags.len() && tag_entry_matches(q, e.tags[j])
}

/// The filter predicate: all present fields must hold, each field accepting
/// any one of its values. A filter with no restricting field matches all.
pub open spec fn filter_matches(f: FilterView, e: EventView) -> bool {
    &&& (f.ids.len() == 0 || exists|i: int|
        0 <= i < f.ids.len() && is_prefix(f.ids[i], hex_of(e.id)))
    &&& (f.authors.len() == 0 || exists|i: int|
        0 <= i < f.authors.len() && is_prefix(f.authors[i], hex_of(e.pubkey)))
    &&& (f.kinds.len() == 0 || f.kinds.contains(e.kind))
    &&& (f.since matches Some(t) ==> e.created_at >= t)
    &&& (f.until matches Some(t) ==> e.created_at <= t)
    &&& (forall|i: int| 0 <= i < f.tags.len() ==> tag_query_matches(f.tags[i], e))
}

fn any_prefix_of(prefixes: &Vec<Vec<char>>, target: &Vec<char>) -> (r: bool)
    ensures
        r == exists|i: int|
            0 <= i < prefixes.deep_view().len() && is_prefix(prefixes.deep_view()[i], target@),
{
    let mut i: usize = 0;
    while i < prefixes.len()
        invariant
            i <= prefixes@.len(),
            forall|j: int| 0 <= j < i ==> !is_prefix(prefixes.deep_view()[j], target@),
        decreases prefixes@.len() - i,
    {
        proof {
            assert(prefixes.deep_view()[i as int] =~= prefixes@[i as int]@);
        }
        if starts_with(&prefixes[i], target) {
            proof {
                assert(is_prefix(prefixes.deep_view()[i as int], target@));
            }
            return true;
        }
        i += 1;
    }
    false
}

fn kinds_contain(kinds: &Vec<u64>, k: u64) -> (r: bool)
    ensures
        r == kinds@.contains(k),
{
    let mut i: usize = 0;
    while i < kinds.len()
        invariant
            i <= kinds@.len(),
            forall|j: int| 0 <= j < i ==> kinds@[j] != k,
        decreases kinds@.len() - i,
    {
        if kinds[i] == k {
            return true;
        }
        i += 1;
    }
    proof {
        assert(!kinds@.contains(k));
    }
    false
}

fn values_contain(values: &Vec<String>, s: &String) -> (r: bool)
    ensures
        r == values.deep_view().contains(s@),
{
    let mut i: usize = 0;
    while i < values.len()
        invariant
            i <= values@.len(),
            forall|j: int| 0 <= j < i ==> values.deep_view()[j] != s@,
        decreases values@.len() - i,
    {
        if values[i].eq(s) {
            proof {
                assert(values.deep_view()[i as int] == s@);
            }
            return true;
        }
        i += 1;
    }
    proof {
        assert(!values.deep_view().contains(s@));
    }
    false
}

fn tag_query_holds(q: &TagQuery, e: &Event) -> (r: bool)
    ensures
        r == tag_query_matches(q@, e@),
{
    let mut j: usize = 0;
    while j < e.tags.len()
        invariant
            j <= e.tags@.len(),
            forall|t: int| 0 <= t < j ==> !tag_entry_matches(q@, e@.tags[t]),
        decreases e.tags@.len() - j,
    {
        let tag = &e.tags[j];
        if tag.len() >= 2 {
            if tag[0].eq(&q.name) {
                if values_contain(&q.values, &tag[1]) {
                    proof {
                        assert(e@.tags[j as int] == e.tags@[j as int].deep_view());
                        assert(e@.tags[j as int][0] == e.tags@[j as int]@[0]@);
                        assert(e@.tags[j as int][1] == e.tags@[j as int]@[1]@);
                        assert(tag_entry_matches(q@, e@.tags[j as int]));
                    }
                    return true;
                }
            }
        }
        proof {
            assert(e@.tags[j as int] == e.tags@[j as int].deep_view());
            assert(!tag_entry_matches(q@, e@.tags[j as int]));
        }
        j += 1;
    }
    false
}

/// Evaluate the filter against an event.
pub fn event_matches(f: &Filter, e: &Event) -> (r: bool)
    ensures
        r == filter_matches(f@, e@),
{
    if f.ids.len() > 0 {
        let id_hex = encode_hex(&e.id);
        if !any_prefix_of(&f.ids, &id_hex) {
            return false;
        }
    }
    if f.authors.len() > 0 {
        let pk_hex = encode_hex(&e.pubkey);
        if !any_prefix_of(&f.authors, &pk_hex) {
            return false;
        }
    }
    if f.kinds.len() > 0 {
        if !kinds_contain(&f.kinds, e.kind) {
            return false;
        }
    }
    match f.since {
        Some(t) => {
            if e.created_at < t {
                return false;
            }
        },
        None => {},
    }
    match f.until {
        Some(t) => {
            if e.created_at > t {
                return false;
            }
        },
        None => {},
    }
    let mut i: usize = 0;
    while i < f.tags.len()
        invariant
            i <= f.tags@.len(),
            forall|j: int| 0 <= j < i ==> tag_query_matches(f@.tags[j], e@),
        decreases f.tags@.len() - i,
    {
        if !tag_query_holds(&f.tags[i], e) {
            proof {
                assert(!tag_query_matches(f@.tags[i as int], e@));
            }
            return false;
        }
        i += 1;
    }
    true
}

pub open spec fn views_of_filters(s: Seq<Filter>) -> Seq<FilterView> {
    Seq::new(s.len(), |i: int| s[i]@)
}

/// Whether an event matches any one filter of a subscription's set.
pub open spec fn any_filter_matches(fs: Seq<FilterView>, e: EventView) -> bool {
    exists|i: int| 0 <= i < fs.len() && filter_matches(fs[i], e)
}

/// Evaluate a filter set: OR across filters.
pub fn matches_any(fs: &Vec<Filter>, e: &Event) -> (r: bool)
    ensures
        r == any_filter_matches(views_of_filters(fs@), e@),
{
    let mut i: usize = 0;
    while i < fs.len()
        invariant
            i <= fs@.len(),
            forall|j: int| 0 <= j < i ==> !filter_matches(views_of_filters(fs@)[j], e@),
        decreases fs@.len() - i,
    {
        if event_matches(&fs[i], e) {
            proof {
                assert(filter_matches(views_of_filters(fs@)[i as int], e@));
            }
            return true;
        }
        i += 1;
    }
    false
}

fn clone_char_lists(v: &Vec<Vec<char>>) -> (r: Vec<Vec<char>>)
    ensures
        r.deep_view() == v.deep_view(),
{
    let mut out: Vec<Vec<char>> = Vec::new();
    let mut i: usize = 0;
    while i < v.len()
        invariant
            i <= v@.len(),
            out@.len() == i,
            forall|j: int| 0 <= j < i ==> out@[j]@ == v@[j]@,
        decreases v@.len() - i,
    {
        out.push(clone_chars(&v[i]));
        i += 1;
    }
    proof {
        assert(out.deep_view() =~= v.deep_view());
    }
    out
}

fn clone_kinds(v: &Vec<u64>) -> (r: Vec<u64>)
    ensures
        r@ == v@,
{
    let mut out: Vec<u64> = Vec::new();
    let mut i: usize = 0;
    while i < v.len()
        invariant
            i <= v@.len(),
            out@.len() == i,
            forall|j: int| 0 <= j < i ==> out@[j] == v@[j],
        decreases v@.len() - i,
    {
        out.push(v[i]);
        i += 1;
    }
    proof {
        assert(out@ =~= v@);
    }
    out
}

/// An owned copy of a filter, equal in view.
pub fn clone_filter(f: &Filter) -> (r: Filter)
    ensures
        r@ == f@,
{
    let mut tags: Vec<TagQuery> = Vec::new();
    let mut i: usize = 0;
    while i < f.tags.len()
        invariant
            i <= f.tags@.len(),
            tags@.len() == i,
            forall|j: int| 0 <= j < i ==> tags@[j]@ == f.tags@[j]@,
        decreases f.tags@.len() - i,
    {
        let q = &f.tags[i];
        tags.push(TagQuery { name: q.name.clone(), values: clone_strings(&q.values) });
        i += 1;
    }
    let r = Filter {
        ids: clone_char_lists(&f.ids),
        authors: clone_char_lists(&f.authors),
        kinds: clone_kinds(&f.kinds),
        since: f.since,
        until: f.until,
        tags,
        limit: f.limit,
    };
    proof {
        assert(Seq::new(r.tags@.len(), |i: int| r.tags@[i]@) =~= Seq::new(
            f.tags@.len(),
            |i: int| f.tags@[i]@,
        ));
    }
    r
}

/// An owned copy of a filter list, equal in view.
pub fn clone_filters(fs: &Vec<Filter>) -> (r: Vec<Filter>)
    ensures
        views_of_filters(r@) == views_of_filters(fs@),
{
    let mut out: Vec<Filter> = Vec::new();
    let mut i: usize = 0;
    while i < fs.len()
        invariant
            i <= fs@.len(),
            out@.len() == i,
            forall|j: int| 0 <= j < i ==> out@[j]@ == fs@[j]@,
        decreases fs@.len() - i,
    {
        out.push(clone_filter(&fs[i]));
        i += 1;
    }
    proof {
        assert(views_of_filters(out@) =~= views_of_filters(fs@));
    }
    out
}

} // verus!
