use nostr_relay::chars_of;
use nostr_relay::event::Event;
use nostr_relay::filter::event_matches;
use nostr_relay::filter::Filter;
use nostr_relay::filter::TagQuery;
use nostr_relay::store::PutOutcome;
use nostr_relay::store::Store;

fn empty_filter() -> Filter {
    Filter {
        ids: vec![],
        authors: vec![],
        kinds: vec![],
        since: None,
        until: None,
        tags: vec![],
        limit: None,
    }
}

fn mk_event(id_byte: u8, pubkey_byte: u8, created_at: i64, kind: u64) -> Event {
    Event {
        id: vec![id_byte; 32],
        pubkey: vec![pubkey_byte; 32],
        created_at,
        kind,
        tags: vec![],
        content: String::new(),
        sig: vec![0; 64],
    }
}

#[test]
fn filter_algebra() {
    let mut f = empty_filter();
    f.kinds = vec![1];
    f.since = Some(100);
    let cases = [(1u64, 50i64, false), (1, 150, true), (2, 150, false), (2, 50, false)];
    for (kind, ts, expect) in cases {
        let e = mk_event(9, 7, ts, kind);
        assert_eq!(event_matches(&f, &e), expect);
    }
}

#[test]
fn empty_filter_matches_everything() {
    let f = empty_filter();
    assert!(event_matches(&f, &mk_event(1, 2, -77, 40000)));
    assert!(event_matches(&f, &mk_event(0, 0, 0, 0)));
}

#[test]
fn id_and_author_prefixes() {
    let mut f = empty_filter();
    let e = mk_event(0xab, 0xcd, 5, 1);
    f.ids = vec![chars_of("abab")];
    assert!(event_matches(&f, &e));
    f.ids = vec![chars_of("abac")];
    assert!(!event_matches(&f, &e));
    f.ids = vec![];
    f.authors = vec![chars_of("cd")];
    assert!(event_matches(&f, &e));
    f.authors = vec![chars_of("ce")];
    assert!(!event_matches(&f, &e));
}

#[test]
fn until_bound() {
    let mut f = empty_filter();
    f.until = Some(100);
    assert!(event_matches(&f, &mk_event(1, 1, 100, 1)));
    assert!(!event_matches(&f, &mk_event(1, 1, 101, 1)));
}

#[test]
fn tag_filter_matches_first_value() {
    let mut e = mk_event(1, 1, 5, 1);
    e.tags = vec![vec!["t".to_string(), "x".to_string(), "extra".to_string()]];
    let mut f = empty_filter();
    f.tags = vec![TagQuery { name: "t".to_string(), values: vec!["x".to_string()] }];
    assert!(event_matches(&f, &e));
    f.tags = vec![TagQuery { name: "t".to_string(), values: vec!["y".to_string()] }];
    assert!(!event_matches(&f, &e));
    f.tags = vec![TagQuery { name: "u".to_string(), values: vec!["x".to_string()] }];
    assert!(!event_matches(&f, &e));
}

#[test]
fn tag_filter_with_empty_value_set_matches_nothing() {
    let mut e = mk_event(1, 1, 5, 1);
    e.tags = vec![vec!["t".to_string(), "x".to_string()]];
    let mut f = empty_filter();
    f.tags = vec![TagQuery { name: "t".to_string(), values: vec![] }];
    assert!(!event_matches(&f, &e));
}

#[test]
fn put_is_idempotent_and_query_returns_once() {
    let mut store = Store::new(100);
    let e = mk_event(1, 2, 10, 1);
    assert_eq!(store.put(e), PutOutcome::Inserted);
    let again = mk_event(1, 2, 10, 1);
    assert_eq!(store.put(again), PutOutcome::Duplicate);
    let res = store.query(&vec![empty_filter()], 100);
    assert_eq!(res.len(), 1);
    assert_eq!(res[0].id, vec![1u8; 32]);
}

#[test]
fn query_orders_newest_first_with_id_tiebreak() {
    let mut store = Store::new(100);
    assert_eq!(store.put(mk_event(1, 2, 10, 1)), PutOutcome::Inserted);
    assert_eq!(store.put(mk_event(2, 2, 30, 1)), PutOutcome::Inserted);
    assert_eq!(store.put(mk_event(3, 2, 20, 1)), PutOutcome::Inserted);
    assert_eq!(store.put(mk_event(4, 2, 20, 1)), PutOutcome::Inserted);
    let res = store.query(&vec![empty_filter()], 100);
    let ids: Vec<u8> = res.iter().map(|e| e.id[0]).collect();
    // newest first; among the two at time 20 the larger id comes first
    assert_eq!(ids, vec![2, 4, 3, 1]);
    let limited = store.query(&vec![empty_filter()], 2);
    assert_eq!(limited.len(), 2);
    assert_eq!(limited[0].id[0], 2);
    assert_eq!(limited[1].id[0], 4);
}

#[test]
fn query_respects_server_max_limit() {
    let mut store = Store::new(1);
    assert_eq!(store.put(mk_event(1, 2, 10, 1)), PutOutcome::Inserted);
    assert_eq!(store.put(mk_event(2, 2, 30, 1)), PutOutcome::Inserted);
    let res = store.query(&vec![empty_filter()], 100);
    assert_eq!(res.len(), 1);
    assert_eq!(res[0].id[0], 2);
}

#[test]
fn query_pagination_restarts_with_lower_until() {
    let mut store = Store::new(100);
    for i in 1..=4u8 {
        assert_eq!(store.put(mk_event(i, 2, i as i64, 1)), PutOutcome::Inserted);
    }
    let page1 = store.query(&vec![empty_filter()], 2);
    let ids1: Vec<u8> = page1.iter().map(|e| e.id[0]).collect();
    assert_eq!(ids1, vec![4, 3]);
    let mut f = empty_filter();
    f.until = Some(page1[1].created_at - 1);
    let page2 = store.query(&vec![f], 2);
    let ids2: Vec<u8> = page2.iter().map(|e| e.id[0]).collect();
    assert_eq!(ids2, vec![2, 1]);
}

#[test]
fn replacement_newer_wins_in_order() {
    let mut store = Store::new(100);
    assert_eq!(store.replace_if_newer(mk_event(1, 7, 10, 0)), PutOutcome::Inserted);
    assert_eq!(store.replace_if_newer(mk_event(2, 7, 20, 0)), PutOutcome::Inserted);
    let res = store.query(&vec![empty_filter()], 100);
    assert_eq!(res.len(), 1);
    assert_eq!(res[0].id[0], 2);
    assert_eq!(res[0].created_at, 20);
}

#[test]
fn replacement_newer_wins_out_of_order() {
    let mut store = Store::new(100);
    assert_eq!(store.replace_if_newer(mk_event(2, 7, 20, 0)), PutOutcome::Inserted);
    assert_eq!(store.replace_if_newer(mk_event(1, 7, 10, 0)), PutOutcome::Inserted);
    let res = store.query(&vec![empty_filter()], 100);
    assert_eq!(res.len(), 1);
    assert_eq!(res[0].created_at, 20);
}

#[test]
fn replacement_tie_smaller_id_wins() {
    let mut store = Store::new(100);
    assert_eq!(store.replace_if_newer(mk_event(9, 7, 20, 0)), PutOutcome::Inserted);
    assert_eq!(store.replace_if_newer(mk_event(3, 7, 20, 0)), PutOutcome::Inserted);
    let res = store.query(&vec![empty_filter()], 100);
    assert_eq!(res.len(), 1);
    assert_eq!(res[0].id[0], 3);
}

#[test]
fn replacement_scoped_by_author_and_d_tag() {
    let mut store = Store::new(100);
    // different authors never replace each other
    assert_eq!(store.replace_if_newer(mk_event(1, 7, 10, 0)), PutOutcome::Inserted);
    assert_eq!(store.replace_if_newer(mk_event(2, 8, 20, 0)), PutOutcome::Inserted);
    assert_eq!(store.query(&vec![empty_filter()], 100).len(), 2);
    // parameterized kinds are scoped by the d tag value
    let mut a = mk_event(3, 9, 10, 30000);
    a.tags = vec![vec!["d".to_string(), "one".to_string()]];
    let mut b = mk_event(4, 9, 20, 30000);
    b.tags = vec![vec!["d".to_string(), "two".to_string()]];
    assert_eq!(store.replace_if_newer(a), PutOutcome::Inserted);
    assert_eq!(store.replace_if_newer(b), PutOutcome::Inserted);
    assert_eq!(store.query(&vec![empty_filter()], 100).len(), 4);
}

#[test]
fn deletion_tombstones_targets_of_same_author() {
    let mut store = Store::new(100);
    let target = mk_event(0xaa, 7, 10, 1);
    let target_id_hex: String = std::iter::repeat("aa").take(32).collect();
    assert_eq!(store.put(target), PutOutcome::Inserted);
    let mut wrong_author = mk_event(2, 8, 20, 5);
    wrong_author.tags = vec![vec!["e".to_string(), target_id_hex.clone()]];
    store.delete(&wrong_author);
    assert_eq!(store.query(&vec![empty_filter()], 100).len(), 1);
    let mut deletion = mk_event(3, 7, 20, 5);
    deletion.tags = vec![vec!["e".to_string(), target_id_hex]];
    store.delete(&deletion);
    assert_eq!(store.query(&vec![empty_filter()], 100).len(), 0);
}
