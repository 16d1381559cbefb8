use fly::fact::{str_lower_than, Fact};
use fly::fact_store::FactStore;
use fly::gossip::{gossip_batch, insert_sorted};
use fly::peer_view::{lowest_id, star_views, PeerViews};

#[test]
fn insert_is_idempotent() {
    let mut store: FactStore<usize> = FactStore::new();
    assert!(store.insert(7));
    assert_eq!(store.len(), 1);
    assert!(!store.insert(7));
    assert_eq!(store.len(), 1);
    assert!(store.contains(&7));
    assert_eq!(store.to_vec(), vec![7]);
}

#[test]
fn store_keeps_insertion_order() {
    let mut store: FactStore<usize> = FactStore::new();
    for v in [5, 1, 9, 1, 5] {
        store.insert(v);
    }
    assert_eq!(store.to_vec(), vec![5, 1, 9]);
    assert_eq!(*store.get(2), 9);
}

#[test]
fn strings_compare_by_code_point() {
    assert!(str_lower_than("n0", "n1"));
    assert!(str_lower_than("n1", "n10"));
    assert!(str_lower_than("n10", "n2"));
    assert!(!str_lower_than("n2", "n2"));
    assert!(str_lower_than("", "a"));
    assert!(!str_lower_than("a", ""));
    assert!(str_lower_than("Z", "a"));
}

#[test]
fn operations_order_by_origin_then_ids() {
    let a = ("n1".to_string(), 2usize, 9usize);
    let b = ("n1".to_string(), 3usize, 0usize);
    let c = ("n2".to_string(), 0usize, 0usize);
    let d = ("n1".to_string(), 2usize, 10usize);
    assert!(a.lower_than(&b));
    assert!(b.lower_than(&c));
    assert!(a.lower_than(&d));
    assert!(!d.lower_than(&a));
    assert!(a.same_as(&a.duplicate()));
    assert!(!a.same_as(&d));
}

#[test]
fn sorted_insertion_drops_duplicates() {
    let mut v: Vec<usize> = Vec::new();
    for x in [4, 1, 9, 4, 0, 9] {
        insert_sorted(&mut v, x);
    }
    assert_eq!(v, vec![0, 1, 4, 9]);
}

#[test]
fn batch_is_missing_plus_sample() {
    let mut store: FactStore<usize> = FactStore::new();
    for v in [30, 10, 20, 40] {
        store.insert(v);
    }
    let mut seen: FactStore<usize> = FactStore::new();
    seen.insert(10);
    seen.insert(40);
    assert_eq!(gossip_batch(&store, &seen, &vec![]), Some(vec![20, 30]));
    assert_eq!(gossip_batch(&store, &seen, &vec![3, 1]), Some(vec![10, 20, 30, 40]));
    assert_eq!(gossip_batch(&store, &seen, &vec![2]), Some(vec![20, 30]));
}

#[test]
fn batch_is_skipped_only_for_equal_view() {
    let mut store: FactStore<usize> = FactStore::new();
    store.insert(1);
    store.insert(2);
    let mut seen: FactStore<usize> = FactStore::new();
    seen.insert(2);
    seen.insert(1);
    assert_eq!(gossip_batch(&store, &seen, &vec![0]), None);
    let empty: FactStore<usize> = FactStore::new();
    assert_eq!(gossip_batch(&empty, &empty, &vec![]), None);
    let mut extra: FactStore<usize> = FactStore::new();
    extra.insert(1);
    extra.insert(2);
    extra.insert(3);
    assert_eq!(gossip_batch(&store, &extra, &vec![]), Some(vec![]));
}

#[test]
fn lowest_id_is_lexical_minimum() {
    let known = vec!["n3".to_string(), "n10".to_string(), "n2".to_string()];
    assert_eq!(lowest_id(&"n4".to_string(), &known), "n10");
    assert_eq!(lowest_id(&"a".to_string(), &known), "a");
    assert_eq!(lowest_id(&"n9".to_string(), &vec![]), "n9");
}

fn peers_of(v: &PeerViews<usize>) -> Vec<String> {
    let mut r: Vec<String> = (0..v.len()).map(|i| v.peer(i).clone()).collect();
    r.sort();
    r
}

#[test]
fn star_policy_root_and_leaves() {
    let known = vec!["n0".to_string(), "n1".to_string(), "n2".to_string(), "n1".to_string()];
    let root: PeerViews<usize> = star_views(&"n0".to_string(), &known);
    assert_eq!(peers_of(&root), vec!["n1".to_string(), "n2".to_string()]);
    let leaf: PeerViews<usize> = star_views(&"n2".to_string(), &known);
    assert_eq!(peers_of(&leaf), vec!["n0".to_string()]);
    let alone: PeerViews<usize> = star_views(&"n0".to_string(), &vec!["n0".to_string()]);
    assert_eq!(alone.len(), 0);
}

#[test]
fn peer_views_track_and_record() {
    let mut v: PeerViews<usize> = PeerViews::new();
    v.track("n1".to_string());
    v.track("n2".to_string());
    assert_eq!(v.find(&"n2".to_string()), Some(1));
    assert_eq!(v.find(&"n3".to_string()), None);
    v.record(1, 8);
    v.record(1, 8);
    assert_eq!(v.seen_store(1).to_vec(), vec![8]);
    assert_eq!(v.seen_store(0).len(), 0);
}
