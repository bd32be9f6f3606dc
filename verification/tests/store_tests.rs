use soclynk::heap::{PageHeap, FREE_OWNER, REGION_POSTS, REGION_USERS};
use soclynk::store::{store_get, store_insert, store_iterate, store_remove, StoreIndex};

fn insert(
    h: &mut PageHeap,
    s: &mut StoreIndex,
    r: u8,
    key: &[u8],
    val: &[u8],
) -> Option<Vec<u8>> {
    store_insert(h, s, r, key.to_vec(), val.to_vec()).unwrap()
}

#[test]
fn iterate_is_sorted_and_exact() {
    let mut h = PageHeap::new();
    let mut s = StoreIndex::new();
    insert(&mut h, &mut s, REGION_USERS, b"banana", b"2");
    insert(&mut h, &mut s, REGION_USERS, b"apple", b"1");
    insert(&mut h, &mut s, REGION_USERS, b"cherry", b"3");
    let all = store_iterate(&s);
    let keys: Vec<Vec<u8>> = all.iter().map(|kv| kv.0.clone()).collect();
    assert_eq!(
        keys,
        vec![b"apple".to_vec(), b"banana".to_vec(), b"cherry".to_vec()]
    );
    // no stale entries after a delete
    store_remove(&mut h, &mut s, REGION_USERS, &b"banana".to_vec());
    let keys2: Vec<Vec<u8>> = store_iterate(&s).iter().map(|kv| kv.0.clone()).collect();
    assert_eq!(keys2, vec![b"apple".to_vec(), b"cherry".to_vec()]);
}

#[test]
fn insert_overwrites_and_returns_prior() {
    let mut h = PageHeap::new();
    let mut s = StoreIndex::new();
    assert_eq!(insert(&mut h, &mut s, REGION_USERS, b"k", b"old"), None);
    assert_eq!(
        insert(&mut h, &mut s, REGION_USERS, b"k", b"new"),
        Some(b"old".to_vec())
    );
    assert_eq!(
        store_get(&s, &b"k".to_vec()),
        Some(b"new".to_vec())
    );
    assert_eq!(store_iterate(&s).len(), 1);
}

#[test]
fn remove_absent_is_idempotent() {
    let mut h = PageHeap::new();
    let mut s = StoreIndex::new();
    insert(&mut h, &mut s, REGION_USERS, b"present", b"v");
    assert_eq!(store_remove(&mut h, &mut s, REGION_USERS, &b"ghost".to_vec()), None);
    assert_eq!(store_remove(&mut h, &mut s, REGION_USERS, &b"ghost".to_vec()), None);
    let keys: Vec<Vec<u8>> = store_iterate(&s).iter().map(|kv| kv.0.clone()).collect();
    assert_eq!(keys, vec![b"present".to_vec()]);
    // removing a present key returns it once, then None
    assert_eq!(
        store_remove(&mut h, &mut s, REGION_USERS, &b"present".to_vec()),
        Some(b"v".to_vec())
    );
    assert_eq!(store_remove(&mut h, &mut s, REGION_USERS, &b"present".to_vec()), None);
    assert_eq!(store_iterate(&s).len(), 0);
}

#[test]
fn empty_store_iterates_empty() {
    let s = StoreIndex::new();
    assert_eq!(store_iterate(&s).len(), 0);
}

/// Pages owned by a region, with their contents.
fn region_pages(h: &PageHeap, r: u8) -> Vec<(usize, Vec<u8>)> {
    let mut out = Vec::new();
    for p in 1..h.pages.len() {
        if h.pages[0][p - 1] == r {
            out.push((p, h.pages[p].clone()));
        }
    }
    out
}

#[test]
fn partition_isolation() {
    let mut h = PageHeap::new();
    let mut users = StoreIndex::new();
    let mut posts = StoreIndex::new();
    insert(&mut h, &mut users, REGION_USERS, b"alice", b"profile-a");
    insert(&mut h, &mut users, REGION_USERS, b"bob", b"profile-b");
    let users_before = region_pages(&h, REGION_USERS);
    // several pages' worth of post data
    for i in 0..8u8 {
        let val = vec![i; 2000];
        insert(&mut h, &mut posts, REGION_POSTS, &[i], &val);
    }
    store_remove(&mut h, &mut posts, REGION_POSTS, &vec![3u8]);
    let users_after = region_pages(&h, REGION_USERS);
    assert_eq!(users_before, users_after);
    // and the users store still reads its records
    assert_eq!(
        store_get(&users, &b"alice".to_vec()),
        Some(b"profile-a".to_vec())
    );
    // every allocated page has a real owner; the rest of the table is free
    for j in 0..h.pages[0].len() {
        if j < h.pages.len() - 1 {
            assert!(h.pages[0][j] != FREE_OWNER);
        } else {
            assert_eq!(h.pages[0][j], FREE_OWNER);
        }
    }
}
