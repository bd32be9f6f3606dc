use soclynk::domain::{
    CreateCommentRequest, CreatePostRequest, CreateUserRequest, DomainError,
};
use soclynk::entities::Identity;
use soclynk::storage::Storage;
use soclynk::StoreError;

fn ident(b: &[u8]) -> Identity {
    Identity { bytes: b.to_vec() }
}

fn user_req(name: &str, bio: &str) -> CreateUserRequest {
    CreateUserRequest {
        username: name.as_bytes().to_vec(),
        bio: bio.as_bytes().to_vec(),
        profile_picture: None,
    }
}

fn post_req(content: &str) -> CreatePostRequest {
    CreatePostRequest {
        content: content.as_bytes().to_vec(),
        image_url: None,
    }
}

#[test]
fn create_and_get_user() {
    let mut st = Storage::new();
    let alice = ident(&[1]);
    let u = st.create_user(alice.clone(), user_req("alice", "hi"), 10).unwrap();
    assert_eq!(u.username, b"alice".to_vec());
    assert_eq!(u.created_at, 10);
    assert_eq!(u.posts_count, 0);
    let got = st.get_user(&alice).unwrap();
    assert_eq!(got.username, b"alice".to_vec());
    assert_eq!(got.bio, b"hi".to_vec());
    let same = st.get_current_user(&alice).unwrap();
    assert_eq!(same.username, b"alice".to_vec());
    assert!(st.get_user(&ident(&[2])).is_none());
}

#[test]
fn duplicate_user_is_rejected() {
    let mut st = Storage::new();
    let alice = ident(&[1]);
    st.create_user(alice.clone(), user_req("alice", ""), 1).unwrap();
    assert_eq!(
        st.create_user(alice, user_req("alice2", ""), 2),
        Err(DomainError::UserAlreadyExists)
    );
}

#[test]
fn username_must_be_unique() {
    let mut st = Storage::new();
    st.create_user(ident(&[1]), user_req("alice", ""), 1).unwrap();
    assert_eq!(
        st.create_user(ident(&[2]), user_req("alice", ""), 2),
        Err(DomainError::UsernameTaken)
    );
}

#[test]
fn update_user_keeps_creation_time() {
    let mut st = Storage::new();
    let alice = ident(&[1]);
    st.create_user(alice.clone(), user_req("alice", "old bio"), 10).unwrap();
    let updated = st.update_user(alice.clone(), user_req("alice2", "new bio")).unwrap();
    assert_eq!(updated.username, b"alice2".to_vec());
    assert_eq!(updated.bio, b"new bio".to_vec());
    assert_eq!(updated.created_at, 10);
    // another user cannot take the new name
    st.create_user(ident(&[2]), user_req("bob", ""), 20).unwrap();
    assert_eq!(
        st.update_user(ident(&[2]), user_req("alice2", "")),
        Err(DomainError::UsernameTaken)
    );
    // but keeping one's own name is fine
    assert!(st.update_user(alice, user_req("alice2", "third bio")).is_ok());
}

#[test]
fn update_unknown_user_fails() {
    let mut st = Storage::new();
    assert_eq!(
        st.update_user(ident(&[9]), user_req("ghost", "")),
        Err(DomainError::UserNotFound)
    );
}

#[test]
fn create_post_assigns_sequential_ids() {
    let mut st = Storage::new();
    let alice = ident(&[1]);
    st.create_user(alice.clone(), user_req("alice", ""), 1).unwrap();
    let p1 = st.create_post(alice.clone(), post_req("one"), 100).unwrap();
    let p2 = st.create_post(alice.clone(), post_req("two"), 200).unwrap();
    assert_eq!(p1.id, 1);
    assert_eq!(p2.id, 2);
    assert_eq!(p1.likes_count, 0);
    assert_eq!(p1.comments_count, 0);
    let u = st.get_user(&alice).unwrap();
    assert_eq!(u.posts_count, 2);
}

#[test]
fn post_requires_profile() {
    let mut st = Storage::new();
    assert_eq!(
        st.create_post(ident(&[9]), post_req("x"), 1),
        Err(DomainError::UserNotFound)
    );
}

#[test]
fn oversized_post_is_rejected() {
    let mut st = Storage::new();
    let alice = ident(&[1]);
    st.create_user(alice.clone(), user_req("alice", ""), 1).unwrap();
    let req = CreatePostRequest {
        content: vec![b'x'; 3000],
        image_url: None,
    };
    assert_eq!(
        st.create_post(alice.clone(), req, 2),
        Err(DomainError::Storage(StoreError::RecordTooLarge))
    );
    assert_eq!(st.get_posts().len(), 0);
}

#[test]
fn like_toggles_and_never_goes_negative() {
    let mut st = Storage::new();
    let alice = ident(&[1]);
    let bob = ident(&[2]);
    st.create_user(alice.clone(), user_req("alice", ""), 1).unwrap();
    st.create_user(bob.clone(), user_req("bob", ""), 2).unwrap();
    let p1 = st.create_post(alice.clone(), post_req("hello"), 10).unwrap();
    let liked = st.like_post(bob.clone(), p1.id).unwrap();
    assert_eq!(liked.likes_count, 1);
    assert_eq!(liked.liked_by.len(), 1);
    assert_eq!(liked.liked_by[0].bytes, vec![2]);
    let unliked = st.like_post(bob.clone(), p1.id).unwrap();
    assert_eq!(unliked.likes_count, 0);
    assert_eq!(unliked.liked_by.len(), 0);
    // toggling again from zero likes it again: the count never underflows
    let again = st.like_post(bob.clone(), p1.id).unwrap();
    assert_eq!(again.likes_count, 1);
    let gone = st.like_post(bob, p1.id).unwrap();
    assert_eq!(gone.likes_count, 0);
}

#[test]
fn like_requires_post_and_profile() {
    let mut st = Storage::new();
    let alice = ident(&[1]);
    assert_eq!(st.like_post(alice.clone(), 1), Err(DomainError::UserNotFound));
    st.create_user(alice.clone(), user_req("alice", ""), 1).unwrap();
    assert_eq!(st.like_post(alice, 1), Err(DomainError::PostNotFound));
}

#[test]
fn cascade_delete_removes_comments() {
    let mut st = Storage::new();
    let alice = ident(&[1]);
    st.create_user(alice.clone(), user_req("alice", ""), 1).unwrap();
    let p1 = st.create_post(alice.clone(), post_req("post"), 10).unwrap();
    let c1 = st
        .create_comment(
            alice.clone(),
            CreateCommentRequest {
                post_id: p1.id,
                content: b"c1".to_vec(),
            },
            20,
        )
        .unwrap();
    assert_eq!(st.get_comments(p1.id).len(), 1);
    st.delete_post(alice.clone(), p1.id).unwrap();
    assert_eq!(st.get_comments(p1.id).len(), 0);
    assert!(st.get_comment(c1.id).is_none());
    assert!(st.get_post(p1.id).is_none());
    assert_eq!(st.get_user(&alice).unwrap().posts_count, 0);
}

#[test]
fn only_the_author_deletes() {
    let mut st = Storage::new();
    let alice = ident(&[1]);
    let bob = ident(&[2]);
    st.create_user(alice.clone(), user_req("alice", ""), 1).unwrap();
    st.create_user(bob.clone(), user_req("bob", ""), 2).unwrap();
    let p1 = st.create_post(alice, post_req("mine"), 10).unwrap();
    assert_eq!(st.delete_post(bob, p1.id), Err(DomainError::NotAuthor));
    assert!(st.get_post(p1.id).is_some());
}

#[test]
fn comment_requires_existing_post() {
    let mut st = Storage::new();
    let alice = ident(&[1]);
    st.create_user(alice.clone(), user_req("alice", ""), 1).unwrap();
    assert_eq!(
        st.create_comment(
            alice,
            CreateCommentRequest {
                post_id: 77,
                content: b"x".to_vec()
            },
            5
        ),
        Err(DomainError::PostNotFound)
    );
}

#[test]
fn comments_count_follows_comments() {
    let mut st = Storage::new();
    let alice = ident(&[1]);
    st.create_user(alice.clone(), user_req("alice", ""), 1).unwrap();
    let p1 = st.create_post(alice.clone(), post_req("post"), 10).unwrap();
    st.create_comment(
        alice.clone(),
        CreateCommentRequest {
            post_id: p1.id,
            content: b"one".to_vec(),
        },
        20,
    )
    .unwrap();
    st.create_comment(
        alice.clone(),
        CreateCommentRequest {
            post_id: p1.id,
            content: b"two".to_vec(),
        },
        30,
    )
    .unwrap();
    assert_eq!(st.get_post(p1.id).unwrap().comments_count, 2);
}

#[test]
fn feeds_are_sorted_by_time() {
    let mut st = Storage::new();
    let alice = ident(&[1]);
    let bob = ident(&[2]);
    st.create_user(alice.clone(), user_req("alice", ""), 1).unwrap();
    st.create_user(bob.clone(), user_req("bob", ""), 2).unwrap();
    st.create_post(alice.clone(), post_req("oldest"), 10).unwrap();
    let p = st.create_post(bob.clone(), post_req("newest"), 30).unwrap();
    st.create_post(alice.clone(), post_req("middle"), 20).unwrap();
    let feed = st.get_posts();
    assert_eq!(feed.len(), 3);
    assert_eq!(feed[0].content, b"newest".to_vec());
    assert_eq!(feed[0].author_username, b"bob".to_vec());
    assert_eq!(feed[1].content, b"middle".to_vec());
    assert_eq!(feed[2].content, b"oldest".to_vec());
    let alices = st.get_user_posts(&alice);
    assert_eq!(alices.len(), 2);
    assert_eq!(alices[0].content, b"middle".to_vec());
    assert_eq!(alices[1].content, b"oldest".to_vec());
    assert_eq!(st.get_user_posts(&ident(&[9])).len(), 0);
    // comments come back oldest first
    st.create_comment(
        alice.clone(),
        CreateCommentRequest {
            post_id: p.id,
            content: b"later".to_vec(),
        },
        50,
    )
    .unwrap();
    st.create_comment(
        bob,
        CreateCommentRequest {
            post_id: p.id,
            content: b"earlier".to_vec(),
        },
        40,
    )
    .unwrap();
    let cs = st.get_comments(p.id);
    assert_eq!(cs.len(), 2);
    assert_eq!(cs[0].content, b"earlier".to_vec());
    assert_eq!(cs[1].content, b"later".to_vec());
}

#[test]
fn next_post_id_is_monotonic() {
    let mut st = Storage::new();
    assert_eq!(st.next_post_id().unwrap(), 1);
    assert_eq!(st.next_post_id().unwrap(), 2);
    assert_eq!(st.next_post_id().unwrap(), 3);
}

#[test]
fn restart_preserves_everything() {
    let mut st = Storage::new();
    let alice = ident(&[1]);
    let bob = ident(&[2]);
    st.create_user(alice.clone(), user_req("alice", "bio-a"), 1).unwrap();
    st.create_user(bob.clone(), user_req("bob", "bio-b"), 2).unwrap();
    let p1 = st.create_post(alice.clone(), post_req("persisted"), 10).unwrap();
    st.like_post(bob.clone(), p1.id).unwrap();
    st.create_comment(
        bob,
        CreateCommentRequest {
            post_id: p1.id,
            content: b"still here".to_vec(),
        },
        20,
    )
    .unwrap();
    // a restart sees only the pages
    let snapshot: Vec<Vec<u8>> = st.heap.pages.clone();
    let st2 = Storage::attach(snapshot).unwrap();
    let u = st2.get_user(&alice).unwrap();
    assert_eq!(u.username, b"alice".to_vec());
    assert_eq!(u.posts_count, 1);
    let p = st2.get_post(p1.id).unwrap();
    assert_eq!(p.content, b"persisted".to_vec());
    assert_eq!(p.likes_count, 1);
    assert_eq!(p.comments_count, 1);
    assert_eq!(p.liked_by.len(), 1);
    let cs = st2.get_comments(p1.id);
    assert_eq!(cs.len(), 1);
    assert_eq!(cs[0].content, b"still here".to_vec());
    // iteration order is unchanged across the restart
    let keys1: Vec<Vec<u8>> =
        soclynk::store::store_iterate(&st.posts).iter().map(|kv| kv.0.clone()).collect();
    let keys2: Vec<Vec<u8>> =
        soclynk::store::store_iterate(&st2.posts).iter().map(|kv| kv.0.clone()).collect();
    assert_eq!(keys1, keys2);
    // ids keep climbing from where they stopped
    let mut st3 = st2;
    let p2 = st3.create_post(alice, post_req("after restart"), 30).unwrap();
    assert_eq!(p2.id, p1.id + 1);
}

#[test]
fn attach_rejects_garbage() {
    assert!(matches!(
        Storage::attach(vec![vec![0u8; 16]]),
        Err(StoreError::CorruptRecord)
    ));
    assert!(matches!(Storage::attach(Vec::new()), Err(StoreError::CorruptRecord)));
}

#[test]
fn recount_rebuilds_counters() {
    let mut st = Storage::new();
    let alice = ident(&[1]);
    let bob = ident(&[2]);
    st.create_user(alice.clone(), user_req("alice", ""), 1).unwrap();
    st.create_user(bob.clone(), user_req("bob", ""), 2).unwrap();
    let p1 = st.create_post(alice.clone(), post_req("post"), 10).unwrap();
    st.like_post(bob.clone(), p1.id).unwrap();
    st.create_comment(
        bob,
        CreateCommentRequest {
            post_id: p1.id,
            content: b"c".to_vec(),
        },
        20,
    )
    .unwrap();
    let repaired = st.recount_post(p1.id).unwrap();
    assert_eq!(repaired.likes_count, 1);
    assert_eq!(repaired.comments_count, 1);
    assert!(matches!(st.recount_post(999), Err(DomainError::PostNotFound)));
}

#[test]
fn attach_rejects_id_above_counter() {
    let mut st = Storage::new();
    let alice = ident(&[1]);
    st.create_user(alice.clone(), user_req("alice", ""), 1).unwrap();
    st.create_post(alice, post_req("post"), 10).unwrap();
    // erase the counter page: the stored post id 1 now exceeds counter 0
    let mut pages = st.heap.pages.clone();
    for p in 1..pages.len() {
        if pages[0][p - 1] == soclynk::heap::REGION_COUNTERS {
            pages[p] = vec![0u8; soclynk::heap::PAGE_SIZE];
        }
    }
    assert!(matches!(
        Storage::attach(pages),
        Err(StoreError::CorruptRecord)
    ));
}
