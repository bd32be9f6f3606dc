use soclynk::entities::{
    decode_comment, decode_post, decode_user, encode_comment, encode_post, encode_user, Comment,
    Identity, Post, User,
};
use soclynk::StoreError;

fn ident(b: &[u8]) -> Identity {
    Identity { bytes: b.to_vec() }
}

fn sample_user() -> User {
    User {
        id: ident(&[1, 2, 3]),
        username: b"alice".to_vec(),
        bio: b"hello from alice".to_vec(),
        profile_picture: Some(b"pic-ref-1".to_vec()),
        created_at: 42,
        followers_count: 7,
        following_count: 8,
        posts_count: 9,
    }
}

#[test]
fn user_round_trip() {
    let u = sample_user();
    let bytes = encode_user(&u).unwrap();
    let d = decode_user(&bytes).unwrap();
    assert_eq!(d.id.bytes, vec![1, 2, 3]);
    assert_eq!(d.username, b"alice".to_vec());
    assert_eq!(d.bio, b"hello from alice".to_vec());
    assert_eq!(d.profile_picture, Some(b"pic-ref-1".to_vec()));
    assert_eq!(d.created_at, 42);
    assert_eq!(d.followers_count, 7);
    assert_eq!(d.following_count, 8);
    assert_eq!(d.posts_count, 9);
}

#[test]
fn user_without_picture_round_trip() {
    let mut u = sample_user();
    u.profile_picture = None;
    let bytes = encode_user(&u).unwrap();
    let d = decode_user(&bytes).unwrap();
    assert_eq!(d.profile_picture, None);
}

#[test]
fn user_too_large_is_rejected() {
    let mut u = sample_user();
    u.bio = vec![b'x'; 2000];
    assert_eq!(encode_user(&u), Err(StoreError::RecordTooLarge));
}

#[test]
fn user_garbage_is_corrupt() {
    assert_eq!(
        decode_user(&vec![9, 9, 9, 9]),
        Err(StoreError::CorruptRecord)
    );
    assert_eq!(decode_user(&Vec::new()), Err(StoreError::CorruptRecord));
}

#[test]
fn user_trailing_bytes_are_corrupt() {
    let u = sample_user();
    let mut bytes = encode_user(&u).unwrap();
    bytes.push(0);
    assert_eq!(decode_user(&bytes), Err(StoreError::CorruptRecord));
}

#[test]
fn post_round_trip() {
    let p = Post {
        id: 11,
        author: ident(&[4, 5]),
        content: b"first post".to_vec(),
        image_url: Some(b"img-ref".to_vec()),
        created_at: 1000,
        likes_count: 2,
        comments_count: 3,
        liked_by: vec![ident(&[6]), ident(&[7, 8])],
    };
    let bytes = encode_post(&p).unwrap();
    let d = decode_post(&bytes).unwrap();
    assert_eq!(d.id, 11);
    assert_eq!(d.author.bytes, vec![4, 5]);
    assert_eq!(d.content, b"first post".to_vec());
    assert_eq!(d.image_url, Some(b"img-ref".to_vec()));
    assert_eq!(d.created_at, 1000);
    assert_eq!(d.likes_count, 2);
    assert_eq!(d.comments_count, 3);
    assert_eq!(d.liked_by.len(), 2);
    assert_eq!(d.liked_by[0].bytes, vec![6]);
    assert_eq!(d.liked_by[1].bytes, vec![7, 8]);
}

#[test]
fn post_too_large_is_rejected() {
    let p = Post {
        id: 1,
        author: ident(&[1]),
        content: vec![b'y'; 4000],
        image_url: None,
        created_at: 0,
        likes_count: 0,
        comments_count: 0,
        liked_by: Vec::new(),
    };
    assert_eq!(encode_post(&p), Err(StoreError::RecordTooLarge));
}

#[test]
fn comment_round_trip() {
    let c = Comment {
        id: 5,
        post_id: 11,
        author: ident(&[9]),
        content: b"nice one".to_vec(),
        created_at: 77,
    };
    let bytes = encode_comment(&c).unwrap();
    let d = decode_comment(&bytes).unwrap();
    assert_eq!(d.id, 5);
    assert_eq!(d.post_id, 11);
    assert_eq!(d.author.bytes, vec![9]);
    assert_eq!(d.content, b"nice one".to_vec());
    assert_eq!(d.created_at, 77);
}

#[test]
fn wrong_tag_is_corrupt() {
    let c = Comment {
        id: 5,
        post_id: 11,
        author: ident(&[9]),
        content: b"nice one".to_vec(),
        created_at: 77,
    };
    let bytes = encode_comment(&c).unwrap();
    assert!(decode_user(&bytes) == Err(StoreError::CorruptRecord));
    assert!(decode_post(&bytes) == Err(StoreError::CorruptRecord));
}
