//! The entity records and their binary codec.
//!
//! A `User`, `Post` or `Comment` is encoded as a tag byte followed by its
//! fields in declaration order, each field encoded as in [`crate::codec`].
//! Text fields cross this layer as UTF-8 bytes; the transport layer owns
//! the conversion to and from `String`. Each entity type declares a fixed
//! upper bound on its encoded length; `encode_*` fails with
//! `RecordTooLarge` rather than truncate, and `decode_*` fails with
//! `CorruptRecord` on any bytes that no in-bounds record encodes to.

use vstd::prelude::*;
use crate::StoreError;
use crate::codec::enc_u64;
use crate::codec::enc_bytes;
use crate::codec::enc_opt_bytes;
use crate::codec::enc_bytes_list;
use crate::codec::enc_bytes_list_items;
use crate::codec::dec_u64;
use crate::codec::dec_u8;
use crate::codec::dec_bytes;
use crate::codec::dec_opt_bytes;
use crate::codec::dec_bytes_list;
use crate::codec::dec_bytes_list_items;
use crate::codec::lemma_dec_u64_at;
use crate::codec::lemma_dec_u8_at;
use crate::codec::lemma_dec_bytes_at;
use crate::codec::lemma_dec_opt_bytes_at;
use crate::codec::lemma_dec_bytes_list_at;
use crate::codec::put_u64;
use crate::codec::put_u8;
use crate::codec::put_bytes;
use crate::codec::put_opt_bytes;
use crate::codec::get_u64;
use crate::codec::get_u8;
use crate::codec::get_bytes;
use crate::codec::get_opt_bytes;
use crate::codec::deep_opt;
use crate::codec::clone_bytes;

verus! {

/// Longest caller identity, in bytes.
pub const IDENTITY_MAX_BYTES: usize = 29;

/// Bound on the encoded length of a `User` record.
pub const USER_MAX_BYTES: usize = 1024;

/// Bound on the encoded length of a `Post` record.
pub const POST_MAX_BYTES: usize = 2048;

/// Bound on the encoded length of a `Comment` record.
pub const COMMENT_MAX_BYTES: usize = 1024;

/// Tag byte opening an encoded `User`.
pub const TAG_USER: u8 = 1;

/// Tag byte opening an encoded `Post`.
pub const TAG_POST: u8 = 2;

/// Tag byte opening an encoded `Comment`.
pub const TAG_COMMENT: u8 = 3;

/// The opaque, pre-authenticated identifier of a caller.
#[derive(Debug, PartialEq, Eq)]
pub struct Identity {
    pub bytes: Vec<u8>,
}

impl View for Identity {
    type V = Seq<u8>;

    open spec fn view(&self) -> Seq<u8> {
        self.bytes@
    }
}

impl Identity {
    /// An identity is a byte string of bounded length.
    pub open spec fn wf(&self) -> bool {
        self@.len() <= IDENTITY_MAX_BYTES
    }

    /// Builds an identity from its bytes.
    pub fn from_bytes(bytes: Vec<u8>) -> (r: Result<Identity, StoreError>)
        ensures
            bytes@.len() <= IDENTITY_MAX_BYTES ==> (r matches Ok(id) && id@ == bytes@ && id.wf()),
            bytes@.len() > IDENTITY_MAX_BYTES ==> r == Err::<Identity, StoreError>(
                StoreError::RecordTooLarge,
            ),
    {
        if bytes.len() <= IDENTITY_MAX_BYTES {
            Ok(Identity { bytes })
        } else {
            Err(StoreError::RecordTooLarge)
        }
    }

    /// Whether two identities are the same caller.
    pub fn same_as(&self, other: &Identity) -> (r: bool)
        ensures
            r == (self@ == other@),
    {
        crate::order::bytes_cmp(&self.bytes, &other.bytes) == crate::order::KeyOrder::Equal
    }
}

impl Clone for Identity {
    fn clone(&self) -> (r: Self)
        ensures
            r@ == self@,
    {
        Identity { bytes: clone_bytes(&self.bytes) }
    }
}

/// Mathematical value of a `User`.
#[verifier::ext_equal]
pub ghost struct UserV {
    pub id: Seq<u8>,
    pub username: Seq<u8>,
    pub bio: Seq<u8>,
    pub profile_picture: Option<Seq<u8>>,
    pub created_at: u64,
    pub followers_count: u64,
    pub following_count: u64,
    pub posts_count: u64,
}

/// A registered profile, keyed by its caller identity.
#[derive(Debug, PartialEq, Eq)]
pub struct User {
    pub id: Identity,
    pub username: Vec<u8>,
    pub bio: Vec<u8>,
    pub profile_picture: Option<Vec<u8>>,
    pub created_at: u64,
    pub followers_count: u64,
    pub following_count: u64,
    pub posts_count: u64,
}

impl View for User {
    type V = UserV;

    open spec fn view(&self) -> UserV {
        UserV {
            id: self.id@,
            username: self.username@,
            bio: self.bio@,
            profile_picture: deep_opt(&self.profile_picture),
            created_at: self.created_at,
            followers_count: self.followers_count,
            following_count: self.following_count,
            posts_count: self.posts_count,
        }
    }
}

impl User {
    /// A user record holds a bounded identity.
    pub open spec fn wf(&self) -> bool {
        user_v_wf(self@)
    }
}

impl Clone for User {
    fn clone(&self) -> (r: Self)
        ensures
            r@ == self@,
    {
        User {
            id: self.id.clone(),
            username: clone_bytes(&self.username),
            bio: clone_bytes(&self.bio),
            profile_picture: clone_opt_bytes(&self.profile_picture),
            created_at: self.created_at,
            followers_count: self.followers_count,
            following_count: self.following_count,
            posts_count: self.posts_count,
        }
    }
}

/// Copies an optional byte vector.
pub fn clone_opt_bytes(o: &Option<Vec<u8>>) -> (r: Option<Vec<u8>>)
    ensures
        deep_opt(&r) == deep_opt(o),
{
    match o {
        Option::None => None,
        Option::Some(b) => Some(clone_bytes(b)),
    }
}

/// Bounds under which a user value encodes and decodes cleanly: the identity
/// bound, and field lengths within what a 64-bit length prefix can carry.
pub open spec fn user_v_wf(u: UserV) -> bool {
    &&& u.id.len() <= IDENTITY_MAX_BYTES
    &&& u.username.len() <= u64::MAX
    &&& u.bio.len() <= u64::MAX
    &&& (u.profile_picture matches Option::Some(p) ==> p.len() <= u64::MAX)
}

/// Encoding of a user value.
#[verifier::opaque]
pub open spec fn spec_enc_user(u: UserV) -> Seq<u8> {
    seq![TAG_USER] + enc_bytes(u.id) + enc_bytes(u.username) + enc_bytes(u.bio) + enc_opt_bytes(
        u.profile_picture,
    ) + enc_u64(u.created_at) + enc_u64(u.followers_count) + enc_u64(u.following_count) + enc_u64(
        u.posts_count,
    )
}

/// Total decoder of a user record: `None` on any byte string that no
/// well-formed user encodes to, including trailing bytes.
#[verifier::opaque]
pub open spec fn spec_dec_user(b: Seq<u8>) -> Option<UserV> {
    match dec_u8(b, 0) {
        Option::None => Option::None,
        Option::Some((tag, p0)) => if tag != TAG_USER {
            Option::None
        } else {
            match dec_bytes(b, p0) {
                Option::None => Option::None,
                Option::Some((id, p1)) => if id.len() > IDENTITY_MAX_BYTES {
                    Option::None
                } else {
                    match dec_bytes(b, p1) {
                        Option::None => Option::None,
                        Option::Some((username, p2)) => match dec_bytes(b, p2) {
                            Option::None => Option::None,
                            Option::Some((bio, p3)) => match dec_opt_bytes(b, p3) {
                                Option::None => Option::None,
                                Option::Some((pic, p4)) => match dec_u64(b, p4) {
                                    Option::None => Option::None,
                                    Option::Some((created_at, p5)) => match dec_u64(b, p5) {
                                        Option::None => Option::None,
                                        Option::Some((followers, p6)) => match dec_u64(b, p6) {
                                            Option::None => Option::None,
                                            Option::Some((following, p7)) => match dec_u64(b, p7) {
                                                Option::None => Option::None,
                                                Option::Some((posts, p8)) => if p8 == b.len() {
                                                    Option::Some(
                                                        UserV {
                                                            id,
                                                            username,
                                                            bio,
                                                            profile_picture: pic,
                                                            created_at,
                                                            followers_count: followers,
                                                            following_count: following,
                                                            posts_count: posts,
                                                        },
                                                    )
                                                } else {
                                                    Option::None
                                                },
                                            },
                                        },
                                    },
                                },
                            },
                        },
                    }
                },
            }
        },
    }
}

/// A segment of a concatenation reads back out of it.
pub proof fn lemma_segment(b: Seq<u8>, pre: Seq<u8>, mid: Seq<u8>, post: Seq<u8>)
    requires
        b == pre + mid + post,
    ensures
        b.subrange(pre.len() as int, pre.len() + mid.len() as int) == mid,
{
    assert(b.subrange(pre.len() as int, pre.len() + mid.len() as int) =~= mid);
}

/// Round trip of the user codec: decoding an encoded user yields it back.
#[verifier::rlimit(60)]
#[verifier::spinoff_prover]
pub proof fn lemma_user_round(u: UserV)
    requires
        user_v_wf(u),
    ensures
        spec_dec_user(spec_enc_user(u)) == Option::Some(u),
{
    reveal(spec_enc_user);
    reveal(spec_dec_user);
    let b = spec_enc_user(u);
    let s0 = seq![TAG_USER];
    let s1 = enc_bytes(u.id);
    let s2 = enc_bytes(u.username);
    let s3 = enc_bytes(u.bio);
    let s4 = enc_opt_bytes(u.profile_picture);
    let s5 = enc_u64(u.created_at);
    let s6 = enc_u64(u.followers_count);
    let s7 = enc_u64(u.following_count);
    let s8 = enc_u64(u.posts_count);
    let p0 = s0.len() as int;
    let p1 = p0 + s1.len();
    let p2 = p1 + s2.len();
    let p3 = p2 + s3.len();
    let p4 = p3 + s4.len();
    let p5 = p4 + s5.len();
    let p6 = p5 + s6.len();
    let p7 = p6 + s7.len();
    let p8 = p7 + s8.len();
    assert(b.len() == p8);
    assert(b =~= Seq::<u8>::empty() + s0 + (s1 + s2 + s3 + s4 + s5 + s6 + s7 + s8));
    lemma_segment(b, Seq::empty(), s0, s1 + s2 + s3 + s4 + s5 + s6 + s7 + s8);
    lemma_dec_u8_at(b, 0, TAG_USER);
    assert(b =~= s0 + s1 + (s2 + s3 + s4 + s5 + s6 + s7 + s8));
    lemma_segment(b, s0, s1, s2 + s3 + s4 + s5 + s6 + s7 + s8);
    lemma_dec_bytes_at(b, p0, u.id);
    assert(b =~= (s0 + s1) + s2 + (s3 + s4 + s5 + s6 + s7 + s8));
    lemma_segment(b, s0 + s1, s2, s3 + s4 + s5 + s6 + s7 + s8);
    lemma_dec_bytes_at(b, p1, u.username);
    assert(b =~= (s0 + s1 + s2) + s3 + (s4 + s5 + s6 + s7 + s8));
    lemma_segment(b, s0 + s1 + s2, s3, s4 + s5 + s6 + s7 + s8);
    lemma_dec_bytes_at(b, p2, u.bio);
    assert(b =~= (s0 + s1 + s2 + s3) + s4 + (s5 + s6 + s7 + s8));
    lemma_segment(b, s0 + s1 + s2 + s3, s4, s5 + s6 + s7 + s8);
    lemma_dec_opt_bytes_at(b, p3, u.profile_picture);
    assert(b =~= (s0 + s1 + s2 + s3 + s4) + s5 + (s6 + s7 + s8));
    lemma_segment(b, s0 + s1 + s2 + s3 + s4, s5, s6 + s7 + s8);
    lemma_dec_u64_at(b, p4, u.created_at);
    assert(b =~= (s0 + s1 + s2 + s3 + s4 + s5) + s6 + (s7 + s8));
    lemma_segment(b, s0 + s1 + s2 + s3 + s4 + s5, s6, s7 + s8);
    lemma_dec_u64_at(b, p5, u.followers_count);
    assert(b =~= (s0 + s1 + s2 + s3 + s4 + s5 + s6) + s7 + s8);
    lemma_segment(b, s0 + s1 + s2 + s3 + s4 + s5 + s6, s7, s8);
    lemma_dec_u64_at(b, p6, u.following_count);
    assert(b =~= (s0 + s1 + s2 + s3 + s4 + s5 + s6 + s7) + s8 + Seq::<u8>::empty());
    lemma_segment(b, s0 + s1 + s2 + s3 + s4 + s5 + s6 + s7, s8, Seq::empty());
    lemma_dec_u64_at(b, p7, u.posts_count);
    assert(spec_dec_user(b) == Option::Some(u));
}

/// Encodes a user record, or rejects one whose encoding would exceed the
/// declared bound. Never truncates.
pub fn encode_user(u: &User) -> (r: Result<Vec<u8>, StoreError>)
    ensures
        spec_enc_user(u@).len() <= USER_MAX_BYTES ==> (r matches Ok(b) && b@ == spec_enc_user(u@)),
        spec_enc_user(u@).len() > USER_MAX_BYTES ==> r == Err::<Vec<u8>, StoreError>(
            StoreError::RecordTooLarge,
        ),
{
    let mut out: Vec<u8> = Vec::new();
    put_u8(&mut out, TAG_USER);
    put_bytes(&mut out, &u.id.bytes);
    put_bytes(&mut out, &u.username);
    put_bytes(&mut out, &u.bio);
    put_opt_bytes(&mut out, &u.profile_picture);
    put_u64(&mut out, u.created_at);
    put_u64(&mut out, u.followers_count);
    put_u64(&mut out, u.following_count);
    put_u64(&mut out, u.posts_count);
    proof {
        reveal(spec_enc_user);
        assert(out@ =~= spec_enc_user(u@));
    }
    if out.len() <= USER_MAX_BYTES {
        Ok(out)
    } else {
        Err(StoreError::RecordTooLarge)
    }
}

/// Decodes a user record, following `spec_dec_user` exactly.
pub fn decode_user(b: &Vec<u8>) -> (r: Result<User, StoreError>)
    ensures
        ({
            let d = spec_dec_user(b@);
            match d {
                Option::Some(v) => r matches Ok(u) && u@ == v && u.wf(),
                Option::None => r == Err::<User, StoreError>(StoreError::CorruptRecord),
            }
        }),
{
    proof {
        reveal(spec_dec_user);
    }
    let mut pos: usize = 0;
    let tag = match get_u8(b, &mut pos) {
        Ok(t) => t,
        Err(e) => {
            return Err(e);
        },
    };
    if tag != TAG_USER {
        return Err(StoreError::CorruptRecord);
    }
    let id = match get_bytes(b, &mut pos) {
        Ok(v) => v,
        Err(e) => {
            return Err(e);
        },
    };
    if id.len() > IDENTITY_MAX_BYTES {
        return Err(StoreError::CorruptRecord);
    }
    let username = match get_bytes(b, &mut pos) {
        Ok(v) => v,
        Err(e) => {
            return Err(e);
        },
    };
    let bio = match get_bytes(b, &mut pos) {
        Ok(v) => v,
        Err(e) => {
            return Err(e);
        },
    };
    let profile_picture = match get_opt_bytes(b, &mut pos) {
        Ok(v) => v,
        Err(e) => {
            return Err(e);
        },
    };
    let created_at = match get_u64(b, &mut pos) {
        Ok(v) => v,
        Err(e) => {
            return Err(e);
        },
    };
    let followers_count = match get_u64(b, &mut pos) {
        Ok(v) => v,
        Err(e) => {
            return Err(e);
        },
    };
    let following_count = match get_u64(b, &mut pos) {
        Ok(v) => v,
        Err(e) => {
            return Err(e);
        },
    };
    let posts_count = match get_u64(b, &mut pos) {
        Ok(v) => v,
        Err(e) => {
            return Err(e);
        },
    };
    if pos != b.len() {
        return Err(StoreError::CorruptRecord);
    }
    Ok(
        User {
            id: Identity { bytes: id },
            username,
            bio,
            profile_picture,
            created_at,
            followers_count,
            following_count,
            posts_count,
        },
    )
}

/// Mathematical value of a `Post`.
#[verifier::ext_equal]
pub ghost struct PostV {
    pub id: u64,
    pub author: Seq<u8>,
    pub content: Seq<u8>,
    pub image_url: Option<Seq<u8>>,
    pub created_at: u64,
    pub likes_count: u64,
    pub comments_count: u64,
    pub liked_by: Seq<Seq<u8>>,
}

/// A published post, keyed by its sequential identifier.
#[derive(Debug, PartialEq, Eq)]
pub struct Post {
    pub id: u64,
    pub author: Identity,
    pub content: Vec<u8>,
    pub image_url: Option<Vec<u8>>,
    pub created_at: u64,
    pub likes_count: u64,
    pub comments_count: u64,
    pub liked_by: Vec<Identity>,
}

/// The identities of a list, as byte strings.
pub open spec fn ids_view(ids: Seq<Identity>) -> Seq<Seq<u8>> {
    ids.map_values(|x: Identity| x@)
}

impl View for Post {
    type V = PostV;

    open spec fn view(&self) -> PostV {
        PostV {
            id: self.id,
            author: self.author@,
            content: self.content@,
            image_url: deep_opt(&self.image_url),
            created_at: self.created_at,
            likes_count: self.likes_count,
            comments_count: self.comments_count,
            liked_by: ids_view(self.liked_by@),
        }
    }
}

impl Post {
    /// A post record holds bounded identities.
    pub open spec fn wf(&self) -> bool {
        post_v_wf(self@)
    }
}

impl Clone for Post {
    fn clone(&self) -> (r: Self)
        ensures
            r@ == self@,
    {
        let r = Post {
            id: self.id,
            author: self.author.clone(),
            content: clone_bytes(&self.content),
            image_url: clone_opt_bytes(&self.image_url),
            created_at: self.created_at,
            likes_count: self.likes_count,
            comments_count: self.comments_count,
            liked_by: clone_ids(&self.liked_by),
        };
        proof {
            assert(r@ =~= self@);
        }
        r
    }
}

/// Copies a list of identities.
pub fn clone_ids(ids: &Vec<Identity>) -> (r: Vec<Identity>)
    ensures
        ids_view(r@) == ids_view(ids@),
        r@.len() == ids@.len(),
{
    let mut r: Vec<Identity> = Vec::new();
    let mut i: usize = 0;
    while i < ids.len()
        invariant
            0 <= i <= ids@.len(),
            r@.len() == i,
            forall|j: int| 0 <= j < i ==> #[trigger] r@[j]@ == ids@[j]@,
        decreases ids@.len() - i,
    {
        r.push(ids[i].clone());
        i += 1;
    }
    proof {
        assert(ids_view(r@) =~= ids_view(ids@));
    }
    r
}

/// Bounds under which a post value encodes and decodes cleanly.
pub open spec fn post_v_wf(p: PostV) -> bool {
    &&& p.author.len() <= IDENTITY_MAX_BYTES
    &&& p.content.len() <= u64::MAX
    &&& (p.image_url matches Option::Some(v) ==> v.len() <= u64::MAX)
    &&& p.liked_by.len() <= u64::MAX
    &&& (forall|i: int| 0 <= i < p.liked_by.len() ==> #[trigger] p.liked_by[i].len()
        <= IDENTITY_MAX_BYTES)
}

/// Encoding of a post value.
#[verifier::opaque]
pub open spec fn spec_enc_post(p: PostV) -> Seq<u8> {
    seq![TAG_POST] + enc_u64(p.id) + enc_bytes(p.author) + enc_bytes(p.content) + enc_opt_bytes(
        p.image_url,
    ) + enc_u64(p.created_at) + enc_u64(p.likes_count) + enc_u64(p.comments_count) + enc_bytes_list(
        p.liked_by,
    )
}

/// Total decoder of a post record.
#[verifier::opaque]
pub open spec fn spec_dec_post(b: Seq<u8>) -> Option<PostV> {
    match dec_u8(b, 0) {
        Option::None => Option::None,
        Option::Some((tag, p0)) => if tag != TAG_POST {
            Option::None
        } else {
            match dec_u64(b, p0) {
                Option::None => Option::None,
                Option::Some((id, p1)) => match dec_bytes(b, p1) {
                    Option::None => Option::None,
                    Option::Some((author, p2)) => if author.len() > IDENTITY_MAX_BYTES {
                        Option::None
                    } else {
                        match dec_bytes(b, p2) {
                            Option::None => Option::None,
                            Option::Some((content, p3)) => match dec_opt_bytes(b, p3) {
                                Option::None => Option::None,
                                Option::Some((image_url, p4)) => match dec_u64(b, p4) {
                                    Option::None => Option::None,
                                    Option::Some((created_at, p5)) => match dec_u64(b, p5) {
                                        Option::None => Option::None,
                                        Option::Some((likes, p6)) => match dec_u64(b, p6) {
                                            Option::None => Option::None,
                                            Option::Some((comments, p7)) => match dec_bytes_list(
                                                b,
                                                p7,
                                            ) {
                                                Option::None => Option::None,
                                                Option::Some((liked, p8)) => if p8 == b.len() && (
                                                forall|i: int|
                                                    0 <= i < liked.len()
                                                        ==> #[trigger] liked[i].len()
                                                        <= IDENTITY_MAX_BYTES) {
                                                    Option::Some(
                                                        PostV {
                                                            id,
                                                            author,
                                                            content,
                                                            image_url,
                                                            created_at,
                                                            likes_count: likes,
                                                            comments_count: comments,
                                                            liked_by: liked,
                                                        },
                                                    )
                                                } else {
                                                    Option::None
                                                },
                                            },
                                        },
                                    },
                                },
                            },
                        }
                    },
                },
            }
        },
    }
}

/// Round trip of the post codec.
#[verifier::rlimit(60)]
#[verifier::spinoff_prover]
pub proof fn lemma_post_round(p: PostV)
    requires
        post_v_wf(p),
    ensures
        spec_dec_post(spec_enc_post(p)) == Option::Some(p),
{
    reveal(spec_enc_post);
    reveal(spec_dec_post);
    let b = spec_enc_post(p);
    let s0 = seq![TAG_POST];
    let s1 = enc_u64(p.id);
    let s2 = enc_bytes(p.author);
    let s3 = enc_bytes(p.content);
    let s4 = enc_opt_bytes(p.image_url);
    let s5 = enc_u64(p.created_at);
    let s6 = enc_u64(p.likes_count);
    let s7 = enc_u64(p.comments_count);
    let s8 = enc_bytes_list(p.liked_by);
    let p0 = s0.len() as int;
    let p1 = p0 + s1.len();
    let p2 = p1 + s2.len();
    let p3 = p2 + s3.len();
    let p4 = p3 + s4.len();
    let p5 = p4 + s5.len();
    let p6 = p5 + s6.len();
    let p7 = p6 + s7.len();
    let p8 = p7 + s8.len();
    assert(b.len() == p8);
    assert(b =~= Seq::<u8>::empty() + s0 + (s1 + s2 + s3 + s4 + s5 + s6 + s7 + s8));
    lemma_segment(b, Seq::empty(), s0, s1 + s2 + s3 + s4 + s5 + s6 + s7 + s8);
    lemma_dec_u8_at(b, 0, TAG_POST);
    assert(b =~= s0 + s1 + (s2 + s3 + s4 + s5 + s6 + s7 + s8));
    lemma_segment(b, s0, s1, s2 + s3 + s4 + s5 + s6 + s7 + s8);
    lemma_dec_u64_at(b, p0, p.id);
    assert(b =~= (s0 + s1) + s2 + (s3 + s4 + s5 + s6 + s7 + s8));
    lemma_segment(b, s0 + s1, s2, s3 + s4 + s5 + s6 + s7 + s8);
    lemma_dec_bytes_at(b, p1, p.author);
    assert(b =~= (s0 + s1 + s2) + s3 + (s4 + s5 + s6 + s7 + s8));
    lemma_segment(b, s0 + s1 + s2, s3, s4 + s5 + s6 + s7 + s8);
    lemma_dec_bytes_at(b, p2, p.content);
    assert(b =~= (s0 + s1 + s2 + s3) + s4 + (s5 + s6 + s7 + s8));
    lemma_segment(b, s0 + s1 + s2 + s3, s4, s5 + s6 + s7 + s8);
    lemma_dec_opt_bytes_at(b, p3, p.image_url);
    assert(b =~= (s0 + s1 + s2 + s3 + s4) + s5 + (s6 + s7 + s8));
    lemma_segment(b, s0 + s1 + s2 + s3 + s4, s5, s6 + s7 + s8);
    lemma_dec_u64_at(b, p4, p.created_at);
    assert(b =~= (s0 + s1 + s2 + s3 + s4 + s5) + s6 + (s7 + s8));
    lemma_segment(b, s0 + s1 + s2 + s3 + s4 + s5, s6, s7 + s8);
    lemma_dec_u64_at(b, p5, p.likes_count);
    assert(b =~= (s0 + s1 + s2 + s3 + s4 + s5 + s6) + s7 + s8);
    lemma_segment(b, s0 + s1 + s2 + s3 + s4 + s5 + s6, s7, s8);
    lemma_dec_u64_at(b, p6, p.comments_count);
    assert(b =~= (s0 + s1 + s2 + s3 + s4 + s5 + s6 + s7) + s8 + Seq::<u8>::empty());
    lemma_segment(b, s0 + s1 + s2 + s3 + s4 + s5 + s6 + s7, s8, Seq::empty());
    lemma_dec_bytes_list_at(b, p7, p.liked_by);
    assert(spec_dec_post(b) == Option::Some(p));
}

/// Appending one more item extends the encoding of a list's items.
pub proof fn lemma_enc_items_snoc(items: Seq<Seq<u8>>, x: Seq<u8>)
    ensures
        enc_bytes_list_items(items.push(x)) == enc_bytes_list_items(items) + enc_bytes(x),
    decreases items.len(),
{
    if items.len() == 0 {
        assert(items.push(x)[0] == x);
        assert(items.push(x).skip(1) =~= Seq::<Seq<u8>>::empty());
        assert(enc_bytes_list_items(items.push(x)) == enc_bytes(x) + enc_bytes_list_items(
            Seq::<Seq<u8>>::empty(),
        ));
        assert(enc_bytes(x) + Seq::<u8>::empty() =~= enc_bytes(x));
        assert(enc_bytes_list_items(items) + enc_bytes(x) =~= enc_bytes(x));
    } else {
        assert(items.push(x)[0] == items[0]);
        assert(items.push(x).skip(1) =~= items.skip(1).push(x));
        lemma_enc_items_snoc(items.skip(1), x);
        assert(enc_bytes_list_items(items.push(x)) =~= enc_bytes_list_items(items) + enc_bytes(x));
    }
}

/// Appends the encoding of a list of identities.
pub fn put_id_list(out: &mut Vec<u8>, ids: &Vec<Identity>)
    ensures
        final(out)@ == old(out)@ + enc_bytes_list(ids_view(ids@)),
{
    put_u64(out, ids.len() as u64);
    let ghost base = out@;
    let mut i: usize = 0;
    while i < ids.len()
        invariant
            0 <= i <= ids@.len(),
            out@ == base + enc_bytes_list_items(ids_view(ids@).take(i as int)),
        decreases ids@.len() - i,
    {
        let ghost before = ids_view(ids@).take(i as int);
        put_bytes(out, &ids[i].bytes);
        i += 1;
        proof {
            assert(before.push(ids@[i - 1]@) =~= ids_view(ids@).take(i as int));
            lemma_enc_items_snoc(before, ids@[i - 1]@);
        }
    }
    proof {
        assert(ids_view(ids@).take(ids@.len() as int) =~= ids_view(ids@));
    }
}

/// Reads a list of identities, following `dec_bytes_list`.
#[verifier::loop_isolation(false)]
pub fn get_id_list(buf: &Vec<u8>, pos: &mut usize) -> (r: Result<Vec<Identity>, StoreError>)
    ensures
        ({
            let d = dec_bytes_list(buf@, *old(pos) as int);
            match d {
                Option::Some((vs, p)) => (r matches Ok(ids) && ids_view(ids@) == vs) && *final(pos)
                    == p,
                Option::None => r == Err::<Vec<Identity>, StoreError>(StoreError::CorruptRecord),
            }
        }),
{
    let count = match get_u64(buf, pos) {
        Ok(c) => c,
        Err(e) => {
            return Err(e);
        },
    };
    let ghost start = *pos as int;
    let mut ids: Vec<Identity> = Vec::new();
    let mut i: u64 = 0;
    while i < count
        invariant
            0 <= i <= count,
            ids@.len() == i,
            dec_bytes_list_items(buf@, start, count as int) == (match dec_bytes_list_items(
                buf@,
                *pos as int,
                count - i,
            ) {
                Option::None => Option::None::<(Seq<Seq<u8>>, int)>,
                Option::Some((vs, q)) => Option::Some((ids_view(ids@) + vs, q)),
            }),
        decreases count - i,
    {
        let ghost prev_pos = *pos as int;
        let ghost items_before = ids_view(ids@);
        let v = match get_bytes(buf, pos) {
            Ok(v) => v,
            Err(e) => {
                proof {
                    assert(dec_bytes_list_items(buf@, prev_pos, count - i) is None);
                }
                return Err(e);
            },
        };
        let ghost vv = v@;
        ids.push(Identity { bytes: v });
        i += 1;
        proof {
            assert(ids_view(ids@) =~= items_before.push(vv));
            let d = dec_bytes_list_items(buf@, *pos as int, count - i);
            if d is Some {
                let vs = d->Some_0.0;
                assert(items_before + (seq![vv] + vs) =~= items_before.push(vv) + vs);
            }
        }
    }
    proof {
        assert(ids_view(ids@) + Seq::<Seq<u8>>::empty() =~= ids_view(ids@));
    }
    Ok(ids)
}

/// Encodes a post record, or rejects one whose encoding would exceed the
/// declared bound. Never truncates.
pub fn encode_post(p: &Post) -> (r: Result<Vec<u8>, StoreError>)
    ensures
        spec_enc_post(p@).len() <= POST_MAX_BYTES ==> (r matches Ok(b) && b@ == spec_enc_post(p@)),
        spec_enc_post(p@).len() > POST_MAX_BYTES ==> r == Err::<Vec<u8>, StoreError>(
            StoreError::RecordTooLarge,
        ),
{
    let mut out: Vec<u8> = Vec::new();
    put_u8(&mut out, TAG_POST);
    put_u64(&mut out, p.id);
    put_bytes(&mut out, &p.author.bytes);
    put_bytes(&mut out, &p.content);
    put_opt_bytes(&mut out, &p.image_url);
    put_u64(&mut out, p.created_at);
    put_u64(&mut out, p.likes_count);
    put_u64(&mut out, p.comments_count);
    put_id_list(&mut out, &p.liked_by);
    proof {
        reveal(spec_enc_post);
        assert(out@ =~= spec_enc_post(p@));
    }
    if out.len() <= POST_MAX_BYTES {
        Ok(out)
    } else {
        Err(StoreError::RecordTooLarge)
    }
}

/// Decodes a post record, following `spec_dec_post` exactly.
#[verifier::loop_isolation(false)]
pub fn decode_post(b: &Vec<u8>) -> (r: Result<Post, StoreError>)
    ensures
        ({
            let d = spec_dec_post(b@);
            match d {
                Option::Some(v) => r matches Ok(p) && p@ == v && p.wf(),
                Option::None => r == Err::<Post, StoreError>(StoreError::CorruptRecord),
            }
        }),
{
    proof {
        reveal(spec_dec_post);
    }
    let mut pos: usize = 0;
    let tag = match get_u8(b, &mut pos) {
        Ok(t) => t,
        Err(e) => {
            return Err(e);
        },
    };
    if tag != TAG_POST {
        return Err(StoreError::CorruptRecord);
    }
    let id = match get_u64(b, &mut pos) {
        Ok(v) => v,
        Err(e) => {
            return Err(e);
        },
    };
    let author = match get_bytes(b, &mut pos) {
        Ok(v) => v,
        Err(e) => {
            return Err(e);
        },
    };
    if author.len() > IDENTITY_MAX_BYTES {
        return Err(StoreError::CorruptRecord);
    }
    let content = match get_bytes(b, &mut pos) {
        Ok(v) => v,
        Err(e) => {
            return Err(e);
        },
    };
    let image_url = match get_opt_bytes(b, &mut pos) {
        Ok(v) => v,
        Err(e) => {
            return Err(e);
        },
    };
    let created_at = match get_u64(b, &mut pos) {
        Ok(v) => v,
        Err(e) => {
            return Err(e);
        },
    };
    let likes_count = match get_u64(b, &mut pos) {
        Ok(v) => v,
        Err(e) => {
            return Err(e);
        },
    };
    let comments_count = match get_u64(b, &mut pos) {
        Ok(v) => v,
        Err(e) => {
            return Err(e);
        },
    };
    let liked_by = match get_id_list(b, &mut pos) {
        Ok(v) => v,
        Err(e) => {
            return Err(e);
        },
    };
    if pos != b.len() {
        return Err(StoreError::CorruptRecord);
    }
    let mut j: usize = 0;
    while j < liked_by.len()
        invariant
            0 <= j <= liked_by@.len(),
            forall|k: int| 0 <= k < j ==> #[trigger] liked_by@[k]@.len() <= IDENTITY_MAX_BYTES,
        decreases liked_by@.len() - j,
    {
        if liked_by[j].bytes.len() > IDENTITY_MAX_BYTES {
            proof {
                let liked = ids_view(liked_by@);
                assert(liked[j as int].len() > IDENTITY_MAX_BYTES);
                assert(!(forall|i: int|
                    0 <= i < liked.len() ==> #[trigger] liked[i].len() <= IDENTITY_MAX_BYTES));
            }
            return Err(StoreError::CorruptRecord);
        }
        j += 1;
    }
    proof {
        assert(forall|k: int|
            0 <= k < liked_by@.len() ==> #[trigger] ids_view(liked_by@)[k].len()
                <= IDENTITY_MAX_BYTES);
    }
    Ok(
        Post {
            id,
            author: Identity { bytes: author },
            content,
            image_url,
            created_at,
            likes_count,
            comments_count,
            liked_by,
        },
    )
}

/// Mathematical value of a `Comment`.
#[verifier::ext_equal]
pub ghost struct CommentV {
    pub id: u64,
    pub post_id: u64,
    pub author: Seq<u8>,
    pub content: Seq<u8>,
    pub created_at: u64,
}

/// A comment on a post, keyed by its sequential identifier.
#[derive(Debug, PartialEq, Eq)]
pub struct Comment {
    pub id: u64,
    pub post_id: u64,
    pub author: Identity,
    pub content: Vec<u8>,
    pub created_at: u64,
}

impl View for Comment {
    type V = CommentV;

    open spec fn view(&self) -> CommentV {
        CommentV {
            id: self.id,
            post_id: self.post_id,
            author: self.author@,
            content: self.content@,
            created_at: self.created_at,
        }
    }
}

impl Comment {
    /// A comment record holds a bounded identity.
    pub open spec fn wf(&self) -> bool {
        comment_v_wf(self@)
    }
}

impl Clone for Comment {
    fn clone(&self) -> (r: Self)
        ensures
            r@ == self@,
    {
        Comment {
            id: self.id,
            post_id: self.post_id,
            author: self.author.clone(),
            content: clone_bytes(&self.content),
            created_at: self.created_at,
        }
    }
}

/// Bounds under which a comment value encodes and decodes cleanly.
pub open spec fn comment_v_wf(c: CommentV) -> bool {
    &&& c.author.len() <= IDENTITY_MAX_BYTES
    &&& c.content.len() <= u64::MAX
}

/// Encoding of a comment value.
#[verifier::opaque]
pub open spec fn spec_enc_comment(c: CommentV) -> Seq<u8> {
    seq![TAG_COMMENT] + enc_u64(c.id) + enc_u64(c.post_id) + enc_bytes(c.author) + enc_bytes(
        c.content,
    ) + enc_u64(c.created_at)
}

/// Total decoder of a comment record.
#[verifier::opaque]
pub open spec fn spec_dec_comment(b: Seq<u8>) -> Option<CommentV> {
    match dec_u8(b, 0) {
        Option::None => Option::None,
        Option::Some((tag, p0)) => if tag != TAG_COMMENT {
            Option::None
        } else {
            match dec_u64(b, p0) {
                Option::None => Option::None,
                Option::Some((id, p1)) => match dec_u64(b, p1) {
                    Option::None => Option::None,
                    Option::Some((post_id, p2)) => match dec_bytes(b, p2) {
                        Option::None => Option::None,
                        Option::Some((author, p3)) => if author.len() > IDENTITY_MAX_BYTES {
                            Option::None
                        } else {
                            match dec_bytes(b, p3) {
                                Option::None => Option::None,
                                Option::Some((content, p4)) => match dec_u64(b, p4) {
                                    Option::None => Option::None,
                                    Option::Some((created_at, p5)) => if p5 == b.len() {
                                        Option::Some(
                                            CommentV { id, post_id, author, content, created_at },
                                        )
                                    } else {
                                        Option::None
                                    },
                                },
                            }
                        },
                    },
                },
            }
        },
    }
}

/// Round trip of the comment codec.
#[verifier::rlimit(60)]
#[verifier::spinoff_prover]
pub proof fn lemma_comment_round(c: CommentV)
    requires
        comment_v_wf(c),
    ensures
        spec_dec_comment(spec_enc_comment(c)) == Option::Some(c),
{
    reveal(spec_enc_comment);
    reveal(spec_dec_comment);
    let b = spec_enc_comment(c);
    let s0 = seq![TAG_COMMENT];
    let s1 = enc_u64(c.id);
    let s2 = enc_u64(c.post_id);
    let s3 = enc_bytes(c.author);
    let s4 = enc_bytes(c.content);
    let s5 = enc_u64(c.created_at);
    let p0 = s0.len() as int;
    let p1 = p0 + s1.len();
    let p2 = p1 + s2.len();
    let p3 = p2 + s3.len();
    let p4 = p3 + s4.len();
    let p5 = p4 + s5.len();
    assert(b.len() == p5);
    assert(b =~= Seq::<u8>::empty() + s0 + (s1 + s2 + s3 + s4 + s5));
    lemma_segment(b, Seq::empty(), s0, s1 + s2 + s3 + s4 + s5);
    lemma_dec_u8_at(b, 0, TAG_COMMENT);
    assert(b =~= s0 + s1 + (s2 + s3 + s4 + s5));
    lemma_segment(b, s0, s1, s2 + s3 + s4 + s5);
    lemma_dec_u64_at(b, p0, c.id);
    assert(b =~= (s0 + s1) + s2 + (s3 + s4 + s5));
    lemma_segment(b, s0 + s1, s2, s3 + s4 + s5);
    lemma_dec_u64_at(b, p1, c.post_id);
    assert(b =~= (s0 + s1 + s2) + s3 + (s4 + s5));
    lemma_segment(b, s0 + s1 + s2, s3, s4 + s5);
    lemma_dec_bytes_at(b, p2, c.author);
    assert(b =~= (s0 + s1 + s2 + s3) + s4 + s5);
    lemma_segment(b, s0 + s1 + s2 + s3, s4, s5);
    lemma_dec_bytes_at(b, p3, c.content);
    assert(b =~= (s0 + s1 + s2 + s3 + s4) + s5 + Seq::<u8>::empty());
    lemma_segment(b, s0 + s1 + s2 + s3 + s4, s5, Seq::empty());
    lemma_dec_u64_at(b, p4, c.created_at);
    assert(spec_dec_comment(b) == Option::Some(c));
}

/// Encodes a comment record, or rejects one whose encoding would exceed the
/// declared bound. Never truncates.
pub fn encode_comment(c: &Comment) -> (r: Result<Vec<u8>, StoreError>)
    ensures
        spec_enc_comment(c@).len() <= COMMENT_MAX_BYTES ==> (r matches Ok(b) && b@
            == spec_enc_comment(c@)),
        spec_enc_comment(c@).len() > COMMENT_MAX_BYTES ==> r == Err::<Vec<u8>, StoreError>(
            StoreError::RecordTooLarge,
        ),
{
    let mut out: Vec<u8> = Vec::new();
    put_u8(&mut out, TAG_COMMENT);
    put_u64(&mut out, c.id);
    put_u64(&mut out, c.post_id);
    put_bytes(&mut out, &c.author.bytes);
    put_bytes(&mut out, &c.content);
    put_u64(&mut out, c.created_at);
    proof {
        reveal(spec_enc_comment);
        assert(out@ =~= spec_enc_comment(c@));
    }
    if out.len() <= COMMENT_MAX_BYTES {
        Ok(out)
    } else {
        Err(StoreError::RecordTooLarge)
    }
}

/// Decodes a comment record, following `spec_dec_comment` exactly.
pub fn decode_comment(b: &Vec<u8>) -> (r: Result<Comment, StoreError>)
    ensures
        ({
            let d = spec_dec_comment(b@);
            match d {
                Option::Some(v) => r matches Ok(c) && c@ == v && c.wf(),
                Option::None => r == Err::<Comment, StoreError>(StoreError::CorruptRecord),
            }
        }),
{
    proof {
        reveal(spec_dec_comment);
    }
    let mut pos: usize = 0;
    let tag = match get_u8(b, &mut pos) {
        Ok(t) => t,
        Err(e) => {
            return Err(e);
        },
    };
    if tag != TAG_COMMENT {
        return Err(StoreError::CorruptRecord);
    }
    let id = match get_u64(b, &mut pos) {
        Ok(v) => v,
        Err(e) => {
            return Err(e);
        },
    };
    let post_id = match get_u64(b, &mut pos) {
        Ok(v) => v,
        Err(e) => {
            return Err(e);
        },
    };
    let author = match get_bytes(b, &mut pos) {
        Ok(v) => v,
        Err(e) => {
            return Err(e);
        },
    };
    if author.len() > IDENTITY_MAX_BYTES {
        return Err(StoreError::CorruptRecord);
    }
    let content = match get_bytes(b, &mut pos) {
        Ok(v) => v,
        Err(e) => {
            return Err(e);
        },
    };
    let created_at = match get_u64(b, &mut pos) {
        Ok(v) => v,
        Err(e) => {
            return Err(e);
        },
    };
    if pos != b.len() {
        return Err(StoreError::CorruptRecord);
    }
    Ok(Comment { id, post_id, author: Identity { bytes: author }, content, created_at })
}

} // verus!
