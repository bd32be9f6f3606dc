//! The domain operations: users, posts, comments over the entity stores.
//!
//! Every operation takes the pre-authenticated caller identity and the
//! current time as plain arguments — the transport layer owns both — and
//! runs to completion against a single `Storage`. Uniqueness and existence
//! checks, denormalized counters, the like toggle and the comment cascade
//! all live here; the stores below know nothing of them.
//!
//! Contracts are stated over the entity views `users_map`, `posts_map` and
//! `comments_map`: the store's byte maps read through each entity's
//! decoder, which the typed invariants of `Storage::wf` keep total.

use vstd::prelude::*;
use vstd::seq_lib::lemma_multiset_commutative;
use crate::StoreError;
use crate::codec::enc_u64;
use crate::codec::clone_bytes;
use crate::entities::Identity;
use crate::entities::User;
use crate::entities::UserV;
use crate::entities::Post;
use crate::entities::PostV;
use crate::entities::Comment;
use crate::entities::CommentV;
use crate::entities::spec_dec_user;
use crate::entities::spec_dec_post;
use crate::entities::spec_dec_comment;
use crate::entities::spec_enc_user;
use crate::entities::spec_enc_post;
use crate::entities::spec_enc_comment;
use crate::entities::lemma_user_round;
use crate::entities::lemma_post_round;
use crate::entities::lemma_comment_round;
use crate::entities::encode_user;
use crate::entities::decode_user;
use crate::entities::encode_post;
use crate::entities::decode_post;
use crate::entities::encode_comment;
use crate::entities::decode_comment;
use crate::entities::clone_opt_bytes;
use crate::entities::ids_view;
use crate::entities::USER_MAX_BYTES;
use crate::entities::POST_MAX_BYTES;
use crate::entities::COMMENT_MAX_BYTES;
use crate::entities::IDENTITY_MAX_BYTES;
use crate::codec::deep_opt;
use crate::heap::PAGE_SIZE;
use crate::heap::REGION_USERS;
use crate::heap::REGION_POSTS;
use crate::heap::REGION_COMMENTS;
use crate::heap::REGION_COUNTERS;
use crate::order::bytes_cmp;
use crate::order::KeyOrder;
use crate::store::store_map;
use crate::store::store_get;
use crate::store::store_insert;
use crate::store::store_remove;
use crate::store::lemma_sorted_distinct;
use crate::store::lemma_entries_map_contains;
use crate::store::lemma_entries_map_at;
use crate::store::StoreEntry;
use vstd::seq_lib::to_multiset_build;
use crate::storage::Storage;
use crate::storage::POST_COUNTER_KEY;
use crate::storage::COMMENT_COUNTER_KEY;
use crate::storage::counter_of;
use crate::storage::index_typed;
use crate::storage::lemma_typed_map;
use crate::storage::lemma_other_store_preserved;
use crate::storage::user_entry_ok;
use crate::storage::post_entry_ok;
use crate::storage::comment_entry_ok;
use crate::storage::counter_entry_ok;
use vstd::bytes::u64_to_le_bytes;
use vstd::bytes::u64_from_le_bytes;
use vstd::bytes::spec_u64_to_le_bytes_to_open;
use crate::codec::lemma_u64_round;

verus! {

/// Business outcomes of the domain layer, and the storage faults it
/// surfaces unchanged.
#[derive(Clone, Copy, PartialEq, Eq, Structural, Debug)]
pub enum DomainError {
    UserAlreadyExists,
    UsernameTaken,
    UserNotFound,
    PostNotFound,
    NotAuthor,
    Storage(StoreError),
}

/// Mathematical value of a `CreateUserRequest`.
#[verifier::ext_equal]
pub ghost struct CreateUserRequestV {
    pub username: Seq<u8>,
    pub bio: Seq<u8>,
    pub profile_picture: Option<Seq<u8>>,
}

/// What a caller hands in to register or update a profile.
pub struct CreateUserRequest {
    pub username: Vec<u8>,
    pub bio: Vec<u8>,
    pub profile_picture: Option<Vec<u8>>,
}

impl View for CreateUserRequest {
    type V = CreateUserRequestV;

    open spec fn view(&self) -> CreateUserRequestV {
        CreateUserRequestV {
            username: self.username@,
            bio: self.bio@,
            profile_picture: deep_opt(&self.profile_picture),
        }
    }
}

/// Mathematical value of a `CreatePostRequest`.
#[verifier::ext_equal]
pub ghost struct CreatePostRequestV {
    pub content: Seq<u8>,
    pub image_url: Option<Seq<u8>>,
}

/// What a caller hands in to publish a post.
pub struct CreatePostRequest {
    pub content: Vec<u8>,
    pub image_url: Option<Vec<u8>>,
}

impl View for CreatePostRequest {
    type V = CreatePostRequestV;

    open spec fn view(&self) -> CreatePostRequestV {
        CreatePostRequestV { content: self.content@, image_url: deep_opt(&self.image_url) }
    }
}

/// Mathematical value of a `CreateCommentRequest`.
#[verifier::ext_equal]
pub ghost struct CreateCommentRequestV {
    pub post_id: u64,
    pub content: Seq<u8>,
}

/// What a caller hands in to comment on a post.
pub struct CreateCommentRequest {
    pub post_id: u64,
    pub content: Vec<u8>,
}

impl View for CreateCommentRequest {
    type V = CreateCommentRequestV;

    open spec fn view(&self) -> CreateCommentRequestV {
        CreateCommentRequestV { post_id: self.post_id, content: self.content@ }
    }
}

/// Changing only a user's counters keeps its encoded length.
pub proof fn lemma_enc_user_len_counts(u1: UserV, u2: UserV)
    requires
        u1.id == u2.id,
        u1.username == u2.username,
        u1.bio == u2.bio,
        u1.profile_picture == u2.profile_picture,
    ensures
        spec_enc_user(u1).len() == spec_enc_user(u2).len(),
{
    reveal(spec_enc_user);
}

/// Changing only a post's counters keeps its encoded length.
pub proof fn lemma_enc_post_len_counts(p1: PostV, p2: PostV)
    requires
        p1.author == p2.author,
        p1.content == p2.content,
        p1.image_url == p2.image_url,
        p1.liked_by == p2.liked_by,
    ensures
        spec_enc_post(p1).len() == spec_enc_post(p2).len(),
{
    reveal(spec_enc_post);
}

/// The user value a store byte string decodes to.
pub open spec fn dec_user_view(v: Seq<u8>) -> UserV {
    spec_dec_user(v)->Some_0
}

/// The post value a store byte string decodes to.
pub open spec fn dec_post_view(v: Seq<u8>) -> PostV {
    spec_dec_post(v)->Some_0
}

/// The comment value a store byte string decodes to.
pub open spec fn dec_comment_view(v: Seq<u8>) -> CommentV {
    spec_dec_comment(v)->Some_0
}

/// All registered users, by identity.
pub open spec fn users_map(st: Storage) -> Map<Seq<u8>, UserV> {
    store_map(st.users).map_values(|v: Seq<u8>| dec_user_view(v))
}

/// All posts, by encoded id.
pub open spec fn posts_map(st: Storage) -> Map<Seq<u8>, PostV> {
    store_map(st.posts).map_values(|v: Seq<u8>| dec_post_view(v))
}

/// All comments, by encoded id.
pub open spec fn comments_map(st: Storage) -> Map<Seq<u8>, CommentV> {
    store_map(st.comments).map_values(|v: Seq<u8>| dec_comment_view(v))
}

/// The store key of a post or comment id.
pub open spec fn id_key(id: u64) -> Seq<u8> {
    enc_u64(id)
}

/// Mapping the values of a map commutes with inserting one.
pub proof fn lemma_map_values_insert<T>(
    m: Map<Seq<u8>, Seq<u8>>,
    f: spec_fn(Seq<u8>) -> T,
    k: Seq<u8>,
    v: Seq<u8>,
)
    ensures
        m.insert(k, v).map_values(f) == m.map_values(f).insert(k, f(v)),
{
    assert(m.insert(k, v).map_values(f) =~= m.map_values(f).insert(k, f(v)));
}

/// Mapping the values of a map commutes with removing one.
pub proof fn lemma_map_values_remove<T>(m: Map<Seq<u8>, Seq<u8>>, f: spec_fn(Seq<u8>) -> T, k: Seq<u8>)
    ensures
        m.remove(k).map_values(f) == m.map_values(f).remove(k),
{
    assert(m.remove(k).map_values(f) =~= m.map_values(f).remove(k));
}

/// An in-bounds user encoding keeps each variable field within what a
/// 64-bit length prefix can carry.
pub proof fn lemma_user_size_fields(u: UserV)
    requires
        spec_enc_user(u).len() <= USER_MAX_BYTES,
    ensures
        u.username.len() <= u64::MAX,
        u.bio.len() <= u64::MAX,
        (u.profile_picture matches Option::Some(p) ==> p.len() <= u64::MAX),
{
    reveal(spec_enc_user);
    match u.profile_picture {
        Option::Some(p) => {},
        Option::None => {},
    }
}

/// The user value registration writes for a caller.
pub open spec fn new_user_view(id: Seq<u8>, req: CreateUserRequestV, now: u64) -> UserV {
    UserV {
        id,
        username: req.username,
        bio: req.bio,
        profile_picture: req.profile_picture,
        created_at: now,
        followers_count: 0,
        following_count: 0,
        posts_count: 0,
    }
}

/// Whether any registered user carries this username.
pub open spec fn username_taken(st: Storage, name: Seq<u8>) -> bool {
    exists|k: Seq<u8>| #[trigger] users_map(st).contains_key(k) && users_map(st)[k].username == name
}

/// Whether any registered user other than `me` carries this username.
pub open spec fn username_taken_by_other(st: Storage, name: Seq<u8>, me: Seq<u8>) -> bool {
    exists|k: Seq<u8>|
        #[trigger] users_map(st).contains_key(k) && k != me && users_map(st)[k].username == name
}

impl Storage {
    /// Point lookup of a user by identity.
    pub fn get_user(&self, principal: &Identity) -> (r: Option<User>)
        requires
            self.wf(),
        ensures
            users_map(*self).contains_key(principal@) ==> (r matches Some(u) && u@ == users_map(
                *self,
            )[principal@] && u.wf()),
            !users_map(*self).contains_key(principal@) ==> r is None,
    {
        match store_get(&self.users, &principal.bytes) {
            Some(v) => {
                proof {
                    lemma_typed_map(
                        self.users,
                        |k: Seq<u8>, v: Seq<u8>| user_entry_ok(k, v),
                        principal@,
                    );
                }
                match decode_user(&v) {
                    Ok(u) => Some(u),
                    Err(e) => {
                        proof {
                            assert(false);
                        }
                        None
                    },
                }
            },
            None => None,
        }
    }

    /// The caller's own profile, if registered.
    pub fn get_current_user(&self, caller: &Identity) -> (r: Option<User>)
        requires
            self.wf(),
        ensures
            users_map(*self).contains_key(caller@) ==> (r matches Some(u) && u@ == users_map(
                *self,
            )[caller@] && u.wf()),
            !users_map(*self).contains_key(caller@) ==> r is None,
    {
        self.get_user(caller)
    }

    /// Point lookup of a user by identity.
    pub fn get_user_by_principal(&self, principal: &Identity) -> (r: Option<User>)
        requires
            self.wf(),
        ensures
            users_map(*self).contains_key(principal@) ==> (r matches Some(u) && u@ == users_map(
                *self,
            )[principal@] && u.wf()),
            !users_map(*self).contains_key(principal@) ==> r is None,
    {
        self.get_user(principal)
    }

    /// Whether some user — someone other than `exclude`, when given —
    /// carries this username. The uniqueness check of registration and
    /// profile update.
    fn username_in_use(&self, name: &Vec<u8>, exclude: Option<&Identity>) -> (r: bool)
        requires
            self.wf(),
        ensures
            match exclude {
                Some(me) => r == username_taken_by_other(*self, name@, me@),
                None => r == username_taken(*self, name@),
            },
    {
        proof {
            lemma_sorted_distinct(self.users);
        }
        let n = self.users.entries.len();
        let mut i: usize = 0;
        while i < n
            invariant
                self.wf(),
                n == self.users.entries@.len(),
                0 <= i <= n,
                forall|j: int|
                    0 <= j < i ==> {
                        let e = #[trigger] self.users.entries@[j];
                        dec_user_view(e.val@).username != name@ || (exclude matches Some(me)
                            && e.key@ == me@)
                    },
        decreases n - i,
        {
            proof {
                lemma_sorted_distinct(self.users);
                lemma_entries_map_at(self.users.entries@, i as int);
                lemma_typed_map(
                    self.users,
                    |k: Seq<u8>, v: Seq<u8>| user_entry_ok(k, v),
                    self.users.entries@[i as int].key@,
                );
            }
            let u = match decode_user(&self.users.entries[i].val) {
                Ok(u) => u,
                Err(e) => {
                    proof {
                        assert(false);
                    }
                    return false;
                },
            };
            if bytes_cmp(&u.username, name) == KeyOrder::Equal {
                let excluded = match exclude {
                    Some(me) => bytes_cmp(&self.users.entries[i].key, &me.bytes)
                        == KeyOrder::Equal,
                    None => false,
                };
                if !excluded {
                    proof {
                        let k = self.users.entries@[i as int].key@;
                        assert(store_map(self.users).contains_key(k));
                        assert(users_map(*self).contains_key(k));
                        assert(users_map(*self)[k].username == name@);
                    }
                    return true;
                }
            }
            i += 1;
        }
        proof {
            let f = |kk: Seq<u8>| {
                users_map(*self).contains_key(kk) && users_map(*self)[kk].username == name@
            };
            assert forall|k: Seq<u8>| #[trigger]
                users_map(*self).contains_key(k) && users_map(*self)[k].username == name@
                    implies (exclude matches Some(me) && k == me@) by {
                lemma_entries_map_contains(self.users.entries@, k);
                let j = choose|j: int|
                    0 <= j < self.users.entries@.len() && (#[trigger] self.users.entries@[j]).key@
                        == k;
                lemma_entries_map_at(self.users.entries@, j);
            }
        }
        false
    }

    /// Registers the caller's profile. Fails when the caller already has
    /// one, when the username is already in use, when the record would
    /// exceed its encoded bound, and when the heap cannot grow; in every
    /// failing case the storage is left untouched.
    #[verifier::rlimit(100)]
    #[verifier::spinoff_prover]
    pub fn create_user(&mut self, caller: Identity, request: CreateUserRequest, now: u64) -> (r:
        Result<User, DomainError>)
        requires
            old(self).wf(),
            caller.wf(),
        ensures
            final(self).wf(),
            users_map(*old(self)).contains_key(caller@) ==> r == Err::<User, DomainError>(
                DomainError::UserAlreadyExists,
            ) && *final(self) == *old(self),
            (!users_map(*old(self)).contains_key(caller@) && username_taken(
                *old(self),
                request.username@,
            )) ==> r == Err::<User, DomainError>(DomainError::UsernameTaken) && *final(self)
                == *old(self),
            (!users_map(*old(self)).contains_key(caller@) && !username_taken(
                *old(self),
                request.username@,
            )) ==> ({
                let uv = new_user_view(caller@, request@, now);
                if spec_enc_user(uv).len() > USER_MAX_BYTES {
                    r == Err::<User, DomainError>(DomainError::Storage(StoreError::RecordTooLarge))
                        && *final(self) == *old(self)
                } else if old(self).heap.pages@.len() == PAGE_SIZE + 1 {
                    r == Err::<User, DomainError>(
                        DomainError::Storage(StoreError::CapacityExhausted),
                    ) && *final(self) == *old(self)
                } else {
                    &&& r matches Ok(u) && u@ == uv && u.wf()
                    &&& users_map(*final(self)) == users_map(*old(self)).insert(caller@, uv)
                    &&& store_map(final(self).posts) == store_map(old(self).posts)
                    &&& store_map(final(self).comments) == store_map(old(self).comments)
                    &&& store_map(final(self).counters) == store_map(old(self).counters)
                }
            }),
    {
        if self.get_user(&caller).is_some() {
            return Err(DomainError::UserAlreadyExists);
        }
        if self.username_in_use(&request.username, None) {
            return Err(DomainError::UsernameTaken);
        }
        let key = clone_bytes(&caller.bytes);
        let user = User {
            id: caller,
            username: request.username,
            bio: request.bio,
            profile_picture: request.profile_picture,
            created_at: now,
            followers_count: 0,
            following_count: 0,
            posts_count: 0,
        };
        let ghost uv = new_user_view(user.id@, request@, now);
        proof {
            assert(user@ =~= uv);
        }
        let bytes = match encode_user(&user) {
            Ok(b) => b,
            Err(e) => {
                return Err(DomainError::Storage(e));
            },
        };
        proof {
            lemma_user_size_fields(uv);
            lemma_user_round(uv);
        }
        match store_insert(&mut self.heap, &mut self.users, REGION_USERS, key, bytes) {
            Ok(prev) => {
                proof {
                    lemma_other_store_preserved(
                        old(self).heap,
                        self.heap,
                        self.posts,
                        REGION_POSTS,
                        REGION_USERS,
                    );
                    lemma_other_store_preserved(
                        old(self).heap,
                        self.heap,
                        self.comments,
                        REGION_COMMENTS,
                        REGION_USERS,
                    );
                    lemma_other_store_preserved(
                        old(self).heap,
                        self.heap,
                        self.counters,
                        REGION_COUNTERS,
                        REGION_USERS,
                    );
                    assert(index_typed(self.users, |k: Seq<u8>, v: Seq<u8>| user_entry_ok(k, v)))
                        by {
                        assert forall|k: Seq<u8>| #[trigger]
                            store_map(self.users).contains_key(k) implies user_entry_ok(
                            k,
                            store_map(self.users)[k],
                        ) by {
                            if k != uv.id {
                                assert(store_map(old(self).users).contains_key(k));
                                assert(store_map(self.users)[k] == store_map(old(self).users)[k]);
                            }
                        }
                    }
                    lemma_map_values_insert(
                        store_map(old(self).users),
                        |v: Seq<u8>| dec_user_view(v),
                        uv.id,
                        spec_enc_user(uv),
                    );
                }
                Ok(user)
            },
            Err(e) => {
                proof {
                    assert(*self == *old(self));
                }
                Err(DomainError::Storage(e))
            },
        }
    }

    /// Updates the caller's username, bio and profile picture, keeping the
    /// creation time and every counter. Fails when the caller has no
    /// profile, when another user carries the requested username, or when
    /// the record would exceed its encoded bound; in every failing case the
    /// storage is left untouched. An update never grows the heap, so it
    /// cannot exhaust it.
    #[verifier::rlimit(100)]
    #[verifier::spinoff_prover]
    pub fn update_user(&mut self, caller: Identity, request: CreateUserRequest) -> (r: Result<
        User,
        DomainError,
    >)
        requires
            old(self).wf(),
            caller.wf(),
        ensures
            final(self).wf(),
            !users_map(*old(self)).contains_key(caller@) ==> r == Err::<User, DomainError>(
                DomainError::UserNotFound,
            ) && *final(self) == *old(self),
            (users_map(*old(self)).contains_key(caller@) && username_taken_by_other(
                *old(self),
                request.username@,
                caller@,
            )) ==> r == Err::<User, DomainError>(DomainError::UsernameTaken) && *final(self)
                == *old(self),
            (users_map(*old(self)).contains_key(caller@) && !username_taken_by_other(
                *old(self),
                request.username@,
                caller@,
            )) ==> ({
                let u0 = users_map(*old(self))[caller@];
                let uv = UserV {
                    username: request.username@,
                    bio: request.bio@,
                    profile_picture: deep_opt(&request.profile_picture),
                    ..u0
                };
                if spec_enc_user(uv).len() > USER_MAX_BYTES {
                    r == Err::<User, DomainError>(DomainError::Storage(StoreError::RecordTooLarge))
                        && *final(self) == *old(self)
                } else {
                    &&& r matches Ok(u) && u@ == uv && u.wf()
                    &&& users_map(*final(self)) == users_map(*old(self)).insert(caller@, uv)
                    &&& store_map(final(self).posts) == store_map(old(self).posts)
                    &&& store_map(final(self).comments) == store_map(old(self).comments)
                    &&& store_map(final(self).counters) == store_map(old(self).counters)
                }
            }),
    {
        let existing = match self.get_user(&caller) {
            Some(u) => u,
            None => {
                return Err(DomainError::UserNotFound);
            },
        };
        if self.username_in_use(&request.username, Some(&caller)) {
            return Err(DomainError::UsernameTaken);
        }
        let key = clone_bytes(&caller.bytes);
        let user = User {
            id: caller,
            username: request.username,
            bio: request.bio,
            profile_picture: request.profile_picture,
            created_at: existing.created_at,
            followers_count: existing.followers_count,
            following_count: existing.following_count,
            posts_count: existing.posts_count,
        };
        let ghost uv = user@;
        let bytes = match encode_user(&user) {
            Ok(b) => b,
            Err(e) => {
                return Err(DomainError::Storage(e));
            },
        };
        proof {
            lemma_user_size_fields(uv);
            lemma_user_round(uv);
            assert(store_map(old(self).users).contains_key(caller@));
        }
        match store_insert(&mut self.heap, &mut self.users, REGION_USERS, key, bytes) {
            Ok(prev) => {
                proof {
                    lemma_other_store_preserved(
                        old(self).heap,
                        self.heap,
                        self.posts,
                        REGION_POSTS,
                        REGION_USERS,
                    );
                    lemma_other_store_preserved(
                        old(self).heap,
                        self.heap,
                        self.comments,
                        REGION_COMMENTS,
                        REGION_USERS,
                    );
                    lemma_other_store_preserved(
                        old(self).heap,
                        self.heap,
                        self.counters,
                        REGION_COUNTERS,
                        REGION_USERS,
                    );
                    assert(index_typed(self.users, |k: Seq<u8>, v: Seq<u8>| user_entry_ok(k, v)))
                        by {
                        assert forall|k: Seq<u8>| #[trigger]
                            store_map(self.users).contains_key(k) implies user_entry_ok(
                            k,
                            store_map(self.users)[k],
                        ) by {
                            if k != uv.id {
                                assert(store_map(old(self).users).contains_key(k));
                                assert(store_map(self.users)[k] == store_map(old(self).users)[k]);
                            }
                        }
                    }
                    lemma_map_values_insert(
                        store_map(old(self).users),
                        |v: Seq<u8>| dec_user_view(v),
                        uv.id,
                        spec_enc_user(uv),
                    );
                }
                Ok(user)
            },
            Err(e) => {
                proof {
                    assert(false);
                }
                Err(DomainError::Storage(e))
            },
        }
    }

    /// Reads a named id counter.
    fn counter_get(&self, key: u8) -> (c: u64)
        requires
            self.wf(),
        ensures
            c == counter_of(*self, key),
    {
        let mut k: Vec<u8> = Vec::new();
        k.push(key);
        proof {
            assert(k@ =~= seq![key]);
        }
        match store_get(&self.counters, &k) {
            Some(v) => {
                proof {
                    lemma_typed_map(
                        self.counters,
                        |kk: Seq<u8>, vv: Seq<u8>| counter_entry_ok(kk, vv),
                        seq![key],
                    );
                }
                u64_from_le_bytes(v.as_slice())
            },
            None => 0,
        }
    }

    /// Writes a named id counter through to its region. Fails, changing
    /// nothing, exactly when the counter has no page yet and the partition
    /// table is full.
    fn counter_set(&mut self, key: u8, value: u64) -> (r: Result<(), DomainError>)
        requires
            old(self).wf(),
            value >= counter_of(*old(self), key),
        ensures
            final(self).wf(),
            r is Err <==> (!store_map(old(self).counters).contains_key(seq![key]) && old(self).heap.pages@.len() == PAGE_SIZE + 1),
            final(self).heap.pages@.len() <= old(self).heap.pages@.len() + 1,
            match r {
                Ok(u) => {
                    &&& counter_of(*final(self), key) == value
                    &&& (forall|k2: u8|
                        k2 != key ==> #[trigger] counter_of(*final(self), k2) == counter_of(
                            *old(self),
                            k2,
                        ))
                    &&& store_map(final(self).counters) == store_map(old(self).counters).insert(
                        seq![key],
                        enc_u64(value),
                    )
                    &&& store_map(final(self).users) == store_map(old(self).users)
                    &&& store_map(final(self).posts) == store_map(old(self).posts)
                    &&& store_map(final(self).comments) == store_map(old(self).comments)
                    &&& (store_map(old(self).counters).contains_key(seq![key]) ==> final(self).heap.pages@.len() == old(self).heap.pages@.len())
                    &&& (!store_map(old(self).counters).contains_key(seq![key]) ==> final(self).heap.pages@.len() == old(self).heap.pages@.len() + 1)
                },
                Err(e) => e == DomainError::Storage(StoreError::CapacityExhausted) && *final(self)
                    == *old(self),
            },
    {
        let mut k: Vec<u8> = Vec::new();
        k.push(key);
        proof {
            assert(k@ =~= seq![key]);
        }
        let v = u64_to_le_bytes(value);
        let ghost vv = v@;
        match store_insert(&mut self.heap, &mut self.counters, REGION_COUNTERS, k, v) {
            Ok(prev) => {
                proof {
                    lemma_other_store_preserved(
                        old(self).heap,
                        self.heap,
                        self.users,
                        REGION_USERS,
                        REGION_COUNTERS,
                    );
                    lemma_other_store_preserved(
                        old(self).heap,
                        self.heap,
                        self.posts,
                        REGION_POSTS,
                        REGION_COUNTERS,
                    );
                    lemma_other_store_preserved(
                        old(self).heap,
                        self.heap,
                        self.comments,
                        REGION_COMMENTS,
                        REGION_COUNTERS,
                    );
                    assert(index_typed(
                        self.counters,
                        |kk: Seq<u8>, vv2: Seq<u8>| counter_entry_ok(kk, vv2),
                    )) by {
                        assert forall|kk: Seq<u8>| #[trigger]
                            store_map(self.counters).contains_key(kk) implies counter_entry_ok(
                            kk,
                            store_map(self.counters)[kk],
                        ) by {
                            if kk != seq![key] {
                                assert(store_map(old(self).counters).contains_key(kk));
                                assert(store_map(self.counters)[kk] == store_map(
                                    old(self).counters,
                                )[kk]);
                            }
                        }
                    }
                    lemma_u64_round(value);
                    spec_u64_to_le_bytes_to_open(value);
                    crate::storage::lemma_counter_of_after_set(*old(self), *self, key, value);
                    assert(self.ids_dominated()) by {
                        assert forall|k2: Seq<u8>| #[trigger]
                            store_map(self.posts).contains_key(k2) implies spec_dec_post(
                            store_map(self.posts)[k2],
                        )->Some_0.id <= counter_of(*self, POST_COUNTER_KEY) by {
                            assert(store_map(old(self).posts).contains_key(k2));
                            if key == POST_COUNTER_KEY {
                                assert(counter_of(*self, key) == value);
                            } else {
                                assert(counter_of(*self, POST_COUNTER_KEY) == counter_of(
                                    *old(self),
                                    POST_COUNTER_KEY,
                                ));
                            }
                        }
                        assert forall|k2: Seq<u8>| #[trigger]
                            store_map(self.comments).contains_key(k2) implies spec_dec_comment(
                            store_map(self.comments)[k2],
                        )->Some_0.id <= counter_of(*self, COMMENT_COUNTER_KEY) by {
                            assert(store_map(old(self).comments).contains_key(k2));
                            if key == COMMENT_COUNTER_KEY {
                                assert(counter_of(*self, key) == value);
                            } else {
                                assert(counter_of(*self, COMMENT_COUNTER_KEY) == counter_of(
                                    *old(self),
                                    COMMENT_COUNTER_KEY,
                                ));
                            }
                        }
                    }
                }
                Ok(())
            },
            Err(e) => Err(DomainError::Storage(e)),
        }
    }
}

/// An in-bounds post encoding keeps each variable field within what a
/// 64-bit length prefix can carry.
pub proof fn lemma_post_size_fields(p: PostV)
    requires
        spec_enc_post(p).len() <= POST_MAX_BYTES,
    ensures
        p.content.len() <= u64::MAX,
        (p.image_url matches Option::Some(v) ==> v.len() <= u64::MAX),
        p.liked_by.len() <= u64::MAX,
{
    reveal(spec_enc_post);
    match p.image_url {
        Option::Some(v) => {},
        Option::None => {},
    }
    crate::codec::lemma_enc_items_len(p.liked_by);
}

/// An in-bounds comment encoding keeps its content within what a 64-bit
/// length prefix can carry.
pub proof fn lemma_comment_size_fields(c: CommentV)
    requires
        spec_enc_comment(c).len() <= COMMENT_MAX_BYTES,
    ensures
        c.content.len() <= u64::MAX,
{
    reveal(spec_enc_comment);
}

/// A user value with one more authored post, the counter saturating.
pub open spec fn bump_posts_count(u: UserV) -> UserV {
    UserV {
        posts_count: if u.posts_count == u64::MAX {
            u64::MAX
        } else {
            (u.posts_count + 1) as u64
        },
        ..u
    }
}

/// A user value with one less authored post, the counter saturating at
/// zero.
pub open spec fn drop_posts_count(u: UserV) -> UserV {
    UserV {
        posts_count: if u.posts_count == 0 {
            0
        } else {
            (u.posts_count - 1) as u64
        },
        ..u
    }
}

/// A post value with one more comment, the counter saturating.
pub open spec fn bump_comments_count(p: PostV) -> PostV {
    PostV {
        comments_count: if p.comments_count == u64::MAX {
            u64::MAX
        } else {
            (p.comments_count + 1) as u64
        },
        ..p
    }
}

/// Not being a given identity: the predicate the like toggle filters
/// a liker set with.
pub open spec fn not_id(who: Seq<u8>) -> spec_fn(Seq<u8>) -> bool {
    |x: Seq<u8>| x != who
}

/// The post value the like toggle writes: the caller leaves the liker set
/// and the count falls — saturating at zero — if already in it; otherwise
/// the caller joins at the end and the count rises, saturating.
pub open spec fn toggled_post(p: PostV, who: Seq<u8>) -> PostV {
    if p.liked_by.contains(who) {
        PostV {
            likes_count: if p.likes_count == 0 {
                0
            } else {
                (p.likes_count - 1) as u64
            },
            liked_by: p.liked_by.filter(not_id(who)),
            ..p
        }
    } else {
        PostV {
            likes_count: if p.likes_count == u64::MAX {
                u64::MAX
            } else {
                (p.likes_count + 1) as u64
            },
            liked_by: p.liked_by.push(who),
            ..p
        }
    }
}

impl Storage {
    /// Builds the store key of a post or comment id.
    fn make_id_key(id: u64) -> (k: Vec<u8>)
        ensures
            k@ == id_key(id),
            k@.len() == 8,
    {
        let k = u64_to_le_bytes(id);
        proof {
            spec_u64_to_le_bytes_to_open(id);
        }
        k
    }

    /// Point lookup of a post by id.
    pub fn get_post(&self, post_id: u64) -> (r: Option<Post>)
        requires
            self.wf(),
        ensures
            posts_map(*self).contains_key(id_key(post_id)) ==> (r matches Some(p) && p@
                == posts_map(*self)[id_key(post_id)] && p.wf()),
            !posts_map(*self).contains_key(id_key(post_id)) ==> r is None,
    {
        let key = Self::make_id_key(post_id);
        match store_get(&self.posts, &key) {
            Some(v) => {
                proof {
                    lemma_typed_map(
                        self.posts,
                        |k: Seq<u8>, v: Seq<u8>| post_entry_ok(k, v),
                        id_key(post_id),
                    );
                }
                match decode_post(&v) {
                    Ok(p) => Some(p),
                    Err(e) => {
                        proof {
                            assert(false);
                        }
                        None
                    },
                }
            },
            None => None,
        }
    }

    /// Point lookup of a comment by id.
    pub fn get_comment(&self, comment_id: u64) -> (r: Option<Comment>)
        requires
            self.wf(),
        ensures
            comments_map(*self).contains_key(id_key(comment_id)) ==> (r matches Some(c) && c@
                == comments_map(*self)[id_key(comment_id)] && c.wf()),
            !comments_map(*self).contains_key(id_key(comment_id)) ==> r is None,
    {
        let key = Self::make_id_key(comment_id);
        match store_get(&self.comments, &key) {
            Some(v) => {
                proof {
                    lemma_typed_map(
                        self.comments,
                        |k: Seq<u8>, v: Seq<u8>| comment_entry_ok(k, v),
                        id_key(comment_id),
                    );
                }
                match decode_comment(&v) {
                    Ok(c) => Some(c),
                    Err(e) => {
                        proof {
                            assert(false);
                        }
                        None
                    },
                }
            },
            None => None,
        }
    }

    /// Draws the next id from a named counter and persists the new
    /// counter value before returning it. Ids are never reused: the
    /// counter only climbs. Fails, changing nothing, when the id space or
    /// the heap is exhausted.
    fn next_id(&mut self, key: u8) -> (r: Result<u64, DomainError>)
        requires
            old(self).wf(),
        ensures
            final(self).wf(),
            counter_of(*old(self), key) == u64::MAX ==> r == Err::<u64, DomainError>(
                DomainError::Storage(StoreError::CapacityExhausted),
            ) && *final(self) == *old(self),
            counter_of(*old(self), key) < u64::MAX ==> {
                &&& (r is Err <==> (!store_map(old(self).counters).contains_key(seq![key]) && old(self).heap.pages@.len() == PAGE_SIZE + 1))
                &&& match r {
                    Ok(id) => {
                        &&& id == counter_of(*old(self), key) + 1
                        &&& counter_of(*final(self), key) == id
                        &&& (forall|k2: u8|
                            k2 != key ==> #[trigger] counter_of(*final(self), k2) == counter_of(
                                *old(self),
                                k2,
                            ))
                        &&& store_map(final(self).users) == store_map(old(self).users)
                        &&& store_map(final(self).posts) == store_map(old(self).posts)
                        &&& store_map(final(self).comments) == store_map(old(self).comments)
                        &&& (store_map(old(self).counters).contains_key(seq![key]) ==> final(self).heap.pages@.len() == old(self).heap.pages@.len())
                        &&& (!store_map(old(self).counters).contains_key(seq![key]) ==> final(self).heap.pages@.len() == old(self).heap.pages@.len() + 1)
                    },
                    Err(e) => e == DomainError::Storage(StoreError::CapacityExhausted) && *final(self) == *old(self),
                }
            },
    {
        let c = self.counter_get(key);
        if c == u64::MAX {
            return Err(DomainError::Storage(StoreError::CapacityExhausted));
        }
        let id = c + 1;
        match self.counter_set(key, id) {
            Ok(u) => {
                proof {
                    lemma_u64_round(id);
                }
                Ok(id)
            },
            Err(e) => Err(e),
        }
    }

    /// Whether the caller is among a post's likers.
    fn ids_contains(ids: &Vec<Identity>, who: &Identity) -> (r: bool)
        ensures
            r == ids_view(ids@).contains(who@),
    {
        let mut i: usize = 0;
        while i < ids.len()
            invariant
                0 <= i <= ids@.len(),
                forall|j: int| 0 <= j < i ==> ids_view(ids@)[j] != who@,
            decreases ids@.len() - i,
        {
            if ids[i].same_as(who) {
                proof {
                    assert(ids_view(ids@)[i as int] == who@);
                }
                return true;
            }
            i += 1;
        }
        proof {
            if ids_view(ids@).contains(who@) {
                let j = choose|j: int|
                    0 <= j < ids_view(ids@).len() && ids_view(ids@)[j] == who@;
                assert(false);
            }
        }
        false
    }

    /// The likers of a post without one caller, order kept.
    fn ids_filter_out(ids: &Vec<Identity>, who: &Identity) -> (r: Vec<Identity>)
        ensures
            ids_view(r@) == ids_view(ids@).filter(not_id(who@)),
    {
        let mut out: Vec<Identity> = Vec::new();
        let mut i: usize = 0;
        while i < ids.len()
            invariant
                0 <= i <= ids@.len(),
                ids_view(out@) == ids_view(ids@).take(i as int).filter(not_id(who@)),
            decreases ids@.len() - i,
        {
            let ghost pre = ids_view(ids@).take(i as int);
            let keep = !ids[i].same_as(who);
            if keep {
                out.push(ids[i].clone());
            }
            i += 1;
            proof {
                assert(ids_view(ids@).take(i as int) =~= pre.push(ids@[i - 1]@));
                pre.lemma_filter_push(ids@[i - 1]@, not_id(who@));
                if keep {
                    assert(ids_view(out@) =~= pre.filter(not_id(who@)).push(ids@[i - 1]@));
                }
            }
        }
        proof {
            assert(ids_view(ids@).take(ids@.len() as int) =~= ids_view(ids@));
        }
        out
    }

    /// Draws the next post id.
    pub fn next_post_id(&mut self) -> (r: Result<u64, DomainError>)
        requires
            old(self).wf(),
        ensures
            final(self).wf(),
            counter_of(*old(self), POST_COUNTER_KEY) == u64::MAX ==> r == Err::<
                u64,
                DomainError,
            >(DomainError::Storage(StoreError::CapacityExhausted)) && *final(self) == *old(self),
            counter_of(*old(self), POST_COUNTER_KEY) < u64::MAX ==> {
                &&& (r is Err <==> (!store_map(old(self).counters).contains_key(
                    seq![POST_COUNTER_KEY],
                ) && old(self).heap.pages@.len() == PAGE_SIZE + 1))
                &&& match r {
                    Ok(id) => {
                        &&& id == counter_of(*old(self), POST_COUNTER_KEY) + 1
                        &&& counter_of(*final(self), POST_COUNTER_KEY) == id
                        &&& store_map(final(self).users) == store_map(old(self).users)
                        &&& store_map(final(self).posts) == store_map(old(self).posts)
                        &&& store_map(final(self).comments) == store_map(old(self).comments)
                    },
                    Err(e) => e == DomainError::Storage(StoreError::CapacityExhausted) && *final(self) == *old(self),
                }
            },
    {
        self.next_id(POST_COUNTER_KEY)
    }
}

/// After an insert of a canonical user encoding through the users store,
/// the whole storage is well-formed again and only the users view changed,
/// by exactly that record.
proof fn lemma_insert_user_store(pre: Storage, cur: Storage, u: UserV)
    requires
        pre.wf(),
        crate::store::store_wf(cur.heap, cur.users, REGION_USERS),
        crate::heap::preserves_other_regions(pre.heap, cur.heap, REGION_USERS),
        cur.heap.wf(),
        cur.posts == pre.posts,
        cur.comments == pre.comments,
        cur.counters == pre.counters,
        store_map(cur.users) == store_map(pre.users).insert(u.id, spec_enc_user(u)),
        spec_dec_user(spec_enc_user(u)) == Option::Some(u),
        spec_enc_user(u).len() <= USER_MAX_BYTES,
    ensures
        cur.wf(),
        users_map(cur) == users_map(pre).insert(u.id, u),
        store_map(cur.posts) == store_map(pre.posts),
        store_map(cur.comments) == store_map(pre.comments),
        store_map(cur.counters) == store_map(pre.counters),
{
    lemma_other_store_preserved(pre.heap, cur.heap, cur.posts, REGION_POSTS, REGION_USERS);
    lemma_other_store_preserved(pre.heap, cur.heap, cur.comments, REGION_COMMENTS, REGION_USERS);
    lemma_other_store_preserved(pre.heap, cur.heap, cur.counters, REGION_COUNTERS, REGION_USERS);
    assert(index_typed(cur.users, |k: Seq<u8>, v: Seq<u8>| user_entry_ok(k, v))) by {
        assert forall|k: Seq<u8>| #[trigger]
            store_map(cur.users).contains_key(k) implies user_entry_ok(
            k,
            store_map(cur.users)[k],
        ) by {
            if k != u.id {
                assert(store_map(pre.users).contains_key(k));
                assert(store_map(cur.users)[k] == store_map(pre.users)[k]);
            }
        }
    }
    lemma_map_values_insert(
        store_map(pre.users),
        |v: Seq<u8>| dec_user_view(v),
        u.id,
        spec_enc_user(u),
    );
}

/// After an insert of a canonical post encoding through the posts store,
/// the whole storage is well-formed again and only the posts view changed,
/// by exactly that record.
proof fn lemma_insert_post_store(pre: Storage, cur: Storage, p: PostV)
    requires
        pre.wf(),
        p.id <= counter_of(pre, POST_COUNTER_KEY),
        crate::store::store_wf(cur.heap, cur.posts, REGION_POSTS),
        crate::heap::preserves_other_regions(pre.heap, cur.heap, REGION_POSTS),
        cur.heap.wf(),
        cur.users == pre.users,
        cur.comments == pre.comments,
        cur.counters == pre.counters,
        store_map(cur.posts) == store_map(pre.posts).insert(id_key(p.id), spec_enc_post(p)),
        spec_dec_post(spec_enc_post(p)) == Option::Some(p),
        spec_enc_post(p).len() <= POST_MAX_BYTES,
    ensures
        cur.wf(),
        posts_map(cur) == posts_map(pre).insert(id_key(p.id), p),
        store_map(cur.users) == store_map(pre.users),
        store_map(cur.comments) == store_map(pre.comments),
        store_map(cur.counters) == store_map(pre.counters),
{
    lemma_other_store_preserved(pre.heap, cur.heap, cur.users, REGION_USERS, REGION_POSTS);
    lemma_other_store_preserved(pre.heap, cur.heap, cur.comments, REGION_COMMENTS, REGION_POSTS);
    lemma_other_store_preserved(pre.heap, cur.heap, cur.counters, REGION_COUNTERS, REGION_POSTS);
    assert(index_typed(cur.posts, |k: Seq<u8>, v: Seq<u8>| post_entry_ok(k, v))) by {
        assert forall|k: Seq<u8>| #[trigger]
            store_map(cur.posts).contains_key(k) implies post_entry_ok(
            k,
            store_map(cur.posts)[k],
        ) by {
            if k != id_key(p.id) {
                assert(store_map(pre.posts).contains_key(k));
                assert(store_map(cur.posts)[k] == store_map(pre.posts)[k]);
            }
        }
    }
    lemma_map_values_insert(
        store_map(pre.posts),
        |v: Seq<u8>| dec_post_view(v),
        id_key(p.id),
        spec_enc_post(p),
    );
    assert(cur.ids_dominated()) by {
        assert(counter_of(cur, POST_COUNTER_KEY) == counter_of(pre, POST_COUNTER_KEY));
        assert(counter_of(cur, COMMENT_COUNTER_KEY) == counter_of(pre, COMMENT_COUNTER_KEY));
        assert forall|k: Seq<u8>| #[trigger]
            store_map(cur.posts).contains_key(k) implies spec_dec_post(
            store_map(cur.posts)[k],
        )->Some_0.id <= counter_of(cur, POST_COUNTER_KEY) by {
            if k != id_key(p.id) {
                assert(store_map(pre.posts).contains_key(k));
                assert(store_map(cur.posts)[k] == store_map(pre.posts)[k]);
            }
        }
        assert forall|k: Seq<u8>| #[trigger]
            store_map(cur.comments).contains_key(k) implies spec_dec_comment(
            store_map(cur.comments)[k],
        )->Some_0.id <= counter_of(cur, COMMENT_COUNTER_KEY) by {
            assert(store_map(pre.comments).contains_key(k));
        }
    }
}

/// After an insert of a canonical comment encoding through the comments
/// store, the whole storage is well-formed again and only the comments
/// view changed, by exactly that record.
proof fn lemma_insert_comment_store(pre: Storage, cur: Storage, c: CommentV)
    requires
        pre.wf(),
        c.id <= counter_of(pre, COMMENT_COUNTER_KEY),
        crate::store::store_wf(cur.heap, cur.comments, REGION_COMMENTS),
        crate::heap::preserves_other_regions(pre.heap, cur.heap, REGION_COMMENTS),
        cur.heap.wf(),
        cur.users == pre.users,
        cur.posts == pre.posts,
        cur.counters == pre.counters,
        store_map(cur.comments) == store_map(pre.comments).insert(
            id_key(c.id),
            spec_enc_comment(c),
        ),
        spec_dec_comment(spec_enc_comment(c)) == Option::Some(c),
        spec_enc_comment(c).len() <= COMMENT_MAX_BYTES,
    ensures
        cur.wf(),
        comments_map(cur) == comments_map(pre).insert(id_key(c.id), c),
        store_map(cur.users) == store_map(pre.users),
        store_map(cur.posts) == store_map(pre.posts),
        store_map(cur.counters) == store_map(pre.counters),
{
    lemma_other_store_preserved(pre.heap, cur.heap, cur.users, REGION_USERS, REGION_COMMENTS);
    lemma_other_store_preserved(pre.heap, cur.heap, cur.posts, REGION_POSTS, REGION_COMMENTS);
    lemma_other_store_preserved(pre.heap, cur.heap, cur.counters, REGION_COUNTERS, REGION_COMMENTS);
    assert(index_typed(cur.comments, |k: Seq<u8>, v: Seq<u8>| comment_entry_ok(k, v))) by {
        assert forall|k: Seq<u8>| #[trigger]
            store_map(cur.comments).contains_key(k) implies comment_entry_ok(
            k,
            store_map(cur.comments)[k],
        ) by {
            if k != id_key(c.id) {
                assert(store_map(pre.comments).contains_key(k));
                assert(store_map(cur.comments)[k] == store_map(pre.comments)[k]);
            }
        }
    }
    lemma_map_values_insert(
        store_map(pre.comments),
        |v: Seq<u8>| dec_comment_view(v),
        id_key(c.id),
        spec_enc_comment(c),
    );
    assert(cur.ids_dominated()) by {
        assert(counter_of(cur, POST_COUNTER_KEY) == counter_of(pre, POST_COUNTER_KEY));
        assert(counter_of(cur, COMMENT_COUNTER_KEY) == counter_of(pre, COMMENT_COUNTER_KEY));
        assert forall|k: Seq<u8>| #[trigger]
            store_map(cur.comments).contains_key(k) implies spec_dec_comment(
            store_map(cur.comments)[k],
        )->Some_0.id <= counter_of(cur, COMMENT_COUNTER_KEY) by {
            if k != id_key(c.id) {
                assert(store_map(pre.comments).contains_key(k));
                assert(store_map(cur.comments)[k] == store_map(pre.comments)[k]);
            }
        }
        assert forall|k: Seq<u8>| #[trigger]
            store_map(cur.posts).contains_key(k) implies spec_dec_post(
            store_map(cur.posts)[k],
        )->Some_0.id <= counter_of(cur, POST_COUNTER_KEY) by {
            assert(store_map(pre.posts).contains_key(k));
        }
    }
}

/// Counter dominance makes a freshly drawn post id fresh: no stored post
/// carries an id the counter has not yet reached.
proof fn lemma_fresh_post_id(st: Storage)
    requires
        st.wf(),
        counter_of(st, POST_COUNTER_KEY) < u64::MAX,
    ensures
        !posts_map(st).contains_key(id_key((counter_of(st, POST_COUNTER_KEY) + 1) as u64)),
{
    let c = counter_of(st, POST_COUNTER_KEY);
    let id = (c + 1) as u64;
    if posts_map(st).contains_key(id_key(id)) {
        assert(store_map(st.posts).contains_key(id_key(id)));
        lemma_typed_map(st.posts, |k: Seq<u8>, v: Seq<u8>| post_entry_ok(k, v), id_key(id));
        let pd = spec_dec_post(store_map(st.posts)[id_key(id)])->Some_0;
        assert(id_key(id) == enc_u64(pd.id));
        lemma_u64_round(id);
        lemma_u64_round(pd.id);
        assert(pd.id == id);
    }
}

/// Counter dominance makes a freshly drawn comment id fresh.
proof fn lemma_fresh_comment_id(st: Storage)
    requires
        st.wf(),
        counter_of(st, COMMENT_COUNTER_KEY) < u64::MAX,
    ensures
        !comments_map(st).contains_key(id_key((counter_of(st, COMMENT_COUNTER_KEY) + 1) as u64)),
{
    let c = counter_of(st, COMMENT_COUNTER_KEY);
    let id = (c + 1) as u64;
    if comments_map(st).contains_key(id_key(id)) {
        assert(store_map(st.comments).contains_key(id_key(id)));
        lemma_typed_map(
            st.comments,
            |k: Seq<u8>, v: Seq<u8>| comment_entry_ok(k, v),
            id_key(id),
        );
        let cd = spec_dec_comment(store_map(st.comments)[id_key(id)])->Some_0;
        assert(id_key(id) == enc_u64(cd.id));
        lemma_u64_round(id);
        lemma_u64_round(cd.id);
        assert(cd.id == id);
    }
}

/// The post value publication writes for a caller.
pub open spec fn new_post_view(id: u64, author: Seq<u8>, req: CreatePostRequestV, now: u64) -> PostV {
    PostV {
        id,
        author,
        content: req.content,
        image_url: req.image_url,
        created_at: now,
        likes_count: 0,
        comments_count: 0,
        liked_by: Seq::empty(),
    }
}

/// The comment value creation writes for a caller.
pub open spec fn new_comment_view(id: u64, author: Seq<u8>, req: CreateCommentRequestV, now: u64) -> CommentV {
    CommentV { id, post_id: req.post_id, author, content: req.content, created_at: now }
}

impl Storage {
    /// Exact encoded length of the post a request would create. The id and
    /// the timestamp are fixed-width fields, so the length is known before
    /// an id is drawn: an oversized request is rejected without consuming
    /// one.
    fn post_encoded_len(author: &Identity, request: &CreatePostRequest) -> (n: u128)
        ensures
            forall|id: u64, now: u64|
                n == spec_enc_post(#[trigger] new_post_view(id, author@, request@, now)).len(),
    {
        let opt: u128 = match &request.image_url {
            Option::None => 1,
            Option::Some(v) => 1 + 8 + v.len() as u128,
        };
        let n: u128 = 1 + 8 + (8 + author.bytes.len() as u128) + (8
            + request.content.len() as u128) + opt + 8 + 8 + 8 + 8;
        proof {
            reveal(spec_enc_post);
            assert forall|id: u64, now: u64|
                n == spec_enc_post(#[trigger] new_post_view(id, author@, request@, now)).len() by {
                let pv = new_post_view(id, author@, request@, now);
                assert(crate::codec::enc_bytes_list_items(pv.liked_by).len() == 0);
                match request.image_url {
                    Option::None => {},
                    Option::Some(ref v) => {},
                }
            }
        }
        n
    }

    /// Exact encoded length of the comment a request would create; as for
    /// posts, known before an id is drawn.
    fn comment_encoded_len(author: &Identity, request: &CreateCommentRequest) -> (n: u128)
        ensures
            forall|id: u64, now: u64|
                n == spec_enc_comment(
                    #[trigger] new_comment_view(id, author@, request@, now),
                ).len(),
    {
        let n: u128 = 1 + 8 + 8 + (8 + author.bytes.len() as u128) + (8
            + request.content.len() as u128) + 8;
        proof {
            reveal(spec_enc_comment);
        }
        n
    }
}


impl Storage {
    /// Publishes a post under the next sequential id and counts it on the
    /// author's profile. Fails when the caller has no profile, when the id
    /// space is spent, when the record would exceed its encoded bound, and
    /// when the heap cannot grow. A rejected record is never written; a
    /// rejection after the id was drawn (an oversized record, a full heap)
    /// leaves every store unchanged but consumes the id.
    #[verifier::rlimit(100)]
    #[verifier::spinoff_prover]
    pub fn create_post(&mut self, caller: Identity, request: CreatePostRequest, now: u64) -> (r:
        Result<Post, DomainError>)
        requires
            old(self).wf(),
            caller.wf(),
        ensures
            final(self).wf(),
            !users_map(*old(self)).contains_key(caller@) ==> r == Err::<Post, DomainError>(
                DomainError::UserNotFound,
            ) && *final(self) == *old(self),
            users_map(*old(self)).contains_key(caller@) ==> ({
                let c = counter_of(*old(self), POST_COUNTER_KEY);
                let id = (c + 1) as u64;
                let pv = new_post_view(id, caller@, request@, now);
                if spec_enc_post(pv).len() > POST_MAX_BYTES {
                    r == Err::<Post, DomainError>(DomainError::Storage(StoreError::RecordTooLarge))
                        && *final(self) == *old(self)
                } else if c == u64::MAX {
                    r == Err::<Post, DomainError>(
                        DomainError::Storage(StoreError::CapacityExhausted),
                    ) && *final(self) == *old(self)
                } else {
                    &&& (r matches Ok(p) ==> {
                        &&& p@ == pv
                        &&& posts_map(*final(self)) == posts_map(*old(self)).insert(id_key(id), pv)
                        &&& users_map(*final(self)) == users_map(*old(self)).insert(
                            caller@,
                            bump_posts_count(users_map(*old(self))[caller@]),
                        )
                        &&& counter_of(*final(self), POST_COUNTER_KEY) == id
                        &&& store_map(final(self).comments) == store_map(old(self).comments)
                    })
                    &&& (r is Err ==> {
                        &&& r == Err::<Post, DomainError>(
                            DomainError::Storage(StoreError::CapacityExhausted),
                        )
                        &&& store_map(final(self).users) == store_map(old(self).users)
                        &&& store_map(final(self).posts) == store_map(old(self).posts)
                        &&& store_map(final(self).comments) == store_map(old(self).comments)
                    })
                    &&& !posts_map(*old(self)).contains_key(id_key(id))
                    &&& (r is Err <==> (old(self).heap.pages@.len() == PAGE_SIZE + 1 || (
                    !store_map(old(self).counters).contains_key(seq![POST_COUNTER_KEY]) && old(
                        self,
                    ).heap.pages@.len() == PAGE_SIZE)))
                }
            }),
    {
        let user = match self.get_user(&caller) {
            Some(u) => u,
            None => {
                return Err(DomainError::UserNotFound);
            },
        };
        proof {
            if counter_of(*old(self), POST_COUNTER_KEY) < u64::MAX {
                lemma_fresh_post_id(*old(self));
            }
        }
        let need = Self::post_encoded_len(&caller, &request);
        if need > POST_MAX_BYTES as u128 {
            return Err(DomainError::Storage(StoreError::RecordTooLarge));
        }
        let caller_key = clone_bytes(&caller.bytes);
        let ghost st0 = *old(self);
        let id = match self.next_id(POST_COUNTER_KEY) {
            Ok(id) => id,
            Err(e) => {
                return Err(e);
            },
        };
        let ghost st1 = *self;
        let post = Post {
            id,
            author: caller,
            content: request.content,
            image_url: request.image_url,
            created_at: now,
            likes_count: 0,
            comments_count: 0,
            liked_by: Vec::new(),
        };
        let ghost pv = post@;
        proof {
            assert(pv =~= new_post_view(id, post.author@, request@, now));
        }
        let bytes = match encode_post(&post) {
            Ok(b) => b,
            Err(e) => {
                proof {
                    assert(false);
                }
                return Err(DomainError::Storage(e));
            },
        };
        proof {
            lemma_post_size_fields(pv);
            lemma_post_round(pv);
        }
        let key = Self::make_id_key(id);
        match store_insert(&mut self.heap, &mut self.posts, REGION_POSTS, key, bytes) {
            Ok(prev) => {},
            Err(e) => {
                return Err(DomainError::Storage(e));
            },
        }
        let ghost st2 = *self;
        proof {
            lemma_insert_post_store(st1, st2, pv);
        }
        // count the post on the author's profile
        let ghost u0 = users_map(st0)[caller@];
        proof {
            lemma_typed_map(st0.users, |k: Seq<u8>, v: Seq<u8>| user_entry_ok(k, v), user.id@);
            lemma_enc_user_len_counts(bump_posts_count(u0), u0);
        }
        let new_count = if user.posts_count < u64::MAX {
            user.posts_count + 1
        } else {
            u64::MAX
        };
        let user2 = User {
            id: user.id,
            username: user.username,
            bio: user.bio,
            profile_picture: user.profile_picture,
            created_at: user.created_at,
            followers_count: user.followers_count,
            following_count: user.following_count,
            posts_count: new_count,
        };
        proof {
            assert(user2@ =~= bump_posts_count(u0));
            lemma_user_size_fields(user2@);
            lemma_user_round(user2@);
        }
        let ubytes = match encode_user(&user2) {
            Ok(b) => b,
            Err(e) => {
                proof {
                    assert(false);
                }
                return Err(DomainError::Storage(e));
            },
        };
        match store_insert(&mut self.heap, &mut self.users, REGION_USERS, caller_key, ubytes) {
            Ok(prev) => {
                proof {
                    lemma_insert_user_store(st2, *self, user2@);
                }
                Ok(post)
            },
            Err(e) => {
                proof {
                    assert(false);
                }
                Err(DomainError::Storage(e))
            },
        }
    }

    /// Toggles the caller's like on a post: joins the liker set and raises
    /// the count when absent, leaves it and lowers the count — never below
    /// zero — when present. Fails when the caller has no profile, when the
    /// post does not exist, or when the grown record would exceed its
    /// encoded bound; in every failing case the storage is left untouched.
    #[verifier::rlimit(100)]
    #[verifier::spinoff_prover]
    pub fn like_post(&mut self, caller: Identity, post_id: u64) -> (r: Result<Post, DomainError>)
        requires
            old(self).wf(),
            caller.wf(),
        ensures
            final(self).wf(),
            !users_map(*old(self)).contains_key(caller@) ==> r == Err::<Post, DomainError>(
                DomainError::UserNotFound,
            ) && *final(self) == *old(self),
            (users_map(*old(self)).contains_key(caller@) && !posts_map(*old(self)).contains_key(
                id_key(post_id),
            )) ==> r == Err::<Post, DomainError>(DomainError::PostNotFound) && *final(self) == *old(self),
            (users_map(*old(self)).contains_key(caller@) && posts_map(*old(self)).contains_key(
                id_key(post_id),
            )) ==> ({
                let p1 = toggled_post(posts_map(*old(self))[id_key(post_id)], caller@);
                if spec_enc_post(p1).len() > POST_MAX_BYTES {
                    r == Err::<Post, DomainError>(DomainError::Storage(StoreError::RecordTooLarge))
                        && *final(self) == *old(self)
                } else {
                    &&& r matches Ok(p) && p@ == p1
                    &&& posts_map(*final(self)) == posts_map(*old(self)).insert(
                        id_key(post_id),
                        p1,
                    )
                    &&& store_map(final(self).users) == store_map(old(self).users)
                    &&& store_map(final(self).comments) == store_map(old(self).comments)
                    &&& store_map(final(self).counters) == store_map(old(self).counters)
                }
            }),
    {
        if self.get_user(&caller).is_none() {
            return Err(DomainError::UserNotFound);
        }
        let p0 = match self.get_post(post_id) {
            Some(p) => p,
            None => {
                return Err(DomainError::PostNotFound);
            },
        };
        let ghost pv0 = p0@;
        let was = Self::ids_contains(&p0.liked_by, &caller);
        let new_liked = if was {
            Self::ids_filter_out(&p0.liked_by, &caller)
        } else {
            let mut v = crate::entities::clone_ids(&p0.liked_by);
            v.push(caller.clone());
            proof {
                assert(ids_view(v@) =~= ids_view(p0.liked_by@).push(caller@));
            }
            v
        };
        let new_likes = if was {
            if p0.likes_count > 0 {
                p0.likes_count - 1
            } else {
                0
            }
        } else {
            if p0.likes_count < u64::MAX {
                p0.likes_count + 1
            } else {
                u64::MAX
            }
        };
        let p_new = Post {
            id: p0.id,
            author: p0.author.clone(),
            content: clone_bytes(&p0.content),
            image_url: clone_opt_bytes(&p0.image_url),
            created_at: p0.created_at,
            likes_count: new_likes,
            comments_count: p0.comments_count,
            liked_by: new_liked,
        };
        let ghost p1 = toggled_post(pv0, caller@);
        proof {
            assert(p_new@ =~= p1);
        }
        let bytes = match encode_post(&p_new) {
            Ok(b) => b,
            Err(e) => {
                return Err(DomainError::Storage(e));
            },
        };
        proof {
            lemma_post_size_fields(p1);
            if was {
                assert forall|j: int|
                    0 <= j < p1.liked_by.len() implies #[trigger] p1.liked_by[j].len()
                    <= IDENTITY_MAX_BYTES by {
                    assert(p1.liked_by.contains(p1.liked_by[j]));
                    pv0.liked_by.lemma_filter_contains_rev(not_id(caller@), p1.liked_by[j]);
                    let i = choose|i: int|
                        0 <= i < pv0.liked_by.len() && pv0.liked_by[i] == p1.liked_by[j];
                }
            } else {
                assert forall|j: int|
                    0 <= j < p1.liked_by.len() implies #[trigger] p1.liked_by[j].len()
                    <= IDENTITY_MAX_BYTES by {
                    if j < pv0.liked_by.len() {
                        assert(p1.liked_by[j] == pv0.liked_by[j]);
                    }
                }
            }
            lemma_post_round(p1);
        }
        let key = Self::make_id_key(post_id);
        match store_insert(&mut self.heap, &mut self.posts, REGION_POSTS, key, bytes) {
            Ok(prev) => {
                proof {
                    assert(p1.id == post_id) by {
                        lemma_typed_map(
                            old(self).posts,
                            |k: Seq<u8>, v: Seq<u8>| post_entry_ok(k, v),
                            id_key(post_id),
                        );
                        lemma_u64_round(post_id);
                        lemma_u64_round(pv0.id);
                    }
                    lemma_insert_post_store(*old(self), *self, p1);
                }
                Ok(p_new)
            },
            Err(e) => {
                proof {
                    assert(false);
                }
                Err(DomainError::Storage(e))
            },
        }
    }

    /// Creates a comment under the next sequential id on an existing post,
    /// and counts it on that post. Fails when the caller has no profile,
    /// when the post does not exist, when the id space is spent, when the
    /// record would exceed its encoded bound, and when the heap cannot
    /// grow. A rejected record is never written; a rejection after the id
    /// was drawn leaves every store unchanged but consumes the id.
    #[verifier::rlimit(100)]
    #[verifier::spinoff_prover]
    pub fn create_comment(&mut self, caller: Identity, request: CreateCommentRequest, now: u64) -> (
        r: Result<Comment, DomainError>)
        requires
            old(self).wf(),
            caller.wf(),
        ensures
            final(self).wf(),
            !users_map(*old(self)).contains_key(caller@) ==> r == Err::<Comment, DomainError>(
                DomainError::UserNotFound,
            ) && *final(self) == *old(self),
            (users_map(*old(self)).contains_key(caller@) && !posts_map(*old(self)).contains_key(
                id_key(request.post_id),
            )) ==> r == Err::<Comment, DomainError>(DomainError::PostNotFound) && *final(self)
                == *old(self),
            (users_map(*old(self)).contains_key(caller@) && posts_map(*old(self)).contains_key(
                id_key(request.post_id),
            )) ==> ({
                let c = counter_of(*old(self), COMMENT_COUNTER_KEY);
                let id = (c + 1) as u64;
                let cv = new_comment_view(id, caller@, request@, now);
                if spec_enc_comment(cv).len() > COMMENT_MAX_BYTES {
                    r == Err::<Comment, DomainError>(
                        DomainError::Storage(StoreError::RecordTooLarge),
                    ) && *final(self) == *old(self)
                } else if c == u64::MAX {
                    r == Err::<Comment, DomainError>(
                        DomainError::Storage(StoreError::CapacityExhausted),
                    ) && *final(self) == *old(self)
                } else {
                    &&& (r matches Ok(cm) ==> {
                        &&& cm@ == cv
                        &&& comments_map(*final(self)) == comments_map(*old(self)).insert(
                            id_key(id),
                            cv,
                        )
                        &&& posts_map(*final(self)) == posts_map(*old(self)).insert(
                            id_key(request.post_id),
                            bump_comments_count(posts_map(*old(self))[id_key(request.post_id)]),
                        )
                        &&& counter_of(*final(self), COMMENT_COUNTER_KEY) == id
                        &&& store_map(final(self).users) == store_map(old(self).users)
                    })
                    &&& (r matches Err(e) ==> {
                        &&& (e == DomainError::Storage(StoreError::CapacityExhausted) || e
                            == DomainError::Storage(StoreError::RecordTooLarge))
                        &&& store_map(final(self).users) == store_map(old(self).users)
                        &&& store_map(final(self).posts) == store_map(old(self).posts)
                        &&& store_map(final(self).comments) == store_map(old(self).comments)
                    })
                    &&& (spec_enc_comment(cv).len() > COMMENT_MAX_BYTES ==> !(r is Ok))
                    &&& ((spec_enc_comment(cv).len() <= COMMENT_MAX_BYTES && old(self).heap.pages@.len() + 2 <= PAGE_SIZE + 1) ==> r is Ok)
                }
            }),
    {
        if self.get_user(&caller).is_none() {
            return Err(DomainError::UserNotFound);
        }
        let p0 = match self.get_post(request.post_id) {
            Some(p) => p,
            None => {
                return Err(DomainError::PostNotFound);
            },
        };
        proof {
            if counter_of(*old(self), COMMENT_COUNTER_KEY) < u64::MAX {
                lemma_fresh_comment_id(*old(self));
            }
        }
        let need = Self::comment_encoded_len(&caller, &request);
        if need > COMMENT_MAX_BYTES as u128 {
            return Err(DomainError::Storage(StoreError::RecordTooLarge));
        }
        let ghost st0 = *old(self);
        let ghost pv0 = p0@;
        let id = match self.next_id(COMMENT_COUNTER_KEY) {
            Ok(id) => id,
            Err(e) => {
                return Err(e);
            },
        };
        let ghost st1 = *self;
        let comment = Comment {
            id,
            post_id: request.post_id,
            author: caller,
            content: request.content,
            created_at: now,
        };
        let ghost cv = comment@;
        proof {
            assert(cv =~= new_comment_view(id, comment.author@, request@, now));
        }
        let bytes = match encode_comment(&comment) {
            Ok(b) => b,
            Err(e) => {
                proof {
                    assert(false);
                }
                return Err(DomainError::Storage(e));
            },
        };
        proof {
            lemma_comment_size_fields(cv);
            lemma_comment_round(cv);
        }
        let key = Self::make_id_key(id);
        match store_insert(&mut self.heap, &mut self.comments, REGION_COMMENTS, key, bytes) {
            Ok(prev) => {},
            Err(e) => {
                return Err(DomainError::Storage(e));
            },
        }
        let ghost st2 = *self;
        proof {
            lemma_insert_comment_store(st1, st2, cv);
        }
        // count the comment on its post
        proof {
            lemma_typed_map(
                st0.posts,
                |k: Seq<u8>, v: Seq<u8>| post_entry_ok(k, v),
                id_key(request.post_id),
            );
            lemma_enc_post_len_counts(bump_comments_count(pv0), pv0);
        }
        let new_count = if p0.comments_count < u64::MAX {
            p0.comments_count + 1
        } else {
            u64::MAX
        };
        let p2 = Post {
            id: p0.id,
            author: p0.author,
            content: p0.content,
            image_url: p0.image_url,
            created_at: p0.created_at,
            likes_count: p0.likes_count,
            comments_count: new_count,
            liked_by: p0.liked_by,
        };
        proof {
            assert(p2@ =~= bump_comments_count(pv0));
            lemma_post_size_fields(p2@);
            lemma_post_round(p2@);
        }
        let pbytes = match encode_post(&p2) {
            Ok(b) => b,
            Err(e) => {
                proof {
                    assert(false);
                }
                return Err(DomainError::Storage(e));
            },
        };
        let pkey = Self::make_id_key(p2.id);
        proof {
            assert(p2.id == pv0.id) by {
                assert(pv0 == posts_map(st0)[id_key(request.post_id)]);
            }
            lemma_u64_round(request.post_id);
            lemma_u64_round(p2.id);
        }
        match store_insert(&mut self.heap, &mut self.posts, REGION_POSTS, pkey, pbytes) {
            Ok(prev) => {
                proof {
                    lemma_insert_post_store(st2, *self, p2@);
                }
                Ok(comment)
            },
            Err(e) => {
                proof {
                    assert(false);
                }
                Err(DomainError::Storage(e))
            },
        }
    }
}


/// The keys a sequence of byte strings holds.
pub open spec fn keys_set(s: Seq<Vec<u8>>) -> Set<Seq<u8>> {
    Set::new(|k: Seq<u8>| exists|d: int| 0 <= d < s.len() && (#[trigger] s[d])@ == k)
}

/// The comments sitting under one post: what a cascade delete removes.
pub open spec fn doomed_comments(st: Storage, pid: u64) -> Set<Seq<u8>> {
    Set::new(
        |k: Seq<u8>| comments_map(st).contains_key(k) && comments_map(st)[k].post_id == pid,
    )
}

impl Storage {
    /// Deletes a post: only its author may; every comment under it goes
    /// with it, and the author's post count falls, saturating at zero. On
    /// an absent post or a foreign caller the storage is left untouched.
    #[verifier::rlimit(100)]
    #[verifier::spinoff_prover]
    #[verifier::loop_isolation(false)]
    pub fn delete_post(&mut self, caller: Identity, post_id: u64) -> (r: Result<(), DomainError>)
        requires
            old(self).wf(),
            caller.wf(),
        ensures
            final(self).wf(),
            !posts_map(*old(self)).contains_key(id_key(post_id)) ==> r == Err::<(), DomainError>(
                DomainError::PostNotFound,
            ) && *final(self) == *old(self),
            (posts_map(*old(self)).contains_key(id_key(post_id)) && posts_map(*old(self))[id_key(
                post_id,
            )].author != caller@) ==> r == Err::<(), DomainError>(DomainError::NotAuthor) && *final(self) == *old(self),
            (posts_map(*old(self)).contains_key(id_key(post_id)) && posts_map(*old(self))[id_key(
                post_id,
            )].author == caller@) ==> {
                &&& r == Ok::<(), DomainError>(())
                &&& posts_map(*final(self)) == posts_map(*old(self)).remove(id_key(post_id))
                &&& comments_map(*final(self)) == comments_map(*old(self)).remove_keys(
                    doomed_comments(*old(self), post_id),
                )
                &&& (users_map(*old(self)).contains_key(caller@) ==> users_map(*final(self))
                    == users_map(*old(self)).insert(
                    caller@,
                    drop_posts_count(users_map(*old(self))[caller@]),
                ))
                &&& (!users_map(*old(self)).contains_key(caller@) ==> store_map(final(self).users)
                    == store_map(old(self).users))
                &&& store_map(final(self).counters) == store_map(old(self).counters)
            },
    {
        let p0 = match self.get_post(post_id) {
            Some(p) => p,
            None => {
                return Err(DomainError::PostNotFound);
            },
        };
        if !p0.author.same_as(&caller) {
            return Err(DomainError::NotAuthor);
        }
        let ghost st0 = *old(self);
        // the author's denormalized post count falls
        match self.get_user(&caller) {
            Some(user) => {
                let ghost u0 = users_map(st0)[caller@];
                proof {
                    lemma_typed_map(
                        st0.users,
                        |k: Seq<u8>, v: Seq<u8>| user_entry_ok(k, v),
                        caller@,
                    );
                    lemma_enc_user_len_counts(drop_posts_count(u0), u0);
                }
                let new_count = if user.posts_count > 0 {
                    user.posts_count - 1
                } else {
                    0
                };
                let user2 = User {
                    id: user.id,
                    username: user.username,
                    bio: user.bio,
                    profile_picture: user.profile_picture,
                    created_at: user.created_at,
                    followers_count: user.followers_count,
                    following_count: user.following_count,
                    posts_count: new_count,
                };
                proof {
                    assert(user2@ =~= drop_posts_count(u0));
                    lemma_user_size_fields(user2@);
                    lemma_user_round(user2@);
                }
                let ubytes = match encode_user(&user2) {
                    Ok(b) => b,
                    Err(e) => {
                        proof {
                            assert(false);
                        }
                        return Err(DomainError::Storage(e));
                    },
                };
                let ukey = clone_bytes(&caller.bytes);
                match store_insert(&mut self.heap, &mut self.users, REGION_USERS, ukey, ubytes) {
                    Ok(prev) => {
                        proof {
                            lemma_insert_user_store(st0, *self, user2@);
                        }
                    },
                    Err(e) => {
                        proof {
                            assert(false);
                        }
                        return Err(DomainError::Storage(e));
                    },
                }
            },
            None => {},
        }
        let ghost st1 = *self;
        proof {
            assert(store_map(st1.comments) == store_map(st0.comments));
            assert(comments_map(st1) == comments_map(st0));
        }
        // collect the comments under the post
        let mut doomed: Vec<Vec<u8>> = Vec::new();
        let n = self.comments.entries.len();
        let mut i: usize = 0;
        while i < n
            invariant
                n == self.comments.entries@.len(),
                0 <= i <= n,
                forall|d: int|
                    0 <= d < doomed@.len() ==> doomed_comments(st0, post_id).contains(
                        (#[trigger] doomed@[d])@,
                    ),
                forall|j: int|
                    0 <= j < i ==> {
                        let e = #[trigger] self.comments.entries@[j];
                        dec_comment_view(e.val@).post_id == post_id ==> keys_set(
                            doomed@,
                        ).contains(e.key@)
                    },
            decreases n - i,
        {
            let ghost doomed0 = doomed@;
            proof {
                lemma_sorted_distinct(self.comments);
                lemma_entries_map_at(self.comments.entries@, i as int);
                lemma_typed_map(
                    self.comments,
                    |k: Seq<u8>, v: Seq<u8>| comment_entry_ok(k, v),
                    self.comments.entries@[i as int].key@,
                );
            }
            let c = match decode_comment(&self.comments.entries[i].val) {
                Ok(c) => c,
                Err(e) => {
                    proof {
                        assert(false);
                    }
                    return Err(DomainError::Storage(e));
                },
            };
            if c.post_id == post_id {
                doomed.push(clone_bytes(&self.comments.entries[i].key));
                proof {
                    assert((doomed@[doomed@.len() - 1])@ == self.comments.entries@[i as int].key@);
                }
            }
            i += 1;
            proof {
                assert forall|j: int|
                    0 <= j < i implies {
                    let e = #[trigger] self.comments.entries@[j];
                    dec_comment_view(e.val@).post_id == post_id ==> keys_set(doomed@).contains(
                        e.key@,
                    )
                } by {
                    let e = self.comments.entries@[j];
                    if dec_comment_view(e.val@).post_id == post_id {
                        if j < i - 1 {
                            assert(keys_set(doomed0).contains(e.key@));
                            let d = choose|d: int|
                                0 <= d < doomed0.len() && (#[trigger] doomed0[d])@ == e.key@;
                            assert((doomed@[d])@ == e.key@);
                        } else {
                            assert(keys_set(doomed@).contains(e.key@));
                        }
                    }
                }
            }
        }
        proof {
            assert(keys_set(doomed@) =~= doomed_comments(st0, post_id)) by {
                assert forall|k: Seq<u8>| #[trigger]
                    doomed_comments(st0, post_id).contains(k) implies keys_set(doomed@).contains(
                    k,
                ) by {
                    lemma_sorted_distinct(st1.comments);
                    lemma_entries_map_contains(st1.comments.entries@, k);
                    let j = choose|j: int|
                        0 <= j < st1.comments.entries@.len()
                            && (#[trigger] st1.comments.entries@[j]).key@ == k;
                    lemma_entries_map_at(st1.comments.entries@, j);
                }
            }
        }
        // remove them, each write going through before the next
        let m = doomed.len();
        let mut j: usize = 0;
        while j < m
            invariant
                m == doomed@.len(),
                0 <= j <= m,
                self.wf(),
                store_map(self.comments) == store_map(st1.comments).remove_keys(
                    keys_set(doomed@.take(j as int)),
                ),
                store_map(self.users) == store_map(st1.users),
                store_map(self.posts) == store_map(st1.posts),
                store_map(self.counters) == store_map(st1.counters),
            decreases m - j,
        {
            let ghost pre = *self;
            let removed = store_remove(
                &mut self.heap,
                &mut self.comments,
                REGION_COMMENTS,
                &doomed[j],
            );
            j += 1;
            proof {
                lemma_other_store_preserved(
                    pre.heap,
                    self.heap,
                    self.users,
                    REGION_USERS,
                    REGION_COMMENTS,
                );
                lemma_other_store_preserved(
                    pre.heap,
                    self.heap,
                    self.posts,
                    REGION_POSTS,
                    REGION_COMMENTS,
                );
                lemma_other_store_preserved(
                    pre.heap,
                    self.heap,
                    self.counters,
                    REGION_COUNTERS,
                    REGION_COMMENTS,
                );
                assert(index_typed(
                    self.comments,
                    |k: Seq<u8>, v: Seq<u8>| comment_entry_ok(k, v),
                )) by {
                    assert forall|k: Seq<u8>| #[trigger]
                        store_map(self.comments).contains_key(k) implies comment_entry_ok(
                        k,
                        store_map(self.comments)[k],
                    ) by {
                        assert(store_map(pre.comments).contains_key(k));
                        assert(store_map(self.comments)[k] == store_map(pre.comments)[k]);
                    }
                }
                assert(store_map(self.comments) =~= store_map(st1.comments).remove_keys(
                    keys_set(doomed@.take(j as int)),
                )) by {
                    assert forall|k: Seq<u8>|
                        keys_set(doomed@.take(j as int)).contains(k) <==> (keys_set(
                        doomed@.take(j as int - 1),
                    ).contains(k) || k == (doomed@[j - 1])@) by {
                        if keys_set(doomed@.take(j as int)).contains(k) {
                            let d = choose|d: int|
                                0 <= d < j && (#[trigger] doomed@.take(j as int)[d])@ == k;
                            if d < j - 1 {
                                assert((doomed@.take(j as int - 1)[d])@ == k);
                            }
                        }
                        if keys_set(doomed@.take(j as int - 1)).contains(k) {
                            let d = choose|d: int|
                                0 <= d < j - 1 && (#[trigger] doomed@.take(j as int - 1)[d])@
                                    == k;
                            assert((doomed@.take(j as int)[d])@ == k);
                        }
                        if k == (doomed@[j - 1])@ {
                            assert((doomed@.take(j as int)[j - 1])@ == k);
                        }
                    }
                }
            }
        }
        proof {
            assert(doomed@.take(m as int) =~= doomed@);
        }
        let ghost st2 = *self;
        // finally the post itself
        let pkey = Self::make_id_key(post_id);
        let removed = store_remove(&mut self.heap, &mut self.posts, REGION_POSTS, &pkey);
        proof {
            lemma_other_store_preserved(st2.heap, self.heap, self.users, REGION_USERS, REGION_POSTS);
            lemma_other_store_preserved(
                st2.heap,
                self.heap,
                self.comments,
                REGION_COMMENTS,
                REGION_POSTS,
            );
            lemma_other_store_preserved(
                st2.heap,
                self.heap,
                self.counters,
                REGION_COUNTERS,
                REGION_POSTS,
            );
            assert(index_typed(self.posts, |k: Seq<u8>, v: Seq<u8>| post_entry_ok(k, v))) by {
                assert forall|k: Seq<u8>| #[trigger]
                    store_map(self.posts).contains_key(k) implies post_entry_ok(
                    k,
                    store_map(self.posts)[k],
                ) by {
                    assert(store_map(st2.posts).contains_key(k));
                    assert(store_map(self.posts)[k] == store_map(st2.posts)[k]);
                }
            }
            lemma_map_values_remove(
                store_map(st2.posts),
                |v: Seq<u8>| dec_post_view(v),
                id_key(post_id),
            );
            assert(comments_map(*self) =~= comments_map(st0).remove_keys(
                doomed_comments(st0, post_id),
            ));
        }
        Ok(())
    }
}


/// Mathematical value of a `PostWithAuthor`.
#[verifier::ext_equal]
pub ghost struct PostWithAuthorV {
    pub id: u64,
    pub author: Seq<u8>,
    pub author_username: Seq<u8>,
    pub content: Seq<u8>,
    pub image_url: Option<Seq<u8>>,
    pub created_at: u64,
    pub likes_count: u64,
    pub comments_count: u64,
    pub liked_by: Seq<Seq<u8>>,
}

/// A post joined with its author's username, the feed's row shape.
#[derive(Debug, PartialEq, Eq)]
pub struct PostWithAuthor {
    pub id: u64,
    pub author: Identity,
    pub author_username: Vec<u8>,
    pub content: Vec<u8>,
    pub image_url: Option<Vec<u8>>,
    pub created_at: u64,
    pub likes_count: u64,
    pub comments_count: u64,
    pub liked_by: Vec<Identity>,
}

impl View for PostWithAuthor {
    type V = PostWithAuthorV;

    open spec fn view(&self) -> PostWithAuthorV {
        PostWithAuthorV {
            id: self.id,
            author: self.author@,
            author_username: self.author_username@,
            content: self.content@,
            image_url: deep_opt(&self.image_url),
            created_at: self.created_at,
            likes_count: self.likes_count,
            comments_count: self.comments_count,
            liked_by: ids_view(self.liked_by@),
        }
    }
}

/// A post joined with a username.
pub open spec fn pwa_of(p: PostV, username: Seq<u8>) -> PostWithAuthorV {
    PostWithAuthorV {
        id: p.id,
        author: p.author,
        author_username: username,
        content: p.content,
        image_url: p.image_url,
        created_at: p.created_at,
        likes_count: p.likes_count,
        comments_count: p.comments_count,
        liked_by: p.liked_by,
    }
}

/// The views of a sequence of joined posts.
pub open spec fn pwa_views(s: Seq<PostWithAuthor>) -> Seq<PostWithAuthorV> {
    s.map_values(|p: PostWithAuthor| p@)
}

/// The views of a sequence of comments.
pub open spec fn comment_views(s: Seq<Comment>) -> Seq<CommentV> {
    s.map_values(|c: Comment| c@)
}

/// The feed rows of the store's entries, in key order: each post whose
/// author is still registered, joined with that author's username.
pub open spec fn joined_posts(st: Storage, es: Seq<StoreEntry>) -> Seq<PostWithAuthorV>
    decreases es.len(),
{
    if es.len() == 0 {
        Seq::empty()
    } else {
        let rest = joined_posts(st, es.drop_last());
        let p = dec_post_view(es.last().val@);
        if users_map(st).contains_key(p.author) {
            rest.push(pwa_of(p, users_map(st)[p.author].username))
        } else {
            rest
        }
    }
}

/// One user's feed rows: that user's posts, in key order.
pub open spec fn user_posts(st: Storage, es: Seq<StoreEntry>, who: Seq<u8>) -> Seq<
    PostWithAuthorV,
>
    decreases es.len(),
{
    if es.len() == 0 {
        Seq::empty()
    } else {
        let rest = user_posts(st, es.drop_last(), who);
        let p = dec_post_view(es.last().val@);
        if p.author == who {
            rest.push(pwa_of(p, users_map(st)[who].username))
        } else {
            rest
        }
    }
}

/// The comments sitting under one post, in key order.
pub open spec fn comments_under(es: Seq<StoreEntry>, pid: u64) -> Seq<CommentV>
    decreases es.len(),
{
    if es.len() == 0 {
        Seq::empty()
    } else {
        let rest = comments_under(es.drop_last(), pid);
        let c = dec_comment_view(es.last().val@);
        if c.post_id == pid {
            rest.push(c)
        } else {
            rest
        }
    }
}

/// Placement order of the feed: an already-placed row stays in front of a
/// new one when its timestamp is at least as new — so equal timestamps
/// keep their store order, and the output is a function of the state.
pub open spec fn feed_keeps_before(a: PostWithAuthorV, b: PostWithAuthorV) -> bool {
    a.created_at >= b.created_at
}

/// Placement order of a comment listing: oldest first, equal timestamps in
/// store order.
pub open spec fn comment_keeps_before(a: CommentV, b: CommentV) -> bool {
    a.created_at <= b.created_at
}

/// Insertion of one element into a placed sequence: it goes after the
/// longest prefix that keeps before it.
pub open spec fn insert_placed<A>(keeps: spec_fn(A, A) -> bool, s: Seq<A>, x: A) -> Seq<A>
    decreases s.len(),
{
    if s.len() == 0 {
        seq![x]
    } else if keeps(s[0], x) {
        seq![s[0]] + insert_placed(keeps, s.skip(1), x)
    } else {
        seq![x] + s
    }
}

/// Insertion sort by a placement order, processing the input in order: the
/// unique sequence the listing functions return.
pub open spec fn sort_placed<A>(keeps: spec_fn(A, A) -> bool, s: Seq<A>) -> Seq<A>
    decreases s.len(),
{
    if s.len() == 0 {
        Seq::empty()
    } else {
        insert_placed(keeps, sort_placed(keeps, s.drop_last()), s.last())
    }
}

/// Inserting at the position the executable search finds is what
/// `insert_placed` does.
pub proof fn lemma_insert_placed_at<A>(keeps: spec_fn(A, A) -> bool, s: Seq<A>, x: A, pos: int)
    requires
        0 <= pos <= s.len(),
        forall|a: int| 0 <= a < pos ==> keeps(s[a], x),
        pos == s.len() || !keeps(s[pos], x),
    ensures
        insert_placed(keeps, s, x) == s.insert(pos, x),
    decreases s.len(),
{
    if s.len() == 0 {
        assert(s.insert(0, x) =~= seq![x]);
    } else if pos == 0 {
        assert(seq![x] + s =~= s.insert(0, x));
    } else {
        assert(keeps(s[0], x));
        lemma_insert_placed_at(keeps, s.skip(1), x, pos - 1);
        assert(seq![s[0]] + s.skip(1).insert(pos - 1, x) =~= s.insert(pos, x));
    }
}


/// Inserting an element anywhere in a sequence inserts it into the
/// sequence's multiset.
pub proof fn lemma_to_multiset_insert<A>(s: Seq<A>, pos: int, x: A)
    requires
        0 <= pos <= s.len(),
    ensures
        s.insert(pos, x).to_multiset() == s.to_multiset().insert(x),
{
    broadcast use vstd::multiset::group_multiset_axioms;

    let a = s.subrange(0, pos);
    let b = s.subrange(pos, s.len() as int);
    assert(s.insert(pos, x) == a.push(x) + b);
    lemma_multiset_commutative(a.push(x), b);
    lemma_multiset_commutative(a, b);
    to_multiset_build(a, x);
    assert(a + b =~= s);
    assert(a.to_multiset().insert(x).add(b.to_multiset()) =~= a.to_multiset().add(
        b.to_multiset(),
    ).insert(x));
}

/// Sorts feed rows by creation time, newest first; a permutation of the
/// input.
#[verifier::rlimit(100)]
#[verifier::spinoff_prover]
#[verifier::loop_isolation(false)]
fn sort_pwa_by_time_desc(input: Vec<PostWithAuthor>) -> (r: Vec<PostWithAuthor>)
    ensures
        pwa_views(r@) == sort_placed(
            |a: PostWithAuthorV, b: PostWithAuthorV| feed_keeps_before(a, b),
            pwa_views(input@),
        ),
        pwa_views(r@).to_multiset() == pwa_views(input@).to_multiset(),
        forall|i: int| 0 <= i < r@.len() - 1 ==> (#[trigger] r@[i]).created_at >= r@[i + 1].created_at,
{
    let ghost keeps = |a: PostWithAuthorV, b: PostWithAuthorV| feed_keeps_before(a, b);
    let mut out: Vec<PostWithAuthor> = Vec::new();
    let mut i: usize = 0;
    proof {
        assert(input@.take(0) =~= Seq::<PostWithAuthor>::empty());
        assert(pwa_views(out@) =~= pwa_views(input@.take(0)));
        assert(pwa_views(out@) == sort_placed(keeps, pwa_views(input@.take(0))));
    }
    while i < input.len()
        invariant
            0 <= i <= input@.len(),
            pwa_views(out@) == sort_placed(keeps, pwa_views(input@.take(i as int))),
            pwa_views(out@).to_multiset() == pwa_views(input@.take(i as int)).to_multiset(),
            forall|a: int|
                0 <= a < out@.len() - 1 ==> (#[trigger] out@[a]).created_at >= out@[a
                    + 1].created_at,
        decreases input@.len() - i,
    {
        let ghost out0 = out@;
        let c = clone_pwa(&input[i]);
        let ghost cv = c@;
        let mut pos: usize = 0;
        while pos < out.len() && out[pos].created_at >= c.created_at
            invariant
                0 <= pos <= out@.len(),
                out@ == out0,
                forall|a: int| 0 <= a < pos ==> (#[trigger] out@[a]).created_at >= cv.created_at,
                cv == c@,
                forall|a: int|
                    0 <= a < out@.len() - 1 ==> (#[trigger] out@[a]).created_at >= out@[a
                        + 1].created_at,
            decreases out@.len() - pos,
        {
            pos += 1;
        }
        out.insert(pos, c);
        i += 1;
        proof {
            assert(pwa_views(out@) =~= pwa_views(out0).insert(pos as int, cv));
            lemma_to_multiset_insert(pwa_views(out0), pos as int, cv);
            assert(input@.take(i as int) =~= input@.take(i as int - 1).push(input@[i as int - 1]));
            assert(pwa_views(input@.take(i as int)) =~= pwa_views(
                input@.take(i as int - 1),
            ).push(input@[i as int - 1]@));
            assert(pos == out0.len() || out0[pos as int].created_at < cv.created_at);
            assert forall|a: int| 0 <= a < pos implies keeps(pwa_views(out0)[a], cv) by {
                assert(pwa_views(out0)[a] == out0[a]@);
            }
            assert(pos as int == pwa_views(out0).len() || !keeps(
                pwa_views(out0)[pos as int],
                cv,
            )) by {
                if (pos as int) < out0.len() {
                    assert(pwa_views(out0)[pos as int] == out0[pos as int]@);
                }
            }
            lemma_insert_placed_at(keeps, pwa_views(out0), cv, pos as int);
            assert(pwa_views(input@.take(i as int)).drop_last() =~= pwa_views(
                input@.take(i as int - 1),
            ));
            assert(pwa_views(input@.take(i as int)).last() == cv);
            to_multiset_build(pwa_views(input@.take(i as int - 1)), input@[i as int - 1]@);
            assert forall|a: int|
                0 <= a < out@.len() - 1 implies (#[trigger] out@[a]).created_at >= out@[a
                + 1].created_at by {
                if a + 1 < pos {
                    assert(out@[a] == out0[a]);
                    assert(out@[a + 1] == out0[a + 1]);
                } else if a + 1 == pos {
                    assert(out@[a] == out0[a]);
                    assert(out@[a + 1]@ == cv);
                } else if a == pos {
                    assert(out@[a]@ == cv);
                    assert(out@[a + 1] == out0[a]);
                } else {
                    assert(out@[a] == out0[a - 1]);
                    assert(out@[a + 1] == out0[a]);
                }
            }
        }
    }
    proof {
        assert(input@.take(input@.len() as int) =~= input@);
    }
    out
}

/// Copies a feed row.
fn clone_pwa(p: &PostWithAuthor) -> (r: PostWithAuthor)
    ensures
        r@ == p@,
{
    let r = PostWithAuthor {
        id: p.id,
        author: p.author.clone(),
        author_username: clone_bytes(&p.author_username),
        content: clone_bytes(&p.content),
        image_url: clone_opt_bytes(&p.image_url),
        created_at: p.created_at,
        likes_count: p.likes_count,
        comments_count: p.comments_count,
        liked_by: crate::entities::clone_ids(&p.liked_by),
    };
    proof {
        assert(r@ =~= p@);
    }
    r
}

/// Sorts comments by creation time, oldest first; a permutation of the
/// input.
#[verifier::rlimit(100)]
#[verifier::spinoff_prover]
#[verifier::loop_isolation(false)]
fn sort_comments_by_time(input: Vec<Comment>) -> (r: Vec<Comment>)
    ensures
        comment_views(r@) == sort_placed(
            |a: CommentV, b: CommentV| comment_keeps_before(a, b),
            comment_views(input@),
        ),
        comment_views(r@).to_multiset() == comment_views(input@).to_multiset(),
        forall|i: int| 0 <= i < r@.len() - 1 ==> (#[trigger] r@[i]).created_at <= r@[i + 1].created_at,
{
    let ghost keeps = |a: CommentV, b: CommentV| comment_keeps_before(a, b);
    let mut out: Vec<Comment> = Vec::new();
    let mut i: usize = 0;
    proof {
        assert(input@.take(0) =~= Seq::<Comment>::empty());
        assert(comment_views(out@) =~= comment_views(input@.take(0)));
        assert(comment_views(out@) == sort_placed(keeps, comment_views(input@.take(0))));
    }
    while i < input.len()
        invariant
            0 <= i <= input@.len(),
            comment_views(out@) == sort_placed(keeps, comment_views(input@.take(i as int))),
            comment_views(out@).to_multiset() == comment_views(input@.take(i as int)).to_multiset(),
            forall|a: int|
                0 <= a < out@.len() - 1 ==> (#[trigger] out@[a]).created_at <= out@[a
                    + 1].created_at,
        decreases input@.len() - i,
    {
        let ghost out0 = out@;
        let c = input[i].clone();
        let ghost cv = c@;
        let mut pos: usize = 0;
        while pos < out.len() && out[pos].created_at <= c.created_at
            invariant
                0 <= pos <= out@.len(),
                out@ == out0,
                forall|a: int| 0 <= a < pos ==> (#[trigger] out@[a]).created_at <= cv.created_at,
                cv == c@,
                forall|a: int|
                    0 <= a < out@.len() - 1 ==> (#[trigger] out@[a]).created_at <= out@[a
                        + 1].created_at,
            decreases out@.len() - pos,
        {
            pos += 1;
        }
        out.insert(pos, c);
        i += 1;
        proof {
            assert(comment_views(out@) =~= comment_views(out0).insert(pos as int, cv));
            lemma_to_multiset_insert(comment_views(out0), pos as int, cv);
            assert(input@.take(i as int) =~= input@.take(i as int - 1).push(input@[i as int - 1]));
            assert(comment_views(input@.take(i as int)) =~= comment_views(
                input@.take(i as int - 1),
            ).push(input@[i as int - 1]@));
            assert(pos == out0.len() || out0[pos as int].created_at > cv.created_at);
            assert forall|a: int| 0 <= a < pos implies keeps(comment_views(out0)[a], cv) by {
                assert(comment_views(out0)[a] == out0[a]@);
            }
            assert(pos as int == comment_views(out0).len() || !keeps(
                comment_views(out0)[pos as int],
                cv,
            )) by {
                if (pos as int) < out0.len() {
                    assert(comment_views(out0)[pos as int] == out0[pos as int]@);
                }
            }
            lemma_insert_placed_at(keeps, comment_views(out0), cv, pos as int);
            assert(comment_views(input@.take(i as int)).drop_last() =~= comment_views(
                input@.take(i as int - 1),
            ));
            assert(comment_views(input@.take(i as int)).last() == cv);
            to_multiset_build(comment_views(input@.take(i as int - 1)), input@[i as int - 1]@);
            assert forall|a: int|
                0 <= a < out@.len() - 1 implies (#[trigger] out@[a]).created_at <= out@[a
                + 1].created_at by {
                if a + 1 < pos {
                    assert(out@[a] == out0[a]);
                    assert(out@[a + 1] == out0[a + 1]);
                } else if a + 1 == pos {
                    assert(out@[a] == out0[a]);
                    assert(out@[a + 1]@ == cv);
                } else if a == pos {
                    assert(out@[a]@ == cv);
                    assert(out@[a + 1] == out0[a]);
                } else {
                    assert(out@[a] == out0[a - 1]);
                    assert(out@[a + 1] == out0[a]);
                }
            }
        }
    }
    proof {
        assert(input@.take(input@.len() as int) =~= input@);
    }
    out
}

impl Storage {
    /// The whole feed: every post whose author is still registered, joined
    /// with the author's username, newest first.
    #[verifier::rlimit(100)]
    #[verifier::spinoff_prover]
    pub fn get_posts(&self) -> (r: Vec<PostWithAuthor>)
        requires
            self.wf(),
        ensures
            pwa_views(r@) == sort_placed(
                |a: PostWithAuthorV, b: PostWithAuthorV| feed_keeps_before(a, b),
                joined_posts(*self, self.posts.entries@),
            ),
            pwa_views(r@).to_multiset() == joined_posts(*self, self.posts.entries@).to_multiset(),
            forall|i: int|
                0 <= i < r@.len() - 1 ==> (#[trigger] r@[i]).created_at >= r@[i + 1].created_at,
    {
        let mut rows: Vec<PostWithAuthor> = Vec::new();
        let n = self.posts.entries.len();
        let mut i: usize = 0;
        while i < n
            invariant
                self.wf(),
                n == self.posts.entries@.len(),
                0 <= i <= n,
                pwa_views(rows@) == joined_posts(*self, self.posts.entries@.take(i as int)),
            decreases n - i,
        {
            let ghost rows0 = rows@;
            proof {
                lemma_sorted_distinct(self.posts);
                lemma_entries_map_at(self.posts.entries@, i as int);
                lemma_typed_map(
                    self.posts,
                    |k: Seq<u8>, v: Seq<u8>| post_entry_ok(k, v),
                    self.posts.entries@[i as int].key@,
                );
            }
            let p = match decode_post(&self.posts.entries[i].val) {
                Ok(p) => p,
                Err(e) => {
                    proof {
                        assert(false);
                    }
                    return rows;
                },
            };
            let author_id = p.author.clone();
            match self.get_user(&author_id) {
                Some(author) => {
                    let row = PostWithAuthor {
                        id: p.id,
                        author: p.author,
                        author_username: author.username,
                        content: p.content,
                        image_url: p.image_url,
                        created_at: p.created_at,
                        likes_count: p.likes_count,
                        comments_count: p.comments_count,
                        liked_by: p.liked_by,
                    };
                    let ghost rv = row@;
                    rows.push(row);
                    proof {
                        assert(pwa_views(rows@) =~= rows0.map_values(|x: PostWithAuthor| x@).push(
                            rv,
                        ));
                    }
                },
                None => {},
            }
            i += 1;
            proof {
                assert(self.posts.entries@.take(i as int).drop_last() =~= self.posts.entries@.take(
                    i as int - 1,
                ));
                assert(self.posts.entries@.take(i as int).last() == self.posts.entries@[i as int
                    - 1]);
                assert(pwa_views(rows@) =~= joined_posts(
                    *self,
                    self.posts.entries@.take(i as int),
                ));
            }
        }
        proof {
            assert(self.posts.entries@.take(n as int) =~= self.posts.entries@);
        }
        sort_pwa_by_time_desc(rows)
    }

    /// One user's posts, joined with that user's username, newest first;
    /// empty for an unregistered user.
    #[verifier::rlimit(100)]
    #[verifier::spinoff_prover]
    pub fn get_user_posts(&self, principal: &Identity) -> (r: Vec<PostWithAuthor>)
        requires
            self.wf(),
        ensures
            !users_map(*self).contains_key(principal@) ==> r@.len() == 0,
            users_map(*self).contains_key(principal@) ==> pwa_views(r@) == sort_placed(
                |a: PostWithAuthorV, b: PostWithAuthorV| feed_keeps_before(a, b),
                user_posts(*self, self.posts.entries@, principal@),
            ),
            users_map(*self).contains_key(principal@) ==> pwa_views(r@).to_multiset()
                == user_posts(*self, self.posts.entries@, principal@).to_multiset(),
            forall|i: int|
                0 <= i < r@.len() - 1 ==> (#[trigger] r@[i]).created_at >= r@[i + 1].created_at,
    {
        let user = match self.get_user(principal) {
            Some(u) => u,
            None => {
                return Vec::new();
            },
        };
        let mut rows: Vec<PostWithAuthor> = Vec::new();
        let n = self.posts.entries.len();
        let mut i: usize = 0;
        while i < n
            invariant
                self.wf(),
                users_map(*self).contains_key(principal@),
                user@ == users_map(*self)[principal@],
                user.username@ == users_map(*self)[principal@].username,
                n == self.posts.entries@.len(),
                0 <= i <= n,
                pwa_views(rows@) == user_posts(
                    *self,
                    self.posts.entries@.take(i as int),
                    principal@,
                ),
            decreases n - i,
        {
            let ghost rows0 = rows@;
            proof {
                lemma_sorted_distinct(self.posts);
                lemma_entries_map_at(self.posts.entries@, i as int);
                lemma_typed_map(
                    self.posts,
                    |k: Seq<u8>, v: Seq<u8>| post_entry_ok(k, v),
                    self.posts.entries@[i as int].key@,
                );
            }
            let p = match decode_post(&self.posts.entries[i].val) {
                Ok(p) => p,
                Err(e) => {
                    proof {
                        assert(false);
                    }
                    return rows;
                },
            };
            if p.author.same_as(principal) {
                let row = PostWithAuthor {
                    id: p.id,
                    author: p.author,
                    author_username: clone_bytes(&user.username),
                    content: p.content,
                    image_url: p.image_url,
                    created_at: p.created_at,
                    likes_count: p.likes_count,
                    comments_count: p.comments_count,
                    liked_by: p.liked_by,
                };
                let ghost rv = row@;
                rows.push(row);
                proof {
                    assert(pwa_views(rows@) =~= rows0.map_values(|x: PostWithAuthor| x@).push(rv));
                }
            }
            i += 1;
            proof {
                assert(self.posts.entries@.take(i as int).drop_last() =~= self.posts.entries@.take(
                    i as int - 1,
                ));
                assert(self.posts.entries@.take(i as int).last() == self.posts.entries@[i as int
                    - 1]);
                assert(pwa_views(rows@) =~= user_posts(
                    *self,
                    self.posts.entries@.take(i as int),
                    principal@,
                ));
            }
        }
        proof {
            assert(self.posts.entries@.take(n as int) =~= self.posts.entries@);
        }
        sort_pwa_by_time_desc(rows)
    }

    /// The comments under a post, oldest first.
    #[verifier::rlimit(100)]
    #[verifier::spinoff_prover]
    pub fn get_comments(&self, post_id: u64) -> (r: Vec<Comment>)
        requires
            self.wf(),
        ensures
            comment_views(r@) == sort_placed(
                |a: CommentV, b: CommentV| comment_keeps_before(a, b),
                comments_under(self.comments.entries@, post_id),
            ),
            comment_views(r@).to_multiset() == comments_under(
                self.comments.entries@,
                post_id,
            ).to_multiset(),
            forall|i: int|
                0 <= i < r@.len() - 1 ==> (#[trigger] r@[i]).created_at <= r@[i + 1].created_at,
    {
        let mut found: Vec<Comment> = Vec::new();
        let n = self.comments.entries.len();
        let mut i: usize = 0;
        while i < n
            invariant
                self.wf(),
                n == self.comments.entries@.len(),
                0 <= i <= n,
                comment_views(found@) == comments_under(
                    self.comments.entries@.take(i as int),
                    post_id,
                ),
            decreases n - i,
        {
            let ghost found0 = found@;
            proof {
                lemma_sorted_distinct(self.comments);
                lemma_entries_map_at(self.comments.entries@, i as int);
                lemma_typed_map(
                    self.comments,
                    |k: Seq<u8>, v: Seq<u8>| comment_entry_ok(k, v),
                    self.comments.entries@[i as int].key@,
                );
            }
            let c = match decode_comment(&self.comments.entries[i].val) {
                Ok(c) => c,
                Err(e) => {
                    proof {
                        assert(false);
                    }
                    return found;
                },
            };
            if c.post_id == post_id {
                let ghost cv = c@;
                found.push(c);
                proof {
                    assert(comment_views(found@) =~= comment_views(found0).push(cv));
                }
            }
            i += 1;
            proof {
                assert(self.comments.entries@.take(i as int).drop_last()
                    =~= self.comments.entries@.take(i as int - 1));
                assert(self.comments.entries@.take(i as int).last()
                    == self.comments.entries@[i as int - 1]);
                assert(comment_views(found@) =~= comments_under(
                    self.comments.entries@.take(i as int),
                    post_id,
                ));
            }
        }
        proof {
            assert(self.comments.entries@.take(n as int) =~= self.comments.entries@);
        }
        sort_comments_by_time(found)
    }
}


impl Storage {
    /// Rebuilds a post's denormalized counters from the authoritative
    /// data: the like count from its liker set, the comment count from a
    /// full scan of the comment store. A repair routine, not a hot path:
    /// the counters are caches and may be recomputed whenever found
    /// inconsistent.
    #[verifier::rlimit(100)]
    #[verifier::spinoff_prover]
    pub fn recount_post(&mut self, post_id: u64) -> (r: Result<Post, DomainError>)
        requires
            old(self).wf(),
        ensures
            final(self).wf(),
            !posts_map(*old(self)).contains_key(id_key(post_id)) ==> r == Err::<
                Post,
                DomainError,
            >(DomainError::PostNotFound) && *final(self) == *old(self),
            posts_map(*old(self)).contains_key(id_key(post_id)) ==> ({
                let p0 = posts_map(*old(self))[id_key(post_id)];
                let p1 = PostV {
                    likes_count: p0.liked_by.len() as u64,
                    comments_count: comments_under(
                        old(self).comments.entries@,
                        post_id,
                    ).len() as u64,
                    ..p0
                };
                &&& r matches Ok(p) && p@ == p1
                &&& posts_map(*final(self)) == posts_map(*old(self)).insert(id_key(post_id), p1)
                &&& store_map(final(self).users) == store_map(old(self).users)
                &&& store_map(final(self).comments) == store_map(old(self).comments)
                &&& store_map(final(self).counters) == store_map(old(self).counters)
            }),
    {
        let p0 = match self.get_post(post_id) {
            Some(p) => p,
            None => {
                return Err(DomainError::PostNotFound);
            },
        };
        let ghost pv0 = p0@;
        let true_comments = self.get_comments(post_id);
        proof {
            comment_views(true_comments@).to_multiset_ensures();
            comments_under(self.comments.entries@, post_id).to_multiset_ensures();
            assert(true_comments@.len() == comments_under(
                self.comments.entries@,
                post_id,
            ).len());
        }
        let likes = p0.liked_by.len() as u64;
        let comments = true_comments.len() as u64;
        let p_new = Post {
            id: p0.id,
            author: p0.author,
            content: p0.content,
            image_url: p0.image_url,
            created_at: p0.created_at,
            likes_count: likes,
            comments_count: comments,
            liked_by: p0.liked_by,
        };
        let ghost p1 = p_new@;
        proof {
            lemma_typed_map(
                old(self).posts,
                |k: Seq<u8>, v: Seq<u8>| post_entry_ok(k, v),
                id_key(post_id),
            );
            lemma_enc_post_len_counts(p1, pv0);
            lemma_post_size_fields(p1);
            lemma_post_round(p1);
            assert(p1.id == post_id) by {
                lemma_u64_round(post_id);
                lemma_u64_round(pv0.id);
            }
        }
        let bytes = match encode_post(&p_new) {
            Ok(b) => b,
            Err(e) => {
                proof {
                    assert(false);
                }
                return Err(DomainError::Storage(e));
            },
        };
        let key = Self::make_id_key(post_id);
        match store_insert(&mut self.heap, &mut self.posts, REGION_POSTS, key, bytes) {
            Ok(prev) => {
                proof {
                    lemma_insert_post_store(*old(self), *self, p1);
                }
                Ok(p_new)
            },
            Err(e) => {
                proof {
                    assert(false);
                }
                Err(DomainError::Storage(e))
            },
        }
    }
}


} // verus!
