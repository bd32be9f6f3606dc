//! The storage context: one heap, four stores.
//!
//! A `Storage` owns the page heap and the in-memory indexes of the four
//! entity stores — users, posts, comments, id counters — each bound to its
//! own region. `Storage::wf` holds the four store invariants against the
//! one heap, plus the typed invariants — every stored value is the
//! canonical, in-bounds encoding of its entity, keyed consistently (a user
//! by its identity, a post or comment by its encoded id, a counter by its
//! one-byte discriminant) — and counter dominance: no stored id exceeds
//! its counter, so a freshly drawn id is never a reuse.
//!
//! Since the regions partition the heap's pages, the pages alone determine
//! all four stores' contents: `lemma_pages_determine_content` states this,
//! and `attach` rebuilds a storage from bare pages, so that a process
//! restart loses nothing.

use vstd::prelude::*;
use crate::StoreError;
use crate::codec::enc_u64;
use crate::entities::spec_dec_user;
use crate::entities::decode_user;
use crate::entities::decode_post;
use crate::entities::decode_comment;
use crate::entities::encode_user;
use crate::entities::encode_post;
use crate::entities::encode_comment;
use crate::order::bytes_cmp;
use crate::order::KeyOrder;
use vstd::bytes::u64_to_le_bytes;
use vstd::bytes::spec_u64_to_le_bytes_to_open;
use crate::entities::spec_dec_post;
use crate::entities::spec_dec_comment;
use crate::entities::spec_enc_user;
use crate::entities::spec_enc_post;
use crate::entities::spec_enc_comment;
use crate::entities::USER_MAX_BYTES;
use crate::entities::POST_MAX_BYTES;
use crate::entities::COMMENT_MAX_BYTES;
use crate::heap::PageHeap;
use crate::heap::PAGE_SIZE;
use crate::heap::NUM_REGIONS;
use crate::heap::REGION_USERS;
use crate::heap::REGION_POSTS;
use crate::heap::REGION_COMMENTS;
use crate::heap::REGION_COUNTERS;
use crate::heap::is_free_page;
use crate::heap::FREE_OWNER;
use crate::heap::preserves_other_regions;
use crate::store::StoreIndex;
use crate::store::StoreEntry;
use crate::store::store_wf;
use crate::store::store_map;
use crate::store::index_sorted;
use crate::store::has_entry_for_page;
use crate::store::dec_slot;
use crate::store::lemma_sorted_distinct;
use crate::store::lemma_entries_map_contains;
use crate::store::lemma_entries_map_at;

verus! {

/// A stored user record: the canonical, in-bounds encoding of a user,
/// keyed by the user's identity.
pub open spec fn user_entry_ok(k: Seq<u8>, v: Seq<u8>) -> bool {
    match spec_dec_user(v) {
        Option::Some(u) => u.id == k && v == spec_enc_user(u) && v.len() <= USER_MAX_BYTES,
        Option::None => false,
    }
}

/// A stored post record: the canonical, in-bounds encoding of a post,
/// keyed by its encoded id.
pub open spec fn post_entry_ok(k: Seq<u8>, v: Seq<u8>) -> bool {
    match spec_dec_post(v) {
        Option::Some(p) => k == enc_u64(p.id) && v == spec_enc_post(p) && v.len()
            <= POST_MAX_BYTES,
        Option::None => false,
    }
}

/// A stored comment record: the canonical, in-bounds encoding of a
/// comment, keyed by its encoded id.
pub open spec fn comment_entry_ok(k: Seq<u8>, v: Seq<u8>) -> bool {
    match spec_dec_comment(v) {
        Option::Some(c) => k == enc_u64(c.id) && v == spec_enc_comment(c) && v.len()
            <= COMMENT_MAX_BYTES,
        Option::None => false,
    }
}

/// A stored counter record: a one-byte discriminant naming a 64-bit value.
pub open spec fn counter_entry_ok(k: Seq<u8>, v: Seq<u8>) -> bool {
    k.len() == 1 && v.len() == 8
}

/// Counter discriminant handing out post ids.
pub const POST_COUNTER_KEY: u8 = 1;

/// Counter discriminant handing out comment ids.
pub const COMMENT_COUNTER_KEY: u8 = 2;

/// The current value of a named id counter; zero before its first use.
pub open spec fn counter_of(st: Storage, key: u8) -> u64 {
    if store_map(st.counters).contains_key(seq![key]) {
        vstd::bytes::spec_u64_from_le_bytes(store_map(st.counters)[seq![key]])
    } else {
        0
    }
}

/// Every record the store holds satisfies the store's typed invariant
/// with its key.
pub open spec fn index_typed(s: StoreIndex, f: spec_fn(Seq<u8>, Seq<u8>) -> bool) -> bool {
    forall|k: Seq<u8>| #[trigger] store_map(s).contains_key(k) ==> f(k, store_map(s)[k])
}

/// In a typed index, the value the map holds under any present key
/// satisfies the typed invariant with that key.
pub proof fn lemma_typed_map(s: StoreIndex, f: spec_fn(Seq<u8>, Seq<u8>) -> bool, k: Seq<u8>)
    requires
        index_typed(s, f),
        store_map(s).contains_key(k),
    ensures
        f(k, store_map(s)[k]),
{
}

/// The whole persistent state: the heap and the four entity stores.
pub struct Storage {
    pub heap: PageHeap,
    pub users: StoreIndex,
    pub posts: StoreIndex,
    pub comments: StoreIndex,
    pub counters: StoreIndex,
}

impl Storage {
    /// All four store invariants against the one heap, plus the typed
    /// invariants of the stored records.
    pub open spec fn wf(self) -> bool {
        &&& store_wf(self.heap, self.users, REGION_USERS)
        &&& store_wf(self.heap, self.posts, REGION_POSTS)
        &&& store_wf(self.heap, self.comments, REGION_COMMENTS)
        &&& store_wf(self.heap, self.counters, REGION_COUNTERS)
        &&& index_typed(self.users, |k: Seq<u8>, v: Seq<u8>| user_entry_ok(k, v))
        &&& index_typed(self.posts, |k: Seq<u8>, v: Seq<u8>| post_entry_ok(k, v))
        &&& index_typed(self.comments, |k: Seq<u8>, v: Seq<u8>| comment_entry_ok(k, v))
        &&& index_typed(self.counters, |k: Seq<u8>, v: Seq<u8>| counter_entry_ok(k, v))
        &&& self.ids_dominated()
    }

    /// The id counters dominate every stored id: no post or comment holds
    /// an id its counter has not yet reached, so a freshly drawn id never
    /// collides with a stored record — ids are never reused, even across a
    /// restart.
    pub open spec fn ids_dominated(self) -> bool {
        &&& (forall|k: Seq<u8>| #[trigger] store_map(self.posts).contains_key(k)
            ==> spec_dec_post(store_map(self.posts)[k])->Some_0.id <= counter_of(
                self,
                POST_COUNTER_KEY,
            ))
        &&& (forall|k: Seq<u8>| #[trigger] store_map(self.comments).contains_key(k)
            ==> spec_dec_comment(store_map(self.comments)[k])->Some_0.id <= counter_of(
                self,
                COMMENT_COUNTER_KEY,
            ))
    }

    /// A fresh, empty storage: all four stores empty, one header page.
    pub fn new() -> (st: Self)
        ensures
            st.wf(),
            store_map(st.users) == Map::<Seq<u8>, Seq<u8>>::empty(),
            store_map(st.posts) == Map::<Seq<u8>, Seq<u8>>::empty(),
            store_map(st.comments) == Map::<Seq<u8>, Seq<u8>>::empty(),
            store_map(st.counters) == Map::<Seq<u8>, Seq<u8>>::empty(),
            st.heap.pages@.len() == 1,
    {
        Storage {
            heap: PageHeap::new(),
            users: StoreIndex::new(),
            posts: StoreIndex::new(),
            comments: StoreIndex::new(),
            counters: StoreIndex::new(),
        }
    }
}

/// Setting one named counter leaves every other counter as it was and
/// reads back as the value written.
pub proof fn lemma_counter_of_after_set(pre: Storage, cur: Storage, key: u8, value: u64)
    requires
        store_map(cur.counters) == store_map(pre.counters).insert(
            seq![key],
            crate::codec::enc_u64(value),
        ),
    ensures
        counter_of(cur, key) == value,
        forall|k2: u8| k2 != key ==> #[trigger] counter_of(cur, k2) == counter_of(pre, k2),
{
    crate::codec::lemma_u64_round(value);
    assert forall|k2: u8| k2 != key implies #[trigger] counter_of(cur, k2) == counter_of(
        pre,
        k2,
    ) by {
        assert(seq![k2][0] == k2);
        assert(seq![key][0] == key);
        assert(seq![k2] != seq![key]);
    }
}

/// The pages of some well-formed storage: what a prior process can have
/// left behind for a restart to find.
pub open spec fn source_of(st0: Storage, pages: Seq<Vec<u8>>) -> bool {
    &&& st0.wf()
    &&& st0.heap.pages@.len() == pages.len()
    &&& forall|p: int| 0 <= p < pages.len() ==> st0.heap.pages@[p]@ == (#[trigger] pages[p])@
}

/// In a well-formed store, a non-free page of the region holds a record
/// that satisfies the store's typed invariant.
proof fn lemma_source_page_region(
    h: PageHeap,
    s: StoreIndex,
    r: u8,
    f: spec_fn(Seq<u8>, Seq<u8>) -> bool,
    p: int,
)
    requires
        store_wf(h, s, r),
        index_typed(s, f),
        1 <= p < h.pages@.len(),
        h.page_owner(p) == r,
        !is_free_page(h.pages@[p]@),
    ensures
        dec_slot(h.pages@[p]@) is Some,
        f(dec_slot(h.pages@[p]@)->Some_0.0, dec_slot(h.pages@[p]@)->Some_0.1),
{
    assert(has_entry_for_page(s, p));
    let i = choose|i: int| 0 <= i < s.entries@.len() && (#[trigger] s.entries@[i]).page == p;
    lemma_sorted_distinct(s);
    lemma_entries_map_at(s.entries@, i);
    assert(dec_slot(h.pages@[p]@) == Option::Some((s.entries@[i].key@, s.entries@[i].val@)));
    assert(store_map(s).contains_key(s.entries@[i].key@));
    assert(store_map(s)[s.entries@[i].key@] == s.entries@[i].val@);
    assert(f(s.entries@[i].key@, s.entries@[i].val@));
}

/// Every non-free page a well-formed storage left behind decodes to a
/// record that satisfies its region's typed invariant.
proof fn lemma_source_slot(st0: Storage, pages: Seq<Vec<u8>>, p: int)
    requires
        source_of(st0, pages),
        1 <= p < pages.len(),
        pages[0]@[p - 1] < NUM_REGIONS,
    ensures
        is_free_page(pages[p]@) || (dec_slot(pages[p]@) is Some && {
            let kv = dec_slot(pages[p]@)->Some_0;
            let r = pages[0]@[p - 1];
            &&& (r == REGION_USERS ==> user_entry_ok(kv.0, kv.1))
            &&& (r == REGION_POSTS ==> post_entry_ok(kv.0, kv.1))
            &&& (r == REGION_COMMENTS ==> comment_entry_ok(kv.0, kv.1))
            &&& (r == REGION_COUNTERS ==> counter_entry_ok(kv.0, kv.1))
        }),
{
    let r = pages[0]@[p - 1];
    assert(st0.heap.pages@[0]@ == pages[0]@);
    assert(st0.heap.page_owner(p) == r);
    assert(st0.heap.pages@[p]@ == pages[p]@);
    if !is_free_page(pages[p]@) {
        if r == REGION_USERS {
            lemma_source_page_region(
                st0.heap,
                st0.users,
                REGION_USERS,
                |k: Seq<u8>, v: Seq<u8>| user_entry_ok(k, v),
                p,
            );
        } else if r == REGION_POSTS {
            lemma_source_page_region(
                st0.heap,
                st0.posts,
                REGION_POSTS,
                |k: Seq<u8>, v: Seq<u8>| post_entry_ok(k, v),
                p,
            );
        } else if r == REGION_COMMENTS {
            lemma_source_page_region(
                st0.heap,
                st0.comments,
                REGION_COMMENTS,
                |k: Seq<u8>, v: Seq<u8>| comment_entry_ok(k, v),
                p,
            );
        } else {
            lemma_source_page_region(
                st0.heap,
                st0.counters,
                REGION_COUNTERS,
                |k: Seq<u8>, v: Seq<u8>| counter_entry_ok(k, v),
                p,
            );
        }
    }
}

/// In a well-formed store, two distinct pages of the region hold records
/// under distinct keys.
proof fn lemma_source_unique_key(h: PageHeap, s: StoreIndex, r: u8, p: int, q: int)
    requires
        store_wf(h, s, r),
        1 <= p < h.pages@.len(),
        1 <= q < h.pages@.len(),
        p != q,
        h.page_owner(p) == r,
        h.page_owner(q) == r,
        dec_slot(h.pages@[p]@) is Some,
        dec_slot(h.pages@[q]@) is Some,
    ensures
        dec_slot(h.pages@[p]@)->Some_0.0 != dec_slot(h.pages@[q]@)->Some_0.0,
{
    assert(h.pages@[p]@[0] == 1u8);
    assert(h.pages@[q]@[0] == 1u8);
    assert(!is_free_page(h.pages@[p]@));
    assert(!is_free_page(h.pages@[q]@));
    assert(has_entry_for_page(s, p));
    assert(has_entry_for_page(s, q));
    let i = choose|i: int| 0 <= i < s.entries@.len() && (#[trigger] s.entries@[i]).page == p;
    let j = choose|j: int| 0 <= j < s.entries@.len() && (#[trigger] s.entries@[j]).page == q;
    lemma_sorted_distinct(s);
    assert(i != j);
    assert(dec_slot(h.pages@[p]@)->Some_0.0 == s.entries@[i].key@);
    assert(dec_slot(h.pages@[q]@)->Some_0.0 == s.entries@[j].key@);
    if s.entries@[i].key@ == s.entries@[j].key@ {
        if i < j {
            crate::store::lemma_sorted_pair(s, i, j);
            crate::order::lemma_lex_irreflexive(s.entries@[i].key@);
        } else {
            crate::store::lemma_sorted_pair(s, j, i);
            crate::order::lemma_lex_irreflexive(s.entries@[i].key@);
        }
    }
}

/// The same, for two pages of a source image: their keys differ.
proof fn lemma_source_no_dup(st0: Storage, pages: Seq<Vec<u8>>, p: int, q: int)
    requires
        source_of(st0, pages),
        1 <= p < pages.len(),
        1 <= q < pages.len(),
        p != q,
        pages[0]@[p - 1] == pages[0]@[q - 1],
        pages[0]@[p - 1] < NUM_REGIONS,
        dec_slot(pages[p]@) is Some,
        dec_slot(pages[q]@) is Some,
    ensures
        dec_slot(pages[p]@)->Some_0.0 != dec_slot(pages[q]@)->Some_0.0,
{
    let r = pages[0]@[p - 1];
    assert(st0.heap.pages@[0]@ == pages[0]@);
    assert(st0.heap.pages@[p]@ == pages[p]@);
    assert(st0.heap.pages@[q]@ == pages[q]@);
    if r == REGION_USERS {
        lemma_source_unique_key(st0.heap, st0.users, r, p, q);
    } else if r == REGION_POSTS {
        lemma_source_unique_key(st0.heap, st0.posts, r, p, q);
    } else if r == REGION_COMMENTS {
        lemma_source_unique_key(st0.heap, st0.comments, r, p, q);
    } else {
        lemma_source_unique_key(st0.heap, st0.counters, r, p, q);
    }
}

/// Decides the user store's typed invariant for one record.
fn check_user_slot(key: &Vec<u8>, val: &Vec<u8>) -> (r: bool)
    ensures
        r == user_entry_ok(key@, val@),
{
    let u = match decode_user(val) {
        Ok(u) => u,
        Err(e) => {
            return false;
        },
    };
    if bytes_cmp(&u.id.bytes, key) != KeyOrder::Equal {
        return false;
    }
    let reenc = match encode_user(&u) {
        Ok(b) => b,
        Err(e) => {
            return false;
        },
    };
    bytes_cmp(&reenc, val) == KeyOrder::Equal
}

/// Decides the post store's typed invariant for one record.
fn check_post_slot(key: &Vec<u8>, val: &Vec<u8>) -> (r: bool)
    ensures
        r == post_entry_ok(key@, val@),
{
    let p = match decode_post(val) {
        Ok(p) => p,
        Err(e) => {
            return false;
        },
    };
    let pkey = u64_to_le_bytes(p.id);
    proof {
        spec_u64_to_le_bytes_to_open(p.id);
    }
    if bytes_cmp(&pkey, key) != KeyOrder::Equal {
        return false;
    }
    let reenc = match encode_post(&p) {
        Ok(b) => b,
        Err(e) => {
            return false;
        },
    };
    bytes_cmp(&reenc, val) == KeyOrder::Equal
}

/// Decides the comment store's typed invariant for one record.
fn check_comment_slot(key: &Vec<u8>, val: &Vec<u8>) -> (r: bool)
    ensures
        r == comment_entry_ok(key@, val@),
{
    let c = match decode_comment(val) {
        Ok(c) => c,
        Err(e) => {
            return false;
        },
    };
    let ckey = u64_to_le_bytes(c.id);
    proof {
        spec_u64_to_le_bytes_to_open(c.id);
    }
    if bytes_cmp(&ckey, key) != KeyOrder::Equal {
        return false;
    }
    let reenc = match encode_comment(&c) {
        Ok(b) => b,
        Err(e) => {
            return false;
        },
    };
    bytes_cmp(&reenc, val) == KeyOrder::Equal
}


/// The state of one store's index while a restart walks the pages: every
/// invariant of `store_wf`, restricted to the pages walked so far.
pub open spec fn rebuilt_to(
    h: PageHeap,
    s: StoreIndex,
    r: u8,
    limit: int,
    f: spec_fn(Seq<u8>, Seq<u8>) -> bool,
) -> bool {
    &&& index_sorted(s)
    &&& (forall|i: int|
        0 <= i < s.entries@.len() ==> 1 <= (#[trigger] s.entries@[i]).page < limit)
    &&& (forall|i: int|
        0 <= i < s.entries@.len() ==> h.page_owner((#[trigger] s.entries@[i]).page as int) == r)
    &&& (forall|i: int|
        0 <= i < s.entries@.len() ==> dec_slot(
            h.pages@[(#[trigger] s.entries@[i]).page as int]@,
        ) == Option::Some((s.entries@[i].key@, s.entries@[i].val@)))
    &&& (forall|i: int, j: int|
        0 <= i < j < s.entries@.len() ==> (#[trigger] s.entries@[i]).page
            != (#[trigger] s.entries@[j]).page)
    &&& (forall|q: int|
        1 <= q < limit && h.page_owner(q) == r && !has_entry_for_page(s, q) ==> is_free_page(
            #[trigger] h.pages@[q]@,
        ))
    &&& index_typed(s, f)
}

/// Walking past a page that is free or belongs to another region keeps a
/// store's rebuild invariant.
proof fn lemma_rebuilt_skip(
    h: PageHeap,
    s: StoreIndex,
    r: u8,
    p: int,
    f: spec_fn(Seq<u8>, Seq<u8>) -> bool,
)
    requires
        rebuilt_to(h, s, r, p, f),
        1 <= p,
        h.page_owner(p) != r || is_free_page(h.pages@[p]@),
    ensures
        rebuilt_to(h, s, r, p + 1, f),
{
}

/// Adding the record of the walked page extends a store's rebuild
/// invariant by that page.
#[verifier::rlimit(100)]
#[verifier::spinoff_prover]
proof fn lemma_rebuilt_step(
    h: PageHeap,
    s0: StoreIndex,
    s1: StoreIndex,
    r: u8,
    page: usize,
    f: spec_fn(Seq<u8>, Seq<u8>) -> bool,
    key: Seq<u8>,
    val: Seq<u8>,
)
    requires
        rebuilt_to(h, s0, r, page as int, f),
        1 <= page < h.pages@.len(),
        h.page_owner(page as int) == r,
        dec_slot(h.pages@[page as int]@) == Option::Some((key, val)),
        f(key, val),
        index_sorted(s1),
        store_map(s1) == store_map(s0).insert(key, val),
        exists|pos: int|
            0 <= pos <= s0.entries@.len() && #[trigger] s1.entries@ == s0.entries@.insert(
                pos,
                StoreEntry { key: s1.entries@[pos].key, val: s1.entries@[pos].val, page },
            ) && s1.entries@[pos].key@ == key && s1.entries@[pos].val@ == val
                && s1.entries@[pos].page == page,
    ensures
        rebuilt_to(h, s1, r, page as int + 1, f),
{
    let pos = choose|pos: int|
        0 <= pos <= s0.entries@.len() && #[trigger] s1.entries@ == s0.entries@.insert(
            pos,
            StoreEntry { key: s1.entries@[pos].key, val: s1.entries@[pos].val, page },
        ) && s1.entries@[pos].key@ == key && s1.entries@[pos].val@ == val
            && s1.entries@[pos].page == page;
    let es0 = s0.entries@;
    let es1 = s1.entries@;
    assert(es1.len() == es0.len() + 1);
    assert forall|i: int|
        0 <= i < es1.len() implies 1 <= (#[trigger] es1[i]).page < page as int + 1
            && h.page_owner(es1[i].page as int) == r && dec_slot(h.pages@[es1[i].page as int]@)
            == Option::Some((es1[i].key@, es1[i].val@)) by {
        if i != pos {
            let i0 = if i < pos {
                i
            } else {
                i - 1
            };
            assert(es1[i] == es0[i0]);
        }
    }
    assert forall|i: int, j: int|
        0 <= i < j < es1.len() implies (#[trigger] es1[i]).page != (#[trigger] es1[j]).page by {
        if i != pos && j != pos {
            let i0 = if i < pos {
                i
            } else {
                i - 1
            };
            let j0 = if j < pos {
                j
            } else {
                j - 1
            };
            assert(es1[i] == es0[i0]);
            assert(es1[j] == es0[j0]);
        } else if i == pos {
            assert(es1[j] == es0[j - 1]);
            assert(es0[j - 1].page < page);
        } else {
            assert(es1[i] == es0[i]);
            assert(es0[i].page < page);
        }
    }
    assert forall|q: int|
        1 <= q < page as int + 1 && h.page_owner(q) == r && !has_entry_for_page(s1, q)
            implies is_free_page(#[trigger] h.pages@[q]@) by {
        if q == page as int {
            assert(es1[pos].page == q);
        } else {
            assert forall|i: int| 0 <= i < es0.len() implies (#[trigger] es0[i]).page != q by {
                let i1 = if i < pos {
                    i
                } else {
                    i + 1
                };
                assert(es1[i1] == es0[i]);
                assert(es1[i1].page != q);
            }
            assert(!has_entry_for_page(s0, q));
        }
    }
    assert(index_typed(s1, f)) by {
        assert forall|k: Seq<u8>| #[trigger] store_map(s1).contains_key(k) implies f(
            k,
            store_map(s1)[k],
        ) by {
            if k != key {
                assert(store_map(s0).contains_key(k));
                assert(store_map(s1)[k] == store_map(s0)[k]);
            }
        }
    }
}

impl Storage {
    /// Re-attaches a storage to the pages a prior process wrote: the
    /// header and every slot are validated and the four indexes rebuilt.
    /// Any malformed byte — a bad header, an undecodable slot, a record
    /// out of place or out of bounds, a duplicate key — is an integrity
    /// fault, and only such a byte is: on the pages of any well-formed
    /// storage, success is owed. By `lemma_pages_determine_content`, what
    /// comes back then holds exactly the maps that storage held: a restart
    /// loses nothing.
    #[verifier::rlimit(100)]
    #[verifier::spinoff_prover]
    #[verifier::loop_isolation(false)]
    pub fn attach(pages: Vec<Vec<u8>>) -> (r: Result<Storage, StoreError>)
        ensures
            r matches Ok(st) ==> {
                &&& st.wf()
                &&& st.heap.pages@.len() == pages@.len()
                &&& (forall|p: int|
                    0 <= p < pages@.len() ==> #[trigger] st.heap.pages@[p]@ == pages@[p]@)
            },
            (exists|st0: Storage| source_of(st0, pages@)) ==> r is Ok,
    {
        let n = pages.len();
        if n < 1 || n > 1 + PAGE_SIZE {
            proof {
                if exists|st0: Storage| source_of(st0, pages@) {
                    let st0 = choose|st0: Storage| source_of(st0, pages@);
                    assert(st0.heap.wf());
                    assert(false);
                }
            }
            return Err(StoreError::CorruptRecord);
        }
        let mut i: usize = 0;
        while i < n
            invariant
                0 <= i <= n,
                forall|q: int| 0 <= q < i ==> (#[trigger] pages@[q])@.len() == PAGE_SIZE,
            decreases n - i,
        {
            if pages[i].len() != PAGE_SIZE {
                proof {
                    if exists|st0: Storage| source_of(st0, pages@) {
                        let st0 = choose|st0: Storage| source_of(st0, pages@);
                        assert(st0.heap.pages@[i as int]@.len() == PAGE_SIZE);
                        assert(false);
                    }
                }
                return Err(StoreError::CorruptRecord);
            }
            i += 1;
        }
        let mut j: usize = 0;
        while j < PAGE_SIZE
            invariant
                0 <= j <= PAGE_SIZE,
                forall|q: int| 0 <= q < j && q < n - 1 ==> pages@[0]@[q] < NUM_REGIONS,
                forall|q: int| n - 1 <= q < j ==> pages@[0]@[q] == FREE_OWNER,
            decreases PAGE_SIZE - j,
        {
            let b = pages[0][j];
            if j < n - 1 {
                if b >= NUM_REGIONS {
                    proof {
                        if exists|st0: Storage| source_of(st0, pages@) {
                            let st0 = choose|st0: Storage| source_of(st0, pages@);
                            assert(st0.heap.page_owner(j + 1) == b);
                            assert(false);
                        }
                    }
                    return Err(StoreError::CorruptRecord);
                }
            } else {
                if b != FREE_OWNER {
                    proof {
                        if exists|st0: Storage| source_of(st0, pages@) {
                            let st0 = choose|st0: Storage| source_of(st0, pages@);
                            assert(st0.heap.pages@[0]@[j as int] == FREE_OWNER);
                            assert(false);
                        }
                    }
                    return Err(StoreError::CorruptRecord);
                }
            }
            j += 1;
        }
        let ghost pages0 = pages@;
        let heap = PageHeap { pages };
        let mut st = Storage {
            heap,
            users: StoreIndex::new(),
            posts: StoreIndex::new(),
            comments: StoreIndex::new(),
            counters: StoreIndex::new(),
        };
        proof {
            assert(st.heap.wf());
        }
        let ghost heap0 = st.heap;
        let ghost fu = |k: Seq<u8>, v: Seq<u8>| user_entry_ok(k, v);
        let ghost fp = |k: Seq<u8>, v: Seq<u8>| post_entry_ok(k, v);
        let ghost fc = |k: Seq<u8>, v: Seq<u8>| comment_entry_ok(k, v);
        let ghost fn_counter = |k: Seq<u8>, v: Seq<u8>| counter_entry_ok(k, v);
        let mut p: usize = 1;
        while p < n
            invariant
                1 <= p <= n,
                rebuilt_to(st.heap, st.users, REGION_USERS, p as int, fu),
                rebuilt_to(st.heap, st.posts, REGION_POSTS, p as int, fp),
                rebuilt_to(st.heap, st.comments, REGION_COMMENTS, p as int, fc),
                rebuilt_to(st.heap, st.counters, REGION_COUNTERS, p as int, fn_counter),
                st.heap == heap0,
                st.heap.pages@.len() == n,
                st.heap.wf(),
            decreases n - p,
        {
            let ghost st_pre = st;
            let owner = st.heap.pages[0][p - 1];
            if st.heap.pages[p][0] == 0 {
                proof {
                    assert(is_free_page(st.heap.pages@[p as int]@));
                    lemma_rebuilt_skip(st.heap, st.users, REGION_USERS, p as int, fu);
                    lemma_rebuilt_skip(st.heap, st.posts, REGION_POSTS, p as int, fp);
                    lemma_rebuilt_skip(st.heap, st.comments, REGION_COMMENTS, p as int, fc);
                    lemma_rebuilt_skip(st.heap, st.counters, REGION_COUNTERS, p as int, fn_counter);
                }
            } else {
                let (key, val) = match crate::store::read_slot(&st.heap.pages[p]) {
                    Ok(kv) => kv,
                    Err(e) => {
                        proof {
                            if exists|st0: Storage| source_of(st0, pages0) {
                                let st0 = choose|st0: Storage| source_of(st0, pages0);
                                lemma_source_slot(st0, pages0, p as int);
                                assert(false);
                            }
                        }
                        return Err(e);
                    },
                };
                let ghost kk = key@;
                let ghost vv = val@;
                proof {
                    assert(dec_slot(pages0[p as int]@) == Option::Some((kk, vv)));
                }
                let ok = if owner == REGION_USERS {
                    check_user_slot(&key, &val)
                } else if owner == REGION_POSTS {
                    check_post_slot(&key, &val)
                } else if owner == REGION_COMMENTS {
                    check_comment_slot(&key, &val)
                } else {
                    key.len() == 1 && val.len() == 8
                };
                if !ok {
                    proof {
                        if exists|st0: Storage| source_of(st0, pages0) {
                            let st0 = choose|st0: Storage| source_of(st0, pages0);
                            lemma_source_slot(st0, pages0, p as int);
                            assert(false);
                        }
                    }
                    return Err(StoreError::CorruptRecord);
                }
                let added = if owner == REGION_USERS {
                    crate::store::index_add(&mut st.users, key, val, p)
                } else if owner == REGION_POSTS {
                    crate::store::index_add(&mut st.posts, key, val, p)
                } else if owner == REGION_COMMENTS {
                    crate::store::index_add(&mut st.comments, key, val, p)
                } else {
                    crate::store::index_add(&mut st.counters, key, val, p)
                };
                match added {
                    Ok(u2) => {},
                    Err(e) => {
                        proof {
                            // a duplicate key: some earlier page of the same
                            // region already holds this key, which no
                            // well-formed storage allows
                            let s_dup = if owner == REGION_USERS {
                                st_pre.users
                            } else if owner == REGION_POSTS {
                                st_pre.posts
                            } else if owner == REGION_COMMENTS {
                                st_pre.comments
                            } else {
                                st_pre.counters
                            };
                            assert(store_map(s_dup).contains_key(kk));
                            lemma_entries_map_contains(s_dup.entries@, kk);
                            let idx = choose|idx: int|
                                0 <= idx < s_dup.entries@.len()
                                    && (#[trigger] s_dup.entries@[idx]).key@ == kk;
                            let q = s_dup.entries@[idx].page as int;
                            assert(dec_slot(pages0[q]@) == Option::Some(
                                (s_dup.entries@[idx].key@, s_dup.entries@[idx].val@),
                            ));
                            if exists|st0: Storage| source_of(st0, pages0) {
                                let st0 = choose|st0: Storage| source_of(st0, pages0);
                                lemma_source_no_dup(st0, pages0, p as int, q);
                                assert(false);
                            }
                        }
                        return Err(e);
                    },
                }
                proof {
                    if owner == REGION_USERS {
                        lemma_rebuilt_step(st.heap, st_pre.users, st.users, REGION_USERS, p, fu, kk, vv);
                        lemma_rebuilt_skip(st.heap, st.posts, REGION_POSTS, p as int, fp);
                        lemma_rebuilt_skip(st.heap, st.comments, REGION_COMMENTS, p as int, fc);
                        lemma_rebuilt_skip(st.heap, st.counters, REGION_COUNTERS, p as int, fn_counter);
                    } else if owner == REGION_POSTS {
                        lemma_rebuilt_step(st.heap, st_pre.posts, st.posts, REGION_POSTS, p, fp, kk, vv);
                        lemma_rebuilt_skip(st.heap, st.users, REGION_USERS, p as int, fu);
                        lemma_rebuilt_skip(st.heap, st.comments, REGION_COMMENTS, p as int, fc);
                        lemma_rebuilt_skip(st.heap, st.counters, REGION_COUNTERS, p as int, fn_counter);
                    } else if owner == REGION_COMMENTS {
                        lemma_rebuilt_step(st.heap, st_pre.comments, st.comments, REGION_COMMENTS, p, fc, kk, vv);
                        lemma_rebuilt_skip(st.heap, st.users, REGION_USERS, p as int, fu);
                        lemma_rebuilt_skip(st.heap, st.posts, REGION_POSTS, p as int, fp);
                        lemma_rebuilt_skip(st.heap, st.counters, REGION_COUNTERS, p as int, fn_counter);
                    } else {
                        assert(owner == REGION_COUNTERS);
                        lemma_rebuilt_step(st.heap, st_pre.counters, st.counters, REGION_COUNTERS, p, fn_counter, kk, vv);
                        lemma_rebuilt_skip(st.heap, st.users, REGION_USERS, p as int, fu);
                        lemma_rebuilt_skip(st.heap, st.posts, REGION_POSTS, p as int, fp);
                        lemma_rebuilt_skip(st.heap, st.comments, REGION_COMMENTS, p as int, fc);
                    }
                }
            }
            p += 1;
        }
        // the rebuilt stores must also respect counter dominance: a stored
        // id above its counter would let a later create reuse it
        let mut ck: Vec<u8> = Vec::new();
        ck.push(POST_COUNTER_KEY);
        proof {
            assert(ck@ =~= seq![POST_COUNTER_KEY]);
        }
        let post_counter: u64 = match crate::store::store_get(&st.counters, &ck) {
            Some(v) => {
                proof {
                    lemma_typed_map(st.counters, fn_counter, seq![POST_COUNTER_KEY]);
                }
                vstd::bytes::u64_from_le_bytes(v.as_slice())
            },
            None => 0,
        };
        let mut ck2: Vec<u8> = Vec::new();
        ck2.push(COMMENT_COUNTER_KEY);
        proof {
            assert(ck2@ =~= seq![COMMENT_COUNTER_KEY]);
        }
        let comment_counter: u64 = match crate::store::store_get(&st.counters, &ck2) {
            Some(v) => {
                proof {
                    lemma_typed_map(st.counters, fn_counter, seq![COMMENT_COUNTER_KEY]);
                }
                vstd::bytes::u64_from_le_bytes(v.as_slice())
            },
            None => 0,
        };
        proof {
            assert(post_counter == counter_of(st, POST_COUNTER_KEY));
            assert(comment_counter == counter_of(st, COMMENT_COUNTER_KEY));
            assert(store_wf(st.heap, st.posts, REGION_POSTS));
            assert(store_wf(st.heap, st.comments, REGION_COMMENTS));
            assert(store_wf(st.heap, st.counters, REGION_COUNTERS));
            assert(forall|q: int|
                0 <= q < pages0.len() ==> st.heap.pages@[q]@ == (#[trigger] pages0[q])@);
        }
        let np = st.posts.entries.len();
        let mut t: usize = 0;
        while t < np
            invariant
                np == st.posts.entries@.len(),
                0 <= t <= np,
                forall|j: int|
                    0 <= j < t ==> spec_dec_post(
                        (#[trigger] st.posts.entries@[j]).val@,
                    )->Some_0.id <= post_counter,
            decreases np - t,
        {
            proof {
                lemma_sorted_distinct(st.posts);
                lemma_entries_map_at(st.posts.entries@, t as int);
                lemma_typed_map(st.posts, fp, st.posts.entries@[t as int].key@);
            }
            let po = match decode_post(&st.posts.entries[t].val) {
                Ok(po) => po,
                Err(e) => {
                    proof {
                        assert(false);
                    }
                    return Err(e);
                },
            };
            if po.id > post_counter {
                proof {
                    if exists|st0: Storage| source_of(st0, pages0) {
                        let st0 = choose|st0: Storage| source_of(st0, pages0);
                        lemma_pages_determine_content(
                            st.heap,
                            st.posts,
                            st0.heap,
                            st0.posts,
                            REGION_POSTS,
                        );
                        lemma_pages_determine_content(
                            st.heap,
                            st.counters,
                            st0.heap,
                            st0.counters,
                            REGION_COUNTERS,
                        );
                        let kq = st.posts.entries@[t as int].key@;
                        assert(store_map(st0.posts).contains_key(kq));
                        assert(counter_of(st0, POST_COUNTER_KEY) == post_counter);
                        assert(false);
                    }
                }
                return Err(StoreError::CorruptRecord);
            }
            t += 1;
        }
        let nc = st.comments.entries.len();
        let mut t2: usize = 0;
        while t2 < nc
            invariant
                nc == st.comments.entries@.len(),
                0 <= t2 <= nc,
                forall|j: int|
                    0 <= j < t2 ==> spec_dec_comment(
                        (#[trigger] st.comments.entries@[j]).val@,
                    )->Some_0.id <= comment_counter,
            decreases nc - t2,
        {
            proof {
                lemma_sorted_distinct(st.comments);
                lemma_entries_map_at(st.comments.entries@, t2 as int);
                lemma_typed_map(st.comments, fc, st.comments.entries@[t2 as int].key@);
            }
            let co = match decode_comment(&st.comments.entries[t2].val) {
                Ok(co) => co,
                Err(e) => {
                    proof {
                        assert(false);
                    }
                    return Err(e);
                },
            };
            if co.id > comment_counter {
                proof {
                    if exists|st0: Storage| source_of(st0, pages0) {
                        let st0 = choose|st0: Storage| source_of(st0, pages0);
                        lemma_pages_determine_content(
                            st.heap,
                            st.comments,
                            st0.heap,
                            st0.comments,
                            REGION_COMMENTS,
                        );
                        lemma_pages_determine_content(
                            st.heap,
                            st.counters,
                            st0.heap,
                            st0.counters,
                            REGION_COUNTERS,
                        );
                        let kq = st.comments.entries@[t2 as int].key@;
                        assert(store_map(st0.comments).contains_key(kq));
                        assert(counter_of(st0, COMMENT_COUNTER_KEY) == comment_counter);
                        assert(false);
                    }
                }
                return Err(StoreError::CorruptRecord);
            }
            t2 += 1;
        }
        proof {
            assert(st.ids_dominated()) by {
                assert forall|k: Seq<u8>| #[trigger]
                    store_map(st.posts).contains_key(k) implies spec_dec_post(
                    store_map(st.posts)[k],
                )->Some_0.id <= counter_of(st, POST_COUNTER_KEY) by {
                    lemma_sorted_distinct(st.posts);
                    lemma_entries_map_contains(st.posts.entries@, k);
                    let j = choose|j: int|
                        0 <= j < st.posts.entries@.len() && (#[trigger] st.posts.entries@[j]).key@
                            == k;
                    lemma_entries_map_at(st.posts.entries@, j);
                }
                assert forall|k: Seq<u8>| #[trigger]
                    store_map(st.comments).contains_key(k) implies spec_dec_comment(
                    store_map(st.comments)[k],
                )->Some_0.id <= counter_of(st, COMMENT_COUNTER_KEY) by {
                    lemma_sorted_distinct(st.comments);
                    lemma_entries_map_contains(st.comments.entries@, k);
                    let j = choose|j: int|
                        0 <= j < st.comments.entries@.len()
                            && (#[trigger] st.comments.entries@[j]).key@ == k;
                    lemma_entries_map_at(st.comments.entries@, j);
                }
            }
        }
        Ok(st)
    }
}


/// A mutation through one region leaves every other region's store intact:
/// its index still matches the heap.
pub proof fn lemma_other_store_preserved(
    h0: PageHeap,
    h1: PageHeap,
    s: StoreIndex,
    r2: u8,
    r: u8,
)
    requires
        store_wf(h0, s, r2),
        preserves_other_regions(h0, h1, r),
        h1.wf(),
        r != r2,
    ensures
        store_wf(h1, s, r2),
{
    assert forall|i: int|
        0 <= i < s.entries@.len() implies 1 <= (#[trigger] s.entries@[i]).page < h1.pages@.len()
            && h1.page_owner(s.entries@[i].page as int) == r2 && dec_slot(
            h1.pages@[s.entries@[i].page as int]@,
        ) == Option::Some((s.entries@[i].key@, s.entries@[i].val@)) by {
        let p = s.entries@[i].page as int;
        assert(h0.page_owner(p) == r2);
        assert(h1.pages@[p]@ == h0.pages@[p]@);
    }
    assert forall|p: int|
        1 <= p < h1.pages@.len() && h1.page_owner(p) == r2 && !has_entry_for_page(s, p)
            implies is_free_page(#[trigger] h1.pages@[p]@) by {
        if p < h0.pages@.len() {
            assert(h0.page_owner(p) == r2);
            assert(h1.pages@[p]@ == h0.pages@[p]@);
        } else {
            assert(h1.page_owner(p) == r);
        }
    }
}

/// The pages of a region determine its store's content: two well-formed
/// stores over the same pages hold the same map. This is what makes a
/// restart safe — rebuilding the index from the pages can only yield what
/// was there.
pub proof fn lemma_pages_determine_content(
    h1: PageHeap,
    s1: StoreIndex,
    h2: PageHeap,
    s2: StoreIndex,
    r: u8,
)
    requires
        store_wf(h1, s1, r),
        store_wf(h2, s2, r),
        h1.pages@.len() == h2.pages@.len(),
        forall|p: int| 0 <= p < h1.pages@.len() ==> #[trigger] h1.pages@[p]@ == h2.pages@[p]@,
    ensures
        store_map(s1) == store_map(s2),
{
    lemma_sorted_distinct(s1);
    lemma_sorted_distinct(s2);
    lemma_one_way(h1, s1, h2, s2, r);
    lemma_one_way(h2, s2, h1, s1, r);
    assert forall|k: Seq<u8>| #[trigger]
        store_map(s1).contains_key(k) implies store_map(s2).contains_key(k) && store_map(s2)[k]
        == store_map(s1)[k] by {
        lemma_entries_map_contains(s1.entries@, k);
    }
    assert forall|k: Seq<u8>| #[trigger]
        store_map(s2).contains_key(k) implies store_map(s1).contains_key(k) by {
        lemma_entries_map_contains(s2.entries@, k);
    }
    assert(store_map(s1) =~= store_map(s2));
}

/// One direction of `lemma_pages_determine_content`: every record of the
/// first store stands in the second.
proof fn lemma_one_way(h1: PageHeap, s1: StoreIndex, h2: PageHeap, s2: StoreIndex, r: u8)
    requires
        store_wf(h1, s1, r),
        store_wf(h2, s2, r),
        h1.pages@.len() == h2.pages@.len(),
        forall|p: int| 0 <= p < h1.pages@.len() ==> #[trigger] h1.pages@[p]@ == h2.pages@[p]@,
    ensures
        forall|i: int|
            0 <= i < s1.entries@.len() ==> store_map(s2).contains_key(
                (#[trigger] s1.entries@[i]).key@,
            ) && store_map(s2)[s1.entries@[i].key@] == s1.entries@[i].val@,
{
    lemma_sorted_distinct(s2);
    assert forall|i: int|
        0 <= i < s1.entries@.len() implies store_map(s2).contains_key(
        (#[trigger] s1.entries@[i]).key@,
    ) && store_map(s2)[s1.entries@[i].key@] == s1.entries@[i].val@ by {
        let p = s1.entries@[i].page as int;
        let k = s1.entries@[i].key@;
        let v = s1.entries@[i].val@;
        assert(dec_slot(h1.pages@[p]@) == Option::Some((k, v)));
        assert(h2.pages@[p]@ == h1.pages@[p]@);
        assert(h2.page_owner(p) == h1.page_owner(p)) by {
            assert(h1.pages@[0]@ == h2.pages@[0]@);
        }
        assert(!is_free_page(h2.pages@[p]@)) by {
            assert(h2.pages@[p]@[0] == 1u8);
        }
        assert(has_entry_for_page(s2, p));
        let j = choose|j: int|
            0 <= j < s2.entries@.len() && (#[trigger] s2.entries@[j]).page == p;
        assert(dec_slot(h2.pages@[p]@) == Option::Some(
            (s2.entries@[j].key@, s2.entries@[j].val@),
        ));
        assert(s2.entries@[j].key@ == k && s2.entries@[j].val@ == v);
        lemma_entries_map_at(s2.entries@, j);
    }
}

/// Law: restart durability. Two well-formed storages over the same pages —
/// in particular, a storage and what `attach` rebuilds from its pages —
/// hold exactly the same records in every store.
pub proof fn law_restart_durability(st1: Storage, st2: Storage)
    requires
        st1.wf(),
        st2.wf(),
        st1.heap.pages@.len() == st2.heap.pages@.len(),
        forall|p: int|
            0 <= p < st1.heap.pages@.len() ==> #[trigger] st1.heap.pages@[p]@
                == st2.heap.pages@[p]@,
    ensures
        store_map(st1.users) == store_map(st2.users),
        store_map(st1.posts) == store_map(st2.posts),
        store_map(st1.comments) == store_map(st2.comments),
        store_map(st1.counters) == store_map(st2.counters),
{
    lemma_pages_determine_content(st1.heap, st1.users, st2.heap, st2.users, REGION_USERS);
    lemma_pages_determine_content(st1.heap, st1.posts, st2.heap, st2.posts, REGION_POSTS);
    lemma_pages_determine_content(st1.heap, st1.comments, st2.heap, st2.comments, REGION_COMMENTS);
    lemma_pages_determine_content(
        st1.heap,
        st1.counters,
        st2.heap,
        st2.counters,
        REGION_COUNTERS,
    );
}


} // verus!
