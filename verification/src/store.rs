//! The ordered key-value store over one region.
//!
//! Each record occupies one data page of its region: a status byte (1 for a
//! record, 0 for logically free), then the key and the value, each
//! length-prefixed, then zero padding to the page boundary. An in-memory
//! index (`StoreIndex`) holds the entries sorted by key together with the
//! page each one lives on; `store_wf` ties the index to the heap, so that
//! the pages alone determine the store's content and a restart can rebuild
//! the index from them. Every mutation writes its page through before
//! returning. A removed record's page is zeroed and stays with its region:
//! deletion marks logical free space, it never returns pages.
//!
//! The store's abstract value is `store_map`: a map from key to value, with
//! overwrite on insert, `None` from a remove of an absent key, and
//! iteration in strictly ascending key order.

use vstd::prelude::*;
use crate::StoreError;
use crate::codec::enc_bytes;
use crate::codec::dec_u8;
use crate::codec::dec_bytes;
use crate::codec::lemma_dec_u8_at;
use crate::codec::lemma_dec_bytes_at;
use crate::codec::put_u8;
use crate::codec::put_bytes;
use crate::codec::clone_bytes;
use crate::entities::lemma_segment;
use crate::order::lex_lt;
use crate::order::bytes_cmp;
use crate::order::KeyOrder;
use crate::order::lemma_lex_trans;
use crate::order::lemma_lex_irreflexive;
use crate::order::lemma_lex_asymmetric;
use crate::heap::PageHeap;
use crate::heap::PAGE_SIZE;
use crate::heap::NUM_REGIONS;
use crate::heap::is_free_page;
use crate::heap::make_free_page;
use crate::heap::preserves_other_regions;

verus! {

/// Bytes of a slot page spent on the status byte and the two length
/// prefixes: the largest record a page can hold is `PAGE_SIZE` minus this.
pub const SLOT_OVERHEAD: usize = 17;

/// Encoding of a record into a full page: status byte 1, the key, the
/// value, zero padding.
pub open spec fn enc_slot(key: Seq<u8>, val: Seq<u8>) -> Seq<u8>
    recommends
        SLOT_OVERHEAD + key.len() + val.len() <= PAGE_SIZE,
{
    seq![1u8] + enc_bytes(key) + enc_bytes(val) + Seq::new(
        (PAGE_SIZE - SLOT_OVERHEAD - key.len() - val.len()) as nat,
        |i: int| 0u8,
    )
}

/// Total decoder of a slot page: the record it holds, or `None` for a free
/// page or malformed bytes.
pub open spec fn dec_slot(p: Seq<u8>) -> Option<(Seq<u8>, Seq<u8>)> {
    if p.len() != PAGE_SIZE {
        Option::None
    } else {
        match dec_u8(p, 0) {
            Option::None => Option::None,
            Option::Some((status, p0)) => if status != 1 {
                Option::None
            } else {
                match dec_bytes(p, p0) {
                    Option::None => Option::None,
                    Option::Some((k, p1)) => match dec_bytes(p, p1) {
                        Option::None => Option::None,
                        Option::Some((v, p2)) => Option::Some((k, v)),
                    },
                }
            },
        }
    }
}

/// A slot page reads back as the record written into it, and is not free.
pub proof fn lemma_slot_round(key: Seq<u8>, val: Seq<u8>)
    requires
        SLOT_OVERHEAD + key.len() + val.len() <= PAGE_SIZE,
    ensures
        enc_slot(key, val).len() == PAGE_SIZE,
        dec_slot(enc_slot(key, val)) == Option::Some((key, val)),
        !is_free_page(enc_slot(key, val)),
{
    let b = enc_slot(key, val);
    let s0 = seq![1u8];
    let s1 = enc_bytes(key);
    let s2 = enc_bytes(val);
    let s3 = Seq::new((PAGE_SIZE - SLOT_OVERHEAD - key.len() - val.len()) as nat, |i: int| 0u8);
    assert(b.len() == PAGE_SIZE);
    assert(b =~= Seq::<u8>::empty() + s0 + (s1 + s2 + s3));
    lemma_segment(b, Seq::empty(), s0, s1 + s2 + s3);
    lemma_dec_u8_at(b, 0, 1u8);
    assert(b =~= s0 + s1 + (s2 + s3));
    lemma_segment(b, s0, s1, s2 + s3);
    lemma_dec_bytes_at(b, 1, key);
    assert(b =~= (s0 + s1) + s2 + s3);
    lemma_segment(b, s0 + s1, s2, s3);
    lemma_dec_bytes_at(b, 1 + s1.len() as int, val);
    assert(b[0] == 1u8);
}

/// Builds the slot page of a record.
pub fn make_slot_page(key: &Vec<u8>, val: &Vec<u8>) -> (r: Vec<u8>)
    requires
        SLOT_OVERHEAD + key@.len() + val@.len() <= PAGE_SIZE,
    ensures
        r@ == enc_slot(key@, val@),
        r@.len() == PAGE_SIZE,
{
    let mut out: Vec<u8> = Vec::new();
    put_u8(&mut out, 1u8);
    put_bytes(&mut out, key);
    put_bytes(&mut out, val);
    let ghost body = out@;
    while out.len() < PAGE_SIZE
        invariant
            body.len() <= out@.len() <= PAGE_SIZE,
            out@.subrange(0, body.len() as int) == body,
            forall|j: int| body.len() <= j < out@.len() ==> out@[j] == 0u8,
        decreases PAGE_SIZE - out@.len(),
    {
        out.push(0u8);
        proof {
            assert(out@.subrange(0, body.len() as int) =~= body);
        }
    }
    proof {
        lemma_slot_round(key@, val@);
        assert(out@ =~= enc_slot(key@, val@)) by {
            assert forall|j: int| 0 <= j < PAGE_SIZE implies out@[j] == enc_slot(key@, val@)[j] by {
                if j < body.len() {
                    assert(out@[j] == out@.subrange(0, body.len() as int)[j]);
                }
            }
        }
    }
    out
}

/// One record of the index: its key, its value, and the heap page that
/// holds its slot.
pub struct StoreEntry {
    pub key: Vec<u8>,
    pub val: Vec<u8>,
    pub page: usize,
}

/// The in-memory index of one region's store: entries in strictly
/// ascending key order.
pub struct StoreIndex {
    pub entries: Vec<StoreEntry>,
}

impl StoreIndex {
    /// An empty index.
    pub fn new() -> (s: Self)
        ensures
            s.entries@.len() == 0,
            store_map(s) == Map::<Seq<u8>, Seq<u8>>::empty(),
            index_sorted(s),
    {
        StoreIndex { entries: Vec::new() }
    }
}

/// Strictly ascending key order between neighbouring entries.
pub open spec fn index_sorted(s: StoreIndex) -> bool {
    forall|i: int|
        0 <= i < s.entries@.len() - 1 ==> lex_lt(
            (#[trigger] s.entries@[i]).key@,
            s.entries@[i + 1].key@,
        )
}

/// Whether some entry of the index lives on heap page `p`.
pub open spec fn has_entry_for_page(s: StoreIndex, p: int) -> bool {
    exists|i: int| 0 <= i < s.entries@.len() && (#[trigger] s.entries@[i]).page == p
}

/// The index is faithful to the heap: every entry's page is an owned page
/// of region `r` whose slot decodes to exactly that entry, entries sit on
/// pairwise distinct pages, and every other page of the region is free.
pub open spec fn store_wf(h: PageHeap, s: StoreIndex, r: u8) -> bool {
    &&& h.wf()
    &&& r < NUM_REGIONS
    &&& index_sorted(s)
    &&& (forall|i: int|
        0 <= i < s.entries@.len() ==> 1 <= (#[trigger] s.entries@[i]).page < h.pages@.len())
    &&& (forall|i: int|
        0 <= i < s.entries@.len() ==> h.page_owner((#[trigger] s.entries@[i]).page as int) == r)
    &&& (forall|i: int|
        0 <= i < s.entries@.len() ==> dec_slot(
            h.pages@[(#[trigger] s.entries@[i]).page as int]@,
        ) == Option::Some((s.entries@[i].key@, s.entries@[i].val@)))
    &&& (forall|i: int, j: int|
        0 <= i < j < s.entries@.len() ==> (#[trigger] s.entries@[i]).page
            != (#[trigger] s.entries@[j]).page)
    &&& (forall|p: int|
        1 <= p < h.pages@.len() && h.page_owner(p) == r && !has_entry_for_page(s, p)
            ==> is_free_page(#[trigger] h.pages@[p]@))
}

/// The store's abstract value: the map its entries spell out.
pub open spec fn entries_map(es: Seq<StoreEntry>) -> Map<Seq<u8>, Seq<u8>>
    decreases es.len(),
{
    if es.len() == 0 {
        Map::empty()
    } else {
        entries_map(es.drop_last()).insert(es.last().key@, es.last().val@)
    }
}

/// The store's abstract value, from its index.
pub open spec fn store_map(s: StoreIndex) -> Map<Seq<u8>, Seq<u8>> {
    entries_map(s.entries@)
}

/// A key is in the map exactly when some entry carries it.
pub proof fn lemma_entries_map_contains(es: Seq<StoreEntry>, k: Seq<u8>)
    ensures
        entries_map(es).contains_key(k) <==> exists|i: int|
            0 <= i < es.len() && (#[trigger] es[i]).key@ == k,
    decreases es.len(),
{
    if es.len() > 0 {
        lemma_entries_map_contains(es.drop_last(), k);
        if entries_map(es).contains_key(k) {
            if es.last().key@ == k {
                assert((#[trigger] es[es.len() - 1]).key@ == k);
            } else {
                let i = choose|i: int|
                    0 <= i < es.drop_last().len() && (#[trigger] es.drop_last()[i]).key@ == k;
                assert((#[trigger] es[i]).key@ == k);
            }
        }
        if exists|i: int| 0 <= i < es.len() && (#[trigger] es[i]).key@ == k {
            let i = choose|i: int| 0 <= i < es.len() && (#[trigger] es[i]).key@ == k;
            if i < es.len() - 1 {
                assert((#[trigger] es.drop_last()[i]).key@ == k);
            }
        }
    }
}

/// Entries whose keys are pairwise distinct.
pub open spec fn entries_distinct(es: Seq<StoreEntry>) -> bool {
    forall|i: int, j: int|
        0 <= i < j < es.len() ==> (#[trigger] es[i]).key@ != (#[trigger] es[j]).key@
}

/// In a duplicate-free index the map sends each entry's key to its value.
pub proof fn lemma_entries_map_at(es: Seq<StoreEntry>, i: int)
    requires
        entries_distinct(es),
        0 <= i < es.len(),
    ensures
        entries_map(es).contains_key(es[i].key@),
        entries_map(es)[es[i].key@] == es[i].val@,
    decreases es.len(),
{
    if i == es.len() - 1 {
    } else {
        assert(entries_distinct(es.drop_last()));
        lemma_entries_map_at(es.drop_last(), i);
        assert(es.drop_last()[i] == es[i]);
        assert(es[i].key@ != es.last().key@);
    }
}

/// Sorted entries are ordered between any two positions.
pub proof fn lemma_sorted_pair(s: StoreIndex, i: int, j: int)
    requires
        index_sorted(s),
        0 <= i < j < s.entries@.len(),
    ensures
        lex_lt(s.entries@[i].key@, s.entries@[j].key@),
    decreases j - i,
{
    if j == i + 1 {
    } else {
        lemma_sorted_pair(s, i, j - 1);
        lemma_lex_trans(s.entries@[i].key@, s.entries@[j - 1].key@, s.entries@[j].key@);
    }
}

/// Sorted entries carry pairwise distinct keys.
pub proof fn lemma_sorted_distinct(s: StoreIndex)
    requires
        index_sorted(s),
    ensures
        entries_distinct(s.entries@),
{
    assert forall|i: int, j: int|
        0 <= i < j < s.entries@.len() implies (#[trigger] s.entries@[i]).key@
        != (#[trigger] s.entries@[j]).key@ by {
        lemma_sorted_pair(s, i, j);
        if s.entries@[i].key@ == s.entries@[j].key@ {
            lemma_lex_irreflexive(s.entries@[i].key@);
        }
    }
}

/// Inserting an entry under a fresh key anywhere in the sequence inserts
/// its record into the map.
pub proof fn lemma_entries_map_insert(es: Seq<StoreEntry>, idx: int, e: StoreEntry)
    requires
        0 <= idx <= es.len(),
        forall|i: int| 0 <= i < es.len() ==> (#[trigger] es[i]).key@ != e.key@,
    ensures
        entries_map(es.insert(idx, e)) == entries_map(es).insert(e.key@, e.val@),
    decreases es.len(),
{
    let es2 = es.insert(idx, e);
    if idx == es.len() {
        assert(es2 =~= es.push(e));
        assert(es2.drop_last() =~= es);
    } else {
        assert(es2.last() == es.last());
        assert(es2.drop_last() =~= es.drop_last().insert(idx, e));
        assert(forall|i: int|
            0 <= i < es.drop_last().len() ==> (#[trigger] es.drop_last()[i]).key@ != e.key@);
        lemma_entries_map_insert(es.drop_last(), idx, e);
        assert(es.last().key@ != e.key@) by {
            assert((#[trigger] es[es.len() - 1]).key@ != e.key@);
        }
        assert(entries_map(es.drop_last()).insert(e.key@, e.val@).insert(
            es.last().key@,
            es.last().val@,
        ) =~= entries_map(es.drop_last()).insert(es.last().key@, es.last().val@).insert(
            e.key@,
            e.val@,
        ));
    }
}

/// Replacing the value of one entry, key kept, overwrites that key in the
/// map.
pub proof fn lemma_entries_map_update(es: Seq<StoreEntry>, idx: int, e: StoreEntry)
    requires
        entries_distinct(es),
        0 <= idx < es.len(),
        e.key@ == es[idx].key@,
    ensures
        entries_map(es.update(idx, e)) == entries_map(es).insert(e.key@, e.val@),
    decreases es.len(),
{
    let es2 = es.update(idx, e);
    if idx == es.len() - 1 {
        assert(es2.drop_last() =~= es.drop_last());
        assert(es2.last() == e);
        assert(entries_map(es.drop_last()).insert(e.key@, e.val@) =~= entries_map(
            es.drop_last(),
        ).insert(es.last().key@, es.last().val@).insert(e.key@, e.val@));
    } else {
        assert(es2.last() == es.last());
        assert(es2.drop_last() =~= es.drop_last().update(idx, e));
        assert(entries_distinct(es.drop_last()));
        assert(es.drop_last()[idx] == es[idx]);
        lemma_entries_map_update(es.drop_last(), idx, e);
        assert(es.last().key@ != e.key@) by {
            assert((#[trigger] es[idx]).key@ == e.key@);
            assert((#[trigger] es[es.len() - 1]).key@ == es.last().key@);
        }
        assert(entries_map(es.drop_last()).insert(e.key@, e.val@).insert(
            es.last().key@,
            es.last().val@,
        ) =~= entries_map(es.drop_last()).insert(es.last().key@, es.last().val@).insert(
            e.key@,
            e.val@,
        ));
    }
}

/// Removing one entry removes exactly its key from the map.
pub proof fn lemma_entries_map_remove(es: Seq<StoreEntry>, idx: int)
    requires
        entries_distinct(es),
        0 <= idx < es.len(),
    ensures
        entries_map(es.remove(idx)) == entries_map(es).remove(es[idx].key@),
    decreases es.len(),
{
    let es2 = es.remove(idx);
    let k = es[idx].key@;
    if idx == es.len() - 1 {
        assert(es2 =~= es.drop_last());
        lemma_entries_map_contains(es.drop_last(), k);
        assert(forall|i: int|
            0 <= i < es.drop_last().len() ==> (#[trigger] es.drop_last()[i]).key@ != k);
        assert(!entries_map(es.drop_last()).contains_key(k));
        assert(entries_map(es.drop_last()).insert(k, es[idx].val@).remove(k) =~= entries_map(
            es.drop_last(),
        ));
    } else {
        assert(es2.last() == es.last());
        assert(es2.drop_last() =~= es.drop_last().remove(idx));
        assert(entries_distinct(es.drop_last()));
        assert(es.drop_last()[idx] == es[idx]);
        lemma_entries_map_remove(es.drop_last(), idx);
        assert(es.last().key@ != k) by {
            assert((#[trigger] es[idx]).key@ == k);
            assert((#[trigger] es[es.len() - 1]).key@ == es.last().key@);
        }
        assert(entries_map(es.drop_last()).remove(k).insert(es.last().key@, es.last().val@)
            =~= entries_map(es.drop_last()).insert(es.last().key@, es.last().val@).remove(k));
    }
}

/// Finds a key in a sorted index: its position if present, otherwise the
/// position where it would be inserted to keep the order.
pub fn find_pos(s: &StoreIndex, key: &Vec<u8>) -> (r: (usize, bool))
    requires
        index_sorted(*s),
    ensures
        ({
            let (pos, found) = r;
            &&& pos <= s.entries@.len()
            &&& (found ==> pos < s.entries@.len() && s.entries@[pos as int].key@ == key@)
            &&& (!found ==> forall|i: int|
                0 <= i < s.entries@.len() ==> (#[trigger] s.entries@[i]).key@ != key@)
            &&& (forall|i: int| 0 <= i < pos ==> lex_lt((#[trigger] s.entries@[i]).key@, key@))
            &&& (!found ==> forall|i: int|
                pos <= i < s.entries@.len() ==> lex_lt(key@, (#[trigger] s.entries@[i]).key@))
        }),
{
    let n = s.entries.len();
    let mut i: usize = 0;
    while i < n
        invariant
            index_sorted(*s),
            n == s.entries@.len(),
            0 <= i <= n,
            forall|j: int| 0 <= j < i ==> lex_lt((#[trigger] s.entries@[j]).key@, key@),
        decreases n - i,
    {
        match bytes_cmp(&s.entries[i].key, key) {
            KeyOrder::Less => {
                i += 1;
            },
            KeyOrder::Equal => {
                proof {
                    assert forall|j: int|
                        0 <= j < i implies lex_lt((#[trigger] s.entries@[j]).key@, key@) by {}
                }
                return (i, true);
            },
            KeyOrder::Greater => {
                proof {
                    assert forall|j: int|
                        i <= j < s.entries@.len() implies lex_lt(
                        key@,
                        (#[trigger] s.entries@[j]).key@,
                    ) by {
                        if j > i {
                            lemma_sorted_pair(*s, i as int, j);
                            lemma_lex_trans(key@, s.entries@[i as int].key@, s.entries@[j].key@);
                        }
                    }
                    assert forall|j: int|
                        0 <= j < s.entries@.len() implies (#[trigger] s.entries@[j]).key@
                        != key@ by {
                        if j < i {
                            lemma_lex_asymmetric(s.entries@[j].key@, key@);
                            if s.entries@[j].key@ == key@ {
                                lemma_lex_irreflexive(key@);
                            }
                        } else {
                            if s.entries@[j].key@ == key@ {
                                lemma_lex_irreflexive(key@);
                            }
                        }
                    }
                }
                return (i, false);
            },
        }
    }
    proof {
        assert forall|j: int|
            0 <= j < s.entries@.len() implies (#[trigger] s.entries@[j]).key@ != key@ by {
            if s.entries@[j].key@ == key@ {
                lemma_lex_irreflexive(key@);
            }
        }
    }
    (n, false)
}

/// Point lookup: the value stored under a key, if any.
pub fn store_get(s: &StoreIndex, key: &Vec<u8>) -> (r: Option<Vec<u8>>)
    requires
        index_sorted(*s),
    ensures
        store_map(*s).contains_key(key@) ==> (r matches Some(v) && v@ == store_map(*s)[key@]),
        !store_map(*s).contains_key(key@) ==> r is None,
{
    let (pos, found) = find_pos(s, key);
    if found {
        proof {
            lemma_sorted_distinct(*s);
            lemma_entries_map_at(s.entries@, pos as int);
        }
        Some(clone_bytes(&s.entries[pos].val))
    } else {
        proof {
            lemma_entries_map_contains(s.entries@, key@);
        }
        None
    }
}

/// Overwrite of the record at entry position `pos` with a new value under
/// the same key, written through to its slot page.
#[verifier::rlimit(100)]
#[verifier::spinoff_prover]
fn insert_overwrite(
    h: &mut PageHeap,
    s: &mut StoreIndex,
    r: u8,
    pos: usize,
    key: Vec<u8>,
    val: Vec<u8>,
) -> (prev: Vec<u8>)
    requires
        store_wf(*old(h), *old(s), r),
        SLOT_OVERHEAD + key@.len() + val@.len() <= PAGE_SIZE,
        pos < old(s).entries@.len(),
        old(s).entries@[pos as int].key@ == key@,
    ensures
        store_wf(*final(h), *final(s), r),
        preserves_other_regions(*old(h), *final(h), r),
        final(h).pages@.len() == old(h).pages@.len(),
        store_map(*final(s)) == store_map(*old(s)).insert(key@, val@),
        store_map(*old(s)).contains_key(key@),
        prev@ == store_map(*old(s))[key@],
{
    let ghost kk = key@;
    let ghost vv = val@;
    proof {
        lemma_sorted_distinct(*old(s));
        lemma_entries_map_at(old(s).entries@, pos as int);
        lemma_slot_round(kk, vv);
    }
    let page_bytes = make_slot_page(&key, &val);
    let page = s.entries[pos].page;
    h.write_data_page(page, page_bytes);
    let olde = s.entries.remove(pos);
    let e = StoreEntry { key, val, page };
    s.entries.insert(pos, e);
    proof {
        let es0 = old(s).entries@;
        let es1 = s.entries@;
        assert(es1 =~= es0.update(pos as int, es1[pos as int]));
        lemma_entries_map_update(es0, pos as int, es1[pos as int]);
        assert forall|i: int|
            0 <= i < es1.len() - 1 implies lex_lt(
            (#[trigger] es1[i]).key@,
            es1[i + 1].key@,
        ) by {
            assert(es1[i].key@ == es0[i].key@);
            assert(es1[i + 1].key@ == es0[i + 1].key@);
        }
        assert forall|i: int|
            0 <= i < es1.len() implies dec_slot(
            h.pages@[(#[trigger] es1[i]).page as int]@,
        ) == Option::Some((es1[i].key@, es1[i].val@)) by {
            if i != pos {
                assert(es1[i] == es0[i]);
                assert(es0[i].page != es0[pos as int].page);
                assert(h.pages@[es1[i].page as int]@ == old(h).pages@[es0[i].page as int]@);
            }
        }
        assert forall|p: int|
            1 <= p < h.pages@.len() && h.page_owner(p) == r && !has_entry_for_page(*s, p)
                implies is_free_page(#[trigger] h.pages@[p]@) by {
            assert forall|i: int| 0 <= i < es0.len() implies (#[trigger] es0[i]).page != p by {
                assert(es1[i].page == es0[i].page);
            }
            assert(!has_entry_for_page(*old(s), p));
            assert(p != es0[pos as int].page);
            assert(h.pages@[p]@ == old(h).pages@[p]@);
        }
    }
    olde.val
}

/// Insertion of a record under a fresh key at index position `pos`: a new
/// page is allocated to the region and written through. Fails, changing
/// nothing, exactly when the partition table is full.
#[verifier::rlimit(100)]
#[verifier::spinoff_prover]
fn insert_fresh(
    h: &mut PageHeap,
    s: &mut StoreIndex,
    r: u8,
    pos: usize,
    key: Vec<u8>,
    val: Vec<u8>,
) -> (res: Result<(), StoreError>)
    requires
        store_wf(*old(h), *old(s), r),
        SLOT_OVERHEAD + key@.len() + val@.len() <= PAGE_SIZE,
        pos <= old(s).entries@.len(),
        forall|i: int|
            0 <= i < old(s).entries@.len() ==> (#[trigger] old(s).entries@[i]).key@ != key@,
        forall|i: int| 0 <= i < pos ==> lex_lt((#[trigger] old(s).entries@[i]).key@, key@),
        forall|i: int|
            pos <= i < old(s).entries@.len() ==> lex_lt(
                key@,
                (#[trigger] old(s).entries@[i]).key@,
            ),
    ensures
        store_wf(*final(h), *final(s), r),
        preserves_other_regions(*old(h), *final(h), r),
        final(h).pages@.len() <= old(h).pages@.len() + 1,
        res is Err <==> old(h).pages@.len() == PAGE_SIZE + 1,
        match res {
            Ok(u) => store_map(*final(s)) == store_map(*old(s)).insert(key@, val@) && final(h).pages@.len() == old(h).pages@.len() + 1,
            Err(e) => e == StoreError::CapacityExhausted && *final(h) == *old(h) && *final(s)
                == *old(s),
        },
{
    let ghost kk = key@;
    let ghost vv = val@;
    proof {
        lemma_sorted_distinct(*old(s));
        lemma_slot_round(kk, vv);
    }
    let page_bytes = make_slot_page(&key, &val);
    let p = match h.alloc_page(r) {
        Ok(p) => p,
        Err(e) => {
            return Err(e);
        },
    };
    h.write_data_page(p, page_bytes);
    let e = StoreEntry { key, val, page: p };
    s.entries.insert(pos, e);
    proof {
        let es0 = old(s).entries@;
        let es1 = s.entries@;
        assert(es1 =~= es0.insert(pos as int, es1[pos as int]));
        lemma_entries_map_insert(es0, pos as int, es1[pos as int]);
        assert forall|i: int|
            0 <= i < es1.len() - 1 implies lex_lt(
            (#[trigger] es1[i]).key@,
            es1[i + 1].key@,
        ) by {
            if i + 1 < pos {
                assert(es1[i] == es0[i]);
                assert(es1[i + 1] == es0[i + 1]);
            } else if i + 1 == pos {
                assert(es1[i] == es0[i]);
            } else if i == pos {
                assert(es1[i + 1] == es0[i]);
            } else {
                assert(es1[i] == es0[i - 1]);
                assert(es1[i + 1] == es0[i]);
            }
        }
        assert forall|i: int|
            0 <= i < es1.len() implies 1 <= (#[trigger] es1[i]).page < h.pages@.len()
                && h.page_owner(es1[i].page as int) == r && dec_slot(
                h.pages@[es1[i].page as int]@,
            ) == Option::Some((es1[i].key@, es1[i].val@)) by {
            if i != pos {
                let i0 = if i < pos {
                    i
                } else {
                    i - 1
                };
                assert(es1[i] == es0[i0]);
                assert(es0[i0].page != p);
                assert(h.pages@[es1[i].page as int]@ == old(h).pages@[es0[i0].page as int]@);
            }
        }
        assert forall|i: int, j: int|
            0 <= i < j < es1.len() implies (#[trigger] es1[i]).page
                != (#[trigger] es1[j]).page by {
            if i != pos && j != pos {
                let i0 = if i < pos {
                    i
                } else {
                    i - 1
                };
                let j0 = if j < pos {
                    j
                } else {
                    j - 1
                };
                assert(es1[i] == es0[i0]);
                assert(es1[j] == es0[j0]);
            } else if i == pos {
                assert(es1[j] == es0[j - 1]);
                assert(es0[j - 1].page < old(h).pages@.len());
            } else {
                assert(es1[i] == es0[i]);
                assert(es0[i].page < old(h).pages@.len());
            }
        }
        assert forall|q: int|
            1 <= q < h.pages@.len() && h.page_owner(q) == r && !has_entry_for_page(*s, q)
                implies is_free_page(#[trigger] h.pages@[q]@) by {
            assert(es1[pos as int].page == p);
            assert(q != p);
            assert(q < old(h).pages@.len());
            assert forall|i: int| 0 <= i < es0.len() implies (#[trigger] es0[i]).page != q by {
                let i1 = if i < pos {
                    i
                } else {
                    i + 1
                };
                assert(es1[i1] == es0[i]);
                assert(es1[i1].page != q);
            }
            assert(!has_entry_for_page(*old(s), q));
            assert(h.pages@[q]@ == old(h).pages@[q]@);
        }
    }
    Ok(())
}

/// Inserts a record, overwriting and returning any prior value under the
/// same key. The slot page is written through before the call returns.
/// Fails, changing nothing, exactly when the key is new and the partition
/// table has no room for one more page.
pub fn store_insert(h: &mut PageHeap, s: &mut StoreIndex, r: u8, key: Vec<u8>, val: Vec<u8>) -> (res:
    Result<Option<Vec<u8>>, StoreError>)
    requires
        store_wf(*old(h), *old(s), r),
        SLOT_OVERHEAD + key@.len() + val@.len() <= PAGE_SIZE,
    ensures
        store_wf(*final(h), *final(s), r),
        preserves_other_regions(*old(h), *final(h), r),
        final(h).pages@.len() <= old(h).pages@.len() + 1,
        store_map(*old(s)).contains_key(key@) ==> final(h).pages@.len() == old(h).pages@.len(),
        (res is Ok && !store_map(*old(s)).contains_key(key@)) ==> final(h).pages@.len() == old(h).pages@.len() + 1,
        res is Err <==> (!store_map(*old(s)).contains_key(key@) && old(h).pages@.len() == PAGE_SIZE
            + 1),
        match res {
            Ok(prev) => {
                &&& store_map(*final(s)) == store_map(*old(s)).insert(key@, val@)
                &&& (store_map(*old(s)).contains_key(key@) ==> (prev matches Some(pv) && pv@
                    == store_map(*old(s))[key@]))
                &&& (!store_map(*old(s)).contains_key(key@) ==> prev is None)
            },
            Err(e) => e == StoreError::CapacityExhausted && *final(h) == *old(h) && *final(s)
                == *old(s),
        },
{
    let ghost kk = key@;
    proof {
        lemma_sorted_distinct(*old(s));
        lemma_entries_map_contains(old(s).entries@, kk);
    }
    let (pos, found) = find_pos(s, &key);
    if found {
        proof {
            lemma_entries_map_at(s.entries@, pos as int);
        }
        let prev = insert_overwrite(h, s, r, pos, key, val);
        Ok(Some(prev))
    } else {
        match insert_fresh(h, s, r, pos, key, val) {
            Ok(u) => Ok(None),
            Err(e) => Err(e),
        }
    }
}

/// Removes a record, returning its value. Removing an absent key changes
/// nothing at all and returns `None`. The freed slot page is zeroed and
/// stays with its region.
#[verifier::rlimit(100)]
#[verifier::spinoff_prover]
pub fn store_remove(h: &mut PageHeap, s: &mut StoreIndex, r: u8, key: &Vec<u8>) -> (res: Option<
    Vec<u8>,
>)
    requires
        store_wf(*old(h), *old(s), r),
    ensures
        store_wf(*final(h), *final(s), r),
        preserves_other_regions(*old(h), *final(h), r),
        final(h).pages@.len() == old(h).pages@.len(),
        store_map(*old(s)).contains_key(key@) ==> (res matches Some(v) && v@ == store_map(
            *old(s),
        )[key@] && store_map(*final(s)) == store_map(*old(s)).remove(key@)),
        !store_map(*old(s)).contains_key(key@) ==> res is None && *final(h) == *old(h) && *final(s)
            == *old(s),
{
    let ghost kk = key@;
    proof {
        lemma_sorted_distinct(*old(s));
        lemma_entries_map_contains(old(s).entries@, kk);
    }
    let (pos, found) = find_pos(s, key);
    if found {
        proof {
            lemma_entries_map_at(s.entries@, pos as int);
            lemma_entries_map_remove(s.entries@, pos as int);
        }
        let page = s.entries[pos].page;
        h.write_data_page(page, make_free_page());
        let olde = s.entries.remove(pos);
        proof {
            let es0 = old(s).entries@;
            let es1 = s.entries@;
            assert(es1 =~= es0.remove(pos as int));
            assert forall|i: int|
                0 <= i < es1.len() - 1 implies lex_lt(
                (#[trigger] es1[i]).key@,
                es1[i + 1].key@,
            ) by {
                if i + 1 < pos {
                    assert(es1[i] == es0[i]);
                    assert(es1[i + 1] == es0[i + 1]);
                } else if i + 1 == pos {
                    assert(es1[i] == es0[i]);
                    assert(es1[i + 1] == es0[i + 2]);
                    lemma_sorted_pair(*old(s), i, i + 2);
                } else {
                    assert(es1[i] == es0[i + 1]);
                    assert(es1[i + 1] == es0[i + 2]);
                }
            }
            assert forall|i: int|
                0 <= i < es1.len() implies 1 <= (#[trigger] es1[i]).page < h.pages@.len()
                    && h.page_owner(es1[i].page as int) == r && dec_slot(
                    h.pages@[es1[i].page as int]@,
                ) == Option::Some((es1[i].key@, es1[i].val@)) by {
                let i0 = if i < pos {
                    i
                } else {
                    i + 1
                };
                assert(es1[i] == es0[i0]);
                assert(es0[i0].page != es0[pos as int].page);
                assert(h.pages@[es1[i].page as int]@ == old(h).pages@[es0[i0].page as int]@);
            }
            assert forall|i: int, j: int|
                0 <= i < j < es1.len() implies (#[trigger] es1[i]).page
                    != (#[trigger] es1[j]).page by {
                let i0 = if i < pos {
                    i
                } else {
                    i + 1
                };
                let j0 = if j < pos {
                    j
                } else {
                    j + 1
                };
                assert(es1[i] == es0[i0]);
                assert(es1[j] == es0[j0]);
            }
            assert forall|q: int|
                1 <= q < h.pages@.len() && h.page_owner(q) == r && !has_entry_for_page(*s, q)
                    implies is_free_page(#[trigger] h.pages@[q]@) by {
                if q == page {
                } else {
                    assert forall|i: int|
                        0 <= i < es0.len() implies (#[trigger] es0[i]).page != q by {
                        if i != pos {
                            let i1 = if i < pos {
                                i
                            } else {
                                i - 1
                            };
                            assert(es1[i1] == es0[i]);
                            assert(es1[i1].page != q);
                        }
                    }
                    assert(!has_entry_for_page(*old(s), q));
                    assert(h.pages@[q]@ == old(h).pages@[q]@);
                }
            }
        }
        Some(olde.val)
    } else {
        None
    }
}

/// Full-range iteration: every record, in strictly ascending key order.
pub fn store_iterate(s: &StoreIndex) -> (r: Vec<(Vec<u8>, Vec<u8>)>)
    ensures
        r@.len() == s.entries@.len(),
        forall|i: int|
            0 <= i < r@.len() ==> (#[trigger] r@[i]).0@ == s.entries@[i].key@ && r@[i].1@
                == s.entries@[i].val@,
{
    let mut out: Vec<(Vec<u8>, Vec<u8>)> = Vec::new();
    let mut i: usize = 0;
    while i < s.entries.len()
        invariant
            0 <= i <= s.entries@.len(),
            out@.len() == i,
            forall|j: int|
                0 <= j < i ==> (#[trigger] out@[j]).0@ == s.entries@[j].key@ && out@[j].1@
                    == s.entries@[j].val@,
        decreases s.entries@.len() - i,
    {
        let k = clone_bytes(&s.entries[i].key);
        let v = clone_bytes(&s.entries[i].val);
        out.push((k, v));
        i += 1;
    }
    out
}

/// Law: iteration is sound and complete for a sorted index. Its keys are
/// strictly ascending — so free of duplicates — and they are exactly the
/// keys the store's map holds: nothing stale survives a delete, nothing
/// present is missed.
pub proof fn law_iteration_matches_content(s: StoreIndex)
    requires
        index_sorted(s),
    ensures
        forall|i: int, j: int|
            0 <= i < j < s.entries@.len() ==> lex_lt(
                (#[trigger] s.entries@[i]).key@,
                (#[trigger] s.entries@[j]).key@,
            ),
        forall|k: Seq<u8>|
            store_map(s).contains_key(k) <==> exists|i: int|
                0 <= i < s.entries@.len() && (#[trigger] s.entries@[i]).key@ == k,
        forall|i: int|
            0 <= i < s.entries@.len() ==> store_map(s)[(#[trigger] s.entries@[i]).key@]
                == s.entries@[i].val@,
{
    assert forall|i: int, j: int|
        0 <= i < j < s.entries@.len() implies lex_lt(
        (#[trigger] s.entries@[i]).key@,
        (#[trigger] s.entries@[j]).key@,
    ) by {
        lemma_sorted_pair(s, i, j);
    }
    assert forall|k: Seq<u8>|
        store_map(s).contains_key(k) <==> exists|i: int|
            0 <= i < s.entries@.len() && (#[trigger] s.entries@[i]).key@ == k by {
        lemma_entries_map_contains(s.entries@, k);
    }
    lemma_sorted_distinct(s);
    assert forall|i: int|
        0 <= i < s.entries@.len() implies store_map(s)[(#[trigger] s.entries@[i]).key@]
        == s.entries@[i].val@ by {
        lemma_entries_map_at(s.entries@, i);
    }
}

/// Reads the record of a slot page, following `dec_slot`.
pub fn read_slot(page: &Vec<u8>) -> (r: Result<(Vec<u8>, Vec<u8>), StoreError>)
    requires
        page@.len() == PAGE_SIZE,
        page@[0] != 0,
    ensures
        ({
            let d = dec_slot(page@);
            match d {
                Option::Some((k, v)) => r matches Ok(kv) && kv.0@ == k && kv.1@ == v,
                Option::None => r == Err::<(Vec<u8>, Vec<u8>), StoreError>(
                    StoreError::CorruptRecord,
                ),
            }
        }),
{
    let mut pos: usize = 0;
    let status = match crate::codec::get_u8(page, &mut pos) {
        Ok(b) => b,
        Err(e) => {
            return Err(e);
        },
    };
    if status != 1 {
        return Err(StoreError::CorruptRecord);
    }
    let k = match crate::codec::get_bytes(page, &mut pos) {
        Ok(k) => k,
        Err(e) => {
            return Err(e);
        },
    };
    let v = match crate::codec::get_bytes(page, &mut pos) {
        Ok(v) => v,
        Err(e) => {
            return Err(e);
        },
    };
    Ok((k, v))
}

/// Adds a rebuilt entry to an index at its sorted position, without
/// touching any page: the restart path, where the pages are already
/// there. A duplicate key is an integrity fault.
pub fn index_add(s: &mut StoreIndex, key: Vec<u8>, val: Vec<u8>, page: usize) -> (res: Result<
    (),
    StoreError,
>)
    requires
        index_sorted(*old(s)),
    ensures
        match res {
            Ok(u) => {
                &&& index_sorted(*final(s))
                &&& (forall|i: int|
                    0 <= i < old(s).entries@.len() ==> (#[trigger] old(s).entries@[i]).key@
                        != key@)
                &&& store_map(*final(s)) == store_map(*old(s)).insert(key@, val@)
                &&& (exists|pos: int|
                    0 <= pos <= old(s).entries@.len() && #[trigger] final(s).entries@ == old(s).entries@.insert(
                        pos,
                        StoreEntry { key: final(s).entries@[pos].key, val: final(s).entries@[pos].val, page },
                    ) && final(s).entries@[pos].key@ == key@ && final(s).entries@[pos].val@
                        == val@ && final(s).entries@[pos].page == page)
            },
            Err(e) => e == StoreError::CorruptRecord && *final(s) == *old(s) && store_map(
                *old(s),
            ).contains_key(key@),
        },
{
    proof {
        lemma_sorted_distinct(*old(s));
        lemma_entries_map_contains(old(s).entries@, key@);
    }
    let (pos, found) = find_pos(s, &key);
    if found {
        proof {
            lemma_entries_map_at(s.entries@, pos as int);
        }
        return Err(StoreError::CorruptRecord);
    }
    let e = StoreEntry { key, val, page };
    s.entries.insert(pos, e);
    proof {
        let es0 = old(s).entries@;
        let es1 = s.entries@;
        assert(es1 =~= es0.insert(pos as int, es1[pos as int]));
        lemma_entries_map_insert(es0, pos as int, es1[pos as int]);
        assert forall|i: int|
            0 <= i < es1.len() - 1 implies lex_lt(
            (#[trigger] es1[i]).key@,
            es1[i + 1].key@,
        ) by {
            if i + 1 < pos {
                assert(es1[i] == es0[i]);
                assert(es1[i + 1] == es0[i + 1]);
            } else if i + 1 == pos {
                assert(es1[i] == es0[i]);
            } else if i == pos {
                assert(es1[i + 1] == es0[i]);
            } else {
                assert(es1[i] == es0[i - 1]);
                assert(es1[i + 1] == es0[i]);
            }
        }
        assert(es1 == es0.insert(
            pos as int,
            StoreEntry { key: es1[pos as int].key, val: es1[pos as int].val, page },
        ));
    }
    Ok(())
}


/// Law: removing an absent key is a no-op, however often repeated — the
/// store's map is unchanged and the result is `None` each time, as
/// `store_remove` ensures of the unchanged state.
pub proof fn law_remove_absent_is_noop(m: Map<Seq<u8>, Seq<u8>>, k: Seq<u8>)
    requires
        !m.contains_key(k),
    ensures
        m.remove(k) == m,
        m.remove(k).remove(k) == m,
{
    assert(m.remove(k) =~= m);
}

/// Law: inserting a record overwrites the key — a later lookup sees only
/// the new value, and every other key is untouched. With `store_insert`
/// returning the prior value, this is the overwrite semantics of the
/// store.
pub proof fn law_insert_overwrites(m: Map<Seq<u8>, Seq<u8>>, k: Seq<u8>, v: Seq<u8>)
    ensures
        m.insert(k, v).contains_key(k),
        m.insert(k, v)[k] == v,
        forall|k2: Seq<u8>|
            k2 != k ==> (#[trigger] m.insert(k, v).contains_key(k2) == m.contains_key(k2)) && (
            m.contains_key(k2) ==> m.insert(k, v)[k2] == m[k2]),
{
}


} // verus!
