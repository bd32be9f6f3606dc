//! Primitives of the binary record format.
//!
//! Every record is a concatenation of fields, each self-delimiting:
//! - an unsigned 64-bit integer is its 8 little-endian bytes;
//! - a byte string is its length as a 64-bit integer, then its bytes;
//! - an optional byte string is a flag byte (0 absent, 1 present), then,
//!   when present, the byte string;
//! - a list of byte strings is its count as a 64-bit integer, then the
//!   byte strings in order.
//!
//! `enc_*` are the specification encoders, `dec_*` the total specification
//! decoders (`None` on malformed input), and the executable readers and
//! writers are proved to follow them exactly. The `lemma_dec_*_at` lemmas
//! state that decoding at the position of an encoded field yields that
//! field back: the ground for every record round trip.

use vstd::prelude::*;
use vstd::bytes::*;
use vstd::slice::slice_subrange;
use vstd::slice::slice_to_vec;
use crate::StoreError;

verus! {

/// Encoding of an unsigned 64-bit integer: 8 bytes, little-endian.
pub open spec fn enc_u64(x: u64) -> Seq<u8> {
    spec_u64_to_le_bytes_open(x)
}

/// Decoding of that integer back out of its bytes.
pub proof fn lemma_u64_round(x: u64)
    ensures
        spec_u64_from_le_bytes(enc_u64(x)) == x,
{
    spec_u64_to_le_bytes_to_open(x);
    lemma_auto_spec_u64_to_from_le_bytes();
}

/// Encoding of a byte string: length, then content.
pub open spec fn enc_bytes(b: Seq<u8>) -> Seq<u8>
    recommends
        b.len() <= u64::MAX,
{
    enc_u64(b.len() as u64) + b
}

/// Encoding of an optional byte string: flag byte, then content if present.
pub open spec fn enc_opt_bytes(o: Option<Seq<u8>>) -> Seq<u8> {
    match o {
        Option::None => seq![0u8],
        Option::Some(b) => seq![1u8] + enc_bytes(b),
    }
}

/// Encoding of the items of a list of byte strings, in order.
pub open spec fn enc_bytes_list_items(items: Seq<Seq<u8>>) -> Seq<u8>
    decreases items.len(),
{
    if items.len() == 0 {
        Seq::empty()
    } else {
        enc_bytes(items[0]) + enc_bytes_list_items(items.skip(1))
    }
}

/// Encoding of a list of byte strings: count, then the items.
pub open spec fn enc_bytes_list(items: Seq<Seq<u8>>) -> Seq<u8> {
    enc_u64(items.len() as u64) + enc_bytes_list_items(items)
}

/// Specification decoder of a 64-bit integer at `pos`.
pub open spec fn dec_u64(b: Seq<u8>, pos: int) -> Option<(u64, int)> {
    if 0 <= pos && pos + 8 <= b.len() {
        Option::Some((spec_u64_from_le_bytes(b.subrange(pos, pos + 8)), pos + 8))
    } else {
        Option::None
    }
}

/// Specification decoder of a single byte at `pos`.
pub open spec fn dec_u8(b: Seq<u8>, pos: int) -> Option<(u8, int)> {
    if 0 <= pos && pos + 1 <= b.len() {
        Option::Some((b[pos], pos + 1))
    } else {
        Option::None
    }
}

/// Specification decoder of a byte string at `pos`.
pub open spec fn dec_bytes(b: Seq<u8>, pos: int) -> Option<(Seq<u8>, int)> {
    match dec_u64(b, pos) {
        Option::None => Option::None,
        Option::Some((n, p)) => if p + n <= b.len() {
            Option::Some((b.subrange(p, p + n as int), p + n as int))
        } else {
            Option::None
        },
    }
}

/// Specification decoder of an optional byte string at `pos`.
pub open spec fn dec_opt_bytes(b: Seq<u8>, pos: int) -> Option<(Option<Seq<u8>>, int)> {
    match dec_u8(b, pos) {
        Option::None => Option::None,
        Option::Some((f, p)) => if f == 0 {
            Option::Some((Option::None, p))
        } else if f == 1 {
            match dec_bytes(b, p) {
                Option::None => Option::None,
                Option::Some((v, q)) => Option::Some((Option::Some(v), q)),
            }
        } else {
            Option::None
        },
    }
}

/// Specification decoder of `count` byte strings in a row, starting at `pos`.
pub open spec fn dec_bytes_list_items(b: Seq<u8>, pos: int, count: int) -> Option<
    (Seq<Seq<u8>>, int),
>
    decreases count,
{
    if count <= 0 {
        Option::Some((Seq::empty(), pos))
    } else {
        match dec_bytes(b, pos) {
            Option::None => Option::None,
            Option::Some((v, p)) => match dec_bytes_list_items(b, p, count - 1) {
                Option::None => Option::None,
                Option::Some((vs, q)) => Option::Some((seq![v] + vs, q)),
            },
        }
    }
}

/// Specification decoder of a list of byte strings at `pos`.
pub open spec fn dec_bytes_list(b: Seq<u8>, pos: int) -> Option<(Seq<Seq<u8>>, int)> {
    match dec_u64(b, pos) {
        Option::None => Option::None,
        Option::Some((n, p)) => dec_bytes_list_items(b, p, n as int),
    }
}

/// A list's encoded items take at least one byte each.
pub proof fn lemma_enc_items_len(items: Seq<Seq<u8>>)
    ensures
        enc_bytes_list_items(items).len() >= items.len(),
    decreases items.len(),
{
    if items.len() > 0 {
        lemma_enc_items_len(items.skip(1));
    }
}

/// Decoding an encoded integer standing at `pos` yields it back.
pub proof fn lemma_dec_u64_at(b: Seq<u8>, pos: int, x: u64)
    requires
        0 <= pos,
        pos + 8 <= b.len(),
        b.subrange(pos, pos + 8) == enc_u64(x),
    ensures
        dec_u64(b, pos) == Option::Some((x, pos + 8)),
{
    lemma_u64_round(x);
}

/// Decoding an encoded byte standing at `pos` yields it back.
pub proof fn lemma_dec_u8_at(b: Seq<u8>, pos: int, x: u8)
    requires
        0 <= pos,
        pos + 1 <= b.len(),
        b.subrange(pos, pos + 1) == seq![x],
    ensures
        dec_u8(b, pos) == Option::Some((x, pos + 1)),
{
    assert(b[pos] == b.subrange(pos, pos + 1)[0]);
}

/// Decoding an encoded byte string standing at `pos` yields it back.
pub proof fn lemma_dec_bytes_at(b: Seq<u8>, pos: int, v: Seq<u8>)
    requires
        0 <= pos,
        v.len() <= u64::MAX,
        pos + 8 + v.len() <= b.len(),
        b.subrange(pos, pos + 8 + v.len()) == enc_bytes(v),
    ensures
        dec_bytes(b, pos) == Option::Some((v, pos + 8 + v.len())),
{
    let whole = b.subrange(pos, pos + 8 + v.len());
    assert(b.subrange(pos, pos + 8) =~= enc_u64(v.len() as u64)) by {
        assert forall|j: int| 0 <= j < 8 implies #[trigger] b.subrange(pos, pos + 8)[j] == enc_u64(
            v.len() as u64,
        )[j] by {
            assert(b.subrange(pos, pos + 8)[j] == whole[j]);
        }
    }
    lemma_dec_u64_at(b, pos, v.len() as u64);
    assert(b.subrange(pos + 8, pos + 8 + v.len()) =~= v) by {
        assert forall|j: int| 0 <= j < v.len() implies #[trigger] b.subrange(pos + 8, pos + 8 + v.len())[j]
            == v[j] by {
            assert(b.subrange(pos + 8, pos + 8 + v.len())[j] == whole[j + 8]);
            assert(whole[j + 8] == v[j]);
        }
    }
}

/// Decoding an encoded optional byte string standing at `pos` yields it back.
pub proof fn lemma_dec_opt_bytes_at(b: Seq<u8>, pos: int, o: Option<Seq<u8>>)
    requires
        0 <= pos,
        (o matches Option::Some(v) ==> v.len() <= u64::MAX),
        pos + enc_opt_bytes(o).len() <= b.len(),
        b.subrange(pos, pos + enc_opt_bytes(o).len()) == enc_opt_bytes(o),
    ensures
        dec_opt_bytes(b, pos) == Option::Some((o, pos + enc_opt_bytes(o).len())),
{
    let e = enc_opt_bytes(o);
    match o {
        Option::None => {
            assert(b.subrange(pos, pos + 1) =~= seq![0u8]);
            lemma_dec_u8_at(b, pos, 0u8);
        },
        Option::Some(v) => {
            assert(b.subrange(pos, pos + 1) =~= seq![1u8]) by {
                assert(b.subrange(pos, pos + e.len())[0] == e[0]);
                assert(b.subrange(pos, pos + 1)[0] == b.subrange(pos, pos + e.len())[0]);
            }
            lemma_dec_u8_at(b, pos, 1u8);
            assert(b.subrange(pos + 1, pos + 1 + 8 + v.len()) =~= enc_bytes(v)) by {
                assert forall|j: int| 0 <= j < 8 + v.len() implies #[trigger] b.subrange(
                    pos + 1,
                    pos + 1 + 8 + v.len(),
                )[j] == enc_bytes(v)[j] by {
                    assert(b.subrange(pos + 1, pos + 1 + 8 + v.len())[j] == b.subrange(
                        pos,
                        pos + e.len(),
                    )[j + 1]);
                    assert(e[j + 1] == enc_bytes(v)[j]);
                }
            }
            lemma_dec_bytes_at(b, pos + 1, v);
        },
    }
}

/// Decoding the encoded items of a list standing at `pos` yields them back.
pub proof fn lemma_dec_bytes_list_items_at(b: Seq<u8>, pos: int, items: Seq<Seq<u8>>)
    requires
        0 <= pos,
        forall|i: int| 0 <= i < items.len() ==> #[trigger] items[i].len() <= u64::MAX,
        pos + enc_bytes_list_items(items).len() <= b.len(),
        b.subrange(pos, pos + enc_bytes_list_items(items).len()) == enc_bytes_list_items(items),
    ensures
        dec_bytes_list_items(b, pos, items.len() as int) == Option::Some(
            (items, pos + enc_bytes_list_items(items).len()),
        ),
    decreases items.len(),
{
    let e = enc_bytes_list_items(items);
    if items.len() == 0 {
        assert(items =~= Seq::<Seq<u8>>::empty());
    } else {
        let head = items[0];
        let e0 = enc_bytes(head);
        let rest = enc_bytes_list_items(items.skip(1));
        assert(e == e0 + rest);
        assert(b.subrange(pos, pos + 8 + head.len()) =~= enc_bytes(head)) by {
            assert forall|j: int| 0 <= j < 8 + head.len() implies #[trigger] b.subrange(
                pos,
                pos + 8 + head.len(),
            )[j] == enc_bytes(head)[j] by {
                assert(b.subrange(pos, pos + 8 + head.len())[j] == b.subrange(pos, pos + e.len())[j]);
                assert(e[j] == e0[j]);
            }
        }
        lemma_dec_bytes_at(b, pos, head);
        let p = pos + 8 + head.len();
        assert(b.subrange(p, p + rest.len()) =~= rest) by {
            assert forall|j: int| 0 <= j < rest.len() implies #[trigger] b.subrange(p, p + rest.len())[j]
                == rest[j] by {
                assert(b.subrange(p, p + rest.len())[j] == b.subrange(pos, pos + e.len())[j + e0.len()]);
                assert(e[j + e0.len()] == rest[j]);
            }
        }
        lemma_dec_bytes_list_items_at(b, p, items.skip(1));
        assert(seq![head] + items.skip(1) =~= items);
    }
}

/// Decoding an encoded list standing at `pos` yields it back.
pub proof fn lemma_dec_bytes_list_at(b: Seq<u8>, pos: int, items: Seq<Seq<u8>>)
    requires
        0 <= pos,
        items.len() <= u64::MAX,
        forall|i: int| 0 <= i < items.len() ==> #[trigger] items[i].len() <= u64::MAX,
        pos + enc_bytes_list(items).len() <= b.len(),
        b.subrange(pos, pos + enc_bytes_list(items).len()) == enc_bytes_list(items),
    ensures
        dec_bytes_list(b, pos) == Option::Some((items, pos + enc_bytes_list(items).len())),
{
    let e = enc_bytes_list(items);
    let e0 = enc_u64(items.len() as u64);
    let rest = enc_bytes_list_items(items);
    assert(b.subrange(pos, pos + 8) =~= e0) by {
        assert forall|j: int| 0 <= j < 8 implies #[trigger] b.subrange(pos, pos + 8)[j] == e0[j] by {
            assert(b.subrange(pos, pos + 8)[j] == b.subrange(pos, pos + e.len())[j]);
            assert(e[j] == e0[j]);
        }
    }
    lemma_dec_u64_at(b, pos, items.len() as u64);
    let p = pos + 8;
    assert(b.subrange(p, p + rest.len()) =~= rest) by {
        assert forall|j: int| 0 <= j < rest.len() implies #[trigger] b.subrange(p, p + rest.len())[j]
            == rest[j] by {
            assert(b.subrange(p, p + rest.len())[j] == b.subrange(pos, pos + e.len())[j + 8]);
            assert(e[j + 8] == rest[j]);
        }
    }
    lemma_dec_bytes_list_items_at(b, p, items);
}

/// Appends the encoding of a 64-bit integer.
pub fn put_u64(out: &mut Vec<u8>, x: u64)
    ensures
        final(out)@ == old(out)@ + enc_u64(x),
{
    let mut b = u64_to_le_bytes(x);
    proof {
        spec_u64_to_le_bytes_to_open(x);
    }
    out.append(&mut b);
}

/// Appends a single byte.
pub fn put_u8(out: &mut Vec<u8>, x: u8)
    ensures
        final(out)@ == old(out)@ + seq![x],
{
    out.push(x);
    proof {
        assert(out@ =~= old(out)@ + seq![x]);
    }
}

/// Appends the encoding of a byte string.
pub fn put_bytes(out: &mut Vec<u8>, b: &Vec<u8>)
    ensures
        final(out)@ == old(out)@ + enc_bytes(b@),
{
    put_u64(out, b.len() as u64);
    let ghost mid = out@;
    let mut copy = clone_bytes(b);
    out.append(&mut copy);
    proof {
        assert(out@ =~= old(out)@ + enc_bytes(b@));
    }
}

/// Appends the encoding of an optional byte string.
pub fn put_opt_bytes(out: &mut Vec<u8>, o: &Option<Vec<u8>>)
    ensures
        final(out)@ == old(out)@ + enc_opt_bytes(deep_opt(o)),
{
    match o {
        Option::None => {
            put_u8(out, 0);
        },
        Option::Some(b) => {
            put_u8(out, 1);
            put_bytes(out, b);
            proof {
                assert(out@ =~= old(out)@ + enc_opt_bytes(deep_opt(o)));
            }
        },
    }
}

/// View of an optional byte vector as an optional byte string.
pub open spec fn deep_opt(o: &Option<Vec<u8>>) -> Option<Seq<u8>> {
    match o {
        Option::None => Option::None,
        Option::Some(b) => Option::Some(b@),
    }
}

/// Copies a byte vector.
pub fn clone_bytes(b: &Vec<u8>) -> (r: Vec<u8>)
    ensures
        r@ == b@,
{
    let mut r: Vec<u8> = Vec::new();
    let mut i: usize = 0;
    while i < b.len()
        invariant
            0 <= i <= b@.len(),
            r@ == b@.subrange(0, i as int),
        decreases b@.len() - i,
    {
        r.push(b[i]);
        i += 1;
        proof {
            assert(r@ =~= b@.subrange(0, i as int));
        }
    }
    proof {
        assert(r@ =~= b@);
    }
    r
}

/// Reads a 64-bit integer, following `dec_u64`.
pub fn get_u64(buf: &Vec<u8>, pos: &mut usize) -> (r: Result<u64, StoreError>)
    ensures
        ({
            let d = dec_u64(buf@, *old(pos) as int);
            match d {
                Option::Some((x, p)) => r == Ok::<u64, StoreError>(x) && *final(pos) == p,
                Option::None => r == Err::<u64, StoreError>(StoreError::CorruptRecord) && *final(pos)
                    == *old(pos),
            }
        }),
{
    if *pos <= buf.len() && buf.len() - *pos >= 8 {
        let s = slice_subrange(buf.as_slice(), *pos, *pos + 8);
        let x = u64_from_le_bytes(s);
        *pos = *pos + 8;
        Ok(x)
    } else {
        Err(StoreError::CorruptRecord)
    }
}

/// Reads a single byte, following `dec_u8`.
pub fn get_u8(buf: &Vec<u8>, pos: &mut usize) -> (r: Result<u8, StoreError>)
    ensures
        ({
            let d = dec_u8(buf@, *old(pos) as int);
            match d {
                Option::Some((x, p)) => r == Ok::<u8, StoreError>(x) && *final(pos) == p,
                Option::None => r == Err::<u8, StoreError>(StoreError::CorruptRecord) && *final(pos)
                    == *old(pos),
            }
        }),
{
    if *pos < buf.len() {
        let x = buf[*pos];
        *pos = *pos + 1;
        Ok(x)
    } else {
        Err(StoreError::CorruptRecord)
    }
}

/// Reads a byte string, following `dec_bytes`.
pub fn get_bytes(buf: &Vec<u8>, pos: &mut usize) -> (r: Result<Vec<u8>, StoreError>)
    ensures
        ({
            let d = dec_bytes(buf@, *old(pos) as int);
            match d {
                Option::Some((v, p)) => (r matches Ok(rv) && rv@ == v) && *final(pos) == p,
                Option::None => r == Err::<Vec<u8>, StoreError>(StoreError::CorruptRecord),
            }
        }),
{
    let ghost start = *pos as int;
    let n = match get_u64(buf, pos) {
        Ok(n) => n,
        Err(e) => {
            return Err(e);
        },
    };
    let remaining = buf.len() - *pos;
    if n <= (remaining as u64) {
        let nn = n as usize;
        let s = slice_subrange(buf.as_slice(), *pos, *pos + nn);
        let v = slice_to_vec(s);
        *pos = *pos + nn;
        Ok(v)
    } else {
        Err(StoreError::CorruptRecord)
    }
}

/// Reads an optional byte string, following `dec_opt_bytes`.
pub fn get_opt_bytes(buf: &Vec<u8>, pos: &mut usize) -> (r: Result<Option<Vec<u8>>, StoreError>)
    ensures
        ({
            let d = dec_opt_bytes(buf@, *old(pos) as int);
            match d {
                Option::Some((o, p)) => (r matches Ok(ro) && deep_opt(&ro) == o) && *final(pos) == p,
                Option::None => r == Err::<Option<Vec<u8>>, StoreError>(StoreError::CorruptRecord),
            }
        }),
{
    let f = match get_u8(buf, pos) {
        Ok(f) => f,
        Err(e) => {
            return Err(e);
        },
    };
    if f == 0 {
        Ok(None)
    } else if f == 1 {
        match get_bytes(buf, pos) {
            Ok(v) => Ok(Some(v)),
            Err(e) => Err(e),
        }
    } else {
        Err(StoreError::CorruptRecord)
    }
}

} // verus!
