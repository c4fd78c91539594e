//! The deterministic binary record format: length-prefixed byte strings,
//! fixed-width little-endian integers, count-prefixed sequences, and tagged
//! node variants. Encoding is deterministic; decoding is strict (no
//! trailing bytes) and inverts encoding exactly.

use vstd::prelude::*;
use vstd::bytes::{
    spec_u64_from_le_bytes, spec_u64_to_le_bytes, u64_from_le_bytes, u64_to_le_bytes,
    lemma_auto_spec_u64_to_from_le_bytes,
};
use crate::bytes::subvec;
use crate::tripwirs::{entries_view, keys_unique, seq_to_map, Db, NodeType};

verus! {

/// A byte string short enough for its length prefix.
pub open spec fn bstr_fits(b: Seq<u8>) -> bool {
    b.len() <= u64::MAX
}

/// A sequence of byte strings short enough for its count and length
/// prefixes.
pub open spec fn bstrs_fit(l: Seq<Seq<u8>>) -> bool {
    l.len() <= u64::MAX && forall|i: int| 0 <= i < l.len() ==> bstr_fits(#[trigger] l[i])
}

/// A sequence of path/node pairs short enough for its prefixes.
pub open spec fn entries_fit(l: Seq<(Seq<u8>, NodeType)>) -> bool {
    l.len() <= u64::MAX && forall|i: int| 0 <= i < l.len() ==> bstr_fits((#[trigger] l[i]).0)
}

// ---------------------------------------------------------------------------
// Encoding
// ---------------------------------------------------------------------------

/// A 64-bit integer as 8 little-endian bytes.
pub open spec fn enc_u64(x: u64) -> Seq<u8> {
    spec_u64_to_le_bytes(x)
}

/// A byte string as its length followed by its bytes.
pub open spec fn enc_bstr(b: Seq<u8>) -> Seq<u8> {
    enc_u64(b.len() as u64) + b
}

/// The concatenation of the encodings of a sequence of byte strings.
pub open spec fn enc_bstr_items(l: Seq<Seq<u8>>) -> Seq<u8>
    decreases l.len(),
{
    if l.len() == 0 {
        Seq::empty()
    } else {
        enc_bstr(l.first()) + enc_bstr_items(l.drop_first())
    }
}

/// A sequence of byte strings as its count followed by its items.
pub open spec fn enc_bstrs(l: Seq<Seq<u8>>) -> Seq<u8> {
    enc_u64(l.len() as u64) + enc_bstr_items(l)
}

/// A node kind as a one-byte discriminant, with the hash payload for files.
pub open spec fn enc_node(n: NodeType) -> Seq<u8> {
    match n {
        NodeType::F(h) => seq![0u8] + enc_u64(h),
        NodeType::D => seq![1u8],
        NodeType::L => seq![2u8],
    }
}

/// One database entry: the path, then the node.
pub open spec fn enc_entry(e: (Seq<u8>, NodeType)) -> Seq<u8> {
    enc_bstr(e.0) + enc_node(e.1)
}

/// The concatenation of the encodings of a sequence of entries.
pub open spec fn enc_entry_items(l: Seq<(Seq<u8>, NodeType)>) -> Seq<u8>
    decreases l.len(),
{
    if l.len() == 0 {
        Seq::empty()
    } else {
        enc_entry(l.first()) + enc_entry_items(l.drop_first())
    }
}

/// A database as its entry count followed by its entries in order.
pub open spec fn enc_db(l: Seq<(Seq<u8>, NodeType)>) -> Seq<u8> {
    enc_u64(l.len() as u64) + enc_entry_items(l)
}

/// A policy record: the hashing secret, the scan roots, the ignore set.
pub open spec fn enc_config(secret: Seq<u8>, scans: Seq<Seq<u8>>, ignores: Seq<Seq<u8>>) -> Seq<
    u8,
> {
    enc_bstr(secret) + enc_bstrs(scans) + enc_bstrs(ignores)
}

// ---------------------------------------------------------------------------
// Decoding (each step returns the value and the remaining bytes)
// ---------------------------------------------------------------------------

/// Reads 8 little-endian bytes as an integer.
pub open spec fn dec_u64(s: Seq<u8>) -> Option<(u64, Seq<u8>)> {
    if s.len() >= 8 {
        Some((spec_u64_from_le_bytes(s.take(8)), s.skip(8)))
    } else {
        None
    }
}

/// Reads a length-prefixed byte string.
pub open spec fn dec_bstr(s: Seq<u8>) -> Option<(Seq<u8>, Seq<u8>)> {
    match dec_u64(s) {
        Some((n, r)) => if n <= r.len() {
            Some((r.take(n as int), r.skip(n as int)))
        } else {
            None
        },
        None => None,
    }
}

/// Reads `count` byte strings.
pub open spec fn dec_bstr_items(s: Seq<u8>, count: nat) -> Option<(Seq<Seq<u8>>, Seq<u8>)>
    decreases count,
{
    if count == 0 {
        Some((Seq::empty(), s))
    } else {
        match dec_bstr(s) {
            Some((b, r)) => match dec_bstr_items(r, (count - 1) as nat) {
                Some((items, r2)) => Some((seq![b] + items, r2)),
                None => None,
            },
            None => None,
        }
    }
}

/// Reads a count-prefixed sequence of byte strings.
pub open spec fn dec_bstrs(s: Seq<u8>) -> Option<(Seq<Seq<u8>>, Seq<u8>)> {
    match dec_u64(s) {
        Some((n, r)) => dec_bstr_items(r, n as nat),
        None => None,
    }
}

/// Reads a tagged node kind.
pub open spec fn dec_node(s: Seq<u8>) -> Option<(NodeType, Seq<u8>)> {
    if s.len() < 1 {
        None
    } else if s[0] == 0u8 {
        match dec_u64(s.skip(1)) {
            Some((h, r)) => Some((NodeType::F(h), r)),
            None => None,
        }
    } else if s[0] == 1u8 {
        Some((NodeType::D, s.skip(1)))
    } else if s[0] == 2u8 {
        Some((NodeType::L, s.skip(1)))
    } else {
        None
    }
}

/// Reads one database entry.
pub open spec fn dec_entry(s: Seq<u8>) -> Option<((Seq<u8>, NodeType), Seq<u8>)> {
    match dec_bstr(s) {
        Some((p, r)) => match dec_node(r) {
            Some((n, r2)) => Some(((p, n), r2)),
            None => None,
        },
        None => None,
    }
}

/// Reads `count` database entries.
pub open spec fn dec_entry_items(s: Seq<u8>, count: nat) -> Option<
    (Seq<(Seq<u8>, NodeType)>, Seq<u8>),
>
    decreases count,
{
    if count == 0 {
        Some((Seq::empty(), s))
    } else {
        match dec_entry(s) {
            Some((e, r)) => match dec_entry_items(r, (count - 1) as nat) {
                Some((items, r2)) => Some((seq![e] + items, r2)),
                None => None,
            },
            None => None,
        }
    }
}

/// Decodes a whole database record; trailing bytes are refused.
pub open spec fn dec_db(s: Seq<u8>) -> Option<Seq<(Seq<u8>, NodeType)>> {
    match dec_u64(s) {
        Some((n, r)) => match dec_entry_items(r, n as nat) {
            Some((items, r2)) => if r2.len() == 0 {
                Some(items)
            } else {
                None
            },
            None => None,
        },
        None => None,
    }
}

/// Decodes a whole policy record; the secret must have its fixed length
/// and trailing bytes are refused.
pub open spec fn dec_config(s: Seq<u8>) -> Option<(Seq<u8>, Seq<Seq<u8>>, Seq<Seq<u8>>)> {
    match dec_bstr(s) {
        Some((secret, r)) => if secret.len() == 192 {
            match dec_bstrs(r) {
                Some((scans, r2)) => match dec_bstrs(r2) {
                    Some((ignores, r3)) => if r3.len() == 0 {
                        Some((secret, scans, ignores))
                    } else {
                        None
                    },
                    None => None,
                },
                None => None,
            }
        } else {
            None
        },
        None => None,
    }
}

// ---------------------------------------------------------------------------
// Round-trip lemmas: decoding an encoding, followed by anything, yields the
// encoded value and the rest.
// ---------------------------------------------------------------------------

pub proof fn lemma_dec_enc_u64(x: u64, rest: Seq<u8>)
    ensures
        enc_u64(x).len() == 8,
        dec_u64(enc_u64(x) + rest) == Some((x, rest)),
{
    lemma_auto_spec_u64_to_from_le_bytes();
    let s = enc_u64(x) + rest;
    assert(s.take(8) =~= enc_u64(x));
    assert(s.skip(8) =~= rest);
}

pub proof fn lemma_dec_enc_bstr(b: Seq<u8>, rest: Seq<u8>)
    requires
        bstr_fits(b),
    ensures
        dec_bstr(enc_bstr(b) + rest) == Some((b, rest)),
{
    let n = b.len() as u64;
    assert(enc_bstr(b) + rest =~= enc_u64(n) + (b + rest));
    lemma_dec_enc_u64(n, b + rest);
    assert((b + rest).take(n as int) =~= b);
    assert((b + rest).skip(n as int) =~= rest);
}

pub proof fn lemma_dec_enc_bstr_items(l: Seq<Seq<u8>>, rest: Seq<u8>)
    requires
        bstrs_fit(l),
    ensures
        dec_bstr_items(enc_bstr_items(l) + rest, l.len()) == Some((l, rest)),
    decreases l.len(),
{
    if l.len() == 0 {
        assert(enc_bstr_items(l) + rest =~= rest);
        assert(dec_bstr_items(rest, 0) == Some((Seq::<Seq<u8>>::empty(), rest)));
        assert(l =~= Seq::<Seq<u8>>::empty());
    } else {
        let first = l.first();
        let tail = l.drop_first();
        assert(bstrs_fit(tail)) by {
            assert forall|i: int| 0 <= i < tail.len() implies bstr_fits(#[trigger] tail[i]) by {
                assert(tail[i] == l[i + 1]);
            }
        }
        assert(enc_bstr_items(l) + rest =~= enc_bstr(first) + (enc_bstr_items(tail) + rest));
        assert(bstr_fits(first)) by {
            assert(l[0] == first);
        }
        lemma_dec_enc_bstr(first, enc_bstr_items(tail) + rest);
        lemma_dec_enc_bstr_items(tail, rest);
        assert(seq![first] + tail =~= l);
    }
}

pub proof fn lemma_dec_enc_bstrs(l: Seq<Seq<u8>>, rest: Seq<u8>)
    requires
        bstrs_fit(l),
    ensures
        dec_bstrs(enc_bstrs(l) + rest) == Some((l, rest)),
{
    let n = l.len() as u64;
    assert(enc_bstrs(l) + rest =~= enc_u64(n) + (enc_bstr_items(l) + rest));
    lemma_dec_enc_u64(n, enc_bstr_items(l) + rest);
    lemma_dec_enc_bstr_items(l, rest);
}

pub proof fn lemma_dec_enc_node(n: NodeType, rest: Seq<u8>)
    ensures
        dec_node(enc_node(n) + rest) == Some((n, rest)),
{
    let s = enc_node(n) + rest;
    match n {
        NodeType::F(h) => {
            assert(s[0] == 0u8);
            assert(s.skip(1) =~= enc_u64(h) + rest);
            lemma_dec_enc_u64(h, rest);
        },
        NodeType::D => {
            assert(s[0] == 1u8);
            assert(s.skip(1) =~= rest);
        },
        NodeType::L => {
            assert(s[0] == 2u8);
            assert(s.skip(1) =~= rest);
        },
    }
}

pub proof fn lemma_dec_enc_entry(e: (Seq<u8>, NodeType), rest: Seq<u8>)
    requires
        bstr_fits(e.0),
    ensures
        dec_entry(enc_entry(e) + rest) == Some((e, rest)),
{
    assert(enc_entry(e) + rest =~= enc_bstr(e.0) + (enc_node(e.1) + rest));
    lemma_dec_enc_bstr(e.0, enc_node(e.1) + rest);
    lemma_dec_enc_node(e.1, rest);
}

pub proof fn lemma_dec_enc_entry_items(l: Seq<(Seq<u8>, NodeType)>, rest: Seq<u8>)
    requires
        entries_fit(l),
    ensures
        dec_entry_items(enc_entry_items(l) + rest, l.len()) == Some((l, rest)),
    decreases l.len(),
{
    if l.len() == 0 {
        assert(enc_entry_items(l) + rest =~= rest);
        assert(l =~= Seq::<(Seq<u8>, NodeType)>::empty());
    } else {
        let first = l.first();
        let tail = l.drop_first();
        assert(entries_fit(tail)) by {
            assert forall|i: int| 0 <= i < tail.len() implies bstr_fits(
                (#[trigger] tail[i]).0,
            ) by {
                assert(tail[i] == l[i + 1]);
            }
        }
        assert(enc_entry_items(l) + rest =~= enc_entry(first) + (enc_entry_items(tail) + rest));
        assert(bstr_fits(first.0)) by {
            assert(l[0] == first);
        }
        lemma_dec_enc_entry(first, enc_entry_items(tail) + rest);
        lemma_dec_enc_entry_items(tail, rest);
        assert(seq![first] + tail =~= l);
    }
}

/// Decoding inverts encoding for every database record.
pub proof fn lemma_db_roundtrip(l: Seq<(Seq<u8>, NodeType)>)
    requires
        entries_fit(l),
    ensures
        dec_db(enc_db(l)) == Some(l),
{
    let n = l.len() as u64;
    assert(enc_db(l) =~= enc_u64(n) + (enc_entry_items(l) + Seq::<u8>::empty()));
    lemma_dec_enc_u64(n, enc_entry_items(l) + Seq::<u8>::empty());
    lemma_dec_enc_entry_items(l, Seq::<u8>::empty());
}

/// Decoding inverts encoding for every policy record with a well-formed
/// secret.
pub proof fn lemma_config_roundtrip(secret: Seq<u8>, scans: Seq<Seq<u8>>, ignores: Seq<Seq<u8>>)
    requires
        secret.len() == 192,
        bstrs_fit(scans),
        bstrs_fit(ignores),
    ensures
        dec_config(enc_config(secret, scans, ignores)) == Some((secret, scans, ignores)),
{
    let tail1 = enc_bstrs(scans) + (enc_bstrs(ignores) + Seq::<u8>::empty());
    assert(enc_config(secret, scans, ignores) =~= enc_bstr(secret) + tail1);
    lemma_dec_enc_bstr(secret, tail1);
    assert(tail1 =~= enc_bstrs(scans) + (enc_bstrs(ignores) + Seq::<u8>::empty()));
    lemma_dec_enc_bstrs(scans, enc_bstrs(ignores) + Seq::<u8>::empty());
    lemma_dec_enc_bstrs(ignores, Seq::<u8>::empty());
}

// ---------------------------------------------------------------------------
// Executable encoders
// ---------------------------------------------------------------------------

/// Appends the encoding of an integer.
pub fn encode_u64_into(out: &mut Vec<u8>, x: u64)
    ensures
        final(out)@ == old(out)@ + enc_u64(x),
{
    let mut b = u64_to_le_bytes(x);
    out.append(&mut b);
}

/// Appends the encoding of a byte string.
pub fn encode_bstr_into(out: &mut Vec<u8>, b: &Vec<u8>)
    ensures
        final(out)@ == old(out)@ + enc_bstr(b@),
{
    let ghost out0 = out@;
    encode_u64_into(out, b.len() as u64);
    let mut c = subvec(b, 0, b.len());
    out.append(&mut c);
    proof {
        assert(out@ =~= out0 + enc_bstr(b@));
    }
}

/// Adding one more byte string extends its items encoding on the right.
pub proof fn lemma_enc_bstr_items_push(l: Seq<Seq<u8>>, b: Seq<u8>)
    ensures
        enc_bstr_items(l.push(b)) == enc_bstr_items(l) + enc_bstr(b),
    decreases l.len(),
{
    if l.len() == 0 {
        assert(l.push(b).first() == b);
        assert(l.push(b).drop_first() =~= Seq::<Seq<u8>>::empty());
        assert(enc_bstr_items(Seq::<Seq<u8>>::empty()) =~= Seq::<u8>::empty());
        assert(enc_bstr_items(l.push(b)) == enc_bstr(l.push(b).first()) + enc_bstr_items(
            l.push(b).drop_first(),
        ));
        assert(enc_bstr_items(l.push(b)) =~= enc_bstr(b));
        assert(enc_bstr_items(l) + enc_bstr(b) =~= enc_bstr(b));
    } else {
        assert(l.push(b).first() == l.first());
        assert(l.push(b).drop_first() =~= l.drop_first().push(b));
        lemma_enc_bstr_items_push(l.drop_first(), b);
        assert(enc_bstr_items(l.push(b)) =~= enc_bstr_items(l) + enc_bstr(b));
    }
}

/// Adding one more entry extends its items encoding on the right.
pub proof fn lemma_enc_entry_items_push(l: Seq<(Seq<u8>, NodeType)>, e: (Seq<u8>, NodeType))
    ensures
        enc_entry_items(l.push(e)) == enc_entry_items(l) + enc_entry(e),
    decreases l.len(),
{
    if l.len() == 0 {
        assert(l.push(e).first() == e);
        assert(l.push(e).drop_first() =~= Seq::<(Seq<u8>, NodeType)>::empty());
        assert(enc_entry_items(Seq::<(Seq<u8>, NodeType)>::empty()) =~= Seq::<u8>::empty());
        assert(enc_entry_items(l.push(e)) == enc_entry(l.push(e).first()) + enc_entry_items(
            l.push(e).drop_first(),
        ));
        assert(enc_entry_items(l.push(e)) =~= enc_entry(e));
        assert(enc_entry_items(l) + enc_entry(e) =~= enc_entry(e));
    } else {
        assert(l.push(e).first() == l.first());
        assert(l.push(e).drop_first() =~= l.drop_first().push(e));
        lemma_enc_entry_items_push(l.drop_first(), e);
        assert(enc_entry_items(l.push(e)) =~= enc_entry_items(l) + enc_entry(e));
    }
}

/// Appends the encoding of a sequence of byte strings.
pub fn encode_bstrs_into(out: &mut Vec<u8>, l: &Vec<Vec<u8>>)
    ensures
        final(out)@ == old(out)@ + enc_bstrs(l.deep_view()),
{
    let ghost out0 = out@;
    encode_u64_into(out, l.len() as u64);
    let mut i: usize = 0;
    while i < l.len()
        invariant
            0 <= i <= l@.len(),
            out@ == out0 + enc_u64(l@.len() as u64) + enc_bstr_items(l.deep_view().take(i as int)),
        decreases l@.len() - i,
    {
        proof {
            assert(l@[i as int].deep_view() =~= l@[i as int]@);
            assert(l.deep_view().take(i as int).push(l@[i as int]@) =~~= l.deep_view().take(
                i + 1,
            ));
            lemma_enc_bstr_items_push(l.deep_view().take(i as int), l@[i as int]@);
        }
        encode_bstr_into(out, &l[i]);
        i += 1;
    }
    proof {
        assert(l.deep_view().take(l@.len() as int) =~= l.deep_view());
        assert(out@ =~= out0 + enc_bstrs(l.deep_view()));
    }
}

/// Appends the encoding of a node kind.
pub fn encode_node_into(out: &mut Vec<u8>, n: &NodeType)
    ensures
        final(out)@ == old(out)@ + enc_node(*n),
{
    let ghost out0 = out@;
    match n {
        NodeType::F(h) => {
            out.push(0u8);
            encode_u64_into(out, *h);
            proof {
                assert(out@ =~= out0 + enc_node(NodeType::F(*h)));
            }
        },
        NodeType::D => {
            out.push(1u8);
            proof {
                assert(out@ =~= out0 + enc_node(NodeType::D));
            }
        },
        NodeType::L => {
            out.push(2u8);
            proof {
                assert(out@ =~= out0 + enc_node(NodeType::L));
            }
        },
    }
}

// ---------------------------------------------------------------------------
// Executable decoders (a cursor index stands for the remaining bytes)
// ---------------------------------------------------------------------------

/// Reads an integer at a cursor.
pub fn read_u64(data: &Vec<u8>, i: usize) -> (r: Option<(u64, usize)>)
    requires
        i <= data@.len(),
    ensures
        r matches Some(v) ==> ({
            &&& v.1 == i + 8
            &&& v.1 <= data@.len()
            &&& dec_u64(data@.skip(i as int)) == Some((v.0, data@.skip(v.1 as int)))
        }),
        r is None ==> dec_u64(data@.skip(i as int)) is None,
{
    if data.len() - i < 8 {
        return None;
    }
    let sub = subvec(data, i, i + 8);
    let x = u64_from_le_bytes(sub.as_slice());
    proof {
        assert(data@.skip(i as int).take(8) =~= data@.subrange(i as int, i + 8));
        assert(data@.skip(i as int).skip(8) =~= data@.skip(i + 8));
    }
    Some((x, i + 8))
}

/// Reads a length-prefixed byte string at a cursor.
pub fn read_bstr(data: &Vec<u8>, i: usize) -> (r: Option<(Vec<u8>, usize)>)
    requires
        i <= data@.len(),
    ensures
        r matches Some(v) ==> ({
            &&& i <= v.1 <= data@.len()
            &&& dec_bstr(data@.skip(i as int)) == Some((v.0@, data@.skip(v.1 as int)))
        }),
        r is None ==> dec_bstr(data@.skip(i as int)) is None,
{
    let (n, j) = match read_u64(data, i) {
        Some(v) => v,
        None => return None,
    };
    if n > (data.len() - j) as u64 {
        return None;
    }
    let m = n as usize;
    let b = subvec(data, j, j + m);
    proof {
        let rem = data@.skip(j as int);
        assert(rem.take(n as int) =~= data@.subrange(j as int, j + n));
        assert(rem.skip(n as int) =~= data@.skip(j + n));
    }
    Some((b, j + m))
}

/// Reads a tagged node kind at a cursor.
pub fn read_node(data: &Vec<u8>, i: usize) -> (r: Option<(NodeType, usize)>)
    requires
        i <= data@.len(),
    ensures
        r matches Some(v) ==> ({
            &&& i <= v.1 <= data@.len()
            &&& dec_node(data@.skip(i as int)) == Some((v.0, data@.skip(v.1 as int)))
        }),
        r is None ==> dec_node(data@.skip(i as int)) is None,
{
    if data.len() == i {
        return None;
    }
    let tag = data[i];
    proof {
        assert(data@.skip(i as int)[0] == data@[i as int]);
        assert(data@.skip(i as int).skip(1) =~= data@.skip(i + 1));
    }
    if tag == 0 {
        match read_u64(data, i + 1) {
            Some((h, j)) => Some((NodeType::F(h), j)),
            None => None,
        }
    } else if tag == 1 {
        Some((NodeType::D, i + 1))
    } else if tag == 2 {
        Some((NodeType::L, i + 1))
    } else {
        None
    }
}

/// Reads a count-prefixed sequence of byte strings at a cursor.
pub fn read_bstrs(data: &Vec<u8>, i: usize) -> (r: Option<(Vec<Vec<u8>>, usize)>)
    requires
        i <= data@.len(),
    ensures
        r matches Some(v) ==> ({
            &&& i <= v.1 <= data@.len()
            &&& dec_bstrs(data@.skip(i as int)) == Some((v.0.deep_view(), data@.skip(v.1 as int)))
        }),
        r is None ==> dec_bstrs(data@.skip(i as int)) is None,
{
    let (count, j0) = match read_u64(data, i) {
        Some(v) => v,
        None => return None,
    };
    let mut acc: Vec<Vec<u8>> = Vec::new();
    let mut j: usize = j0;
    let mut k: u64 = 0;
    while k < count
        invariant
            i <= j0 <= j <= data@.len(),
            0 <= k <= count,
            acc.deep_view().len() == k,
            dec_u64(data@.skip(i as int)) == Some((count, data@.skip(j0 as int))),
            dec_bstr_items(data@.skip(j0 as int), count as nat) == (match dec_bstr_items(
                data@.skip(j as int),
                (count - k) as nat,
            ) {
                Some((items, rem)) => Some((acc.deep_view() + items, rem)),
                None => None::<(Seq<Seq<u8>>, Seq<u8>)>,
            }),
        decreases count - k,
    {
        let (b, j2) = match read_bstr(data, j) {
            Some(v) => v,
            None => {
                return None;
            },
        };
        let ghost old_dv = acc.deep_view();
        let ghost old_j = j;
        acc.push(b);
        proof {
            let c = (count - k) as nat;
            assert(dec_bstr(data@.skip(old_j as int)) == Some((b@, data@.skip(j2 as int))));
            assert(acc.deep_view() =~~= old_dv.push(b@));
            match dec_bstr_items(data@.skip(j2 as int), (c - 1) as nat) {
                Some(inner) => {
                    assert(old_dv + (seq![b@] + inner.0) =~= acc.deep_view() + inner.0);
                },
                None => {},
            }
        }
        j = j2;
        k = k + 1;
    }
    proof {
        assert(dec_bstr_items(data@.skip(j as int), 0) == Some(
            (Seq::<Seq<u8>>::empty(), data@.skip(j as int)),
        ));
        assert(acc.deep_view() + Seq::<Seq<u8>>::empty() =~= acc.deep_view());
    }
    Some((acc, j))
}

/// Encodes a database record: the entry count, then each path and node in
/// recorded order.
pub fn encode_db(db: &Db) -> (r: Vec<u8>)
    ensures
        r@ == enc_db(entries_view(db.entries@)),
{
    let mut out: Vec<u8> = Vec::new();
    let ghost ev = entries_view(db.entries@);
    encode_u64_into(&mut out, db.entries.len() as u64);
    let mut i: usize = 0;
    while i < db.entries.len()
        invariant
            0 <= i <= db.entries@.len(),
            ev == entries_view(db.entries@),
            out@ == enc_u64(db.entries@.len() as u64) + enc_entry_items(ev.take(i as int)),
        decreases db.entries@.len() - i,
    {
        proof {
            assert(ev.take(i as int).push(ev[i as int]) =~= ev.take(i + 1));
            lemma_enc_entry_items_push(ev.take(i as int), ev[i as int]);
            assert(ev[i as int] == (db.entries@[i as int].0@, db.entries@[i as int].1));
        }
        encode_bstr_into(&mut out, &db.entries[i].0);
        encode_node_into(&mut out, &db.entries[i].1);
        i += 1;
    }
    proof {
        assert(ev.take(ev.len() as int) =~= ev);
        assert(out@ =~= enc_db(ev));
    }
    out
}

/// Decodes a database record: entries are replayed in order into a fresh
/// database, later records of a path overwriting earlier ones.
pub fn decode_db(data: &Vec<u8>) -> (r: Option<Db>)
    ensures
        dec_db(data@) matches Some(items) ==> (r matches Some(db) && db.wf() && db@ == seq_to_map(
            items,
        )),
        dec_db(data@) is None ==> r is None,
{
    proof {
        assert(data@.skip(0) =~= data@);
    }
    let (count, j0) = match read_u64(data, 0) {
        Some(v) => v,
        None => return None,
    };
    let mut db = Db::new();
    let ghost mut acc: Seq<(Seq<u8>, NodeType)> = Seq::empty();
    let mut j: usize = j0;
    let mut k: u64 = 0;
    while k < count
        invariant
            j0 <= j <= data@.len(),
            0 <= k <= count,
            acc.len() == k,
            db.wf(),
            db@ == seq_to_map(acc),
            dec_u64(data@) == Some((count, data@.skip(j0 as int))),
            dec_entry_items(data@.skip(j0 as int), count as nat) == (match dec_entry_items(
                data@.skip(j as int),
                (count - k) as nat,
            ) {
                Some((items, rem)) => Some((acc + items, rem)),
                None => None::<(Seq<(Seq<u8>, NodeType)>, Seq<u8>)>,
            }),
        decreases count - k,
    {
        let (p, j1) = match read_bstr(data, j) {
            Some(v) => v,
            None => {
                return None;
            },
        };
        let (n, j2) = match read_node(data, j1) {
            Some(v) => v,
            None => {
                return None;
            },
        };
        proof {
            let c = (count - k) as nat;
            assert(dec_entry(data@.skip(j as int)) == Some(((p@, n), data@.skip(j2 as int))));
            match dec_entry_items(data@.skip(j2 as int), (c - 1) as nat) {
                Some(inner) => {
                    assert(acc + (seq![(p@, n)] + inner.0) =~= acc.push((p@, n)) + inner.0);
                },
                None => {},
            }
            assert(acc.push((p@, n)).drop_last() =~= acc);
        }
        db.insert(p, n);
        proof {
            acc = acc.push((p@, n));
        }
        j = j2;
        k = k + 1;
    }
    if j != data.len() {
        proof {
            assert(dec_entry_items(data@.skip(j as int), 0) == Some(
                (Seq::<(Seq<u8>, NodeType)>::empty(), data@.skip(j as int)),
            ));
            assert(data@.skip(j as int).len() != 0);
        }
        return None;
    }
    proof {
        assert(dec_entry_items(data@.skip(j as int), 0) == Some(
            (Seq::<(Seq<u8>, NodeType)>::empty(), data@.skip(j as int)),
        ));
        assert(acc + Seq::<(Seq<u8>, NodeType)>::empty() =~= acc);
        assert(data@.skip(j as int).len() == 0);
    }
    Some(db)
}

} // verus!
