//! The byte layouts of the artifacts. Integers are little-endian, eight bytes
//! unless said otherwise; a string is its byte length, then its UTF-8 bytes.
use vstd::bytes::{
    lemma_auto_spec_u128_to_from_le_bytes, lemma_auto_spec_u64_to_from_le_bytes,
    spec_u128_from_le_bytes, spec_u128_to_le_bytes, spec_u64_from_le_bytes, spec_u64_to_le_bytes,
    u128_from_le_bytes, u128_to_le_bytes, u64_from_le_bytes, u64_to_le_bytes,
};
use crate::bloom::BLOOM_WORDS;
use vstd::prelude::*;
use vstd::slice::{slice_subrange, slice_to_vec};
use vstd::utf8::{decode_utf8, encode_utf8, valid_utf8};

verus! {

broadcast use {vstd::utf8::encode_utf8_valid_utf8, vstd::utf8::encode_utf8_decode_utf8};

/// Relies on `String::from_utf8`: it succeeds exactly on valid UTF-8 and then
/// holds the characters that the bytes encode.
#[verifier::external_body]
fn string_from_utf8(bytes: Vec<u8>) -> (r: Option<String>)
    ensures
        match r {
            Some(s) => valid_utf8(bytes@) && s@ == decode_utf8(bytes@),
            None => !valid_utf8(bytes@),
        },
{
    String::from_utf8(bytes).ok()
}

/// Byte sequences laid end to end.
pub open spec fn join(parts: Seq<Seq<u8>>) -> Seq<u8>
    decreases parts.len(),
{
    if parts.len() == 0 {
        seq![]
    } else {
        join(parts.drop_last()) + parts.last()
    }
}

/// An unsigned integer in eight little-endian bytes.
pub open spec fn u64_bytes(n: nat) -> Seq<u8> {
    spec_u64_to_le_bytes(n as u64)
}

/// A string: its UTF-8 length, then its UTF-8 bytes.
pub open spec fn str_bytes(s: Seq<char>) -> Seq<u8> {
    u64_bytes(encode_utf8(s).len()) + encode_utf8(s)
}

/// A records artifact (before framing): the count, then each record.
pub open spec fn records_bytes(rs: Seq<Seq<char>>) -> Seq<u8> {
    u64_bytes(rs.len()) + join(rs.map_values(|s: Seq<char>| str_bytes(s)))
}

/// Reads an eight-byte integer off the front of `b`.
pub open spec fn parse_u64(b: Seq<u8>) -> Option<(u64, Seq<u8>)> {
    if b.len() >= 8 {
        Some((spec_u64_from_le_bytes(b.take(8)), b.skip(8)))
    } else {
        None
    }
}

/// Reads a string off the front of `b`: its length must fit in what is
/// left, and its bytes must be valid UTF-8.
pub open spec fn parse_str(b: Seq<u8>) -> Option<(Seq<char>, Seq<u8>)> {
    match parse_u64(b) {
        Some((n, r)) => if n <= r.len() && valid_utf8(r.take(n as int)) {
            Some((decode_utf8(r.take(n as int)), r.skip(n as int)))
        } else {
            None
        },
        None => None,
    }
}

/// Reads `n` items, one after another, off the front of `b`, each with `item`.
pub open spec fn parse_list<T>(b: Seq<u8>, n: nat, item: spec_fn(Seq<u8>) -> Option<(T, Seq<u8>)>) -> Option<
    (Seq<T>, Seq<u8>),
>
    decreases n,
{
    if n == 0 {
        Some((seq![], b))
    } else {
        match parse_list(b, (n - 1) as nat, item) {
            Some((xs, r)) => match item(r) {
                Some((x, r2)) => Some((xs.push(x), r2)),
                None => None,
            },
            None => None,
        }
    }
}

/// Writes a string.
pub open spec fn str_enc() -> spec_fn(Seq<char>) -> Seq<u8> {
    |s: Seq<char>| str_bytes(s)
}

/// Reads a string off the front.
pub open spec fn str_item() -> spec_fn(Seq<u8>) -> Option<(Seq<char>, Seq<u8>)> {
    |b: Seq<u8>| parse_str(b)
}

/// The records that a records artifact (before framing) holds, if it is one,
/// with no byte left over.
pub open spec fn parse_records(b: Seq<u8>) -> Option<Seq<Seq<char>>> {
    match parse_u64(b) {
        Some((n, r)) => match parse_list(r, n as nat, str_item()) {
            Some((xs, rest)) => if rest.len() == 0 {
                Some(xs)
            } else {
                None
            },
            None => None,
        },
        None => None,
    }
}

pub proof fn lemma_parse_u64(n: nat, tail: Seq<u8>)
    requires
        n <= u64::MAX,
    ensures
        parse_u64(u64_bytes(n) + tail) == Some((n as u64, tail)),
{
    lemma_auto_spec_u64_to_from_le_bytes();
    let b = u64_bytes(n) + tail;
    assert(b.take(8) == u64_bytes(n));
    assert(b.skip(8) == tail);
}

pub proof fn lemma_parse_str(s: Seq<char>, tail: Seq<u8>)
    requires
        encode_utf8(s).len() <= u64::MAX,
    ensures
        parse_str(str_bytes(s) + tail) == Some((s, tail)),
{
    let e = encode_utf8(s);
    lemma_parse_u64(e.len(), e + tail);
    assert(str_bytes(s) + tail == u64_bytes(e.len()) + (e + tail));
    assert((e + tail).take(e.len() as int) == e);
    assert((e + tail).skip(e.len() as int) == tail);
}

pub proof fn lemma_join_push(parts: Seq<Seq<u8>>, p: Seq<u8>)
    ensures
        join(parts.push(p)) == join(parts) + p,
{
    assert(parts.push(p).drop_last() == parts);
}

/// Items laid end to end are read back, when each item is read back
/// whatever follows it.
pub proof fn lemma_parse_list<T>(
    xs: Seq<T>,
    tail: Seq<u8>,
    item: spec_fn(Seq<u8>) -> Option<(T, Seq<u8>)>,
    enc: spec_fn(T) -> Seq<u8>,
)
    requires
        forall|i: int, t: Seq<u8>| 0 <= i < xs.len() ==> #[trigger] item(enc(xs[i]) + t) == Some((xs[i], t)),
    ensures
        parse_list(join(xs.map_values(enc)) + tail, xs.len(), item) == Some((xs, tail)),
    decreases xs.len(),
{
    if xs.len() > 0 {
        let init = xs.drop_last();
        let x = xs.last();
        assert(xs.map_values(enc) =~= init.map_values(enc).push(enc(x)));
        lemma_join_push(init.map_values(enc), enc(x));
        assert forall|i: int, t: Seq<u8>| 0 <= i < init.len() implies #[trigger] item(
            enc(init[i]) + t,
        ) == Some((init[i], t)) by {
            assert(init[i] == xs[i]);
            assert(item(enc(xs[i]) + t) == Some((xs[i], t)));
        }
        lemma_parse_list(init, enc(x) + tail, item, enc);
        assert(join(xs.map_values(enc)) + tail =~= join(init.map_values(enc)) + (enc(x) + tail));
        assert(item(enc(xs[xs.len() - 1]) + tail) == Some((xs[xs.len() - 1], tail)));
        assert(init.push(x) =~= xs);
    } else {
        assert(xs.map_values(enc) =~= Seq::<Seq<u8>>::empty());
        assert(Seq::<u8>::empty() + tail =~= tail);
    }
}

/// Once reading `n` items fails, reading more fails too.
pub proof fn lemma_parse_list_none<T>(
    b: Seq<u8>,
    n: nat,
    m: nat,
    item: spec_fn(Seq<u8>) -> Option<(T, Seq<u8>)>,
)
    requires
        n <= m,
        parse_list(b, n, item) is None,
    ensures
        parse_list(b, m, item) is None,
    decreases m - n,
{
    if n < m {
        lemma_parse_list_none(b, n, (m - 1) as nat, item);
    }
}

/// Reading a records artifact gives back the records it was made from.
pub proof fn lemma_records_round_trip(rs: Seq<Seq<char>>)
    requires
        rs.len() <= u64::MAX,
        forall|i: int| 0 <= i < rs.len() ==> encode_utf8(#[trigger] rs[i]).len() <= u64::MAX,
    ensures
        parse_records(records_bytes(rs)) == Some(rs),
{
    let body = join(rs.map_values(|s: Seq<char>| str_bytes(s)));
    lemma_parse_u64(rs.len(), body);
    assert forall|i: int, t: Seq<u8>| 0 <= i < rs.len() implies #[trigger] (str_item())(
        (str_enc())(rs[i]) + t,
    ) == Some((rs[i], t)) by {
        lemma_parse_str(rs[i], t);
    }
    lemma_parse_list(rs, seq![], str_item(), str_enc());
    assert(rs.map_values(str_enc()) =~= rs.map_values(|s: Seq<char>| str_bytes(s)));
    assert(body + Seq::<u8>::empty() == body);
}

/// Appends an integer in eight little-endian bytes.
pub fn write_u64(out: &mut Vec<u8>, n: u64)
    ensures
        final(out)@ == old(out)@ + u64_bytes(n as nat),
{
    let mut b = u64_to_le_bytes(n);
    out.append(&mut b);
}

/// Appends a string: its UTF-8 length, then its UTF-8 bytes.
pub fn write_str(out: &mut Vec<u8>, s: &str)
    ensures
        final(out)@ == old(out)@ + str_bytes(s@),
{
    let bytes = s.as_bytes();
    write_u64(out, bytes.len() as u64);
    out.extend_from_slice(bytes);
}

/// Frames records into a records artifact (before compression).
pub fn encode_records(records: &Vec<String>) -> (r: Vec<u8>)
    ensures
        r@ == records_bytes(records@.map_values(|s: String| s@)),
{
    let ghost rs = records@.map_values(|s: String| s@);
    let mut out: Vec<u8> = Vec::new();
    write_u64(&mut out, records.len() as u64);
    let mut i: usize = 0;
    assert(rs.take(0).map_values(|s: Seq<char>| str_bytes(s)) == Seq::<Seq<u8>>::empty());
    while i < records.len()
        invariant
            i <= records.len(),
            rs == records@.map_values(|s: String| s@),
            out@ == u64_bytes(records.len() as nat) + join(rs.take(i as int).map_values(|s: Seq<char>| str_bytes(s))),
        decreases records.len() - i,
    {
        write_str(&mut out, records[i].as_str());
        proof {
            assert(rs.len() == records.len());
            assert(rs.take(i + 1).map_values(|s: Seq<char>| str_bytes(s)) =~= rs.take(i as int).map_values(|s: Seq<char>| str_bytes(s)).push(
                str_bytes(rs[i as int]),
            ));
            lemma_join_push(rs.take(i as int).map_values(|s: Seq<char>| str_bytes(s)), str_bytes(rs[i as int]));
        }
        i = i + 1;
    }
    assert(rs.take(records.len() as int) == rs);
    out
}

/// Reads an integer at `pos`, giving it and the position after it.
pub fn read_u64(b: &[u8], pos: usize) -> (r: Option<(u64, usize)>)
    requires
        pos <= b@.len(),
    ensures
        match r {
            Some((n, p)) => p <= b@.len() && parse_u64(b@.skip(pos as int)) == Some(
                (n, b@.skip(p as int)),
            ),
            None => parse_u64(b@.skip(pos as int)) is None,
        },
{
    if b.len() - pos < 8 {
        return None;
    }
    let n = u64_from_le_bytes(slice_subrange(b, pos, pos + 8));
    assert(b@.skip(pos as int).take(8) == b@.subrange(pos as int, pos + 8));
    assert(b@.skip(pos as int).skip(8) == b@.skip(pos + 8));
    Some((n, pos + 8))
}

/// Reads a string at `pos`, giving it and the position after it.
pub fn read_str(b: &[u8], pos: usize) -> (r: Option<(String, usize)>)
    requires
        pos <= b@.len(),
    ensures
        match r {
            Some((s, p)) => p <= b@.len() && parse_str(b@.skip(pos as int)) == Some(
                (s@, b@.skip(p as int)),
            ),
            None => parse_str(b@.skip(pos as int)) is None,
        },
{
    let (n, p) = match read_u64(b, pos) {
        Some(x) => x,
        None => return None,
    };
    let ghost r = b@.skip(p as int);
    if n > (b.len() - p) as u64 {
        return None;
    }
    let len = n as usize;
    let bytes = slice_to_vec(slice_subrange(b, p, p + len));
    assert(r.take(len as int) == bytes@);
    match string_from_utf8(bytes) {
        Some(s) => {
            assert(r.skip(len as int) == b@.skip(p + len));
            Some((s, p + len))
        },
        None => None,
    }
}

/// Reads a records artifact (before framing): `Some` exactly when the bytes
/// are one, and then its records.
pub fn decode_records(b: &[u8]) -> (r: Option<Vec<String>>)
    ensures
        match r {
            Some(v) => parse_records(b@) == Some(v@.map_values(|s: String| s@)),
            None => parse_records(b@) is None,
        },
{
    assert(b@.skip(0) == b@);
    let (n, mut pos) = match read_u64(b, 0) {
        Some(x) => x,
        None => return None,
    };
    let ghost r0 = b@.skip(pos as int);
    let mut out: Vec<String> = Vec::new();
    let mut i: u64 = 0;
    while i < n
        invariant
            i <= n,
            pos <= b@.len(),
            r0 == b@.skip(8),
            parse_u64(b@) == Some((n, r0)),
            parse_list(r0, i as nat, str_item()) == Some((out@.map_values(|s: String| s@), b@.skip(pos as int))),
        decreases n - i,
    {
        match read_str(b, pos) {
            Some((s, p)) => {
                proof {
                    assert(out@.push(s).map_values(|s: String| s@) == out@.map_values(
                        |s: String| s@,
                    ).push(s@));
                }
                out.push(s);
                pos = p;
            },
            None => {
                proof {
                    assert(parse_list(r0, (i + 1) as nat, str_item()) is None);
                    lemma_parse_list_none(r0, (i + 1) as nat, n as nat, str_item());
                }
                return None;
            },
        }
        i = i + 1;
    }
    if pos < b.len() {
        return None;
    }
    Some(out)
}

/// An index entry: a word and its ordinals.
pub type Entry = (Seq<char>, Seq<usize>);

/// Writes an ordinal as an eight-byte integer.
pub open spec fn ordinal_enc() -> spec_fn(usize) -> Seq<u8> {
    |o: usize| u64_bytes(o as nat)
}

/// An ordinal list: its length, then each ordinal.
pub open spec fn ordinals_bytes(os: Seq<usize>) -> Seq<u8> {
    u64_bytes(os.len()) + join(os.map_values(ordinal_enc()))
}

/// An index entry: the word, then its ordinal list.
pub open spec fn entry_bytes(e: Entry) -> Seq<u8> {
    str_bytes(e.0) + ordinals_bytes(e.1)
}

/// Writes an index entry.
pub open spec fn entry_enc() -> spec_fn(Entry) -> Seq<u8> {
    |e: Entry| entry_bytes(e)
}

/// One block's part of the index artifact: the number of entries, then each.
pub open spec fn index_block_bytes(es: Seq<Entry>) -> Seq<u8> {
    u64_bytes(es.len()) + join(es.map_values(entry_enc()))
}

/// Writes one block's part of the index artifact.
pub open spec fn index_block_enc() -> spec_fn(Seq<Entry>) -> Seq<u8> {
    |es: Seq<Entry>| index_block_bytes(es)
}

/// An index artifact (before framing): the number of blocks, then each block's entries.
pub open spec fn index_bytes(bs: Seq<Seq<Entry>>) -> Seq<u8> {
    u64_bytes(bs.len()) + join(bs.map_values(index_block_enc()))
}

/// Reads an ordinal: an eight-byte integer that fits in `usize`.
pub open spec fn parse_ordinal(b: Seq<u8>) -> Option<(usize, Seq<u8>)> {
    match parse_u64(b) {
        Some((n, r)) => if n <= usize::MAX {
            Some((n as usize, r))
        } else {
            None
        },
        None => None,
    }
}

/// Reads an ordinal off the front.
pub open spec fn ordinal_item() -> spec_fn(Seq<u8>) -> Option<(usize, Seq<u8>)> {
    |b: Seq<u8>| parse_ordinal(b)
}

/// Reads an ordinal list off the front.
pub open spec fn parse_ordinals(b: Seq<u8>) -> Option<(Seq<usize>, Seq<u8>)> {
    match parse_u64(b) {
        Some((n, r)) => parse_list(r, n as nat, ordinal_item()),
        None => None,
    }
}

/// Reads an index entry off the front.
pub open spec fn parse_entry(b: Seq<u8>) -> Option<(Entry, Seq<u8>)> {
    match parse_str(b) {
        Some((w, r)) => match parse_ordinals(r) {
            Some((os, r2)) => Some(((w, os), r2)),
            None => None,
        },
        None => None,
    }
}

/// Reads an index entry off the front.
pub open spec fn entry_item() -> spec_fn(Seq<u8>) -> Option<(Entry, Seq<u8>)> {
    |b: Seq<u8>| parse_entry(b)
}

/// Reads one block's entries off the front.
pub open spec fn parse_index_block(b: Seq<u8>) -> Option<(Seq<Entry>, Seq<u8>)> {
    match parse_u64(b) {
        Some((n, r)) => parse_list(r, n as nat, entry_item()),
        None => None,
    }
}

/// Reads one block's entries off the front.
pub open spec fn index_block_item() -> spec_fn(Seq<u8>) -> Option<(Seq<Entry>, Seq<u8>)> {
    |b: Seq<u8>| parse_index_block(b)
}

/// The entries, block by block, that an index artifact (before framing)
/// holds, if it is one, with no byte left over.
pub open spec fn parse_index(b: Seq<u8>) -> Option<Seq<Seq<Entry>>> {
    match parse_u64(b) {
        Some((n, r)) => match parse_list(r, n as nat, index_block_item()) {
            Some((xs, rest)) => if rest.len() == 0 {
                Some(xs)
            } else {
                None
            },
            None => None,
        },
        None => None,
    }
}

/// An entry whose lengths fit in eight bytes.
pub open spec fn entry_fits(e: Entry) -> bool {
    encode_utf8(e.0).len() <= u64::MAX && e.1.len() <= u64::MAX
}

/// A block's entries whose lengths fit in eight bytes.
pub open spec fn index_block_fits(es: Seq<Entry>) -> bool {
    es.len() <= u64::MAX && forall|i: int| 0 <= i < es.len() ==> entry_fits(#[trigger] es[i])
}

pub proof fn lemma_parse_ordinals(os: Seq<usize>, tail: Seq<u8>)
    requires
        os.len() <= u64::MAX,
    ensures
        parse_ordinals(ordinals_bytes(os) + tail) == Some((os, tail)),
{
    assert forall|i: int, t: Seq<u8>| 0 <= i < os.len() implies #[trigger] (ordinal_item())(
        (ordinal_enc())(os[i]) + t,
    ) == Some((os[i], t)) by {
        lemma_parse_u64(os[i] as nat, t);
    }
    lemma_parse_list(os, tail, ordinal_item(), ordinal_enc());
    let body = join(os.map_values(ordinal_enc()));
    lemma_parse_u64(os.len(), body + tail);
    assert(ordinals_bytes(os) + tail =~= u64_bytes(os.len()) + (body + tail));
}

pub proof fn lemma_parse_entry(e: Entry, tail: Seq<u8>)
    requires
        entry_fits(e),
    ensures
        parse_entry(entry_bytes(e) + tail) == Some((e, tail)),
{
    lemma_parse_ordinals(e.1, tail);
    lemma_parse_str(e.0, ordinals_bytes(e.1) + tail);
    assert(entry_bytes(e) + tail =~= str_bytes(e.0) + (ordinals_bytes(e.1) + tail));
}

pub proof fn lemma_parse_index_block(es: Seq<Entry>, tail: Seq<u8>)
    requires
        index_block_fits(es),
    ensures
        parse_index_block(index_block_bytes(es) + tail) == Some((es, tail)),
{
    assert forall|i: int, t: Seq<u8>| 0 <= i < es.len() implies #[trigger] (entry_item())(
        (entry_enc())(es[i]) + t,
    ) == Some((es[i], t)) by {
        assert(entry_fits(es[i]));
        lemma_parse_entry(es[i], t);
    }
    lemma_parse_list(es, tail, entry_item(), entry_enc());
    let body = join(es.map_values(entry_enc()));
    lemma_parse_u64(es.len(), body + tail);
    assert(index_block_bytes(es) + tail =~= u64_bytes(es.len()) + (body + tail));
}

/// Reading an index artifact gives back the entries it was made from.
pub proof fn lemma_index_round_trip(bs: Seq<Seq<Entry>>)
    requires
        bs.len() <= u64::MAX,
        forall|i: int| 0 <= i < bs.len() ==> index_block_fits(#[trigger] bs[i]),
    ensures
        parse_index(index_bytes(bs)) == Some(bs),
{
    assert forall|i: int, t: Seq<u8>| 0 <= i < bs.len() implies #[trigger] (index_block_item())(
        (index_block_enc())(bs[i]) + t,
    ) == Some((bs[i], t)) by {
        lemma_parse_index_block(bs[i], t);
    }
    lemma_parse_list(bs, seq![], index_block_item(), index_block_enc());
    let body = join(bs.map_values(index_block_enc()));
    lemma_parse_u64(bs.len(), body);
    assert(body + Seq::<u8>::empty() =~= body);
}

/// What a listing of borrowed index entries holds.
pub open spec fn borrowed_entries(v: Seq<(&String, &Vec<usize>)>) -> Seq<Entry> {
    v.map_values(|e: (&String, &Vec<usize>)| (e.0@, e.1@))
}

/// What a listing of owned index entries holds.
pub open spec fn owned_entries(v: Seq<(String, Vec<usize>)>) -> Seq<Entry> {
    v.map_values(|e: (String, Vec<usize>)| (e.0@, e.1@))
}

/// Appends an ordinal list: its length, then each ordinal.
pub fn write_ordinals(out: &mut Vec<u8>, os: &Vec<usize>)
    ensures
        final(out)@ == old(out)@ + ordinals_bytes(os@),
{
    let ghost start = out@;
    write_u64(out, os.len() as u64);
    let mut i: usize = 0;
    assert(os@.take(0).map_values(ordinal_enc()) =~= Seq::<Seq<u8>>::empty());
    while i < os.len()
        invariant
            i <= os.len(),
            out@ == start + u64_bytes(os.len() as nat) + join(os@.take(i as int).map_values(ordinal_enc())),
        decreases os.len() - i,
    {
        write_u64(out, os[i] as u64);
        proof {
            assert(os@.take(i + 1).map_values(ordinal_enc()) =~= os@.take(i as int).map_values(
                ordinal_enc(),
            ).push(u64_bytes(os[i as int] as nat)));
            lemma_join_push(os@.take(i as int).map_values(ordinal_enc()), u64_bytes(os[i as int] as nat));
        }
        i = i + 1;
    }
    assert(os@.take(os.len() as int) =~= os@);
    assert(out@ =~= start + ordinals_bytes(os@));
}

/// Appends one block's part of the index artifact, in the order given.
pub fn write_index_block(out: &mut Vec<u8>, entries: &Vec<(&String, &Vec<usize>)>)
    ensures
        final(out)@ == old(out)@ + index_block_bytes(borrowed_entries(entries@)),
{
    let ghost start = out@;
    let ghost es = borrowed_entries(entries@);
    write_u64(out, entries.len() as u64);
    let mut i: usize = 0;
    assert(es.take(0).map_values(entry_enc()) =~= Seq::<Seq<u8>>::empty());
    while i < entries.len()
        invariant
            i <= entries.len(),
            es == borrowed_entries(entries@),
            out@ == start + u64_bytes(entries.len() as nat) + join(es.take(i as int).map_values(entry_enc())),
        decreases entries.len() - i,
    {
        let (word, os) = entries[i];
        let ghost before = out@;
        write_str(out, word.as_str());
        write_ordinals(out, os);
        proof {
            assert(es.len() == entries.len());
            assert(es[i as int] == (word@, os@));
            assert(out@ =~= before + entry_bytes(es[i as int]));
            assert(es.take(i + 1).map_values(entry_enc()) =~= es.take(i as int).map_values(
                entry_enc(),
            ).push(entry_bytes(es[i as int])));
            lemma_join_push(es.take(i as int).map_values(entry_enc()), entry_bytes(es[i as int]));
        }
        i = i + 1;
    }
    assert(es.take(entries.len() as int) =~= es);
    assert(out@ =~= start + index_block_bytes(es));
}

/// Reads an ordinal list at `pos`.
pub fn read_ordinals(b: &[u8], pos: usize) -> (r: Option<(Vec<usize>, usize)>)
    requires
        pos <= b@.len(),
    ensures
        match r {
            Some((os, p)) => p <= b@.len() && parse_ordinals(b@.skip(pos as int)) == Some(
                (os@, b@.skip(p as int)),
            ),
            None => parse_ordinals(b@.skip(pos as int)) is None,
        },
{
    let (n, mut p) = match read_u64(b, pos) {
        Some(x) => x,
        None => return None,
    };
    let ghost r0 = b@.skip(p as int);
    let mut out: Vec<usize> = Vec::new();
    let mut i: u64 = 0;
    while i < n
        invariant
            i <= n,
            p <= b@.len(),
            parse_u64(b@.skip(pos as int)) == Some((n, r0)),
            parse_list(r0, i as nat, ordinal_item()) == Some((out@, b@.skip(p as int))),
        decreases n - i,
    {
        let (x, next) = match read_u64(b, p) {
            Some(y) => y,
            None => {
                proof {
                    assert(parse_list(r0, (i + 1) as nat, ordinal_item()) is None);
                    lemma_parse_list_none(r0, (i + 1) as nat, n as nat, ordinal_item());
                }
                return None;
            },
        };
        if x > usize::MAX as u64 {
            proof {
                assert(parse_list(r0, (i + 1) as nat, ordinal_item()) is None);
                lemma_parse_list_none(r0, (i + 1) as nat, n as nat, ordinal_item());
            }
            return None;
        }
        out.push(x as usize);
        p = next;
        i = i + 1;
    }
    Some((out, p))
}

/// Reads an index entry at `pos`.
pub fn read_entry(b: &[u8], pos: usize) -> (r: Option<(String, Vec<usize>, usize)>)
    requires
        pos <= b@.len(),
    ensures
        match r {
            Some((w, os, p)) => p <= b@.len() && parse_entry(b@.skip(pos as int)) == Some(
                ((w@, os@), b@.skip(p as int)),
            ),
            None => parse_entry(b@.skip(pos as int)) is None,
        },
{
    let (w, p) = match read_str(b, pos) {
        Some(x) => x,
        None => return None,
    };
    let (os, next) = match read_ordinals(b, p) {
        Some(x) => x,
        None => return None,
    };
    Some((w, os, next))
}

/// Reads one block's entries at `pos`.
pub fn read_index_block(b: &[u8], pos: usize) -> (r: Option<(Vec<(String, Vec<usize>)>, usize)>)
    requires
        pos <= b@.len(),
    ensures
        match r {
            Some((es, p)) => p <= b@.len() && parse_index_block(b@.skip(pos as int)) == Some(
                (owned_entries(es@), b@.skip(p as int)),
            ),
            None => parse_index_block(b@.skip(pos as int)) is None,
        },
{
    let (n, mut p) = match read_u64(b, pos) {
        Some(x) => x,
        None => return None,
    };
    let ghost r0 = b@.skip(p as int);
    let mut out: Vec<(String, Vec<usize>)> = Vec::new();
    let mut i: u64 = 0;
    while i < n
        invariant
            i <= n,
            p <= b@.len(),
            parse_u64(b@.skip(pos as int)) == Some((n, r0)),
            parse_list(r0, i as nat, entry_item()) == Some((owned_entries(out@), b@.skip(p as int))),
        decreases n - i,
    {
        match read_entry(b, p) {
            Some((w, os, next)) => {
                proof {
                    assert(owned_entries(out@.push((w, os))) =~= owned_entries(out@).push((w@, os@)));
                }
                out.push((w, os));
                p = next;
            },
            None => {
                proof {
                    assert(parse_list(r0, (i + 1) as nat, entry_item()) is None);
                    lemma_parse_list_none(r0, (i + 1) as nat, n as nat, entry_item());
                }
                return None;
            },
        }
        i = i + 1;
    }
    Some((out, p))
}

/// Reads an index artifact (before framing): `Some` exactly when the bytes
/// are one, and then each block's entries in the order stored.
pub fn decode_index(b: &[u8]) -> (r: Option<Vec<Vec<(String, Vec<usize>)>>>)
    ensures
        match r {
            Some(v) => parse_index(b@) == Some(v@.map_values(|es: Vec<(String, Vec<usize>)>| owned_entries(es@))),
            None => parse_index(b@) is None,
        },
{
    assert(b@.skip(0) == b@);
    let (n, mut pos) = match read_u64(b, 0) {
        Some(x) => x,
        None => return None,
    };
    let ghost r0 = b@.skip(pos as int);
    let mut out: Vec<Vec<(String, Vec<usize>)>> = Vec::new();
    let mut i: u64 = 0;
    while i < n
        invariant
            i <= n,
            pos <= b@.len(),
            parse_u64(b@) == Some((n, r0)),
            parse_list(r0, i as nat, index_block_item()) == Some(
                (out@.map_values(|es: Vec<(String, Vec<usize>)>| owned_entries(es@)), b@.skip(pos as int)),
            ),
        decreases n - i,
    {
        match read_index_block(b, pos) {
            Some((es, p)) => {
                proof {
                    assert(out@.push(es).map_values(|es: Vec<(String, Vec<usize>)>| owned_entries(es@))
                        =~= out@.map_values(|es: Vec<(String, Vec<usize>)>| owned_entries(es@)).push(
                        owned_entries(es@),
                    ));
                }
                out.push(es);
                pos = p;
            },
            None => {
                proof {
                    assert(parse_list(r0, (i + 1) as nat, index_block_item()) is None);
                    lemma_parse_list_none(r0, (i + 1) as nat, n as nat, index_block_item());
                }
                return None;
            },
        }
        i = i + 1;
    }
    if pos < b.len() {
        return None;
    }
    Some(out)
}

/// Writes a 128-bit word in sixteen little-endian bytes.
pub open spec fn u128_enc() -> spec_fn(u128) -> Seq<u8> {
    |w: u128| spec_u128_to_le_bytes(w)
}

/// One block's filter: its words, each in sixteen bytes.
pub open spec fn bloom_words_bytes(ws: Seq<u128>) -> Seq<u8> {
    join(ws.map_values(u128_enc()))
}

/// Writes one block's filter.
pub open spec fn bloom_enc() -> spec_fn(Seq<u128>) -> Seq<u8> {
    |ws: Seq<u128>| bloom_words_bytes(ws)
}

/// A bloom artifact: the number of blocks, then each block's filter.
pub open spec fn bloom_bytes(bs: Seq<Seq<u128>>) -> Seq<u8> {
    u64_bytes(bs.len()) + join(bs.map_values(bloom_enc()))
}

/// Reads a 128-bit word off the front.
pub open spec fn parse_u128(b: Seq<u8>) -> Option<(u128, Seq<u8>)> {
    if b.len() >= 16 {
        Some((spec_u128_from_le_bytes(b.take(16)), b.skip(16)))
    } else {
        None
    }
}

/// Reads a 128-bit word off the front.
pub open spec fn u128_item() -> spec_fn(Seq<u8>) -> Option<(u128, Seq<u8>)> {
    |b: Seq<u8>| parse_u128(b)
}

/// Reads one block's filter off the front.
pub open spec fn bloom_item() -> spec_fn(Seq<u8>) -> Option<(Seq<u128>, Seq<u8>)> {
    |b: Seq<u8>| parse_list(b, BLOOM_WORDS as nat, u128_item())
}

/// The filters, block by block, that a bloom artifact holds, if it is one,
/// with no byte left over.
pub open spec fn parse_blooms(b: Seq<u8>) -> Option<Seq<Seq<u128>>> {
    match parse_u64(b) {
        Some((n, r)) => match parse_list(r, n as nat, bloom_item()) {
            Some((xs, rest)) => if rest.len() == 0 {
                Some(xs)
            } else {
                None
            },
            None => None,
        },
        None => None,
    }
}

/// A listing of filters, each of them whole.
pub open spec fn blooms_whole(bs: Seq<Seq<u128>>) -> bool {
    forall|i: int| 0 <= i < bs.len() ==> (#[trigger] bs[i]).len() == BLOOM_WORDS
}

/// Reading a bloom artifact gives back the filters it was made from.
pub proof fn lemma_blooms_round_trip(bs: Seq<Seq<u128>>)
    requires
        bs.len() <= u64::MAX,
        blooms_whole(bs),
    ensures
        parse_blooms(bloom_bytes(bs)) == Some(bs),
{
    lemma_auto_spec_u128_to_from_le_bytes();
    assert forall|i: int, t: Seq<u8>| 0 <= i < bs.len() implies #[trigger] (bloom_item())(
        (bloom_enc())(bs[i]) + t,
    ) == Some((bs[i], t)) by {
        let ws = bs[i];
        assert forall|j: int, t2: Seq<u8>| 0 <= j < ws.len() implies #[trigger] (u128_item())(
            (u128_enc())(ws[j]) + t2,
        ) == Some((ws[j], t2)) by {
            let e = spec_u128_to_le_bytes(ws[j]);
            assert((e + t2).take(16) =~= e);
            assert((e + t2).skip(16) =~= t2);
        }
        lemma_parse_list(ws, t, u128_item(), u128_enc());
    }
    lemma_parse_list(bs, seq![], bloom_item(), bloom_enc());
    let body = join(bs.map_values(bloom_enc()));
    lemma_parse_u64(bs.len(), body);
    assert(body + Seq::<u8>::empty() =~= body);
}

/// Appends one block's filter.
pub fn write_bloom(out: &mut Vec<u8>, words: &Vec<u128>)
    ensures
        final(out)@ == old(out)@ + bloom_words_bytes(words@),
{
    let ghost start = out@;
    let mut i: usize = 0;
    assert(words@.take(0).map_values(u128_enc()) =~= Seq::<Seq<u8>>::empty());
    assert(start + Seq::<u8>::empty() =~= start);
    while i < words.len()
        invariant
            i <= words.len(),
            out@ == start + join(words@.take(i as int).map_values(u128_enc())),
        decreases words.len() - i,
    {
        let mut b = u128_to_le_bytes(words[i]);
        out.append(&mut b);
        proof {
            assert(words@.take(i + 1).map_values(u128_enc()) =~= words@.take(i as int).map_values(
                u128_enc(),
            ).push(spec_u128_to_le_bytes(words[i as int])));
            lemma_join_push(words@.take(i as int).map_values(u128_enc()), spec_u128_to_le_bytes(words[i as int]));
        }
        i = i + 1;
    }
    assert(words@.take(words.len() as int) =~= words@);
}

/// Reads one block's filter at `pos`.
pub fn read_bloom(b: &[u8], pos: usize) -> (r: Option<(Vec<u128>, usize)>)
    requires
        pos <= b@.len(),
    ensures
        match r {
            Some((ws, p)) => p <= b@.len() && ws@.len() == BLOOM_WORDS && (bloom_item())(b@.skip(pos as int)) == Some(
                (ws@, b@.skip(p as int)),
            ),
            None => (bloom_item())(b@.skip(pos as int)) is None,
        },
{
    let ghost r0 = b@.skip(pos as int);
    let mut p = pos;
    let mut out: Vec<u128> = Vec::with_capacity(BLOOM_WORDS);
    let mut i: usize = 0;
    while i < BLOOM_WORDS
        invariant
            i <= BLOOM_WORDS,
            p <= b@.len(),
            r0 == b@.skip(pos as int),
            out.len() == i,
            parse_list(r0, i as nat, u128_item()) == Some((out@, b@.skip(p as int))),
        decreases BLOOM_WORDS - i,
    {
        if b.len() - p < 16 {
            proof {
                assert(parse_list(r0, (i + 1) as nat, u128_item()) is None);
                lemma_parse_list_none(r0, (i + 1) as nat, BLOOM_WORDS as nat, u128_item());
            }
            return None;
        }
        let w = u128_from_le_bytes(slice_subrange(b, p, p + 16));
        assert(b@.skip(p as int).take(16) =~= b@.subrange(p as int, p + 16));
        assert(b@.skip(p as int).skip(16) =~= b@.skip(p + 16));
        out.push(w);
        p = p + 16;
        i = i + 1;
    }
    Some((out, p))
}

/// Reads a bloom artifact: `Some` exactly when the bytes are one, and then
/// each block's filter words.
pub fn decode_blooms(b: &[u8]) -> (r: Option<Vec<Vec<u128>>>)
    ensures
        match r {
            Some(v) => parse_blooms(b@) == Some(v@.map_values(|ws: Vec<u128>| ws@)) && forall|i: int|
                0 <= i < v.len() ==> (#[trigger] v@[i]).len() == BLOOM_WORDS,
            None => parse_blooms(b@) is None,
        },
{
    assert(b@.skip(0) == b@);
    let (n, mut pos) = match read_u64(b, 0) {
        Some(x) => x,
        None => return None,
    };
    let ghost r0 = b@.skip(pos as int);
    let mut out: Vec<Vec<u128>> = Vec::new();
    let mut i: u64 = 0;
    while i < n
        invariant
            i <= n,
            pos <= b@.len(),
            parse_u64(b@) == Some((n, r0)),
            parse_list(r0, i as nat, bloom_item()) == Some(
                (out@.map_values(|ws: Vec<u128>| ws@), b@.skip(pos as int)),
            ),
            forall|k: int| 0 <= k < out.len() ==> (#[trigger] out@[k]).len() == BLOOM_WORDS,
        decreases n - i,
    {
        match read_bloom(b, pos) {
            Some((ws, p)) => {
                proof {
                    assert(out@.push(ws).map_values(|ws: Vec<u128>| ws@) =~= out@.map_values(
                        |ws: Vec<u128>| ws@,
                    ).push(ws@));
                }
                out.push(ws);
                pos = p;
            },
            None => {
                proof {
                    assert(parse_list(r0, (i + 1) as nat, bloom_item()) is None);
                    lemma_parse_list_none(r0, (i + 1) as nat, n as nat, bloom_item());
                }
                return None;
            },
        }
        i = i + 1;
    }
    if pos < b.len() {
        return None;
    }
    Some(out)
}

} // verus!
