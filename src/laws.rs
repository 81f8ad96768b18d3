//! Properties that hold of every run of the store, proved over the models
//! that the operations' contracts speak of.
use crate::block::{add_record, bloom_added, empty_block, model_wf, BlockModel, BLOCK_SIZE};
use crate::bloom::{is_probe, may_contain, probe, word_hash, BLOOM_HASHES, BLOOM_SIZE, BLOOM_WORDS};
use crate::database::{block_hits, block_inserted, db_inserted, hits_from, query_hits, word_hits};
use crate::block::{artifact_records, materialize_error};
use crate::codec::{
    entry_fits, index_block_fits, index_bytes, lemma_blooms_round_trip, lemma_index_round_trip,
    lemma_records_round_trip, Entry,
};
use crate::database::{entries_at, entries_valid, index_listing, load_error, loaded_from, saved};
use crate::frame::{lz4_frame_of, lz4_unframe_of};
use crate::postings::{lists, strictly_ascending};
use crate::text::words_of;
use vstd::utf8::encode_utf8;
use vstd::prelude::*;

verus! {

/// After words are added to a filter, each of them passes it, and every word
/// that passed before still passes: the filter has no false negatives.
pub proof fn lemma_no_false_negatives(
    before: Seq<u128>,
    after: Seq<u128>,
    ws: Seq<Seq<char>>,
    w: Seq<char>,
)
    requires
        before.len() == BLOOM_WORDS,
        bloom_added(before, after, ws),
    ensures
        ws.contains(w) ==> may_contain(after, w),
        may_contain(before, w) ==> may_contain(after, w),
{
    let h = word_hash(w);
    assert forall|i: int| 0 <= i < BLOOM_HASHES implies 0 <= #[trigger] probe(h, i) < before.len()
        * 128 by {
        assert(0 <= probe(h, i) < BLOOM_SIZE);
    }
    if ws.contains(w) {
        let k = choose|k: int| 0 <= k < ws.len() && ws[k] == w;
        assert forall|i: int| 0 <= i < BLOOM_HASHES implies crate::bloom::has_bit(
            after,
            #[trigger] probe(h, i),
        ) by {
            assert(is_probe(word_hash(ws[k]), probe(h, i)));
            assert(crate::bloom::has_bit(after, probe(h, i)));
        }
    }
    if may_contain(before, w) {
        assert forall|i: int| 0 <= i < BLOOM_HASHES implies crate::bloom::has_bit(
            after,
            #[trigger] probe(h, i),
        ) by {
            assert(crate::bloom::has_bit(before, probe(h, i)));
            assert(crate::bloom::has_bit(after, probe(h, i)));
        }
    }
}

/// After an insert into a database, every word of the record passes the
/// filter of the block that took it, and every word that passed a block's
/// filter still passes it.
pub proof fn lemma_insert_keeps_filters(
    before: Seq<BlockModel>,
    after: Seq<BlockModel>,
    value: Seq<char>,
    w: Seq<char>,
)
    requires
        forall|i: int| 0 <= i < before.len() ==> model_wf(#[trigger] before[i]),
        db_inserted(before, after, value),
    ensures
        words_of(value).contains(w) ==> may_contain(after.last().bloom, w),
        forall|i: int|
            0 <= i < before.len() && may_contain(before[i].bloom, w) ==> may_contain(
                #[trigger] after[i].bloom,
                w,
            ),
{
    let ws = words_of(value);
    if before.len() > 0 && crate::database::accepts_insert(before.last()) {
        let k = before.len() - 1;
        assert(model_wf(before[k]));
        lemma_no_false_negatives(before.last().bloom, after.last().bloom, ws, w);
        assert forall|i: int|
            0 <= i < before.len() && may_contain(before[i].bloom, w) implies may_contain(
            #[trigger] after[i].bloom,
            w,
        ) by {
            if i < k {
                assert(after[i] == after.drop_last()[i]);
                assert(before[i] == before.drop_last()[i]);
            }
        }
    } else {
        assert(empty_block().bloom.len() == BLOOM_WORDS);
        lemma_no_false_negatives(empty_block().bloom, after.last().bloom, ws, w);
        assert forall|i: int|
            0 <= i < before.len() && may_contain(before[i].bloom, w) implies may_contain(
            #[trigger] after[i].bloom,
            w,
        ) by {
            assert(after[i] == after.drop_last()[i]);
        }
    }
}

/// The ordinals, ascending, of the records among `rs` that hold word `w`.
pub open spec fn hits(rs: Seq<Seq<char>>, w: Seq<char>) -> Seq<usize>
    decreases rs.len(),
{
    if rs.len() == 0 {
        seq![]
    } else {
        let prev = hits(rs.drop_last(), w);
        if words_of(rs.last()).contains(w) {
            prev.push((rs.len() - 1) as usize)
        } else {
            prev
        }
    }
}

/// The exact index of the records `rs`: each word that occurs in one of
/// them, with the ordinals of the records that hold it.
pub open spec fn index_of(rs: Seq<Seq<char>>) -> Map<Seq<char>, Seq<usize>> {
    Map::new(
        |w: Seq<char>| exists|i: int| 0 <= i < rs.len() && words_of(rs[i]).contains(w),
        |w: Seq<char>| hits(rs, w),
    )
}

proof fn lemma_hits_none(rs: Seq<Seq<char>>, w: Seq<char>)
    requires
        forall|i: int| 0 <= i < rs.len() ==> !words_of(#[trigger] rs[i]).contains(w),
    ensures
        hits(rs, w) == Seq::<usize>::empty(),
    decreases rs.len(),
{
    if rs.len() > 0 {
        let init = rs.drop_last();
        assert forall|i: int| 0 <= i < init.len() implies !words_of(#[trigger] init[i]).contains(w) by {
            assert(init[i] == rs[i]);
        }
        lemma_hits_none(init, w);
        assert(!words_of(rs[rs.len() - 1]).contains(w));
    }
}

/// A new block's index is the exact index of no records.
pub proof fn lemma_empty_index()
    ensures
        empty_block().postings == index_of(seq![]),
{
    assert(empty_block().postings =~= index_of(seq![]));
}

/// An insert keeps a block's index exact: if, before, each word maps to the
/// ascending ordinals of the records that hold it, the same holds after.
pub proof fn lemma_index_exact(before: BlockModel, after: BlockModel, value: Seq<char>)
    requires
        block_inserted(before, after, value),
        before.postings == index_of(before.records->0),
        before.records->0.len() <= usize::MAX,
    ensures
        after.postings == index_of(after.records->0),
{
    let rs = before.records->0;
    let rs2 = after.records->0;
    let n = rs.len() as usize;
    let ws = words_of(value);
    assert(rs2 == rs.push(value));
    assert(rs2.drop_last() == rs);
    let m = add_record(index_of(rs), ws, n);
    let e = index_of(rs2);
    assert forall|w: Seq<char>| m.contains_key(w) <==> e.contains_key(w) by {
        if index_of(rs).contains_key(w) {
            let i = choose|i: int| 0 <= i < rs.len() && words_of(rs[i]).contains(w);
            assert(rs2[i] == rs[i]);
        }
        if ws.contains(w) {
            assert(words_of(rs2[rs.len() as int]).contains(w));
        }
        if e.contains_key(w) {
            let i = choose|i: int| 0 <= i < rs2.len() && words_of(rs2[i]).contains(w);
            if i < rs.len() {
                assert(rs2[i] == rs[i]);
            }
        }
    }
    assert forall|w: Seq<char>| #[trigger] m.contains_key(w) implies m[w] == e[w] by {
        if ws.contains(w) {
            if !index_of(rs).contains_key(w) {
                assert forall|i: int| 0 <= i < rs.len() implies !words_of(#[trigger] rs[i]).contains(
                    w,
                ) by {}
                lemma_hits_none(rs, w);
            }
        }
    }
    assert(m =~= e);
}

proof fn lemma_block_hits_absent(rs: Seq<Seq<char>>, m: Map<Seq<char>, Seq<usize>>, ws: Seq<Seq<char>>)
    requires
        forall|j: int| 0 <= j < ws.len() ==> !m.contains_key(#[trigger] ws[j]),
    ensures
        block_hits(rs, m, ws) == Seq::<Seq<char>>::empty(),
    decreases ws.len(),
{
    if ws.len() > 0 {
        let init = ws.drop_last();
        assert forall|j: int| 0 <= j < init.len() implies !m.contains_key(#[trigger] init[j]) by {
            assert(init[j] == ws[j]);
        }
        lemma_block_hits_absent(rs, m, init);
        assert(!m.contains_key(ws[ws.len() - 1]));
        assert(word_hits(rs, m, ws.last()) =~= Seq::<Seq<char>>::empty());
    }
}

proof fn lemma_hits_from_absent(db: Seq<BlockModel>, ws: Seq<Seq<char>>, i: int)
    requires
        0 <= i,
        forall|k: int, j: int|
            0 <= k < db.len() && 0 <= j < ws.len() ==> !(#[trigger] db[k]).postings.contains_key(
                #[trigger] ws[j],
            ),
    ensures
        hits_from(db, ws, i) == Seq::<Seq<char>>::empty(),
    decreases db.len() - i,
{
    if i < db.len() {
        lemma_hits_from_absent(db, ws, i + 1);
        assert forall|j: int| 0 <= j < ws.len() implies !db[i].postings.contains_key(#[trigger] ws[j]) by {}
        lemma_block_hits_absent(db[i].records.unwrap_or(Seq::empty()), db[i].postings, ws);
    }
}

/// A query none of whose words any block's index holds (so, with exact
/// indexes, none of whose words was ever inserted) returns nothing.
pub proof fn lemma_query_absent(db: Seq<BlockModel>, ws: Seq<Seq<char>>)
    requires
        forall|k: int, j: int|
            0 <= k < db.len() && 0 <= j < ws.len() ==> !(#[trigger] db[k]).postings.contains_key(
                #[trigger] ws[j],
            ),
    ensures
        query_hits(db, ws) == Seq::<Seq<char>>::empty(),
{
    lemma_hits_from_absent(db, ws, 0);
}

/// `db` is what `n` inserts into an empty database leave: the records fill
/// blocks in turn, so there are `n / BLOCK_SIZE` blocks rounded up, each full
/// but the last, which holds the rest.
pub open spec fn filled(db: Seq<BlockModel>, n: nat) -> bool {
    &&& db.len() == (n + BLOCK_SIZE - 1) / (BLOCK_SIZE as int)
    &&& forall|i: int| 0 <= i < db.len() ==> (#[trigger] db[i]).records is Some
    &&& forall|i: int| 0 <= i < db.len() - 1 ==> (#[trigger] db[i]).records->0.len() == BLOCK_SIZE
    &&& n > 0 ==> db.last().records->0.len() == n - BLOCK_SIZE * (db.len() - 1)
}

proof fn lemma_fill_step(db: Seq<BlockModel>, db2: Seq<BlockModel>, n: nat, v: Seq<char>)
    requires
        filled(db, n),
        db_inserted(db, db2, v),
    ensures
        filled(db2, n + 1),
{
    let b = BLOCK_SIZE as int;
    let l = db.len() as int;
    if n == 0 {
        assert((0 + b - 1) / b == 0);
        assert(((n + 1) + b - 1) / b == 1);
        assert(db2.len() == 1);
    } else {
        assert(l == (n + b - 1) / b);
        assert(b * (l - 1) < n <= b * l) by (nonlinear_arith)
            requires
                l == (n + b - 1) / b,
                b == 8192,
                n > 0,
        ;
        let s = db.last().records->0.len();
        if s < b {
            assert(crate::database::accepts_insert(db.last()));
            assert(((n + 1) + b - 1) / b == l) by (nonlinear_arith)
                requires
                    b * (l - 1) < n + 1 <= b * l,
                    b == 8192,
            ;
            assert forall|i: int| 0 <= i < db2.len() - 1 implies (#[trigger] db2[i]).records->0.len()
                == BLOCK_SIZE by {
                assert(db2[i] == db2.drop_last()[i]);
                assert(db[i] == db.drop_last()[i]);
            }
            assert forall|i: int| 0 <= i < db2.len() implies (#[trigger] db2[i]).records is Some by {
                if i < db2.len() - 1 {
                    assert(db2[i] == db2.drop_last()[i]);
                    assert(db[i] == db.drop_last()[i]);
                }
            }
        } else {
            assert(n == b * l);
            assert(((n + 1) + b - 1) / b == l + 1) by (nonlinear_arith)
                requires
                    n == b * l,
                    b == 8192,
            ;
            assert forall|i: int| 0 <= i < db2.len() - 1 implies (#[trigger] db2[i]).records->0.len()
                == BLOCK_SIZE by {
                assert(db2[i] == db2.drop_last()[i]);
            }
            assert forall|i: int| 0 <= i < db2.len() implies (#[trigger] db2[i]).records is Some by {
                if i < db2.len() - 1 {
                    assert(db2[i] == db2.drop_last()[i]);
                }
            }
        }
    }
}

/// Inserting records one by one into an empty database fills the blocks in
/// turn: each block but the last is full, and the last holds the rest.
pub proof fn lemma_fill(states: Seq<Seq<BlockModel>>, rs: Seq<Seq<char>>)
    requires
        states.len() == rs.len() + 1,
        states[0] == Seq::<BlockModel>::empty(),
        forall|k: int| 0 <= k < rs.len() ==> db_inserted(#[trigger] states[k], states[k + 1], rs[k]),
    ensures
        filled(states[rs.len() as int], rs.len()),
    decreases rs.len(),
{
    if rs.len() == 0 {
        assert((0 + BLOCK_SIZE - 1) / (BLOCK_SIZE as int) == 0);
    } else {
        let k = rs.len() - 1;
        let states1 = states.drop_last();
        let rs1 = rs.drop_last();
        assert forall|j: int| 0 <= j < rs1.len() implies db_inserted(
            #[trigger] states1[j],
            states1[j + 1],
            rs1[j],
        ) by {
            assert(db_inserted(states[j], states[j + 1], rs[j]));
        }
        lemma_fill(states1, rs1);
        assert(states1[k] == states[k]);
        assert(db_inserted(states[k], states[k + 1], rs[k]));
        lemma_fill_step(states[k], states[k + 1], k as nat, rs[k]);
    }
}

/// Inserting one record more than a block holds into an empty database gives
/// two blocks: a full one, then one holding a single record.
pub proof fn lemma_fill_boundary(states: Seq<Seq<BlockModel>>, rs: Seq<Seq<char>>)
    requires
        rs.len() == BLOCK_SIZE + 1,
        states.len() == rs.len() + 1,
        states[0] == Seq::<BlockModel>::empty(),
        forall|k: int| 0 <= k < rs.len() ==> db_inserted(#[trigger] states[k], states[k + 1], rs[k]),
    ensures
        states.last().len() == 2,
        states.last()[0].records->0.len() == BLOCK_SIZE,
        states.last()[1].records->0.len() == 1,
{
    lemma_fill(states, rs);
    assert((BLOCK_SIZE + 1 + BLOCK_SIZE - 1) / (BLOCK_SIZE as int) == 2);
}

/// Every count and length in the blocks fits in eight bytes.
pub open spec fn fits(db: Seq<BlockModel>) -> bool {
    &&& db.len() <= u64::MAX
    &&& forall|i: int|
        0 <= i < db.len() ==> {
            &&& ((#[trigger] db[i]).records matches Some(rs) ==> rs.len() <= u64::MAX && forall|j: int|
                0 <= j < rs.len() ==> encode_utf8(#[trigger] rs[j]).len() <= u64::MAX)
            &&& forall|w: Seq<char>|
                #[trigger] db[i].postings.contains_key(w) ==> encode_utf8(w).len() <= u64::MAX
                    && db[i].postings[w].len() <= u64::MAX
        }
}

/// The blocks once each block's records are brought back from its artifact.
pub open spec fn restored(loaded: Seq<BlockModel>, records: Seq<Option<Seq<u8>>>) -> Seq<BlockModel> {
    Seq::new(
        loaded.len(),
        |i: int| BlockModel { records: Some(artifact_records(records[i]->0)), ..loaded[i] },
    )
}

proof fn lemma_lists_unique(
    es: Seq<Entry>,
    m1: Map<Seq<char>, Seq<usize>>,
    m2: Map<Seq<char>, Seq<usize>>,
)
    requires
        lists(es, m1),
        lists(es, m2),
    ensures
        m1 == m2,
{
    assert forall|w: Seq<char>| m1.contains_key(w) <==> m2.contains_key(w) by {
        if m1.contains_key(w) {
            let i = choose|i: int| 0 <= i < es.len() && es[i].0 == w;
            assert(m2.contains_key(es[i].0));
        }
        if m2.contains_key(w) {
            let i = choose|i: int| 0 <= i < es.len() && es[i].0 == w;
            assert(m1.contains_key(es[i].0));
        }
    }
    assert forall|w: Seq<char>| #[trigger] m1.contains_key(w) implies m1[w] == m2[w] by {
        let i = choose|i: int| 0 <= i < es.len() && es[i].0 == w;
        assert(m1.contains_key(es[i].0) && m2.contains_key(es[i].0));
    }
    assert(m1 =~= m2);
}

/// Saving a database whose records are all in memory, then loading what was
/// saved and bringing each block's records back, gives the same blocks, so
/// every query gets the same answer as before.
pub proof fn lemma_save_load_round_trip(
    db: Seq<BlockModel>,
    bloom: Seq<u8>,
    index: Seq<u8>,
    records: Seq<Option<Seq<u8>>>,
    loaded: Seq<BlockModel>,
    ws: Seq<Seq<char>>,
)
    requires
        forall|i: int| 0 <= i < db.len() ==> model_wf(#[trigger] db[i]) && db[i].records is Some,
        fits(db),
        saved(db, bloom, index, records),
        loaded_from(loaded, bloom, index),
    ensures
        load_error(bloom, index) is None,
        loaded.len() == db.len(),
        forall|i: int| 0 <= i < loaded.len() ==> materialize_error(#[trigger] loaded[i], records[i]->0) is None,
        restored(loaded, records) == db,
        query_hits(restored(loaded, records), ws) == query_hits(db, ws),
{
    let bs = db.map_values(|b: BlockModel| b.bloom);
    assert forall|i: int| 0 <= i < bs.len() implies (#[trigger] bs[i]).len() == BLOOM_WORDS by {
        assert(model_wf(db[i]));
    }
    lemma_blooms_round_trip(bs);
    let ls = choose|ls: Seq<Seq<Entry>>|
        {
            &&& #[trigger] index_listing(db, ls)
            &&& index == lz4_frame_of(index_bytes(ls))
            &&& lz4_unframe_of(index) == Some(index_bytes(ls))
        };
    assert forall|i: int| 0 <= i < ls.len() implies index_block_fits(#[trigger] ls[i]) by {
        assert(lists(ls[i], db[i].postings));
        assert forall|k: int| 0 <= k < ls[i].len() implies entry_fits(#[trigger] ls[i][k]) by {
            assert(db[i].postings.contains_key(ls[i][k].0));
        }
    }
    lemma_index_round_trip(ls);
    assert forall|i: int| 0 <= i < ls.len() implies entries_valid(#[trigger] ls[i]) by {
        assert(lists(ls[i], db[i].postings));
        assert(model_wf(db[i]));
        assert forall|k: int| 0 <= k < ls[i].len() implies strictly_ascending(
            (#[trigger] ls[i][k]).1,
        ) by {
            assert(db[i].postings.contains_key(ls[i][k].0));
        }
    }
    assert(!(exists|i: int| 0 <= i < ls.len() && !entries_valid(#[trigger] ls[i])));
    assert forall|i: int| 0 <= i < loaded.len() implies materialize_error(
        #[trigger] loaded[i],
        records[i]->0,
    ) is None && restored(loaded, records)[i] == db[i] by {
        let rs = db[i].records->0;
        assert(model_wf(db[i]));
        lemma_records_round_trip(rs);
        assert(entries_at(ls, i) == ls[i]);
        lemma_lists_unique(ls[i], loaded[i].postings, db[i].postings);
        assert(loaded[i].bloom == bs[i]);
    }
    assert(restored(loaded, records) =~= db);
}

/// Every bit set in `before` is still set in `after`.
pub open spec fn bits_kept(before: Seq<u128>, after: Seq<u128>) -> bool {
    &&& after.len() == before.len()
    &&& forall|p: int|
        0 <= p < before.len() * 128 && crate::bloom::has_bit(before, p)
            ==> #[trigger] crate::bloom::has_bit(after, p)
}

/// Adding words to a filter keeps every bit it had. (Every other operation
/// on a block leaves its filter as it is.)
pub proof fn lemma_added_keeps_bits(before: Seq<u128>, after: Seq<u128>, ws: Seq<Seq<char>>)
    requires
        bloom_added(before, after, ws),
    ensures
        bits_kept(before, after),
{
}

/// A filter that only ever gains bits never forgets a word: once a word
/// passes it, the word passes it after any run of operations that keep bits.
pub proof fn lemma_filter_never_forgets(blooms: Seq<Seq<u128>>, w: Seq<char>)
    requires
        blooms.len() > 0,
        blooms[0].len() == BLOOM_WORDS,
        forall|k: int| 0 <= k < blooms.len() - 1 ==> bits_kept(#[trigger] blooms[k], blooms[k + 1]),
        may_contain(blooms[0], w),
    ensures
        may_contain(blooms.last(), w),
    decreases blooms.len(),
{
    if blooms.len() > 1 {
        let init = blooms.drop_last();
        assert forall|k: int| 0 <= k < init.len() - 1 implies bits_kept(#[trigger] init[k], init[k + 1]) by {
            assert(bits_kept(blooms[k], blooms[k + 1]));
        }
        lemma_filter_never_forgets(init, w);
        let n = blooms.len() - 2;
        assert(bits_kept(blooms[n], blooms[n + 1]));
        assert(init.last() == blooms[n]);
        lemma_same_length(blooms, n);
        let h = word_hash(w);
        assert forall|i: int| 0 <= i < BLOOM_HASHES implies crate::bloom::has_bit(
            blooms.last(),
            #[trigger] probe(h, i),
        ) by {
            assert(0 <= probe(h, i) < BLOOM_SIZE);
            assert(crate::bloom::has_bit(blooms[n], probe(h, i)));
        }
    }
}

proof fn lemma_same_length(blooms: Seq<Seq<u128>>, n: int)
    requires
        0 <= n < blooms.len(),
        blooms[0].len() == BLOOM_WORDS,
        forall|k: int| 0 <= k < blooms.len() - 1 ==> bits_kept(#[trigger] blooms[k], blooms[k + 1]),
    ensures
        blooms[n].len() == BLOOM_WORDS,
    decreases n,
{
    if n > 0 {
        lemma_same_length(blooms, n - 1);
        assert(bits_kept(blooms[n - 1], blooms[n]));
    }
}

/// Every block has its records in memory, at most a full block of them, and
/// an exact index of them.
pub open spec fn exact_indexes(db: Seq<BlockModel>) -> bool {
    forall|i: int|
        0 <= i < db.len() ==> {
            &&& (#[trigger] db[i]).records is Some
            &&& db[i].records->0.len() <= BLOCK_SIZE
            &&& db[i].postings == index_of(db[i].records->0)
        }
}

/// Inserts keep every index exact; an empty database starts so, hence a
/// database built by inserts alone has exact indexes.
pub proof fn lemma_inserts_keep_indexes_exact(
    before: Seq<BlockModel>,
    after: Seq<BlockModel>,
    value: Seq<char>,
)
    requires
        exact_indexes(before),
        db_inserted(before, after, value),
    ensures
        exact_indexes(after),
{
    if before.len() > 0 && crate::database::accepts_insert(before.last()) {
        let k = before.len() - 1;
        assert(before[k] == before.last());
        lemma_index_exact(before.last(), after.last(), value);
        assert forall|i: int| 0 <= i < after.len() implies {
            &&& (#[trigger] after[i]).records is Some
            &&& after[i].records->0.len() <= BLOCK_SIZE
            &&& after[i].postings == index_of(after[i].records->0)
        } by {
            if i < k {
                assert(after[i] == after.drop_last()[i]);
                assert(before[i] == before.drop_last()[i]);
            }
        }
    } else {
        lemma_empty_index();
        assert(empty_block().records->0 =~= Seq::<Seq<char>>::empty());
        lemma_index_exact(empty_block(), after.last(), value);
        assert forall|i: int| 0 <= i < after.len() implies {
            &&& (#[trigger] after[i]).records is Some
            &&& after[i].records->0.len() <= BLOCK_SIZE
            &&& after[i].postings == index_of(after[i].records->0)
        } by {
            if i < before.len() {
                assert(after[i] == after.drop_last()[i]);
            }
        }
    }
}

/// With exact indexes, a query none of whose words occurs in any record
/// returns nothing, whatever the filters let through.
pub proof fn lemma_query_never_inserted(db: Seq<BlockModel>, ws: Seq<Seq<char>>)
    requires
        exact_indexes(db),
        forall|i: int, k: int, j: int|
            0 <= i < db.len() && 0 <= k < db[i].records->0.len() && 0 <= j < ws.len()
                ==> !words_of(#[trigger] db[i].records->0[k]).contains(#[trigger] ws[j]),
    ensures
        query_hits(db, ws) == Seq::<Seq<char>>::empty(),
{
    assert forall|i: int, j: int|
        0 <= i < db.len() && 0 <= j < ws.len() implies !(#[trigger] db[i]).postings.contains_key(
        #[trigger] ws[j],
    ) by {
        let rs = db[i].records->0;
        if db[i].postings.contains_key(ws[j]) {
            assert(index_of(rs).contains_key(ws[j]));
            let k = choose|k: int| 0 <= k < rs.len() && words_of(rs[k]).contains(ws[j]);
            assert(!words_of(db[i].records->0[k]).contains(ws[j]));
        }
    }
    lemma_query_absent(db, ws);
}

} // verus!
