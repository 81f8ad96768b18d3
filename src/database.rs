//! The database: blocks in creation order, the newest one taking inserts.
use crate::block::{
    add_record, bloom_added, empty_block, model_wf, postings_or_empty, Block, BlockModel,
    BLOCK_SIZE,
};
use crate::bloom::may_contain;
use crate::block::{artifact_records, materialize_error};
use crate::bloom::{BloomFilter, BLOOM_WORDS};
use crate::codec::{
    bloom_enc, index_block_enc, lemma_join_push,
    bloom_bytes, decode_blooms, decode_index, encode_records, index_bytes, owned_entries,
    parse_blooms, parse_index, records_bytes, borrowed_entries, write_bloom, write_index_block,
    write_u64, Entry,
};
use crate::error::{InsertError, LoadError, QueryError};
use crate::frame::{lz4_frame, lz4_frame_of, lz4_unframe, lz4_unframe_of};
use crate::postings::{
    lists, postings_entries, postings_get, postings_insert, postings_new, postings_of,
    strictly_ascending,
};
use ahash::AHashMap;
use crate::text::{words, words_of};
use vstd::prelude::*;

verus! {

/// Whether a block takes the next insert: its records are in memory and it
/// is not full.
pub open spec fn accepts_insert(b: BlockModel) -> bool {
    b.records matches Some(rs) && rs.len() < BLOCK_SIZE
}

/// `after` is `before` with `value` appended as its next record.
pub open spec fn block_inserted(before: BlockModel, after: BlockModel, value: Seq<char>) -> bool {
    &&& before.records is Some
    &&& after.records == Some(before.records->0.push(value))
    &&& after.postings == add_record(
        before.postings,
        words_of(value),
        before.records->0.len() as usize,
    )
    &&& bloom_added(before.bloom, after.bloom, words_of(value))
}

/// The last block, which is the insertion target unless it is full, has its
/// records still on disk.
pub open spec fn last_cold(bs: Seq<BlockModel>) -> bool {
    bs.len() > 0 && bs.last().records is None
}

/// `after` is `before` once `value` is inserted: into the last block if it
/// takes inserts, else into a new block appended at the end.
pub open spec fn db_inserted(before: Seq<BlockModel>, after: Seq<BlockModel>, value: Seq<char>) -> bool {
    if before.len() > 0 && accepts_insert(before.last()) {
        &&& after.len() == before.len()
        &&& after.drop_last() == before.drop_last()
        &&& block_inserted(before.last(), after.last(), value)
    } else {
        &&& after.len() == before.len() + 1
        &&& after.drop_last() == before
        &&& block_inserted(empty_block(), after.last(), value)
    }
}

/// Whether a block's filter may hold every query word.
pub open spec fn passes(b: BlockModel, ws: Seq<Seq<char>>) -> bool {
    forall|j: int| 0 <= j < ws.len() ==> may_contain(b.bloom, #[trigger] ws[j])
}

/// The records that the index lists for `w`, in the order listed.
pub open spec fn word_hits(rs: Seq<Seq<char>>, m: Map<Seq<char>, Seq<usize>>, w: Seq<char>) -> Seq<
    Seq<char>,
> {
    postings_or_empty(m, w).map_values(|k: usize| rs[k as int])
}

/// The hits of each query word in turn.
pub open spec fn block_hits(rs: Seq<Seq<char>>, m: Map<Seq<char>, Seq<usize>>, ws: Seq<Seq<char>>) -> Seq<
    Seq<char>,
>
    decreases ws.len(),
{
    if ws.len() == 0 {
        seq![]
    } else {
        block_hits(rs, m, ws.drop_last()) + word_hits(rs, m, ws.last())
    }
}

/// The hits of the blocks from the newest down to block `i`, skipping those
/// that the filter rules out.
pub open spec fn hits_from(bs: Seq<BlockModel>, ws: Seq<Seq<char>>, i: int) -> Seq<Seq<char>>
    decreases bs.len() - i,
{
    if i < 0 || i >= bs.len() {
        seq![]
    } else {
        hits_from(bs, ws, i + 1) + if passes(bs[i], ws) {
            block_hits(bs[i].records.unwrap_or(Seq::empty()), bs[i].postings, ws)
        } else {
            seq![]
        }
    }
}

/// The answer to a query with words `ws`: the hits of every block that
/// passes the filter, newest block first.
pub open spec fn query_hits(bs: Seq<BlockModel>, ws: Seq<Seq<char>>) -> Seq<Seq<char>> {
    hits_from(bs, ws, 0)
}

/// Block `i` passes the filter for `ws`, but its records are not in memory.
pub open spec fn waits_on(bs: Seq<BlockModel>, ws: Seq<Seq<char>>, i: int) -> bool {
    0 <= i < bs.len() && passes(bs[i], ws) && bs[i].records is None
}

/// What a list of borrowed records holds.
pub open spec fn texts(v: Seq<&String>) -> Seq<Seq<char>> {
    v.map_values(|s: &String| s@)
}

/// A block's entries name each word once, each with strictly ascending ordinals.
pub open spec fn entries_valid(es: Seq<Entry>) -> bool {
    &&& forall|i: int, j: int| 0 <= i < j < es.len() ==> (#[trigger] es[i]).0 != (#[trigger] es[j]).0
    &&& forall|i: int| 0 <= i < es.len() ==> strictly_ascending((#[trigger] es[i]).1)
}

/// Why loading from a bloom artifact and a (framed) index artifact fails, if it does.
pub open spec fn load_error(bloom: Seq<u8>, index: Seq<u8>) -> Option<LoadError> {
    match parse_blooms(bloom) {
        None => Some(LoadError::Layout),
        Some(bs) => match lz4_unframe_of(index) {
            None => Some(LoadError::Frame),
            Some(plain) => match parse_index(plain) {
                None => Some(LoadError::Layout),
                Some(es) => if es.len() > bs.len() {
                    Some(LoadError::UnknownBlock)
                } else if exists|i: int| 0 <= i < es.len() && !entries_valid(#[trigger] es[i]) {
                    Some(LoadError::BadIndex)
                } else {
                    None
                },
            },
        },
    }
}

/// The entries that block `i` has in an index listing (none past its end).
pub open spec fn entries_at(es: Seq<Seq<Entry>>, i: int) -> Seq<Entry> {
    if i < es.len() {
        es[i]
    } else {
        seq![]
    }
}

/// `db` is what loading the two artifacts gives: one cold block per stored
/// filter, with that filter and the index stored at its position.
pub open spec fn loaded_from(db: Seq<BlockModel>, bloom: Seq<u8>, index: Seq<u8>) -> bool {
    let bs = parse_blooms(bloom)->0;
    let es = parse_index(lz4_unframe_of(index)->0)->0;
    &&& db.len() == bs.len()
    &&& forall|i: int|
        0 <= i < db.len() ==> {
            &&& (#[trigger] db[i]).records is None
            &&& db[i].bloom == bs[i]
            &&& lists(entries_at(es, i), db[i].postings)
        }
}

/// `ls` lists, block by block, every word of each block's index once.
pub open spec fn index_listing(db: Seq<BlockModel>, ls: Seq<Seq<Entry>>) -> bool {
    &&& ls.len() == db.len()
    &&& forall|i: int|
        0 <= i < db.len() ==> lists(#[trigger] ls[i], db[i].postings) && ls[i].len() <= usize::MAX
}

/// The artifacts that saving `db` gives: the bloom artifact; the framed index
/// artifact, its words in some order; and, for each block in memory, its
/// framed records artifact. A block whose records are still on disk gets
/// none: its records are not in memory to write. To write every block's
/// records again, bring each block into memory (`materialize`) first; a block
/// that was never brought in has not changed since it was loaded, so its
/// artifact on disk already holds its records.
pub open spec fn saved(
    db: Seq<BlockModel>,
    bloom: Seq<u8>,
    index: Seq<u8>,
    records: Seq<Option<Seq<u8>>>,
) -> bool {
    &&& bloom == bloom_bytes(db.map_values(|b: BlockModel| b.bloom))
    &&& exists|ls: Seq<Seq<Entry>>|
        {
            &&& #[trigger] index_listing(db, ls)
            &&& index == lz4_frame_of(index_bytes(ls))
            &&& lz4_unframe_of(index) == Some(index_bytes(ls))
        }
    &&& records.len() == db.len()
    &&& forall|i: int|
        0 <= i < db.len() ==> match (#[trigger] db[i]).records {
            Some(rs) => {
                &&& records[i] == Some(lz4_frame_of(records_bytes(rs)))
                &&& lz4_unframe_of(records[i]->0) == Some(records_bytes(rs))
            },
            None => records[i] is None,
        }
}

/// The three kinds of artifact that a database is saved as.
pub struct Artifacts {
    /// The bloom artifact.
    pub bloom: Vec<u8>,
    /// The index artifact, framed.
    pub index: Vec<u8>,
    /// Each block's records artifact, framed, by block number; none for a
    /// block whose records were never brought into memory.
    pub records: Vec<Option<Vec<u8>>>,
}

impl Artifacts {
    /// The per-block records artifacts, as byte sequences.
    pub open spec fn records_view(&self) -> Seq<Option<Seq<u8>>> {
        self.records@.map_values(|r: Option<Vec<u8>>| match r {
            Some(v) => Some(v@),
            None => None,
        })
    }
}

fn ascending(v: &Vec<usize>) -> (r: bool)
    ensures
        r == strictly_ascending(v@),
{
    let mut j: usize = 1;
    while j < v.len()
        invariant
            1 <= j,
            forall|a: int, b: int| 0 <= a < b < j && b < v.len() ==> v@[a] < v@[b],
        decreases v.len() - j,
    {
        if v[j - 1] >= v[j] {
            return false;
        }
        j = j + 1;
    }
    true
}

fn build_postings(entries: Vec<(String, Vec<usize>)>) -> (r: Option<AHashMap<String, Vec<usize>>>)
    ensures
        match r {
            Some(m) => entries_valid(owned_entries(entries@)) && lists(owned_entries(entries@), postings_of(m)),
            None => !entries_valid(owned_entries(entries@)),
        },
{
    let ghost all = owned_entries(entries@);
    let mut es = entries;
    let mut m = postings_new();
    assert(all.skip(es.len() as int) =~= Seq::<Entry>::empty());
    assert(all.take(es.len() as int) =~= all);
    while es.len() > 0
        invariant
            all == owned_entries(entries@),
            es.len() <= all.len(),
            owned_entries(es@) == all.take(es.len() as int),
            entries_valid(all.skip(es.len() as int)),
            lists(all.skip(es.len() as int), postings_of(m)),
        decreases es.len(),
    {
        let ghost prev = es@;
        let ghost k = es.len() - 1;
        let ghost m0 = postings_of(m);
        let ghost done = all.skip(k + 1);
        let ghost now = all.skip(k);
        let (w, os) = es.pop().unwrap();
        proof {
            assert(owned_entries(prev)[k] == (w@, os@));
            assert(all.take(k + 1)[k] == all[k]);
            assert(owned_entries(es@) =~= all.take(k));
            assert(now =~= seq![all[k]] + done);
        }
        if !ascending(&os) {
            assert(!entries_valid(all)) by {
                assert(!strictly_ascending(all[k].1));
            }
            return None;
        }
        match postings_get(&m, w.as_str()) {
            Some(_) => {
                assert(!entries_valid(all)) by {
                    let i = choose|i: int| 0 <= i < done.len() && done[i].0 == w@;
                    assert(done[i] == all[k + 1 + i]);
                    assert(all[k].0 == all[k + 1 + i].0);
                }
                return None;
            },
            None => {},
        }
        postings_insert(&mut m, w, os);
        proof {
            let m1 = postings_of(m);
            assert forall|i: int| 0 <= i < done.len() implies done[i].0 != all[k].0 by {
                assert(m0.contains_key(done[i].0));
            }
            assert forall|i: int, j: int| 0 <= i < j < now.len() implies (#[trigger] now[i]).0 != (
            #[trigger] now[j]).0 by {
                if i == 0 {
                    assert(now[j] == done[j - 1]);
                } else {
                    assert(now[i] == done[i - 1]);
                    assert(now[j] == done[j - 1]);
                }
            }
            assert forall|i: int| 0 <= i < now.len() implies strictly_ascending(
                (#[trigger] now[i]).1,
            ) by {
                if i > 0 {
                    assert(now[i] == done[i - 1]);
                }
            }
            assert forall|i: int| 0 <= i < now.len() implies #[trigger] m1.contains_key(now[i].0)
                && m1[now[i].0] == now[i].1 by {
                if i > 0 {
                    assert(now[i] == done[i - 1]);
                    assert(m0.contains_key(done[i - 1].0));
                }
            }
            assert forall|x: Seq<char>| #[trigger] m1.contains_key(x) implies exists|i: int|
                0 <= i < now.len() && now[i].0 == x by {
                if x == w@ {
                    assert(now[0].0 == x);
                } else {
                    assert(m0.contains_key(x));
                    let i = choose|i: int| 0 <= i < done.len() && done[i].0 == x;
                    assert(now[i + 1] == done[i]);
                }
            }
        }
    }
    assert(all.skip(0) =~= all);
    Some(m)
}

/// The blocks of a database, oldest first.
pub struct Database {
    blocks: Vec<Block>,
}

impl View for Database {
    type V = Seq<BlockModel>;

    closed spec fn view(&self) -> Seq<BlockModel> {
        self.blocks@.map_values(|b: Block| b@)
    }
}

impl Default for Database {
    fn default() -> (r: Database)
        ensures
            r.wf(),
            r@ == Seq::<BlockModel>::empty(),
    {
        Database::new()
    }
}

fn block_passes(block: &Block, ws: &Vec<String>) -> (r: bool)
    requires
        block.wf(),
    ensures
        r == passes(block@, ws@.map_values(|s: String| s@)),
{
    let ghost wv = ws@.map_values(|s: String| s@);
    let mut j: usize = 0;
    while j < ws.len()
        invariant
            block.wf(),
            wv == ws@.map_values(|s: String| s@),
            j <= ws.len(),
            forall|k: int| 0 <= k < j ==> may_contain(block@.bloom, #[trigger] wv[k]),
        decreases ws.len() - j,
    {
        if !block.bloom_contains(ws[j].as_str()) {
            assert(!may_contain(block@.bloom, wv[j as int]));
            return false;
        }
        j = j + 1;
    }
    true
}

fn push_block_hits<'a>(out: &mut Vec<&'a String>, block: &'a Block, ws: &Vec<String>)
    requires
        block.wf(),
        block@.records is Some,
    ensures
        texts(final(out)@) == texts(old(out)@) + block_hits(
            block@.records->0,
            block@.postings,
            ws@.map_values(|s: String| s@),
        ),
{
    let ghost wv = ws@.map_values(|s: String| s@);
    let ghost rs = block@.records->0;
    let ghost m = block@.postings;
    let ghost start = texts(out@);
    let recs = match block.records() {
        Some(v) => v,
        None => return,
    };
    let mut j: usize = 0;
    assert(wv.take(0) =~= Seq::<Seq<char>>::empty());
    while j < ws.len()
        invariant
            block.wf(),
            block@.records == Some(rs),
            rs == recs@.map_values(|s: String| s@),
            m == block@.postings,
            wv == ws@.map_values(|s: String| s@),
            j <= ws.len(),
            texts(out@) == start + block_hits(rs, m, wv.take(j as int)),
        decreases ws.len() - j,
    {
        let ghost before = texts(out@);
        match postings_get(block.postings(), ws[j].as_str()) {
            Some(list) => {
                let mut k: usize = 0;
                while k < list.len()
                    invariant
                        block.wf(),
                        block@.records == Some(rs),
                        rs == recs@.map_values(|s: String| s@),
                        m == block@.postings,
                        m.contains_key(wv[j as int]),
                        m[wv[j as int]] == list@,
                        j < ws.len(),
                        wv == ws@.map_values(|s: String| s@),
                        k <= list.len(),
                        texts(out@) == before + word_hits(rs, m, wv[j as int]).take(k as int),
                    decreases list.len() - k,
                {
                    let idx = list[k];
                    assert(idx < rs.len());
                    let ghost prev = out@;
                    out.push(&recs[idx]);
                    proof {
                        assert(texts(out@) =~= texts(prev).push(rs[idx as int]));
                        assert(word_hits(rs, m, wv[j as int]).take(k + 1) =~= word_hits(
                            rs,
                            m,
                            wv[j as int],
                        ).take(k as int).push(rs[idx as int]));
                    }
                    k = k + 1;
                }
                assert(word_hits(rs, m, wv[j as int]).take(list.len() as int) =~= word_hits(
                    rs,
                    m,
                    wv[j as int],
                ));
            },
            None => {
                assert(word_hits(rs, m, wv[j as int]) =~= Seq::<Seq<char>>::empty());
            },
        }
        proof {
            assert(wv.take(j + 1).drop_last() =~= wv.take(j as int));
            assert(block_hits(rs, m, wv.take(j + 1)) == block_hits(rs, m, wv.take(j as int))
                + word_hits(rs, m, wv[j as int]));
        }
        j = j + 1;
    }
    assert(wv.take(ws.len() as int) =~= wv);
}

impl Database {
    /// Every block is well formed.
    pub open spec fn wf(&self) -> bool {
        forall|i: int| 0 <= i < self@.len() ==> model_wf(#[trigger] self@[i])
    }

    /// An empty database.
    pub fn new() -> (r: Database)
        ensures
            r.wf(),
            r@ == Seq::<BlockModel>::empty(),
    {
        let r = Database { blocks: Vec::new() };
        assert(r@ =~= Seq::<BlockModel>::empty());
        r
    }

    /// The number of blocks.
    pub fn block_count(&self) -> (r: usize)
        ensures
            r == self@.len(),
    {
        self.blocks.len()
    }

    /// The block with number `i`.
    pub fn block(&self, i: usize) -> (r: &Block)
        requires
            i < self@.len(),
        ensures
            r@ == self@[i as int],
    {
        &self.blocks[i]
    }

    /// Appends a record: to the last block while it is not full, else to a new
    /// block. Fails, changing nothing, when the last block's records are still
    /// on disk: once they are loaded, the insert goes to that block.
    pub fn insert(&mut self, value: String) -> (r: Result<(), InsertError>)
        requires
            old(self).wf(),
        ensures
            final(self).wf(),
            match r {
                Ok(()) => !last_cold(old(self)@) && db_inserted(old(self)@, final(self)@, value@),
                Err(InsertError::NotResident(i)) => last_cold(old(self)@) && i == old(self)@.len() - 1
                    && final(self)@ == old(self)@,
            },
    {
        let n = self.blocks.len();
        if n > 0 && !self.blocks[n - 1].is_resident() {
            assert(self.blocks@[n - 1]@ == self@[n - 1]);
            return Err(InsertError::NotResident(n - 1));
        }
        if n > 0 && self.blocks[n - 1].len() < BLOCK_SIZE {
            assert(self.blocks@[n - 1]@ == self@[n - 1]);
            let mut last = self.blocks.pop().unwrap();
            last.insert(value);
            self.blocks.push(last);
            proof {
                assert(self@.drop_last() =~= old(self)@.drop_last());
                assert(self@ =~= old(self)@.drop_last().push(last@));
            }
        } else {
            let mut block = Block::new();
            block.insert(value);
            self.blocks.push(block);
            proof {
                assert(self@.drop_last() =~= old(self)@);
                assert(self@ =~= old(self)@.push(block@));
            }
        }
        Ok(())
    }

    /// The records that hold each query word, block by block from the newest,
    /// skipping blocks whose filter rules a word out; within a block, word by
    /// word in query order, each word's records in ascending ordinal order.
    /// A record is listed once for each query word it holds. Fails, naming the
    /// newest such block, when a block that passes the filter is not in memory.
    pub fn get(&self, value: &str) -> (r: Result<Vec<&String>, QueryError>)
        requires
            self.wf(),
        ensures
            r matches Ok(v) ==> (forall|i: int| !waits_on(self@, words_of(value@), i)) && texts(v@)
                == query_hits(self@, words_of(value@)),
            r matches Err(QueryError::NotResident(i)) ==> waits_on(self@, words_of(value@), i as int),
            r matches Err(QueryError::NotResident(i)) ==> forall|j: int| i < j ==> !waits_on(self@, words_of(value@), j),
    {
        let ws = words(value);
        let ghost wv = words_of(value@);
        assert(ws@.map_values(|s: String| s@) =~= wv);
        let mut out: Vec<&String> = Vec::new();
        let mut i = self.blocks.len();
        while i > 0
            invariant
                self.wf(),
                i <= self@.len(),
                wv == words_of(value@),
                wv == ws@.map_values(|s: String| s@),
                texts(out@) == hits_from(self@, wv, i as int),
                forall|j: int| i <= j ==> !waits_on(self@, wv, j),
            decreases i,
        {
            let block = &self.blocks[i - 1];
            assert(block@ == self@[i - 1]);
            if block_passes(block, &ws) {
                if !block.is_resident() {
                    return Err(QueryError::NotResident(i - 1));
                }
                push_block_hits(&mut out, block, &ws);
            }
            i = i - 1;
        }
        assert(texts(out@) == hits_from(self@, wv, 0));
        Ok(out)
    }

    /// Brings the records of block `index` into memory from its records
    /// artifact; see `Block::load`. Nothing changes on failure.
    pub fn materialize(&mut self, index: usize, artifact: &[u8]) -> (r: Result<(), LoadError>)
        requires
            old(self).wf(),
        ensures
            final(self).wf(),
            match r {
                Ok(()) => index < old(self)@.len() && materialize_error(old(self)@[index as int], artifact@)
                    is None && final(self)@ == old(self)@.update(
                    index as int,
                    BlockModel {
                        records: if old(self)@[index as int].records is Some {
                            old(self)@[index as int].records
                        } else {
                            Some(artifact_records(artifact@))
                        },
                        ..old(self)@[index as int]
                    },
                ),
                Err(e) => final(self)@ == old(self)@ && if index < old(self)@.len() {
                    materialize_error(old(self)@[index as int], artifact@) == Some(e)
                } else {
                    e == LoadError::NoSuchBlock
                },
            },
    {
        if index >= self.blocks.len() {
            return Err(LoadError::NoSuchBlock);
        }
        let mut block = self.blocks.remove(index);
        assert(block@ == old(self)@[index as int]);
        let r = block.load(artifact);
        self.blocks.insert(index, block);
        proof {
            assert forall|i: int| 0 <= i < self@.len() implies model_wf(#[trigger] self@[i]) by {
                if i != index {
                    assert(self@[i] == old(self)@[i]);
                }
            }
            match r {
                Ok(()) => {
                    assert(self@ =~= old(self)@.update(
                        index as int,
                        BlockModel {
                            records: if old(self)@[index as int].records is Some {
                                old(self)@[index as int].records
                            } else {
                                Some(artifact_records(artifact@))
                            },
                            ..old(self)@[index as int]
                        },
                    ));
                },
                Err(_) => {
                    assert(self@ =~= old(self)@);
                },
            }
        }
        r
    }

    /// Replaces the blocks with those that a bloom artifact and a framed index
    /// artifact describe: one block per stored filter, with its index, its
    /// records left on disk. Nothing changes on failure.
    pub fn load(&mut self, bloom: &[u8], index: &[u8]) -> (r: Result<(), LoadError>)
        requires
            old(self).wf(),
        ensures
            final(self).wf(),
            match r {
                Ok(()) => load_error(bloom@, index@) is None && loaded_from(final(self)@, bloom@, index@),
                Err(e) => load_error(bloom@, index@) == Some(e) && final(self)@ == old(self)@,
            },
    {
        let blooms = match decode_blooms(bloom) {
            Some(b) => b,
            None => return Err(LoadError::Layout),
        };
        let plain = match lz4_unframe(index) {
            Some(p) => p,
            None => return Err(LoadError::Frame),
        };
        let entries = match decode_index(plain.as_slice()) {
            Some(e) => e,
            None => return Err(LoadError::Layout),
        };
        let ghost bs = blooms@.map_values(|ws: Vec<u128>| ws@);
        let ghost es = entries@.map_values(|es: Vec<(String, Vec<usize>)>| owned_entries(es@));
        assert(parse_blooms(bloom@) == Some(bs));
        assert(parse_index(lz4_unframe_of(index@)->0) == Some(es));
        if entries.len() > blooms.len() {
            return Err(LoadError::UnknownBlock);
        }
        let n = blooms.len();
        let mut blooms = blooms;
        let mut entries = entries;
        let mut blocks: Vec<Block> = Vec::new();
        let mut i: usize = 0;
        while i < n
            invariant
                self.wf(),
                self@ == old(self)@,
                lz4_unframe_of(index@) == Some(plain@),
                n == bs.len(),
                es.len() <= bs.len(),
                i <= n,
                blooms@.map_values(|ws: Vec<u128>| ws@) == bs.skip(i as int),
                entries@.map_values(|es: Vec<(String, Vec<usize>)>| owned_entries(es@)) == if i
                    <= es.len() {
                    es.skip(i as int)
                } else {
                    seq![]
                },
                parse_blooms(bloom@) == Some(bs),
                parse_index(lz4_unframe_of(index@)->0) == Some(es),
                blocks.len() == i,
                forall|k: int| 0 <= k < i ==> entries_valid(#[trigger] entries_at(es, k)),
                forall|k: int|
                    0 <= k < i ==> {
                        &&& model_wf(#[trigger] blocks@[k]@)
                        &&& blocks@[k]@.records is None
                        &&& blocks@[k]@.bloom == bs[k]
                        &&& lists(entries_at(es, k), blocks@[k]@.postings)
                    },
                bs.len() == blooms@.len() + i,
                forall|j: int| 0 <= j < blooms.len() ==> (#[trigger] blooms@[j]).len() == BLOOM_WORDS,
            decreases n - i,
        {
            let ghost bprev = blooms@;
            let ghost eprev = entries@;
            let words = blooms.remove(0);
            assert(words@ == bs[i as int]) by {
                assert(bprev.map_values(|ws: Vec<u128>| ws@)[0] == bs.skip(i as int)[0]);
            }
            assert forall|j: int| 0 <= j < blooms@.len() implies #[trigger] blooms@[j]@ == bs.skip(
                i + 1,
            )[j] by {
                assert(blooms@[j] == bprev[j + 1]);
                assert(bprev.map_values(|ws: Vec<u128>| ws@)[j + 1] == bs.skip(i as int)[j + 1]);
            }
            assert(blooms@.map_values(|ws: Vec<u128>| ws@) =~= bs.skip(i + 1));
            let list = if entries.len() > 0 {
                assert(i < es.len()) by {
                    if i >= es.len() {
                        assert(eprev.map_values(|es: Vec<(String, Vec<usize>)>| owned_entries(es@)).len() == 0);
                    }
                }
                let e = entries.remove(0);
                assert forall|j: int| 0 <= j < entries@.len() implies owned_entries(#[trigger] entries@[j]@)
                    == es.skip(i + 1)[j] by {
                    assert(entries@[j] == eprev[j + 1]);
                    assert(eprev.map_values(|es: Vec<(String, Vec<usize>)>| owned_entries(es@))[j + 1]
                        == es.skip(i as int)[j + 1]);
                }
                assert(owned_entries(e@) == entries_at(es, i as int)) by {
                    assert(eprev.map_values(|es: Vec<(String, Vec<usize>)>| owned_entries(es@))[0]
                        == es.skip(i as int)[0]);
                }
                assert(entries@.map_values(|es: Vec<(String, Vec<usize>)>| owned_entries(es@))
                    =~= es.skip(i + 1));
                e
            } else {
                assert(i >= es.len()) by {
                    if i < es.len() {
                        assert(es.skip(i as int).len() > 0);
                        assert(eprev.map_values(|es: Vec<(String, Vec<usize>)>| owned_entries(es@)).len() == 0);
                    }
                }
                let e: Vec<(String, Vec<usize>)> = Vec::new();
                assert(owned_entries(e@) =~= entries_at(es, i as int));
                e
            };
            assert(owned_entries(list@) == entries_at(es, i as int));
            let postings = match build_postings(list) {
                Some(m) => m,
                None => {
                    assert(i < es.len() && !entries_valid(es[i as int])) by {
                        if i >= es.len() {
                            assert(entries_valid(entries_at(es, i as int)));
                        }
                    }
                    return Err(LoadError::BadIndex);
                },
            };
            let filter = BloomFilter::from_words(words);
            proof {
                assert forall|w: Seq<char>| #[trigger] postings_of(postings).contains_key(w) implies strictly_ascending(postings_of(postings)[w]) by {
                    let k = choose|k: int| 0 <= k < entries_at(es, i as int).len() && entries_at(es, i as int)[k].0 == w;
                    assert(strictly_ascending(entries_at(es, i as int)[k].1));
                }
            }
            let block = Block::cold(filter, postings);
            blocks.push(block);
            i = i + 1;
        }
        proof {
            assert(!(exists|k: int| 0 <= k < es.len() && !entries_valid(#[trigger] es[k]))) by {
                assert forall|k: int| 0 <= k < es.len() implies entries_valid(#[trigger] es[k]) by {
                    assert(entries_valid(entries_at(es, k)));
                }
            }
        }
        self.blocks = blocks;
        proof {
            assert forall|k: int| 0 <= k < self@.len() implies model_wf(#[trigger] self@[k]) by {
                assert(self@[k] == blocks@[k]@);
            }
            assert forall|k: int| 0 <= k < self@.len() implies {
                &&& (#[trigger] self@[k]).records is None
                &&& self@[k].bloom == bs[k]
                &&& lists(entries_at(es, k), self@[k].postings)
            } by {
                assert(self@[k] == blocks@[k]@);
            }
        }
        Ok(())
    }

    /// The bloom artifact: the number of blocks, then each block's filter.
    pub fn save_bloom(&self) -> (r: Vec<u8>)
        ensures
            r@ == bloom_bytes(self@.map_values(|b: BlockModel| b.bloom)),
    {
        let ghost bs = self@.map_values(|b: BlockModel| b.bloom);
        let mut out: Vec<u8> = Vec::new();
        write_u64(&mut out, self.blocks.len() as u64);
        let mut i: usize = 0;
        assert(bs.take(0).map_values(bloom_enc()) =~= Seq::<Seq<u8>>::empty());
        while i < self.blocks.len()
            invariant
                i <= self@.len(),
                bs == self@.map_values(|b: BlockModel| b.bloom),
                out@ == crate::codec::u64_bytes(self@.len()) + crate::codec::join(bs.take(i as int).map_values(bloom_enc())),
            decreases self@.len() - i,
        {
            let block = &self.blocks[i];
            assert(block@ == self@[i as int]);
            write_bloom(&mut out, block.bloom().words());
            proof {
                assert(bs.take(i + 1).map_values(bloom_enc()) =~= bs.take(i as int).map_values(
                    bloom_enc(),
                ).push(crate::codec::bloom_words_bytes(bs[i as int])));
                lemma_join_push(bs.take(i as int).map_values(bloom_enc()), crate::codec::bloom_words_bytes(bs[i as int]));
            }
            i = i + 1;
        }
        assert(bs.take(self@.len() as int) =~= bs);
        out
    }

    /// The framed index artifact: the number of blocks, then each block's
    /// words with their ordinals, in the order the index map gives them.
    pub fn save_indexes(&self) -> (r: Vec<u8>)
        ensures
            exists|ls: Seq<Seq<Entry>>|
                {
                    &&& #[trigger] index_listing(self@, ls)
                    &&& r@ == lz4_frame_of(index_bytes(ls))
                    &&& lz4_unframe_of(r@) == Some(index_bytes(ls))
                },
    {
        let mut out: Vec<u8> = Vec::new();
        write_u64(&mut out, self.blocks.len() as u64);
        let ghost mut ls: Seq<Seq<Entry>> = seq![];
        let mut i: usize = 0;
        while i < self.blocks.len()
            invariant
                i <= self@.len(),
                ls.len() == i,
                forall|k: int| 0 <= k < i ==> lists(#[trigger] ls[k], self@[k].postings) && ls[k].len() <= usize::MAX,
                out@ == crate::codec::u64_bytes(self@.len()) + crate::codec::join(ls.map_values(index_block_enc())),
            decreases self@.len() - i,
        {
            let block = &self.blocks[i];
            assert(block@ == self@[i as int]);
            let entries = postings_entries(block.postings());
            write_index_block(&mut out, &entries);
            proof {
                let e = borrowed_entries(entries@);
                assert(e =~= entries@.map_values(|e: (&String, &Vec<usize>)| (e.0@, e.1@)));
                assert(e.len() == entries.len());
                assert(ls.push(e).map_values(index_block_enc()) =~= ls.map_values(index_block_enc()).push(
                    crate::codec::index_block_bytes(e),
                ));
                lemma_join_push(ls.map_values(index_block_enc()), crate::codec::index_block_bytes(e));
                ls = ls.push(e);
            }
            i = i + 1;
        }
        let framed = lz4_frame(out.as_slice());
        assert(index_listing(self@, ls));
        framed
    }

    /// Saves the database as artifacts, from what is in memory: the bloom
    /// artifact, the framed index artifact, and the framed records artifact of
    /// each block whose records are in memory (none for a block whose records
    /// are still on disk; see `saved`).
    pub fn save(&self) -> (r: Artifacts)
        ensures
            saved(self@, r.bloom@, r.index@, r.records_view()),
    {
        let bloom = self.save_bloom();
        let index = self.save_indexes();
        let mut records: Vec<Option<Vec<u8>>> = Vec::new();
        let mut i: usize = 0;
        while i < self.blocks.len()
            invariant
                i <= self@.len(),
                records.len() == i,
                forall|k: int|
                    0 <= k < i ==> match (#[trigger] self@[k]).records {
                        Some(rs) => {
                            &&& records@[k] matches Some(v) && v@ == lz4_frame_of(records_bytes(rs))
                            &&& lz4_unframe_of(records@[k]->0@) == Some(records_bytes(rs))
                        },
                        None => records@[k] is None,
                    },
            decreases self@.len() - i,
        {
            let block = &self.blocks[i];
            assert(block@ == self@[i as int]);
            match block.records() {
                Some(v) => {
                    let plain = encode_records(v);
                    records.push(Some(lz4_frame(plain.as_slice())));
                },
                None => {
                    records.push(None);
                },
            }
            i = i + 1;
        }
        let r = Artifacts { bloom, index, records };
        proof {
            assert forall|k: int| 0 <= k < self@.len() implies match (#[trigger] self@[k]).records {
                Some(rs) => {
                    &&& r.records_view()[k] == Some(lz4_frame_of(records_bytes(rs)))
                    &&& lz4_unframe_of(r.records_view()[k]->0) == Some(records_bytes(rs))
                },
                None => r.records_view()[k] is None,
            } by {}
        }
        r
    }
}

} // verus!
