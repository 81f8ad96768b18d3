//! A block: a bounded run of records with its bloom filter and word index.
use crate::bloom::{is_probe, word_hash, BloomFilter, BLOOM_WORDS};
use crate::postings::{
    insert_ordinal, no_postings, postings_insert, postings_new, postings_of,
    postings_remove, strictly_ascending,
};
use crate::codec::{decode_records, parse_records};
use crate::error::LoadError;
use crate::frame::{lz4_unframe, lz4_unframe_of};
use crate::postings::{lists, postings_entries};
use crate::text::{words, words_of};
use ahash::AHashMap;
use vstd::prelude::*;

verus! {

/// Number of records a block holds when full.
pub const BLOCK_SIZE: usize = 8_192;

/// The record bodies of a block: in memory, or still only on disk.
pub enum Records {
    /// Not read yet: the bodies are in the block's records artifact.
    Cold,
    /// In memory; a record's ordinal is its position.
    Resident(Vec<String>),
}

impl View for Records {
    type V = Option<Seq<Seq<char>>>;

    open spec fn view(&self) -> Option<Seq<Seq<char>>> {
        match self {
            Records::Cold => None,
            Records::Resident(v) => Some(v@.map_values(|s: String| s@)),
        }
    }
}

/// What a block holds, as mathematical values.
pub struct BlockModel {
    /// The record bodies, if they are in memory.
    pub records: Option<Seq<Seq<char>>>,
    /// For each word, the ordinals of the records that hold it.
    pub postings: Map<Seq<char>, Seq<usize>>,
    /// The filter's packed bits.
    pub bloom: Seq<u128>,
}

/// The ordinals stored for `w`, or none.
pub open spec fn postings_or_empty(m: Map<Seq<char>, Seq<usize>>, w: Seq<char>) -> Seq<usize> {
    if m.contains_key(w) {
        m[w]
    } else {
        seq![]
    }
}

/// The index after a record with words `ws` is added as ordinal `n`: each of
/// its words gets `n` at the end of its list, once.
pub open spec fn add_record(m: Map<Seq<char>, Seq<usize>>, ws: Seq<Seq<char>>, n: usize) -> Map<
    Seq<char>,
    Seq<usize>,
> {
    Map::new(
        |w: Seq<char>| m.contains_key(w) || ws.contains(w),
        |w: Seq<char>|
            if ws.contains(w) {
                postings_or_empty(m, w).push(n)
            } else {
                m[w]
            },
    )
}

/// The filter bits after the words `ws` are added: each bit stays set, and
/// each probe of each word becomes set.
pub open spec fn bloom_added(old_bits: Seq<u128>, new_bits: Seq<u128>, ws: Seq<Seq<char>>) -> bool {
    &&& new_bits.len() == old_bits.len()
    &&& forall|p: int|
        0 <= p < old_bits.len() * 128 ==> #[trigger] crate::bloom::has_bit(new_bits, p) == (
        crate::bloom::has_bit(old_bits, p) || exists|k: int|
            0 <= k < ws.len() && is_probe(word_hash(ws[k]), p))
}

/// Every word's ordinals ascend strictly and, when the bodies are in memory,
/// each names one of them.
pub open spec fn postings_valid(m: Map<Seq<char>, Seq<usize>>, records: Option<Seq<Seq<char>>>) -> bool {
    &&& forall|w: Seq<char>| #[trigger] m.contains_key(w) ==> strictly_ascending(m[w])
    &&& records matches Some(rs) ==> forall|w: Seq<char>, j: int|
        #[trigger] m.contains_key(w) && 0 <= j < m[w].len() ==> #[trigger] m[w][j] < rs.len()
}

/// Every ordinal in the index is below `n`.
pub open spec fn ordinals_below(m: Map<Seq<char>, Seq<usize>>, n: nat) -> bool {
    forall|w: Seq<char>, j: int| #[trigger] m.contains_key(w) && 0 <= j < m[w].len() ==> #[trigger] m[w][j] < n
}

/// Why bringing a block's records into memory from `artifact` fails, if it does.
pub open spec fn materialize_error(b: BlockModel, artifact: Seq<u8>) -> Option<LoadError> {
    if b.records is Some {
        None
    } else {
        match lz4_unframe_of(artifact) {
            None => Some(LoadError::Frame),
            Some(plain) => match parse_records(plain) {
                None => Some(LoadError::Layout),
                Some(rs) => if ordinals_below(b.postings, rs.len()) {
                    None
                } else {
                    Some(LoadError::MissingRecord)
                },
            },
        }
    }
}

/// The records that `artifact` holds, once it is read.
pub open spec fn artifact_records(artifact: Seq<u8>) -> Seq<Seq<char>> {
    parse_records(lz4_unframe_of(artifact)->0)->0
}

/// A block that holds no record and no word.
pub open spec fn empty_block() -> BlockModel {
    BlockModel {
        records: Some(Seq::empty()),
        postings: no_postings(),
        bloom: Seq::new(BLOOM_WORDS as nat, |i: int| 0u128),
    }
}

/// A block's filter is whole and its index valid for its records.
pub open spec fn model_wf(b: BlockModel) -> bool {
    &&& b.bloom.len() == BLOOM_WORDS
    &&& postings_valid(b.postings, b.records)
}

/// A block: its records, its word index and its bloom filter.
pub struct Block {
    records: Records,
    postings: AHashMap<String, Vec<usize>>,
    bloom: BloomFilter,
}

impl View for Block {
    type V = BlockModel;

    closed spec fn view(&self) -> BlockModel {
        BlockModel { records: self.records@, postings: postings_of(self.postings), bloom: self.bloom@ }
    }
}

impl Block {
    /// The filter is whole and the index is valid for the records.
    pub open spec fn wf(&self) -> bool {
        model_wf(self@)
    }

    closed spec fn inner_wf(&self) -> bool {
        &&& self.bloom.wf()
        &&& self.wf()
    }

    proof fn lemma_wf(&self)
        requires
            self.wf(),
        ensures
            self.inner_wf(),
    {
    }

    /// A new block: no records, in memory, an empty index and filter.
    pub fn new() -> (r: Block)
        ensures
            r.wf(),
            r@ == empty_block(),
    {
        let r = Block {
            records: Records::Resident(Vec::with_capacity(BLOCK_SIZE)),
            postings: postings_new(),
            bloom: BloomFilter::new(),
        };
        assert(r@.records == Some(Seq::<Seq<char>>::empty()));
        assert(r@.bloom =~= empty_block().bloom);
        r
    }

    /// A block read back from disk: its filter and index, its records still cold.
    pub fn cold(bloom: BloomFilter, postings: AHashMap<String, Vec<usize>>) -> (r: Block)
        requires
            bloom.wf(),
            postings_valid(postings_of(postings), None),
        ensures
            r.wf(),
            r@ == (BlockModel { records: None, postings: postings_of(postings), bloom: bloom@ }),
    {
        Block { records: Records::Cold, postings, bloom }
    }

    /// Whether the record bodies are in memory.
    pub fn is_resident(&self) -> (r: bool)
        ensures
            r == self@.records is Some,
    {
        match &self.records {
            Records::Cold => false,
            Records::Resident(_) => true,
        }
    }

    /// The number of records in memory (none while cold).
    pub fn len(&self) -> (r: usize)
        ensures
            match self@.records {
                Some(rs) => r == rs.len(),
                None => r == 0,
            },
    {
        match &self.records {
            Records::Cold => 0,
            Records::Resident(v) => v.len(),
        }
    }

    /// The filter.
    pub fn bloom(&self) -> (r: &BloomFilter)
        ensures
            r@ == self@.bloom,
    {
        &self.bloom
    }

    /// The index map.
    pub fn postings(&self) -> (r: &AHashMap<String, Vec<usize>>)
        ensures
            postings_of(*r) == self@.postings,
    {
        &self.postings
    }

    /// The records in memory, if any.
    pub fn records(&self) -> (r: Option<&Vec<String>>)
        ensures
            match r {
                Some(v) => self@.records == Some(v@.map_values(|s: String| s@)),
                None => self@.records is None,
            },
    {
        match &self.records {
            Records::Cold => None,
            Records::Resident(v) => Some(v),
        }
    }

    /// Whether the filter may hold `word`: false only if it was never added.
    pub fn bloom_contains(&self, word: &str) -> (r: bool)
        requires
            self.wf(),
        ensures
            r == crate::bloom::may_contain(self@.bloom, word@),
    {
        proof {
            self.lemma_wf();
        }
        self.bloom.contains(word)
    }

    /// Adds `word` to the filter.
    pub fn bloom_insert(&mut self, word: &str)
        requires
            old(self).wf(),
        ensures
            final(self).wf(),
            final(self)@.records == old(self)@.records,
            final(self)@.postings == old(self)@.postings,
            crate::bloom::added(old(self)@.bloom, final(self)@.bloom, word_hash(word@)),
    {
        proof {
            self.lemma_wf();
        }
        self.bloom.insert(word);
    }

    /// Records that `word` occurs in the record with ordinal `ordinal`: its
    /// list gains the ordinal unless it has it, and stays ascending.
    pub fn index_insert(&mut self, word: String, ordinal: usize)
        requires
            old(self).wf(),
            old(self)@.records matches Some(rs) ==> ordinal < rs.len(),
        ensures
            final(self).wf(),
            final(self)@.records == old(self)@.records,
            final(self)@.bloom == old(self)@.bloom,
            final(self)@.postings.dom() == old(self)@.postings.dom().insert(word@),
            forall|w: Seq<char>|
                w != word@ && #[trigger] old(self)@.postings.contains_key(w)
                    ==> final(self)@.postings[w] == old(self)@.postings[w],
            forall|e: usize|
                final(self)@.postings[word@].contains(e)
                    <==> (postings_or_empty(old(self)@.postings, word@).contains(e) || e == ordinal),
            postings_or_empty(old(self)@.postings, word@).contains(ordinal)
                ==> final(self)@.postings[word@] == postings_or_empty(old(self)@.postings, word@),
            (forall|j: int|
                0 <= j < postings_or_empty(old(self)@.postings, word@).len()
                    ==> postings_or_empty(old(self)@.postings, word@)[j] < ordinal)
                ==> final(self)@.postings[word@] == postings_or_empty(old(self)@.postings, word@).push(ordinal),
    {
        let ghost m0 = postings_of(self.postings);
        let list = match postings_remove(&mut self.postings, word.as_str()) {
            Some(list) => {
                let mut list = list;
                insert_ordinal(&mut list, ordinal);
                list
            },
            None => {
                let mut list: Vec<usize> = Vec::new();
                list.push(ordinal);
                assert(list@ == seq![ordinal]);
                assert forall|e: usize| list@.contains(e) <==> e == ordinal by {
                    if e == ordinal {
                        assert(list@[0] == e);
                    }
                }
                list
            },
        };
        postings_insert(&mut self.postings, word, list);
        proof {
            let m1 = postings_of(self.postings);
            assert(m1.dom() == m0.dom().insert(word@));
            assert forall|w: Seq<char>| #[trigger] m1.contains_key(w) implies strictly_ascending(
                m1[w],
            ) by {}
            if self.records@ is Some {
                let rs = self.records@->0;
                assert forall|w: Seq<char>, j: int|
                    #[trigger] m1.contains_key(w) && 0 <= j < m1[w].len() implies #[trigger] m1[w][j]
                    < rs.len() by {
                    if w == word@ {
                        assert(m1[w].contains(m1[w][j]));
                        if postings_or_empty(m0, w).contains(m1[w][j]) {
                            let k = choose|k: int|
                                0 <= k < postings_or_empty(m0, w).len() && postings_or_empty(
                                    m0,
                                    w,
                                )[k] == m1[w][j];
                            assert(m0.contains_key(w));
                            assert(m0[w][k] < rs.len());
                        }
                    }
                }
            }
        }
    }

    fn push_record(&mut self, value: String)
        requires
            old(self).wf(),
            old(self)@.records is Some,
        ensures
            final(self)@.records == Some(old(self)@.records->0.push(value@)),
            final(self)@.postings == old(self)@.postings,
            final(self)@.bloom == old(self)@.bloom,
            final(self).wf(),
    {
        match &mut self.records {
            Records::Resident(v) => {
                v.push(value);
            },
            Records::Cold => {},
        }
        proof {
            assert(self.records@ == Some(old(self).records@->0.push(value@)));
            let m = postings_of(self.postings);
            let rs = self.records@->0;
            assert forall|w: Seq<char>, j: int|
                #[trigger] m.contains_key(w) && 0 <= j < m[w].len() implies #[trigger] m[w][j]
                < rs.len() by {
                assert(m[w][j] < old(self)@.records->0.len());
            }
        }
    }

    /// Appends a record: its ordinal is the number of records before it; each
    /// of its words goes into the filter and, once, into the index.
    pub fn insert(&mut self, value: String)
        requires
            old(self).wf(),
            old(self)@.records is Some,
        ensures
            final(self).wf(),
            final(self)@.records == Some(old(self)@.records->0.push(value@)),
            final(self)@.postings == add_record(
                old(self)@.postings,
                words_of(value@),
                old(self)@.records->0.len() as usize,
            ),
            bloom_added(old(self)@.bloom, final(self)@.bloom, words_of(value@)),
    {
        let n = self.len();
        let ws = words(value.as_str());
        let ghost all = words_of(value@);
        let ghost m0 = self@.postings;
        let ghost b0 = self@.bloom;
        let ghost rs0 = self@.records->0;
        self.push_record(value);
        let mut i: usize = 0;
        assert(all.take(0) == Seq::<Seq<char>>::empty());
        assert(add_record(m0, all.take(0), n) == m0);
        while i < ws.len()
            invariant
                self.wf(),
                i <= ws.len(),
                ws.len() == all.len(),
                forall|k: int| 0 <= k < ws.len() ==> ws[k]@ == all[k],
                n == rs0.len(),
                postings_valid(m0, Some(rs0)),
                self@.records == Some(rs0.push(value@)),
                b0.len() == BLOOM_WORDS,
                self@.postings == add_record(m0, all.take(i as int), n),
                bloom_added(b0, self@.bloom, all.take(i as int)),
            decreases ws.len() - i,
        {
            let ghost m1 = self@.postings;
            let ghost b1 = self@.bloom;
            let ghost w = all[i as int];
            self.bloom_insert(ws[i].as_str());
            self.index_insert(ws[i].clone(), n);
            proof {
                let pre = all.take(i as int);
                let post = all.take(i as int + 1);
                assert(post == pre.push(w));
                assert forall|x: Seq<char>| post.contains(x) <==> (pre.contains(x) || x == w) by {
                    if post.contains(x) {
                        let k = choose|k: int| 0 <= k < post.len() && post[k] == x;
                        if k < pre.len() {
                            assert(pre[k] == x);
                        }
                    }
                    if pre.contains(x) {
                        let k = choose|k: int| 0 <= k < pre.len() && pre[k] == x;
                        assert(post[k] == x);
                    }
                    if x == w {
                        assert(post[i as int] == x);
                    }
                }
                if !pre.contains(w) {
                    assert(postings_or_empty(m1, w) == postings_or_empty(m0, w));
                    assert forall|j: int| 0 <= j < postings_or_empty(m1, w).len() implies
                        postings_or_empty(m1, w)[j] < n by {
                        assert(m0.contains_key(w));
                        assert(m0[w][j] < rs0.len());
                    }
                } else {
                    assert(postings_or_empty(m1, w) == postings_or_empty(m0, w).push(n));
                    assert(postings_or_empty(m1, w)[postings_or_empty(m0, w).len() as int] == n);
                }
                assert(self@.postings =~= add_record(m0, post, n));
                assert forall|p: int| 0 <= p < b0.len() * 128 implies #[trigger] crate::bloom::has_bit(
                    self@.bloom,
                    p,
                ) == (crate::bloom::has_bit(b0, p) || exists|k: int|
                    0 <= k < post.len() && is_probe(word_hash(post[k]), p)) by {
                    assert(crate::bloom::has_bit(self@.bloom, p) == (crate::bloom::has_bit(b1, p)
                        || is_probe(word_hash(w), p)));
                    if exists|k: int| 0 <= k < post.len() && is_probe(word_hash(post[k]), p) {
                        let k = choose|k: int| 0 <= k < post.len() && is_probe(word_hash(post[k]), p);
                        if k < pre.len() {
                            assert(pre[k] == post[k]);
                        }
                    }
                    if exists|k: int| 0 <= k < pre.len() && is_probe(word_hash(pre[k]), p) {
                        let k = choose|k: int| 0 <= k < pre.len() && is_probe(word_hash(pre[k]), p);
                        assert(pre[k] == post[k]);
                    }
                    if is_probe(word_hash(w), p) {
                        assert(post[i as int] == w);
                    }
                }
            }
            i = i + 1;
        }
        assert(all.take(all.len() as int) == all);
    }

    fn ordinals_below_exec(&self, n: usize) -> (r: bool)
        ensures
            r == ordinals_below(self@.postings, n as nat),
    {
        let entries = postings_entries(&self.postings);
        let ghost m = self@.postings;
        let ghost es = entries@.map_values(|e: (&String, &Vec<usize>)| (e.0@, e.1@));
        let mut i: usize = 0;
        while i < entries.len()
            invariant
                i <= entries.len(),
                m == self@.postings,
                es == entries@.map_values(|e: (&String, &Vec<usize>)| (e.0@, e.1@)),
                lists(es, m),
                forall|k: int, j: int| 0 <= k < i && 0 <= j < es[k].1.len() ==> #[trigger] es[k].1[j] < n,
            decreases entries.len() - i,
        {
            let list = entries[i].1;
            let mut j: usize = 0;
            while j < list.len()
                invariant
                    i < entries.len(),
                    m == self@.postings,
                    lists(es, m),
                    es.len() == entries.len(),
                    list@ == es[i as int].1,
                    es == entries@.map_values(|e: (&String, &Vec<usize>)| (e.0@, e.1@)),
                    j <= list.len(),
                    forall|k: int| 0 <= k < j ==> list@[k] < n,
                decreases list.len() - j,
            {
                if list[j] >= n {
                    proof {
                        let w = es[i as int].0;
                        assert(m.contains_key(w) && m[w] == es[i as int].1);
                        assert(m[w][j as int] >= n);
                    }
                    return false;
                }
                j = j + 1;
            }
            i = i + 1;
        }
        proof {
            assert forall|w: Seq<char>, j: int| #[trigger] m.contains_key(w) && 0 <= j < m[w].len() implies #[trigger] m[w][j] < n by {
                let k = choose|k: int| 0 <= k < es.len() && es[k].0 == w;
                assert(m[w] == es[k].1);
                assert(es[k].1[j] < n);
            }
        }
        true
    }

    /// Brings the records into memory from the block's records artifact, once:
    /// a resident block is left as it is. The artifact must frame the records,
    /// and hold every record that the index names; otherwise nothing changes.
    pub fn load(&mut self, artifact: &[u8]) -> (r: Result<(), LoadError>)
        requires
            old(self).wf(),
        ensures
            final(self).wf(),
            final(self)@.postings == old(self)@.postings,
            final(self)@.bloom == old(self)@.bloom,
            match r {
                Ok(()) => materialize_error(old(self)@, artifact@) is None && final(self)@.records
                    == if old(self)@.records is Some {
                    old(self)@.records
                } else {
                    Some(artifact_records(artifact@))
                },
                Err(e) => materialize_error(old(self)@, artifact@) == Some(e) && final(self)@
                    == old(self)@,
            },
    {
        if self.is_resident() {
            return Ok(());
        }
        let plain = match lz4_unframe(artifact) {
            Some(p) => p,
            None => return Err(LoadError::Frame),
        };
        let records = match decode_records(plain.as_slice()) {
            Some(v) => v,
            None => return Err(LoadError::Layout),
        };
        if !self.ordinals_below_exec(records.len()) {
            return Err(LoadError::MissingRecord);
        }
        self.records = Records::Resident(records);
        Ok(())
    }
}

} // verus!
