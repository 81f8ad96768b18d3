//! The word index of a block: for each word, the ascending ordinals of the
//! records that hold it. The map itself is `ahash::AHashMap`.
use ahash::AHashMap;
use vstd::prelude::*;

verus! {

#[verifier::external_type_specification]
#[verifier::external_body]
pub struct ExRandomState(ahash::RandomState);

#[verifier::external_type_specification]
#[verifier::external_body]
#[verifier::reject_recursive_types(K)]
#[verifier::reject_recursive_types(V)]
#[verifier::reject_recursive_types(S)]
pub struct ExAHashMap<K, V, S>(ahash::AHashMap<K, V, S>);

/// What an index map holds: each word, as characters, with its ordinals.
pub uninterp spec fn postings_of(m: AHashMap<String, Vec<usize>>) -> Map<Seq<char>, Seq<usize>>;

/// The index of a block that holds no word.
pub open spec fn no_postings() -> Map<Seq<char>, Seq<usize>> {
    Map::empty()
}

/// Relies on `AHashMap::new`: a new map is empty.
#[verifier::external_body]
pub(crate) fn postings_new() -> (r: AHashMap<String, Vec<usize>>)
    ensures
        postings_of(r) == no_postings(),
{
    AHashMap::new()
}

/// Relies on `AHashMap::get`: the value stored under the word, if any.
#[verifier::external_body]
pub(crate) fn postings_get<'a>(m: &'a AHashMap<String, Vec<usize>>, word: &str) -> (r: Option<
    &'a Vec<usize>,
>)
    ensures
        match r {
            Some(v) => postings_of(*m).contains_key(word@) && postings_of(*m)[word@] == v@,
            None => !postings_of(*m).contains_key(word@),
        },
{
    m.get(word)
}

/// Relies on `AHashMap::remove`: takes the value stored under the word out of the map.
#[verifier::external_body]
pub(crate) fn postings_remove(m: &mut AHashMap<String, Vec<usize>>, word: &str) -> (r: Option<
    Vec<usize>,
>)
    ensures
        postings_of(*final(m)) == postings_of(*old(m)).remove(word@),
        match r {
            Some(v) => postings_of(*old(m)).contains_key(word@) && postings_of(*old(m))[word@]
                == v@,
            None => !postings_of(*old(m)).contains_key(word@),
        },
{
    m.remove(word)
}

/// Relies on `AHashMap::insert`: the word now maps to the value, and no other
/// entry changes.
#[verifier::external_body]
pub(crate) fn postings_insert(m: &mut AHashMap<String, Vec<usize>>, word: String, v: Vec<usize>)
    ensures
        postings_of(*final(m)) == postings_of(*old(m)).insert(word@, v@),
{
    m.insert(word, v);
}

/// Relies on `AHashMap::iter`: every entry once, in an order that the map
/// does not promise.
#[verifier::external_body]
pub(crate) fn postings_entries<'a>(m: &'a AHashMap<String, Vec<usize>>) -> (r: Vec<
    (&'a String, &'a Vec<usize>),
>)
    ensures
        lists(r@.map_values(|e: (&String, &Vec<usize>)| (e.0@, e.1@)), postings_of(*m)),
{
    m.iter().collect()
}

/// `entries` names each word of `m` exactly once, with its ordinals.
pub open spec fn lists(entries: Seq<(Seq<char>, Seq<usize>)>, m: Map<Seq<char>, Seq<usize>>) -> bool {
    &&& forall|i: int|
        0 <= i < entries.len() ==> #[trigger] m.contains_key(entries[i].0) && m[entries[i].0]
            == entries[i].1
    &&& forall|i: int, j: int|
        0 <= i < j < entries.len() ==> #[trigger] entries[i].0 != #[trigger] entries[j].0
    &&& forall|w: Seq<char>| #[trigger]
        m.contains_key(w) ==> exists|i: int| 0 <= i < entries.len() && entries[i].0 == w
}

/// Every ordinal is smaller than the next.
pub open spec fn strictly_ascending(s: Seq<usize>) -> bool {
    forall|i: int, j: int| 0 <= i < j < s.len() ==> s[i] < s[j]
}

/// Adds `x` to an ascending ordinal list unless it is there already; the list
/// stays strictly ascending.
pub fn insert_ordinal(v: &mut Vec<usize>, x: usize)
    requires
        strictly_ascending(old(v)@),
    ensures
        strictly_ascending(final(v)@),
        forall|e: usize| final(v)@.contains(e) <==> (old(v)@.contains(e) || e == x),
        old(v)@.contains(x) ==> final(v)@ == old(v)@,
        (forall|j: int| 0 <= j < old(v)@.len() ==> old(v)@[j] < x) ==> final(v)@ == old(v)@.push(
            x,
        ),
{
    let mut lo: usize = 0;
    let mut hi: usize = v.len();
    while lo < hi
        invariant
            0 <= lo <= hi <= v.len(),
            v@ == old(v)@,
            strictly_ascending(v@),
            forall|j: int| 0 <= j < lo ==> v@[j] < x,
            forall|j: int| hi <= j < v.len() ==> v@[j] >= x,
        decreases hi - lo,
    {
        let mid = lo + (hi - lo) / 2;
        if v[mid] < x {
            lo = mid + 1;
        } else {
            hi = mid;
        }
    }
    if lo < v.len() && v[lo] == x {
        return;
    }
    assert(!v@.contains(x)) by {
        if v@.contains(x) {
            let k = choose|k: int| 0 <= k < v@.len() && v@[k] == x;
            if k < lo {
            } else if k > lo {
                assert(v@[lo as int] < v@[k]);
            }
        }
    }
    let ghost before = v@;
    v.insert(lo, x);
    proof {
        assert(v@ == before.take(lo as int).push(x) + before.skip(lo as int));
        assert forall|e: usize| v@.contains(e) <==> (before.contains(e) || e == x) by {
            if v@.contains(e) {
                let k = choose|k: int| 0 <= k < v@.len() && v@[k] == e;
                if k < lo {
                    assert(before[k] == e);
                } else if k > lo {
                    assert(before[k - 1] == e);
                }
            }
            if before.contains(e) {
                let k = choose|k: int| 0 <= k < before.len() && before[k] == e;
                if k < lo {
                    assert(v@[k] == e);
                } else {
                    assert(v@[k + 1] == e);
                }
            }
            if e == x {
                assert(v@[lo as int] == x);
            }
        }
        if forall|j: int| 0 <= j < before.len() ==> before[j] < x {
            if lo < before.len() {
                assert(before[lo as int] < x);
            }
            assert(v@ == before.push(x));
        }
    }
}

} // verus!
