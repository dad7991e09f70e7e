//! Pairs of 32-bit identifiers packed into one 64-bit map key, and maps keyed by such
//! pairs.
use std::collections::HashMap;
use vstd::prelude::*;
use vstd::std_specs::hash::*;
use vstd::std_specs::iter::IteratorSpec;

verus! {

broadcast use vstd::std_specs::hash::group_hash_axioms;

/// The key of the pair `(hi, lo)`.
pub open spec fn pair_key(hi: u32, lo: u32) -> u64 {
    (hi as u64 * 0x1_0000_0000 + lo as u64) as u64
}

/// Packs a thread and a policy into one key.
pub fn pack_tid_policy(tid: u32, policy: u32) -> (key: u64)
    ensures
        key == pair_key(tid, policy),
{
    assert(((tid as u64) << 32) | (policy as u64) == tid as u64 * 0x1_0000_0000 + policy as u64)
        by (bit_vector);
    ((tid as u64) << 32) | policy as u64
}

/// The pair that `key` packs.
pub open spec fn key_pair(key: u64) -> (u32, u32) {
    ((key / 0x1_0000_0000) as u32, (key % 0x1_0000_0000) as u32)
}

/// The pair that `key` packs.
pub fn unpack_key(key: u64) -> (pair: (u32, u32))
    ensures
        pair == key_pair(key),
        pair_key(pair.0, pair.1) == key,
{
    assert((key >> 32) <= 0xffff_ffff && ((key >> 32) as u32) as u64 * 0x1_0000_0000 + (
    key as u32) as u64 == key) by (bit_vector);
    ((key >> 32) as u32, #[verifier::truncate] (key as u32))
}

/// Unpacking a key gives back the pair, and packing the pair gives back the key.
pub proof fn law_key_round_trip(key: u64, hi: u32, lo: u32)
    ensures
        pair_key(key_pair(key).0, key_pair(key).1) == key,
        key_pair(pair_key(hi, lo)) == (hi, lo),
{
}

/// Packing loses nothing: two pairs with one key are one pair.
pub proof fn law_pair_key_injective(a: (u32, u32), b: (u32, u32))
    requires
        pair_key(a.0, a.1) == pair_key(b.0, b.1),
    ensures
        a == b,
{
}

/// `list` holds each entry of `map` once, and nothing else.
pub open spec fn enumerates(list: Seq<(u32, u32, u64)>, map: Map<(u32, u32), u64>) -> bool {
    &&& forall|i: int|
        0 <= i < list.len() ==> map.contains_key((list[i].0, list[i].1)) && map[(
            list[i].0,
            list[i].1,
        )] == (#[trigger] list[i]).2
    &&& forall|i: int, j: int|
        0 <= i < j < list.len() ==> (#[trigger] list[i]).0 != (#[trigger] list[j]).0 || list[i].1
            != list[j].1
    &&& forall|k: (u32, u32)| #[trigger]
        map.contains_key(k) ==> list.contains((k.0, k.1, map[k]))
}

/// A map from pairs of identifiers to a number of nanoseconds.
pub struct PairMap {
    entries: HashMap<u64, u64>,
}

impl View for PairMap {
    type V = Map<(u32, u32), u64>;

    closed spec fn view(&self) -> Map<(u32, u32), u64> {
        Map::new(
            |k: (u32, u32)| self.entries@.contains_key(pair_key(k.0, k.1)),
            |k: (u32, u32)| self.entries@[pair_key(k.0, k.1)],
        )
    }
}

impl PairMap {
    pub fn new() -> (map: Self)
        ensures
            map@ == Map::<(u32, u32), u64>::empty(),
    {
        let map = PairMap { entries: HashMap::new() };
        assert(map@ =~= Map::<(u32, u32), u64>::empty());
        map
    }

    pub fn clear(&mut self)
        ensures
            final(self)@ == Map::<(u32, u32), u64>::empty(),
    {
        self.entries.clear();
        assert(self@ =~= Map::<(u32, u32), u64>::empty());
    }

    /// Sets the entry of `(hi, lo)`.
    pub fn insert(&mut self, hi: u32, lo: u32, value: u64)
        ensures
            final(self)@ == old(self)@.insert((hi, lo), value),
    {
        self.entries.insert(pack_tid_policy(hi, lo), value);
        assert(self@ =~= old(self)@.insert((hi, lo), value));
    }

    /// The entry of `(hi, lo)`.
    pub fn get(&self, hi: u32, lo: u32) -> (value: Option<u64>)
        ensures
            value == self@.get((hi, lo)),
    {
        match self.entries.get(&pack_tid_policy(hi, lo)) {
            Some(v) => Some(*v),
            None => None,
        }
    }

    /// All entries, in the order in which the hash map is walked.
    pub fn list(&self) -> (list: Vec<(u32, u32, u64)>)
        ensures
            enumerates(list@, self@),
    {
        let mut list: Vec<(u32, u32, u64)> = Vec::new();
        let ghost walk = spec_hash_map_iter(&self.entries).remaining();
        proof {
            axiom_spec_hash_map_iter(&self.entries);
        }
        for (key, value) in it: self.entries.iter()
            invariant
                it.seq() == walk,
                walk.no_duplicates(),
                list@.len() == it.index(),
                forall|i: int|
                    0 <= i < list@.len() ==> {
                        &&& pair_key((#[trigger] list@[i]).0, list@[i].1) == *walk[i].0
                        &&& list@[i].2 == *walk[i].1
                    },
        {
            let (hi, lo) = unpack_key(*key);
            list.push((hi, lo, *value));
        }
        proof {
            let map = self.entries@;
            assert(list@.len() == walk.len());
            assert forall|i: int| 0 <= i < list@.len() implies {
                &&& self@.contains_key((list@[i].0, list@[i].1))
                &&& self@[(list@[i].0, list@[i].1)] == (#[trigger] list@[i]).2
            } by {
                assert(map.contains_key(*walk[i].0) && map[*walk[i].0] == *walk[i].1);
            }
            assert forall|i: int, j: int| 0 <= i < j < list@.len() implies (
            #[trigger] list@[i]).0 != (#[trigger] list@[j]).0 || list@[i].1 != list@[j].1 by {
                assert(map.contains_key(*walk[i].0) && map[*walk[i].0] == *walk[i].1);
                assert(map.contains_key(*walk[j].0) && map[*walk[j].0] == *walk[j].1);
                assert(walk[i] != walk[j]);
            }
            assert forall|k: (u32, u32)| #[trigger] self@.contains_key(k) implies list@.contains(
                (k.0, k.1, self@[k]),
            ) by {
                let key = pair_key(k.0, k.1);
                assert(map.contains_key(key));
                let i = choose|i: int| 0 <= i < walk.len() && walk[i] == (&key, &map[key]);
                assert(0 <= i < walk.len() && walk[i] == (&key, &map[key]));
                assert(pair_key(list@[i].0, list@[i].1) == key);
                law_pair_key_injective((list@[i].0, list@[i].1), k);
                assert(list@[i] == (k.0, k.1, self@[k]));
            }
        }
        list
    }
}

/// The upper half of a key is the first of the pair, the lower half the second.
pub proof fn law_halves_of_a_key(hi: u32, lo: u32)
    ensures
        pair_key(hi, lo) >> 32 == hi,
        pair_key(hi, lo) & 0xffff_ffff == lo,
{
    assert(((hi as u64) << 32) | (lo as u64) == hi as u64 * 0x1_0000_0000 + lo as u64)
        by (bit_vector);
    assert((((hi as u64) << 32) | (lo as u64)) >> 32 == hi as u64) by (bit_vector);
    assert((((hi as u64) << 32) | (lo as u64)) & 0xffff_ffff == lo as u64) by (bit_vector);
}

} // verus!
