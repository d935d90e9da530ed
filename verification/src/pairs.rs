//! A map from pairs of token ids to numbers, which remembers the order of its keys.
use std::collections::HashMap;
use vstd::prelude::*;

verus! {

/// Two neighbouring token ids, the left one first.
pub type Pair = (usize, usize);

/// The pair as one number.
pub open spec fn pair_code(p: Pair) -> int {
    p.0 * 0x1_0000_0000_0000_0000 + p.1
}

/// Different pairs have different codes.
proof fn lemma_pair_code_injective(p: Pair, q: Pair)
    requires
        pair_code(p) == pair_code(q),
    ensures
        p == q,
{
}

fn code_of(p: Pair) -> (c: u128)
    ensures
        c == pair_code(p),
{
    (p.0 as u128) * 0x1_0000_0000_0000_0000u128 + (p.1 as u128)
}

/// The map that holds, for each key of `entries`, the value of its last entry.
pub open spec fn map_of_entries(entries: Seq<(Pair, usize)>) -> Map<Pair, usize>
    decreases entries.len(),
{
    if entries.len() == 0 {
        Map::empty()
    } else {
        map_of_entries(entries.drop_last()).insert(entries.last().0, entries.last().1)
    }
}

/// The entries of `m` for `keys`, in the order of `keys`.
pub open spec fn entries_for(keys: Seq<Pair>, m: Map<Pair, usize>) -> Seq<(Pair, usize)> {
    Seq::new(keys.len(), |i: int| (keys[i], m[keys[i]]))
}

/// A map from pairs to numbers. Its keys come out in the order in which they were first
/// inserted.
pub struct PairMap {
    keys: Vec<Pair>,
    index: HashMap<u128, usize>,
}

impl View for PairMap {
    type V = Map<Pair, usize>;

    closed spec fn view(&self) -> Map<Pair, usize> {
        Map::new(
            |p: Pair| self.index@.contains_key(pair_code(p) as u128),
            |p: Pair| self.index@[pair_code(p) as u128],
        )
    }
}

impl PairMap {
    /// The keys, in the order in which they were first inserted.
    pub closed spec fn key_order(self) -> Seq<Pair> {
        self.keys@
    }

    /// Whether the list of keys holds each key of the map exactly once.
    pub open spec fn inv(self) -> bool {
        &&& self.key_order().no_duplicates()
        &&& forall|p: Pair|
            #[trigger] self.key_order().contains(p) <==> self@.contains_key(p)
    }

    /// A map without entries.
    pub fn new() -> (m: PairMap)
        ensures
            m.inv(),
            m@ == Map::<Pair, usize>::empty(),
            m.key_order() == Seq::<Pair>::empty(),
    {
        let m = PairMap { keys: Vec::new(), index: HashMap::new() };
        assert(m@ =~= Map::<Pair, usize>::empty());
        m
    }

    /// The value of a pair.
    pub fn get(&self, p: Pair) -> (r: Option<usize>)
        ensures
            match r {
                Some(v) => self@.contains_key(p) && self@[p] == v,
                None => !self@.contains_key(p),
            },
    {
        let c: u128 = code_of(p);
        match self.index.get(&c) {
            Some(v) => Some(*v),
            None => None,
        }
    }

    /// The number of keys.
    pub fn len(&self) -> (n: usize)
        ensures
            n == self.key_order().len(),
    {
        self.keys.len()
    }

    /// The key number `i` in the order of first insertion.
    pub fn key(&self, i: usize) -> (p: Pair)
        requires
            i < self.key_order().len(),
        ensures
            p == self.key_order()[i as int],
    {
        self.keys[i]
    }

    /// Gives a pair a value, in place of the one that it may have had.
    pub fn insert(&mut self, p: Pair, v: usize)
        requires
            old(self).inv(),
        ensures
            final(self).inv(),
            final(self)@ == old(self)@.insert(p, v),
            final(self).key_order() == if old(self)@.contains_key(p) {
                old(self).key_order()
            } else {
                old(self).key_order().push(p)
            },
    {
        let c: u128 = code_of(p);
        let ghost before = *self;
        if !self.index.contains_key(&c) {
            self.keys.push(p);
        }
        self.index.insert(c, v);
        proof {
            assert forall|q: Pair| q != p implies pair_code(q) != pair_code(p) by {
                if pair_code(q) == pair_code(p) {
                    lemma_pair_code_injective(q, p);
                }
            }
            assert(self@ =~= before@.insert(p, v));
            if !before@.contains_key(p) {
                let ks = before.keys@;
                assert(!before.key_order().contains(p));
                assert forall|q: Pair| #[trigger] self.keys@.contains(q) <==> self@.contains_key(
                    q,
                ) by {
                    if q == p {
                        assert(self.keys@[ks.len() as int] == p);
                    } else {
                        assert(before.key_order().contains(q) <==> before@.contains_key(q));
                        if ks.contains(q) {
                            let i = choose|i: int| 0 <= i < ks.len() && ks[i] == q;
                            assert(self.keys@[i] == q);
                        }
                    }
                }
            } else {
                assert forall|q: Pair| #[trigger] self.keys@.contains(q) <==> self@.contains_key(
                    q,
                ) by {
                    assert(before.key_order().contains(q) <==> before@.contains_key(q));
                }
            }
        }
    }
}

/// The entries of a map as a list, each key once.
pub fn serialize_merges(merges: &PairMap) -> (entries: Vec<(Pair, usize)>)
    requires
        merges.inv(),
    ensures
        entries@ == entries_for(merges.key_order(), merges@),
        map_of_entries(entries@) == merges@,
{
    let mut entries: Vec<(Pair, usize)> = Vec::new();
    let n: usize = merges.len();
    let mut i: usize = 0;
    while i < n
        invariant
            merges.inv(),
            i <= n,
            n == merges.key_order().len(),
            entries@ =~= entries_for(merges.key_order().take(i as int), merges@),
        decreases n - i,
    {
        let p: Pair = merges.key(i);
        assert(merges.key_order().contains(p));
        match merges.get(p) {
            Some(v) => entries.push((p, v)),
            None => {},
        }
        i += 1;
    }
    assert(merges.key_order().take(n as int) =~= merges.key_order());
    proof {
        lemma_map_of_distinct(merges.key_order(), merges@);
        assert(map_of_entries(entries@) =~= merges@) by {
            assert forall|p: Pair| map_of_entries(entries@).contains_key(p)
                <==> merges@.contains_key(p) by {
                assert(merges.key_order().contains(p) <==> merges@.contains_key(p));
            }
        }
    }
    entries
}

/// Listing a map by distinct keys and reading the list back gives the map on those keys.
proof fn lemma_map_of_distinct(keys: Seq<Pair>, m: Map<Pair, usize>)
    requires
        keys.no_duplicates(),
    ensures
        ({
            let r = map_of_entries(entries_for(keys, m));
            &&& forall|p: Pair| #[trigger] r.contains_key(p) <==> keys.contains(p)
            &&& forall|p: Pair| #[trigger] r.contains_key(p) ==> r[p] == m[p]
        }),
    decreases keys.len(),
{
    let entries = entries_for(keys, m);
    if keys.len() > 0 {
        lemma_map_of_distinct(keys.drop_last(), m);
        assert(entries.drop_last() =~= entries_for(keys.drop_last(), m));
        let r = map_of_entries(entries);
        let r0 = map_of_entries(entries.drop_last());
        assert forall|p: Pair| #[trigger] r.contains_key(p) <==> keys.contains(p) by {
            assert(keys[keys.len() - 1] == keys.last());
            if keys.contains(p) && p != keys.last() {
                let i = choose|i: int| 0 <= i < keys.len() && keys[i] == p;
                assert(keys.drop_last()[i] == p);
                assert(keys.drop_last().contains(p));
                assert(r0.contains_key(p));
            }
            if r.contains_key(p) && p != keys.last() {
                assert(r0.contains_key(p));
                assert(keys.drop_last().contains(p));
                let i = choose|i: int|
                    0 <= i < keys.drop_last().len() && keys.drop_last()[i] == p;
                assert(keys[i] == p);
            }
        }
    }
}

/// The map of a list of entries; of entries with the same key the last one counts.
pub fn deserialize_merges(entries: &Vec<(Pair, usize)>) -> (merges: PairMap)
    ensures
        merges.inv(),
        merges@ == map_of_entries(entries@),
{
    let mut merges = PairMap::new();
    let mut i: usize = 0;
    while i < entries.len()
        invariant
            merges.inv(),
            i <= entries@.len(),
            merges@ == map_of_entries(entries@.take(i as int)),
        decreases entries.len() - i,
    {
        let (p, v): (Pair, usize) = entries[i];
        merges.insert(p, v);
        assert(entries@.take(i + 1).drop_last() =~= entries@.take(i as int));
        i += 1;
    }
    assert(entries@.take(entries@.len() as int) =~= entries@);
    merges
}

} // verus!
