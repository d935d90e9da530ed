//! The map from the text of a token to its id.
use vstd::hash_map::StringHashMap;
use vstd::prelude::*;

verus! {

/// What a list of entries says of texts and ids, by their contents.
pub open spec fn entry_views(entries: Seq<(String, usize)>) -> Seq<(Seq<char>, usize)> {
    Seq::new(entries.len(), |i: int| (entries[i].0@, entries[i].1))
}

/// The map that holds, for each text of `entries`, the id of its last entry.
pub open spec fn map_of_texts(entries: Seq<(Seq<char>, usize)>) -> Map<Seq<char>, usize>
    decreases entries.len(),
{
    if entries.len() == 0 {
        Map::empty()
    } else {
        map_of_texts(entries.drop_last()).insert(entries.last().0, entries.last().1)
    }
}

/// A map from texts to ids, which remembers the order in which the texts came in.
pub struct Vocabulary {
    words: Vec<String>,
    index: StringHashMap<usize>,
}

impl View for Vocabulary {
    type V = Map<Seq<char>, usize>;

    closed spec fn view(&self) -> Map<Seq<char>, usize> {
        self.index@
    }
}

/// The contents of a list of strings.
pub open spec fn string_views(v: Seq<String>) -> Seq<Seq<char>> {
    Seq::new(v.len(), |i: int| v[i]@)
}

/// The entries of `m` for `keys`, in the order of `keys`.
pub open spec fn texts_for(keys: Seq<Seq<char>>, m: Map<Seq<char>, usize>) -> Seq<(Seq<char>, usize)> {
    Seq::new(keys.len(), |i: int| (keys[i], m[keys[i]]))
}

/// Listing a map by distinct texts and reading the list back gives the map on those texts.
proof fn lemma_map_of_distinct_texts(keys: Seq<Seq<char>>, m: Map<Seq<char>, usize>)
    requires
        keys.no_duplicates(),
    ensures
        ({
            let r = map_of_texts(texts_for(keys, m));
            &&& forall|t: Seq<char>| #[trigger] r.contains_key(t) <==> keys.contains(t)
            &&& forall|t: Seq<char>| #[trigger] r.contains_key(t) ==> r[t] == m[t]
        }),
    decreases keys.len(),
{
    let entries = texts_for(keys, m);
    if keys.len() > 0 {
        lemma_map_of_distinct_texts(keys.drop_last(), m);
        assert(entries.drop_last() =~= texts_for(keys.drop_last(), m));
        let r = map_of_texts(entries);
        let r0 = map_of_texts(entries.drop_last());
        assert forall|t: Seq<char>| #[trigger] r.contains_key(t) <==> keys.contains(t) by {
            assert(keys[keys.len() - 1] == keys.last());
            if keys.contains(t) && t != keys.last() {
                let i = choose|i: int| 0 <= i < keys.len() && keys[i] == t;
                assert(keys.drop_last()[i] == t);
                assert(keys.drop_last().contains(t));
                assert(r0.contains_key(t));
            }
            if r.contains_key(t) && t != keys.last() {
                assert(r0.contains_key(t));
                assert(keys.drop_last().contains(t));
                let i = choose|i: int|
                    0 <= i < keys.drop_last().len() && keys.drop_last()[i] == t;
                assert(keys[i] == t);
            }
        }
    }
}

impl Vocabulary {
    /// The texts, in the order in which they came in.
    pub closed spec fn word_order(self) -> Seq<Seq<char>> {
        string_views(self.words@)
    }

    /// Whether the list of texts holds each text of the map exactly once.
    pub open spec fn inv(self) -> bool {
        &&& self.word_order().no_duplicates()
        &&& forall|t: Seq<char>|
            #[trigger] self.word_order().contains(t) <==> self@.contains_key(t)
    }

    /// A vocabulary without texts.
    pub fn new() -> (v: Vocabulary)
        ensures
            v.inv(),
            v@ == Map::<Seq<char>, usize>::empty(),
    {
        Vocabulary { words: Vec::new(), index: StringHashMap::new() }
    }

    /// The id of a text.
    pub fn get(&self, t: &str) -> (r: Option<usize>)
        ensures
            match r {
                Some(id) => self@.contains_key(t@) && self@[t@] == id,
                None => !self@.contains_key(t@),
            },
    {
        match self.index.get(t) {
            Some(id) => Some(*id),
            None => None,
        }
    }

    /// The number of texts.
    pub fn len(&self) -> (n: usize)
        ensures
            n == self@.len(),
    {
        self.index.len()
    }

    /// Gives a text an id, in place of the one that it may have had.
    pub fn insert(&mut self, t: String, id: usize)
        requires
            old(self).inv(),
        ensures
            final(self).inv(),
            final(self)@ == old(self)@.insert(t@, id),
    {
        let ghost before = *self;
        let known: bool = self.index.contains_key(t.as_str());
        if !known {
            self.words.push(t.clone());
        }
        self.index.insert(t, id);
        proof {
            let ws = before.word_order();
            if !known {
                assert(self.word_order() =~= ws.push(t@));
                assert(!ws.contains(t@));
                assert forall|u: Seq<char>| #[trigger] self.word_order().contains(u)
                    <==> self@.contains_key(u) by {
                    assert(ws.contains(u) <==> before@.contains_key(u));
                    if u == t@ {
                        assert(self.word_order()[ws.len() as int] == t@);
                    } else if ws.contains(u) {
                        let i = choose|i: int| 0 <= i < ws.len() && ws[i] == u;
                        assert(self.word_order()[i] == u);
                    }
                }
            } else {
                assert(self.word_order() == ws);
                assert forall|u: Seq<char>| #[trigger] self.word_order().contains(u)
                    <==> self@.contains_key(u) by {
                    assert(ws.contains(u) <==> before@.contains_key(u));
                }
            }
        }
    }

    /// The texts and their ids as a list, each text once.
    pub fn entries(&self) -> (r: Vec<(String, usize)>)
        requires
            self.inv(),
        ensures
            entry_views(r@) == texts_for(self.word_order(), self@),
            map_of_texts(entry_views(r@)) == self@,
            r@.len() == self@.len(),
    {
        let mut r: Vec<(String, usize)> = Vec::new();
        let n: usize = self.words.len();
        let ghost order = self.word_order();
        let mut i: usize = 0;
        while i < n
            invariant
                self.inv(),
                i <= n,
                n == self.words@.len(),
                order == self.word_order(),
                entry_views(r@) =~= texts_for(order.take(i as int), self@),
            decreases n - i,
        {
            let ghost done = r@;
            assert(order[i as int] == self.words@[i as int]@);
            assert(order.contains(order[i as int]));
            match self.get(self.words[i].as_str()) {
                Some(id) => {
                    r.push((self.words[i].clone(), id));
                },
                None => {},
            }
            assert(entry_views(r@) =~= entry_views(done).push((order[i as int], self@[order[i as int]])));
            i += 1;
        }
        assert(order.take(n as int) =~= order);
        proof {
            lemma_map_of_distinct_texts(order, self@);
            let m = map_of_texts(entry_views(r@));
            assert(m =~= self@) by {
                assert forall|t: Seq<char>| #[trigger] m.contains_key(t) <==> self@.contains_key(
                    t,
                ) by {
                    assert(order.contains(t) <==> self@.contains_key(t));
                }
            }
            order.unique_seq_to_set();
            assert(order.to_set() =~= self@.dom()) by {
                assert forall|t: Seq<char>| order.to_set().contains(t) <==> self@.dom().contains(
                    t,
                ) by {
                    assert(order.contains(t) <==> self@.contains_key(t));
                }
            }
        }
        r
    }

    /// The vocabulary of a list of entries; of entries with the same text the last one
    /// counts.
    pub fn from_entries(entries: Vec<(String, usize)>) -> (v: Vocabulary)
        ensures
            v.inv(),
            v@ == map_of_texts(entry_views(entries@)),
    {
        let mut v = Vocabulary::new();
        let mut i: usize = 0;
        while i < entries.len()
            invariant
                v.inv(),
                i <= entries@.len(),
                v@ == map_of_texts(entry_views(entries@).take(i as int)),
            decreases entries.len() - i,
        {
            let ghost all = entry_views(entries@);
            v.insert(entries[i].0.clone(), entries[i].1);
            assert(all.take(i + 1).drop_last() =~= all.take(i as int));
            i += 1;
        }
        assert(entry_views(entries@).take(entries@.len() as int) =~= entry_views(entries@));
        v
    }
}

} // verus!
