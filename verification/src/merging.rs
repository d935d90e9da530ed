//! Merging neighbouring tokens by learned rules, the earliest learned rule first.
use vstd::multiset::Multiset;
use vstd::prelude::*;

use crate::agenda::{is_first, lemma_first_exists, lemma_first_unique, Agenda, Candidate};
use crate::pairs::{Pair, PairMap};

verus! {

/// A token in a row: the position of its first piece, and its id.
pub type Placed = (usize, usize);

/// The rules by which two neighbouring ids become one.
pub type Rules = Map<Pair, usize>;

/// The ids `ids`, each at its own position.
pub open spec fn place(ids: Seq<usize>) -> Seq<Placed> {
    Seq::new(ids.len(), |i: int| (i as usize, ids[i]))
}

/// The ids of a row.
pub open spec fn ids_of(row: Seq<Placed>) -> Seq<usize> {
    Seq::new(row.len(), |i: int| row[i].1)
}

/// The ids at `k` and behind it.
pub open spec fn pair_at(row: Seq<Placed>, k: int) -> Pair {
    (row[k].1, row[k + 1].1)
}

/// Whether a rule merges the token at `k` with its right neighbour.
pub open spec fn mergeable(rules: Rules, row: Seq<Placed>, k: int) -> bool {
    0 <= k < row.len() - 1 && rules.contains_key(pair_at(row, k))
}

/// The candidate that stands for merging the token at `k` with its right neighbour.
pub open spec fn candidate(rules: Rules, row: Seq<Placed>, k: int) -> Candidate {
    Candidate { priority: rules[pair_at(row, k)], pos: row[k].0 }
}

/// `m`, and the candidate at `k` where there is one.
pub open spec fn with_candidate(
    m: Multiset<Candidate>,
    rules: Rules,
    row: Seq<Placed>,
    k: int,
) -> Multiset<Candidate> {
    if mergeable(rules, row, k) {
        m.insert(candidate(rules, row, k))
    } else {
        m
    }
}

/// The candidates of a row at the places before `n`.
pub open spec fn candidates(rules: Rules, row: Seq<Placed>, n: int) -> Multiset<Candidate>
    decreases n,
{
    if n <= 0 {
        Multiset::empty()
    } else {
        with_candidate(candidates(rules, row, n - 1), rules, row, n - 1)
    }
}

/// Whether the token at `k` starts at `pos`.
pub open spec fn starts_at(row: Seq<Placed>, k: int, pos: int) -> bool {
    0 <= k < row.len() && row[k].0 == pos
}

/// The row after the token at `k` has taken in its right neighbour.
pub open spec fn merge_at(rules: Rules, row: Seq<Placed>, k: int) -> Seq<Placed> {
    row.update(k, (row[k].0, rules[pair_at(row, k)])).remove(k + 1)
}

/// What becomes of a row while the agenda is worked off.
///
/// The first candidate leaves the agenda. Where a token still starts at its position and
/// some rule merges that token with its right neighbour, the two are merged, and the
/// merged token enters the agenda with its left and with its right neighbour, as far as
/// rules merge them.
pub open spec fn work_off(
    rules: Rules,
    row: Seq<Placed>,
    agenda: Multiset<Candidate>,
) -> Seq<Placed>
    decreases 2 * row.len() + agenda.len(),
{
    if exists|c: Candidate| is_first(agenda, c) {
        let c = choose|c: Candidate| is_first(agenda, c);
        let rest = agenda.remove(c);
        if exists|k: int| starts_at(row, k, c.pos as int) && mergeable(rules, row, k) {
            let k = choose|k: int| starts_at(row, k, c.pos as int) && mergeable(rules, row, k);
            let next = merge_at(rules, row, k);
            let with_left = with_candidate(rest, rules, next, k - 1);
            work_off(rules, next, with_candidate(with_left, rules, next, k))
        } else {
            work_off(rules, row, rest)
        }
    } else {
        row
    }
}

/// The ids that are left of `ids` when its candidates have been worked off.
pub open spec fn merged(rules: Rules, ids: Seq<usize>) -> Seq<usize> {
    let row = place(ids);
    ids_of(work_off(rules, row, candidates(rules, row, row.len() - 1)))
}

/// Whether the tokens of a row start at ever greater positions.
spec fn ascending(row: Seq<Placed>) -> bool {
    forall|i: int, j: int| 0 <= i < j < row.len() ==> (#[trigger] row[i]).0 < (#[trigger] row[j]).0
}

/// A row as a doubly linked list over positions.
struct Chain {
    ids: Vec<usize>,
    prev: Vec<Option<usize>>,
    next: Vec<Option<usize>>,
    active: Vec<bool>,
}

/// Where the token at `k` of a row has its left neighbour.
spec fn left_of(row: Seq<Placed>, k: int) -> Option<usize> {
    if k > 0 {
        Some(row[k - 1].0)
    } else {
        None
    }
}

/// Where the token at `k` of a row has its right neighbour.
spec fn right_of(row: Seq<Placed>, k: int) -> Option<usize> {
    if k + 1 < row.len() {
        Some(row[k + 1].0)
    } else {
        None
    }
}

impl Chain {
    /// The number of positions.
    spec fn size(self) -> nat {
        self.ids@.len()
    }

    /// Whether the arrays hold the token at `k` of `row` and its neighbours.
    spec fn holds(self, row: Seq<Placed>, k: int) -> bool {
        let p = row[k].0 as int;
        &&& p < self.ids@.len()
        &&& self.ids@[p] == row[k].1
        &&& self.active@[p]
        &&& self.next@[p] == right_of(row, k)
        &&& self.prev@[p] == left_of(row, k)
    }

    /// Whether the list is `row`.
    #[verifier::opaque]
    spec fn shows(self, row: Seq<Placed>) -> bool {
        &&& self.ids@.len() == self.prev@.len() == self.next@.len() == self.active@.len()
        &&& row.len() > 0
        &&& row[0].0 == 0
        &&& ascending(row)
        &&& forall|k: int| 0 <= k < row.len() ==> #[trigger] self.holds(row, k)
        &&& forall|p: int|
            0 <= p < self.active@.len() && #[trigger] self.active@[p] ==> exists|k: int|
                starts_at(row, k, p)
    }

    proof fn lemma_sizes(self, row: Seq<Placed>)
        requires
            self.shows(row),
        ensures
            self.ids@.len() == self.prev@.len() == self.next@.len() == self.active@.len(),
            row.len() > 0,
            row[0].0 == 0,
            ascending(row),
    {
        reveal(Chain::shows);
    }

    proof fn lemma_node(self, row: Seq<Placed>, k: int)
        requires
            self.shows(row),
            0 <= k < row.len(),
        ensures
            self.holds(row, k),
    {
        reveal(Chain::shows);
    }

    /// The place in the row of an active position.
    proof fn lemma_slot(self, row: Seq<Placed>, p: int) -> (k: int)
        requires
            self.shows(row),
            0 <= p < self.active@.len(),
            self.active@[p],
        ensures
            starts_at(row, k, p),
            self.holds(row, k),
            forall|j: int| starts_at(row, j, p) ==> j == k,
    {
        reveal(Chain::shows);
        let k = choose|k: int| starts_at(row, k, p);
        assert forall|j: int| starts_at(row, j, p) implies j == k by {
            if j < k {
                assert(row[j].0 < row[k].0);
            }
            if k < j {
                assert(row[k].0 < row[j].0);
            }
        }
        k
    }

    /// The list of `ids`.
    fn new(ids: Vec<usize>) -> (c: Chain)
        requires
            ids@.len() > 0,
        ensures
            c.shows(place(ids@)),
            c.size() == ids@.len(),
            c.ids@ == ids@,
    {
        let n: usize = ids.len();
        let ghost row = place(ids@);
        let mut prev: Vec<Option<usize>> = Vec::new();
        let mut next: Vec<Option<usize>> = Vec::new();
        let mut active: Vec<bool> = Vec::new();
        let mut i: usize = 0;
        while i < n
            invariant
                i <= n,
                n == ids@.len(),
                row == place(ids@),
                prev@ =~= Seq::new(i as nat, |k: int| left_of(row, k)),
                next@ =~= Seq::new(i as nat, |k: int| right_of(row, k)),
                active@ =~= Seq::new(i as nat, |k: int| true),
            decreases n - i,
        {
            prev.push(
                if i > 0 {
                    Some(i - 1)
                } else {
                    None
                },
            );
            next.push(
                if i + 1 < n {
                    Some(i + 1)
                } else {
                    None
                },
            );
            active.push(true);
            i += 1;
        }
        let c = Chain { ids, prev, next, active };
        proof {
            reveal(Chain::shows);
            assert forall|p: int| 0 <= p < c.active@.len() && #[trigger] c.active@[p] implies exists|
                k: int,
            |
                starts_at(row, k, p) by {
                assert(starts_at(row, p, p));
            }
            assert forall|k: int| 0 <= k < row.len() implies #[trigger] c.holds(row, k) by {}
        }
        c
    }

    /// Merges the token at `pos` with its right neighbour at `right` into the token `id`.
    fn absorb(&mut self, pos: usize, right: usize, id: usize, Ghost(row): Ghost<Seq<Placed>>, Ghost(
        k,
    ): Ghost<int>)
        requires
            old(self).shows(row),
            0 <= k < row.len() - 1,
            row[k].0 == pos,
            row[k + 1].0 == right,
        ensures
            final(self).shows(row.update(k, (pos, id)).remove(k + 1)),
            final(self).size() == old(self).size(),
    {
        let ghost before = *self;
        proof {
            self.lemma_sizes(row);
            self.lemma_node(row, k);
            self.lemma_node(row, k + 1);
            if k + 2 < row.len() {
                self.lemma_node(row, k + 2);
            }
        }
        let after: Option<usize> = self.next[right];
        self.ids[pos] = id;
        self.active[right] = false;
        self.next[pos] = after;
        if let Some(nr) = after {
            self.prev[nr] = Some(pos);
        }
        proof {
            before.lemma_absorbed(*self, row, k, id);
        }
    }

    /// The arrays after a merge show the row after the merge.
    proof fn lemma_absorbed(self, to: Chain, row: Seq<Placed>, k: int, id: usize)
        requires
            self.shows(row),
            0 <= k < row.len() - 1,
            to.ids@ == self.ids@.update(row[k].0 as int, id),
            to.active@ == self.active@.update(row[k + 1].0 as int, false),
            to.next@ == self.next@.update(row[k].0 as int, right_of(row, k + 1)),
            to.prev@ == if k + 2 < row.len() {
                self.prev@.update(row[k + 2].0 as int, Some(row[k].0))
            } else {
                self.prev@
            },
        ensures
            to.shows(row.update(k, (row[k].0, id)).remove(k + 1)),
    {
        reveal(Chain::shows);
        let new = row.update(k, (row[k].0, id)).remove(k + 1);
        assert(self.holds(row, k) && self.holds(row, k + 1));
        assert(k + 2 < row.len() ==> self.holds(row, k + 2));
        assert forall|j: int| 0 <= j < new.len() implies #[trigger] new[j] == if j < k {
            row[j]
        } else if j == k {
            (row[k].0, id)
        } else {
            row[j + 1]
        } by {}
        assert forall|j: int| 0 <= j < new.len() implies #[trigger] to.holds(new, j) by {
            let o = if j <= k {
                j
            } else {
                j + 1
            };
            assert(self.holds(row, o));
            assert(new[j].0 == row[o].0);
            assert(row[o].0 != row[k + 1].0) by {
                if o < k + 1 {
                    assert(row[o].0 < row[k + 1].0);
                } else {
                    assert(row[k + 1].0 < row[o].0);
                }
            }
            assert(o != k ==> row[o].0 != row[k].0) by {
                if o < k {
                    assert(row[o].0 < row[k].0);
                } else if k < o {
                    assert(row[k].0 < row[o].0);
                }
            }
            if k + 2 < row.len() {
                assert(o != k + 2 ==> row[o].0 != row[k + 2].0) by {
                    if o < k + 2 {
                        assert(row[o].0 < row[k + 2].0);
                    } else if k + 2 < o {
                        assert(row[k + 2].0 < row[o].0);
                    }
                }
            }
        }
        assert forall|p: int| 0 <= p < to.active@.len() && #[trigger] to.active@[p] implies exists|
            j: int,
        |
            starts_at(new, j, p) by {
            assert(self.active@[p]);
            let o = choose|o: int| starts_at(row, o, p);
            assert(o != k + 1);
            let j = if o <= k {
                o
            } else {
                o - 1
            };
            assert(starts_at(new, j, p));
        }
        assert(ascending(new)) by {
            assert forall|a: int, b: int| 0 <= a < b < new.len() implies (#[trigger] new[a]).0 < (
            #[trigger] new[b]).0 by {
                let oa = if a <= k {
                    a
                } else {
                    a + 1
                };
                let ob = if b <= k {
                    b
                } else {
                    b + 1
                };
                assert(row[oa].0 < row[ob].0);
            }
        }
    }

    /// The ids of the row from left to right.
    fn collect(&self, Ghost(row): Ghost<Seq<Placed>>) -> (r: Vec<usize>)
        requires
            self.shows(row),
        ensures
            r@ == ids_of(row),
    {
        let mut result: Vec<usize> = Vec::new();
        let mut cursor: Option<usize> = Some(0);
        let ghost mut k: int = 0;
        proof {
            self.lemma_sizes(row);
        }
        loop
            invariant
                self.shows(row),
                self.ids@.len() == self.next@.len(),
                0 <= k <= row.len(),
                cursor == if k < row.len() {
                    Some(row[k].0)
                } else {
                    None
                },
                result@ =~= ids_of(row.take(k)),
            ensures
                k == row.len(),
            decreases row.len() - k,
        {
            let pos: usize = match cursor {
                Some(pos) => pos,
                None => break,
            };
            proof {
                self.lemma_node(row, k);
            }
            result.push(self.ids[pos]);
            cursor = self.next[pos];
            proof {
                k = k + 1;
            }
        }
        assert(row.take(k) =~= row);
        result
    }
}

/// Whether every candidate lies inside a row of `n` positions.
spec fn within(agenda: Multiset<Candidate>, n: int) -> bool {
    forall|c: Candidate| #[trigger] agenda.count(c) > 0 ==> c.pos < n
}

/// Working off one candidate that merges.
proof fn lemma_work_off_merge(
    rules: Rules,
    row: Seq<Placed>,
    agenda: Multiset<Candidate>,
    c: Candidate,
    k: int,
)
    requires
        ascending(row),
        is_first(agenda, c),
        starts_at(row, k, c.pos as int),
        mergeable(rules, row, k),
    ensures
        work_off(rules, row, agenda) == work_off(
            rules,
            merge_at(rules, row, k),
            with_candidate(
                with_candidate(agenda.remove(c), rules, merge_at(rules, row, k), k - 1),
                rules,
                merge_at(rules, row, k),
                k,
            ),
        ),
{
    let d = choose|d: Candidate| is_first(agenda, d);
    lemma_first_unique(agenda, c, d);
    let j = choose|j: int| starts_at(row, j, c.pos as int) && mergeable(rules, row, j);
    assert(starts_at(row, j, c.pos as int));
    assert(j == k) by {
        if j < k {
            assert(row[j].0 < row[k].0);
        }
        if k < j {
            assert(row[k].0 < row[j].0);
        }
    }
}

/// Working off one candidate that does not merge.
proof fn lemma_work_off_drop(
    rules: Rules,
    row: Seq<Placed>,
    agenda: Multiset<Candidate>,
    c: Candidate,
)
    requires
        is_first(agenda, c),
        forall|k: int| starts_at(row, k, c.pos as int) ==> !mergeable(rules, row, k),
    ensures
        work_off(rules, row, agenda) == work_off(rules, row, agenda.remove(c)),
{
    let d = choose|d: Candidate| is_first(agenda, d);
    lemma_first_unique(agenda, c, d);
}

/// The agenda of all candidates of `ids`.
fn first_agenda(rules: &PairMap, ids: &Vec<usize>) -> (agenda: Agenda)
    requires
        ids@.len() > 0,
    ensures
        agenda.inv(),
        agenda@ == candidates(rules@, place(ids@), ids@.len() - 1),
        within(agenda@, ids@.len() as int),
{
    let n: usize = ids.len();
    let mut agenda = Agenda::new();
    let mut i: usize = 0;
    let ghost row = place(ids@);
    while i < n - 1
        invariant
            n == ids@.len(),
            n > 0,
            i <= n - 1,
            row == place(ids@),
            agenda.inv(),
            agenda@ == candidates(rules@, row, i as int),
            within(agenda@, n as int),
        decreases n - i,
    {
        let pair: Pair = (ids[i], ids[i + 1]);
        assert(pair == pair_at(row, i as int));
        if let Some(m) = rules.get(pair) {
            agenda.push(Candidate { priority: m, pos: i });
        }
        i += 1;
    }
    agenda
}

/// Works off all candidates of `ids`.
pub fn merge_tokens(rules: &PairMap, ids: Vec<usize>) -> (r: Vec<usize>)
    ensures
        r@ == merged(rules@, ids@),
{
    if ids.len() <= 1 {
        assert(candidates(rules@, place(ids@), ids@.len() - 1) == Multiset::<Candidate>::empty());
        assert(ids@ =~= ids_of(place(ids@)));
        return ids;
    }
    let n: usize = ids.len();
    let ghost mut row = place(ids@);
    let mut agenda = first_agenda(rules, &ids);
    let mut chain = Chain::new(ids);
    let ghost goal = work_off(rules@, row, agenda@);
    loop
        invariant
            chain.size() == n,
            agenda.inv(),
            within(agenda@, n as int),
            chain.shows(row),
            goal == work_off(rules@, row, agenda@),
        ensures
            chain.shows(row),
            goal == row,
        decreases 2 * row.len() + agenda@.len(),
    {
        let ghost before = agenda@;
        let c: Candidate = match agenda.pop() {
            Some(c) => c,
            None => {
                assert(!exists|c: Candidate| is_first(before, c));
                break;
            },
        };
        let pos: usize = c.pos;
        proof {
            chain.lemma_sizes(row);
        }
        if !chain.active[pos] {
            proof {
                assert forall|k: int| starts_at(row, k, pos as int) implies !mergeable(
                    rules@,
                    row,
                    k,
                ) by {
                    chain.lemma_node(row, k);
                }
                lemma_work_off_drop(rules@, row, before, c);
            }
            continue ;
        }
        let ghost k = chain.lemma_slot(row, pos as int);
        let right: usize = match chain.next[pos] {
            Some(r) => r,
            None => {
                proof {
                    lemma_work_off_drop(rules@, row, before, c);
                }
                continue ;
            },
        };
        proof {
            chain.lemma_node(row, k + 1);
        }
        let pair: Pair = (chain.ids[pos], chain.ids[right]);
        let id: usize = match rules.get(pair) {
            Some(id) => id,
            None => {
                proof {
                    lemma_work_off_drop(rules@, row, before, c);
                }
                continue ;
            },
        };
        proof {
            lemma_work_off_merge(rules@, row, before, c, k);
        }
        chain.absorb(pos, right, id, Ghost(row), Ghost(k));
        proof {
            row = merge_at(rules@, row, k);
            chain.lemma_sizes(row);
            chain.lemma_node(row, k);
            if k > 0 {
                chain.lemma_node(row, k - 1);
            }
            if k + 1 < row.len() {
                chain.lemma_node(row, k + 1);
            }
        }
        if let Some(l) = chain.prev[pos] {
            let pair: Pair = (chain.ids[l], chain.ids[pos]);
            assert(pair == pair_at(row, k - 1));
            if let Some(m) = rules.get(pair) {
                agenda.push(Candidate { priority: m, pos: l });
            }
        }
        let ghost with_left = agenda@;
        assert(with_left == with_candidate(before.remove(c), rules@, row, k - 1));
        if let Some(r) = chain.next[pos] {
            let pair: Pair = (chain.ids[pos], chain.ids[r]);
            assert(pair == pair_at(row, k));
            if let Some(m) = rules.get(pair) {
                agenda.push(Candidate { priority: m, pos });
            }
        }
        assert(agenda@ == with_candidate(with_left, rules@, row, k));
    }
    chain.collect(Ghost(row))
}

/// Whether every place of a row that a rule merges has a candidate on the agenda.
spec fn covered(rules: Rules, row: Seq<Placed>, agenda: Multiset<Candidate>) -> bool {
    forall|k: int| #[trigger]
        mergeable(rules, row, k) ==> exists|c: Candidate|
            #[trigger] agenda.count(c) > 0 && c.pos == row[k].0
}

/// The place of a row that comes before its merge at `k` for the place `j` behind it.
spec fn place_before(k: int, j: int) -> int {
    if j <= k {
        j
    } else {
        j + 1
    }
}

/// A merge keeps the row ascending and every place covered that it does not touch.
proof fn lemma_merge_covered(
    rules: Rules,
    row: Seq<Placed>,
    agenda: Multiset<Candidate>,
    c: Candidate,
    k: int,
)
    requires
        ascending(row),
        covered(rules, row, agenda),
        agenda.count(c) > 0,
        starts_at(row, k, c.pos as int),
        mergeable(rules, row, k),
    ensures
        ({
            let next = merge_at(rules, row, k);
            let with_left = with_candidate(agenda.remove(c), rules, next, k - 1);
            &&& ascending(next)
            &&& covered(rules, next, with_candidate(with_left, rules, next, k))
        }),
{
    let next = merge_at(rules, row, k);
    let rest = agenda.remove(c);
    let with_left = with_candidate(rest, rules, next, k - 1);
    let with_both = with_candidate(with_left, rules, next, k);
    assert forall|j: int| 0 <= j < next.len() implies (#[trigger] next[j]).0 == row[place_before(
        k,
        j,
    )].0 && (j != k ==> next[j] == row[place_before(k, j)]) by {}
    assert forall|a: int, b: int| 0 <= a < b < next.len() implies (#[trigger] next[a]).0 < (
    #[trigger] next[b]).0 by {
        assert(row[place_before(k, a)].0 < row[place_before(k, b)].0);
    }
    assert forall|j: int| #[trigger] mergeable(rules, next, j) implies exists|d: Candidate|
        #[trigger] with_both.count(d) > 0 && d.pos == next[j].0 by {
        if j == k {
            assert(with_both.count(candidate(rules, next, k)) > 0);
        } else if j == k - 1 {
            assert(with_left.count(candidate(rules, next, k - 1)) > 0);
            assert(with_both.count(candidate(rules, next, k - 1)) > 0);
        } else {
            let o = place_before(k, j);
            assert(next[j] == row[o]);
            assert(next[j + 1] == row[place_before(k, j + 1)]);
            assert(mergeable(rules, row, o));
            let d = choose|d: Candidate| #[trigger] agenda.count(d) > 0 && d.pos == row[o].0;
            if o < k {
                assert(row[o].0 < row[k].0);
            } else {
                assert(row[k].0 < row[o].0);
            }
            assert(d != c);
            assert(rest.count(d) == agenda.count(d));
            assert(with_both.count(d) > 0);
        }
    }
}

/// When the agenda is worked off, no rule merges two neighbours any more.
proof fn lemma_work_off_saturates(rules: Rules, row: Seq<Placed>, agenda: Multiset<Candidate>)
    requires
        ascending(row),
        covered(rules, row, agenda),
    ensures
        forall|k: int| !mergeable(rules, work_off(rules, row, agenda), k),
    decreases 2 * row.len() + agenda.len(),
{
    if exists|c: Candidate| is_first(agenda, c) {
        let c = choose|c: Candidate| is_first(agenda, c);
        let rest = agenda.remove(c);
        if exists|k: int| starts_at(row, k, c.pos as int) && mergeable(rules, row, k) {
            let k = choose|k: int| starts_at(row, k, c.pos as int) && mergeable(rules, row, k);
            let next = merge_at(rules, row, k);
            let with_left = with_candidate(rest, rules, next, k - 1);
            lemma_merge_covered(rules, row, agenda, c, k);
            let with_both = with_candidate(with_left, rules, next, k);
            lemma_work_off_saturates(rules, next, with_both);
            assert(work_off(rules, row, agenda) == work_off(rules, next, with_both));
        } else {
            assert forall|k: int| #[trigger] mergeable(rules, row, k) implies exists|d: Candidate|
                #[trigger] rest.count(d) > 0 && d.pos == row[k].0 by {
                let d = choose|d: Candidate| #[trigger] agenda.count(d) > 0 && d.pos == row[k].0;
                assert(starts_at(row, k, d.pos as int));
                assert(d != c);
                assert(rest.count(d) == agenda.count(d));
            }
            lemma_work_off_saturates(rules, row, rest);
            assert(work_off(rules, row, agenda) == work_off(rules, row, rest));
        }
    } else {
        assert(work_off(rules, row, agenda) == row);
        if agenda.len() > 0 {
            lemma_first_exists(agenda);
        }
        assert forall|k: int| !mergeable(rules, row, k) by {
            if mergeable(rules, row, k) {
                let d = choose|d: Candidate| #[trigger] agenda.count(d) > 0 && d.pos == row[k].0;
                assert(agenda.count(d) <= agenda.len());
            }
        }
    }
}

/// The candidates before `n` cover the places before `n`.
proof fn lemma_candidates_cover(rules: Rules, row: Seq<Placed>, n: int, k: int)
    requires
        mergeable(rules, row, k),
        k < n,
    ensures
        candidates(rules, row, n).count(candidate(rules, row, k)) > 0,
    decreases n,
{
    if k < n - 1 {
        lemma_candidates_cover(rules, row, n - 1, k);
    }
}

/// Merging leaves no two neighbours that a rule could still merge.
pub proof fn law_merging_is_complete(rules: Rules, ids: Seq<usize>, k: int)
    requires
        ids.len() <= usize::MAX,
        0 <= k < merged(rules, ids).len() - 1,
    ensures
        !rules.contains_key((merged(rules, ids)[k], merged(rules, ids)[k + 1])),
{
    let row = place(ids);
    let agenda = candidates(rules, row, row.len() - 1);
    assert forall|k: int| #[trigger] mergeable(rules, row, k) implies exists|c: Candidate|
        #[trigger] agenda.count(c) > 0 && c.pos == row[k].0 by {
        lemma_candidates_cover(rules, row, row.len() - 1, k);
        assert(agenda.count(candidate(rules, row, k)) > 0);
    }
    lemma_work_off_saturates(rules, row, agenda);
    assert(!mergeable(rules, work_off(rules, row, agenda), k));
}

proof fn lemma_work_off_len(rules: Rules, row: Seq<Placed>, agenda: Multiset<Candidate>)
    ensures
        work_off(rules, row, agenda).len() <= row.len(),
        row.len() > 0 ==> work_off(rules, row, agenda).len() > 0,
    decreases 2 * row.len() + agenda.len(),
{
    if exists|c: Candidate| is_first(agenda, c) {
        let c = choose|c: Candidate| is_first(agenda, c);
        let rest = agenda.remove(c);
        if exists|k: int| starts_at(row, k, c.pos as int) && mergeable(rules, row, k) {
            let k = choose|k: int| starts_at(row, k, c.pos as int) && mergeable(rules, row, k);
            let next = merge_at(rules, row, k);
            let with_left = with_candidate(rest, rules, next, k - 1);
            lemma_work_off_len(rules, next, with_candidate(with_left, rules, next, k));
        } else {
            lemma_work_off_len(rules, row, rest);
        }
    }
}

/// Merging never makes a row longer, and never makes it vanish.
pub proof fn law_merging_shortens(rules: Rules, ids: Seq<usize>)
    ensures
        merged(rules, ids).len() <= ids.len(),
        ids.len() > 0 ==> merged(rules, ids).len() > 0,
{
    let row = place(ids);
    lemma_work_off_len(rules, row, candidates(rules, row, row.len() - 1));
}

/// Whether every id of a row is below `n`.
spec fn ids_below(row: Seq<Placed>, n: nat) -> bool {
    forall|i: int| 0 <= i < row.len() ==> (#[trigger] row[i]).1 < n
}

proof fn lemma_work_off_below(
    rules: Rules,
    row: Seq<Placed>,
    agenda: Multiset<Candidate>,
    n: nat,
)
    requires
        forall|p: Pair| #[trigger] rules.contains_key(p) ==> rules[p] < n,
        ids_below(row, n),
    ensures
        ids_below(work_off(rules, row, agenda), n),
    decreases 2 * row.len() + agenda.len(),
{
    if exists|c: Candidate| is_first(agenda, c) {
        let c = choose|c: Candidate| is_first(agenda, c);
        let rest = agenda.remove(c);
        if exists|k: int| starts_at(row, k, c.pos as int) && mergeable(rules, row, k) {
            let k = choose|k: int| starts_at(row, k, c.pos as int) && mergeable(rules, row, k);
            let next = merge_at(rules, row, k);
            let with_left = with_candidate(rest, rules, next, k - 1);
            let with_both = with_candidate(with_left, rules, next, k);
            assert forall|i: int| 0 <= i < next.len() implies (#[trigger] next[i]).1 < n by {
                if i < k {
                    assert(next[i] == row[i]);
                } else if i > k {
                    assert(next[i] == row[i + 1]);
                }
            }
            lemma_work_off_below(rules, next, with_both, n);
            assert(work_off(rules, row, agenda) == work_off(rules, next, with_both));
        } else {
            lemma_work_off_below(rules, row, rest, n);
            assert(work_off(rules, row, agenda) == work_off(rules, row, rest));
        }
    } else {
        assert(work_off(rules, row, agenda) == row);
    }
}

/// Where all ids and all tokens that the rules make are below `n`, so is what merging
/// leaves.
pub proof fn law_merging_stays_below(rules: Rules, ids: Seq<usize>, n: nat)
    requires
        forall|p: Pair| #[trigger] rules.contains_key(p) ==> rules[p] < n,
        forall|i: int| 0 <= i < ids.len() ==> #[trigger] ids[i] < n,
    ensures
        forall|i: int| 0 <= i < merged(rules, ids).len() ==> #[trigger] merged(rules, ids)[i] < n,
{
    let row = place(ids);
    let agenda = candidates(rules, row, row.len() - 1);
    lemma_work_off_below(rules, row, agenda, n);
    let end = work_off(rules, row, agenda);
    assert forall|i: int| 0 <= i < merged(rules, ids).len() implies #[trigger] merged(rules, ids)[i]
        < n by {
        assert(end[i].1 < n);
    }
}

} // verus!
