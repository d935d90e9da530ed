//! The agenda of pending merges: a max-heap of candidates.
use vstd::multiset::Multiset;
use vstd::prelude::*;
use vstd::seq_lib::group_to_multiset_ensures;

verus! {

/// A place where two neighbouring tokens may be merged.
///
/// `priority` is the id of the token that the merge would give, and `pos` is the
/// position of the left one of the two tokens.
#[derive(Clone, Copy, Debug, PartialEq, Eq, Structural)]
pub struct Candidate {
    pub priority: usize,
    pub pos: usize,
}

impl Candidate {
    /// Whether this candidate is served before `other`: the smaller priority goes
    /// first, and among equal priorities the place further to the right.
    pub open spec fn before(self, other: Candidate) -> bool {
        self.priority < other.priority || (self.priority == other.priority && self.pos
            > other.pos)
    }

    /// Tells whether this candidate is served before `other`.
    pub fn goes_before(&self, other: &Candidate) -> (b: bool)
        ensures
            b == self.before(*other),
    {
        self.priority < other.priority || (self.priority == other.priority && self.pos
            > other.pos)
    }
}

/// Whether `c` is in `m` and nothing in `m` is served before it.
pub open spec fn is_first(m: Multiset<Candidate>, c: Candidate) -> bool {
    &&& m.count(c) > 0
    &&& forall|d: Candidate| m.count(d) > 0 ==> !(#[trigger] d.before(c))
}

/// At most one candidate is the first of an agenda.
pub proof fn lemma_first_unique(m: Multiset<Candidate>, c: Candidate, d: Candidate)
    requires
        is_first(m, c),
        is_first(m, d),
    ensures
        c == d,
{
    assert(!c.before(d));
    assert(!d.before(c));
}

/// An agenda that is not empty has a first candidate.
pub proof fn lemma_first_exists(m: Multiset<Candidate>)
    requires
        m.len() > 0,
    ensures
        exists|c: Candidate| is_first(m, c),
    decreases m.len(),
{
    let a = m.choose();
    let rest = m.remove(a);
    assert(m.count(a) > 0);
    if rest.len() == 0 {
        assert forall|d: Candidate| m.count(d) > 0 implies !(#[trigger] d.before(a)) by {
            if d != a {
                assert(rest.count(d) == m.count(d));
                assert(rest.count(d) <= rest.len());
            }
        }
        assert(is_first(m, a));
    } else {
        lemma_first_exists(rest);
        let b = choose|c: Candidate| is_first(rest, c);
        let f = if a.before(b) {
            a
        } else {
            b
        };
        assert forall|d: Candidate| m.count(d) > 0 implies !(#[trigger] d.before(f)) by {
            if d != a {
                assert(rest.count(d) == m.count(d));
                assert(!d.before(b));
            } else {
                assert(!a.before(a));
            }
        }
        assert(m.count(b) >= rest.count(b));
        assert(is_first(m, f));
    }
}

/// A priority queue of candidates that may hold equal ones more than once.
pub struct Agenda {
    items: Vec<Candidate>,
}

impl View for Agenda {
    type V = Multiset<Candidate>;

    closed spec fn view(&self) -> Multiset<Candidate> {
        self.items@.to_multiset()
    }
}

/// Whether no item of `s` is served before its parent in the heap.
spec fn heap_ordered(s: Seq<Candidate>) -> bool {
    forall|i: int| 0 < i < s.len() ==> !(#[trigger] s[i].before(s[(i - 1) / 2]))
}

/// As `heap_ordered`, but `hole` itself may go before its parent; the children of `hole`
/// respect that parent too.
spec fn ordered_up_to(s: Seq<Candidate>, hole: int) -> bool {
    &&& forall|i: int|
        0 < i < s.len() && i != hole ==> !(#[trigger] s[i].before(s[(i - 1) / 2]))
    &&& forall|i: int|
        0 < i < s.len() && (i - 1) / 2 == hole && hole > 0 ==> !(#[trigger] s[i].before(
            s[(hole - 1) / 2],
        ))
}

/// As `heap_ordered`, but the children of `hole` need not respect it; they respect the
/// parent of `hole`.
spec fn ordered_but_below(s: Seq<Candidate>, hole: int) -> bool {
    &&& forall|i: int|
        0 < i < s.len() && (i - 1) / 2 != hole ==> !(#[trigger] s[i].before(s[(i - 1) / 2]))
    &&& forall|i: int|
        0 < i < s.len() && (i - 1) / 2 == hole && hole > 0 ==> !(#[trigger] s[i].before(
            s[(hole - 1) / 2],
        ))
}

/// Exchanging two items keeps what a sequence holds.
proof fn lemma_swap_multiset(s: Seq<Candidate>, i: int, j: int)
    requires
        0 <= i < s.len(),
        0 <= j < s.len(),
    ensures
        s.update(i, s[j]).update(j, s[i]).to_multiset() =~= s.to_multiset(),
{
    broadcast use group_to_multiset_ensures;

    let t = s.update(i, s[j]);
    assert(t.to_multiset() == s.to_multiset().insert(s[j]).remove(s[i]));
    assert(t.update(j, s[i]).to_multiset() == t.to_multiset().insert(s[i]).remove(t[j]));
    assert(s.contains(s[i]) && s.contains(s[j]));
    assert(s.to_multiset().count(s[i]) > 0);
}

/// The root of a heap is its first candidate.
proof fn lemma_root_first(s: Seq<Candidate>, i: int)
    requires
        heap_ordered(s),
        0 <= i < s.len(),
    ensures
        !s[i].before(s[0]),
    decreases i,
{
    if i > 0 {
        lemma_root_first(s, (i - 1) / 2);
        assert(!s[i].before(s[(i - 1) / 2]));
    }
}

impl Agenda {
    /// Whether the items are laid out as a heap.
    pub closed spec fn inv(self) -> bool {
        heap_ordered(self.items@)
    }

    /// An agenda without candidates.
    pub fn new() -> (a: Agenda)
        ensures
            a.inv(),
            a@ == Multiset::<Candidate>::empty(),
    {
        broadcast use group_to_multiset_ensures;

        let a = Agenda { items: Vec::new() };
        assert(a.items@.to_multiset() =~= Multiset::empty()) by {
            assert forall|c: Candidate| a.items@.to_multiset().count(c) == 0 by {
                assert(!a.items@.contains(c));
            }
        }
        a
    }

    /// Adds a candidate.
    pub fn push(&mut self, c: Candidate)
        requires
            old(self).inv(),
        ensures
            final(self).inv(),
            final(self)@ == old(self)@.insert(c),
    {
        broadcast use group_to_multiset_ensures;

        let ghost before = self.items@;
        let mut hole: usize = self.items.len();
        self.items.push(c);
        while hole > 0
            invariant
                hole < self.items@.len(),
                ordered_up_to(self.items@, hole as int),
                self.items@.to_multiset() =~= before.to_multiset().insert(c),
            ensures
                heap_ordered(self.items@),
                self.items@.to_multiset() =~= before.to_multiset().insert(c),
            decreases hole,
        {
            let parent: usize = (hole - 1) / 2;
            let child_item: Candidate = self.items[hole];
            let parent_item: Candidate = self.items[parent];
            if !child_item.goes_before(&parent_item) {
                break;
            }
            let ghost s = self.items@;
            self.items[hole] = parent_item;
            self.items[parent] = child_item;
            proof {
                let t = self.items@;
                lemma_swap_multiset(s, hole as int, parent as int);
                assert(t =~= s.update(hole as int, s[parent as int]).update(
                    parent as int,
                    s[hole as int],
                ));
                assert forall|i: int| 0 < i < t.len() && i != parent implies !(
                #[trigger] t[i].before(t[(i - 1) / 2])) by {
                    assert(!s[i].before(s[(i - 1) / 2]) || i == hole);
                }
                assert forall|i: int|
                    0 < i < t.len() && (i - 1) / 2 == parent && parent > 0 implies !(
                #[trigger] t[i].before(t[(parent - 1) / 2])) by {
                    assert(!s[parent as int].before(s[(parent - 1) / 2]));
                    assert(!s[i].before(s[(i - 1) / 2]) || i == hole);
                }
            }
            hole = parent;
        }
    }

    /// Takes the candidate that is served first, if there is one.
    pub fn pop(&mut self) -> (r: Option<Candidate>)
        requires
            old(self).inv(),
        ensures
            final(self).inv(),
            match r {
                Some(c) => is_first(old(self)@, c) && final(self)@ == old(self)@.remove(c),
                None => old(self)@.len() == 0 && final(self)@ == old(self)@,
            },
    {
        broadcast use group_to_multiset_ensures;

        let ghost before = self.items@;
        if self.items.len() == 0 {
            return None;
        }
        let top: Candidate = self.items[0];
        proof {
            assert forall|d: Candidate| before.to_multiset().count(d) > 0 implies !(
            #[trigger] d.before(top)) by {
                assert(before.contains(d));
                let i = choose|i: int| 0 <= i < before.len() && before[i] == d;
                lemma_root_first(before, i);
            }
            assert(before.contains(top));
            assert(is_first(before.to_multiset(), top));
        }
        self.items.swap_remove(0);
        proof {
            let u = before.update(0, before.last());
            assert(self.items@ == u.drop_last());
            assert(u.drop_last() =~= u.remove(u.len() - 1));
            assert(u.to_multiset() == before.to_multiset().insert(before.last()).remove(top));
            assert(u.last() == before.last());
            assert(before.contains(before.last()));
            assert(self.items@.to_multiset() =~= before.to_multiset().remove(top));
        }
        let n: usize = self.items.len();
        let mut hole: usize = 0;
        proof {
            let t = self.items@;
            assert forall|i: int| 0 < i < t.len() && (i - 1) / 2 != 0 implies !(
            #[trigger] t[i].before(t[(i - 1) / 2])) by {
                assert(t[i] == before[i]);
                assert(!before[i].before(before[(i - 1) / 2]));
            }
        }
        while n > 0 && hole < n / 2
            invariant
                n == self.items@.len(),
                n > 0 ==> hole < n,
                ordered_but_below(self.items@, hole as int),
                self.items@.to_multiset() =~= before.to_multiset().remove(top),
            ensures
                heap_ordered(self.items@),
                self.items@.to_multiset() =~= before.to_multiset().remove(top),
            decreases n - hole,
        {
            let left: usize = 2 * hole + 1;
            let mut child: usize = left;
            if left + 1 < n {
                let right_item: Candidate = self.items[left + 1];
                let left_item: Candidate = self.items[left];
                if right_item.goes_before(&left_item) {
                    child = left + 1;
                }
            }
            let child_item: Candidate = self.items[child];
            let hole_item: Candidate = self.items[hole];
            let ghost s = self.items@;
            if !child_item.goes_before(&hole_item) {
                assert forall|i: int| 0 < i < s.len() implies !(#[trigger] s[i].before(
                    s[(i - 1) / 2],
                )) by {
                    if (i - 1) / 2 == hole {
                        assert(i == left || i == left + 1);
                        assert(!s[i].before(child_item));
                    }
                }
                break;
            }
            self.items[hole] = child_item;
            self.items[child] = hole_item;
            proof {
                let t = self.items@;
                lemma_swap_multiset(s, hole as int, child as int);
                assert(t =~= s.update(hole as int, s[child as int]).update(
                    child as int,
                    s[hole as int],
                ));
                assert forall|i: int| 0 < i < t.len() && (i - 1) / 2 != child implies !(
                #[trigger] t[i].before(t[(i - 1) / 2])) by {
                    if (i - 1) / 2 == hole {
                        assert(i == left || i == left + 1);
                        assert(!s[i].before(child_item));
                    } else if i == hole {
                        assert(!s[child as int].before(s[(hole - 1) / 2]));
                    } else {
                        assert(!s[i].before(s[(i - 1) / 2]));
                    }
                }
                assert forall|i: int|
                    0 < i < t.len() && (i - 1) / 2 == child && child > 0 implies !(
                #[trigger] t[i].before(t[(child - 1) / 2])) by {
                    assert(!s[i].before(s[(i - 1) / 2]));
                }
            }
            hole = child;
        }
        Some(top)
    }
}

} // verus!
