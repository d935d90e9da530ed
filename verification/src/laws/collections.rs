//! Of the collections: what was put in comes out.
use vstd::prelude::*;

use crate::agenda::{Agenda, Candidate};
use crate::laws::encoding::{law_agenda_serves_the_smallest_id_first, served_next};
use crate::pairs::{Pair, PairMap};
use crate::vocabulary::Vocabulary;

verus! {

/// After a pair has got a value, that is its value, and all other pairs have the value that
/// they had.
pub proof fn law_pair_gets_a_value(
    m: &mut PairMap,
    p: Pair,
    v: usize,
    q: Pair,
    before: Option<usize>,
    after: Option<usize>,
)
    requires
        call_ensures(PairMap::get, (old(m), q), before),
        call_ensures(PairMap::insert, (m, p, v), ()),
        call_ensures(PairMap::get, (final(m), q), after),
    ensures
        q == p ==> after == Some(v),
        q != p ==> after == before,
{
}

/// After a text has got an id, that is its id, and all other texts have the id that they
/// had.
pub proof fn law_text_gets_an_id(
    m: &mut Vocabulary,
    t: String,
    id: usize,
    u: &str,
    before: Option<usize>,
    after: Option<usize>,
)
    requires
        call_ensures(Vocabulary::get, (old(m), u), before),
        call_ensures(Vocabulary::insert, (m, t, id), ()),
        call_ensures(Vocabulary::get, (final(m), u), after),
    ensures
        u@ == t@ ==> after == Some(id),
        u@ != t@ ==> after == before,
{
}

/// In new maps nothing has a value.
pub proof fn law_new_maps_are_empty(
    m: PairMap,
    p: Pair,
    r: Option<usize>,
    v: Vocabulary,
    t: &str,
    q: Option<usize>,
    n: usize,
)
    requires
        call_ensures(PairMap::new, (), m),
        call_ensures(PairMap::get, (&m, p), r),
        call_ensures(Vocabulary::new, (), v),
        call_ensures(Vocabulary::get, (&v, t), q),
        call_ensures(Vocabulary::len, (&v,), n),
    ensures
        r is None,
        q is None,
        n == 0,
{
}

/// What is put on an agenda waits there, once more than before, and all else as before.
pub proof fn law_candidate_waits(a: &mut Agenda, c: Candidate, d: Candidate)
    requires
        call_ensures(Agenda::push, (a, c), ()),
    ensures
        final(a)@.count(d) == old(a)@.count(d) + if d == c {
            1int
        } else {
            0
        },
{
}

/// What comes off an agenda has the smallest id of all that wait, and of several such it is
/// the one furthest to the right. It then waits once less, and all else as before. Nothing
/// comes off only where nothing waits.
pub proof fn law_candidate_is_served(a: &mut Agenda, r: Option<Candidate>, d: Candidate)
    requires
        call_ensures(Agenda::pop, (a,), r),
    ensures
        match r {
            Some(c) => served_next(old(a)@, c) && final(a)@.count(d) == old(a)@.count(d) - if d == c {
                1int
            } else {
                0
            },
            None => old(a)@.len() == 0 && final(a)@ == old(a)@,
        },
{
    if let Some(c) = r {
        law_agenda_serves_the_smallest_id_first(old(a)@, c);
    }
}

} // verus!
