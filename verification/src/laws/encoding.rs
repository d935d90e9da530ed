//! Of encoding: which merges are made, and in what order.
use vstd::multiset::Multiset;
use vstd::prelude::*;

use crate::agenda::{is_first, lemma_first_exists, Candidate};
use crate::merging::{
    candidates, ids_of, merge_at, merged, mergeable, place, starts_at, with_candidate,
    work_off,
};
use crate::pairs::Pair;
use crate::tokenizer::{char_ids, BpeTokenizer};

verus! {

/// Whether a rule merges the token at `k` with its right neighbour. A row holds tokens as
/// the position of their first character and their id.
pub open spec fn can_merge(
    rules: Map<Pair, usize>,
    row: Seq<(usize, usize)>,
    k: int,
) -> bool {
    0 <= k < row.len() - 1 && rules.contains_key((row[k].1, row[k + 1].1))
}

/// Whether `row2` is `row` after the token at `k` and its right neighbour have been merged.
pub open spec fn merges_at(
    rules: Map<Pair, usize>,
    row: Seq<(usize, usize)>,
    k: int,
    row2: Seq<(usize, usize)>,
) -> bool {
    row2 == row.take(k).push((row[k].0, rules[(row[k].1, row[k + 1].1)])) + row.skip(k + 2)
}

/// Whether `c` says of the token at `k` where it is and which token it makes with its right
/// neighbour.
pub open spec fn notes(
    rules: Map<Pair, usize>,
    row: Seq<(usize, usize)>,
    k: int,
    c: Candidate,
) -> bool {
    &&& can_merge(rules, row, k)
    &&& c.priority == rules[(row[k].1, row[k + 1].1)]
    &&& c.pos == row[k].0
}

/// Whether `c` is the one of `m` that is served next: the one with the smallest id, and of
/// several the one furthest to the right.
pub open spec fn served_next(m: Multiset<Candidate>, c: Candidate) -> bool {
    &&& m.count(c) > 0
    &&& forall|d: Candidate| #[trigger]
        m.count(d) > 0 ==> c.priority < d.priority || (c.priority == d.priority && d.pos <= c.pos)
}

/// 1 for what is so, and 0 for what is not.
pub open spec fn one_if(b: bool) -> int {
    if b {
        1
    } else {
        0
    }
}

/// Whether serving `c` at `k` merges there: the two tokens become one, `c` leaves `m`, and
/// what the new token makes with its neighbours enters it. No token that could be made now
/// has a smaller id than the one that `c` says.
pub open spec fn served_by_merging(
    rules: Map<Pair, usize>,
    row: Seq<(usize, usize)>,
    m: Multiset<Candidate>,
    c: Candidate,
    k: int,
    row2: Seq<(usize, usize)>,
    m2: Multiset<Candidate>,
) -> bool {
    &&& can_merge(rules, row, k)
    &&& row[k].0 == c.pos
    &&& merges_at(rules, row, k, row2)
    &&& forall|d: Candidate| #[trigger]
        m2.count(d) == m.count(d) - one_if(d == c) + one_if(notes(rules, row2, k - 1, d)) + one_if(
            notes(rules, row2, k, d),
        )
    &&& forall|j: int| #[trigger]
        can_merge(rules, row, j) ==> c.priority <= rules[(row[j].1, row[j + 1].1)]
}

/// Whether serving `c` changes nothing but that it leaves `m`: no token that could be
/// merged starts where it says.
pub open spec fn served_in_vain(
    rules: Map<Pair, usize>,
    row: Seq<(usize, usize)>,
    m: Multiset<Candidate>,
    c: Candidate,
    row2: Seq<(usize, usize)>,
    m2: Multiset<Candidate>,
) -> bool {
    &&& forall|j: int| #[trigger] can_merge(rules, row, j) ==> row[j].0 != c.pos
    &&& row2 == row
    &&& forall|d: Candidate| #[trigger] m2.count(d) == m.count(d) - one_if(d == c)
}

/// Whether serving `c` turns `row` and `m` into `row2` and `m2`.
pub open spec fn served(
    rules: Map<Pair, usize>,
    row: Seq<(usize, usize)>,
    m: Multiset<Candidate>,
    c: Candidate,
    row2: Seq<(usize, usize)>,
    m2: Multiset<Candidate>,
) -> bool {
    &&& served_next(m, c)
    &&& served_in_vain(rules, row, m, c, row2, m2) || exists|k: int|
        served_by_merging(rules, row, m, c, k, row2, m2)
}

/// Whether `rows` and `ms` are what serving `cs` one after the other makes of the first of
/// them, until none is left.
pub open spec fn served_in_turn(
    rules: Map<Pair, usize>,
    rows: Seq<Seq<(usize, usize)>>,
    ms: Seq<Multiset<Candidate>>,
    cs: Seq<Candidate>,
) -> bool {
    let n = cs.len() as int;
    &&& rows.len() == n + 1
    &&& ms.len() == n + 1
    &&& forall|i: int|
        0 <= i < n ==> served(rules, rows[i], ms[i], #[trigger] cs[i], rows[i + 1], ms[i + 1])
    &&& ms[n].len() == 0
}

/// Whether the tokens of a row start at ever greater positions.
spec fn rising(row: Seq<(usize, usize)>) -> bool {
    forall|i: int, j: int| 0 <= i < j < row.len() ==> (#[trigger] row[i]).0 < (#[trigger] row[j]).0
}

/// Whether all that could be merged now is noted.
spec fn all_noted(
    rules: Map<Pair, usize>,
    row: Seq<(usize, usize)>,
    m: Multiset<Candidate>,
) -> bool {
    forall|k: int, c: Candidate| #[trigger] notes(rules, row, k, c) ==> m.count(c) > 0
}

/// What `merge_at` makes of a row, place by place.
proof fn lemma_merge_places(rules: Map<Pair, usize>, row: Seq<(usize, usize)>, k: int)
    requires
        rising(row),
        can_merge(rules, row, k),
    ensures
        merges_at(rules, row, k, merge_at(rules, row, k)),
        rising(merge_at(rules, row, k)),
        merge_at(rules, row, k).len() == row.len() - 1,
        forall|j: int| 0 <= j < k ==> #[trigger] merge_at(rules, row, k)[j] == row[j],
        merge_at(rules, row, k)[k] == (row[k].0, rules[(row[k].1, row[k + 1].1)]),
        forall|j: int|
            k < j < row.len() - 1 ==> #[trigger] merge_at(rules, row, k)[j] == row[j + 1],
{
    let next = merge_at(rules, row, k);
    assert(next =~= row.take(k).push((row[k].0, rules[(row[k].1, row[k + 1].1)])) + row.skip(k + 2));
    assert forall|a: int, b: int| 0 <= a < b < next.len() implies (#[trigger] next[a]).0 < (
    #[trigger] next[b]).0 by {
        let oa = if a <= k {
            a
        } else {
            a + 1
        };
        let ob = if b <= k {
            b
        } else {
            b + 1
        };
        assert(row[oa].0 < row[ob].0);
    }
}

/// A note of the row after a merge, away from the merge, is a note of the row before.
proof fn lemma_note_before(
    rules: Map<Pair, usize>,
    row: Seq<(usize, usize)>,
    k: int,
    j: int,
    d: Candidate,
)
    requires
        rising(row),
        can_merge(rules, row, k),
        notes(rules, merge_at(rules, row, k), j, d),
        j != k,
        j != k - 1,
    ensures
        notes(
            rules,
            row,
            if j < k {
                j
            } else {
                j + 1
            },
            d,
        ),
        d.pos != row[k].0,
{
    lemma_merge_places(rules, row, k);
    let next = merge_at(rules, row, k);
    if j < k {
        assert(next[j] == row[j] && next[j + 1] == row[j + 1]);
        assert(row[j].0 < row[k].0);
    } else {
        assert(next[j] == row[j + 1] && next[j + 1] == row[j + 1 + 1]);
        assert(row[k].0 < row[j + 1].0);
    }
}

proof fn lemma_with_candidate_count(
    m: Multiset<Candidate>,
    rules: Map<Pair, usize>,
    row: Seq<(usize, usize)>,
    k: int,
    d: Candidate,
)
    ensures
        with_candidate(m, rules, row, k).count(d) == m.count(d) + one_if(notes(rules, row, k, d)),
{
    assert(mergeable(rules, row, k) <==> can_merge(rules, row, k));
}

/// What an agenda serves first has the smallest id of all that wait, and of several such it
/// is the one furthest to the right.
pub proof fn law_agenda_serves_the_smallest_id_first(m: Multiset<Candidate>, c: Candidate)
    requires
        is_first(m, c),
    ensures
        served_next(m, c),
{
    assert forall|d: Candidate| #[trigger] m.count(d) > 0 implies c.priority < d.priority || (
    c.priority == d.priority && d.pos <= c.pos) by {
        assert(!d.before(c));
    }
}

proof fn lemma_nothing_waits(m: Multiset<Candidate>)
    requires
        !exists|c: Candidate| is_first(m, c),
    ensures
        m.len() == 0,
{
    if m.len() > 0 {
        lemma_first_exists(m);
    }
}

/// One merge, as the agenda sees it.
proof fn lemma_serve_merge(
    rules: Map<Pair, usize>,
    row: Seq<(usize, usize)>,
    m: Multiset<Candidate>,
    c: Candidate,
    k: int,
)
    requires
        rising(row),
        all_noted(rules, row, m),
        is_first(m, c),
        starts_at(row, k, c.pos as int),
        mergeable(rules, row, k),
    ensures
        ({
            let next = merge_at(rules, row, k);
            let m2 = with_candidate(
                with_candidate(m.remove(c), rules, next, k - 1),
                rules,
                next,
                k,
            );
            &&& served_by_merging(rules, row, m, c, k, next, m2)
            &&& rising(next)
            &&& all_noted(rules, next, m2)
        }),
{
    let next = merge_at(rules, row, k);
    let with_left = with_candidate(m.remove(c), rules, next, k - 1);
    let m2 = with_candidate(with_left, rules, next, k);
    lemma_merge_places(rules, row, k);
    law_agenda_serves_the_smallest_id_first(m, c);
    assert forall|d: Candidate| #[trigger]
        m2.count(d) == m.count(d) - one_if(d == c) + one_if(notes(rules, next, k - 1, d)) + one_if(
            notes(rules, next, k, d),
        ) by {
        lemma_with_candidate_count(m.remove(c), rules, next, k - 1, d);
        lemma_with_candidate_count(with_left, rules, next, k, d);
    }
    assert forall|j: int| #[trigger] can_merge(rules, row, j) implies c.priority
        <= rules[(row[j].1, row[j + 1].1)] by {
        let d = Candidate { priority: rules[(row[j].1, row[j + 1].1)], pos: row[j].0 };
        assert(notes(rules, row, j, d));
        assert(m.count(d) > 0);
    }
    assert forall|j: int, d: Candidate| #[trigger] notes(rules, next, j, d) implies m2.count(d)
        > 0 by {
        if j != k && j != k - 1 {
            lemma_note_before(rules, row, k, j, d);
            assert(m.count(d) > 0);
            assert(d != c);
        }
        assert(m2.count(d) == m.count(d) - one_if(d == c) + one_if(notes(rules, next, k - 1, d))
            + one_if(notes(rules, next, k, d)));
    }
}

/// One candidate that merges nothing.
proof fn lemma_serve_in_vain(
    rules: Map<Pair, usize>,
    row: Seq<(usize, usize)>,
    m: Multiset<Candidate>,
    c: Candidate,
)
    requires
        all_noted(rules, row, m),
        is_first(m, c),
        !exists|k: int| starts_at(row, k, c.pos as int) && mergeable(rules, row, k),
    ensures
        served_in_vain(rules, row, m, c, row, m.remove(c)),
        all_noted(rules, row, m.remove(c)),
{
    assert forall|j: int| #[trigger] can_merge(rules, row, j) implies row[j].0 != c.pos by {
        if row[j].0 == c.pos {
            assert(starts_at(row, j, c.pos as int) && mergeable(rules, row, j));
        }
    }
    assert forall|j: int, d: Candidate| #[trigger] notes(rules, row, j, d) implies m.remove(
        c,
    ).count(d) > 0 by {
        assert(m.count(d) > 0);
        assert(can_merge(rules, row, j));
        assert(d != c);
    }
}

proof fn lemma_served_in_turn(
    rules: Map<Pair, usize>,
    row: Seq<(usize, usize)>,
    m: Multiset<Candidate>,
) -> (r: (Seq<Seq<(usize, usize)>>, Seq<Multiset<Candidate>>, Seq<Candidate>))
    requires
        rising(row),
        all_noted(rules, row, m),
    ensures
        served_in_turn(rules, r.0, r.1, r.2),
        r.0[0] == row,
        r.1[0] == m,
        r.0.last() == work_off(rules, row, m),
    decreases 2 * row.len() + m.len(),
{
    if exists|c: Candidate| is_first(m, c) {
        let c = choose|c: Candidate| is_first(m, c);
        let rest = m.remove(c);
        law_agenda_serves_the_smallest_id_first(m, c);
        if exists|k: int| starts_at(row, k, c.pos as int) && mergeable(rules, row, k) {
            let k = choose|k: int| starts_at(row, k, c.pos as int) && mergeable(rules, row, k);
            let next = merge_at(rules, row, k);
            let m2 = with_candidate(with_candidate(rest, rules, next, k - 1), rules, next, k);
            lemma_serve_merge(rules, row, m, c, k);
            let (rows, ms, cs) = lemma_served_in_turn(rules, next, m2);
            assert(work_off(rules, row, m) == work_off(rules, next, m2));
            lemma_one_more(rules, row, m, c, rows, ms, cs);
            (seq![row] + rows, seq![m] + ms, seq![c] + cs)
        } else {
            lemma_serve_in_vain(rules, row, m, c);
            let (rows, ms, cs) = lemma_served_in_turn(rules, row, rest);
            assert(work_off(rules, row, m) == work_off(rules, row, rest));
            lemma_one_more(rules, row, m, c, rows, ms, cs);
            (seq![row] + rows, seq![m] + ms, seq![c] + cs)
        }
    } else {
        lemma_nothing_waits(m);
        assert(work_off(rules, row, m) == row);
        (seq![row], seq![m], Seq::empty())
    }
}

proof fn lemma_one_more(
    rules: Map<Pair, usize>,
    row: Seq<(usize, usize)>,
    m: Multiset<Candidate>,
    c: Candidate,
    rows: Seq<Seq<(usize, usize)>>,
    ms: Seq<Multiset<Candidate>>,
    cs: Seq<Candidate>,
)
    requires
        served_in_turn(rules, rows, ms, cs),
        served(rules, row, m, c, rows[0], ms[0]),
    ensures
        served_in_turn(rules, seq![row] + rows, seq![m] + ms, seq![c] + cs),
        (seq![row] + rows).last() == rows.last(),
{
    let rows2 = seq![row] + rows;
    let ms2 = seq![m] + ms;
    let cs2 = seq![c] + cs;
    let n = cs2.len() as int;
    assert forall|i: int| 0 <= i < n implies served(
        rules,
        rows2[i],
        ms2[i],
        #[trigger] cs2[i],
        rows2[i + 1],
        ms2[i + 1],
    ) by {
        if i > 0 {
            assert(cs2[i] == cs[i - 1]);
            assert(rows2[i] == rows[i - 1] && rows2[i + 1] == rows[i - 1 + 1]);
            assert(ms2[i] == ms[i - 1] && ms2[i + 1] == ms[i - 1 + 1]);
        }
    }
    assert(ms2[n] == ms[n - 1]);
}

/// Whether `m` notes what could be merged in `row`, each once, and nothing else.
pub open spec fn just_noted(
    rules: Map<Pair, usize>,
    row: Seq<(usize, usize)>,
    m: Multiset<Candidate>,
) -> bool {
    forall|c: Candidate| #[trigger]
        m.count(c) == one_if(exists|k: int| notes(rules, row, k, c))
}

proof fn lemma_first_notes(
    rules: Map<Pair, usize>,
    row: Seq<(usize, usize)>,
    n: int,
    c: Candidate,
)
    requires
        rising(row),
        0 <= n,
    ensures
        candidates(rules, row, n).count(c) == one_if(
            exists|k: int| k < n && #[trigger] notes(rules, row, k, c),
        ),
    decreases n,
{
    if n > 0 {
        lemma_first_notes(rules, row, n - 1, c);
        lemma_with_candidate_count(candidates(rules, row, n - 1), rules, row, n - 1, c);
        if notes(rules, row, n - 1, c) {
            assert forall|k: int| k < n - 1 implies !(#[trigger] notes(rules, row, k, c)) by {
                if notes(rules, row, k, c) {
                    assert(row[k].0 < row[n - 1].0);
                }
            }
        } else if exists|k: int| k < n && #[trigger] notes(rules, row, k, c) {
            let k = choose|k: int| k < n && #[trigger] notes(rules, row, k, c);
            assert(k < n - 1);
        }
    }
}

proof fn lemma_start(rules: Map<Pair, usize>, ids: Seq<usize>)
    requires
        ids.len() <= usize::MAX,
    ensures
        ({
            let row = place(ids);
            let m = candidates(rules, row, row.len() - 1);
            &&& rising(row)
            &&& just_noted(rules, row, m)
            &&& all_noted(rules, row, m)
        }),
{
    let row = place(ids);
    let m = candidates(rules, row, row.len() - 1);
    if ids.len() > 0 {
        assert forall|c: Candidate| #[trigger]
            m.count(c) == one_if(exists|k: int| notes(rules, row, k, c)) by {
            lemma_first_notes(rules, row, row.len() - 1, c);
            if exists|k: int| notes(rules, row, k, c) {
                let k = choose|k: int| notes(rules, row, k, c);
                assert(k < row.len() - 1);
            }
        }
    } else {
        assert(m =~= Multiset::empty());
    }
    assert forall|k: int, c: Candidate| #[trigger] notes(rules, row, k, c) implies m.count(c)
        > 0 by {
        assert(m.count(c) == one_if(exists|k: int| notes(rules, row, k, c)));
    }
}

/// Whether `row` holds the characters of a text, each at its own position, with its id in
/// `vocab`, or `unk` where it has none.
pub open spec fn characters(
    vocab: Map<Seq<char>, usize>,
    unk: usize,
    text: Seq<char>,
    row: Seq<(usize, usize)>,
) -> bool {
    &&& row.len() == text.len()
    &&& forall|i: int|
        0 <= i < text.len() ==> (#[trigger] row[i]).0 == i && row[i].1 == if vocab.contains_key(
            seq![text[i]],
        ) {
            vocab[seq![text[i]]]
        } else {
            unk
        }
}

/// Encoding starts from the characters and from what could be merged among them. It serves
/// what is noted, the smallest id first and at equal ids from the right, until nothing is
/// left; the ids that then stand in the row are the result.
pub proof fn law_encoding_serves_the_smallest_id_first(
    t: BpeTokenizer,
    text: &str,
    ids: Vec<usize>,
)
    requires
        text@.len() <= usize::MAX,
        call_ensures(BpeTokenizer::encode, (&t, text), ids),
    ensures
        exists|
            rows: Seq<Seq<(usize, usize)>>,
            ms: Seq<Multiset<Candidate>>,
            cs: Seq<Candidate>,
        |
            {
                &&& #[trigger] served_in_turn(t@.merges, rows, ms, cs)
                &&& characters(t@.vocab, t.unk_token, text@, rows[0])
                &&& just_noted(t@.merges, rows[0], ms[0])
                &&& ids@.len() == rows.last().len()
                &&& forall|i: int| 0 <= i < ids@.len() ==> #[trigger] ids@[i] == rows.last()[i].1
            },
{
    let rules = t@.merges;
    let start = char_ids(t@.vocab, t.unk_token, text@);
    let row = place(start);
    let m = candidates(rules, row, row.len() - 1);
    lemma_start(rules, start);
    let (rows, ms, cs) = lemma_served_in_turn(rules, row, m);
    assert(ids@ == merged(rules, start));
    assert(ids@ == ids_of(rows.last()));
    assert(served_in_turn(rules, rows, ms, cs));
}

/// Whether a rule merges the id at `k` with the one behind it.
pub open spec fn pair_has_rule(rules: Map<Pair, usize>, ids: Seq<usize>, k: int) -> bool {
    0 <= k < ids.len() - 1 && rules.contains_key((ids[k], ids[k + 1]))
}

/// Whether no two neighbours make a token with a smaller id than those at `k` do, and none
/// further to the right make the same.
pub open spec fn makes_smallest(rules: Map<Pair, usize>, ids: Seq<usize>, k: int) -> bool {
    &&& pair_has_rule(rules, ids, k)
    &&& forall|j: int| #[trigger]
        pair_has_rule(rules, ids, j) ==> {
            let here = rules[(ids[k], ids[k + 1])];
            let there = rules[(ids[j], ids[j + 1])];
            here < there || (here == there && j <= k)
        }
}

/// Whether `ids2` is `ids` after the two at `k` have been merged, which make the smallest
/// id.
pub open spec fn smallest_merged(
    rules: Map<Pair, usize>,
    ids: Seq<usize>,
    k: int,
    ids2: Seq<usize>,
) -> bool {
    &&& makes_smallest(rules, ids, k)
    &&& ids2 == ids.take(k).push(rules[(ids[k], ids[k + 1])]) + ids.skip(k + 2)
}

/// Whether each of `rows` comes from the one before by the merge, at `ks[i]`, that makes the
/// smallest id, and nothing can be merged in the last.
pub open spec fn smallest_in_turn(
    rules: Map<Pair, usize>,
    rows: Seq<Seq<usize>>,
    ks: Seq<int>,
) -> bool {
    let n = ks.len() as int;
    &&& rows.len() == n + 1
    &&& forall|i: int|
        0 <= i < n ==> smallest_merged(rules, rows[i], #[trigger] ks[i], rows[i + 1])
    &&& forall|k: int| !(#[trigger] pair_has_rule(rules, rows[n], k))
}

/// The first of an agenda that is up to date at its place makes the smallest id.
proof fn lemma_first_makes_smallest(
    rules: Map<Pair, usize>,
    row: Seq<(usize, usize)>,
    m: Multiset<Candidate>,
    c: Candidate,
    k: int,
)
    requires
        rising(row),
        all_noted(rules, row, m),
        served_next(m, c),
        notes(rules, row, k, c),
    ensures
        smallest_merged(rules, ids_of(row), k, ids_of(merge_at(rules, row, k))),
{
    let ids = ids_of(row);
    assert forall|j: int| pair_has_rule(rules, ids, j) == #[trigger] can_merge(rules, row, j) by {}
    assert forall|j: int| #[trigger] pair_has_rule(rules, ids, j) implies {
        let here = rules[(ids[k], ids[k + 1])];
        let there = rules[(ids[j], ids[j + 1])];
        here < there || (here == there && j <= k)
    } by {
        assert(can_merge(rules, row, j));
        let d = Candidate { priority: rules[(row[j].1, row[j + 1].1)], pos: row[j].0 };
        assert(notes(rules, row, j, d));
        assert(m.count(d) > 0);
        if k < j {
            assert(row[k].0 < row[j].0);
        }
    }
    assert(can_merge(rules, row, k));
    lemma_merge_places(rules, row, k);
    assert(ids_of(merge_at(rules, row, k)) =~= ids.take(k).push(rules[(ids[k], ids[k + 1])])
        + ids.skip(k + 2));
}

/// The first merge of an encoding makes the smallest id that any two neighbouring
/// characters make; of several such places it is the one furthest to the right.
pub proof fn law_first_merge_makes_the_smallest_id(rules: Map<Pair, usize>, ids: Seq<usize>)
    requires
        ids.len() <= usize::MAX,
        exists|k: int| pair_has_rule(rules, ids, k),
    ensures
        exists|
            rows: Seq<Seq<(usize, usize)>>,
            ms: Seq<Multiset<Candidate>>,
            cs: Seq<Candidate>,
            k: int,
        |
            {
                &&& #[trigger] served_in_turn(rules, rows, ms, cs)
                &&& rows.len() > 1
                &&& ids_of(rows[0]) == ids
                &&& #[trigger] smallest_merged(rules, ids, k, ids_of(rows[1]))
                &&& ids_of(rows.last()) == merged(rules, ids)
            },
{
    let row = place(ids);
    let m = candidates(rules, row, row.len() - 1);
    lemma_start(rules, ids);
    assert(ids_of(row) =~= ids);
    let j = choose|k: int| pair_has_rule(rules, ids, k);
    assert(can_merge(rules, row, j));
    let d = Candidate { priority: rules[(row[j].1, row[j + 1].1)], pos: row[j].0 };
    assert(notes(rules, row, j, d));
    assert(m.count(d) > 0);
    let (rows, ms, cs) = lemma_served_in_turn(rules, row, m);
    if cs.len() == 0 {
        assert(m.count(d) <= m.len());
    }
    let c = cs[0];
    assert(served(rules, rows[0], ms[0], cs[0], rows[1], ms[1]));
    assert(m.count(c) == one_if(exists|k: int| notes(rules, row, k, c)));
    let k0 = choose|k: int| notes(rules, row, k, c);
    assert(can_merge(rules, row, k0));
    let k = choose|k: int| served_by_merging(rules, row, m, c, k, rows[1], ms[1]);
    assert(served_by_merging(rules, row, m, c, k, rows[1], ms[1]));
    assert(k == k0) by {
        if k < k0 {
            assert(row[k].0 < row[k0].0);
        }
        if k0 < k {
            assert(row[k0].0 < row[k].0);
        }
    }
    lemma_merge_places(rules, row, k);
    lemma_first_makes_smallest(rules, row, m, c, k);
    assert(rows[1] == merge_at(rules, row, k));
    assert(smallest_merged(rules, ids, k, ids_of(rows[1])));
}

/// Whether all notes are up to date where they can be used, and there is one for each
/// position at most.
spec fn in_order(
    rules: Map<Pair, usize>,
    row: Seq<(usize, usize)>,
    m: Multiset<Candidate>,
) -> bool {
    &&& forall|c: Candidate| #[trigger] m.count(c) <= 1
    &&& forall|c: Candidate, d: Candidate| #[trigger]
        m.count(c) > 0 && #[trigger] m.count(d) > 0 && c.pos == d.pos ==> c == d
    &&& forall|c: Candidate, k: int| #[trigger]
        m.count(c) > 0 && #[trigger] can_merge(rules, row, k) && row[k].0 == c.pos ==> notes(
            rules,
            row,
            k,
            c,
        )
}

proof fn lemma_merge_keeps_order(
    rules: Map<Pair, usize>,
    row: Seq<(usize, usize)>,
    m: Multiset<Candidate>,
    c: Candidate,
    k: int,
    m2: Multiset<Candidate>,
)
    requires
        forall|p: Pair, q: Pair| #[trigger]
            rules.contains_key(p) && #[trigger] rules.contains_key(q) ==> q.1 != rules[p],
        rising(row),
        in_order(rules, row, m),
        m.count(c) > 0,
        served_by_merging(rules, row, m, c, k, merge_at(rules, row, k), m2),
    ensures
        in_order(rules, merge_at(rules, row, k), m2),
{
    let next = merge_at(rules, row, k);
    lemma_merge_places(rules, row, k);
    let p = (row[k].1, row[k + 1].1);
    assert(!can_merge(rules, next, k - 1)) by {
        if can_merge(rules, next, k - 1) {
            assert(rules.contains_key((next[k - 1].1, next[k - 1 + 1].1)));
            assert(rules.contains_key(p));
        }
    }
    assert forall|d: Candidate| #[trigger] m2.count(d) > 0 implies if d.pos == c.pos {
        notes(rules, next, k, d) && m2.count(d) == 1
    } else {
        m.count(d) == m2.count(d)
    } by {
        assert(m2.count(d) == m.count(d) - one_if(d == c) + one_if(notes(rules, next, k - 1, d))
            + one_if(notes(rules, next, k, d)));
        assert(m.count(d) <= 1);
        assert(m.count(c) <= 1);
    }
    assert forall|d: Candidate| #[trigger] m2.count(d) <= 1 by {
        if m2.count(d) > 0 {
            assert(m.count(d) <= 1);
        }
    }
    assert forall|d: Candidate, e: Candidate| #[trigger]
        m2.count(d) > 0 && #[trigger] m2.count(e) > 0 && d.pos == e.pos implies d == e by {
        if d.pos != c.pos {
            assert(m.count(d) > 0 && m.count(e) > 0);
        }
    }
    assert forall|d: Candidate, j: int| #[trigger]
        m2.count(d) > 0 && #[trigger] can_merge(rules, next, j) && next[j].0 == d.pos implies notes(
        rules,
        next,
        j,
        d,
    ) by {
        if j == k {
            assert(d.pos == c.pos);
        } else {
            let e = Candidate { priority: rules[(next[j].1, next[j + 1].1)], pos: next[j].0 };
            assert(notes(rules, next, j, e));
            lemma_note_before(rules, row, k, j, e);
            assert(m.count(d) > 0);
            let o = if j < k {
                j
            } else {
                j + 1
            };
            assert(can_merge(rules, row, o));
            assert(notes(rules, row, o, d));
        }
    }
}

proof fn lemma_smallest_in_turn(
    rules: Map<Pair, usize>,
    row: Seq<(usize, usize)>,
    m: Multiset<Candidate>,
) -> (r: (Seq<Seq<usize>>, Seq<int>))
    requires
        forall|p: Pair, q: Pair| #[trigger]
            rules.contains_key(p) && #[trigger] rules.contains_key(q) ==> q.1 != rules[p],
        rising(row),
        all_noted(rules, row, m),
        in_order(rules, row, m),
    ensures
        smallest_in_turn(rules, r.0, r.1),
        r.0[0] == ids_of(row),
        r.0.last() == ids_of(work_off(rules, row, m)),
    decreases 2 * row.len() + m.len(),
{
    if exists|c: Candidate| is_first(m, c) {
        let c = choose|c: Candidate| is_first(m, c);
        let rest = m.remove(c);
        law_agenda_serves_the_smallest_id_first(m, c);
        if exists|k: int| starts_at(row, k, c.pos as int) && mergeable(rules, row, k) {
            let k = choose|k: int| starts_at(row, k, c.pos as int) && mergeable(rules, row, k);
            let next = merge_at(rules, row, k);
            let m2 = with_candidate(with_candidate(rest, rules, next, k - 1), rules, next, k);
            lemma_serve_merge(rules, row, m, c, k);
            lemma_merge_keeps_order(rules, row, m, c, k, m2);
            let (rows, ks) = lemma_smallest_in_turn(rules, next, m2);
            assert(work_off(rules, row, m) == work_off(rules, next, m2));
            assert(can_merge(rules, row, k));
            assert(notes(rules, row, k, c));
            lemma_first_makes_smallest(rules, row, m, c, k);
            let rows2 = seq![ids_of(row)] + rows;
            let ks2 = seq![k] + ks;
            let n = ks2.len() as int;
            assert forall|i: int| 0 <= i < n implies smallest_merged(
                rules,
                rows2[i],
                #[trigger] ks2[i],
                rows2[i + 1],
            ) by {
                if i > 0 {
                    assert(ks2[i] == ks[i - 1]);
                    assert(rows2[i] == rows[i - 1] && rows2[i + 1] == rows[i - 1 + 1]);
                }
            }
            assert(rows2[n] == rows[n - 1]);
            (rows2, ks2)
        } else {
            lemma_serve_in_vain(rules, row, m, c);
            assert forall|d: Candidate| #[trigger] rest.count(d) <= m.count(d) by {}
            assert(in_order(rules, row, rest)) by {
                assert forall|d: Candidate| #[trigger] rest.count(d) <= 1 by {
                    assert(m.count(d) <= 1);
                }
                assert forall|d: Candidate, e: Candidate| #[trigger]
                    rest.count(d) > 0 && #[trigger] rest.count(e) > 0 && d.pos
                        == e.pos implies d == e by {
                    assert(m.count(d) > 0 && m.count(e) > 0);
                }
                assert forall|d: Candidate, k: int| #[trigger]
                    rest.count(d) > 0 && #[trigger] can_merge(rules, row, k) && row[k].0
                        == d.pos implies notes(rules, row, k, d) by {
                    assert(m.count(d) > 0);
                }
            }
            assert(work_off(rules, row, m) == work_off(rules, row, rest));
            lemma_smallest_in_turn(rules, row, rest)
        }
    } else {
        lemma_nothing_waits(m);
        assert(work_off(rules, row, m) == row);
        let ids = ids_of(row);
        assert forall|k: int| !(#[trigger] pair_has_rule(rules, ids, k)) by {
            if pair_has_rule(rules, ids, k) {
                assert(can_merge(rules, row, k));
                let d = Candidate { priority: rules[(row[k].1, row[k + 1].1)], pos: row[k].0 };
                assert(notes(rules, row, k, d));
                assert(m.count(d) <= m.len());
            }
        }
        (seq![ids], Seq::empty())
    }
}

/// Where no rule has on its right a token that a rule makes, each merge of an encoding
/// makes the smallest id that any two neighbours make at that time, and the encoding ends
/// when there are no such neighbours.
///
/// With other rules a place may be merged earlier than its id says: where its right
/// neighbour grew after the place was noted, the note still says the smaller id.
pub proof fn law_every_merge_makes_the_smallest_id(
    t: BpeTokenizer,
    text: &str,
    ids: Vec<usize>,
)
    requires
        text@.len() <= usize::MAX,
        forall|p: Pair, q: Pair| #[trigger]
            t@.merges.contains_key(p) && #[trigger] t@.merges.contains_key(q) ==> q.1
                != t@.merges[p],
        call_ensures(BpeTokenizer::encode, (&t, text), ids),
    ensures
        exists|rows: Seq<Seq<usize>>, ks: Seq<int>|
            {
                &&& #[trigger] smallest_in_turn(t@.merges, rows, ks)
                &&& rows[0].len() == text@.len()
                &&& forall|i: int|
                    0 <= i < text@.len() ==> #[trigger] rows[0][i] == if t@.vocab.contains_key(
                        seq![text@[i]],
                    ) {
                        t@.vocab[seq![text@[i]]]
                    } else {
                        t.unk_token
                    }
                &&& rows.last() == ids@
            },
{
    let rules = t@.merges;
    let start = char_ids(t@.vocab, t.unk_token, text@);
    let row = place(start);
    let m = candidates(rules, row, row.len() - 1);
    lemma_start(rules, start);
    assert(in_order(rules, row, m)) by {
        assert forall|c: Candidate| #[trigger] m.count(c) <= 1 by {
            assert(m.count(c) == one_if(exists|k: int| notes(rules, row, k, c)));
        }
        assert forall|c: Candidate, k: int| #[trigger]
            m.count(c) > 0 && #[trigger] can_merge(rules, row, k) && row[k].0
                == c.pos implies notes(rules, row, k, c) by {
            assert(m.count(c) == one_if(exists|k: int| notes(rules, row, k, c)));
            let j = choose|j: int| notes(rules, row, j, c);
            assert(row[j].0 == j && row[k].0 == k);
        }
        assert forall|c: Candidate, d: Candidate| #[trigger]
            m.count(c) > 0 && #[trigger] m.count(d) > 0 && c.pos == d.pos implies c == d by {
            assert(m.count(c) == one_if(exists|k: int| notes(rules, row, k, c)));
            assert(m.count(d) == one_if(exists|k: int| notes(rules, row, k, d)));
            let j = choose|j: int| notes(rules, row, j, c);
            let k = choose|k: int| notes(rules, row, k, d);
            assert(row[j].0 == j && row[k].0 == k);
        }
    }
    let (rows, ks) = lemma_smallest_in_turn(rules, row, m);
    assert(ids_of(row) =~= start);
    assert(ids@ == merged(rules, start));
    assert(smallest_in_turn(rules, rows, ks));
}

} // verus!
