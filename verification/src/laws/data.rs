//! Of training examples and batches.
use vstd::prelude::*;

use crate::data::{
    as_elements, chunks, example_of, example_views, examples_of, flat_inputs, flat_targets,
    ExampleView, LMBatch, LMBatcher, LMData, LMExample,
};
use crate::tokenizer::BpeTokenizer;

verus! {

/// The smaller one of two numbers.
spec fn smaller(a: int, b: int) -> int {
    if a < b {
        a
    } else {
        b
    }
}

/// Whether `c` is the chunk number `i` of `ids`.
spec fn chunk_number(ids: Seq<usize>, m: int, i: int, c: Seq<usize>) -> bool {
    &&& 0 <= i * m < ids.len()
    &&& c == ids.subrange(i * m, smaller(i * m + m, ids.len() as int))
}

proof fn lemma_chunks(ids: Seq<usize>, m: int)
    requires
        m > 0,
    ensures
        ({
            let cs = chunks(ids, m as nat);
            let n = ids.len() as int;
            let k = cs.len() as int;
            &&& n <= k * m
            &&& k > 0 ==> (k - 1) * m < n
            &&& forall|i: int| 0 <= i < k ==> chunk_number(ids, m, i, #[trigger] cs[i])
        }),
    decreases ids.len(),
{
    let cs = chunks(ids, m as nat);
    let n = ids.len() as int;
    let k = cs.len() as int;
    if n == 0 {
        assert(k == 0);
        assert(k * m == 0) by (nonlinear_arith)
            requires
                k == 0,
        ;
    } else if n <= m {
        assert(k == 1);
        assert(k * m == m && (k - 1) * m == 0) by (nonlinear_arith)
            requires
                k == 1,
        ;
        assert(ids.subrange(0, n) =~= ids);
        assert forall|i: int| 0 <= i < k implies chunk_number(ids, m, i, #[trigger] cs[i]) by {
            assert(i * m == 0) by (nonlinear_arith)
                requires
                    i == 0,
            ;
        }
    } else {
        let rest = ids.skip(m);
        let ds = chunks(rest, m as nat);
        lemma_chunks(rest, m);
        assert(cs =~= seq![ids.take(m)] + ds);
        assert(k == ds.len() + 1);
        assert(k * m == ds.len() * m + m && (k - 1) * m == (ds.len() - 1) * m + m)
            by (nonlinear_arith)
            requires
                k == ds.len() + 1,
        ;
        assert(ds.len() > 0) by {
            if ds.len() == 0 {
                assert(ds.len() * m == 0) by (nonlinear_arith)
                    requires
                        ds.len() == 0,
                ;
            }
        }
        assert forall|i: int| 0 <= i < k implies chunk_number(ids, m, i, #[trigger] cs[i]) by {
            if i == 0 {
                assert(0 * m == 0) by (nonlinear_arith);
                assert(ids.take(m) =~= ids.subrange(0, m));
            } else {
                assert(cs[i] == ds[i - 1]);
                assert(i * m == (i - 1) * m + m) by (nonlinear_arith);
                let a = (i - 1) * m;
                assert(chunk_number(rest, m, i - 1, ds[i - 1]));
                assert(rest.subrange(a, smaller(a + m, n - m)) =~= ids.subrange(
                    a + m,
                    smaller(a + m + m, n),
                ));
            }
        }
    }
}

/// Where all chunks but the last have at least two ids, the examples are those of the
/// chunks, one for each, but for a last chunk of one id.
proof fn lemma_examples_in_turn(cs: Seq<Seq<usize>>, m: nat)
    requires
        forall|i: int| 0 <= i < cs.len() - 1 ==> (#[trigger] cs[i]).len() >= 2,
    ensures
        ({
            let es = examples_of(cs, m);
            let k = if cs.len() > 0 && cs.last().len() < 2 {
                cs.len() - 1
            } else {
                cs.len() as int
            };
            &&& es.len() == k
            &&& forall|i: int| 0 <= i < k ==> #[trigger] es[i] == example_of(cs[i], m)
        }),
    decreases cs.len(),
{
    if cs.len() > 0 {
        let init = cs.drop_last();
        assert forall|i: int| 0 <= i < init.len() - 1 implies (#[trigger] init[i]).len() >= 2 by {
            assert(init[i] == cs[i]);
        }
        lemma_examples_in_turn(init, m);
        if init.len() > 0 {
            assert(init.last() == cs[cs.len() - 2]);
        }
        let es = examples_of(cs, m);
        let before = examples_of(init, m);
        assert(before.len() == init.len());
        assert forall|i: int| 0 <= i < es.len() implies #[trigger] es[i] == example_of(cs[i], m) by {
            if i < before.len() {
                assert(es[i] == before[i]);
                assert(init[i] == cs[i]);
            }
        }
    }
}

proof fn lemma_no_examples(cs: Seq<Seq<usize>>, m: nat)
    requires
        forall|i: int| 0 <= i < cs.len() ==> (#[trigger] cs[i]).len() < 2,
    ensures
        examples_of(cs, m).len() == 0,
    decreases cs.len(),
{
    if cs.len() > 0 {
        assert(cs[cs.len() - 1].len() < 2);
        assert forall|i: int| 0 <= i < cs.drop_last().len() implies (
        #[trigger] cs.drop_last()[i]).len() < 2 by {
            assert(cs.drop_last()[i] == cs[i]);
        }
        lemma_no_examples(cs.drop_last(), m);
    }
}

/// Whether `e` is the example of a row that starts at `from` in `ids`: the ids from there
/// on, as many as `m`, and the same from the next id on but without the first one of the
/// next row; zeros where there is no id.
pub open spec fn row_example(ids: Seq<usize>, from: int, m: int, e: LMExample) -> bool {
    &&& e.input_ids@.len() == m
    &&& e.target_ids@.len() == m
    &&& forall|j: int|
        0 <= j < m ==> #[trigger] e.input_ids@[j] as int == if from + j < ids.len() {
            ids[from + j] as int
        } else {
            0
        }
    &&& forall|j: int|
        0 <= j < m ==> #[trigger] e.target_ids@[j] as int == if j + 1 < m && from + j + 1
            < ids.len() {
            ids[from + j + 1] as int
        } else {
            0
        }
}

/// The examples of a text are its ids, row by row: the example number `i` has those from
/// `i * max_len` on. Every id is in a row, but for a single one that would be left for the
/// last; rows of one id make no example.
pub proof fn law_examples_hold_the_ids(
    text: &str,
    t: BpeTokenizer,
    max_len: usize,
    ids: Vec<usize>,
    d: LMData,
)
    requires
        max_len > 0,
        call_ensures(BpeTokenizer::encode, (&t, text), ids),
        call_ensures(LMData::from_text, (text, &t, max_len), d),
    ensures
        max_len == 1 ==> d.examples@.len() == 0,
        max_len > 1 ==> ({
            let n = ids@.len() as int;
            let k = d.examples@.len() as int;
            &&& n <= k * max_len || n == k * max_len + 1
            &&& k > 0 ==> (k - 1) * max_len + 2 <= n
            &&& forall|i: int|
                0 <= i < k ==> row_example(
                    ids@,
                    i * max_len,
                    max_len as int,
                    #[trigger] d.examples@[i],
                )
        }),
{
    let m = max_len as int;
    let n = ids@.len() as int;
    let cs = chunks(ids@, m as nat);
    let es = examples_of(cs, m as nat);
    let c = cs.len() as int;
    lemma_chunks(ids@, m);
    assert(example_views(d.examples@) == es);
    assert(d.examples@.len() == es.len());
    if m == 1 {
        assert forall|i: int| 0 <= i < c implies (#[trigger] cs[i]).len() < 2 by {
            assert(chunk_number(ids@, m, i, cs[i]));
        }
        lemma_no_examples(cs, m as nat);
    } else {
        assert forall|i: int| 0 <= i < c - 1 implies (#[trigger] cs[i]).len() >= 2 by {
            assert(chunk_number(ids@, m, i, cs[i]));
            assert(i * m + m <= (c - 1) * m) by (nonlinear_arith)
                requires
                    i + 1 <= c - 1,
                    m > 0,
            ;
        }
        lemma_examples_in_turn(cs, m as nat);
        let k = es.len() as int;
        if c > 0 {
            assert(cs.last() == cs[c - 1]);
            assert((c - 1) * m + m == c * m) by (nonlinear_arith);
            if k < c {
                assert(cs[c - 1].len() < 2);
                assert(n == k * m + 1);
                if k > 0 {
                    assert((k - 1) * m + m == k * m) by (nonlinear_arith);
                }
            }
        }
        assert forall|i: int| 0 <= i < k implies row_example(
            ids@,
            i * m,
            m,
            #[trigger] d.examples@[i],
        ) by {
            let e = d.examples@[i];
            let from = i * m;
            assert(es[i] == e@);
            assert(es[i] == example_of(cs[i], m as nat));
            let chunk = cs[i];
            assert(chunk == ids@.subrange(from, smaller(from + m, n)));
            assert forall|j: int| 0 <= j < m implies #[trigger] e.input_ids@[j] as int == if from
                + j < n {
                ids@[from + j] as int
            } else {
                0
            } by {
                assert(es[i].input_ids[j] == e.input_ids@[j]);
            }
            assert forall|j: int| 0 <= j < m implies #[trigger] e.target_ids@[j] as int == if j + 1
                < m && from + j + 1 < n {
                ids@[from + j + 1] as int
            } else {
                0
            } by {
                assert(es[i].target_ids[j] == e.target_ids@[j]);
            }
        }
    }
}

/// A split gives the examples in front of an index and those from there on.
pub proof fn law_split_parts(d: LMData, split_idx: usize, r: (LMData, LMData))
    requires
        split_idx <= d.examples@.len(),
        call_ensures(LMData::split, (d, split_idx), r),
    ensures
        r.0.examples@.len() == split_idx,
        r.0.examples@ + r.1.examples@ == d.examples@,
{
    assert(r.0.examples@ + r.1.examples@ =~= d.examples@);
}

/// An example is handed out by its number, and there are as many as there are numbers.
pub proof fn law_examples_by_number(d: LMData, i: usize, r: Option<LMExample>, n: usize)
    requires
        call_ensures(LMData::get, (&d, i), r),
        call_ensures(LMData::len, (&d,), n),
    ensures
        n == d.examples@.len(),
        match r {
            Some(e) => i < d.examples@.len() && e.input_ids@ == d.examples@[i as int].input_ids@
                && e.target_ids@ == d.examples@[i as int].target_ids@,
            None => i >= d.examples@.len(),
        },
{
    if let Some(e) = r {
        assert(d@[i as int] == d.examples@[i as int]@);
        assert(e@ == d.examples@[i as int]@);
    }
}

proof fn lemma_flat_inputs(items: Seq<ExampleView>)
    ensures
        flat_inputs(items) == Seq::new(
            items.len(),
            |i: int| as_elements(items[i].input_ids),
        ).flatten(),
    decreases items.len(),
{
    if items.len() > 0 {
        let init = items.drop_last();
        let each = Seq::new(init.len(), |i: int| as_elements(init[i].input_ids));
        lemma_flat_inputs(init);
        each.lemma_flatten_push(as_elements(items.last().input_ids));
        assert(Seq::new(items.len(), |i: int| as_elements(items[i].input_ids)) =~= each.push(
            as_elements(items.last().input_ids),
        ));
    }
}

proof fn lemma_flat_targets(items: Seq<ExampleView>)
    ensures
        flat_targets(items) == Seq::new(
            items.len(),
            |i: int| as_elements(items[i].target_ids),
        ).flatten(),
    decreases items.len(),
{
    if items.len() > 0 {
        let init = items.drop_last();
        let each = Seq::new(init.len(), |i: int| as_elements(init[i].target_ids));
        lemma_flat_targets(init);
        each.lemma_flatten_push(as_elements(items.last().target_ids));
        assert(Seq::new(items.len(), |i: int| as_elements(items[i].target_ids)) =~= each.push(
            as_elements(items.last().target_ids),
        ));
    }
}

/// A batch holds the ids of its examples as signed numbers, example after example, inputs
/// and targets each for themselves.
pub proof fn law_batch_holds_the_examples(b: LMBatcher, items: Vec<LMExample>, r: LMBatch)
    requires
        call_ensures(LMBatcher::batch, (&b, items), r),
    ensures
        r.inputs@ == Seq::new(
            items@.len(),
            |i: int|
                Seq::new(
                    items@[i].input_ids@.len(),
                    |j: int| items@[i].input_ids@[j] as i64,
                ),
        ).flatten(),
        r.targets@ == Seq::new(
            items@.len(),
            |i: int|
                Seq::new(
                    items@[i].target_ids@.len(),
                    |j: int| items@[i].target_ids@[j] as i64,
                ),
        ).flatten(),
        r.batch_size == items@.len(),
{
    let views = example_views(items@);
    lemma_flat_inputs(views);
    lemma_flat_targets(views);
    assert(Seq::new(views.len(), |i: int| as_elements(views[i].input_ids)) =~~= Seq::new(
        items@.len(),
        |i: int|
            Seq::new(items@[i].input_ids@.len(), |j: int| items@[i].input_ids@[j] as i64),
    ));
    assert(Seq::new(views.len(), |i: int| as_elements(views[i].target_ids)) =~~= Seq::new(
        items@.len(),
        |i: int|
            Seq::new(items@[i].target_ids@.len(), |j: int| items@[i].target_ids@[j] as i64),
    ));
}

/// In a batch of full rows, what stands in row `i` and column `j` is the id number `j` of
/// the example number `i`; the batch has the row length that its batcher was made with.
pub proof fn law_batch_is_a_matrix(
    t: std::sync::Arc<BpeTokenizer>,
    max_len: usize,
    b: LMBatcher,
    items: Vec<LMExample>,
    r: LMBatch,
    i: int,
    j: int,
)
    requires
        call_ensures(LMBatcher::new, (t, max_len), b),
        call_ensures(LMBatcher::batch, (&b, items), r),
        forall|k: int|
            0 <= k < items@.len() ==> (#[trigger] items@[k]).input_ids@.len() == max_len
                && items@[k].target_ids@.len() == max_len,
        0 <= i < items@.len(),
        0 <= j < max_len,
    ensures
        r.max_len == max_len,
        0 <= i * max_len + j < r.inputs@.len(),
        r.inputs@.len() == r.targets@.len() == items@.len() * max_len,
        items@[i].input_ids@[j] <= i64::MAX ==> r.inputs@[i * max_len + j]
            == items@[i].input_ids@[j] as int,
        items@[i].target_ids@[j] <= i64::MAX ==> r.targets@[i * max_len + j]
            == items@[i].target_ids@[j] as int,
{
    let views = example_views(items@);
    let m = max_len as int;
    assert forall|k: int| 0 <= k < views.len() implies (#[trigger] views[k]).input_ids.len() == m
        && views[k].target_ids.len() == m by {
        assert(views[k] == items@[k]@);
    }
    lemma_flat_places(views, m, i, j);
    assert(views[i] == items@[i]@);
}

proof fn lemma_flat_places(items: Seq<ExampleView>, m: int, i: int, j: int)
    requires
        forall|k: int|
            0 <= k < items.len() ==> (#[trigger] items[k]).input_ids.len() == m
                && items[k].target_ids.len() == m,
        0 <= i < items.len(),
        0 <= j < m,
    ensures
        flat_inputs(items).len() == items.len() * m,
        flat_targets(items).len() == items.len() * m,
        0 <= i * m + j < items.len() * m,
        flat_inputs(items)[i * m + j] == items[i].input_ids[j] as i64,
        flat_targets(items)[i * m + j] == items[i].target_ids[j] as i64,
    decreases items.len(),
{
    let init = items.drop_last();
    let n = items.len() as int;
    assert(items[n - 1].input_ids.len() == m);
    assert forall|k: int| 0 <= k < init.len() implies (#[trigger] init[k]).input_ids.len() == m
        && init[k].target_ids.len() == m by {
        assert(init[k] == items[k]);
    }
    assert(n * m == (n - 1) * m + m) by (nonlinear_arith);
    assert(0 <= i * m && i * m + m <= n * m) by (nonlinear_arith)
        requires
            0 <= i < n,
            m > 0,
    ;
    if n > 1 {
        let k = if i < n - 1 {
            i
        } else {
            0
        };
        lemma_flat_places(init, m, k, j);
        assert(init.len() * m == (n - 1) * m);
        if i < n - 1 {
            assert(i * m + m <= (n - 1) * m) by (nonlinear_arith)
                requires
                    i + 1 <= n - 1,
                    m > 0,
            ;
            assert(init[i] == items[i]);
        }
    } else {
        assert((n - 1) * m == 0 && i * m == 0) by (nonlinear_arith)
            requires
                n == 1,
                i == 0,
        ;
        assert(flat_inputs(init).len() == 0 && flat_targets(init).len() == 0);
    }
    let ins = as_elements(items[n - 1].input_ids);
    let outs = as_elements(items[n - 1].target_ids);
    assert(flat_inputs(items) == flat_inputs(init) + ins);
    assert(flat_targets(items) == flat_targets(init) + outs);
    if i == n - 1 {
        assert(i * m == (n - 1) * m);
        assert(flat_inputs(items)[i * m + j] == ins[j]);
        assert(flat_targets(items)[i * m + j] == outs[j]);
    } else {
        assert(flat_inputs(items)[i * m + j] == flat_inputs(init)[i * m + j]);
        assert(flat_targets(items)[i * m + j] == flat_targets(init)[i * m + j]);
    }
}

} // verus!
