//! Training examples, and batches of them.
use std::sync::Arc;
use vstd::prelude::*;

use crate::tokenizer::{encoded, BpeTokenizer};

verus! {

/// The contents of an example.
#[verifier::ext_equal]
pub struct ExampleView {
    pub input_ids: Seq<u64>,
    pub target_ids: Seq<u64>,
}

/// A single training example: input ids, and target ids (shifted by one).
#[derive(Debug)]
pub struct LMExample {
    pub input_ids: Vec<u64>,
    pub target_ids: Vec<u64>,
}

impl View for LMExample {
    type V = ExampleView;

    open spec fn view(&self) -> ExampleView {
        ExampleView { input_ids: self.input_ids@, target_ids: self.target_ids@ }
    }
}

impl Clone for LMExample {
    fn clone(&self) -> (r: LMExample)
        ensures
            r@ == self@,
    {
        let r = LMExample {
            input_ids: self.input_ids.clone(),
            target_ids: self.target_ids.clone(),
        };
        assert(r.input_ids@ =~= self.input_ids@);
        assert(r.target_ids@ =~= self.target_ids@);
        r
    }
}

/// The contents of some examples.
pub open spec fn example_views(examples: Seq<LMExample>) -> Seq<ExampleView> {
    Seq::new(examples.len(), |i: int| examples[i]@)
}

/// The example of a chunk of at most `max_len` ids: the ids, and behind them zeros; and the
/// same from the second id on.
pub open spec fn example_of(chunk: Seq<usize>, max_len: nat) -> ExampleView {
    ExampleView {
        input_ids: Seq::new(
            max_len,
            |i: int|
                if i < chunk.len() {
                    chunk[i] as u64
                } else {
                    0
                },
        ),
        target_ids: Seq::new(
            max_len,
            |i: int|
                if i + 1 < chunk.len() {
                    chunk[i + 1] as u64
                } else {
                    0
                },
        ),
    }
}

/// Ids cut into chunks of `max_len`; the last one may be shorter.
pub open spec fn chunks(ids: Seq<usize>, max_len: nat) -> Seq<Seq<usize>>
    decreases ids.len(),
{
    if ids.len() == 0 || max_len == 0 {
        Seq::empty()
    } else if ids.len() <= max_len {
        seq![ids]
    } else {
        seq![ids.take(max_len as int)] + chunks(ids.skip(max_len as int), max_len)
    }
}

/// The examples of those chunks that have at least two ids.
pub open spec fn examples_of(cs: Seq<Seq<usize>>, max_len: nat) -> Seq<ExampleView>
    decreases cs.len(),
{
    if cs.len() == 0 {
        Seq::empty()
    } else {
        let before = examples_of(cs.drop_last(), max_len);
        if cs.last().len() < 2 {
            before
        } else {
            before.push(example_of(cs.last(), max_len))
        }
    }
}

/// Builds the example of the ids from `from` up to `to`.
fn build_example(ids: &Vec<usize>, from: usize, to: usize, max_len: usize) -> (e: LMExample)
    requires
        from <= to <= ids@.len(),
    ensures
        e@ == example_of(ids@.subrange(from as int, to as int), max_len as nat),
{
    let len: usize = to - from;
    let mut input: Vec<u64> = Vec::new();
    let mut target: Vec<u64> = Vec::new();
    let ghost whole = example_of(ids@.subrange(from as int, to as int), max_len as nat);
    let mut i: usize = 0;
    while i < max_len
        invariant
            i <= max_len,
            from <= to <= ids@.len(),
            len == to - from,
            whole == example_of(ids@.subrange(from as int, to as int), max_len as nat),
            input@ =~= whole.input_ids.take(i as int),
            target@ =~= whole.target_ids.take(i as int),
        decreases max_len - i,
    {
        input.push(
            if i < len {
                ids[from + i] as u64
            } else {
                0
            },
        );
        target.push(
            if len > 0 && i < len - 1 {
                ids[from + i + 1] as u64
            } else {
                0
            },
        );
        i += 1;
    }
    let e = LMExample { input_ids: input, target_ids: target };
    assert(e@ =~= whole);
    e
}

/// A data set of examples.
#[derive(Debug)]
pub struct LMData {
    pub examples: Vec<LMExample>,
}

impl View for LMData {
    type V = Seq<ExampleView>;

    open spec fn view(&self) -> Seq<ExampleView> {
        example_views(self.examples@)
    }
}

impl Clone for LMData {
    fn clone(&self) -> (r: LMData)
        ensures
            r@ == self@,
    {
        let mut examples: Vec<LMExample> = Vec::new();
        let mut i: usize = 0;
        while i < self.examples.len()
            invariant
                i <= self.examples@.len(),
                example_views(examples@) =~= self@.take(i as int),
            decreases self.examples.len() - i,
        {
            let ghost done = examples@;
            examples.push(self.examples[i].clone());
            assert(example_views(examples@) =~= example_views(done).push(self@[i as int]));
            i += 1;
        }
        LMData { examples }
    }
}

impl LMData {
    /// Builds the data set of a text: its ids cut into chunks of `max_len`.
    pub fn from_text(text: &str, tokenizer: &BpeTokenizer, max_len: usize) -> (d: LMData)
        requires
            max_len > 0,
        ensures
            d@ == examples_of(
                chunks(encoded(tokenizer@, tokenizer.unk_token, text@), max_len as nat),
                max_len as nat,
            ),
    {
        let ids = tokenizer.encode(text);
        let ghost n = max_len as nat;
        let ghost all = chunks(ids@, n);
        let ghost mut done: Seq<Seq<usize>> = Seq::empty();
        let mut examples: Vec<LMExample> = Vec::new();
        let mut from: usize = 0;
        assert(ids@.skip(0) =~= ids@);
        assert(example_views(examples@) =~= examples_of(done, n));
        while from < ids.len()
            invariant
                max_len > 0,
                n == max_len,
                from <= ids@.len(),
                all =~= done + chunks(ids@.skip(from as int), n),
                example_views(examples@) == examples_of(done, n),
            decreases ids.len() - from,
        {
            let to: usize = if ids.len() - from > max_len {
                from + max_len
            } else {
                ids.len()
            };
            let ghost chunk = ids@.subrange(from as int, to as int);
            let ghost rest = ids@.skip(from as int);
            let ghost old_done = done;
            proof {
                done = done.push(chunk);
                assert(done.drop_last() =~= old_done);
                assert(rest.take(to - from) =~= chunk);
                assert(rest.skip(to - from) =~= ids@.skip(to as int));
                assert(chunks(rest, n) =~= seq![chunk] + chunks(ids@.skip(to as int), n));
            }
            if to - from >= 2 {
                let ghost before = examples@;
                let e = build_example(&ids, from, to, max_len);
                let ghost v = e@;
                examples.push(e);
                assert(example_views(examples@) =~= example_views(before).push(v));
            }
            from = to;
        }
        assert(ids@.skip(from as int) =~= Seq::empty());
        assert(all =~= done);
        LMData { examples }
    }

    /// Splits the data set in front of the example number `split_idx`.
    pub fn split(self, split_idx: usize) -> (r: (LMData, LMData))
        requires
            split_idx <= self.examples@.len(),
        ensures
            r.0.examples@ == self.examples@.take(split_idx as int),
            r.1.examples@ == self.examples@.skip(split_idx as int),
    {
        let mut train = self.examples;
        let test = train.split_off(split_idx);
        assert(test@ =~= self.examples@.skip(split_idx as int));
        (LMData { examples: train }, LMData { examples: test })
    }

    /// A copy of the example number `index`, where there is one.
    pub fn get(&self, index: usize) -> (r: Option<LMExample>)
        ensures
            match r {
                Some(e) => index < self@.len() && e@ == self@[index as int],
                None => index >= self@.len(),
            },
    {
        if index < self.examples.len() {
            Some(self.examples[index].clone())
        } else {
            None
        }
    }

    /// The number of examples.
    pub fn len(&self) -> (n: usize)
        ensures
            n == self@.len(),
    {
        self.examples.len()
    }
}

/// Some numbers as the elements of an integer tensor.
pub open spec fn as_elements(s: Seq<u64>) -> Seq<i64> {
    Seq::new(s.len(), |i: int| s[i] as i64)
}

/// The input ids of some examples, one after the other.
pub open spec fn flat_inputs(items: Seq<ExampleView>) -> Seq<i64>
    decreases items.len(),
{
    if items.len() == 0 {
        Seq::empty()
    } else {
        flat_inputs(items.drop_last()) + as_elements(items.last().input_ids)
    }
}

/// The target ids of some examples, one after the other.
pub open spec fn flat_targets(items: Seq<ExampleView>) -> Seq<i64>
    decreases items.len(),
{
    if items.len() == 0 {
        Seq::empty()
    } else {
        flat_targets(items.drop_last()) + as_elements(items.last().target_ids)
    }
}

/// A batch: inputs and targets, row by row, and the shape of the two.
#[derive(Debug)]
pub struct LMBatch {
    pub inputs: Vec<i64>,
    pub targets: Vec<i64>,
    pub batch_size: usize,
    pub max_len: usize,
}

/// Appends numbers as elements.
fn append_elements(out: &mut Vec<i64>, s: &Vec<u64>)
    ensures
        final(out)@ == old(out)@ + as_elements(s@),
{
    let ghost before = out@;
    let mut i: usize = 0;
    while i < s.len()
        invariant
            i <= s@.len(),
            out@ =~= before + as_elements(s@).take(i as int),
        decreases s.len() - i,
    {
        out.push(
            #[verifier::truncate]
            (s[i] as i64),
        );
        i += 1;
    }
    assert(as_elements(s@).take(s@.len() as int) =~= as_elements(s@));
}

/// Makes batches of examples.
pub struct LMBatcher {
    tokenizer: Arc<BpeTokenizer>,
    max_len: usize,
}

impl Clone for LMBatcher {
    fn clone(&self) -> (r: LMBatcher)
        ensures
            r.source() == self.source(),
            r.row_len() == self.row_len(),
    {
        LMBatcher { tokenizer: self.tokenizer.clone(), max_len: self.max_len }
    }
}

impl LMBatcher {
    /// The tokenizer that made the examples.
    pub closed spec fn source(self) -> Arc<BpeTokenizer> {
        self.tokenizer
    }

    /// The length of a row.
    pub closed spec fn row_len(self) -> usize {
        self.max_len
    }

    /// A batcher for rows of `max_len` ids.
    pub fn new(tokenizer: Arc<BpeTokenizer>, max_len: usize) -> (b: LMBatcher)
        ensures
            b.source() == tokenizer,
            b.row_len() == max_len,
    {
        LMBatcher { tokenizer, max_len }
    }

    /// The batch of some examples.
    pub fn batch(&self, items: Vec<LMExample>) -> (b: LMBatch)
        ensures
            b.inputs@ == flat_inputs(example_views(items@)),
            b.targets@ == flat_targets(example_views(items@)),
            b.batch_size == items@.len(),
            b.max_len == self.row_len(),
    {
        let ghost all = example_views(items@);
        let mut inputs: Vec<i64> = Vec::new();
        let mut targets: Vec<i64> = Vec::new();
        let mut i: usize = 0;
        while i < items.len()
            invariant
                i <= items@.len(),
                all == example_views(items@),
                inputs@ == flat_inputs(all.take(i as int)),
                targets@ == flat_targets(all.take(i as int)),
            decreases items.len() - i,
        {
            append_elements(&mut inputs, &items[i].input_ids);
            append_elements(&mut targets, &items[i].target_ids);
            assert(all.take(i + 1).drop_last() =~= all.take(i as int));
            i += 1;
        }
        assert(all.take(items@.len() as int) =~= all);
        LMBatch { inputs, targets, batch_size: items.len(), max_len: self.max_len }
    }
}

/// Whether both lists of every example have `max_len` ids.
pub open spec fn full_rows(items: Seq<ExampleView>, max_len: nat) -> bool {
    forall|i: int|
        0 <= i < items.len() ==> (#[trigger] items[i]).input_ids.len() == max_len
            && items[i].target_ids.len() == max_len
}

/// Every chunk has at least one id; all have `max_len`, but for the last, which may have
/// fewer. One after the other they are the ids again.
pub proof fn law_chunks_make_up_the_ids(ids: Seq<usize>, max_len: nat)
    requires
        max_len > 0,
    ensures
        chunks(ids, max_len).flatten() == ids,
        forall|i: int|
            0 <= i < chunks(ids, max_len).len() - 1 ==> (#[trigger] chunks(ids, max_len)[i]).len()
                == max_len,
        chunks(ids, max_len).len() > 0 ==> 0 < chunks(ids, max_len).last().len() <= max_len,
    decreases ids.len(),
{
    let cs = chunks(ids, max_len);
    if ids.len() == 0 {
        assert(cs.flatten() =~= ids);
    } else if ids.len() <= max_len {
        assert(cs.drop_first() =~= Seq::empty());
        reveal_with_fuel(Seq::flatten, 2);
        assert(cs.flatten() =~= ids);
    } else {
        let rest = ids.skip(max_len as int);
        law_chunks_make_up_the_ids(rest, max_len);
        assert(cs.drop_first() =~= chunks(rest, max_len));
        assert(ids.take(max_len as int) + rest =~= ids);
        assert forall|i: int| 0 <= i < cs.len() - 1 implies (#[trigger] cs[i]).len() == max_len by {
            if i > 0 {
                assert(cs[i] == chunks(rest, max_len)[i - 1]);
            }
        }
        assert(cs.last() == chunks(rest, max_len).last());
    }
}

/// Whether the targets of an example are its inputs shifted left by one, with a zero at the
/// end.
pub open spec fn shifted(e: ExampleView) -> bool {
    &&& e.input_ids.len() == e.target_ids.len()
    &&& forall|j: int|
        0 <= j < e.target_ids.len() ==> #[trigger] e.target_ids[j] == if j + 1
            < e.input_ids.len() {
            e.input_ids[j + 1]
        } else {
            0
        }
}

proof fn lemma_examples(cs: Seq<Seq<usize>>, max_len: nat)
    requires
        forall|i: int| 0 <= i < cs.len() ==> (#[trigger] cs[i]).len() <= max_len,
    ensures
        full_rows(examples_of(cs, max_len), max_len),
        forall|i: int|
            0 <= i < examples_of(cs, max_len).len() ==> shifted(
                #[trigger] examples_of(cs, max_len)[i],
            ),
    decreases cs.len(),
{
    if cs.len() > 0 {
        let init = cs.drop_last();
        assert forall|i: int| 0 <= i < init.len() implies (#[trigger] init[i]).len() <= max_len by {
            assert(init[i] == cs[i]);
        }
        lemma_examples(init, max_len);
        let before = examples_of(init, max_len);
        let es = examples_of(cs, max_len);
        assert(cs[cs.len() - 1].len() <= max_len);
        assert(shifted(example_of(cs.last(), max_len)));
        assert forall|i: int| 0 <= i < es.len() implies shifted(#[trigger] es[i])
            && es[i].input_ids.len() == max_len && es[i].target_ids.len() == max_len by {
            if i < before.len() {
                assert(es[i] == before[i]);
            }
        }
    }
}

/// Every example of a text fills its rows, and its targets are its inputs shifted left by
/// one.
pub proof fn law_targets_are_shifted_inputs(ids: Seq<usize>, max_len: nat)
    requires
        max_len > 0,
    ensures
        full_rows(examples_of(chunks(ids, max_len), max_len), max_len),
        forall|i: int|
            0 <= i < examples_of(chunks(ids, max_len), max_len).len() ==> shifted(
                #[trigger] examples_of(chunks(ids, max_len), max_len)[i],
            ),
{
    let cs = chunks(ids, max_len);
    law_chunks_make_up_the_ids(ids, max_len);
    assert forall|i: int| 0 <= i < cs.len() implies (#[trigger] cs[i]).len() <= max_len by {
        if i == cs.len() - 1 {
            assert(cs[i] == cs.last());
        }
    }
    lemma_examples(cs, max_len);
}

/// Whether all ids of an example are below `n`.
pub open spec fn ids_below(e: ExampleView, n: nat) -> bool {
    &&& forall|j: int| 0 <= j < e.input_ids.len() ==> #[trigger] e.input_ids[j] < n
    &&& forall|j: int| 0 <= j < e.target_ids.len() ==> #[trigger] e.target_ids[j] < n
}

proof fn lemma_examples_below(cs: Seq<Seq<usize>>, max_len: nat, n: nat)
    requires
        n > 0,
        forall|i: int, j: int| 0 <= i < cs.len() && 0 <= j < cs[i].len() ==> #[trigger] cs[i][j] < n,
    ensures
        forall|i: int|
            0 <= i < examples_of(cs, max_len).len() ==> ids_below(
                #[trigger] examples_of(cs, max_len)[i],
                n,
            ),
    decreases cs.len(),
{
    if cs.len() > 0 {
        let init = cs.drop_last();
        assert forall|i: int, j: int|
            0 <= i < init.len() && 0 <= j < init[i].len() implies #[trigger] init[i][j] < n by {
            assert(cs[i][j] < n);
        }
        lemma_examples_below(init, max_len, n);
        let before = examples_of(init, max_len);
        let es = examples_of(cs, max_len);
        let last = cs[cs.len() - 1];
        assert forall|j: int| 0 <= j < last.len() implies #[trigger] last[j] < n by {
            assert(cs[cs.len() - 1][j] < n);
        }
        assert(ids_below(example_of(last, max_len), n));
        assert forall|i: int| 0 <= i < es.len() implies ids_below(#[trigger] es[i], n) by {
            if i < before.len() {
                assert(es[i] == before[i]);
            }
        }
    }
}

/// The examples of a text hold no id that its ids do not hold, but for the zeros behind
/// them: where all ids are below `n`, so are those of the examples.
pub proof fn law_examples_stay_below(ids: Seq<usize>, max_len: nat, n: nat)
    requires
        n > 0,
        forall|i: int| 0 <= i < ids.len() ==> #[trigger] ids[i] < n,
    ensures
        forall|i: int|
            0 <= i < examples_of(chunks(ids, max_len), max_len).len() ==> ids_below(
                #[trigger] examples_of(chunks(ids, max_len), max_len)[i],
                n,
            ),
{
    lemma_chunks_below(ids, max_len, n);
    lemma_examples_below(chunks(ids, max_len), max_len, n);
}

proof fn lemma_chunks_below(ids: Seq<usize>, max_len: nat, n: nat)
    requires
        forall|i: int| 0 <= i < ids.len() ==> #[trigger] ids[i] < n,
    ensures
        forall|i: int, j: int|
            0 <= i < chunks(ids, max_len).len() && 0 <= j < chunks(ids, max_len)[i].len()
                ==> #[trigger] chunks(ids, max_len)[i][j] < n,
    decreases ids.len(),
{
    let cs = chunks(ids, max_len);
    if ids.len() > max_len && max_len > 0 {
        let rest = ids.skip(max_len as int);
        assert forall|i: int| 0 <= i < rest.len() implies #[trigger] rest[i] < n by {
            assert(ids[i + max_len] < n);
        }
        lemma_chunks_below(rest, max_len, n);
        let behind = chunks(rest, max_len);
        assert forall|i: int, j: int|
            0 <= i < cs.len() && 0 <= j < cs[i].len() implies #[trigger] cs[i][j] < n by {
            if i == 0 {
                assert(cs[0][j] == ids[j]);
            } else {
                assert(cs[i] == behind[i - 1]);
                assert(behind[i - 1][j] < n);
            }
        }
    }
}

/// The two parts of a split data set make up the whole.
pub proof fn law_split_loses_nothing(examples: Seq<LMExample>, split_idx: int)
    requires
        0 <= split_idx <= examples.len(),
    ensures
        examples.take(split_idx) + examples.skip(split_idx) == examples,
{
    assert(examples.take(split_idx) + examples.skip(split_idx) =~= examples);
}

/// Examples that fill their rows make a batch of `max_len` columns.
pub proof fn law_full_rows_make_a_matrix(items: Seq<ExampleView>, max_len: nat)
    requires
        full_rows(items, max_len),
    ensures
        flat_inputs(items).len() == items.len() * max_len,
        flat_targets(items).len() == items.len() * max_len,
    decreases items.len(),
{
    if items.len() > 0 {
        let init = items.drop_last();
        assert forall|i: int| 0 <= i < init.len() implies (#[trigger] init[i]).input_ids.len()
            == max_len && init[i].target_ids.len() == max_len by {
            assert(init[i] == items[i]);
        }
        law_full_rows_make_a_matrix(init, max_len);
        assert(items[items.len() - 1].input_ids.len() == max_len);
        assert(items.len() * max_len == init.len() * max_len + max_len) by (nonlinear_arith)
            requires
                items.len() == init.len() + 1,
        ;
    } else {
        assert(items.len() * max_len == 0) by (nonlinear_arith)
            requires
                items.len() == 0,
        ;
    }
}

} // verus!
