//! Of generation.
use vstd::prelude::*;

use crate::infer::{id_elements, GenerateConfig, Generation, Outcome, Progress};
use crate::tokenizer::BpeTokenizer;

verus! {

/// A generation starts from the ids of the prompt, or from the token that begins a text
/// where there are none, with nothing drawn.
pub proof fn law_generation_starts_from_the_prompt(
    t: BpeTokenizer,
    prompt: &str,
    config: GenerateConfig,
    ids: Vec<usize>,
    g: Generation,
)
    requires
        call_ensures(BpeTokenizer::encode, (&t, prompt), ids),
        call_ensures(Generation::start, (&t, prompt, &config), g),
    ensures
        ids@.len() > 0 ==> g.ids@ == ids@,
        ids@.len() == 0 ==> g.ids@ == seq![t.bos_token],
        g.step == 0,
        !g.ended,
        g.max_steps == config.max_steps,
        g.max_len == config.max_len,
        g.eos == t.eos_token,
{
    assert(g@.ids == g.ids@);
    assert(g@.step == g.step && g@.max_steps == g.max_steps && g@.max_len == g.max_len);
}

/// The model is asked with all ids there are, until the text has ended or a limit is
/// reached.
pub proof fn law_model_is_asked(g: Generation, r: Option<Vec<i64>>)
    requires
        call_ensures(Generation::next_input, (&g,), r),
    ensures
        r is Some <==> !g.ended && g.step < g.max_steps && g.ids@.len() < g.max_len,
        r matches Some(input) ==> input@.len() == g.ids@.len() && forall|i: int|
            0 <= i < g.ids@.len() && g.ids@[i] <= i64::MAX ==> #[trigger] input@[i] == g.ids@[i] as int,
{
    if let Some(input) = r {
        assert(input@ == id_elements(g.ids@));
    }
}

/// The text of a generation is the decoded text of its ids.
pub proof fn law_generation_is_decoded(
    g: Generation,
    t: BpeTokenizer,
    ids: &[usize],
    text: String,
    decoded: String,
)
    requires
        ids@ == g.ids@,
        call_ensures(Generation::finish, (&g, &t), text),
        call_ensures(BpeTokenizer::decode, (&t, ids), decoded),
    ensures
        text@ == decoded@,
{
}

/// A single draw: the end token ends the text and adds nothing; every other token is added
/// and does not end it.
pub proof fn law_one_draw(p: Progress, id: usize)
    requires
        !p.ended,
        p.step < p.max_steps,
        p.ids.len() < p.max_len,
    ensures
        p.wants_token(),
        id == p.eos ==> p.with_token(id).ended && p.with_token(id).ids == p.ids,
        id != p.eos ==> !p.with_token(id).ended && p.with_token(id).ids == p.ids.push(id)
            && p.with_token(id).step == p.step + 1,
        p.with_tokens(seq![id]) == p.with_token(id),
        p.with_token(id).max_steps == p.max_steps,
        p.with_token(id).max_len == p.max_len,
        p.with_token(id).eos == p.eos,
{
    assert(seq![id].drop_first() =~= Seq::empty());
    assert(p.with_token(id).with_tokens(Seq::empty()) == p.with_token(id));
    assert(p.with_tokens(seq![id]) == p.with_token(id).with_tokens(seq![id].drop_first()));
}

/// Taking a drawn token: the end token ends the generation and leaves its ids as they are;
/// every other token is added behind them, counts as a step, and does not end it. Progress
/// is to be shown when a token was added at a step that is a multiple of ten.
pub proof fn law_drawn_token_is_taken(g: &mut Generation, id: usize, r: Outcome)
    requires
        !old(g).ended,
        old(g).step < old(g).max_steps,
        old(g).ids@.len() < old(g).max_len,
        call_ensures(Generation::accept, (g, id), r),
    ensures
        id == old(g).eos ==> r == Outcome::Ended && final(g).ended && final(g).ids@ == old(g).ids@
            && final(g).step == old(g).step,
        id != old(g).eos ==> r is Added && !final(g).ended && final(g).ids@ == old(g).ids@.push(id)
            && final(g).step == old(g).step + 1,
        r matches Outcome::Added { report } ==> (report <==> old(g).step % 10 == 0),
        final(g).max_steps == old(g).max_steps,
        final(g).max_len == old(g).max_len,
        final(g).eos == old(g).eos,
{
    assert(old(g)@.with_token(id) == final(g)@);
    assert(final(g)@.step == final(g).step && final(g)@.max_steps == final(g).max_steps
        && final(g)@.max_len == final(g).max_len);
}

/// A generation ends only by drawing the end token. Where `e` is the number of tokens drawn
/// in front of the first end token, or of all where there is none, it adds exactly these,
/// but no more than its limits leave room for; and it has ended where the end token was
/// drawn while there was room.
pub proof fn law_generation_ends_only_at_the_end_token(p: Progress, drawn: Seq<usize>, e: int)
    requires
        !p.ended,
        p.step <= p.max_steps,
        p.ids.len() <= p.max_len,
        0 <= e <= drawn.len(),
        forall|i: int| 0 <= i < e ==> #[trigger] drawn[i] != p.eos,
        e < drawn.len() ==> drawn[e] == p.eos,
    ensures
        ({
            let q = p.with_tokens(drawn);
            let steps = p.max_steps - p.step;
            let places = p.max_len - p.ids.len();
            let room = if steps < places {
                steps
            } else {
                places
            };
            let added = if e < room {
                e
            } else {
                room
            };
            &&& q.ids == p.ids + drawn.take(added)
            &&& q.step == p.step + added
            &&& q.ended <==> e < drawn.len() && e < room
            &&& q.max_steps == p.max_steps && q.max_len == p.max_len && q.eos == p.eos
        }),
    decreases drawn.len(),
{
    let q = p.with_tokens(drawn);
    if drawn.len() == 0 || !p.wants_token() {
        assert(q == p);
        assert(p.ids + drawn.take(0) =~= p.ids);
    } else if drawn[0] == p.eos {
        let next = p.with_token(drawn[0]);
        assert(next.with_tokens(drawn.drop_first()) == next);
        assert(q == next);
        assert(e == 0);
        assert(p.ids + drawn.take(0) =~= p.ids);
    } else {
        let next = p.with_token(drawn[0]);
        let rest = drawn.drop_first();
        assert(e > 0) by {
            if e == 0 {
                assert(drawn[e] == p.eos);
            }
        }
        assert forall|i: int| 0 <= i < e - 1 implies #[trigger] rest[i] != p.eos by {
            assert(rest[i] == drawn[i + 1]);
        }
        law_generation_ends_only_at_the_end_token(next, rest, e - 1);
        assert(q == next.with_tokens(rest));
        let added = q.step - p.step;
        assert(next.ids + rest.take(added - 1) =~= p.ids + drawn.take(added));
    }
}

} // verus!
