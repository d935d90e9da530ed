//! Of texts: trimming, words, replacing, blanks, lines, numbers.
use vstd::prelude::*;

use crate::text::{
    at_most, blanks_halved, decimal, halve_blanks, is_digit, is_white_space, joined_lines,
    line_len, lines, parse_usize, parsed_usize, replace_char, split_words, texts, trim, trim_end,
    trim_start, trimmed, without_plus, without_return, words,
};
use crate::training::take_lines;

verus! {

/// Whether `r` is `s` from `lo` up to `hi`, with nothing but white space in front of `lo`
/// and from `hi` on, and none at `lo` and right before `hi`.
pub open spec fn trimmed_to(s: Seq<char>, r: Seq<char>, lo: int, hi: int) -> bool {
    &&& 0 <= lo <= hi <= s.len()
    &&& r == s.subrange(lo, hi)
    &&& forall|k: int| 0 <= k < lo ==> is_white_space(#[trigger] s[k])
    &&& forall|k: int| hi <= k < s.len() ==> is_white_space(#[trigger] s[k])
    &&& lo < hi ==> !is_white_space(s[lo]) && !is_white_space(s[hi - 1])
}

proof fn lemma_trim_start_cut(s: Seq<char>) -> (lo: int)
    ensures
        0 <= lo <= s.len(),
        trim_start(s) == s.subrange(lo, s.len() as int),
        forall|k: int| 0 <= k < lo ==> is_white_space(#[trigger] s[k]),
        lo < s.len() ==> !is_white_space(s[lo]),
    decreases s.len(),
{
    if s.len() > 0 && is_white_space(s[0]) {
        let rest = s.drop_first();
        let lo = lemma_trim_start_cut(rest);
        assert(rest.subrange(lo, rest.len() as int) =~= s.subrange(lo + 1, s.len() as int));
        assert forall|k: int| 0 <= k < lo + 1 implies is_white_space(#[trigger] s[k]) by {
            if k > 0 {
                assert(rest[k - 1] == s[k]);
            }
        }
        lo + 1
    } else {
        assert(s.subrange(0, s.len() as int) =~= s);
        0
    }
}

proof fn lemma_trim_end_cut(s: Seq<char>) -> (hi: int)
    ensures
        0 <= hi <= s.len(),
        trim_end(s) == s.subrange(0, hi),
        forall|k: int| hi <= k < s.len() ==> is_white_space(#[trigger] s[k]),
        0 < hi ==> !is_white_space(s[hi - 1]),
    decreases s.len(),
{
    if s.len() > 0 && is_white_space(s.last()) {
        let rest = s.drop_last();
        let hi = lemma_trim_end_cut(rest);
        assert(rest.subrange(0, hi) =~= s.subrange(0, hi));
        assert forall|k: int| hi <= k < s.len() implies is_white_space(#[trigger] s[k]) by {
            if k < rest.len() {
                assert(rest[k] == s[k]);
            }
        }
        hi
    } else {
        assert(s.subrange(0, s.len() as int) =~= s);
        s.len() as int
    }
}

/// Where a trimmed text lies in the text.
pub proof fn lemma_trimmed_to(s: Seq<char>) -> (cut: (int, int))
    ensures
        trimmed_to(s, trimmed(s), cut.0, cut.1),
{
    let lo = lemma_trim_start_cut(s);
    let t = trim_start(s);
    let n = lemma_trim_end_cut(t);
    let hi = lo + n;
    assert(t.subrange(0, n) =~= s.subrange(lo, hi));
    assert forall|k: int| hi <= k < s.len() implies is_white_space(#[trigger] s[k]) by {
        assert(t[k - lo] == s[k]);
    }
    if lo < hi {
        assert(t[n - 1] == s[hi - 1]);
    }
    (lo, hi)
}

/// Trimming cuts off white space at the two ends, all of it, and nothing else.
pub proof fn law_trim_cuts_the_ends(s: Vec<char>, r: Vec<char>)
    requires
        call_ensures(trim, (&s,), r),
    ensures
        exists|lo: int, hi: int| trimmed_to(s@, r@, lo, hi),
{
    let cut = lemma_trimmed_to(s@);
    assert(trimmed_to(s@, r@, cut.0, cut.1));
}

/// Whether the words `ws` of `s` lie from `from[i]` up to `to[i]`: none is empty or holds
/// white space, between each two is some white space, and what is in no word is white
/// space.
pub open spec fn words_lie_at(
    s: Seq<char>,
    ws: Seq<Seq<char>>,
    from: Seq<int>,
    to: Seq<int>,
) -> bool {
    &&& from.len() == ws.len() && to.len() == ws.len()
    &&& forall|i: int|
        0 <= i < ws.len() ==> 0 <= #[trigger] from[i] < to[i] <= s.len() && ws[i] == s.subrange(
            from[i],
            to[i],
        )
    &&& forall|i: int, k: int|
        0 <= i < ws.len() && #[trigger] from[i] <= k < to[i] ==> !is_white_space(#[trigger] s[k])
    &&& forall|i: int, j: int|
        0 <= i < j < ws.len() ==> #[trigger] to[i] < #[trigger] from[j]
    &&& forall|k: int|
        0 <= k < s.len() && !is_white_space(#[trigger] s[k]) ==> exists|i: int|
            0 <= i < ws.len() && #[trigger] from[i] <= k < to[i]
}

/// Where the words of a text lie.
pub proof fn lemma_words_lie_at(s: Seq<char>) -> (cut: (Seq<int>, Seq<int>))
    ensures
        words_lie_at(s, words(s), cut.0, cut.1),
    decreases s.len(),
{
    if s.len() == 0 {
        (Seq::empty(), Seq::empty())
    } else {
        let t = s.drop_last();
        let n = t.len() as int;
        let before = words(t);
        let ws = words(s);
        let m = before.len() as int;
        let (from, to) = lemma_words_lie_at(t);
        assert forall|k: int| 0 <= k < n implies #[trigger] t[k] == s[k] by {}
        assert forall|i: int| 0 <= i < m implies #[trigger] from[i] < to[i] && before[i]
            == s.subrange(from[i], to[i]) && to[i] <= n by {
            assert(t.subrange(from[i], to[i]) =~= s.subrange(from[i], to[i]));
        }
        if is_white_space(s.last()) {
            assert forall|k: int| 0 <= k < s.len() && !is_white_space(#[trigger] s[k]) implies exists|
                i: int,
            | 0 <= i < ws.len() && #[trigger] from[i] <= k < to[i] by {
                assert(t[k] == s[k]);
            }
            assert forall|i: int, k: int|
                0 <= i < ws.len() && #[trigger] from[i] <= k < to[i] implies !is_white_space(
                #[trigger] s[k],
            ) by {
                assert(t[k] == s[k]);
            }
            (from, to)
        } else if s.len() > 1 && !is_white_space(s[s.len() - 2]) {
            assert(!is_white_space(t[n - 1]));
            let i = choose|i: int| 0 <= i < m && #[trigger] from[i] <= n - 1 < to[i];
            assert(to[i] == n);
            if i < m - 1 {
                assert(to[i] < from[m - 1]);
                assert(from[m - 1] < to[m - 1]);
            }
            let to2 = to.update(m - 1, n + 1);
            assert(before[m - 1] == s.subrange(from[m - 1], n));
            assert(before.last().push(s.last()) =~= s.subrange(from[m - 1], n + 1));
            assert forall|a: int|
                0 <= a < ws.len() implies 0 <= #[trigger] from[a] < to2[a] <= s.len() && ws[a]
                == s.subrange(from[a], to2[a]) by {
                if a < m - 1 {
                    assert(ws[a] == before[a]);
                }
            }
            assert forall|a: int, k: int|
                0 <= a < ws.len() && #[trigger] from[a] <= k < to2[a] implies !is_white_space(
                #[trigger] s[k],
            ) by {
                if k < n {
                    assert(t[k] == s[k]);
                    assert(k < to[a]);
                }
            }
            assert forall|a: int, b: int|
                0 <= a < b < ws.len() implies #[trigger] to2[a] < #[trigger] from[b] by {
                assert(to[a] < from[b]);
            }
            assert forall|k: int| 0 <= k < s.len() && !is_white_space(#[trigger] s[k]) implies exists|
                a: int,
            | 0 <= a < ws.len() && #[trigger] from[a] <= k < to2[a] by {
                if k == n {
                    assert(from[m - 1] <= k < to2[m - 1]);
                } else {
                    assert(t[k] == s[k]);
                    let a = choose|a: int| 0 <= a < m && #[trigger] from[a] <= k < to[a];
                    assert(from[a] <= k < to2[a]);
                }
            }
            (from, to2)
        } else {
            let from2 = from.push(n);
            let to2 = to.push(n + 1);
            assert(seq![s.last()] =~= s.subrange(n, n + 1));
            assert forall|a: int|
                0 <= a < ws.len() implies 0 <= #[trigger] from2[a] < to2[a] <= s.len() && ws[a]
                == s.subrange(from2[a], to2[a]) by {
                if a < m {
                    assert(from2[a] == from[a] && to2[a] == to[a]);
                }
            }
            assert forall|a: int, k: int|
                0 <= a < ws.len() && #[trigger] from2[a] <= k < to2[a] implies !is_white_space(
                #[trigger] s[k],
            ) by {
                if a < m {
                    assert(from[a] <= k < to[a]);
                    assert(t[k] == s[k]);
                }
            }
            assert forall|a: int, b: int|
                0 <= a < b < ws.len() implies #[trigger] to2[a] < #[trigger] from2[b] by {
                if b < m {
                    assert(to[a] < from[b]);
                } else {
                    assert(from[a] <= to[a] - 1 < to[a]);
                    assert(!is_white_space(t[to[a] - 1]));
                    if to[a] == n {
                        assert(t[n - 1] == s[s.len() - 2]);
                    }
                }
            }
            assert forall|k: int| 0 <= k < s.len() && !is_white_space(#[trigger] s[k]) implies exists|
                a: int,
            | 0 <= a < ws.len() && #[trigger] from2[a] <= k < to2[a] by {
                if k == n {
                    assert(from2[m] <= k < to2[m]);
                } else {
                    assert(t[k] == s[k]);
                    let a = choose|a: int| 0 <= a < m && #[trigger] from[a] <= k < to[a];
                    assert(from2[a] <= k < to2[a]);
                }
            }
            (from2, to2)
        }
    }
}

/// Splitting finds the longest stretches without white space, all of them, in order.
pub proof fn law_words_are_the_stretches_between_white_space(s: Vec<char>, r: Vec<Vec<char>>)
    requires
        call_ensures(split_words, (&s,), r),
    ensures
        exists|ws: Seq<Seq<char>>, from: Seq<int>, to: Seq<int>| #[trigger]
            words_lie_at(s@, ws, from, to) && ws.len() == r@.len() && forall|i: int|
                0 <= i < r@.len() ==> (#[trigger] r@[i])@ == ws[i],
{
    let cut = lemma_words_lie_at(s@);
    assert(words_lie_at(s@, words(s@), cut.0, cut.1));
    assert forall|i: int| 0 <= i < r@.len() implies (#[trigger] r@[i])@ == words(s@)[i] by {
        assert(texts(r@)[i] == r@[i]@);
    }
}

/// Replacing changes the character that is to be replaced, everywhere, and no other.
pub proof fn law_replacing_is_everywhere(s: Vec<char>, from: char, to: char, r: Vec<char>)
    requires
        call_ensures(replace_char, (&s, from, to), r),
    ensures
        r@.len() == s@.len(),
        forall|i: int| 0 <= i < s@.len() && s@[i] == from ==> #[trigger] r@[i] == to,
        forall|i: int| 0 <= i < s@.len() && s@[i] != from ==> #[trigger] r@[i] == s@[i],
{
}

/// Whether `c` stands for what lies in `s` from `a` up to `b` when each two blanks are made
/// one: two blanks, or one character that is no blank with another one behind it.
pub open spec fn halves_to(s: Seq<char>, c: char, a: int, b: int) -> bool {
    &&& 0 <= a < s.len()
    &&& c == s[a]
    &&& b == if s[a] == ' ' && a + 1 < s.len() && s[a + 1] == ' ' {
        a + 2
    } else {
        a + 1
    }
}

/// Whether `r` is `s` with each two blanks made one, where `r[i]` stands for what lies in
/// `s` from `at[i]` up to `at[i + 1]`.
pub open spec fn halved_at(s: Seq<char>, r: Seq<char>, at: Seq<int>) -> bool {
    &&& at.len() == r.len() + 1
    &&& at[0] == 0
    &&& at[r.len() as int] == s.len()
    &&& forall|i: int| 0 <= i < r.len() ==> halves_to(s, #[trigger] r[i], at[i], at[i + 1])
}

/// Where the characters of a text lie whose blanks have been halved.
pub proof fn lemma_halved_at(s: Seq<char>) -> (at: Seq<int>)
    ensures
        halved_at(s, blanks_halved(s), at),
    decreases s.len(),
{
    let r = blanks_halved(s);
    if s.len() == 0 {
        seq![0int]
    } else if s.len() == 1 {
        assert(halves_to(s, r[0], 0, 1));
        seq![0int, 1int]
    } else {
        let n: int = if s[0] == ' ' && s[1] == ' ' {
            2
        } else {
            1
        };
        let rest = s.skip(n);
        let behind = lemma_halved_at(rest);
        let tail = blanks_halved(rest);
        assert(r =~= seq![s[0]] + tail);
        let at = Seq::new(
            (tail.len() + 2) as nat,
            |i: int|
                if i == 0 {
                    0int
                } else {
                    behind[i - 1] + n
                },
        );
        assert forall|i: int| 0 <= i < r.len() implies halves_to(
            s,
            #[trigger] r[i],
            at[i],
            at[i + 1],
        ) by {
            if i > 0 {
                let b = behind[i - 1];
                assert(r[i] == tail[i - 1]);
                assert(halves_to(rest, tail[i - 1], b, behind[i - 1 + 1]));
                assert(rest[b] == s[b + n]);
            }
        }
        at
    }
}

/// Halving the blanks takes the text from left to right, throughout, and turns each two
/// blanks into one.
pub proof fn law_blanks_are_halved_throughout(s: Vec<char>, r: Vec<char>)
    requires
        call_ensures(halve_blanks, (&s,), r),
    ensures
        exists|at: Seq<int>| halved_at(s@, r@, at),
{
    let at = lemma_halved_at(s@);
    assert(halved_at(s@, r@, at));
}

/// Halving goes on behind a character that is no blank as if the text began there.
pub proof fn lemma_halved_parts(a: Seq<char>, b: Seq<char>)
    requires
        a.len() == 0 || a.last() != ' ' || b.len() == 0 || b[0] != ' ',
    ensures
        blanks_halved(a + b) == blanks_halved(a) + blanks_halved(b),
    decreases a.len(),
{
    let s = a + b;
    if a.len() == 0 {
        assert(s =~= b);
        assert(blanks_halved(a) + blanks_halved(b) =~= blanks_halved(b));
    } else if b.len() == 0 {
        assert(s =~= a);
        assert(blanks_halved(a) + blanks_halved(b) =~= blanks_halved(a));
    } else if a.len() == 1 {
        assert(s.skip(1) =~= b);
        assert(a =~= seq![s[0]]);
        assert(!(s[0] == ' ' && s[1] == ' '));
    } else {
        let n: int = if a[0] == ' ' && a[1] == ' ' {
            2
        } else {
            1
        };
        let rest = a.skip(n);
        assert(s.skip(n) =~= rest + b);
        if rest.len() > 0 {
            assert(rest.last() == a.last());
            lemma_halved_parts(rest, b);
        } else {
            assert(rest + b =~= b);
            assert(blanks_halved(rest) + blanks_halved(b) =~= blanks_halved(b));
        }
        assert(blanks_halved(a) =~= seq![a[0]] + blanks_halved(rest));
        assert(seq![a[0]] + (blanks_halved(rest) + blanks_halved(b)) =~= (seq![a[0]]
            + blanks_halved(rest)) + blanks_halved(b));
    }
}

/// The first `n` lines of a text are none where `n` is zero.
pub proof fn law_no_lines(raw: &str, r: String)
    requires
        call_ensures(take_lines, (raw, 0usize), r),
    ensures
        r@ == Seq::<char>::empty(),
{
    assert(at_most(lines(raw@), 0) =~= Seq::empty());
}

/// A text without a line feed is its own first line.
pub proof fn law_single_line(raw: &str, n: usize, r: String)
    requires
        n > 0,
        forall|i: int| 0 <= i < raw@.len() ==> raw@[i] != '\n',
        call_ensures(take_lines, (raw, n), r),
    ensures
        r@ == raw@,
{
    let s = raw@;
    if s.len() > 0 {
        lemma_line_len_of(s, s.len() as int);
        assert(lines(s) == seq![s]);
        assert(at_most(seq![s], n as nat) =~= seq![s]);
    } else {
        assert(lines(s) =~= Seq::empty());
        assert(r@ =~= raw@);
    }
}

proof fn lemma_line_len_of(s: Seq<char>, n: int)
    requires
        0 <= n <= s.len(),
        forall|i: int| 0 <= i < n ==> s[i] != '\n',
        n < s.len() ==> s[n] == '\n',
    ensures
        line_len(s) == n,
    decreases n,
{
    if n > 0 {
        assert(s[0] != '\n');
        lemma_line_len_of(s.drop_first(), n - 1);
    }
}

proof fn lemma_joined_first(x: Seq<char>, ls: Seq<Seq<char>>)
    requires
        ls.len() > 0,
    ensures
        joined_lines(seq![x] + ls) == x.push('\n') + joined_lines(ls),
    decreases ls.len(),
{
    let all = seq![x] + ls;
    assert(all.drop_last() =~= seq![x] + ls.drop_last());
    if ls.len() == 1 {
        assert(all.drop_last() =~= seq![x]);
        assert(joined_lines(seq![x]) == x);
    } else {
        lemma_joined_first(x, ls.drop_last());
        assert((x.push('\n') + joined_lines(ls.drop_last())).push('\n') + ls.last() =~= x.push('\n')
            + (joined_lines(ls.drop_last()).push('\n') + ls.last()));
    }
}

/// The first line of a text ends at its first line feed, and does not hold a carriage
/// return right before it. What the other lines are, the text behind the line feed tells.
pub proof fn law_first_line(
    raw: &str,
    line: Seq<char>,
    rest: &str,
    n: usize,
    r: String,
    more: String,
)
    requires
        n > 0,
        forall|i: int| 0 <= i < line.len() ==> line[i] != '\n',
        raw@ == line.push('\n') + rest@,
        call_ensures(take_lines, (raw, n), r),
        call_ensures(take_lines, (rest, (n - 1) as usize), more),
    ensures
        ({
            let first = if line.len() > 0 && line.last() == '\r' {
                line.drop_last()
            } else {
                line
            };
            r@ == if n == 1 || rest@.len() == 0 {
                first
            } else {
                first.push('\n') + more@
            }
        }),
{
    let s = raw@;
    let k = line.len() as int;
    assert(s[k] == '\n');
    assert forall|i: int| 0 <= i < k implies s[i] != '\n' by {
        assert(s[i] == line[i]);
    }
    lemma_line_len_of(s, k);
    assert(s.take(k) =~= line);
    assert(s.skip(k + 1) =~= rest@);
    let first = without_return(line);
    let ls = lines(rest@);
    assert(lines(s) == seq![first] + ls);
    let some = at_most(ls, (n - 1) as nat);
    assert(at_most(seq![first] + ls, n as nat) =~= seq![first] + some);
    if n == 1 || rest@.len() == 0 {
        assert(seq![first] + some =~= seq![first]);
    } else {
        assert(ls.len() > 0);
        lemma_joined_first(first, some);
    }
}

/// A single character is a number where it is a decimal digit.
pub proof fn law_one_digit(s: &str, c: char, r: Option<usize>)
    requires
        s@ == seq![c],
        call_ensures(parse_usize, (s,), r),
    ensures
        r == if '0' <= c <= '9' {
            Some((c as int - '0' as int) as usize)
        } else {
            None::<usize>
        },
{
    let d = without_plus(s@);
    if c != '+' {
        assert(d =~= seq![c]);
        reveal_with_fuel(decimal, 2);
        assert(d.drop_last() =~= Seq::empty());
        assert(decimal(d) == c as int - '0' as int);
        assert(is_digit(d[0]) <==> '0' <= c <= '9');
    } else {
        assert(d.len() == 0);
    }
}

/// Nothing is no number.
pub proof fn law_no_digit(s: &str, r: Option<usize>)
    requires
        s@.len() == 0,
        call_ensures(parse_usize, (s,), r),
    ensures
        r is None,
{
}

/// A plus sign in front changes nothing, where there is no other one.
pub proof fn law_plus_sign(s: &str, t: &str, r: Option<usize>, q: Option<usize>)
    requires
        t@ == seq!['+'] + s@,
        s@.len() == 0 || s@[0] != '+',
        call_ensures(parse_usize, (s,), r),
        call_ensures(parse_usize, (t,), q),
    ensures
        q == r,
{
    assert(without_plus(t@) =~= s@);
    assert(without_plus(s@) == s@);
}

proof fn lemma_decimal_nonnegative(d: Seq<char>)
    requires
        forall|i: int| 0 <= i < d.len() ==> is_digit(#[trigger] d[i]),
    ensures
        decimal(d) >= 0,
    decreases d.len(),
{
    if d.len() > 0 {
        assert(is_digit(d[d.len() - 1]));
        lemma_decimal_nonnegative(d.drop_last());
    }
}

/// A further digit makes the number ten times as large and adds its own value, as far as a
/// `usize` holds the result; anything else behind a number, and anything behind what is
/// none, makes no number.
pub proof fn law_further_digit(s: &str, c: char, t: &str, r: Option<usize>, q: Option<usize>)
    requires
        t@ == s@.push(c),
        s@.len() > 0,
        s@ != seq!['+'],
        call_ensures(parse_usize, (s,), r),
        call_ensures(parse_usize, (t,), q),
    ensures
        q == match r {
            Some(n) => if '0' <= c <= '9' && 10 * n + (c as int - '0' as int) <= usize::MAX {
                Some((10 * n + (c as int - '0' as int)) as usize)
            } else {
                None::<usize>
            },
            None => None::<usize>,
        },
{
    let d = without_plus(s@);
    let e = without_plus(t@);
    if s@[0] == '+' && s@.len() == 1 {
        assert(s@ =~= seq!['+']);
    }
    assert(d.len() > 0);
    assert(e =~= d.push(c));
    assert(e.drop_last() =~= d);
    assert(decimal(e) == 10 * decimal(d) + (c as int - '0' as int));
    let good = forall|i: int| 0 <= i < d.len() ==> is_digit(#[trigger] d[i]);
    if good {
        lemma_decimal_nonnegative(d);
        if is_digit(c) {
            assert forall|i: int| 0 <= i < e.len() implies is_digit(#[trigger] e[i]) by {
                if i < d.len() {
                    assert(e[i] == d[i]);
                }
            }
        } else {
            assert(!is_digit(e[d.len() as int]));
        }
    } else {
        let i = choose|i: int| 0 <= i < d.len() && !is_digit(#[trigger] d[i]);
        assert(e[i] == d[i]);
        assert(!is_digit(e[i]));
        assert(parsed_usize(t@) is None);
    }
}

} // verus!
