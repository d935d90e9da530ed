//! Text as a sequence of characters: white space, words, lines, numbers.
use vstd::prelude::*;

verus! {

/// `String::push`: appends one character to the end of the string.
pub assume_specification[ String::push ](s: &mut String, c: char)
    ensures
        final(s)@ == old(s)@.push(c),
;

/// The characters of a string.
pub fn chars_of(s: &str) -> (r: Vec<char>)
    ensures
        r@ == s@,
{
    let mut out: Vec<char> = Vec::new();
    for c in it: s.chars()
        invariant
            out@ == s@.take(it.index() as int),
            it.seq() == s@,
    {
        out.push(c);
    }
    assert(s@.take(s@.len() as int) =~= s@);
    out
}

/// The string of some characters.
pub fn string_of(chars: &Vec<char>) -> (r: String)
    ensures
        r@ == chars@,
{
    let mut out = String::new();
    let mut i: usize = 0;
    while i < chars.len()
        invariant
            i <= chars@.len(),
            out@ =~= chars@.take(i as int),
        decreases chars.len() - i,
    {
        out.push(chars[i]);
        i += 1;
    }
    assert(chars@.take(chars@.len() as int) =~= chars@);
    out
}

/// Whether a character has Unicode's `White_Space` property.
pub open spec fn is_white_space(c: char) -> bool {
    let n = c as u32;
    ||| 0x9 <= n <= 0xd
    ||| n == 0x20
    ||| n == 0x85
    ||| n == 0xa0
    ||| n == 0x1680
    ||| 0x2000 <= n <= 0x200a
    ||| n == 0x2028
    ||| n == 0x2029
    ||| n == 0x202f
    ||| n == 0x205f
    ||| n == 0x3000
}

/// Tells whether a character is white space.
pub fn white_space(c: char) -> (b: bool)
    ensures
        b == is_white_space(c),
{
    let n: u32 = c as u32;
    (0x9 <= n && n <= 0xd) || n == 0x20 || n == 0x85 || n == 0xa0 || n == 0x1680 || (0x2000 <= n
        && n <= 0x200a) || n == 0x2028 || n == 0x2029 || n == 0x202f || n == 0x205f || n == 0x3000
}

/// A text without the white space at its start.
pub open spec fn trim_start(s: Seq<char>) -> Seq<char>
    decreases s.len(),
{
    if s.len() > 0 && is_white_space(s[0]) {
        trim_start(s.drop_first())
    } else {
        s
    }
}

/// A text without the white space at its end.
pub open spec fn trim_end(s: Seq<char>) -> Seq<char>
    decreases s.len(),
{
    if s.len() > 0 && is_white_space(s.last()) {
        trim_end(s.drop_last())
    } else {
        s
    }
}

/// A text without the white space at its two ends.
pub open spec fn trimmed(s: Seq<char>) -> Seq<char> {
    trim_end(trim_start(s))
}

/// Cuts the white space off the two ends of a text.
pub fn trim(s: &Vec<char>) -> (r: Vec<char>)
    ensures
        r@ == trimmed(s@),
{
    let mut lo: usize = 0;
    assert(s@.skip(0) =~= s@);
    while lo < s.len() && white_space(s[lo])
        invariant
            lo <= s@.len(),
            trim_start(s@) == trim_start(s@.skip(lo as int)),
        decreases s.len() - lo,
    {
        assert(s@.skip(lo as int).drop_first() =~= s@.skip(lo + 1));
        lo += 1;
    }
    let ghost t = s@.skip(lo as int);
    assert(trim_start(s@) == t);
    let mut hi: usize = s.len();
    assert(t.take(hi - lo) =~= t);
    while hi > lo && white_space(s[hi - 1])
        invariant
            lo <= hi <= s@.len(),
            t == s@.skip(lo as int),
            trim_end(t) == trim_end(t.take(hi - lo)),
        decreases hi,
    {
        assert(t.take(hi - lo).drop_last() =~= t.take(hi - lo - 1));
        hi -= 1;
    }
    assert(trim_end(t) == t.take(hi - lo));
    let mut out: Vec<char> = Vec::new();
    let mut i: usize = lo;
    while i < hi
        invariant
            lo <= i <= hi <= s@.len(),
            t == s@.skip(lo as int),
            out@ =~= t.take(i - lo),
        decreases hi - i,
    {
        out.push(s[i]);
        i += 1;
    }
    out
}

/// The words of a text: its longest stretches without white space, from left to right.
pub open spec fn words(s: Seq<char>) -> Seq<Seq<char>>
    decreases s.len(),
{
    if s.len() == 0 {
        Seq::empty()
    } else {
        let before = words(s.drop_last());
        if is_white_space(s.last()) {
            before
        } else if s.len() > 1 && !is_white_space(s[s.len() - 2]) {
            before.drop_last().push(before.last().push(s.last()))
        } else {
            before.push(seq![s.last()])
        }
    }
}

/// The contents of a list of texts.
pub open spec fn texts(v: Seq<Vec<char>>) -> Seq<Seq<char>> {
    Seq::new(v.len(), |i: int| v[i]@)
}

/// Splits a text at its white space.
pub fn split_words(s: &Vec<char>) -> (r: Vec<Vec<char>>)
    ensures
        texts(r@) == words(s@),
{
    let mut out: Vec<Vec<char>> = Vec::new();
    let mut word: Vec<char> = Vec::new();
    let mut i: usize = 0;
    while i < s.len()
        invariant
            i <= s@.len(),
            ({
                let w = words(s@.take(i as int));
                if i > 0 && !is_white_space(s@[i - 1]) {
                    &&& word@.len() > 0
                    &&& w =~= texts(out@).push(word@)
                } else {
                    &&& word@.len() == 0
                    &&& w =~= texts(out@)
                }
            }),
        decreases s.len() - i,
    {
        let c: char = s[i];
        let ghost done = out@;
        let ghost head = s@.take(i + 1);
        assert(head.drop_last() =~= s@.take(i as int));
        assert(i > 0 ==> head[head.len() - 2] == s@[i - 1]);
        if white_space(c) {
            if word.len() > 0 {
                let ghost w = word@;
                out.push(word);
                word = Vec::new();
                assert(texts(out@) =~= texts(done).push(w));
            }
        } else {
            let ghost w = word@;
            word.push(c);
            assert(w.len() == 0 ==> word@ =~= seq![c]);
            assert(texts(out@).push(w).drop_last() =~= texts(out@));
        }
        i += 1;
    }
    assert(s@.take(s@.len() as int) =~= s@);
    let ghost done = out@;
    if word.len() > 0 {
        let ghost w = word@;
        out.push(word);
        assert(texts(out@) =~= texts(done).push(w));
    }
    out
}

/// A text with every `from` replaced by `to`.
pub open spec fn with_char_replaced(s: Seq<char>, from: char, to: char) -> Seq<char> {
    Seq::new(
        s.len(),
        |i: int|
            if s[i] == from {
                to
            } else {
                s[i]
            },
    )
}

/// Replaces a character throughout a text.
pub fn replace_char(s: &Vec<char>, from: char, to: char) -> (r: Vec<char>)
    ensures
        r@ == with_char_replaced(s@, from, to),
{
    let mut out: Vec<char> = Vec::new();
    let mut i: usize = 0;
    while i < s.len()
        invariant
            i <= s@.len(),
            out@ =~= with_char_replaced(s@, from, to).take(i as int),
        decreases s.len() - i,
    {
        let c: char = s[i];
        out.push(
            if c == from {
                to
            } else {
                c
            },
        );
        i += 1;
    }
    out
}

/// A text in which, read from left to right, each two blanks have become one.
pub open spec fn blanks_halved(s: Seq<char>) -> Seq<char>
    decreases s.len(),
{
    if s.len() < 2 {
        s
    } else if s[0] == ' ' && s[1] == ' ' {
        seq![' '] + blanks_halved(s.skip(2))
    } else {
        seq![s[0]] + blanks_halved(s.skip(1))
    }
}

/// Turns each two blanks into one.
pub fn halve_blanks(s: &Vec<char>) -> (r: Vec<char>)
    ensures
        r@ == blanks_halved(s@),
{
    let mut out: Vec<char> = Vec::new();
    let mut i: usize = 0;
    assert(s@.skip(0) =~= s@);
    while i < s.len()
        invariant
            i <= s@.len(),
            out@ + blanks_halved(s@.skip(i as int)) =~= blanks_halved(s@),
        decreases s.len() - i,
    {
        let ghost rest = s@.skip(i as int);
        let ghost done = out@;
        let c: char = s[i];
        if i + 1 < s.len() && c == ' ' && s[i + 1] == ' ' {
            out.push(' ');
            assert(rest.skip(2) =~= s@.skip(i + 2));
            assert(done + (seq![' '] + blanks_halved(s@.skip(i + 2))) =~= out@ + blanks_halved(
                s@.skip(i + 2),
            ));
            i += 2;
        } else {
            out.push(c);
            assert(rest.skip(1) =~= s@.skip(i + 1));
            assert(rest.len() == 1 ==> blanks_halved(rest) =~= seq![c] + blanks_halved(
                s@.skip(i + 1),
            ));
            assert(done + (seq![c] + blanks_halved(s@.skip(i + 1))) =~= out@ + blanks_halved(
                s@.skip(i + 1),
            ));
            i += 1;
        }
    }
    assert(s@.skip(s@.len() as int) =~= Seq::empty());
    out
}

/// The number of characters before the first line feed, or of all where there is none.
pub open spec fn line_len(s: Seq<char>) -> nat
    decreases s.len(),
{
    if s.len() == 0 || s[0] == '\n' {
        0
    } else {
        1 + line_len(s.drop_first())
    }
}

/// A line without the carriage return in front of its line feed.
pub open spec fn without_return(s: Seq<char>) -> Seq<char> {
    if s.len() > 0 && s.last() == '\r' {
        s.drop_last()
    } else {
        s
    }
}

/// The lines of a text. A line ends in a line feed, with or without a carriage return in
/// front of it; the last line may end without one, and keeps a carriage return.
pub open spec fn lines(s: Seq<char>) -> Seq<Seq<char>>
    decreases s.len(),
{
    if s.len() == 0 {
        Seq::empty()
    } else {
        let n = line_len(s) as int;
        if n < s.len() {
            seq![without_return(s.take(n))] + lines(s.skip(n + 1))
        } else {
            seq![s]
        }
    }
}

/// Lines in one text, with a line feed between each two.
pub open spec fn joined_lines(ls: Seq<Seq<char>>) -> Seq<char>
    decreases ls.len(),
{
    if ls.len() == 0 {
        Seq::empty()
    } else if ls.len() == 1 {
        ls[0]
    } else {
        joined_lines(ls.drop_last()).push('\n') + ls.last()
    }
}

/// The first `n` items of a sequence, or all where it has fewer.
pub open spec fn at_most<T>(s: Seq<T>, n: nat) -> Seq<T> {
    if n < s.len() {
        s.take(n as int)
    } else {
        s
    }
}

proof fn lemma_line_len(s: Seq<char>, n: int)
    requires
        0 <= n <= s.len(),
        forall|i: int| 0 <= i < n ==> s[i] != '\n',
        n < s.len() ==> s[n] == '\n',
    ensures
        line_len(s) == n,
    decreases n,
{
    if n > 0 {
        assert(s[0] != '\n');
        lemma_line_len(s.drop_first(), n - 1);
    }
}

/// Appends the characters of `s` from `from` up to `to`.
fn append_range(out: &mut Vec<char>, s: &Vec<char>, from: usize, to: usize)
    requires
        from <= to <= s@.len(),
    ensures
        final(out)@ == old(out)@ + s@.subrange(from as int, to as int),
{
    let ghost before = out@;
    let mut i: usize = from;
    while i < to
        invariant
            from <= i <= to <= s@.len(),
            out@ =~= before + s@.subrange(from as int, i as int),
        decreases to - i,
    {
        out.push(s[i]);
        i += 1;
    }
}

/// The first `n` lines of a text, with a line feed between each two.
pub fn head_lines(s: &Vec<char>, n: usize) -> (r: Vec<char>)
    ensures
        r@ == joined_lines(at_most(lines(s@), n as nat)),
{
    let mut out: Vec<char> = Vec::new();
    let mut start: usize = 0;
    let mut taken: usize = 0;
    let ghost all = lines(s@);
    let ghost mut done: Seq<Seq<char>> = Seq::empty();
    assert(s@.skip(0) =~= s@);
    while taken < n && start < s.len()
        invariant
            taken <= n,
            start <= s@.len(),
            all == lines(s@),
            done.len() == taken,
            all =~= done + lines(s@.skip(start as int)),
            out@ == joined_lines(done),
        decreases s.len() - start,
    {
        let ghost rest = s@.skip(start as int);
        let mut end: usize = start;
        while end < s.len() && s[end] != '\n'
            invariant
                start <= end <= s@.len(),
                rest == s@.skip(start as int),
                forall|i: int| 0 <= i < end - start ==> rest[i] != '\n',
            decreases s.len() - end,
        {
            end += 1;
        }
        proof {
            lemma_line_len(rest, end - start);
        }
        let mut stop: usize = end;
        if end < s.len() && end > start && s[end - 1] == '\r' {
            stop = end - 1;
        }
        let ghost line = s@.subrange(start as int, stop as int);
        if taken > 0 {
            out.push('\n');
        }
        append_range(&mut out, s, start, stop);
        let ghost old_done = done;
        proof {
            done = done.push(line);
            assert(done.drop_last() =~= old_done);
            assert(rest.take(end - start) =~= s@.subrange(start as int, end as int));
            if old_done.len() == 0 {
                assert(out@ =~= line);
            }
            assert(out@ =~= joined_lines(done));
        }
        if end < s.len() {
            proof {
                assert(line =~= without_return(rest.take(end - start)));
                assert(rest.skip(end - start + 1) =~= s@.skip(end + 1));
                assert(lines(rest) =~= seq![line] + lines(s@.skip(end + 1)));
            }
            start = end + 1;
        } else {
            proof {
                assert(line =~= rest);
                assert(s@.skip(end as int) =~= Seq::empty());
                assert(lines(rest) =~= seq![line]);
            }
            start = end;
        }
        taken += 1;
    }
    proof {
        if start == s@.len() {
            assert(s@.skip(start as int) =~= Seq::empty());
            assert(all =~= done);
        } else {
            assert(lines(s@.skip(start as int)).len() > 0);
            assert(all.take(n as int) =~= done);
        }
    }
    out
}

/// Whether a character is one of the ten decimal digits.
pub open spec fn is_digit(c: char) -> bool {
    '0' <= c <= '9'
}

/// The number that decimal digits stand for.
pub open spec fn decimal(digits: Seq<char>) -> int
    decreases digits.len(),
{
    if digits.len() == 0 {
        0
    } else {
        10 * decimal(digits.drop_last()) + (digits.last() as int - '0' as int)
    }
}

/// A text without a plus sign at its start.
pub open spec fn without_plus(s: Seq<char>) -> Seq<char> {
    if s.len() > 0 && s[0] == '+' {
        s.drop_first()
    } else {
        s
    }
}

/// The number that a text stands for: at least one decimal digit and nothing else, but for
/// one plus sign in front, and no more than a `usize` holds.
pub open spec fn parsed_usize(s: Seq<char>) -> Option<usize> {
    let digits = without_plus(s);
    if digits.len() > 0 && (forall|i: int| 0 <= i < digits.len() ==> is_digit(#[trigger] digits[i]))
        && decimal(digits) <= usize::MAX {
        Some(decimal(digits) as usize)
    } else {
        None
    }
}

/// More digits never stand for a smaller number.
proof fn lemma_decimal_grows(digits: Seq<char>, n: int)
    requires
        0 <= n <= digits.len(),
        forall|i: int| 0 <= i < digits.len() ==> is_digit(#[trigger] digits[i]),
    ensures
        0 <= decimal(digits.take(n)) <= decimal(digits),
    decreases digits.len(),
{
    if digits.len() == 0 {
        assert(digits.take(n) =~= digits);
    } else if n == digits.len() {
        assert(digits.take(n) =~= digits);
        lemma_decimal_grows(digits.drop_last(), 0);
        assert(digits.drop_last().take(0) =~= Seq::empty());
    } else {
        lemma_decimal_grows(digits.drop_last(), n);
        assert(digits.drop_last().take(n) =~= digits.take(n));
        assert(is_digit(digits[digits.len() - 1]));
    }
}

/// Reads a text as a number.
pub fn parse_usize(s: &str) -> (r: Option<usize>)
    ensures
        r == parsed_usize(s@),
{
    let chars = chars_of(s);
    let ghost digits = without_plus(s@);
    let mut i: usize = 0;
    if chars.len() > 0 && chars[0] == '+' {
        i = 1;
    }
    let start: usize = i;
    if i >= chars.len() {
        return None;
    }
    let mut value: usize = 0;
    assert(digits.take(0) =~= Seq::empty());
    while i < chars.len()
        invariant
            start <= i <= chars@.len(),
            chars@ == s@,
            digits == without_plus(s@),
            start + digits.len() == chars@.len(),
            forall|k: int| 0 <= k < digits.len() ==> #[trigger] digits[k] == chars@[start + k],
            forall|k: int| 0 <= k < i - start ==> is_digit(#[trigger] digits[k]),
            value == decimal(digits.take(i - start)),
        decreases chars.len() - i,
    {
        let c: char = chars[i];
        assert(digits[i - start] == c);
        if c < '0' || '9' < c {
            assert(!is_digit(digits[i - start]));
            return None;
        }
        let d: usize = c as usize - '0' as usize;
        proof {
            assert(digits.take(i - start + 1).drop_last() =~= digits.take(i - start));
            assert(decimal(digits.take(i - start + 1)) == 10 * value + d);
            if forall|k: int| 0 <= k < digits.len() ==> is_digit(#[trigger] digits[k]) {
                lemma_decimal_grows(digits, i - start + 1);
            }
        }
        match value.checked_mul(10) {
            Some(tens) => match tens.checked_add(d) {
                Some(sum) => {
                    value = sum;
                },
                None => {
                    return None;
                },
            },
            None => {
                return None;
            },
        }
        i += 1;
    }
    assert(digits.take(i - start) =~= digits);
    Some(value)
}

/// Whether every character of `part` is a character of `s`.
pub open spec fn made_of(part: Seq<char>, s: Seq<char>) -> bool {
    forall|i: int| 0 <= i < part.len() ==> s.contains(#[trigger] part[i])
}

proof fn lemma_trim_start(s: Seq<char>)
    ensures
        made_of(trim_start(s), s),
        trim_start(s).len() > 0 ==> !is_white_space(trim_start(s)[0]),
    decreases s.len(),
{
    if s.len() > 0 && is_white_space(s[0]) {
        let rest = s.drop_first();
        lemma_trim_start(rest);
        assert forall|i: int| 0 <= i < trim_start(rest).len() implies s.contains(
            #[trigger] trim_start(rest)[i],
        ) by {
            assert(rest.contains(trim_start(rest)[i]));
            let j = choose|j: int| 0 <= j < rest.len() && rest[j] == trim_start(rest)[i];
            assert(s[j + 1] == trim_start(rest)[i]);
        }
    }
}

proof fn lemma_trim_end(s: Seq<char>)
    ensures
        made_of(trim_end(s), s),
        trim_end(s).len() > 0 ==> !is_white_space(trim_end(s).last()) && trim_end(s)[0] == s[0],
    decreases s.len(),
{
    if s.len() > 0 && is_white_space(s.last()) {
        let rest = s.drop_last();
        lemma_trim_end(rest);
        assert forall|i: int| 0 <= i < trim_end(rest).len() implies s.contains(
            #[trigger] trim_end(rest)[i],
        ) by {
            assert(rest.contains(trim_end(rest)[i]));
            let j = choose|j: int| 0 <= j < rest.len() && rest[j] == trim_end(rest)[i];
            assert(s[j] == trim_end(rest)[i]);
        }
    }
}

/// A trimmed text begins and ends in something other than white space, and has no
/// characters but those of the text.
pub proof fn law_trimmed(s: Seq<char>)
    ensures
        made_of(trimmed(s), s),
        trimmed(s).len() > 0 ==> !is_white_space(trimmed(s)[0]) && !is_white_space(
            trimmed(s).last(),
        ),
{
    lemma_trim_start(s);
    lemma_trim_end(trim_start(s));
    let t = trim_start(s);
    assert forall|i: int| 0 <= i < trimmed(s).len() implies s.contains(#[trigger] trimmed(s)[i]) by {
        assert(t.contains(trimmed(s)[i]));
        let j = choose|j: int| 0 <= j < t.len() && t[j] == trimmed(s)[i];
        assert(s.contains(t[j]));
    }
}

/// Halving the blanks brings in no new character.
pub proof fn lemma_blanks_halved_made_of(s: Seq<char>)
    ensures
        made_of(blanks_halved(s), s),
    decreases s.len(),
{
    if s.len() >= 2 {
        let n: int = if s[0] == ' ' && s[1] == ' ' {
            2
        } else {
            1
        };
        let rest = s.skip(n);
        lemma_blanks_halved_made_of(rest);
        let r = blanks_halved(s);
        assert(r =~= seq![s[0]] + blanks_halved(rest));
        assert forall|i: int| 0 <= i < r.len() implies s.contains(#[trigger] r[i]) by {
            if i > 0 {
                assert(r[i] == blanks_halved(rest)[i - 1]);
                assert(rest.contains(r[i]));
                let j = choose|j: int| 0 <= j < rest.len() && rest[j] == r[i];
                assert(s[j + n] == r[i]);
            } else {
                assert(s[0] == r[i]);
            }
        }
    }
}

/// A text without two blanks side by side is not changed by halving the blanks.
pub proof fn lemma_blanks_halved_same(s: Seq<char>)
    requires
        forall|i: int| 0 <= i < s.len() - 1 ==> !(#[trigger] s[i] == ' ' && s[i + 1] == ' '),
    ensures
        blanks_halved(s) == s,
    decreases s.len(),
{
    if s.len() >= 2 {
        let rest = s.skip(1);
        assert(!(s[0] == ' ' && s[1] == ' '));
        assert forall|i: int| 0 <= i < rest.len() - 1 implies !(#[trigger] rest[i] == ' '
            && rest[i + 1] == ' ') by {
            assert(rest[i] == s[i + 1]);
            assert(!(s[i + 1] == ' ' && s[i + 1 + 1] == ' '));
        }
        lemma_blanks_halved_same(rest);
        assert(seq![s[0]] + rest =~= s);
    }
}

/// A text that begins and ends in something other than white space is trimmed already.
pub proof fn lemma_trimmed_same(s: Seq<char>)
    requires
        s.len() > 0 ==> !is_white_space(s[0]) && !is_white_space(s.last()),
    ensures
        trimmed(s) == s,
{
}

} // verus!
