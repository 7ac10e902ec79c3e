//! How a text is read: lines, words and numerals.

use crate::text;
use vstd::prelude::*;

verus! {

// ── Words ────────────────────────────────────────────────────────────────────

/// Whether a character stands between words.
pub open spec fn gap(c: char) -> bool {
    c == ' ' || c == ',' || c == '(' || c == ')' || c == '[' || c == ']' || c == '{' || c == '}'
        || c == ':' || c == '\n'
}

/// How many characters a text starts with that are in a word.
pub open spec fn word_length(s: Seq<char>) -> int
    decreases s.len(),
{
    if s.len() == 0 || gap(s[0]) {
        0
    } else {
        1 + word_length(s.skip(1))
    }
}

/// The words of a text.
pub open spec fn words(s: Seq<char>) -> Seq<Seq<char>>
    decreases s.len(),
{
    if s.len() == 0 {
        Seq::empty()
    } else if gap(s[0]) {
        words(s.skip(1))
    } else {
        proof {
            word_length_bounds(s);
        }
        seq![s.take(word_length(s))] + words(s.skip(word_length(s)))
    }
}

/// Whether a text is a single word.
pub open spec fn is_word(s: Seq<char>) -> bool {
    s.len() > 0 && forall|i: int| 0 <= i < s.len() ==> !gap(#[trigger] s[i])
}

pub proof fn word_length_bounds(s: Seq<char>)
    ensures
        0 <= word_length(s) <= s.len(),
        s.len() > 0 && !gap(s[0]) ==> word_length(s) > 0,
        forall|i: int| 0 <= i < word_length(s) ==> !gap(#[trigger] s[i]),
        word_length(s) < s.len() ==> gap(s[word_length(s)]),
    decreases s.len(),
{
    if s.len() > 0 && !gap(s[0]) {
        word_length_bounds(s.skip(1));
        assert forall|i: int| 0 <= i < word_length(s) implies !gap(#[trigger] s[i]) by {
            if i > 0 {
                assert(s.skip(1)[i - 1] == s[i]);
            }
        }
    }
}

proof fn word_length_is(s: Seq<char>, n: int)
    requires
        0 <= n <= s.len(),
        forall|i: int| 0 <= i < n ==> !gap(#[trigger] s[i]),
        n < s.len() ==> gap(s[n]),
    ensures
        word_length(s) == n,
{
    word_length_bounds(s);
    let m = word_length(s);
    if m < n {
        assert(!gap(s[m]));
    } else if n < m {
        assert(!gap(s[n]));
    }
}

/// The words of two texts are those of both together, where no word goes on from one to the other.
pub proof fn words_of_two(x: Seq<char>, y: Seq<char>)
    requires
        x.len() == 0 || y.len() == 0 || gap(x.last()) || gap(y[0]),
    ensures
        words(x + y) == words(x) + words(y),
    decreases x.len(),
{
    let s = x + y;
    if x.len() == 0 {
        assert(s =~= y);
        assert(words(x) + words(y) =~= words(y));
    } else if y.len() == 0 {
        assert(s =~= x);
        assert(words(x) + words(y) =~= words(x));
    } else if gap(x[0]) {
        words_of_two(x.skip(1), y);
        assert(s.skip(1) =~= x.skip(1) + y);
    } else {
        word_length_bounds(x);
        let n = word_length(x);
        assert forall|i: int| 0 <= i < n implies !gap(#[trigger] s[i]) by {
            assert(s[i] == x[i]);
        }
        if n < x.len() {
            assert(s[n] == x[n]);
        } else {
            assert(!gap(x[x.len() - 1]));
            assert(s[n] == y[0]);
        }
        word_length_is(s, n);
        words_of_two(x.skip(n), y);
        assert(s.take(n) =~= x.take(n));
        assert(s.skip(n) =~= x.skip(n) + y);
        assert(words(s) =~= words(x) + words(y));
    }
}

/// A word is the only word of its text.
pub proof fn words_of_word(s: Seq<char>)
    requires
        is_word(s),
    ensures
        words(s) == seq![s],
{
    word_length_is(s, s.len() as int);
    assert(s.take(s.len() as int) =~= s);
    assert(s.skip(s.len() as int) =~= Seq::empty());
    assert(words(s.skip(s.len() as int)) =~= Seq::empty());
    assert(words(s) =~= seq![s]);
}

/// What stands between words holds no word.
pub proof fn words_of_gap(s: Seq<char>)
    requires
        forall|i: int| 0 <= i < s.len() ==> gap(#[trigger] s[i]),
    ensures
        words(s) == Seq::<Seq<char>>::empty(),
    decreases s.len(),
{
    if s.len() > 0 {
        assert forall|i: int| 0 <= i < s.skip(1).len() implies gap(#[trigger] s.skip(1)[i]) by {
            assert(s.skip(1)[i] == s[i + 1]);
        }
        words_of_gap(s.skip(1));
    }
}

/// The words of words with commas between them.
pub proof fn words_of_list(items: Seq<Seq<char>>)
    requires
        forall|i: int| 0 <= i < items.len() ==> is_word(#[trigger] items[i]),
    ensures
        words(text::join(items, ", "@)) == items,
    decreases items.len(),
{
    reveal_strlit(", ");
    if items.len() == 0 {
        assert(words(text::join(items, ", "@)) =~= items);
    } else if items.len() == 1 {
        words_of_word(items[0]);
        assert(seq![items[0]] =~= items);
    } else {
        let front = items.drop_last();
        assert forall|i: int| 0 <= i < front.len() implies is_word(#[trigger] front[i]) by {
            assert(front[i] == items[i]);
        }
        words_of_list(front);
        words_of_gap(", "@);
        words_of_two(text::join(front, ", "@), ", "@);
        words_of_two(text::join(front, ", "@) + ", "@, items.last());
        words_of_word(items.last());
        assert(front + Seq::<Seq<char>>::empty() + seq![items.last()] =~= items);
    }
}

/// A word after a gap is one more word.
pub proof fn word_after(x: Seq<char>, w: Seq<char>)
    requires
        is_word(w),
        x.len() == 0 || gap(x.last()),
    ensures
        words(x + w) == words(x).push(w),
{
    words_of_word(w);
    words_of_two(x, w);
    assert(words(x) + seq![w] =~= words(x).push(w));
}

/// A gap adds no word.
pub proof fn gap_after(x: Seq<char>, g: Seq<char>)
    requires
        g.len() > 0,
        forall|i: int| 0 <= i < g.len() ==> gap(#[trigger] g[i]),
    ensures
        words(x + g) == words(x),
        (x + g).len() > 0,
        gap((x + g).last()),
{
    assert(gap(g[0]));
    assert(gap(g[g.len() - 1]));
    words_of_gap(g);
    words_of_two(x, g);
    assert(words(x) + Seq::<Seq<char>>::empty() =~= words(x));
}

/// A list of words with commas between them adds these words.
pub proof fn list_after(x: Seq<char>, items: Seq<Seq<char>>)
    requires
        forall|i: int| 0 <= i < items.len() ==> is_word(#[trigger] items[i]),
        x.len() == 0 || gap(x.last()),
    ensures
        words(x + text::join(items, ", "@)) == words(x) + items,
{
    words_of_list(items);
    words_of_two(x, text::join(items, ", "@));
}

// ── Lines ────────────────────────────────────────────────────────────────────

/// How many characters a text has before its first line ends.
pub open spec fn line_length(s: Seq<char>) -> int
    decreases s.len(),
{
    if s.len() == 0 || s[0] == '\n' {
        0
    } else {
        1 + line_length(s.skip(1))
    }
}

/// The lines of a text, without their ends.
pub open spec fn lines(s: Seq<char>) -> Seq<Seq<char>>
    decreases s.len(),
{
    if s.len() == 0 {
        Seq::empty()
    } else {
        proof {
            line_length_bounds(s);
        }
        let n = line_length(s);
        seq![s.take(n)] + if n + 1 < s.len() {
            lines(s.skip(n + 1))
        } else {
            Seq::empty()
        }
    }
}

/// Whether a text is within a line.
pub open spec fn in_line(s: Seq<char>) -> bool {
    forall|i: int| 0 <= i < s.len() ==> #[trigger] s[i] != '\n'
}

/// Whether a text is made of whole lines.
pub open spec fn whole_lines(s: Seq<char>) -> bool {
    s.len() == 0 || s.last() == '\n'
}

pub proof fn line_length_bounds(s: Seq<char>)
    ensures
        0 <= line_length(s) <= s.len(),
        forall|i: int| 0 <= i < line_length(s) ==> #[trigger] s[i] != '\n',
        line_length(s) < s.len() ==> s[line_length(s)] == '\n',
    decreases s.len(),
{
    if s.len() > 0 && s[0] != '\n' {
        line_length_bounds(s.skip(1));
        assert forall|i: int| 0 <= i < line_length(s) implies #[trigger] s[i] != '\n' by {
            if i > 0 {
                assert(s.skip(1)[i - 1] == s[i]);
            }
        }
    }
}

/// The lines of two texts are those of both together, where the first is made of whole lines.
pub proof fn lines_of_two(x: Seq<char>, y: Seq<char>)
    requires
        whole_lines(x),
    ensures
        lines(x + y) == lines(x) + lines(y),
    decreases x.len(),
{
    let s = x + y;
    if x.len() == 0 {
        assert(s =~= y);
        assert(lines(x) + lines(y) =~= lines(y));
    } else if y.len() == 0 {
        assert(s =~= x);
        assert(lines(x) + lines(y) =~= lines(x));
    } else {
        line_length_bounds(x);
        line_length_bounds(s);
        let n = line_length(x);
        assert(n < x.len());
        let m = line_length(s);
        assert(m == n) by {
            if m < n {
                assert(s[m] == x[m]);
            } else if n < m {
                assert(s[n] == x[n]);
            }
        }
        assert(s.take(n) =~= x.take(n));
        assert(s.skip(n + 1) =~= x.skip(n + 1) + y);
        lines_of_two(x.skip(n + 1), y);
        assert(lines(s) =~= lines(x) + lines(y));
    }
}

/// A line with its end is one line.
pub proof fn lines_of_line(s: Seq<char>)
    requires
        in_line(s),
    ensures
        lines(s + seq!['\n']) == seq![s],
{
    let l = s + seq!['\n'];
    line_length_bounds(l);
    let n = line_length(l);
    assert(n == s.len()) by {
        if n < s.len() {
            assert(l[n] == s[n]);
        } else if n > s.len() {
            assert(l[s.len() as int] == '\n');
        }
    }
    assert(l.take(n) =~= s);
    assert(lines(l) =~= seq![s]);
}

// ── Numerals ─────────────────────────────────────────────────────────────────

/// Whether a text is a decimal numeral without a sign.
pub open spec fn is_digits(s: Seq<char>) -> bool {
    s.len() > 0 && forall|i: int| 0 <= i < s.len() ==> '0' <= #[trigger] s[i] <= '9'
}

/// The integer that a decimal numeral denotes.
pub open spec fn numeral(s: Seq<char>) -> Option<int> {
    if is_digits(s) {
        Some(text::dec_value(s))
    } else if s.len() > 1 && s[0] == '-' && is_digits(s.skip(1)) {
        Some(-text::dec_value(s.skip(1)))
    } else {
        None
    }
}

/// A decimal numeral is a word that denotes its number.
pub proof fn numerals_denote(n: int)
    ensures
        numeral(text::dec_int(n)) == Some(n),
        is_word(text::dec_int(n)),
        in_line(text::dec_int(n)),
        n >= 0 ==> numeral(text::dec_nat(n as nat)) == Some(n) && is_word(text::dec_nat(n as nat))
            && in_line(text::dec_nat(n as nat)),
        n >= 0 ==> text::dec_int(n) == text::dec_nat(n as nat),
{
    let m: nat = if n < 0 {
        (-n) as nat
    } else {
        n as nat
    };
    text::dec_nat_reads_back(m);
    let d = text::dec_nat(m);
    assert(is_digits(d));
    if n < 0 {
        let s = text::dec_int(n);
        assert(s.skip(1) =~= d);
        assert(s[0] == '-');
        assert forall|i: int| 0 <= i < s.len() implies !gap(#[trigger] s[i]) && s[i] != '\n' by {
            if i > 0 {
                assert(s[i] == d[i - 1]);
            }
        }
    }
}

} // verus!
