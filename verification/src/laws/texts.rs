//! What is promised of texts: how they are joined, counted, trimmed, escaped and ordered.

use vstd::prelude::*;

use crate::discord::{escaped, escaped_char, is_markup};
use crate::text::{
    decimal_text, digit_char, distinct, is_white, joined, lemma_distinct, occurs, precedes, trimmed,
    trimmed_end, trimmed_start, utf16_units,
};

verus! {

/// Nothing is written for no text, one text stands as it is, and what is written of two lists
/// is what is written of each, with the separator once between them.
pub proof fn lemma_joined_texts(
    a: Seq<Seq<char>>,
    b: Seq<Seq<char>>,
    one: Seq<char>,
    sep: Seq<char>,
)
    ensures
        joined(Seq::empty(), sep).len() == 0,
        joined(seq![one], sep) == one,
        a.len() > 0 && b.len() > 0 ==> joined(a + b, sep) == joined(a, sep) + sep + joined(b, sep),
    decreases b.len(),
{
    if a.len() > 0 && b.len() > 0 {
        assert((a + b).drop_last() =~= a + b.drop_last());
        assert((a + b).last() == b.last());
        if b.len() == 1 {
            assert(a + b.drop_last() =~= a);
        } else {
            lemma_joined_texts(a, b.drop_last(), one, sep);
            assert(joined(a, sep) + sep + joined(b.drop_last(), sep) + sep + b.last() =~= joined(
                a,
                sep,
            ) + sep + (joined(b.drop_last(), sep) + sep + b.last()));
        }
    }
}

/// Whether a list holds what another holds, each thing once and in the order in which the
/// things first come.
pub open spec fn once_each<A>(all: Seq<A>, once: Seq<A>) -> bool {
    &&& once.no_duplicates()
    &&& forall|x: A| #[trigger] once.contains(x) <==> all.contains(x)
    &&& forall|j: int, k: int, i: int|
        #![trigger once[j], once[k], all[i]]
        0 <= j < k < once.len() && 0 <= i < all.len() && all[i] == once[k] ==> all.take(
            i,
        ).contains(once[j])
}

/// Leaving out repetitions keeps each thing once, where it first came.
pub proof fn lemma_repetitions_are_left_out<A>(s: Seq<A>)
    ensures
        once_each(s, distinct(s)),
    decreases s.len(),
{
    lemma_distinct(s);
    if s.len() > 0 {
        let t = s.drop_last();
        let d = distinct(t);
        let e = distinct(s);
        lemma_repetitions_are_left_out(t);
        lemma_distinct(t);
        assert forall|j: int, k: int, i: int|
            #![trigger e[j], e[k], s[i]]
            0 <= j < k < e.len() && 0 <= i < s.len() && s[i] == e[k] implies s.take(i).contains(
            e[j],
        ) by {
            if i < t.len() {
                assert(t[i] == s[i]);
                assert(s.take(i) =~= t.take(i));
                if k < d.len() {
                    assert(e[k] == d[k] && e[j] == d[j]);
                    assert(t.take(i).contains(d[j]));
                } else {
                    assert(t.contains(s.last()));
                    assert(d.contains(s.last()));
                    assert(false);
                }
            } else {
                assert(s.take(i) =~= t);
                assert(d[j] == e[j]);
                assert(d.contains(d[j]));
            }
        }
    }
}

/// The number that a text of decimal digits stands for.
pub open spec fn number_in(s: Seq<char>) -> int
    decreases s.len(),
{
    if s.len() == 0 {
        0
    } else {
        10 * number_in(s.drop_last()) + (s.last() as int - 48)
    }
}

/// A number is written with decimal digits that stand for it, and without a zero before them.
pub proof fn lemma_decimal_stands_for_the_number(n: nat)
    ensures
        number_in(decimal_text(n)) == n,
        decimal_text(n).len() > 0,
        forall|i: int|
            0 <= i < decimal_text(n).len() ==> 48 <= #[trigger] decimal_text(n)[i] as int <= 57,
        n > 0 ==> decimal_text(n)[0] != '0',
        n == 0 ==> decimal_text(n).len() == 1,
    decreases n,
{
    let s = decimal_text(n);
    let d = digit_char((n % 10) as int);
    if n < 10 {
        assert(s.drop_last() =~= Seq::<char>::empty());
        assert(number_in(s.drop_last()) == 0);
    } else {
        lemma_decimal_stands_for_the_number(n / 10);
        assert(s.drop_last() =~= decimal_text(n / 10));
        assert(s[0] == decimal_text(n / 10)[0]);
    }
}

/// What is left of a text after trimming is one stretch of it, with white space on both sides
/// only, and none at its ends.
pub proof fn lemma_trimming_takes_white_space_only(s: Seq<char>) -> (ends: (int, int))
    ensures
        0 <= ends.0 <= ends.1 <= s.len(),
        trimmed(s) == s.subrange(ends.0, ends.1),
        forall|i: int| 0 <= i < ends.0 ==> is_white(#[trigger] s[i]),
        forall|i: int| ends.1 <= i < s.len() ==> is_white(#[trigger] s[i]),
        trimmed(s).len() > 0 ==> !is_white(trimmed(s)[0]) && !is_white(trimmed(s).last()),
{
    let from = lemma_start(s);
    let t = trimmed_start(s);
    let to = lemma_end(t);
    assert(t.take(to) =~= s.subrange(from, from + to));
    assert forall|i: int| from + to <= i < s.len() implies is_white(#[trigger] s[i]) by {
        assert(t[i - from] == s[i]);
    }
    if to > 0 {
        assert(trimmed(s)[0] == t[0]);
    }
    (from, from + to)
}

proof fn lemma_start(s: Seq<char>) -> (from: int)
    ensures
        0 <= from <= s.len(),
        trimmed_start(s) == s.skip(from),
        forall|i: int| 0 <= i < from ==> is_white(#[trigger] s[i]),
        from < s.len() ==> !is_white(s[from]),
    decreases s.len(),
{
    if s.len() > 0 && is_white(s[0]) {
        let rest = s.drop_first();
        let k = lemma_start(rest);
        assert(rest.skip(k) =~= s.skip(k + 1));
        assert forall|i: int| 0 <= i < k + 1 implies is_white(#[trigger] s[i]) by {
            if i > 0 {
                assert(rest[i - 1] == s[i]);
            }
        }
        if k < rest.len() {
            assert(rest[k] == s[k + 1]);
        }
        k + 1
    } else {
        assert(s.skip(0) =~= s);
        0
    }
}

proof fn lemma_end(s: Seq<char>) -> (to: int)
    ensures
        0 <= to <= s.len(),
        trimmed_end(s) == s.take(to),
        forall|i: int| to <= i < s.len() ==> is_white(#[trigger] s[i]),
        to > 0 ==> !is_white(s[to - 1]),
    decreases s.len(),
{
    if s.len() > 0 && is_white(s.last()) {
        let rest = s.drop_last();
        let k = lemma_end(rest);
        assert(rest.take(k) =~= s.take(k));
        assert forall|i: int| k <= i < s.len() implies is_white(#[trigger] s[i]) by {
            if i < rest.len() {
                assert(rest[i] == s[i]);
            }
        }
        k
    } else {
        assert(s.take(s.len() as int) =~= s);
        s.len() as int
    }
}

/// A text is escaped character by character: each is kept, and a backslash stands before those
/// that mean something in Markdown, and before no other.
pub proof fn lemma_escaping_is_by_character(a: Seq<char>, b: Seq<char>, c: char)
    ensures
        escaped(Seq::empty()).len() == 0,
        escaped(a + b) == escaped(a) + escaped(b),
        escaped(seq![c]) == (if "\\`*_~|>[]()#"@.contains(c) {
            seq!['\\', c]
        } else {
            seq![c]
        }),
    decreases b.len(),
{
    if b.len() == 0 {
        assert(a + b =~= a);
        assert(escaped(a) + escaped(b) =~= escaped(a));
    } else {
        lemma_escaping_is_by_character(a, b.drop_last(), c);
        assert((a + b).drop_last() =~= a + b.drop_last());
        assert((a + b).last() == b.last());
        assert(escaped(a) + escaped(b.drop_last()) + escaped_char(b.last()) =~= escaped(a) + (
        escaped(b.drop_last()) + escaped_char(b.last())));
    }
    assert(seq![c].drop_last() =~= Seq::<char>::empty());
    assert(seq![c].last() == c);
    assert(escaped(Seq::<char>::empty()) =~= Seq::<char>::empty());
    assert(escaped(seq![c]) =~= escaped_char(c));
    reveal_strlit("\\`*_~|>[]()#");
    let marks = "\\`*_~|>[]()#"@;
    if is_markup(c) {
        assert(marks[0] == '\\' && marks[1] == '`' && marks[2] == '*' && marks[3] == '_');
        assert(marks[4] == '~' && marks[5] == '|' && marks[6] == '>' && marks[7] == '[');
        assert(marks[8] == ']' && marks[9] == '(' && marks[10] == ')' && marks[11] == '#');
        assert(marks.contains(c));
    }
}

/// A character takes two UTF-16 units if it lies beyond the basic plane and one otherwise, and
/// a text as many as its characters.
pub proof fn lemma_units_are_those_of_the_characters(a: Seq<char>, c: char)
    ensures
        utf16_units(Seq::empty()) == 0,
        utf16_units(a.push(c)) == utf16_units(a) + (if c as int > 0xffff {
            2int
        } else {
            1int
        }),
{
    assert(a.push(c).drop_last() =~= a);
}

/// Texts are ordered by the first character in which they differ; where one ends before, it
/// comes first.
pub proof fn lemma_texts_are_ordered_by_the_first_difference(a: Seq<char>, b: Seq<char>, n: int)
    requires
        0 <= n <= a.len(),
        n <= b.len(),
        a.take(n) == b.take(n),
    ensures
        n < a.len() && n < b.len() && a[n] != b[n] ==> precedes(a, b) == ((a[n] as int) < (
        b[n] as int)),
        n == a.len() ==> precedes(a, b) == (a.len() < b.len()),
    decreases n,
{
    if n > 0 {
        assert(a[0] == a.take(n)[0] && b[0] == b.take(n)[0]);
        let (x, y) = (a.drop_first(), b.drop_first());
        assert(x.take(n - 1) =~= a.take(n).drop_first());
        assert(y.take(n - 1) =~= b.take(n).drop_first());
        lemma_texts_are_ordered_by_the_first_difference(x, y, n - 1);
    }
}

/// Every text that is joined with others stands in what is written.
pub proof fn lemma_joined_texts_are_all_there(parts: Seq<Seq<char>>, sep: Seq<char>, k: int)
    requires
        0 <= k < parts.len(),
    ensures
        occurs(joined(parts, sep), parts[k]),
    decreases parts.len(),
{
    let whole = joined(parts, sep);
    let part = parts[k];
    if parts.len() == 1 {
        assert(whole.subrange(0, part.len() as int) =~= part);
    } else if k == parts.len() - 1 {
        let i = whole.len() - part.len();
        assert(whole.subrange(i, i + part.len()) =~= part);
    } else {
        let rest = parts.drop_last();
        assert(rest[k] == part);
        lemma_joined_texts_are_all_there(rest, sep, k);
        let before = joined(rest, sep);
        let i = choose|i: int|
            0 <= i <= before.len() - part.len() && #[trigger] before.subrange(i, i + part.len())
                == part;
        assert(whole.subrange(i, i + part.len()) =~= before.subrange(i, i + part.len()));
    }
}

} // verus!
