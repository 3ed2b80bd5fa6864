//! What the text primitives come to.

use crate::text;
use crate::window;
use vstd::prelude::*;

verus! {

/// White space is what Unicode says it is: the blank, the controls from tab to carriage return, and
/// the blanks and separators outside ASCII.
pub proof fn lemma_white(c: char)
    ensures
        c == ' ' || c == '\t' || c == '\n' || c == '\r' || c == '\u{b}' || c == '\u{c}'
            ==> text::white(c),
        c == '\u{85}' || c == '\u{a0}' || c == '\u{1680}' || c == '\u{2028}' || c == '\u{2029}' || c
            == '\u{202f}' || c == '\u{205f}' || c == '\u{3000}' ==> text::white(c),
        '\u{2000}' <= c && c <= '\u{200a}' ==> text::white(c),
        '!' <= c && c <= '~' ==> !text::white(c),
        '\u{a1}' <= c && c <= '\u{167f}' ==> !text::white(c),
        '\u{3001}' <= c ==> !text::white(c),
{
}

/// Trimming takes the white space off both ends of a text, and nothing else.
pub proof fn lemma_trimmed(s: Seq<char>) -> (r: (int, int))
    ensures
        0 <= r.0 <= r.1 <= s.len(),
        text::trimmed(s) == s.subrange(r.0, r.1),
        forall|k: int| 0 <= k < r.0 ==> text::white(#[trigger] s[k]),
        forall|k: int| r.1 <= k < s.len() ==> text::white(#[trigger] s[k]),
        r.0 < r.1 ==> !text::white(s[r.0]) && !text::white(s[r.1 - 1]),
{
    let i = lemma_start(s);
    let t = s.skip(i);
    let n = lemma_end(t);
    assert(t.take(n) =~= s.subrange(i, i + n));
    assert forall|k: int| i + n <= k < s.len() implies text::white(#[trigger] s[k]) by {
        assert(t[k - i] == s[k]);
    }
    if n > 0 {
        assert(t[0] == s[i]);
        assert(t[n - 1] == s[i + n - 1]);
        if t.len() > 0 && text::white(t[0]) {
            assert(false);
        }
    }
    (i, i + n)
}

pub(crate) proof fn lemma_start(s: Seq<char>) -> (i: int)
    ensures
        0 <= i <= s.len(),
        text::trim_start(s) == s.skip(i),
        forall|k: int| 0 <= k < i ==> text::white(#[trigger] s[k]),
        i < s.len() ==> !text::white(s[i]),
    decreases s.len(),
{
    if s.len() > 0 && text::white(s[0]) {
        let rest = s.drop_first();
        let i = lemma_start(rest);
        assert(rest.skip(i) =~= s.skip(i + 1));
        assert forall|k: int| 0 <= k < i + 1 implies text::white(#[trigger] s[k]) by {
            if k > 0 {
                assert(rest[k - 1] == s[k]);
            }
        }
        i + 1
    } else {
        assert(s.skip(0) =~= s);
        0
    }
}

proof fn lemma_end(s: Seq<char>) -> (n: int)
    ensures
        0 <= n <= s.len(),
        text::trim_end(s) == s.take(n),
        forall|k: int| n <= k < s.len() ==> text::white(#[trigger] s[k]),
        n > 0 ==> !text::white(s[n - 1]),
    decreases s.len(),
{
    if s.len() > 0 && text::white(s.last()) {
        let rest = s.drop_last();
        let n = lemma_end(rest);
        assert(rest.take(n) =~= s.take(n));
        assert forall|k: int| n <= k < s.len() implies text::white(#[trigger] s[k]) by {
            if k < rest.len() {
                assert(rest[k] == s[k]);
            }
        }
        n
    } else {
        assert(s.take(s.len() as int) =~= s);
        s.len() as int
    }
}

/// A text holds what stands anywhere in it, also at either end.
pub proof fn lemma_within(a: Seq<char>, f: Seq<char>, b: Seq<char>)
    ensures
        text::within(a + f + b, f),
{
    let s = a + f + b;
    assert(s.subrange(a.len() as int, (a.len() + f.len()) as int) =~= f);
    assert(text::stands_at(s, f, a.len() as int));
}

/// What a text holds stands at some place of it.
pub proof fn lemma_within_at(s: Seq<char>, f: Seq<char>) -> (i: int)
    requires
        text::within(s, f),
    ensures
        0 <= i,
        i + f.len() <= s.len(),
        s.subrange(i, i + f.len()) == f,
{
    let i = choose|i: int| text::stands_at(s, f, i);
    i
}

/// A text without white space is one word, and white space parts the words before it from those
/// behind it.
pub proof fn lemma_words(a: Seq<char>, c: char, b: Seq<char>)
    ensures
        a.len() > 0 && (forall|i: int| 0 <= i < a.len() ==> !text::white(#[trigger] a[i]))
            ==> text::words_of(a) == seq![a],
        text::words_of(Seq::empty()) == Seq::<Seq<char>>::empty(),
        text::white(c) ==> text::words_of(a.push(c) + b) == text::words_of(a) + text::words_of(b),
{
    if forall|i: int| 0 <= i < a.len() ==> !text::white(#[trigger] a[i]) {
        lemma_one_word(a);
        if a.len() > 0 {
            assert(text::words_of(a) =~= seq![a]);
        }
    }
    if text::white(c) {
        lemma_words_part(a, c, b);
        let p = text::word_scan(b);
        let w = text::words_of(a);
        assert(text::words_of(a.push(c) + b) =~= w + text::words_of(b));
    }
}

proof fn lemma_one_word(a: Seq<char>)
    requires
        forall|i: int| 0 <= i < a.len() ==> !text::white(#[trigger] a[i]),
    ensures
        text::word_scan(a).done.len() == 0,
        text::word_scan(a).cur == a,
    decreases a.len(),
{
    if a.len() > 0 {
        let before = a.drop_last();
        assert forall|i: int| 0 <= i < before.len() implies !text::white(#[trigger] before[i]) by {
            assert(before[i] == a[i]);
        }
        lemma_one_word(before);
        assert(!text::white(a[a.len() - 1]));
        assert(before.push(a.last()) =~= a);
    }
}

proof fn lemma_words_part(a: Seq<char>, c: char, b: Seq<char>)
    requires
        text::white(c),
    ensures
        text::word_scan(a.push(c) + b).done == text::words_of(a) + text::word_scan(b).done,
        text::word_scan(a.push(c) + b).cur == text::word_scan(b).cur,
    decreases b.len(),
{
    let all = a.push(c) + b;
    if b.len() == 0 {
        assert(all =~= a.push(c));
        assert(a.push(c).drop_last() =~= a);
        assert(text::word_scan(all).done =~= text::words_of(a) + text::word_scan(b).done);
    } else {
        assert(all.drop_last() =~= a.push(c) + b.drop_last());
        lemma_words_part(a, c, b.drop_last());
        let p = text::word_scan(b.drop_last());
        let w = text::words_of(a);
        assert(all.last() == b.last());
        assert(w + p.done.push(p.cur) =~= (w + p.done).push(p.cur));
    }
}

/// A text without the separator is one piece, and a separator parts the pieces before it from those
/// behind it.
pub proof fn lemma_pieces(a: Seq<char>, c: char, b: Seq<char>)
    ensures
        (forall|i: int| 0 <= i < a.len() ==> #[trigger] a[i] != c) ==> text::split_of(a, c)
            == seq![a],
        text::split_of(a.push(c) + b, c) == text::split_of(a, c) + text::split_of(b, c),
{
    if forall|i: int| 0 <= i < a.len() ==> #[trigger] a[i] != c {
        lemma_one_piece(a, c);
        assert(text::split_of(a, c) =~= seq![a]);
    }
    lemma_pieces_part(a, c, b);
    assert(text::split_of(a.push(c) + b, c) =~= text::split_of(a, c) + text::split_of(b, c));
}

proof fn lemma_one_piece(a: Seq<char>, c: char)
    requires
        forall|i: int| 0 <= i < a.len() ==> #[trigger] a[i] != c,
    ensures
        text::split_scan(a, c).done.len() == 0,
        text::split_scan(a, c).cur == a,
    decreases a.len(),
{
    if a.len() > 0 {
        let before = a.drop_last();
        assert forall|i: int| 0 <= i < before.len() implies #[trigger] before[i] != c by {
            assert(before[i] == a[i]);
        }
        lemma_one_piece(before, c);
        assert(a[a.len() - 1] != c);
        assert(before.push(a.last()) =~= a);
    }
}

proof fn lemma_pieces_part(a: Seq<char>, c: char, b: Seq<char>)
    ensures
        text::split_scan(a.push(c) + b, c).done == text::split_of(a, c) + text::split_scan(
            b,
            c,
        ).done,
        text::split_scan(a.push(c) + b, c).cur == text::split_scan(b, c).cur,
    decreases b.len(),
{
    let all = a.push(c) + b;
    if b.len() == 0 {
        assert(all =~= a.push(c));
        assert(a.push(c).drop_last() =~= a);
        assert(text::split_scan(all, c).done =~= text::split_of(a, c) + text::split_scan(
            b,
            c,
        ).done);
    } else {
        assert(all.drop_last() =~= a.push(c) + b.drop_last());
        lemma_pieces_part(a, c, b.drop_last());
        let p = text::split_scan(b.drop_last(), c);
        let w = text::split_of(a, c);
        assert(all.last() == b.last());
        assert(w + p.done.push(p.cur) =~= (w + p.done).push(p.cur));
    }
}

/// Joined texts stand in order with the separator between them.
pub proof fn lemma_joined(parts: Seq<Seq<char>>, p: Seq<char>, sep: Seq<char>)
    ensures
        text::joined(seq![p], sep) == p,
        parts.len() > 0 ==> text::joined(parts.push(p), sep) == text::joined(parts, sep) + sep + p,
        text::joined(Seq::empty(), sep) == Seq::<char>::empty(),
{
    assert(parts.push(p).drop_last() =~= parts);
}

/// A number in decimal reads back as itself, without needless zeros.
pub proof fn lemma_decimal_value(n: nat)
    ensures
        window::all_digits(text::decimal(n)),
        window::digits_value(text::decimal(n)) == n,
        n > 0 ==> text::decimal(n)[0] != '0',
    decreases n,
{
    let d = text::decimal(n);
    if n < 10 {
        assert(d.drop_last() =~= Seq::empty());
        assert(window::digits_value(Seq::empty()) == 0);
        assert(window::digits_value(d) == n);
    } else {
        lemma_decimal_value(n / 10);
        let before = text::decimal(n / 10);
        assert(d.drop_last() =~= before);
        assert forall|i: int| 0 <= i < d.len() implies '0' <= #[trigger] d[i] && d[i] <= '9' by {
            if i < before.len() {
                assert(d[i] == before[i]);
            }
        }
        assert(d[0] == before[0]);
    }
}

/// A padded number is the same number, filled up with zeros to that many digits.
pub proof fn lemma_padded_value(n: nat, width: nat)
    ensures
        window::digits_value(text::padded(n, width)) == n,
        text::padded(n, width).len() >= width,
        text::padded(n, width).len() > width ==> text::padded(n, width)[0] != '0' || n == 0,
{
    lemma_decimal_value(n);
    let d = text::decimal(n);
    if d.len() < width {
        let zeros = Seq::new((width - d.len()) as nat, |i: int| '0');
        lemma_zeros(zeros, d);
    }
}

proof fn lemma_zeros(zeros: Seq<char>, d: Seq<char>)
    requires
        forall|i: int| 0 <= i < zeros.len() ==> #[trigger] zeros[i] == '0',
    ensures
        window::digits_value(zeros + d) == window::digits_value(d),
    decreases d.len(), zeros.len(),
{
    if d.len() > 0 {
        assert((zeros + d).drop_last() =~= zeros + d.drop_last());
        lemma_zeros(zeros, d.drop_last());
    } else {
        assert(zeros + d =~= zeros);
        if zeros.len() > 0 {
            let before = zeros.drop_last();
            assert forall|i: int| 0 <= i < before.len() implies #[trigger] before[i] == '0' by {
                assert(before[i] == zeros[i]);
            }
            lemma_zeros(before, d);
            assert(before + d =~= before);
            assert(zeros[zeros.len() - 1] == '0');
        }
    }
}

/// Replacing a character touches its occurrences alone.
pub proof fn lemma_replaced(s: Seq<char>, from: char, to: char, i: int)
    requires
        0 <= i < s.len(),
    ensures
        text::replaced(s, from, to).len() == s.len(),
        s[i] != from ==> text::replaced(s, from, to)[i] == s[i],
        s[i] == from ==> text::replaced(s, from, to)[i] == to,
{
}

} // verus!
