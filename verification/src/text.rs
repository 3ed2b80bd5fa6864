//! Text primitives over `char` sequences.

use vstd::prelude::*;

verus! {

/// Length of a text in bytes (UTF-8).
pub open spec fn blen(s: Seq<char>) -> nat {
    vstd::utf8::encode_utf8(s).len()
}

/// Bytes that one character takes in UTF-8.
pub open spec fn clen(c: char) -> nat {
    if c as u32 <= 0x7F {
        1
    } else if c as u32 <= 0x7FF {
        2
    } else if c as u32 <= 0xFFFF {
        3
    } else {
        4
    }
}

/// The byte length of a text is the sum over its characters, first to last.
pub proof fn lemma_blen_first(s: Seq<char>)
    requires
        s.len() > 0,
    ensures
        blen(s) == clen(s[0]) + blen(s.drop_first()),
{
    vstd::utf8::char_is_scalar(s[0]);
}

pub proof fn lemma_blen_empty()
    ensures
        blen(Seq::<char>::empty()) == 0,
{
}

/// Byte lengths add up under concatenation.
pub proof fn lemma_blen_add(a: Seq<char>, b: Seq<char>)
    ensures
        blen(a + b) == blen(a) + blen(b),
    decreases a.len(),
{
    if a.len() == 0 {
        assert(a + b =~= b);
    } else {
        lemma_blen_first(a);
        lemma_blen_first(a + b);
        assert((a + b).drop_first() =~= a.drop_first() + b);
        lemma_blen_add(a.drop_first(), b);
    }
}

pub proof fn lemma_blen_push(s: Seq<char>, c: char)
    ensures
        blen(s.push(c)) == blen(s) + clen(c),
{
    lemma_blen_add(s, seq![c]);
    assert(s.push(c) =~= s + seq![c]);
    lemma_blen_first(seq![c]);
    assert(seq![c].drop_first() =~= Seq::<char>::empty());
    lemma_blen_empty();
}

/// A text has at least as many bytes as characters.
pub proof fn lemma_blen_lower(s: Seq<char>)
    ensures
        s.len() <= blen(s),
    decreases s.len(),
{
    if s.len() > 0 {
        lemma_blen_first(s);
        lemma_blen_lower(s.drop_first());
    }
}

/// An ASCII character ends a text exactly where its byte ends the bytes.
pub proof fn lemma_last_byte(s: Seq<char>, b: u8)
    requires
        s.len() > 0,
        b < 128,
    ensures
        blen(s) > 0,
        vstd::utf8::encode_utf8(s).last() == b <==> s.last() as u32 == b as u32,
    decreases s.len(),
{
    let c = s[0] as u32;
    lemma_blen_lower(s);
    vstd::utf8::char_is_scalar(s[0]);
    if s.len() == 1 {
        assert(s.drop_first() =~= Seq::<char>::empty());
        assert(vstd::utf8::encode_utf8(s) =~= vstd::utf8::encode_scalar(c));
        assert(vstd::utf8::has_width_1_encoding(c) ==> vstd::utf8::leading_byte_width_1(c) as u32
            == c) by (bit_vector);
        assert(vstd::utf8::last_continuation_byte(c) >= 128) by (bit_vector);
    } else {
        lemma_last_byte(s.drop_first(), b);
        assert(vstd::utf8::encode_utf8(s).last() == vstd::utf8::encode_utf8(s.drop_first()).last());
    }
}

pub proof fn lemma_line_feed(c: char)
    ensures
        c as u32 == 10 <==> c == '\n',
{
}

/// Equal bytes mean equal texts.
pub proof fn lemma_utf8_injective(a: Seq<char>, b: Seq<char>)
    requires
        vstd::utf8::encode_utf8(a) == vstd::utf8::encode_utf8(b),
    ensures
        a == b,
{
    vstd::utf8::encode_utf8_decode_utf8(a);
    vstd::utf8::encode_utf8_decode_utf8(b);
}

/// `String::push` appends one character.
pub assume_specification[ String::push ](s: &mut String, c: char)
    ensures
        final(s)@ == old(s)@.push(c),
;

/// Length in bytes.
pub fn byte_len(s: &str) -> (n: usize)
    ensures
        n == blen(s@),
{
    s.as_bytes().len()
}

/// Whether two texts are the same.
pub fn same(a: &str, b: &str) -> (r: bool)
    ensures
        r == (a@ == b@),
{
    let x = a.as_bytes();
    let y = b.as_bytes();
    if x.len() != y.len() {
        return false;
    }
    let mut i: usize = 0;
    while i < x.len()
        invariant
            x@ == vstd::utf8::encode_utf8(a@),
            y@ == vstd::utf8::encode_utf8(b@),
            x@.len() == y@.len(),
            i <= x@.len(),
            forall|k: int| 0 <= k < i ==> x@[k] == y@[k],
        decreases x@.len() - i,
    {
        if x[i] != y[i] {
            return false;
        }
        i = i + 1;
    }
    proof {
        assert(x@ =~= y@);
        lemma_utf8_injective(a@, b@);
    }
    true
}

/// The characters of a text.
pub fn chars_of(s: &str) -> (v: Vec<char>)
    ensures
        v@ == s@,
{
    let mut v: Vec<char> = Vec::new();
    for c in it: s.chars()
        invariant
            it.seq() == s@,
            v@ == s@.take(it.index()),
    {
        v.push(c);
        proof { assert(v@ =~= s@.take(it.index() + 1)); }
    }
    proof { assert(s@.take(s@.len() as int) =~= s@); }
    v
}

/// The text made of the characters from `from` up to `to`.
pub fn slice(v: &Vec<char>, from: usize, to: usize) -> (s: String)
    requires
        from <= to <= v@.len(),
    ensures
        s@ == v@.subrange(from as int, to as int),
{
    let mut s = String::new();
    let mut i = from;
    while i < to
        invariant
            from <= i <= to <= v@.len(),
            s@ == v@.subrange(from as int, i as int),
        decreases to - i,
    {
        s.push(v[i]);
        i = i + 1;
        proof {
            assert(s@ =~= v@.subrange(from as int, i as int));
        }
    }
    s
}

/// Appends `t` to `s`.
pub fn append(s: &mut String, t: &str)
    ensures
        final(s)@ == old(s)@ + t@,
{
    s.append(t)
}

/// Unicode's White_Space property.
pub open spec fn white(c: char) -> bool {
    let n = c as u32;
    ||| 0x9 <= n <= 0xD
    ||| n == 0x20
    ||| n == 0x85
    ||| n == 0xA0
    ||| n == 0x1680
    ||| 0x2000 <= n <= 0x200A
    ||| n == 0x2028
    ||| n == 0x2029
    ||| n == 0x202F
    ||| n == 0x205F
    ||| n == 0x3000
}

pub fn is_white(c: char) -> (r: bool)
    ensures
        r == white(c),
{
    let n: u32 = c as u32;
    (0x9 <= n && n <= 0xD) || n == 0x20 || n == 0x85 || n == 0xA0 || n == 0x1680 || (0x2000 <= n
        && n <= 0x200A) || n == 0x2028 || n == 0x2029 || n == 0x202F || n == 0x205F || n == 0x3000
}

/// `s` without the white space it starts with.
pub open spec fn trim_start(s: Seq<char>) -> Seq<char>
    decreases s.len(),
{
    if s.len() > 0 && white(s[0]) {
        trim_start(s.drop_first())
    } else {
        s
    }
}

/// `s` without the white space it ends with.
pub open spec fn trim_end(s: Seq<char>) -> Seq<char>
    decreases s.len(),
{
    if s.len() > 0 && white(s.last()) {
        trim_end(s.drop_last())
    } else {
        s
    }
}

/// `s` without the white space around it.
pub open spec fn trimmed(s: Seq<char>) -> Seq<char> {
    trim_end(trim_start(s))
}

pub fn trim(s: &str) -> (r: String)
    ensures
        r@ == trimmed(s@),
{
    let v = chars_of(s);
    let mut i: usize = 0;
    proof { assert(v@.skip(0) =~= v@); }
    while i < v.len() && is_white(v[i])
        invariant
            i <= v@.len(),
            trim_start(v@) == trim_start(v@.skip(i as int)),
        decreases v@.len() - i,
    {
        proof { assert(v@.skip(i as int).drop_first() =~= v@.skip(i + 1)); }
        i = i + 1;
    }
    proof { assert(trim_start(v@) =~= v@.subrange(i as int, v@.len() as int)); }
    let mut j: usize = v.len();
    while j > i && is_white(v[j - 1])
        invariant
            i <= j <= v@.len(),
            trim_end(v@.subrange(i as int, v@.len() as int)) == trim_end(
                v@.subrange(i as int, j as int),
            ),
        decreases j,
    {
        proof {
            assert(v@.subrange(i as int, j as int).drop_last() =~= v@.subrange(i as int, j - 1));
        }
        j = j - 1;
    }
    slice(&v, i, j)
}

/// `s` begins with `p`.
pub open spec fn begins(s: Seq<char>, p: Seq<char>) -> bool {
    p.len() <= s.len() && s.take(p.len() as int) == p
}

pub fn starts_with(s: &str, p: &str) -> (r: bool)
    ensures
        r == begins(s@, p@),
{
    let a = chars_of(s);
    let b = chars_of(p);
    occurs_at(&a, &b, 0)
}

/// `p` stands in `s` from position `i`.
pub open spec fn stands_at(s: Seq<char>, p: Seq<char>, i: int) -> bool {
    0 <= i && i + p.len() <= s.len() && s.subrange(i, i + p.len()) == p
}

/// `p` occurs somewhere in `s`.
pub open spec fn within(s: Seq<char>, p: Seq<char>) -> bool {
    exists|i: int| stands_at(s, p, i)
}

fn occurs_at(a: &Vec<char>, b: &Vec<char>, i: usize) -> (r: bool)
    ensures
        r == stands_at(a@, b@, i as int),
        i == 0 ==> r == begins(a@, b@),
{
    proof {
        if i == 0 && b@.len() <= a@.len() {
            assert(a@.take(b@.len() as int) =~= a@.subrange(0, b@.len() as int));
        }
    }
    if i > a.len() || b.len() > a.len() - i {
        return false;
    }
    let mut k: usize = 0;
    while k < b.len()
        invariant
            i + b@.len() <= a@.len() <= usize::MAX,
            k <= b@.len(),
            forall|m: int| 0 <= m < k ==> a@[i + m] == b@[m],
        decreases b@.len() - k,
    {
        if a[i + k] != b[k] {
            proof {
                if a@.subrange(i as int, i + b@.len()) == b@ {
                    assert(a@.subrange(i as int, i + b@.len())[k as int] == b@[k as int]);
                }
            }
            return false;
        }
        k = k + 1;
    }
    proof { assert(a@.subrange(i as int, i + b@.len()) =~= b@); }
    true
}

pub fn contains(s: &str, p: &str) -> (r: bool)
    ensures
        r == within(s@, p@),
{
    let a = chars_of(s);
    let b = chars_of(p);
    if b.len() > a.len() {
        return false;
    }
    let mut i: usize = 0;
    while i <= a.len() - b.len()
        invariant
            a@ == s@,
            b@ == p@,
            b@.len() <= a@.len(),
            i <= a@.len() - b@.len() + 1,
            forall|k: int| 0 <= k < i ==> !stands_at(a@, b@, k),
        decreases a@.len() - b@.len() + 1 - i,
    {
        if occurs_at(&a, &b, i) {
            return true;
        }
        if i == a.len() - b.len() {
            proof {
                assert forall|k: int| !stands_at(a@, b@, k) by {}
            }
            return false;
        }
        i = i + 1;
    }
    false
}

/// `s` with every `from` turned into `to`.
pub open spec fn replaced(s: Seq<char>, from: char, to: char) -> Seq<char> {
    s.map_values(
        |c: char|
            if c == from {
                to
            } else {
                c
            },
    )
}

pub fn replace(s: &str, from: char, to: char) -> (r: String)
    ensures
        r@ == replaced(s@, from, to),
{
    let mut r = String::new();
    for c in it: s.chars()
        invariant
            it.seq() == s@,
            r@ == replaced(s@.take(it.index()), from, to),
    {
        r.push(
            if c == from {
                to
            } else {
                c
            },
        );
        proof { assert(r@ =~= replaced(s@.take(it.index() + 1), from, to)); }
    }
    proof { assert(s@.take(s@.len() as int) =~= s@); }
    r
}

/// The texts `parts`, in order, with `sep` between neighbours.
pub open spec fn joined(parts: Seq<Seq<char>>, sep: Seq<char>) -> Seq<char>
    decreases parts.len(),
{
    if parts.len() == 0 {
        Seq::empty()
    } else if parts.len() == 1 {
        parts[0]
    } else {
        joined(parts.drop_last(), sep) + sep + parts.last()
    }
}

/// The views of a list of strings.
pub open spec fn views(parts: Seq<String>) -> Seq<Seq<char>> {
    parts.map_values(|s: String| s@)
}

pub fn join(parts: &Vec<String>, sep: &str) -> (r: String)
    ensures
        r@ == joined(views(parts@), sep@),
{
    let mut r = String::new();
    let mut i: usize = 0;
    while i < parts.len()
        invariant
            i <= parts@.len(),
            r@ == joined(views(parts@).take(i as int), sep@),
        decreases parts@.len() - i,
    {
        let ghost part = views(parts@).take(i + 1);
        proof {
            assert(part.drop_last() =~= views(parts@).take(i as int));
            assert(part.last() == parts@[i as int]@);
        }
        if i > 0 {
            append(&mut r, sep);
        }
        append(&mut r, parts[i].as_str());
        proof {
            assert(r@ =~= joined(part, sep@));
        }
        i = i + 1;
    }
    proof { assert(views(parts@).take(i as int) =~= views(parts@)); }
    r
}

/// Pieces read so far, and the piece being read.
pub struct Pieces {
    pub done: Seq<Seq<char>>,
    pub cur: Seq<char>,
}

/// Reading `s` word by word: white space ends a word.
pub open spec fn word_scan(s: Seq<char>) -> Pieces
    decreases s.len(),
{
    if s.len() == 0 {
        Pieces { done: Seq::empty(), cur: Seq::empty() }
    } else {
        let p = word_scan(s.drop_last());
        if !white(s.last()) {
            Pieces { done: p.done, cur: p.cur.push(s.last()) }
        } else if p.cur.len() == 0 {
            p
        } else {
            Pieces { done: p.done.push(p.cur), cur: Seq::empty() }
        }
    }
}

/// The words of a text: its longest stretches free of white space, in order.
pub open spec fn words_of(s: Seq<char>) -> Seq<Seq<char>> {
    let p = word_scan(s);
    if p.cur.len() == 0 {
        p.done
    } else {
        p.done.push(p.cur)
    }
}

pub fn words(s: &str) -> (r: Vec<String>)
    ensures
        views(r@) == words_of(s@),
{
    let mut done: Vec<String> = Vec::new();
    let mut cur = String::new();
    for c in it: s.chars()
        invariant
            it.seq() == s@,
            views(done@) == word_scan(s@.take(it.index())).done,
            cur@ == word_scan(s@.take(it.index())).cur,
    {
        proof {
            assert(s@.take(it.index() + 1).drop_last() =~= s@.take(it.index()));
        }
        if !is_white(c) {
            cur.push(c);
        } else if !cur.as_str().is_empty() {
            let ghost before = done@;
            let word = cur;
            done.push(word);
            cur = String::new();
            proof {
                assert(views(done@) =~= views(before).push(word@));
            }
        }
    }
    proof { assert(s@.take(s@.len() as int) =~= s@); }
    if !cur.as_str().is_empty() {
        let ghost before = done@;
        let ghost last = cur@;
        done.push(cur);
        proof {
            assert(views(done@) =~= views(before).push(last));
        }
    }
    done
}

/// Reading `s` piece by piece: `sep` ends a piece.
pub open spec fn split_scan(s: Seq<char>, sep: char) -> Pieces
    decreases s.len(),
{
    if s.len() == 0 {
        Pieces { done: Seq::empty(), cur: Seq::empty() }
    } else {
        let p = split_scan(s.drop_last(), sep);
        if s.last() == sep {
            Pieces { done: p.done.push(p.cur), cur: Seq::empty() }
        } else {
            Pieces { done: p.done, cur: p.cur.push(s.last()) }
        }
    }
}

/// The pieces of a text between its separators; one more than there are separators.
pub open spec fn split_of(s: Seq<char>, sep: char) -> Seq<Seq<char>> {
    let p = split_scan(s, sep);
    p.done.push(p.cur)
}

pub fn split(s: &str, sep: char) -> (r: Vec<String>)
    ensures
        views(r@) == split_of(s@, sep),
        r@.len() > 0,
{
    let mut done: Vec<String> = Vec::new();
    let mut cur = String::new();
    for c in it: s.chars()
        invariant
            it.seq() == s@,
            views(done@) == split_scan(s@.take(it.index()), sep).done,
            cur@ == split_scan(s@.take(it.index()), sep).cur,
    {
        proof {
            assert(s@.take(it.index() + 1).drop_last() =~= s@.take(it.index()));
        }
        if c == sep {
            let ghost before = done@;
            let piece = cur;
            done.push(piece);
            cur = String::new();
            proof {
                assert(views(done@) =~= views(before).push(piece@));
            }
        } else {
            cur.push(c);
        }
    }
    proof { assert(s@.take(s@.len() as int) =~= s@); }
    let ghost before = done@;
    let ghost last = cur@;
    done.push(cur);
    proof {
        assert(views(done@) =~= views(before).push(last));
    }
    done
}

/// The character for a decimal digit.
pub open spec fn digit(d: nat) -> char {
    (48 + d) as char
}

/// A number in decimal.
pub open spec fn decimal(n: nat) -> Seq<char>
    decreases n,
{
    if n < 10 {
        seq![digit(n)]
    } else {
        decimal(n / 10).push(digit(n % 10))
    }
}

/// A number in decimal, with leading zeros up to `width` digits.
pub open spec fn padded(n: nat, width: nat) -> Seq<char> {
    let d = decimal(n);
    if d.len() >= width {
        d
    } else {
        Seq::new((width - d.len()) as nat, |i: int| '0') + d
    }
}

fn digit_char(d: u64) -> (c: char)
    requires
        d < 10,
    ensures
        c == digit(d as nat),
{
    (48 + d as u8) as char
}

pub fn to_decimal(n: u64) -> (s: String)
    ensures
        s@ == decimal(n as nat),
    decreases n,
{
    if n < 10 {
        let mut s = String::new();
        s.push(digit_char(n));
        proof { assert(s@ =~= decimal(n as nat)); }
        s
    } else {
        let mut s = to_decimal(n / 10);
        s.push(digit_char(n % 10));
        s
    }
}

pub fn to_padded(n: u64, width: usize) -> (s: String)
    ensures
        s@ == padded(n as nat, width as nat),
{
    let d = to_decimal(n);
    let len = d.as_str().unicode_len();
    if len >= width {
        return d;
    }
    let mut s = String::new();
    let mut i: usize = 0;
    while i < width - len
        invariant
            len < width,
            i <= width - len,
            s@ =~= Seq::new(i as nat, |k: int| '0'),
        decreases width - len - i,
    {
        s.push('0');
        i = i + 1;
    }
    append(&mut s, d.as_str());
    proof { assert(s@ =~= padded(n as nat, width as nat)); }
    s
}

/// Ten to the power of `k`.
pub open spec fn pow10(k: nat) -> nat
    decreases k,
{
    if k == 0 {
        1
    } else {
        10 * pow10((k - 1) as nat)
    }
}

/// A number in decimal is made of digits, at least one.
pub proof fn lemma_digits(n: nat)
    ensures
        decimal(n).len() >= 1,
        forall|i: int|
            0 <= i < decimal(n).len() ==> '0' <= #[trigger] decimal(n)[i] && decimal(n)[i] <= '9',
    decreases n,
{
    if n >= 10 {
        lemma_digits(n / 10);
    }
}

/// A number below `10^k` takes at most `k` digits, and at least one.
pub proof fn lemma_decimal(n: nat, k: nat)
    requires
        n < pow10(k),
        k >= 1,
    ensures
        1 <= decimal(n).len() <= k,
        forall|i: int|
            0 <= i < decimal(n).len() ==> '0' <= #[trigger] decimal(n)[i] && decimal(n)[i] <= '9',
    decreases k,
{
    if n >= 10 {
        reveal_with_fuel(pow10, 2);
        lemma_decimal(n / 10, (k - 1) as nat);
    }
}

/// Every 64-bit number takes at most twenty digits.
pub proof fn lemma_decimal_u64(n: nat)
    requires
        n <= u64::MAX,
    ensures
        1 <= decimal(n).len() <= 20,
        forall|i: int|
            0 <= i < decimal(n).len() ==> '0' <= #[trigger] decimal(n)[i] && decimal(n)[i] <= '9',
{
    reveal_with_fuel(pow10, 21);
    lemma_decimal(n, 20);
}

/// The lower-case form of a text.
pub uninterp spec fn lowercase(s: Seq<char>) -> Seq<char>;

/// `str::to_lowercase`: the Unicode lower-case form, a function of the text alone.
#[verifier::external_body]
pub(crate) fn to_lowercase(s: &str) -> (r: String)
    ensures
        r@ == lowercase(s@),
{
    s.to_lowercase()
}

} // verus!
