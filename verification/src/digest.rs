//! Deterministic summary of a stretch of a session: what the user asked, where the assistant
//! landed, which tools ran, which files were touched, what failed.

use crate::json;
use crate::json::{Json, Tree};
use crate::model;
use crate::model::{Block, BlockV, Msg, MsgV, Role};
use crate::parse;
use crate::text;
use vstd::prelude::*;

verus! {

/// How much a digest says. `Least` is for sessions that `Minimal` leaves too large.
#[derive(Clone, Copy, Debug, PartialEq, Eq, Structural)]
pub enum Detail {
    Full,
    Brief,
    Minimal,
    Least,
}

/// The most that a digest holds of each kind, and the characters of each item.
#[derive(Clone, Copy, Debug, PartialEq, Eq)]
pub struct Caps {
    pub requests: usize,
    pub request_len: usize,
    pub notes: usize,
    pub note_len: usize,
    pub files: usize,
    pub errors: usize,
}

/// The most tools of a digest of the least detail.
pub const LEAST_TOOLS: usize = 5;

/// The characters of a tool's name in a digest of the least detail.
pub const LEAST_TOOL_LEN: usize = 40;

/// The characters of a path in a digest of the least detail.
pub const LEAST_FILE_LEN: usize = 80;

impl Detail {
    pub open spec fn bounds(self) -> Caps {
        match self {
            Detail::Full => Caps {
                requests: 30,
                request_len: 400,
                notes: 20,
                note_len: 300,
                files: 40,
                errors: 5,
            },
            Detail::Brief => Caps {
                requests: 12,
                request_len: 200,
                notes: 8,
                note_len: 150,
                files: 20,
                errors: 3,
            },
            Detail::Minimal => Caps {
                requests: 5,
                request_len: 120,
                notes: 0,
                note_len: 0,
                files: 10,
                errors: 0,
            },
            Detail::Least => Caps {
                requests: 2,
                request_len: 80,
                notes: 0,
                note_len: 0,
                files: 5,
                errors: 0,
            },
        }
    }

    pub fn caps(self) -> (r: Caps)
        ensures
            r == self.bounds(),
    {
        match self {
            Detail::Full => Caps {
                requests: 30,
                request_len: 400,
                notes: 20,
                note_len: 300,
                files: 40,
                errors: 5,
            },
            Detail::Brief => Caps {
                requests: 12,
                request_len: 200,
                notes: 8,
                note_len: 150,
                files: 20,
                errors: 3,
            },
            Detail::Minimal => Caps {
                requests: 5,
                request_len: 120,
                notes: 0,
                note_len: 0,
                files: 10,
                errors: 0,
            },
            Detail::Least => Caps {
                requests: 2,
                request_len: 80,
                notes: 0,
                note_len: 0,
                files: 5,
                errors: 0,
            },
        }
    }
}

/// The longest start of a text that takes at most `max` bytes.
pub open spec fn byte_prefix(s: Seq<char>, max: nat) -> Seq<char>
    decreases s.len(),
{
    if s.len() == 0 || text::blen(s) <= max {
        s
    } else {
        byte_prefix(s.drop_last(), max)
    }
}

/// The longest end of a text that takes at most `max` bytes.
pub open spec fn byte_suffix(s: Seq<char>, max: nat) -> Seq<char>
    decreases s.len(),
{
    if s.len() == 0 || text::blen(s) <= max {
        s
    } else {
        byte_suffix(s.drop_first(), max)
    }
}

/// A start of a text, cut where it takes at most `max` bytes: nothing longer fits.
pub proof fn lemma_byte_prefix(s: Seq<char>, max: nat)
    ensures
        ({
            let n = byte_prefix(s, max).len() as int;
            &&& n <= s.len()
            &&& byte_prefix(s, max) == s.take(n)
            &&& text::blen(s.take(n)) <= max
            &&& forall|m: int| n < m <= s.len() ==> text::blen(#[trigger] s.take(m)) > max
        }),
    decreases s.len(),
{
    text::lemma_blen_empty();
    assert(s.take(s.len() as int) =~= s);
    if s.len() == 0 {
        assert(s =~= Seq::empty());
    } else if text::blen(s) > max {
        let rest = s.drop_last();
        lemma_byte_prefix(rest, max);
        assert forall|m: int| 0 <= m <= rest.len() implies #[trigger] s.take(m) == rest.take(m) by {
            assert(s.take(m) =~= rest.take(m));
        }
    }
}

/// An end of a text takes no more bytes than it may, and the text before it does not fit with it.
pub proof fn lemma_byte_suffix(s: Seq<char>, max: nat)
    ensures
        ({
            let n = byte_suffix(s, max).len() as int;
            &&& n <= s.len()
            &&& byte_suffix(s, max) == s.skip(s.len() - n)
            &&& text::blen(byte_suffix(s, max)) <= max
            &&& forall|m: int|
                n < m <= s.len() ==> text::blen(#[trigger] s.skip(s.len() - m)) > max
        }),
    decreases s.len(),
{
    text::lemma_blen_empty();
    assert(s.skip(0) =~= s);
    if s.len() == 0 {
        assert(s =~= Seq::empty());
    } else if text::blen(s) > max {
        let rest = s.drop_first();
        lemma_byte_suffix(rest, max);
        assert forall|m: int| 0 <= m <= rest.len() implies #[trigger] s.skip(s.len() - m)
            == rest.skip(rest.len() - m) by {
            assert(s.skip(s.len() - m) =~= rest.skip(rest.len() - m));
        }
    } else {
        assert forall|m: int|
            s.len() < m <= s.len() implies text::blen(#[trigger] s.skip(s.len() - m)) > max by {}
    }
}

/// How many characters of `v` from the start take at most `max` bytes.
pub(crate) fn prefix_len(v: &Vec<char>, max: usize) -> (r: (usize, usize))
    ensures
        byte_prefix(v@, max as nat) == v@.take(r.0 as int),
        r.0 <= v@.len(),
        r.1 == text::blen(v@.take(r.0 as int)) <= max,
{
    let mut n: usize = 0;
    let mut used: usize = 0;
    proof {
        text::lemma_blen_empty();
        assert(v@.take(0) =~= Seq::empty());
    }
    while n < v.len() && char_len(v[n]) <= max - used
        invariant
            n <= v@.len(),
            used == text::blen(v@.take(n as int)),
            used <= max,
        decreases v@.len() - n,
    {
        proof {
            text::lemma_blen_push(v@.take(n as int), v@[n as int]);
            assert(v@.take(n as int).push(v@[n as int]) =~= v@.take(n + 1));
        }
        used = used + char_len(v[n]);
        n = n + 1;
    }
    proof {
        lemma_byte_prefix(v@, max as nat);
        let p = byte_prefix(v@, max as nat).len() as int;
        if p < n {
            assert(text::blen(v@.take(n as int)) > max);
        } else if p > n {
            text::lemma_blen_push(v@.take(n as int), v@[n as int]);
            assert(v@.take(n as int).push(v@[n as int]) =~= v@.take(n + 1));
            assert(v@.take(p) =~= v@.take(n + 1) + v@.subrange(n + 1, p));
            text::lemma_blen_add(v@.take(n + 1), v@.subrange(n + 1, p));
        }
    }
    (n, used)
}

/// Where the longest end of `v` that takes at most `max` bytes begins, and its bytes.
pub(crate) fn suffix_start(v: &Vec<char>, max: usize) -> (r: (usize, usize))
    ensures
        byte_suffix(v@, max as nat) == v@.skip(r.0 as int),
        r.0 <= v@.len(),
        r.1 == text::blen(v@.skip(r.0 as int)) <= max,
{
    let mut i: usize = v.len();
    let mut used: usize = 0;
    proof {
        text::lemma_blen_empty();
        assert(v@.skip(i as int) =~= Seq::empty());
    }
    while i > 0 && char_len(v[i - 1]) <= max - used
        invariant
            i <= v@.len(),
            used == text::blen(v@.skip(i as int)),
            used <= max,
        decreases i,
    {
        proof {
            text::lemma_blen_first(v@.skip(i - 1));
            assert(v@.skip(i - 1).drop_first() =~= v@.skip(i as int));
        }
        used = used + char_len(v[i - 1]);
        i = i - 1;
    }
    proof {
        lemma_byte_suffix(v@, max as nat);
        let len = v@.len() as int;
        let p = len - byte_suffix(v@, max as nat).len();
        if p > i {
            assert(v@.skip(len - (len - i)) == v@.skip(i as int));
            assert(text::blen(v@.skip(i as int)) > max);
        } else if p < i {
            text::lemma_blen_first(v@.skip(i - 1));
            assert(v@.skip(i - 1).drop_first() =~= v@.skip(i as int));
            assert(v@.skip(p) =~= v@.subrange(p, i - 1) + v@.skip(i - 1));
            text::lemma_blen_add(v@.subrange(p, i - 1), v@.skip(i - 1));
        }
    }
    (i, used)
}

/// Bytes of a character in UTF-8.
fn char_len(c: char) -> (n: usize)
    ensures
        n == text::clen(c),
{
    let x: u32 = c as u32;
    if x <= 0x7F {
        1
    } else if x <= 0x7FF {
        2
    } else if x <= 0xFFFF {
        3
    } else {
        4
    }
}

/// A text cut to `max` characters, the cut marked.
pub open spec fn cut_text(s: Seq<char>, max: nat) -> Seq<char> {
    if s.len() <= max {
        s
    } else {
        s.take(max as int).push('…')
    }
}

pub fn clip(s: &str, max: usize) -> (r: String)
    ensures
        r@ == cut_text(s@, max as nat),
{
    let v = text::chars_of(s);
    if v.len() <= max {
        return s.to_owned();
    }
    proof {
        assert(v@.subrange(0, max as int) =~= v@.take(max as int));
    }
    let mut r = text::slice(&v, 0, max);
    r.push('…');
    r
}

/// Items as a list, each on one line and cut to `len` characters.
pub open spec fn bullets(items: Seq<Seq<char>>, len: nat) -> Seq<char>
    decreases items.len(),
{
    if items.len() == 0 {
        Seq::empty()
    } else {
        bullets(items.drop_last(), len) + "- "@ + cut_text(
            text::joined(text::words_of(items.last()), " "@),
            len,
        ) + "\n"@
    }
}

/// The number of items left out when at most `max` are shown.
pub open spec fn left_out(n: nat, max: nat) -> int {
    if n > max {
        n - max
    } else {
        0
    }
}

/// A titled list of the most recent `max` items, each cut to `len` characters; nothing where there
/// are none to show.
pub open spec fn section_text(title: Seq<char>, items: Seq<Seq<char>>, max: nat, len: nat) -> Seq<
    char,
> {
    if max == 0 || items.len() == 0 {
        Seq::empty()
    } else {
        let skip = left_out(items.len(), max);
        title + if skip > 0 {
            " (last "@ + text::decimal(max) + " of "@ + text::decimal(items.len()) + ")"@
        } else {
            Seq::empty()
        } + ":\n"@ + bullets(items.skip(skip), len)
    }
}

pub fn section(out: &mut String, title: &str, items: &Vec<String>, max: usize, len: usize)
    ensures
        final(out)@ == old(out)@ + section_text(
            title@,
            text::views(items@),
            max as nat,
            len as nat,
        ),
{
    let ghost before = out@;
    if max == 0 || items.len() == 0 {
        proof {
            assert(before + Seq::<char>::empty() =~= before);
        }
        return ;
    }
    let skip: usize = if items.len() > max {
        items.len() - max
    } else {
        0
    };
    text::append(out, title);
    if skip > 0 {
        text::append(out, " (last ");
        let n = text::to_decimal(max as u64);
        text::append(out, n.as_str());
        text::append(out, " of ");
        let n = text::to_decimal(items.len() as u64);
        text::append(out, n.as_str());
        text::append(out, ")");
    }
    text::append(out, ":\n");
    let ghost head = out@;
    let ghost shown = text::views(items@).skip(skip as int);
    let mut i: usize = skip;
    proof {
        assert(shown.take(0) =~= Seq::empty());
        assert(head =~= head + bullets(shown.take(0), len as nat));
    }
    while i < items.len()
        invariant
            skip <= i <= items@.len(),
            shown == text::views(items@).skip(skip as int),
            out@ == head + bullets(shown.take(i - skip), len as nat),
        decreases items@.len() - i,
    {
        proof {
            assert(shown.take(i + 1 - skip).drop_last() =~= shown.take(i - skip));
            assert(shown.take(i + 1 - skip).last() == items@[i as int]@);
        }
        let words = text::words(items[i].as_str());
        let flat = text::join(&words, " ");
        let cut = clip(flat.as_str(), len);
        text::append(out, "- ");
        text::append(out, cut.as_str());
        text::append(out, "\n");
        proof {
            assert(out@ =~= head + bullets(shown.take(i + 1 - skip), len as nat));
        }
        i = i + 1;
    }
    proof {
        assert(shown.take(i - skip) =~= shown);
        assert(out@ =~= before + section_text(
            title@,
            text::views(items@),
            max as nat,
            len as nat,
        ));
    }
}

/// A tool and how often it was called.
pub type Count = (Seq<char>, nat);

/// What a tally says of `name`.
pub open spec fn count_in(tally: Seq<Count>, name: Seq<char>) -> nat {
    match json::lookup(tally, name) {
        Some(n) => n,
        None => 0,
    }
}

/// The tools of `calls` with their counts, names in order.
pub open spec fn tally_of(calls: Seq<Seq<char>>) -> Seq<Count>
    decreases calls.len(),
{
    if calls.len() == 0 {
        Seq::empty()
    } else {
        let before = tally_of(calls.drop_last());
        json::with_field(before, calls.last(), count_in(before, calls.last()) + 1)
    }
}

/// How often `name` is among `calls`.
pub open spec fn occurrences(calls: Seq<Seq<char>>, name: Seq<char>) -> nat
    decreases calls.len(),
{
    if calls.len() == 0 {
        0
    } else {
        occurrences(calls.drop_last(), name) + if calls.last() == name {
            1nat
        } else {
            0nat
        }
    }
}

/// A tally counts each tool as often as it was called, and has the names in order, each once.
pub proof fn lemma_tally(calls: Seq<Seq<char>>, name: Seq<char>)
    ensures
        count_in(tally_of(calls), name) == occurrences(calls, name),
        json::keys_ordered(tally_of(calls)),
        occurrences(calls, name) <= calls.len(),
    decreases calls.len(),
{
    if calls.len() > 0 {
        let before = tally_of(calls.drop_last());
        let last = calls.last();
        lemma_tally(calls.drop_last(), name);
        lemma_tally(calls.drop_last(), last);
        json::lemma_lookup_with(before, last, count_in(before, last) + 1, name);
        json::lemma_with_ordered(before, last, count_in(before, last) + 1);
    }
}

/// The views of names and counts.
pub open spec fn count_views(tally: Seq<(String, usize)>) -> Seq<Count> {
    tally.map_values(|c: (String, usize)| (c.0@, c.1 as nat))
}

/// Whether `a` stands before `b`.
fn name_before(a: &str, b: &str) -> (r: bool)
    ensures
        r == json::key_before(a@, b@),
{
    let x = text::chars_of(a);
    let y = text::chars_of(b);
    let mut i: usize = 0;
    proof {
        assert(x@.skip(0) =~= x@);
        assert(y@.skip(0) =~= y@);
    }
    while i < x.len() && i < y.len()
        invariant
            x@ == a@,
            y@ == b@,
            i <= x@.len(),
            i <= y@.len(),
            json::key_before(a@, b@) == json::key_before(x@.skip(i as int), y@.skip(i as int)),
        decreases x@.len() - i,
    {
        proof {
            assert(x@.skip(i as int).drop_first() =~= x@.skip(i + 1));
            assert(y@.skip(i as int).drop_first() =~= y@.skip(i + 1));
        }
        if x[i] != y[i] {
            return (x[i] as u32) < (y[i] as u32);
        }
        i = i + 1;
    }
    i < y.len()
}

fn find_count(tally: &Vec<(String, usize)>, name: &str) -> (n: usize)
    ensures
        n == count_in(count_views(tally@), name@),
{
    let ghost cs = count_views(tally@);
    let mut i: usize = tally.len();
    proof {
        assert(cs.take(i as int) =~= cs);
    }
    while i > 0
        invariant
            cs == count_views(tally@),
            i <= tally@.len(),
            json::lookup(cs, name@) == json::lookup(cs.take(i as int), name@),
        decreases i,
    {
        proof {
            assert(cs.take(i as int).drop_last() =~= cs.take(i - 1));
            assert(cs.take(i as int).last() == cs[i - 1]);
        }
        if text::same(tally[i - 1].0.as_str(), name) {
            return tally[i - 1].1;
        }
        i = i - 1;
    }
    0
}

/// Sets the count of `name`.
fn set_count(tally: &mut Vec<(String, usize)>, name: &str, n: usize)
    ensures
        count_views(final(tally)@) == json::with_field(
            count_views(old(tally)@),
            name@,
            n as nat,
        ),
{
    let ghost cs = count_views(tally@);
    let ghost start = tally@;
    let mut i: usize = tally.len();
    proof {
        assert(cs.take(i as int) =~= cs);
        assert(cs =~= cs.take(i as int) + cs.skip(i as int));
        let w = json::with_field(cs, name@, n as nat);
        assert(w + cs.skip(i as int) =~= w);
    }
    while i > 0
        invariant
            start == old(tally)@,
            tally@ == start,
            cs == count_views(start),
            i <= tally@.len(),
            json::with_field(cs, name@, n as nat) == json::with_field(
                cs.take(i as int),
                name@,
                n as nat,
            ) + cs.skip(i as int),
        decreases i,
    {
        let ghost part = cs.take(i as int);
        proof {
            assert(part.drop_last() =~= cs.take(i - 1));
            assert(part.last() == cs[i - 1]);
        }
        if text::same(tally[i - 1].0.as_str(), name) {
            let entry = (name.to_owned(), n);
            tally.set(i - 1, entry);
            proof {
                assert(count_views(tally@) =~= part.drop_last().push((name@, n as nat)) + cs.skip(
                    i as int,
                ));
            }
            return ;
        }
        if name_before(tally[i - 1].0.as_str(), name) {
            let entry = (name.to_owned(), n);
            tally.insert(i, entry);
            proof {
                assert(count_views(tally@) =~= part.push((name@, n as nat)) + cs.skip(i as int));
            }
            return ;
        }
        proof {
            let w = json::with_field(cs.take(i - 1), name@, n as nat);
            assert(w.push(part.last()) + cs.skip(i as int) =~= w + cs.skip(i - 1));
        }
        i = i - 1;
    }
    let entry = (name.to_owned(), n);
    tally.insert(0, entry);
    proof {
        assert(cs.take(0) =~= Seq::empty());
        assert(count_views(tally@) =~= seq![(name@, n as nat)] + cs.skip(0));
    }
}

/// The tools of `calls` with their counts, names in order.
fn tally(calls: &Vec<String>) -> (r: Vec<(String, usize)>)
    ensures
        count_views(r@) == tally_of(text::views(calls@)),
{
    let ghost cs = text::views(calls@);
    let mut r: Vec<(String, usize)> = Vec::new();
    let mut i: usize = 0;
    proof {
        assert(count_views(r@) =~= tally_of(cs.take(0)));
    }
    while i < calls.len()
        invariant
            cs == text::views(calls@),
            i <= calls@.len(),
            count_views(r@) == tally_of(cs.take(i as int)),
        decreases calls@.len() - i,
    {
        let name = calls[i].as_str();
        let n = find_count(&r, name);
        proof {
            assert(cs.take(i + 1).drop_last() =~= cs.take(i as int));
            assert(cs.take(i + 1).last() == name@);
            lemma_tally(cs.take(i as int), name@);
        }
        set_count(&mut r, name, n + 1);
        i = i + 1;
    }
    proof {
        assert(cs.take(i as int) =~= cs);
    }
    r
}

/// A tool and its count as text.
pub open spec fn count_text(c: Count) -> Seq<char> {
    c.0 + "×"@ + text::decimal(c.1)
}

pub open spec fn count_texts(tally: Seq<Count>) -> Seq<Seq<char>> {
    tally.map_values(|c: Count| count_text(c))
}

/// A tally with each name cut to `len` characters.
pub open spec fn cut_names(tally: Seq<Count>, len: nat) -> Seq<Count> {
    tally.map_values(|c: Count| (cut_text(c.0, len), c.1))
}

fn count_list(tally: &Vec<(String, usize)>) -> (r: Vec<String>)
    ensures
        text::views(r@) == count_texts(count_views(tally@)),
{
    let ghost all = count_texts(count_views(tally@));
    let mut r: Vec<String> = Vec::new();
    let mut i: usize = 0;
    proof {
        assert(text::views(r@) =~= all.take(0));
    }
    while i < tally.len()
        invariant
            all == count_texts(count_views(tally@)),
            i <= tally@.len(),
            text::views(r@) == all.take(i as int),
        decreases tally@.len() - i,
    {
        let mut t = tally[i].0.clone();
        text::append(&mut t, "×");
        let times = text::to_decimal(tally[i].1 as u64);
        text::append(&mut t, times.as_str());
        proof {
            parse::lemma_views_push(r@, t);
            assert(all.take(i + 1) =~= all.take(i as int).push(t@));
        }
        r.push(t);
        i = i + 1;
    }
    proof {
        assert(all.take(i as int) =~= all);
    }
    r
}

/// The first `n` tools, each name cut to `len` characters.
fn cut_tally(tally: &Vec<(String, usize)>, n: usize, len: usize) -> (r: Vec<(String, usize)>)
    requires
        n <= tally@.len(),
    ensures
        count_views(r@) == cut_names(count_views(tally@).take(n as int), len as nat),
{
    let ghost all = cut_names(count_views(tally@).take(n as int), len as nat);
    let mut r: Vec<(String, usize)> = Vec::new();
    let mut i: usize = 0;
    proof {
        assert(count_views(r@) =~= all.take(0));
    }
    while i < n
        invariant
            all == cut_names(count_views(tally@).take(n as int), len as nat),
            i <= n <= tally@.len(),
            count_views(r@) == all.take(i as int),
        decreases n - i,
    {
        let entry = (clip(tally[i].0.as_str(), len), tally[i].1);
        proof {
            let v = (entry.0@, entry.1 as nat);
            assert(count_views(r@.push(entry)) =~= count_views(r@).push(v));
            assert(count_views(tally@).take(n as int)[i as int] == count_views(tally@)[i as int]);
            assert(all[i as int] == v);
            assert(all.take(i + 1) =~= all.take(i as int).push(v));
        }
        r.push(entry);
        i = i + 1;
    }
    proof {
        assert(all.take(i as int) =~= all);
    }
    r
}

/// The files without `p`.
pub open spec fn without(files: Seq<Seq<char>>, p: Seq<char>) -> Seq<Seq<char>>
    decreases files.len(),
{
    if files.len() == 0 {
        Seq::empty()
    } else if files.last() == p {
        without(files.drop_last(), p)
    } else {
        without(files.drop_last(), p).push(files.last())
    }
}

/// The files with the one that `args` names under `key` moved to the end.
pub open spec fn touch(files: Seq<Seq<char>>, args: Tree, key: Seq<char>) -> Seq<Seq<char>> {
    match json::text_of(json::field(args, key)) {
        Some(p) => without(files, p).push(p),
        None => files,
    }
}

/// The files with those that a call's arguments name moved to the end.
pub open spec fn touched(files: Seq<Seq<char>>, args: Tree) -> Seq<Seq<char>> {
    touch(
        touch(touch(touch(files, args, "file_path"@), args, "path"@), args, "filePath"@),
        args,
        "notebook_path"@,
    )
}

fn touch_file(files: Vec<String>, args: &Json, key: &str) -> (r: Vec<String>)
    ensures
        text::views(r@) == touch(text::views(files@), args@, key@),
{
    let p = match args.text(key) {
        Some(p) => p,
        None => {
            return files;
        },
    };
    let ghost fs = text::views(files@);
    let mut r: Vec<String> = Vec::new();
    let mut i: usize = 0;
    proof {
        assert(text::views(r@) =~= without(fs.take(0), p@));
    }
    while i < files.len()
        invariant
            fs == text::views(files@),
            i <= files@.len(),
            text::views(r@) == without(fs.take(i as int), p@),
        decreases files@.len() - i,
    {
        proof {
            assert(fs.take(i + 1).drop_last() =~= fs.take(i as int));
            assert(fs.take(i + 1).last() == files@[i as int]@);
        }
        if !text::same(files[i].as_str(), p) {
            let f = files[i].clone();
            proof {
                parse::lemma_views_push(r@, f);
            }
            r.push(f);
        }
        i = i + 1;
    }
    let last = p.to_owned();
    proof {
        assert(fs.take(i as int) =~= fs);
        parse::lemma_views_push(r@, last);
    }
    r.push(last);
    r
}

fn touch_files(files: Vec<String>, args: &Json) -> (r: Vec<String>)
    ensures
        text::views(r@) == touched(text::views(files@), args@),
{
    let files = touch_file(files, args, "file_path");
    let files = touch_file(files, args, "path");
    let files = touch_file(files, args, "filePath");
    touch_file(files, args, "notebook_path")
}

/// What has been read of a stretch of a session.
pub ghost struct Gist {
    /// What the user asked.
    pub requests: Seq<Seq<char>>,
    /// What the assistant said last before each request.
    pub notes: Seq<Seq<char>>,
    /// What the assistant said last.
    pub last: Option<Seq<char>>,
    /// The names of the tools called.
    pub calls: Seq<Seq<char>>,
    /// The files named in calls, the last named last.
    pub files: Seq<Seq<char>>,
    /// The results that are errors.
    pub errors: Seq<Seq<char>>,
}

pub open spec fn no_gist() -> Gist {
    Gist {
        requests: Seq::empty(),
        notes: Seq::empty(),
        last: None,
        calls: Seq::empty(),
        files: Seq::empty(),
        errors: Seq::empty(),
    }
}

/// The notes with the last one.
pub open spec fn all_notes(g: Gist) -> Seq<Seq<char>> {
    match g.last {
        Some(n) => g.notes.push(n),
        None => g.notes,
    }
}

/// What has been read after one more block.
pub open spec fn gist_step(g: Gist, role: Role, b: BlockV) -> Gist {
    match b {
        BlockV::Text(t) => if text::trimmed(t).len() == 0 {
            g
        } else if role == Role::User {
            Gist { notes: all_notes(g), last: None, requests: g.requests.push(t), ..g }
        } else if role == Role::Assistant {
            Gist { last: Some(t), ..g }
        } else {
            g
        },
        BlockV::Thinking(t) => g,
        BlockV::ToolCall { id, name, args } => Gist {
            calls: g.calls.push(name),
            files: touched(g.files, args),
            ..g
        },
        BlockV::ToolResult { call_id, name, content, is_error } => if is_error {
            Gist { errors: g.errors.push(content), ..g }
        } else {
            g
        },
    }
}

pub open spec fn gist_blocks(g: Gist, role: Role, blocks: Seq<BlockV>) -> Gist
    decreases blocks.len(),
{
    if blocks.len() == 0 {
        g
    } else {
        gist_step(gist_blocks(g, role, blocks.drop_last()), role, blocks.last())
    }
}

/// What there is to say of messages.
pub open spec fn gist_of(msgs: Seq<MsgV>) -> Gist
    decreases msgs.len(),
{
    if msgs.len() == 0 {
        no_gist()
    } else {
        gist_blocks(gist_of(msgs.drop_last()), msgs.last().role, msgs.last().blocks)
    }
}

/// The tools used, names in order, on a line; nothing where there are none.
pub open spec fn tools_line(calls: Seq<Seq<char>>) -> Seq<char> {
    if calls.len() == 0 {
        Seq::empty()
    } else {
        "Tools used: "@ + text::joined(count_texts(tally_of(calls)), ", "@) + "\n"@
    }
}

/// The last `max` files on a line; nothing where there are none to show.
pub open spec fn files_line(files: Seq<Seq<char>>, max: nat) -> Seq<char> {
    if max == 0 || files.len() == 0 {
        Seq::empty()
    } else {
        "Files touched: "@ + text::joined(files.skip(left_out(files.len(), max)), ", "@) + "\n"@
    }
}

/// The first `max` tools used, each name cut to `len` characters, and how many there are where not
/// all are told.
pub open spec fn few_tools_line(calls: Seq<Seq<char>>, max: nat, len: nat) -> Seq<char> {
    let tally = tally_of(calls);
    if calls.len() == 0 {
        Seq::empty()
    } else if tally.len() > max {
        "Tools used (first "@ + text::decimal(max) + " of "@ + text::decimal(tally.len()) + "): "@
            + text::joined(count_texts(cut_names(tally.take(max as int), len)), ", "@) + "\n"@
    } else {
        "Tools used: "@ + text::joined(count_texts(cut_names(tally, len)), ", "@) + "\n"@
    }
}

/// Texts, each cut to `len` characters.
pub open spec fn cut_texts(items: Seq<Seq<char>>, len: nat) -> Seq<Seq<char>> {
    items.map_values(|s: Seq<char>| cut_text(s, len))
}

/// The digest of messages. Tools and files are told by their whole names, but in a digest of the
/// least detail.
pub open spec fn digest_text(msgs: Seq<MsgV>, detail: Detail) -> Seq<char> {
    let caps = detail.bounds();
    let g = gist_of(msgs);
    section_text("User requests"@, g.requests, caps.requests as nat, caps.request_len as nat)
        + section_text("Assistant outcomes"@, all_notes(g), caps.notes as nat, caps.note_len as nat)
        + if detail == Detail::Least {
        few_tools_line(g.calls, LEAST_TOOLS as nat, LEAST_TOOL_LEN as nat)
    } else {
        tools_line(g.calls)
    } + if detail == Detail::Least {
        files_line(cut_texts(g.files, LEAST_FILE_LEN as nat), caps.files as nat)
    } else {
        files_line(g.files, caps.files as nat)
    } + section_text("Errors"@, g.errors, caps.errors as nat, 200)
}

struct Reading {
    requests: Vec<String>,
    notes: Vec<String>,
    last: Option<String>,
    calls: Vec<String>,
    files: Vec<String>,
    errors: Vec<String>,
}

impl Reading {
    spec fn v(self) -> Gist {
        Gist {
            requests: text::views(self.requests@),
            notes: text::views(self.notes@),
            last: model::opt_view(self.last),
            calls: text::views(self.calls@),
            files: text::views(self.files@),
            errors: text::views(self.errors@),
        }
    }
}

fn push_text(v: &mut Vec<String>, t: &str)
    ensures
        text::views(final(v)@) == text::views(old(v)@).push(t@),
{
    let t = t.to_owned();
    proof {
        parse::lemma_views_push(v@, t);
    }
    v.push(t);
}

fn says_something(t: &str) -> (r: bool)
    ensures
        r == (text::trimmed(t@).len() > 0),
{
    let t = text::trim(t);
    !t.as_str().is_empty()
}

fn read_block(g: Reading, role: Role, b: &Block) -> (r: Reading)
    ensures
        r.v() == gist_step(g.v(), role, b@),
{
    let mut g = g;
    match b {
        Block::Text(t) => {
            if says_something(t.as_str()) {
                match role {
                    Role::User => {
                        match &g.last {
                            Some(n) => push_text(&mut g.notes, n.as_str()),
                            None => {},
                        }
                        g.last = None;
                        push_text(&mut g.requests, t.as_str());
                    },
                    Role::Assistant => {
                        g.last = Some(t.clone());
                    },
                    Role::Tool => {},
                }
            }
        },
        Block::Thinking(_) => {},
        Block::ToolCall { id, name, args } => {
            push_text(&mut g.calls, name.as_str());
            g.files = touch_files(g.files, args);
        },
        Block::ToolResult { call_id, name, content, is_error } => {
            if *is_error {
                push_text(&mut g.errors, content.as_str());
            }
        },
    }
    g
}

fn read_blocks(g: Reading, role: Role, blocks: &Vec<Block>) -> (r: Reading)
    ensures
        r.v() == gist_blocks(g.v(), role, model::block_views(blocks@)),
{
    let ghost start = g.v();
    let ghost bs = model::block_views(blocks@);
    let mut r = g;
    let mut i: usize = 0;
    proof {
        assert(bs.take(0) =~= Seq::empty());
    }
    while i < blocks.len()
        invariant
            bs == model::block_views(blocks@),
            i <= blocks@.len(),
            r.v() == gist_blocks(start, role, bs.take(i as int)),
        decreases blocks@.len() - i,
    {
        proof {
            assert(bs.take(i + 1).drop_last() =~= bs.take(i as int));
            assert(bs.take(i + 1).last() == blocks@[i as int]@);
        }
        r = read_block(r, role, &blocks[i]);
        i = i + 1;
    }
    proof {
        assert(bs.take(i as int) =~= bs);
    }
    r
}

fn read_span(msgs: &Vec<Msg>, from: usize, to: usize) -> (r: Reading)
    requires
        from <= to <= msgs@.len(),
    ensures
        r.v() == gist_of(model::msg_views(msgs@).subrange(from as int, to as int)),
{
    let mut r = Reading {
        requests: Vec::new(),
        notes: Vec::new(),
        last: None,
        calls: Vec::new(),
        files: Vec::new(),
        errors: Vec::new(),
    };
    let ghost mv = model::msg_views(msgs@);
    let mut i: usize = from;
    proof {
        assert(mv.subrange(from as int, from as int) =~= Seq::empty());
        assert(text::views(r.requests@) =~= Seq::empty());
        assert(r.v() == no_gist());
    }
    while i < to
        invariant
            mv == model::msg_views(msgs@),
            from <= i <= to <= msgs@.len(),
            r.v() == gist_of(mv.subrange(from as int, i as int)),
        decreases to - i,
    {
        proof {
            assert(mv.subrange(from as int, i + 1).drop_last() =~= mv.subrange(
                from as int,
                i as int,
            ));
            assert(mv.subrange(from as int, i + 1).last() == msgs@[i as int]@);
        }
        r = read_blocks(r, msgs[i].role, &msgs[i].blocks);
        i = i + 1;
    }
    r
}

/// The strings from `from` on.
fn rest_of(v: &Vec<String>, from: usize) -> (r: Vec<String>)
    requires
        from <= v@.len(),
    ensures
        text::views(r@) == text::views(v@).skip(from as int),
{
    let ghost all = text::views(v@).skip(from as int);
    let mut r: Vec<String> = Vec::new();
    let mut i: usize = from;
    proof {
        assert(text::views(r@) =~= all.take(0));
    }
    while i < v.len()
        invariant
            all == text::views(v@).skip(from as int),
            from <= i <= v@.len(),
            text::views(r@) == all.take(i - from),
        decreases v@.len() - i,
    {
        let t = v[i].clone();
        proof {
            parse::lemma_views_push(r@, t);
            assert(all.take(i + 1 - from) =~= all.take(i - from).push(t@));
        }
        r.push(t);
        i = i + 1;
    }
    proof {
        assert(all.take(i - from) =~= all);
    }
    r
}

fn clip_all(v: &Vec<String>, len: usize) -> (r: Vec<String>)
    ensures
        text::views(r@) == cut_texts(text::views(v@), len as nat),
{
    let ghost all = cut_texts(text::views(v@), len as nat);
    let mut r: Vec<String> = Vec::new();
    let mut i: usize = 0;
    proof {
        assert(text::views(r@) =~= all.take(0));
    }
    while i < v.len()
        invariant
            all == cut_texts(text::views(v@), len as nat),
            i <= v@.len(),
            text::views(r@) == all.take(i as int),
        decreases v@.len() - i,
    {
        let t = clip(v[i].as_str(), len);
        proof {
            parse::lemma_views_push(r@, t);
            assert(all.take(i + 1) =~= all.take(i as int).push(t@));
        }
        r.push(t);
        i = i + 1;
    }
    proof {
        assert(all.take(i as int) =~= all);
    }
    r
}

fn append_tools(out: &mut String, calls: &Vec<String>)
    ensures
        final(out)@ == old(out)@ + tools_line(text::views(calls@)),
{
    let ghost before = out@;
    if calls.len() == 0 {
        proof {
            assert(before + Seq::<char>::empty() =~= before);
        }
        return ;
    }
    let counts = tally(calls);
    let list = count_list(&counts);
    let line = text::join(&list, ", ");
    text::append(out, "Tools used: ");
    text::append(out, line.as_str());
    text::append(out, "\n");
    proof {
        assert(out@ =~= before + tools_line(text::views(calls@)));
    }
}

fn append_few_tools(out: &mut String, calls: &Vec<String>, max: usize, len: usize)
    ensures
        final(out)@ == old(out)@ + few_tools_line(text::views(calls@), max as nat, len as nat),
{
    let ghost before = out@;
    if calls.len() == 0 {
        proof {
            assert(before + Seq::<char>::empty() =~= before);
        }
        return ;
    }
    let counts = tally(calls);
    let shown: usize = if counts.len() > max {
        text::append(out, "Tools used (first ");
        let n = text::to_decimal(max as u64);
        text::append(out, n.as_str());
        text::append(out, " of ");
        let n = text::to_decimal(counts.len() as u64);
        text::append(out, n.as_str());
        text::append(out, "): ");
        max
    } else {
        text::append(out, "Tools used: ");
        proof {
            let all = count_views(counts@);
            assert(all.take(all.len() as int) =~= all);
        }
        counts.len()
    };
    let list = count_list(&cut_tally(&counts, shown, len));
    let line = text::join(&list, ", ");
    text::append(out, line.as_str());
    text::append(out, "\n");
    proof {
        assert(out@ =~= before + few_tools_line(text::views(calls@), max as nat, len as nat));
    }
}

fn append_files(out: &mut String, files: &Vec<String>, max: usize)
    ensures
        final(out)@ == old(out)@ + files_line(text::views(files@), max as nat),
{
    let ghost before = out@;
    if max == 0 || files.len() == 0 {
        proof {
            assert(before + Seq::<char>::empty() =~= before);
        }
        return ;
    }
    let skip: usize = if files.len() > max {
        files.len() - max
    } else {
        0
    };
    let shown = rest_of(files, skip);
    let line = text::join(&shown, ", ");
    text::append(out, "Files touched: ");
    text::append(out, line.as_str());
    text::append(out, "\n");
    proof {
        assert(out@ =~= before + files_line(text::views(files@), max as nat));
    }
}

/// Deterministic summary of the messages from `from` up to `to`.
pub fn digest(msgs: &Vec<Msg>, from: usize, to: usize, detail: Detail) -> (r: String)
    requires
        from <= to <= msgs@.len(),
    ensures
        r@ == digest_text(model::msg_views(msgs@).subrange(from as int, to as int), detail),
{
    let caps = detail.caps();
    let mut g = read_span(msgs, from, to);
    match &g.last {
        Some(n) => push_text(&mut g.notes, n.as_str()),
        None => {},
    }
    let mut out = String::new();
    section(&mut out, "User requests", &g.requests, caps.requests, caps.request_len);
    proof {
        let first = section_text(
            "User requests"@,
            text::views(g.requests@),
            caps.requests as nat,
            caps.request_len as nat,
        );
        assert(Seq::<char>::empty() + first =~= first);
    }
    section(&mut out, "Assistant outcomes", &g.notes, caps.notes, caps.note_len);
    match detail {
        Detail::Least => {
            append_few_tools(&mut out, &g.calls, LEAST_TOOLS, LEAST_TOOL_LEN);
            append_files(&mut out, &clip_all(&g.files, LEAST_FILE_LEN), caps.files);
        },
        _ => {
            append_tools(&mut out, &g.calls);
            append_files(&mut out, &g.files, caps.files);
        },
    }
    section(&mut out, "Errors", &g.errors, caps.errors, 200);
    out
}

proof fn lemma_without(files: Seq<Seq<char>>, p: Seq<char>)
    requires
        files.no_duplicates(),
    ensures
        without(files, p).no_duplicates(),
        !without(files, p).contains(p),
        forall|q: Seq<char>| without(files, p).contains(q) ==> files.contains(q),
    decreases files.len(),
{
    if files.len() > 0 {
        let rest = files.drop_last();
        let last = files.last();
        assert forall|i: int, j: int| 0 <= i < rest.len() && 0 <= j < rest.len() && i != j implies
            rest[i] != rest[j] by {
            assert(rest[i] == files[i] && rest[j] == files[j]);
        }
        lemma_without(rest, p);
        let w = without(rest, p);
        assert forall|q: Seq<char>| rest.contains(q) implies files.contains(q) && q != last by {
            let k = choose|k: int| 0 <= k < rest.len() && rest[k] == q;
            assert(files[k] == q);
            assert(files[files.len() - 1] == last);
        }
        if last != p {
            let all = w.push(last);
            if w.contains(last) {
                assert(rest.contains(last));
            }
            assert forall|i: int, j: int| 0 <= i < all.len() && 0 <= j < all.len() && i
                != j implies all[i] != all[j] by {
                if i < w.len() && j < w.len() {
                    assert(w[i] != w[j]);
                } else if i < w.len() {
                    assert(w.contains(w[i]));
                } else {
                    assert(w.contains(w[j]));
                }
            }
            assert forall|q: Seq<char>| all.contains(q) implies files.contains(q) && q != p by {
                let k = choose|k: int| 0 <= k < all.len() && all[k] == q;
                if k < w.len() {
                    assert(w.contains(w[k]));
                } else {
                    assert(files[files.len() - 1] == q);
                }
            }
        }
    }
}

proof fn lemma_touch(files: Seq<Seq<char>>, args: Tree, key: Seq<char>)
    requires
        files.no_duplicates(),
    ensures
        touch(files, args, key).no_duplicates(),
{
    match json::text_of(json::field(args, key)) {
        Some(p) => {
            lemma_without(files, p);
            let w = without(files, p);
            let all = w.push(p);
            assert forall|i: int, j: int| 0 <= i < all.len() && 0 <= j < all.len() && i
                != j implies all[i] != all[j] by {
                if i < w.len() && j < w.len() {
                    assert(w[i] != w[j]);
                } else if i < w.len() {
                    assert(w.contains(w[i]));
                } else {
                    assert(w.contains(w[j]));
                }
            }
        },
        None => {},
    }
}

proof fn lemma_gist_files(g: Gist, role: Role, blocks: Seq<BlockV>)
    requires
        g.files.no_duplicates(),
    ensures
        gist_blocks(g, role, blocks).files.no_duplicates(),
    decreases blocks.len(),
{
    if blocks.len() > 0 {
        lemma_gist_files(g, role, blocks.drop_last());
        let before = gist_blocks(g, role, blocks.drop_last()).files;
        match blocks.last() {
            BlockV::ToolCall { id, name, args } => {
                let a = touch(before, args, "file_path"@);
                let b = touch(a, args, "path"@);
                let c = touch(b, args, "filePath"@);
                lemma_touch(before, args, "file_path"@);
                lemma_touch(a, args, "path"@);
                lemma_touch(b, args, "filePath"@);
                lemma_touch(c, args, "notebook_path"@);
            },
            _ => {},
        }
    }
}

/// A file is listed once, however often it was touched.
pub proof fn lemma_files_once(msgs: Seq<MsgV>)
    ensures
        gist_of(msgs).files.no_duplicates(),
    decreases msgs.len(),
{
    if msgs.len() > 0 {
        lemma_files_once(msgs.drop_last());
        lemma_gist_files(gist_of(msgs.drop_last()), msgs.last().role, msgs.last().blocks);
    }
}

} // verus!
