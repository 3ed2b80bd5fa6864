//! What the session picker shows, as plain text.

use crate::model;
use crate::model::{Brand, Session};
use crate::parse;
use crate::resume;
use crate::resume::Target;
use crate::text;
use crate::text::Pieces;
use crate::tui;
use crate::tui::Color;
use std::time::SystemTime;
use vstd::prelude::*;

verus! {

/// Lines filled so far with one more word: on the open line where there is room for it, else on a
/// new one.
pub open spec fn with_word(p: Pieces, word: Seq<char>, width: nat) -> Pieces {
    if p.cur.len() == 0 {
        Pieces { done: p.done, cur: word }
    } else if p.cur.len() + 1 + word.len() > width {
        Pieces { done: p.done.push(p.cur), cur: word }
    } else {
        Pieces { done: p.done, cur: p.cur.push(' ') + word }
    }
}

/// Words filled into lines.
pub open spec fn fill_lines(words: Seq<Seq<char>>, width: nat) -> Pieces
    decreases words.len(),
{
    if words.len() == 0 {
        Pieces { done: Seq::empty(), cur: Seq::empty() }
    } else {
        with_word(fill_lines(words.drop_last(), width), words.last(), width)
    }
}

/// The lines of a paragraph; an empty one is an empty line.
pub open spec fn para_lines(para: Seq<char>, width: nat) -> Seq<Seq<char>> {
    if para.len() == 0 {
        seq![Seq::empty()]
    } else {
        let p = fill_lines(text::words_of(para), width);
        if p.cur.len() == 0 {
            p.done
        } else {
            p.done.push(p.cur)
        }
    }
}

/// The lines of paragraphs.
pub open spec fn all_lines(paras: Seq<Seq<char>>, width: nat) -> Seq<Seq<char>>
    decreases paras.len(),
{
    if paras.len() == 0 {
        Seq::empty()
    } else {
        all_lines(paras.drop_last(), width) + para_lines(paras.last(), width)
    }
}

/// The width that lines are wrapped to.
pub open spec fn wrap_width(width: nat) -> nat {
    if width < 10 {
        10
    } else {
        width
    }
}

/// A text in lines of `width` characters.
pub open spec fn wrapped(s: Seq<char>, width: nat) -> Seq<Seq<char>> {
    all_lines(text::split_of(s, '\n'), wrap_width(width))
}

fn push_line(out: &mut Vec<String>, line: String)
    ensures
        text::views(final(out)@) == text::views(old(out)@).push(line@),
{
    proof {
        parse::lemma_views_push(out@, line);
    }
    out.push(line);
}

fn wrap_para(out: &mut Vec<String>, para: &str, width: usize)
    ensures
        text::views(final(out)@) == text::views(old(out)@) + para_lines(para@, width as nat),
{
    let ghost before = text::views(out@);
    if para.is_empty() {
        push_line(out, String::new());
        proof {
            assert(text::views(out@) =~= before + para_lines(para@, width as nat));
        }
        return ;
    }
    let words = text::words(para);
    let ghost ws = text::views(words@);
    let mut cur = String::new();
    let mut i: usize = 0;
    proof {
        assert(ws.take(0) =~= Seq::empty());
        assert(before + Seq::<Seq<char>>::empty() =~= before);
    }
    while i < words.len()
        invariant
            ws == text::views(words@),
            i <= words@.len(),
            text::views(out@) == before + fill_lines(ws.take(i as int), width as nat).done,
            cur@ == fill_lines(ws.take(i as int), width as nat).cur,
        decreases words@.len() - i,
    {
        let word = words[i].as_str();
        let ghost p = fill_lines(ws.take(i as int), width as nat);
        proof {
            assert(ws.take(i + 1).drop_last() =~= ws.take(i as int));
            assert(ws.take(i + 1).last() == word@);
        }
        let have: usize = cur.as_str().unicode_len();
        let need: usize = word.unicode_len();
        if have == 0 {
            cur = word.to_owned();
        } else if have >= width || need > width - have - 1 {
            push_line(out, cur);
            cur = word.to_owned();
            proof {
                assert(text::views(out@) =~= before + p.done.push(p.cur));
            }
        } else {
            cur.push(' ');
            text::append(&mut cur, word);
        }
        i = i + 1;
    }
    proof {
        assert(ws.take(i as int) =~= ws);
    }
    if !cur.as_str().is_empty() {
        push_line(out, cur);
    }
    proof {
        assert(text::views(out@) =~= before + para_lines(para@, width as nat));
    }
}

/// Greedy word wrap to `width` chars.
pub fn wrap(s: &str, width: usize) -> (r: Vec<String>)
    ensures
        text::views(r@) == wrapped(s@, width as nat),
{
    let w: usize = if width < 10 {
        10
    } else {
        width
    };
    let paras = text::split(s, '\n');
    let ghost ps = text::views(paras@);
    let mut out: Vec<String> = Vec::new();
    let mut i: usize = 0;
    proof {
        assert(ps.take(0) =~= Seq::empty());
        assert(text::views(out@) =~= Seq::empty());
    }
    while i < paras.len()
        invariant
            ps == text::views(paras@),
            i <= paras@.len(),
            text::views(out@) == all_lines(ps.take(i as int), w as nat),
        decreases paras@.len() - i,
    {
        proof {
            assert(ps.take(i + 1).drop_last() =~= ps.take(i as int));
            assert(ps.take(i + 1).last() == paras@[i as int]@);
        }
        wrap_para(&mut out, paras[i].as_str(), w);
        i = i + 1;
    }
    proof {
        assert(ps.take(i as int) =~= ps);
    }
    out
}

/// Words are not empty.
proof fn lemma_words_full(s: Seq<char>)
    ensures
        forall|i: int| 0 <= i < text::words_of(s).len() ==> (#[trigger] text::words_of(s)[i]).len() > 0,
        forall|i: int|
            0 <= i < text::word_scan(s).done.len() ==> (#[trigger] text::word_scan(
                s,
            ).done[i]).len() > 0,
    decreases s.len(),
{
    if s.len() > 0 {
        lemma_words_full(s.drop_last());
        let before = text::word_scan(s.drop_last()).done;
        let done = text::word_scan(s).done;
        assert forall|i: int| 0 <= i < done.len() implies (#[trigger] done[i]).len() > 0 by {
            if i < before.len() {
                assert(before[i].len() > 0);
            }
        }
    }
    let done = text::word_scan(s).done;
    let words = text::words_of(s);
    assert forall|i: int| 0 <= i < words.len() implies (#[trigger] words[i]).len() > 0 by {
        if i < done.len() {
            assert(done[i].len() > 0);
        }
    }
}

/// A line that is short enough, or a single word.
pub open spec fn line_ok(line: Seq<char>, words: Seq<Seq<char>>, width: nat) -> bool {
    line.len() <= width || words.contains(line)
}

/// `w` is the first word of a line.
pub open spec fn opens_with(line: Seq<char>, w: Seq<char>) -> bool {
    line == w || text::begins(line, w.push(' '))
}

/// A line that has no room for the first word of the next.
pub open spec fn line_full(
    line: Seq<char>,
    next: Seq<char>,
    words: Seq<Seq<char>>,
    width: nat,
) -> bool {
    exists|w: Seq<char>| #[trigger]
        words.contains(w) && opens_with(next, w) && line.len() + 1 + w.len() > width
}

/// Every line but the last has no room for the first word of the next.
pub open spec fn lines_full(lines: Seq<Seq<char>>, words: Seq<Seq<char>>, width: nat) -> bool {
    forall|i: int, j: int|
        0 <= i && j == i + 1 && j < lines.len() ==> line_full(
            #[trigger] lines[i],
            #[trigger] lines[j],
            words,
            width,
        )
}

/// A line that goes on has the same first word.
proof fn lemma_opens_on(line: Seq<char>, w: Seq<char>, more: Seq<char>)
    requires
        opens_with(line, w),
    ensures
        opens_with(line.push(' ') + more, w),
{
    let longer = line.push(' ') + more;
    let p = w.push(' ');
    if line == w {
        assert(longer.take(p.len() as int) =~= p);
    } else {
        assert(longer.take(p.len() as int) =~= line.take(p.len() as int));
    }
}

proof fn lemma_fill(words: Seq<Seq<char>>, width: nat, n: int)
    requires
        0 <= n <= words.len(),
        forall|i: int| 0 <= i < words.len() ==> (#[trigger] words[i]).len() > 0,
    ensures
        ({
            let p = fill_lines(words.take(n), width);
            &&& n > 0 <==> p.cur.len() > 0
            &&& n == 0 ==> p.done.len() == 0
            &&& n > 0 ==> text::joined(p.done.push(p.cur), " "@) == text::joined(
                words.take(n),
                " "@,
            )
            &&& line_ok(p.cur, words, width)
            &&& n > 0 ==> exists|w: Seq<char>| #[trigger] words.contains(w) && opens_with(p.cur, w)
            &&& lines_full(p.done.push(p.cur), words, width)
            &&& forall|i: int|
                0 <= i < p.done.len() ==> line_ok(#[trigger] p.done[i], words, width)
        }),
    decreases n,
{
    reveal_strlit(" ");
    if n > 0 {
        lemma_fill(words, width, n - 1);
        let part = words.take(n);
        let before = words.take(n - 1);
        let w = words[n - 1];
        assert(part.drop_last() =~= before);
        assert(part.last() == w);
        let p = fill_lines(before, width);
        let q = fill_lines(part, width);
        assert(q == with_word(p, w, width));
        assert(words.contains(w));
        if n == 1 {
            assert(before =~= Seq::empty());
            assert(part =~= seq![w]);
            assert(q.done.push(q.cur) =~= seq![w]);
        } else if p.cur.len() + 1 + w.len() > width {
            let lines = q.done.push(q.cur);
            assert(lines.drop_last() =~= p.done.push(p.cur));
            assert(lines.last() == w);
            assert forall|i: int, j: int|
                0 <= i && j == i + 1 && j < lines.len() implies line_full(
                #[trigger] lines[i],
                #[trigger] lines[j],
                words,
                width,
            ) by {
                let old_lines = p.done.push(p.cur);
                assert(lines[i] == old_lines[i]);
                if j < old_lines.len() {
                    assert(lines[j] == old_lines[j]);
                } else {
                    assert(opens_with(lines[j], w));
                }
            }
            assert forall|i: int| 0 <= i < q.done.len() implies line_ok(
                #[trigger] q.done[i],
                words,
                width,
            ) by {
                if i < p.done.len() {
                    assert(q.done[i] == p.done[i]);
                }
            }
        } else {
            let old_lines = p.done.push(p.cur);
            let lines = q.done.push(q.cur);
            assert(lines.drop_last() =~= p.done);
            assert(old_lines.drop_last() =~= p.done);
            assert(p.cur.push(' ') + w =~= p.cur + " "@ + w);
            let first = choose|x: Seq<char>| #[trigger]
                words.contains(x) && opens_with(p.cur, x);
            lemma_opens_on(p.cur, first, w);
            assert forall|i: int, j: int|
                0 <= i && j == i + 1 && j < lines.len() implies line_full(
                #[trigger] lines[i],
                #[trigger] lines[j],
                words,
                width,
            ) by {
                assert(lines[i] == old_lines[i]);
                assert(line_full(old_lines[i], old_lines[j], words, width));
                if j < p.done.len() {
                    assert(lines[j] == old_lines[j]);
                } else {
                    let x = choose|x: Seq<char>| #[trigger]
                        words.contains(x) && opens_with(old_lines[j], x) && old_lines[i].len() + 1
                            + x.len() > width;
                    lemma_opens_on(p.cur, x, w);
                }
            }
            if p.done.len() == 0 {
                assert(lines =~= seq![q.cur]);
                assert(old_lines =~= seq![p.cur]);
            } else {
                let j = text::joined(p.done, " "@);
                assert(j + " "@ + (p.cur + " "@ + w) =~= (j + " "@ + p.cur) + " "@ + w);
            }
        }
    }
}

/// Wrapping a paragraph keeps its words, in order. No line is longer than the width unless it is a
/// single word, and no line has room for the first word of the next.
pub proof fn lemma_wrap(para: Seq<char>, width: nat)
    ensures
        text::joined(para_lines(para, width), " "@) == text::joined(text::words_of(para), " "@),
        forall|i: int|
            0 <= i < para_lines(para, width).len() ==> line_ok(
                #[trigger] para_lines(para, width)[i],
                text::words_of(para),
                width,
            ),
        lines_full(para_lines(para, width), text::words_of(para), width),
{
    let words = text::words_of(para);
    lemma_words_full(para);
    lemma_fill(words, width, words.len() as int);
    assert(words.take(words.len() as int) =~= words);
    if para.len() == 0 {
        assert(words =~= Seq::empty());
    }
}

/// The age of a session as text; a question mark where its time is not known.
pub fn age_of(s: &Session) -> (r: String)
    ensures
        match s.modified {
            Some(m) => exists|now: SystemTime| r@ == model::age_text(#[trigger] model::age_at(m, now)),
            None => r@ == "?"@,
        },
{
    match &s.modified {
        Some(m) => model::rel_age(*m),
        None => "?".to_owned(),
    }
}

/// A row of the session list.
pub struct Row {
    pub label: String,
    pub color: Color,
    pub title: String,
    pub age: String,
}

/// Text with a blank on either side.
pub open spec fn spaced(s: Seq<char>) -> Seq<char> {
    seq![' '] + s + seq![' ']
}

fn space(s: &str) -> (r: String)
    ensures
        r@ == spaced(s@),
{
    let mut r = String::new();
    r.push(' ');
    text::append(&mut r, s);
    r.push(' ');
    proof {
        assert(r@ =~= spaced(s@));
    }
    r
}

/// The row of a session, given its age.
pub fn row(s: &Session, age: &str) -> (r: Row)
    ensures
        r.label@ == spaced(s.harness.label_text()),
        r.color == tui::color_of(s.harness),
        r.title@ == s.title@,
        r.age@ == "  "@ + age@,
{
    let mut shown = "  ".to_owned();
    text::append(&mut shown, age);
    Row {
        label: space(s.harness.label()),
        color: tui::harness_color(s.harness),
        title: s.title.clone(),
        age: shown,
    }
}

/// A key of the detail pane, flush right in nine columns, and two blanks.
pub open spec fn key_text(key: Seq<char>) -> Seq<char> {
    Seq::new(
        if key.len() < 9 {
            (9 - key.len()) as nat
        } else {
            0
        },
        |i: int| ' ',
    ) + key + "  "@
}

fn key_cell(key: &str) -> (r: String)
    ensures
        r@ == key_text(key@),
{
    let n: usize = key.unicode_len();
    let fill: usize = if n < 9 {
        9 - n
    } else {
        0
    };
    let mut r = String::new();
    let mut i: usize = 0;
    while i < fill
        invariant
            i <= fill,
            r@ =~= Seq::new(i as nat, |k: int| ' '),
        decreases fill - i,
    {
        r.push(' ');
        i = i + 1;
    }
    text::append(&mut r, key);
    text::append(&mut r, "  ");
    proof {
        assert(r@ =~= key_text(key@));
    }
    r
}

/// The views of key and value pairs.
pub open spec fn pair_views(v: Seq<(String, String)>) -> Seq<(Seq<char>, Seq<char>)> {
    v.map_values(|p: (String, String)| (p.0@, p.1@))
}

/// The keys and values of the detail pane.
pub open spec fn detail_pairs(s: Session, age: Seq<char>, file: Seq<char>) -> Seq<
    (Seq<char>, Seq<char>),
> {
    seq![
        (key_text("id"@), s.id@),
        (key_text("cwd"@), s.cwd@),
        (key_text("model"@), s.model@),
        (key_text("msgs"@), text::decimal(s.msgs as nat)),
        (key_text("modified"@), age),
        (key_text("file"@), file),
    ]
}

fn push_pair(v: &mut Vec<(String, String)>, key: &str, value: String)
    ensures
        pair_views(final(v)@) == pair_views(old(v)@).push((key_text(key@), value@)),
{
    let pair = (key_cell(key), value);
    proof {
        assert(pair_views(v@.push(pair)) =~= pair_views(v@).push((pair.0@, pair.1@)));
    }
    v.push(pair);
}

/// The keys and values of the detail pane, given the session's age and its file as text.
pub fn details(s: &Session, age: &str, file: &str) -> (r: Vec<(String, String)>)
    ensures
        pair_views(r@) == detail_pairs(*s, age@, file@),
{
    let mut r: Vec<(String, String)> = Vec::new();
    push_pair(&mut r, "id", s.id.clone());
    push_pair(&mut r, "cwd", s.cwd.clone());
    push_pair(&mut r, "model", s.model.clone());
    push_pair(&mut r, "msgs", text::to_decimal(s.msgs as u64));
    push_pair(&mut r, "modified", age.to_owned());
    push_pair(&mut r, "file", file.to_owned());
    proof {
        assert(pair_views(r@) =~= detail_pairs(*s, age@, file@));
    }
    r
}

/// The count of sessions in the header.
pub fn count_text(n: usize) -> (r: String)
    ensures
        r@ == "  "@ + text::decimal(n as nat) + " sessions"@,
{
    let mut r = "  ".to_owned();
    let d = text::to_decimal(n as u64);
    text::append(&mut r, d.as_str());
    text::append(&mut r, " sessions");
    r
}

/// The search field: a cursor where nothing is searched for.
pub fn search_text(filter: &str) -> (r: String)
    ensures
        r@ == if filter@.len() == 0 {
            "▏"@
        } else {
            filter@
        },
{
    if filter.is_empty() {
        "▏".to_owned()
    } else {
        filter.to_owned()
    }
}

/// The name of the target.
pub fn target_text(t: Target) -> (r: String)
    ensures
        r@ == " TARGET: "@ + t.label_text() + " "@,
{
    let mut r = " TARGET: ".to_owned();
    text::append(&mut r, t.label());
    text::append(&mut r, " ");
    r
}

/// The description of the target.
pub fn target_note(t: Target, brand: &Brand) -> (r: String)
    ensures
        r@ == " ("@ + t.desc_text(*brand) + ")"@,
{
    let mut r = " (".to_owned();
    text::append(&mut r, t.desc(brand));
    text::append(&mut r, ")");
    r
}

/// What is shown while a session is being resumed.
pub fn resuming_text(s: &Session, t: Target, brand: &Brand) -> (r: String)
    ensures
        r@ == "resuming: "@ + resume::described(s.harness, t.harness_for(s.harness), *brand) + " …"@,
{
    let what = resume::describe(s, t, brand);
    let mut r = "resuming: ".to_owned();
    text::append(&mut r, what.as_str());
    text::append(&mut r, " …");
    r
}

/// How the status line is shown.
#[derive(Clone, Copy, PartialEq, Eq, Debug, Structural)]
pub enum Tone {
    Quiet,
    Busy,
    Error,
}

/// The tone of the status line.
pub fn status_tone(status: &str, err: bool) -> (r: Tone)
    ensures
        r == if err {
            Tone::Error
        } else if status@.len() == 0 {
            Tone::Quiet
        } else {
            Tone::Busy
        },
{
    if err {
        Tone::Error
    } else if status.is_empty() {
        Tone::Quiet
    } else {
        Tone::Busy
    }
}

/// The status line: the status, or else what resuming the selected session would do.
pub fn status_text(
    status: &str,
    sel: Option<&Session>,
    t: Target,
    brand: &Brand,
) -> (r: String)
    ensures
        r@ == if status@.len() > 0 {
            spaced(status@)
        } else {
            match sel {
                Some(s) => resume::described(s.harness, t.harness_for(s.harness), *brand),
                None => Seq::empty(),
            }
        },
{
    if !status.is_empty() {
        return space(status);
    }
    match sel {
        Some(s) => resume::describe(s, t, brand),
        None => String::new(),
    }
}

} // verus!
