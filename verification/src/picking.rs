//! What keys do in the picker and what it shows.

use crate::model::{Brand, Harness, Session};
use crate::phrases;
use crate::recent;
use crate::resume;
use crate::resume::Target;
use crate::screen;
use crate::text;
use crate::tui;
use crate::tui::{Effect, KeyCode, KeyEvent, KeyModifiers, PickerV};
use crate::window;
use vstd::prelude::*;

verus! {

/// A key held with control, with another modifier, or with none.
pub open spec fn key(code: KeyCode, control: bool, other: bool) -> KeyEvent {
    KeyEvent { code, modifiers: KeyModifiers { control, other } }
}

/// Nothing but the selection may differ.
pub open spec fn only_moved(p: PickerV, q: PickerV) -> bool {
    q.filter == p.filter && q.target == p.target && q.searching == p.searching
}

/// The arrow keys move the selection by one row and stop at either end, whether searching or not.
/// `j` and `k` do the same, while searching with control held.
pub proof fn lemma_moves(p: PickerV, i: usize, visible: usize, control: bool, other: bool)
    requires
        p.selected == Some(i),
        i < visible,
    ensures
        forall|code: KeyCode|
            #![trigger key(code, control, other)]
            code == KeyCode::Down || (code == KeyCode::Char('j') && (control || !p.searching)) ==> {
                let (q, e) = tui::pressed(p, key(code, control, other), visible);
                &&& q.selected == Some(
                    if i == visible - 1 {
                        i
                    } else {
                        (i + 1) as usize
                    },
                )
                &&& only_moved(p, q)
                &&& e == Effect::Stay
            },
        forall|code: KeyCode|
            #![trigger key(code, control, other)]
            code == KeyCode::Up || (code == KeyCode::Char('k') && (control || !p.searching)) ==> {
                let (q, e) = tui::pressed(p, key(code, control, other), visible);
                &&& q.selected == Some(
                    if i == 0 {
                        i
                    } else {
                        (i - 1) as usize
                    },
                )
                &&& only_moved(p, q)
                &&& e == Effect::Stay
            },
{
}

/// `g` goes to the first row and `G` to the last, unless searching.
pub proof fn lemma_ends(p: PickerV, visible: usize, control: bool, other: bool)
    requires
        visible > 0,
        !p.searching,
    ensures
        tui::pressed(p, key(KeyCode::Char('g'), false, false), visible).0.selected == Some(0usize),
        only_moved(p, tui::pressed(p, key(KeyCode::Char('g'), false, false), visible).0),
        tui::pressed(p, key(KeyCode::Char('g'), false, false), visible).1 == Effect::Stay,
        tui::pressed(p, key(KeyCode::Char('G'), control, other), visible).0.selected == Some(
            (visible - 1) as usize,
        ),
        only_moved(p, tui::pressed(p, key(KeyCode::Char('G'), control, other), visible).0),
        tui::pressed(p, key(KeyCode::Char('G'), control, other), visible).1 == Effect::Stay,
{
}

/// Enter resumes the selected session, and none where nothing is visible.
pub proof fn lemma_enter(p: PickerV, i: usize, visible: usize, control: bool, other: bool)
    ensures
        p.selected == Some(i) && i < visible ==> tui::pressed(
            p,
            key(KeyCode::Enter, control, other),
            visible,
        ) == (p, Effect::Resume(i)),
        visible == 0 ==> tui::pressed(p, key(KeyCode::Enter, control, other), visible).1
            == Effect::Stay,
{
}

/// Escape leaves the search, and quits outside of it; so does `q` there, and control with `c`
/// anywhere. Nothing else quits.
pub proof fn lemma_quits(p: PickerV, k: KeyEvent, visible: usize)
    ensures
        (tui::pressed(p, k, visible).1 == Effect::Quit) == ({
            ||| k == key(KeyCode::Char('c'), true, false)
            ||| !p.searching && k.code == KeyCode::Esc
            ||| !p.searching && k.code == KeyCode::Char('q')
        }),
        p.searching && k.code == KeyCode::Esc ==> {
            let (q, e) = tui::pressed(p, k, visible);
            !q.searching && q.filter == p.filter && q.target == p.target && e == Effect::Stay
        },
{
}

/// What is typed is searched for: while searching every character, else all but those that mean
/// something else. Backspace takes the last character back, control with `u` all of them.
pub proof fn lemma_typed(p: PickerV, c: char, visible: usize, control: bool, other: bool)
    ensures
        p.searching || (c != 'q' && c != 'j' && c != 'k' && c != 'g' && c != 'G' && c != '/') ==> {
            let (q, e) = tui::pressed(p, key(KeyCode::Char(c), false, other), visible);
            &&& q.filter == p.filter.push(c)
            &&& q.searching
            &&& q.target == p.target
            &&& e == Effect::Stay
            &&& tui::pressed(q, key(KeyCode::Backspace, control, other), visible).0.filter
                == p.filter
        },
        !p.searching ==> {
            let (q, e) = tui::pressed(p, key(KeyCode::Char('/'), false, other), visible);
            q.searching && q.filter == p.filter && q.target == p.target && e == Effect::Stay
        },
        tui::pressed(p, key(KeyCode::Char('u'), true, false), visible).0.filter
            == Seq::<char>::empty(),
        tui::pressed(p, key(KeyCode::Char('u'), true, false), visible).1 == Effect::Stay,
        p.filter.len() == 0 ==> tui::pressed(
            p,
            key(KeyCode::Backspace, control, other),
            visible,
        ).0.filter == p.filter,
{
    assert(p.filter.push(c).drop_last() =~= p.filter);
}

/// Tab goes to the next target, from the automatic one over Codex, CL, OMP, Pi and Factory and
/// back, and changes nothing else.
pub proof fn lemma_tabbed(p: PickerV, visible: usize, control: bool, other: bool)
    ensures
        ({
            let (q, e) = tui::pressed(p, key(KeyCode::Tab, control, other), visible);
            &&& q.filter == p.filter
            &&& q.searching == p.searching
            &&& e == Effect::Stay
            &&& p.target == Target::Auto ==> q.target == Target::Codex
            &&& p.target == Target::Codex ==> q.target == Target::Claude
            &&& p.target == Target::Claude ==> q.target == Target::Omp
            &&& p.target == Target::Omp ==> q.target == Target::Pi
            &&& p.target == Target::Pi ==> q.target == Target::Factory
            &&& p.target == Target::Factory ==> q.target == Target::Auto
        }),
{
}

/// A selection is kept where it is visible, and else moved to the last row.
pub proof fn lemma_clamped(i: usize, visible: usize)
    ensures
        i < visible ==> tui::clamped(Some(i), visible) == Some(i),
        0 < visible <= i ==> tui::clamped(Some(i), visible) == Some((visible - 1) as usize),
        visible > 0 ==> tui::clamped(None, visible) == Some(0usize),
        tui::clamped(Some(i), 0) is None,
{
}

/// A search finds what holds it, in the title, the directory or the id.
pub proof fn lemma_searched(
    a: Seq<char>,
    f: Seq<char>,
    b: Seq<char>,
    x: Seq<char>,
    y: Seq<char>,
)
    ensures
        tui::hit(a + f + b, x, y, f),
        tui::hit(x, a + f + b, y, f),
        tui::hit(x, y, a + f + b, f),
{
    phrases::lemma_within(a, f, b);
}

/// What a search finds holds it at some place of the title, the directory or the id.
pub proof fn lemma_search_held(t: Seq<char>, x: Seq<char>, y: Seq<char>, f: Seq<char>) -> (r: (
    Seq<char>,
    int,
))
    requires
        tui::hit(t, x, y, f),
    ensures
        r.0 == t || r.0 == x || r.0 == y,
        0 <= r.1,
        r.1 + f.len() <= r.0.len(),
        r.0.subrange(r.1, r.1 + f.len()) == f,
{
    if f.len() == 0 {
        assert(t.subrange(0, 0) =~= f);
        (t, 0)
    } else if text::within(t, f) {
        (t, phrases::lemma_within_at(t, f))
    } else if text::within(x, f) {
        (x, phrases::lemma_within_at(x, f))
    } else {
        (y, phrases::lemma_within_at(y, f))
    }
}

/// An empty search finds every session, and a search for all of a title, a directory or an id
/// finds that session.
pub proof fn lemma_found_by(s: Session)
    ensures
        tui::matching(s, Seq::empty()),
        tui::matching(s, s.title@),
        tui::matching(s, s.cwd@),
        tui::matching(s, s.id@),
{
    let n = Seq::<char>::empty();
    let t = text::lowercase(s.title@);
    let c = text::lowercase(s.cwd@);
    let i = text::lowercase(s.id@);
    assert(n + t + n =~= t);
    assert(n + c + n =~= c);
    assert(n + i + n =~= i);
    lemma_searched(n, t, n, c, i);
    lemma_searched(n, c, n, t, i);
    lemma_searched(n, i, n, t, c);
}

/// The detail pane names what it shows, each name flush right in nine columns with two blanks
/// behind it.
pub proof fn lemma_details(s: Session, age: Seq<char>, file: Seq<char>, name: Seq<char>)
    ensures
        ({
            let d = screen::detail_pairs(s, age, file);
            &&& d.len() == 6
            &&& d[0] == (screen::key_text("id"@), s.id@)
            &&& d[1] == (screen::key_text("cwd"@), s.cwd@)
            &&& d[2] == (screen::key_text("model"@), s.model@)
            &&& d[3] == (screen::key_text("msgs"@), text::decimal(s.msgs as nat))
            &&& d[4] == (screen::key_text("modified"@), age)
            &&& d[5] == (screen::key_text("file"@), file)
        }),
        name.len() <= 9 ==> {
            let k = screen::key_text(name);
            &&& k.len() == 11
            &&& k.subrange(9 - name.len(), 9) == name
            &&& k[9] == ' ' && k[10] == ' '
            &&& forall|i: int| 0 <= i < 9 - name.len() ==> #[trigger] k[i] == ' '
        },
        screen::spaced(name).len() == name.len() + 2,
        screen::spaced(name).subrange(1, (name.len() + 1) as int) == name,
        screen::spaced(name)[0] == ' ' && screen::spaced(name).last() == ' ',
{
    reveal_strlit("  ");
    if name.len() <= 9 {
        let k = screen::key_text(name);
        assert(k.subrange(9 - name.len(), 9) =~= name);
    }
    assert(screen::spaced(name).subrange(1, (name.len() + 1) as int) =~= name);
}

/// What resuming does is told by the two harnesses: in its own a session is resumed as it is,
/// anywhere else it is converted.
pub proof fn lemma_described(own: Harness, h: Harness, brand: Brand)
    ensures
        own == h ==> resume::described(own, h, brand) == own.full_text(brand) + " -> "@
            + resume::bin_of(h, brand) + " "@ + resume::flag_of(h) + " (native)"@,
        own != h ==> resume::described(own, h, brand) == own.full_text(brand) + " -> "@
            + h.full_text(brand) + " (convert)"@,
        Harness::Factory.full_text(brand) == "factory"@,
        Harness::Pi.full_text(brand) == "pi"@,
        Harness::Omp.full_text(brand) == "omp"@,
        Harness::Claude.full_text(brand) == brand.name@,
        Harness::Codex.full_text(brand) == "codex"@,
{
    resume::lemma_native_text(h, brand);
    reveal_strlit(" ");
    assert(" "@ =~= seq![' ']);
    if own == h {
        assert(resume::described(own, h, brand) =~= own.full_text(brand) + " -> "@
            + resume::bin_of(h, brand) + " "@ + resume::flag_of(h) + " (native)"@);
    }
}

/// Sessions are listed from the latest to the earliest, those of one time in the order they came
/// in, each of them once.
pub proof fn lemma_newest(times: Seq<i128>, j: int, k: int)
    ensures
        recent::places(recent::latest_first(times)).len() == times.len(),
        0 <= j < k < times.len() ==> {
            let ps = recent::places(recent::latest_first(times));
            &&& 0 <= ps[j] < times.len()
            &&& 0 <= ps[k] < times.len()
            &&& times[ps[j]] >= times[ps[k]]
            &&& times[ps[j]] == times[ps[k]] ==> ps[j] < ps[k]
            &&& ps[j] != ps[k]
        },
        window::TRANSCRIPTS == 5,
{
    broadcast use vstd::seq_lib::group_to_multiset_ensures;

    recent::lemma_latest_first(times);
    let sorted = recent::latest_first(times);
    let all = Seq::new(times.len(), |i: int| (times[i] as int, i));
    if 0 <= j < k < times.len() {
        assert(sorted.contains(sorted[j]) && sorted.contains(sorted[k]));
        assert(all.to_multiset().count(sorted[j]) > 0 && all.to_multiset().count(sorted[k]) > 0);
        assert(all.contains(sorted[j]) && all.contains(sorted[k]));
        let a = choose|a: int| 0 <= a < all.len() && all[a] == sorted[j];
        let b = choose|b: int| 0 <= b < all.len() && all[b] == sorted[k];
        assert(sorted[j] == (times[a] as int, a));
        assert(sorted[k] == (times[b] as int, b));
    }
}

/// A text is wrapped line by line, at no fewer than ten columns; an empty line stays one.
pub proof fn lemma_wrapped(line: Seq<char>, rest: Seq<char>, width: nat)
    requires
        forall|k: int| 0 <= k < line.len() ==> #[trigger] line[k] != '\n',
    ensures
        width >= 10 ==> screen::wrapped(line, width) == screen::para_lines(line, width),
        width < 10 ==> screen::wrapped(line, width) == screen::para_lines(line, 10),
        screen::wrapped(line.push('\n') + rest, width) == screen::wrapped(line, width)
            + screen::wrapped(rest, width),
        screen::para_lines(Seq::empty(), width) == seq![Seq::<char>::empty()],
{
    let w = screen::wrap_width(width);
    phrases::lemma_pieces(line, '\n', rest);
    lemma_lines_add(seq![line], text::split_of(rest, '\n'), w);
    assert(seq![line].drop_last() =~= Seq::empty());
    assert(screen::all_lines(Seq::<Seq<char>>::empty(), w) == Seq::<Seq<char>>::empty());
    assert(screen::all_lines(seq![line], w) =~= screen::para_lines(line, w));
}

proof fn lemma_lines_add(a: Seq<Seq<char>>, b: Seq<Seq<char>>, width: nat)
    ensures
        screen::all_lines(a + b, width) == screen::all_lines(a, width) + screen::all_lines(
            b,
            width,
        ),
    decreases b.len(),
{
    if b.len() == 0 {
        assert(a + b =~= a);
        assert(screen::all_lines(a, width) + screen::all_lines(b, width) =~= screen::all_lines(
            a,
            width,
        ));
    } else {
        assert((a + b).drop_last() =~= a + b.drop_last());
        lemma_lines_add(a, b.drop_last(), width);
        assert(screen::all_lines(a + b, width) =~= screen::all_lines(a, width) + screen::all_lines(
            b,
            width,
        ));
    }
}

/// Words share a line while they fit: two words of a paragraph stand on one line, a blank between
/// them, exactly where that line is not too wide.
pub proof fn lemma_words_fit(a: Seq<char>, b: Seq<char>, width: nat)
    requires
        a.len() > 0 && b.len() > 0,
        forall|k: int| 0 <= k < a.len() ==> !text::white(#[trigger] a[k]),
        forall|k: int| 0 <= k < b.len() ==> !text::white(#[trigger] b[k]),
    ensures
        a.len() + 1 + b.len() <= width ==> screen::para_lines(a.push(' ') + b, width) == seq![
            a.push(' ') + b,
        ],
        a.len() + 1 + b.len() > width ==> screen::para_lines(a.push(' ') + b, width) == seq![a, b],
{
    phrases::lemma_words(a, ' ', b);
    phrases::lemma_words(b, ' ', a);
    reveal_strlit(" ");
    let words = text::words_of(a.push(' ') + b);
    assert(words =~= seq![a, b]);
    assert(words.drop_last() =~= seq![a]);
    assert(words.drop_last().drop_last() =~= Seq::empty());
    let none = screen::fill_lines(Seq::<Seq<char>>::empty(), width);
    assert(none.done =~= Seq::empty() && none.cur =~= Seq::empty());
    let one = screen::fill_lines(seq![a], width);
    assert(one.done =~= Seq::empty() && one.cur == a);
    assert(a + " "@ + b =~= a.push(' ') + b);
    let lines = screen::para_lines(a.push(' ') + b, width);
    if a.len() + 1 + b.len() <= width {
        assert(lines =~= seq![a.push(' ') + b]);
    } else {
        assert(lines =~= seq![a, b]);
    }
}

} // verus!
