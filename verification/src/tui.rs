//! The session picker: keys, selection, search and target.

use crate::model::{Harness, Session};
use crate::resume::Target;
use crate::text;
use vstd::prelude::*;

verus! {

/// A colour of the terminal.
#[derive(Clone, Copy, PartialEq, Eq, Debug, Structural)]
pub enum Color {
    Magenta,
    Cyan,
    Green,
    LightRed,
    Blue,
    Yellow,
}

pub open spec fn color_of(h: Harness) -> Color {
    match h {
        Harness::Factory => Color::Magenta,
        Harness::Pi => Color::Cyan,
        Harness::Omp => Color::Green,
        Harness::Claude => Color::LightRed,
        Harness::Codex => Color::Blue,
    }
}

pub open spec fn color_of_target(t: Target) -> Color {
    match t {
        Target::Auto => Color::Yellow,
        Target::Factory => Color::Magenta,
        Target::Pi => Color::Cyan,
        Target::Omp => Color::Green,
        Target::Claude => Color::LightRed,
        Target::Codex => Color::Blue,
    }
}

pub fn harness_color(h: Harness) -> (r: Color)
    ensures
        r == color_of(h),
{
    match h {
        Harness::Factory => Color::Magenta,
        Harness::Pi => Color::Cyan,
        Harness::Omp => Color::Green,
        Harness::Claude => Color::LightRed,
        Harness::Codex => Color::Blue,
    }
}

pub fn target_color(t: Target) -> (r: Color)
    ensures
        r == color_of_target(t),
{
    match t {
        Target::Auto => Color::Yellow,
        Target::Factory => Color::Magenta,
        Target::Pi => Color::Cyan,
        Target::Omp => Color::Green,
        Target::Claude => Color::LightRed,
        Target::Codex => Color::Blue,
    }
}

/// A target that names a harness has that harness' colour, and the automatic one has its own.
pub proof fn lemma_target_color(t: Target, own: Harness)
    ensures
        t != Target::Auto ==> color_of_target(t) == color_of(t.harness_for(own)),
        t == Target::Auto ==> color_of_target(t) != color_of(own),
{
}

/// A key, as far as the picker tells keys apart.
#[derive(Clone, Copy, PartialEq, Eq, Debug, Structural)]
pub enum KeyCode {
    Char(char),
    Esc,
    Up,
    Down,
    Tab,
    Backspace,
    Enter,
    Other,
}

/// The modifiers held with a key.
#[derive(Clone, Copy, PartialEq, Eq, Debug, Structural)]
pub struct KeyModifiers {
    pub control: bool,
    /// Any modifier but control.
    pub other: bool,
}

#[derive(Clone, Copy, PartialEq, Eq, Debug, Structural)]
pub enum KeyEventKind {
    Press,
    Repeat,
    Release,
}

/// A key press.
#[derive(Clone, Copy, PartialEq, Eq, Debug, Structural)]
pub struct KeyEvent {
    pub code: KeyCode,
    pub modifiers: KeyModifiers,
}

/// What a key press asks for.
#[derive(Clone, Copy, Debug, PartialEq, Eq, Structural)]
pub enum Action {
    Quit,
    Up,
    Down,
    First,
    Last,
    CycleTarget,
    /// Start searching.
    Search,
    /// Stop searching.
    Leave,
    PopFilter,
    ClearFilter,
    Push(char),
    Resume,
    Nothing,
}

impl KeyModifiers {
    /// Control and nothing else.
    pub open spec fn only_control(self) -> bool {
        self.control && !self.other
    }

    pub open spec fn none_held(self) -> bool {
        !self.control && !self.other
    }
}

/// What a key means while not searching.
pub open spec fn browse_action(key: KeyEvent) -> Action {
    let m = key.modifiers;
    match key.code {
        KeyCode::Char(c) => if (c == 'c' && m.only_control()) || c == 'q' {
            Action::Quit
        } else if c == 'k' {
            Action::Up
        } else if c == 'j' {
            Action::Down
        } else if c == 'g' && m.none_held() {
            Action::First
        } else if c == 'G' {
            Action::Last
        } else if c == 'u' && m.only_control() {
            Action::ClearFilter
        } else if m.control {
            Action::Nothing
        } else if c == '/' {
            Action::Search
        } else {
            Action::Push(c)
        },
        KeyCode::Esc => Action::Quit,
        KeyCode::Up => Action::Up,
        KeyCode::Down => Action::Down,
        KeyCode::Tab => Action::CycleTarget,
        KeyCode::Backspace => Action::PopFilter,
        KeyCode::Enter => Action::Resume,
        KeyCode::Other => Action::Nothing,
    }
}

/// What a key means while searching: every letter is typed.
pub open spec fn typing_action(key: KeyEvent) -> Action {
    let m = key.modifiers;
    match key.code {
        KeyCode::Char(c) => if !m.control {
            Action::Push(c)
        } else if c == 'c' && m.only_control() {
            Action::Quit
        } else if c == 'k' {
            Action::Up
        } else if c == 'j' {
            Action::Down
        } else if c == 'u' && m.only_control() {
            Action::ClearFilter
        } else {
            Action::Nothing
        },
        KeyCode::Esc => Action::Leave,
        KeyCode::Up => Action::Up,
        KeyCode::Down => Action::Down,
        KeyCode::Tab => Action::CycleTarget,
        KeyCode::Backspace => Action::PopFilter,
        KeyCode::Enter => Action::Resume,
        KeyCode::Other => Action::Nothing,
    }
}

/// Key press -> abstract action, while not searching.
pub fn key_action(key: &KeyEvent) -> (r: Action)
    ensures
        r == browse_action(*key),
{
    let control = key.modifiers.control;
    let other = key.modifiers.other;
    match key.code {
        KeyCode::Char(c) => if (c == 'c' && control && !other) || c == 'q' {
            Action::Quit
        } else if c == 'k' {
            Action::Up
        } else if c == 'j' {
            Action::Down
        } else if c == 'g' && !control && !other {
            Action::First
        } else if c == 'G' {
            Action::Last
        } else if c == 'u' && control && !other {
            Action::ClearFilter
        } else if control {
            Action::Nothing
        } else if c == '/' {
            Action::Search
        } else {
            Action::Push(c)
        },
        KeyCode::Esc => Action::Quit,
        KeyCode::Up => Action::Up,
        KeyCode::Down => Action::Down,
        KeyCode::Tab => Action::CycleTarget,
        KeyCode::Backspace => Action::PopFilter,
        KeyCode::Enter => Action::Resume,
        KeyCode::Other => Action::Nothing,
    }
}

/// Key press -> abstract action, while searching.
pub fn search_action(key: &KeyEvent) -> (r: Action)
    ensures
        r == typing_action(*key),
{
    let control = key.modifiers.control;
    let other = key.modifiers.other;
    match key.code {
        KeyCode::Char(c) => if !control {
            Action::Push(c)
        } else if c == 'c' && !other {
            Action::Quit
        } else if c == 'k' {
            Action::Up
        } else if c == 'j' {
            Action::Down
        } else if c == 'u' && !other {
            Action::ClearFilter
        } else {
            Action::Nothing
        },
        KeyCode::Esc => Action::Leave,
        KeyCode::Up => Action::Up,
        KeyCode::Down => Action::Down,
        KeyCode::Tab => Action::CycleTarget,
        KeyCode::Backspace => Action::PopFilter,
        KeyCode::Enter => Action::Resume,
        KeyCode::Other => Action::Nothing,
    }
}

/// While searching, a letter held with no control key is typed, whatever it means otherwise.
pub proof fn lemma_letters_typed(c: char, other: bool)
    ensures
        typing_action(
            KeyEvent { code: KeyCode::Char(c), modifiers: KeyModifiers { control: false, other } },
        ) == Action::Push(c),
{
}

pub fn move_up(i: usize) -> (r: usize)
    ensures
        r == if i > 0 {
            i - 1
        } else {
            0
        },
{
    if i > 0 {
        i - 1
    } else {
        0
    }
}

/// Clamp a down-move to the last visible row.
pub fn move_down(i: usize, len: usize) -> (r: usize)
    requires
        len >= 1,
        i < usize::MAX,
    ensures
        r == if i + 1 < len {
            i + 1
        } else {
            len - 1
        },
{
    if i + 1 < len {
        i + 1
    } else {
        len - 1
    }
}

/// The selection within what is visible.
pub open spec fn clamped(selected: Option<usize>, visible: usize) -> Option<usize> {
    if visible == 0 {
        None
    } else {
        match selected {
            Some(i) => if i < visible {
                Some(i)
            } else {
                Some((visible - 1) as usize)
            },
            None => Some(0),
        }
    }
}

/// Clamp the selected index to the last visible row; None when nothing visible.
pub fn clamp_selection(selected: Option<usize>, visible_len: usize) -> (r: Option<usize>)
    ensures
        r == clamped(selected, visible_len),
{
    if visible_len == 0 {
        None
    } else {
        match selected {
            Some(i) => if i < visible_len {
                Some(i)
            } else {
                Some(visible_len - 1)
            },
            None => Some(0),
        }
    }
}

/// True when a poll found nothing ready (so we redraw instead of blocking).
pub fn no_event(ready: bool) -> (r: bool)
    ensures
        r == !ready,
{
    !ready
}

/// True when a key event should be skipped (not a press).
pub fn skip_non_press(kind: KeyEventKind) -> (r: bool)
    ensures
        r == (kind != KeyEventKind::Press),
{
    match kind {
        KeyEventKind::Press => false,
        _ => true,
    }
}

/// Width for the target column: the rendered line plus one cell of padding.
pub fn target_col_width(line_width: u16) -> (r: u16)
    requires
        line_width < u16::MAX,
    ensures
        r == line_width + 1,
{
    line_width + 1
}

/// The state of the picker.
pub struct Picker {
    pub selected: Option<usize>,
    pub filter: String,
    pub target: Target,
    pub searching: bool,
}

/// What a state of the picker is.
pub ghost struct PickerV {
    pub selected: Option<usize>,
    pub filter: Seq<char>,
    pub target: Target,
    pub searching: bool,
}

impl View for Picker {
    type V = PickerV;

    open spec fn view(&self) -> PickerV {
        PickerV {
            selected: self.selected,
            filter: self.filter@,
            target: self.target,
            searching: self.searching,
        }
    }
}

/// What is to be done after a key press.
#[derive(Clone, Copy, PartialEq, Eq, Debug, Structural)]
pub enum Effect {
    /// Wait for the next key.
    Stay,
    Quit,
    /// Resume the session at that place of the visible ones.
    Resume(usize),
}

/// The state after an action, with that many sessions visible.
pub open spec fn acted(p: PickerV, a: Action, visible: usize) -> (PickerV, Effect) {
    let p = PickerV { selected: clamped(p.selected, visible), ..p };
    match a {
        Action::Quit => (p, Effect::Quit),
        Action::Up => (
            PickerV {
                selected: match p.selected {
                    Some(i) => if i > 0 {
                        Some((i - 1) as usize)
                    } else {
                        Some(0)
                    },
                    None => Some(0),
                },
                ..p
            },
            Effect::Stay,
        ),
        Action::Down => (
            PickerV {
                selected: match p.selected {
                    Some(i) => if i + 1 < visible {
                        Some((i + 1) as usize)
                    } else {
                        Some((visible - 1) as usize)
                    },
                    None => Some(0),
                },
                ..p
            },
            Effect::Stay,
        ),
        Action::First => (PickerV { selected: Some(0), ..p }, Effect::Stay),
        Action::Last => (
            PickerV {
                selected: if visible > 0 {
                    Some((visible - 1) as usize)
                } else {
                    Some(0)
                },
                ..p
            },
            Effect::Stay,
        ),
        Action::CycleTarget => (PickerV { target: p.target.after(), ..p }, Effect::Stay),
        Action::Search => (PickerV { searching: true, ..p }, Effect::Stay),
        Action::Leave => (PickerV { searching: false, ..p }, Effect::Stay),
        Action::PopFilter => (
            PickerV {
                filter: if p.filter.len() > 0 {
                    p.filter.drop_last()
                } else {
                    p.filter
                },
                ..p
            },
            Effect::Stay,
        ),
        Action::ClearFilter => (PickerV { filter: Seq::empty(), ..p }, Effect::Stay),
        Action::Push(c) => (
            PickerV { filter: p.filter.push(c), searching: true, ..p },
            Effect::Stay,
        ),
        Action::Resume => match p.selected {
            Some(i) => (p, Effect::Resume(i)),
            None => (p, Effect::Stay),
        },
        Action::Nothing => (p, Effect::Stay),
    }
}

/// The state after a key press, with that many sessions visible.
pub open spec fn pressed(p: PickerV, key: KeyEvent, visible: usize) -> (PickerV, Effect) {
    acted(
        p,
        if p.searching {
            typing_action(key)
        } else {
            browse_action(key)
        },
        visible,
    )
}

/// The text without its last character.
fn shorter(s: &str) -> (r: String)
    ensures
        r@ == if s@.len() > 0 {
            s@.drop_last()
        } else {
            s@
        },
{
    let v = text::chars_of(s);
    if v.len() == 0 {
        return s.to_owned();
    }
    proof {
        assert(v@.subrange(0, v@.len() - 1) =~= v@.drop_last());
    }
    text::slice(&v, 0, v.len() - 1)
}

/// The picker at the start: the first session selected, nothing searched for.
pub fn start() -> (r: Picker)
    ensures
        r@ == (PickerV {
            selected: Some(0),
            filter: Seq::empty(),
            target: Target::Auto,
            searching: false,
        }),
{
    Picker {
        selected: Some(0),
        filter: String::new(),
        target: Target::Auto,
        searching: false,
    }
}

/// Handles one key press, with that many sessions visible.
pub fn press(p: Picker, key: &KeyEvent, visible: usize) -> (r: (Picker, Effect))
    ensures
        (r.0@, r.1) == pressed(p@, *key, visible),
{
    let action = if p.searching {
        search_action(key)
    } else {
        key_action(key)
    };
    let mut p = p;
    p.selected = clamp_selection(p.selected, visible);
    let mut effect = Effect::Stay;
    match action {
        Action::Quit => {
            effect = Effect::Quit;
        },
        Action::Up => {
            p.selected = match p.selected {
                Some(i) => Some(move_up(i)),
                None => Some(0),
            };
        },
        Action::Down => {
            p.selected = match p.selected {
                Some(i) => Some(move_down(i, visible)),
                None => Some(0),
            };
        },
        Action::First => {
            p.selected = Some(0);
        },
        Action::Last => {
            p.selected = Some(move_up(visible));
        },
        Action::CycleTarget => {
            p.target = p.target.next();
        },
        Action::Search => {
            p.searching = true;
        },
        Action::Leave => {
            p.searching = false;
        },
        Action::PopFilter => {
            p.filter = shorter(p.filter.as_str());
        },
        Action::ClearFilter => {
            p.filter = String::new();
        },
        Action::Push(c) => {
            p.filter.push(c);
            p.searching = true;
        },
        Action::Resume => match p.selected {
            Some(i) => {
                effect = Effect::Resume(i);
            },
            None => {},
        },
        Action::Nothing => {},
    }
    (p, effect)
}

/// Whatever key is pressed, only a session that is visible is resumed, and moving stays within
/// what is visible.
pub proof fn lemma_pressed_visible(p: PickerV, key: KeyEvent, visible: usize)
    ensures
        pressed(p, key, visible).1 matches Effect::Resume(i) ==> i < visible,
        visible > 0 ==> (pressed(p, key, visible).0.selected matches Some(i) && i < visible),
{
}

/// Whether a session matches a search, everything in lower case.
pub open spec fn hit(title: Seq<char>, cwd: Seq<char>, id: Seq<char>, f: Seq<char>) -> bool {
    f.len() == 0 || text::within(title, f) || text::within(cwd, f) || text::within(id, f)
}

/// Whether a session matches a search, upper and lower case alike; an empty search matches all.
pub open spec fn matching(s: Session, filter: Seq<char>) -> bool {
    filter.len() == 0 || hit(
        text::lowercase(s.title@),
        text::lowercase(s.cwd@),
        text::lowercase(s.id@),
        text::lowercase(filter),
    )
}

/// Whether a session matches a search, everything given in lower case.
pub fn is_hit(title: &str, cwd: &str, id: &str, f: &str) -> (r: bool)
    ensures
        r == hit(title@, cwd@, id@, f@),
{
    f.is_empty() || text::contains(title, f) || text::contains(cwd, f) || text::contains(id, f)
}

fn is_match(s: &Session, lower: &str) -> (r: bool)
    ensures
        r == hit(
            text::lowercase(s.title@),
            text::lowercase(s.cwd@),
            text::lowercase(s.id@),
            lower@,
        ),
{
    let title = text::to_lowercase(s.title.as_str());
    let cwd = text::to_lowercase(s.cwd.as_str());
    let id = text::to_lowercase(s.id.as_str());
    is_hit(title.as_str(), cwd.as_str(), id.as_str(), lower)
}

/// The places of the sessions that match a search, in order.
pub fn filter_indices(sessions: &Vec<Session>, filter: &str) -> (r: Vec<usize>)
    ensures
        forall|k: int| 0 <= k < r@.len() ==> #[trigger] r@[k] < sessions@.len() && matching(
            sessions@[r@[k] as int],
            filter@,
        ),
        forall|j: int, k: int| 0 <= j < k < r@.len() ==> #[trigger] r@[j] < #[trigger] r@[k],
        forall|i: usize|
            i < sessions@.len() && matching(#[trigger] sessions@[i as int], filter@)
                ==> r@.contains(i),
        filter@.len() == 0 ==> r@ == Seq::new(sessions@.len(), |i: int| i as usize),
{
    let all = filter.is_empty();
    let f = text::to_lowercase(filter);
    let mut r: Vec<usize> = Vec::new();
    let mut i: usize = 0;
    while i < sessions.len()
        invariant
            all == (filter@.len() == 0),
            f@ == text::lowercase(filter@),
            i <= sessions@.len(),
            all ==> r@ == Seq::new(i as nat, |k: int| k as usize),
            forall|k: int| 0 <= k < r@.len() ==> #[trigger] r@[k] < i && matching(
                sessions@[r@[k] as int],
                filter@,
            ),
            forall|j: int, k: int| 0 <= j < k < r@.len() ==> #[trigger] r@[j] < #[trigger] r@[k],
            forall|j: usize|
                j < i && matching(#[trigger] sessions@[j as int], filter@) ==> r@.contains(j),
        decreases sessions@.len() - i,
    {
        if all || is_match(&sessions[i], f.as_str()) {
            let ghost before = r@;
            r.push(i);
            proof {
                assert(r@[before.len() as int] == i);
                assert forall|j: usize|
                    j < i + 1 && matching(#[trigger] sessions@[j as int], filter@) implies r@.contains(
                    j,
                ) by {
                    if j < i {
                        assert(before.contains(j));
                        let k = choose|k: int| 0 <= k < before.len() && before[k] == j;
                        assert(r@[k] == j);
                    }
                }
            }
        }
        i = i + 1;
    }
    r
}

} // verus!
