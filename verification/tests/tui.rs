use bodysnatcher::model::{Brand, Harness, Session};
use bodysnatcher::recent::newest_first;
use bodysnatcher::resume::Target;
use bodysnatcher::screen::{
    age_of, count_text, details, resuming_text, row, search_text, status_text, status_tone,
    target_note, target_text, wrap, Tone,
};
use bodysnatcher::tui::{
    clamp_selection, filter_indices, harness_color, key_action, move_down, move_up, no_event,
    press, search_action, skip_non_press, start, target_col_width, target_color, Action, Color,
    Effect, KeyCode, KeyEvent, KeyEventKind, KeyModifiers,
};

const NONE: KeyModifiers = KeyModifiers {
    control: false,
    other: false,
};
const CONTROL: KeyModifiers = KeyModifiers {
    control: true,
    other: false,
};

fn key(code: KeyCode, modifiers: KeyModifiers) -> KeyEvent {
    KeyEvent { code, modifiers }
}

fn mk(title: &str, cwd: &str, id: &str) -> Session {
    Session {
        harness: Harness::Omp,
        path: "/tmp/x".into(),
        id: id.into(),
        title: title.into(),
        cwd: cwd.into(),
        model: String::new(),
        msgs: 0,
        preview: String::new(),
        modified: None,
    }
}

#[test]
fn key_actions_map() {
    let k = key;
    let n = NONE;
    let ctrl = CONTROL;
    assert_eq!(key_action(&k(KeyCode::Char('q'), n)), Action::Quit);
    assert_eq!(key_action(&k(KeyCode::Esc, n)), Action::Quit);
    assert_eq!(key_action(&k(KeyCode::Char('c'), ctrl)), Action::Quit);
    assert_eq!(key_action(&k(KeyCode::Up, n)), Action::Up);
    assert_eq!(key_action(&k(KeyCode::Char('k'), n)), Action::Up);
    assert_eq!(key_action(&k(KeyCode::Down, n)), Action::Down);
    assert_eq!(key_action(&k(KeyCode::Char('j'), n)), Action::Down);
    assert_eq!(key_action(&k(KeyCode::Char('g'), n)), Action::First);
    assert_eq!(key_action(&k(KeyCode::Char('G'), n)), Action::Last);
    assert_eq!(key_action(&k(KeyCode::Tab, n)), Action::CycleTarget);
    assert_eq!(key_action(&k(KeyCode::Backspace, n)), Action::PopFilter);
    assert_eq!(
        key_action(&k(KeyCode::Char('u'), ctrl)),
        Action::ClearFilter
    );
    assert_eq!(key_action(&k(KeyCode::Char('x'), n)), Action::Push('x'));
    assert_eq!(key_action(&k(KeyCode::Enter, n)), Action::Resume);
    // guards: ctrl-g is neither First (guard fails) nor Push (ctrl held)
    assert_eq!(key_action(&k(KeyCode::Char('g'), ctrl)), Action::Nothing);
    assert_eq!(key_action(&k(KeyCode::Char('x'), ctrl)), Action::Nothing);
    assert_eq!(key_action(&k(KeyCode::Other, n)), Action::Nothing);
}

#[test]
fn move_helpers_clamp() {
    assert_eq!(move_up(0), 0);
    assert_eq!(move_up(3), 2);
    assert_eq!(move_down(0, 5), 1);
    assert_eq!(move_down(4, 5), 4);
    assert_eq!(move_down(0, 1), 0);
}

#[test]
fn clamp_selection_bounds() {
    assert_eq!(clamp_selection(None, 0), None);
    assert_eq!(clamp_selection(Some(3), 0), None);
    assert_eq!(clamp_selection(None, 3), Some(0));
    assert_eq!(clamp_selection(Some(0), 3), Some(0));
    assert_eq!(clamp_selection(Some(2), 3), Some(2));
    assert_eq!(clamp_selection(Some(9), 3), Some(2));
}

#[test]
fn no_event_inverts_poll() {
    assert!(no_event(false));
    assert!(!no_event(true));
}

#[test]
fn skip_non_press_flags_kinds() {
    assert!(!skip_non_press(KeyEventKind::Press));
    assert!(skip_non_press(KeyEventKind::Release));
    assert!(skip_non_press(KeyEventKind::Repeat));
}

#[test]
fn target_col_width_adds_padding() {
    assert_eq!(target_col_width(0), 1);
    assert_eq!(target_col_width(10), 11);
}

#[test]
fn colors_map_per_harness() {
    assert_eq!(harness_color(Harness::Factory), Color::Magenta);
    assert_eq!(harness_color(Harness::Pi), Color::Cyan);
    assert_eq!(harness_color(Harness::Omp), Color::Green);
    assert_eq!(harness_color(Harness::Claude), Color::LightRed);
    assert_eq!(harness_color(Harness::Codex), Color::Blue);
    assert_eq!(target_color(Target::Auto), Color::Yellow);
    assert_eq!(target_color(Target::Factory), Color::Magenta);
    assert_eq!(target_color(Target::Pi), Color::Cyan);
    assert_eq!(target_color(Target::Omp), Color::Green);
    assert_eq!(target_color(Target::Claude), Color::LightRed);
    assert_eq!(target_color(Target::Codex), Color::Blue);
}

#[test]
fn wraps_long_lines() {
    // width clamps to 10; a 10-char line fits, an 11-char line wraps
    assert_eq!(
        wrap("one two three four", 9),
        vec!["one two".to_string(), "three four".to_string()]
    );
    assert_eq!(
        wrap("aaaaa bbbbb ccccc", 10),
        vec![
            "aaaaa".to_string(),
            "bbbbb".to_string(),
            "ccccc".to_string()
        ]
    );
    assert_eq!(
        wrap("a\n\nb", 20),
        vec!["a".to_string(), "".to_string(), "b".to_string()]
    );
}

#[test]
fn filter_matches_title_cwd_id() {
    let sessions = vec![
        mk("Fix auth", "/home/u/app", "aaa"),
        mk("Write parser", "/home/u/lib", "bbb"),
    ];
    assert_eq!(filter_indices(&sessions, ""), vec![0, 1]);
    assert_eq!(filter_indices(&sessions, "auth"), vec![0]);
    assert_eq!(filter_indices(&sessions, "/lib"), vec![1]);
    assert_eq!(filter_indices(&sessions, "bbb"), vec![1]);
    assert_eq!(filter_indices(&sessions, "zzz"), Vec::<usize>::new());
    assert_eq!(filter_indices(&sessions, "FIX"), vec![0]);
}

#[test]
fn slash_starts_a_search() {
    assert_eq!(key_action(&key(KeyCode::Char('/'), NONE)), Action::Search);
    assert_eq!(key_action(&key(KeyCode::Char('j'), CONTROL)), Action::Down);
    assert_eq!(key_action(&key(KeyCode::Char('k'), CONTROL)), Action::Up);
}

#[test]
fn searching_types_every_letter() {
    for c in ['q', 'j', 'k', 'g', 'G', '/', 'x'] {
        assert_eq!(
            search_action(&key(KeyCode::Char(c), NONE)),
            Action::Push(c)
        );
    }
    assert_eq!(search_action(&key(KeyCode::Esc, NONE)), Action::Leave);
    assert_eq!(
        search_action(&key(KeyCode::Char('c'), CONTROL)),
        Action::Quit
    );
    assert_eq!(
        search_action(&key(KeyCode::Char('u'), CONTROL)),
        Action::ClearFilter
    );
    assert_eq!(
        search_action(&key(KeyCode::Char('j'), CONTROL)),
        Action::Down
    );
    assert_eq!(search_action(&key(KeyCode::Enter, NONE)), Action::Resume);
}

#[test]
fn picker_runs_through_a_search() {
    let p = start();
    assert_eq!(p.selected, Some(0));
    let (p, e) = press(p, &key(KeyCode::Down, NONE), 3);
    assert_eq!((p.selected, e), (Some(1), Effect::Stay));
    let (p, _) = press(p, &key(KeyCode::Char('/'), NONE), 3);
    assert!(p.searching);
    let (p, _) = press(p, &key(KeyCode::Char('q'), NONE), 3);
    assert_eq!(p.filter, "q");
    let (p, _) = press(p, &key(KeyCode::Backspace, NONE), 1);
    assert_eq!(p.filter, "");
    let (p, e) = press(p, &key(KeyCode::Esc, NONE), 3);
    assert!(!p.searching);
    assert_eq!(e, Effect::Stay);
    let (p, _) = press(p, &key(KeyCode::Char('G'), NONE), 3);
    assert_eq!(p.selected, Some(2));
    let (p, _) = press(p, &key(KeyCode::Tab, NONE), 3);
    assert_eq!(p.target, Target::Codex);
    let (p, e) = press(p, &key(KeyCode::Enter, NONE), 3);
    assert_eq!(e, Effect::Resume(2));
    let (p, e) = press(p, &key(KeyCode::Enter, NONE), 0);
    assert_eq!(e, Effect::Stay);
    let (_, e) = press(p, &key(KeyCode::Char('q'), NONE), 3);
    assert_eq!(e, Effect::Quit);
}

#[test]
fn other_letters_search_at_once() {
    let (p, _) = press(start(), &key(KeyCode::Char('x'), NONE), 2);
    assert_eq!(p.filter, "x");
    assert!(p.searching);
    let (p, _) = press(p, &key(KeyCode::Char('u'), CONTROL), 2);
    assert_eq!(p.filter, "");
}

#[test]
fn newest_sessions_come_first() {
    assert_eq!(newest_first(&vec![5, 9, 5, -1]), vec![1, 0, 2, 3]);
    assert_eq!(newest_first(&Vec::new()), Vec::<usize>::new());
}

#[test]
fn wrapped_lines_keep_words_and_width() {
    assert_eq!(
        wrap("extraordinarily long", 10),
        vec!["extraordinarily".to_string(), "long".to_string()]
    );
    assert_eq!(wrap("   ", 10), Vec::<String>::new());
    assert_eq!(wrap("", 10), vec!["".to_string()]);
}

#[test]
fn screen_texts_read_as_expected() {
    let b = Brand {
        name: "cl".to_string(),
        title: "CL Code".to_string(),
    };
    let s = mk("Fix auth", "/home/u/app", "aaa");
    assert_eq!(age_of(&s), "?");
    let r = row(&s, "2d ago");
    assert_eq!(r.label, " OMP ");
    assert_eq!(r.color, Color::Green);
    assert_eq!(r.title, "Fix auth");
    assert_eq!(r.age, "  2d ago");
    assert_eq!(count_text(12), "  12 sessions");
    assert_eq!(search_text(""), "▏");
    assert_eq!(search_text("ab"), "ab");
    assert_eq!(target_text(Target::Claude), " TARGET: CL ");
    assert_eq!(target_note(Target::Auto, &b), " (native harness)");
    assert_eq!(
        resuming_text(&s, Target::Pi, &b),
        "resuming: omp -> pi (convert) …"
    );
    assert_eq!(status_text("busy", None, Target::Auto, &b), " busy ");
    assert_eq!(
        status_text("", Some(&s), Target::Auto, &b),
        "omp -> omp --resume (native)"
    );
    assert_eq!(status_text("", None, Target::Auto, &b), "");
    assert_eq!(status_tone("x", true), Tone::Error);
    assert_eq!(status_tone("x", false), Tone::Busy);
    assert_eq!(status_tone("", false), Tone::Quiet);
}

#[test]
fn details_list_the_session() {
    let s = mk("Fix auth", "/home/u/app", "aaa");
    let d = details(&s, "now", "/tmp/x");
    let lines: Vec<String> = d.iter().map(|(k, v)| format!("{k}{v}")).collect();
    assert_eq!(
        lines,
        vec![
            "       id  aaa",
            "      cwd  /home/u/app",
            "    model  ",
            "     msgs  0",
            " modified  now",
            "     file  /tmp/x"
        ]
    );
}
