use bodysnatcher::json::Json;
use bodysnatcher::model::{
    age_label, age_since, rel_age, render_content, slug_for, uuid, Brand, Harness, Store,
};
use std::path::{Path, PathBuf};
use std::time::SystemTime;

fn brand() -> Brand {
    Brand::of(&format!("{:?}", Harness::Claude).to_lowercase())
}

fn json(s: &str) -> Json {
    Json::parse(s).unwrap()
}

#[test]
fn renders_tool_blocks() {
    let c = json(
        r#"[
            {"type": "text", "text": "hello\n"},
            {"type": "thinking", "thinking": "hmm"},
            {"type": "tool_use", "name": "Read", "input": {"file_path": "x.rs"}},
            {"type": "tool_result", "tool_use_id": "t1", "content": "file contents"}
        ]"#,
    );
    let out = render_content(&c);
    assert!(out.contains("hello"));
    assert!(out.contains("[thinking]\nhmm\n[/thinking]"));
    assert!(out.contains("[tool Read]"));
    assert!(out.contains("[tool result t1]"));
    assert!(out.contains("file contents"));
}

#[test]
fn joins_blocks_without_double_newlines() {
    let c = json(r#"[{"type": "text", "text": "a"}, {"type": "text", "text": "b"}]"#);
    assert_eq!(render_content(&c), "a\nb");
    let d = json(
        r#"[
            {"type": "tool_use", "name": "Read", "input": {"file_path": "x.rs"}},
            {"type": "text", "text": "done"}
        ]"#,
    );
    assert_eq!(
        render_content(&d),
        "[tool Read] {\"file_path\":\"x.rs\"}\ndone"
    );
}

#[test]
fn renders_string_content() {
    assert_eq!(render_content(&Json::of_text("plain")), "plain");
}

#[test]
fn slugs_match_real_conventions() {
    let home = "/home/bryan";
    assert_eq!(
        slug_for(Harness::Factory, "/home/bryan/.pi", home),
        "-home-bryan-.pi"
    );
    assert_eq!(
        slug_for(Harness::Omp, "/attic/attic-inference-gateway", home),
        "-attic-attic-inference-gateway"
    );
    assert_eq!(
        slug_for(Harness::Pi, "/home/bryan/attic/testpoc", home),
        "--home-bryan-attic-testpoc--"
    );
}

#[test]
fn omp_slug_strips_home() {
    let home = "/home/u";
    assert_eq!(
        slug_for(Harness::Omp, &format!("{home}/Projects/x"), home),
        "-Projects-x"
    );
    assert_eq!(
        slug_for(Harness::Omp, &format!("{home}/.factory"), home),
        "-.factory"
    );
}

#[test]
fn omp_slug_keeps_what_is_not_below_home() {
    let slug = |cwd, home| slug_for(Harness::Omp, cwd, home);
    assert_eq!(slug("/home/user2/x", "/home/u"), "-home-user2-x");
    assert_eq!(slug("/home/u", "/home/u"), "-");
    assert_eq!(slug("/home/u/x", "/home/u/"), "-x");
    assert_eq!(slug("/x", "/"), "-x");
}

#[test]
fn age_is_told_at_a_given_moment() {
    let now = SystemTime::now();
    let then = now - std::time::Duration::from_secs(7300);
    assert_eq!(age_since(then, now), "2h ago");
    assert_eq!(age_since(now, then), "now");
}

#[test]
fn uuid_is_32_hex() {
    let id = uuid(&[
        0, 1, 0x0f, 0x10, 0xab, 0xff, 7, 8, 9, 10, 11, 12, 13, 14, 15, 16,
    ]);
    assert_eq!(id.len(), 32);
    assert!(id.chars().all(|c| c.is_ascii_hexdigit()));
    assert_eq!(id, "00010f10abff0708090a0b0c0d0e0f10");
}

#[test]
fn rel_age_formats() {
    let now = SystemTime::now();
    assert_eq!(
        rel_age(now - std::time::Duration::from_secs(30)),
        "just now"
    );
    assert_eq!(rel_age(now - std::time::Duration::from_secs(60)), "1m ago");
    assert_eq!(rel_age(now - std::time::Duration::from_secs(90)), "1m ago");
    assert_eq!(
        rel_age(now - std::time::Duration::from_secs(3600)),
        "1h ago"
    );
    assert_eq!(
        rel_age(now - std::time::Duration::from_secs(7200)),
        "2h ago"
    );
    assert_eq!(
        rel_age(now - std::time::Duration::from_secs(86400)),
        "1d ago"
    );
    assert_eq!(
        rel_age(now - std::time::Duration::from_secs(172800)),
        "2d ago"
    );
    assert_eq!(
        rel_age(now - std::time::Duration::from_secs(86400 * 30)),
        "4w ago"
    );
    assert_eq!(
        rel_age(now - std::time::Duration::from_secs(86400 * 365)),
        "1y ago"
    );
    assert_eq!(rel_age(now + std::time::Duration::from_secs(10)), "now");
}

#[test]
fn infers_harness_from_path() {
    assert_eq!(
        Harness::infer_from_path(Path::new("/home/b/.factory/sessions/x/y.jsonl"), &brand()),
        Some(Harness::Factory)
    );
    assert_eq!(
        Harness::infer_from_path(Path::new("/home/b/.omp/agent/sessions/x/y.jsonl"), &brand()),
        Some(Harness::Omp)
    );
    assert_eq!(
        Harness::infer_from_path(Path::new("/home/b/.pi/agent/sessions/x/y.jsonl"), &brand()),
        Some(Harness::Pi)
    );
    assert_eq!(Harness::infer_from_path(Path::new("/tmp/x.jsonl"), &brand()), None);
}

#[test]
fn harness_labels() {
    assert_eq!(Harness::Factory.label(), "FAC");
    assert_eq!(Harness::Pi.label(), "PI");
    assert_eq!(Harness::Omp.label(), "OMP");
    assert_eq!(Harness::Factory.full(&brand()), "factory");
    assert_eq!(Harness::Pi.full(&brand()), "pi");
    assert_eq!(Harness::Omp.full(&brand()), "omp");
}

#[test]
fn renders_image_block() {
    let out = render_content(&json(r#"[{"type": "image", "source": "x.png"}]"#));
    assert!(out.contains("[image]"));
}

#[test]
fn store_root_picks_harness_dir() {
    let store = Store {
        factory: PathBuf::from("/f"),
        pi: PathBuf::from("/p"),
        omp: PathBuf::from("/o"),
        claude: PathBuf::from("/cl"),
        codex: PathBuf::from("/cx"),
    };
    assert_eq!(store.root(Harness::Factory), &PathBuf::from("/f"));
    assert_eq!(store.root(Harness::Pi), &PathBuf::from("/p"));
    assert_eq!(store.root(Harness::Omp), &PathBuf::from("/o"));
    assert_eq!(store.root(Harness::Claude), &PathBuf::from("/cl"));
    assert_eq!(store.root(Harness::Codex), &PathBuf::from("/cx"));
}

#[test]
fn store_roots_lie_below_home() {
    let s = Store::new(&PathBuf::from("/home/u"), &brand());
    assert_eq!(s.factory, PathBuf::from("/home/u/.factory/sessions"));
    assert_eq!(s.pi, PathBuf::from("/home/u/.pi/agent/sessions"));
    assert_eq!(s.omp, PathBuf::from("/home/u/.omp/agent/sessions"));
    assert_eq!(s.claude, PathBuf::from(format!("/home/u/.{}/projects", brand().name)));
    assert_eq!(s.codex, PathBuf::from("/home/u/.codex/sessions"));
    let t = s.with_root(Harness::Omp, PathBuf::from("/elsewhere"));
    assert_eq!(t.omp, PathBuf::from("/elsewhere"));
    assert_eq!(t.pi, s.pi);
}

#[test]
fn infers_claude_and_codex_from_path() {
    assert_eq!(
        Harness::infer_from_path(Path::new(&format!("/home/b/.{}/projects/x/y.jsonl", brand().name)), &brand()),
        Some(Harness::Claude)
    );
    assert_eq!(
        Harness::infer_from_path(Path::new("/home/b/.CODEX/sessions/2026/08/16/r.jsonl"), &brand()),
        Some(Harness::Codex)
    );
    assert_eq!(Harness::infer_from_text("/x/.factory", &brand()), Some(Harness::Factory));
}

#[test]
fn all_harnesses_have_names() {
    let b = brand();
    let names: Vec<&str> = Harness::all().iter().map(|h| h.full(&b)).collect();
    assert_eq!(names, vec!["factory", "pi", "omp", &b.name, "codex"]);
    assert_eq!(Harness::Claude.label(), "CL");
    assert_eq!(Harness::Codex.label(), "CX");
}

#[test]
fn claude_slug_dashes_every_other_character() {
    assert_eq!(
        slug_for(Harness::Claude, "/home/u/my_app.v2", "/home/u"),
        "-home-u-my-app-v2"
    );
    assert_eq!(slug_for(Harness::Codex, "/home/u/app", "/home/u"), "");
    assert_eq!(slug_for(Harness::Omp, "/x/y", ""), "-x-y");
    assert_eq!(slug_for(Harness::Pi, "//a/b", ""), "--a-b--");
}

#[test]
fn ages_change_at_their_bounds() {
    assert_eq!(age_label(None), "now");
    assert_eq!(age_label(Some(59)), "just now");
    assert_eq!(age_label(Some(3599)), "59m ago");
    assert_eq!(age_label(Some(86399)), "23h ago");
    assert_eq!(age_label(Some(86400 * 30 - 1)), "29d ago");
    assert_eq!(age_label(Some(86400 * 365 - 1)), "52w ago");
    assert_eq!(age_label(Some(86400 * 730)), "2y ago");
}

#[test]
fn renders_nested_results_and_other_values() {
    let c = json(
        r#"[
            {"type":"toolResult","toolCallId":"t","content":[{"type":"text","text":"in"}]},
            {"type":"toolCall","arguments":[1,2]},
            {"type":"text","text":[{"type":"text","text":"deep"}]},
            7, {"type":"unknown"}
        ]"#,
    );
    assert_eq!(
        render_content(&c),
        "[tool result t]\nin[tool call] [1,2]\ndeep"
    );
    assert_eq!(render_content(&json("12.5")), "12.5");
    assert_eq!(render_content(&json("null")), "null");
    assert_eq!(render_content(&json(r#"{"b":1,"a":[]}"#)), r#"{"a":[],"b":1}"#);
}

#[test]
fn documents_print_as_they_read() {
    let text = r#"{"a":[1,-2,3.25,"q\"\\\n\u0007é"],"b":{"c":null,"d":true}}"#;
    let j = json(text);
    assert_eq!(j.print(), text);
    assert_eq!(json(&j.print()), j);
    assert_eq!(json(r#"{"b":1,"a":2,"b":3}"#).print(), r#"{"a":2,"b":3}"#);
    assert!(Json::parse("{").is_none());
    assert!(Json::parse("1 2").is_none());
}

#[test]
fn fields_are_found_by_key() {
    let j = Json::object()
        .with("b", Json::of_text("x"))
        .with("a", Json::of_option(&None))
        .with("b", Json::of_text("y"));
    assert_eq!(j.string("b"), "y");
    assert_eq!(j.text("a"), None);
    assert_eq!(j.get("a"), Some(&Json::Null));
    assert_eq!(j.get("c"), None);
    assert_eq!(Json::list_of(j).print(), r#"[{"a":null,"b":"y"}]"#);
}

#[test]
fn deep_documents_are_refused() {
    let deep = |n: usize| format!("{}{}", "[".repeat(n), "]".repeat(n));
    assert!(Json::parse(&deep(127)).is_some());
    assert!(Json::parse(&deep(128)).is_none());
}

#[test]
fn brand_words_follow_from_the_name() {
    let b = Brand::of("cl");
    assert_eq!((b.name.as_str(), b.title.as_str()), ("cl", "Cl Code"));
    assert_eq!(Brand::of("9x").title, "9x Code");
}
