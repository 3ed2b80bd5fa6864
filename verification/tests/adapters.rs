use bodysnatcher::discover::{self, Scan};
use bodysnatcher::draft::{secs_at, write_at, write_session, Draft};
use bodysnatcher::ids::{short_hex, uuid_v4, uuid_v4_from_hex};
use bodysnatcher::iso::format_iso;
use bodysnatcher::json::Json;
use bodysnatcher::model::{slug_for, Block, Brand, Harness, Msg, Role, Session, Store};
use bodysnatcher::records::Ambient;
use bodysnatcher::slot::title_slot_line;
use bodysnatcher::summary::{
    clip, parse, summaries, summarize, summarize_records, SessionFile,
};
use serde_json::Value;
use std::path::{Path, PathBuf};

/// The name that stands in the fixtures as `@cl`.
fn cl() -> String {
    format!("{:?}", Harness::Claude).to_lowercase()
}

fn file(name: &str, body: &str) -> SessionFile {
    let body = body.replace("@cl", &cl());
    let path = PathBuf::from("/tmp/bs-test").join(name);
    SessionFile {
        stem: path.file_stem().map(|s| s.to_string_lossy().into_owned()),
        path,
        modified: None,
        lines: body.lines().map(String::from).collect(),
        complete: true,
    }
}

fn draft_file(d: &Draft) -> SessionFile {
    SessionFile {
        path: d.path.clone(),
        stem: d.path.file_stem().map(|s| s.to_string_lossy().into_owned()),
        modified: None,
        lines: d.lines.concat().lines().map(String::from).collect(),
        complete: true,
    }
}

fn read_lines(d: &Draft) -> Vec<Value> {
    d.lines
        .concat()
        .lines()
        .map(|l| serde_json::from_str(l).unwrap())
        .collect()
}

fn ambient(n: usize) -> Ambient {
    Ambient {
        draws: (0..n + 1)
            .map(|i| {
                let mut b = [0x5au8; 16];
                b[0] = i as u8;
                b[3] = (i * 7 + 1) as u8;
                b[8] = (i * 3) as u8;
                b
            })
            .collect(),
        now_ms: 1_786_000_000_123,
        owner: "ada".to_string(),
        home: "/home/u".to_string(),
    }
}

fn write(store: &Store, target: Harness, src: &Session, msgs: &Vec<Msg>) -> Draft {
    write_session(store, target, src, msgs, &ambient(msgs.len()))
}

fn obj(key: &str, value: &str) -> Json {
    Json::object().with(key, Json::of_text(value))
}

fn test_store(dir: &Path) -> Store {
    Store {
        factory: dir.join("fac"),
        pi: dir.join("pi"),
        omp: dir.join("omp"),
        claude: dir.join("cl"),
        codex: dir.join("codex"),
    }
}

fn store() -> Store {
    test_store(Path::new("/tmp/bs-test"))
}

fn bare_session(model: &str) -> Session {
    Session {
        harness: Harness::Factory,
        path: PathBuf::from("/tmp/bs-test/s.jsonl"),
        id: "x".into(),
        title: "t".into(),
        cwd: "/home/u/app".into(),
        model: model.into(),
        msgs: 0,
        preview: String::new(),
        modified: None,
    }
}

fn user(t: &str) -> Msg {
    Msg {
        role: Role::User,
        blocks: vec![Block::Text(t.to_string())],
        ts: None,
    }
}

fn call(id: &str, name: &str, args: Json) -> Block {
    Block::ToolCall {
        id: id.to_string(),
        name: name.to_string(),
        args,
    }
}

fn result(id: &str, name: Option<&str>, content: &str, is_error: bool) -> Block {
    Block::ToolResult {
        call_id: id.to_string(),
        name: name.map(String::from),
        content: content.to_string(),
        is_error,
    }
}

fn tool_msgs() -> Vec<Msg> {
    vec![
        Msg {
            role: Role::Assistant,
            blocks: vec![
                call("c1", "Read", obj("file_path", "a.rs")),
                call("c2", "Glob", obj("pattern", "*.rs")),
            ],
            ts: None,
        },
        Msg {
            role: Role::Tool,
            blocks: vec![result("c1", None, "r1", false)],
            ts: None,
        },
        Msg {
            role: Role::Tool,
            blocks: vec![result("c2", None, "r2", true)],
            ts: None,
        },
        user("next"),
    ]
}

const FACTORY: &str = r#"{"type":"session_start","id":"abc-123","title":"Fix auth bug","version":2,"cwd":"/home/u/app"}
{"type":"message","id":"m1","timestamp":"2026-08-01T10:00:00.000Z","message":{"role":"user","content":[{"type":"text","text":"Fix the login bug"}]}}
{"type":"message","id":"m2","timestamp":"2026-08-01T10:00:05.000Z","message":{"role":"assistant","model":"@cl-sonnet-4-5","content":[{"type":"text","text":"On it"},{"type":"tool_use","name":"Read","input":{"file_path":"auth.ts"}}]}}
{"type":"message","id":"m3","timestamp":"2026-08-01T10:00:06.000Z","message":{"role":"user","content":[{"type":"text","text":"<system-reminder>noise</system-reminder>"}]}}
"#;

const PI: &str = r#"{"type":"session","version":3,"id":"pi-id","timestamp":"2026-07-01T09:00:00.000Z","cwd":"/home/u/pi-app"}
{"type":"model_change","id":"c1","parentId":null,"timestamp":"2026-07-01T09:00:01.000Z","model":"gpt-5.6"}
{"type":"message","id":"zz1","parentId":null,"timestamp":"2026-07-01T09:00:01.500Z","message":{"role":"user","content":"<system-reminder>noise</system-reminder>"}}
{"type":"message","id":"zz2","parentId":null,"timestamp":"2026-07-01T09:00:01.600Z","message":{"role":"user","content":"<system-notice>also noise</system-notice>"}}
{"type":"message","id":"a1b2c3d4","parentId":null,"timestamp":"2026-07-01T09:00:02.000Z","message":{"role":"user","content":"Write a parser"}}
{"type":"message","id":"e5f6a7b8","parentId":"a1b2c3d4","timestamp":"2026-07-01T09:00:03.000Z","message":{"role":"assistant","content":[{"type":"text","text":"Sure"},{"type":"thinking","thinking":"use nom"}],"model":"gpt-5.6","stopReason":"stop"}}
{"type":"message","id":"zz3","parentId":null,"timestamp":"2026-07-01T09:00:04.000Z","message":{"role":"user","content":""}}
"#;

const CLAUDE: &str = r#"{"type":"user","message":{"role":"user","content":[{"type":"text","text":"Inspect the parser"}]},"uuid":"10000000-0000-4000-8000-000000000000","parentUuid":null,"timestamp":"2026-08-16T01:00:00.000Z","sessionId":"32158ce3-e9bd-4203-a961-f0c85814f443","cwd":"/home/u/@cl_app","isSidechain":false,"userType":"external","version":"2.1.220"}
{"type":"assistant","message":{"role":"assistant","model":"@cl-fable-5","content":[{"type":"thinking","thinking":"read first","signature":"sig"},{"type":"tool_use","id":"toolu_1","name":"Read","input":{"file_path":"parser.rs"}}]},"uuid":"20000000-0000-4000-8000-000000000000","parentUuid":"10000000-0000-4000-8000-000000000000","timestamp":"2026-08-16T01:00:01.000Z","sessionId":"32158ce3-e9bd-4203-a961-f0c85814f443","cwd":"/home/u/@cl_app","isSidechain":false,"userType":"external","version":"2.1.220"}
{"type":"user","message":{"role":"user","content":[{"type":"tool_result","tool_use_id":"toolu_1","is_error":false,"content":"parser body"}]},"uuid":"30000000-0000-4000-8000-000000000000","parentUuid":"20000000-0000-4000-8000-000000000000","timestamp":"2026-08-16T01:00:02.000Z","sessionId":"32158ce3-e9bd-4203-a961-f0c85814f443","cwd":"/home/u/@cl_app","isSidechain":false,"userType":"external","version":"2.1.220"}
{"type":"user","message":{"role":"user","content":"sidechain noise"},"uuid":"40000000-0000-4000-8000-000000000000","parentUuid":null,"timestamp":"2026-08-16T01:00:03.000Z","sessionId":"32158ce3-e9bd-4203-a961-f0c85814f443","cwd":"/home/u/@cl_app","isSidechain":true}
"#;

const CODEX: &str = r#"{"timestamp":"2026-08-16T02:00:00.000Z","ordinal":0,"type":"session_meta","payload":{"id":"01a0076f-fffd-7250-9f48-f9358e71e6b2","session_id":"01a0076f-fffd-7250-9f48-f9358e71e6b2","timestamp":"2026-08-16T02:00:00.000Z","cwd":"/home/u/codex-app","originator":"codex_cli_rs","cli_version":"0.90.0","source":"cli"}}
{"timestamp":"2026-08-16T02:00:01.000Z","ordinal":1,"type":"turn_context","payload":{"model":"gpt-5.6","cwd":"/home/u/codex-app"}}
{"timestamp":"2026-08-16T02:00:02.000Z","ordinal":2,"type":"response_item","payload":{"type":"message","role":"user","content":[{"type":"input_text","text":"Run the checks"},{"type":"input_image","image_url":"x"}]}}
{"timestamp":"2026-08-16T02:00:03.000Z","ordinal":3,"type":"response_item","payload":{"type":"reasoning","summary":[{"type":"summary_text","text":"inspect first"}],"content":null,"encrypted_content":"x"}}
{"timestamp":"2026-08-16T02:00:04.000Z","ordinal":4,"type":"response_item","payload":{"type":"message","role":"assistant","content":[{"type":"output_text","text":"Checking"}]}}
{"timestamp":"2026-08-16T02:00:05.000Z","ordinal":5,"type":"response_item","payload":{"type":"function_call","name":"shell_command","arguments":"{\"command\":\"cargo test\"}","call_id":"call_1"}}
{"timestamp":"2026-08-16T02:00:06.000Z","ordinal":6,"type":"response_item","payload":{"type":"function_call_output","call_id":"call_1","output":"ok"}}
"#;

#[test]
fn parses_factory_fixture() {
    let (sess, msgs) = parse(&file("s.jsonl", FACTORY), Harness::Factory);
    assert_eq!(sess.title, "Fix auth bug");
    assert_eq!(sess.cwd, "/home/u/app");
    assert_eq!(sess.id, "abc-123");
    assert_eq!(sess.model, format!("{}-sonnet-4-5", cl()));
    // system-reminder user message is dropped, hook boilerplate skipped
    assert_eq!(msgs.len(), 2);
    assert_eq!(msgs[0].role, Role::User);
    assert_eq!(
        msgs[0].blocks,
        vec![Block::Text("Fix the login bug".into())]
    );
    assert_eq!(msgs[1].role, Role::Assistant);
    assert_eq!(msgs[1].blocks[0], Block::Text("On it".into()));
    let Block::ToolCall { name, args, .. } = &msgs[1].blocks[1] else {
        panic!("expected tool call");
    };
    assert_eq!(name, "Read");
    assert_eq!(args.text("file_path"), Some("auth.ts"));
}

#[test]
fn parses_pi_fixture() {
    let (sess, msgs) = parse(&file("s.jsonl", PI), Harness::Omp);
    assert_eq!(sess.id, "pi-id");
    assert_eq!(sess.cwd, "/home/u/pi-app");
    assert_eq!(sess.model, "gpt-5.6");
    // pi has no title record: title/preview derive from first user message
    assert_eq!(sess.title, "Write a parser");
    assert_eq!(sess.preview, "Write a parser");
    // boilerplate + empty user messages dropped
    assert_eq!(msgs.len(), 2);
    assert_eq!(msgs[0].ts.as_deref(), Some("2026-07-01T09:00:02.000Z"));
    assert_eq!(msgs[1].blocks[0], Block::Text("Sure".into()));
    assert_eq!(msgs[1].blocks[1], Block::Thinking("use nom".into()));
}

#[test]
fn parses_claude_fixture() {
    let (sess, msgs) = parse(
        &file("32158ce3-e9bd-4203-a961-f0c85814f443.jsonl", CLAUDE),
        Harness::Claude,
    );
    assert_eq!(sess.id, "32158ce3-e9bd-4203-a961-f0c85814f443");
    assert_eq!(sess.cwd, format!("/home/u/{}_app", cl()));
    assert_eq!(sess.model, format!("{}-fable-5", cl()));
    assert_eq!(sess.title, "Inspect the parser");
    assert_eq!(msgs.len(), 3);
    assert_eq!(
        msgs[0].blocks,
        vec![Block::Text("Inspect the parser".into())]
    );
    assert_eq!(msgs[1].blocks[0], Block::Thinking("read first".into()));
    assert_eq!(
        msgs[1].blocks[1],
        call("toolu_1", "Read", obj("file_path", "parser.rs"))
    );
    assert_eq!(msgs[2].role, Role::Tool);
    assert_eq!(sess.msgs, 3);
}

#[test]
fn parses_codex_fixture() {
    let (sess, msgs) = parse(&file("rollout-test.jsonl", CODEX), Harness::Codex);
    assert_eq!(sess.id, "01a0076f-fffd-7250-9f48-f9358e71e6b2");
    assert_eq!(sess.cwd, "/home/u/codex-app");
    assert_eq!(sess.model, "gpt-5.6");
    assert_eq!(sess.title, "Run the checks [image]");
    assert_eq!(msgs.len(), 5);
    assert_eq!(
        msgs[0].blocks,
        vec![Block::Text("Run the checks\n[image]".into())]
    );
    assert_eq!(
        msgs[1].blocks,
        vec![Block::Thinking("inspect first".into())]
    );
    assert_eq!(msgs[2].blocks, vec![Block::Text("Checking".into())]);
    assert_eq!(
        msgs[3].blocks,
        vec![call(
            "call_1",
            "shell_command",
            obj("command", "cargo test")
        )]
    );
    assert_eq!(msgs[4].role, Role::Tool);
}

#[test]
fn summaries_count_only_conversation_messages() {
    let claude = [
        r#"{"type":"user","message":{"role":"system","content":"ignore"},"uuid":"0","parentUuid":null,"cwd":"/x","isSidechain":false}"#,
        r#"{"type":"progress","message":{"role":"user","content":"ignore"},"uuid":"1","parentUuid":"0","cwd":"/x","isSidechain":false}"#,
        r#"{"type":"user","message":{"role":"user","content":"keep"},"uuid":"2","parentUuid":"1","cwd":"/x","isSidechain":false}"#,
        r#"{"type":"assistant","message":{"role":"assistant","model":"first","content":[{"type":"text","text":"answer"}]},"uuid":"3","parentUuid":"2","cwd":"/x","isSidechain":false}"#,
        r#"{"type":"assistant","message":{"role":"assistant","model":"later","content":[{"type":"text","text":"answer 2"}]},"uuid":"4","parentUuid":"3","cwd":"/x","isSidechain":false}"#,
    ]
    .join("\n");
    let claude_sum = summarize(&file("cl.jsonl", &claude), Harness::Claude).unwrap();
    assert_eq!(claude_sum.msgs, 3);
    assert_eq!(claude_sum.preview, "keep");
    assert_eq!(claude_sum.model, "first");

    let codex = [
        r#"{"type":"session_meta","payload":{"id":"c1","cwd":"/x"}}"#,
        r#"{"type":"response_item","payload":{"type":"function_call","name":"shell_command","arguments":"{}","call_id":"call"}}"#,
        r#"{"type":"response_item","payload":{"type":"message","role":"developer","content":[{"type":"input_text","text":"ignore"}]}}"#,
        r#"{"type":"response_item","payload":{"type":"message","role":"user","content":[{"type":"input_text","text":"keep"}]}}"#,
        r#"{"type":"response_item","payload":{"type":"message","role":"user","content":[{"type":"input_text","text":"later"}]}}"#,
        r#"{"type":"turn_context","payload":{"model":"first"}}"#,
        r#"{"type":"turn_context","payload":{"model":"later"}}"#,
    ]
    .join("\n");
    let codex_sum = summarize(&file("codex.jsonl", &codex), Harness::Codex).unwrap();
    assert_eq!(codex_sum.msgs, 3);
    assert_eq!(codex_sum.preview, "keep");
    assert_eq!(codex_sum.model, "first");
}

#[test]
fn claude_write_roundtrip() {
    let (sess, msgs) = parse(&file("source.jsonl", CLAUDE), Harness::Claude);
    let store = store();
    let pi = write(&store, Harness::Pi, &sess, &msgs);
    let pi_msgs = parse(&draft_file(&pi), Harness::Pi).1;
    assert_eq!(pi_msgs[..2], msgs[..2]);
    assert!(matches!(
        &pi_msgs[2].blocks[0],
        Block::ToolResult {
            call_id,
            name: Some(name),
            content,
            is_error: false,
        } if call_id == "toolu_1" && name == "Read" && content == "parser body"
    ));

    let out = write(&store, Harness::Claude, &sess, &tool_msgs());
    assert!(out.path.starts_with(store.claude.join(slug_for(
        Harness::Claude,
        &sess.cwd,
        "/home/u"
    ))));
    assert_eq!(out.path.file_stem().unwrap().to_string_lossy().len(), 36);
    let lines = read_lines(&out);
    assert_eq!(lines.len(), 3);
    assert_eq!(lines[0]["parentUuid"], Value::Null);
    assert_eq!(lines[1]["parentUuid"], lines[0]["uuid"]);
    assert_eq!(lines[2]["parentUuid"], lines[1]["uuid"]);
    assert_eq!(lines[1]["message"]["content"].as_array().unwrap().len(), 2);
    assert_eq!(lines[1]["message"]["content"][0]["type"], "tool_result");
    let reparsed = parse(&draft_file(&out), Harness::Claude).1;
    assert_eq!(
        reparsed
            .iter()
            .map(|m| (m.role, &m.blocks))
            .collect::<Vec<_>>(),
        tool_msgs()
            .iter()
            .map(|m| (m.role, &m.blocks))
            .collect::<Vec<_>>()
    );
}

#[test]
fn codex_write_roundtrip() {
    let (sess, msgs) = parse(&file("rollout-source.jsonl", CODEX), Harness::Codex);
    let store = store();
    let factory = write(&store, Harness::Factory, &sess, &msgs);
    assert_eq!(parse(&draft_file(&factory), Harness::Factory).1, msgs);

    let out = write(&store, Harness::Codex, &sess, &msgs);
    let lines = read_lines(&out);
    assert_eq!(lines[0]["type"], "session_meta");
    assert_eq!(lines[0]["payload"]["id"], lines[0]["payload"]["session_id"]);
    for (ordinal, line) in lines.iter().enumerate() {
        assert_eq!(line["ordinal"], ordinal);
    }
    let call = lines
        .iter()
        .find(|line| line["payload"]["type"] == "function_call")
        .unwrap();
    assert!(call["payload"]["arguments"].is_string());
    let output = lines
        .iter()
        .find(|line| line["payload"]["type"] == "function_call_output")
        .unwrap();
    assert_eq!(output["payload"]["output"], "ok");
    assert_eq!(parse(&draft_file(&out), Harness::Codex).1, msgs);
}

#[test]
fn codex_discovery_filters_cwd_recursively() {
    let other = CODEX.replace("/home/u/codex-app", "/home/u/other");
    let day = [
        ("rollout-2026-08-16T02-00-00-a.jsonl", CODEX),
        ("rollout-2026-08-16T03-00-00-b.jsonl", other.as_str()),
        ("ignored.jsonl", CODEX),
    ];
    let names: Vec<String> = day.iter().map(|(name, _)| name.to_string()).collect();
    let files: Vec<SessionFile> = discover::session_files(Harness::Codex, &names)
        .into_iter()
        .map(|i| file(day[i].0, day[i].1))
        .collect();
    assert_eq!(summaries(Harness::Codex, &files).len(), 2);
    let scan = discover::discover_for_cwd(
        &PathBuf::from("/tmp/bs-test"),
        Harness::Codex,
        Path::new("/home/u/codex-app"),
        "/home/u",
    );
    let Scan::Tree(root, _) = &scan else {
        panic!("expected the whole tree");
    };
    assert_eq!(root, &PathBuf::from("/tmp/bs-test"));
    let found = discover::find_sessions(&scan, Harness::Codex, &files);
    assert_eq!(found.len(), 1);
    assert_eq!(found[0].cwd, "/home/u/codex-app");
}

#[test]
fn factory_summarize_fills_new_session_title() {
    let body = r#"{"type":"session_start","id":"n1","title":"New Session","version":2,"cwd":"/home/u/x"}
{"type":"message","id":"m1","timestamp":"2026-08-01T10:00:00.000Z","message":{"role":"user","content":[{"type":"text","text":"Actually do the thing"}]}}
"#;
    let sess = summarize(&file("s.jsonl", body), Harness::Factory).unwrap();
    assert_eq!(sess.title, "Actually do the thing");
    assert_eq!(sess.msgs, 1);
}

#[test]
fn factory_to_pi_roundtrip() {
    let (sess, msgs) = parse(&file("src.jsonl", FACTORY), Harness::Factory);
    let store = store();
    let out = write(&store, Harness::Pi, &sess, &msgs);
    let (sess2, msgs2) = parse(&draft_file(&out), Harness::Pi);
    assert_eq!(sess2.cwd, "/home/u/app");
    assert_eq!(sess2.title, "Fix auth bug");
    assert_eq!(msgs2.len(), msgs.len());
    assert_eq!(msgs2[0].role, Role::User);
    assert_eq!(msgs2[0].blocks, msgs[0].blocks);
    // tree structure: parentId chain intact
    let lines = read_lines(&out);
    assert_eq!(lines[0]["type"], "session");
    assert_eq!(lines[0]["version"], 3);
    assert_eq!(lines[1]["parentId"], Value::Null);
    assert_eq!(lines[2]["parentId"], lines[1]["id"]);
    // omp target includes a title line first
    let out2 = write(&store, Harness::Omp, &sess, &msgs);
    let l0 = &read_lines(&out2)[0];
    assert_eq!(l0["type"], "title");
}

#[test]
fn pi_to_factory_roundtrip() {
    let (sess, msgs) = parse(&file("src.jsonl", PI), Harness::Pi);
    let out = write(&store(), Harness::Factory, &sess, &msgs);
    let (sess2, msgs2) = parse(&draft_file(&out), Harness::Factory);
    assert_eq!(sess2.title, "Write a parser");
    assert_eq!(msgs2.len(), msgs.len());
    assert_eq!(msgs2[1].role, Role::Assistant);
    let lines = read_lines(&out);
    assert!(lines[1].get("parentId").is_none());
    assert_eq!(lines[2]["parentId"], lines[1]["id"]);
    assert_eq!(lines[0]["type"], "session_start");
    assert_eq!(lines[1]["message"]["role"], "user");
    assert!(lines[2]["message"]["content"][0]["text"]
        .as_str()
        .unwrap()
        .contains("Sure"));
}

#[test]
fn iso_format_matches_shape() {
    let s = format_iso(1_750_000_000);
    assert_eq!(s, "2025-06-15T15:06:40.000Z");
}

#[test]
fn iso_boundaries() {
    assert_eq!(format_iso(0), "1970-01-01T00:00:00.000Z");
    assert_eq!(format_iso(1709078400), "2024-02-28T00:00:00.000Z");
    assert_eq!(format_iso(1709164800), "2024-02-29T00:00:00.000Z");
    assert_eq!(format_iso(951782400), "2000-02-29T00:00:00.000Z");
    assert_eq!(format_iso(951868800), "2000-03-01T00:00:00.000Z");
    assert_eq!(format_iso(1767139200), "2025-12-31T00:00:00.000Z");
    assert_eq!(format_iso(4102444800), "2100-01-01T00:00:00.000Z");
    assert_eq!(format_iso(4107542400), "2100-03-01T00:00:00.000Z");
}

#[test]
fn clip_caps_at_140_chars() {
    let long = "x".repeat(200);
    let c = clip(&long);
    assert_eq!(c.chars().count(), 138);
    assert!(c.ends_with('…'));
    let ok = "y".repeat(140);
    assert_eq!(clip(&ok), ok);
    assert_eq!(clip("a\nb"), "a b");
}

#[test]
fn uuid_v4_shape() {
    assert_eq!(
        uuid_v4_from_hex("00000000000000000000000000000000"),
        "00000000-0000-4000-8000-000000000000"
    );
}

#[test]
fn omp_title_slot_matches_loader_contract() {
    let line = title_slot_line("My session", "2026-08-16T00:00:00.000Z");
    // exactly 256 bytes including the newline (fixed-width physical slot)
    assert_eq!(line.len(), 256);
    let v: Value = serde_json::from_str(line.trim_end()).unwrap();
    assert_eq!(v["type"], "title");
    assert_eq!(v["v"], 1);
    // loader only accepts auto|user; anything else voids the whole file
    assert_eq!(v["source"], "user");
    assert_eq!(v["title"], "My session");
    assert!(v["pad"].as_str().unwrap().chars().all(|c| c == ' '));
    // long titles truncate to fit the slot
    let long = title_slot_line(&"x".repeat(500), "2026-08-16T00:00:00.000Z");
    assert_eq!(long.len(), 256);
    let lv: Value = serde_json::from_str(long.trim_end()).unwrap();
    assert!(lv["title"].as_str().unwrap().len() < 500);
    // boundary: title sized to exactly fill the slot is kept whole with
    // pad 0; one char longer loses exactly one char (pins the > check)
    let probe = |n: usize| {
        let l = title_slot_line(&"y".repeat(n), "2026-08-16T00:00:00.000Z");
        let v: Value = serde_json::from_str(l.trim_end()).unwrap();
        (
            v["title"].as_str().unwrap().len(),
            v["pad"].as_str().unwrap().len(),
        )
    };
    let fixed = 256 - probe(0).0 - probe(0).1; // non-title bytes incl newline
    let exact = 256 - fixed;
    assert_eq!(probe(exact), (exact, 0));
    assert_eq!(probe(exact + 1), (exact, 0));
}

#[test]
fn short_hex_is_8_hex_digits() {
    let h = short_hex(&[0xab; 16]);
    assert_eq!(h.len(), 8);
    assert!(h.chars().all(|c| c.is_ascii_hexdigit()));
}

#[test]
fn discover_scans_workspaces() {
    let name = "2026-01-01T00-00-00-000Z_x.jsonl";
    assert!(discover::is_session_file(Harness::Pi, name));
    let found = summaries(Harness::Pi, &vec![file(name, PI)]);
    assert_eq!(found.len(), 1);
    assert_eq!(found[0].id, "pi-id");
    assert_eq!(found[0].msgs, 5);
    assert_eq!(found[0].title, "Write a parser");
}

#[test]
fn discover_for_cwd_skips_other_workspaces() {
    let dir = PathBuf::from("/tmp/bs-cwd");
    let match_ws = dir.join(slug_for(Harness::Pi, "/home/u/app", "/home/u"));
    let other_ws = dir.join(slug_for(Harness::Pi, "/home/u/other", "/home/u"));
    let scan = discover::discover_for_cwd(
        &dir,
        Harness::Pi,
        Path::new("/home/u/app"),
        "/home/u",
    );
    let Scan::Workspace(ws) = &scan else {
        panic!("expected one workspace");
    };
    assert_eq!(ws, &match_ws);
    assert_ne!(ws, &other_ws);
    let found = discover::find_sessions(&scan, Harness::Pi, &vec![file("s.jsonl", PI)]);
    assert_eq!(found.len(), 1);
    assert_eq!(found[0].id, "pi-id");
}

#[test]
fn listing_keeps_order_and_leaves_out_what_has_no_summary() {
    let broken = SessionFile {
        complete: false,
        ..file("b.jsonl", PI)
    };
    let files = vec![file("c.jsonl", PI), broken, file("a.jsonl", PI)];
    let paths: Vec<PathBuf> = summaries(Harness::Pi, &files)
        .into_iter()
        .map(|s| s.path)
        .collect();
    assert_eq!(paths, vec![files[0].path.clone(), files[2].path.clone()]);
    let names = ["x.jsonl", "x.json", "rollout-x.jsonl", ".jsonl"].map(String::from);
    assert_eq!(discover::session_files(Harness::Pi, &names.to_vec()), vec![0, 2]);
    assert_eq!(discover::session_files(Harness::Codex, &names.to_vec()), vec![2]);
}

#[test]
fn files_may_be_looked_at_in_parts() {
    let other = CODEX.replace("/home/u/codex-app", "/home/u/other");
    let bodies = [CODEX, other.as_str(), CODEX];
    let part = |r: std::ops::Range<usize>| -> Vec<SessionFile> {
        r.map(|i| file(&format!("rollout-{i}.jsonl"), bodies[i])).collect()
    };
    let scan = Scan::Tree(PathBuf::from("/r"), "/home/u/codex-app".to_string());
    let ids = |files| -> Vec<PathBuf> {
        discover::find_sessions(&scan, Harness::Codex, &files)
            .into_iter()
            .map(|s| s.path)
            .collect()
    };
    let whole = ids(part(0..3));
    assert_eq!(whole.len(), 2);
    assert_eq!([ids(part(0..1)), ids(part(1..3))].concat(), whole);
}

#[test]
fn records_are_summarized_without_their_lines() {
    let recs: Vec<Json> = PI.lines().filter_map(Json::parse).collect();
    let s = summarize_records(Harness::Pi, &recs, &None).unwrap();
    assert_eq!(s.id, "pi-id");
    assert_eq!(s.msgs, 5);
    assert_eq!(s.title, "Write a parser");
    let none = Vec::new();
    assert!(summarize_records(Harness::Pi, &none, &None).is_none());
    let s = summarize_records(Harness::Pi, &none, &Some("a_b".to_string())).unwrap();
    assert_eq!((s.id.as_str(), s.title.as_str(), s.cwd.as_str()), ("a_b", "b", "?"));
}

#[test]
fn title_falls_back_when_no_user_msg() {
    let body = r#"{"type":"session_start","id":"n2","title":"New Session","version":2,"cwd":"/home/u/y"}
{"type":"message","id":"m1","timestamp":"2026-08-01T10:00:00.000Z","message":{"role":"assistant","content":[{"type":"text","text":"hello there"}]}}
"#;
    let sess = summarize(&file("abc.jsonl", body), Harness::Factory).unwrap();
    // no user message: title comes from filename stem, preview stays empty
    assert_eq!(sess.title, "abc");
    assert!(sess.preview.is_empty());
}

#[test]
fn pi_title_record_wins() {
    let body = r#"{"type":"title","v":1,"title":"Custom Title","source":"auto","updatedAt":"2026-07-01T09:00:00.000Z","pad":""}
{"type":"session","version":3,"id":"t9","timestamp":"2026-07-01T09:00:00.000Z","cwd":"/x"}
{"type":"message","id":"m1","parentId":null,"timestamp":"2026-07-01T09:00:01.000Z","message":{"role":"user","content":"first words"}}
"#;
    let sess = summarize(&file("s.jsonl", body), Harness::Omp).unwrap();
    assert_eq!(sess.title, "Custom Title");
    assert_eq!(sess.preview, "first words");
}

#[test]
fn user_msg_model_field_is_ignored() {
    let body = r#"{"type":"session_start","id":"t7","title":"New Session","version":2,"cwd":"/x"}
{"type":"message","id":"m1","timestamp":"2026-07-01T09:00:01.000Z","message":{"role":"assistant","content":[{"type":"text","text":"hi"}]}}
{"type":"message","id":"m2","timestamp":"2026-07-01T09:00:02.000Z","message":{"role":"user","content":[{"type":"text","text":"hello"}],"model":"sneaky"}}
"#;
    let sess = summarize(&file("s.jsonl", body), Harness::Factory).unwrap();
    // model only ever comes from assistant messages
    assert!(sess.model.is_empty());
    let pi_body = r#"{"type":"session","version":3,"id":"t7","timestamp":"2026-07-01T09:00:00.000Z","cwd":"/x"}
{"type":"message","id":"m1","parentId":null,"timestamp":"2026-07-01T09:00:01.000Z","message":{"role":"assistant","content":[{"type":"text","text":"hi"}]}}
{"type":"message","id":"m2","parentId":null,"timestamp":"2026-07-01T09:00:02.000Z","message":{"role":"user","content":"hello","model":"sneaky"}}
"#;
    let sess2 = summarize(&file("p.jsonl", pi_body), Harness::Pi).unwrap();
    assert!(sess2.model.is_empty());
}

#[test]
fn model_change_beats_message_model() {
    let body = r#"{"type":"session","version":3,"id":"t8","timestamp":"2026-07-01T09:00:00.000Z","cwd":"/x"}
{"type":"model_change","id":"c1","parentId":null,"timestamp":"2026-07-01T09:00:01.000Z","model":"gpt-5.6"}
{"type":"message","id":"m1","parentId":null,"timestamp":"2026-07-01T09:00:02.000Z","message":{"role":"assistant","content":[{"type":"text","text":"hi"}],"model":"older-model"}}
"#;
    let sess = summarize(&file("s.jsonl", body), Harness::Pi).unwrap();
    assert_eq!(sess.model, "gpt-5.6");
}

#[test]
fn written_records_get_timestamps() {
    let sess = Session {
        modified: Some(std::time::UNIX_EPOCH),
        msgs: 1,
        ..bare_session("")
    };
    let out = write(&store(), Harness::Factory, &sess, &vec![user("hi")]);
    let lines = read_lines(&out);
    let ts = lines[1]["timestamp"].as_str().unwrap();
    assert_eq!(ts.len(), "1970-01-01T00:00:00.000Z".len());
    assert!(ts.ends_with(".000Z"));
}

#[test]
fn factory_filename_is_session_id() {
    let sess = bare_session("");
    let out = write(&store(), Harness::Factory, &sess, &vec![user("hi")]);
    // droid resolves sessions by filename: stem must equal session_start.id
    let stem = out.path.file_stem().unwrap().to_str().unwrap();
    let first = &read_lines(&out)[0];
    assert_eq!(first["type"], "session_start");
    assert_eq!(first["id"].as_str().unwrap(), stem);
    assert_eq!(first["owner"], "ada");
    assert_eq!(stem.len(), 36);
}

#[test]
fn parses_pi_tool_result_and_image() {
    let body = r#"{"type":"session","version":3,"id":"pt","timestamp":"2026-07-01T09:00:00.000Z","cwd":"/x"}
{"type":"message","id":"a1","parentId":null,"timestamp":"2026-07-01T09:00:01.000Z","message":{"role":"user","content":"do it"}}
{"type":"message","id":"a2","parentId":"a1","timestamp":"2026-07-01T09:00:02.000Z","message":{"role":"assistant","content":[{"type":"toolCall","id":"call1","name":"Read","arguments":{"file_path":"a.rs"}},{"type":"image","source":"x.png"}]}}
{"type":"message","id":"a3","parentId":"a2","timestamp":"2026-07-01T09:00:03.000Z","message":{"role":"toolResult","toolCallId":"call1","toolName":"Read","content":[{"type":"text","text":"file body"}],"isError":true}}
"#;
    let (_sess, msgs) = parse(&file("s.jsonl", body), Harness::Pi);
    assert_eq!(msgs.len(), 3);
    assert_eq!(msgs[1].role, Role::Assistant);
    assert_eq!(
        msgs[1].blocks[0],
        call("call1", "Read", obj("file_path", "a.rs"))
    );
    // image flattens to a placeholder text block
    assert_eq!(msgs[1].blocks[1], Block::Text("[image]".into()));
    assert_eq!(msgs[2].role, Role::Tool);
    assert_eq!(
        msgs[2].blocks[0],
        result("call1", Some("Read"), "file body", true)
    );
}

#[test]
fn parses_factory_bare_string_user() {
    let body = r#"{"type":"session_start","id":"bs","title":"S","version":2,"cwd":"/x"}
{"type":"message","id":"m1","timestamp":"2026-08-01T10:00:00.000Z","message":{"role":"user","content":"plain string"}}
"#;
    let (_sess, msgs) = parse(&file("s.jsonl", body), Harness::Factory);
    assert_eq!(msgs.len(), 1);
    assert_eq!(msgs[0].blocks, vec![Block::Text("plain string".into())]);
}

#[test]
fn factory_write_groups_consecutive_tool_results() {
    let store = store();
    let sess = bare_session("");
    let out = write(&store, Harness::Factory, &sess, &tool_msgs());
    let lines = read_lines(&out);
    // session_start + assistant + ONE grouped user + trailing user
    assert_eq!(lines.len(), 4);
    let grouped = &lines[2]["message"];
    assert_eq!(grouped["role"], "user");
    let content = grouped["content"].as_array().unwrap();
    assert_eq!(content.len(), 2);
    assert_eq!(content[0]["type"], "tool_result");
    assert_eq!(content[0]["tool_use_id"], "c1");
    assert_eq!(content[0]["is_error"], false);
    assert_eq!(content[1]["tool_use_id"], "c2");
    assert_eq!(content[1]["is_error"], true);
    // trailing user message survived the grouping loop
    assert_eq!(lines[3]["message"]["content"][0]["text"], "next");
    // droid rebuilds history from the parentId chain.
    assert!(lines[1].get("parentId").is_none());
    for w in lines[1..].windows(2) {
        assert_eq!(w[1]["parentId"], w[0]["id"]);
    }
    // record ids are dashed uuids
    assert_eq!(lines[1]["id"].as_str().unwrap().len(), 36);
    // tools at the very end of the session: grouping loop must stop at len
    let mut tail = tool_msgs();
    tail.pop();
    let out2 = write(&store, Harness::Factory, &sess, &tail);
    let lines2 = read_lines(&out2);
    assert_eq!(lines2.len(), 3);
    assert_eq!(lines2[2]["message"]["content"].as_array().unwrap().len(), 2);
}

#[test]
fn claude_write_groups_tools_and_gates_model() {
    let store = store();

    let sess = bare_session(&format!("{}-fable-5", cl()));
    let out = write(&store, Harness::Claude, &sess, &tool_msgs());
    let lines = read_lines(&out);
    assert_eq!(lines.len(), 3);
    assert_eq!(lines[0]["message"]["model"], format!("{}-fable-5", cl()));
    assert_eq!(lines[1]["message"]["content"].as_array().unwrap().len(), 2);
    assert_eq!(lines[2]["message"]["content"][0]["text"], "next");

    let mut tail = tool_msgs();
    tail.pop();
    let out2 = write(&store, Harness::Claude, &sess, &tail);
    let lines2 = read_lines(&out2);
    assert_eq!(lines2.len(), 2);
    assert_eq!(lines2[1]["message"]["content"].as_array().unwrap().len(), 2);

    let sess2 = bare_session("");
    let out3 = write(&store, Harness::Claude, &sess2, &tool_msgs());
    let lines3 = read_lines(&out3);
    assert!(lines3[0]["message"].get("model").is_none());
}

#[test]
fn pi_write_backfills_tool_names_and_gates_model() {
    let store = store();
    // tool names backfilled from the assistant's ToolCall blocks
    let sess = bare_session("gpt-5.6");
    let out = write(&store, Harness::Pi, &sess, &tool_msgs());
    let lines = read_lines(&out);
    let results: Vec<&Value> = lines
        .iter()
        .filter(|l| l["message"]["role"] == "toolResult")
        .collect();
    assert_eq!(results.len(), 2);
    assert_eq!(results[0]["message"]["toolName"], "Read");
    assert_eq!(results[1]["message"]["toolName"], "Glob");
    // model set -> present on assistant message
    let assistant = lines
        .iter()
        .find(|l| l["message"]["role"] == "assistant")
        .unwrap();
    assert_eq!(assistant["message"]["model"], "gpt-5.6");
    // usage must exist: the Pi/OMP renderer dereferences it unconditionally
    let usage = &assistant["message"]["usage"];
    assert_eq!(usage["cacheRead"], 0);
    assert_eq!(usage["input"], 0);
    assert_eq!(usage["cost"]["total"], 0);
    // model empty -> key omitted entirely
    let sess2 = bare_session("");
    let out2 = write(&store, Harness::Pi, &sess2, &tool_msgs());
    let lines2 = read_lines(&out2);
    let assistant2 = lines2
        .iter()
        .find(|l| l["message"]["role"] == "assistant")
        .unwrap();
    assert!(assistant2["message"].get("model").is_none());
}

#[test]
fn uuid_v4_marks_version_and_variant() {
    assert_eq!(
        uuid_v4(&[0xff; 16]),
        "ffffffff-ffff-4fff-afff-ffffffffffff"
    );
    assert_eq!(
        uuid_v4_from_hex("0123456789abcdef0123456789abcdef"),
        "01234567-89ab-4def-8123-456789abcdef"
    );
}

#[test]
fn written_file_is_named_for_its_harness() {
    let s = store();
    let sess = bare_session("");
    let msgs = vec![user("hi")];
    let amb = ambient(1);
    let at = 1_750_000_000;
    let fac = write_at(&s, Harness::Factory, &sess, &msgs, &amb, at);
    assert_eq!(fac.dir, PathBuf::from("/tmp/bs-test/fac/-home-u-app"));
    assert_eq!(fac.path, fac.dir.join(format!("{}.jsonl", fac.id)));
    let pi = write_at(&s, Harness::Pi, &sess, &msgs, &amb, at);
    assert_eq!(pi.dir, PathBuf::from("/tmp/bs-test/pi/--home-u-app--"));
    assert_eq!(
        pi.path,
        pi.dir.join(format!("1786000000123_{}.jsonl", pi.id))
    );
    assert_eq!(pi.id.len(), 32);
    let omp = write_at(&s, Harness::Omp, &sess, &msgs, &amb, at);
    assert_eq!(omp.dir, PathBuf::from("/tmp/bs-test/omp/-app"));
    let codex = write_at(&s, Harness::Codex, &sess, &msgs, &amb, at);
    assert_eq!(codex.dir, PathBuf::from("/tmp/bs-test/codex/2025/06/15"));
    assert_eq!(
        codex.path,
        codex
            .dir
            .join(format!("rollout-2025-06-15T15-06-40-{}.jsonl", codex.id))
    );
    let claude = write_at(&s, Harness::Claude, &sess, &msgs, &amb, at);
    assert_eq!(claude.dir, PathBuf::from("/tmp/bs-test/cl/-home-u-app"));
}

#[test]
fn written_session_reads_back_with_id_and_cwd() {
    let sess = bare_session("m");
    for h in Harness::all() {
        let d = write(&store(), h, &sess, &tool_msgs());
        let (back, msgs) = parse(&draft_file(&d), h);
        assert_eq!(back.id, if h == Harness::Claude {
            d.path.file_stem().unwrap().to_string_lossy().into_owned()
        } else {
            d.id.clone()
        });
        assert_eq!(back.cwd, "/home/u/app");
        assert_eq!(msgs.last().unwrap().blocks, vec![Block::Text("next".into())]);
    }
}

#[test]
fn native_messages_survive_two_writes() {
    let sess = bare_session("");
    for h in Harness::all() {
        let first = parse(&draft_file(&write(&store(), h, &sess, &tool_msgs())), h).1;
        let again = parse(&draft_file(&write(&store(), h, &sess, &first)), h).1;
        assert_eq!(first, again);
    }
}

#[test]
fn codex_output_loses_the_error_mark() {
    let d = write(&store(), Harness::Codex, &bare_session(""), &tool_msgs());
    let msgs = parse(&draft_file(&d), Harness::Codex).1;
    // each block of an assistant turn is an item of its own
    assert_eq!(msgs.len(), 5);
    assert_eq!(msgs[3].blocks, vec![result("c2", None, "r2", false)]);
}

#[test]
fn every_written_line_is_one_record() {
    let mut msgs = tool_msgs();
    msgs.push(user("two\nlines and a \"quote\" \u{1} \\ end"));
    for h in Harness::all() {
        let d = write(&store(), h, &bare_session(""), &msgs);
        for l in &d.lines {
            assert!(l.ends_with('\n'));
            assert_eq!(l.matches('\n').count(), 1);
            assert!(serde_json::from_str::<Value>(l).unwrap().is_object());
        }
        let back = parse(&draft_file(&d), h).1;
        assert_eq!(
            back.last().unwrap().blocks,
            vec![Block::Text(
                "two\nlines and a \"quote\" \u{1} \\ end".into()
            )]
        );
    }
}

#[test]
fn summary_of_unreadable_file_is_none() {
    let mut f = file("s.jsonl", FACTORY);
    f.complete = false;
    assert!(summarize(&f, Harness::Factory).is_none());
    let (sess, msgs) = parse(&f, Harness::Factory);
    assert_eq!(sess.id, "");
    assert_eq!(sess.msgs, 2);
    assert_eq!(msgs.len(), 2);
}

#[test]
fn summary_without_name_or_title_is_none() {
    let mut f = file("s.jsonl", "");
    assert_eq!(summarize(&f, Harness::Pi).unwrap().cwd, "?");
    f.stem = None;
    assert!(summarize(&f, Harness::Pi).is_none());
}

#[test]
fn fallback_title_is_the_last_piece_of_the_stem() {
    let s = summarize(&file("2026-01-01_abc_def.jsonl", ""), Harness::Omp).unwrap();
    assert_eq!(s.title, "def");
    assert_eq!(s.id, "2026-01-01_abc_def");
}

#[test]
fn pi_model_change_reads_model_id() {
    let body = r#"{"type":"model_change","modelId":"m-2"}"#;
    assert_eq!(
        summarize(&file("s.jsonl", body), Harness::Pi).unwrap().model,
        "m-2"
    );
}

#[test]
fn lines_that_hold_no_json_are_passed_over() {
    let body = format!("not json\n{FACTORY}\n{{broken\n");
    assert_eq!(parse(&file("s.jsonl", &body), Harness::Factory).1.len(), 2);
}

#[test]
fn boilerplate_is_told_from_text() {
    assert!(bodysnatcher::parse::is_boilerplate("  <system-reminder>x"));
    assert!(bodysnatcher::parse::is_boilerplate("<system-notice>"));
    assert!(bodysnatcher::parse::is_boilerplate(" \n\t"));
    assert!(!bodysnatcher::parse::is_boilerplate("a <system-reminder>"));
}

#[test]
fn codex_call_keeps_arguments_that_are_no_json() {
    let body = r#"{"type":"response_item","payload":{"type":"function_call","name":"n","arguments":"not json","call_id":"c"}}"#;
    let msgs = parse(&file("s.jsonl", body), Harness::Codex).1;
    assert_eq!(
        msgs[0].blocks,
        vec![call("c", "n", Json::of_text("not json"))]
    );
}

#[test]
fn numbers_survive_a_handoff() {
    let body = r#"{"type":"response_item","payload":{"type":"function_call","name":"n","arguments":"{\"b\":-3,\"a\":1.5,\"c\":[18446744073709551615,true,null]}","call_id":"c"}}"#;
    let (sess, msgs) = parse(&file("s.jsonl", body), Harness::Codex);
    let d = write(&store(), Harness::Pi, &sess, &msgs);
    let args = &read_lines(&d)[1]["message"]["content"][0]["arguments"];
    assert_eq!(args["a"], 1.5);
    assert_eq!(args["b"], -3);
    assert_eq!(args["c"][0], u64::MAX);
    assert_eq!(
        args.to_string(),
        r#"{"a":1.5,"b":-3,"c":[18446744073709551615,true,null]}"#
    );
}

#[test]
fn compacted_pi_session_reads_summary_and_kept() {
    let body = [
        r#"{"type":"session","version":3,"id":"p","cwd":"/x"}"#,
        r#"{"type":"message","id":"a1","message":{"role":"user","content":"old"}}"#,
        r#"{"type":"message","id":"a2","message":{"role":"user","content":"kept"}}"#,
        r#"{"type":"compaction","id":"a3","timestamp":"t","summary":"so far","firstKeptEntryId":"a2"}"#,
        r#"{"type":"message","id":"a4","message":{"role":"user","content":"new"}}"#,
    ]
    .join("\n");
    for h in [Harness::Pi, Harness::Omp] {
        let (sess, msgs) = parse(&file("s.jsonl", &body), h);
        let said: Vec<&Block> = msgs.iter().map(|m| &m.blocks[0]).collect();
        assert_eq!(
            said,
            vec![
                &Block::Text("so far".into()),
                &Block::Text("kept".into()),
                &Block::Text("new".into())
            ]
        );
        assert_eq!(msgs[0].role, Role::User);
        assert_eq!(msgs[0].ts.as_deref(), Some("t"));
        assert_eq!(sess.msgs, 3);
    }
}

#[test]
fn compacted_factory_session_reads_summary_and_kept() {
    let body = [
        r#"{"type":"message","id":"m1","message":{"role":"user","content":"old"}}"#,
        r#"{"type":"message","id":"m2","message":{"role":"user","content":"kept"}}"#,
        r#"{"type":"compaction_state","id":"c","summaryText":"so far","anchorMessage":{"id":"m2"}}"#,
        r#"{"type":"message","id":"m3","message":{"role":"user","content":"new"}}"#,
    ]
    .join("\n");
    let msgs = parse(&file("s.jsonl", &body), Harness::Factory).1;
    let said: Vec<&Block> = msgs.iter().map(|m| &m.blocks[0]).collect();
    assert_eq!(
        said,
        vec![
            &Block::Text("so far".into()),
            &Block::Text("kept".into()),
            &Block::Text("new".into())
        ]
    );
}

#[test]
fn compacted_claude_session_starts_at_the_boundary() {
    let body = [
        r#"{"type":"user","message":{"role":"user","content":"old"}}"#,
        r#"{"type":"system","subtype":"compact_boundary"}"#,
        r#"{"type":"user","message":{"role":"user","content":"older summary"}}"#,
        r#"{"type":"system","subtype":"compact_boundary"}"#,
        r#"{"type":"system","subtype":"other"}"#,
        r#"{"type":"user","message":{"role":"user","content":"summary"}}"#,
    ]
    .join("\n");
    let msgs = parse(&file("s.jsonl", &body), Harness::Claude).1;
    assert_eq!(msgs, vec![user("summary")]);
}

#[test]
fn compacted_codex_session_reads_its_replacement() {
    let item = |t: &str| {
        format!(
            r#"{{"type":"response_item","payload":{{"type":"message","role":"user","content":[{{"type":"input_text","text":"{t}"}}]}}}}"#
        )
    };
    let replaced = r#"{"type":"compacted","payload":{"message":"m","replacement_history":[{"type":"message","role":"user","content":[{"type":"input_text","text":"kept"}]}]}}"#;
    let summed = r#"{"type":"compacted","payload":{"message":"so far"}}"#;
    let body = [item("old"), replaced.to_string(), item("new")].join("\n");
    let msgs = parse(&file("s.jsonl", &body), Harness::Codex).1;
    assert_eq!(msgs, vec![user("kept"), user("new")]);
    let body = [item("old"), summed.to_string(), item("new")].join("\n");
    let msgs = parse(&file("s.jsonl", &body), Harness::Codex).1;
    assert_eq!(msgs, vec![user("so far"), user("new")]);
}

#[test]
fn session_files_are_told_by_name() {
    assert!(discover::is_session_file(Harness::Claude, "a.jsonl"));
    assert!(!discover::is_session_file(Harness::Claude, "a.json"));
    assert!(!discover::is_session_file(Harness::Claude, ".jsonl"));
    assert!(discover::is_session_file(
        Harness::Codex,
        "rollout-1.jsonl"
    ));
    assert!(!discover::is_session_file(Harness::Codex, "session.jsonl"));
}

#[test]
fn extra_directories_default_to_omp() {
    let brand = Brand {
        name: cl(),
        title: "CL".to_string(),
    };
    assert_eq!(
        discover::extra_harness(Path::new("/home/b/.pi/agent/sessions"), &brand),
        Harness::Pi
    );
    assert_eq!(
        discover::extra_harness(Path::new("/srv/old"), &brand),
        Harness::Omp
    );
}

#[test]
fn written_records_are_stamped_with_the_files_time() {
    let at = std::time::UNIX_EPOCH + std::time::Duration::from_secs(1_750_000_000);
    let sess = Session {
        modified: Some(at),
        ..bare_session("")
    };
    let mut msgs = vec![user("hi"), user("ho")];
    msgs[1].ts = Some("2020-01-01T00:00:00.000Z".to_string());
    let lines = read_lines(&write(&store(), Harness::Pi, &sess, &msgs));
    assert_eq!(lines[0]["timestamp"], "2025-06-15T15:06:40.000Z");
    assert_eq!(lines[1]["timestamp"], "2025-06-15T15:06:40.000Z");
    assert_eq!(lines[2]["timestamp"], "2020-01-01T00:00:00.000Z");
    let early = Session {
        modified: Some(std::time::UNIX_EPOCH - std::time::Duration::from_secs(5)),
        ..bare_session("")
    };
    let lines = read_lines(&write(&store(), Harness::Codex, &early, &msgs));
    assert_eq!(lines[0]["timestamp"], "1970-01-01T00:00:00.000Z");
}

#[test]
fn tool_messages_without_a_result_are_left_out() {
    let msgs = vec![
        user("a"),
        Msg {
            role: Role::Tool,
            blocks: vec![Block::Text("no result".into())],
            ts: None,
        },
        user("b"),
    ];
    let lines = read_lines(&write(&store(), Harness::Pi, &bare_session(""), &msgs));
    assert_eq!(lines.len(), 3);
    assert_eq!(lines[2]["parentId"], lines[1]["id"]);
    let codex = read_lines(&write(&store(), Harness::Codex, &bare_session(""), &msgs));
    assert_eq!(codex.len(), 3);
    assert_eq!(codex[2]["ordinal"], 2);
}

#[test]
fn later_moments_have_later_timestamps() {
    let moments = [
        0,
        59,
        60,
        86_399,
        86_400,
        951_782_400,
        951_868_800,
        1_767_225_599,
        1_767_225_600,
        253_402_300_799,
    ];
    for w in moments.windows(2) {
        assert!(format_iso(w[0]) < format_iso(w[1]));
    }
    assert_eq!(format_iso(253_402_300_799), "9999-12-31T23:59:59.000Z");
}

#[test]
fn sessions_without_a_time_take_the_present() {
    let now = std::time::UNIX_EPOCH + std::time::Duration::from_secs(77);
    assert_eq!(secs_at(&bare_session(""), &now), 77);
    let dated = Session {
        modified: Some(std::time::UNIX_EPOCH),
        ..bare_session("")
    };
    assert_eq!(secs_at(&dated, &now), 0);
}
