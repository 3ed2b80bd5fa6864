use bodysnatcher::budget::{estimate, msg_tokens_upto, tokens_upto, within_budget, Limits, Policy};
use bodysnatcher::compact::{build, chunk, clip_block, compact, report, tail_start, try_compact};
use bodysnatcher::digest::{clip, digest, section, Detail};
use bodysnatcher::history::parse_lines;
use bodysnatcher::json::Json;
use bodysnatcher::landing::LEAST_BUDGET;
use bodysnatcher::model::{Block, Brand, Harness, Msg, Role};
use bodysnatcher::resume::{fit, must_read, to_write};
use bodysnatcher::window::{
    claude_used_1m, claude_window, detect_window, factory_window, find_window, is_large_record,
    newest_transcripts, parse_number, pi_window, toml_value, Config,
};

fn text(role: Role, s: &str) -> Msg {
    Msg {
        role,
        blocks: vec![Block::Text(s.to_string())],
        ts: None,
    }
}

fn obj(key: &str, value: &str) -> Json {
    Json::object().with(key, Json::of_text(value))
}

fn brand() -> Brand {
    Brand {
        name: "cl".to_string(),
        title: "CL".to_string(),
    }
}

fn config() -> Config {
    Config {
        env_model: None,
        settings: None,
        catalog: None,
        transcripts: Vec::new(),
    }
}

/// `turns` user/assistant/tool cycles, each carrying ~`size` bytes of tool output.
fn session(turns: usize, size: usize) -> Vec<Msg> {
    let mut msgs = Vec::new();
    for i in 0..turns {
        msgs.push(text(Role::User, &format!("request {i}")));
        msgs.push(Msg {
            role: Role::Assistant,
            blocks: vec![Block::ToolCall {
                id: format!("c{i}"),
                name: "Read".into(),
                args: obj("file_path", &format!("src/f{i}.rs")),
            }],
            ts: None,
        });
        msgs.push(Msg {
            role: Role::Tool,
            blocks: vec![Block::ToolResult {
                call_id: format!("c{i}"),
                name: None,
                content: "x".repeat(size),
                is_error: i % 7 == 0,
            }],
            ts: None,
        });
        msgs.push(text(Role::Assistant, &format!("done {i}")));
    }
    msgs
}

#[test]
fn fitting_session_is_untouched() {
    let msgs = session(10, 1000);
    assert_eq!(compact(&msgs, Limits::new(1_000_000, None)), None);
}

#[test]
fn oversized_session_lands_within_budget() {
    // ~3M tokens into a 1M window: land at 200k
    let msgs = session(3000, 4000);
    assert!(estimate(&msgs) > 2_900_000);
    let lim = Limits::new(1_000_000, None);
    assert_eq!(lim.budget, 200_000);
    let out = compact(&msgs, lim).unwrap();
    assert!(estimate(&out) <= 200_000, "{}", estimate(&out));
    // newest turn kept verbatim
    assert_eq!(out.last(), msgs.last());
    // checkpoints lead, alternating user/assistant
    let Block::Text(first) = &out[0].blocks[0] else {
        panic!()
    };
    assert!(first.contains("compacted on import"));
    assert!(first.contains("checkpoint 1/"));
    assert_eq!(out[1].role, Role::Assistant);
}

#[test]
fn tail_never_starts_with_orphan_tool_result() {
    let msgs = session(400, 4000);
    let out = compact(&msgs, Limits::new(200_000, None)).unwrap();
    let tail_start = out
        .iter()
        .position(|m| {
            !matches!(&m.blocks[0], Block::Text(t) if t.contains("checkpoint") || t.starts_with("Checkpoint"))
        })
        .unwrap();
    assert_ne!(out[tail_start].role, Role::Tool);
    assert!(estimate(&out) <= Limits::new(200_000, None).budget);
}

#[test]
fn single_prompt_agent_run_still_checkpoints() {
    let mut msgs = session(300, 4000);
    msgs.retain(|m| m.role != Role::User);
    msgs.insert(0, text(Role::User, "do the whole thing"));
    let lim = Limits::new(200_000, None);
    let out = compact(&msgs, lim).unwrap();
    assert!(estimate(&out) <= lim.budget);
    let Block::Text(first) = &out[0].blocks[0] else {
        panic!()
    };
    assert!(first.contains("checkpoint 1/"));
    assert!(first.contains("do the whole thing"));
    assert_eq!(out.last(), msgs.last());
}

#[test]
fn giant_final_tool_result_is_clipped_to_fit() {
    let mut msgs = session(2, 10);
    msgs.push(text(Role::User, "read the huge file"));
    msgs.push(Msg {
        role: Role::Tool,
        blocks: vec![Block::ToolResult {
            call_id: "c".into(),
            name: None,
            content: "y".repeat(5_000_000),
            is_error: false,
        }],
        ts: None,
    });
    let lim = Limits::new(272_000, None);
    let out = compact(&msgs, lim).unwrap();
    assert!(estimate(&out) <= lim.budget);
    let Block::ToolResult { content, .. } = &out.last().unwrap().blocks[0] else {
        panic!()
    };
    assert!(content.contains("elided by bodysnatcher"));
}

#[test]
fn huge_tool_call_in_tail_still_fits() {
    let mut msgs = session(3, 10);
    msgs.push(text(Role::User, "write it"));
    msgs.push(Msg {
        role: Role::Assistant,
        blocks: vec![Block::ToolCall {
            id: "w".into(),
            name: "Write".into(),
            args: obj("file_path", "big.txt").with("content", Json::of_text(&"z".repeat(2_000_000))),
        }],
        ts: None,
    });
    let lim = Limits::new(200_000, None);
    let out = compact(&msgs, lim).unwrap();
    assert!(estimate(&out) <= lim.budget, "{}", estimate(&out));
}

#[test]
fn budget_caps_at_share_of_window() {
    assert_eq!(Limits::new(1_000_000, None).budget, 200_000);
    assert_eq!(Limits::new(200_000, None).budget, 120_000);
    assert_eq!(Limits::new(1_000_000, Some(300_000)).budget, 300_000);
}

#[test]
fn detects_1m_claude_from_transcript_usage() {
    let turn = |n: u64| {
        format!(
            "{{\"message\":{{\"role\":\"assistant\",\"usage\":{{\"input_tokens\":10,\"cache_read_input_tokens\":{n}}}}}}}\n"
        )
    };
    let mut texts = vec![turn(150_000)];
    assert!(!claude_used_1m(&texts));
    texts.push(turn(640_000));
    assert!(claude_used_1m(&texts));
}

#[test]
fn digest_lists_requests_tools_files_errors() {
    let msgs = session(3, 10);
    let d = digest(&msgs, 0, msgs.len(), Detail::Full);
    assert!(d.contains("- request 2"));
    assert!(d.contains("- done 1"));
    assert!(d.contains("Read×3"));
    assert!(d.contains("src/f2.rs"));
    assert!(d.contains("Errors:"));
}

#[test]
fn disabled_policy_yields_no_limits() {
    let p = Policy {
        disabled: true,
        ..Default::default()
    };
    assert_eq!(p.limits(Harness::Claude, &config()), None);
    let p = Policy {
        window: Some(500_000),
        ..Default::default()
    };
    assert_eq!(p.limits(Harness::Pi, &config()).unwrap().window, 500_000);
}

#[test]
fn detects_windows_from_harness_configs() {
    let codex = Config {
        settings: Some("model = \"gpt-x\"\n[projects.\"/a\"]\nmodel = \"no\"\n".to_string()),
        catalog: Some(r#"{"models":[{"slug":"gpt-x","context_window":400000}]}"#.to_string()),
        ..config()
    };
    let pi = Config {
        settings: Some(r#"{"defaultModel":"k"}"#.to_string()),
        catalog: Some(
            r#"{"providers":{"p":{"models":[{"id":"k","contextWindow":1048576}]}}}"#.to_string(),
        ),
        ..config()
    };
    let factory = Config {
        settings: Some(r#"{"sessionDefaultSettings":{"model":"custom:m-0"},"customModels":[{"id":"custom:m-0","maxContextLimit":272000}]}"#.to_string()),
        ..config()
    };
    assert_eq!(detect_window(Harness::Codex, &codex), 400_000);
    assert_eq!(detect_window(Harness::Pi, &pi), 1_048_576);
    assert_eq!(detect_window(Harness::Factory, &factory), 272_000);
    assert_eq!(detect_window(Harness::Omp, &config()), 200_000);
    let codex = Config {
        settings: Some("model_context_window = 123456\n".to_string()),
        ..codex
    };
    assert_eq!(detect_window(Harness::Codex, &codex), 123_456);
}

#[test]
fn windows_default_without_a_config() {
    assert_eq!(detect_window(Harness::Codex, &config()), 272_000);
    assert_eq!(detect_window(Harness::Claude, &config()), 200_000);
    assert_eq!(detect_window(Harness::Pi, &config()), 200_000);
    assert_eq!(detect_window(Harness::Factory, &config()), 200_000);
}

#[test]
fn claude_window_follows_model_then_usage() {
    let one = Config {
        env_model: Some("large-x[1M]".to_string()),
        settings: Some(r#"{"model":"small"}"#.to_string()),
        ..config()
    };
    assert_eq!(detect_window(Harness::Claude, &one), 1_000_000);
    let set = Config {
        settings: Some(r#"{"model":"small"}"#.to_string()),
        transcripts: vec![r#"{"message":{"usage":{"input_tokens":900000}}}"#.to_string()],
        ..config()
    };
    assert_eq!(detect_window(Harness::Claude, &set), 200_000);
    let used = Config {
        settings: Some("{}".to_string()),
        ..set
    };
    assert_eq!(detect_window(Harness::Claude, &used), 1_000_000);
    assert_eq!(
        claude_window(&Some("m[1m]".to_string()), false),
        Some(1_000_000)
    );
    assert_eq!(claude_window(&None, false), None);
}

#[test]
fn usage_must_exceed_200k() {
    let line = |n: u64| {
        format!(r#"{{"message":{{"usage":{{"input_tokens":{n},"cache_creation_input_tokens":100000}}}}}}"#)
    };
    assert!(!claude_used_1m(&vec![line(100_000)]));
    assert!(claude_used_1m(&vec![line(100_001)]));
    assert!(!claude_used_1m(&vec!["\"usage\" {".to_string()]));
}

#[test]
fn toml_values_are_read_before_any_table() {
    let cfg = "a = \"x\"\n# note\n  b= 12 \n [t]\nc = 1\n";
    assert_eq!(toml_value(cfg, "a").as_deref(), Some("x"));
    assert_eq!(toml_value(cfg, "b").as_deref(), Some("12"));
    assert_eq!(toml_value(cfg, "c"), None);
    assert_eq!(toml_value("k = v = w", "k").as_deref(), Some("v = w"));
}

#[test]
fn numbers_parse_as_usize() {
    assert_eq!(parse_number("123"), Some(123));
    assert_eq!(parse_number("+7"), Some(7));
    assert_eq!(parse_number(""), None);
    assert_eq!(parse_number("+"), None);
    assert_eq!(parse_number("-1"), None);
    assert_eq!(parse_number("1_000"), None);
    assert_eq!(parse_number("99999999999999999999999"), None);
}

#[test]
fn catalog_search_goes_deep_and_needs_a_window() {
    let v = Json::parse(
        r#"{"a":[{"id":"m"},{"model":"m","maxContextLimit":-1},{"x":{"slug":"m","contextWindow":9}}]}"#,
    )
    .unwrap();
    assert_eq!(find_window(&v, "m"), Some(9));
    assert_eq!(find_window(&v, "n"), None);
}

#[test]
fn newest_transcripts_are_five_at_most() {
    assert_eq!(
        newest_transcripts(&vec![3, 9, 9, 1, 7, 8, 2]),
        vec![1, 2, 5, 4, 0]
    );
    assert_eq!(newest_transcripts(&vec![]), Vec::<usize>::new());
}

#[test]
fn budget_is_at_least_one() {
    assert_eq!(Limits::new(0, None).budget, 1);
    assert_eq!(Limits::new(1_000_000, Some(0)).budget, 1);
    assert_eq!(Limits::new(1_000_000, Some(900_000)).budget, 600_000);
}

#[test]
fn fits_keeps_a_reserve() {
    let l = Limits::new(200_000, None);
    assert!(l.fits(168_000));
    assert!(!l.fits(168_001));
    assert!(!Limits::new(31_999, None).fits(0));
    assert!(!l.file_may_overflow(None));
    assert!(!l.file_may_overflow(Some(672_003)));
    assert!(l.file_may_overflow(Some(672_004)));
}

#[test]
fn estimate_counts_four_bytes_per_token() {
    let msgs = vec![text(Role::User, "12345678"), text(Role::User, "é")];
    assert_eq!(estimate(&msgs), 10);
    assert_eq!(tokens_upto(&msgs, 10), Some(10));
    assert_eq!(tokens_upto(&msgs, 9), None);
    assert!(within_budget(&msgs, 10));
    let call = Msg {
        role: Role::Assistant,
        blocks: vec![Block::ToolCall {
            id: "ignored".into(),
            name: "Read".into(),
            args: obj("p", "q"),
        }],
        ts: None,
    };
    // 4 + (4 + 9) / 4
    assert_eq!(msg_tokens_upto(&call, 100), Some(7));
}

#[test]
fn tail_moves_past_tool_results() {
    let msgs = session(2, 400);
    // 4 messages a turn; the result of the last call is 104 tokens
    assert_eq!(tail_start(&msgs, 10), 7);
    assert_eq!(tail_start(&msgs, 110), 7);
    assert_eq!(tail_start(&msgs, 10_000), 0);
    assert_eq!(tail_start(&Vec::new(), 5), 0);
    let mut tools = msgs;
    tools.pop();
    assert_eq!(tail_start(&tools, 10), 5);
}

#[test]
fn spans_cover_the_head_in_order() {
    let msgs = session(400, 4000);
    let spans = chunk(&msgs, 1400);
    assert_eq!(spans[0].0, 0);
    assert_eq!(spans.last().unwrap().1, 1400);
    for w in spans.windows(2) {
        assert_eq!(w[0].1, w[1].0);
        assert_ne!(msgs[w[1].0].role, Role::Tool);
    }
    assert_eq!(spans.len(), 3);
    assert!(chunk(&msgs, 0).is_empty());
}

#[test]
fn checkpoints_name_their_span() {
    let msgs = session(2, 10);
    let out = build(&msgs, 4, Detail::Full, 123_456, 200_000);
    assert_eq!(out.len(), 6);
    let Block::Text(first) = &out[0].blocks[0] else {
        panic!()
    };
    assert_eq!(
        first,
        "[bodysnatcher] This session was compacted on import: the original history (~123k tokens, 8 messages) exceeded the target model's 200k-token context window. The oldest 4 messages are summarized in 1 checkpoint(s); the most recent 4 messages follow verbatim.\n\n[bodysnatcher checkpoint 1/1 · messages 1–4 of 8]\nUser requests:\n- request 0\nAssistant outcomes:\n- done 0\nTools used: Read×1\nFiles touched: src/f0.rs\nErrors:\n- xxxxxxxxxx\n"
    );
    assert_eq!(
        out[1].blocks,
        vec![Block::Text("Checkpoint 1/1 noted.".into())]
    );
    assert_eq!(out[2], msgs[4]);
    // a tail that opens with the assistant takes the place of the note
    let out = build(&msgs, 3, Detail::Minimal, 1, 1);
    assert_eq!(out.len(), 6);
    assert_eq!(out[1], msgs[3]);
}

#[test]
fn clip_cuts_at_a_character() {
    assert_eq!(clip("abc", 3), "abc");
    assert_eq!(clip("abcd", 3), "abc…");
    assert_eq!(clip("aéé", 2), "aé…");
    assert_eq!(clip("ééééé", 6), "ééééé");
}

#[test]
fn section_lists_the_most_recent() {
    let items = vec!["a".to_string(), "b \n c".to_string(), "d".to_string()];
    let mut out = "top\n".to_string();
    section(&mut out, "Title", &items, 2, 10);
    assert_eq!(out, "top\nTitle (last 2 of 3):\n- b c\n- d\n");
    section(&mut out, "None", &items, 0, 10);
    section(&mut out, "None", &Vec::new(), 5, 10);
    assert_eq!(out, "top\nTitle (last 2 of 3):\n- b c\n- d\n");
}

#[test]
fn section_counts_characters() {
    let items = vec!["old".to_string(), "a  b".to_string(), "ééééé".to_string()];
    let mut out = String::new();
    section(&mut out, "T", &items, 2, 6);
    assert_eq!(out, "T (last 2 of 3):\n- a b\n- ééééé\n");
}

#[test]
fn huge_names_and_paths_still_fit() {
    let huge = |name: &str, path: &str| {
        let mut msgs = session(3, 10);
        msgs.push(text(Role::User, "go"));
        msgs.push(Msg {
            role: Role::Assistant,
            blocks: vec![Block::ToolCall {
                id: "w".into(),
                name: name.into(),
                args: obj("path", path),
            }],
            ts: None,
        });
        msgs
    };
    let lim = Limits::new(200_000, None);
    let long = "z".repeat(2_000_000);
    for msgs in [huge(&long, "a"), huge("Write", &long)] {
        let out = compact(&msgs, lim).unwrap();
        assert!(estimate(&out) <= lim.budget, "{}", estimate(&out));
    }
}

#[test]
fn many_tools_still_fit_the_least_budget() {
    let msgs: Vec<Msg> = (0..600)
        .map(|i| Msg {
            role: Role::Assistant,
            blocks: vec![Block::ToolCall {
                id: format!("c{i}"),
                name: format!("tool-{i}-{}", "é".repeat(60)),
                args: obj("file_path", &format!("{}{i}", "é".repeat(300))),
            }],
            ts: None,
        })
        .collect();
    let lim = Limits::new(100_000, Some(LEAST_BUDGET));
    assert_eq!(lim.budget, LEAST_BUDGET);
    let out = compact(&msgs, lim).unwrap();
    assert!(estimate(&out) <= LEAST_BUDGET, "{}", estimate(&out));
    let d = digest(&msgs, 0, 12, Detail::Least);
    assert!(d.starts_with("Tools used (first 5 of 12): tool-0-"));
    assert!(d.contains("…×1, "));
    assert!(d.contains(&format!("{}…, ", "é".repeat(80))));
}

#[test]
fn names_and_paths_are_whole_in_every_other_digest() {
    let name = "n".repeat(500);
    let path = "p".repeat(500);
    let calls = (0..200).map(|i| Msg {
        role: Role::Assistant,
        blocks: vec![Block::ToolCall {
            id: format!("c{i}"),
            name: format!("{name}{i:03}"),
            args: obj("path", &path),
        }],
        ts: None,
    });
    let msgs: Vec<Msg> = calls.collect();
    for detail in [Detail::Full, Detail::Brief, Detail::Minimal] {
        let d = digest(&msgs, 0, 200, detail);
        assert!(d.starts_with(&format!("Tools used: {name}000×1, {name}001×1, ")));
        assert!(d.ends_with(&format!("{name}199×1\nFiles touched: {path}\n")));
        assert!(!d.contains('…'));
    }
}

#[test]
fn the_least_detail_comes_after_the_last_resort() {
    let call = |name: String| Msg {
        role: Role::Assistant,
        blocks: vec![Block::ToolCall {
            id: "c".into(),
            name,
            args: Json::object(),
        }],
        ts: None,
    };
    let msgs = vec![text(Role::User, "go"), call("z".repeat(400_000))];
    let least = compact(&msgs, Limits::new(100_000, None)).unwrap();
    assert_eq!(least.len(), 2);
    let Block::Text(t) = &least[0].blocks[0] else {
        panic!("expected a checkpoint");
    };
    assert!(t.ends_with(&format!(
        "User requests:\n- go\nTools used: {}…×1\n",
        "z".repeat(40)
    )));
    // where that would not fit either, the last resort stays as it is
    let lim = Limits {
        window: 100_000,
        budget: 1,
    };
    let over = compact(&msgs, lim).unwrap();
    assert_eq!(over, build(&msgs, 2, Detail::Minimal, estimate(&msgs), 100_000));
}

#[test]
fn fractions_beside_a_message_do_not_count() {
    let line = r#"{"type":"message","cost":1e15,"message":{"role":"assistant","content":[{"type":"text","text":"t","score":1e15}]}}"#;
    let lines = vec![line.to_string()];
    let msgs = parse_lines(Harness::Factory, &lines);
    assert_eq!(msgs.len(), 1);
    assert!(4 * estimate(&msgs) <= line.len());
}

#[test]
fn windows_are_found_in_documents() {
    let json = |s: &str| Json::parse(s).unwrap();
    let settings = json(r#"{"defaultModel":"k"}"#);
    let catalog = Some(json(r#"{"models":[{"id":"k","contextWindow":9}]}"#));
    assert_eq!(pi_window(&settings, &catalog), Some(9));
    assert_eq!(pi_window(&settings, &None), None);
    assert_eq!(pi_window(&Json::object(), &catalog), None);
    let factory = json(
        r#"{"sessionDefaultSettings":{"model":"m"},"customModels":[{"id":"m","maxContextLimit":7}]}"#,
    );
    assert_eq!(factory_window(&factory), Some(7));
    assert_eq!(factory_window(&settings), None);
    let usage = |n: u64| {
        json(&format!(
            r#"{{"message":{{"usage":{{"input_tokens":{n},"cache_read_input_tokens":200000}}}}}}"#
        ))
    };
    assert!(is_large_record(&usage(1)));
    assert!(!is_large_record(&usage(0)));
}

#[test]
fn small_files_hold_sessions_that_fit() {
    let line = |i: usize| {
        format!(
            r#"{{"type":"message","message":{{"role":"user","content":[{{"type":"tool_result","content":"{i}"}},{{"type":"text","text":"\u00e9 {i}"}}]}}}}"#
        )
    };
    let lines: Vec<String> = (0..50).map(line).collect();
    let bytes: usize = lines.iter().map(|l| l.len()).sum();
    let msgs = parse_lines(Harness::Factory, &lines);
    assert_eq!(msgs.len(), 100);
    assert!(4 * estimate(&msgs) <= bytes);
    let lim = Limits::new(32_000 + bytes / 4, None);
    assert!(!lim.file_may_overflow(Some(bytes)));
    assert_eq!(compact(&msgs, lim), None);
}

#[test]
fn digest_tells_tools_in_order_and_files_once() {
    let call = |name: &str, key: &str, path: &str| Msg {
        role: Role::Assistant,
        blocks: vec![Block::ToolCall {
            id: "c".into(),
            name: name.into(),
            args: obj(key, path),
        }],
        ts: None,
    };
    let msgs = vec![
        call("Write", "path", "b"),
        call("Read", "file_path", "a"),
        call("Edit", "filePath", "b"),
        call("Read", "notebook_path", "c"),
        call("Read", "other", "d"),
    ];
    assert_eq!(
        digest(&msgs, 0, 5, Detail::Brief),
        "Tools used: Edit×1, Read×3, Write×1\nFiles touched: a, b, c\n"
    );
    assert_eq!(digest(&msgs, 2, 2, Detail::Full), "");
}

#[test]
fn minimal_digest_leaves_out_notes_and_errors() {
    let msgs = session(1, 5);
    assert_eq!(
        digest(&msgs, 0, 4, Detail::Minimal),
        "User requests:\n- request 0\nTools used: Read×1\nFiles touched: src/f0.rs\n"
    );
}

#[test]
fn clip_block_keeps_head_and_tail() {
    let b = clip_block(&Block::Text("abcdéfghij".into()), 8);
    assert_eq!(
        b,
        Block::Text("abcd\n[… 3 bytes elided by bodysnatcher …]\nghij".into())
    );
    let short = clip_block(&Block::Thinking("abc".into()), 8);
    assert_eq!(short, Block::Thinking("abc".into()));
    let call = Block::ToolCall {
        id: "i".into(),
        name: "n".into(),
        args: obj("k", "a long value indeed"),
    };
    let same = clip_block(&call, 2);
    assert_eq!(same, call);
}

#[test]
fn report_names_sizes_and_target() {
    let before = session(100, 4000);
    let after = session(1, 4000);
    assert_eq!(
        report(&before, &after, Limits::new(100_000, None), Harness::Pi, &brand()),
        "bodysnatcher: ~102k tokens exceeds pi's 100k context window; compacted 400 msgs -> 4 (~1k tokens) into a new session"
    );
}

#[test]
fn try_compact_agrees_with_compact() {
    let msgs = session(400, 4000);
    let lim = Limits::new(200_000, None);
    assert_eq!(try_compact(&msgs, lim).unwrap(), compact(&msgs, lim));
    assert_eq!(
        try_compact(&session(1, 1), lim),
        Some(None)
    );
}

#[test]
fn compacted_roles_alternate_at_the_joint() {
    let msgs = session(400, 4000);
    let out = compact(&msgs, Limits::new(200_000, None)).unwrap();
    for w in out.windows(2).take(6) {
        assert!(w[0].role != w[1].role);
    }
}

#[test]
fn native_resume_writes_only_a_compacted_copy() {
    let lim = Some(Limits::new(200_000, None));
    let fitting = |msgs, lim| fit(msgs, lim, Harness::Pi, &brand()).unwrap();
    let (own, other) = (Harness::Pi, Harness::Omp);
    assert!(to_write(own, own, fitting(session(2, 10), lim)).is_none());
    let big = to_write(own, own, fitting(session(400, 4000), lim)).unwrap();
    assert!(estimate(&big) <= 120_000);
    assert!(to_write(own, own, fitting(session(400, 4000), None)).is_none());
    let copy = to_write(own, other, fitting(session(2, 10), lim)).unwrap();
    assert_eq!(copy, session(2, 10));
}

#[test]
fn only_compacted_messages_carry_a_note() {
    let lim = Limits::new(200_000, None);
    let f = fit(session(2, 10), Some(lim), Harness::Pi, &brand()).unwrap();
    assert!(!f.compacted);
    assert_eq!(f.note, None);
    let f = fit(session(400, 4000), Some(lim), Harness::Pi, &brand()).unwrap();
    assert!(f.compacted);
    assert_eq!(
        f.note,
        Some(report(
            &session(400, 4000),
            &f.msgs,
            lim,
            Harness::Pi,
            &brand()
        ))
    );
}

#[test]
fn large_files_are_read_before_a_native_resume() {
    let lim = Some(Limits::new(200_000, None));
    assert!(must_read(Harness::Pi, Harness::Omp, None, None));
    assert!(!must_read(Harness::Pi, Harness::Pi, lim, Some(1000)));
    assert!(must_read(Harness::Pi, Harness::Pi, lim, Some(1_000_000)));
    assert!(!must_read(Harness::Pi, Harness::Pi, None, Some(1_000_000)));
}
