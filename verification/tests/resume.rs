use bodysnatcher::model::{Brand, Harness, Session};
use bodysnatcher::resume::{build, describe, done_note, source_of, Target};
use std::path::{Path, PathBuf};

fn brand() -> Brand {
    Brand::of(&format!("{:?}", Harness::Claude).to_lowercase())
}

fn sess(harness: Harness, id: &str) -> Session {
    Session {
        harness,
        path: PathBuf::from("/tmp/bs-r/s.jsonl"),
        id: id.into(),
        title: "t".into(),
        cwd: "/tmp".into(),
        model: String::new(),
        msgs: 0,
        preview: String::new(),
        modified: None,
    }
}

#[test]
fn target_cycles() {
    assert_eq!(Target::Auto.next(), Target::Codex);
    assert_eq!(Target::Codex.next(), Target::Claude);
    assert_eq!(Target::Claude.next(), Target::Omp);
    assert_eq!(Target::Factory.next(), Target::Auto);
    assert_eq!(Target::Omp.label(), "OMP");
    assert_eq!(Target::Factory.label(), "FAC");
    assert_eq!(Target::Claude.label(), "CL");
    assert_eq!(Target::Codex.label(), "CX");
    assert_eq!(Target::Omp.desc(&brand()), "OMP");
    assert_eq!(Target::Factory.desc(&brand()), "Factory Droid");
    assert_eq!(Target::Claude.desc(&brand()), format!("{:?} Code", Target::Claude));
    assert_eq!(Target::Codex.desc(&brand()), "Codex");
    assert_eq!(Target::Auto.desc(&brand()), "native harness");
}

#[test]
fn describe_names_conversion() {
    let sess = Session {
        harness: Harness::Factory,
        path: "/tmp/x.jsonl".into(),
        id: "x".into(),
        title: "t".into(),
        cwd: "/tmp".into(),
        model: String::new(),
        msgs: 0,
        preview: String::new(),
        modified: None,
    };
    assert_eq!(describe(&sess, Target::Omp, &brand()), "factory -> omp (convert)");
    assert_eq!(
        describe(&sess, Target::Auto, &brand()),
        "factory -> droid -r (native)"
    );
}

#[test]
fn build_native_keeps_path() {
    let cmd = build(&sess(Harness::Omp, "x"), Target::Auto, None, &brand());
    assert_eq!(cmd.bin, "omp");
    assert_eq!(
        cmd.args,
        vec![
            PathBuf::from("--resume"),
            PathBuf::from("/tmp/bs-r/s.jsonl")
        ]
    );
}

#[test]
fn build_native_id_resume_commands() {
    let name = brand().name;
    for (harness, target, bin, args) in [
        (
            Harness::Claude,
            Target::Claude,
            name.as_str(),
            vec![PathBuf::from("--resume"), PathBuf::from("session-id")],
        ),
        (
            Harness::Codex,
            Target::Codex,
            "codex",
            vec![PathBuf::from("resume"), PathBuf::from("session-id")],
        ),
    ] {
        let cmd = build(&sess(harness, "session-id"), target, None, &brand());
        assert_eq!(cmd.bin, bin);
        assert_eq!(cmd.args, args);
    }
}

#[test]
fn build_resumes_the_copy() {
    let copy = || Some((PathBuf::from("/s/new.jsonl"), "new".to_string()));
    let s = sess(Harness::Codex, "old");
    let droid = build(&s, Target::Factory, copy(), &brand());
    assert_eq!(droid.bin, "droid");
    assert_eq!(
        droid.args,
        vec![PathBuf::from("-r"), PathBuf::from("new")]
    );
    let pi = build(&s, Target::Pi, copy(), &brand());
    assert_eq!(pi.bin, "pi");
    assert_eq!(
        pi.args,
        vec![PathBuf::from("--session"), PathBuf::from("/s/new.jsonl")]
    );
    let own = build(&s, Target::Auto, copy(), &brand());
    assert_eq!(own.args[1], PathBuf::from("new"));
}

#[test]
fn targets_come_round_and_name_their_harness() {
    let mut t = Target::Auto;
    for _ in 0..6 {
        t = t.next();
    }
    assert_eq!(t, Target::Auto);
    for h in Harness::all() {
        assert_eq!(Target::of(h).resolve(Harness::Pi), h);
        assert_eq!(Target::Auto.resolve(h), h);
    }
}

#[test]
fn native_descriptions_show_the_command() {
    let say = |h| describe(&sess(h, "x"), Target::Auto, &brand());
    assert_eq!(say(Harness::Pi), "pi -> pi --session (native)");
    assert_eq!(say(Harness::Omp), "omp -> omp --resume (native)");
    let name = brand().name;
    assert_eq!(
        say(Harness::Claude),
        format!("{name} -> {name} --resume (native)")
    );
    assert_eq!(say(Harness::Codex), "codex -> codex resume (native)");
}

#[test]
fn source_is_named_or_inferred() {
    let b = brand();
    let omp = Path::new("/home/u/.omp/agent/sessions/x.jsonl");
    assert_eq!(source_of(None, omp, &b), Some(Harness::Omp));
    assert_eq!(
        source_of(Some(Harness::Pi), omp, &b),
        Some(Harness::Pi)
    );
    assert_eq!(source_of(None, Path::new("/nonexistent/input.jsonl"), &b), None);
}

#[test]
fn conversions_are_reported() {
    assert_eq!(
        done_note(
            Harness::Codex,
            "Fix it",
            12,
            Path::new("/s/new.jsonl"),
            &brand()
        ),
        "bodysnatcher: codex session \"Fix it\" (12 msgs) -> /s/new.jsonl"
    );
}
