//! Summaries of sessions: who, where, what about, how long.

use crate::budget;
use crate::history;
use crate::json;
use crate::json::{Json, Tree};
use crate::model;
use crate::model::{Harness, Msg, Session};
use crate::parse;
use crate::text;
use crate::weight;
use std::path::PathBuf;
use std::time::SystemTime;
use vstd::prelude::*;

verus! {

/// A session file as it was read.
pub struct SessionFile {
    pub path: PathBuf,
    /// The file's name without its extension, if it has a name.
    pub stem: Option<String>,
    pub modified: Option<SystemTime>,
    /// The lines up to the first that could not be read.
    pub lines: Vec<String>,
    /// Whether every line could be read.
    pub complete: bool,
}

/// A text on one line, at most 140 characters long.
pub open spec fn clipped(s: Seq<char>) -> Seq<char> {
    let t = text::trimmed(text::replaced(s, '\n', ' '));
    if t.len() > 140 {
        t.take(137).push('…')
    } else {
        t
    }
}

pub fn clip(s: &str) -> (r: String)
    ensures
        r@ == clipped(s@),
{
    let flat = text::replace(s, '\n', ' ');
    let t = text::trim(flat.as_str());
    let v = text::chars_of(t.as_str());
    if v.len() > 140 {
        proof {
            assert(v@.subrange(0, 137) =~= v@.take(137));
        }
        let mut r = text::slice(&v, 0, 137);
        r.push('…');
        r
    } else {
        t
    }
}

/// A clipped text is one line of at most 140 characters.
pub proof fn lemma_clipped(s: Seq<char>)
    ensures
        clipped(s).len() <= 140,
        forall|i: int| 0 <= i < clipped(s).len() ==> #[trigger] clipped(s)[i] != '\n',
{
    let flat = text::replaced(s, '\n', ' ');
    assert forall|i: int| 0 <= i < flat.len() implies #[trigger] flat[i] != '\n' by {}
    lemma_trim_part(flat);
}

/// Trimming takes a part out of a text.
pub(crate) proof fn lemma_trim_part(s: Seq<char>)
    ensures
        exists|i: int, j: int|
            0 <= i <= j <= s.len() && text::trimmed(s) == #[trigger] s.subrange(i, j),
{
    let i = lemma_trim_start_part(s);
    let t = text::trim_start(s);
    let n = lemma_trim_end_part(t);
    assert(s.skip(i).take(n) =~= s.subrange(i, i + n));
}

proof fn lemma_trim_start_part(s: Seq<char>) -> (i: int)
    ensures
        0 <= i <= s.len(),
        text::trim_start(s) == s.skip(i),
    decreases s.len(),
{
    if s.len() > 0 && text::white(s[0]) {
        let i = lemma_trim_start_part(s.drop_first());
        assert(s.drop_first().skip(i) =~= s.skip(i + 1));
        i + 1
    } else {
        assert(s.skip(0) =~= s);
        0
    }
}

proof fn lemma_trim_end_part(s: Seq<char>) -> (n: int)
    ensures
        0 <= n <= s.len(),
        text::trim_end(s) == s.take(n),
    decreases s.len(),
{
    if s.len() > 0 && text::white(s.last()) {
        let n = lemma_trim_end_part(s.drop_last());
        assert(s.drop_last().take(n) =~= s.take(n));
        n
    } else {
        assert(s.take(s.len() as int) =~= s);
        s.len() as int
    }
}

/// What the records read so far say of a session.
pub ghost struct SumV {
    pub id: Seq<char>,
    pub title: Seq<char>,
    pub cwd: Seq<char>,
    pub model: Seq<char>,
    pub preview: Seq<char>,
    pub msgs: nat,
}

/// Nothing is known yet.
pub open spec fn unknown() -> SumV {
    SumV {
        id: Seq::empty(),
        title: Seq::empty(),
        cwd: Seq::empty(),
        model: Seq::empty(),
        preview: Seq::empty(),
        msgs: 0,
    }
}

/// No title, or the one that Factory gives by default.
pub open spec fn untitled(title: Seq<char>) -> bool {
    title.len() == 0 || title == "New Session"@
}

/// What is known, or else what is new.
pub open spec fn or_else(known: Seq<char>, new: Seq<char>) -> Seq<char> {
    if known.len() == 0 {
        new
    } else {
        known
    }
}

pub open spec fn factory_message(s: SumV, m: Tree) -> SumV {
    let role = json::str_at(m, "role"@);
    let first = role == "user"@ && s.preview.len() == 0;
    let preview = match parse::user_text_of(m) {
        Some(t) => if first {
            clipped(t)
        } else {
            s.preview
        },
        None => s.preview,
    };
    SumV {
        msgs: s.msgs + 1,
        model: if role == "assistant"@ {
            or_else(s.model, json::str_at(m, "model"@))
        } else {
            s.model
        },
        preview,
        title: if first && untitled(s.title) {
            preview
        } else {
            s.title
        },
        ..s
    }
}

pub open spec fn factory_step(s: SumV, v: Tree) -> SumV {
    let ty = json::str_at(v, "type"@);
    if ty == "session_start"@ {
        SumV {
            id: json::str_at(v, "id"@),
            title: json::str_at(v, "title"@),
            cwd: json::str_at(v, "cwd"@),
            ..s
        }
    } else if ty == "message"@ {
        factory_message(s, json::at(v, "message"@))
    } else {
        s
    }
}

pub open spec fn claude_step(s: SumV, v: Tree) -> SumV {
    if json::is_true(json::field(v, "isSidechain"@)) {
        s
    } else {
        let ty = json::str_at(v, "type"@);
        let m = json::at(v, "message"@);
        let s = SumV { cwd: or_else(s.cwd, json::str_at(v, "cwd"@)), ..s };
        if ty == "assistant"@ {
            SumV {
                msgs: s.msgs + 1,
                model: or_else(s.model, json::str_at(m, "model"@)),
                ..s
            }
        } else if ty == "user"@ && json::str_at(m, "role"@) == "user"@ {
            match parse::user_text_of(m) {
                Some(t) => if s.preview.len() == 0 {
                    SumV { msgs: s.msgs + 1, preview: clipped(t), title: clipped(t), ..s }
                } else {
                    SumV { msgs: s.msgs + 1, ..s }
                },
                None => SumV { msgs: s.msgs + 1, ..s },
            }
        } else {
            s
        }
    }
}

pub open spec fn codex_step(s: SumV, v: Tree) -> SumV {
    let ty = json::str_at(v, "type"@);
    let payload = json::at(v, "payload"@);
    if ty == "session_meta"@ {
        if s.id.len() == 0 {
            SumV {
                id: or_else(json::str_at(payload, "id"@), json::str_at(payload, "session_id"@)),
                cwd: json::str_at(payload, "cwd"@),
                ..s
            }
        } else {
            s
        }
    } else if ty == "response_item"@ {
        let t = parse::codex_text_of(json::at(payload, "content"@), "input_text"@);
        if json::text_of(json::field(payload, "type"@)) != Some("message"@) {
            s
        } else if json::text_of(json::field(payload, "role"@)) == Some("user"@) && s.preview.len()
            == 0 && t.len() > 0 {
            SumV { msgs: s.msgs + 1, preview: clipped(t), title: clipped(t), ..s }
        } else {
            SumV { msgs: s.msgs + 1, ..s }
        }
    } else if ty == "turn_context"@ {
        SumV { model: or_else(s.model, json::str_at(payload, "model"@)), ..s }
    } else {
        s
    }
}

pub open spec fn pi_message(s: SumV, m: Tree) -> SumV {
    let role = json::str_at(m, "role"@);
    let s = SumV {
        msgs: s.msgs + 1,
        model: if role == "assistant"@ {
            or_else(s.model, json::str_at(m, "model"@))
        } else {
            s.model
        },
        ..s
    };
    match parse::user_text_of(m) {
        Some(t) => if role == "user"@ && s.preview.len() == 0 {
            SumV { preview: clipped(t), title: or_else(s.title, clipped(t)), ..s }
        } else {
            s
        },
        None => s,
    }
}

pub open spec fn pi_step(s: SumV, v: Tree) -> SumV {
    let ty = json::str_at(v, "type"@);
    if ty == "title"@ {
        SumV { title: or_else(s.title, json::str_at(v, "title"@)), ..s }
    } else if ty == "session"@ {
        SumV {
            id: json::str_at(v, "id"@),
            cwd: json::str_at(v, "cwd"@),
            title: or_else(s.title, json::str_at(v, "title"@)),
            ..s
        }
    } else if ty == "model_change"@ {
        SumV {
            model: or_else(
                s.model,
                or_else(json::str_at(v, "model"@), json::str_at(v, "modelId"@)),
            ),
            ..s
        }
    } else if ty == "message"@ {
        pi_message(s, json::at(v, "message"@))
    } else {
        s
    }
}

/// What is known of a session after one more record.
pub open spec fn step(h: Harness, s: SumV, v: Tree) -> SumV {
    match h {
        Harness::Factory => factory_step(s, v),
        Harness::Claude => claude_step(s, v),
        Harness::Codex => codex_step(s, v),
        Harness::Pi | Harness::Omp => pi_step(s, v),
    }
}

/// What the records of a session say of it.
pub open spec fn sum_records(h: Harness, recs: Seq<Tree>) -> SumV
    decreases recs.len(),
{
    if recs.len() == 0 {
        unknown()
    } else {
        step(h, sum_records(h, recs.drop_last()), recs.last())
    }
}

/// What the lines of a session file say of it.
pub open spec fn sum_lines(h: Harness, lines: Seq<Seq<char>>) -> SumV {
    sum_records(h, history::file_records(lines))
}

/// The summary with what is missing made up: the id from the file's name, the title from the last
/// part of it. None where there is no file name to take it from.
pub open spec fn completed(s: SumV, stem: Option<Seq<char>>) -> Option<SumV> {
    if (s.id.len() == 0 || untitled(s.title)) && stem is None {
        None
    } else {
        let name = match stem {
            Some(n) => n,
            None => Seq::empty(),
        };
        Some(
            SumV {
                id: or_else(s.id, name),
                title: clipped(
                    if untitled(s.title) {
                        text::split_of(name, '_').last()
                    } else {
                        s.title
                    },
                ),
                cwd: or_else(s.cwd, "?"@),
                ..s
            },
        )
    }
}

/// The summary of a session file; none where a line could not be read.
pub open spec fn summary_of(
    h: Harness,
    lines: Seq<Seq<char>>,
    complete: bool,
    stem: Option<Seq<char>>,
) -> Option<SumV> {
    if complete {
        completed(sum_lines(h, lines), stem)
    } else {
        None
    }
}

/// What records say of a session.
#[derive(Clone, Debug)]
pub struct Summary {
    pub id: String,
    pub title: String,
    pub cwd: String,
    pub model: String,
    pub preview: String,
    pub msgs: usize,
}

impl View for Summary {
    type V = SumV;

    open spec fn view(&self) -> SumV {
        SumV {
            id: self.id@,
            title: self.title@,
            cwd: self.cwd@,
            model: self.model@,
            preview: self.preview@,
            msgs: self.msgs as nat,
        }
    }
}

fn fill(known: &mut String, new: String)
    ensures
        final(known)@ == or_else(old(known)@, new@),
{
    if known.as_str().is_empty() {
        *known = new;
    }
}

fn is_untitled(title: &str) -> (r: bool)
    ensures
        r == untitled(title@),
{
    title.is_empty() || text::same(title, "New Session")
}

fn step_factory(s: &mut Summary, v: &Json)
    requires
        old(s).msgs < usize::MAX,
    ensures
        final(s)@ == factory_step(old(s)@, v@),
        final(s).msgs <= old(s).msgs + 1,
{
    let ty = v.string("type");
    if text::same(ty.as_str(), "session_start") {
        s.id = v.string("id");
        s.title = v.string("title");
        s.cwd = v.string("cwd");
    } else if text::same(ty.as_str(), "message") {
        let absent = Json::Null;
        let m = match v.get("message") {
            Some(m) => m,
            None => &absent,
        };
        s.msgs = s.msgs + 1;
        let role = m.string("role");
        if text::same(role.as_str(), "assistant") {
            fill(&mut s.model, m.string("model"));
        }
        if text::same(role.as_str(), "user") && s.preview.as_str().is_empty() {
            match parse::user_text(m) {
                Some(t) => {
                    s.preview = clip(t.as_str());
                },
                None => {},
            }
            if is_untitled(s.title.as_str()) {
                s.title = s.preview.clone();
            }
        }
    }
}

fn step_claude(s: &mut Summary, v: &Json)
    requires
        old(s).msgs < usize::MAX,
    ensures
        final(s)@ == claude_step(old(s)@, v@),
        final(s).msgs <= old(s).msgs + 1,
{
    if parse::flag(v, "isSidechain") {
        return ;
    }
    let absent = Json::Null;
    let m = match v.get("message") {
        Some(m) => m,
        None => &absent,
    };
    fill(&mut s.cwd, v.string("cwd"));
    let ty = v.string("type");
    if text::same(ty.as_str(), "assistant") {
        s.msgs = s.msgs + 1;
        fill(&mut s.model, m.string("model"));
    } else if text::same(ty.as_str(), "user") {
        let role = m.string("role");
        if text::same(role.as_str(), "user") {
            s.msgs = s.msgs + 1;
            if s.preview.as_str().is_empty() {
                match parse::user_text(m) {
                    Some(t) => {
                        s.preview = clip(t.as_str());
                        s.title = s.preview.clone();
                    },
                    None => {},
                }
            }
        }
    }
}

fn text_is(v: &Json, key: &str, t: &str) -> (r: bool)
    ensures
        r == (json::text_of(json::field(v@, key@)) == Some(t@)),
{
    match v.text(key) {
        Some(s) => text::same(s, t),
        None => false,
    }
}

fn step_codex(s: &mut Summary, v: &Json)
    requires
        old(s).msgs < usize::MAX,
    ensures
        final(s)@ == codex_step(old(s)@, v@),
        final(s).msgs <= old(s).msgs + 1,
{
    let absent = Json::Null;
    let payload = match v.get("payload") {
        Some(p) => p,
        None => &absent,
    };
    let ty = v.string("type");
    if text::same(ty.as_str(), "session_meta") {
        if s.id.as_str().is_empty() {
            s.id = payload.string("id");
            fill(&mut s.id, payload.string("session_id"));
            s.cwd = payload.string("cwd");
        }
    } else if text::same(ty.as_str(), "response_item") {
        if text_is(payload, "type", "message") {
            s.msgs = s.msgs + 1;
            if text_is(payload, "role", "user") && s.preview.as_str().is_empty() {
                let t = match payload.get("content") {
                    Some(c) => parse::codex_text(c, "input_text"),
                    None => String::new(),
                };
                if !t.as_str().is_empty() {
                    s.preview = clip(t.as_str());
                    s.title = s.preview.clone();
                }
            }
        }
    } else if text::same(ty.as_str(), "turn_context") {
        fill(&mut s.model, payload.string("model"));
    }
}

fn step_pi(s: &mut Summary, v: &Json)
    requires
        old(s).msgs < usize::MAX,
    ensures
        final(s)@ == pi_step(old(s)@, v@),
        final(s).msgs <= old(s).msgs + 1,
{
    let ty = v.string("type");
    if text::same(ty.as_str(), "title") {
        fill(&mut s.title, v.string("title"));
    } else if text::same(ty.as_str(), "session") {
        s.id = v.string("id");
        s.cwd = v.string("cwd");
        fill(&mut s.title, v.string("title"));
    } else if text::same(ty.as_str(), "model_change") {
        fill(&mut s.model, v.string("model"));
        fill(&mut s.model, v.string("modelId"));
    } else if text::same(ty.as_str(), "message") {
        let absent = Json::Null;
        let m = match v.get("message") {
            Some(m) => m,
            None => &absent,
        };
        s.msgs = s.msgs + 1;
        let role = m.string("role");
        if text::same(role.as_str(), "assistant") {
            fill(&mut s.model, m.string("model"));
        }
        if text::same(role.as_str(), "user") && s.preview.as_str().is_empty() {
            match parse::user_text(m) {
                Some(t) => {
                    s.preview = clip(t.as_str());
                    fill(&mut s.title, s.preview.clone());
                },
                None => {},
            }
        }
    }
}

fn no_summary() -> (s: Summary)
    ensures
        s@ == unknown(),
        s.msgs == 0,
{
    Summary {
        id: String::new(),
        title: String::new(),
        cwd: String::new(),
        model: String::new(),
        preview: String::new(),
        msgs: 0,
    }
}

fn add_record(h: Harness, s: &mut Summary, v: &Json)
    requires
        old(s).msgs < usize::MAX,
    ensures
        final(s)@ == step(h, old(s)@, v@),
        final(s).msgs <= old(s).msgs + 1,
{
    match h {
        Harness::Factory => step_factory(s, v),
        Harness::Claude => step_claude(s, v),
        Harness::Codex => step_codex(s, v),
        Harness::Pi | Harness::Omp => step_pi(s, v),
    }
}

fn read_summary(h: Harness, lines: &Vec<String>) -> (s: Summary)
    ensures
        s@ == sum_lines(h, text::views(lines@)),
{
    let mut s = no_summary();
    let ghost vs = text::views(lines@);
    let mut i: usize = 0;
    proof {
        assert(vs.take(0) =~= Seq::empty());
        assert(history::file_records(vs.take(0)) =~= Seq::empty());
    }
    while i < lines.len()
        invariant
            vs == text::views(lines@),
            i <= lines@.len(),
            s.msgs <= i,
            s@ == sum_lines(h, vs.take(i as int)),
        decreases lines@.len() - i,
    {
        let ghost before = history::file_records(vs.take(i as int));
        proof {
            assert(vs.take(i + 1).drop_last() =~= vs.take(i as int));
            assert(vs.take(i + 1).last() == lines@[i as int]@);
        }
        let line = text::trim(lines[i].as_str());
        match Json::parse(line.as_str()) {
            Some(v) => {
                proof {
                    assert(before.push(v@).drop_last() =~= before);
                }
                add_record(h, &mut s, &v);
            },
            None => {},
        }
        i = i + 1;
    }
    proof {
        assert(vs.take(i as int) =~= vs);
    }
    s
}

fn complete(s: Summary, stem: &Option<String>) -> (r: Option<Summary>)
    ensures
        match r {
            Some(c) => completed(s@, model::opt_view(*stem)) == Some(c@),
            None => completed(s@, model::opt_view(*stem)) is None,
        },
{
    let mut s = s;
    let lost = is_untitled(s.title.as_str());
    if s.id.as_str().is_empty() || lost {
        match stem {
            Some(name) => {
                fill(&mut s.id, name.clone());
                if lost {
                    let pieces = text::split(name.as_str(), '_');
                    let n = pieces.len();
                    s.title = pieces[n - 1].clone();
                    proof {
                        assert(text::split_of(name@, '_').last() == pieces@[n - 1]@);
                    }
                }
            },
            None => {
                return None;
            },
        }
    }
    fill(&mut s.cwd, "?".to_owned());
    s.title = clip(s.title.as_str());
    Some(s)
}

/// The summary of a session by its records and its file's name.
pub fn summarize_records(h: Harness, recs: &Vec<Json>, stem: &Option<String>) -> (r: Option<Summary>)
    ensures
        match r {
            Some(s) => completed(
                sum_records(h, json::trees_of(recs@)),
                model::opt_view(*stem),
            ) == Some(s@),
            None => completed(
                sum_records(h, json::trees_of(recs@)),
                model::opt_view(*stem),
            ) is None,
        },
{
    let ghost ts = json::trees_of(recs@);
    let mut s = no_summary();
    let mut i: usize = 0;
    proof {
        json::lemma_trees_of(recs@);
        assert(ts.take(0) =~= Seq::empty());
    }
    while i < recs.len()
        invariant
            ts == json::trees_of(recs@),
            ts.len() == recs@.len(),
            forall|k: int| 0 <= k < recs@.len() ==> #[trigger] ts[k] == json::tree_of(recs@[k]),
            i <= recs@.len(),
            s.msgs <= i,
            s@ == sum_records(h, ts.take(i as int)),
        decreases recs@.len() - i,
    {
        proof {
            assert(ts.take(i + 1).drop_last() =~= ts.take(i as int));
            assert(ts.take(i + 1).last() == ts[i as int]);
            assert(ts[i as int] == recs@[i as int]@);
        }
        add_record(h, &mut s, &recs[i]);
        i = i + 1;
    }
    proof {
        assert(ts.take(i as int) =~= ts);
    }
    complete(s, stem)
}

/// The fields of a session that a summary fills.
pub open spec fn session_view(s: Session) -> SumV {
    SumV {
        id: s.id@,
        title: s.title@,
        cwd: s.cwd@,
        model: s.model@,
        preview: s.preview@,
        msgs: s.msgs as nat,
    }
}

/// The summary of a session file as it was read.
pub open spec fn file_summary(h: Harness, file: SessionFile) -> Option<SumV> {
    summary_of(h, text::views(file.lines@), file.complete, model::opt_view(file.stem))
}

/// Cheap summary: header line + first user text + message count + file time.
pub fn summarize(file: &SessionFile, harness: Harness) -> (r: Option<Session>)
    ensures
        match r {
            Some(s) => {
                &&& file_summary(harness, *file) == Some(session_view(s))
                &&& s.harness == harness
                &&& s.path == file.path
                &&& s.modified == file.modified
            },
            None => file_summary(harness, *file) is None,
        },
{
    if !file.complete {
        return None;
    }
    let sum = read_summary(harness, &file.lines);
    match complete(sum, &file.stem) {
        Some(s) => Some(
            Session {
                harness,
                path: file.path.clone(),
                id: s.id,
                title: s.title,
                cwd: s.cwd,
                model: s.model,
                msgs: s.msgs,
                preview: s.preview,
                modified: match &file.modified {
                    Some(t) => Some(*t),
                    None => None,
                },
            },
        ),
        None => None,
    }
}

/// What a list of sessions shows of one.
pub ghost struct Listed {
    pub harness: Harness,
    pub path: PathBuf,
    pub modified: Option<SystemTime>,
    pub about: SumV,
}

pub open spec fn listed(s: Session) -> Listed {
    Listed { harness: s.harness, path: s.path, modified: s.modified, about: session_view(s) }
}

pub open spec fn all_listed(sessions: Seq<Session>) -> Seq<Listed> {
    sessions.map_values(|s: Session| listed(s))
}

/// The sessions of files, in order, those without a summary left out.
pub open spec fn listing(h: Harness, files: Seq<SessionFile>) -> Seq<Listed>
    decreases files.len(),
{
    if files.len() == 0 {
        Seq::empty()
    } else {
        let f = files.last();
        let before = listing(h, files.drop_last());
        match file_summary(h, f) {
            Some(about) => before.push(
                Listed { harness: h, path: f.path, modified: f.modified, about },
            ),
            None => before,
        }
    }
}

/// The sessions of files, in order; a file without a summary is passed over.
pub fn summaries(h: Harness, files: &Vec<SessionFile>) -> (r: Vec<Session>)
    ensures
        all_listed(r@) == listing(h, files@),
{
    let mut r: Vec<Session> = Vec::new();
    let mut i: usize = 0;
    proof {
        assert(files@.take(0) =~= Seq::empty());
        assert(all_listed(r@) =~= Seq::empty());
    }
    while i < files.len()
        invariant
            i <= files@.len(),
            all_listed(r@) == listing(h, files@.take(i as int)),
        decreases files@.len() - i,
    {
        proof {
            assert(files@.take(i + 1).drop_last() =~= files@.take(i as int));
            assert(files@.take(i + 1).last() == files@[i as int]);
        }
        match summarize(&files[i], h) {
            Some(s) => {
                proof {
                    assert(all_listed(r@.push(s)) =~= all_listed(r@).push(listed(s)));
                }
                r.push(s);
            },
            None => {},
        }
        i = i + 1;
    }
    proof {
        assert(files@.take(i as int) =~= files@);
    }
    r
}

/// Files may be listed a few at a time: the lists one after the other are the list of all.
pub proof fn lemma_listing_add(h: Harness, a: Seq<SessionFile>, b: Seq<SessionFile>)
    ensures
        listing(h, a + b) == listing(h, a) + listing(h, b),
    decreases b.len(),
{
    if b.len() == 0 {
        assert(a + b =~= a);
        assert(listing(h, a) + listing(h, b) =~= listing(h, a));
    } else {
        assert((a + b).drop_last() =~= a + b.drop_last());
        lemma_listing_add(h, a, b.drop_last());
        assert(listing(h, a + b) =~= listing(h, a) + listing(h, b));
    }
}

/// Full parse of a session into its summary and canonical messages.
pub fn parse(file: &SessionFile, harness: Harness) -> (r: (Session, Vec<Msg>))
    ensures
        model::msg_views(r.1@) == history::file_msgs(harness, text::views(file.lines@)),
        weight::file_plain(harness, text::views(file.lines@)) ==> 4 * budget::tokens(
            model::msg_views(r.1@),
        ) <= weight::lines_len(text::views(file.lines@)),
        r.0.msgs == r.1@.len(),
        r.0.harness == harness,
        r.0.path == file.path,
        match file_summary(harness, *file) {
            Some(s) => session_view(r.0) == (SumV { msgs: r.1@.len(), ..s }) && r.0.modified
                == file.modified,
            None => session_view(r.0) == (SumV { msgs: r.1@.len(), ..unknown() })
                && r.0.modified is None,
        },
{
    let msgs = history::parse_lines(harness, &file.lines);
    let mut sum = match summarize(file, harness) {
        Some(s) => s,
        None => Session {
            harness,
            path: file.path.clone(),
            id: String::new(),
            title: String::new(),
            cwd: String::new(),
            model: String::new(),
            msgs: 0,
            preview: String::new(),
            modified: None,
        },
    };
    sum.msgs = msgs.len();
    (sum, msgs)
}

} // verus!
