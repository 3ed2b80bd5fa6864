//! The canonical model that every harness' sessions are read into and written from.

use crate::json;
use crate::json::{Json, Tree};
use crate::text;
use std::path::{Path, PathBuf};
use std::time::SystemTime;
use vstd::prelude::*;

verus! {

/// A file path; opaque, carried through.
#[verifier::external_type_specification]
#[verifier::external_body]
pub struct ExPathBuf(PathBuf);

/// A borrowed file path; opaque, read through `path_text`.
#[verifier::external_type_specification]
#[verifier::external_body]
pub struct ExPath(Path);

/// A point in time; opaque, carried through.
#[verifier::external_type_specification]
#[verifier::external_body]
pub struct ExSystemTime(SystemTime);

/// The error of a time that lies after another.
#[verifier::external_type_specification]
#[verifier::external_body]
pub struct ExSystemTimeError(std::time::SystemTimeError);

/// A path as text, what is not Unicode replaced.
pub uninterp spec fn path_text(path: &Path) -> Seq<char>;

/// A path followed by a relative one.
pub uninterp spec fn path_join(base: PathBuf, part: Seq<char>) -> PathBuf;

/// The path that a text names.
pub uninterp spec fn path_of(name: Seq<char>) -> PathBuf;

/// The time from the start of 1970 to a moment; none where the moment lies before.
pub uninterp spec fn time_since_epoch(t: SystemTime) -> Option<std::time::Duration>;

/// The time from one moment to a later one; none where it is not later.
pub uninterp spec fn time_between(earlier: SystemTime, later: SystemTime) -> Option<
    std::time::Duration,
>;

/// The whole seconds of a duration.
pub uninterp spec fn whole_secs(d: std::time::Duration) -> u64;

/// `Path::to_string_lossy`: the path as text.
#[verifier::external_body]
pub(crate) fn lossy(path: &Path) -> (r: String)
    ensures
        r@ == path_text(path),
{
    path.to_string_lossy().into_owned()
}

/// `Path::join`: the path of `part` below `base`.
#[verifier::external_body]
pub(crate) fn join_path(base: &PathBuf, part: &str) -> (r: PathBuf)
    ensures
        r == path_join(*base, part@),
{
    base.join(part)
}

/// `PathBuf::from` a text.
#[verifier::external_body]
pub(crate) fn path_from(name: &str) -> (r: PathBuf)
    ensures
        r == path_of(name@),
{
    PathBuf::from(name)
}

/// A clone of a path is the same path.
pub assume_specification[ <PathBuf as Clone>::clone ](p: &PathBuf) -> (r: PathBuf)
    ensures
        r == *p,
;

/// `SystemTime::now`: the clock; nothing is known of what it shows.
pub assume_specification[ SystemTime::now ]() -> SystemTime
;

/// `SystemTime::duration_since`: the time from `earlier` to `t`, an error where `earlier` is after.
pub assume_specification[ SystemTime::duration_since ](t: &SystemTime, earlier: SystemTime) -> (r:
    Result<std::time::Duration, std::time::SystemTimeError>)
    ensures
        match r {
            Ok(d) => time_between(earlier, *t) == Some(d),
            Err(_) => time_between(earlier, *t) is None,
        },
;

/// `SystemTime::duration_since` the Unix epoch: an error where the moment lies before it.
#[verifier::external_body]
pub(crate) fn since_epoch(t: &SystemTime) -> (r: Result<
    std::time::Duration,
    std::time::SystemTimeError,
>)
    ensures
        match r {
            Ok(d) => time_since_epoch(*t) == Some(d),
            Err(_) => time_since_epoch(*t) is None,
        },
{
    t.duration_since(std::time::UNIX_EPOCH)
}

/// `Duration::as_secs`: the whole seconds.
pub assume_specification[ std::time::Duration::as_secs ](d: &std::time::Duration) -> (r: u64)
    ensures
        r == whole_secs(*d),
;

/// A coding harness whose sessions can be read and written.
#[derive(Clone, Copy, PartialEq, Eq, Debug, Hash, Structural)]
pub enum Harness {
    Factory,
    Pi,
    Omp,
    Claude,
    Codex,
}

/// How the harness labelled CL goes about.
pub struct Brand {
    /// The name of its program, and of its directory below home.
    pub name: String,
    /// The title it is shown by.
    pub title: String,
}

/// A letter in upper case; any other character as it is.
pub open spec fn capital(c: char) -> char {
    if 'a' <= c <= 'z' {
        (c as u32 - 32) as char
    } else {
        c
    }
}

/// The title that goes with the name of a program: the name with a capital, and `Code`.
pub open spec fn title_of(name: Seq<char>) -> Seq<char> {
    if name.len() == 0 {
        " Code"@
    } else {
        seq![capital(name[0])] + name.skip(1) + " Code"@
    }
}

impl Brand {
    /// The words that go with the name of the program.
    pub fn of(name: &str) -> (r: Brand)
        ensures
            r.name@ == name@,
            r.title@ == title_of(name@),
    {
        let v = text::chars_of(name);
        let mut title = String::new();
        if v.len() > 0 {
            let c = v[0];
            title.push(
                if 'a' <= c && c <= 'z' {
                    (c as u8 - 32) as char
                } else {
                    c
                },
            );
            let rest = text::slice(&v, 1, v.len());
            text::append(&mut title, rest.as_str());
            proof {
                assert(v@.subrange(1, v@.len() as int) =~= name@.skip(1));
            }
        }
        text::append(&mut title, " Code");
        proof {
            assert(title@ =~= title_of(name@));
        }
        Brand { name: name.to_owned(), title }
    }

    /// What a path into its directory holds.
    pub open spec fn mark(self) -> Seq<char> {
        "/."@ + self.name@ + "/"@
    }

    /// Its session store, seen from home.
    pub open spec fn place(self) -> Seq<char> {
        "."@ + self.name@ + "/projects"@
    }
}

/// The harness whose store a path, in lower case, lies in.
pub open spec fn harness_of(path: Seq<char>, brand: Brand) -> Option<Harness> {
    if text::within(path, ".factory"@) {
        Some(Harness::Factory)
    } else if text::within(path, "/.pi/"@) {
        Some(Harness::Pi)
    } else if text::within(path, "/.omp/"@) {
        Some(Harness::Omp)
    } else if text::within(path, brand.mark()) {
        Some(Harness::Claude)
    } else if text::within(path, "/.codex/"@) {
        Some(Harness::Codex)
    } else {
        None
    }
}

impl Harness {
    pub open spec fn label_text(self) -> Seq<char> {
        match self {
            Harness::Factory => "FAC"@,
            Harness::Pi => "PI"@,
            Harness::Omp => "OMP"@,
            Harness::Claude => "CL"@,
            Harness::Codex => "CX"@,
        }
    }

    pub open spec fn full_text(self, brand: Brand) -> Seq<char> {
        match self {
            Harness::Factory => "factory"@,
            Harness::Pi => "pi"@,
            Harness::Omp => "omp"@,
            Harness::Claude => brand.name@,
            Harness::Codex => "codex"@,
        }
    }

    /// Short name for lists.
    pub fn label(self) -> (r: &'static str)
        ensures
            r@ == self.label_text(),
    {
        match self {
            Harness::Factory => "FAC",
            Harness::Pi => "PI",
            Harness::Omp => "OMP",
            Harness::Claude => "CL",
            Harness::Codex => "CX",
        }
    }

    /// Name on the command line.
    pub fn full<'a>(self, brand: &'a Brand) -> (r: &'a str)
        ensures
            r@ == self.full_text(*brand),
    {
        match self {
            Harness::Factory => "factory",
            Harness::Pi => "pi",
            Harness::Omp => "omp",
            Harness::Claude => brand.name.as_str(),
            Harness::Codex => "codex",
        }
    }

    /// All harnesses, in the order their stores are scanned.
    pub fn all() -> (r: [Harness; 5])
        ensures
            r@ == seq![
                Harness::Factory,
                Harness::Pi,
                Harness::Omp,
                Harness::Claude,
                Harness::Codex,
            ],
    {
        [Harness::Factory, Harness::Pi, Harness::Omp, Harness::Claude, Harness::Codex]
    }

    /// The harness whose store a path lies in, upper and lower case alike.
    pub fn infer_from_path(path: &Path, brand: &Brand) -> (r: Option<Harness>)
        ensures
            r == harness_of(text::lowercase(path_text(path)), *brand),
    {
        let s = lossy(path);
        let s = text::to_lowercase(s.as_str());
        Harness::infer_from_text(s.as_str(), brand)
    }

    /// The harness whose store a path, given in lower case, lies in.
    pub fn infer_from_text(path: &str, brand: &Brand) -> (r: Option<Harness>)
        ensures
            r == harness_of(path@, *brand),
    {
        let mut mark = "/.".to_owned();
        text::append(&mut mark, brand.name.as_str());
        text::append(&mut mark, "/");
        if text::contains(path, ".factory") {
            Some(Harness::Factory)
        } else if text::contains(path, "/.pi/") {
            Some(Harness::Pi)
        } else if text::contains(path, "/.omp/") {
            Some(Harness::Omp)
        } else if text::contains(path, mark.as_str()) {
            Some(Harness::Claude)
        } else if text::contains(path, "/.codex/") {
            Some(Harness::Codex)
        } else {
            None
        }
    }
}

/// Root directory of each harness' session store.
#[derive(Debug)]
pub struct Store {
    pub factory: PathBuf,
    pub pi: PathBuf,
    pub omp: PathBuf,
    pub claude: PathBuf,
    pub codex: PathBuf,
}

impl Clone for Store {
    fn clone(&self) -> (r: Store)
        ensures
            r == *self,
    {
        Store {
            factory: self.factory.clone(),
            pi: self.pi.clone(),
            omp: self.omp.clone(),
            claude: self.claude.clone(),
            codex: self.codex.clone(),
        }
    }
}

impl Store {
    /// The directory of one harness.
    pub open spec fn root_of(self, h: Harness) -> PathBuf {
        match h {
            Harness::Factory => self.factory,
            Harness::Pi => self.pi,
            Harness::Omp => self.omp,
            Harness::Claude => self.claude,
            Harness::Codex => self.codex,
        }
    }

    /// The stores in their usual places below a home directory.
    pub fn new(home: &PathBuf, brand: &Brand) -> (r: Store)
        ensures
            r.factory == path_join(*home, ".factory/sessions"@),
            r.pi == path_join(*home, ".pi/agent/sessions"@),
            r.omp == path_join(*home, ".omp/agent/sessions"@),
            r.claude == path_join(*home, brand.place()),
            r.codex == path_join(*home, ".codex/sessions"@),
    {
        let mut place = ".".to_owned();
        text::append(&mut place, brand.name.as_str());
        text::append(&mut place, "/projects");
        Store {
            factory: join_path(home, ".factory/sessions"),
            pi: join_path(home, ".pi/agent/sessions"),
            omp: join_path(home, ".omp/agent/sessions"),
            claude: join_path(home, place.as_str()),
            codex: join_path(home, ".codex/sessions"),
        }
    }

    pub fn root(&self, h: Harness) -> (r: &PathBuf)
        ensures
            *r == self.root_of(h),
    {
        match h {
            Harness::Factory => &self.factory,
            Harness::Pi => &self.pi,
            Harness::Omp => &self.omp,
            Harness::Claude => &self.claude,
            Harness::Codex => &self.codex,
        }
    }

    /// The same stores with the directory of one harness replaced.
    pub fn with_root(&self, h: Harness, dir: PathBuf) -> (r: Store)
        ensures
            r.root_of(h) == dir,
            forall|g: Harness| g != h ==> r.root_of(g) == self.root_of(g),
    {
        let mut r = self.clone();
        match h {
            Harness::Factory => {
                r.factory = dir;
            },
            Harness::Pi => {
                r.pi = dir;
            },
            Harness::Omp => {
                r.omp = dir;
            },
            Harness::Claude => {
                r.claude = dir;
            },
            Harness::Codex => {
                r.codex = dir;
            },
        }
        r
    }
}

/// Canonical session summary (cheap to build for discovery).
#[derive(Debug)]
pub struct Session {
    pub harness: Harness,
    pub path: PathBuf,
    pub id: String,
    pub title: String,
    pub cwd: String,
    pub model: String,
    pub msgs: usize,
    pub preview: String,
    pub modified: Option<SystemTime>,
}

impl Clone for Session {
    fn clone(&self) -> (r: Session)
        ensures
            r == *self,
    {
        Session {
            harness: self.harness,
            path: self.path.clone(),
            id: self.id.clone(),
            title: self.title.clone(),
            cwd: self.cwd.clone(),
            model: self.model.clone(),
            msgs: self.msgs,
            preview: self.preview.clone(),
            modified: match &self.modified {
                Some(t) => Some(*t),
                None => None,
            },
        }
    }
}

#[derive(Clone, Copy, Debug, PartialEq, Eq, Structural)]
pub enum Role {
    User,
    Assistant,
    Tool,
}

/// Canonical content block. Tool results are normalized to their own message (`Role::Tool`), as
/// Pi and OMP keep them; Factory and CL store them as blocks inside a user message, so the
/// readers split and the writers merge them.
#[derive(Debug, PartialEq)]
pub enum Block {
    Text(String),
    Thinking(String),
    ToolCall { id: String, name: String, args: Json },
    ToolResult { call_id: String, name: Option<String>, content: String, is_error: bool },
}

/// Canonical message. Content is structured into typed blocks so tool calls, tool results, and
/// thinking survive a handoff as native blocks instead of flattened prose.
#[derive(Debug, PartialEq)]
pub struct Msg {
    pub role: Role,
    pub blocks: Vec<Block>,
    pub ts: Option<String>,
}

/// What a block says.
pub enum BlockV {
    Text(Seq<char>),
    Thinking(Seq<char>),
    ToolCall { id: Seq<char>, name: Seq<char>, args: Tree },
    ToolResult {
        call_id: Seq<char>,
        name: Option<Seq<char>>,
        content: Seq<char>,
        is_error: bool,
    },
}

/// What a message says.
pub struct MsgV {
    pub role: Role,
    pub blocks: Seq<BlockV>,
    pub ts: Option<Seq<char>>,
}

/// The view of an optional text.
pub open spec fn opt_view(s: Option<String>) -> Option<Seq<char>> {
    match s {
        Some(t) => Some(t@),
        None => None,
    }
}

impl View for Block {
    type V = BlockV;

    open spec fn view(&self) -> BlockV {
        match *self {
            Block::Text(t) => BlockV::Text(t@),
            Block::Thinking(t) => BlockV::Thinking(t@),
            Block::ToolCall { id, name, args } => BlockV::ToolCall {
                id: id@,
                name: name@,
                args: args@,
            },
            Block::ToolResult { call_id, name, content, is_error } => BlockV::ToolResult {
                call_id: call_id@,
                name: opt_view(name),
                content: content@,
                is_error,
            },
        }
    }
}

/// The views of a list of blocks.
pub open spec fn block_views(blocks: Seq<Block>) -> Seq<BlockV> {
    blocks.map_values(|b: Block| b@)
}

impl View for Msg {
    type V = MsgV;

    open spec fn view(&self) -> MsgV {
        MsgV { role: self.role, blocks: block_views(self.blocks@), ts: opt_view(self.ts) }
    }
}

/// The views of a list of messages.
pub open spec fn msg_views(msgs: Seq<Msg>) -> Seq<MsgV> {
    msgs.map_values(|m: Msg| m@)
}

pub fn clone_opt(s: &Option<String>) -> (r: Option<String>)
    ensures
        opt_view(r) == opt_view(*s),
{
    match s {
        Some(t) => Some(t.clone()),
        None => None,
    }
}

impl Clone for Block {
    fn clone(&self) -> (r: Block)
        ensures
            r@ == self@,
    {
        match self {
            Block::Text(t) => Block::Text(t.clone()),
            Block::Thinking(t) => Block::Thinking(t.clone()),
            Block::ToolCall { id, name, args } => Block::ToolCall {
                id: id.clone(),
                name: name.clone(),
                args: args.clone(),
            },
            Block::ToolResult { call_id, name, content, is_error } => Block::ToolResult {
                call_id: call_id.clone(),
                name: clone_opt(name),
                content: content.clone(),
                is_error: *is_error,
            },
        }
    }
}

impl Clone for Msg {
    fn clone(&self) -> (r: Msg)
        ensures
            r@ == self@,
    {
        let mut blocks: Vec<Block> = Vec::new();
        let mut i: usize = 0;
        while i < self.blocks.len()
            invariant
                i <= self.blocks@.len(),
                block_views(blocks@) =~= block_views(self.blocks@).take(i as int),
            decreases self.blocks@.len() - i,
        {
            let b = self.blocks[i].clone();
            let ghost before = blocks@;
            let ghost view = b@;
            blocks.push(b);
            proof {
                assert(block_views(blocks@) =~= block_views(before).push(view));
                assert(block_views(self.blocks@)[i as int] == view);
            }
            i = i + 1;
        }
        let r = Msg { role: self.role, blocks, ts: clone_opt(&self.ts) };
        proof { assert(r@.blocks =~= self@.blocks); }
        r
    }
}

/// The first of two that is there.
pub open spec fn first_of(a: Option<Tree>, b: Option<Tree>) -> Option<Tree> {
    match a {
        Some(v) => Some(v),
        None => b,
    }
}

/// A value that a key gives lies strictly inside the object.
pub proof fn lemma_lookup_smaller(fields: Seq<(Seq<char>, Tree)>, key: Seq<char>)
    ensures
        json::lookup(fields, key) matches Some(v) ==> decreases_to!(fields => v),
    decreases fields.len(),
{
    if fields.len() > 0 {
        assert(decreases_to!(fields => fields[fields.len() - 1]));
        assert(decreases_to!(fields[fields.len() - 1] => fields[fields.len() - 1].1));
        assert(decreases_to!(fields => fields.subrange(0, fields.len() - 1)));
        lemma_lookup_smaller(fields.drop_last(), key);
    }
}

/// Content flattened to text: a string as it is, a list of blocks one after the other, anything
/// else as JSON.
pub open spec fn rendered(t: Tree) -> Seq<char>
    decreases t,
{
    match t {
        Tree::Str(s) => s,
        Tree::Arr(items) => rendered_items(items),
        _ => json::printed(json::normal(t)),
    }
}

pub open spec fn rendered_items(items: Seq<Tree>) -> Seq<char>
    decreases items,
{
    if items.len() == 0 {
        Seq::empty()
    } else {
        with_block(rendered_items(items.drop_last()), items.last())
    }
}

/// `out` on a line of its own, if there is any.
pub open spec fn fresh_line(out: Seq<char>) -> Seq<char> {
    if out.len() > 0 && out.last() != '\n' {
        out.push('\n')
    } else {
        out
    }
}

/// `out` followed by one rendered block.
pub open spec fn with_block(out: Seq<char>, b: Tree) -> Seq<char>
    decreases b,
{
    match b {
        Tree::Obj(fields) => {
            let kind = json::str_at(b, "type"@);
            if kind == "text"@ {
                proof {
                    lemma_lookup_smaller(fields, "text"@);
                }
                fresh_line(out) + match json::lookup(fields, "text"@) {
                    Some(Tree::Str(s)) => s,
                    Some(Tree::Arr(items)) => rendered(json::lookup(fields, "text"@)->Some_0),
                    _ => Seq::empty(),
                }
            } else if kind == "thinking"@ {
                match json::lookup(fields, "thinking"@) {
                    Some(Tree::Str(s)) => if s.len() > 0 {
                        out + "[thinking]\n"@ + s + "\n[/thinking]\n"@
                    } else {
                        out
                    },
                    _ => out,
                }
            } else if kind == "toolCall"@ || kind == "tool_use"@ {
                let name = match json::lookup(fields, "name"@) {
                    Some(Tree::Str(s)) => s,
                    _ => "call"@,
                };
                let args = match first_of(
                    json::lookup(fields, "arguments"@),
                    json::lookup(fields, "input"@),
                ) {
                    Some(a) => json::printed(json::normal(a)),
                    None => Seq::empty(),
                };
                (out + "[tool "@ + name + "] "@ + args).push('\n')
            } else if kind == "toolResult"@ || kind == "tool_result"@ {
                proof {
                    lemma_lookup_smaller(fields, "content"@);
                }
                let id = match first_of(
                    json::lookup(fields, "toolCallId"@),
                    json::lookup(fields, "tool_use_id"@),
                ) {
                    Some(Tree::Str(s)) => seq![' '] + s,
                    _ => Seq::empty(),
                };
                out + "[tool result"@ + id + "]\n"@ + match json::lookup(fields, "content"@) {
                    Some(Tree::Str(s)) => s.push('\n'),
                    Some(Tree::Arr(items)) => rendered(json::lookup(fields, "content"@)->Some_0),
                    _ => Seq::empty(),
                }
            } else if kind == "image"@ {
                out + "[image]\n"@
            } else {
                out
            }
        },
        _ => out,
    }
}

/// Flatten message content (string or block array) into text.
/// Handles text, thinking, toolCall/tool_use, toolResult/tool_result, image.
pub fn render_content(content: &Json) -> (r: String)
    ensures
        r@ == rendered(content@),
    decreases content@,
{
    match content {
        Json::Str(s) => s.clone(),
        Json::Arr(blocks) => {
            let mut out = String::new();
            let mut i: usize = 0;
            while i < blocks.len()
                invariant
                    content@ == Tree::Arr(json::trees_of(blocks@)),
                    i <= blocks@.len(),
                    out@ == rendered_items(json::trees_of(blocks@).take(i as int)),
                decreases blocks@.len() - i,
            {
                proof {
                    json::lemma_trees_of(blocks@);
                    let ts = json::trees_of(blocks@);
                    assert(decreases_to!(content@ => content@->Arr_0));
                    assert(decreases_to!(ts => ts[i as int]));
                    assert(ts.take(i + 1).drop_last() =~= ts.take(i as int));
                }
                render_block(&mut out, &blocks[i]);
                i = i + 1;
            }
            proof {
                json::lemma_trees_of(blocks@);
                assert(json::trees_of(blocks@).take(i as int) =~= json::trees_of(blocks@));
            }
            out
        },
        _ => content.print(),
    }
}

fn render_block(out: &mut String, b: &Json)
    ensures
        final(out)@ == with_block(old(out)@, b@),
    decreases b@,
{
    let is_object = match b {
        Json::Obj(_) => true,
        _ => false,
    };
    if !is_object {
        return ;
    }
    proof {
        assert(decreases_to!(b@ => b@->Obj_0));
        lemma_lookup_smaller(b@->Obj_0, "text"@);
        lemma_lookup_smaller(b@->Obj_0, "content"@);
    }
    let kind = b.string("type");
    let kind = kind.as_str();
    if text::same(kind, "text") {
        if ends_midline(out) {
            out.push('\n');
        }
        match b.get("text") {
            Some(v) => match v {
                Json::Str(s) => text::append(out, s.as_str()),
                Json::Arr(_) => {
                    let t = render_content(v);
                    text::append(out, t.as_str());
                },
                _ => {},
            },
            None => {},
        }
    } else if text::same(kind, "thinking") {
        match b.text("thinking") {
            Some(t) => if !t.is_empty() {
                text::append(out, "[thinking]\n");
                text::append(out, t);
                text::append(out, "\n[/thinking]\n");
            },
            None => {},
        }
    } else if text::same(kind, "toolCall") || text::same(kind, "tool_use") {
        text::append(out, "[tool ");
        match b.text("name") {
            Some(name) => text::append(out, name),
            None => text::append(out, "call"),
        }
        text::append(out, "] ");
        let args = match b.get("arguments") {
            Some(a) => Some(a),
            None => b.get("input"),
        };
        match args {
            Some(a) => {
                let t = a.print();
                text::append(out, t.as_str());
            },
            None => {},
        }
        out.push('\n');
    } else if text::same(kind, "toolResult") || text::same(kind, "tool_result") {
        text::append(out, "[tool result");
        let id = match b.get("toolCallId") {
            Some(v) => Some(v),
            None => b.get("tool_use_id"),
        };
        match id {
            Some(v) => match v {
                Json::Str(s) => {
                    out.push(' ');
                    text::append(out, s.as_str());
                },
                _ => {},
            },
            None => {},
        }
        text::append(out, "]\n");
        match b.get("content") {
            Some(v) => match v {
                Json::Str(s) => {
                    text::append(out, s.as_str());
                    out.push('\n');
                },
                Json::Arr(_) => {
                    let t = render_content(v);
                    text::append(out, t.as_str());
                },
                _ => {},
            },
            None => {},
        }
    } else if text::same(kind, "image") {
        text::append(out, "[image]\n");
    }
}

/// Whether there is text and it does not end a line.
fn ends_midline(out: &String) -> (r: bool)
    ensures
        r == (out@.len() > 0 && out@.last() != '\n'),
{
    let b = out.as_str().as_bytes();
    let n = b.len();
    proof {
        text::lemma_blen_lower(out@);
        text::lemma_blen_empty();
        if out@.len() > 0 {
            text::lemma_last_byte(out@, 10);
            text::lemma_line_feed(out@.last());
            assert(b@.last() == b@[n - 1]);
        } else {
            assert(out@ =~= Seq::empty());
        }
    }
    n > 0 && b[n - 1] != 10
}

/// `s` without the slashes it starts with.
pub open spec fn trim_slashes(s: Seq<char>) -> Seq<char>
    decreases s.len(),
{
    if s.len() > 0 && s[0] == '/' {
        trim_slashes(s.drop_first())
    } else {
        s
    }
}

/// A path with dashes for slashes.
pub open spec fn dashed(s: Seq<char>) -> Seq<char> {
    text::replaced(s, '/', '-')
}

/// Whether `cwd` is `home` or lies below it.
pub open spec fn lives_under(cwd: Seq<char>, home: Seq<char>) -> bool {
    &&& home.len() > 0
    &&& text::begins(cwd, home)
    &&& cwd.len() == home.len() || home.last() == '/' || cwd[home.len() as int] == '/'
}

/// `cwd` relative to `home`, where it lives under it.
pub open spec fn below_home(cwd: Seq<char>, home: Seq<char>) -> Seq<char> {
    if lives_under(cwd, home) {
        cwd.skip(home.len() as int)
    } else {
        cwd
    }
}

/// The part of `cwd` below `home`; all of it where it does not live under it.
fn part_below(cwd: &str, home: &str) -> (r: String)
    ensures
        r@ == below_home(cwd@, home@),
{
    if home.is_empty() || !text::starts_with(cwd, home) {
        return cwd.to_owned();
    }
    let v = text::chars_of(cwd);
    let n: usize = home.unicode_len();
    if v.len() > n && v[n - 1] != '/' && v[n] != '/' {
        proof {
            assert(home@.last() == v@[n - 1]);
        }
        return cwd.to_owned();
    }
    proof {
        assert(home@.last() == v@[n - 1]);
        assert(v@.subrange(n as int, v@.len() as int) =~= cwd@.skip(n as int));
    }
    text::slice(&v, n, v.len())
}

/// Whether a character is an ASCII letter or digit.
pub open spec fn plain(c: char) -> bool {
    ('0' <= c && c <= '9') || ('A' <= c && c <= 'Z') || ('a' <= c && c <= 'z')
}

/// `s` with a dash for everything but ASCII letters and digits.
pub open spec fn plain_dashed(s: Seq<char>) -> Seq<char> {
    s.map_values(
        |c: char|
            if plain(c) {
                c
            } else {
                '-'
            },
    )
}

/// The name of the directory that holds the sessions of `cwd`.
pub open spec fn slug(h: Harness, cwd: Seq<char>, home: Seq<char>) -> Seq<char> {
    match h {
        Harness::Factory => dashed(cwd),
        Harness::Omp => seq!['-'] + dashed(trim_slashes(below_home(cwd, home))),
        Harness::Pi => "--"@ + dashed(trim_slashes(cwd)) + "--"@,
        Harness::Claude => plain_dashed(cwd),
        Harness::Codex => Seq::empty(),
    }
}

fn without_slashes(s: &str) -> (r: String)
    ensures
        r@ == trim_slashes(s@),
{
    let v = text::chars_of(s);
    let mut i: usize = 0;
    proof {
        assert(v@.skip(0) =~= v@);
    }
    while i < v.len() && v[i] == '/'
        invariant
            i <= v@.len(),
            trim_slashes(v@) == trim_slashes(v@.skip(i as int)),
        decreases v@.len() - i,
    {
        proof {
            assert(v@.skip(i as int).drop_first() =~= v@.skip(i + 1));
        }
        i = i + 1;
    }
    proof {
        assert(trim_slashes(v@) =~= v@.subrange(i as int, v@.len() as int));
    }
    text::slice(&v, i, v.len())
}

/// Session dir slug for a cwd, per harness convention.
/// factory: `/a/b` -> `-a-b` ; omp: relative to the home directory where `cwd` lives under it,
/// `~/Projects/x` -> `-Projects-x` ;
/// pi: `/a/b` -> `--a-b--` ; cl: `/a/b_c` -> `-a-b-c` ; codex keeps no such directories.
pub fn slug_for(h: Harness, cwd: &str, home: &str) -> (r: String)
    ensures
        r@ == slug(h, cwd@, home@),
{
    match h {
        Harness::Factory => text::replace(cwd, '/', '-'),
        Harness::Omp => {
            let rel = part_below(cwd, home);
            let rest = without_slashes(rel.as_str());
            let rest = text::replace(rest.as_str(), '/', '-');
            let mut r = String::new();
            r.push('-');
            text::append(&mut r, rest.as_str());
            proof {
                assert(r@ =~= slug(h, cwd@, home@));
            }
            r
        },
        Harness::Pi => {
            let rest = without_slashes(cwd);
            let rest = text::replace(rest.as_str(), '/', '-');
            let mut r = "--".to_owned();
            text::append(&mut r, rest.as_str());
            text::append(&mut r, "--");
            r
        },
        Harness::Claude => {
            let mut r = String::new();
            for c in it: cwd.chars()
                invariant
                    it.seq() == cwd@,
                    r@ == plain_dashed(cwd@.take(it.index())),
            {
                let keep = ('0' <= c && c <= '9') || ('A' <= c && c <= 'Z') || ('a' <= c && c
                    <= 'z');
                r.push(
                    if keep {
                        c
                    } else {
                        '-'
                    },
                );
                proof {
                    assert(r@ =~= plain_dashed(cwd@.take(it.index() + 1)));
                }
            }
            proof {
                assert(cwd@.take(cwd@.len() as int) =~= cwd@);
            }
            r
        },
        Harness::Codex => String::new(),
    }
}

/// Bytes in hexadecimal, two digits each.
pub open spec fn hex_of(bytes: Seq<u8>) -> Seq<char>
    decreases bytes.len(),
{
    if bytes.len() == 0 {
        Seq::empty()
    } else {
        hex_of(bytes.drop_last()).push(json::hex_digit((bytes.last() / 16) as nat)).push(
            json::hex_digit((bytes.last() % 16) as nat),
        )
    }
}

/// Whether a character is a lower-case hexadecimal digit.
pub open spec fn is_hex(c: char) -> bool {
    ('0' <= c && c <= '9') || ('a' <= c && c <= 'f')
}

/// Bytes in hexadecimal take two digits each, and nothing but digits.
pub proof fn lemma_hex_of(bytes: Seq<u8>)
    ensures
        hex_of(bytes).len() == 2 * bytes.len(),
        forall|i: int| 0 <= i < hex_of(bytes).len() ==> is_hex(#[trigger] hex_of(bytes)[i]),
    decreases bytes.len(),
{
    if bytes.len() > 0 {
        lemma_hex_of(bytes.drop_last());
    }
}

fn hex_char(d: u8) -> (c: char)
    requires
        d < 16,
    ensures
        c == json::hex_digit(d as nat),
{
    if d < 10 {
        (48 + d) as char
    } else {
        (87 + d) as char
    }
}

/// 32-hex id from sixteen random bytes (uuid-ish, good enough for session ids).
pub fn uuid(bytes: &[u8; 16]) -> (r: String)
    ensures
        r@ == hex_of(bytes@),
        r@.len() == 32,
        forall|i: int| 0 <= i < 32 ==> is_hex(#[trigger] r@[i]),
{
    let mut r = String::new();
    let mut i: usize = 0;
    while i < 16
        invariant
            i <= 16,
            r@ == hex_of(bytes@.take(i as int)),
        decreases 16 - i,
    {
        let b: u8 = bytes[i];
        proof {
            assert(bytes@.take(i + 1).drop_last() =~= bytes@.take(i as int));
        }
        r.push(hex_char(b / 16));
        r.push(hex_char(b % 16));
        i = i + 1;
    }
    proof {
        assert(bytes@.take(16) =~= bytes@);
        lemma_hex_of(bytes@);
    }
    r
}

/// How an age in seconds reads; none stands for a moment yet to come.
pub open spec fn age_text(secs: Option<u64>) -> Seq<char> {
    match secs {
        None => "now"@,
        Some(s) => if s < 60 {
            "just now"@
        } else if s < 3600 {
            text::decimal((s / 60) as nat) + "m ago"@
        } else if s < 86400 {
            text::decimal((s / 3600) as nat) + "h ago"@
        } else if s < 86400 * 30 {
            text::decimal((s / 86400) as nat) + "d ago"@
        } else if s < 86400 * 365 {
            text::decimal((s / 86400 / 7) as nat) + "w ago"@
        } else {
            text::decimal((s / 86400 / 365) as nat) + "y ago"@
        },
    }
}

/// The whole seconds from a moment to `now`; none where it is yet to come.
pub open spec fn age_at(m: SystemTime, now: SystemTime) -> Option<u64> {
    match time_between(m, now) {
        Some(d) => Some(whole_secs(d)),
        None => None,
    }
}

/// How an age in seconds reads; none stands for a moment yet to come.
pub fn age_label(secs: Option<u64>) -> (r: String)
    ensures
        r@ == age_text(secs),
{
    let s: u64 = match secs {
        Some(s) => s,
        None => {
            return "now".to_owned();
        },
    };
    if s < 60 {
        return "just now".to_owned();
    }
    let (n, unit): (u64, &str) = if s < 3600 {
        (s / 60, "m ago")
    } else if s < 86400 {
        (s / 3600, "h ago")
    } else if s < 86400 * 30 {
        (s / 86400, "d ago")
    } else if s < 86400 * 365 {
        (s / 86400 / 7, "w ago")
    } else {
        (s / 86400 / 365, "y ago")
    };
    let mut r = text::to_decimal(n);
    text::append(&mut r, unit);
    r
}

/// The age of `m` at the moment `now`, for display.
pub fn age_since(m: SystemTime, now: SystemTime) -> (r: String)
    ensures
        r@ == age_text(age_at(m, now)),
{
    let secs: Option<u64> = match now.duration_since(m) {
        Ok(d) => Some(d.as_secs()),
        Err(_) => None,
    };
    age_label(secs)
}

/// Short relative age for display.
pub fn rel_age(m: SystemTime) -> (r: String)
    ensures
        exists|now: SystemTime| r@ == age_text(#[trigger] age_at(m, now)),
{
    age_since(m, SystemTime::now())
}

} // verus!
