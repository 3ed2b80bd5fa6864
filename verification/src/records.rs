//! What the writers of all harnesses share.

use crate::ids;
use crate::json;
use crate::json::{Json, Tree};
use crate::model;
use crate::model::{Block, BlockV, Harness, Msg, MsgV, Role, Session};
use crate::parse;
use crate::text;
use vstd::prelude::*;

verus! {

/// The texts among blocks.
pub open spec fn texts_of(blocks: Seq<BlockV>) -> Seq<Seq<char>>
    decreases blocks.len(),
{
    if blocks.len() == 0 {
        Seq::empty()
    } else {
        let before = texts_of(blocks.drop_last());
        match blocks.last() {
            BlockV::Text(t) => before.push(t),
            _ => before,
        }
    }
}

/// What a user message says, a line for each text block.
pub open spec fn spoken_text(blocks: Seq<BlockV>) -> Seq<char> {
    text::joined(texts_of(blocks), "\n"@)
}

pub fn user_text_of(blocks: &Vec<Block>) -> (r: String)
    ensures
        r@ == spoken_text(model::block_views(blocks@)),
{
    let mut parts: Vec<String> = Vec::new();
    let mut i: usize = 0;
    proof {
        assert(text::views(parts@) =~= texts_of(model::block_views(blocks@).take(0)));
    }
    while i < blocks.len()
        invariant
            i <= blocks@.len(),
            text::views(parts@) == texts_of(model::block_views(blocks@).take(i as int)),
        decreases blocks@.len() - i,
    {
        proof {
            let bs = model::block_views(blocks@);
            assert(bs.take(i + 1).drop_last() =~= bs.take(i as int));
            assert(bs.take(i + 1).last() == blocks@[i as int]@);
        }
        match &blocks[i] {
            Block::Text(t) => {
                let t = t.clone();
                proof {
                    parse::lemma_views_push(parts@, t);
                }
                parts.push(t);
            },
            _ => {},
        }
        i = i + 1;
    }
    proof {
        assert(model::block_views(blocks@).take(i as int) =~= model::block_views(blocks@));
    }
    text::join(&parts, "\n")
}

/// A text block as Factory, CL, Pi and OMP write it.
pub open spec fn text_tree(t: Seq<char>) -> Tree {
    json::empty_obj().with("type"@, Tree::Str("text"@)).with("text"@, Tree::Str(t))
}

pub(crate) fn text_json(t: &str) -> (r: Json)
    ensures
        r@ == text_tree(t@),
{
    Json::object().with("type", Json::of_text("text")).with("text", Json::of_text(t))
}

/// A block of an assistant message as Factory and CL write it.
pub open spec fn anthropic_block(b: BlockV) -> Option<Tree> {
    match b {
        BlockV::Text(t) => Some(text_tree(t)),
        BlockV::Thinking(t) => Some(
            json::empty_obj().with("type"@, Tree::Str("thinking"@)).with(
                "thinking"@,
                Tree::Str(t),
            ).with("signature"@, Tree::Str("reasoning_content"@)).with(
                "signatureProvider"@,
                Tree::Str("factory"@),
            ),
        ),
        BlockV::ToolCall { id, name, args } => Some(
            json::empty_obj().with("type"@, Tree::Str("tool_use"@)).with("id"@, Tree::Str(id)).with(
                "name"@,
                Tree::Str(name),
            ).with("input"@, args),
        ),
        BlockV::ToolResult { .. } => None,
    }
}

/// A block of an assistant message as Pi and OMP write it.
pub open spec fn pi_block(b: BlockV) -> Option<Tree> {
    match b {
        BlockV::Text(t) => Some(text_tree(t)),
        BlockV::Thinking(t) => Some(
            json::empty_obj().with("type"@, Tree::Str("thinking"@)).with(
                "thinking"@,
                Tree::Str(t),
            ),
        ),
        BlockV::ToolCall { id, name, args } => Some(
            json::empty_obj().with("type"@, Tree::Str("toolCall"@)).with("id"@, Tree::Str(id)).with(
                "name"@,
                Tree::Str(name),
            ).with("arguments"@, args),
        ),
        BlockV::ToolResult { .. } => None,
    }
}

pub open spec fn native_block(h: Harness, b: BlockV) -> Option<Tree> {
    match h {
        Harness::Pi | Harness::Omp => pi_block(b),
        _ => anthropic_block(b),
    }
}

/// The blocks of an assistant message as `h` writes them.
pub open spec fn native_blocks(h: Harness, blocks: Seq<BlockV>) -> Seq<Tree>
    decreases blocks.len(),
{
    if blocks.len() == 0 {
        Seq::empty()
    } else {
        let before = native_blocks(h, blocks.drop_last());
        match native_block(h, blocks.last()) {
            Some(t) => before.push(t),
            None => before,
        }
    }
}

pub(crate) fn native_json(h: Harness, b: &Block) -> (r: Option<Json>)
    ensures
        match r {
            Some(j) => native_block(h, b@) == Some(j@),
            None => native_block(h, b@) is None,
        },
{
    let pi = match h {
        Harness::Pi | Harness::Omp => true,
        _ => false,
    };
    match b {
        Block::Text(t) => Some(text_json(t.as_str())),
        Block::Thinking(t) => {
            let o = Json::object().with("type", Json::of_text("thinking")).with(
                "thinking",
                Json::of_text(t.as_str()),
            );
            if pi {
                Some(o)
            } else {
                Some(
                    o.with("signature", Json::of_text("reasoning_content")).with(
                        "signatureProvider",
                        Json::of_text("factory"),
                    ),
                )
            }
        },
        Block::ToolCall { id, name, args } => {
            let (kind, key) = if pi {
                ("toolCall", "arguments")
            } else {
                ("tool_use", "input")
            };
            Some(
                Json::object().with("type", Json::of_text(kind)).with(
                    "id",
                    Json::of_text(id.as_str()),
                ).with("name", Json::of_text(name.as_str())).with(key, args.clone()),
            )
        },
        Block::ToolResult { .. } => None,
    }
}

pub(crate) proof fn lemma_tree_push(items: Seq<Json>, j: Json)
    ensures
        json::trees_of(items.push(j)) == json::trees_of(items).push(j@),
{
    assert(items.push(j).drop_last() =~= items);
}

/// Assistant content as `h` writes it.
pub fn native_content(h: Harness, blocks: &Vec<Block>) -> (r: Vec<Json>)
    ensures
        json::trees_of(r@) == native_blocks(h, model::block_views(blocks@)),
{
    let mut out: Vec<Json> = Vec::new();
    let mut i: usize = 0;
    proof {
        assert(model::block_views(blocks@).take(0) =~= Seq::empty());
    }
    while i < blocks.len()
        invariant
            i <= blocks@.len(),
            json::trees_of(out@) == native_blocks(h, model::block_views(blocks@).take(i as int)),
        decreases blocks@.len() - i,
    {
        proof {
            let bs = model::block_views(blocks@);
            assert(bs.take(i + 1).drop_last() =~= bs.take(i as int));
            assert(bs.take(i + 1).last() == blocks@[i as int]@);
        }
        match native_json(h, &blocks[i]) {
            Some(j) => {
                proof {
                    lemma_tree_push(out@, j);
                }
                out.push(j);
            },
            None => {},
        }
        i = i + 1;
    }
    proof {
        assert(model::block_views(blocks@).take(i as int) =~= model::block_views(blocks@));
    }
    out
}

/// The timestamp of a record: the message's own, or the session's.
pub open spec fn stamp(m: MsgV, ts: Seq<char>) -> Seq<char> {
    match m.ts {
        Some(t) => t,
        None => ts,
    }
}

pub(crate) fn stamp_of(m: &Msg, ts: &str) -> (r: String)
    ensures
        r@ == stamp(m@, ts@),
{
    match &m.ts {
        Some(t) => t.clone(),
        None => ts.to_owned(),
    }
}

/// What the records of a written session hold besides the messages.
pub ghost struct Setting {
    pub id: Seq<char>,
    pub ts: Seq<char>,
    pub cwd: Seq<char>,
    pub title: Seq<char>,
    pub model: Seq<char>,
    pub owner: Seq<char>,
    pub draws: Seq<[u8; 16]>,
}

impl Setting {
    /// The id of record `k`, as a dashed UUID.
    pub open spec fn record_id(self, k: int) -> Seq<char> {
        ids::v4(model::hex_of(self.draws[k + 1]@))
    }

    /// The id of record `k`, short.
    pub open spec fn short_id(self, k: int) -> Seq<char> {
        ids::short(model::hex_of(self.draws[k + 1]@))
    }
}

/// What a written session takes from its surroundings.
pub struct Ambient {
    /// Random bytes: the first for the session's id, one more for each record.
    pub draws: Vec<[u8; 16]>,
    /// Milliseconds since 1970.
    pub now_ms: u64,
    /// The user's name.
    pub owner: String,
    /// The user's home directory.
    pub home: String,
}

/// The setting of a session written from `src` under `id` with the timestamp `ts`.
pub open spec fn setting(src: Session, id: Seq<char>, ts: Seq<char>, amb: Ambient) -> Setting {
    Setting {
        id,
        ts,
        cwd: src.cwd@,
        title: src.title@,
        model: src.model@,
        owner: amb.owner@,
        draws: amb.draws@,
    }
}

/// A message that names the model, where one is known.
pub open spec fn with_model(message: Tree, model: Seq<char>) -> Tree {
    if model.len() > 0 {
        message.with("model"@, Tree::Str(model))
    } else {
        message
    }
}

/// The parent of record `k`: the record before it.
pub open spec fn parent_id(id: Seq<char>, k: int) -> Tree {
    if k > 0 {
        Tree::Str(id)
    } else {
        Tree::Null
    }
}

/// One record as a line of the session file.
pub open spec fn line_of(t: Tree) -> Seq<char> {
    json::printed(json::normal(t)).push('\n')
}

/// The records as lines, each of which reads back as its record.
pub open spec fn are_lines(lines: Seq<Seq<char>>, recs: Seq<Tree>) -> bool {
    &&& lines.len() == recs.len()
    &&& forall|k: int|
        0 <= k < recs.len() ==> #[trigger] lines[k] == line_of(recs[k]) && json::reads_back(recs[k])
}

/// Adds one record to the lines written so far.
pub(crate) fn put_line(out: &mut Vec<String>, rec: &Json, Ghost(recs): Ghost<Seq<Tree>>)
    requires
        are_lines(text::views(old(out)@), recs),
    ensures
        final(out)@.len() == old(out)@.len() + 1,
        are_lines(text::views(final(out)@), recs.push(rec@)),
{
    let mut line = rec.print();
    line.push('\n');
    proof {
        parse::lemma_views_push(out@, line);
    }
    out.push(line);
}

pub(crate) fn is_tool(m: &Msg) -> (r: bool)
    ensures
        r == (m.role == Role::Tool),
{
    match m.role {
        Role::Tool => true,
        _ => false,
    }
}

pub(crate) fn is_assistant(m: &Msg) -> (r: bool)
    ensures
        r == (m.role == Role::Assistant),
{
    match m.role {
        Role::Assistant => true,
        _ => false,
    }
}

} // verus!
