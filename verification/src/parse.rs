//! Reading the records of a session file into canonical messages.

use crate::json;
use crate::json::{Json, Tree};
use crate::model;
use crate::model::{Block, BlockV, Harness, Msg, MsgV, Role, render_content};
use crate::text;
use crate::weight;
use crate::words;
use vstd::prelude::*;

verus! {

/// Text that a harness put into a user turn by itself, or nothing at all.
pub open spec fn boilerplate(t: Seq<char>) -> bool {
    let s = text::trimmed(t);
    s.len() == 0 || text::begins(s, "<system-reminder>"@) || text::begins(s, "<system-notice>"@)
}

pub fn is_boilerplate(t: &str) -> (r: bool)
    ensures
        r == boilerplate(t@),
{
    let s = text::trim(t);
    s.as_str().is_empty() || text::starts_with(s.as_str(), "<system-reminder>") || text::starts_with(
        s.as_str(),
        "<system-notice>",
    )
}

/// The rendered content of a user message, unless it is missing or boilerplate.
pub open spec fn user_text_of(m: Tree) -> Option<Seq<char>> {
    match json::field(m, "content"@) {
        Some(c) => if boilerplate(model::rendered(c)) {
            None
        } else {
            Some(model::rendered(c))
        },
        None => None,
    }
}

pub fn user_text(m: &Json) -> (r: Option<String>)
    ensures
        model::opt_view(r) == user_text_of(m@),
{
    match m.get("content") {
        Some(c) => {
            let t = render_content(c);
            if is_boilerplate(t.as_str()) {
                None
            } else {
                Some(t)
            }
        },
        None => None,
    }
}

/// What one content part of a Codex message says, if it is text of the wanted kind or an image.
pub open spec fn codex_part(part: Tree, kind: Seq<char>) -> Option<Seq<char>> {
    let ty = json::text_of(json::field(part, "type"@));
    if ty == Some(kind) {
        json::text_of(json::field(part, "text"@))
    } else if ty == Some("input_image"@) {
        Some("[image]"@)
    } else {
        None
    }
}

pub open spec fn codex_parts(items: Seq<Tree>, kind: Seq<char>) -> Seq<Seq<char>>
    decreases items.len(),
{
    if items.len() == 0 {
        Seq::empty()
    } else {
        let before = codex_parts(items.drop_last(), kind);
        match codex_part(items.last(), kind) {
            Some(t) => before.push(t),
            None => before,
        }
    }
}

/// The parts of a Codex content, a line each.
pub open spec fn codex_text_of(content: Tree, kind: Seq<char>) -> Seq<char> {
    match content {
        Tree::Arr(items) => text::joined(codex_parts(items, kind), "\n"@),
        _ => Seq::empty(),
    }
}

pub(crate) proof fn lemma_views_push(parts: Seq<String>, s: String)
    ensures
        text::views(parts.push(s)) == text::views(parts).push(s@),
{
    assert(text::views(parts.push(s)) =~= text::views(parts).push(s@));
}

pub fn codex_text(content: &Json, kind: &str) -> (r: String)
    ensures
        r@ == codex_text_of(content@, kind@),
{
    match content {
        Json::Arr(items) => {
            let mut parts: Vec<String> = Vec::new();
            let mut i: usize = 0;
            proof {
                json::lemma_trees_of(items@);
                assert(text::views(parts@) =~= codex_parts(
                    json::trees_of(items@).take(0),
                    kind@,
                ));
            }
            while i < items.len()
                invariant
                    i <= items@.len() == json::trees_of(items@).len(),
                    forall|k: int|
                        0 <= k < items@.len() ==> #[trigger] json::trees_of(items@)[k]
                            == json::tree_of(items@[k]),
                    text::views(parts@) == codex_parts(
                        json::trees_of(items@).take(i as int),
                        kind@,
                    ),
                decreases items@.len() - i,
            {
                let part = &items[i];
                proof {
                    let ts = json::trees_of(items@);
                    assert(ts.take(i + 1).drop_last() =~= ts.take(i as int));
                    assert(ts.take(i + 1).last() == part@);
                }
                let found = match part.text("type") {
                    Some(ty) => if text::same(ty, kind) {
                        part.text("text")
                    } else if text::same(ty, "input_image") {
                        Some("[image]")
                    } else {
                        None
                    },
                    None => None,
                };
                match found {
                    Some(t) => {
                        let t = t.to_owned();
                        proof {
                            lemma_views_push(parts@, t);
                        }
                        parts.push(t);
                    },
                    None => {},
                }
                i = i + 1;
            }
            proof {
                assert(json::trees_of(items@).take(i as int) =~= json::trees_of(items@));
            }
            text::join(&parts, "\n")
        },
        _ => String::new(),
    }
}

/// The canonical block for one block of an assistant's content.
/// Factory and CL say `tool_use` and `input`, Pi and OMP `toolCall` and `arguments`.
pub open spec fn block_of(b: Tree) -> Option<BlockV> {
    let kind = json::text_of(json::field(b, "type"@));
    if kind == Some("text"@) {
        match json::text_of(json::field(b, "text"@)) {
            Some(t) => Some(BlockV::Text(t)),
            None => None,
        }
    } else if kind == Some("thinking"@) {
        match json::text_of(json::field(b, "thinking"@)) {
            Some(t) => if t.len() > 0 {
                Some(BlockV::Thinking(t))
            } else {
                None
            },
            None => None,
        }
    } else if kind == Some("tool_use"@) || kind == Some("toolCall"@) {
        Some(
            BlockV::ToolCall {
                id: json::str_at(b, "id"@),
                name: json::str_at(b, "name"@),
                args: match model::first_of(
                    json::field(b, "input"@),
                    json::field(b, "arguments"@),
                ) {
                    Some(a) => a,
                    None => Tree::Null,
                },
            },
        )
    } else if kind == Some("image"@) {
        Some(BlockV::Text("[image]"@))
    } else {
        None
    }
}

pub open spec fn blocks_of(items: Seq<Tree>) -> Seq<BlockV>
    decreases items.len(),
{
    if items.len() == 0 {
        Seq::empty()
    } else {
        let before = blocks_of(items.drop_last());
        match block_of(items.last()) {
            Some(b) => before.push(b),
            None => before,
        }
    }
}

/// The canonical blocks of an assistant's content.
pub open spec fn assistant_blocks_of(content: Tree) -> Seq<BlockV> {
    match content {
        Tree::Arr(items) => blocks_of(items),
        Tree::Str(s) => seq![BlockV::Text(s)],
        _ => Seq::empty(),
    }
}

fn assistant_block(b: &Json) -> (r: Option<Block>)
    ensures
        match r {
            Some(x) => block_of(b@) == Some(x@),
            None => block_of(b@) is None,
        },
{
    let kind = match b.text("type") {
        Some(k) => k,
        None => {
            return None;
        },
    };
    if text::same(kind, "text") {
        match b.text("text") {
            Some(t) => Some(Block::Text(t.to_owned())),
            None => None,
        }
    } else if text::same(kind, "thinking") {
        match b.text("thinking") {
            Some(t) => if t.is_empty() {
                None
            } else {
                Some(Block::Thinking(t.to_owned()))
            },
            None => None,
        }
    } else if text::same(kind, "tool_use") || text::same(kind, "toolCall") {
        let args = match b.get("input") {
            Some(a) => a.clone(),
            None => match b.get("arguments") {
                Some(a) => a.clone(),
                None => Json::Null,
            },
        };
        Some(Block::ToolCall { id: b.string("id"), name: b.string("name"), args })
    } else if text::same(kind, "image") {
        Some(Block::Text("[image]".to_owned()))
    } else {
        None
    }
}

pub(crate) proof fn lemma_block_push(blocks: Seq<Block>, b: Block)
    ensures
        model::block_views(blocks.push(b)) == model::block_views(blocks).push(b@),
{
    assert(model::block_views(blocks.push(b)) =~= model::block_views(blocks).push(b@));
}

pub(crate) proof fn lemma_msg_push(msgs: Seq<Msg>, m: Msg)
    ensures
        model::msg_views(msgs.push(m)) == model::msg_views(msgs).push(m@),
{
    assert(model::msg_views(msgs.push(m)) =~= model::msg_views(msgs).push(m@));
}

pub fn assistant_blocks(content: &Json) -> (r: Vec<Block>)
    ensures
        model::block_views(r@) == assistant_blocks_of(content@),
{
    let mut out: Vec<Block> = Vec::new();
    match content {
        Json::Arr(items) => {
            let mut i: usize = 0;
            proof {
                json::lemma_trees_of(items@);
                assert(model::block_views(out@) =~= blocks_of(json::trees_of(items@).take(0)));
            }
            while i < items.len()
                invariant
                    i <= items@.len() == json::trees_of(items@).len(),
                    forall|k: int|
                        0 <= k < items@.len() ==> #[trigger] json::trees_of(items@)[k]
                            == json::tree_of(items@[k]),
                    model::block_views(out@) == blocks_of(json::trees_of(items@).take(i as int)),
                decreases items@.len() - i,
            {
                proof {
                    let ts = json::trees_of(items@);
                    assert(ts.take(i + 1).drop_last() =~= ts.take(i as int));
                    assert(ts.take(i + 1).last() == items@[i as int]@);
                }
                match assistant_block(&items[i]) {
                    Some(b) => {
                        proof {
                            lemma_block_push(out@, b);
                        }
                        out.push(b);
                    },
                    None => {},
                }
                i = i + 1;
            }
            proof {
                assert(json::trees_of(items@).take(i as int) =~= json::trees_of(items@));
            }
        },
        Json::Str(s) => {
            let b = Block::Text(s.clone());
            proof {
                lemma_block_push(out@, b);
                assert(model::block_views(out@) =~= Seq::empty());
                assert(Seq::<BlockV>::empty().push(b@) =~= seq![BlockV::Text(s@)]);
            }
            out.push(b);
        },
        _ => {
            proof {
                assert(model::block_views(out@) =~= Seq::empty());
            }
        },
    }
    out
}

/// Whether a content block is a tool's result.
pub open spec fn is_result(b: Tree) -> bool {
    json::text_of(json::field(b, "type"@)) == Some("tool_result"@)
}

/// The message for a tool result inside a user message.
pub open spec fn result_msg(b: Tree, ts: Option<Seq<char>>) -> MsgV {
    MsgV {
        role: Role::Tool,
        blocks: seq![
            BlockV::ToolResult {
                call_id: json::str_at(b, "tool_use_id"@),
                name: None,
                content: match json::field(b, "content"@) {
                    Some(c) => model::rendered(c),
                    None => Seq::empty(),
                },
                is_error: json::is_true(json::field(b, "is_error"@)),
            },
        ],
        ts,
    }
}

/// The tool results among content blocks, a message each.
pub open spec fn result_msgs(items: Seq<Tree>, ts: Option<Seq<char>>) -> Seq<MsgV>
    decreases items.len(),
{
    if items.len() == 0 {
        Seq::empty()
    } else if is_result(items.last()) {
        result_msgs(items.drop_last(), ts).push(result_msg(items.last(), ts))
    } else {
        result_msgs(items.drop_last(), ts)
    }
}

/// The content blocks that are no tool results.
pub open spec fn spoken(items: Seq<Tree>) -> Seq<Tree>
    decreases items.len(),
{
    if items.len() == 0 {
        Seq::empty()
    } else if is_result(items.last()) {
        spoken(items.drop_last())
    } else {
        spoken(items.drop_last()).push(items.last())
    }
}

/// What the user said in a content that may hold tool results.
pub open spec fn said(content: Tree) -> Seq<char> {
    match content {
        Tree::Str(s) => s,
        Tree::Arr(items) => model::rendered_items(spoken(items)),
        _ => Seq::empty(),
    }
}

/// A user message of Factory or CL: what the user said, then the tool results.
pub open spec fn user_msgs(content: Tree, ts: Option<Seq<char>>) -> Seq<MsgV> {
    let user = if boilerplate(said(content)) {
        Seq::empty()
    } else {
        seq![MsgV { role: Role::User, blocks: seq![BlockV::Text(said(content))], ts }]
    };
    user + match content {
        Tree::Arr(items) => result_msgs(items, ts),
        _ => Seq::empty(),
    }
}

/// The single-block message.
pub(crate) fn one(role: Role, b: Block, ts: &Option<String>) -> (m: Msg)
    ensures
        m@ == (MsgV { role, blocks: seq![b@], ts: model::opt_view(*ts) }),
{
    let mut blocks: Vec<Block> = Vec::new();
    proof {
        lemma_block_push(blocks@, b);
        assert(model::block_views(blocks@).push(b@) =~= seq![b@]);
    }
    blocks.push(b);
    Msg { role, blocks, ts: model::clone_opt(ts) }
}

pub(crate) fn flag(v: &Json, key: &str) -> (r: bool)
    ensures
        r == json::is_true(json::field(v@, key@)),
{
    match v.get(key) {
        Some(b) => match b {
            Json::Bool(x) => *x,
            _ => false,
        },
        None => false,
    }
}

fn rendered_field(v: &Json, key: &str) -> (r: String)
    ensures
        r@ == match json::field(v@, key@) {
            Some(c) => model::rendered(c),
            None => Seq::empty(),
        },
{
    match v.get(key) {
        Some(c) => render_content(c),
        None => String::new(),
    }
}

/// Factory and CL store tool results inside user messages. Split them out.
pub fn split_factory_user(content: &Json, ts: &Option<String>) -> (r: (Option<Msg>, Vec<Msg>))
    ensures
        match r.0 {
            Some(m) => !boilerplate(said(content@)) && m@ == (MsgV {
                role: Role::User,
                blocks: seq![BlockV::Text(said(content@))],
                ts: model::opt_view(*ts),
            }),
            None => boilerplate(said(content@)),
        },
        model::msg_views(r.1@) == match content@ {
            Tree::Arr(items) => result_msgs(items, model::opt_view(*ts)),
            _ => Seq::empty(),
        },
{
    let mut tools: Vec<Msg> = Vec::new();
    let mut text_blocks: Vec<Json> = Vec::new();
    proof {
        assert(model::msg_views(tools@) =~= Seq::empty());
    }
    match content {
        Json::Arr(items) => {
            let mut i: usize = 0;
            proof {
                json::lemma_trees_of(items@);
                assert(json::trees_of(items@).take(0) =~= Seq::empty());
            }
            while i < items.len()
                invariant
                    i <= items@.len() == json::trees_of(items@).len(),
                    forall|k: int|
                        0 <= k < items@.len() ==> #[trigger] json::trees_of(items@)[k]
                            == json::tree_of(items@[k]),
                    model::msg_views(tools@) == result_msgs(
                        json::trees_of(items@).take(i as int),
                        model::opt_view(*ts),
                    ),
                    json::trees_of(text_blocks@) == spoken(json::trees_of(items@).take(i as int)),
                decreases items@.len() - i,
            {
                let b = &items[i];
                proof {
                    let trees = json::trees_of(items@);
                    assert(trees.take(i + 1).drop_last() =~= trees.take(i as int));
                    assert(trees.take(i + 1).last() == b@);
                }
                let is_tool = match b.text("type") {
                    Some(ty) => text::same(ty, "tool_result"),
                    None => false,
                };
                if is_tool {
                    let m = one(
                        Role::Tool,
                        Block::ToolResult {
                            call_id: b.string("tool_use_id"),
                            name: None,
                            content: rendered_field(b, "content"),
                            is_error: flag(b, "is_error"),
                        },
                        ts,
                    );
                    proof {
                        lemma_msg_push(tools@, m);
                    }
                    tools.push(m);
                } else {
                    let copy = b.clone();
                    proof {
                        assert(text_blocks@.push(copy).drop_last() =~= text_blocks@);
                    }
                    text_blocks.push(copy);
                }
                i = i + 1;
            }
            proof {
                assert(json::trees_of(items@).take(i as int) =~= json::trees_of(items@));
            }
        },
        _ => {},
    }
    let said_text = match content {
        Json::Str(s) => s.clone(),
        _ => {
            let rest = Json::Arr(text_blocks);
            render_content(&rest)
        },
    };
    proof {
        assert(said_text@ =~= said(content@));
    }
    let user = if is_boilerplate(said_text.as_str()) {
        None
    } else {
        Some(one(Role::User, Block::Text(said_text), ts))
    };
    (user, tools)
}

pub open spec fn reasoning_parts(items: Seq<Tree>) -> Seq<Seq<char>>
    decreases items.len(),
{
    if items.len() == 0 {
        Seq::empty()
    } else {
        let before = reasoning_parts(items.drop_last());
        match json::text_of(json::field(items.last(), "text"@)) {
            Some(t) => if t.len() > 0 {
                before.push(t)
            } else {
                before
            },
            None => before,
        }
    }
}

/// The non-empty texts of a reasoning summary, a line each.
pub open spec fn reasoning_of(summary: Tree) -> Seq<char> {
    match summary {
        Tree::Arr(items) => text::joined(reasoning_parts(items), "\n"@),
        _ => Seq::empty(),
    }
}

fn reasoning_text(summary: &Json) -> (r: String)
    ensures
        r@ == reasoning_of(summary@),
{
    match summary {
        Json::Arr(items) => {
            let mut parts: Vec<String> = Vec::new();
            let mut i: usize = 0;
            proof {
                json::lemma_trees_of(items@);
                assert(text::views(parts@) =~= reasoning_parts(json::trees_of(items@).take(0)));
            }
            while i < items.len()
                invariant
                    i <= items@.len() == json::trees_of(items@).len(),
                    forall|k: int|
                        0 <= k < items@.len() ==> #[trigger] json::trees_of(items@)[k]
                            == json::tree_of(items@[k]),
                    text::views(parts@) == reasoning_parts(json::trees_of(items@).take(i as int)),
                decreases items@.len() - i,
            {
                proof {
                    let ts = json::trees_of(items@);
                    assert(ts.take(i + 1).drop_last() =~= ts.take(i as int));
                    assert(ts.take(i + 1).last() == items@[i as int]@);
                }
                match items[i].text("text") {
                    Some(t) => if !t.is_empty() {
                        let t = t.to_owned();
                        proof {
                            lemma_views_push(parts@, t);
                        }
                        parts.push(t);
                    },
                    None => {},
                }
                i = i + 1;
            }
            proof {
                assert(json::trees_of(items@).take(i as int) =~= json::trees_of(items@));
            }
            text::join(&parts, "\n")
        },
        _ => String::new(),
    }
}

/// The arguments of a Codex call: a JSON text, or the text itself where it is none.
pub open spec fn call_args(arguments: Seq<char>) -> Tree {
    match json::parsed(arguments) {
        Some(t) => t,
        None => Tree::Str(arguments),
    }
}

/// The role and block that one Codex response item says.
pub open spec fn codex_item(payload: Tree) -> Option<(Role, BlockV)> {
    let kind = json::text_of(json::field(payload, "type"@));
    if kind == Some("message"@) {
        let role = json::text_of(json::field(payload, "role"@));
        let content = json::at(payload, "content"@);
        if role == Some("user"@) {
            Some((Role::User, BlockV::Text(codex_text_of(content, "input_text"@))))
        } else if role == Some("assistant"@) {
            Some((Role::Assistant, BlockV::Text(codex_text_of(content, "output_text"@))))
        } else {
            None
        }
    } else if kind == Some("reasoning"@) {
        Some((Role::Assistant, BlockV::Thinking(reasoning_of(json::at(payload, "summary"@)))))
    } else if kind == Some("function_call"@) {
        Some(
            (
                Role::Assistant,
                BlockV::ToolCall {
                    id: json::str_at(payload, "call_id"@),
                    name: json::str_at(payload, "name"@),
                    args: call_args(json::str_at(payload, "arguments"@)),
                },
            ),
        )
    } else if kind == Some("function_call_output"@) {
        Some(
            (
                Role::Tool,
                BlockV::ToolResult {
                    call_id: json::str_at(payload, "call_id"@),
                    name: None,
                    content: json::str_at(payload, "output"@),
                    is_error: false,
                },
            ),
        )
    } else {
        None
    }
}

/// A block of text or thinking that says nothing.
pub open spec fn is_blank(b: BlockV) -> bool {
    match b {
        BlockV::Text(t) => t.len() == 0,
        BlockV::Thinking(t) => t.len() == 0,
        _ => false,
    }
}

/// The message, if any, for one Codex response item.
pub open spec fn codex_msgs(payload: Tree, ts: Option<Seq<char>>) -> Seq<MsgV> {
    match codex_item(payload) {
        Some((role, b)) => if is_blank(b) {
            Seq::empty()
        } else {
            seq![MsgV { role, blocks: seq![b], ts }]
        },
        None => Seq::empty(),
    }
}

/// What `payload` holds under `key`, rendered as Codex text.
fn codex_content(payload: &Json, kind: &str) -> (r: String)
    ensures
        r@ == codex_text_of(json::at(payload@, "content"@), kind@),
{
    match payload.get("content") {
        Some(c) => codex_text(c, kind),
        None => String::new(),
    }
}

fn codex_block(payload: &Json) -> (r: Option<(Role, Block)>)
    ensures
        match r {
            Some(x) => codex_item(payload@) == Some((x.0, x.1@)),
            None => codex_item(payload@) is None,
        },
        weight::item_fair(payload@),
{
    proof {
        words::lemma_words();
    }
    let kind = match payload.text("type") {
        Some(k) => k,
        None => {
            return None;
        },
    };
    if text::same(kind, "message") {
        let role = match payload.text("role") {
            Some(r) => r,
            None => {
                return None;
            },
        };
        if text::same(role, "user") {
            Some((Role::User, Block::Text(codex_content(payload, "input_text"))))
        } else if text::same(role, "assistant") {
            Some((Role::Assistant, Block::Text(codex_content(payload, "output_text"))))
        } else {
            None
        }
    } else if text::same(kind, "reasoning") {
        let t = match payload.get("summary") {
            Some(s) => reasoning_text(s),
            None => String::new(),
        };
        Some((Role::Assistant, Block::Thinking(t)))
    } else if text::same(kind, "function_call") {
        let arguments = payload.string("arguments");
        let args = match Json::parse(arguments.as_str()) {
            Some(j) => j,
            None => Json::Str(arguments),
        };
        Some(
            (
                Role::Assistant,
                Block::ToolCall {
                    id: payload.string("call_id"),
                    name: payload.string("name"),
                    args,
                },
            ),
        )
    } else if text::same(kind, "function_call_output") {
        Some(
            (
                Role::Tool,
                Block::ToolResult {
                    call_id: payload.string("call_id"),
                    name: None,
                    content: payload.string("output"),
                    is_error: false,
                },
            ),
        )
    } else {
        None
    }
}

/// Adds the message of one Codex response item.
pub fn parse_codex_item(payload: &Json, ts: &Option<String>, msgs: &mut Vec<Msg>)
    ensures
        model::msg_views(final(msgs)@) == model::msg_views(old(msgs)@) + codex_msgs(
            payload@,
            model::opt_view(*ts),
        ),
        weight::item_fair(payload@),
{
    let (role, b) = match codex_block(payload) {
        Some(x) => x,
        None => {
            proof {
                assert(model::msg_views(msgs@) =~= model::msg_views(msgs@) + Seq::empty());
            }
            return ;
        },
    };
    let blank = match &b {
        Block::Text(t) => t.as_str().is_empty(),
        Block::Thinking(t) => t.as_str().is_empty(),
        _ => false,
    };
    if !blank {
        let m = one(role, b, ts);
        proof {
            lemma_msg_push(msgs@, m);
            assert(model::msg_views(msgs@).push(m@) =~= model::msg_views(msgs@) + seq![m@]);
        }
        msgs.push(m);
    } else {
        proof {
            assert(model::msg_views(msgs@) =~= model::msg_views(msgs@) + Seq::empty());
        }
    }
}

/// The message, if any, of an assistant's content.
pub open spec fn assistant_msgs(content: Tree, ts: Option<Seq<char>>) -> Seq<MsgV> {
    let blocks = assistant_blocks_of(content);
    if blocks.len() == 0 {
        Seq::empty()
    } else {
        seq![MsgV { role: Role::Assistant, blocks, ts }]
    }
}

/// The messages of a Pi or OMP message record.
pub open spec fn pi_msgs(m: Tree, ts: Option<Seq<char>>) -> Seq<MsgV> {
    let role = json::str_at(m, "role"@);
    if role == "assistant"@ {
        assistant_msgs(json::at(m, "content"@), ts)
    } else if role == "user"@ {
        match user_text_of(m) {
            Some(t) => seq![MsgV { role: Role::User, blocks: seq![BlockV::Text(t)], ts }],
            None => Seq::empty(),
        }
    } else if role == "toolResult"@ {
        seq![
            MsgV {
                role: Role::Tool,
                blocks: seq![
                    BlockV::ToolResult {
                        call_id: json::str_at(m, "toolCallId"@),
                        name: json::text_of(json::field(m, "toolName"@)),
                        content: match json::field(m, "content"@) {
                            Some(c) => model::rendered(c),
                            None => Seq::empty(),
                        },
                        is_error: json::is_true(json::field(m, "isError"@)),
                    },
                ],
                ts,
            },
        ]
    } else {
        Seq::empty()
    }
}

/// The messages of a Factory or CL message record.
pub open spec fn factory_msgs(m: Tree, ts: Option<Seq<char>>) -> Seq<MsgV> {
    let role = json::str_at(m, "role"@);
    if role == "assistant"@ {
        assistant_msgs(json::at(m, "content"@), ts)
    } else if role == "user"@ {
        user_msgs(json::at(m, "content"@), ts)
    } else {
        Seq::empty()
    }
}

/// Whether a record is part of the conversation.
pub open spec fn is_conversation(h: Harness, v: Tree) -> bool {
    match h {
        Harness::Claude => {
            &&& json::field(v, "message"@) is Some
            &&& json::field(json::at(v, "message"@), "role"@) is Some
            &&& !json::is_true(json::field(v, "isSidechain"@))
        },
        Harness::Codex => json::str_at(v, "type"@) == "response_item"@,
        _ => json::str_at(v, "type"@) == "message"@,
    }
}

/// The messages that one record of a session file holds.
pub open spec fn record_msgs(h: Harness, v: Tree) -> Seq<MsgV> {
    let ts = json::text_of(json::field(v, "timestamp"@));
    if !is_conversation(h, v) {
        Seq::empty()
    } else {
        match h {
            Harness::Codex => codex_msgs(json::at(v, "payload"@), ts),
            Harness::Factory | Harness::Claude => factory_msgs(json::at(v, "message"@), ts),
            Harness::Pi | Harness::Omp => pi_msgs(json::at(v, "message"@), ts),
        }
    }
}

/// The record on one line of a session file.
pub open spec fn line_record(line: Seq<char>) -> Option<Tree> {
    json::parsed(text::trimmed(line))
}

fn conversation(h: Harness, v: &Json) -> (r: bool)
    ensures
        r == is_conversation(h, v@),
{
    match h {
        Harness::Claude => match v.get("message") {
            Some(m) => m.get("role").is_some() && !flag(v, "isSidechain"),
            None => false,
        },
        Harness::Codex => {
            let ty = v.string("type");
            text::same(ty.as_str(), "response_item")
        },
        _ => {
            let ty = v.string("type");
            text::same(ty.as_str(), "message")
        },
    }
}

fn push_assistant(content: Option<&Json>, ts: &Option<String>, msgs: &mut Vec<Msg>)
    ensures
        model::msg_views(final(msgs)@) == model::msg_views(old(msgs)@) + assistant_msgs(
            match content {
                Some(c) => c@,
                None => Tree::Null,
            },
            model::opt_view(*ts),
        ),
{
    let blocks = match content {
        Some(c) => assistant_blocks(c),
        None => {
            let none: Vec<Block> = Vec::new();
            proof {
                assert(model::block_views(none@) =~= Seq::empty());
            }
            none
        },
    };
    if blocks.len() > 0 {
        let m = Msg { role: Role::Assistant, blocks, ts: model::clone_opt(ts) };
        proof {
            lemma_msg_push(msgs@, m);
            assert(model::msg_views(msgs@).push(m@) =~= model::msg_views(msgs@) + seq![m@]);
        }
        msgs.push(m);
    } else {
        proof {
            assert(model::msg_views(msgs@) =~= model::msg_views(msgs@) + Seq::empty());
        }
    }
}

fn push_factory(m: &Json, ts: &Option<String>, msgs: &mut Vec<Msg>)
    ensures
        model::msg_views(final(msgs)@) == model::msg_views(old(msgs)@) + factory_msgs(
            m@,
            model::opt_view(*ts),
        ),
{
    let role = m.string("role");
    let ghost before = model::msg_views(msgs@);
    if text::same(role.as_str(), "assistant") {
        push_assistant(m.get("content"), ts, msgs);
    } else if text::same(role.as_str(), "user") {
        let absent = Json::Null;
        let (user, tools) = match m.get("content") {
            Some(c) => split_factory_user(c, ts),
            None => split_factory_user(&absent, ts),
        };
        let ghost content = json::at(m@, "content"@);
        let ghost first = model::msg_views(tools@);
        match user {
            Some(u) => {
                proof {
                    lemma_msg_push(msgs@, u);
                }
                msgs.push(u);
            },
            None => {},
        }
        let ghost middle = model::msg_views(msgs@);
        let ghost start = msgs@;
        let mut tools = tools;
        let ghost added = tools@;
        msgs.append(&mut tools);
        proof {
            assert(model::msg_views(msgs@) =~= model::msg_views(start) + model::msg_views(added));
            assert(model::msg_views(msgs@) =~= before + user_msgs(content, model::opt_view(*ts)));
        }
    } else {
        proof {
            assert(before =~= before + Seq::empty());
        }
    }
}

fn push_pi(m: &Json, ts: &Option<String>, msgs: &mut Vec<Msg>)
    ensures
        model::msg_views(final(msgs)@) == model::msg_views(old(msgs)@) + pi_msgs(
            m@,
            model::opt_view(*ts),
        ),
{
    let role = m.string("role");
    let ghost before = model::msg_views(msgs@);
    if text::same(role.as_str(), "assistant") {
        push_assistant(m.get("content"), ts, msgs);
    } else if text::same(role.as_str(), "user") {
        match user_text(m) {
            Some(t) => {
                let u = one(Role::User, Block::Text(t), ts);
                proof {
                    lemma_msg_push(msgs@, u);
                    assert(before.push(u@) =~= before + seq![u@]);
                }
                msgs.push(u);
            },
            None => {
                proof {
                    assert(before =~= before + Seq::empty());
                }
            },
        }
    } else if text::same(role.as_str(), "toolResult") {
        let name = match m.text("toolName") {
            Some(n) => Some(n.to_owned()),
            None => None,
        };
        let t = one(
            Role::Tool,
            Block::ToolResult {
                call_id: m.string("toolCallId"),
                name,
                content: rendered_field(m, "content"),
                is_error: flag(m, "isError"),
            },
            ts,
        );
        proof {
            lemma_msg_push(msgs@, t);
            assert(before.push(t@) =~= before + seq![t@]);
        }
        msgs.push(t);
    } else {
        proof {
            assert(before =~= before + Seq::empty());
        }
    }
}

/// Adds the messages of one record.
pub fn parse_record(harness: Harness, v: &Json, msgs: &mut Vec<Msg>)
    ensures
        model::msg_views(final(msgs)@) == model::msg_views(old(msgs)@) + record_msgs(harness, v@),
        weight::record_fair(harness, v@),
{
    if !conversation(harness, v) {
        proof {
            assert(model::msg_views(msgs@) =~= model::msg_views(msgs@) + Seq::empty());
        }
        return ;
    }
    let ts = match v.text("timestamp") {
        Some(t) => Some(t.to_owned()),
        None => None,
    };
    let absent = Json::Null;
    let key = match harness {
        Harness::Codex => "payload",
        _ => "message",
    };
    let m = match v.get(key) {
        Some(m) => m,
        None => &absent,
    };
    match harness {
        Harness::Codex => parse_codex_item(m, &ts, msgs),
        Harness::Factory | Harness::Claude => push_factory(m, &ts, msgs),
        Harness::Pi | Harness::Omp => push_pi(m, &ts, msgs),
    }
}

} // verus!
