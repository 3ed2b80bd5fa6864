//! Writing Pi and OMP sessions: one entry per message.

use crate::ids;
use crate::json;
use crate::json::{Json, Tree};
use crate::model;
use crate::model::{Block, BlockV, Harness, Msg, MsgV, Role, Session};
use crate::records;
use crate::records::{Ambient, Setting};
use crate::text;
use crate::words;
use vstd::prelude::*;

verus! {

/// A tool call's id and name.
pub type Call = (Seq<char>, Seq<char>);

/// The tool calls among blocks.
pub open spec fn block_calls(blocks: Seq<BlockV>) -> Seq<Call>
    decreases blocks.len(),
{
    if blocks.len() == 0 {
        Seq::empty()
    } else {
        let before = block_calls(blocks.drop_last());
        match blocks.last() {
            BlockV::ToolCall { id, name, args } => before.push((id, name)),
            _ => before,
        }
    }
}

/// The tool calls of all messages, in order.
pub open spec fn calls_of(msgs: Seq<MsgV>) -> Seq<Call>
    decreases msgs.len(),
{
    if msgs.len() == 0 {
        Seq::empty()
    } else {
        calls_of(msgs.drop_last()) + block_calls(msgs.last().blocks)
    }
}

/// The name of the last call with that id.
pub open spec fn call_name(calls: Seq<Call>, id: Seq<char>) -> Option<Seq<char>>
    decreases calls.len(),
{
    if calls.len() == 0 {
        None
    } else if calls.last().0 == id {
        Some(calls.last().1)
    } else {
        call_name(calls.drop_last(), id)
    }
}

/// The name of the tool that gave a result: its own, or that of the call it answers.
pub open spec fn result_name(
    calls: Seq<Call>,
    call_id: Seq<char>,
    name: Option<Seq<char>>,
) -> Seq<char> {
    match name {
        Some(n) => n,
        None => match call_name(calls, call_id) {
            Some(n) => n,
            None => Seq::empty(),
        },
    }
}

proof fn lemma_block_call_listed(blocks: Seq<BlockV>, j: int)
    requires
        0 <= j < blocks.len(),
    ensures
        blocks[j] matches BlockV::ToolCall { id, name, args } ==> block_calls(blocks).contains(
            (id, name),
        ),
    decreases blocks.len(),
{
    let before = block_calls(blocks.drop_last());
    let all = block_calls(blocks);
    if let BlockV::ToolCall { id, name, args } = blocks[j] {
        if j < blocks.len() - 1 {
            lemma_block_call_listed(blocks.drop_last(), j);
            assert(blocks.drop_last()[j] == blocks[j]);
            let k = choose|k: int| 0 <= k < before.len() && before[k] == (id, name);
            assert(all[k] == (id, name));
        } else {
            assert(all[before.len() as int] == (id, name));
        }
    }
}

proof fn lemma_call_listed(msgs: Seq<MsgV>, i: int, j: int)
    requires
        0 <= i < msgs.len(),
        0 <= j < msgs[i].blocks.len(),
    ensures
        msgs[i].blocks[j] matches BlockV::ToolCall { id, name, args } ==> calls_of(msgs).contains(
            (id, name),
        ),
    decreases msgs.len(),
{
    let before = calls_of(msgs.drop_last());
    let last = block_calls(msgs.last().blocks);
    if let BlockV::ToolCall { id, name, args } = msgs[i].blocks[j] {
        if i < msgs.len() - 1 {
            lemma_call_listed(msgs.drop_last(), i, j);
            assert(msgs.drop_last()[i] == msgs[i]);
            let k = choose|k: int| 0 <= k < before.len() && before[k] == (id, name);
            assert((before + last)[k] == (id, name));
        } else {
            lemma_block_call_listed(msgs[i].blocks, j);
            let k = choose|k: int| 0 <= k < last.len() && last[k] == (id, name);
            assert((before + last)[before.len() + k] == (id, name));
        }
    }
}

proof fn lemma_call_name(calls: Seq<Call>, id: Seq<char>, name: Seq<char>)
    requires
        calls.contains((id, name)),
        forall|k: int| 0 <= k < calls.len() && (#[trigger] calls[k]).0 == id ==> calls[k].1 == name,
    ensures
        call_name(calls, id) == Some(name),
    decreases calls.len(),
{
    let k = choose|k: int| 0 <= k < calls.len() && calls[k] == (id, name);
    assert(calls.last() == calls[calls.len() - 1]);
    if calls.last().0 != id {
        let before = calls.drop_last();
        assert(before[k] == (id, name));
        assert forall|n: int| 0 <= n < before.len() && (#[trigger] before[n]).0 == id implies before[n].1
            == name by {
            assert(before[n] == calls[n]);
        }
        lemma_call_name(before, id, name);
    }
}

/// A result that carries only an id is attributed to the tool that was called under that id, as
/// long as the session called no other tool under it.
pub proof fn lemma_attributed(msgs: Seq<MsgV>, i: int, j: int, id: Seq<char>, tool: Seq<char>)
    requires
        0 <= i < msgs.len(),
        0 <= j < msgs[i].blocks.len(),
        msgs[i].blocks[j] matches BlockV::ToolCall { id: c, name: n, args } && c == id && n == tool,
        forall|k: int|
            0 <= k < calls_of(msgs).len() && (#[trigger] calls_of(msgs)[k]).0 == id ==> calls_of(
                msgs,
            )[k].1 == tool,
    ensures
        result_name(calls_of(msgs), id, None) == tool,
{
    lemma_call_listed(msgs, i, j);
    lemma_call_name(calls_of(msgs), id, tool);
}

/// The views of id and name pairs.
pub open spec fn call_views(calls: Seq<(String, String)>) -> Seq<Call> {
    calls.map_values(|c: (String, String)| (c.0@, c.1@))
}

fn block_call(b: &Block) -> (r: Option<(String, String)>)
    ensures
        match r {
            Some(c) => b@ matches BlockV::ToolCall { id, name, args } && id == c.0@ && name == c.1@,
            None => !(b@ is ToolCall),
        },
{
    match b {
        Block::ToolCall { id, name, args } => Some((id.clone(), name.clone())),
        _ => None,
    }
}

fn add_calls(blocks: &Vec<Block>, calls: &mut Vec<(String, String)>)
    ensures
        call_views(final(calls)@) == call_views(old(calls)@) + block_calls(
            model::block_views(blocks@),
        ),
{
    let ghost before = call_views(calls@);
    let ghost bs = model::block_views(blocks@);
    let mut i: usize = 0;
    proof {
        assert(before =~= before + block_calls(bs.take(0)));
    }
    while i < blocks.len()
        invariant
            bs == model::block_views(blocks@),
            i <= blocks@.len(),
            call_views(calls@) == before + block_calls(bs.take(i as int)),
        decreases blocks@.len() - i,
    {
        proof {
            assert(bs.take(i + 1).drop_last() =~= bs.take(i as int));
            assert(bs.take(i + 1).last() == blocks@[i as int]@);
        }
        match block_call(&blocks[i]) {
            Some(c) => {
                proof {
                    assert(call_views(calls@.push(c)) =~= call_views(calls@).push((c.0@, c.1@)));
                    assert(call_views(calls@.push(c)) =~= before + block_calls(bs.take(i + 1)));
                }
                calls.push(c);
            },
            None => {},
        }
        i = i + 1;
    }
    proof {
        assert(bs.take(i as int) =~= bs);
    }
}

fn all_calls(msgs: &Vec<Msg>) -> (r: Vec<(String, String)>)
    ensures
        call_views(r@) == calls_of(model::msg_views(msgs@)),
{
    let ghost mv = model::msg_views(msgs@);
    let mut calls: Vec<(String, String)> = Vec::new();
    let mut i: usize = 0;
    proof {
        assert(call_views(calls@) =~= calls_of(mv.take(0)));
    }
    while i < msgs.len()
        invariant
            mv == model::msg_views(msgs@),
            i <= msgs@.len(),
            call_views(calls@) == calls_of(mv.take(i as int)),
        decreases msgs@.len() - i,
    {
        proof {
            assert(mv.take(i + 1).drop_last() =~= mv.take(i as int));
            assert(mv.take(i + 1).last() == msgs@[i as int]@);
        }
        add_calls(&msgs[i].blocks, &mut calls);
        i = i + 1;
    }
    proof {
        assert(mv.take(i as int) =~= mv);
    }
    calls
}

fn name_of_result(calls: &Vec<(String, String)>, call_id: &str, name: &Option<String>) -> (r:
    String)
    ensures
        r@ == result_name(call_views(calls@), call_id@, model::opt_view(*name)),
{
    match name {
        Some(n) => n.clone(),
        None => {
            let ghost cs = call_views(calls@);
            let mut i: usize = calls.len();
            proof {
                assert(cs.take(i as int) =~= cs);
            }
            while i > 0
                invariant
                    cs == call_views(calls@),
                    name is None,
                    i <= calls@.len(),
                    call_name(cs, call_id@) == call_name(cs.take(i as int), call_id@),
                decreases i,
            {
                proof {
                    assert(cs.take(i as int).drop_last() =~= cs.take(i - 1));
                    assert(cs.take(i as int).last() == cs[i - 1]);
                }
                if text::same(calls[i - 1].0.as_str(), call_id) {
                    return calls[i - 1].1.clone();
                }
                i = i - 1;
            }
            String::new()
        },
    }
}

/// The token counts that Pi and OMP read from every assistant message; all zero.
pub open spec fn zero_usage() -> Tree {
    let zero = Tree::Pos(0);
    json::empty_obj().with("input"@, zero).with("output"@, zero).with("cacheRead"@, zero).with(
        "cacheWrite"@,
        zero,
    ).with("totalTokens"@, zero).with(
        "cost"@,
        json::empty_obj().with("input"@, zero).with("output"@, zero).with("cacheRead"@, zero).with(
            "cacheWrite"@,
            zero,
        ).with("total"@, zero),
    )
}

fn usage_json() -> (r: Json)
    ensures
        r@ == zero_usage(),
{
    let cost = Json::object().with("input", Json::Pos(0)).with("output", Json::Pos(0)).with(
        "cacheRead",
        Json::Pos(0),
    ).with("cacheWrite", Json::Pos(0)).with("total", Json::Pos(0));
    Json::object().with("input", Json::Pos(0)).with("output", Json::Pos(0)).with(
        "cacheRead",
        Json::Pos(0),
    ).with("cacheWrite", Json::Pos(0)).with("totalTokens", Json::Pos(0)).with("cost", cost)
}

/// A message as Pi and OMP write it; none for a tool message without a result.
pub open spec fn pi_message(model: Seq<char>, calls: Seq<Call>, m: MsgV) -> Option<Tree> {
    match m.role {
        Role::Assistant => Some(
            records::with_model(
                json::empty_obj().with("role"@, Tree::Str("assistant"@)).with(
                    "content"@,
                    Tree::Arr(records::native_blocks(Harness::Pi, m.blocks)),
                ).with("provider"@, Tree::Str("bodysnatcher"@)).with("usage"@, zero_usage()),
                model,
            ),
        ),
        Role::User => Some(
            json::empty_obj().with("role"@, Tree::Str("user"@)).with(
                "content"@,
                Tree::Arr(seq![records::text_tree(records::spoken_text(m.blocks))]),
            ),
        ),
        Role::Tool => if m.blocks.len() == 0 {
            None
        } else {
            match m.blocks[0] {
                BlockV::ToolResult { call_id, name, content, is_error } => Some(
                    json::empty_obj().with("role"@, Tree::Str("toolResult"@)).with(
                        "toolCallId"@,
                        Tree::Str(call_id),
                    ).with("toolName"@, Tree::Str(result_name(calls, call_id, name))).with(
                        "content"@,
                        Tree::Arr(seq![records::text_tree(content)]),
                    ).with("isError"@, Tree::Bool(is_error)),
                ),
                _ => None,
            }
        },
    }
}

/// Every assistant message is written, and carries a usage.
pub proof fn lemma_usage(model: Seq<char>, calls: Seq<Call>, m: MsgV)
    requires
        m.role == Role::Assistant,
    ensures
        pi_message(model, calls, m) matches Some(t) && json::field(t, "usage"@) == Some(
            zero_usage(),
        ),
{
    broadcast use json::lemma_field_with;

    words::lemma_words();
}

pub open spec fn pi_record(w: Setting, m: MsgV, message: Tree, k: int) -> Tree {
    json::empty_obj().with("type"@, Tree::Str("message"@)).with("id"@, Tree::Str(w.short_id(k))).with(
        "parentId"@,
        records::parent_id(w.short_id(k - 1), k),
    ).with("timestamp"@, Tree::Str(records::stamp(m, w.ts))).with("message"@, message)
}

/// The records of the messages from `i` on, numbered from `k`, for Pi and OMP.
pub open spec fn pi_records(w: Setting, msgs: Seq<MsgV>, calls: Seq<Call>, i: int, k: int) -> Seq<
    Tree,
>
    decreases msgs.len() - i,
{
    if 0 <= i < msgs.len() {
        match pi_message(w.model, calls, msgs[i]) {
            Some(message) => seq![pi_record(w, msgs[i], message, k)] + pi_records(
                w,
                msgs,
                calls,
                i + 1,
                k + 1,
            ),
            None => pi_records(w, msgs, calls, i + 1, k),
        }
    } else {
        Seq::empty()
    }
}

fn pi_message_json(model_name: &str, calls: &Vec<(String, String)>, m: &Msg) -> (r: Option<Json>)
    ensures
        match r {
            Some(j) => pi_message(model_name@, call_views(calls@), m@) == Some(j@),
            None => pi_message(model_name@, call_views(calls@), m@) is None,
        },
{
    match m.role {
        Role::Assistant => {
            let content = records::native_content(Harness::Pi, &m.blocks);
            let o = Json::object().with("role", Json::of_text("assistant")).with(
                "content",
                Json::Arr(content),
            ).with("provider", Json::of_text("bodysnatcher")).with("usage", usage_json());
            if model_name.is_empty() {
                Some(o)
            } else {
                Some(o.with("model", Json::of_text(model_name)))
            }
        },
        Role::User => {
            let t = records::user_text_of(&m.blocks);
            Some(
                Json::object().with("role", Json::of_text("user")).with(
                    "content",
                    Json::list_of(records::text_json(t.as_str())),
                ),
            )
        },
        Role::Tool => {
            if m.blocks.len() == 0 {
                return None;
            }
            proof {
                assert(m@.blocks[0] == m.blocks@[0]@);
            }
            match &m.blocks[0] {
                Block::ToolResult { call_id, name, content, is_error } => {
                    let tool = name_of_result(calls, call_id.as_str(), name);
                    Some(
                        Json::object().with("role", Json::of_text("toolResult")).with(
                            "toolCallId",
                            Json::of_text(call_id.as_str()),
                        ).with("toolName", Json::of_text(tool.as_str())).with(
                            "content",
                            Json::list_of(records::text_json(content.as_str())),
                        ).with("isError", Json::Bool(*is_error)),
                    )
                },
                _ => None,
            }
        },
    }
}

/// Adds the records of all messages, for Pi and OMP.
pub(crate) fn write_entries(
    src: &Session,
    msgs: &Vec<Msg>,
    id: &str,
    ts: &str,
    amb: &Ambient,
    out: &mut Vec<String>,
    Ghost(head): Ghost<Seq<Tree>>,
)
    requires
        amb.draws@.len() > msgs@.len(),
        records::are_lines(text::views(old(out)@), head),
    ensures
        records::are_lines(
            text::views(final(out)@),
            head + pi_records(
                records::setting(*src, id@, ts@, *amb),
                model::msg_views(msgs@),
                calls_of(model::msg_views(msgs@)),
                0,
                0,
            ),
        ),
{
    let ghost w = records::setting(*src, id@, ts@, *amb);
    let ghost mv = model::msg_views(msgs@);
    let ghost cs = calls_of(mv);
    let ghost all = pi_records(w, mv, cs, 0, 0);
    let ghost mut done: Seq<Tree> = Seq::empty();
    let calls = all_calls(msgs);
    let mut parent: Option<String> = None;
    let mut i: usize = 0;
    let mut k: usize = 0;
    proof {
        assert(done + all =~= all);
        assert(head + done =~= head);
    }
    while i < msgs.len()
        invariant
            w == records::setting(*src, id@, ts@, *amb),
            mv == model::msg_views(msgs@),
            cs == call_views(calls@),
            amb.draws@.len() > msgs@.len(),
            k <= i <= msgs@.len(),
            records::are_lines(text::views(out@), head + done),
            done + pi_records(w, mv, cs, i as int, k as int) == all,
            model::opt_view(parent) == if k > 0 {
                Some(w.short_id(k - 1))
            } else {
                None
            },
        decreases msgs@.len() - i,
    {
        let m = &msgs[i];
        proof {
            assert(mv[i as int] == m@);
        }
        match pi_message_json(src.model.as_str(), &calls, m) {
            Some(message) => {
                let rid = ids::short_hex(&amb.draws[k + 1]);
                let at = records::stamp_of(m, ts);
                let rec = Json::object().with("type", Json::of_text("message")).with(
                    "id",
                    Json::of_text(rid.as_str()),
                ).with("parentId", Json::of_option(&parent)).with(
                    "timestamp",
                    Json::of_text(at.as_str()),
                ).with("message", message);
                records::put_line(out, &rec, Ghost(head + done));
                proof {
                    let rest = pi_records(w, mv, cs, i + 1, k + 1);
                    assert(rec@ == pi_record(w, mv[i as int], message@, k as int));
                    assert(done.push(rec@) + rest =~= done + (seq![rec@] + rest));
                    assert((head + done).push(rec@) =~= head + done.push(rec@));
                    done = done.push(rec@);
                }
                parent = Some(rid);
                k = k + 1;
            },
            None => {},
        }
        i = i + 1;
    }
    proof {
        assert(done + Seq::<Tree>::empty() =~= done);
    }
}

} // verus!
