//! What the native records of each harness are read as.

use crate::history;
use crate::json;
use crate::json::Tree;
use crate::model;
use crate::model::{BlockV, Harness, MsgV, Role};
use crate::parse;
use crate::text;
use crate::words;
use vstd::prelude::*;

verus! {

/// `v` holds the text `s` under `key`.
pub open spec fn says(v: Tree, key: Seq<char>, s: Seq<char>) -> bool {
    json::field(v, key) == Some(Tree::Str(s))
}

/// `v` holds the text `s` under `key`, or nothing where there is none.
pub open spec fn says_if(v: Tree, key: Seq<char>, s: Option<Seq<char>>) -> bool {
    match s {
        Some(t) => says(v, key, t),
        None => json::field(v, key) is None,
    }
}

/// A block that says `t`.
pub open spec fn text_block(b: Tree, t: Seq<char>) -> bool {
    says(b, "type"@, "text"@) && says(b, "text"@, t)
}

/// Text blocks that say `ts`, none of which is empty or ends a line.
pub open spec fn lines_say(items: Seq<Tree>, ts: Seq<Seq<char>>) -> bool {
    &&& items.len() == ts.len() > 0
    &&& forall|i: int| 0 <= i < items.len() ==> text_block(#[trigger] items[i], ts[i])
    &&& forall|i: int| 0 <= i < ts.len() ==> (#[trigger] ts[i]).len() > 0 && ts[i].last() != '\n'
}

/// Content that says `t`: as a string, as one text block, or as a text block for each line.
pub open spec fn content_says(c: Tree, t: Seq<char>) -> bool {
    match c {
        Tree::Str(s) => s == t,
        Tree::Arr(items) => {
            ||| items.len() == 1 && text_block(items[0], t)
            ||| exists|ts: Seq<Seq<char>>| #[trigger]
                lines_say(items, ts) && t == text::joined(ts, "\n"@)
        },
        _ => false,
    }
}

/// A text that a user typed: it says something, and is no reminder or notice of the harness.
pub open spec fn typed(t: Seq<char>) -> bool {
    let s = text::trimmed(t);
    s.len() > 0 && !text::begins(s, "<system-reminder>"@) && !text::begins(s, "<system-notice>"@)
}

/// A record of `h` that holds a message of `role` with `content`, at the time `ts`.
pub open spec fn turn_of(
    h: Harness,
    v: Tree,
    role: Seq<char>,
    content: Tree,
    ts: Option<Seq<char>>,
) -> bool {
    &&& json::field(v, "message"@) matches Some(m) && says(m, "role"@, role) && json::field(
        m,
        "content"@,
    ) == Some(content)
    &&& says_if(v, "timestamp"@, ts)
    &&& h == Harness::Claude ==> json::field(v, "isSidechain"@) != Some(Tree::Bool(true))
    &&& h != Harness::Claude ==> says(v, "type"@, "message"@)
    &&& h != Harness::Codex
}

proof fn lemma_one_item(b: Tree)
    ensures
        model::rendered_items(seq![b]) == model::with_block(Seq::empty(), b),
{
    assert(seq![b].drop_last() =~= Seq::<Tree>::empty());
    assert(model::rendered_items(Seq::<Tree>::empty()) == Seq::<char>::empty());
}

/// A string, a single text block, and a text block for each line say the same.
pub proof fn lemma_content(c: Tree, t: Seq<char>)
    requires
        content_says(c, t),
    ensures
        model::rendered(c) == t,
{
    words::lemma_words();
    if let Tree::Arr(items) = c {
        if items.len() == 1 && text_block(items[0], t) {
            assert(items =~= seq![items[0]]);
            lemma_one_item(items[0]);
            assert(Seq::<char>::empty() + t =~= t);
        } else {
            let ts = choose|ts: Seq<Seq<char>>| #[trigger]
                lines_say(items, ts) && t == text::joined(ts, "\n"@);
            lemma_content_lines(items, ts);
        }
    }
}

/// Text blocks are a line each.
pub proof fn lemma_content_lines(items: Seq<Tree>, ts: Seq<Seq<char>>)
    requires
        items.len() == ts.len(),
        forall|i: int| 0 <= i < items.len() ==> text_block(#[trigger] items[i], ts[i]),
        forall|i: int| 0 <= i < ts.len() ==> (#[trigger] ts[i]).len() > 0 && ts[i].last() != '\n',
    ensures
        model::rendered(Tree::Arr(items)) == text::joined(ts, "\n"@),
        items.len() > 0 ==> model::rendered(Tree::Arr(items)).len() > 0 && model::rendered(
            Tree::Arr(items),
        ).last() != '\n',
    decreases items.len(),
{
    words::lemma_words();
    reveal_strlit("\n");
    if items.len() > 0 {
        let before = items.drop_last();
        let some = ts.drop_last();
        assert forall|i: int| 0 <= i < before.len() implies text_block(
            #[trigger] before[i],
            some[i],
        ) by {
            assert(before[i] == items[i] && some[i] == ts[i]);
        }
        assert forall|i: int| 0 <= i < some.len() implies (#[trigger] some[i]).len() > 0
            && some[i].last() != '\n' by {
            assert(some[i] == ts[i]);
        }
        lemma_content_lines(before, some);
        let out = model::rendered_items(before);
        let t = ts[ts.len() - 1];
        assert(text_block(items[items.len() - 1], t));
        assert(model::with_block(out, items.last()) == model::fresh_line(out) + t);
        if before.len() == 0 {
            assert(out =~= Seq::empty());
            assert(out + t =~= t);
        } else {
            assert(out.push('\n') =~= out + "\n"@);
        }
    }
}

/// What else a content may hold is told in words of its own: thoughts, calls, results and images.
pub proof fn lemma_content_others(
    out: Seq<char>,
    b: Tree,
    t: Seq<char>,
    name: Seq<char>,
    args: Tree,
    id: Seq<char>,
)
    ensures
        says(b, "type"@, "thinking"@) && says(b, "thinking"@, t) && t.len() > 0
            ==> model::with_block(out, b) == out + "[thinking]\n"@ + t + "\n[/thinking]\n"@,
        says(b, "type"@, "tool_use"@) && says(b, "name"@, name) && json::field(b, "input"@) == Some(
            args,
        ) && json::field(b, "arguments"@) is None ==> model::with_block(out, b) == out + "[tool "@
            + name + "] "@ + json::printed(json::normal(args)) + "\n"@,
        says(b, "type"@, "toolCall"@) && says(b, "name"@, name) && json::field(b, "arguments"@)
            == Some(args) ==> model::with_block(out, b) == out + "[tool "@ + name + "] "@
            + json::printed(json::normal(args)) + "\n"@,
        says(b, "type"@, "tool_result"@) && says(b, "tool_use_id"@, id) && json::field(
            b,
            "toolCallId"@,
        ) is None && says(b, "content"@, t) ==> model::with_block(out, b) == out + "[tool result "@
            + id + "]\n"@ + t + "\n"@,
        says(b, "type"@, "image"@) ==> model::with_block(out, b) == out + "[image]\n"@,
{
    words::lemma_words();
    reveal_strlit("\n");
    reveal_strlit("[tool result");
    reveal_strlit("[tool result ");
    let a = json::printed(json::normal(args));
    assert((out + "[tool "@ + name + "] "@ + a).push('\n') =~= out + "[tool "@ + name + "] "@ + a
        + "\n"@);
    assert("[tool result "@ =~= "[tool result"@ + seq![' ']);
    assert(out + "[tool result"@ + (seq![' '] + id) + "]\n"@ + t.push('\n') =~= out
        + "[tool result "@ + id + "]\n"@ + t + "\n"@);
}

/// A tool result as Factory and CL keep it, inside a user message.
pub open spec fn result_block(b: Tree, id: Seq<char>, t: Seq<char>, is_error: bool) -> bool {
    &&& says(b, "type"@, "tool_result"@)
    &&& says(b, "tool_use_id"@, id)
    &&& json::field(b, "content"@) matches Some(c) && content_says(c, t)
    &&& is_error <==> json::field(b, "is_error"@) == Some(Tree::Bool(true))
}

/// The message of a tool's result.
pub open spec fn result(
    id: Seq<char>,
    name: Option<Seq<char>>,
    t: Seq<char>,
    is_error: bool,
    ts: Option<Seq<char>>,
) -> MsgV {
    MsgV {
        role: Role::Tool,
        blocks: seq![BlockV::ToolResult { call_id: id, name, content: t, is_error }],
        ts,
    }
}

/// Tool results as Factory and CL keep them.
pub open spec fn result_blocks(
    items: Seq<Tree>,
    ids: Seq<Seq<char>>,
    texts: Seq<Seq<char>>,
    errors: Seq<bool>,
) -> bool {
    &&& items.len() == ids.len() == texts.len() == errors.len()
    &&& forall|i: int|
        0 <= i < items.len() ==> result_block(#[trigger] items[i], ids[i], texts[i], errors[i])
}

/// The messages of tools' results.
pub open spec fn results(
    ids: Seq<Seq<char>>,
    texts: Seq<Seq<char>>,
    errors: Seq<bool>,
    ts: Option<Seq<char>>,
) -> Seq<MsgV> {
    Seq::new(ids.len(), |i: int| result(ids[i], None, texts[i], errors[i], ts))
}

proof fn lemma_results(
    first: Seq<Tree>,
    items: Seq<Tree>,
    ids: Seq<Seq<char>>,
    texts: Seq<Seq<char>>,
    errors: Seq<bool>,
    ts: Option<Seq<char>>,
)
    requires
        forall|i: int| 0 <= i < first.len() ==> !parse::is_result(#[trigger] first[i]),
        result_blocks(items, ids, texts, errors),
    ensures
        parse::result_msgs(first + items, ts) == results(ids, texts, errors, ts),
        parse::spoken(first + items) == first,
    decreases items.len() + first.len(),
{
    words::lemma_words();
    let all = first + items;
    let got = results(ids, texts, errors, ts);
    if items.len() > 0 {
        let n = items.len() - 1;
        let before = items.drop_last();
        let i2 = ids.drop_last();
        let t2 = texts.drop_last();
        let e2 = errors.drop_last();
        assert(all.drop_last() =~= first + before);
        assert forall|i: int| 0 <= i < before.len() implies result_block(
            #[trigger] before[i],
            i2[i],
            t2[i],
            e2[i],
        ) by {
            assert(before[i] == items[i]);
        }
        lemma_results(first, before, i2, t2, e2, ts);
        assert(items[n] == all.last());
        assert(result_block(items[n], ids[n], texts[n], errors[n]));
        lemma_content(json::field(items[n], "content"@)->Some_0, texts[n]);
        assert(parse::result_msg(items[n], ts).blocks =~= got[n].blocks);
        assert(got =~= results(i2, t2, e2, ts).push(got[n]));
    } else if first.len() > 0 {
        assert(all =~= first);
        assert(!parse::is_result(first[first.len() - 1]));
        let front = first.drop_last();
        assert(front + items =~= front);
        lemma_results(front, items, ids, texts, errors, ts);
        assert(first =~= front.push(first.last()));
    } else {
        assert(all =~= Seq::empty());
        assert(got =~= Seq::empty());
    }
}

/// A user message of Factory or CL that holds tool results is read as a tool message for each, in
/// order, that says what the tool said, whether that is a string or a text block.
pub proof fn lemma_results_read(
    h: Harness,
    v: Tree,
    items: Seq<Tree>,
    ids: Seq<Seq<char>>,
    texts: Seq<Seq<char>>,
    errors: Seq<bool>,
    ts: Option<Seq<char>>,
)
    requires
        h == Harness::Factory || h == Harness::Claude,
        turn_of(h, v, "user"@, Tree::Arr(items), ts),
        result_blocks(items, ids, texts, errors),
    ensures
        parse::record_msgs(h, v) == results(ids, texts, errors, ts),
{
    words::lemma_words();
    let got = results(ids, texts, errors, ts);
    lemma_results(Seq::empty(), items, ids, texts, errors, ts);
    assert(Seq::<Tree>::empty() + items =~= items);
    assert(parse::said(Tree::Arr(items)) == Seq::<char>::empty());
    assert(text::trimmed(Seq::<char>::empty()) == Seq::<char>::empty());
    assert(Seq::<MsgV>::empty() + got =~= got);
}

/// What the user typed beside tool results comes before them.
pub proof fn lemma_said_read(
    h: Harness,
    v: Tree,
    b: Tree,
    said: Seq<char>,
    items: Seq<Tree>,
    ids: Seq<Seq<char>>,
    texts: Seq<Seq<char>>,
    errors: Seq<bool>,
    ts: Option<Seq<char>>,
)
    requires
        h == Harness::Factory || h == Harness::Claude,
        text_block(b, said),
        typed(said),
        turn_of(h, v, "user"@, Tree::Arr(seq![b] + items), ts),
        result_blocks(items, ids, texts, errors),
    ensures
        parse::record_msgs(h, v) == seq![
            MsgV { role: Role::User, blocks: seq![BlockV::Text(said)], ts },
        ] + results(ids, texts, errors, ts),
{
    words::lemma_words();
    assert(!parse::is_result(b));
    lemma_results(seq![b], items, ids, texts, errors, ts);
    lemma_content(Tree::Arr(seq![b]), said);
}

/// What the user typed is read as a message of the user, whether it is a string or a text block.
/// Reminders and notices of the harness are passed over.
pub proof fn lemma_user_read(h: Harness, v: Tree, c: Tree, t: Seq<char>, ts: Option<Seq<char>>)
    requires
        turn_of(h, v, "user"@, c, ts),
        content_says(c, t),
    ensures
        typed(t) ==> parse::record_msgs(h, v) == seq![
            MsgV { role: Role::User, blocks: seq![BlockV::Text(t)], ts },
        ],
        !typed(t) ==> parse::record_msgs(h, v) == Seq::<MsgV>::empty(),
{
    words::lemma_words();
    lemma_content(c, t);
    if let Tree::Arr(items) = c {
        assert forall|i: int| 0 <= i < items.len() implies !parse::is_result(#[trigger] items[i]) by {
            if !(items.len() == 1 && text_block(items[0], t)) {
                let ts = choose|ts: Seq<Seq<char>>| #[trigger]
                    lines_say(items, ts) && t == text::joined(ts, "\n"@);
                assert(text_block(items[i], ts[i]));
            }
        }
        lemma_results(items, Seq::empty(), Seq::empty(), Seq::empty(), Seq::empty(), ts);
        assert(items + Seq::<Tree>::empty() =~= items);
    }
    let one = seq![MsgV { role: Role::User, blocks: seq![BlockV::Text(t)], ts }];
    assert(one + Seq::<MsgV>::empty() =~= one);
    assert(Seq::<MsgV>::empty() + Seq::<MsgV>::empty() =~= Seq::<MsgV>::empty());
}

/// A block of an assistant's message as any harness but Codex writes it.
pub open spec fn block_says(b: Tree, x: BlockV) -> bool {
    match x {
        BlockV::Text(t) => text_block(b, t) || (says(b, "type"@, "image"@) && t == "[image]"@),
        BlockV::Thinking(t) => says(b, "type"@, "thinking"@) && says(b, "thinking"@, t) && t.len()
            > 0,
        BlockV::ToolCall { id, name, args } => {
            &&& says(b, "id"@, id)
            &&& says(b, "name"@, name)
            &&& {
                ||| says(b, "type"@, "tool_use"@) && json::field(b, "input"@) == Some(args)
                ||| says(b, "type"@, "toolCall"@) && json::field(b, "arguments"@) == Some(args)
                    && json::field(b, "input"@) is None
            }
        },
        BlockV::ToolResult { .. } => false,
    }
}

proof fn lemma_blocks(items: Seq<Tree>, blocks: Seq<BlockV>)
    requires
        items.len() == blocks.len(),
        forall|i: int| 0 <= i < items.len() ==> block_says(#[trigger] items[i], blocks[i]),
    ensures
        parse::blocks_of(items) == blocks,
    decreases items.len(),
{
    words::lemma_words();
    if items.len() > 0 {
        let before = items.drop_last();
        let some = blocks.drop_last();
        assert forall|i: int| 0 <= i < before.len() implies block_says(
            #[trigger] before[i],
            some[i],
        ) by {
            assert(before[i] == items[i] && some[i] == blocks[i]);
        }
        lemma_blocks(before, some);
        let x = blocks[blocks.len() - 1];
        assert(block_says(items[items.len() - 1], x));
        assert(parse::block_of(items.last()) == Some(x));
        assert(blocks =~= some.push(x));
    } else {
        assert(blocks =~= Seq::empty());
    }
}

/// An assistant's message is read block by block: texts, thoughts, and calls with their ids, names
/// and arguments.
pub proof fn lemma_assistant_read(
    h: Harness,
    v: Tree,
    items: Seq<Tree>,
    blocks: Seq<BlockV>,
    ts: Option<Seq<char>>,
)
    requires
        turn_of(h, v, "assistant"@, Tree::Arr(items), ts),
        items.len() == blocks.len() > 0,
        forall|i: int| 0 <= i < items.len() ==> block_says(#[trigger] items[i], blocks[i]),
    ensures
        parse::record_msgs(h, v) == seq![MsgV { role: Role::Assistant, blocks, ts }],
{
    words::lemma_words();
    lemma_blocks(items, blocks);
}

/// An assistant's message that is a string is one text.
pub proof fn lemma_assistant_string(h: Harness, v: Tree, t: Seq<char>, ts: Option<Seq<char>>)
    requires
        turn_of(h, v, "assistant"@, Tree::Str(t), ts),
    ensures
        parse::record_msgs(h, v) == seq![
            MsgV { role: Role::Assistant, blocks: seq![BlockV::Text(t)], ts },
        ],
{
    words::lemma_words();
}

/// A tool result of Pi or OMP is a message of its own.
pub proof fn lemma_pi_result_read(
    h: Harness,
    v: Tree,
    c: Tree,
    id: Seq<char>,
    name: Option<Seq<char>>,
    t: Seq<char>,
    ts: Option<Seq<char>>,
)
    requires
        h == Harness::Pi || h == Harness::Omp,
        turn_of(h, v, "toolResult"@, c, ts),
        says(json::at(v, "message"@), "toolCallId"@, id),
        says_if(json::at(v, "message"@), "toolName"@, name),
        content_says(c, t),
    ensures
        parse::record_msgs(h, v) == seq![
            result(
                id,
                name,
                t,
                json::field(json::at(v, "message"@), "isError"@) == Some(Tree::Bool(true)),
                ts,
            ),
        ],
{
    words::lemma_words();
    lemma_content(c, t);
}

/// A Codex record that holds the item `p`.
pub open spec fn item_of(v: Tree, p: Tree, ts: Option<Seq<char>>) -> bool {
    &&& says(v, "type"@, "response_item"@)
    &&& json::field(v, "payload"@) == Some(p)
    &&& says_if(v, "timestamp"@, ts)
}

/// Parts of a Codex content of one kind.
pub open spec fn parts_say(items: Seq<Tree>, kind: Seq<char>, ts: Seq<Seq<char>>) -> bool {
    &&& items.len() == ts.len()
    &&& forall|i: int|
        0 <= i < items.len() ==> says(#[trigger] items[i], "type"@, kind) && says(
            items[i],
            "text"@,
            ts[i],
        )
}

pub(crate) proof fn lemma_parts(items: Seq<Tree>, kind: Seq<char>, ts: Seq<Seq<char>>)
    requires
        parts_say(items, kind, ts),
    ensures
        parse::codex_parts(items, kind) == ts,
    decreases items.len(),
{
    if items.len() > 0 {
        let before = items.drop_last();
        let some = ts.drop_last();
        assert forall|i: int| 0 <= i < before.len() implies says(#[trigger] before[i], "type"@, kind)
            && says(before[i], "text"@, some[i]) by {
            assert(before[i] == items[i] && some[i] == ts[i]);
        }
        lemma_parts(before, kind, some);
        assert(says(items[items.len() - 1], "type"@, kind));
        assert(ts =~= some.push(ts[ts.len() - 1]));
    } else {
        assert(ts =~= Seq::empty());
    }
}

/// A Codex message is read as its parts, a line each: those of input for the user, those of output
/// for the assistant. A message that says nothing is passed over.
pub proof fn lemma_codex_message(
    v: Tree,
    p: Tree,
    items: Seq<Tree>,
    ts: Seq<Seq<char>>,
    at: Option<Seq<char>>,
)
    requires
        item_of(v, p, at),
        says(p, "type"@, "message"@),
        json::field(p, "content"@) == Some(Tree::Arr(items)),
        text::joined(ts, "\n"@).len() > 0,
    ensures
        says(p, "role"@, "user"@) && parts_say(items, "input_text"@, ts) ==> parse::record_msgs(
            Harness::Codex,
            v,
        ) == seq![
            MsgV { role: Role::User, blocks: seq![BlockV::Text(text::joined(ts, "\n"@))], ts: at },
        ],
        says(p, "role"@, "assistant"@) && parts_say(items, "output_text"@, ts)
            ==> parse::record_msgs(Harness::Codex, v) == seq![
            MsgV {
                role: Role::Assistant,
                blocks: seq![BlockV::Text(text::joined(ts, "\n"@))],
                ts: at,
            },
        ],
        !says(p, "role"@, "user"@) && !says(p, "role"@, "assistant"@) ==> parse::record_msgs(
            Harness::Codex,
            v,
        ) == Seq::<MsgV>::empty(),
        items.len() == 0 ==> parse::record_msgs(Harness::Codex, v) == Seq::<MsgV>::empty(),
{
    words::lemma_words();
    if says(p, "role"@, "user"@) && parts_say(items, "input_text"@, ts) {
        lemma_parts(items, "input_text"@, ts);
    }
    if says(p, "role"@, "assistant"@) && parts_say(items, "output_text"@, ts) {
        lemma_parts(items, "output_text"@, ts);
    }
}

proof fn lemma_thoughts(items: Seq<Tree>, ts: Seq<Seq<char>>)
    requires
        items.len() == ts.len(),
        forall|i: int|
            0 <= i < items.len() ==> says(#[trigger] items[i], "text"@, ts[i]) && ts[i].len() > 0,
    ensures
        parse::reasoning_parts(items) == ts,
    decreases items.len(),
{
    if items.len() > 0 {
        let before = items.drop_last();
        let some = ts.drop_last();
        assert forall|i: int| 0 <= i < before.len() implies says(
            #[trigger] before[i],
            "text"@,
            some[i],
        ) && some[i].len() > 0 by {
            assert(before[i] == items[i] && some[i] == ts[i]);
        }
        lemma_thoughts(before, some);
        assert(says(items[items.len() - 1], "text"@, ts[ts.len() - 1]));
        assert(ts =~= some.push(ts[ts.len() - 1]));
    } else {
        assert(ts =~= Seq::empty());
    }
}

/// The summary of a Codex reasoning is a thought of the assistant, a line for each part.
pub proof fn lemma_codex_reasoning(
    v: Tree,
    p: Tree,
    items: Seq<Tree>,
    ts: Seq<Seq<char>>,
    at: Option<Seq<char>>,
)
    requires
        item_of(v, p, at),
        says(p, "type"@, "reasoning"@),
        json::field(p, "summary"@) == Some(Tree::Arr(items)),
        items.len() == ts.len() > 0,
        forall|i: int|
            0 <= i < items.len() ==> says(#[trigger] items[i], "text"@, ts[i]) && ts[i].len() > 0,
    ensures
        parse::record_msgs(Harness::Codex, v) == seq![
            MsgV {
                role: Role::Assistant,
                blocks: seq![BlockV::Thinking(text::joined(ts, "\n"@))],
                ts: at,
            },
        ],
{
    words::lemma_words();
    lemma_thoughts(items, ts);
    let n = ts.len() - 1;
    assert(says(items[n], "text"@, ts[n]));
    assert(text::joined(ts, "\n"@).len() > 0);
}

/// A Codex call is a call of the assistant: its arguments are what the text holds as JSON, or the
/// text itself. Its output is the result that the tool gave.
pub proof fn lemma_codex_call(
    v: Tree,
    p: Tree,
    id: Seq<char>,
    name: Seq<char>,
    t: Seq<char>,
    at: Option<Seq<char>>,
)
    requires
        item_of(v, p, at),
        says(p, "call_id"@, id),
    ensures
        says(p, "type"@, "function_call"@) && says(p, "name"@, name) && says(p, "arguments"@, t)
            ==> parse::record_msgs(Harness::Codex, v) == seq![
            MsgV {
                role: Role::Assistant,
                blocks: seq![
                    BlockV::ToolCall {
                        id,
                        name,
                        args: match json::parsed(t) {
                            Some(a) => a,
                            None => Tree::Str(t),
                        },
                    },
                ],
                ts: at,
            },
        ],
        says(p, "type"@, "function_call_output"@) && says(p, "output"@, t) ==> parse::record_msgs(
            Harness::Codex,
            v,
        ) == seq![result(id, None, t, false, at)],
{
    words::lemma_words();
}

/// Records that are no part of the conversation are passed over: side chains of CL, and whatever
/// the other harnesses do not call a message.
pub proof fn lemma_passed_by(h: Harness, v: Tree)
    ensures
        h == Harness::Claude && json::field(v, "isSidechain"@) == Some(Tree::Bool(true))
            ==> parse::record_msgs(h, v) == Seq::<MsgV>::empty(),
        h == Harness::Claude && json::field(v, "message"@) is None ==> parse::record_msgs(h, v)
            == Seq::<MsgV>::empty(),
        h == Harness::Codex && !says(v, "type"@, "response_item"@) ==> parse::record_msgs(h, v)
            == Seq::<MsgV>::empty(),
        (h == Harness::Factory || h == Harness::Pi || h == Harness::Omp) && !says(
            v,
            "type"@,
            "message"@,
        ) ==> parse::record_msgs(h, v) == Seq::<MsgV>::empty(),
{
    words::lemma_words();
    reveal_strlit("message");
    reveal_strlit("response_item");
}

/// The messages of records come one after the other, in the order of the records.
pub proof fn lemma_in_order(h: Harness, a: Seq<Tree>, b: Seq<Tree>, v: Tree)
    ensures
        history::all_msgs(h, a + b) == history::all_msgs(h, a) + history::all_msgs(h, b),
        history::all_msgs(h, seq![v]) == parse::record_msgs(h, v),
        history::all_msgs(h, Seq::empty()) == Seq::<MsgV>::empty(),
    decreases b.len(),
{
    let none = Seq::<Tree>::empty();
    assert(history::all_msgs(h, none) =~= Seq::empty());
    assert(seq![v].drop_last() =~= none);
    assert(history::all_msgs(h, seq![v]) =~= parse::record_msgs(h, v));
    if b.len() == 0 {
        assert(a + b =~= a);
        assert(history::all_msgs(h, a) + history::all_msgs(h, b) =~= history::all_msgs(h, a));
    } else {
        assert((a + b).drop_last() =~= a + b.drop_last());
        lemma_in_order(h, a, b.drop_last(), v);
        assert(history::all_msgs(h, a + b) =~= history::all_msgs(h, a) + history::all_msgs(h, b));
    }
}

/// Every line that holds a JSON document is a record, blanks around it aside; any other line is
/// passed over.
pub proof fn lemma_lines(a: Seq<Seq<char>>, b: Seq<Seq<char>>, line: Seq<char>)
    ensures
        history::file_records(a + b) == history::file_records(a) + history::file_records(b),
        history::file_records(seq![line]) == match json::parsed(text::trimmed(line)) {
            Some(v) => seq![v],
            None => Seq::empty(),
        },
        history::file_records(Seq::empty()) == Seq::<Tree>::empty(),
    decreases b.len(),
{
    let none = Seq::<Seq<char>>::empty();
    assert(history::file_records(none) =~= Seq::empty());
    assert(seq![line].drop_last() =~= none);
    if let Some(v) = json::parsed(text::trimmed(line)) {
        assert(history::file_records(seq![line]) =~= seq![v]);
    }
    if b.len() == 0 {
        assert(a + b =~= a);
        assert(history::file_records(a) + history::file_records(b) =~= history::file_records(a));
    } else {
        assert((a + b).drop_last() =~= a + b.drop_last());
        lemma_lines(a, b.drop_last(), line);
        assert(history::file_records(a + b) =~= history::file_records(a) + history::file_records(
            b,
        ));
    }
}

/// A record by which `h` says that it compacted the session, and what of it stays: the summary,
/// and the id of the first record that is kept.
pub open spec fn compaction_says(
    h: Harness,
    v: Tree,
    summary: Option<Seq<char>>,
    kept: Option<Seq<char>>,
) -> bool {
    match h {
        Harness::Claude => {
            &&& says(v, "type"@, "system"@)
            &&& says(v, "subtype"@, "compact_boundary"@)
            &&& summary is None
            &&& kept is None
        },
        Harness::Codex => {
            &&& says(v, "type"@, "compacted"@)
            &&& json::field(v, "payload"@) matches Some(p) && says_if(p, "message"@, summary)
                && json::field(p, "replacement_history"@) is None
            &&& kept is None
        },
        Harness::Factory => {
            &&& says(v, "type"@, "compaction_state"@)
            &&& says_if(v, "summaryText"@, summary)
            &&& match kept {
                Some(id) => json::field(v, "anchorMessage"@) matches Some(m) && says(m, "id"@, id),
                None => json::field(v, "anchorMessage"@) is None,
            }
        },
        Harness::Pi | Harness::Omp => {
            &&& says(v, "type"@, "compaction"@)
            &&& says_if(v, "summary"@, summary)
            &&& says_if(v, "firstKeptEntryId"@, kept)
        },
    }
}

/// A record by which no harness says that it compacted the session.
pub open spec fn no_compaction(v: Tree) -> bool {
    !says(v, "type"@, "system"@) && !says(v, "type"@, "compacted"@) && !says(
        v,
        "type"@,
        "compaction_state"@,
    ) && !says(v, "type"@, "compaction"@)
}

/// A session that its harness compacted is read as the harness reloads it: the summary as a
/// message of the user, the messages from the first kept record on, and what came after. Nothing
/// of the rest is read.
pub proof fn lemma_reloaded(
    h: Harness,
    gone: Seq<Tree>,
    kept: Seq<Tree>,
    v: Tree,
    rest: Seq<Tree>,
    summary: Option<Seq<char>>,
    id: Option<Seq<char>>,
    ts: Option<Seq<char>>,
)
    requires
        compaction_says(h, v, summary, id),
        says_if(v, "timestamp"@, ts),
        summary matches Some(s) ==> s.len() > 0,
        id is None ==> kept.len() == 0,
        id matches Some(i) ==> kept.len() > 0 && says(kept[0], "id"@, i) && forall|k: int|
            0 <= k < gone.len() ==> !says(#[trigger] gone[k], "id"@, i),
        forall|k: int| 0 <= k < rest.len() ==> no_compaction(#[trigger] rest[k]),
    ensures
        history::live_msgs(h, (gone + kept).push(v) + rest) == match summary {
            Some(s) => seq![MsgV { role: Role::User, blocks: seq![BlockV::Text(s)], ts }],
            None => Seq::empty(),
        } + history::all_msgs(h, kept) + history::all_msgs(h, rest),
{
    words::lemma_words();
    reveal_strlit("subtype");
    reveal_strlit("compact_boundary");
    reveal_strlit("summaryText");
    reveal_strlit("anchorMessage");
    reveal_strlit("replacement_history");
    reveal_strlit("firstKeptEntryId");
    reveal_strlit("system");
    reveal_strlit("compacted");
    reveal_strlit("compaction_state");
    reveal_strlit("compaction");
    assert forall|k: int| 0 <= k < rest.len() implies !history::is_compaction(
        h,
        #[trigger] rest[k],
    ) by {
        assert(no_compaction(rest[k]));
    }
    assert forall|k: int| 0 <= k < gone.len() && id is Some implies json::text_of(
        json::field(#[trigger] gone[k], "id"@),
    ) != Some(id->Some_0) by {
        assert(!says(gone[k], "id"@, id->Some_0));
    }
    assert(history::kept_from(h, v, gone, kept));
    history::lemma_forgotten(h, gone, gone, kept, v, rest);
}

/// Codex may list the items that it kept in the place of a summary.
pub proof fn lemma_replaced(
    gone: Seq<Tree>,
    v: Tree,
    p: Tree,
    items: Seq<Tree>,
    rest: Seq<Tree>,
    ts: Option<Seq<char>>,
)
    requires
        says(v, "type"@, "compacted"@),
        json::field(v, "payload"@) == Some(p),
        json::field(p, "replacement_history"@) == Some(Tree::Arr(items)),
        says_if(v, "timestamp"@, ts),
        forall|k: int| 0 <= k < rest.len() ==> no_compaction(#[trigger] rest[k]),
    ensures
        history::live_msgs(Harness::Codex, gone.push(v) + rest) == history::items_msgs(items, ts)
            + history::all_msgs(Harness::Codex, rest),
{
    words::lemma_words();
    let none = Seq::<Tree>::empty();
    assert forall|k: int| 0 <= k < rest.len() implies !history::is_compaction(
        Harness::Codex,
        #[trigger] rest[k],
    ) by {
        assert(no_compaction(rest[k]));
        reveal_strlit("compacted");
    }
    assert(gone + none =~= gone);
    history::lemma_forgotten(Harness::Codex, gone, gone, none, v, rest);
    lemma_in_order(Harness::Codex, none, none, v);
    let put = history::items_msgs(items, ts);
    assert(put + history::all_msgs(Harness::Codex, none) =~= put);
}

/// A block that an assistant's message is read without: one of no known type, a text that says
/// nothing, or an empty thought.
pub open spec fn block_says_nothing(b: Tree) -> bool {
    ||| !(json::field(b, "type"@) matches Some(Tree::Str(_)))
    ||| json::field(b, "type"@) matches Some(Tree::Str(k)) && k != "text"@ && k != "thinking"@ && k
        != "tool_use"@ && k != "toolCall"@ && k != "image"@
    ||| says(b, "type"@, "text"@) && !(json::field(b, "text"@) matches Some(Tree::Str(_)))
    ||| says(b, "type"@, "thinking"@) && (says(b, "thinking"@, Seq::empty()) || !(json::field(
        b,
        "thinking"@,
    ) matches Some(Tree::Str(_))))
}

/// Blocks are read one after the other, and those that say nothing are passed over.
pub proof fn lemma_blocks_in_order(a: Seq<Tree>, b: Tree, c: Seq<Tree>)
    ensures
        block_says_nothing(b) ==> parse::blocks_of(a.push(b) + c) == parse::blocks_of(a)
            + parse::blocks_of(c),
        forall|x: BlockV| #[trigger]
            block_says(b, x) ==> parse::blocks_of(a.push(b) + c) == parse::blocks_of(a).push(x)
                + parse::blocks_of(c),
    decreases c.len(),
{
    words::lemma_words();
    let all = a.push(b) + c;
    if c.len() == 0 {
        assert(all =~= a.push(b));
        assert(a.push(b).drop_last() =~= a);
        assert(parse::blocks_of(a) + parse::blocks_of(c) =~= parse::blocks_of(a));
        assert forall|x: BlockV| #[trigger] block_says(b, x) implies parse::blocks_of(all)
            == parse::blocks_of(a).push(x) + parse::blocks_of(c) by {
            assert(parse::block_of(b) == Some(x));
            assert(parse::blocks_of(a).push(x) + parse::blocks_of(c) =~= parse::blocks_of(a).push(
                x,
            ));
        }
    } else {
        assert(all.drop_last() =~= a.push(b) + c.drop_last());
        assert(all.last() == c.last());
        lemma_blocks_in_order(a, b, c.drop_last());
        if block_says_nothing(b) {
            assert(parse::blocks_of(all) =~= parse::blocks_of(a) + parse::blocks_of(c));
        }
        assert forall|x: BlockV| #[trigger] block_says(b, x) implies parse::blocks_of(all)
            == parse::blocks_of(a).push(x) + parse::blocks_of(c) by {
            assert(parse::blocks_of(all) =~= parse::blocks_of(a).push(x) + parse::blocks_of(c));
        }
    }
}

/// The parts of a Codex content are read one after the other: an image is told as such, and parts
/// of another kind are passed over.
pub proof fn lemma_parts_in_order(
    a: Seq<Tree>,
    b: Tree,
    c: Seq<Tree>,
    kind: Seq<char>,
    t: Seq<char>,
)
    requires
        kind == "input_text"@ || kind == "output_text"@,
    ensures
        says(b, "type"@, kind) && says(b, "text"@, t) ==> parse::codex_parts(a.push(b) + c, kind)
            == parse::codex_parts(a, kind).push(t) + parse::codex_parts(c, kind),
        says(b, "type"@, "input_image"@) ==> parse::codex_parts(a.push(b) + c, kind)
            == parse::codex_parts(a, kind).push("[image]"@) + parse::codex_parts(c, kind),
        !says(b, "type"@, kind) && !says(b, "type"@, "input_image"@) ==> parse::codex_parts(
            a.push(b) + c,
            kind,
        ) == parse::codex_parts(a, kind) + parse::codex_parts(c, kind),
    decreases c.len(),
{
    words::lemma_words();
    lemma_image_kind();
    let all = a.push(b) + c;
    let pa = parse::codex_parts(a, kind);
    let pc = parse::codex_parts(c, kind);
    if c.len() == 0 {
        assert(all =~= a.push(b));
        assert(a.push(b).drop_last() =~= a);
        assert(pa + pc =~= pa);
        assert(pa.push(t) + pc =~= pa.push(t));
        assert(pa.push("[image]"@) + pc =~= pa.push("[image]"@));
    } else {
        assert(all.drop_last() =~= a.push(b) + c.drop_last());
        assert(all.last() == c.last());
        lemma_parts_in_order(a, b, c.drop_last(), kind, t);
        let before = parse::codex_parts(c.drop_last(), kind);
        match parse::codex_part(c.last(), kind) {
            Some(x) => {
                assert((pa + before).push(x) =~= pa + before.push(x));
                assert((pa.push(t) + before).push(x) =~= pa.push(t) + before.push(x));
                assert((pa.push("[image]"@) + before).push(x) =~= pa.push("[image]"@) + before.push(
                    x,
                ));
            },
            None => {},
        }
    }
}

proof fn lemma_image_kind()
    ensures
        "input_image"@ != "input_text"@,
        "input_image"@ != "output_text"@,
{
    reveal_strlit("input_image");
    reveal_strlit("input_text");
    reveal_strlit("output_text");
    assert("input_image"@[6] == 'i');
    assert("input_text"@[6] == 't');
    assert("output_text"@[0] == 'o');
    assert("input_image"@[0] == 'i');
}

/// The parts of a Codex reasoning are read one after the other, empty ones passed over.
pub proof fn lemma_thoughts_in_order(a: Seq<Tree>, b: Tree, c: Seq<Tree>, t: Seq<char>)
    ensures
        says(b, "text"@, t) && t.len() > 0 ==> parse::reasoning_parts(a.push(b) + c)
            == parse::reasoning_parts(a).push(t) + parse::reasoning_parts(c),
        says(b, "text"@, Seq::empty()) || !(json::field(b, "text"@) matches Some(Tree::Str(_)))
            ==> parse::reasoning_parts(a.push(b) + c) == parse::reasoning_parts(a)
            + parse::reasoning_parts(c),
    decreases c.len(),
{
    let all = a.push(b) + c;
    let pa = parse::reasoning_parts(a);
    let pc = parse::reasoning_parts(c);
    if c.len() == 0 {
        assert(all =~= a.push(b));
        assert(a.push(b).drop_last() =~= a);
        assert(pa + pc =~= pa);
        assert(pa.push(t) + pc =~= pa.push(t));
    } else {
        assert(all.drop_last() =~= a.push(b) + c.drop_last());
        assert(all.last() == c.last());
        lemma_thoughts_in_order(a, b, c.drop_last(), t);
        let before = parse::reasoning_parts(c.drop_last());
        match json::text_of(json::field(c.last(), "text"@)) {
            Some(x) => {
                assert((pa + before).push(x) =~= pa + before.push(x));
                assert((pa.push(t) + before).push(x) =~= pa.push(t) + before.push(x));
            },
            None => {},
        }
    }
}

/// A message without content says nothing: neither a string nor a list is no content. It is passed
/// over.
pub proof fn lemma_no_content(h: Harness, v: Tree, c: Tree, ts: Option<Seq<char>>)
    requires
        !(c is Str) && !(c is Arr),
    ensures
        turn_of(h, v, "assistant"@, c, ts) ==> parse::record_msgs(h, v) == Seq::<MsgV>::empty(),
        turn_of(h, v, "user"@, c, ts) && (h == Harness::Factory || h == Harness::Claude)
            ==> parse::record_msgs(h, v) == Seq::<MsgV>::empty(),
        forall|p: Tree| #[trigger]
            item_of(v, p, ts) && says(p, "type"@, "message"@) && json::field(p, "content"@) == Some(
                c,
            ) ==> parse::record_msgs(Harness::Codex, v) == Seq::<MsgV>::empty(),
        forall|p: Tree| #[trigger]
            item_of(v, p, ts) && says(p, "type"@, "reasoning"@) && json::field(p, "summary"@)
                == Some(c) ==> parse::record_msgs(Harness::Codex, v) == Seq::<MsgV>::empty(),
        forall|p: Tree| #[trigger]
            item_of(v, p, ts) && says(p, "type"@, "reasoning"@) && json::field(p, "summary"@)
                == Some(Tree::Arr(Seq::empty())) ==> parse::record_msgs(Harness::Codex, v)
                == Seq::<MsgV>::empty(),
{
    words::lemma_words();
    assert(text::trimmed(Seq::<char>::empty()) == Seq::<char>::empty());
    assert(Seq::<MsgV>::empty() + Seq::<MsgV>::empty() =~= Seq::<MsgV>::empty());
}

/// A result that says nothing is read as one with an empty content, and a call without arguments as
/// one with null.
pub proof fn lemma_nothing_given(b: Tree, id: Seq<char>, name: Seq<char>, ts: Option<Seq<char>>)
    ensures
        says(b, "type"@, "tool_result"@) && says(b, "tool_use_id"@, id) && json::field(
            b,
            "content"@,
        ) is None ==> parse::result_msgs(seq![b], ts) == seq![
            result(
                id,
                None,
                Seq::empty(),
                json::field(b, "is_error"@) == Some(Tree::Bool(true)),
                ts,
            ),
        ],
        (says(b, "type"@, "tool_use"@) || says(b, "type"@, "toolCall"@)) && says(b, "id"@, id)
            && says(b, "name"@, name) && json::field(b, "input"@) is None && json::field(
            b,
            "arguments"@,
        ) is None ==> parse::blocks_of(seq![b]) == seq![
            BlockV::ToolCall { id, name, args: Tree::Null },
        ],
        forall|m: Tree| #[trigger]
            says(m, "role"@, "toolResult"@) && says(m, "toolCallId"@, id) && json::field(
                m,
                "content"@,
            ) is None ==> parse::pi_msgs(m, ts) == seq![
                result(
                    id,
                    json::text_of(json::field(m, "toolName"@)),
                    Seq::empty(),
                    json::field(m, "isError"@) == Some(Tree::Bool(true)),
                    ts,
                ),
            ],
{
    words::lemma_words();
    assert(seq![b].drop_last() =~= Seq::empty());
    assert(seq![b].last() == b);
    assert(parse::blocks_of(Seq::<Tree>::empty()) == Seq::<BlockV>::empty());
    assert(parse::result_msgs(Seq::<Tree>::empty(), ts) == Seq::<MsgV>::empty());
    assert(parse::blocks_of(seq![b]) =~= match parse::block_of(b) {
        Some(x) => seq![x],
        None => Seq::empty(),
    });
    if says(b, "type"@, "tool_result"@) {
        assert(parse::result_msgs(seq![b], ts) =~= seq![parse::result_msg(b, ts)]);
    }
}

/// Calls without a name or arguments and results that are lists or say nothing are told as far as
/// there is anything to tell, and blocks of no type not at all. A content that is neither a string
/// nor a list is told as JSON.
pub proof fn lemma_content_rest(out: Seq<char>, b: Tree, c: Tree, id: Seq<char>, items: Seq<Tree>)
    ensures
        !(c is Str) && !(c is Arr) ==> model::rendered(c) == json::printed(json::normal(c)),
        says(b, "type"@, "tool_use"@) && json::field(b, "name"@) is None && json::field(b, "input"@)
            is None && json::field(b, "arguments"@) is None ==> model::with_block(out, b) == out
            + "[tool "@ + "call"@ + "] "@ + "\n"@,
        says(b, "type"@, "toolResult"@) && says(b, "toolCallId"@, id) && json::field(b, "content"@)
            == Some(Tree::Arr(items)) ==> model::with_block(out, b) == out + "[tool result "@ + id
            + "]\n"@ + model::rendered_items(items),
        says(b, "type"@, "tool_result"@) && json::field(b, "tool_use_id"@) is None && json::field(
            b,
            "toolCallId"@,
        ) is None && json::field(b, "content"@) is None ==> model::with_block(out, b) == out
            + "[tool result"@ + "]\n"@,
        says(b, "type"@, "text"@) && json::field(b, "text"@) == Some(Tree::Arr(items))
            ==> model::with_block(out, b) == model::fresh_line(out) + model::rendered_items(items),
        says(b, "type"@, "thinking"@) && says(b, "thinking"@, Seq::empty()) ==> model::with_block(
            out,
            b,
        ) == out,
        !(b is Obj) ==> model::with_block(out, b) == out,
        json::field(b, "type"@) is None ==> model::with_block(out, b) == out,
{
    words::lemma_words();
    reveal_strlit("\n");
    reveal_strlit("[tool result");
    reveal_strlit("[tool result ");
    let none = Seq::<char>::empty();
    assert((out + "[tool "@ + "call"@ + "] "@ + none).push('\n') =~= out + "[tool "@ + "call"@
        + "] "@ + "\n"@);
    assert(out + "[tool result"@ + (seq![' '] + id) + "]\n"@ =~= out + "[tool result "@ + id
        + "]\n"@);
    assert(out + "[tool result"@ + none + "]\n"@ + none =~= out + "[tool result"@ + "]\n"@);
}

} // verus!
