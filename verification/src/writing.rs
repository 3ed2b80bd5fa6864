//! What the records of a written session say, for each harness.

use crate::draft;
use crate::entries;
use crate::entries::Call;
use crate::json;
use crate::json::Tree;
use crate::model::{BlockV, Harness, MsgV, Role, Session};
use crate::reading::{says, text_block};
use crate::records;
use crate::records::{Ambient, Setting};
use crate::rollout;
use crate::slot;
use crate::text;
use crate::turns;
use crate::words;
use vstd::prelude::*;

verus! {

/// A message as the readers make them: results stand in tool messages only, and users say texts.
pub open spec fn regular(m: MsgV) -> bool {
    match m.role {
        Role::Assistant => forall|j: int|
            0 <= j < m.blocks.len() ==> !((#[trigger] m.blocks[j]) is ToolResult),
        Role::User => forall|j: int| 0 <= j < m.blocks.len() ==> (#[trigger] m.blocks[j]) is Text,
        Role::Tool => m.blocks.len() > 0 && m.blocks[0] is ToolResult,
    }
}

pub open spec fn all_regular(msgs: Seq<MsgV>) -> bool {
    forall|i: int| 0 <= i < msgs.len() ==> regular(#[trigger] msgs[i])
}

/// What a user said, a line for each text.
pub open spec fn said(m: MsgV) -> Seq<char> {
    text::joined(Seq::new(m.blocks.len(), |j: int| m.blocks[j]->Text_0), "\n"@)
}

/// When a record was made: the message's own time, or that of the session.
pub open spec fn stamped(r: Tree, m: MsgV, ts: Seq<char>) -> bool {
    match m.ts {
        Some(t) => says(r, "timestamp"@, t),
        None => says(r, "timestamp"@, ts),
    }
}

/// A block of an assistant's message as `h` keeps it.
pub open spec fn block_told(h: Harness, b: Tree, x: BlockV) -> bool {
    let pi = h == Harness::Pi || h == Harness::Omp;
    match x {
        BlockV::Text(t) => text_block(b, t),
        BlockV::Thinking(t) => {
            &&& says(b, "type"@, "thinking"@)
            &&& says(b, "thinking"@, t)
            &&& pi || says(b, "signature"@, "reasoning_content"@) && says(
                b,
                "signatureProvider"@,
                "factory"@,
            )
        },
        BlockV::ToolCall { id, name, args } => {
            &&& says(b, "id"@, id)
            &&& says(b, "name"@, name)
            &&& if pi {
                says(b, "type"@, "toolCall"@) && json::field(b, "arguments"@) == Some(args)
            } else {
                says(b, "type"@, "tool_use"@) && json::field(b, "input"@) == Some(args)
            }
        },
        BlockV::ToolResult { .. } => false,
    }
}

/// A message that names its model, where one is known.
pub open spec fn model_told(x: Tree, model: Seq<char>) -> bool {
    if model.len() > 0 {
        says(x, "model"@, model)
    } else {
        json::field(x, "model"@) is None
    }
}

proof fn lemma_blocks_told(h: Harness, blocks: Seq<BlockV>)
    requires
        forall|j: int| 0 <= j < blocks.len() ==> !((#[trigger] blocks[j]) is ToolResult),
    ensures
        records::native_blocks(h, blocks).len() == blocks.len(),
        forall|j: int|
            0 <= j < blocks.len() ==> block_told(
                h,
                #[trigger] records::native_blocks(h, blocks)[j],
                blocks[j],
            ),
    decreases blocks.len(),
{
    broadcast use json::lemma_field_with;

    words::lemma_words();
    if blocks.len() > 0 {
        let before = blocks.drop_last();
        assert forall|j: int|
            0 <= j < before.len() implies !((#[trigger] before[j]) is ToolResult) by {
            assert(before[j] == blocks[j]);
        }
        lemma_blocks_told(h, before);
        let n = blocks.len() - 1;
        assert(!(blocks[n] is ToolResult));
        let some = records::native_blocks(h, before);
        let all = records::native_blocks(h, blocks);
        assert(block_told(h, all[n], blocks[n]));
        assert forall|j: int| 0 <= j < blocks.len() implies block_told(
            h,
            #[trigger] all[j],
            blocks[j],
        ) by {
            if j < n {
                assert(all[j] == some[j]);
                assert(before[j] == blocks[j]);
            }
        }
    }
}

proof fn lemma_texts(blocks: Seq<BlockV>)
    requires
        forall|j: int| 0 <= j < blocks.len() ==> (#[trigger] blocks[j]) is Text,
    ensures
        records::texts_of(blocks) == Seq::new(blocks.len(), |j: int| blocks[j]->Text_0),
    decreases blocks.len(),
{
    let all = Seq::new(blocks.len(), |j: int| blocks[j]->Text_0);
    if blocks.len() > 0 {
        let before = blocks.drop_last();
        assert forall|j: int| 0 <= j < before.len() implies (#[trigger] before[j]) is Text by {
            assert(before[j] == blocks[j]);
        }
        lemma_texts(before);
        assert(blocks[blocks.len() - 1] is Text);
        assert(all =~= Seq::new(before.len(), |j: int| before[j]->Text_0).push(
            blocks.last()->Text_0,
        ));
    } else {
        assert(all =~= Seq::empty());
    }
}

/// A turn begins at `i`: a message of the user or the assistant, or the first of a run of tool
/// messages.
pub open spec fn turn_starts(msgs: Seq<MsgV>, i: int) -> bool {
    &&& 0 <= i < msgs.len()
    &&& msgs[i].role == Role::Tool && i > 0 ==> msgs[i - 1].role != Role::Tool
}

/// A tool result as Factory and CL keep it.
pub open spec fn result_told(b: Tree, m: MsgV) -> bool {
    &&& m.role == Role::Tool
    &&& m.blocks[0] matches BlockV::ToolResult { call_id, name, content, is_error } && {
        &&& says(b, "type"@, "tool_result"@)
        &&& says(b, "tool_use_id"@, call_id)
        &&& says(b, "content"@, content)
        &&& json::field(b, "is_error"@) == Some(Tree::Bool(is_error))
    }
}

/// The content of the turn that begins at `i`, as Factory and CL keep it: the blocks of an
/// assistant, what a user said, or the results of a whole run of tools.
pub open spec fn content_told(h: Harness, c: Tree, msgs: Seq<MsgV>, i: int) -> bool {
    c matches Tree::Arr(items) && match msgs[i].role {
        Role::Assistant => items.len() == msgs[i].blocks.len() && forall|j: int|
            0 <= j < items.len() ==> block_told(h, #[trigger] items[j], msgs[i].blocks[j]),
        Role::User => items.len() == 1 && text_block(items[0], said(msgs[i])),
        Role::Tool => {
            &&& i + items.len() <= msgs.len()
            &&& forall|j: int|
                0 <= j < items.len() ==> result_told(#[trigger] items[j], msgs[i + j])
            &&& i + items.len() < msgs.len() ==> msgs[i + items.len()].role != Role::Tool
        },
    }
}

/// The record of the turn that begins at `i`.
pub open spec fn turn_told(h: Harness, w: Setting, msgs: Seq<MsgV>, i: int, r: Tree) -> bool {
    let role = if msgs[i].role == Role::Assistant {
        "assistant"@
    } else {
        "user"@
    };
    &&& stamped(r, msgs[i], w.ts)
    &&& json::field(r, "message"@) matches Some(x) && {
        &&& says(x, "role"@, role)
        &&& json::field(x, "content"@) matches Some(c) && content_told(h, c, msgs, i)
        &&& h == Harness::Claude && msgs[i].role == Role::Assistant ==> model_told(x, w.model)
    }
    &&& if h == Harness::Claude {
        &&& says(r, "type"@, role)
        &&& says(r, "sessionId"@, w.id)
        &&& says(r, "cwd"@, w.cwd)
        &&& json::field(r, "isSidechain"@) == Some(Tree::Bool(false))
        &&& says(r, "userType"@, "external"@)
        &&& says(r, "version"@, "2.1.220"@)
    } else {
        says(r, "type"@, "message"@)
    }
}

proof fn lemma_run_told(msgs: Seq<MsgV>, i: int, j: int)
    requires
        0 <= i <= j <= msgs.len(),
        forall|k: int|
            i <= k < j ==> (#[trigger] msgs[k]).role == Role::Tool && regular(msgs[k]),
    ensures
        turns::result_trees(msgs, i, j).len() == j - i,
        forall|k: int|
            0 <= k < j - i ==> result_told(
                #[trigger] turns::result_trees(msgs, i, j)[k],
                msgs[i + k],
            ),
    decreases j - i,
{
    broadcast use json::lemma_field_with;

    words::lemma_words();
    if i < j {
        lemma_run_told(msgs, i, j - 1);
        assert(regular(msgs[j - 1]));
        let some = turns::result_trees(msgs, i, j - 1);
        let all = turns::result_trees(msgs, i, j);
        assert(result_told(all[j - 1 - i], msgs[j - 1]));
        assert forall|k: int| 0 <= k < j - i implies result_told(#[trigger] all[k], msgs[i + k]) by {
            if k < j - 1 - i {
                assert(all[k] == some[k]);
            }
        }
    }
}

proof fn lemma_content_told(h: Harness, msgs: Seq<MsgV>, i: int)
    requires
        h == Harness::Factory || h == Harness::Claude,
        0 <= i < msgs.len(),
        all_regular(msgs),
    ensures
        content_told(h, turns::turn_content(h, msgs, i), msgs, i),
{
    broadcast use json::lemma_field_with;

    words::lemma_words();
    assert(regular(msgs[i]));
    match msgs[i].role {
        Role::Assistant => lemma_blocks_told(h, msgs[i].blocks),
        Role::User => lemma_texts(msgs[i].blocks),
        Role::Tool => {
            let e = turns::run_end(msgs, i);
            turns::lemma_turn_end(msgs, i);
            lemma_run_stops(msgs, i);
            assert forall|k: int| i <= k < e implies (#[trigger] msgs[k]).role == Role::Tool
                && regular(msgs[k]) by {}
            lemma_run_told(msgs, i, e);
        },
    }
}

proof fn lemma_run_stops(msgs: Seq<MsgV>, i: int)
    requires
        0 <= i <= msgs.len(),
    ensures
        turns::run_end(msgs, i) < msgs.len() ==> msgs[turns::run_end(msgs, i)].role != Role::Tool,
    decreases msgs.len() - i,
{
    if i < msgs.len() && msgs[i].role == Role::Tool {
        lemma_run_stops(msgs, i + 1);
    }
}

proof fn lemma_turn_told(h: Harness, w: Setting, msgs: Seq<MsgV>, i: int, k: int)
    requires
        h == Harness::Factory || h == Harness::Claude,
        0 <= i < msgs.len(),
        all_regular(msgs),
    ensures
        turn_told(h, w, msgs, i, turns::turn_record(h, w, msgs, i, k)),
{
    broadcast use json::lemma_field_with;

    words::lemma_words();
    lemma_content_told(h, msgs, i);
}

/// Turns that begin at `starts`, in order, each told by its record, and no other from `i` on.
pub open spec fn turns_told(
    h: Harness,
    w: Setting,
    msgs: Seq<MsgV>,
    i: int,
    starts: Seq<int>,
    recs: Seq<Tree>,
) -> bool {
    &&& starts.len() == recs.len()
    &&& forall|k: int|
        0 <= k < starts.len() ==> i <= #[trigger] starts[k] && turn_starts(msgs, starts[k])
            && turn_told(h, w, msgs, starts[k], recs[k])
    &&& forall|j: int, k: int|
        0 <= j < k < starts.len() ==> #[trigger] starts[j] < #[trigger] starts[k]
    &&& forall|p: int| i <= p && #[trigger] turn_starts(msgs, p) ==> starts.contains(p)
}

proof fn lemma_turns_from(h: Harness, w: Setting, msgs: Seq<MsgV>, i: int, k: int) -> (starts: Seq<
    int,
>)
    requires
        h == Harness::Factory || h == Harness::Claude,
        0 <= i <= msgs.len(),
        i < msgs.len() ==> turn_starts(msgs, i),
        all_regular(msgs),
    ensures
        turns_told(h, w, msgs, i, starts, turns::turn_records(h, w, msgs, i, k)),
    decreases msgs.len() - i,
{
    let recs = turns::turn_records(h, w, msgs, i, k);
    if i < msgs.len() {
        let e = turns::turn_end(msgs, i);
        turns::lemma_turn_end(msgs, i);
        lemma_run_stops(msgs, i);
        let rest = lemma_turns_from(h, w, msgs, e, k + 1);
        let starts = seq![i] + rest;
        lemma_turn_told(h, w, msgs, i, k);
        let more = turns::turn_records(h, w, msgs, e, k + 1);
        assert forall|n: int| 0 <= n < starts.len() implies i <= #[trigger] starts[n]
            && turn_starts(msgs, starts[n]) && turn_told(h, w, msgs, starts[n], recs[n]) by {
            if n > 0 {
                assert(starts[n] == rest[n - 1]);
                assert(recs[n] == more[n - 1]);
            }
        }
        assert forall|m: int, n: int| 0 <= m < n < starts.len() implies #[trigger] starts[m]
            < #[trigger] starts[n] by {
            assert(starts[n] == rest[n - 1]);
            if m > 0 {
                assert(starts[m] == rest[m - 1]);
            }
        }
        assert forall|p: int| i <= p && #[trigger] turn_starts(msgs, p) implies starts.contains(
            p,
        ) by {
            if p == i {
                assert(starts[0] == i);
            } else if p < e {
                assert(msgs[p].role == Role::Tool && msgs[p - 1].role == Role::Tool);
            } else {
                assert(rest.contains(p));
                let n = choose|n: int| 0 <= n < rest.len() && rest[n] == p;
                assert(starts[n + 1] == p);
            }
        }
        starts
    } else {
        Seq::empty()
    }
}

/// How many records stand before those of the messages.
pub open spec fn head_len(h: Harness) -> int {
    match h {
        Harness::Claude => 0,
        Harness::Omp => 2,
        _ => 1,
    }
}

/// A session written for Factory or CL has a record for every turn, in order, and no other but the
/// head: it says who speaks, what, and when, and a run of tool results is one turn of the user. For
/// CL the type of a record is the role of its message.
pub proof fn lemma_turns_written(h: Harness, w: Setting, msgs: Seq<MsgV>) -> (starts: Seq<int>)
    requires
        h == Harness::Factory || h == Harness::Claude,
        all_regular(msgs),
    ensures
        draft::session_records(h, w, msgs).len() == head_len(h) + starts.len(),
        turns_told(h, w, msgs, 0, starts, draft::session_records(h, w, msgs).skip(head_len(h))),
{
    let recs = draft::message_records(h, w, msgs);
    assert(draft::session_records(h, w, msgs).skip(head_len(h)) =~= recs);
    lemma_turns_from(h, w, msgs, 0, 0)
}

/// An entry of Pi or OMP for a message: what was said, by whom, when, and for a result under which
/// call and, where the message says so, of which tool.
pub open spec fn entry_told(h: Harness, w: Setting, m: MsgV, r: Tree) -> bool {
    &&& says(r, "type"@, "message"@)
    &&& stamped(r, m, w.ts)
    &&& json::field(r, "message"@) matches Some(x) && json::field(x, "content"@) matches Some(
        Tree::Arr(items),
    ) && match m.role {
        Role::Assistant => {
            &&& says(x, "role"@, "assistant"@)
            &&& items.len() == m.blocks.len()
            &&& forall|j: int|
                0 <= j < items.len() ==> block_told(h, #[trigger] items[j], m.blocks[j])
            &&& model_told(x, w.model)
            &&& says(x, "provider"@, "bodysnatcher"@)
            &&& json::field(x, "usage"@) matches Some(u) && json::field(u, "cacheRead"@) == Some(
                Tree::Pos(0),
            ) && json::field(u, "cacheWrite"@) == Some(Tree::Pos(0)) && json::field(u, "input"@)
                == Some(Tree::Pos(0)) && json::field(u, "output"@) == Some(Tree::Pos(0))
                && json::field(u, "totalTokens"@) == Some(Tree::Pos(0)) && json::field(u, "cost"@)
                is Some
        },
        Role::User => says(x, "role"@, "user"@) && items.len() == 1 && text_block(
            items[0],
            said(m),
        ),
        Role::Tool => m.blocks[0] matches BlockV::ToolResult { call_id, name, content, is_error }
            && {
            &&& says(x, "role"@, "toolResult"@)
            &&& says(x, "toolCallId"@, call_id)
            &&& name matches Some(n) ==> says(x, "toolName"@, n)
            &&& items.len() == 1 && text_block(items[0], content)
            &&& json::field(x, "isError"@) == Some(Tree::Bool(is_error))
        },
    }
}

proof fn lemma_usage_words()
    ensures
        "cacheRead"@ != "cacheWrite"@,
        "cacheRead"@ != "input"@,
        "cacheRead"@ != "output"@,
        "cacheRead"@ != "totalTokens"@,
        "cacheRead"@ != "cost"@,
        "cacheWrite"@ != "input"@,
        "cacheWrite"@ != "output"@,
        "cacheWrite"@ != "totalTokens"@,
        "cacheWrite"@ != "cost"@,
        "input"@ != "totalTokens"@,
        "input"@ != "cost"@,
        "output"@ != "totalTokens"@,
        "output"@ != "cost"@,
        "input"@ != "output"@,
        "totalTokens"@ != "cost"@,
{
    reveal_strlit("cacheRead");
    reveal_strlit("cacheWrite");
    reveal_strlit("input");
    reveal_strlit("output");
    reveal_strlit("totalTokens");
    reveal_strlit("cost");
    assert("cacheRead"@[5] == 'R');
    assert("cacheWrite"@[5] == 'W');
    assert("input"@[0] == 'i');
    assert("output"@[0] == 'o');
    assert("totalTokens"@[0] == 't');
    assert("cost"@.len() == 4);
    assert("cacheRead"@.len() == 9);
    assert("cacheWrite"@.len() == 10);
}

proof fn lemma_entry_told(h: Harness, w: Setting, calls: Seq<Call>, m: MsgV, k: int)
    requires
        h == Harness::Pi || h == Harness::Omp,
        regular(m),
    ensures
        entries::pi_message(w.model, calls, m) matches Some(x) && entry_told(
            h,
            w,
            m,
            entries::pi_record(w, m, x, k),
        ),
{
    broadcast use json::lemma_field_with;

    words::lemma_words();
    match m.role {
        Role::Assistant => {
            lemma_usage_words();
            lemma_blocks_told(Harness::Pi, m.blocks);
        },
        Role::User => lemma_texts(m.blocks),
        Role::Tool => {},
    }
}

proof fn lemma_entries_from(
    h: Harness,
    w: Setting,
    msgs: Seq<MsgV>,
    calls: Seq<Call>,
    i: int,
    k: int,
)
    requires
        h == Harness::Pi || h == Harness::Omp,
        0 <= i <= msgs.len(),
        all_regular(msgs),
    ensures
        entries::pi_records(w, msgs, calls, i, k).len() == msgs.len() - i,
        forall|j: int|
            0 <= j < msgs.len() - i ==> entry_told(
                h,
                w,
                msgs[i + j],
                #[trigger] entries::pi_records(w, msgs, calls, i, k)[j],
            ),
    decreases msgs.len() - i,
{
    if i < msgs.len() {
        assert(regular(msgs[i]));
        lemma_entry_told(h, w, calls, msgs[i], k);
        lemma_entries_from(h, w, msgs, calls, i + 1, k + 1);
        let all = entries::pi_records(w, msgs, calls, i, k);
        let rest = entries::pi_records(w, msgs, calls, i + 1, k + 1);
        assert forall|j: int| 0 <= j < msgs.len() - i implies entry_told(
            h,
            w,
            msgs[i + j],
            #[trigger] all[j],
        ) by {
            if j > 0 {
                assert(all[j] == rest[j - 1]);
                assert(msgs[i + j] == msgs[i + 1 + (j - 1)]);
            }
        }
    }
}

/// A session written for Pi or OMP has an entry for every message, in order, and no other but the
/// head.
pub proof fn lemma_entries_written(h: Harness, w: Setting, msgs: Seq<MsgV>, i: int)
    requires
        h == Harness::Pi || h == Harness::Omp,
        all_regular(msgs),
        0 <= i < msgs.len(),
    ensures
        draft::session_records(h, w, msgs).len() == head_len(h) + msgs.len(),
        entry_told(h, w, msgs[i], draft::session_records(h, w, msgs)[head_len(h) + i]),
{
    let calls = entries::calls_of(msgs);
    lemma_entries_from(h, w, msgs, calls, 0, 0);
    let recs = draft::message_records(h, w, msgs);
    let all = draft::session_records(h, w, msgs);
    assert(all[head_len(h) + i] == recs[i]);
    assert(entry_told(h, w, msgs[0 + i], recs[i]));
}

/// A call under `id`, if it is one, is of `tool`.
pub open spec fn call_named(b: BlockV, id: Seq<char>, tool: Seq<char>) -> bool {
    match b {
        BlockV::ToolCall { id: x, name: n, args } => x == id ==> n == tool,
        _ => true,
    }
}

/// A result that says no name is written for Pi and OMP under the tool that was called with its id.
pub proof fn lemma_result_attributed(
    h: Harness,
    w: Setting,
    msgs: Seq<MsgV>,
    i: int,
    c: int,
    j: int,
    id: Seq<char>,
    tool: Seq<char>,
)
    requires
        h == Harness::Pi || h == Harness::Omp,
        all_regular(msgs),
        0 <= i < msgs.len(),
        msgs[i].role == Role::Tool,
        msgs[i].blocks[0] matches BlockV::ToolResult { call_id, name, content, is_error } && call_id
            == id && name is None,
        0 <= c < msgs.len(),
        0 <= j < msgs[c].blocks.len(),
        msgs[c].blocks[j] matches BlockV::ToolCall { id: x, name: n, args } && x == id && n == tool,
        forall|a: int, b: int|
            #![trigger msgs[a].blocks[b]]
            0 <= a < msgs.len() && 0 <= b < msgs[a].blocks.len() ==> call_named(
                msgs[a].blocks[b],
                id,
                tool,
            ),
    ensures
        json::field(draft::session_records(h, w, msgs)[head_len(h) + i], "message"@) matches Some(x)
            && says(x, "toolName"@, tool),
{
    broadcast use json::lemma_field_with;

    words::lemma_words();
    let calls = entries::calls_of(msgs);
    lemma_calls_named(msgs, id, tool);
    entries::lemma_attributed(msgs, c, j, id, tool);
    lemma_entry_place(h, w, msgs, calls, 0, 0, i);
    let all = draft::session_records(h, w, msgs);
    let recs = draft::message_records(h, w, msgs);
    assert(all[head_len(h) + i] == recs[i]);
}

proof fn lemma_entry_place(
    h: Harness,
    w: Setting,
    msgs: Seq<MsgV>,
    calls: Seq<Call>,
    i: int,
    k: int,
    j: int,
)
    requires
        0 <= i,
        0 <= j < msgs.len() - i,
        all_regular(msgs),
    ensures
        entries::pi_message(w.model, calls, msgs[i + j]) is Some,
        entries::pi_records(w, msgs, calls, i, k).len() > j,
        entries::pi_records(w, msgs, calls, i, k)[j] == entries::pi_record(
            w,
            msgs[i + j],
            entries::pi_message(w.model, calls, msgs[i + j])->Some_0,
            k + j,
        ),
    decreases j,
{
    assert(regular(msgs[i]));
    assert(regular(msgs[i + j]));
    if j > 0 {
        lemma_entry_place(h, w, msgs, calls, i + 1, k + 1, j - 1);
        let all = entries::pi_records(w, msgs, calls, i, k);
        let rest = entries::pi_records(w, msgs, calls, i + 1, k + 1);
        assert(all[j] == rest[j - 1]);
    }
}

proof fn lemma_calls_named(msgs: Seq<MsgV>, id: Seq<char>, tool: Seq<char>)
    requires
        forall|a: int, b: int|
            #![trigger msgs[a].blocks[b]]
            0 <= a < msgs.len() && 0 <= b < msgs[a].blocks.len() ==> call_named(
                msgs[a].blocks[b],
                id,
                tool,
            ),
    ensures
        forall|k: int|
            0 <= k < entries::calls_of(msgs).len() && (#[trigger] entries::calls_of(msgs)[k]).0
                == id ==> entries::calls_of(msgs)[k].1 == tool,
    decreases msgs.len(),
{
    if msgs.len() > 0 {
        let before = msgs.drop_last();
        let last = msgs[msgs.len() - 1];
        assert forall|a: int, b: int|
            #![trigger before[a].blocks[b]]
            0 <= a < before.len() && 0 <= b < before[a].blocks.len() implies call_named(
            before[a].blocks[b],
            id,
            tool,
        ) by {
            assert(before[a] == msgs[a]);
            assert(call_named(msgs[a].blocks[b], id, tool));
        }
        lemma_calls_named(before, id, tool);
        assert forall|b: int| 0 <= b < last.blocks.len() implies call_named(
            #[trigger] last.blocks[b],
            id,
            tool,
        ) by {
            assert(call_named(msgs[msgs.len() - 1].blocks[b], id, tool));
        }
        lemma_block_calls_named(last.blocks, id, tool);
        let some = entries::calls_of(before);
        let more = entries::block_calls(last.blocks);
        let all = entries::calls_of(msgs);
        assert forall|k: int| 0 <= k < all.len() && (#[trigger] all[k]).0 == id implies all[k].1
            == tool by {
            if k < some.len() {
                assert(all[k] == some[k]);
            } else {
                assert(all[k] == more[k - some.len()]);
            }
        }
    }
}

proof fn lemma_block_calls_named(blocks: Seq<BlockV>, id: Seq<char>, tool: Seq<char>)
    requires
        forall|b: int| 0 <= b < blocks.len() ==> call_named(#[trigger] blocks[b], id, tool),
    ensures
        forall|k: int|
            0 <= k < entries::block_calls(blocks).len() && (#[trigger] entries::block_calls(
                blocks,
            )[k]).0 == id ==> entries::block_calls(blocks)[k].1 == tool,
    decreases blocks.len(),
{
    if blocks.len() > 0 {
        let before = blocks.drop_last();
        assert forall|b: int| 0 <= b < before.len() implies call_named(
            #[trigger] before[b],
            id,
            tool,
        ) by {
            assert(before[b] == blocks[b]);
        }
        lemma_block_calls_named(before, id, tool);
        let last = blocks[blocks.len() - 1];
        let some = entries::block_calls(before);
        let all = entries::block_calls(blocks);
        assert forall|k: int| 0 <= k < all.len() && (#[trigger] all[k]).0 == id implies all[k].1
            == tool by {
            if k < some.len() {
                assert(all[k] == some[k]);
            }
        }
    }
}

/// A message that says `t` as Codex keeps it, in one part of that kind.
pub open spec fn codex_said(p: Tree, role: Seq<char>, kind: Seq<char>, t: Seq<char>) -> bool {
    &&& says(p, "type"@, "message"@)
    &&& says(p, "role"@, role)
    &&& json::field(p, "content"@) matches Some(Tree::Arr(items)) && items.len() == 1 && says(
        items[0],
        "type"@,
        kind,
    ) && says(items[0], "text"@, t)
}

/// Item `j` of a message as Codex keeps it: what a user said, a block of the assistant, or what a
/// tool gave.
pub open spec fn item_told(p: Tree, m: MsgV, j: int) -> bool {
    match m.role {
        Role::User => codex_said(p, "user"@, "input_text"@, said(m)),
        Role::Assistant => match m.blocks[j] {
            BlockV::Text(t) => codex_said(p, "assistant"@, "output_text"@, t),
            BlockV::Thinking(t) => {
                &&& says(p, "type"@, "reasoning"@)
                &&& json::field(p, "summary"@) matches Some(Tree::Arr(items)) && items.len() == 1
                    && says(items[0], "type"@, "summary_text"@) && says(items[0], "text"@, t)
                &&& json::field(p, "content"@) == Some(Tree::Null)
            },
            BlockV::ToolCall { id, name, args } => {
                &&& says(p, "type"@, "function_call"@)
                &&& says(p, "call_id"@, id)
                &&& says(p, "name"@, name)
                &&& says(p, "arguments"@, json::printed(json::normal(args)))
            },
            BlockV::ToolResult { .. } => false,
        },
        Role::Tool => m.blocks[0] matches BlockV::ToolResult { call_id, name, content, is_error }
            && {
            &&& says(p, "type"@, "function_call_output"@)
            &&& says(p, "call_id"@, call_id)
            &&& says(p, "output"@, content)
        },
    }
}

/// How many items Codex keeps a message in: one for each block of the assistant.
pub open spec fn item_count(m: MsgV) -> nat {
    if m.role == Role::Assistant {
        m.blocks.len()
    } else {
        1
    }
}

proof fn lemma_block_items(blocks: Seq<BlockV>)
    requires
        forall|j: int| 0 <= j < blocks.len() ==> !((#[trigger] blocks[j]) is ToolResult),
    ensures
        rollout::block_payloads(blocks).len() == blocks.len(),
        forall|j: int|
            0 <= j < blocks.len() ==> rollout::codex_payload(blocks[j]) == Some(
                #[trigger] rollout::block_payloads(blocks)[j],
            ),
    decreases blocks.len(),
{
    if blocks.len() > 0 {
        let before = blocks.drop_last();
        assert forall|j: int|
            0 <= j < before.len() implies !((#[trigger] before[j]) is ToolResult) by {
            assert(before[j] == blocks[j]);
        }
        lemma_block_items(before);
        let n = blocks.len() - 1;
        assert(!(blocks[n] is ToolResult));
        let some = rollout::block_payloads(before);
        let all = rollout::block_payloads(blocks);
        assert forall|j: int| 0 <= j < blocks.len() implies rollout::codex_payload(blocks[j])
            == Some(#[trigger] all[j]) by {
            if j < n {
                assert(all[j] == some[j] && before[j] == blocks[j]);
            }
        }
    }
}

proof fn lemma_items_told(m: MsgV, j: int)
    requires
        regular(m),
        0 <= j < item_count(m),
    ensures
        rollout::codex_payloads(m).len() == item_count(m),
        item_told(rollout::codex_payloads(m)[j], m, j),
{
    broadcast use json::lemma_field_with;

    words::lemma_words();
    match m.role {
        Role::Assistant => {
            lemma_block_items(m.blocks);
            assert(rollout::codex_payload(m.blocks[j]) == Some(
                rollout::block_payloads(m.blocks)[j],
            ));
            assert(!(m.blocks[j] is ToolResult));
        },
        Role::User => lemma_texts(m.blocks),
        Role::Tool => {},
    }
}

/// A record of a Codex rollout for item `j` of a message.
pub open spec fn rollout_told(w: Setting, m: MsgV, j: int, r: Tree) -> bool {
    &&& says(r, "type"@, "response_item"@)
    &&& stamped(r, m, w.ts)
    &&& json::field(r, "payload"@) matches Some(p) && item_told(p, m, j)
}

/// Where the items of message `i` begin, the items of the messages before it counted.
pub open spec fn items_before(msgs: Seq<MsgV>, i: int) -> int
    decreases i,
{
    if i <= 0 {
        0
    } else {
        items_before(msgs, i - 1) + item_count(msgs[i - 1])
    }
}

proof fn lemma_rollout_from(w: Setting, msgs: Seq<MsgV>, i: int, n: int, m: int, j: int)
    requires
        0 <= i <= m < msgs.len(),
        all_regular(msgs),
        0 <= j < item_count(msgs[m]),
    ensures
        ({
            let recs = rollout::codex_records(w, msgs, i, n);
            let k = items_before(msgs, m) - items_before(msgs, i) + j;
            &&& recs.len() == items_before(msgs, msgs.len() as int) - items_before(msgs, i)
            &&& 0 <= k < recs.len()
            &&& rollout_told(w, msgs[m], j, recs[k])
        }),
    decreases msgs.len() - i,
{
    broadcast use json::lemma_field_with;

    words::lemma_words();
    assert(regular(msgs[i]));
    let ps = rollout::codex_payloads(msgs[i]);
    let first = rollout::numbered(ps, n, records::stamp(msgs[i], w.ts));
    let rest = rollout::codex_records(w, msgs, i + 1, n + ps.len());
    let recs = rollout::codex_records(w, msgs, i, n);
    lemma_item_len(msgs[i]);
    lemma_rollout_len(w, msgs, i + 1, n + ps.len());
    lemma_items_grow(msgs, i + 1, msgs.len() as int);
    if m == i {
        lemma_items_told(msgs[i], j);
        assert(recs[j] == first[j]);
    } else {
        lemma_rollout_from(w, msgs, i + 1, n + ps.len(), m, j);
        let k = items_before(msgs, m) - items_before(msgs, i) + j;
        lemma_items_grow(msgs, i + 1, m);
        assert(recs[k] == rest[k - first.len()]);
    }
}

proof fn lemma_item_len(m: MsgV)
    requires
        regular(m),
    ensures
        rollout::codex_payloads(m).len() == item_count(m),
{
    match m.role {
        Role::Assistant => lemma_block_items(m.blocks),
        _ => {},
    }
}

proof fn lemma_items_grow(msgs: Seq<MsgV>, i: int, j: int)
    requires
        0 <= i <= j,
    ensures
        items_before(msgs, i) <= items_before(msgs, j),
    decreases j - i,
{
    if i < j {
        lemma_items_grow(msgs, i, j - 1);
    }
}

proof fn lemma_rollout_len(w: Setting, msgs: Seq<MsgV>, i: int, n: int)
    requires
        0 <= i <= msgs.len(),
        all_regular(msgs),
    ensures
        rollout::codex_records(w, msgs, i, n).len() == items_before(msgs, msgs.len() as int)
            - items_before(msgs, i),
    decreases msgs.len() - i,
{
    if i < msgs.len() {
        assert(regular(msgs[i]));
        lemma_item_len(msgs[i]);
        lemma_rollout_len(w, msgs, i + 1, n + rollout::codex_payloads(msgs[i]).len());
    }
}

/// A session written for Codex has an item for all that a user said, for every block of the
/// assistant and for what each tool gave, in order, and no other but the head.
pub proof fn lemma_rollout_written(w: Setting, msgs: Seq<MsgV>, i: int, j: int)
    requires
        all_regular(msgs),
        0 <= i < msgs.len(),
        0 <= j < item_count(msgs[i]),
    ensures
        ({
            let recs = draft::session_records(Harness::Codex, w, msgs);
            &&& recs.len() == 1 + items_before(msgs, msgs.len() as int)
            &&& 1 + items_before(msgs, i) + j < recs.len()
            &&& rollout_told(w, msgs[i], j, recs[1 + items_before(msgs, i) + j])
        }),
{
    lemma_rollout_from(w, msgs, 0, 1, i, j);
    lemma_items_grow(msgs, 0, i);
    let recs = draft::message_records(Harness::Codex, w, msgs);
    let all = draft::session_records(Harness::Codex, w, msgs);
    assert(all[1 + items_before(msgs, i) + j] == recs[items_before(msgs, i) + j]);
}

/// A written session begins by saying its id, its title and its working directory, as far as its
/// harness keeps them in a head.
pub proof fn lemma_head_written(h: Harness, w: Setting, msgs: Seq<MsgV>)
    ensures
        ({
            let recs = draft::session_records(h, w, msgs);
            let n = head_len(h);
            &&& recs.len() == n + draft::message_records(h, w, msgs).len()
            &&& recs.skip(n) == draft::message_records(h, w, msgs)
            &&& h == Harness::Factory ==> {
                &&& says(recs[0], "type"@, "session_start"@)
                &&& says(recs[0], "id"@, w.id)
                &&& says(recs[0], "title"@, w.title)
                &&& says(recs[0], "cwd"@, w.cwd)
                &&& says(recs[0], "owner"@, w.owner)
                &&& json::field(recs[0], "version"@) == Some(Tree::Pos(2))
                &&& json::field(recs[0], "isSessionTitleManuallySet"@) == Some(Tree::Bool(true))
            }
            &&& h == Harness::Codex ==> {
                &&& says(recs[0], "type"@, "session_meta"@)
                &&& says(recs[0], "timestamp"@, w.ts)
                &&& json::field(recs[0], "payload"@) matches Some(p) && {
                    &&& says(p, "id"@, w.id)
                    &&& says(p, "session_id"@, w.id)
                    &&& says(p, "cwd"@, w.cwd)
                    &&& says(p, "timestamp"@, w.ts)
                    &&& says(p, "originator"@, "bodysnatcher"@)
                    &&& says(p, "cli_version"@, "0.147.0"@)
                    &&& says(p, "source"@, "cli"@)
                    &&& says(p, "model_provider"@, "bodysnatcher"@)
                }
            }
            &&& h == Harness::Pi || h == Harness::Omp ==> {
                &&& says(recs[n - 1], "type"@, "session"@)
                &&& says(recs[n - 1], "id"@, w.id)
                &&& says(recs[n - 1], "title"@, w.title)
                &&& says(recs[n - 1], "titleSource"@, "user"@)
                &&& says(recs[n - 1], "cwd"@, w.cwd)
                &&& says(recs[n - 1], "timestamp"@, w.ts)
                &&& json::field(recs[n - 1], "version"@) == Some(Tree::Pos(3))
            }
            &&& h == Harness::Omp ==> {
                &&& says(recs[0], "type"@, "title"@)
                &&& says(recs[0], "source"@, "user"@)
                &&& says(recs[0], "updatedAt"@, w.ts)
                &&& json::field(recs[0], "v"@) == Some(Tree::Pos(1))
                &&& json::text_of(json::field(recs[0], "title"@)) matches Some(t) && text::begins(
                    w.title,
                    t,
                )
            }
        }),
{
    broadcast use json::lemma_field_with;

    words::lemma_words();
    reveal_strlit("v");
    assert("v"@.len() == 1);
    let recs = draft::session_records(h, w, msgs);
    assert(recs.skip(head_len(h)) =~= draft::message_records(h, w, msgs));
    if h == Harness::Omp {
        lemma_title_start(w.title, w.ts);
    }
}

proof fn lemma_title_start(title: Seq<char>, at: Seq<char>)
    ensures
        text::begins(title, slot::slot_title(title, at)),
    decreases title.len(),
{
    let t = slot::slot_title(title, at);
    if slot::slot_len(title, at) > slot::SLOT_BYTES && title.len() > 0 {
        lemma_title_start(title.drop_last(), at);
        assert(title.take(t.len() as int) =~= title.drop_last().take(t.len() as int));
    } else {
        assert(title.take(title.len() as int) =~= title);
    }
}

/// A written session has the title, the working directory and the model of its source.
pub proof fn lemma_setting(src: Session, id: Seq<char>, ts: Seq<char>, amb: Ambient)
    ensures
        ({
            let w = records::setting(src, id, ts, amb);
            &&& w.id == id && w.ts == ts
            &&& w.cwd == src.cwd@ && w.title == src.title@ && w.model == src.model@
            &&& w.owner == amb.owner@
        }),
{
}

/// What has no place in a message is left out of it: results that an assistant would give, and
/// whatever a user says but texts.
pub proof fn lemma_left_out(h: Harness, a: Seq<BlockV>, x: BlockV, b: Seq<BlockV>)
    ensures
        x is ToolResult ==> records::native_blocks(h, a.push(x) + b) == records::native_blocks(h, a)
            + records::native_blocks(h, b),
        x is ToolResult ==> rollout::block_payloads(a.push(x) + b) == rollout::block_payloads(a)
            + rollout::block_payloads(b),
        !(x is Text) ==> records::texts_of(a.push(x) + b) == records::texts_of(a)
            + records::texts_of(b),
    decreases b.len(),
{
    let all = a.push(x) + b;
    if b.len() == 0 {
        assert(all =~= a.push(x));
        assert(a.push(x).drop_last() =~= a);
        assert(records::native_blocks(h, a) + records::native_blocks(h, b)
            =~= records::native_blocks(h, a));
        assert(rollout::block_payloads(a) + rollout::block_payloads(b) =~= rollout::block_payloads(
            a,
        ));
        assert(records::texts_of(a) + records::texts_of(b) =~= records::texts_of(a));
    } else {
        assert(all.drop_last() =~= a.push(x) + b.drop_last());
        assert(all.last() == b.last());
        lemma_left_out(h, a, x, b.drop_last());
        if x is ToolResult {
            assert(records::native_blocks(h, all) =~= records::native_blocks(h, a)
                + records::native_blocks(h, b));
            assert(rollout::block_payloads(all) =~= rollout::block_payloads(a)
                + rollout::block_payloads(b));
        }
        if !(x is Text) {
            assert(records::texts_of(all) =~= records::texts_of(a) + records::texts_of(b));
        }
    }
}

/// A tool message without a result has no entry in Pi and OMP, and no item in Codex.
pub proof fn lemma_no_result(w: Setting, calls: Seq<Call>, m: MsgV)
    requires
        m.role == Role::Tool,
        m.blocks.len() == 0 || !(m.blocks[0] is ToolResult),
    ensures
        entries::pi_message(w.model, calls, m) is None,
        rollout::codex_payloads(m).len() == 0,
        turns::result_tree(m) is None,
{
}

/// A result without a name is of the tool that was called last under its id; where none was, its
/// name is empty. A name of its own is kept.
pub proof fn lemma_named_by_last(calls: Seq<Call>, id: Seq<char>, name: Seq<char>)
    ensures
        entries::result_name(calls, id, Some(name)) == name,
        entries::result_name(calls.push((id, name)), id, None) == name,
        (forall|k: int| 0 <= k < calls.len() ==> (#[trigger] calls[k]).0 != id)
            ==> entries::result_name(calls, id, None) == Seq::<char>::empty(),
{
    if forall|k: int| 0 <= k < calls.len() ==> (#[trigger] calls[k]).0 != id {
        lemma_not_called(calls, id);
    }
}

proof fn lemma_not_called(calls: Seq<Call>, id: Seq<char>)
    requires
        forall|k: int| 0 <= k < calls.len() ==> (#[trigger] calls[k]).0 != id,
    ensures
        entries::call_name(calls, id) is None,
    decreases calls.len(),
{
    if calls.len() > 0 {
        let before = calls.drop_last();
        assert forall|k: int| 0 <= k < before.len() implies (#[trigger] before[k]).0 != id by {
            assert(before[k] == calls[k]);
        }
        lemma_not_called(before, id);
        assert(calls[calls.len() - 1].0 != id);
    }
}

} // verus!
