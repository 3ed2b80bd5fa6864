//! What a read gives back of a write.

use crate::entries;
use crate::history;
use crate::json;
use crate::json::Tree;
use crate::model;
use crate::model::{BlockV, Harness, MsgV, Role};
use crate::parse;
use crate::records;
use crate::records::Setting;
use crate::rollout;
use crate::slot;
use crate::summary;
use crate::summary::SumV;
use crate::text;
use crate::turns;
use crate::words;
use crate::draft;
use vstd::prelude::*;

verus! {

/// A record's line reads back as the record, its keys in order.
proof fn lemma_line_reads(t: Tree)
    requires
        t is Obj,
        json::reads_back(t),
        json::readable(t),
    ensures
        parse::line_record(records::line_of(t)) == Some(json::normal(t)),
{
    let p = json::printed(json::normal(t));
    let line = p.push('\n');
    assert(json::normal(t) is Obj);
    assert(p[0] == '{');
    assert(p.last() == '}');
    assert(line[0] == '{');
    assert(text::trim_start(line) == line);
    assert(line.drop_last() =~= p);
    reveal_with_fuel(text::trim_end, 2);
    assert(text::trimmed(line) == p);
}

/// The messages that records give when their lines are read.
pub open spec fn records_msgs(h: Harness, recs: Seq<Tree>) -> Seq<MsgV>
    decreases recs.len(),
{
    if recs.len() == 0 {
        Seq::empty()
    } else {
        records_msgs(h, recs.drop_last()) + parse::record_msgs(h, json::normal(recs.last()))
    }
}

proof fn lemma_records_add(h: Harness, a: Seq<Tree>, b: Seq<Tree>)
    ensures
        records_msgs(h, a + b) == records_msgs(h, a) + records_msgs(h, b),
    decreases b.len(),
{
    if b.len() == 0 {
        assert(a + b =~= a);
        assert(records_msgs(h, a) + Seq::<MsgV>::empty() =~= records_msgs(h, a));
    } else {
        assert((a + b).drop_last() =~= a + b.drop_last());
        lemma_records_add(h, a, b.drop_last());
        let last = parse::record_msgs(h, json::normal(b.last()));
        assert((records_msgs(h, a) + records_msgs(h, b.drop_last())) + last =~= records_msgs(h, a)
            + (records_msgs(h, b.drop_last()) + last));
    }
}

proof fn lemma_records_one(h: Harness, t: Tree)
    ensures
        records_msgs(h, seq![t]) == parse::record_msgs(h, json::normal(t)),
{
    reveal_with_fuel(records_msgs, 2);
    assert(seq![t].drop_last() =~= Seq::<Tree>::empty());
    assert(Seq::<MsgV>::empty() + parse::record_msgs(h, json::normal(t)) =~= parse::record_msgs(
        h,
        json::normal(t),
    ));
}

/// Every record is an object that reads back.
pub open spec fn all_readable(recs: Seq<Tree>) -> bool {
    forall|k: int| 0 <= k < recs.len() ==> #[trigger] recs[k] is Obj && json::readable(recs[k])
}

/// Reading a session file gives its records, their keys in order.
proof fn lemma_file_reads(h: Harness, lines: Seq<Seq<char>>, recs: Seq<Tree>)
    requires
        records::are_lines(lines, recs),
        all_readable(recs),
    ensures
        history::file_records(lines) == json::normal_items(recs),
        history::all_msgs(h, json::normal_items(recs)) == records_msgs(h, recs),
    decreases recs.len(),
{
    if recs.len() > 0 {
        let n = recs.len() - 1;
        let before = recs.drop_last();
        let lines_before = lines.drop_last();
        assert forall|k: int| 0 <= k < before.len() implies #[trigger] lines_before[k]
            == records::line_of(before[k]) && json::reads_back(before[k]) by {
            assert(lines[k] == records::line_of(recs[k]));
        }
        assert forall|k: int| 0 <= k < before.len() implies #[trigger] before[k] is Obj
            && json::readable(before[k]) by {
            assert(recs[k] is Obj);
        }
        lemma_file_reads(h, lines_before, before);
        assert(lines[n] == records::line_of(recs[n]));
        assert(recs[n] is Obj);
        lemma_line_reads(recs[n]);
        let some = json::normal_items(before);
        assert(some.push(json::normal(recs[n])).drop_last() =~= some);
    }
}

proof fn lemma_normal_items(recs: Seq<Tree>)
    ensures
        json::normal_items(recs).len() == recs.len(),
        forall|k: int|
            0 <= k < recs.len() ==> #[trigger] json::normal_items(recs)[k] == json::normal(recs[k]),
    decreases recs.len(),
{
    if recs.len() > 0 {
        let some = json::normal_items(recs.drop_last());
        let all = json::normal_items(recs);
        lemma_normal_items(recs.drop_last());
        assert forall|k: int| 0 <= k < recs.len() implies #[trigger] all[k] == json::normal(
            recs[k],
        ) by {
            if k < some.len() {
                assert(all[k] == some[k]);
            }
        }
    }
}

/// A session whose records tell of no compaction is read whole.
proof fn lemma_whole(h: Harness, recs: Seq<Tree>)
    requires
        forall|k: int|
            0 <= k < recs.len() ==> !history::is_compaction(h, json::normal(#[trigger] recs[k])),
    ensures
        history::live_msgs(h, json::normal_items(recs)) == history::all_msgs(
            h,
            json::normal_items(recs),
        ),
{
    let all = json::normal_items(recs);
    lemma_normal_items(recs);
    assert forall|k: int| 0 <= k < all.len() implies !history::is_compaction(h, #[trigger] all[k]) by {
        assert(all[k] == json::normal(recs[k]));
    }
    history::lemma_uncompacted(h, all);
}

proof fn lemma_items_readable(items: Seq<Tree>, n: int)
    requires
        forall|i: int|
            0 <= i < items.len() ==> json::integral(#[trigger] items[i]) && json::nested(
                items[i],
                n,
            ),
    ensures
        json::integral_items(items),
        json::nested_items(items, n),
    decreases items.len(),
{
    if items.len() > 0 {
        assert(json::integral(items[items.len() - 1]));
        assert forall|i: int| 0 <= i < items.drop_last().len() implies json::integral(
            #[trigger] items.drop_last()[i],
        ) && json::nested(items.drop_last()[i], n) by {
            assert(json::integral(items[i]));
        }
        lemma_items_readable(items.drop_last(), n);
    }
}

/// How deep the arguments of a call may nest for its record to read back.
pub open spec fn args_depth(h: Harness) -> int {
    match h {
        Harness::Codex => json::max_nesting(),
        _ => json::max_nesting() - 4,
    }
}

/// The arguments of every call hold whole numbers and do not nest too deep.
pub open spec fn args_portable(blocks: Seq<BlockV>, depth: int) -> bool {
    forall|j: int|
        0 <= j < blocks.len() ==> (#[trigger] blocks[j] matches BlockV::ToolCall { id, name, args }
            ==> json::integral(args) && json::nested(args, depth))
}

/// The calls of every assistant message can be written to `h` and read back.
pub open spec fn portable(h: Harness, msgs: Seq<MsgV>) -> bool {
    forall|i: int|
        0 <= i < msgs.len() && (#[trigger] msgs[i]).role == Role::Assistant ==> args_portable(
            msgs[i].blocks,
            args_depth(h),
        )
}

/// A block as it comes back: empty thinking is dropped, arguments have their keys in order.
pub open spec fn carried_block(b: BlockV) -> Option<BlockV> {
    match b {
        BlockV::Text(t) => Some(b),
        BlockV::Thinking(t) => if t.len() > 0 {
            Some(b)
        } else {
            None
        },
        BlockV::ToolCall { id, name, args } => Some(
            BlockV::ToolCall { id, name, args: json::normal(args) },
        ),
        BlockV::ToolResult { .. } => None,
    }
}

/// The blocks of an assistant message as they come back.
pub open spec fn carried_blocks(blocks: Seq<BlockV>) -> Seq<BlockV>
    decreases blocks.len(),
{
    if blocks.len() == 0 {
        Seq::empty()
    } else {
        let before = carried_blocks(blocks.drop_last());
        match carried_block(blocks.last()) {
            Some(b) => before.push(b),
            None => before,
        }
    }
}

proof fn lemma_native_block(h: Harness, b: BlockV)
    ensures
        records::native_block(h, b) matches Some(t) ==> parse::block_of(json::normal(t))
            == carried_block(b),
        records::native_block(h, b) is None ==> carried_block(b) is None,
{
    broadcast use {json::lemma_field_with, json::lemma_field_normal};

    words::lemma_words();
}

proof fn lemma_native_blocks(h: Harness, blocks: Seq<BlockV>)
    ensures
        parse::blocks_of(json::normal_items(records::native_blocks(h, blocks))) == carried_blocks(
            blocks,
        ),
    decreases blocks.len(),
{
    if blocks.len() > 0 {
        let before = records::native_blocks(h, blocks.drop_last());
        lemma_native_blocks(h, blocks.drop_last());
        lemma_native_block(h, blocks.last());
        match records::native_block(h, blocks.last()) {
            Some(t) => {
                assert(before.push(t).drop_last() =~= before);
                let items = json::normal_items(before.push(t));
                assert(items.drop_last() =~= json::normal_items(before));
            },
            None => {},
        }
    }
}

proof fn lemma_native_block_readable(h: Harness, b: BlockV, n: int)
    requires
        b matches BlockV::ToolCall { id, name, args } ==> json::integral(args) && json::nested(
            args,
            n,
        ),
        n >= 0,
    ensures
        records::native_block(h, b) matches Some(t) ==> json::integral(t) && json::nested(t, n + 1),
{
    broadcast use {json::lemma_integral_with, json::lemma_nested_with};

    assert(json::integral(json::empty_obj()));
    assert(json::nested(json::empty_obj(), n + 1));
}

/// The blocks of an assistant message read back where its arguments do.
proof fn lemma_native_readable(h: Harness, blocks: Seq<BlockV>, n: int)
    requires
        args_portable(blocks, n),
        n >= 0,
    ensures
        forall|i: int|
            0 <= i < records::native_blocks(h, blocks).len() ==> json::integral(
                #[trigger] records::native_blocks(h, blocks)[i],
            ) && json::nested(records::native_blocks(h, blocks)[i], n + 1),
    decreases blocks.len(),
{
    if blocks.len() > 0 {
        let before = blocks.drop_last();
        assert forall|j: int| 0 <= j < before.len() implies (#[trigger] before[j] matches BlockV::ToolCall {
            id,
            name,
            args,
        } ==> json::integral(args) && json::nested(args, n)) by {
            assert(before[j] == blocks[j]);
        }
        lemma_native_readable(h, before, n);
        assert(blocks.last() == blocks[blocks.len() - 1]);
        lemma_native_block_readable(h, blocks.last(), n);
        let some = records::native_blocks(h, before);
        let all = records::native_blocks(h, blocks);
        assert forall|i: int| 0 <= i < all.len() implies json::integral(#[trigger] all[i])
            && json::nested(all[i], n + 1) by {
            if i < some.len() {
                assert(all[i] == some[i]);
            }
        }
    }
}

/// The results of a run of tool messages as they come back: without the tool's name, and with the
/// timestamp of the first.
pub open spec fn carried_results(msgs: Seq<MsgV>, i: int, j: int, ts: Seq<char>) -> Seq<MsgV>
    decreases j - i,
{
    if i >= j {
        Seq::empty()
    } else {
        let before = carried_results(msgs, i, j - 1, ts);
        let m = msgs[j - 1];
        if m.blocks.len() == 0 {
            before
        } else {
            match m.blocks[0] {
                BlockV::ToolResult { call_id, name, content, is_error } => before.push(
                    MsgV {
                        role: Role::Tool,
                        blocks: seq![
                            BlockV::ToolResult { call_id, name: None, content, is_error },
                        ],
                        ts: Some(ts),
                    },
                ),
                _ => before,
            }
        }
    }
}

/// A user message as it comes back: one text, and nothing where it is boilerplate.
pub open spec fn carried_user(m: MsgV, ts: Seq<char>) -> Seq<MsgV> {
    let t = records::spoken_text(m.blocks);
    if parse::boilerplate(t) {
        Seq::empty()
    } else {
        seq![MsgV { role: Role::User, blocks: seq![BlockV::Text(t)], ts: Some(ts) }]
    }
}

/// An assistant message as it comes back; nothing where no block is left.
pub open spec fn carried_assistant(m: MsgV, ts: Seq<char>) -> Seq<MsgV> {
    let blocks = carried_blocks(m.blocks);
    if blocks.len() == 0 {
        Seq::empty()
    } else {
        seq![MsgV { role: Role::Assistant, blocks, ts: Some(ts) }]
    }
}

/// The turn that starts at `i` as Factory and CL give it back.
pub open spec fn carried_turn(msgs: Seq<MsgV>, i: int, ts: Seq<char>) -> Seq<MsgV> {
    let at = records::stamp(msgs[i], ts);
    match msgs[i].role {
        Role::Assistant => carried_assistant(msgs[i], at),
        Role::User => carried_user(msgs[i], at),
        Role::Tool => carried_results(msgs, i, turns::run_end(msgs, i), at),
    }
}

/// The turns from `i` on as Factory and CL give them back.
pub open spec fn carried_turns(msgs: Seq<MsgV>, i: int, ts: Seq<char>) -> Seq<MsgV>
    decreases msgs.len() - i,
{
    if 0 <= i < msgs.len() {
        proof {
            turns::lemma_turn_end(msgs, i);
        }
        carried_turn(msgs, i, ts) + carried_turns(msgs, turns::turn_end(msgs, i), ts)
    } else {
        Seq::empty()
    }
}

proof fn lemma_normal_push(items: Seq<Tree>, t: Tree)
    ensures
        json::normal_items(items.push(t)) == json::normal_items(items).push(json::normal(t)),
{
    assert(items.push(t).drop_last() =~= items);
}

/// Tool results inside a user turn come back as tool messages, and nothing is said.
proof fn lemma_results(msgs: Seq<MsgV>, i: int, j: int, ts: Seq<char>)
    ensures
        parse::result_msgs(json::normal_items(turns::result_trees(msgs, i, j)), Some(ts))
            == carried_results(msgs, i, j, ts),
        parse::spoken(json::normal_items(turns::result_trees(msgs, i, j))) == Seq::<Tree>::empty(),
    decreases j - i,
{
    broadcast use {json::lemma_field_with, json::lemma_field_normal};

    if i < j {
        lemma_results(msgs, i, j - 1, ts);
        let before = turns::result_trees(msgs, i, j - 1);
        match turns::result_tree(msgs[j - 1]) {
            Some(t) => {
                words::lemma_words();
                lemma_normal_push(before, t);
                let items = json::normal_items(before);
                assert(items.push(json::normal(t)).drop_last() =~= items);
                assert(parse::is_result(json::normal(t)));
            },
            None => {},
        }
    }
}

/// One text block says its text.
proof fn lemma_one_text(t: Seq<char>)
    ensures
        json::normal_items(seq![records::text_tree(t)]) == seq![
            json::normal(records::text_tree(t)),
        ],
        !parse::is_result(json::normal(records::text_tree(t))),
        model::rendered_items(seq![json::normal(records::text_tree(t))]) == t,
{
    broadcast use {json::lemma_field_with, json::lemma_field_normal};

    words::lemma_words();
    let b = records::text_tree(t);
    let nb = json::normal(b);
    lemma_normal_push(Seq::empty(), b);
    assert(Seq::empty().push(b) =~= seq![b]);
    assert(Seq::empty().push(nb) =~= seq![nb]);
    assert(seq![nb].drop_last() =~= Seq::<Tree>::empty());
    assert(json::str_at(nb, "type"@) == "text"@);
    assert(json::field(nb, "text"@) == Some(Tree::Str(t)));
    assert(nb is Obj);
    assert(json::lookup(nb->Obj_0, "text"@) == Some(Tree::Str(t)));
    assert(model::rendered_items(Seq::<Tree>::empty()) == Seq::<char>::empty());
    assert(model::with_block(Seq::empty(), nb) =~= t);
}

/// A user turn of one text comes back as that text.
proof fn lemma_user_turn(t: Seq<char>, ts: Seq<char>)
    ensures
        parse::user_msgs(
            json::normal(Tree::Arr(seq![records::text_tree(t)])),
            Some(ts),
        ) == if parse::boilerplate(t) {
            Seq::empty()
        } else {
            seq![MsgV { role: Role::User, blocks: seq![BlockV::Text(t)], ts: Some(ts) }]
        },
{
    lemma_one_text(t);
    let nb = json::normal(records::text_tree(t));
    let items = seq![nb];
    assert(items.drop_last() =~= Seq::<Tree>::empty());
    assert(parse::spoken(Seq::<Tree>::empty()) == Seq::<Tree>::empty());
    assert(parse::spoken(items) =~= items);
    assert(parse::result_msgs(Seq::<Tree>::empty(), Some(ts)) == Seq::<MsgV>::empty());
    assert(parse::result_msgs(items, Some(ts)) == Seq::<MsgV>::empty());
    assert(parse::user_msgs(Tree::Arr(items), Some(ts)) =~= if parse::boilerplate(t) {
        Seq::empty()
    } else {
        seq![MsgV { role: Role::User, blocks: seq![BlockV::Text(t)], ts: Some(ts) }]
    });
}

/// The content of a turn comes back as the turn.
proof fn lemma_turn_content(h: Harness, msgs: Seq<MsgV>, i: int, ts: Seq<char>)
    requires
        0 <= i < msgs.len(),
    ensures
        msgs[i].role == Role::Assistant ==> parse::assistant_msgs(
            json::normal(turns::turn_content(h, msgs, i)),
            Some(ts),
        ) == carried_assistant(msgs[i], ts),
        msgs[i].role == Role::User ==> parse::user_msgs(
            json::normal(turns::turn_content(h, msgs, i)),
            Some(ts),
        ) == carried_user(msgs[i], ts),
        msgs[i].role == Role::Tool ==> parse::user_msgs(
            json::normal(turns::turn_content(h, msgs, i)),
            Some(ts),
        ) == carried_results(msgs, i, turns::run_end(msgs, i), ts),
{
    match msgs[i].role {
        Role::Assistant => {
            lemma_native_blocks(h, msgs[i].blocks);
        },
        Role::User => {
            lemma_user_turn(records::spoken_text(msgs[i].blocks), ts);
        },
        Role::Tool => {
            let j = turns::run_end(msgs, i);
            lemma_results(msgs, i, j, ts);
            let items = json::normal_items(turns::result_trees(msgs, i, j));
            assert(parse::said(Tree::Arr(items)) == Seq::<char>::empty());
            assert(text::trimmed(Seq::<char>::empty()) == Seq::<char>::empty());
            assert(Seq::<MsgV>::empty() + parse::result_msgs(items, Some(ts))
                =~= parse::result_msgs(items, Some(ts)));
        },
    }
}

/// The record of a turn comes back as the turn.
proof fn lemma_turn_record(h: Harness, w: Setting, msgs: Seq<MsgV>, i: int, k: int)
    requires
        h == Harness::Factory || h == Harness::Claude,
        0 <= i < msgs.len(),
    ensures
        parse::record_msgs(h, json::normal(turns::turn_record(h, w, msgs, i, k))) == carried_turn(
            msgs,
            i,
            w.ts,
        ),
{
    broadcast use {json::lemma_field_with, json::lemma_field_normal};

    words::lemma_words();
    let at = records::stamp(msgs[i], w.ts);
    lemma_turn_content(h, msgs, i, at);
    let v = json::normal(turns::turn_record(h, w, msgs, i, k));
    assert(json::text_of(json::field(v, "timestamp"@)) == Some(at));
    assert(json::str_at(json::at(v, "message"@), "role"@) == turns::turn_role(msgs[i]));
    assert(json::at(json::at(v, "message"@), "content"@) == json::normal(
        turns::turn_content(h, msgs, i),
    ));
    assert(parse::is_conversation(h, v));
}

proof fn lemma_turns(h: Harness, w: Setting, msgs: Seq<MsgV>, i: int, k: int)
    requires
        h == Harness::Factory || h == Harness::Claude,
        0 <= i <= msgs.len(),
    ensures
        records_msgs(h, turns::turn_records(h, w, msgs, i, k)) == carried_turns(msgs, i, w.ts),
    decreases msgs.len() - i,
{
    if i < msgs.len() {
        turns::lemma_turn_end(msgs, i);
        let rec = turns::turn_record(h, w, msgs, i, k);
        let rest = turns::turn_records(h, w, msgs, turns::turn_end(msgs, i), k + 1);
        lemma_turns(h, w, msgs, turns::turn_end(msgs, i), k + 1);
        lemma_turn_record(h, w, msgs, i, k);
        lemma_records_add(h, seq![rec], rest);
        lemma_records_one(h, rec);
    }
}

proof fn lemma_results_readable(msgs: Seq<MsgV>, i: int, j: int, n: int)
    requires
        n >= 1,
    ensures
        forall|k: int|
            0 <= k < turns::result_trees(msgs, i, j).len() ==> json::integral(
                #[trigger] turns::result_trees(msgs, i, j)[k],
            ) && json::nested(turns::result_trees(msgs, i, j)[k], n),
    decreases j - i,
{
    broadcast use {json::lemma_integral_with, json::lemma_nested_with};

    if i < j {
        lemma_results_readable(msgs, i, j - 1, n);
        assert(json::integral(json::empty_obj()));
        assert(json::nested(json::empty_obj(), n));
        let some = turns::result_trees(msgs, i, j - 1);
        let all = turns::result_trees(msgs, i, j);
        assert forall|k: int| 0 <= k < all.len() implies json::integral(#[trigger] all[k])
            && json::nested(all[k], n) by {
            if k < some.len() {
                assert(all[k] == some[k]);
            }
        }
    }
}

proof fn lemma_text_readable(t: Seq<char>, n: int)
    requires
        n >= 2,
    ensures
        json::integral(Tree::Arr(seq![records::text_tree(t)])),
        json::nested(Tree::Arr(seq![records::text_tree(t)]), n),
{
    broadcast use {json::lemma_integral_with, json::lemma_nested_with};

    let b = records::text_tree(t);
    assert(json::integral(json::empty_obj()));
    assert(json::nested(json::empty_obj(), n - 1));
    assert(json::integral(b) && json::nested(b, n - 1));
    lemma_items_readable(seq![b], n - 1);
}

proof fn lemma_turn_readable(h: Harness, w: Setting, msgs: Seq<MsgV>, i: int, k: int)
    requires
        h == Harness::Factory || h == Harness::Claude,
        0 <= i < msgs.len(),
        portable(h, msgs),
    ensures
        turns::turn_record(h, w, msgs, i, k) is Obj,
        json::readable(turns::turn_record(h, w, msgs, i, k)),
{
    broadcast use {json::lemma_integral_with, json::lemma_nested_with};

    let content = turns::turn_content(h, msgs, i);
    match msgs[i].role {
        Role::Assistant => {
            lemma_native_readable(h, msgs[i].blocks, 123);
            lemma_items_readable(records::native_blocks(h, msgs[i].blocks), 124);
        },
        Role::User => {
            lemma_text_readable(records::spoken_text(msgs[i].blocks), 125);
        },
        Role::Tool => {
            let j = turns::run_end(msgs, i);
            lemma_results_readable(msgs, i, j, 124);
            lemma_items_readable(turns::result_trees(msgs, i, j), 124);
        },
    }
    assert(json::integral(content) && json::nested(content, 125));
    assert(json::integral(json::empty_obj()));
    assert(json::nested(json::empty_obj(), 126));
    assert(json::nested(json::empty_obj(), 127));
}

proof fn lemma_turns_readable(h: Harness, w: Setting, msgs: Seq<MsgV>, i: int, k: int)
    requires
        h == Harness::Factory || h == Harness::Claude,
        0 <= i <= msgs.len(),
        portable(h, msgs),
    ensures
        all_readable(turns::turn_records(h, w, msgs, i, k)),
    decreases msgs.len() - i,
{
    if i < msgs.len() {
        turns::lemma_turn_end(msgs, i);
        lemma_turn_readable(h, w, msgs, i, k);
        lemma_turns_readable(h, w, msgs, turns::turn_end(msgs, i), k + 1);
        let rest = turns::turn_records(h, w, msgs, turns::turn_end(msgs, i), k + 1);
        let all = turns::turn_records(h, w, msgs, i, k);
        assert forall|j: int| 0 <= j < all.len() implies #[trigger] all[j] is Obj && json::readable(
            all[j],
        ) by {
            if j > 0 {
                assert(all[j] == rest[j - 1]);
            }
        }
    }
}

/// A tool message as Pi and OMP give it back: with the name of its tool.
pub open spec fn carried_result(m: MsgV, calls: Seq<entries::Call>, ts: Seq<char>) -> Seq<MsgV> {
    if m.blocks.len() == 0 {
        Seq::empty()
    } else {
        match m.blocks[0] {
            BlockV::ToolResult { call_id, name, content, is_error } => seq![
                MsgV {
                    role: Role::Tool,
                    blocks: seq![
                        BlockV::ToolResult {
                            call_id,
                            name: Some(entries::result_name(calls, call_id, name)),
                            content,
                            is_error,
                        },
                    ],
                    ts: Some(ts),
                },
            ],
            _ => Seq::empty(),
        }
    }
}

/// A message as Pi and OMP give it back.
pub open spec fn carried_entry(m: MsgV, calls: Seq<entries::Call>, ts: Seq<char>) -> Seq<MsgV> {
    let at = records::stamp(m, ts);
    match m.role {
        Role::Assistant => carried_assistant(m, at),
        Role::User => carried_user(m, at),
        Role::Tool => carried_result(m, calls, at),
    }
}

/// The messages from `i` on as Pi and OMP give them back.
pub open spec fn carried_entries(
    msgs: Seq<MsgV>,
    calls: Seq<entries::Call>,
    i: int,
    ts: Seq<char>,
) -> Seq<MsgV>
    decreases msgs.len() - i,
{
    if 0 <= i < msgs.len() {
        carried_entry(msgs[i], calls, ts) + carried_entries(msgs, calls, i + 1, ts)
    } else {
        Seq::empty()
    }
}

/// The record of a message comes back as the message.
proof fn lemma_pi_record(
    h: Harness,
    w: Setting,
    m: MsgV,
    calls: Seq<entries::Call>,
    message: Tree,
    k: int,
)
    requires
        h == Harness::Pi || h == Harness::Omp,
        entries::pi_message(w.model, calls, m) == Some(message),
    ensures
        parse::record_msgs(h, json::normal(entries::pi_record(w, m, message, k)))
            == carried_entry(m, calls, w.ts),
{
    broadcast use {json::lemma_field_with, json::lemma_field_normal};

    words::lemma_words();
    let at = records::stamp(m, w.ts);
    let v = json::normal(entries::pi_record(w, m, message, k));
    let nm = json::normal(message);
    assert(json::text_of(json::field(v, "timestamp"@)) == Some(at));
    assert(json::at(v, "message"@) == nm);
    assert(parse::is_conversation(h, v));
    match m.role {
        Role::Assistant => {
            lemma_native_blocks(Harness::Pi, m.blocks);
            assert(json::str_at(nm, "role"@) == "assistant"@);
            assert(json::at(nm, "content"@) == json::normal(
                Tree::Arr(records::native_blocks(Harness::Pi, m.blocks)),
            ));
        },
        Role::User => {
            let t = records::spoken_text(m.blocks);
            lemma_one_text(t);
            assert(json::str_at(nm, "role"@) == "user"@);
            assert(json::field(nm, "content"@) == Some(
                Tree::Arr(seq![json::normal(records::text_tree(t))]),
            ));
            assert(model::rendered(json::field(nm, "content"@)->Some_0) == t);
        },
        Role::Tool => {
            match m.blocks[0] {
                BlockV::ToolResult { call_id, name, content, is_error } => {
                    lemma_one_text(content);
                    assert(json::str_at(nm, "role"@) == "toolResult"@);
                    assert(json::field(nm, "content"@) == Some(
                        Tree::Arr(seq![json::normal(records::text_tree(content))]),
                    ));
                    assert(model::rendered(json::field(nm, "content"@)->Some_0) == content);
                },
                _ => {},
            }
        },
    }
}

proof fn lemma_pi_readable(w: Setting, m: MsgV, calls: Seq<entries::Call>, message: Tree, k: int)
    requires
        entries::pi_message(w.model, calls, m) == Some(message),
        m.role == Role::Assistant ==> args_portable(m.blocks, 123),
    ensures
        entries::pi_record(w, m, message, k) is Obj,
        json::readable(entries::pi_record(w, m, message, k)),
{
    broadcast use {json::lemma_integral_with, json::lemma_nested_with};

    assert(json::integral(json::empty_obj()));
    assert(json::nested(json::empty_obj(), 124));
    assert(json::nested(json::empty_obj(), 125));
    assert(json::nested(json::empty_obj(), 126));
    assert(json::nested(json::empty_obj(), 127));
    match m.role {
        Role::Assistant => {
            lemma_native_readable(Harness::Pi, m.blocks, 123);
            lemma_items_readable(records::native_blocks(Harness::Pi, m.blocks), 124);
            let content = Tree::Arr(records::native_blocks(Harness::Pi, m.blocks));
            assert(json::integral(content) && json::nested(content, 125));
            assert(json::integral(entries::zero_usage()) && json::nested(
                entries::zero_usage(),
                125,
            ));
        },
        Role::User => {
            lemma_text_readable(records::spoken_text(m.blocks), 125);
        },
        Role::Tool => {
            match m.blocks[0] {
                BlockV::ToolResult { call_id, name, content, is_error } => {
                    lemma_text_readable(content, 125);
                },
                _ => {},
            }
        },
    }
    assert(json::integral(message) && json::nested(message, 126));
}

proof fn lemma_entries(
    h: Harness,
    w: Setting,
    msgs: Seq<MsgV>,
    calls: Seq<entries::Call>,
    i: int,
    k: int,
)
    requires
        h == Harness::Pi || h == Harness::Omp,
        0 <= i <= msgs.len(),
        portable(h, msgs),
    ensures
        records_msgs(h, entries::pi_records(w, msgs, calls, i, k)) == carried_entries(
            msgs,
            calls,
            i,
            w.ts,
        ),
        all_readable(entries::pi_records(w, msgs, calls, i, k)),
    decreases msgs.len() - i,
{
    if i < msgs.len() {
        match entries::pi_message(w.model, calls, msgs[i]) {
            Some(message) => {
                let rec = entries::pi_record(w, msgs[i], message, k);
                let rest = entries::pi_records(w, msgs, calls, i + 1, k + 1);
                lemma_entries(h, w, msgs, calls, i + 1, k + 1);
                lemma_pi_record(h, w, msgs[i], calls, message, k);
                lemma_pi_readable(w, msgs[i], calls, message, k);
                lemma_records_add(h, seq![rec], rest);
                lemma_records_one(h, rec);
                let all = entries::pi_records(w, msgs, calls, i, k);
                assert forall|j: int| 0 <= j < all.len() implies #[trigger] all[j] is Obj
                    && json::readable(all[j]) by {
                    if j > 0 {
                        assert(all[j] == rest[j - 1]);
                    }
                }
            },
            None => {
                lemma_entries(h, w, msgs, calls, i + 1, k);
                assert(carried_entry(msgs[i], calls, w.ts) == Seq::<MsgV>::empty());
                let rest = carried_entries(msgs, calls, i + 1, w.ts);
                assert(Seq::<MsgV>::empty() + rest =~= rest);
            },
        }
    }
}

/// A block of an assistant message as Codex gives it back: a message of its own, unless it is an
/// empty text.
pub open spec fn carried_item(b: BlockV, ts: Seq<char>) -> Seq<MsgV> {
    match b {
        BlockV::ToolCall { id, name, args } => seq![
            MsgV {
                role: Role::Assistant,
                blocks: seq![BlockV::ToolCall { id, name, args: json::normal(args) }],
                ts: Some(ts),
            },
        ],
        BlockV::ToolResult { .. } => Seq::empty(),
        _ => if parse::is_blank(b) {
            Seq::empty()
        } else {
            seq![MsgV { role: Role::Assistant, blocks: seq![b], ts: Some(ts) }]
        },
    }
}

/// The blocks of an assistant message as Codex gives them back.
pub open spec fn carried_items(blocks: Seq<BlockV>, ts: Seq<char>) -> Seq<MsgV>
    decreases blocks.len(),
{
    if blocks.len() == 0 {
        Seq::empty()
    } else {
        carried_items(blocks.drop_last(), ts) + carried_item(blocks.last(), ts)
    }
}

/// A tool message as Codex gives it back: without its tool's name and without an error mark.
pub open spec fn carried_output(m: MsgV, ts: Seq<char>) -> Seq<MsgV> {
    if m.blocks.len() == 0 {
        Seq::empty()
    } else {
        match m.blocks[0] {
            BlockV::ToolResult { call_id, name, content, is_error } => seq![
                MsgV {
                    role: Role::Tool,
                    blocks: seq![
                        BlockV::ToolResult { call_id, name: None, content, is_error: false },
                    ],
                    ts: Some(ts),
                },
            ],
            _ => Seq::empty(),
        }
    }
}

/// A user message as Codex gives it back: one text, and nothing where it is empty.
pub open spec fn carried_input(m: MsgV, ts: Seq<char>) -> Seq<MsgV> {
    let t = records::spoken_text(m.blocks);
    if t.len() == 0 {
        Seq::empty()
    } else {
        seq![MsgV { role: Role::User, blocks: seq![BlockV::Text(t)], ts: Some(ts) }]
    }
}

/// A message as Codex gives it back.
pub open spec fn carried_codex(m: MsgV, ts: Seq<char>) -> Seq<MsgV> {
    let at = records::stamp(m, ts);
    match m.role {
        Role::Assistant => carried_items(m.blocks, at),
        Role::User => carried_input(m, at),
        Role::Tool => carried_output(m, at),
    }
}

/// The messages from `i` on as Codex gives them back.
pub open spec fn carried_rollout(msgs: Seq<MsgV>, i: int, ts: Seq<char>) -> Seq<MsgV>
    decreases msgs.len() - i,
{
    if 0 <= i < msgs.len() {
        carried_codex(msgs[i], ts) + carried_rollout(msgs, i + 1, ts)
    } else {
        Seq::empty()
    }
}

/// The record of an item comes back as the item.
proof fn lemma_codex_record(payload: Tree, ordinal: int, ts: Seq<char>)
    ensures
        parse::record_msgs(
            Harness::Codex,
            json::normal(rollout::codex_record(payload, ordinal, ts)),
        ) == parse::codex_msgs(json::normal(payload), Some(ts)),
{
    broadcast use {json::lemma_field_with, json::lemma_field_normal};

    words::lemma_words();
    let v = json::normal(rollout::codex_record(payload, ordinal, ts));
    assert(json::text_of(json::field(v, "timestamp"@)) == Some(ts));
    assert(json::at(v, "payload"@) == json::normal(payload));
    assert(parse::is_conversation(Harness::Codex, v));
}

/// The only part of a list.
proof fn lemma_one_part(part: Tree)
    ensures
        json::normal(Tree::Arr(seq![part])) == Tree::Arr(seq![json::normal(part)]),
        seq![json::normal(part)].drop_last() == Seq::<Tree>::empty(),
        seq![json::normal(part)].last() == json::normal(part),
{
    lemma_normal_push(Seq::empty(), part);
    assert(Seq::empty().push(part) =~= seq![part]);
    assert(Seq::empty().push(json::normal(part)) =~= seq![json::normal(part)]);
    assert(seq![json::normal(part)].drop_last() =~= Seq::<Tree>::empty());
}

/// A message of one text part says its text.
proof fn lemma_codex_message(role: Seq<char>, kind: Seq<char>, t: Seq<char>, ts: Seq<char>)
    requires
        (role == "user"@ && kind == "input_text"@) || (role == "assistant"@ && kind
            == "output_text"@),
    ensures
        parse::codex_msgs(json::normal(rollout::codex_message(role, kind, t)), Some(ts))
            == if t.len() == 0 {
            Seq::empty()
        } else {
            seq![
                MsgV {
                    role: if role == "user"@ {
                        Role::User
                    } else {
                        Role::Assistant
                    },
                    blocks: seq![BlockV::Text(t)],
                    ts: Some(ts),
                },
            ]
        },
{
    broadcast use {json::lemma_field_with, json::lemma_field_normal};

    words::lemma_words();
    let part = json::empty_obj().with("type"@, Tree::Str(kind)).with("text"@, Tree::Str(t));
    let p = json::normal(rollout::codex_message(role, kind, t));
    lemma_one_part(part);
    let np = json::normal(part);
    assert(json::at(p, "content"@) == Tree::Arr(seq![np]));
    assert(json::text_of(json::field(p, "type"@)) == Some("message"@));
    assert(json::text_of(json::field(p, "role"@)) == Some(role));
    assert(json::text_of(json::field(np, "type"@)) == Some(kind));
    assert(json::text_of(json::field(np, "text"@)) == Some(t));
    assert(parse::codex_part(np, kind) == Some(t));
    let none = parse::codex_parts(Seq::<Tree>::empty(), kind);
    assert(none == Seq::<Seq<char>>::empty());
    assert(parse::codex_parts(seq![np], kind) == none.push(t));
    assert(parse::codex_text_of(Tree::Arr(seq![np]), kind) == t);
}

/// An item of an assistant message comes back.
proof fn lemma_codex_payload(b: BlockV, ts: Seq<char>)
    requires
        b matches BlockV::ToolCall { id, name, args } ==> json::reads_back(args) && json::readable(
            args,
        ),
    ensures
        rollout::codex_payload(b) matches Some(p) ==> parse::codex_msgs(json::normal(p), Some(ts))
            == carried_item(b, ts),
        rollout::codex_payload(b) is None ==> carried_item(b, ts) == Seq::<MsgV>::empty(),
{
    broadcast use {json::lemma_field_with, json::lemma_field_normal};

    words::lemma_words();
    match b {
        BlockV::Text(t) => lemma_codex_message("assistant"@, "output_text"@, t, ts),
        BlockV::Thinking(t) => {
            let part = json::empty_obj().with("type"@, Tree::Str("summary_text"@)).with(
                "text"@,
                Tree::Str(t),
            );
            lemma_one_part(part);
            let np = json::normal(part);
            let p = json::normal(rollout::codex_payload(b)->Some_0);
            assert(json::at(p, "summary"@) == Tree::Arr(seq![np]));
            assert(json::text_of(json::field(np, "text"@)) == Some(t));
            let none = parse::reasoning_parts(Seq::<Tree>::empty());
            assert(none == Seq::<Seq<char>>::empty());
            assert(parse::reasoning_parts(seq![np]) == if t.len() > 0 {
                none.push(t)
            } else {
                none
            });
            assert(parse::reasoning_of(Tree::Arr(seq![np])) =~= t);
        },
        BlockV::ToolCall { id, name, args } => {
            let arguments = json::printed(json::normal(args));
            let p = json::normal(rollout::codex_payload(b)->Some_0);
            assert(json::str_at(p, "arguments"@) == arguments);
            assert(parse::call_args(arguments) == json::normal(args));
        },
        BlockV::ToolResult { .. } => {},
    }
}

proof fn lemma_numbered_push(ps: Seq<Tree>, p: Tree, ordinal: int, ts: Seq<char>)
    ensures
        records_msgs(Harness::Codex, rollout::numbered(ps.push(p), ordinal, ts)) == records_msgs(
            Harness::Codex,
            rollout::numbered(ps, ordinal, ts),
        ) + parse::codex_msgs(json::normal(p), Some(ts)),
{
    let all = rollout::numbered(ps.push(p), ordinal, ts);
    assert(all.drop_last() =~= rollout::numbered(ps, ordinal, ts));
    lemma_codex_record(p, ordinal + ps.len(), ts);
}

proof fn lemma_block_items(blocks: Seq<BlockV>, ordinal: int, ts: Seq<char>)
    requires
        rollout::args_read(blocks),
        args_portable(blocks, json::max_nesting()),
    ensures
        records_msgs(
            Harness::Codex,
            rollout::numbered(rollout::block_payloads(blocks), ordinal, ts),
        ) == carried_items(blocks, ts),
    decreases blocks.len(),
{
    if blocks.len() == 0 {
        assert(rollout::numbered(rollout::block_payloads(blocks), ordinal, ts) =~= Seq::empty());
    } else {
        let before = blocks.drop_last();
        assert forall|j: int| 0 <= j < before.len() implies #[trigger] before[j] == blocks[j] by {}
        assert(rollout::args_read(before));
        assert(args_portable(before, json::max_nesting()));
        lemma_block_items(before, ordinal, ts);
        assert(blocks.last() == blocks[blocks.len() - 1]);
        lemma_codex_payload(blocks.last(), ts);
        match rollout::codex_payload(blocks.last()) {
            Some(p) => {
                lemma_numbered_push(rollout::block_payloads(before), p, ordinal, ts);
            },
            None => {
                let some = carried_items(before, ts);
                assert(some + Seq::<MsgV>::empty() =~= some);
            },
        }
    }
}

proof fn lemma_one_item(p: Tree, ordinal: int, ts: Seq<char>)
    ensures
        records_msgs(Harness::Codex, rollout::numbered(seq![p], ordinal, ts)) == parse::codex_msgs(
            json::normal(p),
            Some(ts),
        ),
{
    let none = Seq::<Tree>::empty();
    lemma_numbered_push(none, p, ordinal, ts);
    assert(none.push(p) =~= seq![p]);
    assert(rollout::numbered(none, ordinal, ts) =~= Seq::empty());
    let got = parse::codex_msgs(json::normal(p), Some(ts));
    assert(Seq::<MsgV>::empty() + got =~= got);
}

/// The items of a message come back as the message.
proof fn lemma_codex_items(m: MsgV, ordinal: int, ts: Seq<char>)
    requires
        m.role == Role::Assistant ==> rollout::args_read(m.blocks) && args_portable(
            m.blocks,
            json::max_nesting(),
        ),
    ensures
        records_msgs(
            Harness::Codex,
            rollout::numbered(rollout::codex_payloads(m), ordinal, records::stamp(m, ts)),
        ) == carried_codex(m, ts),
{
    broadcast use {json::lemma_field_with, json::lemma_field_normal};

    let at = records::stamp(m, ts);
    match m.role {
        Role::Assistant => lemma_block_items(m.blocks, ordinal, at),
        Role::User => {
            let t = records::spoken_text(m.blocks);
            lemma_one_item(rollout::codex_message("user"@, "input_text"@, t), ordinal, at);
            lemma_codex_message("user"@, "input_text"@, t, at);
        },
        Role::Tool => {
            words::lemma_words();
            let ps = rollout::result_payloads(m);
            if ps.len() == 0 {
                assert(rollout::numbered(ps, ordinal, at) =~= Seq::empty());
            } else {
                lemma_one_item(ps[0], ordinal, at);
                assert(ps =~= seq![ps[0]]);
            }
        },
    }
}

proof fn lemma_payloads_readable(m: MsgV, n: int)
    requires
        n >= 3,
    ensures
        forall|k: int|
            0 <= k < rollout::codex_payloads(m).len() ==> json::integral(
                #[trigger] rollout::codex_payloads(m)[k],
            ) && json::nested(rollout::codex_payloads(m)[k], n),
{
    if m.role == Role::Assistant {
        lemma_block_payloads_readable(m.blocks, n);
    } else if m.role == Role::User {
        lemma_message_readable("user"@, "input_text"@, records::spoken_text(m.blocks), n);
    } else {
        broadcast use {json::lemma_integral_with, json::lemma_nested_with};

        assert(json::integral(json::empty_obj()));
        assert(json::nested(json::empty_obj(), n));
    }
}

proof fn lemma_message_readable(role: Seq<char>, kind: Seq<char>, t: Seq<char>, n: int)
    requires
        n >= 3,
    ensures
        json::integral(rollout::codex_message(role, kind, t)),
        json::nested(rollout::codex_message(role, kind, t), n),
{
    broadcast use {json::lemma_integral_with, json::lemma_nested_with};

    let part = json::empty_obj().with("type"@, Tree::Str(kind)).with("text"@, Tree::Str(t));
    assert(json::integral(json::empty_obj()));
    assert(json::nested(json::empty_obj(), n - 2));
    assert(json::nested(json::empty_obj(), n));
    assert(json::integral(part) && json::nested(part, n - 2));
    lemma_items_readable(seq![part], n - 2);
}

proof fn lemma_payload_readable(b: BlockV, n: int)
    requires
        n >= 3,
    ensures
        rollout::codex_payload(b) matches Some(p) ==> json::integral(p) && json::nested(p, n),
{
    broadcast use {json::lemma_integral_with, json::lemma_nested_with};

    assert(json::integral(json::empty_obj()));
    assert(json::nested(json::empty_obj(), n));
    match b {
        BlockV::Text(t) => lemma_message_readable("assistant"@, "output_text"@, t, n),
        BlockV::Thinking(t) => {
            let part = json::empty_obj().with("type"@, Tree::Str("summary_text"@)).with(
                "text"@,
                Tree::Str(t),
            );
            assert(json::nested(json::empty_obj(), n - 2));
            assert(json::integral(part) && json::nested(part, n - 2));
            lemma_items_readable(seq![part], n - 2);
        },
        _ => {},
    }
}

proof fn lemma_block_payloads_readable(blocks: Seq<BlockV>, n: int)
    requires
        n >= 3,
    ensures
        forall|k: int|
            0 <= k < rollout::block_payloads(blocks).len() ==> json::integral(
                #[trigger] rollout::block_payloads(blocks)[k],
            ) && json::nested(rollout::block_payloads(blocks)[k], n),
    decreases blocks.len(),
{
    if blocks.len() > 0 {
        lemma_block_payloads_readable(blocks.drop_last(), n);
        lemma_payload_readable(blocks.last(), n);
        let some = rollout::block_payloads(blocks.drop_last());
        let all = rollout::block_payloads(blocks);
        assert forall|k: int| 0 <= k < all.len() implies json::integral(#[trigger] all[k])
            && json::nested(all[k], n) by {
            if k < some.len() {
                assert(all[k] == some[k]);
            }
        }
    }
}

proof fn lemma_rollout(w: Setting, msgs: Seq<MsgV>, i: int, ordinal: int)
    requires
        0 <= i <= msgs.len(),
        portable(Harness::Codex, msgs),
        rollout::all_args_read(msgs),
    ensures
        records_msgs(Harness::Codex, rollout::codex_records(w, msgs, i, ordinal))
            == carried_rollout(msgs, i, w.ts),
        all_readable(rollout::codex_records(w, msgs, i, ordinal)),
    decreases msgs.len() - i,
{
    if i < msgs.len() {
        let m = msgs[i];
        let ps = rollout::codex_payloads(m);
        let at = records::stamp(m, w.ts);
        let first = rollout::numbered(ps, ordinal, at);
        let rest = rollout::codex_records(w, msgs, i + 1, ordinal + ps.len());
        lemma_rollout(w, msgs, i + 1, ordinal + ps.len());
        lemma_codex_items(m, ordinal, w.ts);
        lemma_records_add(Harness::Codex, first, rest);
        lemma_payloads_readable(m, 126);
        let all = rollout::codex_records(w, msgs, i, ordinal);
        assert forall|j: int| 0 <= j < all.len() implies #[trigger] all[j] is Obj && json::readable(
            all[j],
        ) by {
            broadcast use {json::lemma_integral_with, json::lemma_nested_with};

            assert(json::integral(json::empty_obj()));
            assert(json::nested(json::empty_obj(), 127));
            if j < first.len() {
                assert(all[j] == rollout::codex_record(ps[j], ordinal + j, at));
                assert(json::integral(ps[j]));
            } else {
                assert(all[j] == rest[j - first.len()]);
            }
        }
    }
}

/// The records before the messages tell of no compaction.
proof fn lemma_head_whole(h: Harness, w: Setting)
    ensures
        forall|k: int|
            0 <= k < draft::head_records(h, w).len() ==> !history::is_compaction(
                h,
                json::normal(#[trigger] draft::head_records(h, w)[k]),
            ),
{
    broadcast use {json::lemma_field_with, json::lemma_field_normal};

    words::lemma_words();
}

/// The records before the messages read back, and give no messages.
proof fn lemma_head(h: Harness, w: Setting)
    ensures
        records_msgs(h, draft::head_records(h, w)) == Seq::<MsgV>::empty(),
        all_readable(draft::head_records(h, w)),
{
    broadcast use {
        json::lemma_field_with,
        json::lemma_field_normal,
        json::lemma_integral_with,
        json::lemma_nested_with,
    };

    words::lemma_words();
    let head = draft::head_records(h, w);
    assert(json::integral(json::empty_obj()));
    assert(json::nested(json::empty_obj(), 127));
    assert(json::nested(json::empty_obj(), 126));
    match h {
        Harness::Factory => lemma_records_one(h, draft::factory_start(w)),
        Harness::Claude => {},
        Harness::Codex => {
            let meta = draft::codex_meta(w);
            lemma_records_one(h, meta);
            assert(json::readable(meta));
        },
        Harness::Pi => lemma_records_one(h, draft::pi_header(w)),
        Harness::Omp => {
            let title = slot::full_slot(w.title, w.ts);
            lemma_records_add(h, seq![title], seq![draft::pi_header(w)]);
            lemma_records_one(h, title);
            lemma_records_one(h, draft::pi_header(w));
            assert(head =~= seq![title] + seq![draft::pi_header(w)]);
            assert(json::readable(title));
            assert(Seq::<MsgV>::empty() + Seq::<MsgV>::empty() =~= Seq::<MsgV>::empty());
        },
    }
}

/// The messages that a session of `h` gives back when `msgs` were written to it.
pub open spec fn carried(h: Harness, msgs: Seq<MsgV>, ts: Seq<char>) -> Seq<MsgV> {
    match h {
        Harness::Factory | Harness::Claude => carried_turns(msgs, 0, ts),
        Harness::Codex => carried_rollout(msgs, 0, ts),
        Harness::Pi | Harness::Omp => carried_entries(msgs, entries::calls_of(msgs), 0, ts),
    }
}

/// Reading a written session gives the messages it carries.
pub proof fn lemma_roundtrip(h: Harness, w: Setting, msgs: Seq<MsgV>, lines: Seq<Seq<char>>)
    requires
        records::are_lines(lines, draft::session_records(h, w, msgs)),
        h == Harness::Codex ==> rollout::all_args_read(msgs),
        portable(h, msgs),
    ensures
        history::file_msgs(h, lines) == carried(h, msgs, w.ts),
{
    let head = draft::head_records(h, w);
    let rest = draft::message_records(h, w, msgs);
    lemma_head(h, w);
    match h {
        Harness::Factory | Harness::Claude => {
            lemma_turns(h, w, msgs, 0, 0);
            lemma_turns_readable(h, w, msgs, 0, 0);
            lemma_turns_speak(h, w, msgs, 0, 0);
        },
        Harness::Codex => {
            lemma_rollout(w, msgs, 0, 1);
            lemma_rollout_speaks(w, msgs, 0, 1);
        },
        Harness::Pi | Harness::Omp => {
            lemma_entries(h, w, msgs, entries::calls_of(msgs), 0, 0);
            lemma_entries_speak(h, w, msgs, entries::calls_of(msgs), 0, 0);
        },
    }
    lemma_records_add(h, head, rest);
    let all = head + rest;
    assert forall|j: int| 0 <= j < all.len() implies #[trigger] all[j] is Obj && json::readable(
        all[j],
    ) by {
        if j < head.len() {
            assert(all[j] == head[j]);
        } else {
            assert(all[j] == rest[j - head.len()]);
        }
    }
    lemma_file_reads(h, lines, all);
    lemma_head_whole(h, w);
    assert forall|k: int| 0 <= k < all.len() implies !history::is_compaction(
        h,
        json::normal(#[trigger] all[k]),
    ) by {
        words::lemma_words();
        if k < head.len() {
            assert(all[k] == head[k]);
        } else {
            assert(all[k] == rest[k - head.len()]);
            assert(speaks(h, w, rest[k - head.len()]));
        }
    }
    lemma_whole(h, all);
    assert(Seq::<MsgV>::empty() + records_msgs(h, rest) =~= records_msgs(h, rest));
}

/// A block that comes back as it is.
pub open spec fn native_block(b: BlockV) -> bool {
    match b {
        BlockV::Text(t) => true,
        BlockV::Thinking(t) => t.len() > 0,
        BlockV::ToolCall { id, name, args } => json::normal(args) == args,
        BlockV::ToolResult { .. } => false,
    }
}

/// A message in the shape that a session of `h` holds it in.
pub open spec fn native_msg(h: Harness, m: MsgV) -> bool {
    &&& m.ts is Some
    &&& match m.role {
        Role::Assistant => {
            &&& m.blocks.len() > 0
            &&& forall|j: int| 0 <= j < m.blocks.len() ==> native_block(#[trigger] m.blocks[j])
            &&& h == Harness::Codex ==> m.blocks.len() == 1 && !parse::is_blank(m.blocks[0])
        },
        Role::User => {
            &&& m.blocks.len() == 1
            &&& m.blocks[0] matches BlockV::Text(t) && if h == Harness::Codex {
                t.len() > 0
            } else {
                !parse::boilerplate(t)
            }
        },
        Role::Tool => {
            &&& m.blocks.len() == 1
            &&& m.blocks[0] matches BlockV::ToolResult { call_id, name, content, is_error } && (
            name is Some <==> (h == Harness::Pi || h == Harness::Omp)) && (h == Harness::Codex
                ==> !is_error)
        },
    }
}

/// Messages in the shape that a session of `h` holds them in. Factory and CL keep one
/// timestamp for a run of tool results.
pub open spec fn native(h: Harness, msgs: Seq<MsgV>) -> bool {
    &&& forall|i: int| 0 <= i < msgs.len() ==> native_msg(h, #[trigger] msgs[i])
    &&& (h == Harness::Factory || h == Harness::Claude) ==> forall|i: int, j: int|
        0 <= i && j == i + 1 && j < msgs.len() && (#[trigger] msgs[i]).role == Role::Tool && (
        #[trigger] msgs[j]).role == Role::Tool ==> msgs[i].ts == msgs[j].ts
}

proof fn lemma_blocks_kept(blocks: Seq<BlockV>)
    requires
        forall|j: int| 0 <= j < blocks.len() ==> native_block(#[trigger] blocks[j]),
    ensures
        carried_blocks(blocks) == blocks,
    decreases blocks.len(),
{
    if blocks.len() > 0 {
        let before = blocks.drop_last();
        assert forall|j: int| 0 <= j < before.len() implies native_block(#[trigger] before[j]) by {
            assert(before[j] == blocks[j]);
        }
        lemma_blocks_kept(before);
        assert(native_block(blocks[blocks.len() - 1]));
        assert(before.push(blocks.last()) =~= blocks);
    }
}

proof fn lemma_text_kept(blocks: Seq<BlockV>, t: Seq<char>)
    requires
        blocks.len() == 1,
        blocks[0] == BlockV::Text(t),
    ensures
        records::spoken_text(blocks) == t,
        blocks == seq![BlockV::Text(t)],
{
    assert(blocks =~= seq![BlockV::Text(t)]);
    assert(blocks.drop_last() =~= Seq::<BlockV>::empty());
    assert(records::texts_of(Seq::<BlockV>::empty()) == Seq::<Seq<char>>::empty());
    assert(records::texts_of(blocks) == Seq::<Seq<char>>::empty().push(t));
}

proof fn lemma_run_kept(h: Harness, msgs: Seq<MsgV>, i: int, j: int)
    requires
        h == Harness::Factory || h == Harness::Claude,
        native(h, msgs),
        0 <= i < j <= turns::run_end(msgs, i) <= msgs.len(),
        forall|k: int| i <= k < turns::run_end(msgs, i) ==> (#[trigger] msgs[k]).role == Role::Tool,
    ensures
        carried_results(msgs, i, j, msgs[i].ts->Some_0) == msgs.subrange(i, j),
        msgs[j - 1].ts == msgs[i].ts,
    decreases j - i,
{
    let m = msgs[j - 1];
    let ts = msgs[i].ts->Some_0;
    assert(native_msg(h, m));
    assert(native_msg(h, msgs[i]));
    if i + 1 < j {
        lemma_run_kept(h, msgs, i, j - 1);
        assert(msgs[j - 2].role == Role::Tool && msgs[j - 1].role == Role::Tool);
    } else {
        assert(carried_results(msgs, i, i, ts) == Seq::<MsgV>::empty());
    }
    match m.blocks[0] {
        BlockV::ToolResult { call_id, name, content, is_error } => {
            let back = MsgV {
                role: Role::Tool,
                blocks: seq![BlockV::ToolResult { call_id, name: None, content, is_error }],
                ts: Some(ts),
            };
            assert(back.blocks =~= m.blocks);
            assert(back == m);
            assert(msgs.subrange(i, j - 1).push(m) =~= msgs.subrange(i, j));
        },
        _ => {},
    }
}

proof fn lemma_turns_kept(h: Harness, msgs: Seq<MsgV>, i: int, ts: Seq<char>)
    requires
        h == Harness::Factory || h == Harness::Claude,
        native(h, msgs),
        0 <= i <= msgs.len(),
    ensures
        carried_turns(msgs, i, ts) == msgs.skip(i),
    decreases msgs.len() - i,
{
    if i < msgs.len() {
        let m = msgs[i];
        let next = turns::turn_end(msgs, i);
        assert(native_msg(h, m));
        turns::lemma_turn_end(msgs, i);
        lemma_turns_kept(h, msgs, next, ts);
        match m.role {
            Role::Assistant => {
                lemma_blocks_kept(m.blocks);
                assert(carried_turn(msgs, i, ts) =~= msgs.subrange(i, next));
            },
            Role::User => {
                lemma_text_kept(m.blocks, m.blocks[0]->Text_0);
                assert(carried_turn(msgs, i, ts) =~= msgs.subrange(i, next));
            },
            Role::Tool => {
                lemma_run_kept(h, msgs, i, next);
            },
        }
        assert(msgs.subrange(i, next) + msgs.skip(next) =~= msgs.skip(i));
    } else {
        assert(msgs.skip(i) =~= Seq::empty());
    }
}

proof fn lemma_entries_kept(
    h: Harness,
    msgs: Seq<MsgV>,
    calls: Seq<entries::Call>,
    i: int,
    ts: Seq<char>,
)
    requires
        h == Harness::Pi || h == Harness::Omp,
        native(h, msgs),
        0 <= i <= msgs.len(),
    ensures
        carried_entries(msgs, calls, i, ts) == msgs.skip(i),
    decreases msgs.len() - i,
{
    if i < msgs.len() {
        let m = msgs[i];
        assert(native_msg(h, m));
        lemma_entries_kept(h, msgs, calls, i + 1, ts);
        match m.role {
            Role::Assistant => lemma_blocks_kept(m.blocks),
            Role::User => lemma_text_kept(m.blocks, m.blocks[0]->Text_0),
            Role::Tool => {
                assert(carried_result(m, calls, m.ts->Some_0)[0].blocks =~= m.blocks);
            },
        }
        assert(carried_entry(m, calls, ts) =~= seq![m]);
        assert(seq![m] + msgs.skip(i + 1) =~= msgs.skip(i));
    } else {
        assert(msgs.skip(i) =~= Seq::empty());
    }
}

proof fn lemma_rollout_kept(msgs: Seq<MsgV>, i: int, ts: Seq<char>)
    requires
        native(Harness::Codex, msgs),
        0 <= i <= msgs.len(),
    ensures
        carried_rollout(msgs, i, ts) == msgs.skip(i),
    decreases msgs.len() - i,
{
    if i < msgs.len() {
        let m = msgs[i];
        assert(native_msg(Harness::Codex, m));
        lemma_rollout_kept(msgs, i + 1, ts);
        match m.role {
            Role::Assistant => {
                let at = m.ts->Some_0;
                let none = Seq::<BlockV>::empty();
                assert(native_block(m.blocks[0]));
                assert(m.blocks.drop_last() =~= none);
                assert(carried_items(none, at) == Seq::<MsgV>::empty());
                assert(carried_items(m.blocks, at) =~= carried_item(m.blocks[0], at));
                assert(carried_item(m.blocks[0], at)[0].blocks =~= m.blocks);
            },
            Role::User => lemma_text_kept(m.blocks, m.blocks[0]->Text_0),
            Role::Tool => {
                assert(carried_output(m, m.ts->Some_0)[0].blocks =~= m.blocks);
            },
        }
        assert(carried_codex(m, ts) =~= seq![m]);
        assert(seq![m] + msgs.skip(i + 1) =~= msgs.skip(i));
    } else {
        assert(msgs.skip(i) =~= Seq::empty());
    }
}

/// Messages in a harness' own shape come back from a session of that harness unchanged.
pub proof fn lemma_native_kept(h: Harness, msgs: Seq<MsgV>, ts: Seq<char>)
    requires
        native(h, msgs),
    ensures
        carried(h, msgs, ts) == msgs,
{
    match h {
        Harness::Factory | Harness::Claude => lemma_turns_kept(h, msgs, 0, ts),
        Harness::Codex => lemma_rollout_kept(msgs, 0, ts),
        Harness::Pi | Harness::Omp => lemma_entries_kept(
            h,
            msgs,
            entries::calls_of(msgs),
            0,
            ts,
        ),
    }
    assert(msgs.skip(0) =~= msgs);
}

/// What records say of a session when their lines are read.
pub open spec fn sum_written(h: Harness, recs: Seq<Tree>) -> SumV
    decreases recs.len(),
{
    if recs.len() == 0 {
        summary::unknown()
    } else {
        summary::step(h, sum_written(h, recs.drop_last()), json::normal(recs.last()))
    }
}

proof fn lemma_summary_reads(h: Harness, lines: Seq<Seq<char>>, recs: Seq<Tree>)
    requires
        records::are_lines(lines, recs),
        all_readable(recs),
    ensures
        summary::sum_lines(h, lines) == sum_written(h, recs),
    decreases recs.len(),
{
    if recs.len() > 0 {
        let n = recs.len() - 1;
        let before = recs.drop_last();
        let lines_before = lines.drop_last();
        assert forall|k: int| 0 <= k < before.len() implies #[trigger] lines_before[k]
            == records::line_of(before[k]) && json::reads_back(before[k]) by {
            assert(lines[k] == records::line_of(recs[k]));
        }
        assert forall|k: int| 0 <= k < before.len() implies #[trigger] before[k] is Obj
            && json::readable(before[k]) by {
            assert(recs[k] is Obj);
        }
        lemma_summary_reads(h, lines_before, before);
        assert(lines[n] == records::line_of(recs[n]));
        assert(recs[n] is Obj);
        lemma_line_reads(recs[n]);
        let some = history::file_records(lines_before);
        let v = json::normal(recs[n]);
        assert(some.push(v).drop_last() =~= some);
    }
}

/// A record of a message, as far as a summary is concerned.
spec fn speaks(h: Harness, w: Setting, r: Tree) -> bool {
    let v = json::normal(r);
    match h {
        Harness::Claude => json::str_at(v, "cwd"@) == w.cwd && !json::is_true(
            json::field(v, "isSidechain"@),
        ) && json::str_at(v, "type"@) != "system"@,
        Harness::Codex => json::str_at(v, "type"@) == "response_item"@,
        _ => json::str_at(v, "type"@) == "message"@,
    }
}

proof fn lemma_turns_speak(h: Harness, w: Setting, msgs: Seq<MsgV>, i: int, k: int)
    requires
        h == Harness::Factory || h == Harness::Claude,
        0 <= i <= msgs.len(),
    ensures
        forall|j: int|
            0 <= j < turns::turn_records(h, w, msgs, i, k).len() ==> speaks(
                h,
                w,
                #[trigger] turns::turn_records(h, w, msgs, i, k)[j],
            ),
        i < msgs.len() ==> turns::turn_records(h, w, msgs, i, k).len() > 0,
    decreases msgs.len() - i,
{
    if i < msgs.len() {
        turns::lemma_turn_end(msgs, i);
        let next = turns::turn_end(msgs, i);
        lemma_turns_speak(h, w, msgs, next, k + 1);
        let rest = turns::turn_records(h, w, msgs, next, k + 1);
        let all = turns::turn_records(h, w, msgs, i, k);
        assert forall|j: int| 0 <= j < all.len() implies speaks(h, w, #[trigger] all[j]) by {
            if j > 0 {
                assert(all[j] == rest[j - 1]);
            } else {
                broadcast use {json::lemma_field_with, json::lemma_field_normal};

                words::lemma_words();
                assert(all[0] == turns::turn_record(h, w, msgs, i, k));
            }
        }
    }
}

proof fn lemma_entries_speak(
    h: Harness,
    w: Setting,
    msgs: Seq<MsgV>,
    calls: Seq<entries::Call>,
    i: int,
    k: int,
)
    requires
        h == Harness::Pi || h == Harness::Omp,
        0 <= i <= msgs.len(),
    ensures
        forall|j: int|
            0 <= j < entries::pi_records(w, msgs, calls, i, k).len() ==> speaks(
                h,
                w,
                #[trigger] entries::pi_records(w, msgs, calls, i, k)[j],
            ),
    decreases msgs.len() - i,
{
    if i < msgs.len() {
        match entries::pi_message(w.model, calls, msgs[i]) {
            Some(message) => {
                lemma_entries_speak(h, w, msgs, calls, i + 1, k + 1);
                let rest = entries::pi_records(w, msgs, calls, i + 1, k + 1);
                let all = entries::pi_records(w, msgs, calls, i, k);
                assert forall|j: int| 0 <= j < all.len() implies speaks(
                    h,
                    w,
                    #[trigger] all[j],
                ) by {
                    if j > 0 {
                        assert(all[j] == rest[j - 1]);
                    } else {
                        broadcast use {json::lemma_field_with, json::lemma_field_normal};

                        words::lemma_words();
                        assert(all[0] == entries::pi_record(w, msgs[i], message, k));
                    }
                }
            },
            None => {
                lemma_entries_speak(h, w, msgs, calls, i + 1, k);
                assert(entries::pi_records(w, msgs, calls, i, k) == entries::pi_records(
                    w,
                    msgs,
                    calls,
                    i + 1,
                    k,
                ));
            },
        }
    }
}

proof fn lemma_rollout_speaks(w: Setting, msgs: Seq<MsgV>, i: int, ordinal: int)
    requires
        0 <= i <= msgs.len(),
    ensures
        forall|j: int|
            0 <= j < rollout::codex_records(w, msgs, i, ordinal).len() ==> speaks(
                Harness::Codex,
                w,
                #[trigger] rollout::codex_records(w, msgs, i, ordinal)[j],
            ),
    decreases msgs.len() - i,
{
    if i < msgs.len() {
        let ps = rollout::codex_payloads(msgs[i]);
        let at = records::stamp(msgs[i], w.ts);
        lemma_rollout_speaks(w, msgs, i + 1, ordinal + ps.len());
        let first = rollout::numbered(ps, ordinal, at);
        let rest = rollout::codex_records(w, msgs, i + 1, ordinal + ps.len());
        let all = rollout::codex_records(w, msgs, i, ordinal);
        assert forall|j: int| 0 <= j < all.len() implies speaks(
            Harness::Codex,
            w,
            #[trigger] all[j],
        ) by {
            if j < first.len() {
                broadcast use {json::lemma_field_with, json::lemma_field_normal};

                words::lemma_words();
                assert(all[j] == rollout::codex_record(ps[j], ordinal + j, at));
            } else {
                assert(all[j] == rest[j - first.len()]);
            }
        }
    }
}

/// The records of messages change neither the id nor the directory that a summary has read.
proof fn lemma_sum_kept(h: Harness, w: Setting, head: Seq<Tree>, rest: Seq<Tree>)
    requires
        forall|j: int| 0 <= j < rest.len() ==> speaks(h, w, #[trigger] rest[j]),
    ensures
        sum_written(h, head + rest).id == sum_written(h, head).id,
        h != Harness::Claude ==> sum_written(h, head + rest).cwd == sum_written(h, head).cwd,
        h == Harness::Claude && head.len() == 0 && rest.len() > 0 ==> sum_written(
            h,
            head + rest,
        ).cwd == w.cwd,
    decreases rest.len(),
{
    if rest.len() == 0 {
        assert(head + rest =~= head);
    } else {
        let before = rest.drop_last();
        assert forall|j: int| 0 <= j < before.len() implies speaks(h, w, #[trigger] before[j]) by {
            assert(before[j] == rest[j]);
        }
        lemma_sum_kept(h, w, head, before);
        assert((head + rest).drop_last() =~= head + before);
        assert(speaks(h, w, rest[rest.len() - 1]));
        words::lemma_words();
        if before.len() == 0 {
            assert(head + before =~= head);
        }
    }
}

/// The records before the messages give the id and the working directory.
proof fn lemma_head_sum(h: Harness, w: Setting)
    ensures
        sum_written(h, draft::head_records(h, w)).id == if h == Harness::Claude {
            Seq::empty()
        } else {
            w.id
        },
        sum_written(h, draft::head_records(h, w)).cwd == if h == Harness::Claude {
            Seq::empty()
        } else {
            w.cwd
        },
{
    broadcast use {json::lemma_field_with, json::lemma_field_normal};

    words::lemma_words();
    let head = draft::head_records(h, w);
    assert(sum_written(h, Seq::empty()) == summary::unknown());
    match h {
        Harness::Claude => {
            assert(head =~= Seq::empty());
        },
        Harness::Omp => {
            let title = slot::full_slot(w.title, w.ts);
            assert(head.drop_last() =~= seq![title]);
            assert(seq![title].drop_last() =~= Seq::<Tree>::empty());
        },
        _ => {
            assert(head.drop_last() =~= Seq::<Tree>::empty());
        },
    }
}

/// The summary of a written session has the id and the working directory it was written with.
pub proof fn lemma_summary(h: Harness, w: Setting, msgs: Seq<MsgV>, lines: Seq<Seq<char>>)
    requires
        records::are_lines(lines, draft::session_records(h, w, msgs)),
        h == Harness::Codex ==> rollout::all_args_read(msgs),
        portable(h, msgs),
    ensures
        summary::sum_lines(h, lines).id == if h == Harness::Claude {
            Seq::empty()
        } else {
            w.id
        },
        h != Harness::Claude || msgs.len() > 0 ==> summary::sum_lines(h, lines).cwd == w.cwd,
{
    let head = draft::head_records(h, w);
    let rest = draft::message_records(h, w, msgs);
    let all = head + rest;
    lemma_head(h, w);
    match h {
        Harness::Factory | Harness::Claude => {
            lemma_turns_readable(h, w, msgs, 0, 0);
            lemma_turns_speak(h, w, msgs, 0, 0);
        },
        Harness::Codex => {
            lemma_rollout(w, msgs, 0, 1);
            lemma_rollout_speaks(w, msgs, 0, 1);
        },
        Harness::Pi | Harness::Omp => {
            lemma_entries(h, w, msgs, entries::calls_of(msgs), 0, 0);
            lemma_entries_speak(h, w, msgs, entries::calls_of(msgs), 0, 0);
        },
    }
    assert forall|j: int| 0 <= j < all.len() implies #[trigger] all[j] is Obj && json::readable(
        all[j],
    ) by {
        if j < head.len() {
            assert(all[j] == head[j]);
        } else {
            assert(all[j] == rest[j - head.len()]);
        }
    }
    lemma_summary_reads(h, lines, all);
    lemma_sum_kept(h, w, head, rest);
    lemma_head_sum(h, w);
}

/// A text without a line feed.
pub open spec fn one_line(s: Seq<char>) -> bool {
    forall|i: int| 0 <= i < s.len() ==> #[trigger] s[i] != '\n'
}

proof fn lemma_escape_line(c: char)
    ensures
        one_line(json::escape(c)),
{
    text::lemma_line_feed(c);
}

proof fn lemma_escaped_line(s: Seq<char>)
    ensures
        one_line(json::escaped(s)),
    decreases s.len(),
{
    if s.len() > 0 {
        lemma_escaped_line(s.drop_last());
        lemma_escape_line(s.last());
    }
}

proof fn lemma_quoted_line(s: Seq<char>)
    ensures
        one_line(json::quoted(s)),
{
    lemma_escaped_line(s);
}

proof fn lemma_joined_line(parts: Seq<Seq<char>>)
    requires
        forall|i: int| 0 <= i < parts.len() ==> one_line(#[trigger] parts[i]),
    ensures
        one_line(text::joined(parts, seq![','])),
    decreases parts.len(),
{
    if parts.len() > 0 {
        assert(one_line(parts[parts.len() - 1]));
        assert forall|i: int| 0 <= i < parts.drop_last().len() implies one_line(
            #[trigger] parts.drop_last()[i],
        ) by {
            assert(one_line(parts[i]));
        }
        lemma_joined_line(parts.drop_last());
    }
}

proof fn lemma_printed_line(t: Tree)
    requires
        json::integral(t),
    ensures
        one_line(json::printed(t)),
    decreases t,
{
    match t {
        Tree::Null => {
            reveal_strlit("null");
        },
        Tree::Bool(b) => {
            reveal_strlit("true");
            reveal_strlit("false");
        },
        Tree::Pos(n) => text::lemma_digits(n as nat),
        Tree::Neg(n) => text::lemma_digits((-n) as nat),
        Tree::Float(d) => {},
        Tree::Str(s) => lemma_quoted_line(s),
        Tree::Arr(items) => {
            lemma_items_line(items);
            lemma_joined_line(json::printed_items(items));
        },
        Tree::Obj(fields) => {
            lemma_fields_line(fields);
            lemma_joined_line(json::printed_fields(fields));
        },
    }
}

proof fn lemma_items_line(items: Seq<Tree>)
    requires
        json::integral_items(items),
    ensures
        forall|i: int|
            0 <= i < json::printed_items(items).len() ==> one_line(
                #[trigger] json::printed_items(items)[i],
            ),
    decreases items,
{
    if items.len() > 0 {
        lemma_items_line(items.drop_last());
        lemma_printed_line(items.last());
        let some = json::printed_items(items.drop_last());
        let all = json::printed_items(items);
        assert forall|i: int| 0 <= i < all.len() implies one_line(#[trigger] all[i]) by {
            if i < some.len() {
                assert(one_line(some[i]));
            }
        }
    }
}

proof fn lemma_fields_line(fields: Seq<(Seq<char>, Tree)>)
    requires
        json::integral_fields(fields),
    ensures
        forall|i: int|
            0 <= i < json::printed_fields(fields).len() ==> one_line(
                #[trigger] json::printed_fields(fields)[i],
            ),
    decreases fields,
{
    if fields.len() > 0 {
        lemma_fields_line(fields.drop_last());
        lemma_printed_line(fields.last().1);
        lemma_quoted_line(fields.last().0);
        let some = json::printed_fields(fields.drop_last());
        let all = json::printed_fields(fields);
        assert forall|i: int| 0 <= i < all.len() implies one_line(#[trigger] all[i]) by {
            if i < some.len() {
                assert(one_line(some[i]));
            }
        }
    }
}

/// The text of a file made of `lines`.
pub open spec fn file_text(lines: Seq<Seq<char>>) -> Seq<char>
    decreases lines.len(),
{
    if lines.len() == 0 {
        Seq::empty()
    } else {
        file_text(lines.drop_last()) + lines.last()
    }
}

/// Adding a line to a text that ends with a line feed adds a piece.
proof fn lemma_split_line(a: Seq<char>, b: Seq<char>)
    requires
        one_line(b),
    ensures
        text::split_scan(a + b, '\n').done == text::split_scan(a, '\n').done,
        text::split_scan(a + b, '\n').cur == text::split_scan(a, '\n').cur + b,
    decreases b.len(),
{
    if b.len() == 0 {
        assert(a + b =~= a);
        assert(text::split_scan(a, '\n').cur + b =~= text::split_scan(a, '\n').cur);
    } else {
        let before = b.drop_last();
        assert forall|i: int| 0 <= i < before.len() implies #[trigger] before[i] != '\n' by {
            assert(before[i] == b[i]);
        }
        lemma_split_line(a, before);
        assert((a + b).drop_last() =~= a + before);
        assert((a + b).last() == b[b.len() - 1]);
        assert((text::split_scan(a, '\n').cur + before).push(b.last()) =~= text::split_scan(
            a,
            '\n',
        ).cur + b);
    }
}

/// A written file splits at its line feeds into the records' texts, one line each.
pub proof fn lemma_whole_lines(lines: Seq<Seq<char>>, recs: Seq<Tree>)
    requires
        records::are_lines(lines, recs),
        forall|k: int| 0 <= k < recs.len() ==> json::integral(#[trigger] recs[k]),
    ensures
        text::split_scan(file_text(lines), '\n').cur == Seq::<char>::empty(),
        text::split_scan(file_text(lines), '\n').done == recs.map_values(
            |t: Tree| json::printed(json::normal(t)),
        ),
    decreases recs.len(),
{
    let texts = recs.map_values(|t: Tree| json::printed(json::normal(t)));
    if recs.len() == 0 {
        assert(texts =~= Seq::empty());
    } else {
        let n = recs.len() - 1;
        let before = recs.drop_last();
        let lines_before = lines.drop_last();
        assert forall|k: int| 0 <= k < before.len() implies #[trigger] lines_before[k]
            == records::line_of(before[k]) && json::reads_back(before[k]) by {
            assert(lines[k] == records::line_of(recs[k]));
        }
        assert forall|k: int| 0 <= k < before.len() implies json::integral(
            #[trigger] before[k],
        ) by {
            assert(json::integral(recs[k]));
        }
        lemma_whole_lines(lines_before, before);
        assert(lines[n] == records::line_of(recs[n]));
        assert(json::integral(recs[n]));
        json::lemma_normal_readable(recs[n], 0);
        let p = json::printed(json::normal(recs[n]));
        lemma_printed_line(json::normal(recs[n]));
        let a = file_text(lines_before);
        lemma_split_line(a, p);
        let all = file_text(lines);
        assert(all == a + p.push('\n'));
        assert(all.drop_last() =~= a + p);
        assert(all.last() == '\n');
        assert(Seq::<char>::empty() + p =~= p);
        assert(before.map_values(|t: Tree| json::printed(json::normal(t))).push(p) =~= texts);
    }
}

} // verus!
