//! Writing Codex rollouts: one numbered item per block.

use crate::json;
use crate::json::{Json, Tree};
use crate::model;
use crate::model::{Block, BlockV, Msg, MsgV, Role, Session};
use crate::records;
use crate::records::{Ambient, Setting};
use crate::text;
use vstd::prelude::*;

verus! {

/// A message with a single text part, as Codex writes it.
pub open spec fn codex_message(role: Seq<char>, kind: Seq<char>, t: Seq<char>) -> Tree {
    json::empty_obj().with("type"@, Tree::Str("message"@)).with("role"@, Tree::Str(role)).with(
        "content"@,
        Tree::Arr(
            seq![json::empty_obj().with("type"@, Tree::Str(kind)).with("text"@, Tree::Str(t))],
        ),
    )
}

/// A block of an assistant message as a Codex item. Arguments go in as a string of JSON.
pub open spec fn codex_payload(b: BlockV) -> Option<Tree> {
    match b {
        BlockV::Text(t) => Some(codex_message("assistant"@, "output_text"@, t)),
        BlockV::Thinking(t) => Some(
            json::empty_obj().with("type"@, Tree::Str("reasoning"@)).with(
                "summary"@,
                Tree::Arr(
                    seq![
                        json::empty_obj().with("type"@, Tree::Str("summary_text"@)).with(
                            "text"@,
                            Tree::Str(t),
                        ),
                    ],
                ),
            ).with("content"@, Tree::Null),
        ),
        BlockV::ToolCall { id, name, args } => Some(
            json::empty_obj().with("type"@, Tree::Str("function_call"@)).with(
                "name"@,
                Tree::Str(name),
            ).with("arguments"@, Tree::Str(json::printed(json::normal(args)))).with(
                "call_id"@,
                Tree::Str(id),
            ),
        ),
        BlockV::ToolResult { .. } => None,
    }
}

pub open spec fn block_payloads(blocks: Seq<BlockV>) -> Seq<Tree>
    decreases blocks.len(),
{
    if blocks.len() == 0 {
        Seq::empty()
    } else {
        let before = block_payloads(blocks.drop_last());
        match codex_payload(blocks.last()) {
            Some(p) => before.push(p),
            None => before,
        }
    }
}

/// The items of a tool message: its result, if it starts with one.
pub open spec fn result_payloads(m: MsgV) -> Seq<Tree> {
    if m.blocks.len() == 0 {
        Seq::empty()
    } else {
        match m.blocks[0] {
            BlockV::ToolResult { call_id, name, content, is_error } => seq![
                json::empty_obj().with("type"@, Tree::Str("function_call_output"@)).with(
                    "call_id"@,
                    Tree::Str(call_id),
                ).with("output"@, Tree::Str(content)),
            ],
            _ => Seq::empty(),
        }
    }
}

/// The Codex items of one message.
pub open spec fn codex_payloads(m: MsgV) -> Seq<Tree> {
    match m.role {
        Role::User => seq![codex_message("user"@, "input_text"@, records::spoken_text(m.blocks))],
        Role::Assistant => block_payloads(m.blocks),
        Role::Tool => result_payloads(m),
    }
}

pub open spec fn codex_record(payload: Tree, ordinal: int, ts: Seq<char>) -> Tree {
    json::empty_obj().with("timestamp"@, Tree::Str(ts)).with(
        "ordinal"@,
        Tree::Pos(ordinal as u64),
    ).with("type"@, Tree::Str("response_item"@)).with("payload"@, payload)
}

/// Items as records, numbered from `ordinal`.
pub open spec fn numbered(payloads: Seq<Tree>, ordinal: int, ts: Seq<char>) -> Seq<Tree> {
    Seq::new(payloads.len(), |k: int| codex_record(payloads[k], ordinal + k, ts))
}

/// The records of the messages from `i` on, numbered from `ordinal`, for Codex.
pub open spec fn codex_records(w: Setting, msgs: Seq<MsgV>, i: int, ordinal: int) -> Seq<Tree>
    decreases msgs.len() - i,
{
    if 0 <= i < msgs.len() {
        let payloads = codex_payloads(msgs[i]);
        numbered(payloads, ordinal, records::stamp(msgs[i], w.ts)) + codex_records(
            w,
            msgs,
            i + 1,
            ordinal + payloads.len(),
        )
    } else {
        Seq::empty()
    }
}

/// The text of every call's arguments reads back.
pub open spec fn args_read(blocks: Seq<BlockV>) -> bool {
    forall|j: int|
        0 <= j < blocks.len() ==> (#[trigger] blocks[j] matches BlockV::ToolCall { id, name, args }
            ==> json::reads_back(args))
}

fn codex_message_json(role: &str, kind: &str, t: &str) -> (r: Json)
    ensures
        r@ == codex_message(role@, kind@, t@),
{
    Json::object().with("type", Json::of_text("message")).with("role", Json::of_text(role)).with(
        "content",
        Json::list_of(
            Json::object().with("type", Json::of_text(kind)).with("text", Json::of_text(t)),
        ),
    )
}

fn codex_block_json(b: &Block) -> (r: Option<Json>)
    ensures
        match r {
            Some(j) => codex_payload(b@) == Some(j@),
            None => codex_payload(b@) is None,
        },
        b@ matches BlockV::ToolCall { id, name, args } ==> json::reads_back(args),
{
    match b {
        Block::Text(t) => Some(codex_message_json("assistant", "output_text", t.as_str())),
        Block::Thinking(t) => Some(
            Json::object().with("type", Json::of_text("reasoning")).with(
                "summary",
                Json::list_of(
                    Json::object().with("type", Json::of_text("summary_text")).with(
                        "text",
                        Json::of_text(t.as_str()),
                    ),
                ),
            ).with("content", Json::Null),
        ),
        Block::ToolCall { id, name, args } => {
            let arguments = args.print();
            Some(
                Json::object().with("type", Json::of_text("function_call")).with(
                    "name",
                    Json::of_text(name.as_str()),
                ).with("arguments", Json::Str(arguments)).with(
                    "call_id",
                    Json::of_text(id.as_str()),
                ),
            )
        },
        Block::ToolResult { .. } => None,
    }
}

fn codex_payload_list(m: &Msg) -> (r: Vec<Json>)
    ensures
        json::trees_of(r@) == codex_payloads(m@),
        m.role == Role::Assistant ==> args_read(m@.blocks),
{
    let mut out: Vec<Json> = Vec::new();
    match m.role {
        Role::User => {
            let t = records::user_text_of(&m.blocks);
            let p = codex_message_json("user", "input_text", t.as_str());
            proof {
                records::lemma_tree_push(out@, p);
                assert(json::trees_of(out@).push(p@) =~= seq![p@]);
            }
            out.push(p);
        },
        Role::Assistant => {
            let ghost bs = model::block_views(m.blocks@);
            let mut i: usize = 0;
            proof {
                assert(bs.take(0) =~= Seq::empty());
            }
            while i < m.blocks.len()
                invariant
                    bs == model::block_views(m.blocks@),
                    i <= m.blocks@.len(),
                    json::trees_of(out@) == block_payloads(bs.take(i as int)),
                    args_read(bs.take(i as int)),
                decreases m.blocks@.len() - i,
            {
                proof {
                    assert(bs.take(i + 1).drop_last() =~= bs.take(i as int));
                    assert(bs.take(i + 1).last() == m.blocks@[i as int]@);
                }
                match codex_block_json(&m.blocks[i]) {
                    Some(p) => {
                        proof {
                            records::lemma_tree_push(out@, p);
                        }
                        out.push(p);
                    },
                    None => {},
                }
                proof {
                    assert forall|j: int| 0 <= j < i + 1 implies (#[trigger] bs.take(
                        i + 1,
                    )[j] matches BlockV::ToolCall { id, name, args } ==> json::reads_back(args)) by {
                        if j < i {
                            assert(bs.take(i as int)[j] == bs.take(i + 1)[j]);
                        }
                    }
                }
                i = i + 1;
            }
            proof {
                assert(bs.take(i as int) =~= bs);
            }
        },
        Role::Tool => {
            if m.blocks.len() > 0 {
                proof {
                    assert(m@.blocks[0] == m.blocks@[0]@);
                }
                match &m.blocks[0] {
                    Block::ToolResult { call_id, name, content, is_error } => {
                        let p = Json::object().with(
                            "type",
                            Json::of_text("function_call_output"),
                        ).with("call_id", Json::of_text(call_id.as_str())).with(
                            "output",
                            Json::of_text(content.as_str()),
                        );
                        proof {
                            records::lemma_tree_push(out@, p);
                            assert(json::trees_of(out@).push(p@) =~= seq![p@]);
                        }
                        out.push(p);
                    },
                    _ => {},
                }
            }
        },
    }
    out
}

/// Adds the records of one message, numbered on from the lines there are.
fn put_payloads(
    payloads: Vec<Json>,
    at: &str,
    out: &mut Vec<String>,
    Ghost(recs): Ghost<Seq<Tree>>,
)
    requires
        records::are_lines(text::views(old(out)@), recs),
    ensures
        records::are_lines(
            text::views(final(out)@),
            recs + numbered(json::trees_of(payloads@), recs.len() as int, at@),
        ),
{
    let ghost ps = json::trees_of(payloads@);
    let ghost all = numbered(ps, recs.len() as int, at@);
    let mut k: usize = 0;
    proof {
        json::lemma_trees_of(payloads@);
        assert(recs + all.take(0) =~= recs);
    }
    while k < payloads.len()
        invariant
            ps == json::trees_of(payloads@),
            ps.len() == payloads@.len(),
            forall|j: int|
                0 <= j < payloads@.len() ==> #[trigger] ps[j] == json::tree_of(payloads@[j]),
            all == numbered(ps, recs.len() as int, at@),
            k <= payloads@.len(),
            records::are_lines(text::views(out@), recs + all.take(k as int)),
        decreases payloads@.len() - k,
    {
        let ordinal: usize = out.len();
        let rec = Json::object().with("timestamp", Json::of_text(at)).with(
            "ordinal",
            Json::Pos(ordinal as u64),
        ).with("type", Json::of_text("response_item")).with("payload", payloads[k].clone());
        records::put_line(out, &rec, Ghost(recs + all.take(k as int)));
        proof {
            assert(rec@ == all[k as int]);
            assert((recs + all.take(k as int)).push(rec@) =~= recs + all.take(k + 1));
        }
        k = k + 1;
    }
    proof {
        assert(all.take(k as int) =~= all);
    }
}

/// The arguments of every call that an assistant makes read back.
pub open spec fn all_args_read(msgs: Seq<MsgV>) -> bool {
    forall|i: int|
        0 <= i < msgs.len() && (#[trigger] msgs[i]).role == Role::Assistant ==> args_read(
            msgs[i].blocks,
        )
}

/// Adds the records of all messages, for Codex.
pub(crate) fn write_items(
    src: &Session,
    msgs: &Vec<Msg>,
    id: &str,
    ts: &str,
    amb: &Ambient,
    out: &mut Vec<String>,
    Ghost(head): Ghost<Seq<Tree>>,
)
    requires
        records::are_lines(text::views(old(out)@), head),
    ensures
        records::are_lines(
            text::views(final(out)@),
            head + codex_records(
                records::setting(*src, id@, ts@, *amb),
                model::msg_views(msgs@),
                0,
                head.len() as int,
            ),
        ),
        all_args_read(model::msg_views(msgs@)),
{
    let ghost w = records::setting(*src, id@, ts@, *amb);
    let ghost mv = model::msg_views(msgs@);
    let ghost all = codex_records(w, mv, 0, head.len() as int);
    let ghost mut done: Seq<Tree> = Seq::empty();
    let mut i: usize = 0;
    proof {
        assert(done + all =~= all);
        assert(head + done =~= head);
    }
    while i < msgs.len()
        invariant
            w == records::setting(*src, id@, ts@, *amb),
            mv == model::msg_views(msgs@),
            i <= msgs@.len(),
            records::are_lines(text::views(out@), head + done),
            done + codex_records(w, mv, i as int, (head.len() + done.len()) as int) == all,
            forall|j: int|
                0 <= j < i && (#[trigger] mv[j]).role == Role::Assistant ==> args_read(
                    mv[j].blocks,
                ),
        decreases msgs@.len() - i,
    {
        let m = &msgs[i];
        proof {
            assert(mv[i as int] == m@);
        }
        let at = records::stamp_of(m, ts);
        let payloads = codex_payload_list(m);
        let ghost added = numbered(
            json::trees_of(payloads@),
            (head + done).len() as int,
            at@,
        );
        put_payloads(payloads, at.as_str(), out, Ghost(head + done));
        proof {
            let rest = codex_records(
                w,
                mv,
                i + 1,
                (head.len() + done.len() + codex_payloads(mv[i as int]).len()) as int,
            );
            assert((done + added) + rest =~= done + (added + rest));
            assert((head + done) + added =~= head + (done + added));
            done = done + added;
        }
        i = i + 1;
    }
    proof {
        assert(done + Seq::<Tree>::empty() =~= done);
    }
}

} // verus!
