//! Writing Factory and CL sessions: one record per turn, tool results inside user turns.

use crate::ids;
use crate::json;
use crate::json::{Json, Tree};
use crate::model;
use crate::model::{Block, BlockV, Harness, Msg, MsgV, Role, Session};
use crate::records;
use crate::records::{Ambient, Setting};
use crate::text;
use vstd::prelude::*;

verus! {

/// Where the run of tool messages that starts at `i` ends.
pub open spec fn run_end(msgs: Seq<MsgV>, i: int) -> int
    decreases msgs.len() - i,
{
    if 0 <= i < msgs.len() && msgs[i].role == Role::Tool {
        run_end(msgs, i + 1)
    } else {
        i
    }
}

/// Where the turn that starts at `i` ends: a run of tool messages is one turn.
pub open spec fn turn_end(msgs: Seq<MsgV>, i: int) -> int {
    if msgs[i].role == Role::Tool {
        run_end(msgs, i)
    } else {
        i + 1
    }
}

pub proof fn lemma_turn_end(msgs: Seq<MsgV>, i: int)
    requires
        0 <= i < msgs.len(),
    ensures
        i < turn_end(msgs, i) <= msgs.len(),
        i <= run_end(msgs, i) <= msgs.len(),
        forall|j: int| i <= j < run_end(msgs, i) ==> (#[trigger] msgs[j]).role == Role::Tool,
    decreases msgs.len() - i,
{
    reveal_with_fuel(run_end, 2);
    if msgs[i].role == Role::Tool && i + 1 < msgs.len() {
        lemma_turn_end(msgs, i + 1);
    }
}

/// A tool result as Factory and CL write it, if the message starts with one.
pub open spec fn result_tree(m: MsgV) -> Option<Tree> {
    if m.blocks.len() == 0 {
        None
    } else {
        match m.blocks[0] {
            BlockV::ToolResult { call_id, name, content, is_error } => Some(
                json::empty_obj().with("type"@, Tree::Str("tool_result"@)).with(
                    "tool_use_id"@,
                    Tree::Str(call_id),
                ).with("is_error"@, Tree::Bool(is_error)).with("content"@, Tree::Str(content)),
            ),
            _ => None,
        }
    }
}

/// The tool results of the messages from `i` up to `j`.
pub open spec fn result_trees(msgs: Seq<MsgV>, i: int, j: int) -> Seq<Tree>
    decreases j - i,
{
    if i >= j {
        Seq::empty()
    } else {
        let before = result_trees(msgs, i, j - 1);
        match result_tree(msgs[j - 1]) {
            Some(t) => before.push(t),
            None => before,
        }
    }
}

fn result_json(m: &Msg) -> (r: Option<Json>)
    ensures
        match r {
            Some(j) => result_tree(m@) == Some(j@),
            None => result_tree(m@) is None,
        },
{
    if m.blocks.len() == 0 {
        return None;
    }
    proof {
        assert(m@.blocks[0] == m.blocks@[0]@);
    }
    match &m.blocks[0] {
        Block::ToolResult { call_id, name, content, is_error } => Some(
            Json::object().with("type", Json::of_text("tool_result")).with(
                "tool_use_id",
                Json::of_text(call_id.as_str()),
            ).with("is_error", Json::Bool(*is_error)).with(
                "content",
                Json::of_text(content.as_str()),
            ),
        ),
        _ => None,
    }
}

/// The role that Factory and CL give a turn: tool results come from the user.
pub open spec fn turn_role(m: MsgV) -> Seq<char> {
    if m.role == Role::Assistant {
        "assistant"@
    } else {
        "user"@
    }
}

/// The content of the turn that starts at `i`, as Factory and CL write it.
pub open spec fn turn_content(h: Harness, msgs: Seq<MsgV>, i: int) -> Tree {
    match msgs[i].role {
        Role::Assistant => Tree::Arr(records::native_blocks(h, msgs[i].blocks)),
        Role::User => Tree::Arr(seq![records::text_tree(records::spoken_text(msgs[i].blocks))]),
        Role::Tool => Tree::Arr(result_trees(msgs, i, run_end(msgs, i))),
    }
}

/// Factory rebuilds the conversation from a chain of parent ids. Its first record has no parent,
/// which it says by leaving the key out.
pub open spec fn factory_record(w: Setting, msgs: Seq<MsgV>, i: int, k: int) -> Tree {
    let rec = json::empty_obj().with("type"@, Tree::Str("message"@)).with(
        "id"@,
        Tree::Str(w.record_id(k)),
    ).with("timestamp"@, Tree::Str(records::stamp(msgs[i], w.ts))).with(
        "message"@,
        json::empty_obj().with("role"@, Tree::Str(turn_role(msgs[i]))).with(
            "content"@,
            turn_content(Harness::Factory, msgs, i),
        ),
    );
    if k > 0 {
        rec.with("parentId"@, Tree::Str(w.record_id(k - 1)))
    } else {
        rec
    }
}

pub open spec fn claude_record(w: Setting, msgs: Seq<MsgV>, i: int, k: int) -> Tree {
    let message = json::empty_obj().with("role"@, Tree::Str(turn_role(msgs[i]))).with(
        "content"@,
        turn_content(Harness::Claude, msgs, i),
    );
    json::empty_obj().with("type"@, Tree::Str(turn_role(msgs[i]))).with(
        "message"@,
        if msgs[i].role == Role::Assistant {
            records::with_model(message, w.model)
        } else {
            message
        },
    ).with("uuid"@, Tree::Str(w.record_id(k))).with(
        "parentUuid"@,
        records::parent_id(w.record_id(k - 1), k),
    ).with("timestamp"@, Tree::Str(records::stamp(msgs[i], w.ts))).with("sessionId"@, Tree::Str(w.id)).with(
        "cwd"@,
        Tree::Str(w.cwd),
    ).with("isSidechain"@, Tree::Bool(false)).with("userType"@, Tree::Str("external"@)).with(
        "version"@,
        Tree::Str("2.1.220"@),
    )
}

/// The record of the turn that starts at `i`, the `k`-th one, for Factory and CL.
pub open spec fn turn_record(h: Harness, w: Setting, msgs: Seq<MsgV>, i: int, k: int) -> Tree {
    if h == Harness::Claude {
        claude_record(w, msgs, i, k)
    } else {
        factory_record(w, msgs, i, k)
    }
}

/// The records of the turns from `i` on, numbered from `k`.
pub open spec fn turn_records(h: Harness, w: Setting, msgs: Seq<MsgV>, i: int, k: int) -> Seq<Tree>
    decreases msgs.len() - i,
{
    if 0 <= i < msgs.len() {
        proof {
            lemma_turn_end(msgs, i);
        }
        seq![turn_record(h, w, msgs, i, k)] + turn_records(h, w, msgs, turn_end(msgs, i), k + 1)
    } else {
        Seq::empty()
    }
}

/// The content of the turn that starts at `i`, and where the turn ends.
fn turn_json(h: Harness, msgs: &Vec<Msg>, i: usize) -> (r: (Json, usize))
    requires
        i < msgs@.len(),
    ensures
        r.0@ == turn_content(h, model::msg_views(msgs@), i as int),
        r.1 == turn_end(model::msg_views(msgs@), i as int),
        i < r.1 <= msgs@.len(),
{
    let ghost mv = model::msg_views(msgs@);
    let n: usize = msgs.len();
    let m = &msgs[i];
    proof {
        assert(mv[i as int] == m@);
        lemma_turn_end(mv, i as int);
        assert(i < n);
    }
    match m.role {
        Role::Assistant => (Json::Arr(records::native_content(h, &m.blocks)), i + 1),
        Role::User => {
            let t = records::user_text_of(&m.blocks);
            (Json::list_of(records::text_json(t.as_str())), i + 1)
        },
        Role::Tool => {
            let mut content: Vec<Json> = Vec::new();
            let mut j = i;
            while j < msgs.len() && records::is_tool(&msgs[j])
                invariant
                    i <= j <= msgs@.len(),
                    mv == model::msg_views(msgs@),
                    run_end(mv, i as int) == run_end(mv, j as int),
                    json::trees_of(content@) == result_trees(mv, i as int, j as int),
                decreases msgs@.len() - j,
            {
                proof {
                    assert(mv[j as int] == msgs@[j as int]@);
                }
                match result_json(&msgs[j]) {
                    Some(r) => {
                        proof {
                            records::lemma_tree_push(content@, r);
                        }
                        content.push(r);
                    },
                    None => {},
                }
                j = j + 1;
            }
            proof {
                if j < msgs@.len() {
                    assert(mv[j as int] == msgs@[j as int]@);
                }
            }
            (Json::Arr(content), j)
        },
    }
}

fn factory_json(
    m: &Msg,
    content: Json,
    ts: &str,
    rid: &str,
    parent: &Option<String>,
    Ghost(w): Ghost<Setting>,
    Ghost(msgs): Ghost<Seq<MsgV>>,
    Ghost(i): Ghost<int>,
    Ghost(k): Ghost<int>,
) -> (r: Json)
    requires
        msgs[i] == m@,
        content@ == turn_content(Harness::Factory, msgs, i),
        ts@ == w.ts,
        rid@ == w.record_id(k),
        k >= 0,
        model::opt_view(*parent) == if k > 0 {
            Some(w.record_id(k - 1))
        } else {
            None
        },
    ensures
        r@ == factory_record(w, msgs, i, k),
{
    let role = if records::is_assistant(m) {
        "assistant"
    } else {
        "user"
    };
    let at = records::stamp_of(m, ts);
    let rec = Json::object().with("type", Json::of_text("message")).with(
        "id",
        Json::of_text(rid),
    ).with("timestamp", Json::of_text(at.as_str())).with(
        "message",
        Json::object().with("role", Json::of_text(role)).with("content", content),
    );
    match parent {
        Some(p) => rec.with("parentId", Json::of_text(p.as_str())),
        None => rec,
    }
}

fn claude_json(
    m: &Msg,
    content: Json,
    src: &Session,
    id: &str,
    ts: &str,
    rid: &str,
    parent: &Option<String>,
    Ghost(w): Ghost<Setting>,
    Ghost(msgs): Ghost<Seq<MsgV>>,
    Ghost(i): Ghost<int>,
    Ghost(k): Ghost<int>,
) -> (r: Json)
    requires
        msgs[i] == m@,
        content@ == turn_content(Harness::Claude, msgs, i),
        id@ == w.id,
        ts@ == w.ts,
        src.cwd@ == w.cwd,
        src.model@ == w.model,
        rid@ == w.record_id(k),
        k >= 0,
        model::opt_view(*parent) == if k > 0 {
            Some(w.record_id(k - 1))
        } else {
            None
        },
    ensures
        r@ == claude_record(w, msgs, i, k),
{
    let assistant = records::is_assistant(m);
    let role = if assistant {
        "assistant"
    } else {
        "user"
    };
    let message = Json::object().with("role", Json::of_text(role)).with("content", content);
    let message = if assistant && !src.model.as_str().is_empty() {
        message.with("model", Json::of_text(src.model.as_str()))
    } else {
        message
    };
    let at = records::stamp_of(m, ts);
    Json::object().with("type", Json::of_text(role)).with("message", message).with(
        "uuid",
        Json::of_text(rid),
    ).with("parentUuid", Json::of_option(parent)).with(
        "timestamp",
        Json::of_text(at.as_str()),
    ).with("sessionId", Json::of_text(id)).with("cwd", Json::of_text(src.cwd.as_str())).with(
        "isSidechain",
        Json::Bool(false),
    ).with("userType", Json::of_text("external")).with("version", Json::of_text("2.1.220"))
}

/// Adds the records of all turns, for Factory and CL.
pub(crate) fn write_turns(
    h: Harness,
    src: &Session,
    msgs: &Vec<Msg>,
    id: &str,
    ts: &str,
    amb: &Ambient,
    out: &mut Vec<String>,
    Ghost(head): Ghost<Seq<Tree>>,
)
    requires
        h == Harness::Factory || h == Harness::Claude,
        amb.draws@.len() > msgs@.len(),
        records::are_lines(text::views(old(out)@), head),
    ensures
        records::are_lines(
            text::views(final(out)@),
            head + turn_records(h, records::setting(*src, id@, ts@, *amb), model::msg_views(msgs@), 0, 0),
        ),
{
    let ghost w = records::setting(*src, id@, ts@, *amb);
    let ghost mv = model::msg_views(msgs@);
    let ghost all = turn_records(h, w, mv, 0, 0);
    let ghost mut done: Seq<Tree> = Seq::empty();
    let mut parent: Option<String> = None;
    let mut i: usize = 0;
    let mut k: usize = 0;
    proof {
        assert(done + all =~= all);
        assert(head + done =~= head);
    }
    while i < msgs.len()
        invariant
            h == Harness::Factory || h == Harness::Claude,
            w == records::setting(*src, id@, ts@, *amb),
            mv == model::msg_views(msgs@),
            amb.draws@.len() > msgs@.len(),
            k <= i <= msgs@.len(),
            records::are_lines(text::views(out@), head + done),
            done + turn_records(h, w, mv, i as int, k as int) == all,
            model::opt_view(parent) == if k > 0 {
                Some(w.record_id(k - 1))
            } else {
                None
            },
        decreases msgs@.len() - i,
    {
        let m = &msgs[i];
        proof {
            assert(mv[i as int] == m@);
        }
        let rid = ids::uuid_v4(&amb.draws[k + 1]);
        let (content, next) = turn_json(h, msgs, i);
        let rec = match h {
            Harness::Claude => claude_json(
                m,
                content,
                src,
                id,
                ts,
                rid.as_str(),
                &parent,
                Ghost(w),
                Ghost(mv),
                Ghost(i as int),
                Ghost(k as int),
            ),
            _ => factory_json(
                m,
                content,
                ts,
                rid.as_str(),
                &parent,
                Ghost(w),
                Ghost(mv),
                Ghost(i as int),
                Ghost(k as int),
            ),
        };
        records::put_line(out, &rec, Ghost(head + done));
        proof {
            let rest = turn_records(h, w, mv, next as int, k + 1);
            assert(turn_records(h, w, mv, i as int, k as int) == seq![rec@] + rest);
            assert(done.push(rec@) + rest =~= done + (seq![rec@] + rest));
            assert((head + done).push(rec@) =~= head + done.push(rec@));
            done = done.push(rec@);
        }
        parent = Some(rid);
        i = next;
        k = k + 1;
    }
    proof {
        assert(done + Seq::<Tree>::empty() =~= done);
    }
}

} // verus!
