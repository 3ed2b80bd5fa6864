//! The live history of a session: what its harness would reload.

use crate::budget;
use crate::json;
use crate::json::{Json, Tree};
use crate::model;
use crate::model::{Block, BlockV, Harness, Msg, MsgV, Role};
use crate::parse;
use crate::records;
use crate::text;
use crate::weight;
use vstd::prelude::*;

verus! {

/// The records of a session file; a line that holds no JSON is passed over.
pub open spec fn file_records(lines: Seq<Seq<char>>) -> Seq<Tree>
    decreases lines.len(),
{
    if lines.len() == 0 {
        Seq::empty()
    } else {
        let before = file_records(lines.drop_last());
        match parse::line_record(lines.last()) {
            Some(v) => before.push(v),
            None => before,
        }
    }
}

/// The messages of records, one after the other.
pub open spec fn all_msgs(h: Harness, recs: Seq<Tree>) -> Seq<MsgV>
    decreases recs.len(),
{
    if recs.len() == 0 {
        Seq::empty()
    } else {
        all_msgs(h, recs.drop_last()) + parse::record_msgs(h, recs.last())
    }
}

/// A record that says that the harness compacted the session up to here.
pub open spec fn is_compaction(h: Harness, v: Tree) -> bool {
    let ty = json::str_at(v, "type"@);
    match h {
        Harness::Claude => ty == "system"@ && json::str_at(v, "subtype"@) == "compact_boundary"@,
        Harness::Codex => ty == "compacted"@,
        Harness::Factory => ty == "compaction_state"@,
        Harness::Pi | Harness::Omp => ty == "compaction"@,
    }
}

/// The last of the first `i` records that is a compaction.
pub open spec fn last_compaction(h: Harness, recs: Seq<Tree>, i: int) -> Option<int>
    decreases i,
{
    if i <= 0 {
        None
    } else if is_compaction(h, recs[i - 1]) {
        Some(i - 1)
    } else {
        last_compaction(h, recs, i - 1)
    }
}

/// A summary as a message from the user; none where it says nothing.
pub open spec fn summary_msg(t: Option<Seq<char>>, ts: Option<Seq<char>>) -> Seq<MsgV> {
    match t {
        Some(s) => if s.len() > 0 {
            seq![MsgV { role: Role::User, blocks: seq![BlockV::Text(s)], ts }]
        } else {
            Seq::empty()
        },
        None => Seq::empty(),
    }
}

/// The messages of a list of Codex items.
pub open spec fn items_msgs(items: Seq<Tree>, ts: Option<Seq<char>>) -> Seq<MsgV>
    decreases items.len(),
{
    if items.len() == 0 {
        Seq::empty()
    } else {
        items_msgs(items.drop_last(), ts) + parse::codex_msgs(items.last(), ts)
    }
}

/// What a compaction puts in the place of the history before it. CL writes its summary as the
/// next user message; Codex may list the items it kept.
pub open spec fn compaction_msgs(h: Harness, v: Tree) -> Seq<MsgV> {
    let ts = json::text_of(json::field(v, "timestamp"@));
    match h {
        Harness::Claude => Seq::empty(),
        Harness::Codex => {
            let payload = json::at(v, "payload"@);
            match json::field(payload, "replacement_history"@) {
                Some(Tree::Arr(items)) => items_msgs(items, ts),
                _ => summary_msg(json::text_of(json::field(payload, "message"@)), ts),
            }
        },
        Harness::Factory => summary_msg(json::text_of(json::field(v, "summaryText"@)), ts),
        Harness::Pi | Harness::Omp => summary_msg(json::text_of(json::field(v, "summary"@)), ts),
    }
}

/// The id of the first record before a compaction that is kept.
pub open spec fn first_kept(h: Harness, v: Tree) -> Option<Seq<char>> {
    match h {
        Harness::Factory => json::text_of(json::field(json::at(v, "anchorMessage"@), "id"@)),
        Harness::Pi | Harness::Omp => json::text_of(json::field(v, "firstKeptEntryId"@)),
        _ => None,
    }
}

/// The first place from `i` up to `end` of a record with that id, or `end`.
pub open spec fn place_of_id(recs: Seq<Tree>, id: Seq<char>, i: int, end: int) -> int
    decreases end - i,
{
    if i >= end || json::text_of(json::field(recs[i], "id"@)) == Some(id) {
        i
    } else {
        place_of_id(recs, id, i + 1, end)
    }
}

/// The messages before the compaction at `c` that the harness kept.
pub open spec fn kept_msgs(h: Harness, recs: Seq<Tree>, c: int) -> Seq<MsgV> {
    match first_kept(h, recs[c]) {
        Some(id) => all_msgs(h, recs.subrange(place_of_id(recs, id, 0, c), c)),
        None => Seq::empty(),
    }
}

/// The messages that a harness reloads: all of them, or from its last compaction on the summary,
/// the messages it kept, and what came after.
pub open spec fn live_msgs(h: Harness, recs: Seq<Tree>) -> Seq<MsgV> {
    match last_compaction(h, recs, recs.len() as int) {
        Some(c) => compaction_msgs(h, recs[c]) + kept_msgs(h, recs, c) + all_msgs(
            h,
            recs.skip(c + 1),
        ),
        None => all_msgs(h, recs),
    }
}

/// The messages of a session file.
pub open spec fn file_msgs(h: Harness, lines: Seq<Seq<char>>) -> Seq<MsgV> {
    live_msgs(h, file_records(lines))
}

/// A session that was never compacted is read whole.
pub proof fn lemma_uncompacted(h: Harness, recs: Seq<Tree>)
    requires
        forall|i: int| 0 <= i < recs.len() ==> !is_compaction(h, #[trigger] recs[i]),
    ensures
        live_msgs(h, recs) == all_msgs(h, recs),
{
    lemma_last_compaction(h, recs, recs.len() as int);
}

/// The last compaction is one, and none follows it.
pub(crate) proof fn lemma_last_compaction(h: Harness, recs: Seq<Tree>, i: int)
    requires
        0 <= i <= recs.len(),
    ensures
        match last_compaction(h, recs, i) {
            Some(c) => 0 <= c < i && is_compaction(h, recs[c]) && forall|k: int|
                c < k < i ==> !is_compaction(h, #[trigger] recs[k]),
            None => forall|k: int| 0 <= k < i ==> !is_compaction(h, #[trigger] recs[k]),
        },
    decreases i,
{
    if i > 0 && !is_compaction(h, recs[i - 1]) {
        lemma_last_compaction(h, recs, i - 1);
    }
}

/// Whether the records that a compaction keeps begin between `before` and `kept`.
pub open spec fn kept_from(h: Harness, v: Tree, before: Seq<Tree>, kept: Seq<Tree>) -> bool {
    match first_kept(h, v) {
        Some(id) => {
            &&& forall|i: int|
                0 <= i < before.len() ==> json::text_of(json::field(#[trigger] before[i], "id"@))
                    != Some(id)
            &&& kept.len() > 0 ==> json::text_of(json::field(kept[0], "id"@)) == Some(id)
        },
        None => kept.len() == 0,
    }
}

/// What came before a compaction and before the records it keeps is not read, whatever it was: the
/// history is the summary, the kept messages, and what followed.
pub proof fn lemma_forgotten(
    h: Harness,
    a: Seq<Tree>,
    b: Seq<Tree>,
    kept: Seq<Tree>,
    v: Tree,
    rest: Seq<Tree>,
)
    requires
        is_compaction(h, v),
        kept_from(h, v, a, kept),
        kept_from(h, v, b, kept),
        forall|i: int| 0 <= i < rest.len() ==> !is_compaction(h, #[trigger] rest[i]),
    ensures
        live_msgs(h, (a + kept).push(v) + rest) == live_msgs(h, (b + kept).push(v) + rest),
        live_msgs(h, (a + kept).push(v) + rest) == compaction_msgs(h, v) + all_msgs(h, kept)
            + all_msgs(h, rest),
{
    lemma_compacted_at(h, a, kept, v, rest);
    lemma_compacted_at(h, b, kept, v, rest);
}

proof fn lemma_place(recs: Seq<Tree>, id: Seq<char>, i: int, p: int, end: int)
    requires
        0 <= i <= p <= end,
        forall|k: int|
            i <= k < p ==> json::text_of(json::field(#[trigger] recs[k], "id"@)) != Some(id),
        p < end ==> json::text_of(json::field(recs[p], "id"@)) == Some(id),
    ensures
        place_of_id(recs, id, i, end) == p,
    decreases p - i,
{
    if i < p {
        assert(json::text_of(json::field(recs[i], "id"@)) != Some(id));
        lemma_place(recs, id, i + 1, p, end);
    }
}

proof fn lemma_compacted_at(
    h: Harness,
    a: Seq<Tree>,
    kept: Seq<Tree>,
    v: Tree,
    rest: Seq<Tree>,
)
    requires
        is_compaction(h, v),
        kept_from(h, v, a, kept),
        forall|i: int| 0 <= i < rest.len() ==> !is_compaction(h, #[trigger] rest[i]),
    ensures
        live_msgs(h, (a + kept).push(v) + rest) == compaction_msgs(h, v) + all_msgs(h, kept)
            + all_msgs(h, rest),
{
    let recs = (a + kept).push(v) + rest;
    let c = (a.len() + kept.len()) as int;
    lemma_last_compaction(h, recs, recs.len() as int);
    assert(recs[c] == v);
    let got = last_compaction(h, recs, recs.len() as int);
    match got {
        Some(k) => {
            if k > c {
                assert(recs[k] == rest[k - c - 1]);
            } else if k < c {
                assert(is_compaction(h, recs[c]));
            }
        },
        None => {
            assert(is_compaction(h, recs[c]));
        },
    }
    assert(recs.skip(c + 1) =~= rest);
    match first_kept(h, v) {
        Some(id) => {
            let p = a.len() as int;
            assert forall|k: int| 0 <= k < p implies json::text_of(
                json::field(#[trigger] recs[k], "id"@),
            ) != Some(id) by {
                assert(recs[k] == a[k]);
            }
            if p < c {
                assert(recs[p] == kept[0]);
            }
            lemma_place(recs, id, 0, p, c);
            assert(recs.subrange(p, c) =~= kept);
        },
        None => {
            assert(all_msgs(h, kept) == Seq::<MsgV>::empty());
        },
    }
}

fn compaction(h: Harness, v: &Json) -> (r: bool)
    ensures
        r == is_compaction(h, v@),
{
    let ty = v.string("type");
    match h {
        Harness::Claude => {
            let sub = v.string("subtype");
            text::same(ty.as_str(), "system") && text::same(sub.as_str(), "compact_boundary")
        },
        Harness::Codex => text::same(ty.as_str(), "compacted"),
        Harness::Factory => text::same(ty.as_str(), "compaction_state"),
        Harness::Pi | Harness::Omp => text::same(ty.as_str(), "compaction"),
    }
}

/// Adds the messages of the records from `from` up to `to`.
fn push_records(h: Harness, recs: &Vec<Json>, from: usize, to: usize, msgs: &mut Vec<Msg>)
    requires
        from <= to <= recs@.len(),
    ensures
        model::msg_views(final(msgs)@) == model::msg_views(old(msgs)@) + all_msgs(
            h,
            json::trees_of(recs@).subrange(from as int, to as int),
        ),
        weight::records_fair(h, json::trees_of(recs@).subrange(from as int, to as int)),
{
    let ghost before = model::msg_views(msgs@);
    let ghost ts = json::trees_of(recs@);
    let mut i: usize = from;
    proof {
        json::lemma_trees_of(recs@);
        assert(ts.subrange(from as int, from as int) =~= Seq::empty());
        assert(before + Seq::<MsgV>::empty() =~= before);
    }
    while i < to
        invariant
            ts == json::trees_of(recs@),
            ts.len() == recs@.len(),
            forall|k: int| 0 <= k < recs@.len() ==> #[trigger] ts[k] == json::tree_of(recs@[k]),
            from <= i <= to <= recs@.len(),
            model::msg_views(msgs@) == before + all_msgs(h, ts.subrange(from as int, i as int)),
            forall|k: int| from <= k < i ==> weight::record_fair(h, #[trigger] ts[k]),
        decreases to - i,
    {
        let ghost some = all_msgs(h, ts.subrange(from as int, i as int));
        parse::parse_record(h, &recs[i], msgs);
        proof {
            let part = ts.subrange(from as int, i + 1);
            assert(part.drop_last() =~= ts.subrange(from as int, i as int));
            assert(part.last() == ts[i as int]);
            let more = parse::record_msgs(h, ts[i as int]);
            assert((before + some) + more =~= before + (some + more));
        }
        i = i + 1;
    }
    proof {
        let part = ts.subrange(from as int, to as int);
        assert forall|k: int| 0 <= k < part.len() implies weight::record_fair(
            h,
            #[trigger] part[k],
        ) by {
            assert(part[k] == ts[from + k]);
        }
    }
}

fn push_summary(t: Option<&str>, ts: &Option<String>, msgs: &mut Vec<Msg>)
    ensures
        model::msg_views(final(msgs)@) == model::msg_views(old(msgs)@) + summary_msg(
            match t {
                Some(s) => Some(s@),
                None => None,
            },
            model::opt_view(*ts),
        ),
{
    let ghost before = model::msg_views(msgs@);
    match t {
        Some(s) => if !s.is_empty() {
            let m = parse::one(Role::User, Block::Text(s.to_owned()), ts);
            proof {
                parse::lemma_msg_push(msgs@, m);
                assert(before.push(m@) =~= before + seq![m@]);
            }
            msgs.push(m);
            return ;
        },
        None => {},
    }
    proof {
        assert(before + Seq::<MsgV>::empty() =~= before);
    }
}

fn push_items(items: &Vec<Json>, ts: &Option<String>, msgs: &mut Vec<Msg>)
    ensures
        model::msg_views(final(msgs)@) == model::msg_views(old(msgs)@) + items_msgs(
            json::trees_of(items@),
            model::opt_view(*ts),
        ),
        weight::items_fair(json::trees_of(items@)),
{
    let ghost before = model::msg_views(msgs@);
    let ghost trees = json::trees_of(items@);
    let ghost at = model::opt_view(*ts);
    let mut i: usize = 0;
    proof {
        json::lemma_trees_of(items@);
        assert(trees.take(0) =~= Seq::empty());
        assert(before + Seq::<MsgV>::empty() =~= before);
    }
    while i < items.len()
        invariant
            trees == json::trees_of(items@),
            trees.len() == items@.len(),
            forall|k: int| 0 <= k < items@.len() ==> #[trigger] trees[k] == json::tree_of(items@[k]),
            at == model::opt_view(*ts),
            i <= items@.len(),
            model::msg_views(msgs@) == before + items_msgs(trees.take(i as int), at),
            forall|k: int| 0 <= k < i ==> weight::item_fair(#[trigger] trees[k]),
        decreases items@.len() - i,
    {
        let ghost some = items_msgs(trees.take(i as int), at);
        parse::parse_codex_item(&items[i], ts, msgs);
        proof {
            assert(trees.take(i + 1).drop_last() =~= trees.take(i as int));
            assert(trees.take(i + 1).last() == trees[i as int]);
            let more = parse::codex_msgs(trees[i as int], at);
            assert((before + some) + more =~= before + (some + more));
        }
        i = i + 1;
    }
    proof {
        assert(trees.take(i as int) =~= trees);
    }
}

/// Adds what a compaction puts in the place of the history before it.
fn push_compaction(h: Harness, v: &Json, msgs: &mut Vec<Msg>)
    ensures
        model::msg_views(final(msgs)@) == model::msg_views(old(msgs)@) + compaction_msgs(h, v@),
        weight::items_fair(weight::replaced(h, v@)),
{
    let ghost before = model::msg_views(msgs@);
    let ts = match v.text("timestamp") {
        Some(t) => Some(t.to_owned()),
        None => None,
    };
    match h {
        Harness::Claude => {
            proof {
                assert(before + Seq::<MsgV>::empty() =~= before);
            }
        },
        Harness::Codex => {
            let absent = Json::Null;
            let payload = match v.get("payload") {
                Some(p) => p,
                None => &absent,
            };
            match payload.get("replacement_history") {
                Some(j) => match j {
                    Json::Arr(items) => push_items(items, &ts, msgs),
                    _ => push_summary(payload.text("message"), &ts, msgs),
                },
                None => push_summary(payload.text("message"), &ts, msgs),
            }
        },
        Harness::Factory => push_summary(v.text("summaryText"), &ts, msgs),
        Harness::Pi | Harness::Omp => push_summary(v.text("summary"), &ts, msgs),
    }
}

fn id_kept(h: Harness, v: &Json) -> (r: Option<String>)
    ensures
        model::opt_view(r) == first_kept(h, v@),
{
    let found = match h {
        Harness::Factory => match v.get("anchorMessage") {
            Some(a) => a.text("id"),
            None => None,
        },
        Harness::Pi | Harness::Omp => v.text("firstKeptEntryId"),
        _ => None,
    };
    match found {
        Some(s) => Some(s.to_owned()),
        None => None,
    }
}

fn find_id(recs: &Vec<Json>, id: &str, end: usize) -> (r: usize)
    requires
        end <= recs@.len(),
    ensures
        r == place_of_id(json::trees_of(recs@), id@, 0, end as int),
        r <= end,
{
    let ghost ts = json::trees_of(recs@);
    let mut i: usize = 0;
    proof {
        json::lemma_trees_of(recs@);
    }
    while i < end
        invariant
            ts == json::trees_of(recs@),
            forall|k: int| 0 <= k < recs@.len() ==> #[trigger] ts[k] == json::tree_of(recs@[k]),
            i <= end <= recs@.len(),
            place_of_id(ts, id@, 0, end as int) == place_of_id(ts, id@, i as int, end as int),
        decreases end - i,
    {
        let this = match recs[i].text("id") {
            Some(s) => text::same(s, id),
            None => false,
        };
        proof {
            assert(ts[i as int] == recs@[i as int]@);
        }
        if this {
            return i;
        }
        i = i + 1;
    }
    i
}

/// The messages that a harness reloads from its records.
pub fn parse_records(harness: Harness, recs: &Vec<Json>) -> (r: Vec<Msg>)
    ensures
        model::msg_views(r@) == live_msgs(harness, json::trees_of(recs@)),
        weight::live_fair(harness, json::trees_of(recs@)),
{
    let ghost ts = json::trees_of(recs@);
    let mut msgs: Vec<Msg> = Vec::new();
    let mut c: usize = recs.len();
    proof {
        json::lemma_trees_of(recs@);
        assert(model::msg_views(msgs@) =~= Seq::empty());
    }
    while c > 0 && !compaction(harness, &recs[c - 1])
        invariant
            ts == json::trees_of(recs@),
            ts.len() == recs@.len(),
            forall|k: int| 0 <= k < recs@.len() ==> #[trigger] ts[k] == json::tree_of(recs@[k]),
            c <= recs@.len(),
            last_compaction(harness, ts, ts.len() as int) == last_compaction(
                harness,
                ts,
                c as int,
            ),
        decreases c,
    {
        proof {
            assert(ts[c - 1] == recs@[c - 1]@);
        }
        c = c - 1;
    }
    if c > 0 {
        proof {
            assert(ts[c - 1] == recs@[c - 1]@);
        }
        push_compaction(harness, &recs[c - 1], &mut msgs);
        match id_kept(harness, &recs[c - 1]) {
            Some(id) => {
                let from = find_id(recs, id.as_str(), c - 1);
                push_records(harness, recs, from, c - 1, &mut msgs);
            },
            None => {},
        }
    }
    let ghost head = model::msg_views(msgs@);
    push_records(harness, recs, c, recs.len(), &mut msgs);
    proof {
        assert(ts.subrange(c as int, ts.len() as int) =~= ts.skip(c as int));
        if c > 0 {
            let put = compaction_msgs(harness, ts[c - 1]);
            let kept = kept_msgs(harness, ts, c - 1);
            let rest = all_msgs(harness, ts.skip(c as int));
            assert(Seq::<MsgV>::empty() + put =~= put);
            assert(put + Seq::<MsgV>::empty() =~= put);
            assert(head == put + kept);
        } else {
            assert(ts.skip(0) =~= ts);
            let rest = all_msgs(harness, ts);
            assert(Seq::<MsgV>::empty() + rest =~= rest);
        }
    }
    msgs
}

fn read_records(lines: &Vec<String>) -> (r: Vec<Json>)
    ensures
        json::trees_of(r@) == file_records(text::views(lines@)),
        weight::lines_fair(text::views(lines@)),
{
    let ghost vs = text::views(lines@);
    let mut r: Vec<Json> = Vec::new();
    let mut i: usize = 0;
    proof {
        assert(vs.take(0) =~= Seq::empty());
    }
    while i < lines.len()
        invariant
            vs == text::views(lines@),
            i <= lines@.len(),
            json::trees_of(r@) == file_records(vs.take(i as int)),
            forall|k: int| 0 <= k < i ==> json::fair(text::trimmed(#[trigger] vs[k])),
        decreases lines@.len() - i,
    {
        proof {
            assert(vs.take(i + 1).drop_last() =~= vs.take(i as int));
            assert(vs.take(i + 1).last() == lines@[i as int]@);
        }
        let line = text::trim(lines[i].as_str());
        match Json::parse(line.as_str()) {
            Some(v) => {
                proof {
                    records::lemma_tree_push(r@, v);
                }
                r.push(v);
            },
            None => {},
        }
        i = i + 1;
    }
    proof {
        assert(vs.take(i as int) =~= vs);
    }
    r
}

/// The canonical messages of a session file, given its lines. Where they hold no fractions they
/// take at most a token for every four bytes of the file.
pub fn parse_lines(harness: Harness, lines: &Vec<String>) -> (r: Vec<Msg>)
    ensures
        model::msg_views(r@) == file_msgs(harness, text::views(lines@)),
        weight::file_plain(harness, text::views(lines@)) ==> 4 * budget::tokens(
            model::msg_views(r@),
        ) <= weight::lines_len(text::views(lines@)),
{
    let recs = read_records(lines);
    let msgs = parse_records(harness, &recs);
    proof {
        if weight::file_plain(harness, text::views(lines@)) {
            weight::lemma_file_tokens(harness, text::views(lines@));
        }
    }
    msgs
}

} // verus!
