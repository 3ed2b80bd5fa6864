//! How the records of a written session refer to each other.

use crate::draft;
use crate::entries;
use crate::ids;
use crate::json;
use crate::json::Tree;
use crate::model;
use crate::model::{Harness, MsgV};
use crate::records;
use crate::records::Setting;
use crate::rollout;
use crate::turns;
use crate::words;
use vstd::prelude::*;

verus! {

/// The key under which a record has its id.
pub open spec fn id_key(h: Harness) -> Seq<char> {
    if h == Harness::Claude {
        "uuid"@
    } else {
        "id"@
    }
}

/// The key under which a record names the record before it.
pub open spec fn parent_key(h: Harness) -> Seq<char> {
    if h == Harness::Claude {
        "parentUuid"@
    } else {
        "parentId"@
    }
}

/// Records that form a chain: each names the one before it, the first names none. Factory leaves
/// the key out there.
pub open spec fn chained(h: Harness, recs: Seq<Tree>) -> bool {
    forall|k: int|
        0 <= k < recs.len() ==> json::field(#[trigger] recs[k], parent_key(h)) == if k > 0 {
            json::field(recs[k - 1], id_key(h))
        } else if h == Harness::Factory {
            None
        } else {
            Some(Tree::Null)
        }
}

/// The id of record `k`.
spec fn id_of(h: Harness, w: Setting, k: int) -> Seq<char> {
    match h {
        Harness::Factory | Harness::Claude => w.record_id(k),
        _ => w.short_id(k),
    }
}

/// A record with the id and the parent that its number gives.
spec fn linked(h: Harness, w: Setting, r: Tree, k: int) -> bool {
    &&& json::field(r, id_key(h)) == Some(Tree::Str(id_of(h, w, k)))
    &&& json::field(r, parent_key(h)) == if k > 0 {
        Some(Tree::Str(id_of(h, w, k - 1)))
    } else if h == Harness::Factory {
        None
    } else {
        Some(Tree::Null)
    }
}

proof fn lemma_turns_linked(h: Harness, w: Setting, msgs: Seq<MsgV>, i: int, k: int)
    requires
        h == Harness::Factory || h == Harness::Claude,
        0 <= i <= msgs.len(),
        k >= 0,
    ensures
        forall|j: int|
            0 <= j < turns::turn_records(h, w, msgs, i, k).len() ==> linked(
                h,
                w,
                #[trigger] turns::turn_records(h, w, msgs, i, k)[j],
                k + j,
            ),
    decreases msgs.len() - i,
{
    if i < msgs.len() {
        turns::lemma_turn_end(msgs, i);
        let next = turns::turn_end(msgs, i);
        lemma_turns_linked(h, w, msgs, next, k + 1);
        let rest = turns::turn_records(h, w, msgs, next, k + 1);
        let all = turns::turn_records(h, w, msgs, i, k);
        assert forall|j: int| 0 <= j < all.len() implies linked(
            h,
            w,
            #[trigger] all[j],
            k + j,
        ) by {
            if j > 0 {
                assert(all[j] == rest[j - 1]);
            } else {
                broadcast use json::lemma_field_with;

                words::lemma_words();
                assert(all[0] == turns::turn_record(h, w, msgs, i, k));
            }
        }
    }
}

proof fn lemma_entries_linked(
    h: Harness,
    w: Setting,
    msgs: Seq<MsgV>,
    calls: Seq<entries::Call>,
    i: int,
    k: int,
)
    requires
        h == Harness::Pi || h == Harness::Omp,
        0 <= i <= msgs.len(),
        k >= 0,
    ensures
        forall|j: int|
            0 <= j < entries::pi_records(w, msgs, calls, i, k).len() ==> linked(
                h,
                w,
                #[trigger] entries::pi_records(w, msgs, calls, i, k)[j],
                k + j,
            ),
    decreases msgs.len() - i,
{
    if i < msgs.len() {
        let all = entries::pi_records(w, msgs, calls, i, k);
        match entries::pi_message(w.model, calls, msgs[i]) {
            Some(message) => {
                lemma_entries_linked(h, w, msgs, calls, i + 1, k + 1);
                let rest = entries::pi_records(w, msgs, calls, i + 1, k + 1);
                assert forall|j: int| 0 <= j < all.len() implies linked(
                    h,
                    w,
                    #[trigger] all[j],
                    k + j,
                ) by {
                    if j > 0 {
                        assert(all[j] == rest[j - 1]);
                    } else {
                        broadcast use json::lemma_field_with;

                        words::lemma_words();
                        assert(all[0] == entries::pi_record(w, msgs[i], message, k));
                    }
                }
            },
            None => {
                lemma_entries_linked(h, w, msgs, calls, i + 1, k);
                assert(all == entries::pi_records(w, msgs, calls, i + 1, k));
            },
        }
    }
}

/// The records of messages form a chain from which the harness rebuilds the conversation.
pub proof fn lemma_parent_chain(h: Harness, w: Setting, msgs: Seq<MsgV>)
    requires
        h != Harness::Codex,
    ensures
        chained(h, draft::message_records(h, w, msgs)),
{
    let recs = draft::message_records(h, w, msgs);
    match h {
        Harness::Factory | Harness::Claude => lemma_turns_linked(h, w, msgs, 0, 0),
        _ => lemma_entries_linked(h, w, msgs, entries::calls_of(msgs), 0, 0),
    }
    assert forall|k: int| 0 <= k < recs.len() implies json::field(
        #[trigger] recs[k],
        parent_key(h),
    ) == if k > 0 {
        json::field(recs[k - 1], id_key(h))
    } else if h == Harness::Factory {
        None
    } else {
        Some(Tree::Null)
    } by {
        assert(linked(h, w, recs[k], 0 + k));
        if k > 0 {
            assert(linked(h, w, recs[k - 1], 0 + (k - 1)));
        }
    }
}

/// Records numbered from `n` on.
pub open spec fn counted(recs: Seq<Tree>, n: int) -> bool {
    forall|k: int|
        0 <= k < recs.len() ==> json::field(#[trigger] recs[k], "ordinal"@) == Some(
            Tree::Pos((n + k) as u64),
        )
}

proof fn lemma_rollout_counted(w: Setting, msgs: Seq<MsgV>, i: int, ordinal: int)
    requires
        0 <= i <= msgs.len(),
    ensures
        counted(rollout::codex_records(w, msgs, i, ordinal), ordinal),
    decreases msgs.len() - i,
{
    if i < msgs.len() {
        let ps = rollout::codex_payloads(msgs[i]);
        let at = records::stamp(msgs[i], w.ts);
        let first = rollout::numbered(ps, ordinal, at);
        let rest = rollout::codex_records(w, msgs, i + 1, ordinal + ps.len());
        let all = rollout::codex_records(w, msgs, i, ordinal);
        lemma_rollout_counted(w, msgs, i + 1, ordinal + ps.len());
        assert forall|k: int| 0 <= k < all.len() implies json::field(
            #[trigger] all[k],
            "ordinal"@,
        ) == Some(Tree::Pos((ordinal + k) as u64)) by {
            if k < first.len() {
                broadcast use json::lemma_field_with;

                words::lemma_words();
                assert(all[k] == rollout::codex_record(ps[k], ordinal + k, at));
            } else {
                assert(all[k] == rest[k - first.len()]);
            }
        }
    }
}

/// The records of a Codex rollout are numbered from zero, without gaps.
pub proof fn lemma_ordinals(w: Setting, msgs: Seq<MsgV>)
    ensures
        counted(draft::session_records(Harness::Codex, w, msgs), 0),
{
    broadcast use json::lemma_field_with;

    words::lemma_words();
    let rest = draft::message_records(Harness::Codex, w, msgs);
    let all = draft::session_records(Harness::Codex, w, msgs);
    lemma_rollout_counted(w, msgs, 0, 1);
    assert forall|k: int| 0 <= k < all.len() implies json::field(#[trigger] all[k], "ordinal"@)
        == Some(Tree::Pos((0 + k) as u64)) by {
        if k == 0 {
            assert(all[0] == draft::codex_meta(w));
        } else {
            assert(all[k] == rest[k - 1]);
        }
    }
}

/// Every record has an id of its own draw: a UUID for Factory and CL, eight digits for Pi and OMP.
pub proof fn lemma_record_named(h: Harness, w: Setting, msgs: Seq<MsgV>, k: int)
    requires
        h != Harness::Codex,
        0 <= k < draft::message_records(h, w, msgs).len(),
    ensures
        ({
            let r = draft::message_records(h, w, msgs)[k];
            let digits = model::hex_of(w.draws[k + 1]@);
            &&& h == Harness::Claude ==> json::field(r, "uuid"@) == Some(
                Tree::Str(ids::v4(digits)),
            )
            &&& h == Harness::Factory ==> json::field(r, "id"@) == Some(Tree::Str(ids::v4(digits)))
            &&& h == Harness::Pi || h == Harness::Omp ==> json::field(r, "id"@) == Some(
                Tree::Str(digits.take(8)),
            )
        }),
{
    let recs = draft::message_records(h, w, msgs);
    match h {
        Harness::Factory | Harness::Claude => lemma_turns_linked(h, w, msgs, 0, 0),
        _ => lemma_entries_linked(h, w, msgs, entries::calls_of(msgs), 0, 0),
    }
    assert(linked(h, w, recs[k], 0 + k));
    let digits = model::hex_of(w.draws[k + 1]@);
    model::lemma_hex_of(w.draws[k + 1]@);
    assert(ids::short(digits) =~= digits.take(8));
}

/// The chain in full: a record names the one before it, and the first one none, by null, or for
/// Factory by not naming any.
pub proof fn lemma_parents(h: Harness, w: Setting, msgs: Seq<MsgV>, k: int)
    requires
        h != Harness::Codex,
        0 <= k < draft::message_records(h, w, msgs).len(),
    ensures
        ({
            let recs = draft::message_records(h, w, msgs);
            &&& h == Harness::Claude && k > 0 ==> json::field(recs[k], "parentUuid"@)
                == json::field(recs[k - 1], "uuid"@)
            &&& h == Harness::Claude && k == 0 ==> json::field(recs[k], "parentUuid"@) == Some(
                Tree::Null,
            )
            &&& h != Harness::Claude && k > 0 ==> json::field(recs[k], "parentId"@) == json::field(
                recs[k - 1],
                "id"@,
            )
            &&& h == Harness::Factory && k == 0 ==> json::field(recs[k], "parentId"@) is None
            &&& (h == Harness::Pi || h == Harness::Omp) && k == 0 ==> json::field(
                recs[k],
                "parentId"@,
            ) == Some(Tree::Null)
        }),
{
    lemma_parent_chain(h, w, msgs);
    let recs = draft::message_records(h, w, msgs);
    assert(json::field(recs[k], parent_key(h)) == if k > 0 {
        json::field(recs[k - 1], id_key(h))
    } else if h == Harness::Factory {
        None
    } else {
        Some(Tree::Null)
    });
}

} // verus!
