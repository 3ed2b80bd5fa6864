//! How small the shortest checkpoints are: a compacted session lands within its budget.

use crate::budget;
use crate::budget::Limits;
use crate::compact;
use crate::compact::Origin;
use crate::digest;
use crate::digest::{Detail, Gist};
use crate::json;
use crate::model;
use crate::model::{BlockV, Msg, MsgV, Role};
use crate::text;
use vstd::prelude::*;

verus! {

/// From this budget up, every session can be compacted to fit.
pub const LEAST_BUDGET: usize = 18_000;

/// Messages as they are in memory: their number, and that of the blocks of each, fits a `usize`.
pub open spec fn sized(msgs: Seq<MsgV>) -> bool {
    &&& msgs.len() <= usize::MAX
    &&& forall|i: int| 0 <= i < msgs.len() ==> (#[trigger] msgs[i]).blocks.len() <= usize::MAX
}

/// What a vector holds is as large as memory allows.
pub proof fn lemma_sized(msgs: &Vec<Msg>)
    ensures
        sized(model::msg_views(msgs@)),
{
    let mv = model::msg_views(msgs@);
    assert(msgs.len() == msgs@.len());
    assert forall|i: int| 0 <= i < mv.len() implies (#[trigger] mv[i]).blocks.len()
        <= usize::MAX by {
        let m = msgs@[i];
        assert(m.blocks.len() == m.blocks@.len());
        assert(mv[i] == m@);
    }
}

/// A text takes at most four bytes for each character.
proof fn lemma_blen_upper(s: Seq<char>)
    ensures
        text::blen(s) <= 4 * s.len(),
    decreases s.len(),
{
    if s.len() == 0 {
        assert(s =~= Seq::empty());
        text::lemma_blen_empty();
    } else {
        text::lemma_blen_first(s);
        lemma_blen_upper(s.drop_first());
    }
}

/// A message of one short text takes few tokens.
proof fn lemma_text_tokens(role: Role, t: Seq<char>, ts: Option<Seq<char>>)
    ensures
        budget::msg_tokens(compact::text_msg(role, t, ts)) <= 4 + t.len(),
{
    let blocks = seq![BlockV::Text(t)];
    lemma_blen_upper(t);
    assert(blocks.drop_last() =~= Seq::<BlockV>::empty());
    assert(budget::blocks_bytes(Seq::<BlockV>::empty()) == 0);
    assert(budget::blocks_bytes(blocks) == text::blen(t));
}

/// Numbers below ten to the 39th take at most 39 digits.
proof fn lemma_wide(n: nat)
    requires
        n <= usize::MAX * usize::MAX,
    ensures
        text::decimal(n).len() <= 39,
{
    assert(usize::MAX * usize::MAX <= 0xffff_ffff_ffff_ffff * 0xffff_ffff_ffff_ffff)
        by (nonlinear_arith)
        requires
            usize::MAX <= 0xffff_ffff_ffff_ffff,
    ;
    reveal_with_fuel(text::pow10, 40);
    text::lemma_decimal(n, 39);
}

proof fn lemma_joined_len(parts: Seq<Seq<char>>, sep: Seq<char>, each: nat)
    requires
        forall|i: int| 0 <= i < parts.len() ==> (#[trigger] parts[i]).len() <= each,
    ensures
        text::joined(parts, sep).len() <= parts.len() * (each + sep.len()),
    decreases parts.len(),
{
    let size = (each + sep.len()) as int;
    if parts.len() == 1 {
        assert(parts[0].len() <= each);
        assert(parts.len() * size == size) by (nonlinear_arith)
            requires
                parts.len() == 1,
        ;
    } else if parts.len() > 1 {
        let before = parts.drop_last();
        assert forall|i: int| 0 <= i < before.len() implies (#[trigger] before[i]).len()
            <= each by {
            assert(before[i] == parts[i]);
        }
        lemma_joined_len(before, sep, each);
        assert(parts[parts.len() - 1].len() <= each);
        assert(parts.len() * size == before.len() * size + size) by (nonlinear_arith)
            requires
                parts.len() == before.len() + 1,
        ;
    }
}

proof fn lemma_bullets_len(items: Seq<Seq<char>>, len: nat)
    ensures
        digest::bullets(items, len).len() <= items.len() * (len + 4),
    decreases items.len(),
{
    if items.len() > 0 {
        let before = items.drop_last();
        lemma_bullets_len(before, len);
        reveal_strlit("- ");
        reveal_strlit("\n");
        assert(items.len() * (len + 4) == before.len() * (len + 4) + (len + 4))
            by (nonlinear_arith)
            requires
                items.len() == before.len() + 1,
        ;
    }
}

/// The requests of the shortest digest.
proof fn lemma_requests_len(items: Seq<Seq<char>>)
    requires
        items.len() <= usize::MAX * usize::MAX,
    ensures
        digest::section_text("User requests"@, items, 2, 80).len() <= 273,
{
    let skip = digest::left_out(items.len(), 2);
    reveal_strlit("User requests");
    reveal_strlit(" (last ");
    reveal_strlit(" of ");
    reveal_strlit(")");
    reveal_strlit(":\n");
    lemma_wide(items.len());
    assert(usize::MAX * usize::MAX >= 2) by (nonlinear_arith)
        requires
            usize::MAX >= 2,
    ;
    lemma_wide(2);
    let shown = items.skip(skip);
    assert(shown.len() <= 2);
    lemma_bullets_len(shown, 80);
    assert(shown.len() * (80 + 4) <= 168) by (nonlinear_arith)
        requires
            shown.len() <= 2,
    ;
}

proof fn lemma_with_field_len(tally: Seq<digest::Count>, name: Seq<char>, n: nat)
    ensures
        json::with_field(tally, name, n).len() <= tally.len() + 1,
    decreases tally.len(),
{
    if tally.len() > 0 {
        lemma_with_field_len(tally.drop_last(), name, n);
    }
}

/// A tally has no more tools than calls, and no tool more often than there are calls.
proof fn lemma_tally_size(calls: Seq<Seq<char>>)
    ensures
        digest::tally_of(calls).len() <= calls.len(),
        forall|i: int|
            0 <= i < digest::tally_of(calls).len() ==> (#[trigger] digest::tally_of(calls)[i]).1
                <= calls.len(),
    decreases calls.len(),
{
    if calls.len() > 0 {
        let before = digest::tally_of(calls.drop_last());
        lemma_tally_size(calls.drop_last());
        let n = digest::count_in(before, calls.last()) + 1;
        lemma_lookup_bound(before, calls.last(), (calls.len() - 1) as nat);
        lemma_with_field_len(before, calls.last(), n);
        lemma_with_field_bound(before, calls.last(), n, calls.len());
    }
}

proof fn lemma_lookup_bound(tally: Seq<digest::Count>, name: Seq<char>, max: nat)
    requires
        forall|i: int| 0 <= i < tally.len() ==> (#[trigger] tally[i]).1 <= max,
    ensures
        digest::count_in(tally, name) <= max,
    decreases tally.len(),
{
    if tally.len() > 0 {
        let before = tally.drop_last();
        assert(tally[tally.len() - 1].1 <= max);
        assert forall|i: int| 0 <= i < before.len() implies (#[trigger] before[i]).1 <= max by {
            assert(before[i] == tally[i]);
        }
        lemma_lookup_bound(before, name, max);
    }
}

proof fn lemma_with_field_bound(tally: Seq<digest::Count>, name: Seq<char>, n: nat, max: nat)
    requires
        n <= max,
        forall|i: int| 0 <= i < tally.len() ==> (#[trigger] tally[i]).1 <= max,
    ensures
        forall|i: int|
            0 <= i < json::with_field(tally, name, n).len() ==> (
            #[trigger] json::with_field(tally, name, n)[i]).1 <= max,
    decreases tally.len(),
{
    if tally.len() > 0 {
        let before = tally.drop_last();
        assert(tally[tally.len() - 1].1 <= max);
        assert forall|i: int| 0 <= i < before.len() implies (#[trigger] before[i]).1 <= max by {
            assert(before[i] == tally[i]);
        }
        lemma_with_field_bound(before, name, n, max);
        let some = json::with_field(before, name, n);
        let all = json::with_field(tally, name, n);
        assert forall|i: int| 0 <= i < all.len() implies (#[trigger] all[i]).1 <= max by {
            if tally.last().0 == name {
                assert(i < before.len() ==> all[i] == before[i]);
            } else if json::key_before(tally.last().0, name) {
                assert(i < tally.len() ==> all[i] == tally[i]);
            } else {
                assert(i < some.len() ==> all[i] == some[i]);
            }
        }
    }
}

/// The tools of the shortest digest.
proof fn lemma_tools_len(calls: Seq<Seq<char>>)
    requires
        calls.len() <= usize::MAX * usize::MAX,
    ensures
        digest::few_tools_line(calls, 5, 40).len() <= 519,
{
    let tally = digest::tally_of(calls);
    reveal_strlit("Tools used (first ");
    reveal_strlit(" of ");
    reveal_strlit("): ");
    reveal_strlit("Tools used: ");
    reveal_strlit(", ");
    reveal_strlit("\n");
    reveal_strlit("×");
    lemma_tally_size(calls);
    assert(usize::MAX * usize::MAX >= 5) by (nonlinear_arith)
        requires
            usize::MAX >= 5,
    ;
    lemma_wide(5);
    lemma_wide(tally.len());
    let some = if tally.len() > 5 {
        tally.take(5)
    } else {
        tally
    };
    let shown = digest::count_texts(digest::cut_names(some, 40));
    assert forall|i: int| 0 <= i < shown.len() implies (#[trigger] shown[i]).len() <= 81 by {
        assert(some[i] == tally[i]);
        lemma_wide(tally[i].1);
    }
    lemma_joined_len(shown, ", "@, 81);
    assert(shown.len() * 83 <= 415);
}

/// The files of the shortest digest.
proof fn lemma_files_len(files: Seq<Seq<char>>)
    ensures
        digest::files_line(digest::cut_texts(files, 80), 5).len() <= 431,
{
    reveal_strlit("Files touched: ");
    reveal_strlit(", ");
    reveal_strlit("\n");
    let all = digest::cut_texts(files, 80);
    let shown = all.skip(digest::left_out(all.len(), 5));
    assert(shown.len() <= 5);
    assert forall|i: int| 0 <= i < shown.len() implies (#[trigger] shown[i]).len() <= 81 by {
        assert(shown[i] == digest::cut_text(files[i + digest::left_out(all.len(), 5)], 80));
    }
    lemma_joined_len(shown, ", "@, 81);
    assert(shown.len() * 83 <= 415);
}

/// A gist lists no more requests or calls than there are blocks.
proof fn lemma_gist_blocks(g: Gist, role: Role, blocks: Seq<BlockV>)
    ensures
        digest::gist_blocks(g, role, blocks).requests.len() <= g.requests.len() + blocks.len(),
        digest::gist_blocks(g, role, blocks).calls.len() <= g.calls.len() + blocks.len(),
    decreases blocks.len(),
{
    if blocks.len() > 0 {
        lemma_gist_blocks(g, role, blocks.drop_last());
    }
}

proof fn lemma_gist_size(msgs: Seq<MsgV>)
    requires
        sized(msgs),
    ensures
        digest::gist_of(msgs).requests.len() <= msgs.len() * usize::MAX,
        digest::gist_of(msgs).calls.len() <= msgs.len() * usize::MAX,
    decreases msgs.len(),
{
    if msgs.len() > 0 {
        let before = msgs.drop_last();
        assert forall|i: int| 0 <= i < before.len() implies (#[trigger] before[i]).blocks.len()
            <= usize::MAX by {
            assert(before[i] == msgs[i]);
        }
        lemma_gist_size(before);
        assert(msgs[msgs.len() - 1].blocks.len() <= usize::MAX);
        lemma_gist_blocks(digest::gist_of(before), msgs.last().role, msgs.last().blocks);
        assert(msgs.len() * usize::MAX == before.len() * usize::MAX + usize::MAX)
            by (nonlinear_arith)
            requires
                msgs.len() == before.len() + 1,
        ;
    }
}

/// The shortest digest of any messages.
proof fn lemma_digest_len(msgs: Seq<MsgV>)
    requires
        sized(msgs),
    ensures
        digest::digest_text(msgs, Detail::Least).len() <= 1223,
{
    let g = digest::gist_of(msgs);
    lemma_gist_size(msgs);
    assert(msgs.len() * usize::MAX <= usize::MAX * usize::MAX) by (nonlinear_arith)
        requires
            msgs.len() <= usize::MAX,
    ;
    lemma_requests_len(g.requests);
    lemma_tools_len(g.calls);
    lemma_files_len(g.files);
}

proof fn lemma_banner_len(o: Origin, count: nat, cut: nat, n: nat)
    requires
        o.total <= u64::MAX,
        o.window <= u64::MAX,
        cut <= count <= u64::MAX,
        n <= u64::MAX,
    ensures
        compact::banner(o, count, cut, n).len() <= 368,
{
    reveal_strlit("[bodysnatcher] This session was compacted on import: the original history (~");
    reveal_strlit("k tokens, ");
    reveal_strlit(" messages) exceeded the target model's ");
    reveal_strlit("k-token context window. The oldest ");
    reveal_strlit(" messages are summarized in ");
    reveal_strlit(" checkpoint(s); the most recent ");
    reveal_strlit(" messages follow verbatim.\n\n");
    text::lemma_decimal_u64(o.total / 1000);
    text::lemma_decimal_u64(count);
    text::lemma_decimal_u64(o.window / 1000);
    text::lemma_decimal_u64(cut);
    text::lemma_decimal_u64(n);
    text::lemma_decimal_u64((count - cut) as nat);
}

proof fn lemma_line_len(k: nat, n: nat, a: nat, b: nat, count: nat)
    requires
        k < n <= u64::MAX,
        a < b <= count <= u64::MAX,
    ensures
        compact::checkpoint_line(k, n, a, b, count).len() <= 145,
        compact::checkpoint_reply(k, n).len() <= 59,
{
    reveal_strlit("[bodysnatcher checkpoint ");
    reveal_strlit("/");
    reveal_strlit(" · messages ");
    reveal_strlit("–");
    reveal_strlit(" of ");
    reveal_strlit("]\n");
    reveal_strlit("Checkpoint ");
    reveal_strlit(" noted.");
    text::lemma_decimal_u64(k + 1);
    text::lemma_decimal_u64(n);
    text::lemma_decimal_u64(a + 1);
    text::lemma_decimal_u64(b);
    text::lemma_decimal_u64(count);
}

/// The tokens of the first `k` of the shortest checkpoints.
proof fn lemma_checkpoints_size(o: Origin, msgs: Seq<MsgV>, cut: int, k: int)
    requires
        sized(msgs),
        o.total <= u64::MAX,
        o.window <= u64::MAX,
        0 <= cut <= msgs.len(),
        0 <= k <= compact::spans_of(msgs, cut).len(),
    ensures
        budget::tokens(compact::checkpoints(o, msgs, cut, Detail::Least, k)) <= 368 + 1435 * k,
    decreases k,
{
    if k > 0 {
        let spans = compact::spans_of(msgs, cut);
        let ts = msgs[spans[k - 1].1 - 1].ts;
        let before = compact::checkpoints(o, msgs, cut, Detail::Least, k - 1);
        lemma_checkpoints_size(o, msgs, cut, k - 1);
        compact::lemma_spans(msgs, cut);
        compact::lemma_span_bounds(msgs, spans, cut, k - 1);
        let (a, b) = spans[k - 1];
        let part = msgs.subrange(a, b);
        assert forall|i: int| 0 <= i < part.len() implies (#[trigger] part[i]).blocks.len()
            <= usize::MAX by {
            assert(part[i] == msgs[a + i]);
        }
        lemma_digest_len(part);
        lemma_banner_len(o, msgs.len(), cut as nat, spans.len());
        lemma_line_len((k - 1) as nat, spans.len(), a as nat, b as nat, msgs.len());
        let said = compact::checkpoint_text(o, msgs, cut, Detail::Least, k - 1);
        let reply = compact::checkpoint_reply((k - 1) as nat, spans.len());
        assert(said.len() <= if k == 1 {
            1736int
        } else {
            1368int
        });
        lemma_text_tokens(Role::User, said, ts);
        lemma_text_tokens(Role::Assistant, reply, ts);
        let one = before.push(compact::text_msg(Role::User, said, ts));
        let two = one.push(compact::text_msg(Role::Assistant, reply, ts));
        assert(one.drop_last() =~= before);
        assert(two.drop_last() =~= one);
        assert(budget::tokens(one) == budget::tokens(before) + budget::msg_tokens(one.last()));
        assert(budget::tokens(two) == budget::tokens(one) + budget::msg_tokens(two.last()));
        assert(two == compact::checkpoints(o, msgs, cut, Detail::Least, k));
    } else {
        assert(budget::tokens(Seq::<MsgV>::empty()) == 0);
    }
}

/// A session that does not fit its target is compacted to what fits the landing budget, for every
/// budget from `LEAST_BUDGET` up: nothing but checkpoints takes no more than that.
pub proof fn lemma_lands(msgs: Seq<MsgV>, lim: Limits)
    requires
        sized(msgs),
        budget::tokens(msgs) <= usize::MAX,
        lim.budget >= LEAST_BUDGET,
    ensures
        compact::compacted(msgs, lim) matches Some(out) ==> budget::tokens(out) <= lim.budget,
        compact::compacted(msgs, lim) is Some <==> budget::tokens(msgs) + budget::RESERVE
            > lim.window,
{
    let o = Origin { total: budget::tokens(msgs), window: lim.window as nat };
    let cut = msgs.len() as int;
    compact::lemma_compacted(msgs, lim);
    compact::lemma_spans(msgs, cut);
    lemma_checkpoints_size(o, msgs, cut, compact::spans_of(msgs, cut).len() as int);
}

} // verus!
