//! What a compacted session keeps: the newest messages as they are, and all others in checkpoints.

use crate::budget;
use crate::budget::Limits;
use crate::compact;
use crate::compact::Origin;
use crate::digest;
use crate::digest::Detail;
use crate::model::{BlockV, Brand, Harness, MsgV, Role};
use crate::text;
use crate::turns;
use vstd::prelude::*;

verus! {

/// The longest run of newest messages that begins with a turn and takes at most `keep` tokens is
/// the one from `c` on.
pub open spec fn longest_tail(msgs: Seq<MsgV>, c: int, keep: int) -> bool {
    &&& 0 <= c < msgs.len()
    &&& msgs[c].role != Role::Tool
    &&& budget::tokens(msgs.skip(c)) <= keep
    &&& forall|j: int|
        0 <= j < c && (#[trigger] msgs[j]).role != Role::Tool ==> budget::tokens(msgs.skip(j))
            > keep
}

/// `out` ends with `tail`.
pub open spec fn ends_with(out: Seq<MsgV>, tail: Seq<MsgV>) -> bool {
    out.len() >= tail.len() && out.skip(out.len() - tail.len()) == tail
}

/// Fewer of the newest messages take no more tokens.
proof fn lemma_shorter(msgs: Seq<MsgV>, i: int, j: int)
    requires
        0 <= i <= j <= msgs.len(),
    ensures
        budget::tokens(msgs.skip(j)) <= budget::tokens(msgs.skip(i)),
{
    assert(msgs.skip(i) =~= msgs.subrange(i, j) + msgs.skip(j));
    budget::lemma_tokens_add(msgs.subrange(i, j), msgs.skip(j));
}

proof fn lemma_tail_from(msgs: Seq<MsgV>, i: int, keep: nat)
    requires
        0 <= i <= msgs.len(),
        budget::tokens(msgs.skip(i)) <= keep,
    ensures
        ({
            let k = compact::tail_from(msgs, i, keep);
            &&& 0 <= k <= i
            &&& budget::tokens(msgs.skip(k)) <= keep
            &&& k > 0 ==> budget::tokens(msgs.skip(k - 1)) > keep
        }),
    decreases i,
{
    if i > 0 && budget::tokens(msgs.skip(i - 1)) <= keep {
        lemma_tail_from(msgs, i - 1, keep);
    }
}

proof fn lemma_whole_from(msgs: Seq<MsgV>, keep: nat)
    ensures
        ({
            let k = compact::tail_from(msgs, msgs.len() as int, keep);
            &&& 0 <= k <= msgs.len()
            &&& budget::tokens(msgs.skip(k)) <= keep
            &&& k > 0 ==> budget::tokens(msgs.skip(k - 1)) > keep
        }),
{
    assert(msgs.skip(msgs.len() as int) =~= Seq::<MsgV>::empty());
    assert(budget::tokens(Seq::<MsgV>::empty()) == 0);
    lemma_tail_from(msgs, msgs.len() as int, keep);
}

/// The verbatim tail is the longest that fits, and where no turn fits, it is the last turn.
pub proof fn lemma_tail_longest(msgs: Seq<MsgV>, keep: nat, c: int)
    ensures
        longest_tail(msgs, c, keep as int) ==> compact::tail_start_of(msgs, keep) == c,
        0 <= c < msgs.len() && msgs[c].role != Role::Tool && budget::tokens(msgs.skip(c)) > keep && (
        forall|j: int| c < j < msgs.len() ==> (#[trigger] msgs[j]).role == Role::Tool)
            ==> compact::tail_start_of(msgs, keep) == c,
{
    let i = compact::tail_from(msgs, msgs.len() as int, keep);
    let e = turns::run_end(msgs, i);
    lemma_whole_from(msgs, keep);
    compact::lemma_run_end(msgs, i);
    if longest_tail(msgs, c, keep as int) {
        if c < i {
            lemma_shorter(msgs, c, i - 1);
        }
        assert(e <= c) by {
            if c < e {
                assert(msgs[c].role == Role::Tool);
            }
        }
        lemma_shorter(msgs, i, e);
        if e < c {
            assert(msgs[e].role != Role::Tool);
        }
    }
    if 0 <= c < msgs.len() && msgs[c].role != Role::Tool && budget::tokens(msgs.skip(c)) > keep && (
    forall|j: int| c < j < msgs.len() ==> (#[trigger] msgs[j]).role == Role::Tool) {
        if i <= c {
            lemma_shorter(msgs, i, c);
        }
        if e < msgs.len() {
            assert(msgs[e].role == Role::Tool);
        }
        lemma_turn_before(msgs, i, c);
    }
}

proof fn lemma_turn_before(msgs: Seq<MsgV>, i: int, c: int)
    requires
        0 <= c < i <= msgs.len(),
        msgs[c].role != Role::Tool,
        forall|j: int| c < j < msgs.len() ==> (#[trigger] msgs[j]).role == Role::Tool,
    ensures
        compact::turn_before(msgs, i) == Some(c),
    decreases i,
{
    if i - 1 > c {
        assert(msgs[i - 1].role == Role::Tool);
        lemma_turn_before(msgs, i - 1, c);
    }
}

/// Where a tail of `keep` tokens begins with a turn, one that may be larger begins no later.
proof fn lemma_tail_grows(msgs: Seq<MsgV>, small: nat, large: nat, c: int)
    requires
        small <= large,
        longest_tail(msgs, c, small as int),
    ensures
        0 <= compact::tail_start_of(msgs, large) <= c,
{
    let i = compact::tail_from(msgs, msgs.len() as int, large);
    lemma_whole_from(msgs, large);
    compact::lemma_run_end(msgs, i);
    if c < i {
        lemma_shorter(msgs, c, i - 1);
    }
    if c < turns::run_end(msgs, i) {
        assert(msgs[c].role == Role::Tool);
    }
}

/// What a compacted session is built from.
pub open spec fn origin(msgs: Seq<MsgV>, lim: Limits) -> Origin {
    Origin { total: budget::tokens(msgs), window: lim.window as nat }
}

proof fn lemma_built_ends(o: Origin, msgs: Seq<MsgV>, cut: int, detail: Detail, c: int)
    requires
        0 <= cut <= c <= msgs.len(),
    ensures
        ends_with(compact::built(o, msgs, cut, detail), msgs.skip(c)),
{
    let head = compact::folded(o, msgs, cut, detail);
    let out = compact::built(o, msgs, cut, detail);
    let n = msgs.skip(c).len() as int;
    assert(out.skip(out.len() - n) =~= msgs.skip(c));
}

/// The tail that takes at most half of the budget is kept whenever it fits together with
/// checkpoints, and these are then of as much detail as fits: the result is those checkpoints and
/// exactly that tail.
pub proof fn lemma_half_kept(msgs: Seq<MsgV>, lim: Limits, c: int)
    requires
        budget::tokens(msgs) + 32_000 > lim.window,
        longest_tail(msgs, c, lim.budget as int / 2),
    ensures
        ({
            let o = origin(msgs, lim);
            let full = compact::built(o, msgs, c, Detail::Full);
            let brief = compact::built(o, msgs, c, Detail::Brief);
            let minimal = compact::built(o, msgs, c, Detail::Minimal);
            compact::compacted(msgs, lim) matches Some(out) && {
                &&& budget::tokens(full) <= lim.budget ==> out == full
                &&& budget::tokens(full) > lim.budget && budget::tokens(brief) <= lim.budget ==> out
                    == brief
                &&& budget::tokens(full) > lim.budget && budget::tokens(brief) > lim.budget
                    && budget::tokens(minimal) <= lim.budget ==> out == minimal
                &&& budget::tokens(full) <= lim.budget || budget::tokens(brief) <= lim.budget
                    || budget::tokens(minimal) <= lim.budget ==> ends_with(out, msgs.skip(c))
                    && out.len() <= 24 + msgs.len() - c
            }
        }),
{
    let o = origin(msgs, lim);
    let budget = lim.budget as nat;
    lemma_tail_longest(msgs, budget * 50 / 100, c);
    reveal_with_fuel(compact::first_fit, 4);
    assert(compact::keep_share(0) == 50 && compact::keep_share(1) == 50 && compact::keep_share(2)
        == 50);
    assert(compact::attempt(o, msgs, budget, 0) == compact::built(o, msgs, c, Detail::Full));
    assert(compact::attempt(o, msgs, budget, 1) == compact::built(o, msgs, c, Detail::Brief));
    assert(compact::attempt(o, msgs, budget, 2) == compact::built(o, msgs, c, Detail::Minimal));
    lemma_built_ends(o, msgs, c, Detail::Full, c);
    lemma_built_ends(o, msgs, c, Detail::Brief, c);
    lemma_built_ends(o, msgs, c, Detail::Minimal, c);
    lemma_built_len(o, msgs, c, Detail::Full);
    lemma_built_len(o, msgs, c, Detail::Brief);
    lemma_built_len(o, msgs, c, Detail::Minimal);
}

proof fn lemma_checkpoints_len(o: Origin, msgs: Seq<MsgV>, cut: int, detail: Detail, k: int)
    requires
        k >= 0,
    ensures
        compact::checkpoints(o, msgs, cut, detail, k).len() == 2 * k,
    decreases k,
{
    if k > 0 {
        lemma_checkpoints_len(o, msgs, cut, detail, k - 1);
    }
}

/// At most twelve checkpoints, a message and an answer each, stand before the tail.
pub proof fn lemma_built_len(o: Origin, msgs: Seq<MsgV>, cut: int, detail: Detail)
    requires
        0 <= cut <= msgs.len(),
    ensures
        msgs.len() - cut <= compact::built(o, msgs, cut, detail).len() <= 24 + msgs.len() - cut,
        compact::built(o, msgs, cut, detail).len() == msgs.len() - cut <==> cut == 0,
{
    compact::lemma_spans(msgs, cut);
    let n = compact::spans_of(msgs, cut).len() as int;
    lemma_checkpoints_len(o, msgs, cut, detail, n);
}

proof fn lemma_attempt_kept(o: Origin, msgs: Seq<MsgV>, budget: nat, k: int, to: int, c: int)
    requires
        0 <= k <= to < 12,
        longest_tail(msgs, c, budget * compact::keep_share(to) / 100),
        budget::tokens(compact::attempt(o, msgs, budget, to)) <= budget,
    ensures
        ends_with(compact::first_fit(o, msgs, budget, k), msgs.skip(c)),
        budget::tokens(compact::first_fit(o, msgs, budget, k)) <= budget,
    decreases to - k,
{
    if budget::tokens(compact::attempt(o, msgs, budget, k)) <= budget {
        let small = budget * compact::keep_share(to) as nat / 100;
        let large = budget * compact::keep_share(k) as nat / 100;
        assert(budget * compact::keep_share(to) <= budget * compact::keep_share(k))
            by (nonlinear_arith)
            requires
                compact::keep_share(to) <= compact::keep_share(k),
        ;
        lemma_tail_grows(msgs, small, large, c);
        let cut = compact::tail_start_of(msgs, large);
        lemma_built_ends(o, msgs, cut, compact::keep_detail(k), c);
    } else {
        lemma_attempt_kept(o, msgs, budget, k + 1, to, c);
    }
}

proof fn lemma_kept_at(msgs: Seq<MsgV>, lim: Limits, k: int, keep: nat, c: int)
    requires
        budget::tokens(msgs) + 32_000 > lim.window,
        0 <= k < 12,
        keep == lim.budget as nat * compact::keep_share(k) as nat / 100,
        longest_tail(msgs, c, keep as int),
        budget::tokens(
            compact::built(origin(msgs, lim), msgs, c, compact::keep_detail(k)),
        ) <= lim.budget,
    ensures
        compact::compacted(msgs, lim) matches Some(out) && ends_with(out, msgs.skip(c))
            && budget::tokens(out) <= lim.budget,
{
    let o = origin(msgs, lim);
    let budget = lim.budget as nat;
    lemma_tail_longest(msgs, keep, c);
    assert(compact::attempt(o, msgs, budget, k) == compact::built(
        o,
        msgs,
        c,
        compact::keep_detail(k),
    ));
    lemma_attempt_kept(o, msgs, budget, 0, k, c);
}

/// The newest messages that take at most 50, 30, 15 or 5 percent of the budget are kept as they
/// are whenever they fit together with checkpoints for the others, of whatever detail.
pub proof fn lemma_share_kept(msgs: Seq<MsgV>, lim: Limits, keep: nat, c: int, detail: Detail)
    requires
        budget::tokens(msgs) + 32_000 > lim.window,
        keep == lim.budget * 50 / 100 || keep == lim.budget * 30 / 100 || keep == lim.budget * 15
            / 100 || keep == lim.budget * 5 / 100,
        longest_tail(msgs, c, keep as int),
        detail != Detail::Least,
        budget::tokens(compact::built(origin(msgs, lim), msgs, c, detail)) <= lim.budget,
    ensures
        compact::compacted(msgs, lim) matches Some(out) && ends_with(out, msgs.skip(c))
            && budget::tokens(out) <= lim.budget,
{
    let s: int = if keep == lim.budget * 50 / 100 {
        0
    } else if keep == lim.budget * 30 / 100 {
        1
    } else if keep == lim.budget * 15 / 100 {
        2
    } else {
        3
    };
    let k = lemma_plan(lim.budget as nat, keep, s, detail);
    lemma_kept_at(msgs, lim, k, keep, c);
}

/// Which attempt has that share and that detail.
proof fn lemma_plan(budget: nat, keep: nat, s: int, detail: Detail) -> (k: int)
    requires
        detail != Detail::Least,
        0 <= s < 4,
        s == 0 ==> keep == budget * 50 / 100,
        s == 1 ==> keep == budget * 30 / 100,
        s == 2 ==> keep == budget * 15 / 100,
        s == 3 ==> keep == budget * 5 / 100,
    ensures
        0 <= k < 12,
        compact::keep_detail(k) == detail,
        keep == budget * compact::keep_share(k) as nat / 100,
{
    let d: int = match detail {
        Detail::Full => 0,
        Detail::Brief => 1,
        _ => 2,
    };
    let k = 3 * s + d;
    assert(k % 3 == d);
    if s == 0 {
        assert(compact::keep_share(k) == 50);
    } else if s == 1 {
        assert(compact::keep_share(k) == 30);
    } else if s == 2 {
        assert(compact::keep_share(k) == 15);
    } else {
        assert(compact::keep_share(k) == 5);
    }
    k
}

/// The verbatim tail takes at most what it may, unless it is the last turn.
pub proof fn lemma_tail_bound(msgs: Seq<MsgV>, keep: nat)
    ensures
        ({
            let c = compact::tail_start_of(msgs, keep);
            budget::tokens(msgs.skip(c)) <= keep || forall|j: int|
                c < j < msgs.len() ==> (#[trigger] msgs[j]).role == Role::Tool
        }),
{
    let i = compact::tail_from(msgs, msgs.len() as int, keep);
    let e = turns::run_end(msgs, i);
    lemma_whole_from(msgs, keep);
    compact::lemma_run_end(msgs, i);
    lemma_shorter(msgs, i, e);
    if e == msgs.len() {
        lemma_turn_place(msgs, i);
    }
}

proof fn lemma_turn_place(msgs: Seq<MsgV>, i: int)
    requires
        0 <= i <= msgs.len(),
        forall|j: int| i <= j < msgs.len() ==> (#[trigger] msgs[j]).role == Role::Tool,
    ensures
        compact::turn_before(msgs, i) matches Some(c) ==> forall|j: int|
            c < j < msgs.len() ==> (#[trigger] msgs[j]).role == Role::Tool,
    decreases i,
{
    if i > 0 && msgs[i - 1].role == Role::Tool {
        lemma_turn_place(msgs, i - 1);
    }
}

/// How many spans messages of that many tokens are folded into: one for every 150k, at most twelve.
pub open spec fn at_most_spans(tokens: int) -> int {
    if tokens <= 150_000 {
        1
    } else if tokens > 1_650_000 {
        12
    } else {
        (tokens + 149_999) / 150_000
    }
}

proof fn lemma_span_count(tokens: int)
    requires
        tokens >= 1,
    ensures
        compact::span_count(tokens) == at_most_spans(tokens),
{
}

/// The scan closes a span as soon as it has its share and a turn begins.
proof fn lemma_scan_shares(msgs: Seq<MsgV>, i: int, n: int, target: int)
    requires
        0 <= i <= msgs.len(),
        n >= 1,
        target >= 1,
    ensures
        ({
            let s = compact::span_scan(msgs, i, n, target);
            &&& 0 <= s.start <= i
            &&& s.acc == budget::tokens(msgs.subrange(s.start, i))
            &&& s.done.len() < n
            &&& forall|k: int|
                0 <= k < s.done.len() ==> 0 <= (#[trigger] s.done[k]).0 < s.done[k].1 <= i
                    && budget::tokens(msgs.subrange(s.done[k].0, s.done[k].1)) >= target
            &&& forall|k: int, j: int|
                #![trigger s.done[k], msgs[j]]
                0 <= k < s.done.len() && s.done[k].0 < j < s.done[k].1 && msgs[j].role != Role::Tool
                    ==> budget::tokens(msgs.subrange(s.done[k].0, j)) < target
            &&& s.done.len() + 1 < n ==> forall|j: int|
                s.start < j < i && (#[trigger] msgs[j]).role != Role::Tool ==> budget::tokens(
                    msgs.subrange(s.start, j),
                ) < target
        }),
    decreases i,
{
    let s = compact::span_scan(msgs, i, n, target);
    if i == 0 {
        assert(msgs.subrange(0, 0) =~= Seq::<MsgV>::empty());
        assert(budget::tokens(Seq::<MsgV>::empty()) == 0);
    } else {
        lemma_scan_shares(msgs, i - 1, n, target);
        let p = compact::span_scan(msgs, i - 1, n, target);
        let m = msgs[i - 1];
        if p.acc >= target && m.role != Role::Tool && p.done.len() + 1 < n {
            assert(p.start < i - 1) by {
                if p.start == i - 1 {
                    assert(msgs.subrange(i - 1, i - 1) =~= Seq::<MsgV>::empty());
                    assert(budget::tokens(Seq::<MsgV>::empty()) == 0);
                }
            }
            let part = msgs.subrange(i - 1, i);
            assert(part =~= seq![m]);
            assert(part.drop_last() =~= Seq::<MsgV>::empty());
            assert(budget::tokens(Seq::<MsgV>::empty()) == 0);
            assert forall|k: int| 0 <= k < s.done.len() implies 0 <= (#[trigger] s.done[k]).0
                < s.done[k].1 <= i && budget::tokens(msgs.subrange(s.done[k].0, s.done[k].1))
                >= target by {
                if k < p.done.len() {
                    assert(s.done[k] == p.done[k]);
                }
            }
            assert forall|k: int, j: int|
                #![trigger s.done[k], msgs[j]]
                0 <= k < s.done.len() && s.done[k].0 < j < s.done[k].1 && msgs[j].role
                    != Role::Tool implies budget::tokens(msgs.subrange(s.done[k].0, j))
                < target by {
                if k < p.done.len() {
                    assert(s.done[k] == p.done[k]);
                }
            }
        } else {
            let part = msgs.subrange(p.start, i);
            assert(part.drop_last() =~= msgs.subrange(p.start, i - 1));
            assert(part.last() == m);
        }
    }
}

/// The folded messages are split evenly: into one span for every 150k tokens, at most twelve. Each
/// but the last has its share of the tokens, and has it only with its last turn.
pub proof fn lemma_even_spans(msgs: Seq<MsgV>, cut: int)
    requires
        0 < cut <= msgs.len(),
    ensures
        ({
            let tokens = budget::tokens(msgs.take(cut)) as int;
            let n = at_most_spans(tokens);
            let spans = compact::spans_of(msgs, cut);
            &&& 1 <= spans.len() <= n <= 12
            &&& n == 1 ==> spans == seq![(0int, cut)]
            &&& forall|k: int|
                0 <= k < spans.len() - 1 ==> n * budget::tokens(
                    msgs.subrange((#[trigger] spans[k]).0, spans[k].1),
                ) >= tokens
            &&& forall|k: int, j: int|
                #![trigger spans[k], msgs[j]]
                0 <= k < spans.len() - 1 && spans[k].0 < j < spans[k].1 && msgs[j].role
                    != Role::Tool ==> n * budget::tokens(msgs.subrange(spans[k].0, j)) < tokens
        }),
{
    let tokens = budget::tokens(msgs.take(cut)) as int;
    let first = msgs.take(cut);
    assert(first.len() > 0);
    assert(tokens >= 1) by {
        assert(budget::tokens(first) == budget::tokens(first.drop_last()) + budget::msg_tokens(
            first.last(),
        ));
    }
    let n = at_most_spans(tokens);
    lemma_span_count(tokens);
    let target = (tokens + n - 1) / n;
    assert(target >= 1 && n * target >= tokens && n * (target - 1) < tokens) by (nonlinear_arith)
        requires
            tokens >= 1,
            n >= 1,
            target == (tokens + n - 1) / n,
    ;
    lemma_scan_shares(msgs, cut, n, target);
    let s = compact::span_scan(msgs, cut, n, target);
    let spans = compact::spans_of(msgs, cut);
    assert(spans == s.done.push((s.start, cut)));
    compact::lemma_spans(msgs, cut);
    if n == 1 {
        assert(s.done.len() == 0);
        assert(spans[0] == (s.start, cut));
        assert(spans =~= seq![(0int, cut)]);
    }
    assert forall|k: int| 0 <= k < spans.len() - 1 implies n * budget::tokens(
        msgs.subrange((#[trigger] spans[k]).0, spans[k].1),
    ) >= tokens by {
        assert(spans[k] == s.done[k]);
        let t = budget::tokens(msgs.subrange(spans[k].0, spans[k].1)) as int;
        assert(n * t >= n * target) by (nonlinear_arith)
            requires
                t >= target,
                n >= 1,
        ;
    }
    assert forall|k: int, j: int|
        #![trigger spans[k], msgs[j]]
        0 <= k < spans.len() - 1 && spans[k].0 < j < spans[k].1 && msgs[j].role
            != Role::Tool implies n * budget::tokens(msgs.subrange(spans[k].0, j)) < tokens by {
        assert(spans[k] == s.done[k]);
        let t = budget::tokens(msgs.subrange(spans[k].0, j)) as int;
        assert(n * t <= n * (target - 1)) by (nonlinear_arith)
            requires
                t <= target - 1,
                n >= 1,
        ;
    }
}

proof fn lemma_checkpoint_at(
    o: Origin,
    msgs: Seq<MsgV>,
    cut: int,
    detail: Detail,
    n: int,
    k: int,
)
    requires
        0 <= k < n,
    ensures
        ({
            let all = compact::checkpoints(o, msgs, cut, detail, n);
            let one = compact::checkpoints(o, msgs, cut, detail, k + 1);
            &&& all.len() == 2 * n
            &&& all[2 * k] == one[2 * k]
            &&& all[2 * k + 1] == one[2 * k + 1]
        }),
    decreases n,
{
    lemma_checkpoints_len(o, msgs, cut, detail, n);
    lemma_checkpoints_len(o, msgs, cut, detail, k + 1);
    if n > k + 1 {
        lemma_checkpoint_at(o, msgs, cut, detail, n - 1, k);
    }
}

/// Which span of the messages a checkpoint stands for, as text.
proof fn lemma_line(k: int, n: nat, a: int, b: int, count: nat)
    requires
        k >= 0,
        0 <= a <= b,
    ensures
        compact::checkpoint_line(k as nat, n, a as nat, b as nat, count)
            == "[bodysnatcher checkpoint "@ + (text::decimal((k + 1) as nat) + "/"@ + text::decimal(
            n,
        )) + " · messages "@ + text::decimal((a + 1) as nat) + "–"@ + text::decimal(b as nat)
            + " of "@ + text::decimal(count) + "]\n"@,
        compact::checkpoint_reply(k as nat, n) == "Checkpoint "@ + (text::decimal((k + 1) as nat)
            + "/"@ + text::decimal(n)) + " noted."@,
{
    let of = text::decimal((k + 1) as nat) + "/"@ + text::decimal(n);
    assert("[bodysnatcher checkpoint "@ + text::decimal((k + 1) as nat) + "/"@ + text::decimal(n)
        =~= "[bodysnatcher checkpoint "@ + of);
    assert("Checkpoint "@ + text::decimal((k + 1) as nat) + "/"@ + text::decimal(n)
        =~= "Checkpoint "@ + of);
}

proof fn lemma_said_at(o: Origin, msgs: Seq<MsgV>, cut: int, detail: Detail, k: int)
    requires
        0 < cut <= msgs.len(),
        0 <= k < compact::spans_of(msgs, cut).len(),
    ensures
        ({
            let spans = compact::spans_of(msgs, cut);
            let (a, b) = spans[k];
            let out = compact::built(o, msgs, cut, detail);
            &&& 0 <= a < b <= cut
            &&& out[2 * k] == compact::text_msg(
                Role::User,
                compact::checkpoint_text(o, msgs, cut, detail, k),
                msgs[b - 1].ts,
            )
            &&& k < spans.len() - 1 || cut == msgs.len() || msgs[cut].role == Role::User ==> out[2
                * k + 1] == compact::text_msg(
                Role::Assistant,
                compact::checkpoint_reply(k as nat, spans.len()),
                msgs[b - 1].ts,
            )
        }),
{
    let spans = compact::spans_of(msgs, cut);
    let n = spans.len() as int;
    compact::lemma_spans(msgs, cut);
    compact::lemma_span_bounds(msgs, spans, cut, k);
    lemma_checkpoint_at(o, msgs, cut, detail, n, k);
    lemma_checkpoints_len(o, msgs, cut, detail, k);
    let all = compact::checkpoints(o, msgs, cut, detail, n);
    let out = compact::built(o, msgs, cut, detail);
    assert(out[2 * k] == all[2 * k]);
}

/// Checkpoint `k` stands for its span of the messages: a user's message that says which span that
/// is and closes with the digest of exactly those messages, at the time of the last of them.
pub proof fn lemma_checkpoint(o: Origin, msgs: Seq<MsgV>, cut: int, detail: Detail, k: int)
    requires
        0 < cut <= msgs.len(),
        0 <= k < compact::spans_of(msgs, cut).len(),
    ensures
        ({
            let spans = compact::spans_of(msgs, cut);
            let (a, b) = spans[k];
            let of = text::decimal((k + 1) as nat) + "/"@ + text::decimal(spans.len());
            let line = "[bodysnatcher checkpoint "@ + of + " · messages "@ + text::decimal(
                (a + 1) as nat,
            ) + "–"@ + text::decimal(b as nat) + " of "@ + text::decimal(msgs.len()) + "]\n"@;
            let said = compact::built(o, msgs, cut, detail)[2 * k];
            &&& 0 <= a < b <= cut
            &&& said.role == Role::User && said.ts == msgs[b - 1].ts && said.blocks.len() == 1
            &&& said.blocks[0] matches BlockV::Text(t) && {
                let rest = line + digest::digest_text(msgs.subrange(a, b), detail);
                &&& t.len() >= rest.len() && t.skip(t.len() - rest.len()) == rest
                &&& k > 0 ==> t == rest
            }
        }),
{
    let spans = compact::spans_of(msgs, cut);
    let (a, b) = spans[k];
    lemma_said_at(o, msgs, cut, detail, k);
    lemma_line(k, spans.len(), a, b, msgs.len());
    let t = compact::checkpoint_text(o, msgs, cut, detail, k);
    let line = compact::checkpoint_line(k as nat, spans.len(), a as nat, b as nat, msgs.len());
    let rest = line + digest::digest_text(msgs.subrange(a, b), detail);
    if k == 0 {
        let opening = compact::banner(o, msgs.len(), cut as nat, spans.len());
        assert(t =~= opening + rest);
    } else {
        assert(t =~= rest);
    }
    assert(t.skip(t.len() - rest.len()) =~= rest);
}

/// A checkpoint is answered by the assistant, at the same time, unless the tail does so.
pub proof fn lemma_answer(o: Origin, msgs: Seq<MsgV>, cut: int, detail: Detail, k: int)
    requires
        0 < cut <= msgs.len(),
        0 <= k < compact::spans_of(msgs, cut).len(),
        k < compact::spans_of(msgs, cut).len() - 1 || cut == msgs.len() || msgs[cut].role
            == Role::User,
    ensures
        ({
            let spans = compact::spans_of(msgs, cut);
            let of = text::decimal((k + 1) as nat) + "/"@ + text::decimal(spans.len());
            compact::built(o, msgs, cut, detail)[2 * k + 1] == (MsgV {
                role: Role::Assistant,
                blocks: seq![BlockV::Text("Checkpoint "@ + of + " noted."@)],
                ts: msgs[spans[k].1 - 1].ts,
            })
        }),
{
    let spans = compact::spans_of(msgs, cut);
    lemma_said_at(o, msgs, cut, detail, k);
    lemma_line(k, spans.len(), spans[k].0, spans[k].1, msgs.len());
}

/// A compacted session opens by saying how large the original was, which window it did not fit,
/// and how many messages are folded and kept.
pub proof fn lemma_banner(o: Origin, msgs: Seq<MsgV>, cut: int, detail: Detail)
    requires
        0 < cut <= msgs.len(),
    ensures
        compact::built(o, msgs, cut, detail)[0].blocks[0] matches BlockV::Text(t) && text::begins(
            t,
            "[bodysnatcher] This session was compacted on import: the original history (~"@
                + text::decimal(o.total / 1000) + "k tokens, "@ + text::decimal(msgs.len())
                + " messages) exceeded the target model's "@ + text::decimal(o.window / 1000)
                + "k-token context window. The oldest "@ + text::decimal(cut as nat)
                + " messages are summarized in "@ + text::decimal(
                compact::spans_of(msgs, cut).len(),
            ) + " checkpoint(s); the most recent "@ + text::decimal((msgs.len() - cut) as nat)
                + " messages follow verbatim.\n\n"@,
        ),
{
    let spans = compact::spans_of(msgs, cut);
    compact::lemma_spans(msgs, cut);
    lemma_said_at(o, msgs, cut, detail, 0);
    let t = compact::checkpoint_text(o, msgs, cut, detail, 0);
    let opening = compact::banner(o, msgs.len(), cut as nat, spans.len());
    assert(t.take(opening.len() as int) =~= opening);
}

/// A block that is shortened keeps its kind and all else it holds; a call is never touched, and a
/// text that takes no more than `max` bytes neither.
pub proof fn lemma_elided_block(b: BlockV, max: nat)
    ensures
        match (b, compact::elided_block(b, max)) {
            (BlockV::Text(s), BlockV::Text(t)) => kept_ends(s, t, max),
            (BlockV::Thinking(s), BlockV::Thinking(t)) => kept_ends(s, t, max),
            (BlockV::ToolCall { id, name, args }, c) => c == b,
            (
                BlockV::ToolResult { call_id, name, content, is_error },
                BlockV::ToolResult { call_id: i, name: n, content: t, is_error: e },
            ) => i == call_id && n == name && e == is_error && kept_ends(content, t, max),
            _ => false,
        },
{
    match b {
        BlockV::Text(s) => lemma_elided(s, max),
        BlockV::Thinking(s) => lemma_elided(s, max),
        BlockV::ToolCall { id, name, args } => {},
        BlockV::ToolResult { call_id, name, content, is_error } => lemma_elided(content, max),
    }
}

/// `t` is `s`, or the longest start and the longest end of it that take half of `max` bytes each,
/// and between them how many bytes are gone.
pub open spec fn kept_ends(s: Seq<char>, t: Seq<char>, max: nat) -> bool {
    if text::blen(s) <= max {
        t == s
    } else {
        exists|a: int, z: int|
            #![trigger s.take(a), s.skip(z)]
            {
                &&& 0 <= a <= z <= s.len()
                &&& text::blen(s.take(a)) <= max / 2 < text::blen(s.take(a + 1))
                &&& text::blen(s.skip(z)) <= max / 2 < text::blen(s.skip(z - 1))
                &&& t == s.take(a) + "\n[… "@ + text::decimal(text::blen(s.subrange(a, z)))
                    + " bytes elided by bodysnatcher …]\n"@ + s.skip(z)
            }
    }
}

proof fn lemma_elided(s: Seq<char>, max: nat)
    ensures
        kept_ends(s, compact::elided(s, max), max),
{
    if text::blen(s) > max {
        let half = max / 2;
        let len = s.len() as int;
        digest::lemma_byte_prefix(s, half);
        digest::lemma_byte_suffix(s, half);
        let a = digest::byte_prefix(s, half).len() as int;
        let m = digest::byte_suffix(s, half).len() as int;
        let z = len - m;
        assert(s.take(len) =~= s);
        assert(s.skip(len - len) =~= s);
        assert(a < len);
        assert(m < len);
        assert(text::blen(s.take(a + 1)) > half);
        assert(text::blen(s.skip(len - (m + 1))) > half);
        assert(a <= z) by {
            if z < a {
                assert(s =~= s.take(a) + s.skip(a));
                text::lemma_blen_add(s.take(a), s.skip(a));
                assert(s.skip(z) =~= s.subrange(z, a) + s.skip(a));
                text::lemma_blen_add(s.subrange(z, a), s.skip(a));
            }
        }
        assert(s =~= s.take(a) + s.subrange(a, z) + s.skip(z));
        text::lemma_blen_add(s.take(a), s.subrange(a, z));
        text::lemma_blen_add(s.take(a) + s.subrange(a, z), s.skip(z));
    }
}

/// Shortening the tail touches nothing before it, no call, no result's id, and no text of at most
/// 250 bytes, and it shortens only where the messages do not fit.
pub proof fn lemma_squeezed(msgs: Seq<MsgV>, head: int, budget: nat, i: int, j: int)
    requires
        0 <= i < msgs.len(),
        0 <= j < msgs[i].blocks.len(),
    ensures
        ({
            let out = compact::squeezed(msgs, head, 64_000, budget);
            &&& budget::tokens(msgs) <= budget ==> out == msgs
            &&& out.len() == msgs.len()
            &&& i < head ==> out[i] == msgs[i]
            &&& out[i].role == msgs[i].role && out[i].ts == msgs[i].ts
            &&& out[i].blocks.len() == msgs[i].blocks.len()
            &&& same_but_long(msgs[i].blocks[j], out[i].blocks[j])
        }),
{
    lemma_squeeze_keeps(msgs, head, 64_000, budget, i, j);
}

/// The same block, unless it says more than 250 bytes; then of the same kind.
pub open spec fn same_but_long(b: BlockV, c: BlockV) -> bool {
    match (b, c) {
        (BlockV::Text(s), BlockV::Text(t)) => text::blen(s) <= 250 ==> t == s,
        (BlockV::Thinking(s), BlockV::Thinking(t)) => text::blen(s) <= 250 ==> t == s,
        (BlockV::ToolCall { id, name, args }, d) => d == b,
        (
            BlockV::ToolResult { call_id, name, content, is_error },
            BlockV::ToolResult { call_id: i, name: n, content: t, is_error: e },
        ) => i == call_id && n == name && e == is_error && (text::blen(content) <= 250 ==> t
            == content),
        _ => false,
    }
}

proof fn lemma_squeeze_keeps(msgs: Seq<MsgV>, head: int, max: nat, budget: nat, i: int, j: int)
    requires
        max == 64_000 || max == 32_000 || max == 16_000 || max == 8_000 || max == 4_000 || max
            == 2_000 || max == 1_000 || max == 500 || max == 250,
        0 <= i < msgs.len(),
        0 <= j < msgs[i].blocks.len(),
    ensures
        ({
            let out = compact::squeezed(msgs, head, max, budget);
            &&& budget::tokens(msgs) <= budget ==> out == msgs
            &&& out.len() == msgs.len()
            &&& i < head ==> out[i] == msgs[i]
            &&& out[i].role == msgs[i].role && out[i].ts == msgs[i].ts
            &&& out[i].blocks.len() == msgs[i].blocks.len()
            &&& same_but_long(msgs[i].blocks[j], out[i].blocks[j])
        }),
    decreases max,
{
    if budget::tokens(msgs) > budget && max > 256 {
        let next = compact::elided_tail(msgs, head, max / 2);
        lemma_squeeze_keeps(next, head, max / 2, budget, i, j);
    }
}

/// The session with the first `cut` messages folded at minimal detail and the long blocks of the
/// others shortened as far as needed.
pub open spec fn shortened(o: Origin, msgs: Seq<MsgV>, cut: int, budget: nat) -> Seq<MsgV> {
    let all = compact::built(o, msgs, cut, Detail::Minimal);
    compact::squeezed(all, all.len() - (msgs.len() - cut), 64_000, budget)
}

proof fn lemma_resort(o: Origin, msgs: Seq<MsgV>, budget: nat, cut: int, c: int)
    requires
        compact::tail_place(msgs, cut),
        compact::tail_place(msgs, c),
        cut <= c,
        budget::tokens(shortened(o, msgs, c, budget)) <= budget,
    ensures
        budget::tokens(compact::last_resort(o, msgs, budget, cut)) <= budget,
        exists|d: int|
            cut <= d <= c && compact::last_resort(o, msgs, budget, cut) == #[trigger] shortened(
                o,
                msgs,
                d,
                budget,
            ),
    decreases msgs.len() - cut,
{
    let out = shortened(o, msgs, cut, budget);
    assert(compact::built(o, msgs, cut, Detail::Minimal).len() - (msgs.len() - cut)
        == compact::folded(o, msgs, cut, Detail::Minimal).len());
    if cut < msgs.len() && budget::tokens(out) > budget {
        compact::lemma_run_end(msgs, cut + 1);
        let next = turns::run_end(msgs, cut + 1);
        if c < next {
            assert(msgs[c].role == Role::Tool);
        }
        lemma_resort(o, msgs, budget, next, c);
    } else {
        assert(compact::last_resort(o, msgs, budget, cut) == out);
    }
}

proof fn lemma_no_attempt(o: Origin, msgs: Seq<MsgV>, budget: nat, k: int)
    requires
        0 <= k <= 12,
        forall|i: int| k <= i < 12 ==> budget::tokens(#[trigger] compact::attempt(o, msgs, budget, i))
            > budget,
    ensures
        compact::first_fit(o, msgs, budget, k) == compact::first_fit(o, msgs, budget, 12),
    decreases 12 - k,
{
    if k < 12 {
        assert(budget::tokens(compact::attempt(o, msgs, budget, k)) > budget);
        lemma_no_attempt(o, msgs, budget, k + 1);
    }
}

/// Where no tail fits as it is, as much of the newest 5% as fits with its long blocks shortened is
/// kept: if that can be done from the turn at `c` on, the result holds at least those messages.
pub proof fn lemma_last_resort_kept(msgs: Seq<MsgV>, lim: Limits, first: int, c: int)
    requires
        budget::tokens(msgs) + 32_000 > lim.window,
        forall|i: int|
            0 <= i < 12 ==> budget::tokens(
                #[trigger] compact::attempt(origin(msgs, lim), msgs, lim.budget as nat, i),
            ) > lim.budget,
        longest_tail(msgs, first, lim.budget as int / 20),
        first <= c <= msgs.len(),
        c < msgs.len() ==> msgs[c].role != Role::Tool,
        budget::tokens(shortened(origin(msgs, lim), msgs, c, lim.budget as nat)) <= lim.budget,
    ensures
        exists|d: int|
            first <= d <= c && compact::compacted(msgs, lim) == Some(
                #[trigger] shortened(origin(msgs, lim), msgs, d, lim.budget as nat),
            ),
        compact::compacted(msgs, lim) matches Some(out) && budget::tokens(out) <= lim.budget,
{
    let o = origin(msgs, lim);
    let budget = lim.budget as nat;
    lemma_no_attempt(o, msgs, budget, 0);
    lemma_tail_longest(msgs, budget / 20, first);
    lemma_resort(o, msgs, budget, first, c);
}

/// Shortening stops only where the messages fit, or where every block of the tail is shortened to
/// 250 bytes: halves of 64 000, down to the first that is at most 256.
pub proof fn lemma_squeezed_far(msgs: Seq<MsgV>, head: int, budget: nat) -> (y: Seq<MsgV>)
    ensures
        ({
            let out = compact::squeezed(msgs, head, 64_000, budget);
            budget::tokens(out) > budget ==> {
                &&& y.len() == out.len()
                &&& forall|i: int|
                    head <= i < out.len() && 0 <= i ==> (#[trigger] out[i]).blocks.len()
                        == y[i].blocks.len() && forall|j: int|
                        0 <= j < out[i].blocks.len() ==> #[trigger] out[i].blocks[j]
                            == compact::elided_block(y[i].blocks[j], 250)
            }
        }),
{
    let out = compact::squeezed(msgs, head, 64_000, budget);
    if budget::tokens(out) > budget {
        lemma_squeeze_ends(msgs, head, 64_000, budget)
    } else {
        msgs
    }
}

proof fn lemma_squeeze_ends(msgs: Seq<MsgV>, head: int, max: nat, budget: nat) -> (y: Seq<MsgV>)
    requires
        max == 64_000 || max == 32_000 || max == 16_000 || max == 8_000 || max == 4_000 || max
            == 2_000 || max == 1_000 || max == 500,
        budget::tokens(compact::squeezed(msgs, head, max, budget)) > budget,
    ensures
        compact::squeezed(msgs, head, max, budget) == compact::elided_tail(y, head, 250),
    decreases max,
{
    let next = compact::elided_tail(msgs, head, max / 2);
    assert(compact::squeezed(msgs, head, max, budget) == compact::squeezed(
        next,
        head,
        max / 2,
        budget,
    ));
    if max == 500 {
        assert(compact::squeezed(next, head, 250, budget) == next);
        msgs
    } else {
        lemma_squeeze_ends(next, head, max / 2, budget)
    }
}

/// The note on a compaction tells thousands of tokens, rounded down, and messages, before and
/// after.
pub proof fn lemma_report(
    before: Seq<MsgV>,
    after: Seq<MsgV>,
    window: nat,
    target: Harness,
    brand: Brand,
    a: nat,
    b: nat,
    w: nat,
)
    requires
        1000 * a <= budget::tokens(before) < 1000 * a + 1000,
        1000 * b <= budget::tokens(after) < 1000 * b + 1000,
        1000 * w <= window < 1000 * w + 1000,
    ensures
        compact::report_text(before, after, window, target, brand) == "bodysnatcher: ~"@
            + text::decimal(a) + "k tokens exceeds "@ + target.full_text(brand) + "'s "@
            + text::decimal(w) + "k context window; compacted "@ + text::decimal(before.len())
            + " msgs -> "@ + text::decimal(after.len()) + " (~"@ + text::decimal(b)
            + "k tokens) into a new session"@,
{
    assert(budget::tokens(before) / 1000 == a);
    assert(budget::tokens(after) / 1000 == b);
    assert(window / 1000 == w);
}

} // verus!
