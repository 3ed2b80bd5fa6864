//! Import-time compaction. A harness can only compact a session by feeding it to its model, so a
//! session larger than the model's context window can never be compacted once it lands. When (and
//! only when) an imported session does not fit the target model, older history is folded into
//! deterministic checkpoint messages and the recent tail is kept verbatim, shrinking until the
//! whole transcript fits the landing budget (200k tokens by default).

use crate::budget;
use crate::budget::Limits;
use crate::digest;
use crate::digest::Detail;
use crate::landing;
use crate::model;
use crate::model::{Block, BlockV, Brand, Harness, Msg, MsgV, Role};
use crate::parse;
use crate::text;
use crate::turns;
use vstd::prelude::*;

verus! {

/// Rough source-token span covered by one checkpoint.
pub const CHUNK_TOKENS: usize = 150_000;

pub const MAX_CHECKPOINTS: usize = 12;

/// The earliest place from which the messages up to the end take at most `keep` tokens, going back
/// from `i`.
pub open spec fn tail_from(msgs: Seq<MsgV>, i: int, keep: nat) -> int
    decreases i,
{
    if i > 0 && budget::tokens(msgs.skip(i - 1)) <= keep {
        tail_from(msgs, i - 1, keep)
    } else {
        i
    }
}

/// The last place before `i` that holds no tool message.
pub open spec fn turn_before(msgs: Seq<MsgV>, i: int) -> Option<int>
    decreases i,
{
    if i <= 0 {
        None
    } else if msgs[i - 1].role != Role::Tool {
        Some(i - 1)
    } else {
        turn_before(msgs, i - 1)
    }
}

/// Where the verbatim tail begins: the newest messages that take at most `keep` tokens, moved
/// forward past any tool results so none is orphaned from its call. Where nothing but tool results
/// would be left, the tail begins with the last turn before them.
pub open spec fn tail_start_of(msgs: Seq<MsgV>, keep: nat) -> int {
    let i = tail_from(msgs, msgs.len() as int, keep);
    let j = turns::run_end(msgs, i);
    if j < msgs.len() {
        j
    } else {
        match turn_before(msgs, i) {
            Some(k) => k,
            None => msgs.len() as int,
        }
    }
}

proof fn lemma_tail_from(msgs: Seq<MsgV>, i: int, keep: nat)
    requires
        0 <= i <= msgs.len(),
    ensures
        0 <= tail_from(msgs, i, keep) <= i,
    decreases i,
{
    if i > 0 {
        lemma_tail_from(msgs, i - 1, keep);
    }
}

pub proof fn lemma_run_end(msgs: Seq<MsgV>, i: int)
    requires
        0 <= i <= msgs.len(),
    ensures
        i <= turns::run_end(msgs, i) <= msgs.len(),
        turns::run_end(msgs, i) < msgs.len() ==> msgs[turns::run_end(msgs, i)].role != Role::Tool,
        forall|j: int|
            i <= j < turns::run_end(msgs, i) ==> (#[trigger] msgs[j]).role == Role::Tool,
    decreases msgs.len() - i,
{
    if i < msgs.len() && msgs[i].role == Role::Tool {
        lemma_run_end(msgs, i + 1);
    }
}

proof fn lemma_turn_before(msgs: Seq<MsgV>, i: int)
    requires
        0 <= i <= msgs.len(),
    ensures
        match turn_before(msgs, i) {
            Some(k) => 0 <= k < i && msgs[k].role != Role::Tool,
            None => forall|j: int| 0 <= j < i ==> (#[trigger] msgs[j]).role == Role::Tool,
        },
    decreases i,
{
    if i > 0 && msgs[i - 1].role == Role::Tool {
        lemma_turn_before(msgs, i - 1);
    }
}

/// The tail never begins with a tool result, and is empty only where there is nothing else.
pub proof fn lemma_tail_start(msgs: Seq<MsgV>, keep: nat)
    ensures
        0 <= tail_start_of(msgs, keep) <= msgs.len(),
        tail_start_of(msgs, keep) < msgs.len() ==> msgs[tail_start_of(msgs, keep)].role
            != Role::Tool,
        tail_start_of(msgs, keep) == msgs.len() ==> forall|j: int|
            0 <= j < msgs.len() ==> (#[trigger] msgs[j]).role == Role::Tool,
{
    let i = tail_from(msgs, msgs.len() as int, keep);
    lemma_tail_from(msgs, msgs.len() as int, keep);
    lemma_run_end(msgs, i);
    lemma_turn_before(msgs, i);
}

fn is_tool(m: &Msg) -> (r: bool)
    ensures
        r == (m.role == Role::Tool),
{
    match m.role {
        Role::Tool => true,
        _ => false,
    }
}

/// The first place from `i` on that holds no tool message, or the end.
fn turn_from(msgs: &Vec<Msg>, i: usize) -> (r: usize)
    requires
        i <= msgs@.len(),
    ensures
        r == turns::run_end(model::msg_views(msgs@), i as int),
        i <= r <= msgs@.len(),
{
    let ghost mv = model::msg_views(msgs@);
    let mut j: usize = i;
    while j < msgs.len() && is_tool(&msgs[j])
        invariant
            mv == model::msg_views(msgs@),
            i <= j <= msgs@.len(),
            turns::run_end(mv, i as int) == turns::run_end(mv, j as int),
        decreases msgs@.len() - j,
    {
        proof {
            assert(mv[j as int] == msgs@[j as int]@);
        }
        j = j + 1;
    }
    proof {
        if j < msgs@.len() {
            assert(mv[j as int] == msgs@[j as int]@);
        }
    }
    j
}

/// Index where the verbatim tail begins.
pub fn tail_start(msgs: &Vec<Msg>, keep: usize) -> (r: usize)
    ensures
        r == tail_start_of(model::msg_views(msgs@), keep as nat),
        r <= msgs@.len(),
{
    let ghost mv = model::msg_views(msgs@);
    let ghost len = mv.len() as int;
    let mut used: usize = 0;
    let mut i: usize = msgs.len();
    let mut more = true;
    proof {
        lemma_tail_start(mv, keep as nat);
        assert(mv.skip(len) =~= Seq::empty());
    }
    while more && i > 0
        invariant
            mv == model::msg_views(msgs@),
            len == mv.len(),
            i <= msgs@.len(),
            used == budget::tokens(mv.skip(i as int)),
            used <= keep,
            more ==> tail_from(mv, len, keep as nat) == tail_from(mv, i as int, keep as nat),
            !more ==> tail_from(mv, len, keep as nat) == i,
        decreases
            i,
            if more {
                1int
            } else {
                0int
            },
    {
        proof {
            assert(mv.skip(i - 1) =~= seq![mv[i - 1]] + mv.skip(i as int));
            budget::lemma_tokens_add(seq![mv[i - 1]], mv.skip(i as int));
            assert(seq![mv[i - 1]].drop_last() =~= Seq::<MsgV>::empty());
            assert(budget::tokens(Seq::<MsgV>::empty()) == 0);
            assert(budget::tokens(seq![mv[i - 1]]) == budget::msg_tokens(mv[i - 1]));
            assert(mv[i - 1] == msgs@[i - 1]@);
        }
        match budget::msg_tokens_upto(&msgs[i - 1], keep - used) {
            Some(n) => {
                used = used + n;
                i = i - 1;
            },
            None => {
                more = false;
            },
        }
    }
    let j = turn_from(msgs, i);
    if j < msgs.len() {
        return j;
    }
    let mut k: usize = i;
    while k > 0
        invariant
            mv == model::msg_views(msgs@),
            k <= i <= msgs@.len(),
            turn_before(mv, i as int) == turn_before(mv, k as int),
            i == tail_from(mv, mv.len() as int, keep as nat),
            turns::run_end(mv, i as int) == mv.len(),
        decreases k,
    {
        proof {
            assert(mv[k - 1] == msgs@[k - 1]@);
        }
        if !is_tool(&msgs[k - 1]) {
            return k - 1;
        }
        k = k - 1;
    }
    msgs.len()
}

/// Spans closed so far, where the open one starts, and its tokens.
pub ghost struct Spans {
    pub done: Seq<(int, int)>,
    pub start: int,
    pub acc: nat,
}

/// How many spans messages of that many tokens are split into.
pub open spec fn span_count(tokens: int) -> int {
    let n = (tokens + CHUNK_TOKENS - 1) / CHUNK_TOKENS as int;
    if n < 1 {
        1
    } else if n > MAX_CHECKPOINTS {
        MAX_CHECKPOINTS as int
    } else {
        n
    }
}

/// Reading the first `i` messages: a span is closed before a message once it has `target` tokens,
/// unless the message is a tool result or the span is the last.
pub open spec fn span_scan(msgs: Seq<MsgV>, i: int, n: int, target: int) -> Spans
    decreases i,
{
    if i <= 0 {
        Spans { done: Seq::empty(), start: 0, acc: 0 }
    } else {
        let s = span_scan(msgs, i - 1, n, target);
        let m = msgs[i - 1];
        if s.acc >= target && m.role != Role::Tool && s.done.len() + 1 < n {
            Spans { done: s.done.push((s.start, i - 1)), start: i - 1, acc: budget::msg_tokens(m) }
        } else {
            Spans { acc: s.acc + budget::msg_tokens(m), ..s }
        }
    }
}

/// The spans that the first `cut` messages are folded into.
pub open spec fn spans_of(msgs: Seq<MsgV>, cut: int) -> Seq<(int, int)> {
    if cut == 0 {
        Seq::empty()
    } else {
        let tokens = budget::tokens(msgs.take(cut)) as int;
        let n = span_count(tokens);
        let s = span_scan(msgs, cut, n, (tokens + n - 1) / n);
        s.done.push((s.start, cut))
    }
}

/// Spans that cover the places from 0 to `end` one after the other, each with something in it,
/// none but the first beginning with a tool result.
pub open spec fn spans_cover(msgs: Seq<MsgV>, spans: Seq<(int, int)>, end: int) -> bool {
    &&& forall|k: int| 0 <= k < spans.len() ==> (#[trigger] spans[k]).0 < spans[k].1
    &&& spans.len() > 0 ==> spans[0].0 == 0
    &&& forall|j: int, k: int|
        0 <= j && k == j + 1 && k < spans.len() ==> (#[trigger] spans[j]).1 == (
        #[trigger] spans[k]).0 && msgs[spans[k].0].role != Role::Tool
    &&& end == if spans.len() == 0 {
        0
    } else {
        spans.last().1
    }
}

proof fn lemma_span_scan(msgs: Seq<MsgV>, i: int, n: int, target: int)
    requires
        0 <= i <= msgs.len(),
        n >= 1,
        target >= 1,
    ensures
        ({
            let s = span_scan(msgs, i, n, target);
            &&& spans_cover(msgs, s.done, s.start)
            &&& s.done.len() < n
            &&& i == 0 ==> s.start == 0 && s.acc == 0
            &&& i > 0 ==> 0 <= s.start < i
            &&& s.done.len() > 0 ==> msgs[s.start].role != Role::Tool
        }),
    decreases i,
{
    if i > 0 {
        lemma_span_scan(msgs, i - 1, n, target);
        let before = span_scan(msgs, i - 1, n, target);
        let s = span_scan(msgs, i, n, target);
        if s.done != before.done {
            lemma_span_push(msgs, before.done, before.start, i - 1);
        }
    }
}

proof fn lemma_span_push(msgs: Seq<MsgV>, spans: Seq<(int, int)>, start: int, end: int)
    requires
        spans_cover(msgs, spans, start),
        start < end,
        spans.len() > 0 ==> msgs[start].role != Role::Tool,
    ensures
        spans_cover(msgs, spans.push((start, end)), end),
{
    let all = spans.push((start, end));
    assert forall|k: int| 0 <= k < all.len() implies (#[trigger] all[k]).0 < all[k].1 by {
        if k < spans.len() {
            assert(all[k] == spans[k]);
        }
    }
    assert forall|j: int, k: int| 0 <= j && k == j + 1 && k < all.len() implies (#[trigger] all[j]).1
        == (#[trigger] all[k]).0 && msgs[all[k].0].role != Role::Tool by {
        assert(all[j] == spans[j]);
        if k < spans.len() {
            assert(all[k] == spans[k]);
        }
    }
    if spans.len() > 0 {
        assert(all[0] == spans[0]);
    } else {
        assert(all[0] == (start, end));
    }
    assert(all.last() == (start, end));
}

/// The folded messages are split into at most `MAX_CHECKPOINTS` spans that leave nothing out, and
/// none of them breaks between a tool call and its result.
pub proof fn lemma_spans(msgs: Seq<MsgV>, cut: int)
    requires
        0 <= cut <= msgs.len(),
    ensures
        spans_cover(msgs, spans_of(msgs, cut), cut),
        spans_of(msgs, cut).len() <= MAX_CHECKPOINTS,
        cut > 0 ==> spans_of(msgs, cut).len() > 0,
{
    if cut > 0 {
        let tokens = budget::tokens(msgs.take(cut)) as int;
        let n = span_count(tokens);
        let target = (tokens + n - 1) / n;
        lemma_tokens_lower(msgs.take(cut));
        assert(target >= 1) by (nonlinear_arith)
            requires
                tokens >= 1,
                n >= 1,
                target == (tokens + n - 1) / n,
        ;
        lemma_span_scan(msgs, cut, n, target);
        let s = span_scan(msgs, cut, n, target);
        lemma_span_push(msgs, s.done, s.start, cut);
    }
}

/// Every message takes at least four tokens.
proof fn lemma_tokens_lower(msgs: Seq<MsgV>)
    ensures
        budget::tokens(msgs) >= 4 * msgs.len(),
    decreases msgs.len(),
{
    if msgs.len() > 0 {
        lemma_tokens_lower(msgs.drop_last());
    }
}

/// The views of spans.
pub open spec fn span_views(spans: Seq<(usize, usize)>) -> Seq<(int, int)> {
    spans.map_values(|s: (usize, usize)| (s.0 as int, s.1 as int))
}

fn token_sum(msgs: &Vec<Msg>, cut: usize) -> (r: usize)
    requires
        cut <= msgs@.len(),
        budget::tokens(model::msg_views(msgs@)) <= usize::MAX,
    ensures
        r == budget::tokens(model::msg_views(msgs@).take(cut as int)),
{
    let ghost mv = model::msg_views(msgs@);
    let mut used: usize = 0;
    let mut i: usize = 0;
    proof {
        assert(mv.take(0) =~= Seq::empty());
    }
    while i < cut
        invariant
            mv == model::msg_views(msgs@),
            i <= cut <= msgs@.len(),
            budget::tokens(mv) <= usize::MAX,
            used == budget::tokens(mv.take(i as int)),
        decreases cut - i,
    {
        proof {
            assert(mv.take(i + 1).drop_last() =~= mv.take(i as int));
            assert(mv.take(i + 1).last() == msgs@[i as int]@);
            assert(mv.take(i + 1) =~= mv.subrange(0, i + 1));
            budget::lemma_tokens_part(mv, 0, i + 1);
        }
        match budget::msg_tokens_upto(&msgs[i], usize::MAX - used) {
            Some(n) => {
                used = used + n;
            },
            None => {},
        }
        i = i + 1;
    }
    used
}

/// Split the first `cut` messages into up to MAX_CHECKPOINTS spans, never breaking between a tool
/// call and its result.
pub fn chunk(msgs: &Vec<Msg>, cut: usize) -> (r: Vec<(usize, usize)>)
    requires
        cut <= msgs@.len(),
        budget::tokens(model::msg_views(msgs@)) <= usize::MAX,
    ensures
        span_views(r@) == spans_of(model::msg_views(msgs@), cut as int),
{
    let ghost mv = model::msg_views(msgs@);
    let mut out: Vec<(usize, usize)> = Vec::new();
    proof {
        assert(span_views(out@) =~= Seq::empty());
    }
    if cut == 0 {
        return out;
    }
    let total = token_sum(msgs, cut);
    let rounds: usize = total / CHUNK_TOKENS + if total % CHUNK_TOKENS > 0 {
        1
    } else {
        0
    };
    let n: usize = if rounds < 1 {
        1
    } else if rounds > MAX_CHECKPOINTS {
        MAX_CHECKPOINTS
    } else {
        rounds
    };
    proof {
        assert(total % n > 0 ==> total / n < usize::MAX) by (nonlinear_arith)
            requires
                n >= 1,
        ;
    }
    let target: usize = total / n + if total % n > 0 {
        1
    } else {
        0
    };
    proof {
        assert(rounds == (total + CHUNK_TOKENS - 1) / CHUNK_TOKENS as int);
        lemma_ceil(total as int, n as int);
        assert(target == (total + n - 1) / n as int);
    }
    let mut start: usize = 0;
    let mut acc: usize = 0;
    let mut i: usize = 0;
    while i < cut
        invariant
            mv == model::msg_views(msgs@),
            i <= cut <= msgs@.len(),
            budget::tokens(mv) <= usize::MAX,
            start <= i,
            1 <= n <= MAX_CHECKPOINTS,
            ({
                let s = span_scan(mv, i as int, n as int, target as int);
                &&& span_views(out@) == s.done
                &&& start == s.start
                &&& acc == s.acc
            }),
            acc == budget::tokens(mv.subrange(start as int, i as int)),
        decreases cut - i,
    {
        let m = &msgs[i];
        proof {
            assert(mv[i as int] == m@);
        }
        if acc >= target && !is_tool(m) && out.len() < n - 1 {
            proof {
                assert(span_views(out@.push((start, i))) =~= span_views(out@).push(
                    (start as int, i as int),
                ));
            }
            out.push((start, i));
            start = i;
            acc = 0;
            proof {
                assert(mv.subrange(i as int, i as int) =~= Seq::empty());
                assert(budget::tokens(Seq::<MsgV>::empty()) == 0);
            }
        }
        proof {
            let part = mv.subrange(start as int, i + 1);
            assert(part.drop_last() =~= mv.subrange(start as int, i as int));
            assert(part.last() == m@);
            assert(acc == budget::tokens(part.drop_last()));
            assert(budget::tokens(part) == acc + budget::msg_tokens(m@));
            budget::lemma_tokens_part(mv, start as int, i + 1);
        }
        match budget::msg_tokens_upto(m, usize::MAX - acc) {
            Some(t) => {
                acc = acc + t;
            },
            None => {},
        }
        i = i + 1;
    }
    proof {
        assert(span_views(out@.push((start, cut))) =~= span_views(out@).push(
            (start as int, cut as int),
        ));
    }
    out.push((start, cut));
    out
}

proof fn lemma_ceil(a: int, n: int)
    requires
        a >= 0,
        n >= 1,
    ensures
        (a + n - 1) / n == a / n + if a % n > 0 {
            1int
        } else {
            0int
        },
{
    let q = a / n;
    let r = a % n;
    vstd::arithmetic::div_mod::lemma_fundamental_div_mod(a, n);
    if r > 0 {
        assert((q + 1) * n == q * n + n) by (nonlinear_arith);
        vstd::arithmetic::div_mod::lemma_fundamental_div_mod_converse(
            a + n - 1,
            n,
            q + 1,
            r - 1,
        );
    } else {
        vstd::arithmetic::div_mod::lemma_fundamental_div_mod_converse(a + n - 1, n, q, n - 1);
    }
}

/// What a compacted session is built from: the size of the original, in tokens, and the window it
/// did not fit.
pub ghost struct Origin {
    pub total: nat,
    pub window: nat,
}

/// The note that opens a compacted session.
pub open spec fn banner(o: Origin, count: nat, cut: nat, n: nat) -> Seq<char> {
    "[bodysnatcher] This session was compacted on import: the original history (~"@
        + text::decimal(o.total / 1000) + "k tokens, "@ + text::decimal(count)
        + " messages) exceeded the target model's "@ + text::decimal(o.window / 1000)
        + "k-token context window. The oldest "@ + text::decimal(cut)
        + " messages are summarized in "@ + text::decimal(n)
        + " checkpoint(s); the most recent "@ + text::decimal((count - cut) as nat)
        + " messages follow verbatim.\n\n"@
}

/// The line that opens a checkpoint.
pub open spec fn checkpoint_line(k: nat, n: nat, a: nat, b: nat, count: nat) -> Seq<char> {
    "[bodysnatcher checkpoint "@ + text::decimal(k + 1) + "/"@ + text::decimal(n) + " · messages "@
        + text::decimal(a + 1) + "–"@ + text::decimal(b) + " of "@ + text::decimal(count) + "]\n"@
}

/// What checkpoint `k` says.
pub open spec fn checkpoint_text(
    o: Origin,
    msgs: Seq<MsgV>,
    cut: int,
    detail: Detail,
    k: int,
) -> Seq<char> {
    let spans = spans_of(msgs, cut);
    let (a, b) = spans[k];
    let line = checkpoint_line(k as nat, spans.len(), a as nat, b as nat, msgs.len());
    let opening = if k == 0 {
        banner(o, msgs.len(), cut as nat, spans.len()) + line
    } else {
        line
    };
    opening + digest::digest_text(msgs.subrange(a, b), detail)
}

/// The answer to checkpoint `k`.
pub open spec fn checkpoint_reply(k: nat, n: nat) -> Seq<char> {
    "Checkpoint "@ + text::decimal(k + 1) + "/"@ + text::decimal(n) + " noted."@
}

/// A message of one text.
pub open spec fn text_msg(role: Role, t: Seq<char>, ts: Option<Seq<char>>) -> MsgV {
    MsgV { role, blocks: seq![BlockV::Text(t)], ts }
}

/// The messages of the first `k` checkpoints.
pub open spec fn checkpoints(
    o: Origin,
    msgs: Seq<MsgV>,
    cut: int,
    detail: Detail,
    k: int,
) -> Seq<MsgV>
    decreases k,
{
    if k <= 0 {
        Seq::empty()
    } else {
        let spans = spans_of(msgs, cut);
        let ts = msgs[spans[k - 1].1 - 1].ts;
        checkpoints(o, msgs, cut, detail, k - 1).push(
            text_msg(Role::User, checkpoint_text(o, msgs, cut, detail, k - 1), ts),
        ).push(
            text_msg(Role::Assistant, checkpoint_reply((k - 1) as nat, spans.len()), ts),
        )
    }
}

/// The messages that stand for the first `cut` ones. Where the tail opens with the assistant, the
/// last reply is left out to keep roles alternating.
pub open spec fn folded(o: Origin, msgs: Seq<MsgV>, cut: int, detail: Detail) -> Seq<MsgV> {
    let all = checkpoints(o, msgs, cut, detail, spans_of(msgs, cut).len() as int);
    if cut < msgs.len() && msgs[cut].role != Role::User && all.len() > 0 {
        all.drop_last()
    } else {
        all
    }
}

/// Checkpoints for the first `cut` messages, the others verbatim.
pub open spec fn built(o: Origin, msgs: Seq<MsgV>, cut: int, detail: Detail) -> Seq<MsgV> {
    folded(o, msgs, cut, detail) + msgs.skip(cut)
}

fn add_number(out: &mut String, n: usize)
    ensures
        final(out)@ == old(out)@ + text::decimal(n as nat),
{
    let d = text::to_decimal(n as u64);
    text::append(out, d.as_str());
}

fn banner_text(total: usize, window: usize, count: usize, cut: usize, n: usize) -> (r: String)
    requires
        cut <= count,
    ensures
        r@ == banner(
            Origin { total: total as nat, window: window as nat },
            count as nat,
            cut as nat,
            n as nat,
        ),
{
    let mut r =
        "[bodysnatcher] This session was compacted on import: the original history (~".to_owned();
    add_number(&mut r, total / 1000);
    text::append(&mut r, "k tokens, ");
    add_number(&mut r, count);
    text::append(&mut r, " messages) exceeded the target model's ");
    add_number(&mut r, window / 1000);
    text::append(&mut r, "k-token context window. The oldest ");
    add_number(&mut r, cut);
    text::append(&mut r, " messages are summarized in ");
    add_number(&mut r, n);
    text::append(&mut r, " checkpoint(s); the most recent ");
    add_number(&mut r, count - cut);
    text::append(&mut r, " messages follow verbatim.\n\n");
    r
}

fn line_text(k: usize, n: usize, a: usize, b: usize, count: usize) -> (r: String)
    requires
        k < n,
        a < b,
    ensures
        r@ == checkpoint_line(k as nat, n as nat, a as nat, b as nat, count as nat),
{
    let mut r = "[bodysnatcher checkpoint ".to_owned();
    add_number(&mut r, k + 1);
    text::append(&mut r, "/");
    add_number(&mut r, n);
    text::append(&mut r, " · messages ");
    add_number(&mut r, a + 1);
    text::append(&mut r, "–");
    add_number(&mut r, b);
    text::append(&mut r, " of ");
    add_number(&mut r, count);
    text::append(&mut r, "]\n");
    r
}

fn reply_text(k: usize, n: usize) -> (r: String)
    requires
        k < n,
    ensures
        r@ == checkpoint_reply(k as nat, n as nat),
{
    let mut r = "Checkpoint ".to_owned();
    add_number(&mut r, k + 1);
    text::append(&mut r, "/");
    add_number(&mut r, n);
    text::append(&mut r, " noted.");
    r
}

fn text_message(role: Role, t: String, ts: &Option<String>) -> (m: Msg)
    ensures
        m@ == text_msg(role, t@, model::opt_view(*ts)),
{
    let b = Block::Text(t);
    let mut blocks: Vec<Block> = Vec::new();
    proof {
        parse::lemma_block_push(blocks@, b);
        assert(model::block_views(blocks@).push(b@) =~= seq![b@]);
    }
    blocks.push(b);
    Msg { role, blocks, ts: model::clone_opt(ts) }
}

/// Checkpoint pairs for `msgs[..cut]`, followed by `msgs[cut..]` verbatim.
pub fn build(msgs: &Vec<Msg>, cut: usize, detail: Detail, total: usize, window: usize) -> (r: Vec<
    Msg,
>)
    requires
        cut <= msgs@.len(),
        budget::tokens(model::msg_views(msgs@)) <= usize::MAX,
    ensures
        model::msg_views(r@) == built(
            Origin { total: total as nat, window: window as nat },
            model::msg_views(msgs@),
            cut as int,
            detail,
        ),
{
    let ghost mv = model::msg_views(msgs@);
    let ghost o = Origin { total: total as nat, window: window as nat };
    let spans = chunk(msgs, cut);
    let n = spans.len();
    let count = msgs.len();
    let mut out: Vec<Msg> = Vec::new();
    let mut k: usize = 0;
    proof {
        lemma_spans(mv, cut as int);
        assert(model::msg_views(out@) =~= Seq::empty());
    }
    while k < n
        invariant
            mv == model::msg_views(msgs@),
            count == msgs@.len(),
            cut <= count,
            n == spans@.len(),
            span_views(spans@) == spans_of(mv, cut as int),
            spans_cover(mv, spans_of(mv, cut as int), cut as int),
            o == (Origin { total: total as nat, window: window as nat }),
            k <= n,
            model::msg_views(out@) == checkpoints(o, mv, cut as int, detail, k as int),
        decreases n - k,
    {
        let (a, b) = spans[k];
        proof {
            let sp = spans_of(mv, cut as int);
            assert(span_views(spans@)[k as int] == sp[k as int]);
            lemma_span_bounds(mv, sp, cut as int, k as int);
        }
        let mut t = if k == 0 {
            banner_text(total, window, count, cut, n)
        } else {
            String::new()
        };
        let line = line_text(k, n, a, b, count);
        text::append(&mut t, line.as_str());
        let body = digest::digest(msgs, a, b, detail);
        text::append(&mut t, body.as_str());
        proof {
            assert(t@ =~= checkpoint_text(o, mv, cut as int, detail, k as int));
        }
        let reply = reply_text(k, n);
        let user = text_message(Role::User, t, &msgs[b - 1].ts);
        let answer = text_message(Role::Assistant, reply, &msgs[b - 1].ts);
        proof {
            assert(mv[b - 1] == msgs@[b - 1]@);
            parse::lemma_msg_push(out@, user);
            parse::lemma_msg_push(out@.push(user), answer);
        }
        out.push(user);
        out.push(answer);
        k = k + 1;
    }
    if cut < msgs.len() {
        proof {
            assert(mv[cut as int] == msgs@[cut as int]@);
        }
        let tail_is_user = match msgs[cut].role {
            Role::User => true,
            _ => false,
        };
        if !tail_is_user {
            let ghost all = out@;
            let _ = out.pop();
            proof {
                if all.len() > 0 {
                    assert(model::msg_views(out@) =~= model::msg_views(all).drop_last());
                }
            }
        }
    }
    let ghost head = model::msg_views(out@);
    let mut j: usize = cut;
    proof {
        assert(head == folded(o, mv, cut as int, detail));
        assert(head + mv.subrange(cut as int, cut as int) =~= head);
    }
    while j < msgs.len()
        invariant
            mv == model::msg_views(msgs@),
            cut <= j <= msgs@.len(),
            model::msg_views(out@) == head + mv.subrange(cut as int, j as int),
        decreases msgs@.len() - j,
    {
        let m = msgs[j].clone();
        proof {
            parse::lemma_msg_push(out@, m);
            assert(head + mv.subrange(cut as int, j + 1) =~= (head + mv.subrange(
                cut as int,
                j as int,
            )).push(m@));
        }
        out.push(m);
        j = j + 1;
    }
    proof {
        assert(mv.subrange(cut as int, j as int) =~= mv.skip(cut as int));
    }
    out
}

/// A span lies within what it is a part of.
pub(crate) proof fn lemma_span_bounds(msgs: Seq<MsgV>, spans: Seq<(int, int)>, end: int, k: int)
    requires
        spans_cover(msgs, spans, end),
        0 <= k < spans.len(),
    ensures
        0 <= spans[k].0 < spans[k].1 <= end,
    decreases spans.len() - k,
{
    lemma_span_start(msgs, spans, end, k);
    if k + 1 < spans.len() {
        lemma_span_bounds(msgs, spans, end, k + 1);
        assert(spans[k].1 == spans[k + 1].0);
    }
}

proof fn lemma_span_start(msgs: Seq<MsgV>, spans: Seq<(int, int)>, end: int, k: int)
    requires
        spans_cover(msgs, spans, end),
        0 <= k < spans.len(),
    ensures
        0 <= spans[k].0 < spans[k].1,
    decreases k,
{
    if k > 0 {
        lemma_span_start(msgs, spans, end, k - 1);
        assert(spans[k - 1].1 == spans[k].0);
    }
}

/// A text with its middle left out where it takes more than `max` bytes: the longest start and the
/// longest end that take half of that each, and a note of how much is gone.
pub open spec fn elided(s: Seq<char>, max: nat) -> Seq<char> {
    if text::blen(s) <= max {
        s
    } else {
        let head = digest::byte_prefix(s, max / 2);
        let tail = digest::byte_suffix(s, max / 2);
        head + "\n[… "@ + text::decimal(
            (text::blen(s) - text::blen(head) - text::blen(tail)) as nat,
        ) + " bytes elided by bodysnatcher …]\n"@ + tail
    }
}

/// A block with what it says shortened; a tool call stays whole.
pub open spec fn elided_block(b: BlockV, max: nat) -> BlockV {
    match b {
        BlockV::Text(t) => BlockV::Text(elided(t, max)),
        BlockV::Thinking(t) => BlockV::Thinking(elided(t, max)),
        BlockV::ToolCall { id, name, args } => b,
        BlockV::ToolResult { call_id, name, content, is_error } => BlockV::ToolResult {
            call_id,
            name,
            content: elided(content, max),
            is_error,
        },
    }
}

pub open spec fn elided_msg(m: MsgV, max: nat) -> MsgV {
    MsgV { blocks: m.blocks.map_values(|b: BlockV| elided_block(b, max)), ..m }
}

/// The messages with those from `head` on shortened.
pub open spec fn elided_tail(msgs: Seq<MsgV>, head: int, max: nat) -> Seq<MsgV> {
    Seq::new(
        msgs.len(),
        |i: int|
            if i < head {
                msgs[i]
            } else {
                elided_msg(msgs[i], max)
            },
    )
}

fn elide(s: &str, max: usize) -> (r: String)
    ensures
        r@ == elided(s@, max as nat),
{
    let len = text::byte_len(s);
    if len <= max {
        return s.to_owned();
    }
    let half: usize = max / 2;
    let v = text::chars_of(s);
    let (a, head_bytes) = digest::prefix_len(&v, half);
    let (z, tail_bytes) = digest::suffix_start(&v, half);
    proof {
        assert(v@.subrange(0, a as int) =~= v@.take(a as int));
        assert(v@.subrange(z as int, v@.len() as int) =~= v@.skip(z as int));
    }
    let mut r = text::slice(&v, 0, a);
    text::append(&mut r, "\n[… ");
    add_number(&mut r, len - head_bytes - tail_bytes);
    text::append(&mut r, " bytes elided by bodysnatcher …]\n");
    let tail = text::slice(&v, z, v.len());
    text::append(&mut r, tail.as_str());
    r
}

/// Keep head and tail of an oversized block, noting how much was dropped.
pub fn clip_block(b: &Block, max: usize) -> (r: Block)
    ensures
        r@ == elided_block(b@, max as nat),
{
    match b {
        Block::Text(t) => Block::Text(elide(t.as_str(), max)),
        Block::Thinking(t) => Block::Thinking(elide(t.as_str(), max)),
        Block::ToolCall { id, name, args } => b.clone(),
        Block::ToolResult { call_id, name, content, is_error } => Block::ToolResult {
            call_id: call_id.clone(),
            name: model::clone_opt(name),
            content: elide(content.as_str(), max),
            is_error: *is_error,
        },
    }
}

fn clip_msg(m: &Msg, max: usize) -> (r: Msg)
    ensures
        r@ == elided_msg(m@, max as nat),
{
    let ghost all = elided_msg(m@, max as nat).blocks;
    let mut blocks: Vec<Block> = Vec::new();
    let mut i: usize = 0;
    proof {
        assert(model::block_views(blocks@) =~= all.take(0));
    }
    while i < m.blocks.len()
        invariant
            all == elided_msg(m@, max as nat).blocks,
            i <= m.blocks@.len(),
            model::block_views(blocks@) == all.take(i as int),
        decreases m.blocks@.len() - i,
    {
        let b = clip_block(&m.blocks[i], max);
        proof {
            assert(m@.blocks[i as int] == m.blocks@[i as int]@);
            parse::lemma_block_push(blocks@, b);
            assert(all.take(i + 1) =~= all.take(i as int).push(b@));
        }
        blocks.push(b);
        i = i + 1;
    }
    proof {
        assert(all.take(i as int) =~= all);
    }
    Msg { role: m.role, blocks, ts: model::clone_opt(&m.ts) }
}

fn clip_tail(msgs: &Vec<Msg>, head: usize, max: usize) -> (r: Vec<Msg>)
    ensures
        model::msg_views(r@) == elided_tail(model::msg_views(msgs@), head as int, max as nat),
{
    let ghost all = elided_tail(model::msg_views(msgs@), head as int, max as nat);
    let mut r: Vec<Msg> = Vec::new();
    let mut i: usize = 0;
    proof {
        assert(model::msg_views(r@) =~= all.take(0));
    }
    while i < msgs.len()
        invariant
            all == elided_tail(model::msg_views(msgs@), head as int, max as nat),
            i <= msgs@.len(),
            model::msg_views(r@) == all.take(i as int),
        decreases msgs@.len() - i,
    {
        let m = if i < head {
            msgs[i].clone()
        } else {
            clip_msg(&msgs[i], max)
        };
        proof {
            parse::lemma_msg_push(r@, m);
            assert(all.take(i + 1) =~= all.take(i as int).push(m@));
        }
        r.push(m);
        i = i + 1;
    }
    proof {
        assert(all.take(i as int) =~= all);
    }
    r
}

/// The messages with those from `head` on shortened by halves, until they fit or the halves are
/// small.
pub open spec fn squeezed(msgs: Seq<MsgV>, head: int, max: nat, budget: nat) -> Seq<MsgV>
    decreases max,
{
    if budget::tokens(msgs) > budget && max > 256 {
        squeezed(elided_tail(msgs, head, max / 2), head, max / 2, budget)
    } else {
        msgs
    }
}

fn squeeze(msgs: Vec<Msg>, head: usize, limit: usize) -> (r: Vec<Msg>)
    ensures
        model::msg_views(r@) == squeezed(
            model::msg_views(msgs@),
            head as int,
            64_000,
            limit as nat,
        ),
{
    let ghost all = squeezed(model::msg_views(msgs@), head as int, 64_000, limit as nat);
    let mut out = msgs;
    let mut max: usize = 64_000;
    while max > 256 && !budget::within_budget(&out, limit)
        invariant
            all == squeezed(model::msg_views(out@), head as int, max as nat, limit as nat),
        decreases max,
    {
        max = max / 2;
        out = clip_tail(&out, head, max);
    }
    out
}

/// How much of the budget the tail may take in attempt `k`, in percent.
pub open spec fn keep_share(k: int) -> int {
    if k < 3 {
        50
    } else if k < 6 {
        30
    } else if k < 9 {
        15
    } else {
        5
    }
}

/// How much the checkpoints say in attempt `k`.
pub open spec fn keep_detail(k: int) -> Detail {
    if k % 3 == 0 {
        Detail::Full
    } else if k % 3 == 1 {
        Detail::Brief
    } else {
        Detail::Minimal
    }
}

/// Attempt `k` at a session that fits: less and less of the tail, and for each tail less and less
/// detail.
pub open spec fn attempt(o: Origin, msgs: Seq<MsgV>, budget: nat, k: int) -> Seq<MsgV> {
    let cut = tail_start_of(msgs, budget * keep_share(k) as nat / 100);
    built(o, msgs, cut, keep_detail(k))
}

/// The last resort: a tail that begins at `cut` with its long blocks shortened, and a shorter one
/// while that does not fit.
pub open spec fn last_resort(o: Origin, msgs: Seq<MsgV>, budget: nat, cut: int) -> Seq<MsgV>
    decreases msgs.len() - cut,
{
    let head = folded(o, msgs, cut, Detail::Minimal).len() as int;
    let out = squeezed(built(o, msgs, cut, Detail::Minimal), head, 64_000, budget);
    if 0 <= cut < msgs.len() && budget::tokens(out) > budget {
        proof {
            lemma_run_end(msgs, cut + 1);
        }
        last_resort(o, msgs, budget, turns::run_end(msgs, cut + 1))
    } else {
        out
    }
}

/// What the last resort comes to. Where it does not fit, checkpoints of the least detail take its
/// place, as long as they do.
pub open spec fn settled(o: Origin, msgs: Seq<MsgV>, budget: nat, out: Seq<MsgV>) -> Seq<MsgV> {
    let least = built(o, msgs, msgs.len() as int, Detail::Least);
    if budget::tokens(out) > budget && budget::tokens(least) <= budget {
        least
    } else {
        out
    }
}

/// The first attempt from `k` on that fits, or the last resort.
pub open spec fn first_fit(o: Origin, msgs: Seq<MsgV>, budget: nat, k: int) -> Seq<MsgV>
    decreases 12 - k,
{
    if k >= 12 {
        settled(o, msgs, budget, last_resort(o, msgs, budget, tail_start_of(msgs, budget / 20)))
    } else if budget::tokens(attempt(o, msgs, budget, k)) <= budget {
        attempt(o, msgs, budget, k)
    } else {
        first_fit(o, msgs, budget, k + 1)
    }
}

/// The compacted session; none where the session fits as it is.
pub open spec fn compacted(msgs: Seq<MsgV>, lim: Limits) -> Option<Seq<MsgV>> {
    if lim.admits(budget::tokens(msgs) as int) {
        None
    } else {
        let o = Origin { total: budget::tokens(msgs), window: lim.window as nat };
        Some(first_fit(o, msgs, lim.budget as nat, 0))
    }
}

fn share_of(limit: usize, k: usize) -> (r: usize)
    ensures
        r == limit * keep_share(k as int) / 100,
{
    if k < 3 {
        limit / 100 * 50 + limit % 100 * 50 / 100
    } else if k < 6 {
        limit / 100 * 30 + limit % 100 * 30 / 100
    } else if k < 9 {
        limit / 100 * 15 + limit % 100 * 15 / 100
    } else {
        limit / 100 * 5 + limit % 100 * 5 / 100
    }
}

/// Compacted history, or `None` when the session already fits the target.
pub fn compact(msgs: &Vec<Msg>, lim: Limits) -> (r: Option<Vec<Msg>>)
    requires
        budget::tokens(model::msg_views(msgs@)) <= usize::MAX,
    ensures
        match r {
            Some(out) => {
                &&& compacted(model::msg_views(msgs@), lim) == Some(model::msg_views(out@))
                &&& lim.budget >= landing::LEAST_BUDGET ==> budget::tokens(model::msg_views(out@))
                    <= lim.budget
            },
            None => compacted(model::msg_views(msgs@), lim) is None,
        },
{
    let ghost mv = model::msg_views(msgs@);
    proof {
        landing::lemma_sized(msgs);
        if lim.budget >= landing::LEAST_BUDGET {
            landing::lemma_lands(mv, lim);
        }
    }
    let total = budget::estimate(msgs);
    if lim.fits(total) {
        return None;
    }
    let ghost o = Origin { total: total as nat, window: lim.window as nat };
    let ghost all = first_fit(o, mv, lim.budget as nat, 0);
    let mut k: usize = 0;
    while k < 12
        invariant
            mv == model::msg_views(msgs@),
            budget::tokens(mv) <= usize::MAX,
            o == (Origin { total: total as nat, window: lim.window as nat }),
            compacted(mv, lim) == Some(all),
            lim.budget >= landing::LEAST_BUDGET ==> budget::tokens(all) <= lim.budget,
            k <= 12,
            all == first_fit(o, mv, lim.budget as nat, k as int),
        decreases 12 - k,
    {
        let cut = tail_start(msgs, share_of(lim.budget, k));
        let detail = if k % 3 == 0 {
            Detail::Full
        } else if k % 3 == 1 {
            Detail::Brief
        } else {
            Detail::Minimal
        };
        let out = build(msgs, cut, detail, total, lim.window);
        proof {
            assert(model::msg_views(out@) == attempt(o, mv, lim.budget as nat, k as int));
        }
        if budget::within_budget(&out, lim.budget) {
            return Some(out);
        }
        k = k + 1;
    }
    let mut cut = tail_start(msgs, lim.budget / 20);
    loop
        invariant
            mv == model::msg_views(msgs@),
            budget::tokens(mv) <= usize::MAX,
            o == (Origin { total: total as nat, window: lim.window as nat }),
            compacted(mv, lim) == Some(all),
            lim.budget >= landing::LEAST_BUDGET ==> budget::tokens(all) <= lim.budget,
            cut <= msgs@.len(),
            all == settled(
                o,
                mv,
                lim.budget as nat,
                last_resort(o, mv, lim.budget as nat, cut as int),
            ),
        decreases msgs@.len() - cut,
    {
        let out = build(msgs, cut, Detail::Minimal, total, lim.window);
        let ghost bv = model::msg_views(out@);
        let head: usize = out.len() - (msgs.len() - cut);
        proof {
            assert(head == folded(o, mv, cut as int, Detail::Minimal).len());
        }
        let out = squeeze(out, head, lim.budget);
        if budget::within_budget(&out, lim.budget) {
            return Some(out);
        }
        if cut >= msgs.len() {
            let least = build(msgs, msgs.len(), Detail::Least, total, lim.window);
            if budget::within_budget(&least, lim.budget) {
                return Some(least);
            }
            return Some(out);
        }
        cut = turn_from(msgs, cut + 1);
    }
}

/// As `compact`, for messages of any size: none where their tokens cannot be counted.
pub fn try_compact(msgs: &Vec<Msg>, lim: Limits) -> (r: Option<Option<Vec<Msg>>>)
    ensures
        match r {
            Some(c) => budget::tokens(model::msg_views(msgs@)) <= usize::MAX && match c {
                Some(out) => {
                    &&& compacted(model::msg_views(msgs@), lim) == Some(model::msg_views(out@))
                    &&& lim.budget >= landing::LEAST_BUDGET ==> budget::tokens(
                        model::msg_views(out@),
                    ) <= lim.budget
                },
                None => compacted(model::msg_views(msgs@), lim) is None,
            },
            None => budget::tokens(model::msg_views(msgs@)) > usize::MAX,
        },
{
    match budget::tokens_upto(msgs, usize::MAX) {
        Some(_) => Some(compact(msgs, lim)),
        None => None,
    }
}

/// A place where a tail may begin: a message that is no tool result, or the end.
pub open spec fn tail_place(msgs: Seq<MsgV>, cut: int) -> bool {
    0 <= cut <= msgs.len() && (cut < msgs.len() ==> msgs[cut].role != Role::Tool)
}

proof fn lemma_tail_place(msgs: Seq<MsgV>, keep: nat)
    ensures
        tail_place(msgs, tail_start_of(msgs, keep)),
{
    lemma_tail_start(msgs, keep);
}

/// Where nothing is left to shorten, nothing changes.
proof fn lemma_squeeze_nothing(msgs: Seq<MsgV>, max: nat, budget: nat)
    ensures
        squeezed(msgs, msgs.len() as int, max, budget) == msgs,
    decreases max,
{
    assert(elided_tail(msgs, msgs.len() as int, max / 2) =~= msgs);
    if budget::tokens(msgs) > budget && max > 256 {
        lemma_squeeze_nothing(msgs, max / 2, budget);
    }
}

proof fn lemma_last_resort(o: Origin, msgs: Seq<MsgV>, budget: nat, cut: int)
    requires
        tail_place(msgs, cut),
    ensures
        budget::tokens(last_resort(o, msgs, budget, cut)) <= budget || last_resort(
            o,
            msgs,
            budget,
            cut,
        ) == folded(o, msgs, msgs.len() as int, Detail::Minimal),
        exists|c: int|
            tail_place(msgs, c) && last_resort(o, msgs, budget, cut) == squeezed(
                #[trigger] built(o, msgs, c, Detail::Minimal),
                folded(o, msgs, c, Detail::Minimal).len() as int,
                64_000,
                budget,
            ),
    decreases msgs.len() - cut,
{
    let head = folded(o, msgs, cut, Detail::Minimal);
    let all = built(o, msgs, cut, Detail::Minimal);
    let out = squeezed(all, head.len() as int, 64_000, budget);
    if cut < msgs.len() && budget::tokens(out) > budget {
        lemma_run_end(msgs, cut + 1);
        lemma_last_resort(o, msgs, budget, turns::run_end(msgs, cut + 1));
    } else {
        assert(last_resort(o, msgs, budget, cut) == out);
        if cut == msgs.len() {
            assert(msgs.skip(cut) =~= Seq::empty());
            assert(all =~= head);
            lemma_squeeze_nothing(head, 64_000, budget);
        }
    }
}

/// A session compacted as checkpoints and a tail: the tail verbatim, or with its long blocks
/// shortened.
pub open spec fn checkpointed(o: Origin, msgs: Seq<MsgV>, out: Seq<MsgV>, budget: nat) -> bool {
    exists|cut: int, detail: Detail|
        tail_place(msgs, cut) && {
            let whole = #[trigger] built(o, msgs, cut, detail);
            out == whole || out == squeezed(
                whole,
                folded(o, msgs, cut, detail).len() as int,
                64_000,
                budget,
            )
        }
}

proof fn lemma_first_fit(o: Origin, msgs: Seq<MsgV>, budget: nat, k: int)
    ensures
        budget::tokens(first_fit(o, msgs, budget, k)) <= budget || first_fit(o, msgs, budget, k)
            == folded(o, msgs, msgs.len() as int, Detail::Minimal) && budget::tokens(
            folded(o, msgs, msgs.len() as int, Detail::Least),
        ) > budget,
        checkpointed(o, msgs, first_fit(o, msgs, budget, k), budget),
    decreases 12 - k,
{
    if k >= 12 {
        lemma_tail_place(msgs, budget / 20);
        let cut = tail_start_of(msgs, budget / 20);
        lemma_last_resort(o, msgs, budget, cut);
        let c = choose|c: int|
            tail_place(msgs, c) && last_resort(o, msgs, budget, cut) == squeezed(
                #[trigger] built(o, msgs, c, Detail::Minimal),
                folded(o, msgs, c, Detail::Minimal).len() as int,
                64_000,
                budget,
            );
        assert(tail_place(msgs, c));
        assert(built(o, msgs, c, Detail::Minimal) == built(o, msgs, c, Detail::Minimal));
        let end = msgs.len() as int;
        assert(tail_place(msgs, end));
        assert(msgs.skip(end) =~= Seq::empty());
        assert(built(o, msgs, end, Detail::Least) =~= folded(o, msgs, end, Detail::Least));
    } else if budget::tokens(attempt(o, msgs, budget, k)) <= budget {
        let keep = budget * keep_share(k) as nat / 100;
        let cut = tail_start_of(msgs, keep);
        lemma_tail_place(msgs, keep);
        assert(attempt(o, msgs, budget, k) == built(o, msgs, cut, keep_detail(k)));
    } else {
        lemma_first_fit(o, msgs, budget, k + 1);
    }
}

/// A session is compacted only where it does not fit its target. The result takes no more tokens
/// than the budget, or holds nothing but checkpoints, and then those of the least detail would not
/// fit either. It is made of checkpoints for the oldest messages and a tail of the newest, which
/// never begins with a tool result.
pub proof fn lemma_compacted(msgs: Seq<MsgV>, lim: Limits)
    ensures
        compacted(msgs, lim) is None <==> budget::tokens(msgs) + budget::RESERVE <= lim.window,
        compacted(msgs, lim) matches Some(out) ==> {
            let o = Origin { total: budget::tokens(msgs), window: lim.window as nat };
            let end = msgs.len() as int;
            &&& budget::tokens(out) <= lim.budget || out == folded(o, msgs, end, Detail::Minimal)
                && budget::tokens(folded(o, msgs, end, Detail::Least)) > lim.budget
            &&& checkpointed(o, msgs, out, lim.budget as nat)
        },
{
    let o = Origin { total: budget::tokens(msgs), window: lim.window as nat };
    lemma_first_fit(o, msgs, lim.budget as nat, 0);
}

proof fn lemma_checkpoint_roles(o: Origin, msgs: Seq<MsgV>, cut: int, detail: Detail, k: int)
    requires
        k >= 0,
    ensures
        checkpoints(o, msgs, cut, detail, k).len() == 2 * k,
        forall|i: int|
            0 <= i < 2 * k ==> (#[trigger] checkpoints(o, msgs, cut, detail, k)[i]).role == if i % 2
                == 0 {
                Role::User
            } else {
                Role::Assistant
            },
    decreases k,
{
    if k > 0 {
        lemma_checkpoint_roles(o, msgs, cut, detail, k - 1);
        let before = checkpoints(o, msgs, cut, detail, k - 1);
        let all = checkpoints(o, msgs, cut, detail, k);
        assert forall|i: int| 0 <= i < 2 * k implies (#[trigger] all[i]).role == if i % 2 == 0 {
            Role::User
        } else {
            Role::Assistant
        } by {
            if i < before.len() {
                assert(all[i] == before[i]);
            }
        }
    }
}

/// Checkpoints alternate between user and assistant, beginning with the user, and a tail that
/// opens with the assistant follows a user message.
pub proof fn lemma_roles_alternate(o: Origin, msgs: Seq<MsgV>, cut: int, detail: Detail)
    requires
        0 <= cut <= msgs.len(),
    ensures
        ({
            let head = folded(o, msgs, cut, detail);
            &&& forall|i: int|
                0 <= i < head.len() ==> (#[trigger] head[i]).role == if i % 2 == 0 {
                    Role::User
                } else {
                    Role::Assistant
                }
            &&& head.len() > 0 && cut < msgs.len() ==> head.last().role == if msgs[cut].role
                == Role::User {
                Role::Assistant
            } else {
                Role::User
            }
            &&& head.len() > 0 <==> cut > 0
        }),
{
    let n = spans_of(msgs, cut).len() as int;
    let all = checkpoints(o, msgs, cut, detail, n);
    let head = folded(o, msgs, cut, detail);
    lemma_spans(msgs, cut);
    lemma_checkpoint_roles(o, msgs, cut, detail, n);
    assert forall|i: int| 0 <= i < head.len() implies (#[trigger] head[i]).role == if i % 2 == 0 {
        Role::User
    } else {
        Role::Assistant
    } by {
        assert(head[i] == all[i]);
    }
    if head.len() > 0 {
        assert(head.last() == head[head.len() - 1]);
    }
}

/// The note that a session was compacted, and by how much.
pub open spec fn report_text(
    before: Seq<MsgV>,
    after: Seq<MsgV>,
    window: nat,
    target: Harness,
    brand: Brand,
) -> Seq<char> {
    "bodysnatcher: ~"@ + text::decimal(budget::tokens(before) / 1000) + "k tokens exceeds "@
        + target.full_text(brand) + "'s "@ + text::decimal(window / 1000)
        + "k context window; compacted "@ + text::decimal(before.len()) + " msgs -> "@
        + text::decimal(after.len()) + " (~"@ + text::decimal(budget::tokens(after) / 1000)
        + "k tokens) into a new session"@
}

/// One-line note that a session was compacted, and by how much.
pub fn report(
    before: &Vec<Msg>,
    after: &Vec<Msg>,
    lim: Limits,
    target: Harness,
    brand: &Brand,
) -> (r: String)
    requires
        budget::tokens(model::msg_views(before@)) <= usize::MAX,
        budget::tokens(model::msg_views(after@)) <= usize::MAX,
    ensures
        r@ == report_text(
            model::msg_views(before@),
            model::msg_views(after@),
            lim.window as nat,
            target,
            *brand,
        ),
{
    let mut r = "bodysnatcher: ~".to_owned();
    add_number(&mut r, budget::estimate(before) / 1000);
    text::append(&mut r, "k tokens exceeds ");
    text::append(&mut r, target.full(brand));
    text::append(&mut r, "'s ");
    add_number(&mut r, lim.window / 1000);
    text::append(&mut r, "k context window; compacted ");
    add_number(&mut r, before.len());
    text::append(&mut r, " msgs -> ");
    add_number(&mut r, after.len());
    text::append(&mut r, " (~");
    add_number(&mut r, budget::estimate(after) / 1000);
    text::append(&mut r, "k tokens) into a new session");
    r
}

} // verus!
