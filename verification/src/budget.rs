//! Context windows, landing budgets, and how large a session is.

use crate::json;
use crate::json::Tree;
use crate::model;
use crate::model::{Block, BlockV, Harness, Msg, MsgV, Role};
use crate::text;
use crate::window;
use crate::window::Config;
use vstd::prelude::*;

verus! {

/// Tokens set aside for the harness' own system prompt and tool schemas.
pub const RESERVE: usize = 32_000;

/// Default landing size for a compacted session.
pub const DEFAULT_BUDGET: usize = 200_000;

/// User-facing knobs (CLI flags). `None` means auto-detect / default.
#[derive(Clone, Copy, Debug)]
pub struct Policy {
    pub window: Option<usize>,
    pub budget: Option<usize>,
    pub disabled: bool,
}

impl Default for Policy {
    fn default() -> (r: Policy)
        ensures
            r == (Policy { window: None, budget: None, disabled: false }),
    {
        Policy { window: None, budget: None, disabled: false }
    }
}

/// Size limits of a target, in tokens.
#[derive(Clone, Copy, Debug, PartialEq, Eq, Structural)]
pub struct Limits {
    /// Target model's context window.
    pub window: usize,
    /// Size a compacted session must land at.
    pub budget: usize,
}

/// The landing size for a window: what is asked for, at most 60% of the window, at least one.
pub open spec fn budget_for(window: int, budget: Option<usize>) -> int {
    let cap = window * 3 / 5;
    let wanted = match budget {
        Some(b) => b as int,
        None => DEFAULT_BUDGET as int,
    };
    let capped = if wanted < cap {
        wanted
    } else {
        cap
    };
    if capped < 1 {
        1
    } else {
        capped
    }
}

impl Limits {
    /// A session of that many tokens leaves the harness room to work.
    pub open spec fn admits(self, tokens: int) -> bool {
        tokens + RESERVE <= self.window
    }

    /// Budget defaults to 200k, capped at 60% of the window so the harness keeps room to work and
    /// to run its own compaction later.
    pub fn new(window: usize, budget: Option<usize>) -> (r: Limits)
        ensures
            r.window == window,
            r.budget == budget_for(window as int, budget),
    {
        let cap: usize = window / 5 * 3 + window % 5 * 3 / 5;
        let wanted: usize = match budget {
            Some(b) => b,
            None => DEFAULT_BUDGET,
        };
        let capped: usize = if wanted < cap {
            wanted
        } else {
            cap
        };
        Limits {
            window,
            budget: if capped < 1 {
                1
            } else {
                capped
            },
        }
    }

    pub fn fits(&self, tokens: usize) -> (r: bool)
        ensures
            r == self.admits(tokens as int),
    {
        self.window >= RESERVE && tokens <= self.window - RESERVE
    }

    /// Cheap pre-check from file size: serialized JSONL is at least as large as the content it
    /// carries (`weight` proves it where the messages hold no fractions), so a small file never
    /// needs a parse. A file without a size cannot overflow.
    pub fn file_may_overflow(&self, bytes: Option<usize>) -> (r: bool)
        ensures
            r == match bytes {
                Some(n) => !self.admits(n as int / 4),
                None => false,
            },
    {
        match bytes {
            Some(n) => !self.fits(n / 4),
            None => false,
        }
    }
}

impl Policy {
    /// Resolved limits for a target harness, or `None` when compaction is off.
    pub fn limits(&self, target: Harness, cfg: &Config) -> (r: Option<Limits>)
        ensures
            match r {
                Some(l) => !self.disabled && l.window == match self.window {
                    Some(w) => w,
                    None => window::window_of(target, *cfg),
                } && l.budget == budget_for(l.window as int, self.budget),
                None => self.disabled,
            },
    {
        if self.disabled {
            return None;
        }
        let size: usize = match self.window {
            Some(w) => w,
            None => window::detect_window(target, cfg),
        };
        Some(Limits::new(size, self.budget))
    }
}

/// Bytes of what a block says.
pub open spec fn block_bytes(b: BlockV) -> nat {
    match b {
        BlockV::Text(t) => text::blen(t),
        BlockV::Thinking(t) => text::blen(t),
        BlockV::ToolCall { id, name, args } => text::blen(name) + text::blen(
            json::printed(json::normal(args)),
        ),
        BlockV::ToolResult { call_id, name, content, is_error } => text::blen(content),
    }
}

pub open spec fn blocks_bytes(blocks: Seq<BlockV>) -> nat
    decreases blocks.len(),
{
    if blocks.len() == 0 {
        0
    } else {
        blocks_bytes(blocks.drop_last()) + block_bytes(blocks.last())
    }
}

/// Approximate tokens of a message: four to begin with, and one for every four bytes.
pub open spec fn msg_tokens(m: MsgV) -> nat {
    4 + blocks_bytes(m.blocks) / 4
}

/// Approximate tokens of messages.
pub open spec fn tokens(msgs: Seq<MsgV>) -> nat
    decreases msgs.len(),
{
    if msgs.len() == 0 {
        0
    } else {
        tokens(msgs.drop_last()) + msg_tokens(msgs.last())
    }
}

pub proof fn lemma_tokens_add(a: Seq<MsgV>, b: Seq<MsgV>)
    ensures
        tokens(a + b) == tokens(a) + tokens(b),
    decreases b.len(),
{
    if b.len() == 0 {
        assert(a + b =~= a);
    } else {
        assert((a + b).drop_last() =~= a + b.drop_last());
        lemma_tokens_add(a, b.drop_last());
    }
}

/// A part of a session is no larger than the whole.
pub proof fn lemma_tokens_part(msgs: Seq<MsgV>, i: int, j: int)
    requires
        0 <= i <= j <= msgs.len(),
    ensures
        tokens(msgs.subrange(i, j)) <= tokens(msgs),
{
    assert(msgs =~= msgs.subrange(0, i) + msgs.subrange(i, j) + msgs.subrange(
        j,
        msgs.len() as int,
    ));
    lemma_tokens_add(msgs.subrange(0, i), msgs.subrange(i, j));
    lemma_tokens_add(
        msgs.subrange(0, i) + msgs.subrange(i, j),
        msgs.subrange(j, msgs.len() as int),
    );
}

fn bytes_of(b: &Block) -> (n: u128)
    ensures
        n == block_bytes(b@),
{
    match b {
        Block::Text(t) => text::byte_len(t.as_str()) as u128,
        Block::Thinking(t) => text::byte_len(t.as_str()) as u128,
        Block::ToolCall { id, name, args } => {
            let p = args.print();
            text::byte_len(name.as_str()) as u128 + text::byte_len(p.as_str()) as u128
        },
        Block::ToolResult { call_id, name, content, is_error } => text::byte_len(
            content.as_str(),
        ) as u128,
    }
}

proof fn lemma_blocks_part(blocks: Seq<BlockV>, i: int)
    requires
        0 <= i <= blocks.len(),
    ensures
        blocks_bytes(blocks.take(i)) <= blocks_bytes(blocks),
    decreases blocks.len() - i,
{
    if i < blocks.len() {
        lemma_blocks_part(blocks, i + 1);
        assert(blocks.take(i + 1).drop_last() =~= blocks.take(i));
    } else {
        assert(blocks.take(i) =~= blocks);
    }
}

/// The tokens of a message, if they are at most `cap`.
pub fn msg_tokens_upto(m: &Msg, cap: usize) -> (r: Option<usize>)
    ensures
        match r {
            Some(n) => n == msg_tokens(m@) && n <= cap,
            None => msg_tokens(m@) > cap,
        },
{
    if cap < 4 {
        return None;
    }
    let room: u128 = 4 * (cap as u128 - 4) + 3;
    let ghost bs = m@.blocks;
    let mut used: u128 = 0;
    let mut i: usize = 0;
    while i < m.blocks.len()
        invariant
            bs == m@.blocks,
            bs == model::block_views(m.blocks@),
            cap >= 4,
            room == 4 * (cap - 4) + 3,
            i <= m.blocks@.len(),
            used == blocks_bytes(bs.take(i as int)),
            used <= room,
        decreases m.blocks@.len() - i,
    {
        let n = bytes_of(&m.blocks[i]);
        proof {
            assert(bs.take(i + 1).drop_last() =~= bs.take(i as int));
            assert(bs.take(i + 1).last() == m.blocks@[i as int]@);
            lemma_blocks_part(bs, i + 1);
        }
        if n > room - used {
            return None;
        }
        used = used + n;
        i = i + 1;
    }
    proof {
        assert(bs.take(i as int) =~= bs);
    }
    Some((4 + used / 4) as usize)
}

/// The tokens of messages, if they are at most `cap`.
pub fn tokens_upto(msgs: &Vec<Msg>, cap: usize) -> (r: Option<usize>)
    ensures
        match r {
            Some(n) => n == tokens(model::msg_views(msgs@)) && n <= cap,
            None => tokens(model::msg_views(msgs@)) > cap,
        },
{
    let ghost mv = model::msg_views(msgs@);
    let mut used: usize = 0;
    let mut i: usize = 0;
    while i < msgs.len()
        invariant
            mv == model::msg_views(msgs@),
            i <= msgs@.len(),
            used == tokens(mv.take(i as int)),
            used <= cap,
        decreases msgs@.len() - i,
    {
        proof {
            assert(mv.take(i + 1).drop_last() =~= mv.take(i as int));
            assert(mv.take(i + 1).last() == msgs@[i as int]@);
            assert(mv.take(i + 1) =~= mv.subrange(0, i + 1));
            lemma_tokens_part(mv, 0, i + 1);
        }
        match msg_tokens_upto(&msgs[i], cap - used) {
            Some(n) => {
                used = used + n;
            },
            None => {
                return None;
            },
        }
        i = i + 1;
    }
    proof {
        assert(mv.take(i as int) =~= mv);
    }
    Some(used)
}

/// Approximate token count (~4 bytes per token, which overestimates for non-ASCII text — the safe
/// direction).
pub fn estimate(msgs: &Vec<Msg>) -> (r: usize)
    requires
        tokens(model::msg_views(msgs@)) <= usize::MAX,
    ensures
        r == tokens(model::msg_views(msgs@)),
{
    match tokens_upto(msgs, usize::MAX) {
        Some(n) => n,
        None => 0,
    }
}

/// Whether messages take at most `budget` tokens.
pub fn within_budget(msgs: &Vec<Msg>, budget: usize) -> (r: bool)
    ensures
        r == (tokens(model::msg_views(msgs@)) <= budget),
{
    tokens_upto(msgs, budget).is_some()
}

/// Bytes of blocks add up.
proof fn lemma_blocks_add(a: Seq<BlockV>, b: Seq<BlockV>)
    ensures
        blocks_bytes(a + b) == blocks_bytes(a) + blocks_bytes(b),
    decreases b.len(),
{
    if b.len() == 0 {
        assert(a + b =~= a);
    } else {
        assert((a + b).drop_last() =~= a + b.drop_last());
        lemma_blocks_add(a, b.drop_last());
    }
}

/// A message of one block takes four tokens and one for every four bytes of what the block says:
/// the text of a text or a thought alike, the name and the printed arguments of a call, the content
/// of a result. Who says it and when takes nothing.
pub proof fn lemma_block_tokens(
    role: Role,
    ts: Option<Seq<char>>,
    t: Seq<char>,
    id: Seq<char>,
    name: Option<Seq<char>>,
    args: Tree,
    is_error: bool,
)
    ensures
        tokens(seq![MsgV { role, blocks: seq![BlockV::Text(t)], ts }]) == 4 + text::blen(t) / 4,
        tokens(seq![MsgV { role, blocks: seq![BlockV::Thinking(t)], ts }]) == 4 + text::blen(t) / 4,
        tokens(
            seq![MsgV { role, blocks: seq![BlockV::ToolCall { id, name: t, args }], ts }],
        ) == 4 + (text::blen(t) + text::blen(json::printed(json::normal(args)))) / 4,
        tokens(
            seq![
                MsgV {
                    role,
                    blocks: seq![
                        BlockV::ToolResult { call_id: id, name, content: t, is_error },
                    ],
                    ts,
                },
            ],
        ) == 4 + text::blen(t) / 4,
        tokens(seq![MsgV { role, blocks: Seq::empty(), ts }]) == 4,
{
    reveal_with_fuel(tokens, 2);
    reveal_with_fuel(blocks_bytes, 2);
}

/// A message takes four tokens less, up to rounding, than its blocks in two messages would.
pub proof fn lemma_blocks_tokens(
    role: Role,
    ts: Option<Seq<char>>,
    a: Seq<BlockV>,
    b: Seq<BlockV>,
)
    ensures
        ({
            let one = tokens(seq![MsgV { role, blocks: a + b, ts }]) as int;
            let two = tokens(
                seq![MsgV { role, blocks: a, ts }, MsgV { role, blocks: b, ts }],
            ) as int;
            two - 4 <= one <= two - 3
        }),
{
    reveal_with_fuel(tokens, 3);
    lemma_blocks_add(a, b);
    let x = MsgV { role, blocks: a, ts };
    let y = MsgV { role, blocks: b, ts };
    assert(seq![x, y].drop_last() =~= seq![x]);
}

/// The estimate leaves nothing out: four times the tokens of a message are at least the bytes of
/// all that it says, and what each block says is counted whole.
pub proof fn lemma_all_counted(m: MsgV, i: int)
    requires
        0 <= i < m.blocks.len(),
    ensures
        ({
            let rest = MsgV { blocks: m.blocks.remove(i), ..m };
            let said = match m.blocks[i] {
                BlockV::Text(t) => text::blen(t),
                BlockV::Thinking(x) => text::blen(x),
                BlockV::ToolCall { id, name, args } => text::blen(name) + text::blen(
                    json::printed(json::normal(args)),
                ),
                BlockV::ToolResult { call_id, name, content, is_error } => text::blen(content),
            };
            &&& 4 * msg_tokens(rest) + said <= 4 * msg_tokens(m) + 3
            &&& 4 * msg_tokens(m) <= 4 * msg_tokens(rest) + said + 3
        }),
{
    let a = m.blocks.take(i);
    let b = m.blocks.skip(i + 1);
    let one = seq![m.blocks[i]];
    assert(m.blocks =~= a + one + b);
    assert(m.blocks.remove(i) =~= a + b);
    lemma_blocks_add(a, one);
    lemma_blocks_add(a + one, b);
    lemma_blocks_add(a, b);
    assert(one.drop_last() =~= Seq::<BlockV>::empty());
    reveal_with_fuel(blocks_bytes, 2);
    assert(blocks_bytes(one) == block_bytes(m.blocks[i]));
}

/// The landing budget is the largest that is at most what is asked for, 200k where nothing is, and
/// at most 60% of the window; where there is none, it is one.
pub proof fn lemma_budget(window: int, budget: Option<usize>, n: int)
    requires
        window >= 0,
    ensures
        ({
            let b = budget_for(window, budget);
            let asked = match budget {
                Some(x) => x as int,
                None => 200_000,
            };
            &&& b >= 1
            &&& b > 1 ==> b <= asked && 5 * b <= 3 * window
            &&& n <= asked && 5 * n <= 3 * window ==> n <= b
        }),
{
}

/// A session fits where 32k tokens of the window are left for the harness.
pub proof fn lemma_fits(lim: Limits, tokens: int)
    ensures
        lim.admits(tokens) <==> lim.window - tokens >= 32_000,
{
}

} // verus!
