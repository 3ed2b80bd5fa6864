//! A session file is at least as large as the messages it carries.

use crate::budget;
use crate::budget::Limits;
use crate::compact;
use crate::history;
use crate::json;
use crate::json::Tree;
use crate::model;
use crate::model::{BlockV, Harness, MsgV, Role};
use crate::parse;
use crate::summary;
use crate::text;
use crate::words;
use vstd::prelude::*;

verus! {

/// Content that is rendered without fractions: whatever of it is printed as JSON holds none.
pub open spec fn content_plain(t: Tree) -> bool
    decreases t,
{
    match t {
        Tree::Str(s) => true,
        Tree::Arr(items) => blocks_plain(items),
        _ => json::integral(t),
    }
}

pub open spec fn blocks_plain(items: Seq<Tree>) -> bool
    decreases items,
{
    if items.len() == 0 {
        true
    } else {
        blocks_plain(items.drop_last()) && block_plain(items.last())
    }
}

/// A block that is rendered without fractions: only the arguments of a call are printed as JSON.
pub open spec fn block_plain(b: Tree) -> bool
    decreases b,
{
    match b {
        Tree::Obj(fields) => {
            let kind = json::str_at(b, "type"@);
            if kind == "text"@ {
                proof {
                    model::lemma_lookup_smaller(fields, "text"@);
                }
                match json::lookup(fields, "text"@) {
                    Some(Tree::Arr(items)) => content_plain(
                        json::lookup(fields, "text"@)->Some_0,
                    ),
                    _ => true,
                }
            } else if kind == "toolCall"@ || kind == "tool_use"@ {
                match model::first_of(
                    json::lookup(fields, "arguments"@),
                    json::lookup(fields, "input"@),
                ) {
                    Some(a) => json::integral(a),
                    None => true,
                }
            } else if kind == "toolResult"@ || kind == "tool_result"@ {
                proof {
                    model::lemma_lookup_smaller(fields, "content"@);
                }
                match json::lookup(fields, "content"@) {
                    Some(Tree::Arr(items)) => content_plain(
                        json::lookup(fields, "content"@)->Some_0,
                    ),
                    _ => true,
                }
            } else {
                true
            }
        },
        _ => true,
    }
}

/// A block whose arguments, where it is a call, hold no fractions.
pub open spec fn call_plain(b: Tree) -> bool {
    match parse::block_of(b) {
        Some(BlockV::ToolCall { id, name, args }) => json::integral(args),
        _ => true,
    }
}

pub open spec fn calls_plain(content: Tree) -> bool {
    match content {
        Tree::Arr(items) => forall|i: int| 0 <= i < items.len() ==> call_plain(#[trigger] items[i]),
        _ => true,
    }
}

/// Tool results among content blocks that are rendered without fractions.
pub open spec fn results_plain(items: Seq<Tree>) -> bool {
    forall|i: int|
        0 <= i < items.len() && parse::is_result(#[trigger] items[i]) ==> content_plain(
            json::at(items[i], "content"@),
        )
}

/// A user's content of Factory or CL that is rendered without fractions.
pub open spec fn user_plain(content: Tree) -> bool {
    match content {
        Tree::Arr(items) => {
            &&& !parse::boilerplate(parse::said(content)) ==> blocks_plain(parse::spoken(items))
            &&& results_plain(items)
        },
        _ => true,
    }
}

/// A message of Factory or CL that is read without fractions.
pub open spec fn factory_plain(m: Tree) -> bool {
    let role = json::str_at(m, "role"@);
    &&& role == "assistant"@ ==> calls_plain(json::at(m, "content"@))
    &&& role == "user"@ ==> user_plain(json::at(m, "content"@))
}

/// A message of Pi or OMP that is read without fractions.
pub open spec fn pi_plain(m: Tree) -> bool {
    let role = json::str_at(m, "role"@);
    &&& role == "assistant"@ ==> calls_plain(json::at(m, "content"@))
    &&& role == "user"@ && parse::user_text_of(m) is Some ==> content_plain(
        json::at(m, "content"@),
    )
    &&& role == "toolResult"@ ==> content_plain(json::at(m, "content"@))
}

proof fn lemma_escape_len(c: char)
    ensures
        text::blen(json::escape(c)) >= text::clen(c),
{
    let e = json::escape(c);
    text::lemma_blen_lower(e);
    if e.len() == 1 {
        text::lemma_blen_first(e);
    }
}

proof fn lemma_escaped_len(s: Seq<char>)
    ensures
        text::blen(json::escaped(s)) >= text::blen(s),
    decreases s.len(),
{
    if s.len() == 0 {
        assert(s =~= Seq::empty());
        text::lemma_blen_empty();
    } else {
        let before = s.drop_last();
        lemma_escaped_len(before);
        lemma_escape_len(s.last());
        text::lemma_blen_add(json::escaped(before), json::escape(s.last()));
        text::lemma_blen_push(before, s.last());
        assert(before.push(s.last()) =~= s);
    }
}

/// A string takes its quotes and at least its own bytes.
proof fn lemma_quoted_len(s: Seq<char>)
    ensures
        text::blen(json::quoted(s)) >= text::blen(s) + 2,
        text::blen(json::quoted(s)) >= s.len() + 2,
{
    let q = seq!['"'];
    let e = json::escaped(s);
    lemma_escaped_len(s);
    text::lemma_blen_lower(s);
    text::lemma_blen_lower(q);
    text::lemma_blen_add(q, e);
    text::lemma_blen_add(q + e, q);
}

/// The bytes of one field, with the sign behind it.
spec fn entry(key: Seq<char>, v: Tree) -> nat {
    text::blen(json::quoted(key)) + 2 + json::shortest(v)
}

proof fn lemma_one_key(fields: Seq<(Seq<char>, Tree)>, key: Seq<char>)
    ensures
        json::lookup(fields, key) matches Some(v) ==> entry(key, v) <= json::shortest_fields(
            fields,
        ),
    decreases fields.len(),
{
    if fields.len() > 0 {
        lemma_one_key(fields.drop_last(), key);
    }
}

proof fn lemma_two_keys(fields: Seq<(Seq<char>, Tree)>, a: Seq<char>, b: Seq<char>)
    requires
        a != b,
    ensures
        json::lookup(fields, a) matches Some(v) ==> (json::lookup(fields, b) matches Some(w)
            ==> entry(a, v) + entry(b, w) <= json::shortest_fields(fields)),
    decreases fields.len(),
{
    if fields.len() > 0 {
        let before = fields.drop_last();
        lemma_two_keys(before, a, b);
        lemma_one_key(before, a);
        lemma_one_key(before, b);
    }
}

/// The fewest bytes of an object with a value under a key.
proof fn lemma_one_field(t: Tree, key: Seq<char>)
    ensures
        json::field(t, key) matches Some(v) ==> json::shortest(t) >= key.len() + 5 + json::shortest(
            v,
        ),
{
    if let Tree::Obj(fields) = t {
        lemma_one_key(fields, key);
        lemma_quoted_len(key);
    }
}

/// The fewest bytes of an object with values under two keys.
proof fn lemma_two_fields(t: Tree, a: Seq<char>, b: Seq<char>)
    requires
        a != b,
    ensures
        json::field(t, a) matches Some(v) ==> (json::field(t, b) matches Some(w)
            ==> json::shortest(t) >= a.len() + b.len() + 9 + json::shortest(v) + json::shortest(w)),
{
    if let Tree::Obj(fields) = t {
        lemma_two_keys(fields, a, b);
        lemma_quoted_len(a);
        lemma_quoted_len(b);
    }
}

proof fn lemma_text_len(s: Seq<char>)
    ensures
        json::shortest(Tree::Str(s)) >= text::blen(s) + 2,
        json::shortest(Tree::Str(s)) >= s.len() + 2,
{
    lemma_quoted_len(s);
}

proof fn lemma_shortest_some(t: Tree)
    ensures
        json::shortest(t) >= 1,
{
    match t {
        Tree::Pos(n) => text::lemma_digits(n as nat),
        Tree::Str(s) => lemma_text_len(s),
        _ => {},
    }
}

/// What an object in normal form holds is in normal form.
proof fn lemma_normal_field(t: Tree, key: Seq<char>)
    ensures
        json::normal(t) == t ==> (json::field(t, key) matches Some(v) ==> json::normal(v) == v),
{
    if let Tree::Obj(fields) = t {
        json::lemma_lookup_normal(fields, key);
    }
}

/// Documents in normal form.
spec fn normal_items(items: Seq<Tree>) -> bool {
    forall|i: int| 0 <= i < items.len() ==> json::normal(#[trigger] items[i]) == items[i]
}

proof fn lemma_normal_arr(t: Tree)
    requires
        t is Arr,
        json::normal(t) == t,
    ensures
        normal_items(t->Arr_0),
{
    json::lemma_normal_items(t->Arr_0);
}

proof fn lemma_normal_front(items: Seq<Tree>)
    requires
        normal_items(items),
        items.len() > 0,
    ensures
        normal_items(items.drop_last()),
        json::normal(items.last()) == items.last(),
{
    let before = items.drop_last();
    assert forall|i: int| 0 <= i < before.len() implies json::normal(#[trigger] before[i])
        == before[i] by {
        assert(before[i] == items[i]);
    }
    assert(items[items.len() - 1] == items.last());
}

proof fn lemma_digits_blen(n: nat)
    ensures
        text::blen(text::decimal(n)) == text::decimal(n).len(),
    decreases n,
{
    text::lemma_blen_empty();
    if n < 10 {
        let d = text::digit(n);
        text::lemma_blen_push(Seq::empty(), d);
        assert(Seq::empty().push(d) =~= text::decimal(n));
    } else {
        lemma_digits_blen(n / 10);
        text::lemma_blen_push(text::decimal(n / 10), text::digit(n % 10));
    }
}

/// A document without fractions prints as short as it can be written.
proof fn lemma_printed_len(t: Tree)
    requires
        json::integral(t),
    ensures
        text::blen(json::printed(t)) == json::shortest(t),
    decreases t,
{
    match t {
        Tree::Null => {
            reveal_strlit("null");
            lemma_ascii("null"@);
        },
        Tree::Bool(b) => {
            reveal_strlit("true");
            reveal_strlit("false");
            lemma_ascii("true"@);
            lemma_ascii("false"@);
        },
        Tree::Pos(n) => lemma_digits_blen(n as nat),
        Tree::Neg(n) => {
            lemma_digits_blen((-n) as nat);
            lemma_ascii(seq!['-']);
            text::lemma_blen_add(seq!['-'], text::decimal((-n) as nat));
        },
        Tree::Float(_) => {},
        Tree::Str(s) => {},
        Tree::Arr(items) => {
            lemma_printed_items_len(items);
            let body = text::joined(json::printed_items(items), seq![',']);
            lemma_ascii(seq!['[']);
            lemma_ascii(seq![']']);
            text::lemma_blen_add(seq!['['], body);
            text::lemma_blen_add(seq!['['] + body, seq![']']);
        },
        Tree::Obj(fields) => {
            lemma_printed_fields_len(fields);
            let body = text::joined(json::printed_fields(fields), seq![',']);
            lemma_ascii(seq!['{']);
            lemma_ascii(seq!['}']);
            text::lemma_blen_add(seq!['{'], body);
            text::lemma_blen_add(seq!['{'] + body, seq!['}']);
        },
    }
}

/// ASCII text takes a byte for each character.
proof fn lemma_ascii(s: Seq<char>)
    requires
        forall|i: int| 0 <= i < s.len() ==> #[trigger] s[i] as u32 <= 0x7F,
    ensures
        text::blen(s) == s.len(),
    decreases s.len(),
{
    if s.len() == 0 {
        assert(s =~= Seq::empty());
        text::lemma_blen_empty();
    } else {
        text::lemma_blen_first(s);
        lemma_ascii(s.drop_first());
    }
}

/// A list joined by one-byte signs takes its parts and a byte between them.
proof fn lemma_joined_push(parts: Seq<Seq<char>>, p: Seq<char>)
    ensures
        text::blen(text::joined(parts.push(p), seq![','])) + 1 == text::blen(p) + 1 + if parts.len()
            == 0 {
            0
        } else {
            text::blen(text::joined(parts, seq![','])) + 1
        },
{
    let all = parts.push(p);
    let sep = seq![','];
    lemma_ascii(sep);
    if parts.len() > 0 {
        assert(all.drop_last() =~= parts);
        let before = text::joined(parts, sep);
        text::lemma_blen_add(before, sep);
        text::lemma_blen_add(before + sep, p);
    }
}

proof fn lemma_printed_items_len(items: Seq<Tree>)
    requires
        json::integral_items(items),
    ensures
        json::printed_items(items).len() == items.len(),
        items.len() > 0 ==> text::blen(text::joined(json::printed_items(items), seq![','])) + 1
            == json::shortest_items(items),
        items.len() == 0 ==> text::blen(text::joined(json::printed_items(items), seq![','])) == 0,
    decreases items,
{
    text::lemma_blen_empty();
    if items.len() > 0 {
        lemma_printed_items_len(items.drop_last());
        lemma_printed_len(items.last());
        lemma_joined_push(json::printed_items(items.drop_last()), json::printed(items.last()));
        assert(json::shortest_items(Seq::empty()) == 0);
        if items.len() == 1 {
            assert(items.drop_last() =~= Seq::empty());
        }
    }
}

proof fn lemma_printed_fields_len(fields: Seq<(Seq<char>, Tree)>)
    requires
        json::integral_fields(fields),
    ensures
        json::printed_fields(fields).len() == fields.len(),
        fields.len() > 0 ==> text::blen(text::joined(json::printed_fields(fields), seq![','])) + 1
            == json::shortest_fields(fields),
        fields.len() == 0 ==> text::blen(text::joined(json::printed_fields(fields), seq![',']))
            == 0,
    decreases fields,
{
    text::lemma_blen_empty();
    if fields.len() > 0 {
        lemma_printed_fields_len(fields.drop_last());
        lemma_printed_len(fields.last().1);
        let key = json::quoted(fields.last().0);
        let value = json::printed(fields.last().1);
        lemma_ascii(seq![':']);
        text::lemma_blen_add(key, seq![':']);
        text::lemma_blen_add(key + seq![':'], value);
        lemma_joined_push(
            json::printed_fields(fields.drop_last()),
            key + seq![':'] + value,
        );
        assert(json::shortest_fields(Seq::empty()) == 0);
        if fields.len() == 1 {
            assert(fields.drop_last() =~= Seq::empty());
        }
    }
}

/// A text literal of ASCII characters added to a text.
proof fn lemma_add_ascii(a: Seq<char>, b: Seq<char>)
    requires
        forall|i: int| 0 <= i < b.len() ==> #[trigger] b[i] as u32 <= 0x7F,
    ensures
        text::blen(a + b) == text::blen(a) + b.len(),
{
    text::lemma_blen_add(a, b);
    lemma_ascii(b);
}

/// The words that blocks are told apart by.
proof fn lemma_block_words()
    ensures
        "type"@.len() == 4,
        "text"@.len() == 4,
        "thinking"@.len() == 8,
        "toolCall"@.len() == 8,
        "tool_use"@.len() == 8,
        "toolResult"@.len() == 10,
        "tool_result"@.len() == 11,
        "image"@.len() == 5,
        "name"@.len() == 4,
        "input"@.len() == 5,
        "arguments"@.len() == 9,
        "content"@.len() == 7,
        "toolCallId"@.len() == 10,
        "tool_use_id"@.len() == 11,
{
    reveal_strlit("type");
    reveal_strlit("text");
    reveal_strlit("thinking");
    reveal_strlit("toolCall");
    reveal_strlit("tool_use");
    reveal_strlit("toolResult");
    reveal_strlit("tool_result");
    reveal_strlit("image");
    reveal_strlit("name");
    reveal_strlit("input");
    reveal_strlit("arguments");
    reveal_strlit("content");
    reveal_strlit("toolCallId");
    reveal_strlit("tool_use_id");
}

/// The bytes of a rendered tool call.
proof fn lemma_tool_len(out: Seq<char>, b: Tree)
    requires
        b is Obj,
        json::normal(b) == b,
        block_plain(b),
        json::str_at(b, "type"@) == "toolCall"@ || json::str_at(b, "type"@) == "tool_use"@,
    ensures
        text::blen(model::with_block(out, b)) <= text::blen(out) + json::shortest(b),
{
    words::lemma_words();
    lemma_block_words();
    let fields = b->Obj_0;
    let kind = json::str_at(b, "type"@);
    lemma_text_len(kind);
    let name = match json::lookup(fields, "name"@) {
        Some(Tree::Str(s)) => s,
        _ => "call"@,
    };
    let found = model::first_of(
        json::lookup(fields, "arguments"@),
        json::lookup(fields, "input"@),
    );
    let args = match found {
        Some(a) => json::printed(json::normal(a)),
        None => Seq::empty(),
    };
    reveal_strlit("[tool ");
    reveal_strlit("] ");
    reveal_strlit("call");
    lemma_add_ascii(out, "[tool "@);
    text::lemma_blen_add(out + "[tool "@, name);
    lemma_add_ascii(out + "[tool "@ + name, "] "@);
    text::lemma_blen_add(out + "[tool "@ + name + "] "@, args);
    text::lemma_blen_push(out + "[tool "@ + name + "] "@ + args, '\n');
    text::lemma_blen_empty();
    lemma_ascii("call"@);
    lemma_text_len(name);
    lemma_one_field(b, "type"@);
    lemma_two_fields(b, "type"@, "name"@);
    lemma_two_fields(b, "type"@, "input"@);
    lemma_two_fields(b, "type"@, "arguments"@);
    lemma_two_fields(b, "name"@, "input"@);
    lemma_two_fields(b, "name"@, "arguments"@);
    match found {
        Some(a) => {
            lemma_normal_field(b, "arguments"@);
            lemma_normal_field(b, "input"@);
            lemma_printed_len(a);
        },
        None => {},
    }
}

/// The bytes of a rendered tool result, given those of its content.
proof fn lemma_result_len(out: Seq<char>, b: Tree)
    requires
        b is Obj,
        json::str_at(b, "type"@) == "toolResult"@ || json::str_at(b, "type"@) == "tool_result"@,
        json::lookup(b->Obj_0, "content"@) matches Some(c) ==> (c is Arr ==> text::blen(
            model::rendered(c),
        ) <= json::shortest(c)),
    ensures
        text::blen(model::with_block(out, b)) <= text::blen(out) + json::shortest(b),
{
    words::lemma_words();
    lemma_block_words();
    let fields = b->Obj_0;
    let kind = json::str_at(b, "type"@);
    lemma_text_len(kind);
    let found = model::first_of(
        json::lookup(fields, "toolCallId"@),
        json::lookup(fields, "tool_use_id"@),
    );
    let id = match found {
        Some(Tree::Str(s)) => seq![' '] + s,
        _ => Seq::empty(),
    };
    let body = match json::lookup(fields, "content"@) {
        Some(Tree::Str(s)) => s.push('\n'),
        Some(Tree::Arr(items)) => model::rendered(json::lookup(fields, "content"@)->Some_0),
        _ => Seq::empty(),
    };
    reveal_strlit("[tool result");
    reveal_strlit("]\n");
    let head = out + "[tool result"@;
    lemma_add_ascii(out, "[tool result"@);
    text::lemma_blen_add(head, id);
    lemma_add_ascii(head + id, "]\n"@);
    text::lemma_blen_add(head + id + "]\n"@, body);
    text::lemma_blen_empty();
    if let Some(Tree::Str(s)) = found {
        lemma_ascii(seq![' ']);
        text::lemma_blen_add(seq![' '], s);
        lemma_text_len(s);
    }
    if let Some(Tree::Str(s)) = json::lookup(fields, "content"@) {
        text::lemma_blen_push(s, '\n');
        lemma_text_len(s);
    }
    lemma_one_field(b, "type"@);
    lemma_two_fields(b, "type"@, "content"@);
    lemma_two_fields(b, "type"@, "toolCallId"@);
    lemma_two_fields(b, "type"@, "tool_use_id"@);
    lemma_two_fields(b, "content"@, "toolCallId"@);
    lemma_two_fields(b, "content"@, "tool_use_id"@);
}

/// A rendered block takes no more bytes than the block.
proof fn lemma_block_len(out: Seq<char>, b: Tree)
    requires
        json::normal(b) == b,
        block_plain(b),
    ensures
        text::blen(model::with_block(out, b)) <= text::blen(out) + json::shortest(b),
    decreases b,
{
    if let Tree::Obj(fields) = b {
        words::lemma_words();
        lemma_block_words();
        text::lemma_blen_empty();
        let kind = json::str_at(b, "type"@);
        lemma_text_len(kind);
        lemma_one_field(b, "type"@);
        if kind == "text"@ {
            text::lemma_blen_push(out, '\n');
            model::lemma_lookup_smaller(fields, "text"@);
            lemma_two_fields(b, "type"@, "text"@);
            lemma_normal_field(b, "text"@);
            let said = match json::lookup(fields, "text"@) {
                Some(Tree::Str(s)) => s,
                Some(Tree::Arr(items)) => model::rendered(json::lookup(fields, "text"@)->Some_0),
                _ => Seq::empty(),
            };
            text::lemma_blen_add(model::fresh_line(out), said);
            match json::lookup(fields, "text"@) {
                Some(Tree::Str(s)) => lemma_text_len(s),
                Some(Tree::Arr(items)) => lemma_rendered_len(
                    json::lookup(fields, "text"@)->Some_0,
                ),
                _ => {},
            }
        } else if kind == "thinking"@ {
            lemma_two_fields(b, "type"@, "thinking"@);
            if let Some(Tree::Str(s)) = json::lookup(fields, "thinking"@) {
                lemma_text_len(s);
                reveal_strlit("[thinking]\n");
                reveal_strlit("\n[/thinking]\n");
                lemma_add_ascii(out, "[thinking]\n"@);
                text::lemma_blen_add(out + "[thinking]\n"@, s);
                lemma_add_ascii(out + "[thinking]\n"@ + s, "\n[/thinking]\n"@);
            }
        } else if kind == "toolCall"@ || kind == "tool_use"@ {
            lemma_tool_len(out, b);
        } else if kind == "toolResult"@ || kind == "tool_result"@ {
            model::lemma_lookup_smaller(fields, "content"@);
            lemma_normal_field(b, "content"@);
            match json::lookup(fields, "content"@) {
                Some(Tree::Arr(items)) => lemma_rendered_len(
                    json::lookup(fields, "content"@)->Some_0,
                ),
                _ => {},
            }
            lemma_result_len(out, b);
        } else if kind == "image"@ {
            reveal_strlit("[image]\n");
            lemma_add_ascii(out, "[image]\n"@);
        }
    }
}

/// Rendered content takes no more bytes than the content.
proof fn lemma_rendered_len(t: Tree)
    requires
        json::normal(t) == t,
        content_plain(t),
    ensures
        text::blen(model::rendered(t)) <= json::shortest(t),
    decreases t,
{
    match t {
        Tree::Str(s) => lemma_text_len(s),
        Tree::Arr(items) => {
            lemma_normal_arr(t);
            lemma_rendered_items_len(items);
        },
        _ => lemma_printed_len(t),
    }
}

proof fn lemma_rendered_items_len(items: Seq<Tree>)
    requires
        normal_items(items),
        blocks_plain(items),
    ensures
        text::blen(model::rendered_items(items)) <= json::shortest_items(items),
    decreases items,
{
    text::lemma_blen_empty();
    if items.len() > 0 {
        lemma_normal_front(items);
        lemma_rendered_items_len(items.drop_last());
        lemma_block_len(model::rendered_items(items.drop_last()), items.last());
    }
}

/// Bytes that messages take at most: sixteen for each, and those of its blocks.
pub open spec fn cost(msgs: Seq<MsgV>) -> nat
    decreases msgs.len(),
{
    if msgs.len() == 0 {
        0
    } else {
        cost(msgs.drop_last()) + 16 + budget::blocks_bytes(msgs.last().blocks)
    }
}

proof fn lemma_cost_add(a: Seq<MsgV>, b: Seq<MsgV>)
    ensures
        cost(a + b) == cost(a) + cost(b),
    decreases b.len(),
{
    if b.len() == 0 {
        assert(a + b =~= a);
    } else {
        assert((a + b).drop_last() =~= a + b.drop_last());
        lemma_cost_add(a, b.drop_last());
    }
}

/// A token stands for four bytes.
proof fn lemma_tokens_cost(msgs: Seq<MsgV>)
    ensures
        4 * budget::tokens(msgs) <= cost(msgs),
    decreases msgs.len(),
{
    if msgs.len() > 0 {
        lemma_tokens_cost(msgs.drop_last());
    }
}

proof fn lemma_one_cost(role: Role, b: BlockV, ts: Option<Seq<char>>)
    ensures
        cost(seq![MsgV { role, blocks: seq![b], ts }]) == 16 + budget::block_bytes(b),
{
    let m = MsgV { role, blocks: seq![b], ts };
    assert(seq![m].drop_last() =~= Seq::<MsgV>::empty());
    assert(cost(Seq::<MsgV>::empty()) == 0);
    assert(seq![b].drop_last() =~= Seq::<BlockV>::empty());
    assert(budget::blocks_bytes(Seq::<BlockV>::empty()) == 0);
    assert(budget::blocks_bytes(seq![b]) == budget::block_bytes(b));
}

/// A block that is read takes no more bytes than what it is read from.
proof fn lemma_read_block(b: Tree)
    requires
        json::normal(b) == b,
        call_plain(b),
    ensures
        parse::block_of(b) matches Some(x) ==> budget::block_bytes(x) <= json::shortest(b),
{
    words::lemma_words();
    lemma_block_words();
    text::lemma_blen_empty();
    lemma_one_field(b, "type"@);
    match parse::block_of(b) {
        Some(x) => {
            match x {
                BlockV::Text(t) => {
                    lemma_one_field(b, "text"@);
                    lemma_text_len(t);
                    reveal_strlit("[image]");
                    lemma_ascii("[image]"@);
                    lemma_text_len("image"@);
                },
                BlockV::Thinking(t) => {
                    lemma_one_field(b, "thinking"@);
                    lemma_text_len(t);
                },
                BlockV::ToolCall { id, name, args } => {
                    lemma_text_len(name);
                    lemma_text_len("tool_use"@);
                    lemma_text_len("toolCall"@);
                    lemma_normal_field(b, "input"@);
                    lemma_normal_field(b, "arguments"@);
                    lemma_printed_len(args);
                    lemma_two_fields(b, "type"@, "name"@);
                    lemma_two_fields(b, "name"@, "input"@);
                    lemma_two_fields(b, "name"@, "arguments"@);
                    lemma_one_field(b, "input"@);
                    lemma_one_field(b, "arguments"@);
                },
                BlockV::ToolResult { .. } => {},
            }
        },
        None => {},
    }
}

proof fn lemma_read_blocks(items: Seq<Tree>)
    requires
        normal_items(items),
        forall|i: int| 0 <= i < items.len() ==> call_plain(#[trigger] items[i]),
    ensures
        budget::blocks_bytes(parse::blocks_of(items)) <= json::shortest_items(items),
    decreases items.len(),
{
    if items.len() > 0 {
        let before = items.drop_last();
        assert forall|i: int| 0 <= i < before.len() implies call_plain(#[trigger] before[i]) by {
            assert(before[i] == items[i]);
        }
        lemma_normal_front(items);
        lemma_read_blocks(before);
        assert(call_plain(items[items.len() - 1]));
        lemma_read_block(items.last());
        match parse::block_of(items.last()) {
            Some(x) => {
                let some = parse::blocks_of(before);
                assert(some.push(x).drop_last() =~= some);
            },
            None => {},
        }
    }
}

proof fn lemma_assistant_cost(content: Tree, ts: Option<Seq<char>>)
    requires
        json::normal(content) == content,
        calls_plain(content),
    ensures
        cost(parse::assistant_msgs(content, ts)) <= 16 + json::shortest(content),
        content is Null ==> cost(parse::assistant_msgs(content, ts)) == 0,
{
    let blocks = parse::assistant_blocks_of(content);
    match content {
        Tree::Arr(items) => {
            lemma_normal_arr(content);
            lemma_read_blocks(items);
        },
        Tree::Str(s) => {
            lemma_text_len(s);
            lemma_one_cost(Role::Assistant, BlockV::Text(s), ts);
        },
        _ => {},
    }
    if blocks.len() > 0 {
        let m = MsgV { role: Role::Assistant, blocks, ts };
        assert(seq![m].drop_last() =~= Seq::<MsgV>::empty());
        assert(cost(Seq::<MsgV>::empty()) == 0);
        assert(cost(seq![m]) == 16 + budget::blocks_bytes(blocks));
    }
}

/// A tool result inside a user message takes no more bytes than its block.
proof fn lemma_result_cost(b: Tree, ts: Option<Seq<char>>)
    requires
        json::normal(b) == b,
        content_plain(json::at(b, "content"@)),
        parse::is_result(b),
    ensures
        cost(seq![parse::result_msg(b, ts)]) <= json::shortest(b),
{
    words::lemma_words();
    lemma_block_words();
    text::lemma_blen_empty();
    lemma_text_len("tool_result"@);
    lemma_one_field(b, "type"@);
    lemma_two_fields(b, "type"@, "content"@);
    lemma_normal_field(b, "content"@);
    if let Some(c) = json::field(b, "content"@) {
        lemma_rendered_len(c);
    }
    lemma_one_cost(Role::Tool, parse::result_msg(b, ts).blocks[0], ts);
    assert(parse::result_msg(b, ts).blocks =~= seq![parse::result_msg(b, ts).blocks[0]]);
}

/// The bytes of what the user said, where that is kept, and of the tool results.
proof fn lemma_split_cost(items: Seq<Tree>, ts: Option<Seq<char>>, kept: bool)
    requires
        normal_items(items),
        kept ==> blocks_plain(parse::spoken(items)),
        results_plain(items),
    ensures
        cost(parse::result_msgs(items, ts)) + if kept {
            text::blen(model::rendered_items(parse::spoken(items)))
        } else {
            0
        } <= json::shortest_items(items),
    decreases items.len(),
{
    text::lemma_blen_empty();
    if items.len() > 0 {
        let before = items.drop_last();
        let b = items.last();
        let some = parse::spoken(before);
        lemma_normal_front(items);
        assert(some.push(b).drop_last() =~= some);
        assert forall|i: int|
            0 <= i < before.len() && parse::is_result(#[trigger] before[i]) implies content_plain(
            json::at(before[i], "content"@),
        ) by {
            assert(before[i] == items[i]);
        }
        lemma_split_cost(before, ts, kept);
        if parse::is_result(b) {
            let some = parse::result_msgs(before, ts);
            let m = parse::result_msg(b, ts);
            assert(items[items.len() - 1] == b);
            lemma_result_cost(b, ts);
            lemma_cost_add(some, seq![m]);
            assert(some.push(m) =~= some + seq![m]);
        } else if kept {
            lemma_block_len(model::rendered_items(some), b);
        }
    }
}

proof fn lemma_user_cost(content: Tree, ts: Option<Seq<char>>)
    requires
        json::normal(content) == content,
        user_plain(content),
    ensures
        cost(parse::user_msgs(content, ts)) <= 16 + json::shortest(content),
        content is Null ==> cost(parse::user_msgs(content, ts)) == 0,
{
    text::lemma_blen_empty();
    let said = parse::said(content);
    let kept = !parse::boilerplate(said);
    let user = if kept {
        seq![MsgV { role: Role::User, blocks: seq![BlockV::Text(said)], ts }]
    } else {
        Seq::empty()
    };
    let results = match content {
        Tree::Arr(items) => parse::result_msgs(items, ts),
        _ => Seq::empty(),
    };
    lemma_one_cost(Role::User, BlockV::Text(said), ts);
    assert(cost(Seq::<MsgV>::empty()) == 0);
    lemma_cost_add(user, results);
    match content {
        Tree::Arr(items) => {
            lemma_normal_arr(content);
            lemma_split_cost(items, ts, kept);
        },
        Tree::Str(s) => lemma_text_len(s),
        _ => {
            assert(text::trimmed(Seq::<char>::empty()) == Seq::<char>::empty());
        },
    }
}

proof fn lemma_record_words()
    ensures
        "message"@.len() == 7,
        "payload"@.len() == 7,
        "role"@.len() == 4,
        "user"@.len() == 4,
        "assistant"@.len() == 9,
        "summary"@.len() == 7,
        "output"@.len() == 6,
        "reasoning"@.len() == 9,
        "function_call"@.len() == 13,
        "function_call_output"@.len() == 20,
        "input_image"@.len() == 11,
{
    reveal_strlit("message");
    reveal_strlit("payload");
    reveal_strlit("role");
    reveal_strlit("user");
    reveal_strlit("assistant");
    reveal_strlit("summary");
    reveal_strlit("output");
    reveal_strlit("reasoning");
    reveal_strlit("function_call");
    reveal_strlit("function_call_output");
    reveal_strlit("input_image");
}

/// The bytes of the messages of a message of Factory or CL.
proof fn lemma_factory_cost(m: Tree, ts: Option<Seq<char>>)
    requires
        json::normal(m) == m,
        factory_plain(m),
    ensures
        cost(parse::factory_msgs(m, ts)) <= json::shortest(m) + 12,
        !(m is Obj) ==> cost(parse::factory_msgs(m, ts)) == 0,
{
    words::lemma_words();
    lemma_block_words();
    lemma_record_words();
    let content = json::at(m, "content"@);
    let role = json::str_at(m, "role"@);
    assert(cost(Seq::<MsgV>::empty()) == 0);
    lemma_normal_field(m, "content"@);
    lemma_text_len(role);
    lemma_one_field(m, "role"@);
    lemma_two_fields(m, "role"@, "content"@);
    if role == "assistant"@ {
        lemma_assistant_cost(content, ts);
    } else if role == "user"@ {
        lemma_user_cost(content, ts);
    }
}

/// The bytes of the messages of a message of Pi or OMP.
proof fn lemma_pi_cost(m: Tree, ts: Option<Seq<char>>)
    requires
        json::normal(m) == m,
        pi_plain(m),
    ensures
        cost(parse::pi_msgs(m, ts)) <= json::shortest(m) + 12,
        !(m is Obj) ==> cost(parse::pi_msgs(m, ts)) == 0,
{
    words::lemma_words();
    lemma_block_words();
    lemma_record_words();
    text::lemma_blen_empty();
    let content = json::at(m, "content"@);
    let role = json::str_at(m, "role"@);
    assert(cost(Seq::<MsgV>::empty()) == 0);
    lemma_normal_field(m, "content"@);
    lemma_text_len(role);
    lemma_one_field(m, "role"@);
    lemma_two_fields(m, "role"@, "content"@);
    if role == "assistant"@ {
        lemma_assistant_cost(content, ts);
    } else if role == "user"@ {
        match parse::user_text_of(m) {
            Some(t) => {
                lemma_rendered_len(content);
                lemma_one_cost(Role::User, BlockV::Text(t), ts);
            },
            None => {},
        }
    } else if role == "toolResult"@ {
        lemma_rendered_len(content);
        let ms = parse::pi_msgs(m, ts);
        lemma_one_cost(Role::Tool, ms[0].blocks[0], ts);
        assert(ms[0].blocks =~= seq![ms[0].blocks[0]]);
        assert(ms =~= seq![MsgV { role: Role::Tool, blocks: seq![ms[0].blocks[0]], ts }]);
    }
}

/// A list of lines takes its parts and a byte for each.
proof fn lemma_lines_len(parts: Seq<Seq<char>>, p: Seq<char>)
    ensures
        text::blen(text::joined(parts.push(p), "\n"@)) <= text::blen(text::joined(parts, "\n"@))
            + text::blen(p) + 1,
{
    reveal_strlit("\n");
    let all = parts.push(p);
    if parts.len() > 0 {
        assert(all.drop_last() =~= parts);
        lemma_add_ascii(text::joined(parts, "\n"@), "\n"@);
        text::lemma_blen_add(text::joined(parts, "\n"@) + "\n"@, p);
    }
}

proof fn lemma_parts_len(items: Seq<Tree>, kind: Seq<char>)
    ensures
        text::blen(text::joined(parse::codex_parts(items, kind), "\n"@)) <= json::shortest_items(
            items,
        ),
    decreases items.len(),
{
    text::lemma_blen_empty();
    if items.len() > 0 {
        words::lemma_words();
        lemma_block_words();
        lemma_record_words();
        let part = items.last();
        let before = parse::codex_parts(items.drop_last(), kind);
        lemma_parts_len(items.drop_last(), kind);
        match parse::codex_part(part, kind) {
            Some(t) => {
                lemma_lines_len(before, t);
                lemma_one_field(part, "type"@);
                lemma_one_field(part, "text"@);
                lemma_text_len(t);
                lemma_text_len("input_image"@);
                reveal_strlit("[image]");
                lemma_ascii("[image]"@);
            },
            None => {},
        }
    }
}

proof fn lemma_reasoning_len(items: Seq<Tree>)
    ensures
        text::blen(text::joined(parse::reasoning_parts(items), "\n"@)) <= json::shortest_items(
            items,
        ),
    decreases items.len(),
{
    text::lemma_blen_empty();
    if items.len() > 0 {
        let part = items.last();
        let before = parse::reasoning_parts(items.drop_last());
        lemma_reasoning_len(items.drop_last());
        lemma_block_words();
        lemma_one_field(part, "text"@);
        match json::text_of(json::field(part, "text"@)) {
            Some(t) => {
                lemma_lines_len(before, t);
                lemma_text_len(t);
            },
            None => {},
        }
    }
}

/// Whether a Codex item is a call.
pub open spec fn is_call(p: Tree) -> bool {
    json::text_of(json::field(p, "type"@)) == Some("function_call"@)
}

/// What the arguments of a Codex call are read as takes no more bytes than they do.
pub open spec fn item_fair(p: Tree) -> bool {
    is_call(p) ==> json::fair(json::str_at(p, "arguments"@))
}

/// The arguments of a Codex call hold no fractions.
pub open spec fn item_plain(p: Tree) -> bool {
    is_call(p) ==> json::integral(parse::call_args(json::str_at(p, "arguments"@)))
}

proof fn lemma_call_cost(p: Tree, ts: Option<Seq<char>>)
    requires
        is_call(p),
        item_fair(p),
        item_plain(p),
    ensures
        cost(parse::codex_msgs(p, ts)) <= json::shortest(p),
{
    words::lemma_words();
    lemma_block_words();
    lemma_record_words();
    text::lemma_blen_empty();
    let name = json::str_at(p, "name"@);
    let arguments = json::str_at(p, "arguments"@);
    let args = parse::call_args(arguments);
    let b = parse::codex_item(p)->Some_0.1;
    lemma_one_cost(Role::Assistant, b, ts);
    lemma_text_len(name);
    lemma_text_len(arguments);
    lemma_text_len("function_call"@);
    lemma_one_field(p, "type"@);
    lemma_two_fields(p, "type"@, "name"@);
    lemma_two_fields(p, "type"@, "arguments"@);
    lemma_two_fields(p, "name"@, "arguments"@);
    match json::parsed(arguments) {
        Some(t) => {
            lemma_printed_len(t);
            lemma_shortest_some(t);
        },
        None => {
            let q = json::quoted(arguments);
            lemma_printed_len(Tree::Str(arguments));
            if arguments.len() == 0 {
                assert(arguments =~= Seq::empty());
                assert(json::escaped(arguments) == Seq::<char>::empty());
                assert(q =~= seq!['"', '"']);
                lemma_ascii(q);
            }
        },
    }
}

/// The message of a Codex item takes no more bytes than the item.
proof fn lemma_item_cost(p: Tree, ts: Option<Seq<char>>)
    requires
        item_fair(p),
        item_plain(p),
    ensures
        cost(parse::codex_msgs(p, ts)) <= json::shortest(p),
{
    words::lemma_words();
    lemma_block_words();
    lemma_record_words();
    text::lemma_blen_empty();
    assert(cost(Seq::<MsgV>::empty()) == 0);
    if is_call(p) {
        lemma_call_cost(p, ts);
    } else {
        match parse::codex_item(p) {
            Some((role, b)) => {
                let kind = json::str_at(p, "type"@);
                lemma_one_cost(role, b, ts);
                lemma_text_len(kind);
                lemma_one_field(p, "type"@);
                lemma_two_fields(p, "type"@, "content"@);
                lemma_two_fields(p, "type"@, "summary"@);
                lemma_two_fields(p, "type"@, "output"@);
                if let Tree::Arr(items) = json::at(p, "content"@) {
                    lemma_parts_len(items, "input_text"@);
                    lemma_parts_len(items, "output_text"@);
                }
                if let Tree::Arr(items) = json::at(p, "summary"@) {
                    lemma_reasoning_len(items);
                }
                lemma_text_len(json::str_at(p, "output"@));
            },
            None => {},
        }
    }
}

/// What a record's own JSON text is read as takes no more bytes than it does.
pub open spec fn record_fair(h: Harness, v: Tree) -> bool {
    h == Harness::Codex && parse::is_conversation(h, v) ==> item_fair(json::at(v, "payload"@))
}

/// A record whose message is read without fractions.
pub open spec fn record_plain(h: Harness, v: Tree) -> bool {
    parse::is_conversation(h, v) ==> match h {
        Harness::Codex => item_plain(json::at(v, "payload"@)),
        Harness::Factory | Harness::Claude => factory_plain(json::at(v, "message"@)),
        Harness::Pi | Harness::Omp => pi_plain(json::at(v, "message"@)),
    }
}

/// The messages of a record take no more bytes than the record.
proof fn lemma_record_cost(h: Harness, v: Tree)
    requires
        json::normal(v) == v,
        record_fair(h, v),
        record_plain(h, v),
    ensures
        cost(parse::record_msgs(h, v)) <= json::shortest(v),
{
    lemma_record_words();
    assert(cost(Seq::<MsgV>::empty()) == 0);
    let ts = json::text_of(json::field(v, "timestamp"@));
    if parse::is_conversation(h, v) {
        let m = json::at(v, "message"@);
        lemma_one_field(v, "message"@);
        lemma_normal_field(v, "message"@);
        match h {
            Harness::Codex => {
                let p = json::at(v, "payload"@);
                lemma_one_field(v, "payload"@);
                lemma_item_cost(p, ts);
                if json::field(v, "payload"@) is None {
                    assert(json::field(p, "type"@) is None);
                }
            },
            Harness::Factory | Harness::Claude => lemma_factory_cost(m, ts),
            Harness::Pi | Harness::Omp => lemma_pi_cost(m, ts),
        }
    }
}

/// The items that a compaction record lists in the place of the history.
pub open spec fn replaced(h: Harness, v: Tree) -> Seq<Tree> {
    if h == Harness::Codex {
        match json::field(json::at(v, "payload"@), "replacement_history"@) {
            Some(Tree::Arr(items)) => items,
            _ => Seq::empty(),
        }
    } else {
        Seq::empty()
    }
}

pub open spec fn items_fair(items: Seq<Tree>) -> bool {
    forall|i: int| 0 <= i < items.len() ==> item_fair(#[trigger] items[i])
}

pub open spec fn items_plain(items: Seq<Tree>) -> bool {
    forall|i: int| 0 <= i < items.len() ==> item_plain(#[trigger] items[i])
}

proof fn lemma_items_cost(items: Seq<Tree>, ts: Option<Seq<char>>)
    requires
        items_fair(items),
        items_plain(items),
    ensures
        cost(history::items_msgs(items, ts)) <= json::shortest_items(items),
    decreases items.len(),
{
    if items.len() > 0 {
        let before = items.drop_last();
        assert forall|i: int| 0 <= i < before.len() implies item_fair(#[trigger] before[i])
            && item_plain(before[i]) by {
            assert(item_fair(items[i]) && item_plain(items[i]));
        }
        lemma_items_cost(before, ts);
        assert(item_fair(items[items.len() - 1]) && item_plain(items[items.len() - 1]));
        lemma_item_cost(items.last(), ts);
        lemma_cost_add(history::items_msgs(before, ts), parse::codex_msgs(items.last(), ts));
    }
}

proof fn lemma_summary_cost(t: Option<Seq<char>>, ts: Option<Seq<char>>)
    ensures
        t is None ==> cost(history::summary_msg(t, ts)) == 0,
        t matches Some(s) ==> cost(history::summary_msg(t, ts)) <= 14 + json::shortest(Tree::Str(s)),
{
    assert(cost(Seq::<MsgV>::empty()) == 0);
    if let Some(s) = t {
        lemma_text_len(s);
        lemma_one_cost(Role::User, BlockV::Text(s), ts);
    }
}

/// What a compaction puts in the place of the history takes no more bytes than its record.
proof fn lemma_compaction_cost(h: Harness, v: Tree)
    requires
        history::is_compaction(h, v),
        items_fair(replaced(h, v)),
        items_plain(replaced(h, v)),
    ensures
        cost(history::compaction_msgs(h, v)) <= json::shortest(v),
{
    words::lemma_words();
    lemma_block_words();
    lemma_record_words();
    reveal_strlit("summaryText");
    reveal_strlit("compacted");
    reveal_strlit("compaction");
    reveal_strlit("compaction_state");
    reveal_strlit("replacement_history");
    assert(cost(Seq::<MsgV>::empty()) == 0);
    let ts = json::text_of(json::field(v, "timestamp"@));
    lemma_text_len(json::str_at(v, "type"@));
    match h {
        Harness::Claude => {},
        Harness::Codex => {
            let p = json::at(v, "payload"@);
            lemma_one_field(v, "payload"@);
            lemma_two_fields(v, "type"@, "payload"@);
            lemma_one_field(p, "replacement_history"@);
            lemma_one_field(p, "message"@);
            lemma_items_cost(replaced(h, v), ts);
            lemma_summary_cost(json::text_of(json::field(p, "message"@)), ts);
        },
        Harness::Factory => {
            lemma_two_fields(v, "type"@, "summaryText"@);
            lemma_summary_cost(json::text_of(json::field(v, "summaryText"@)), ts);
        },
        Harness::Pi | Harness::Omp => {
            lemma_two_fields(v, "type"@, "summary"@);
            lemma_summary_cost(json::text_of(json::field(v, "summary"@)), ts);
        },
    }
}

/// The fewest bytes of records.
pub open spec fn records_len(recs: Seq<Tree>) -> nat
    decreases recs.len(),
{
    if recs.len() == 0 {
        0
    } else {
        records_len(recs.drop_last()) + json::shortest(recs.last())
    }
}

proof fn lemma_records_add(a: Seq<Tree>, b: Seq<Tree>)
    ensures
        records_len(a + b) == records_len(a) + records_len(b),
    decreases b.len(),
{
    if b.len() == 0 {
        assert(a + b =~= a);
    } else {
        assert((a + b).drop_last() =~= a + b.drop_last());
        lemma_records_add(a, b.drop_last());
    }
}

/// Records that are read as they are.
pub open spec fn records_fair(h: Harness, recs: Seq<Tree>) -> bool {
    forall|i: int| 0 <= i < recs.len() ==> record_fair(h, #[trigger] recs[i])
}

/// Records whose messages are read without fractions.
pub open spec fn records_plain(h: Harness, recs: Seq<Tree>) -> bool {
    forall|i: int| 0 <= i < recs.len() ==> record_plain(h, #[trigger] recs[i])
}

proof fn lemma_records_cost(h: Harness, recs: Seq<Tree>)
    requires
        normal_items(recs),
        records_fair(h, recs),
        records_plain(h, recs),
    ensures
        cost(history::all_msgs(h, recs)) <= records_len(recs),
    decreases recs.len(),
{
    if recs.len() > 0 {
        let before = recs.drop_last();
        lemma_normal_front(recs);
        assert forall|i: int| 0 <= i < before.len() implies record_fair(h, #[trigger] before[i])
            && record_plain(h, before[i]) by {
            assert(record_fair(h, recs[i]) && record_plain(h, recs[i]));
        }
        lemma_records_cost(h, before);
        assert(record_fair(h, recs[recs.len() - 1]) && record_plain(h, recs[recs.len() - 1]));
        lemma_record_cost(h, recs.last());
        lemma_cost_add(history::all_msgs(h, before), parse::record_msgs(h, recs.last()));
    }
}

/// Where the records that are kept before the compaction at `c` begin.
pub open spec fn kept_place(h: Harness, recs: Seq<Tree>, c: int) -> int {
    match history::first_kept(h, recs[c]) {
        Some(id) => history::place_of_id(recs, id, 0, c),
        None => c,
    }
}

/// The records that are live are read as they are.
pub open spec fn live_fair(h: Harness, recs: Seq<Tree>) -> bool {
    match history::last_compaction(h, recs, recs.len() as int) {
        Some(c) => {
            &&& items_fair(replaced(h, recs[c]))
            &&& records_fair(h, recs.subrange(kept_place(h, recs, c), c))
            &&& records_fair(h, recs.skip(c + 1))
        },
        None => records_fair(h, recs),
    }
}

proof fn lemma_place_bound(recs: Seq<Tree>, id: Seq<char>, i: int, end: int)
    requires
        i <= end,
    ensures
        i <= history::place_of_id(recs, id, i, end) <= end,
    decreases end - i,
{
    if i < end {
        lemma_place_bound(recs, id, i + 1, end);
    }
}

/// The records that are live are read without fractions.
pub open spec fn live_plain(h: Harness, recs: Seq<Tree>) -> bool {
    match history::last_compaction(h, recs, recs.len() as int) {
        Some(c) => {
            &&& items_plain(replaced(h, recs[c]))
            &&& records_plain(h, recs.subrange(kept_place(h, recs, c), c))
            &&& records_plain(h, recs.skip(c + 1))
        },
        None => records_plain(h, recs),
    }
}

proof fn lemma_normal_part(recs: Seq<Tree>, i: int, j: int)
    requires
        normal_items(recs),
        0 <= i <= j <= recs.len(),
    ensures
        normal_items(recs.subrange(i, j)),
{
    let part = recs.subrange(i, j);
    assert forall|k: int| 0 <= k < part.len() implies json::normal(#[trigger] part[k])
        == part[k] by {
        assert(part[k] == recs[i + k]);
    }
}

/// The live messages take no more bytes than the records.
proof fn lemma_live_cost(h: Harness, recs: Seq<Tree>)
    requires
        normal_items(recs),
        live_fair(h, recs),
        live_plain(h, recs),
    ensures
        cost(history::live_msgs(h, recs)) <= records_len(recs),
{
    history::lemma_last_compaction(h, recs, recs.len() as int);
    match history::last_compaction(h, recs, recs.len() as int) {
        Some(c) => {
            let v = recs[c];
            let p = kept_place(h, recs, c);
            if let Some(id) = history::first_kept(h, v) {
                lemma_place_bound(recs, id, 0, c);
            }
            let kept = recs.subrange(p, c);
            let rest = recs.skip(c + 1);
            lemma_normal_part(recs, p, c);
            lemma_normal_part(recs, c + 1, recs.len() as int);
            assert(recs.subrange(c + 1, recs.len() as int) =~= rest);
            lemma_compaction_cost(h, v);
            lemma_records_cost(h, kept);
            lemma_records_cost(h, rest);
            let first = history::compaction_msgs(h, v);
            let second = history::kept_msgs(h, recs, c);
            assert(cost(Seq::<MsgV>::empty()) == 0);
            lemma_cost_add(first, second);
            lemma_cost_add(first + second, history::all_msgs(h, rest));
            let head = recs.subrange(0, p);
            assert(recs =~= head + kept + seq![v] + rest);
            lemma_records_add(head, kept);
            lemma_records_add(head + kept, seq![v]);
            lemma_records_add(head + kept + seq![v], rest);
            assert(seq![v].drop_last() =~= Seq::<Tree>::empty());
            assert(records_len(Seq::<Tree>::empty()) == 0);
            assert(records_len(seq![v]) == json::shortest(v));
        },
        None => lemma_records_cost(h, recs),
    }
}

/// The bytes of lines, without their ends.
pub open spec fn lines_len(lines: Seq<Seq<char>>) -> nat
    decreases lines.len(),
{
    if lines.len() == 0 {
        0
    } else {
        lines_len(lines.drop_last()) + text::blen(lines.last())
    }
}

/// What each line is read as takes no more bytes than the line.
pub open spec fn lines_fair(lines: Seq<Seq<char>>) -> bool {
    forall|i: int| 0 <= i < lines.len() ==> json::fair(text::trimmed(#[trigger] lines[i]))
}

/// A session file whose messages are read without fractions: there are none in the arguments of
/// their calls, nor in what is rendered as JSON. Fractions elsewhere do not matter.
pub open spec fn file_plain(h: Harness, lines: Seq<Seq<char>>) -> bool {
    live_plain(h, history::file_records(lines))
}

proof fn lemma_trimmed_len(s: Seq<char>)
    ensures
        text::blen(text::trimmed(s)) <= text::blen(s),
{
    summary::lemma_trim_part(s);
    let (i, j) = choose|i: int, j: int|
        0 <= i <= j <= s.len() && text::trimmed(s) == #[trigger] s.subrange(i, j);
    assert(s =~= s.subrange(0, i) + s.subrange(i, j) + s.subrange(j, s.len() as int));
    text::lemma_blen_add(s.subrange(0, i), s.subrange(i, j));
    text::lemma_blen_add(s.subrange(0, i) + s.subrange(i, j), s.subrange(j, s.len() as int));
}

proof fn lemma_file_records(lines: Seq<Seq<char>>)
    requires
        lines_fair(lines),
    ensures
        records_len(history::file_records(lines)) <= lines_len(lines),
        forall|i: int|
            0 <= i < history::file_records(lines).len() ==> json::normal(
                #[trigger] history::file_records(lines)[i],
            ) == history::file_records(lines)[i],
    decreases lines.len(),
{
    if lines.len() > 0 {
        let before = lines.drop_last();
        assert forall|i: int| 0 <= i < before.len() implies json::fair(
            text::trimmed(#[trigger] before[i]),
        ) by {
            assert(before[i] == lines[i]);
        }
        lemma_file_records(before);
        lemma_trimmed_len(lines.last());
        assert(json::fair(text::trimmed(lines[lines.len() - 1])));
        let some = history::file_records(before);
        match parse::line_record(lines.last()) {
            Some(v) => {
                assert(some.push(v).drop_last() =~= some);
                let all = history::file_records(lines);
                assert forall|i: int| 0 <= i < all.len() implies json::normal(#[trigger] all[i])
                    == all[i] by {
                    if i < some.len() {
                        assert(all[i] == some[i]);
                    }
                }
            },
            None => {},
        }
    }
}

/// The messages of a session file take no more than a token for every four of its bytes.
pub(crate) proof fn lemma_file_tokens(h: Harness, lines: Seq<Seq<char>>)
    requires
        lines_fair(lines),
        live_fair(h, history::file_records(lines)),
        file_plain(h, lines),
    ensures
        4 * budget::tokens(history::file_msgs(h, lines)) <= lines_len(lines),
{
    let recs = history::file_records(lines);
    lemma_file_records(lines);
    lemma_live_cost(h, recs);
    lemma_tokens_cost(history::file_msgs(h, lines));
}

/// Messages that take at most a token for every four bytes of their file fit wherever the file is
/// passed over by its size: they are not compacted.
pub proof fn lemma_passed_over(msgs: Seq<MsgV>, bytes: nat, lim: Limits)
    requires
        4 * budget::tokens(msgs) <= bytes,
        lim.admits(bytes as int / 4),
    ensures
        lim.admits(budget::tokens(msgs) as int),
        compact::compacted(msgs, lim) is None,
{
}

} // verus!
