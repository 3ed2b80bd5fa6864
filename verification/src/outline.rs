//! What a digest tells of messages: every request, outcome, tool, file and error has its place.

use crate::digest;
use crate::digest::{Detail, Gist};
use crate::json;
use crate::json::Tree;
use crate::model::{BlockV, MsgV, Role};
use crate::reading::says;
use crate::text;
use vstd::prelude::*;

verus! {

proof fn lemma_blocks_in_order(g: Gist, role: Role, a: Seq<BlockV>, b: Seq<BlockV>)
    ensures
        digest::gist_blocks(g, role, a + b) == digest::gist_blocks(
            digest::gist_blocks(g, role, a),
            role,
            b,
        ),
    decreases b.len(),
{
    if b.len() == 0 {
        assert(a + b =~= a);
    } else {
        assert((a + b).drop_last() =~= a + b.drop_last());
        lemma_blocks_in_order(g, role, a, b.drop_last());
    }
}

/// What is told of messages when one more block is said after them, in a message of its own: what
/// the user asks is a request, and what the assistant said last before it an outcome. Calls and
/// failed results count whoever says them.
pub proof fn lemma_told(msgs: Seq<MsgV>, role: Role, b: BlockV, ts: Option<Seq<char>>)
    ensures
        ({
            let g = digest::gist_of(msgs);
            let r = digest::gist_of(msgs.push(MsgV { role, blocks: seq![b], ts }));
            match b {
                BlockV::Text(t) => {
                    let blank = text::trimmed(t).len() == 0;
                    &&& blank || role == Role::Tool ==> r == g
                    &&& !blank && role == Role::User ==> {
                        &&& r.requests == g.requests.push(t)
                        &&& r.last is None
                        &&& g.last is None ==> r.notes == g.notes
                        &&& g.last matches Some(n) ==> r.notes == g.notes.push(n)
                        &&& r.calls == g.calls && r.files == g.files && r.errors == g.errors
                    }
                    &&& !blank && role == Role::Assistant ==> {
                        &&& r.last == Some(t)
                        &&& r.requests == g.requests && r.notes == g.notes
                        &&& r.calls == g.calls && r.files == g.files && r.errors == g.errors
                    }
                },
                BlockV::Thinking(t) => r == g,
                BlockV::ToolCall { id, name, args } => {
                    &&& r.calls == g.calls.push(name)
                    &&& r.requests == g.requests && r.notes == g.notes && r.last == g.last
                    &&& r.errors == g.errors
                },
                BlockV::ToolResult { call_id, name, content, is_error } => {
                    &&& is_error ==> r.errors == g.errors.push(content)
                    &&& !is_error ==> r == g
                    &&& r.requests == g.requests && r.notes == g.notes && r.last == g.last
                    &&& r.calls == g.calls && r.files == g.files
                },
            }
        }),
{
    let m = MsgV { role, blocks: seq![b], ts };
    assert(msgs.push(m).drop_last() =~= msgs);
    assert(seq![b].drop_last() =~= Seq::<BlockV>::empty());
    let g = digest::gist_of(msgs);
    assert(digest::gist_blocks(g, role, Seq::<BlockV>::empty()) == g);
}

/// A message tells what its blocks would tell one by one.
pub proof fn lemma_told_by_block(
    msgs: Seq<MsgV>,
    role: Role,
    a: Seq<BlockV>,
    b: Seq<BlockV>,
    ts: Option<Seq<char>>,
)
    ensures
        digest::gist_of(msgs.push(MsgV { role, blocks: a + b, ts })) == digest::gist_of(
            msgs.push(MsgV { role, blocks: a, ts }).push(MsgV { role, blocks: b, ts }),
        ),
        digest::gist_of(msgs.push(MsgV { role, blocks: Seq::empty(), ts })) == digest::gist_of(msgs),
{
    let x = MsgV { role, blocks: a, ts };
    let y = MsgV { role, blocks: b, ts };
    let z = MsgV { role, blocks: a + b, ts };
    let e = MsgV { role, blocks: Seq::empty(), ts };
    assert(msgs.push(x).drop_last() =~= msgs);
    assert(msgs.push(z).drop_last() =~= msgs);
    assert(msgs.push(e).drop_last() =~= msgs);
    assert(msgs.push(x).push(y).drop_last() =~= msgs.push(x));
    let g = digest::gist_of(msgs);
    lemma_blocks_in_order(g, role, a, b);
    assert(digest::gist_of(msgs.push(x)) == digest::gist_blocks(g, role, a));
    assert(digest::gist_of(msgs.push(z)) == digest::gist_blocks(g, role, a + b));
}

/// Whether `p` is a file that a call names, under any of the keys that tools use.
pub open spec fn names_file(args: Tree, p: Seq<char>) -> bool {
    says(args, "file_path"@, p) || says(args, "path"@, p) || says(args, "filePath"@, p) || says(
        args,
        "notebook_path"@,
        p,
    )
}

proof fn lemma_without(files: Seq<Seq<char>>, p: Seq<char>, q: Seq<char>)
    ensures
        digest::without(files, p).contains(q) <==> files.contains(q) && q != p,
    decreases files.len(),
{
    if files.len() > 0 {
        let before = files.drop_last();
        let last = files.last();
        lemma_without(before, p, q);
        let w = digest::without(before, p);
        assert(files[files.len() - 1] == last);
        if before.contains(q) {
            let k = choose|k: int| 0 <= k < before.len() && before[k] == q;
            assert(files[k] == q);
        }
        if files.contains(q) && q != last {
            let k = choose|k: int| 0 <= k < files.len() && files[k] == q;
            assert(before[k] == q);
        }
        if last != p {
            let all = w.push(last);
            assert(all[w.len() as int] == last);
            if w.contains(q) {
                let k = choose|k: int| 0 <= k < w.len() && w[k] == q;
                assert(all[k] == q);
            }
            if all.contains(q) && q != last {
                let k = choose|k: int| 0 <= k < all.len() && all[k] == q;
                assert(w[k] == q);
            }
        }
    }
}

proof fn lemma_touch_holds(files: Seq<Seq<char>>, args: Tree, key: Seq<char>, q: Seq<char>)
    ensures
        digest::touch(files, args, key).contains(q) <==> files.contains(q) || says(args, key, q),
{
    if let Some(p) = json::text_of(json::field(args, key)) {
        let w = digest::without(files, p);
        lemma_without(files, p, q);
        let all = w.push(p);
        assert(all[w.len() as int] == p);
        if w.contains(q) {
            let k = choose|k: int| 0 <= k < w.len() && w[k] == q;
            assert(all[k] == q);
        }
        if all.contains(q) && q != p {
            let k = choose|k: int| 0 <= k < all.len() && all[k] == q;
            assert(w[k] == q);
        }
    }
}

/// The files told are those that calls named, and one that a call names under one key alone is
/// told last.
pub proof fn lemma_file_told(
    msgs: Seq<MsgV>,
    role: Role,
    id: Seq<char>,
    name: Seq<char>,
    args: Tree,
    ts: Option<Seq<char>>,
    p: Seq<char>,
)
    ensures
        ({
            let g = digest::gist_of(msgs).files;
            let r = digest::gist_of(
                msgs.push(MsgV { role, blocks: seq![BlockV::ToolCall { id, name, args }], ts }),
            ).files;
            &&& r.contains(p) <==> g.contains(p) || names_file(args, p)
            &&& names_file(args, p) && (forall|q: Seq<char>| #[trigger] names_file(args, q) ==> q
                == p) ==> r.len() > 0 && r.last() == p
            &&& (forall|q: Seq<char>| !#[trigger] names_file(args, q)) ==> r == g
        }),
{
    let m = MsgV { role, blocks: seq![BlockV::ToolCall { id, name, args }], ts };
    assert(msgs.push(m).drop_last() =~= msgs);
    assert(m.blocks.drop_last() =~= Seq::<BlockV>::empty());
    let g = digest::gist_of(msgs);
    assert(digest::gist_blocks(g, role, Seq::<BlockV>::empty()) == g);
    let a = digest::touch(g.files, args, "file_path"@);
    let b = digest::touch(a, args, "path"@);
    let c = digest::touch(b, args, "filePath"@);
    let d = digest::touch(c, args, "notebook_path"@);
    assert(digest::gist_of(msgs.push(m)).files == d);
    lemma_touch_holds(g.files, args, "file_path"@, p);
    lemma_touch_holds(a, args, "path"@, p);
    lemma_touch_holds(b, args, "filePath"@, p);
    lemma_touch_holds(c, args, "notebook_path"@, p);
    if names_file(args, p) && (forall|q: Seq<char>| #[trigger] names_file(args, q) ==> q == p) {
        lemma_only(args, "file_path"@, p);
        lemma_only(args, "path"@, p);
        lemma_only(args, "filePath"@, p);
        lemma_only(args, "notebook_path"@, p);
    }
    if forall|q: Seq<char>| !#[trigger] names_file(args, q) {
        lemma_none(args, "file_path"@);
        lemma_none(args, "path"@);
        lemma_none(args, "filePath"@);
        lemma_none(args, "notebook_path"@);
    }
}

proof fn lemma_only(args: Tree, key: Seq<char>, p: Seq<char>)
    requires
        key == "file_path"@ || key == "path"@ || key == "filePath"@ || key == "notebook_path"@,
        forall|q: Seq<char>| #[trigger] names_file(args, q) ==> q == p,
    ensures
        json::text_of(json::field(args, key)) matches Some(q) ==> q == p,
{
    if let Some(q) = json::text_of(json::field(args, key)) {
        assert(names_file(args, q));
    }
}

proof fn lemma_none(args: Tree, key: Seq<char>)
    requires
        key == "file_path"@ || key == "path"@ || key == "filePath"@ || key == "notebook_path"@,
        forall|q: Seq<char>| !#[trigger] names_file(args, q),
    ensures
        json::text_of(json::field(args, key)) is None,
{
    if let Some(q) = json::text_of(json::field(args, key)) {
        assert(names_file(args, q));
    }
}

/// A text of at most `max` characters is told whole, a longer one up to there and a mark.
pub proof fn lemma_cut(s: Seq<char>, max: nat)
    ensures
        s.len() <= max ==> digest::cut_text(s, max) == s,
        s.len() > max ==> digest::cut_text(s, max) == s.take(max as int) + seq!['…'],
{
    assert(s.take(max as int).push('…') =~= s.take(max as int) + seq!['…']);
}

/// Listed items follow each other, a line each, white space in them reduced to blanks.
pub proof fn lemma_items(a: Seq<Seq<char>>, b: Seq<Seq<char>>, t: Seq<char>, len: nat)
    ensures
        digest::bullets(a + b, len) == digest::bullets(a, len) + digest::bullets(b, len),
        digest::bullets(seq![t], len) == "- "@ + digest::cut_text(
            text::joined(text::words_of(t), " "@),
            len,
        ) + "\n"@,
        digest::bullets(Seq::empty(), len) == Seq::<char>::empty(),
    decreases b.len(),
{
    assert(seq![t].drop_last() =~= Seq::<Seq<char>>::empty());
    assert(digest::bullets(Seq::empty(), len) == Seq::<char>::empty());
    let one = digest::cut_text(text::joined(text::words_of(t), " "@), len);
    assert(digest::bullets(seq![t], len) =~= "- "@ + one + "\n"@);
    if b.len() == 0 {
        assert(a + b =~= a);
        assert(digest::bullets(a, len) + digest::bullets(b, len) =~= digest::bullets(a, len));
    } else {
        assert((a + b).drop_last() =~= a + b.drop_last());
        lemma_items(a, b.drop_last(), t, len);
        assert(digest::bullets(a + b, len) =~= digest::bullets(a, len) + digest::bullets(b, len));
    }
}

/// A section lists the most recent items, and says so where there are more.
pub proof fn lemma_section(
    title: Seq<char>,
    old: Seq<Seq<char>>,
    new: Seq<Seq<char>>,
    max: nat,
    len: nat,
)
    requires
        max > 0,
        new.len() > 0,
    ensures
        new.len() <= max && old.len() == 0 ==> digest::section_text(title, old + new, max, len)
            == title + ":\n"@ + digest::bullets(new, len),
        new.len() == max && old.len() > 0 ==> digest::section_text(title, old + new, max, len)
            == title + " (last "@ + text::decimal(max) + " of "@ + text::decimal(
            old.len() + new.len(),
        ) + "):\n"@ + digest::bullets(new, len),
{
    let all = old + new;
    reveal_strlit(")");
    reveal_strlit(":\n");
    reveal_strlit("):\n");
    if old.len() == 0 {
        assert(all =~= new);
        assert(new.skip(0) =~= new);
        assert(title + Seq::<char>::empty() =~= title);
    }
    if new.len() == max && old.len() > 0 {
        assert(all.skip(old.len() as int) =~= new);
        assert(")"@ + ":\n"@ =~= "):\n"@);
        let n = text::decimal(all.len());
        assert(title + (" (last "@ + text::decimal(max) + " of "@ + n + ")"@) + ":\n"@ =~= title
            + " (last "@ + text::decimal(max) + " of "@ + n + "):\n"@);
    }
}

/// The outcomes: what the assistant said last before each request, and last of all.
pub open spec fn outcomes(g: Gist) -> Seq<Seq<char>> {
    match g.last {
        Some(n) => g.notes.push(n),
        None => g.notes,
    }
}

/// A digest tells, in this order, up to 30, 12 or 5 requests, up to 20, 8 or no outcomes, all
/// tools, up to 40, 20 or 10 files, and up to 5, 3 or no errors, depending on its detail.
pub proof fn lemma_digest(msgs: Seq<MsgV>)
    ensures
        ({
            let g = digest::gist_of(msgs);
            &&& digest::digest_text(msgs, Detail::Full) == digest::section_text(
                "User requests"@,
                g.requests,
                30,
                400,
            ) + digest::section_text("Assistant outcomes"@, outcomes(g), 20, 300)
                + digest::tools_line(g.calls) + digest::files_line(g.files, 40)
                + digest::section_text("Errors"@, g.errors, 5, 200)
            &&& digest::digest_text(msgs, Detail::Brief) == digest::section_text(
                "User requests"@,
                g.requests,
                12,
                200,
            ) + digest::section_text("Assistant outcomes"@, outcomes(g), 8, 150)
                + digest::tools_line(g.calls) + digest::files_line(g.files, 20)
                + digest::section_text("Errors"@, g.errors, 3, 200)
            &&& digest::digest_text(msgs, Detail::Minimal) == digest::section_text(
                "User requests"@,
                g.requests,
                5,
                120,
            ) + digest::tools_line(g.calls) + digest::files_line(g.files, 10)
        }),
{
    let g = digest::gist_of(msgs);
    let none = Seq::<char>::empty();
    let a = digest::section_text("User requests"@, g.requests, 5, 120);
    let b = digest::tools_line(g.calls);
    let c = digest::files_line(g.files, 10);
    assert(a + none + b + c + none =~= a + b + c);
}

/// The tools of a digest, by name, each with how often it was called; every tool that was called is
/// among them.
pub proof fn lemma_tools(calls: Seq<Seq<char>>, name: Seq<char>)
    requires
        calls.len() > 0,
    ensures
        ({
            let tally = digest::tally_of(calls);
            let texts = Seq::new(
                tally.len(),
                |i: int| tally[i].0 + "×"@ + text::decimal(tally[i].1),
            );
            &&& digest::tools_line(calls) == "Tools used: "@ + text::joined(texts, ", "@) + "\n"@
            &&& calls.contains(name) ==> exists|i: int|
                0 <= i < tally.len() && (#[trigger] tally[i]).0 == name
            &&& forall|i: int|
                0 <= i < tally.len() ==> (#[trigger] tally[i]).1 == digest::occurrences(
                    calls,
                    tally[i].0,
                ) && tally[i].1 > 0
            &&& forall|i: int, j: int|
                0 <= i < j < tally.len() ==> json::key_before(
                    (#[trigger] tally[i]).0,
                    (#[trigger] tally[j]).0,
                )
        }),
{
    let tally = digest::tally_of(calls);
    let texts = Seq::new(tally.len(), |i: int| tally[i].0 + "×"@ + text::decimal(tally[i].1));
    assert(digest::count_texts(tally) =~= texts);
    lemma_tally_counts(calls);
    digest::lemma_tally(calls, name);
    lemma_occurs(calls, name);
    lemma_counted(tally, name);
}

proof fn lemma_occurs(calls: Seq<Seq<char>>, name: Seq<char>)
    ensures
        calls.contains(name) ==> digest::occurrences(calls, name) > 0,
    decreases calls.len(),
{
    if calls.len() > 0 {
        let before = calls.drop_last();
        lemma_occurs(before, name);
        if calls.contains(name) && calls.last() != name {
            let k = choose|k: int| 0 <= k < calls.len() && calls[k] == name;
            assert(before[k] == name);
        }
    }
}

proof fn lemma_counted(tally: Seq<digest::Count>, name: Seq<char>)
    ensures
        digest::count_in(tally, name) > 0 ==> exists|i: int|
            0 <= i < tally.len() && (#[trigger] tally[i]).0 == name,
    decreases tally.len(),
{
    if tally.len() > 0 {
        let before = tally.drop_last();
        lemma_counted(before, name);
        if tally.last().0 == name {
            assert(tally[tally.len() - 1].0 == name);
        } else if digest::count_in(tally, name) > 0 {
            let i = choose|i: int| 0 <= i < before.len() && (#[trigger] before[i]).0 == name;
            assert(tally[i].0 == name);
        }
    }
}

/// In a list with its keys in order, a place is found by its key.
proof fn lemma_found(tally: Seq<digest::Count>, i: int)
    requires
        json::keys_ordered(tally),
        0 <= i < tally.len(),
    ensures
        digest::count_in(tally, tally[i].0) == tally[i].1,
    decreases tally.len(),
{
    let before = tally.drop_last();
    if i < tally.len() - 1 {
        assert(json::keys_ordered(before)) by {
            assert forall|a: int, b: int| 0 <= a < b < before.len() implies json::key_before(
                (#[trigger] before[a]).0,
                (#[trigger] before[b]).0,
            ) by {
                assert(before[a] == tally[a] && before[b] == tally[b]);
            }
        }
        lemma_found(before, i);
        assert(before[i] == tally[i]);
        assert(json::key_before(tally[i].0, tally[tally.len() - 1].0));
        lemma_not_before_itself(tally[i].0);
    }
}

proof fn lemma_not_before_itself(s: Seq<char>)
    ensures
        !json::key_before(s, s),
    decreases s.len(),
{
    if s.len() > 0 {
        lemma_not_before_itself(s.drop_first());
    }
}

proof fn lemma_tally_counts(calls: Seq<Seq<char>>)
    ensures
        ({
            let tally = digest::tally_of(calls);
            &&& json::keys_ordered(tally)
            &&& forall|i: int|
                0 <= i < tally.len() ==> (#[trigger] tally[i]).1 == digest::occurrences(
                    calls,
                    tally[i].0,
                ) && tally[i].1 > 0
        }),
    decreases calls.len(),
{
    let tally = digest::tally_of(calls);
    digest::lemma_tally(calls, Seq::empty());
    assert forall|i: int| 0 <= i < tally.len() implies (#[trigger] tally[i]).1
        == digest::occurrences(calls, tally[i].0) && tally[i].1 > 0 by {
        digest::lemma_tally(calls, tally[i].0);
        lemma_found(tally, i);
        lemma_positive(calls, i);
    }
}

proof fn lemma_positive(calls: Seq<Seq<char>>, i: int)
    requires
        0 <= i < digest::tally_of(calls).len(),
    ensures
        digest::tally_of(calls)[i].1 > 0,
    decreases calls.len(),
{
    if calls.len() > 0 {
        let before = digest::tally_of(calls.drop_last());
        assert forall|k: int| 0 <= k < before.len() implies (#[trigger] before[k]).1 > 0 by {
            lemma_positive(calls.drop_last(), k);
        }
        lemma_set_positive(before, calls.last(), digest::count_in(before, calls.last()) + 1);
    }
}

proof fn lemma_set_positive(tally: Seq<digest::Count>, name: Seq<char>, n: nat)
    requires
        n > 0,
        forall|k: int| 0 <= k < tally.len() ==> (#[trigger] tally[k]).1 > 0,
    ensures
        forall|k: int|
            0 <= k < json::with_field(tally, name, n).len() ==> (#[trigger] json::with_field(
                tally,
                name,
                n,
            )[k]).1 > 0,
    decreases tally.len(),
{
    if tally.len() > 0 {
        let before = tally.drop_last();
        assert(tally[tally.len() - 1].1 > 0);
        assert forall|k: int| 0 <= k < before.len() implies (#[trigger] before[k]).1 > 0 by {
            assert(before[k] == tally[k]);
        }
        lemma_set_positive(before, name, n);
        let some = json::with_field(before, name, n);
        let all = json::with_field(tally, name, n);
        assert forall|k: int| 0 <= k < all.len() implies (#[trigger] all[k]).1 > 0 by {
            if tally.last().0 == name {
                assert(k < before.len() ==> all[k] == before[k]);
            } else if json::key_before(tally.last().0, name) {
                assert(k < tally.len() ==> all[k] == tally[k]);
            } else {
                assert(k < some.len() ==> all[k] == some[k]);
            }
        }
    }
}

/// The most recent files are told, on one line, by their whole paths.
pub proof fn lemma_files(old: Seq<Seq<char>>, new: Seq<Seq<char>>, max: nat)
    requires
        max > 0,
        0 < new.len() <= max,
        old.len() == 0 || new.len() == max,
    ensures
        digest::files_line(old + new, max) == "Files touched: "@ + text::joined(new, ", "@) + "\n"@,
{
    let all = old + new;
    if old.len() == 0 {
        assert(all.skip(0) =~= new);
    } else {
        assert(all.skip(old.len() as int) =~= new);
    }
}

/// At the least detail a digest tells up to two requests of 80 characters, the first five tools by
/// name with at most 40 characters each, and up to five files of 80 characters.
pub proof fn lemma_least(msgs: Seq<MsgV>, calls: Seq<Seq<char>>, i: int)
    ensures
        ({
            let g = digest::gist_of(msgs);
            digest::digest_text(msgs, Detail::Least) == digest::section_text(
                "User requests"@,
                g.requests,
                2,
                80,
            ) + digest::few_tools_line(g.calls, 5, 40) + digest::files_line(
                digest::cut_texts(g.files, 80),
                5,
            )
        }),
        0 <= i < calls.len() ==> digest::cut_texts(calls, 80)[i] == digest::cut_text(calls[i], 80)
            && digest::cut_texts(calls, 80).len() == calls.len(),
{
    let g = digest::gist_of(msgs);
    let none = Seq::<char>::empty();
    let a = digest::section_text("User requests"@, g.requests, 2, 80);
    let b = digest::few_tools_line(g.calls, 5, 40);
    let c = digest::files_line(digest::cut_texts(g.files, 80), 5);
    assert(a + none + b + c + none =~= a + b + c);
}

/// Where few tools are told, they are the first by name, each with how often it was called, and the
/// line says how many there are.
pub proof fn lemma_few_tools(calls: Seq<Seq<char>>, max: nat, len: nat)
    requires
        calls.len() > 0,
    ensures
        ({
            let tally = digest::tally_of(calls);
            let told = |n: nat|
                Seq::new(
                    n,
                    |i: int|
                        digest::cut_text(tally[i].0, len) + "×"@ + text::decimal(tally[i].1),
                );
            &&& tally.len() <= max ==> digest::few_tools_line(calls, max, len) == "Tools used: "@
                + text::joined(told(tally.len()), ", "@) + "\n"@
            &&& tally.len() > max ==> digest::few_tools_line(calls, max, len)
                == "Tools used (first "@ + text::decimal(max) + " of "@ + text::decimal(tally.len())
                + "): "@ + text::joined(told(max), ", "@) + "\n"@
        }),
{
    let tally = digest::tally_of(calls);
    let told = |n: nat|
        Seq::new(n, |i: int| digest::cut_text(tally[i].0, len) + "×"@ + text::decimal(tally[i].1));
    if tally.len() <= max {
        assert(digest::count_texts(digest::cut_names(tally, len)) =~= told(tally.len()));
    } else {
        assert(digest::count_texts(digest::cut_names(tally.take(max as int), len)) =~= told(max));
    }
}

} // verus!
