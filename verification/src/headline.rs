//! What a summary says of a session: what it is about, which model ran it, and how long it is.

use crate::draft;
use crate::history;
use crate::json;
use crate::json::Tree;
use crate::model;
use crate::model::{Harness, MsgV, Role};
use crate::parse;
use crate::reading;
use crate::reading::{content_says, item_of, parts_say, says, says_if, turn_of, typed};
use crate::records::Setting;
use crate::summary;
use crate::summary::{SessionFile, SumV};
use crate::text;
use crate::words;
use crate::writing;
use vstd::prelude::*;

verus! {

/// What was known of a session before its last record.
proof fn lemma_last(h: Harness, recs: Seq<Tree>, v: Tree)
    ensures
        summary::sum_records(h, recs.push(v)) == summary::step(
            h,
            summary::sum_records(h, recs),
            v,
        ),
{
    assert(recs.push(v).drop_last() =~= recs);
}

proof fn lemma_step_keeps(h: Harness, s: SumV, v: Tree)
    ensures
        s.preview.len() > 0 ==> summary::step(h, s, v).preview == s.preview,
        s.model.len() > 0 ==> summary::step(h, s, v).model == s.model,
        s.msgs <= summary::step(h, s, v).msgs <= s.msgs + 1,
        (h == Harness::Claude || h == Harness::Codex) && s.title == s.preview ==> summary::step(
            h,
            s,
            v,
        ).title == summary::step(h, s, v).preview,
{
}

/// Once a session has a preview or a model, no later record changes it, and a record counts as one
/// message at most. CL and Codex have no titles: there it is the preview.
pub proof fn lemma_first_stays(h: Harness, a: Seq<Tree>, b: Seq<Tree>)
    ensures
        ({
            let s = summary::sum_records(h, a);
            let t = summary::sum_records(h, a + b);
            &&& s.preview.len() > 0 ==> t.preview == s.preview
            &&& s.model.len() > 0 ==> t.model == s.model
            &&& s.msgs <= t.msgs <= s.msgs + b.len()
            &&& h == Harness::Claude || h == Harness::Codex ==> t.title == t.preview
        }),
    decreases a.len() + b.len(),
{
    if b.len() == 0 {
        assert(a + b =~= a);
        if a.len() > 0 {
            lemma_first_stays(h, a.drop_last(), b);
            assert(a.drop_last() + b =~= a.drop_last());
            lemma_step_keeps(h, summary::sum_records(h, a.drop_last()), a.last());
        }
    } else {
        assert((a + b).drop_last() =~= a + b.drop_last());
        lemma_first_stays(h, a, b.drop_last());
        lemma_step_keeps(h, summary::sum_records(h, a + b.drop_last()), b.last());
    }
}

/// A record of a user message, as a summary tells it.
pub open spec fn user_turn(h: Harness, v: Tree, c: Tree, ts: Option<Seq<char>>) -> bool {
    turn_of(h, v, "user"@, c, ts) && (h == Harness::Claude ==> says(v, "type"@, "user"@))
}

/// A record of an assistant's message, as a summary tells it.
pub open spec fn assistant_turn(h: Harness, v: Tree, c: Tree, ts: Option<Seq<char>>) -> bool {
    turn_of(h, v, "assistant"@, c, ts) && (h == Harness::Claude ==> says(v, "type"@, "assistant"@))
}

/// The preview of a session is the first text that the user typed, on one line. It is the title
/// too where there is none.
pub proof fn lemma_preview(
    h: Harness,
    recs: Seq<Tree>,
    v: Tree,
    c: Tree,
    t: Seq<char>,
    ts: Option<Seq<char>>,
)
    requires
        user_turn(h, v, c, ts),
        content_says(c, t),
    ensures
        ({
            let s = summary::sum_records(h, recs);
            let r = summary::sum_records(h, recs.push(v));
            &&& s.preview.len() == 0 && typed(t) ==> r.preview == summary::clipped(t)
            &&& !typed(t) ==> r.preview == s.preview
            &&& s.preview.len() == 0 && s.title.len() == 0 && typed(t) ==> r.title
                == summary::clipped(t)
            &&& s.title.len() > 0 && s.title != "New Session"@ && h != Harness::Claude ==> r.title
                == s.title
            &&& h == Harness::Factory && s.preview.len() == 0 && s.title == "New Session"@ && typed(
                t,
            ) ==> r.title == summary::clipped(t)
            &&& r.msgs == s.msgs + 1
            &&& r.model == s.model && r.id == s.id
        }),
{
    words::lemma_words();
    lemma_last(h, recs, v);
    reading::lemma_content(c, t);
}

/// The preview of a Codex session is what the user said first.
pub proof fn lemma_codex_preview(
    recs: Seq<Tree>,
    v: Tree,
    p: Tree,
    items: Seq<Tree>,
    ts: Seq<Seq<char>>,
    at: Option<Seq<char>>,
)
    requires
        item_of(v, p, at),
        says(p, "type"@, "message"@),
        says(p, "role"@, "user"@),
        json::field(p, "content"@) == Some(Tree::Arr(items)),
        parts_say(items, "input_text"@, ts),
    ensures
        ({
            let h = Harness::Codex;
            let s = summary::sum_records(h, recs);
            let r = summary::sum_records(h, recs.push(v));
            let t = text::joined(ts, "\n"@);
            &&& s.preview.len() == 0 && t.len() > 0 ==> r.preview == summary::clipped(t) && r.title
                == summary::clipped(t)
            &&& r.msgs == s.msgs + 1
            &&& r.model == s.model && r.id == s.id && r.cwd == s.cwd
        }),
{
    words::lemma_words();
    lemma_last(Harness::Codex, recs, v);
    reading::lemma_parts(items, "input_text"@, ts);
}

/// An assistant's message counts, and names the model where none is known. It changes nothing else.
pub proof fn lemma_model(
    h: Harness,
    recs: Seq<Tree>,
    v: Tree,
    c: Tree,
    model: Option<Seq<char>>,
    ts: Option<Seq<char>>,
)
    requires
        assistant_turn(h, v, c, ts),
        says_if(json::at(v, "message"@), "model"@, model),
    ensures
        ({
            let s = summary::sum_records(h, recs);
            let r = summary::sum_records(h, recs.push(v));
            &&& r.msgs == s.msgs + 1
            &&& r.model == if s.model.len() > 0 {
                s.model
            } else {
                match model {
                    Some(m) => m,
                    None => Seq::empty(),
                }
            }
            &&& r.preview == s.preview && r.title == s.title && r.id == s.id
        }),
{
    words::lemma_words();
    lemma_last(h, recs, v);
}

/// Codex names its model with each turn, Pi and OMP where it changes; the first counts.
pub proof fn lemma_model_named(h: Harness, recs: Seq<Tree>, v: Tree, m: Seq<char>)
    requires
        summary::sum_records(h, recs).model.len() == 0,
    ensures
        h == Harness::Codex && says(v, "type"@, "turn_context"@) && (json::field(v, "payload"@) matches Some(
            p,
        ) && says(p, "model"@, m)) ==> summary::sum_records(h, recs.push(v)).model == m,
        (h == Harness::Pi || h == Harness::Omp) && says(v, "type"@, "model_change"@) && says(
            v,
            "model"@,
            m,
        ) && m.len() > 0 ==> summary::sum_records(h, recs.push(v)).model == m,
        (h == Harness::Pi || h == Harness::Omp) && says(v, "type"@, "model_change"@)
            && json::field(v, "model"@) is None && says(v, "modelId"@, m) ==> summary::sum_records(
            h,
            recs.push(v),
        ).model == m,
{
    words::lemma_words();
    reveal_strlit("modelId");
    lemma_last(h, recs, v);
}

/// What is no message does not count: records of another type, and side chains of CL, which change
/// nothing at all.
pub proof fn lemma_not_counted(h: Harness, recs: Seq<Tree>, v: Tree)
    ensures
        ({
            let s = summary::sum_records(h, recs);
            let r = summary::sum_records(h, recs.push(v));
            &&& (h == Harness::Factory || h == Harness::Pi || h == Harness::Omp) && !says(
                v,
                "type"@,
                "message"@,
            ) ==> r.msgs == s.msgs && r.preview == s.preview
            &&& h == Harness::Codex && !says(v, "type"@, "response_item"@) ==> r.msgs == s.msgs
                && r.preview == s.preview
            &&& h == Harness::Codex && !says(json::at(v, "payload"@), "type"@, "message"@)
                ==> r.msgs == s.msgs && r.preview == s.preview
            &&& h == Harness::Claude && !says(v, "type"@, "user"@) && !says(
                v,
                "type"@,
                "assistant"@,
            ) ==> r.msgs == s.msgs && r.preview == s.preview
            &&& h == Harness::Claude && json::field(v, "isSidechain"@) == Some(Tree::Bool(true))
                ==> r == s
        }),
{
    words::lemma_words();
    reveal_strlit("message");
    reveal_strlit("response_item");
    reveal_strlit("user");
    reveal_strlit("assistant");
    lemma_last(h, recs, v);
}

/// The head of a session says its id and where it was held, and for Factory, Pi and OMP its title.
pub proof fn lemma_head(
    h: Harness,
    recs: Seq<Tree>,
    v: Tree,
    id: Seq<char>,
    cwd: Seq<char>,
    title: Seq<char>,
)
    ensures
        ({
            let s = summary::sum_records(h, recs);
            let r = summary::sum_records(h, recs.push(v));
            &&& h == Harness::Factory && says(v, "type"@, "session_start"@) && says(v, "id"@, id)
                && says(v, "cwd"@, cwd) && says(v, "title"@, title) ==> r.id == id && r.cwd == cwd
                && r.title == title
            &&& (h == Harness::Pi || h == Harness::Omp) && says(v, "type"@, "session"@) && says(
                v,
                "id"@,
                id,
            ) && says(v, "cwd"@, cwd) && says(v, "title"@, title) ==> r.id == id && r.cwd == cwd
                && r.title == if s.title.len() > 0 {
                s.title
            } else {
                title
            }
            &&& (h == Harness::Pi || h == Harness::Omp) && says(v, "type"@, "title"@) && says(
                v,
                "title"@,
                title,
            ) ==> r.id == s.id && r.cwd == s.cwd && r.title == if s.title.len() > 0 {
                s.title
            } else {
                title
            }
            &&& h == Harness::Codex && says(v, "type"@, "session_meta"@) && (json::field(
                v,
                "payload"@,
            ) matches Some(p) && says(p, "id"@, id) && says(p, "cwd"@, cwd)) && id.len() > 0
                && s.id.len() == 0 ==> r.id == id && r.cwd == cwd
            &&& h == Harness::Codex && says(v, "type"@, "session_meta"@) && s.id.len() > 0 ==> r
                == s
            &&& h == Harness::Claude && says(v, "cwd"@, cwd) && json::field(v, "isSidechain"@)
                != Some(Tree::Bool(true)) ==> r.cwd == if s.cwd.len() > 0 {
                s.cwd
            } else {
                cwd
            }
        }),
{
    words::lemma_words();
    lemma_last(h, recs, v);
}

/// A text without blanks at its ends or line feeds.
pub open spec fn tidy(t: Seq<char>) -> bool {
    &&& t.len() > 0 ==> !text::white(t[0]) && !text::white(t.last())
    &&& forall|i: int| 0 <= i < t.len() ==> #[trigger] t[i] != '\n'
}

proof fn lemma_tidy(t: Seq<char>)
    requires
        tidy(t),
    ensures
        text::trimmed(text::replaced(t, '\n', ' ')) == t,
{
    assert(text::replaced(t, '\n', ' ') =~= t);
    assert(text::trim_start(t) == t);
    assert(text::trim_end(t) == t);
}

/// A tidy text of at most 140 characters is told whole, a longer one as its first 137 and a mark.
/// Line feeds become blanks.
pub proof fn lemma_clip(t: Seq<char>, s: Seq<char>)
    ensures
        tidy(t) && t.len() <= 140 ==> summary::clipped(t) == t,
        tidy(t) && t.len() > 140 ==> summary::clipped(t) == t.take(137) + seq!['…'],
        s.len() == t.len() && (forall|i: int|
            0 <= i < t.len() ==> #[trigger] s[i] == if t[i] == '\n' {
                ' '
            } else {
                t[i]
            }) ==> summary::clipped(s) == summary::clipped(t),
{
    if tidy(t) {
        lemma_tidy(t);
        assert(t.take(137).push('…') =~= t.take(137) + seq!['…']);
    }
    if s.len() == t.len() && (forall|i: int|
        0 <= i < t.len() ==> #[trigger] s[i] == if t[i] == '\n' {
            ' '
        } else {
            t[i]
        }) {
        let a = text::replaced(s, '\n', ' ');
        let b = text::replaced(t, '\n', ' ');
        assert forall|i: int| 0 <= i < t.len() implies a[i] == b[i] by {
            assert(s[i] == if t[i] == '\n' {
                ' '
            } else {
                t[i]
            });
        }
        assert(a =~= b);
    }
}

/// `t` is what stands behind the last `_` of a name.
pub open spec fn last_part(name: Seq<char>, t: Seq<char>) -> bool {
    &&& t.len() <= name.len() && name.skip(name.len() - t.len()) == t
    &&& forall|i: int| 0 <= i < t.len() ==> #[trigger] t[i] != '_'
    &&& t.len() < name.len() ==> name[name.len() - t.len() - 1] == '_'
}

proof fn lemma_last_part(name: Seq<char>)
    ensures
        text::split_of(name, '_').len() > 0,
        last_part(name, text::split_of(name, '_').last()),
        text::split_scan(name, '_').cur == text::split_of(name, '_').last(),
    decreases name.len(),
{
    let t = text::split_of(name, '_').last();
    if name.len() > 0 {
        let before = name.drop_last();
        lemma_last_part(before);
        let u = text::split_of(before, '_').last();
        if name.last() == '_' {
            assert(name.skip(name.len() as int) =~= Seq::empty());
        } else {
            assert(t =~= u.push(name.last()));
            assert(name.skip(name.len() - t.len()) =~= before.skip(before.len() - u.len()).push(
                name.last(),
            ));
            assert forall|i: int| 0 <= i < t.len() implies #[trigger] t[i] != '_' by {
                if i < u.len() {
                    assert(t[i] == u[i]);
                }
            }
            if t.len() < name.len() {
                assert(name[name.len() - t.len() - 1] == before[before.len() - u.len() - 1]);
            }
        }
    } else {
        assert(name.skip(0) =~= Seq::empty());
    }
}

/// A session that says its id, its title and where it was held is listed with them. What it does
/// not say is taken from the file's name: the id is the name, the title what stands behind its last
/// `_`. A directory that is not said is a question mark. The rest is what the records say.
pub proof fn lemma_listed(s: SumV, stem: Option<Seq<char>>)
    ensures
        ({
            let titled = s.title.len() > 0 && s.title != "New Session"@;
            match summary::completed(s, stem) {
                Some(r) => {
                    &&& s.id.len() > 0 ==> r.id == s.id
                    &&& s.id.len() == 0 ==> stem == Some(r.id)
                    &&& titled ==> r.title == summary::clipped(s.title)
                    &&& !titled ==> stem is Some && exists|t: Seq<char>| #[trigger]
                        last_part(stem->Some_0, t) && r.title == summary::clipped(t)
                    &&& s.cwd.len() > 0 ==> r.cwd == s.cwd
                    &&& s.cwd.len() == 0 ==> r.cwd == "?"@
                    &&& r.model == s.model && r.preview == s.preview && r.msgs == s.msgs
                },
                None => stem is None && (s.id.len() == 0 || !titled),
            }
        }),
{
    if let Some(name) = stem {
        lemma_last_part(name);
    }
}

/// What the records of turns, written for CL, come to: each counts, and the model is named with the
/// first turn of the assistant.
proof fn lemma_turns_counted(
    h: Harness,
    w: Setting,
    msgs: Seq<MsgV>,
    head: Seq<Tree>,
    starts: Seq<int>,
    recs: Seq<Tree>,
)
    requires
        h == Harness::Factory || h == Harness::Claude,
        starts.len() == recs.len(),
        forall|k: int|
            0 <= k < recs.len() ==> writing::turn_told(
                h,
                w,
                msgs,
                starts[k],
                #[trigger] recs[k],
            ),
    ensures
        summary::sum_records(h, head + recs).msgs == summary::sum_records(h, head).msgs
            + recs.len(),
        h == Harness::Claude && summary::sum_records(h, head).model.len() == 0 && (exists|k: int|
            0 <= k < starts.len() && msgs[#[trigger] starts[k]].role == Role::Assistant)
            ==> summary::sum_records(h, head + recs).model == w.model,
        h == Harness::Claude && summary::sum_records(h, head).model.len() == 0
            ==> summary::sum_records(h, head + recs).model == w.model || summary::sum_records(
            h,
            head + recs,
        ).model.len() == 0,
    decreases recs.len(),
{
    words::lemma_words();
    let all = head + recs;
    if recs.len() == 0 {
        assert(all =~= head);
    } else {
        let n = recs.len() - 1;
        let before = recs.drop_last();
        let some = starts.drop_last();
        assert(all.drop_last() =~= head + before);
        assert forall|k: int| 0 <= k < before.len() implies writing::turn_told(
            h,
            w,
            msgs,
            some[k],
            #[trigger] before[k],
        ) by {
            assert(before[k] == recs[k] && some[k] == starts[k]);
        }
        lemma_turns_counted(h, w, msgs, head, some, before);
        assert(writing::turn_told(h, w, msgs, starts[n], recs[n]));
        let s = summary::sum_records(h, head + before);
        assert(summary::sum_records(h, all) == summary::step(h, s, recs[n]));
        if exists|k: int|
            0 <= k < starts.len() && msgs[#[trigger] starts[k]].role == Role::Assistant {
            let k = choose|k: int|
                0 <= k < starts.len() && msgs[#[trigger] starts[k]].role == Role::Assistant;
            if k < n {
                assert(some[k] == starts[k]);
            }
        }
    }
}

/// The summary of a session written for CL or Factory counts a message for every turn, and that of
/// one written for CL has the model it was written with as soon as the assistant has a turn.
pub proof fn lemma_written_counted(h: Harness, w: Setting, msgs: Seq<MsgV>) -> (starts: Seq<int>)
    requires
        h == Harness::Factory || h == Harness::Claude,
        writing::all_regular(msgs),
    ensures
        forall|k: int| 0 <= k < starts.len() ==> writing::turn_starts(msgs, #[trigger] starts[k]),
        forall|j: int, k: int|
            0 <= j < k < starts.len() ==> #[trigger] starts[j] < #[trigger] starts[k],
        forall|p: int| 0 <= p && #[trigger] writing::turn_starts(msgs, p) ==> starts.contains(p),
        summary::sum_records(h, draft::session_records(h, w, msgs)).msgs == starts.len(),
        h == Harness::Claude && (exists|i: int|
            0 <= i < msgs.len() && (#[trigger] msgs[i]).role == Role::Assistant)
            ==> summary::sum_records(h, draft::session_records(h, w, msgs)).model == w.model,
{
    words::lemma_words();
    let starts = writing::lemma_turns_written(h, w, msgs);
    writing::lemma_head_written(h, w, msgs);
    let all = draft::session_records(h, w, msgs);
    let n = writing::head_len(h);
    let head = all.take(n);
    let recs = all.skip(n);
    assert(all =~= head + recs);
    assert forall|k: int| 0 <= k < recs.len() implies writing::turn_told(
        h,
        w,
        msgs,
        starts[k],
        #[trigger] recs[k],
    ) by {
        assert(0 <= starts[k]);
    }
    lemma_turns_counted(h, w, msgs, head, starts, recs);
    if h == Harness::Factory {
        assert(head =~= seq![all[0]]);
        assert(head.drop_last() =~= Seq::<Tree>::empty());
        assert(summary::sum_records(h, head.drop_last()) == summary::unknown());
        assert(says(head.last(), "type"@, "session_start"@));
        assert(summary::sum_records(h, head).msgs == 0);
    } else {
        assert(head =~= Seq::<Tree>::empty());
    }
    if exists|i: int| 0 <= i < msgs.len() && (#[trigger] msgs[i]).role == Role::Assistant {
        let i = choose|i: int| 0 <= i < msgs.len() && (#[trigger] msgs[i]).role == Role::Assistant;
        assert(writing::turn_starts(msgs, i));
        let k = choose|k: int| 0 <= k < starts.len() && starts[k] == i;
        assert(msgs[starts[k]].role == Role::Assistant);
    }
    starts
}

/// A file that was read whole is listed, with its path and its time, by what it says; one that
/// was not is left out.
pub proof fn lemma_file_listed(h: Harness, f: SessionFile)
    ensures
        !f.complete ==> summary::listing(h, seq![f]).len() == 0,
        f.complete && model::opt_view(f.stem) is Some ==> {
            let l = summary::listing(h, seq![f]);
            &&& l.len() == 1
            &&& l[0].harness == h
            &&& l[0].path == f.path
            &&& l[0].modified == f.modified
            &&& summary::completed(
                summary::sum_records(h, history::file_records(text::views(f.lines@))),
                model::opt_view(f.stem),
            ) == Some(l[0].about)
        },
{
    assert(seq![f].drop_last() =~= Seq::empty());
    assert(seq![f].last() == f);
    assert(summary::listing(h, Seq::<SessionFile>::empty()).len() == 0);
}

/// A Codex session that has no `id` goes by its `session_id`.
pub proof fn lemma_codex_id(v: Tree, p: Tree, id: Seq<char>)
    requires
        says(v, "type"@, "session_meta"@),
        json::field(v, "payload"@) == Some(p),
        json::field(p, "id"@) is None,
        says(p, "session_id"@, id),
    ensures
        summary::sum_records(Harness::Codex, seq![v]).id == id,
{
    words::lemma_words();
    assert(seq![v].drop_last() =~= Seq::<Tree>::empty());
    assert(seq![v].last() == v);
    assert(summary::sum_records(Harness::Codex, Seq::<Tree>::empty()) == summary::unknown());
}

/// A message of the user that says nothing counts, but is no preview: an empty one of Codex, or a
/// reminder or notice of the harness. A record of CL whose type is the user's, but whose message is
/// not, does not count.
pub proof fn lemma_no_preview(h: Harness, recs: Seq<Tree>, v: Tree, m: Tree, t: Seq<char>)
    ensures
        h == Harness::Codex && says(v, "type"@, "response_item"@) && json::field(v, "payload"@)
            == Some(m) && says(m, "type"@, "message"@) && json::field(m, "content"@) == Some(
            Tree::Arr(Seq::empty()),
        ) ==> summary::sum_records(h, recs.push(v)) == (SumV {
            msgs: summary::sum_records(h, recs).msgs + 1,
            ..summary::sum_records(h, recs)
        }),
        h == Harness::Claude && says(v, "type"@, "user"@) && json::field(v, "message"@) == Some(m)
            && !says(m, "role"@, "user"@) ==> {
            let s = summary::sum_records(h, recs.push(v));
            let before = summary::sum_records(h, recs);
            &&& s.msgs == before.msgs
            &&& s.preview == before.preview
            &&& s.title == before.title
            &&& s.model == before.model
        },
        h != Harness::Codex && json::field(v, "message"@) == Some(m) && says(m, "role"@, "user"@)
            && says(m, "content"@, t) && !typed(t) && says(
            v,
            "type"@,
            if h == Harness::Claude {
                "user"@
            } else {
                "message"@
            },
        ) && json::field(v, "isSidechain"@) is None ==> {
            let s = summary::sum_records(h, recs.push(v));
            let before = summary::sum_records(h, recs);
            &&& s.msgs == before.msgs + 1
            &&& s.preview == before.preview
            &&& s.model == before.model
        },
{
    words::lemma_words();
    assert(recs.push(v).drop_last() =~= recs);
    assert(recs.push(v).last() == v);
    assert(summary::sum_records(h, recs.push(v)) == summary::step(
        h,
        summary::sum_records(h, recs),
        v,
    ));
    assert(typed(t) == !parse::boilerplate(t));
    assert(parse::codex_parts(Seq::<Tree>::empty(), "input_text"@).len() == 0);
}

} // verus!
