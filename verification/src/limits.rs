//! Which context window a configuration gives.

use crate::json;
use crate::json::Tree;
use crate::model;
use crate::model::Harness;
use crate::phrases;
use crate::text;
use crate::window;
use crate::window::Config;
use vstd::prelude::*;

verus! {

/// `s` without the quotes around it.
pub proof fn lemma_unquoted(s: Seq<char>) -> (r: (int, int))
    ensures
        0 <= r.0 <= r.1 <= s.len(),
        window::unquoted_end(window::unquoted_start(s)) == s.subrange(r.0, r.1),
        forall|k: int| 0 <= k < r.0 ==> #[trigger] s[k] == '"',
        forall|k: int| r.1 <= k < s.len() ==> #[trigger] s[k] == '"',
        r.0 < r.1 ==> s[r.0] != '"' && s[r.1 - 1] != '"',
{
    let i = lemma_opening(s);
    let t = s.skip(i);
    let n = lemma_closing(t);
    assert(t.take(n) =~= s.subrange(i, i + n));
    assert forall|k: int| i + n <= k < s.len() implies #[trigger] s[k] == '"' by {
        assert(t[k - i] == s[k]);
    }
    if n > 0 {
        assert(t[0] == s[i]);
        assert(t[n - 1] == s[i + n - 1]);
    }
    (i, i + n)
}

proof fn lemma_opening(s: Seq<char>) -> (i: int)
    ensures
        0 <= i <= s.len(),
        window::unquoted_start(s) == s.skip(i),
        forall|k: int| 0 <= k < i ==> #[trigger] s[k] == '"',
        i < s.len() ==> s[i] != '"',
    decreases s.len(),
{
    if s.len() > 0 && s[0] == '"' {
        let rest = s.drop_first();
        let i = lemma_opening(rest);
        assert(rest.skip(i) =~= s.skip(i + 1));
        assert forall|k: int| 0 <= k < i + 1 implies #[trigger] s[k] == '"' by {
            if k > 0 {
                assert(rest[k - 1] == s[k]);
            }
        }
        i + 1
    } else {
        assert(s.skip(0) =~= s);
        0
    }
}

proof fn lemma_closing(s: Seq<char>) -> (n: int)
    ensures
        0 <= n <= s.len(),
        window::unquoted_end(s) == s.take(n),
        forall|k: int| n <= k < s.len() ==> #[trigger] s[k] == '"',
        n > 0 ==> s[n - 1] != '"',
    decreases s.len(),
{
    if s.len() > 0 && s.last() == '"' {
        let rest = s.drop_last();
        let n = lemma_closing(rest);
        assert(rest.take(n) =~= s.take(n));
        assert forall|k: int| n <= k < s.len() implies #[trigger] s[k] == '"' by {
            if k < rest.len() {
                assert(rest[k] == s[k]);
            }
        }
        n
    } else {
        assert(s.take(s.len() as int) =~= s);
        s.len() as int
    }
}

proof fn lemma_place(s: Seq<char>, n: int, i: int)
    requires
        0 <= i <= n < s.len(),
        forall|k: int| i <= k < n ==> #[trigger] s[k] != '=',
        s[n] == '=',
    ensures
        window::place_of(s, '=', i) == n,
    decreases n - i,
{
    if i < n {
        lemma_place(s, n, i + 1);
    }
}

proof fn lemma_no_place(s: Seq<char>, i: int)
    requires
        0 <= i <= s.len(),
        forall|k: int| i <= k < s.len() ==> #[trigger] s[k] != '=',
    ensures
        window::place_of(s, '=', i) == s.len(),
    decreases s.len() - i,
{
    if i < s.len() {
        lemma_no_place(s, i + 1);
    }
}

/// A line sets the key before its first `=` to what stands behind it, blanks and quotes around it
/// left out; a line without one sets nothing.
pub proof fn lemma_set_line(a: Seq<char>, v: Seq<char>, name: Seq<char>)
    requires
        forall|k: int| 0 <= k < a.len() ==> #[trigger] a[k] != '=',
    ensures
        window::line_value(a, name) is None,
        text::trimmed(a) == name ==> window::line_value(a.push('=') + v, name) == Some(
            window::unquoted_end(window::unquoted_start(text::trimmed(v))),
        ),
        text::trimmed(a) != name ==> window::line_value(a.push('=') + v, name) is None,
{
    let s = a.push('=') + v;
    assert forall|k: int| 0 <= k < a.len() implies #[trigger] s[k] != '=' by {
        assert(s[k] == a[k]);
    }
    lemma_place(s, a.len() as int, 0);
    lemma_no_place(a, 0);
    assert(s.take(a.len() as int) =~= a);
    assert(s.skip((a.len() + 1) as int) =~= v);
}

/// A line opens a table where its first character that is no white space is a bracket.
pub proof fn lemma_table(blanks: Seq<char>, c: char, rest: Seq<char>)
    requires
        forall|k: int| 0 <= k < blanks.len() ==> text::white(#[trigger] blanks[k]),
        !text::white(c),
    ensures
        window::opens_table(blanks.push(c) + rest) == (c == '['),
        !window::opens_table(blanks),
{
    let s = blanks.push(c) + rest;
    let i = phrases::lemma_start(s);
    assert(s[blanks.len() as int] == c);
    assert forall|k: int| 0 <= k < blanks.len() implies text::white(#[trigger] s[k]) by {
        assert(s[k] == blanks[k]);
    }
    if i < blanks.len() {
        assert(text::white(s[i]));
    }
    let j = phrases::lemma_start(blanks);
    if j < blanks.len() {
        assert(text::white(blanks[j]));
    }
}

/// A file is read line by line: the first line that sets the key gives its value, unless a table
/// was opened before.
pub proof fn lemma_toml(line: Seq<char>, rest: Seq<char>, name: Seq<char>)
    requires
        forall|k: int| 0 <= k < line.len() ==> #[trigger] line[k] != '\n',
    ensures
        window::opens_table(line) ==> window::toml_entry(line.push('\n') + rest, name) is None,
        !window::opens_table(line) && window::line_value(line, name) is Some ==> {
            &&& window::toml_entry(line.push('\n') + rest, name) == window::line_value(line, name)
            &&& window::toml_entry(line, name) == window::line_value(line, name)
        },
        !window::opens_table(line) && window::line_value(line, name) is None ==> {
            &&& window::toml_entry(line.push('\n') + rest, name) == window::toml_entry(rest, name)
            &&& window::toml_entry(line, name) is None
        },
{
    phrases::lemma_pieces(line, '\n', rest);
    let more = text::split_of(rest, '\n');
    let all = text::split_of(line.push('\n') + rest, '\n');
    assert(all[0] == line);
    assert(text::split_of(line, '\n') == seq![line]);
    lemma_value_shift(line, more, 0, name);
    assert(all =~= seq![line] + more);
    assert(window::value_from(seq![line], 1, name) is None);
    assert(window::value_from(all, 0, name) == if window::opens_table(line) {
        None
    } else {
        match window::line_value(line, name) {
            Some(v) => Some(v),
            None => window::value_from(all, 1, name),
        }
    });
}

proof fn lemma_value_shift(line: Seq<char>, more: Seq<Seq<char>>, i: int, name: Seq<char>)
    requires
        0 <= i <= more.len(),
    ensures
        window::value_from(seq![line] + more, i + 1, name) == window::value_from(more, i, name),
    decreases more.len() - i,
{
    let all = seq![line] + more;
    if i < more.len() {
        assert(all[i + 1] == more[i]);
        lemma_value_shift(line, more, i + 1, name);
    }
}

/// A number is read from its digits, with or without a plus sign; any other character spoils it.
pub proof fn lemma_number(n: usize, s: Seq<char>, i: int)
    ensures
        window::number_of(text::decimal(n as nat)) == Some(n),
        window::number_of(seq!['+'] + text::decimal(n as nat)) == Some(n),
        1 <= i < s.len() && !('0' <= s[i] && s[i] <= '9') ==> window::number_of(s) is None,
        s.len() > 0 && !('0' <= s[0] && s[0] <= '9') && s[0] != '+' ==> window::number_of(s)
            is None,
        window::number_of(Seq::empty()) is None,
{
    let d = text::decimal(n as nat);
    phrases::lemma_decimal_value(n as nat);
    assert((seq!['+'] + d).drop_first() =~= d);
    assert('0' <= d[0] && d[0] <= '9');
    if 1 <= i < s.len() && !('0' <= s[i] && s[i] <= '9') {
        let t = window::number_digits(s);
        if s[0] == '+' {
            assert(t[i - 1] == s[i]);
        } else {
            assert(t[i] == s[i]);
        }
    }
}

/// An entry of a catalog is named by its id, its slug or its model.
pub open spec fn names(t: Tree, name: Seq<char>) -> bool {
    ||| json::field(t, "id"@) == Some(Tree::Str(name))
    ||| json::field(t, "slug"@) == Some(Tree::Str(name))
    ||| json::field(t, "model"@) == Some(Tree::Str(name))
}

/// Whether a value is a whole number from zero up.
pub open spec fn counts(t: Option<Tree>) -> bool {
    t matches Some(Tree::Pos(_))
}

/// The entry of a model gives its window, under any of the names that catalogs have for it.
pub proof fn lemma_entry(t: Tree, name: Seq<char>, n: u64)
    requires
        t is Obj,
        names(t, name),
    ensures
        json::field(t, "contextWindow"@) == Some(Tree::Pos(n)) ==> window::catalog_window(t, name)
            == Some(n),
        json::field(t, "context_window"@) == Some(Tree::Pos(n)) && !counts(
            json::field(t, "contextWindow"@),
        ) ==> window::catalog_window(t, name) == Some(n),
        json::field(t, "maxContextLimit"@) == Some(Tree::Pos(n)) && !counts(
            json::field(t, "contextWindow"@),
        ) && !counts(json::field(t, "context_window"@)) ==> window::catalog_window(t, name) == Some(
            n,
        ),
{
}

/// An entry is found however deep it stands in arrays and objects, the first one first; an entry
/// of another name gives nothing itself.
pub proof fn lemma_catalog(
    a: Seq<Tree>,
    b: Seq<Tree>,
    fields: Seq<(Seq<char>, Tree)>,
    key: Seq<char>,
    t: Tree,
    name: Seq<char>,
)
    ensures
        (forall|i: int|
            0 <= i < a.len() ==> window::catalog_window(#[trigger] a[i], name) is None)
            && window::catalog_window(t, name) is Some ==> window::catalog_window(
            Tree::Arr(a.push(t) + b),
            name,
        ) == window::catalog_window(t, name),
        (forall|i: int|
            0 <= i < a.len() ==> window::catalog_window(#[trigger] a[i], name) is None)
            ==> window::catalog_window(Tree::Arr(a), name) is None,
        !names(Tree::Obj(fields.push((key, t))), name) && (forall|i: int|
            0 <= i < fields.len() ==> window::catalog_window((#[trigger] fields[i]).1, name)
                is None) ==> window::catalog_window(Tree::Obj(fields.push((key, t))), name)
            == window::catalog_window(t, name),
        t !is Obj && t !is Arr ==> window::catalog_window(t, name) is None,
{
    if forall|i: int| 0 <= i < a.len() ==> window::catalog_window(#[trigger] a[i], name) is None {
        lemma_none_in(a, name);
        if window::catalog_window(t, name) is Some {
            assert(a.push(t).drop_last() =~= a);
            lemma_first_item(a.push(t), b, name);
        }
    }
    if forall|i: int|
        0 <= i < fields.len() ==> window::catalog_window((#[trigger] fields[i]).1, name) is None {
        lemma_none_under(fields, name);
        assert(fields.push((key, t)).drop_last() =~= fields);
        let o = Tree::Obj(fields.push((key, t)));
        if !names(o, name) {
            assert(window::entry_window(o, name) is None) by {
                assert(json::text_of(json::field(o, "id"@)) != Some(name));
                assert(json::text_of(json::field(o, "slug"@)) != Some(name));
                assert(json::text_of(json::field(o, "model"@)) != Some(name));
            }
        }
    }
}

proof fn lemma_none_in(a: Seq<Tree>, name: Seq<char>)
    requires
        forall|i: int| 0 <= i < a.len() ==> window::catalog_window(#[trigger] a[i], name) is None,
    ensures
        window::items_window(a, name) is None,
    decreases a.len(),
{
    if a.len() > 0 {
        let before = a.drop_last();
        assert forall|i: int| 0 <= i < before.len() implies window::catalog_window(
            #[trigger] before[i],
            name,
        ) is None by {
            assert(before[i] == a[i]);
        }
        lemma_none_in(before, name);
        assert(window::catalog_window(a[a.len() - 1], name) is None);
    }
}

proof fn lemma_first_item(a: Seq<Tree>, b: Seq<Tree>, name: Seq<char>)
    requires
        window::items_window(a, name) is Some,
    ensures
        window::items_window(a + b, name) == window::items_window(a, name),
    decreases b.len(),
{
    if b.len() > 0 {
        assert((a + b).drop_last() =~= a + b.drop_last());
        lemma_first_item(a, b.drop_last(), name);
    } else {
        assert(a + b =~= a);
    }
}

proof fn lemma_none_under(fields: Seq<(Seq<char>, Tree)>, name: Seq<char>)
    requires
        forall|i: int|
            0 <= i < fields.len() ==> window::catalog_window((#[trigger] fields[i]).1, name)
                is None,
    ensures
        window::fields_window(fields, name) is None,
    decreases fields.len(),
{
    if fields.len() > 0 {
        let before = fields.drop_last();
        assert forall|i: int| 0 <= i < before.len() implies window::catalog_window(
            (#[trigger] before[i]).1,
            name,
        ) is None by {
            assert(before[i] == fields[i]);
        }
        lemma_none_under(before, name);
        assert(window::catalog_window(fields[fields.len() - 1].1, name) is None);
    }
}

/// The prompt of a record is counted with what was read from the cache and what was written to
/// it; only one of more than 200 000 tokens shows a large window.
pub proof fn lemma_prompt(line: Seq<char>, v: Tree, usage: Tree, a: u64, b: u64, c: u64)
    requires
        json::parsed(line) == Some(v),
        json::at(json::at(v, "message"@), "usage"@) == usage,
        json::field(usage, "input_tokens"@) == Some(Tree::Pos(a)),
        json::field(usage, "cache_read_input_tokens"@) == Some(Tree::Pos(b)) || (json::field(
            usage,
            "cache_read_input_tokens"@,
        ) is None && b == 0),
        json::field(usage, "cache_creation_input_tokens"@) == Some(Tree::Pos(c)) || (json::field(
            usage,
            "cache_creation_input_tokens"@,
        ) is None && c == 0),
        text::within(line, "\"usage\""@),
    ensures
        window::large_prompt(line) == (a + b + c > 200_000),
{
}

/// One line with a large prompt in any transcript shows a large window.
pub proof fn lemma_used(texts: Seq<Seq<char>>, i: int, a: Seq<char>, line: Seq<char>, b: Seq<char>)
    requires
        0 <= i < texts.len(),
        texts[i] == a.push('\n') + line.push('\n') + b,
        forall|k: int| 0 <= k < line.len() ==> #[trigger] line[k] != '\n',
        window::large_prompt(line),
    ensures
        window::any_large(texts),
{
    phrases::lemma_pieces(line, '\n', b);
    let rest = line.push('\n') + b;
    phrases::lemma_pieces(a, '\n', rest);
    assert(a.push('\n') + line.push('\n') + b =~= a.push('\n') + rest);
    let n = text::split_of(a, '\n').len();
    let ls = text::split_of(texts[i], '\n');
    assert(ls[n as int] == line);
    assert(window::large_prompt(ls[n as int]));
}

/// CL counts on the model that the environment or else its settings name: `[1m]` in its name is a
/// window of a million tokens, any other name one of 200 000. Without a name, a large prompt in a
/// transcript tells.
pub proof fn lemma_cl(cfg: Config, name: Seq<char>, settings: Tree)
    ensures
        model::opt_view(cfg.env_model) == Some(name) ==> window::found_window(Harness::Claude, cfg)
            == Some(
            if text::within(text::lowercase(name), "[1m]"@) {
                1_000_000u64
            } else {
                200_000u64
            },
        ),
        cfg.env_model is None && window::document(model::opt_view(cfg.settings)) == Some(settings)
            && json::field(settings, "model"@) == Some(Tree::Str(name)) ==> window::found_window(
            Harness::Claude,
            cfg,
        ) == Some(
            if text::within(text::lowercase(name), "[1m]"@) {
                1_000_000u64
            } else {
                200_000u64
            },
        ),
        cfg.env_model is None && cfg.settings is None ==> window::found_window(Harness::Claude, cfg)
            == if window::any_large(text::views(cfg.transcripts@)) {
            Some(1_000_000u64)
        } else {
            None
        },
{
}

/// Codex counts on the window set in its configuration, or else on that of its model in the
/// catalog.
pub proof fn lemma_codex(cfg: Config, toml: Seq<char>, catalog: Tree, n: usize, name: Seq<char>)
    requires
        model::opt_view(cfg.settings) == Some(toml),
    ensures
        window::toml_entry(toml, "model_context_window"@) == Some(text::decimal(n as nat))
            ==> window::found_window(Harness::Codex, cfg) == Some(n as u64),
        window::toml_entry(toml, "model_context_window"@) is None && window::toml_entry(
            toml,
            "model"@,
        ) == Some(name) && window::document(model::opt_view(cfg.catalog)) == Some(catalog)
            ==> window::found_window(Harness::Codex, cfg) == window::catalog_window(catalog, name),
        window::toml_entry(toml, "model_context_window"@) is None && cfg.catalog is None
            ==> window::found_window(Harness::Codex, cfg) is None,
{
    lemma_number(n, Seq::empty(), 0);
}

/// Pi counts on its default model's window in the catalog, Factory on its session model's window in
/// its own settings; OMP tells nothing.
pub proof fn lemma_others(
    cfg: Config,
    settings: Tree,
    catalog: Tree,
    defaults: Tree,
    name: Seq<char>,
)
    requires
        window::document(model::opt_view(cfg.settings)) == Some(settings),
    ensures
        json::field(settings, "defaultModel"@) == Some(Tree::Str(name)) && window::document(
            model::opt_view(cfg.catalog),
        ) == Some(catalog) ==> window::found_window(Harness::Pi, cfg) == window::catalog_window(
            catalog,
            name,
        ),
        json::field(settings, "sessionDefaultSettings"@) == Some(defaults) && json::field(
            defaults,
            "model"@,
        ) == Some(Tree::Str(name)) ==> window::found_window(Harness::Factory, cfg)
            == window::catalog_window(settings, name),
        window::found_window(Harness::Omp, cfg) is None,
{
}

/// What a configuration tells is counted on; where it tells nothing, Codex has 272 000 tokens and
/// every other harness 200 000.
pub proof fn lemma_window(h: Harness, cfg: Config, n: u64)
    ensures
        window::found_window(h, cfg) == Some(n) && n <= usize::MAX ==> window::window_of(h, cfg)
            == n,
        window::found_window(h, cfg) is None ==> window::window_of(h, cfg) == if h
            == Harness::Codex {
            272_000usize
        } else {
            200_000usize
        },
{
}

} // verus!
