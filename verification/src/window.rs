//! The context window of the model that each harness is configured to use.

use crate::json;
use crate::json::{Json, Tree};
use crate::model;
use crate::model::Harness;
use crate::recent;
use crate::text;
use vstd::prelude::*;

verus! {

/// The first place from `i` on where `c` stands, or the end.
pub open spec fn place_of(s: Seq<char>, c: char, i: int) -> int
    decreases s.len() - i,
{
    if 0 <= i < s.len() && s[i] != c {
        place_of(s, c, i + 1)
    } else {
        i
    }
}

/// `s` without the quotes it starts with.
pub open spec fn unquoted_start(s: Seq<char>) -> Seq<char>
    decreases s.len(),
{
    if s.len() > 0 && s[0] == '"' {
        unquoted_start(s.drop_first())
    } else {
        s
    }
}

/// `s` without the quotes it ends with.
pub open spec fn unquoted_end(s: Seq<char>) -> Seq<char>
    decreases s.len(),
{
    if s.len() > 0 && s.last() == '"' {
        unquoted_end(s.drop_last())
    } else {
        s
    }
}

/// The value of a line `key = value`, if it is of that key.
pub open spec fn line_value(line: Seq<char>, key: Seq<char>) -> Option<Seq<char>> {
    let i = place_of(line, '=', 0);
    if i < line.len() && text::trimmed(line.take(i)) == key {
        Some(unquoted_end(unquoted_start(text::trimmed(line.skip(i + 1)))))
    } else {
        None
    }
}

/// Whether a line opens a table.
pub open spec fn opens_table(line: Seq<char>) -> bool {
    let t = text::trim_start(line);
    t.len() > 0 && t[0] == '['
}

/// The first value of `key` in the lines from `i` on, before any table.
pub open spec fn value_from(lines: Seq<Seq<char>>, i: int, key: Seq<char>) -> Option<Seq<char>>
    decreases lines.len() - i,
{
    if i < 0 || i >= lines.len() || opens_table(lines[i]) {
        None
    } else {
        match line_value(lines[i], key) {
            Some(v) => Some(v),
            None => value_from(lines, i + 1, key),
        }
    }
}

/// The value of a top-level key of a TOML file.
pub open spec fn toml_entry(cfg: Seq<char>, key: Seq<char>) -> Option<Seq<char>> {
    value_from(text::split_of(cfg, '\n'), 0, key)
}

fn unquote(s: &str) -> (r: String)
    ensures
        r@ == unquoted_end(unquoted_start(s@)),
{
    let v = text::chars_of(s);
    let mut i: usize = 0;
    proof {
        assert(v@.skip(0) =~= v@);
    }
    while i < v.len() && v[i] == '"'
        invariant
            i <= v@.len(),
            unquoted_start(v@) == unquoted_start(v@.skip(i as int)),
        decreases v@.len() - i,
    {
        proof {
            assert(v@.skip(i as int).drop_first() =~= v@.skip(i + 1));
        }
        i = i + 1;
    }
    proof {
        assert(unquoted_start(v@) =~= v@.subrange(i as int, v@.len() as int));
    }
    let mut j: usize = v.len();
    while j > i && v[j - 1] == '"'
        invariant
            i <= j <= v@.len(),
            unquoted_end(v@.subrange(i as int, v@.len() as int)) == unquoted_end(
                v@.subrange(i as int, j as int),
            ),
        decreases j,
    {
        proof {
            assert(v@.subrange(i as int, j as int).drop_last() =~= v@.subrange(i as int, j - 1));
        }
        j = j - 1;
    }
    text::slice(&v, i, j)
}

fn value_of_line(line: &str, key: &str) -> (r: Option<String>)
    ensures
        model::opt_view(r) == line_value(line@, key@),
{
    let v = text::chars_of(line);
    let mut i: usize = 0;
    while i < v.len() && v[i] != '='
        invariant
            i <= v@.len(),
            place_of(v@, '=', 0) == place_of(v@, '=', i as int),
        decreases v@.len() - i,
    {
        i = i + 1;
    }
    if i == v.len() {
        return None;
    }
    proof {
        assert(v@.subrange(0, i as int) =~= v@.take(i as int));
        assert(v@.subrange(i + 1, v@.len() as int) =~= v@.skip(i + 1));
    }
    let name = text::slice(&v, 0, i);
    let name = text::trim(name.as_str());
    if !text::same(name.as_str(), key) {
        return None;
    }
    let value = text::slice(&v, i + 1, v.len());
    let value = text::trim(value.as_str());
    Some(unquote(value.as_str()))
}

fn is_table(line: &str) -> (r: bool)
    ensures
        r == opens_table(line@),
{
    let v = text::chars_of(line);
    let mut i: usize = 0;
    proof {
        assert(v@.skip(0) =~= v@);
    }
    while i < v.len() && text::is_white(v[i])
        invariant
            i <= v@.len(),
            text::trim_start(v@) == text::trim_start(v@.skip(i as int)),
        decreases v@.len() - i,
    {
        proof {
            assert(v@.skip(i as int).drop_first() =~= v@.skip(i + 1));
        }
        i = i + 1;
    }
    i < v.len() && v[i] == '['
}

/// Top-level `key = value` from a TOML file (before any `[table]`).
pub fn toml_value(cfg: &str, key: &str) -> (r: Option<String>)
    ensures
        model::opt_view(r) == toml_entry(cfg@, key@),
{
    let lines = text::split(cfg, '\n');
    let ghost ls = text::views(lines@);
    let mut i: usize = 0;
    while i < lines.len()
        invariant
            ls == text::views(lines@),
            ls == text::split_of(cfg@, '\n'),
            i <= lines@.len(),
            toml_entry(cfg@, key@) == value_from(ls, i as int, key@),
        decreases lines@.len() - i,
    {
        let line = lines[i].as_str();
        proof {
            assert(ls[i as int] == line@);
        }
        if is_table(line) {
            return None;
        }
        match value_of_line(line, key) {
            Some(v) => {
                return Some(v);
            },
            None => {},
        }
        i = i + 1;
    }
    None
}

/// A whole number from zero up.
pub open spec fn whole(t: Option<Tree>) -> Option<u64> {
    match t {
        Some(Tree::Pos(n)) => Some(n),
        _ => None,
    }
}

/// The first of two that is there.
pub open spec fn either(a: Option<u64>, b: Option<u64>) -> Option<u64> {
    match a {
        Some(n) => Some(n),
        None => b,
    }
}

/// The window that an entry of a model catalog gives, if it is the entry of that model.
pub open spec fn entry_window(t: Tree, name: Seq<char>) -> Option<u64> {
    if json::text_of(json::field(t, "id"@)) == Some(name) || json::text_of(
        json::field(t, "slug"@),
    ) == Some(name) || json::text_of(json::field(t, "model"@)) == Some(name) {
        either(
            either(
                whole(json::field(t, "contextWindow"@)),
                whole(json::field(t, "context_window"@)),
            ),
            whole(json::field(t, "maxContextLimit"@)),
        )
    } else {
        None
    }
}

/// The window that a catalog gives for a model: that of the first entry of its name, outer ones
/// before inner ones.
pub open spec fn catalog_window(t: Tree, name: Seq<char>) -> Option<u64>
    decreases t,
{
    match t {
        Tree::Obj(fields) => either(entry_window(t, name), fields_window(fields, name)),
        Tree::Arr(items) => items_window(items, name),
        _ => None,
    }
}

pub open spec fn items_window(items: Seq<Tree>, name: Seq<char>) -> Option<u64>
    decreases items,
{
    if items.len() == 0 {
        None
    } else {
        either(items_window(items.drop_last(), name), catalog_window(items.last(), name))
    }
}

pub open spec fn fields_window(fields: Seq<(Seq<char>, Tree)>, name: Seq<char>) -> Option<u64>
    decreases fields,
{
    if fields.len() == 0 {
        None
    } else {
        either(fields_window(fields.drop_last(), name), catalog_window(fields.last().1, name))
    }
}

fn number_at(v: &Json, key: &str) -> (r: Option<u64>)
    ensures
        r == whole(json::field(v@, key@)),
{
    match v.get(key) {
        Some(n) => match n {
            Json::Pos(n) => Some(*n),
            _ => None,
        },
        None => None,
    }
}

fn names_model(v: &Json, key: &str, name: &str) -> (r: bool)
    ensures
        r == (json::text_of(json::field(v@, key@)) == Some(name@)),
{
    match v.text(key) {
        Some(s) => text::same(s, name),
        None => false,
    }
}

fn window_of_entry(v: &Json, name: &str) -> (r: Option<u64>)
    ensures
        r == entry_window(v@, name@),
{
    if names_model(v, "id", name) || names_model(v, "slug", name) || names_model(v, "model", name) {
        match number_at(v, "contextWindow") {
            Some(n) => Some(n),
            None => match number_at(v, "context_window") {
                Some(n) => Some(n),
                None => number_at(v, "maxContextLimit"),
            },
        }
    } else {
        None
    }
}

/// Once a window is found among the first items, later ones do not matter.
proof fn lemma_items_found(items: Seq<Tree>, i: int, name: Seq<char>)
    requires
        0 <= i <= items.len(),
        items_window(items.take(i), name) is Some,
    ensures
        items_window(items, name) == items_window(items.take(i), name),
    decreases items.len(),
{
    if i < items.len() {
        assert(items.drop_last().take(i) =~= items.take(i));
        lemma_items_found(items.drop_last(), i, name);
    } else {
        assert(items.take(i) =~= items);
    }
}

proof fn lemma_fields_found(fields: Seq<(Seq<char>, Tree)>, i: int, name: Seq<char>)
    requires
        0 <= i <= fields.len(),
        fields_window(fields.take(i), name) is Some,
    ensures
        fields_window(fields, name) == fields_window(fields.take(i), name),
    decreases fields.len(),
{
    if i < fields.len() {
        assert(fields.drop_last().take(i) =~= fields.take(i));
        lemma_fields_found(fields.drop_last(), i, name);
    } else {
        assert(fields.take(i) =~= fields);
    }
}

/// Search a model catalog for an entry whose id/slug/model equals `name` and return its context
/// window field.
pub fn find_window(v: &Json, name: &str) -> (r: Option<u64>)
    ensures
        r == catalog_window(v@, name@),
    decreases v@,
{
    match v {
        Json::Obj(fields) => {
            match window_of_entry(v, name) {
                Some(n) => {
                    return Some(n);
                },
                None => {},
            }
            let ghost fs = json::fields_of(fields@);
            let mut i: usize = 0;
            proof {
                json::lemma_fields_of(fields@);
                assert(fs.take(0) =~= Seq::empty());
            }
            while i < fields.len()
                invariant
                    v@ == Tree::Obj(fs),
                    fs == json::fields_of(fields@),
                    fs.len() == fields@.len(),
                    forall|k: int|
                        0 <= k < fields@.len() ==> #[trigger] fs[k] == (
                            fields@[k].0@,
                            json::tree_of(fields@[k].1),
                        ),
                    entry_window(v@, name@) is None,
                    i <= fields@.len(),
                    fields_window(fs.take(i as int), name@) is None,
                decreases fields@.len() - i,
            {
                proof {
                    assert(decreases_to!(v@ => v@->Obj_0));
                    assert(decreases_to!(fs => fs[i as int]));
                    assert(decreases_to!(fs[i as int] => fs[i as int].1));
                    assert(fs.take(i + 1).drop_last() =~= fs.take(i as int));
                    assert(fs.take(i + 1).last() == fs[i as int]);
                }
                match find_window(&fields[i].1, name) {
                    Some(n) => {
                        proof {
                            lemma_fields_found(fs, i + 1, name@);
                        }
                        return Some(n);
                    },
                    None => {},
                }
                i = i + 1;
            }
            proof {
                assert(fs.take(i as int) =~= fs);
            }
            None
        },
        Json::Arr(items) => {
            let ghost ts = json::trees_of(items@);
            let mut i: usize = 0;
            proof {
                json::lemma_trees_of(items@);
                assert(ts.take(0) =~= Seq::empty());
            }
            while i < items.len()
                invariant
                    v@ == Tree::Arr(ts),
                    ts == json::trees_of(items@),
                    ts.len() == items@.len(),
                    forall|k: int|
                        0 <= k < items@.len() ==> #[trigger] ts[k] == json::tree_of(items@[k]),
                    i <= items@.len(),
                    items_window(ts.take(i as int), name@) is None,
                decreases items@.len() - i,
            {
                proof {
                    assert(decreases_to!(v@ => v@->Arr_0));
                    assert(decreases_to!(ts => ts[i as int]));
                    assert(ts.take(i + 1).drop_last() =~= ts.take(i as int));
                    assert(ts.take(i + 1).last() == ts[i as int]);
                }
                match find_window(&items[i], name) {
                    Some(n) => {
                        proof {
                            lemma_items_found(ts, i + 1, name@);
                        }
                        return Some(n);
                    },
                    None => {},
                }
                i = i + 1;
            }
            proof {
                assert(ts.take(i as int) =~= ts);
            }
            None
        },
        _ => None,
    }
}

/// Whether a text is made of digits, at least one.
pub open spec fn all_digits(s: Seq<char>) -> bool {
    s.len() > 0 && forall|i: int| 0 <= i < s.len() ==> '0' <= #[trigger] s[i] && s[i] <= '9'
}

/// The number that digits stand for.
pub open spec fn digits_value(s: Seq<char>) -> nat
    decreases s.len(),
{
    if s.len() == 0 {
        0
    } else {
        10 * digits_value(s.drop_last()) + (s.last() as nat - '0' as nat) as nat
    }
}

/// The digits of a number: a plus sign before them says nothing.
pub open spec fn number_digits(s: Seq<char>) -> Seq<char> {
    if s.len() > 0 && s[0] == '+' {
        s.drop_first()
    } else {
        s
    }
}

/// The number that a text stands for; none where it is no number or too large a one.
pub open spec fn number_of(s: Seq<char>) -> Option<usize> {
    let d = number_digits(s);
    if all_digits(d) && digits_value(d) <= usize::MAX {
        Some(digits_value(d) as usize)
    } else {
        None
    }
}

proof fn lemma_digits_grow(s: Seq<char>, n: int)
    requires
        0 <= n <= s.len(),
    ensures
        digits_value(s.take(n)) <= digits_value(s),
    decreases s.len() - n,
{
    if n < s.len() {
        lemma_digits_grow(s, n + 1);
        assert(s.take(n + 1).drop_last() =~= s.take(n));
    } else {
        assert(s.take(n) =~= s);
    }
}

fn digit_value(c: char) -> (r: Option<usize>)
    ensures
        match r {
            Some(d) => '0' <= c && c <= '9' && d == c as nat - '0' as nat && d < 10,
            None => !('0' <= c && c <= '9'),
        },
{
    if '0' <= c && c <= '9' {
        Some((c as u32 - '0' as u32) as usize)
    } else {
        None
    }
}

/// The number that a text stands for; none where it is no number or too large a one.
pub fn parse_number(s: &str) -> (r: Option<usize>)
    ensures
        r == number_of(s@),
{
    let v = text::chars_of(s);
    let from: usize = if v.len() > 0 && v[0] == '+' {
        1
    } else {
        0
    };
    let ghost d = number_digits(s@);
    proof {
        assert(d =~= v@.skip(from as int));
    }
    if v.len() == from {
        return None;
    }
    let mut n: usize = 0;
    let mut i: usize = from;
    proof {
        assert(d.take(0) =~= Seq::empty());
    }
    while i < v.len()
        invariant
            from <= i <= v@.len(),
            from <= 1,
            v@ == s@,
            d == number_digits(s@),
            d == v@.skip(from as int),
            n == digits_value(d.take(i - from)),
            forall|k: int| 0 <= k < i - from ==> '0' <= #[trigger] d[k] && d[k] <= '9',
        decreases v@.len() - i,
    {
        proof {
            assert(d[i - from] == v@[i as int]);
            assert(d.take(i + 1 - from).drop_last() =~= d.take(i - from));
            assert(d.take(i + 1 - from).last() == v@[i as int]);
            lemma_digits_grow(d, i + 1 - from);
        }
        let x: usize = match digit_value(v[i]) {
            Some(x) => x,
            None => {
                return None;
            },
        };
        if n > (usize::MAX - x) / 10 {
            return None;
        }
        n = n * 10 + x;
        i = i + 1;
    }
    proof {
        assert(d.take(i - from) =~= d);
    }
    Some(n)
}

/// Tokens of the prompt that a record of a CL transcript reports.
pub open spec fn prompt_tokens(v: Tree) -> int {
    let u = json::at(json::at(v, "message"@), "usage"@);
    let count = |key: Seq<char>|
        match whole(json::field(u, key)) {
            Some(n) => n as int,
            None => 0,
        };
    count("input_tokens"@) + count("cache_read_input_tokens"@) + count(
        "cache_creation_input_tokens"@,
    )
}

/// Whether a line reports a prompt that only a model with a large window takes.
pub open spec fn large_prompt(line: Seq<char>) -> bool {
    text::within(line, "\"usage\""@) && match json::parsed(line) {
        Some(v) => prompt_tokens(v) > 200_000,
        None => false,
    }
}

/// Whether any line of any transcript reports a large prompt.
pub open spec fn any_large(texts: Seq<Seq<char>>) -> bool {
    exists|i: int, j: int|
        0 <= i < texts.len() && 0 <= j < text::split_of(texts[i], '\n').len() && large_prompt(
            #[trigger] text::split_of(texts[i], '\n')[j],
        )
}

fn count_at(u: Option<&Json>, key: &str) -> (r: u128)
    ensures
        r == match whole(
            json::field(
                match u {
                    Some(j) => j@,
                    None => Tree::Null,
                },
                key@,
            ),
        ) {
            Some(n) => n as int,
            None => 0,
        },
{
    match u {
        Some(j) => match number_at(j, key) {
            Some(n) => n as u128,
            None => 0,
        },
        None => 0,
    }
}

/// Whether a record of a CL transcript reports a prompt that only a model with a large window
/// takes.
pub fn is_large_record(v: &Json) -> (r: bool)
    ensures
        r == (prompt_tokens(v@) > 200_000),
{
    let u = match v.get("message") {
        Some(m) => m.get("usage"),
        None => None,
    };
    let input = count_at(u, "input_tokens");
    let read = count_at(u, "cache_read_input_tokens");
    let created = count_at(u, "cache_creation_input_tokens");
    input + read + created > 200_000
}

fn is_large(line: &str) -> (r: bool)
    ensures
        r == large_prompt(line@),
{
    if !text::contains(line, "\"usage\"") {
        return false;
    }
    match Json::parse(line) {
        Some(v) => is_large_record(&v),
        None => false,
    }
}

/// Whether any of the transcripts has a turn whose prompt went past 200k tokens, which only a
/// 1M-context model accepts. CL does not record the context size itself, so usage is the
/// only evidence.
pub fn claude_used_1m(texts: &Vec<String>) -> (r: bool)
    ensures
        r == any_large(text::views(texts@)),
{
    let ghost ts = text::views(texts@);
    let mut i: usize = 0;
    while i < texts.len()
        invariant
            ts == text::views(texts@),
            i <= texts@.len(),
            forall|a: int, b: int|
                0 <= a < i && 0 <= b < text::split_of(ts[a], '\n').len() ==> !large_prompt(
                    #[trigger] text::split_of(ts[a], '\n')[b],
                ),
        decreases texts@.len() - i,
    {
        let lines = text::split(texts[i].as_str(), '\n');
        let ghost ls = text::views(lines@);
        proof {
            assert(ls == text::split_of(ts[i as int], '\n'));
        }
        let mut j: usize = 0;
        while j < lines.len()
            invariant
                ts == text::views(texts@),
                i < texts@.len(),
                ls == text::views(lines@),
                ls == text::split_of(ts[i as int], '\n'),
                j <= lines@.len(),
                forall|b: int| 0 <= b < j ==> !large_prompt(#[trigger] ls[b]),
            decreases lines@.len() - j,
        {
            proof {
                assert(ls[j as int] == lines@[j as int]@);
            }
            if is_large(lines[j].as_str()) {
                proof {
                    assert(large_prompt(text::split_of(ts[i as int], '\n')[j as int]));
                }
                return true;
            }
            j = j + 1;
        }
        i = i + 1;
    }
    false
}

/// What a harness' configuration says; what is absent or cannot be read is none.
pub struct Config {
    /// The model that the environment names (CL).
    pub env_model: Option<String>,
    /// The harness' own settings: JSON, for Codex TOML.
    pub settings: Option<String>,
    /// The model catalog (Codex, Pi): JSON.
    pub catalog: Option<String>,
    /// The newest transcripts (CL).
    pub transcripts: Vec<String>,
}

/// The document that an optional text holds.
pub open spec fn document(t: Option<Seq<char>>) -> Option<Tree> {
    match t {
        Some(s) => json::parsed(s),
        None => None,
    }
}

/// The field of an optional document.
pub open spec fn field_of(t: Option<Tree>, key: Seq<char>) -> Option<Tree> {
    match t {
        Some(v) => json::field(v, key),
        None => None,
    }
}

/// The window that an optional catalog gives for an optional model.
pub open spec fn known_window(catalog: Option<Tree>, name: Option<Seq<char>>) -> Option<u64> {
    match (catalog, name) {
        (Some(c), Some(n)) => catalog_window(c, n),
        _ => None,
    }
}

/// The window of a CL model, its name in lower case.
pub open spec fn claude_model_window(lower: Seq<char>) -> u64 {
    if text::within(lower, "[1m]"@) {
        1_000_000
    } else {
        200_000
    }
}

/// The window found for CL: by the model's name, or by what was used.
pub open spec fn claude_window_of(lower: Option<Seq<char>>, used: bool) -> Option<u64> {
    match lower {
        Some(m) => Some(claude_model_window(m)),
        None => if used {
            Some(1_000_000)
        } else {
            None
        },
    }
}

/// The model that CL is configured to use.
pub open spec fn claude_model_of(env: Option<Seq<char>>, settings: Option<Seq<char>>) -> Option<
    Seq<char>,
> {
    match env {
        Some(m) => Some(m),
        None => json::text_of(field_of(document(settings), "model"@)),
    }
}

/// The window found for Codex: set outright, or that of its model.
pub open spec fn codex_window_of(
    settings: Option<Seq<char>>,
    catalog: Option<Seq<char>>,
) -> Option<u64> {
    let cfg = match settings {
        Some(s) => s,
        None => Seq::empty(),
    };
    let set = match toml_entry(cfg, "model_context_window"@) {
        Some(v) => number_of(v),
        None => None,
    };
    match set {
        Some(n) => Some(n as u64),
        None => known_window(document(catalog), toml_entry(cfg, "model"@)),
    }
}

/// The window found for Pi, by its settings and its catalog: that of the default model.
pub open spec fn pi_window_of(settings: Tree, catalog: Option<Tree>) -> Option<u64> {
    known_window(catalog, json::text_of(json::field(settings, "defaultModel"@)))
}

/// The window found for Factory, by its settings, which list the models too.
pub open spec fn factory_window_of(settings: Tree) -> Option<u64> {
    known_window(
        Some(settings),
        json::text_of(field_of(json::field(settings, "sessionDefaultSettings"@), "model"@)),
    )
}

/// The window that a harness' configuration gives, if any.
pub open spec fn found_window(h: Harness, cfg: Config) -> Option<u64> {
    let settings = model::opt_view(cfg.settings);
    let catalog = model::opt_view(cfg.catalog);
    match h {
        Harness::Claude => claude_window_of(
            match claude_model_of(model::opt_view(cfg.env_model), settings) {
                Some(m) => Some(text::lowercase(m)),
                None => None,
            },
            any_large(text::views(cfg.transcripts@)),
        ),
        Harness::Codex => codex_window_of(settings, catalog),
        Harness::Pi => match document(settings) {
            Some(s) => pi_window_of(s, document(catalog)),
            None => None,
        },
        Harness::Factory => match document(settings) {
            Some(s) => factory_window_of(s),
            None => None,
        },
        Harness::Omp => None,
    }
}

/// The window to count on where nothing is configured.
pub open spec fn default_window(h: Harness) -> u64 {
    match h {
        Harness::Codex => 272_000,
        _ => 200_000,
    }
}

/// The window of a target, by its configuration or by default.
pub open spec fn window_of(h: Harness, cfg: Config) -> usize {
    (match found_window(h, cfg) {
        Some(n) => n,
        None => default_window(h),
    }) as usize
}

fn read_document(t: &Option<String>) -> (r: Option<Json>)
    ensures
        match r {
            Some(j) => document(model::opt_view(*t)) == Some(j@),
            None => document(model::opt_view(*t)) is None,
        },
{
    match t {
        Some(s) => Json::parse(s.as_str()),
        None => None,
    }
}

fn text_field(v: &Json, key: &str) -> (r: Option<String>)
    ensures
        model::opt_view(r) == json::text_of(json::field(v@, key@)),
{
    match v.text(key) {
        Some(s) => Some(s.to_owned()),
        None => None,
    }
}

/// The window found for CL, given its model in lower case and whether large prompts were seen.
pub fn claude_window(lower: &Option<String>, used: bool) -> (r: Option<u64>)
    ensures
        r == claude_window_of(model::opt_view(*lower), used),
{
    match lower {
        Some(m) => if text::contains(m.as_str(), "[1m]") {
            Some(1_000_000)
        } else {
            Some(200_000)
        },
        None => if used {
            Some(1_000_000)
        } else {
            None
        },
    }
}

/// The model that CL is configured to use.
pub fn claude_model(env: &Option<String>, settings: &Option<String>) -> (r: Option<String>)
    ensures
        model::opt_view(r) == claude_model_of(model::opt_view(*env), model::opt_view(*settings)),
{
    match env {
        Some(m) => Some(m.clone()),
        None => match read_document(settings) {
            Some(j) => text_field(&j, "model"),
            None => None,
        },
    }
}

fn codex_window(settings: &Option<String>, catalog: &Option<String>) -> (r: Option<u64>)
    ensures
        r == codex_window_of(model::opt_view(*settings), model::opt_view(*catalog)),
{
    let cfg = match settings {
        Some(s) => s.clone(),
        None => String::new(),
    };
    let set: Option<usize> = match toml_value(cfg.as_str(), "model_context_window") {
        Some(v) => parse_number(v.as_str()),
        None => None,
    };
    match set {
        Some(n) => Some(n as u64),
        None => match toml_value(cfg.as_str(), "model") {
            Some(name) => match read_document(catalog) {
                Some(c) => find_window(&c, name.as_str()),
                None => None,
            },
            None => None,
        },
    }
}

/// The window found for Pi.
pub fn pi_window(settings: &Json, catalog: &Option<Json>) -> (r: Option<u64>)
    ensures
        r == pi_window_of(
            settings@,
            match *catalog {
                Some(c) => Some(c@),
                None => None,
            },
        ),
{
    match settings.text("defaultModel") {
        Some(name) => match catalog {
            Some(c) => find_window(c, name),
            None => None,
        },
        None => None,
    }
}

/// The window found for Factory.
pub fn factory_window(settings: &Json) -> (r: Option<u64>)
    ensures
        r == factory_window_of(settings@),
{
    match settings.get("sessionDefaultSettings") {
        Some(d) => match d.text("model") {
            Some(name) => find_window(settings, name),
            None => None,
        },
        None => None,
    }
}

/// Best-effort context window of the model each harness is configured to use. Falls back to
/// conservative per-harness defaults.
pub fn detect_window(h: Harness, cfg: &Config) -> (r: usize)
    ensures
        r == window_of(h, *cfg),
{
    let found: Option<u64> = match h {
        Harness::Claude => {
            let lower = match claude_model(&cfg.env_model, &cfg.settings) {
                Some(m) => Some(text::to_lowercase(m.as_str())),
                None => None,
            };
            claude_window(&lower, claude_used_1m(&cfg.transcripts))
        },
        Harness::Codex => codex_window(&cfg.settings, &cfg.catalog),
        Harness::Pi => match read_document(&cfg.settings) {
            Some(s) => pi_window(&s, &read_document(&cfg.catalog)),
            None => None,
        },
        Harness::Factory => match read_document(&cfg.settings) {
            Some(s) => factory_window(&s),
            None => None,
        },
        Harness::Omp => None,
    };
    let window: u64 = match found {
        Some(n) => n,
        None => match h {
            Harness::Codex => 272_000,
            _ => 200_000,
        },
    };
    #[verifier::truncate]
    let r: usize = window as usize;
    r
}

/// How many transcripts are looked at for large prompts.
pub const TRANSCRIPTS: usize = 5;

/// The places of the newest transcripts, given the times of all: the latest first, equal ones in
/// the order they came in.
pub fn newest_transcripts(times: &Vec<i128>) -> (r: Vec<usize>)
    ensures
        recent::place_views(r@) == recent::places(recent::latest_first(times@)).take(
            if times@.len() < TRANSCRIPTS {
                times@.len() as int
            } else {
                TRANSCRIPTS as int
            },
        ),
{
    let all = recent::newest_first(times);
    let ghost ps = recent::places(recent::latest_first(times@));
    let mut r: Vec<usize> = Vec::new();
    let mut i: usize = 0;
    proof {
        assert(recent::place_views(r@) =~= ps.take(0));
    }
    while i < TRANSCRIPTS && i < all.len()
        invariant
            i <= TRANSCRIPTS,
            i <= all@.len(),
            ps == recent::place_views(all@),
            recent::place_views(r@) == ps.take(i as int),
        decreases TRANSCRIPTS - i,
    {
        let place = all[i];
        proof {
            assert(ps[i as int] == place as int);
            assert(recent::place_views(r@.push(place)) =~= recent::place_views(r@).push(
                place as int,
            ));
            assert(ps.take(i + 1) =~= ps.take(i as int).push(place as int));
        }
        r.push(place);
        i = i + 1;
    }
    r
}

} // verus!
