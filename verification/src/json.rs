//! JSON documents: the type, reading one from text, writing one as text.

use crate::text;
use vstd::prelude::*;

verus! {

/// A number of a document as `serde_json` holds it; carried, never looked into.
#[verifier::external_type_specification]
#[verifier::external_body]
pub struct ExNumber(serde_json::Number);

/// A document as `serde_json` holds it; what it stands for is `value_tree`.
#[verifier::external_type_specification]
#[verifier::external_body]
pub struct ExValue(serde_json::Value);

/// A number with a fraction or an exponent, or outside the integer ranges.
/// Only reading a text makes one, so it never holds an integer.
#[derive(Debug, PartialEq)]
pub struct Decimal {
    number: serde_json::Number,
}

/// A JSON document.
#[derive(Debug, PartialEq)]
pub enum Json {
    Null,
    Bool(bool),
    /// An integer from zero up.
    Pos(u64),
    /// An integer below zero.
    Neg(i64),
    /// Any other number, held as it was read.
    Float(Decimal),
    Str(String),
    Arr(Vec<Json>),
    Obj(Vec<(String, Json)>),
}

/// The value that a `Json` stands for.
pub enum Tree {
    Null,
    Bool(bool),
    Pos(u64),
    Neg(i64),
    Float(Decimal),
    Str(Seq<char>),
    Arr(Seq<Tree>),
    Obj(Seq<(Seq<char>, Tree)>),
}

pub open spec fn tree_of(j: Json) -> Tree
    decreases j,
{
    match j {
        Json::Null => Tree::Null,
        Json::Bool(b) => Tree::Bool(b),
        Json::Pos(n) => Tree::Pos(n),
        Json::Neg(n) => Tree::Neg(n),
        Json::Float(n) => Tree::Float(n),
        Json::Str(s) => Tree::Str(s@),
        Json::Arr(items) => Tree::Arr(trees_of(items@)),
        Json::Obj(fields) => Tree::Obj(fields_of(fields@)),
    }
}

pub open spec fn trees_of(items: Seq<Json>) -> Seq<Tree>
    decreases items,
{
    if items.len() == 0 {
        Seq::empty()
    } else {
        trees_of(items.drop_last()).push(tree_of(items.last()))
    }
}

pub open spec fn fields_of(fields: Seq<(String, Json)>) -> Seq<(Seq<char>, Tree)>
    decreases fields,
{
    if fields.len() == 0 {
        Seq::empty()
    } else {
        fields_of(fields.drop_last()).push((fields.last().0@, tree_of(fields.last().1)))
    }
}

impl View for Json {
    type V = Tree;

    open spec fn view(&self) -> Tree {
        tree_of(*self)
    }
}

pub proof fn lemma_trees_of(items: Seq<Json>)
    ensures
        trees_of(items).len() == items.len(),
        forall|i: int| 0 <= i < items.len() ==> #[trigger] trees_of(items)[i] == tree_of(items[i]),
    decreases items.len(),
{
    if items.len() > 0 {
        lemma_trees_of(items.drop_last());
    }
}

pub proof fn lemma_fields_of(fields: Seq<(String, Json)>)
    ensures
        fields_of(fields).len() == fields.len(),
        forall|i: int|
            0 <= i < fields.len() ==> #[trigger] fields_of(fields)[i] == (
                fields[i].0@,
                tree_of(fields[i].1),
            ),
    decreases fields.len(),
{
    if fields.len() > 0 {
        lemma_fields_of(fields.drop_last());
    }
}

/// `serde_json::Number` is plain data: a clone is the same number.
pub assume_specification[ <serde_json::Number as Clone>::clone ](n: &serde_json::Number) -> (r:
    serde_json::Number)
    ensures
        r == *n,
;

impl Clone for Decimal {
    fn clone(&self) -> (r: Decimal)
        ensures
            r == *self,
    {
        Decimal { number: self.number.clone() }
    }
}

impl Clone for Json {
    fn clone(&self) -> (r: Json)
        ensures
            r@ == self@,
        decreases self,
    {
        match self {
            Json::Null => Json::Null,
            Json::Bool(b) => Json::Bool(*b),
            Json::Pos(n) => Json::Pos(*n),
            Json::Neg(n) => Json::Neg(*n),
            Json::Float(n) => Json::Float(n.clone()),
            Json::Str(s) => Json::Str(s.clone()),
            Json::Arr(items) => {
                let mut out: Vec<Json> = Vec::new();
                let mut i: usize = 0;
                while i < items.len()
                    invariant
                        self is Arr,
                        *items == self->Arr_0,
                        i <= items@.len(),
                        trees_of(out@) == trees_of(items@.take(i as int)),
                    decreases items@.len() - i,
                {
                    proof {
                        assert(decreases_to!(*self => self->Arr_0));
                        assert(decreases_to!(*items => items@));
                        assert(decreases_to!(items@ => items@[i as int]));
                        assert(items@.take(i + 1).drop_last() =~= items@.take(i as int));
                    }
                    let item = items[i].clone();
                    proof { assert(out@.push(item).drop_last() =~= out@); }
                    out.push(item);
                    i = i + 1;
                }
                proof { assert(items@.take(i as int) =~= items@); }
                Json::Arr(out)
            },
            Json::Obj(fields) => {
                let mut out: Vec<(String, Json)> = Vec::new();
                let mut i: usize = 0;
                while i < fields.len()
                    invariant
                        self is Obj,
                        *fields == self->Obj_0,
                        i <= fields@.len(),
                        fields_of(out@) == fields_of(fields@.take(i as int)),
                    decreases fields@.len() - i,
                {
                    proof {
                        assert(decreases_to!(*self => self->Obj_0));
                        assert(decreases_to!(*fields => fields@));
                        assert(decreases_to!(fields@ => fields@[i as int]));
                        assert(decreases_to!(fields@[i as int] => fields@[i as int].1));
                        assert(fields@.take(i + 1).drop_last() =~= fields@.take(i as int));
                    }
                    let field = (fields[i].0.clone(), fields[i].1.clone());
                    proof { assert(out@.push(field).drop_last() =~= out@); }
                    out.push(field);
                    i = i + 1;
                }
                proof { assert(fields@.take(i as int) =~= fields@); }
                Json::Obj(out)
            },
        }
    }
}


/// The order of keys in an object: character by character, by code point.
pub open spec fn key_before(a: Seq<char>, b: Seq<char>) -> bool
    decreases a.len(),
{
    if b.len() == 0 {
        false
    } else if a.len() == 0 {
        true
    } else if a[0] != b[0] {
        (a[0] as u32) < (b[0] as u32)
    } else {
        key_before(a.drop_first(), b.drop_first())
    }
}

/// `fields` with `key` set to `value`, keeping keys in order.
pub open spec fn with_field<V>(
    fields: Seq<(Seq<char>, V)>,
    key: Seq<char>,
    value: V,
) -> Seq<(Seq<char>, V)>
    decreases fields.len(),
{
    if fields.len() == 0 {
        seq![(key, value)]
    } else if fields.last().0 == key {
        fields.drop_last().push((key, value))
    } else if key_before(fields.last().0, key) {
        fields.push((key, value))
    } else {
        with_field(fields.drop_last(), key, value).push(fields.last())
    }
}

/// The document with the keys of every object in order, the last of equal keys kept.
pub open spec fn normal(t: Tree) -> Tree
    decreases t,
{
    match t {
        Tree::Neg(n) => if n >= 0 {
            Tree::Pos(n as u64)
        } else {
            t
        },
        Tree::Arr(items) => Tree::Arr(normal_items(items)),
        Tree::Obj(fields) => Tree::Obj(normal_fields(fields)),
        _ => t,
    }
}

pub open spec fn normal_items(items: Seq<Tree>) -> Seq<Tree>
    decreases items,
{
    if items.len() == 0 {
        Seq::empty()
    } else {
        normal_items(items.drop_last()).push(normal(items.last()))
    }
}

pub open spec fn normal_fields(fields: Seq<(Seq<char>, Tree)>) -> Seq<(Seq<char>, Tree)>
    decreases fields,
{
    if fields.len() == 0 {
        Seq::empty()
    } else {
        with_field(normal_fields(fields.drop_last()), fields.last().0, normal(fields.last().1))
    }
}

/// The value under `key`; the last one if the key is repeated.
pub open spec fn lookup<V>(fields: Seq<(Seq<char>, V)>, key: Seq<char>) -> Option<V>
    decreases fields.len(),
{
    if fields.len() == 0 {
        None
    } else if fields.last().0 == key {
        Some(fields.last().1)
    } else {
        lookup(fields.drop_last(), key)
    }
}

/// The value that an object holds under `key`.
pub open spec fn field(t: Tree, key: Seq<char>) -> Option<Tree> {
    match t {
        Tree::Obj(fields) => lookup(fields, key),
        _ => None,
    }
}

/// The value that an object holds under `key`, or null.
pub open spec fn at(t: Tree, key: Seq<char>) -> Tree {
    match field(t, key) {
        Some(v) => v,
        None => Tree::Null,
    }
}

/// The text of a string value.
pub open spec fn text_of(t: Option<Tree>) -> Option<Seq<char>> {
    match t {
        Some(Tree::Str(s)) => Some(s),
        _ => None,
    }
}

/// The string under `key`, or the empty text.
pub open spec fn str_at(t: Tree, key: Seq<char>) -> Seq<char> {
    match text_of(field(t, key)) {
        Some(s) => s,
        None => Seq::empty(),
    }
}

/// Whether the value under `key` is the boolean `true`.
pub open spec fn is_true(t: Option<Tree>) -> bool {
    t == Some(Tree::Bool(true))
}

/// What a key gives after a field is set.
pub proof fn lemma_lookup_with<V>(
    fields: Seq<(Seq<char>, V)>,
    key: Seq<char>,
    value: V,
    k: Seq<char>,
)
    ensures
        lookup(with_field(fields, key, value), k) == if k == key {
            Some(value)
        } else {
            lookup(fields, k)
        },
    decreases fields.len(),
{
    reveal_with_fuel(lookup, 2);
    let w = with_field(fields, key, value);
    if fields.len() == 0 {
        assert(w.drop_last() =~= Seq::empty());
    } else if fields.last().0 == key {
        assert(w.drop_last() =~= fields.drop_last());
    } else if key_before(fields.last().0, key) {
        assert(w.drop_last() =~= fields);
    } else {
        lemma_lookup_with(fields.drop_last(), key, value, k);
        assert(w.drop_last() =~= with_field(fields.drop_last(), key, value));
    }
}

/// Putting keys in order changes no value that a key gives.
pub proof fn lemma_lookup_normal(fields: Seq<(Seq<char>, Tree)>, key: Seq<char>)
    ensures
        lookup(normal_fields(fields), key) == match lookup(fields, key) {
            Some(v) => Some(normal(v)),
            None => None::<Tree>,
        },
    decreases fields.len(),
{
    if fields.len() > 0 {
        lemma_lookup_normal(fields.drop_last(), key);
        lemma_lookup_with(
            normal_fields(fields.drop_last()),
            fields.last().0,
            normal(fields.last().1),
            key,
        );
    }
}

pub proof fn lemma_normal_items(items: Seq<Tree>)
    ensures
        normal_items(items).len() == items.len(),
        forall|i: int|
            0 <= i < items.len() ==> #[trigger] normal_items(items)[i] == normal(items[i]),
    decreases items.len(),
{
    if items.len() > 0 {
        lemma_normal_items(items.drop_last());
    }
}

/// A hexadecimal digit, in lower case.
pub open spec fn hex_digit(d: nat) -> char {
    if d < 10 {
        (48 + d) as char
    } else {
        (87 + d) as char
    }
}

/// A character as it stands inside a JSON string.
pub open spec fn escape(c: char) -> Seq<char> {
    if c == '"' {
        seq!['\\', '"']
    } else if c == '\\' {
        seq!['\\', '\\']
    } else if c as u32 == 8 {
        seq!['\\', 'b']
    } else if c as u32 == 9 {
        seq!['\\', 't']
    } else if c as u32 == 10 {
        seq!['\\', 'n']
    } else if c as u32 == 12 {
        seq!['\\', 'f']
    } else if c as u32 == 13 {
        seq!['\\', 'r']
    } else if (c as u32) < 32 {
        seq!['\\', 'u', '0', '0', hex_digit(c as nat / 16), hex_digit(c as nat % 16)]
    } else {
        seq![c]
    }
}

pub open spec fn escaped(s: Seq<char>) -> Seq<char>
    decreases s.len(),
{
    if s.len() == 0 {
        Seq::empty()
    } else {
        escaped(s.drop_last()) + escape(s.last())
    }
}

/// A text as a JSON string.
pub open spec fn quoted(s: Seq<char>) -> Seq<char> {
    seq!['"'] + escaped(s) + seq!['"']
}

/// The text of a number that is no integer.
pub uninterp spec fn decimal_text(d: Decimal) -> Seq<char>;

/// A document as text, without white space between its tokens.
pub open spec fn printed(t: Tree) -> Seq<char>
    decreases t,
{
    match t {
        Tree::Null => "null"@,
        Tree::Bool(b) => if b {
            "true"@
        } else {
            "false"@
        },
        Tree::Pos(n) => text::decimal(n as nat),
        Tree::Neg(n) => seq!['-'] + text::decimal((-n) as nat),
        Tree::Float(d) => decimal_text(d),
        Tree::Str(s) => quoted(s),
        Tree::Arr(items) => seq!['['] + text::joined(printed_items(items), seq![',']) + seq![']'],
        Tree::Obj(fields) => seq!['{'] + text::joined(printed_fields(fields), seq![',']) + seq![
            '}',
        ],
    }
}

pub open spec fn printed_items(items: Seq<Tree>) -> Seq<Seq<char>>
    decreases items,
{
    if items.len() == 0 {
        Seq::empty()
    } else {
        printed_items(items.drop_last()).push(printed(items.last()))
    }
}

pub open spec fn printed_fields(fields: Seq<(Seq<char>, Tree)>) -> Seq<Seq<char>>
    decreases fields,
{
    if fields.len() == 0 {
        Seq::empty()
    } else {
        printed_fields(fields.drop_last()).push(
            quoted(fields.last().0) + seq![':'] + printed(fields.last().1),
        )
    }
}

/// The document holds no number but integers.
pub open spec fn integral(t: Tree) -> bool
    decreases t,
{
    match t {
        Tree::Float(_) => false,
        Tree::Arr(items) => integral_items(items),
        Tree::Obj(fields) => integral_fields(fields),
        _ => true,
    }
}

pub open spec fn integral_items(items: Seq<Tree>) -> bool
    decreases items,
{
    items.len() == 0 || (integral_items(items.drop_last()) && integral(items.last()))
}

pub open spec fn integral_fields(fields: Seq<(Seq<char>, Tree)>) -> bool
    decreases fields,
{
    fields.len() == 0 || (integral_fields(fields.drop_last()) && integral(fields.last().1))
}

/// Arrays and objects are nested at most `n` deep.
pub open spec fn nested(t: Tree, n: int) -> bool
    decreases t,
{
    match t {
        Tree::Arr(items) => n > 0 && nested_items(items, n - 1),
        Tree::Obj(fields) => n > 0 && nested_fields(fields, n - 1),
        _ => true,
    }
}

pub open spec fn nested_items(items: Seq<Tree>, n: int) -> bool
    decreases items,
{
    items.len() == 0 || (nested_items(items.drop_last(), n) && nested(items.last(), n))
}

pub open spec fn nested_fields(fields: Seq<(Seq<char>, Tree)>, n: int) -> bool
    decreases fields,
{
    fields.len() == 0 || (nested_fields(fields.drop_last(), n) && nested(fields.last().1, n))
}

/// How deep arrays and objects may nest for a text to be read back.
pub open spec fn max_nesting() -> int {
    127
}

/// The fewest bytes that a document takes as text. A number that is no integer counts as one.
pub open spec fn shortest(t: Tree) -> nat
    decreases t,
{
    match t {
        Tree::Null => 4,
        Tree::Bool(b) => if b {
            4
        } else {
            5
        },
        Tree::Pos(n) => text::decimal(n as nat).len(),
        Tree::Neg(n) => 1 + text::decimal((-n) as nat).len(),
        Tree::Float(_) => 1,
        Tree::Str(s) => text::blen(quoted(s)),
        Tree::Arr(items) => if items.len() == 0 {
            2
        } else {
            1 + shortest_items(items)
        },
        Tree::Obj(fields) => if fields.len() == 0 {
            2
        } else {
            1 + shortest_fields(fields)
        },
    }
}

/// The fewest bytes of items, each with the sign behind it.
pub open spec fn shortest_items(items: Seq<Tree>) -> nat
    decreases items,
{
    if items.len() == 0 {
        0
    } else {
        shortest_items(items.drop_last()) + shortest(items.last()) + 1
    }
}

/// The fewest bytes of fields, each with the sign behind it.
pub open spec fn shortest_fields(fields: Seq<(Seq<char>, Tree)>) -> nat
    decreases fields,
{
    if fields.len() == 0 {
        0
    } else {
        shortest_fields(fields.drop_last()) + text::blen(quoted(fields.last().0)) + 1 + shortest(
            fields.last().1,
        ) + 1
    }
}

/// The document that a text is read as; none where it is not one JSON document.
pub uninterp spec fn parsed(text: Seq<char>) -> Option<Tree>;

/// What a `serde_json::Value` holds, the fields of an object in the order of its map.
pub uninterp spec fn value_tree(v: serde_json::Value) -> Tree;

/// What a text is read as is in normal form, and takes no more bytes than the text at its
/// shortest.
pub open spec fn fair(text: Seq<char>) -> bool {
    parsed(text) matches Some(t) ==> normal(t) == t && shortest(t) <= text::blen(text)
}

/// `serde_json::from_str` into a `Value`: a function of the text; an error is no document. JSON
/// has no shorter way to write a string than with each character raw or under its short escape,
/// nor an integer than with its digits, so no text is shorter than `shortest` says.
#[verifier::external_body]
fn read_value(text: &str) -> (r: Option<serde_json::Value>)
    ensures
        match r {
            Some(v) => parsed(text@) == Some(value_tree(v)) && shortest(value_tree(v))
                <= text::blen(text@),
            None => parsed(text@) is None,
        },
{
    serde_json::from_str::<serde_json::Value>(text).ok()
}

/// A `serde_json::Value` as a document, variant by variant. `as_u64` and `as_i64` tell the three
/// kinds of number apart. The map behind an object keeps each key once, in order, so the result
/// is in normal form.
#[verifier::external_body]
fn of_value(v: serde_json::Value) -> (r: Json)
    ensures
        r@ == value_tree(v),
        normal(r@) == r@,
{
    match v {
        serde_json::Value::Null => Json::Null,
        serde_json::Value::Bool(b) => Json::Bool(b),
        serde_json::Value::Number(n) => match (n.as_u64(), n.as_i64()) {
            (Some(u), _) => Json::Pos(u),
            (_, Some(i)) => Json::Neg(i),
            _ => Json::Float(Decimal { number: n }),
        },
        serde_json::Value::String(s) => Json::Str(s),
        serde_json::Value::Array(a) => Json::Arr(a.into_iter().map(of_value).collect()),
        serde_json::Value::Object(o) => {
            Json::Obj(o.into_iter().map(|(k, v)| (k, of_value(v))).collect())
        },
    }
}

/// A document as a `serde_json::Value`, variant by variant. The map behind an object orders the
/// keys and keeps the last of equal ones; a number from zero up is held as such.
#[verifier::external_body]
fn to_value(j: &Json) -> (v: serde_json::Value)
    ensures
        value_tree(v) == normal(j@),
{
    match j {
        Json::Null => serde_json::Value::Null,
        Json::Bool(b) => serde_json::Value::Bool(*b),
        Json::Pos(n) => serde_json::Value::from(*n),
        Json::Neg(n) => serde_json::Value::from(*n),
        Json::Float(d) => serde_json::Value::Number(d.number.clone()),
        Json::Str(s) => serde_json::Value::String(s.clone()),
        Json::Arr(items) => serde_json::Value::Array(items.iter().map(to_value).collect()),
        Json::Obj(fields) => serde_json::Value::Object(
            fields.iter().map(|(k, v)| (k.clone(), to_value(v))).collect(),
        ),
    }
}

/// `Display` of a `serde_json::Value`: its compact form. Reading it back gives the same value,
/// as long as no number is a fraction (which may lose its last bit) and it nests no deeper than
/// the reader goes.
#[verifier::external_body]
fn value_text(v: &serde_json::Value) -> (r: String)
    ensures
        r@ == printed(value_tree(*v)),
        value_tree(*v) is Float ==> r@ == decimal_text(value_tree(*v)->Float_0),
        integral(value_tree(*v)) && nested(value_tree(*v), max_nesting()) ==> parsed(r@) == Some(
            value_tree(*v),
        ),
{
    v.to_string()
}

impl Json {
    /// Reads one document; none where the text is not exactly one.
    pub fn parse(text: &str) -> (r: Option<Json>)
        ensures
            match r {
                Some(j) => parsed(text@) == Some(j@) && normal(j@) == j@,
                None => parsed(text@) is None,
            },
            fair(text@),
    {
        match read_value(text) {
            Some(v) => Some(of_value(v)),
            None => None,
        }
    }

    /// The document as text.
    pub fn print(&self) -> (r: String)
        ensures
            r@ == printed(normal(self@)),
            reads_back(self@),
    {
        proof {
            lemma_normal_readable(self@, max_nesting());
        }
        let v = to_value(self);
        value_text(&v)
    }

    /// The value under `key`, if this is an object that has one.
    pub fn get(&self, key: &str) -> (r: Option<&Json>)
        ensures
            match r {
                Some(v) => field(self@, key@) == Some(v@),
                None => field(self@, key@) is None,
            },
    {
        match self {
            Json::Obj(fields) => {
                let mut i: usize = fields.len();
                proof { assert(fields@.take(i as int) =~= fields@); }
                while i > 0
                    invariant
                        self@ == Tree::Obj(fields_of(fields@)),
                        i <= fields@.len(),
                        lookup(fields_of(fields@), key@) == lookup(
                            fields_of(fields@.take(i as int)),
                            key@,
                        ),
                    decreases i,
                {
                    proof {
                        assert(fields@.take(i as int).drop_last() =~= fields@.take(i - 1));
                        let fs = fields_of(fields@.take(i as int));
                        assert(fs.drop_last() =~= fields_of(fields@.take(i - 1)));
                    }
                    if text::same(fields[i - 1].0.as_str(), key) {
                        return Some(&fields[i - 1].1);
                    }
                    i = i - 1;
                }
                None
            },
            _ => None,
        }
    }

    /// The text, if this is a string.
    pub fn as_str(&self) -> (r: Option<&str>)
        ensures
            match r {
                Some(s) => self@ == Tree::Str(s@),
                None => !(self@ is Str),
            },
    {
        match self {
            Json::Str(s) => Some(s.as_str()),
            _ => None,
        }
    }

    /// The text under `key`, if it is a string.
    pub fn text(&self, key: &str) -> (r: Option<&str>)
        ensures
            match r {
                Some(s) => text_of(field(self@, key@)) == Some(s@),
                None => text_of(field(self@, key@)) is None,
            },
    {
        match self.get(key) {
            Some(v) => v.as_str(),
            None => None,
        }
    }

    /// The text under `key`, or the empty text.
    pub fn string(&self, key: &str) -> (r: String)
        ensures
            r@ == str_at(self@, key@),
    {
        match self.text(key) {
            Some(s) => s.to_owned(),
            None => String::new(),
        }
    }
}

impl Tree {
    /// The object with one more field.
    pub open spec fn with(self, key: Seq<char>, value: Tree) -> Tree {
        match self {
            Tree::Obj(fields) => Tree::Obj(fields.push((key, value))),
            _ => self,
        }
    }
}

/// The object without fields.
pub open spec fn empty_obj() -> Tree {
    Tree::Obj(Seq::empty())
}

/// A text, or null for none.
pub open spec fn text_or_null(s: Option<Seq<char>>) -> Tree {
    match s {
        Some(t) => Tree::Str(t),
        None => Tree::Null,
    }
}

impl Json {
    /// The object with one more field.
    pub fn with(self, key: &str, value: Json) -> (r: Json)
        ensures
            r@ == self@.with(key@, value@),
    {
        match self {
            Json::Obj(fields) => {
                let mut fields = fields;
                let field = (key.to_owned(), value);
                proof {
                    assert(fields@.push(field).drop_last() =~= fields@);
                }
                fields.push(field);
                Json::Obj(fields)
            },
            other => other,
        }
    }

    /// The object without fields.
    pub fn object() -> (r: Json)
        ensures
            r@ == empty_obj(),
    {
        Json::Obj(Vec::new())
    }

    /// A string value.
    pub fn of_text(s: &str) -> (r: Json)
        ensures
            r@ == Tree::Str(s@),
    {
        Json::Str(s.to_owned())
    }

    /// A string value, or null for none.
    pub fn of_option(s: &Option<String>) -> (r: Json)
        ensures
            r@ == text_or_null(
                match *s {
                    Some(t) => Some(t@),
                    None => None,
                },
            ),
    {
        match s {
            Some(t) => Json::Str(t.clone()),
            None => Json::Null,
        }
    }

    /// A list of one value.
    pub fn list_of(j: Json) -> (r: Json)
        ensures
            r@ == Tree::Arr(seq![j@]),
    {
        let mut items: Vec<Json> = Vec::new();
        proof {
            reveal_with_fuel(trees_of, 2);
            assert(items@.push(j).drop_last() =~= items@);
            assert(trees_of(items@.push(j)) =~= seq![j@]);
        }
        items.push(j);
        Json::Arr(items)
    }
}

/// What a key gives after one more field.
pub broadcast proof fn lemma_field_with(t: Tree, k: Seq<char>, v: Tree, key: Seq<char>)
    requires
        t is Obj,
    ensures
        #[trigger] field(t.with(k, v), key) == if key == k {
            Some(v)
        } else {
            field(t, key)
        },
{
    let fields = t->Obj_0;
    assert(fields.push((k, v)).drop_last() =~= fields);
}

/// What a key gives once keys are in order.
pub broadcast proof fn lemma_field_normal(t: Tree, key: Seq<char>)
    ensures
        #[trigger] field(normal(t), key) == match field(t, key) {
            Some(v) => Some(normal(v)),
            None => None::<Tree>,
        },
{
    match t {
        Tree::Obj(fields) => lemma_lookup_normal(fields, key),
        _ => {},
    }
}

/// A document whose text is read back as the same document.
pub open spec fn readable(t: Tree) -> bool {
    integral(t) && nested(t, max_nesting())
}

/// Reading the text of `t` gives `t`, its keys in order.
pub open spec fn reads_back(t: Tree) -> bool {
    readable(t) ==> parsed(printed(normal(t))) == Some(normal(t))
}

proof fn lemma_integral_with_field(fields: Seq<(Seq<char>, Tree)>, key: Seq<char>, value: Tree)
    requires
        integral_fields(fields),
        integral(value),
    ensures
        integral_fields(with_field(fields, key, value)),
    decreases fields.len(),
{
    reveal_with_fuel(integral_fields, 2);
    let w = with_field(fields, key, value);
    if fields.len() == 0 {
        assert(w.drop_last() =~= Seq::empty());
    } else if fields.last().0 == key {
        assert(w.drop_last() =~= fields.drop_last());
    } else if key_before(fields.last().0, key) {
        assert(w.drop_last() =~= fields);
    } else {
        lemma_integral_with_field(fields.drop_last(), key, value);
        assert(w.drop_last() =~= with_field(fields.drop_last(), key, value));
    }
}

proof fn lemma_nested_with_field(
    fields: Seq<(Seq<char>, Tree)>,
    key: Seq<char>,
    value: Tree,
    n: int,
)
    requires
        nested_fields(fields, n),
        nested(value, n),
    ensures
        nested_fields(with_field(fields, key, value), n),
    decreases fields.len(),
{
    reveal_with_fuel(nested_fields, 2);
    let w = with_field(fields, key, value);
    if fields.len() == 0 {
        assert(w.drop_last() =~= Seq::empty());
    } else if fields.last().0 == key {
        assert(w.drop_last() =~= fields.drop_last());
    } else if key_before(fields.last().0, key) {
        assert(w.drop_last() =~= fields);
    } else {
        lemma_nested_with_field(fields.drop_last(), key, value, n);
        assert(w.drop_last() =~= with_field(fields.drop_last(), key, value));
    }
}

/// Putting keys in order keeps the numbers whole and makes nothing deeper.
pub proof fn lemma_normal_readable(t: Tree, n: int)
    ensures
        integral(t) ==> integral(normal(t)),
        nested(t, n) ==> nested(normal(t), n),
    decreases t,
{
    match t {
        Tree::Arr(items) => {
            lemma_normal_items_readable(items, n - 1);
        },
        Tree::Obj(fields) => {
            lemma_normal_fields_readable(fields, n - 1);
        },
        _ => {},
    }
}

proof fn lemma_normal_items_readable(items: Seq<Tree>, n: int)
    ensures
        integral_items(items) ==> integral_items(normal_items(items)),
        nested_items(items, n) ==> nested_items(normal_items(items), n),
    decreases items,
{
    if items.len() > 0 {
        lemma_normal_items_readable(items.drop_last(), n);
        lemma_normal_readable(items.last(), n);
        assert(normal_items(items).drop_last() =~= normal_items(items.drop_last()));
    }
}

proof fn lemma_normal_fields_readable(fields: Seq<(Seq<char>, Tree)>, n: int)
    ensures
        integral_fields(fields) ==> integral_fields(normal_fields(fields)),
        nested_fields(fields, n) ==> nested_fields(normal_fields(fields), n),
    decreases fields,
{
    if fields.len() > 0 {
        lemma_normal_fields_readable(fields.drop_last(), n);
        lemma_normal_readable(fields.last().1, n);
        let before = normal_fields(fields.drop_last());
        if integral_fields(fields) {
            lemma_integral_with_field(before, fields.last().0, normal(fields.last().1));
        }
        if nested_fields(fields, n) {
            lemma_nested_with_field(before, fields.last().0, normal(fields.last().1), n);
        }
    }
}

/// One more field: whole numbers and depth.
pub broadcast proof fn lemma_integral_with(t: Tree, key: Seq<char>, value: Tree)
    requires
        t is Obj,
    ensures
        #[trigger] integral(t.with(key, value)) == (integral(t) && integral(value)),
{
    let fields = t->Obj_0;
    assert(fields.push((key, value)).drop_last() =~= fields);
}

pub broadcast proof fn lemma_nested_with(t: Tree, key: Seq<char>, value: Tree, n: int)
    requires
        t is Obj,
    ensures
        #[trigger] nested(t.with(key, value), n) == (nested(t, n) && nested(value, n - 1)),
{
    let fields = t->Obj_0;
    assert(fields.push((key, value)).drop_last() =~= fields);
}

/// A document that is read back at some depth is so at any greater one.
pub proof fn lemma_nested_more(t: Tree, n: int, m: int)
    requires
        nested(t, n),
        n <= m,
    ensures
        nested(t, m),
    decreases t,
{
    match t {
        Tree::Arr(items) => lemma_nested_items_more(items, n - 1, m - 1),
        Tree::Obj(fields) => lemma_nested_fields_more(fields, n - 1, m - 1),
        _ => {},
    }
}

proof fn lemma_nested_items_more(items: Seq<Tree>, n: int, m: int)
    requires
        nested_items(items, n),
        n <= m,
    ensures
        nested_items(items, m),
    decreases items,
{
    if items.len() > 0 {
        lemma_nested_items_more(items.drop_last(), n, m);
        lemma_nested_more(items.last(), n, m);
    }
}

proof fn lemma_nested_fields_more(fields: Seq<(Seq<char>, Tree)>, n: int, m: int)
    requires
        nested_fields(fields, n),
        n <= m,
    ensures
        nested_fields(fields, m),
    decreases fields,
{
    if fields.len() > 0 {
        lemma_nested_fields_more(fields.drop_last(), n, m);
        lemma_nested_more(fields.last().1, n, m);
    }
}

proof fn lemma_char_code(a: char, b: char)
    ensures
        a as u32 == b as u32 ==> a == b,
{
}

/// Two different keys stand in one order or the other, never in both.
proof fn lemma_key_order(a: Seq<char>, b: Seq<char>)
    ensures
        a != b ==> (key_before(a, b) <==> !key_before(b, a)),
        a == b ==> !key_before(a, b),
    decreases a.len(),
{
    if a.len() == 0 || b.len() == 0 {
        if a.len() == 0 && b.len() == 0 {
            assert(a =~= b);
        }
    } else if a[0] != b[0] {
        lemma_char_code(a[0], b[0]);
    } else {
        lemma_key_order(a.drop_first(), b.drop_first());
        if a.drop_first() == b.drop_first() {
            assert(a =~= seq![a[0]] + a.drop_first());
            assert(b =~= seq![b[0]] + b.drop_first());
        }
    }
}

proof fn lemma_key_chain(a: Seq<char>, b: Seq<char>, c: Seq<char>)
    requires
        key_before(a, b),
        key_before(b, c),
    ensures
        key_before(a, c),
    decreases a.len(),
{
    if a.len() > 0 && a[0] == b[0] && b[0] == c[0] {
        lemma_key_chain(a.drop_first(), b.drop_first(), c.drop_first());
    }
}

/// Keys in order, each once.
pub open spec fn keys_ordered<V>(fields: Seq<(Seq<char>, V)>) -> bool {
    forall|i: int, j: int|
        0 <= i < j < fields.len() ==> key_before((#[trigger] fields[i]).0, (#[trigger] fields[j]).0)
}

/// Setting a field keeps the keys in order.
pub proof fn lemma_with_ordered<V>(fields: Seq<(Seq<char>, V)>, key: Seq<char>, value: V)
    requires
        keys_ordered(fields),
    ensures
        keys_ordered(with_field(fields, key, value)),
        with_field(fields, key, value).len() > 0,
        forall|i: int|
            0 <= i < with_field(fields, key, value).len() ==> {
                let f = #[trigger] with_field(fields, key, value)[i];
                f == (key, value) || fields.contains(f)
            },
    decreases fields.len(),
{
    let w = with_field(fields, key, value);
    if fields.len() > 0 {
        let last = fields.last();
        let n = fields.len() - 1;
        lemma_key_order(last.0, key);
        if last.0 == key {
            assert forall|i: int| 0 <= i < w.len() implies ({
                let f = #[trigger] w[i];
                f == (key, value) || fields.contains(f)
            }) by {
                if i < n {
                    assert(w[i] == fields[i]);
                }
            }
            assert forall|i: int, j: int| 0 <= i < j < w.len() implies key_before(
                (#[trigger] w[i]).0,
                (#[trigger] w[j]).0,
            ) by {
                assert(w[i] == fields[i]);
                assert(w[j].0 == fields[j].0);
            }
        } else if key_before(last.0, key) {
            assert forall|i: int| 0 <= i < w.len() implies ({
                let f = #[trigger] w[i];
                f == (key, value) || fields.contains(f)
            }) by {
                if i <= n {
                    assert(w[i] == fields[i]);
                }
            }
            assert forall|i: int, j: int| 0 <= i < j < w.len() implies key_before(
                (#[trigger] w[i]).0,
                (#[trigger] w[j]).0,
            ) by {
                assert(w[i] == fields[i]);
                if j <= n {
                    assert(w[j] == fields[j]);
                } else if i < n {
                    assert(key_before(fields[i].0, fields[n].0));
                    lemma_key_chain(fields[i].0, fields[n].0, key);
                }
            }
        } else {
            let rest = fields.drop_last();
            let wr = with_field(rest, key, value);
            assert forall|i: int, j: int| 0 <= i < j < rest.len() implies key_before(
                (#[trigger] rest[i]).0,
                (#[trigger] rest[j]).0,
            ) by {
                assert(rest[i] == fields[i] && rest[j] == fields[j]);
            }
            lemma_with_ordered(rest, key, value);
            assert forall|i: int| 0 <= i < wr.len() implies ({
                let f = #[trigger] wr[i];
                (f == (key, value) || fields.contains(f)) && key_before(f.0, last.0)
            }) by {
                let f = wr[i];
                if f != (key, value) {
                    let k = choose|k: int| 0 <= k < rest.len() && rest[k] == f;
                    assert(fields[k] == f);
                    assert(key_before(fields[k].0, fields[n].0));
                }
            }
            assert forall|i: int| 0 <= i < w.len() implies ({
                let f = #[trigger] w[i];
                f == (key, value) || fields.contains(f)
            }) by {
                if i < wr.len() {
                    assert(w[i] == wr[i]);
                } else {
                    assert(w[i] == fields[n]);
                }
            }
            assert forall|i: int, j: int| 0 <= i < j < w.len() implies key_before(
                (#[trigger] w[i]).0,
                (#[trigger] w[j]).0,
            ) by {
                assert(w[i] == wr[i]);
                if j < wr.len() {
                    assert(w[j] == wr[j]);
                }
            }
        }
    }
}

/// Fields in order whose values are in normal form stay as they are.
proof fn lemma_ordered_kept(fields: Seq<(Seq<char>, Tree)>)
    requires
        keys_ordered(fields),
        forall|i: int| 0 <= i < fields.len() ==> normal((#[trigger] fields[i]).1) == fields[i].1,
    ensures
        normal_fields(fields) == fields,
    decreases fields.len(),
{
    if fields.len() > 0 {
        let rest = fields.drop_last();
        let n = fields.len() - 1;
        assert forall|i: int, j: int| 0 <= i < j < rest.len() implies key_before(
            (#[trigger] rest[i]).0,
            (#[trigger] rest[j]).0,
        ) by {
            assert(rest[i] == fields[i] && rest[j] == fields[j]);
        }
        assert forall|i: int| 0 <= i < rest.len() implies normal((#[trigger] rest[i]).1)
            == rest[i].1 by {
            assert(rest[i] == fields[i]);
        }
        lemma_ordered_kept(rest);
        assert(normal(fields[n].1) == fields[n].1);
        if rest.len() > 0 {
            assert(key_before(fields[n - 1].0, fields[n].0));
            lemma_key_order(fields[n - 1].0, fields[n].0);
        }
        assert(rest.push(fields.last()) =~= fields);
    } else {
        assert(fields =~= Seq::empty());
    }
}

/// Normal form is stable: putting keys in order twice is the same as once.
pub proof fn lemma_normal_twice(t: Tree)
    ensures
        normal(normal(t)) == normal(t),
    decreases t,
{
    match t {
        Tree::Arr(items) => lemma_normal_items_twice(items),
        Tree::Obj(fields) => {
            lemma_normal_fields_ordered(fields);
            lemma_ordered_kept(normal_fields(fields));
        },
        _ => {},
    }
}

proof fn lemma_normal_items_twice(items: Seq<Tree>)
    ensures
        normal_items(normal_items(items)) == normal_items(items),
    decreases items,
{
    if items.len() > 0 {
        lemma_normal_items_twice(items.drop_last());
        lemma_normal_twice(items.last());
        assert(normal_items(items).drop_last() =~= normal_items(items.drop_last()));
    }
}

proof fn lemma_normal_fields_ordered(fields: Seq<(Seq<char>, Tree)>)
    ensures
        keys_ordered(normal_fields(fields)),
        forall|i: int|
            0 <= i < normal_fields(fields).len() ==> normal((#[trigger] normal_fields(fields)[i]).1)
                == normal_fields(fields)[i].1,
    decreases fields,
{
    if fields.len() > 0 {
        let before = normal_fields(fields.drop_last());
        let key = fields.last().0;
        let value = normal(fields.last().1);
        lemma_normal_fields_ordered(fields.drop_last());
        lemma_normal_twice(fields.last().1);
        lemma_with_ordered(before, key, value);
        let all = normal_fields(fields);
        assert forall|i: int| 0 <= i < all.len() implies normal((#[trigger] all[i]).1)
            == all[i].1 by {
            let f = all[i];
            if f != (key, value) {
                let k = choose|k: int| 0 <= k < before.len() && before[k] == f;
                assert(normal(before[k].1) == before[k].1);
            }
        }
    }
}

} // verus!
