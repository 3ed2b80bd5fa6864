//! OMP's physical first line: a title slot of fixed width.

use crate::iso;
use crate::json;
use crate::json::{Json, Tree};
use crate::records;
use crate::text;
use crate::words;
use vstd::prelude::*;

verus! {

/// Bytes of a title slot, its line feed included.
pub const SLOT_BYTES: usize = 256;

pub open spec fn spaces(n: nat) -> Seq<char> {
    Seq::new(n, |i: int| ' ')
}

/// The title record, padded with `pad` spaces.
pub open spec fn slot_tree(title: Seq<char>, updated_at: Seq<char>, pad: nat) -> Tree {
    json::empty_obj().with("pad"@, Tree::Str(spaces(pad))).with("source"@, Tree::Str("user"@)).with(
        "title"@,
        Tree::Str(title),
    ).with("type"@, Tree::Str("title"@)).with("updatedAt"@, Tree::Str(updated_at)).with(
        "v"@,
        Tree::Pos(1),
    )
}

/// Bytes of the title line without padding.
pub open spec fn slot_len(title: Seq<char>, updated_at: Seq<char>) -> nat {
    text::blen(records::line_of(slot_tree(title, updated_at, 0)))
}

/// The title, shortened from the end until its line fits the slot.
pub open spec fn slot_title(title: Seq<char>, updated_at: Seq<char>) -> Seq<char>
    decreases title.len(),
{
    if slot_len(title, updated_at) > SLOT_BYTES && title.len() > 0 {
        slot_title(title.drop_last(), updated_at)
    } else {
        title
    }
}

/// The title record that fills the slot.
pub open spec fn full_slot(title: Seq<char>, updated_at: Seq<char>) -> Tree {
    let t = slot_title(title, updated_at);
    slot_tree(t, updated_at, (SLOT_BYTES - slot_len(t, updated_at)) as nat)
}

/// A character that stands for itself in JSON and takes one byte.
pub open spec fn bare(c: char) -> bool {
    32 <= c as u32 && (c as u32) < 127 && c != '"' && c != '\\'
}

pub open spec fn all_bare(s: Seq<char>) -> bool {
    forall|i: int| 0 <= i < s.len() ==> bare(#[trigger] s[i])
}

proof fn lemma_bare(s: Seq<char>)
    requires
        all_bare(s),
    ensures
        json::escaped(s) == s,
        text::blen(s) == s.len(),
        text::blen(json::quoted(s)) == s.len() + 2,
    decreases s.len(),
{
    if s.len() == 0 {
        text::lemma_blen_empty();
        assert(s =~= Seq::empty());
    } else {
        lemma_bare(s.drop_last());
        text::lemma_blen_push(s.drop_last(), s.last());
        assert(s.drop_last().push(s.last()) =~= s);
        assert(json::escaped(s.drop_last()) + json::escape(s.last()) =~= s);
    }
    text::lemma_blen_push(Seq::empty(), '"');
    text::lemma_blen_empty();
    assert(Seq::<char>::empty().push('"') =~= seq!['"']);
    text::lemma_blen_add(seq!['"'], json::escaped(s));
    text::lemma_blen_add(seq!['"'] + json::escaped(s), seq!['"']);
}

/// The fields of a title record, in order.
spec fn slot_fields(
    title: Seq<char>,
    updated_at: Seq<char>,
    pad: nat,
    n: int,
) -> Seq<(Seq<char>, Tree)> {
    seq![
        ("pad"@, Tree::Str(spaces(pad))),
        ("source"@, Tree::Str("user"@)),
        ("title"@, Tree::Str(title)),
        ("type"@, Tree::Str("title"@)),
        ("updatedAt"@, Tree::Str(updated_at)),
        ("v"@, Tree::Pos(1)),
    ].take(n)
}

/// Keys are in order already.
proof fn lemma_slot_normal(title: Seq<char>, updated_at: Seq<char>, pad: nat)
    ensures
        json::normal(slot_tree(title, updated_at, pad)) == slot_tree(title, updated_at, pad),
        slot_tree(title, updated_at, pad) == Tree::Obj(slot_fields(title, updated_at, pad, 6)),
{
    reveal_strlit("pad");
    reveal_strlit("source");
    reveal_strlit("title");
    reveal_strlit("type");
    reveal_strlit("updatedAt");
    reveal_strlit("v");
    reveal_with_fuel(json::key_before, 2);
    let f = |n: int| slot_fields(title, updated_at, pad, n);
    assert(slot_tree(title, updated_at, pad)->Obj_0 =~= f(6));
    assert(json::normal_fields(f(0)) =~= f(0));
    assert("title"@.drop_first()[0] == 'i');
    assert("type"@.drop_first()[0] == 'y');
    assert forall|n: int| 0 <= n < 6 && json::normal_fields(f(n)) == f(n) implies
        json::normal_fields(#[trigger] f(n + 1)) == f(n + 1) by {
        let last = f(n + 1).last();
        assert(f(n + 1).drop_last() =~= f(n));
        assert(json::normal(last.1) == last.1);
        assert(f(n).push(last) =~= f(n + 1));
        if n > 0 {
            assert(json::key_before(f(n).last().0, last.0));
        }
    }
    assert(json::normal_fields(f(1)) == f(1));
    assert(json::normal_fields(f(2)) == f(2));
    assert(json::normal_fields(f(3)) == f(3));
    assert(json::normal_fields(f(4)) == f(4));
    assert(json::normal_fields(f(5)) == f(5));
    assert(json::normal_fields(f(6)) == f(6));
}

/// A field as it is printed.
spec fn field_text(key: Seq<char>, value: Tree) -> Seq<char> {
    json::quoted(key) + seq![':'] + json::printed(value)
}

/// Bytes of a field as it is printed.
spec fn field_len(key: Seq<char>, value: Tree) -> nat {
    text::blen(json::quoted(key)) + 1 + text::blen(json::printed(value))
}

proof fn lemma_one_byte(c: char)
    requires
        bare(c) || c == '"' || c == '\n',
    ensures
        text::blen(seq![c]) == 1,
{
    text::lemma_blen_first(seq![c]);
    text::lemma_blen_empty();
    assert(seq![c].drop_first() =~= Seq::<char>::empty());
}

proof fn lemma_field_len(key: Seq<char>, value: Tree)
    ensures
        text::blen(field_text(key, value)) == field_len(key, value),
{
    lemma_one_byte(':');
    text::lemma_blen_add(json::quoted(key), seq![':']);
    text::lemma_blen_add(json::quoted(key) + seq![':'], json::printed(value));
}

/// One more printed field: its bytes and a comma.
proof fn lemma_more_fields(fields: Seq<(Seq<char>, Tree)>, key: Seq<char>, value: Tree)
    ensures
        text::blen(text::joined(json::printed_fields(fields.push((key, value))), seq![','])) == text::blen(
            text::joined(json::printed_fields(fields), seq![',']),
        ) + field_len(key, value) + if fields.len() == 0 {
            0nat
        } else {
            1nat
        },
        json::printed_fields(fields.push((key, value))).len() == json::printed_fields(fields).len()
            + 1,
{
    let more = fields.push((key, value));
    let before = json::printed_fields(fields);
    let parts = json::printed_fields(more);
    assert(more.drop_last() =~= fields);
    assert(parts == before.push(field_text(key, value)));
    assert(parts.drop_last() =~= before);
    lemma_printed_count(fields);
    lemma_field_len(key, value);
    text::lemma_blen_empty();
    if fields.len() > 0 {
        let j = text::joined(before, seq![',']);
        lemma_one_byte(',');
        text::lemma_blen_add(j, seq![',']);
        text::lemma_blen_add(j + seq![','], field_text(key, value));
    }
}

proof fn lemma_printed_count(fields: Seq<(Seq<char>, Tree)>)
    ensures
        json::printed_fields(fields).len() == fields.len(),
    decreases fields.len(),
{
    if fields.len() > 0 {
        lemma_printed_count(fields.drop_last());
    }
}

/// Bytes of the title line: one for each space of padding, and those of the other fields.
proof fn lemma_slot_bytes(title: Seq<char>, updated_at: Seq<char>, pad: nat)
    ensures
        text::blen(records::line_of(slot_tree(title, updated_at, pad))) == 3 + field_len(
            "pad"@,
            Tree::Str(spaces(pad)),
        ) + 1 + field_len("source"@, Tree::Str("user"@)) + 1 + field_len("title"@, Tree::Str(title))
            + 1 + field_len("type"@, Tree::Str("title"@)) + 1 + field_len(
            "updatedAt"@,
            Tree::Str(updated_at),
        ) + 1 + field_len("v"@, Tree::Pos(1)),
{
    let f0 = Seq::<(Seq<char>, Tree)>::empty();
    let f1 = f0.push(("pad"@, Tree::Str(spaces(pad))));
    let f2 = f1.push(("source"@, Tree::Str("user"@)));
    let f3 = f2.push(("title"@, Tree::Str(title)));
    let f4 = f3.push(("type"@, Tree::Str("title"@)));
    let f5 = f4.push(("updatedAt"@, Tree::Str(updated_at)));
    let f6 = f5.push(("v"@, Tree::Pos(1)));
    lemma_slot_normal(title, updated_at, pad);
    lemma_more_fields(f0, "pad"@, Tree::Str(spaces(pad)));
    lemma_more_fields(f1, "source"@, Tree::Str("user"@));
    lemma_more_fields(f2, "title"@, Tree::Str(title));
    lemma_more_fields(f3, "type"@, Tree::Str("title"@));
    lemma_more_fields(f4, "updatedAt"@, Tree::Str(updated_at));
    lemma_more_fields(f5, "v"@, Tree::Pos(1));
    text::lemma_blen_empty();
    let j = text::joined(json::printed_fields(f6), seq![',']);
    lemma_one_byte('{');
    lemma_one_byte('}');
    text::lemma_blen_add(seq!['{'], j);
    text::lemma_blen_add(seq!['{'] + j, seq!['}']);
    text::lemma_blen_push(seq!['{'] + j + seq!['}'], '\n');
}

/// Each space of padding adds one byte to the title line.
proof fn lemma_slot_pad(title: Seq<char>, updated_at: Seq<char>, pad: nat)
    ensures
        text::blen(records::line_of(slot_tree(title, updated_at, pad))) == pad + slot_len(
            title,
            updated_at,
        ),
{
    lemma_slot_bytes(title, updated_at, pad);
    lemma_slot_bytes(title, updated_at, 0);
    lemma_bare(spaces(pad));
    lemma_bare(spaces(0));
}

/// A timestamp leaves room for a title in the slot.
pub proof fn lemma_stamp_fits(secs: u64)
    ensures
        slot_len(Seq::empty(), iso::iso_of(secs)) <= SLOT_BYTES,
{
    let ts = iso::iso_of(secs);
    iso::lemma_iso_shape(secs);
    reveal_strlit("pad");
    reveal_strlit("source");
    reveal_strlit("user");
    reveal_strlit("title");
    reveal_strlit("type");
    reveal_strlit("updatedAt");
    reveal_strlit("v");
    lemma_slot_bytes(Seq::empty(), ts, 0);
    lemma_bare("pad"@);
    lemma_bare("source"@);
    lemma_bare("user"@);
    lemma_bare("title"@);
    lemma_bare("type"@);
    lemma_bare("updatedAt"@);
    lemma_bare("v"@);
    lemma_bare(spaces(0));
    lemma_bare(Seq::empty());
    lemma_bare(ts);
    lemma_one_byte('1');
    assert(text::decimal(1) =~= seq!['1']);
}

/// The title kept in the slot is the longest start of the title that fits.
pub proof fn lemma_slot_title(title: Seq<char>, updated_at: Seq<char>)
    requires
        slot_len(Seq::empty(), updated_at) <= SLOT_BYTES,
    ensures
        ({
            let n = slot_title(title, updated_at).len() as int;
            &&& n <= title.len()
            &&& slot_title(title, updated_at) == title.take(n)
            &&& slot_len(title.take(n), updated_at) <= SLOT_BYTES
            &&& forall|m: int|
                n < m <= title.len() ==> #[trigger] slot_len(title.take(m), updated_at) > SLOT_BYTES
        }),
    decreases title.len(),
{
    assert(title.take(title.len() as int) =~= title);
    if title.len() == 0 {
        assert(title =~= Seq::empty());
    } else if slot_len(title, updated_at) > SLOT_BYTES {
        let rest = title.drop_last();
        lemma_slot_title(rest, updated_at);
        assert forall|m: int| 0 <= m <= rest.len() implies #[trigger] title.take(m) == rest.take(
            m,
        ) by {
            assert(title.take(m) =~= rest.take(m));
        }
    }
}

/// The title line takes exactly the bytes of the slot.
pub proof fn lemma_slot_width(title: Seq<char>, updated_at: Seq<char>)
    requires
        slot_len(Seq::empty(), updated_at) <= SLOT_BYTES,
    ensures
        text::blen(records::line_of(full_slot(title, updated_at))) == SLOT_BYTES,
{
    let t = slot_title(title, updated_at);
    lemma_slot_title(title, updated_at);
    lemma_slot_pad(t, updated_at, (SLOT_BYTES - slot_len(t, updated_at)) as nat);
}

/// The slot is a title record whose source is the user, whatever the title.
pub proof fn lemma_slot_source(title: Seq<char>, updated_at: Seq<char>)
    ensures
        json::field(full_slot(title, updated_at), "type"@) == Some(Tree::Str("title"@)),
        json::field(full_slot(title, updated_at), "source"@) == Some(Tree::Str("user"@)),
{
    broadcast use json::lemma_field_with;

    words::lemma_words();
    reveal_strlit("v");
    reveal_strlit("type");
    reveal_strlit("source");
}

fn slot_json(title: &str, updated_at: &str, pad: usize) -> (r: Json)
    ensures
        r@ == slot_tree(title@, updated_at@, pad as nat),
{
    let mut blanks = String::new();
    let mut i: usize = 0;
    while i < pad
        invariant
            i <= pad,
            blanks@ =~= spaces(i as nat),
        decreases pad - i,
    {
        blanks.push(' ');
        i = i + 1;
    }
    Json::object().with("pad", Json::Str(blanks)).with("source", Json::of_text("user")).with(
        "title",
        Json::of_text(title),
    ).with("type", Json::of_text("title")).with("updatedAt", Json::of_text(updated_at)).with(
        "v",
        Json::Pos(1),
    )
}

fn slot_bytes(title: &str, updated_at: &str) -> (n: usize)
    ensures
        n == slot_len(title@, updated_at@),
{
    let mut line = slot_json(title, updated_at, 0).print();
    line.push('\n');
    text::byte_len(line.as_str())
}

/// The title record that fills OMP's slot. The loader takes only "auto" and "user" as sources,
/// and drops the whole file over any other.
pub fn title_slot(title: &str, updated_at: &str) -> (r: Json)
    requires
        slot_len(Seq::empty(), updated_at@) <= SLOT_BYTES,
    ensures
        r@ == full_slot(title@, updated_at@),
{
    let chars = text::chars_of(title);
    let mut t = title.to_owned();
    let mut n: usize = chars.len();
    let mut len = slot_bytes(t.as_str(), updated_at);
    proof {
        assert(chars@.take(n as int) =~= chars@);
    }
    while len > SLOT_BYTES
        invariant
            chars@ == title@,
            slot_len(Seq::empty(), updated_at@) <= SLOT_BYTES,
            n <= chars@.len(),
            t@ == chars@.take(n as int),
            len == slot_len(t@, updated_at@),
            slot_title(title@, updated_at@) == slot_title(t@, updated_at@),
        decreases n,
    {
        proof {
            if n == 0 {
                assert(t@ =~= Seq::empty());
            }
            assert(chars@.take(n as int).drop_last() =~= chars@.take(n - 1));
            assert(chars@.subrange(0, n - 1) =~= chars@.take(n - 1));
        }
        n = n - 1;
        t = text::slice(&chars, 0, n);
        len = slot_bytes(t.as_str(), updated_at);
    }
    slot_json(t.as_str(), updated_at, SLOT_BYTES - len)
}

/// OMP's physical first line: exactly `SLOT_BYTES` bytes, its line feed included.
pub fn title_slot_line(title: &str, updated_at: &str) -> (r: String)
    requires
        slot_len(Seq::empty(), updated_at@) <= SLOT_BYTES,
    ensures
        r@ == records::line_of(full_slot(title@, updated_at@)),
        text::blen(r@) == SLOT_BYTES,
{
    let rec = title_slot(title, updated_at);
    let mut line = rec.print();
    line.push('\n');
    proof {
        lemma_slot_width(title@, updated_at@);
    }
    line
}

} // verus!
