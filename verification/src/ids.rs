//! Session and record ids.

use crate::model;
use crate::text;
use vstd::prelude::*;

verus! {

/// The variant digit of a version 4 UUID, from the low bits of a byte.
pub open spec fn variant(b: u8) -> char {
    if b & 3 == 0 {
        '8'
    } else if b & 3 == 1 {
        '9'
    } else if b & 3 == 2 {
        'a'
    } else {
        'b'
    }
}

/// The character of a dashed UUID that comes from position `i` of `h`.
pub open spec fn v4_char(h: Seq<char>, i: int) -> char {
    if i == 12 {
        '4'
    } else if i == 16 {
        variant(vstd::utf8::encode_utf8(h)[16])
    } else {
        h[i]
    }
}

/// The dashed UUID for the first `n` characters of `h`.
pub open spec fn v4_upto(h: Seq<char>, n: int) -> Seq<char>
    decreases n,
{
    if n <= 0 {
        Seq::empty()
    } else {
        let before = v4_upto(h, n - 1);
        let i = n - 1;
        if i == 8 || i == 12 || i == 16 || i == 20 {
            before.push('-').push(v4_char(h, i))
        } else {
            before.push(v4_char(h, i))
        }
    }
}

/// `h` as a dashed version 4 UUID.
pub open spec fn v4(h: Seq<char>) -> Seq<char> {
    v4_upto(h, h.len() as int)
}

/// Dashed UUID v4 from a 32-hex id.
pub fn uuid_v4_from_hex(h: &str) -> (r: String)
    ensures
        r@ == v4(h@),
{
    let chars = text::chars_of(h);
    let bytes = h.as_bytes();
    proof {
        text::lemma_blen_lower(h@);
    }
    let mut r = String::new();
    let mut i: usize = 0;
    while i < chars.len()
        invariant
            chars@ == h@,
            bytes@ == vstd::utf8::encode_utf8(h@),
            chars@.len() <= bytes@.len(),
            i <= chars@.len(),
            r@ == v4_upto(h@, i as int),
        decreases chars@.len() - i,
    {
        if i == 8 || i == 12 || i == 16 || i == 20 {
            r.push('-');
        }
        let c = if i == 12 {
            '4'
        } else if i == 16 {
            let low: u8 = bytes[16] & 3;
            if low == 0 {
                '8'
            } else if low == 1 {
                '9'
            } else if low == 2 {
                'a'
            } else {
                'b'
            }
        } else {
            chars[i]
        };
        r.push(c);
        i = i + 1;
    }
    r
}

/// A dash at its four places, version and variant digits at theirs, hexadecimal digits elsewhere.
pub open spec fn is_v4(s: Seq<char>) -> bool {
    &&& s.len() == 36
    &&& forall|i: int|
        0 <= i < 36 ==> if i == 8 || i == 13 || i == 18 || i == 23 {
            #[trigger] s[i] == '-'
        } else {
            model::is_hex(s[i])
        }
    &&& s[14] == '4'
    &&& (s[19] == '8' || s[19] == '9' || s[19] == 'a' || s[19] == 'b')
}

/// Where the character from position `i` stands among the dashes.
spec fn v4_place(i: int) -> int {
    if i < 8 {
        i
    } else if i < 12 {
        i + 1
    } else if i < 16 {
        i + 2
    } else if i < 20 {
        i + 3
    } else {
        i + 4
    }
}

proof fn lemma_v4_upto(h: Seq<char>, n: int)
    requires
        0 <= n <= h.len(),
    ensures
        v4_upto(h, n).len() == if n == 0 {
            0
        } else {
            v4_place(n - 1) + 1
        },
        forall|i: int| 0 <= i < n ==> v4_upto(h, n)[#[trigger] v4_place(i)] == v4_char(h, i),
        n > 8 ==> v4_upto(h, n)[8] == '-',
        n > 12 ==> v4_upto(h, n)[13] == '-',
        n > 16 ==> v4_upto(h, n)[18] == '-',
        n > 20 ==> v4_upto(h, n)[23] == '-',
    decreases n,
{
    if n > 0 {
        lemma_v4_upto(h, n - 1);
    }
}

/// Every digit but those of the version and the variant is kept.
pub(crate) proof fn lemma_v4_kept(h: Seq<char>, i: int)
    requires
        h.len() == 32,
        0 <= i < 32,
    ensures
        v4(h).len() == 36,
        i != 12 && i != 16 ==> v4(h)[if i < 8 {
            i
        } else if i < 12 {
            i + 1
        } else if i < 16 {
            i + 2
        } else if i < 20 {
            i + 3
        } else {
            i + 4
        }] == h[i],
{
    lemma_v4_upto(h, 32);
    assert(v4(h)[v4_place(i)] == v4_char(h, i));
}

/// Thirty-two hexadecimal digits make a well-formed version 4 UUID.
pub proof fn lemma_v4_shape(h: Seq<char>)
    requires
        h.len() == 32,
        forall|i: int| 0 <= i < 32 ==> model::is_hex(#[trigger] h[i]),
    ensures
        is_v4(v4(h)),
{
    lemma_v4_upto(h, 32);
    let s = v4(h);
    assert(s[v4_place(12)] == '4');
    assert(s[v4_place(16)] == v4_char(h, 16));
    assert forall|j: int|
        0 <= j < 36 && j != 8 && j != 13 && j != 18 && j != 23 implies model::is_hex(
        #[trigger] s[j],
    ) by {
        let i = if j < 8 {
            j
        } else if j < 13 {
            j - 1
        } else if j < 18 {
            j - 2
        } else if j < 23 {
            j - 3
        } else {
            j - 4
        };
        assert(v4_place(i) == j);
        assert(model::is_hex(h[i]));
    }
}

/// Dashed UUID v4 — the id format of Factory, CL and Codex sessions.
pub fn uuid_v4(bytes: &[u8; 16]) -> (r: String)
    ensures
        r@ == v4(model::hex_of(bytes@)),
        is_v4(r@),
{
    let h = model::uuid(bytes);
    proof {
        lemma_v4_shape(h@);
    }
    uuid_v4_from_hex(h.as_str())
}

/// The first eight characters.
pub open spec fn short(h: Seq<char>) -> Seq<char> {
    if h.len() < 8 {
        h
    } else {
        h.take(8)
    }
}

/// 8-char hex like Pi's entry ids.
pub fn short_hex(bytes: &[u8; 16]) -> (r: String)
    ensures
        r@ == short(model::hex_of(bytes@)),
        r@.len() == 8,
        forall|i: int| 0 <= i < 8 ==> model::is_hex(#[trigger] r@[i]),
{
    let h = model::uuid(bytes);
    let v = text::chars_of(h.as_str());
    proof {
        assert(v@.subrange(0, 8) =~= v@.take(8));
    }
    text::slice(&v, 0, 8)
}

} // verus!
