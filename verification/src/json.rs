//! The JSON text of an audit entry's hashed fields.

use vstd::prelude::*;
use vstd::string::*;
use crate::digest::nibble_char;
use crate::text::dec;
use crate::text::lemma_dec_prefix;

verus! {

/// One character inside a JSON string: quotes, backslashes and control
/// characters are escaped, everything else stands for itself.
pub open spec fn json_char(c: char) -> Seq<char> {
    if c == '"' {
        seq!['\\', '"']
    } else if c == '\\' {
        seq!['\\', '\\']
    } else if c as u32 == 8 {
        seq!['\\', 'b']
    } else if c as u32 == 9 {
        seq!['\\', 't']
    } else if c as u32 == 10 {
        seq!['\\', 'n']
    } else if c as u32 == 12 {
        seq!['\\', 'f']
    } else if c as u32 == 13 {
        seq!['\\', 'r']
    } else if (c as u32) < 32 {
        seq![
            '\\',
            'u',
            '0',
            '0',
            nibble_char(c as u32 as int / 16),
            nibble_char(c as u32 as int % 16),
        ]
    } else {
        seq![c]
    }
}

/// The inside of a JSON string.
pub open spec fn json_chars(s: Seq<char>) -> Seq<char>
    decreases s.len(),
{
    if s.len() == 0 {
        s
    } else {
        json_char(s[0]) + json_chars(s.drop_first())
    }
}

/// A JSON string.
pub open spec fn json_string(s: Seq<char>) -> Seq<char> {
    seq!['"'] + json_chars(s) + seq!['"']
}

/// A JSON array of two numbers and three strings.
#[verifier::opaque]
pub open spec fn json_tuple(a: nat, b: nat, s: Seq<char>, t: Seq<char>, u: Seq<char>) -> Seq<char> {
    let c = seq![','];
    let x5 = json_string(u) + seq![']'];
    let x4 = json_string(t) + (c + x5);
    let x3 = json_string(s) + (c + x4);
    let x2 = dec(b) + (c + x3);
    seq!['['] + (dec(a) + (c + x2))
}

/// An escaped character can be read off the front of a text in one way only.
proof fn lemma_json_char_prefix(c: char, d: char, s: Seq<char>, t: Seq<char>)
    requires
        json_char(c) + s == json_char(d) + t,
    ensures
        c == d,
        s == t,
{
    let x = json_char(c) + s;
    let y = json_char(d) + t;
    assert(x[0] == json_char(c)[0]);
    assert(y[0] == json_char(d)[0]);
    if json_char(c).len() > 1 {
        assert(x[1] == json_char(c)[1]);
    }
    if json_char(d).len() > 1 {
        assert(y[1] == json_char(d)[1]);
    }
    if json_char(c).len() == 6 {
        assert(x[4] == json_char(c)[4]);
        assert(x[5] == json_char(c)[5]);
    }
    if json_char(d).len() == 6 {
        assert(y[4] == json_char(d)[4]);
        assert(y[5] == json_char(d)[5]);
    }
    assert(json_char(c).len() == json_char(d).len());
    if json_char(c).len() == 6 {
        let m = c as u32 as int;
        let n = d as u32 as int;
        assert(0 <= m / 16 < 2 && 0 <= m % 16 < 16);
        assert(0 <= n / 16 < 2 && 0 <= n % 16 < 16);
        assert(nibble_char(m / 16) == nibble_char(n / 16));
        assert(nibble_char(m % 16) == nibble_char(n % 16));
        assert(m / 16 == n / 16);
        assert(m % 16 == n % 16);
        assert(m == n);
    }
    assert(c == d) by {
        vstd::utf8::char_u32_cast(c, c as u32);
        vstd::utf8::char_u32_cast(d, d as u32);
    }
    let k = json_char(c).len() as int;
    assert(s =~= x.skip(k));
    assert(t =~= y.skip(k));
}

/// The inside of a JSON string can be read off the front of a text in one way
/// only: it ends at the first quote that is not escaped.
proof fn lemma_json_chars_prefix(a: Seq<char>, b: Seq<char>, s: Seq<char>, t: Seq<char>)
    requires
        json_chars(a) + (seq!['"'] + s) == json_chars(b) + (seq!['"'] + t),
    ensures
        a == b,
        s == t,
    decreases a.len(),
{
    let q = seq!['"'];
    let x = json_chars(a) + (q + s);
    let y = json_chars(b) + (q + t);
    if a.len() == 0 {
        assert(x[0] == '"');
        if b.len() > 0 {
            assert(y[0] == json_char(b[0])[0]);
            assert(false);
        }
        assert(a =~= b);
        assert(s =~= x.skip(1));
        assert(t =~= y.skip(1));
    } else if b.len() == 0 {
        assert(y[0] == '"');
        assert(x[0] == json_char(a[0])[0]);
        assert(false);
    } else {
        let ra = a.drop_first();
        let rb = b.drop_first();
        assert(x =~= json_char(a[0]) + (json_chars(ra) + (q + s)));
        assert(y =~= json_char(b[0]) + (json_chars(rb) + (q + t)));
        lemma_json_char_prefix(
            a[0],
            b[0],
            json_chars(ra) + (q + s),
            json_chars(rb) + (q + t),
        );
        lemma_json_chars_prefix(ra, rb, s, t);
        assert(a =~= seq![a[0]] + ra);
        assert(b =~= seq![b[0]] + rb);
    }
}

/// A JSON string can be read off the front of a text in one way only.
proof fn lemma_json_string_prefix(a: Seq<char>, b: Seq<char>, s: Seq<char>, t: Seq<char>)
    requires
        json_string(a) + s == json_string(b) + t,
    ensures
        a == b,
        s == t,
{
    let q = seq!['"'];
    let x = json_chars(a) + (q + s);
    let y = json_chars(b) + (q + t);
    assert(json_string(a) + s =~= q + x);
    assert(json_string(b) + t =~= q + y);
    assert(x =~= (q + x).skip(1));
    assert(y =~= (q + y).skip(1));
    lemma_json_chars_prefix(a, b, s, t);
}

proof fn lemma_drop_char(c: char, s: Seq<char>, t: Seq<char>)
    requires
        seq![c] + s == seq![c] + t,
    ensures
        s == t,
{
    assert(s =~= (seq![c] + s).skip(1));
    assert(t =~= (seq![c] + t).skip(1));
}

/// Different fields never share a text: no delimiter inside a field can make
/// two tuples look alike.
pub proof fn json_tuple_injective(
    a: nat,
    b: nat,
    s: Seq<char>,
    t: Seq<char>,
    u: Seq<char>,
    a2: nat,
    b2: nat,
    s2: Seq<char>,
    t2: Seq<char>,
    u2: Seq<char>,
)
    requires
        json_tuple(a, b, s, t, u) == json_tuple(a2, b2, s2, t2, u2),
    ensures
        a == a2 && b == b2 && s == s2 && t == t2 && u == u2,
{
    reveal(json_tuple);
    let z = seq![']'];
    let c = seq![','];
    let x5 = json_string(u) + z;
    let y5 = json_string(u2) + z;
    let x4 = json_string(t) + (c + x5);
    let y4 = json_string(t2) + (c + y5);
    let x3 = json_string(s) + (c + x4);
    let y3 = json_string(s2) + (c + y4);
    let x2 = dec(b) + (c + x3);
    let y2 = dec(b2) + (c + y3);
    lemma_drop_char('[', dec(a) + (c + x2), dec(a2) + (c + y2));
    lemma_dec_prefix(a, a2, c + x2, c + y2);
    lemma_drop_char(',', x2, y2);
    lemma_dec_prefix(b, b2, c + x3, c + y3);
    lemma_drop_char(',', x3, y3);
    lemma_json_string_prefix(s, s2, c + x4, c + y4);
    lemma_drop_char(',', x4, y4);
    lemma_json_string_prefix(t, t2, c + x5, c + y5);
    lemma_drop_char(',', x5, y5);
    lemma_json_string_prefix(u, u2, z, z);
}

/// `serde_json::to_string` on a tuple of two integers and three strings: a
/// compact JSON array. It writes into memory and these types always
/// serialise, so it does not fail.
#[verifier::external_body]
pub(crate) fn tuple_to_json(a: u64, b: u64, s: &str, t: &str, u: &str) -> (r: Option<String>)
    ensures
        r is Some,
        r->0@ == json_tuple(a as nat, b as nat, s@, t@, u@),
{
    serde_json::to_string(&(a, b, s, t, u)).ok()
}

} // verus!
