//! Text as sequences of characters: comparison, search, splitting,
//! trimming and decimal numbers.

use vstd::prelude::*;
use vstd::string::*;
use vstd::utf8::*;

verus! {

/// `String::push` appends one character at the end of the text.
pub assume_specification[ String::push ](s: &mut String, c: char)
    ensures
        final(s)@ == old(s)@.push(c),
;

/// The characters of a list of texts.
pub open spec fn strs(v: Seq<String>) -> Seq<Seq<char>> {
    v.map_values(|s: String| s@)
}

/// The characters of a list of character lists.
pub open spec fn texts(v: Seq<Vec<char>>) -> Seq<Seq<char>> {
    v.map_values(|s: Vec<char>| s@)
}

/// A list holds what it held before and what joined it.
pub proof fn lemma_push_has<A>(s: Seq<A>, x: A, y: A)
    ensures
        s.push(x).contains(y) <==> s.contains(y) || x == y,
{
    let t = s.push(x);
    if s.contains(y) {
        let i = choose|i: int| 0 <= i < s.len() && s[i] == y;
        assert(t[i] == y);
    }
    assert(t[s.len() as int] == x);
    if t.contains(y) {
        let i = choose|i: int| 0 <= i < t.len() && t[i] == y;
        if i < s.len() {
            assert(s[i] == y);
        }
    }
}

/// Two lists together hold what each of them holds.
pub proof fn lemma_plus_has<A>(s: Seq<A>, t: Seq<A>, y: A)
    ensures
        (s + t).contains(y) <==> s.contains(y) || t.contains(y),
{
    let u = s + t;
    if s.contains(y) {
        let i = choose|i: int| 0 <= i < s.len() && s[i] == y;
        assert(u[i] == y);
    }
    if t.contains(y) {
        let i = choose|i: int| 0 <= i < t.len() && t[i] == y;
        assert(u[s.len() + i] == y);
    }
    if u.contains(y) {
        let i = choose|i: int| 0 <= i < u.len() && u[i] == y;
        if i < s.len() {
            assert(s[i] == y);
        } else {
            assert(t[i - s.len()] == y);
        }
    }
}

/// The characters of a list grow by those of the text that joins it.
pub proof fn lemma_strs_push(v: Seq<String>, x: String)
    ensures
        strs(v.push(x)) == strs(v).push(x@),
{
    assert(strs(v.push(x)) =~= strs(v).push(x@));
}

/// Equal UTF-8 encodings belong to equal texts.
pub proof fn lemma_encoding_injective(a: Seq<char>, b: Seq<char>)
    requires
        encode_utf8(a) == encode_utf8(b),
    ensures
        a == b,
{
    encode_utf8_decode_utf8(a);
    encode_utf8_decode_utf8(b);
}

/// The characters of `s`, in order.
pub fn chars_of(s: &str) -> (r: Vec<char>)
    ensures
        r@ == s@,
{
    broadcast use axiom_spec_iter;
    let mut out: Vec<char> = Vec::new();
    for c in it: s.chars()
        invariant
            it.seq() == s@,
            out@ == s@.take(it.index() as int),
    {
        out.push(c);
        assert(out@ =~= s@.take(it.index() as int + 1));
    }
    assert(out@ =~= s@);
    out
}

/// The text made of the characters `v[from..to]`.
pub fn text_between(v: &Vec<char>, from: usize, to: usize) -> (r: String)
    requires
        from <= to <= v@.len(),
    ensures
        r@ == v@.subrange(from as int, to as int),
{
    let mut out: String = String::new();
    let mut i: usize = from;
    while i < to
        invariant
            from <= i <= to <= v@.len(),
            out@ == v@.subrange(from as int, i as int),
        decreases to - i,
    {
        out.push(v[i]);
        i = i + 1;
        assert(out@ =~= v@.subrange(from as int, i as int));
    }
    out
}

/// The text made of the characters `v`.
pub fn text_of(v: &Vec<char>) -> (r: String)
    ensures
        r@ == v@,
{
    let r = text_between(v, 0, v.len());
    assert(r@ =~= v@);
    r
}

/// Whether two byte strings are equal.
pub fn bytes_eq(a: &[u8], b: &[u8]) -> (r: bool)
    ensures
        r == (a@ == b@),
{
    if a.len() != b.len() {
        return false;
    }
    let mut i: usize = 0;
    while i < a.len()
        invariant
            i <= a@.len(),
            a@.len() == b@.len(),
            a@.take(i as int) == b@.take(i as int),
        decreases a@.len() - i,
    {
        if a[i] != b[i] {
            assert(a@[i as int] != b@[i as int]);
            return false;
        }
        i = i + 1;
        assert(a@.take(i as int) =~= b@.take(i as int));
    }
    assert(a@ =~= a@.take(i as int));
    assert(b@ =~= b@.take(i as int));
    true
}

/// Whether two lists of characters are equal.
pub fn chars_eq(a: &Vec<char>, b: &Vec<char>) -> (r: bool)
    ensures
        r == (a@ == b@),
{
    if a.len() != b.len() {
        return false;
    }
    let r = chars_at(a, b, 0);
    assert(a@.subrange(0, b@.len() as int) =~= a@);
    r
}

/// Whether two texts are equal.
pub fn text_eq(a: &str, b: &str) -> (r: bool)
    ensures
        r == (a@ == b@),
{
    let r = bytes_eq(a.as_bytes(), b.as_bytes());
    proof {
        if r {
            lemma_encoding_injective(a@, b@);
        }
    }
    r
}

/// Decimal digit `d`.
pub open spec fn digit(d: int) -> char {
    (48 + d) as u8 as char
}

/// `n` in decimal, without leading zeros.
pub open spec fn dec(n: nat) -> Seq<char>
    decreases n,
{
    if n < 10 {
        seq![digit(n as int)]
    } else {
        dec(n / 10).push(digit((n % 10) as int))
    }
}

/// Whether `c` is a decimal digit.
pub open spec fn is_digit(c: char) -> bool {
    48 <= c as u32 <= 57
}

/// A decimal number is one or more digits.
pub proof fn lemma_dec_digits(n: nat)
    ensures
        dec(n).len() >= 1,
        forall|i: int| 0 <= i < dec(n).len() ==> is_digit(#[trigger] dec(n)[i]),
    decreases n,
{
    if n >= 10 {
        lemma_dec_digits(n / 10);
    }
}

/// Different numbers have different decimal forms.
pub proof fn lemma_dec_injective(a: nat, b: nat)
    requires
        dec(a) == dec(b),
    ensures
        a == b,
    decreases a,
{
    lemma_dec_digits(a / 10);
    lemma_dec_digits(b / 10);
    assert(dec(a).last() == digit((a % 10) as int));
    assert(dec(b).last() == digit((b % 10) as int));
    assert(a % 10 == b % 10);
    if a < 10 {
        assert(dec(b).len() == 1);
    } else if b < 10 {
        assert(dec(a).len() == 1);
    } else {
        assert(dec(a).drop_last() =~= dec(a / 10));
        assert(dec(b).drop_last() =~= dec(b / 10));
        lemma_dec_injective(a / 10, b / 10);
    }
}

/// A number that ends where something other than a digit follows can be read
/// off the front of a text in one way only.
pub proof fn lemma_dec_prefix(a: nat, b: nat, s: Seq<char>, t: Seq<char>)
    requires
        dec(a) + s == dec(b) + t,
        s.len() > 0,
        t.len() > 0,
        !is_digit(s[0]),
        !is_digit(t[0]),
    ensures
        a == b,
        s == t,
{
    lemma_dec_digits(a);
    lemma_dec_digits(b);
    let x = dec(a) + s;
    let y = dec(b) + t;
    let m = dec(a).len() as int;
    let n = dec(b).len() as int;
    if m < n {
        assert(x[m] == s[0]);
        assert(y[m] == dec(b)[m]);
    } else if n < m {
        assert(y[n] == t[0]);
        assert(x[n] == dec(a)[n]);
    }
    assert(dec(a) =~= x.take(m));
    assert(dec(b) =~= y.take(n));
    assert(s =~= x.skip(m));
    assert(t =~= y.skip(n));
    lemma_dec_injective(a, b);
}

/// Appends `n` in decimal to `s`.
pub fn push_dec(s: &mut String, n: u64)
    ensures
        final(s)@ == old(s)@ + dec(n as nat),
{
    push_dec_wide(s, n as u128);
}

/// Appends `n` in decimal to `s`.
pub fn push_dec_wide(s: &mut String, n: u128)
    ensures
        final(s)@ == old(s)@ + dec(n as nat),
    decreases n,
{
    if n < 10 {
        s.push((48u8 + n as u8) as char);
        assert(s@ =~= old(s)@ + dec(n as nat));
    } else {
        push_dec_wide(s, n / 10);
        s.push((48u8 + (n % 10) as u8) as char);
        assert(s@ =~= old(s)@ + dec(n as nat));
    }
}

/// `s` cut at every `sep`: the pieces between separators, in order.
pub open spec fn split(s: Seq<char>, sep: char) -> Seq<Seq<char>>
    decreases s.len(),
{
    if s.len() == 0 {
        seq![Seq::<char>::empty()]
    } else {
        let head = split(s.drop_last(), sep);
        if s.last() == sep {
            head.push(Seq::<char>::empty())
        } else {
            head.drop_last().push(head.last().push(s.last()))
        }
    }
}

/// Cuts `s` at every `sep`.
pub fn split_chars(s: &Vec<char>, sep: char) -> (r: Vec<Vec<char>>)
    ensures
        texts(r@) == split(s@, sep),
        r@.len() >= 1,
{
    let mut done: Vec<Vec<char>> = Vec::new();
    let mut cur: Vec<char> = Vec::new();
    let mut i: usize = 0;
    assert(split(s@.take(0), sep) =~= texts(done@).push(cur@));
    while i < s.len()
        invariant
            i <= s@.len(),
            split(s@.take(i as int), sep) == texts(done@).push(cur@),
        decreases s@.len() - i,
    {
        let c = s[i];
        let ghost before = texts(done@).push(cur@);
        assert(s@.take(i as int + 1).drop_last() =~= s@.take(i as int));
        assert(before.drop_last() =~= texts(done@));
        assert(before.last() == cur@);
        if c == sep {
            let ghost old_cur = cur@;
            let ghost old_done = done@;
            done.push(cur);
            cur = Vec::new();
            assert(texts(done@) =~= texts(old_done).push(old_cur));
            assert(cur@ =~= Seq::<char>::empty());
        } else {
            cur.push(c);
        }
        i = i + 1;
        assert(split(s@.take(i as int), sep) =~= texts(done@).push(cur@));
    }
    assert(s@.take(i as int) =~= s@);
    let ghost old_cur = cur@;
    let ghost old_done = done@;
    done.push(cur);
    assert(texts(done@) =~= texts(old_done).push(old_cur));
    done
}

/// Characters with the Unicode property White_Space.
pub open spec fn is_white(c: char) -> bool {
    let n = c as u32;
    ||| 0x09 <= n <= 0x0d
    ||| n == 0x20
    ||| n == 0x85
    ||| n == 0xa0
    ||| n == 0x1680
    ||| 0x2000 <= n <= 0x200a
    ||| n == 0x2028
    ||| n == 0x2029
    ||| n == 0x202f
    ||| n == 0x205f
    ||| n == 0x3000
}

/// Whether `c` is whitespace.
pub fn white(c: char) -> (r: bool)
    ensures
        r == is_white(c),
{
    let n: u32 = c as u32;
    (0x09 <= n && n <= 0x0d) || n == 0x20 || n == 0x85 || n == 0xa0 || n == 0x1680 || (0x2000 <= n
        && n <= 0x200a) || n == 0x2028 || n == 0x2029 || n == 0x202f || n == 0x205f || n == 0x3000
}

/// `s` without leading whitespace.
pub open spec fn trim_start(s: Seq<char>) -> Seq<char>
    decreases s.len(),
{
    if s.len() > 0 && is_white(s[0]) {
        trim_start(s.drop_first())
    } else {
        s
    }
}

/// `s` without trailing whitespace.
pub open spec fn trim_end(s: Seq<char>) -> Seq<char>
    decreases s.len(),
{
    if s.len() > 0 && is_white(s.last()) {
        trim_end(s.drop_last())
    } else {
        s
    }
}

/// `s` without leading and trailing whitespace.
pub open spec fn trim(s: Seq<char>) -> Seq<char> {
    trim_end(trim_start(s))
}

/// Drops leading and trailing whitespace.
pub fn trim_chars(s: &Vec<char>) -> (r: Vec<char>)
    ensures
        r@ == trim(s@),
{
    let mut from: usize = 0;
    assert(s@.subrange(0, s@.len() as int) =~= s@);
    while from < s.len() && white(s[from])
        invariant
            from <= s@.len(),
            trim_start(s@) == trim_start(s@.subrange(from as int, s@.len() as int)),
        decreases s@.len() - from,
    {
        assert(s@.subrange(from as int, s@.len() as int).drop_first() =~= s@.subrange(
            from as int + 1,
            s@.len() as int,
        ));
        from = from + 1;
    }
    let mut to: usize = s.len();
    let ghost rest = s@.subrange(from as int, s@.len() as int);
    while to > from && white(s[to - 1])
        invariant
            from <= to <= s@.len(),
            trim_end(rest) == trim_end(s@.subrange(from as int, to as int)),
        decreases to,
    {
        assert(s@.subrange(from as int, to as int).drop_last() =~= s@.subrange(
            from as int,
            to as int - 1,
        ));
        to = to - 1;
    }
    copy_between(s, from, to)
}

/// The characters `v[from..to]`.
pub fn copy_between(v: &Vec<char>, from: usize, to: usize) -> (r: Vec<char>)
    requires
        from <= to <= v@.len(),
    ensures
        r@ == v@.subrange(from as int, to as int),
{
    let mut out: Vec<char> = Vec::new();
    let mut i: usize = from;
    while i < to
        invariant
            from <= i <= to <= v@.len(),
            out@ == v@.subrange(from as int, i as int),
        decreases to - i,
    {
        out.push(v[i]);
        i = i + 1;
        assert(out@ =~= v@.subrange(from as int, i as int));
    }
    out
}

/// `s` without leading and trailing whitespace.
pub fn trimmed(s: &str) -> (r: String)
    ensures
        r@ == trim(s@),
{
    let v = chars_of(s);
    let t = trim_chars(&v);
    text_of(&t)
}

/// Whether `p` stands in `s` at position `at`.
pub open spec fn stands_at(s: Seq<char>, p: Seq<char>, at: int) -> bool {
    0 <= at && at + p.len() <= s.len() && s.subrange(at, at + p.len()) == p
}

/// Whether `p` occurs somewhere in `s`.
pub open spec fn occurs(s: Seq<char>, p: Seq<char>) -> bool {
    exists|at: int| #[trigger] stands_at(s, p, at)
}

/// Whether `p` stands in `s` at position `at`.
pub fn chars_at(s: &Vec<char>, p: &Vec<char>, at: usize) -> (r: bool)
    ensures
        r == stands_at(s@, p@, at as int),
{
    let n: usize = s.len();
    if at > n || p.len() > n - at {
        return false;
    }
    let mut i: usize = 0;
    while i < p.len()
        invariant
            i <= p@.len(),
            at + p@.len() <= s@.len(),
            n == s@.len(),
            forall|k: int| 0 <= k < i ==> s@[at + k] == #[trigger] p@[k],
        decreases p@.len() - i,
    {
        if s[at + i] != p[i] {
            assert(s@.subrange(at as int, at + p@.len())[i as int] != p@[i as int]);
            return false;
        }
        i = i + 1;
    }
    assert(s@.subrange(at as int, at + p@.len()) =~= p@);
    true
}

/// Whether `s` begins with `p`.
pub fn begins_with(s: &Vec<char>, p: &Vec<char>) -> (r: bool)
    ensures
        r == p@.is_prefix_of(s@),
{
    chars_at(s, p, 0)
}

/// Whether `p` occurs in `s`.
pub fn chars_contain(s: &Vec<char>, p: &Vec<char>) -> (r: bool)
    ensures
        r == occurs(s@, p@),
{
    if p.len() > s.len() {
        return false;
    }
    let last: usize = s.len() - p.len();
    let mut at: usize = 0;
    while at < last && !chars_at(s, p, at)
        invariant
            at <= last,
            last == s@.len() - p@.len(),
            forall|k: int| 0 <= k < at ==> !#[trigger] stands_at(s@, p@, k),
        decreases last - at,
    {
        at = at + 1;
    }
    chars_at(s, p, at)
}

/// Whether `c` occurs in `s`.
pub fn has_char(s: &Vec<char>, c: char) -> (r: bool)
    ensures
        r == s@.contains(c),
{
    let mut i: usize = 0;
    while i < s.len()
        invariant
            i <= s@.len(),
            forall|k: int| 0 <= k < i ==> s@[k] != c,
        decreases s@.len() - i,
    {
        if s[i] == c {
            return true;
        }
        i = i + 1;
    }
    false
}

/// Every `from` in `s` replaced by `to`.
pub open spec fn replace(s: Seq<char>, from: char, to: Seq<char>) -> Seq<char>
    decreases s.len(),
{
    if s.len() == 0 {
        s
    } else if s.last() == from {
        replace(s.drop_last(), from, to) + to
    } else {
        replace(s.drop_last(), from, to).push(s.last())
    }
}

/// Replaces every `from` in `s` by `to`.
pub fn replaced(s: &str, from: char, to: &str) -> (r: String)
    ensures
        r@ == replace(s@, from, to@),
{
    let v = chars_of(s);
    let mut out: String = String::new();
    let mut i: usize = 0;
    while i < v.len()
        invariant
            i <= v@.len(),
            out@ == replace(v@.take(i as int), from, to@),
        decreases v@.len() - i,
    {
        assert(v@.take(i as int + 1).drop_last() =~= v@.take(i as int));
        if v[i] == from {
            out.append(to);
        } else {
            out.push(v[i]);
        }
        i = i + 1;
    }
    assert(v@.take(i as int) =~= v@);
    out
}

/// A copy of a list of texts.
pub fn clone_strs(v: &Vec<String>) -> (r: Vec<String>)
    ensures
        strs(r@) == strs(v@),
{
    let mut out: Vec<String> = Vec::new();
    let mut i: usize = 0;
    while i < v.len()
        invariant
            i <= v@.len(),
            strs(out@) == strs(v@.take(i as int)),
        decreases v@.len() - i,
    {
        let c = v[i].clone();
        proof {
            lemma_strs_push(out@, c);
            lemma_strs_push(v@.take(i as int), v@[i as int]);
            assert(v@.take(i as int + 1) =~= v@.take(i as int).push(v@[i as int]));
        }
        out.push(c);
        i = i + 1;
    }
    assert(v@.take(i as int) =~= v@);
    out
}

/// Texts one behind the other, with `sep` between them.
pub open spec fn joined(v: Seq<Seq<char>>, sep: Seq<char>) -> Seq<char>
    decreases v.len(),
{
    if v.len() == 0 {
        Seq::empty()
    } else if v.len() == 1 {
        v[0]
    } else {
        joined(v.drop_last(), sep) + sep + v.last()
    }
}

/// Joins texts with `sep` between them.
pub fn join_texts(v: &Vec<String>, sep: &str) -> (r: String)
    ensures
        r@ == joined(strs(v@), sep@),
{
    let mut out: String = String::new();
    let ghost all = strs(v@);
    let mut i: usize = 0;
    assert(all.take(0) =~= Seq::empty());
    while i < v.len()
        invariant
            i <= v@.len(),
            all == strs(v@),
            out@ == joined(all.take(i as int), sep@),
        decreases v@.len() - i,
    {
        assert(all.take(i + 1).drop_last() =~= all.take(i as int));
        if i > 0 {
            out.append(sep);
        }
        out.append(v[i].as_str());
        i = i + 1;
        assert(out@ =~= joined(all.take(i as int), sep@));
    }
    assert(all.take(i as int) =~= all);
    out
}

/// `s` cut at the first occurrence of `p`: what comes before it and what comes
/// behind it.
pub open spec fn split_once(s: Seq<char>, p: Seq<char>) -> Option<(Seq<char>, Seq<char>)>
    decreases s.len(),
{
    if stands_at(s, p, 0) {
        Some((Seq::empty(), s.skip(p.len() as int)))
    } else if s.len() == 0 {
        None
    } else {
        match split_once(s.drop_first(), p) {
            Some(c) => Some((seq![s[0]] + c.0, c.1)),
            None => None,
        }
    }
}

proof fn lemma_stands_shift(s: Seq<char>, p: Seq<char>, k: int)
    requires
        s.len() > 0,
        k >= 1,
    ensures
        stands_at(s, p, k) <==> stands_at(s.drop_first(), p, k - 1),
{
    if k + p.len() <= s.len() {
        assert(s.subrange(k, k + p.len()) =~= s.drop_first().subrange(k - 1, k - 1 + p.len()));
    }
}

proof fn lemma_split_once(s: Seq<char>, p: Seq<char>, at: int)
    requires
        0 <= at,
        forall|k: int| 0 <= k < at ==> !#[trigger] stands_at(s, p, k),
        stands_at(s, p, at),
    ensures
        split_once(s, p) == Some((s.take(at), s.skip(at + p.len()))),
    decreases at,
{
    if at == 0 {
        assert(s.take(0) =~= Seq::empty());
    } else {
        assert(!stands_at(s, p, 0));
        let rest = s.drop_first();
        lemma_stands_shift(s, p, at);
        assert forall|k: int| 0 <= k < at - 1 implies !#[trigger] stands_at(rest, p, k) by {
            lemma_stands_shift(s, p, k + 1);
            assert(!stands_at(s, p, k + 1));
        }
        lemma_split_once(rest, p, at - 1);
        assert(seq![s[0]] + rest.take(at - 1) =~= s.take(at));
        assert(rest.skip(at - 1 + p.len()) =~= s.skip(at + p.len()));
    }
}

proof fn lemma_split_none(s: Seq<char>, p: Seq<char>)
    requires
        !occurs(s, p),
    ensures
        split_once(s, p) is None,
    decreases s.len(),
{
    assert(!stands_at(s, p, 0));
    if s.len() > 0 {
        let rest = s.drop_first();
        assert forall|k: int| !#[trigger] stands_at(rest, p, k) by {
            if k >= 0 {
                lemma_stands_shift(s, p, k + 1);
                assert(!stands_at(s, p, k + 1));
            }
        }
        lemma_split_none(rest, p);
    }
}

/// Cuts `s` at the first occurrence of `p`.
pub fn cut_once(s: &Vec<char>, p: &str) -> (r: Option<(Vec<char>, Vec<char>)>)
    ensures
        match split_once(s@, p@) {
            Some(c) => r is Some && r->Some_0.0@ == c.0 && r->Some_0.1@ == c.1,
            None => r is None,
        },
{
    let pat = chars_of(p);
    let n: usize = s.len();
    let m: usize = pat.len();
    if m > n {
        proof {
            lemma_split_none(s@, p@);
        }
        return None;
    }
    let last: usize = n - m;
    let mut at: usize = 0;
    while at < last && !chars_at(s, &pat, at)
        invariant
            at <= last,
            last == n - m,
            n == s@.len(),
            m == pat@.len(),
            pat@ == p@,
            forall|k: int| 0 <= k < at ==> !#[trigger] stands_at(s@, p@, k),
        decreases last - at,
    {
        at = at + 1;
    }
    if chars_at(s, &pat, at) {
        proof {
            lemma_split_once(s@, p@, at as int);
            assert(s@.take(at as int) =~= s@.subrange(0, at as int));
            assert(s@.skip(at + m) =~= s@.subrange(at + m, n as int));
        }
        return Some((copy_between(s, 0, at), copy_between(s, at + m, n)));
    }
    proof {
        assert forall|k: int| !#[trigger] stands_at(s@, p@, k) by {}
        lemma_split_none(s@, p@);
    }
    None
}

/// The lines of a text: cut at every newline, a carriage return before the
/// newline dropped, and no empty line behind the last newline.
pub open spec fn lines(s: Seq<char>) -> Seq<Seq<char>> {
    let ps = split(s, '\n');
    let n = ps.len() - 1;
    let done = Seq::new(n as nat, |i: int| without_return(ps[i]));
    if ps[n].len() == 0 {
        done
    } else {
        done.push(ps[n])
    }
}

/// A line without the carriage return at its end.
pub open spec fn without_return(s: Seq<char>) -> Seq<char> {
    if s.len() > 0 && s.last() == '\r' {
        s.drop_last()
    } else {
        s
    }
}

/// The lines of a text.
pub fn lines_of(s: &str) -> (r: Vec<Vec<char>>)
    ensures
        texts(r@) == lines(s@),
{
    let v = chars_of(s);
    let ps = split_chars(&v, '\n');
    let ghost all = split(s@, '\n');
    let n: usize = ps.len() - 1;
    let mut out: Vec<Vec<char>> = Vec::new();
    let mut i: usize = 0;
    assert(texts(ps@).len() == ps@.len());
    while i < n
        invariant
            i <= n,
            n == ps@.len() - 1,
            all == texts(ps@),
            texts(out@) == Seq::new(i as nat, |k: int| without_return(all[k])),
        decreases n - i,
    {
        let ghost before = texts(out@);
        let p = &ps[i];
        assert(all[i as int] == p@);
        let line = if p.len() > 0 && p[p.len() - 1] == '\r' {
            copy_between(p, 0, p.len() - 1)
        } else {
            copy_between(p, 0, p.len())
        };
        assert(line@ =~= without_return(all[i as int]));
        out.push(line);
        i = i + 1;
        assert(texts(out@) =~= before.push(line@));
        assert(texts(out@) =~= Seq::new(i as nat, |k: int| without_return(all[k])));
    }
    assert(all[n as int] == ps@[n as int]@);
    if ps[n].len() > 0 {
        let ghost before = texts(out@);
        let last = copy_between(&ps[n], 0, ps[n].len());
        assert(last@ =~= all[n as int]);
        out.push(last);
        assert(texts(out@) =~= before.push(last@));
    }
    assert(texts(out@) =~= lines(s@));
    out
}

/// The words of a text: the pieces between whitespace that are not empty.
pub open spec fn words(s: Seq<char>) -> Seq<Seq<char>>
    decreases s.len(),
{
    if s.len() == 0 {
        Seq::empty()
    } else {
        let head = words(s.drop_last());
        if is_white(s.last()) {
            head
        } else if s.len() == 1 || is_white(s[s.len() - 2]) {
            head.push(seq![s.last()])
        } else {
            head.drop_last().push(head.last().push(s.last()))
        }
    }
}

proof fn lemma_words_open(s: Seq<char>)
    requires
        s.len() > 0,
        !is_white(s.last()),
    ensures
        words(s).len() > 0,
    decreases s.len(),
{
    if s.len() > 1 && !is_white(s[s.len() - 2]) {
        lemma_words_open(s.drop_last());
    }
}

/// The words of a text.
pub fn words_of(s: &str) -> (r: Vec<Vec<char>>)
    ensures
        texts(r@) == words(s@),
{
    let v = chars_of(s);
    let mut out: Vec<Vec<char>> = Vec::new();
    let mut i: usize = 0;
    let mut inside: bool = false;
    assert(texts(out@) =~= Seq::empty());
    assert(v@.take(0) =~= Seq::empty());
    while i < v.len()
        invariant
            i <= v@.len(),
            v@ == s@,
            texts(out@) == words(v@.take(i as int)),
            inside == (i > 0 && !is_white(v@[i - 1])),
        decreases v@.len() - i,
    {
        let ghost now = v@.take(i + 1);
        proof {
            assert(now.drop_last() =~= v@.take(i as int));
            assert(now.last() == v@[i as int]);
            if i > 0 {
                assert(now[now.len() - 2] == v@[i - 1]);
                assert(v@.take(i as int).last() == v@[i - 1]);
            }
        }
        let c = v[i];
        if white(c) {
            inside = false;
        } else if inside {
            proof {
                lemma_words_open(v@.take(i as int));
            }
            let ghost before = texts(out@);
            match out.pop() {
                Some(w) => {
                    let mut w = w;
                    let ghost old_w = w@;
                    assert(texts(out@) =~= before.drop_last());
                    assert(old_w == before.last());
                    w.push(c);
                    let ghost rest = texts(out@);
                    out.push(w);
                    assert(texts(out@) =~= rest.push(old_w.push(c)));
                },
                None => {},
            }
        } else {
            let ghost before = texts(out@);
            let mut w: Vec<char> = Vec::new();
            w.push(c);
            assert(w@ =~= seq![c]);
            out.push(w);
            assert(texts(out@) =~= before.push(seq![c]));
            inside = true;
        }
        i = i + 1;
    }
    assert(v@.take(i as int) =~= v@);
    out
}

proof fn lemma_joined_push(v: Seq<Seq<char>>, sep: Seq<char>, x: Seq<char>)
    requires
        v.len() > 0,
    ensures
        joined(v.push(x), sep) == joined(v, sep) + sep + x,
{
    assert(v.push(x).drop_last() =~= v);
}

/// Texts that are joined keep their order and have one separator between each
/// two: joining two lists one behind the other is joining what each gives.
pub proof fn joining_is_associative(v: Seq<Seq<char>>, w: Seq<Seq<char>>, sep: Seq<char>)
    requires
        v.len() > 0,
        w.len() > 0,
    ensures
        joined(v + w, sep) == joined(v, sep) + sep + joined(w, sep),
        joined(seq![v[0]], sep) == v[0],
    decreases w.len(),
{
    let x = w.last();
    if w.len() == 1 {
        assert(v + w =~= v.push(x));
        lemma_joined_push(v, sep, x);
    } else {
        let rest = w.drop_last();
        joining_is_associative(v, rest, sep);
        assert(v + w =~= (v + rest).push(x));
        lemma_joined_push(v + rest, sep, x);
        assert(joined(v + w, sep) =~= joined(v, sep) + sep + joined(w, sep));
    }
}

/// A text cut at a separator loses nothing but the separators: none is left in
/// a piece, and the pieces joined by it give the text back.
pub proof fn pieces_join_to_the_text(s: Seq<char>, sep: char)
    ensures
        split(s, sep).len() > 0,
        forall|i: int| 0 <= i < split(s, sep).len() ==> !(#[trigger] split(s, sep)[i]).contains(sep),
        joined(split(s, sep), seq![sep]) == s,
    decreases s.len(),
{
    if s.len() > 0 {
        let rest = s.drop_last();
        let c = s.last();
        let head = split(rest, sep);
        let all = split(s, sep);
        pieces_join_to_the_text(rest, sep);
        assert(s =~= rest.push(c));
        if c == sep {
            lemma_joined_push(head, seq![sep], Seq::empty());
            assert(joined(all, seq![sep]) =~= s);
            assert forall|i: int| 0 <= i < all.len() implies !(#[trigger] all[i]).contains(sep) by {
                if i < head.len() {
                    assert(!head[i].contains(sep));
                }
            }
        } else {
            let front = head.drop_last();
            let l = head.last();
            assert(head =~= front.push(l));
            if front.len() > 0 {
                lemma_joined_push(front, seq![sep], l);
                lemma_joined_push(front, seq![sep], l.push(c));
                assert(joined(all, seq![sep]) =~= s);
            } else {
                assert(all =~= seq![l.push(c)]);
                assert(head =~= seq![l]);
                assert(joined(all, seq![sep]) =~= s);
            }
            assert forall|i: int| 0 <= i < all.len() implies !(#[trigger] all[i]).contains(sep) by {
                if i < front.len() {
                    assert(!head[i].contains(sep));
                } else {
                    assert(!head[head.len() - 1].contains(sep));
                    lemma_push_has(l, c, sep);
                }
            }
        }
    }
}

/// A list of pieces without the separator is what cutting their text gives.
pub proof fn joined_pieces_are_cut_apart(v: Seq<Seq<char>>, sep: char)
    requires
        v.len() > 0,
        forall|i: int| 0 <= i < v.len() ==> !(#[trigger] v[i]).contains(sep),
    ensures
        split(joined(v, seq![sep]), sep) == v,
    decreases v.len(),
{
    let x = v.last();
    let front = v.drop_last();
    if front.len() > 0 {
        assert forall|i: int| 0 <= i < front.len() implies !(#[trigger] front[i]).contains(sep) by {
            assert(!v[i].contains(sep));
        }
        joined_pieces_are_cut_apart(front, sep);
        let f = joined(front, seq![sep]);
        assert(f + seq![sep] =~= f.push(sep));
        assert(f.push(sep).drop_last() =~= f);
        assert(split(f.push(sep), sep) =~= front.push(Seq::empty()));
        lemma_split_grows(f.push(sep), x, sep);
        assert(joined(v, seq![sep]) =~= f.push(sep) + x);
        assert(front.push(Seq::empty()).drop_last() =~= front);
        assert(Seq::<char>::empty() + x =~= x);
        assert(front.push(x) =~= v);
    } else {
        assert(v =~= seq![x]);
        lemma_split_grows(Seq::empty(), x, sep);
        assert(Seq::<char>::empty() + x =~= x);
        assert(split(Seq::empty(), sep).drop_last().push(x) =~= v);
    }
}

proof fn lemma_split_grows(s: Seq<char>, x: Seq<char>, sep: char)
    requires
        !x.contains(sep),
    ensures
        split(s + x, sep) == split(s, sep).drop_last().push(split(s, sep).last() + x),
    decreases x.len(),
{
    pieces_join_to_the_text(s, sep);
    if x.len() == 0 {
        assert(s + x =~= s);
        assert(split(s, sep).last() + x =~= split(s, sep).last());
        assert(split(s, sep).drop_last().push(split(s, sep).last()) =~= split(s, sep));
    } else {
        let y = x.drop_last();
        let c = x.last();
        assert(!y.contains(sep)) by {
            lemma_push_has(y, c, sep);
            assert(y.push(c) =~= x);
        }
        assert(c != sep) by {
            assert(x[x.len() - 1] == c);
        }
        lemma_split_grows(s, y, sep);
        assert((s + x).drop_last() =~= s + y);
        let head = split(s + y, sep);
        let front = split(s, sep).drop_last();
        assert(head.drop_last() =~= front);
        assert((split(s, sep).last() + y).push(c) =~= split(s, sep).last() + x);
    }
}

/// Trimming cuts whitespace off both ends and nothing else: what is left is a
/// part of the text with only whitespace before and behind it, and it neither
/// begins nor ends with whitespace.
pub proof fn trimming_cuts_whitespace_only(s: Seq<char>) -> (cut: (int, int))
    ensures
        0 <= cut.0 <= cut.1 <= s.len(),
        trim(s) == s.subrange(cut.0, cut.1),
        forall|i: int| 0 <= i < cut.0 ==> is_white(#[trigger] s[i]),
        forall|i: int| cut.1 <= i < s.len() ==> is_white(#[trigger] s[i]),
        cut.0 < cut.1 ==> !is_white(s[cut.0]) && !is_white(s[cut.1 - 1]),
{
    let a = lemma_trim_start(s);
    let t = s.skip(a);
    let b = lemma_trim_end(t);
    assert(t.take(b) =~= s.subrange(a, a + b));
    assert forall|i: int| a + b <= i < s.len() implies is_white(#[trigger] s[i]) by {
        assert(t[i - a] == s[i]);
    }
    if b > 0 {
        assert(t[0] == s[a]);
        assert(t[b - 1] == s[a + b - 1]);
    }
    (a, a + b)
}

proof fn lemma_trim_start(s: Seq<char>) -> (a: int)
    ensures
        0 <= a <= s.len(),
        trim_start(s) == s.skip(a),
        forall|i: int| 0 <= i < a ==> is_white(#[trigger] s[i]),
        a < s.len() ==> !is_white(s[a]),
    decreases s.len(),
{
    if s.len() > 0 && is_white(s[0]) {
        let t = s.drop_first();
        let a = lemma_trim_start(t);
        assert(t.skip(a) =~= s.skip(a + 1));
        assert forall|i: int| 0 <= i < a + 1 implies is_white(#[trigger] s[i]) by {
            if i > 0 {
                assert(t[i - 1] == s[i]);
            }
        }
        if a < t.len() {
            assert(t[a] == s[a + 1]);
        }
        a + 1
    } else {
        assert(s.skip(0) =~= s);
        0
    }
}

proof fn lemma_trim_end(s: Seq<char>) -> (b: int)
    ensures
        0 <= b <= s.len(),
        trim_end(s) == s.take(b),
        forall|i: int| b <= i < s.len() ==> is_white(#[trigger] s[i]),
        b > 0 ==> !is_white(s[b - 1]),
    decreases s.len(),
{
    if s.len() > 0 && is_white(s.last()) {
        let t = s.drop_last();
        let b = lemma_trim_end(t);
        assert(t.take(b) =~= s.take(b));
        assert forall|i: int| b <= i < s.len() implies is_white(#[trigger] s[i]) by {
            if i < t.len() {
                assert(t[i] == s[i]);
            }
        }
        b
    } else {
        assert(s.take(s.len() as int) =~= s);
        s.len() as int
    }
}

/// Replacing one character by another changes that character and no other, and
/// keeps every place.
pub proof fn replacing_a_character_keeps_the_others(s: Seq<char>, from: char, to: char)
    ensures
        replace(s, from, seq![to]).len() == s.len(),
        forall|i: int|
            0 <= i < s.len() ==> #[trigger] replace(s, from, seq![to])[i] == if s[i] == from {
                to
            } else {
                s[i]
            },
    decreases s.len(),
{
    if s.len() > 0 {
        replacing_a_character_keeps_the_others(s.drop_last(), from, to);
    }
}

/// A decimal number, read digit by digit, is the number; it has no digit too
/// many.
pub proof fn decimal_reads_back(n: nat)
    ensures
        dec(n).fold_left(0int, |v: int, c: char| 10 * v + (c as u32 - 48)) == n,
        dec(n).len() > 0,
        dec(n).len() > 1 ==> dec(n)[0] != '0',
        forall|i: int| 0 <= i < dec(n).len() ==> 48 <= #[trigger] dec(n)[i] as u32 <= 57,
    decreases n,
{
    lemma_dec_digits(n);
    let f = |v: int, c: char| 10 * v + (c as u32 - 48);
    let d = (n % 10) as int;
    assert(digit(d) as u32 == 48 + d);
    if n < 10 {
        assert(dec(n).drop_last() =~= Seq::empty());
        assert(Seq::<char>::empty().fold_left(0int, f) == 0);
    } else {
        decimal_reads_back(n / 10);
        assert(dec(n).drop_last() =~= dec(n / 10));
        assert(dec(n)[0] == dec(n / 10)[0]);
        if n / 10 < 10 {
            assert(digit((n / 10) as int) as u32 == 48 + n / 10);
            assert(dec(n / 10)[0] == digit((n / 10) as int));
            assert('0' as u32 == 48);
        } else {
            decimal_reads_back(n / 100);
            assert((n / 10) / 10 == n / 100);
            assert(dec(n / 10).len() == dec(n / 100).len() + 1);
        }
    }
}

/// A text cut once is cut at the first place where the mark stands, and
/// nothing but the mark is lost; one that is not cut holds no mark.
pub proof fn text_is_cut_at_the_first_mark(s: Seq<char>, p: Seq<char>)
    ensures
        match split_once(s, p) {
            Some(c) => c.0 + p + c.1 == s && forall|at: int|
                0 <= at < c.0.len() ==> !#[trigger] stands_at(s, p, at),
            None => forall|at: int| !#[trigger] stands_at(s, p, at),
        },
    decreases s.len(),
{
    if stands_at(s, p, 0) {
        assert(s.subrange(0, p.len() as int) + s.skip(p.len() as int) =~= s);
        assert(Seq::<char>::empty() + p =~= p);
    } else if s.len() > 0 {
        let t = s.drop_first();
        text_is_cut_at_the_first_mark(t, p);
        match split_once(t, p) {
            Some(c) => {
                let a = seq![s[0]] + c.0;
                assert(a + p + c.1 =~= seq![s[0]] + (c.0 + p + c.1));
                assert(seq![s[0]] + t =~= s);
                assert forall|at: int| 0 <= at < a.len() implies !#[trigger] stands_at(s, p, at) by {
                    lemma_stands_behind(s, p, at);
                }
            },
            None => {
                assert forall|at: int| !#[trigger] stands_at(s, p, at) by {
                    lemma_stands_behind(s, p, at);
                }
            },
        }
    } else {
        assert forall|at: int| !#[trigger] stands_at(s, p, at) by {}
    }
}

proof fn lemma_stands_behind(s: Seq<char>, p: Seq<char>, at: int)
    requires
        s.len() > 0,
    ensures
        at > 0 ==> (stands_at(s, p, at) <==> stands_at(s.drop_first(), p, at - 1)),
{
    if at > 0 && at + p.len() <= s.len() {
        assert(s.subrange(at, at + p.len()) =~= s.drop_first().subrange(at - 1, at - 1 + p.len()));
    }
}

/// The words of a text hold every character of it that is no whitespace, in
/// order, and no other; no word is empty.
pub proof fn words_hold_all_but_whitespace(s: Seq<char>)
    ensures
        words(s).flatten() == s.filter(|c: char| !is_white(c)),
        forall|i: int| 0 <= i < words(s).len() ==> (#[trigger] words(s)[i]).len() > 0,
        s.len() > 0 && !is_white(s.last()) ==> words(s).len() > 0,
    decreases s.len(),
{
    reveal(Seq::filter);
    let all = words(s);
    all.lemma_flatten_and_flatten_alt_are_equivalent();
    if s.len() > 0 {
        let rest = s.drop_last();
        let c = s.last();
        let head = words(rest);
        words_hold_all_but_whitespace(rest);
        head.lemma_flatten_and_flatten_alt_are_equivalent();
        if is_white(c) {
        } else if s.len() == 1 || is_white(s[s.len() - 2]) {
            assert(all.drop_last() =~= head);
            assert(all.flatten_alt() =~= head.flatten_alt() + seq![c]);
            assert(all.flatten() =~= s.filter(|c: char| !is_white(c)));
        } else {
            assert(rest.last() == s[s.len() - 2]);
            assert(head.len() > 0);
            let front = head.drop_last();
            assert(all.drop_last() =~= front);
            assert(all.flatten_alt() =~= front.flatten_alt() + head.last().push(c));
            assert(head.flatten_alt() =~= front.flatten_alt() + head.last());
            assert(all.flatten() =~= s.filter(|c: char| !is_white(c)));
            assert forall|i: int| 0 <= i < all.len() implies (#[trigger] all[i]).len() > 0 by {
                if i < front.len() {
                    assert(head[i].len() > 0);
                }
            }
        }
    } else {
        assert(all.flatten() =~= s.filter(|c: char| !is_white(c)));
    }
}

/// The lines of a text are the pieces between its newlines, the last only where
/// it is not empty, a carriage return before a newline dropped.
pub proof fn lines_are_cut_at_newlines(s: Seq<char>, i: int)
    requires
        0 <= i < split(s, '\n').len() - 1,
    ensures
        lines(s).len() == split(s, '\n').len() - if split(s, '\n').last().len() == 0 {
            1int
        } else {
            0int
        },
        split(s, '\n').last().len() > 0 ==> lines(s).last() == split(s, '\n').last(),
        split(s, '\n')[i].len() > 0 && split(s, '\n')[i].last() == '\r' ==> lines(s)[i] == split(
            s,
            '\n',
        )[i].drop_last(),
        !(split(s, '\n')[i].len() > 0 && split(s, '\n')[i].last() == '\r') ==> lines(s)[i]
            == split(s, '\n')[i],
{
}

/// What counts as whitespace: the characters with the Unicode property
/// White_Space, tab, line feed, carriage return and space among them.
pub proof fn whitespace_is_what_unicode_says(c: char)
    ensures
        is_white(c) <==> (c as u32) == 0x20 || (0x09 <= c as u32 && c as u32 <= 0x0d) || (c as u32)
            == 0x85 || (c as u32) == 0xa0 || (c as u32) == 0x1680 || (0x2000 <= c as u32 && c as u32
            <= 0x200a) || (c as u32) == 0x2028 || (c as u32) == 0x2029 || (c as u32) == 0x202f || (
        c as u32) == 0x205f || (c as u32) == 0x3000,
{
}

} // verus!
