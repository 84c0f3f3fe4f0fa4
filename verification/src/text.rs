//! Strings as sequences of characters, and the order that sorting uses.
//!
//! A `String` is seen through its view, a `Seq<char>`. Ordering is the one of
//! `str`: lexicographic over the bytes of the UTF-8 encoding.

use crate::digest::hex_char;
use vstd::prelude::*;
use vstd::string::*;
use vstd::utf8::{decode_utf8, encode_utf8, valid_utf8};

verus! {

/// `String::push` appends one character at the end of the string.
pub assume_specification[ String::push ](s: &mut String, c: char)
    ensures
        final(s)@ == old(s)@.push(c),
;

/// The views of a sequence of strings.
pub open spec fn strs(v: Seq<String>) -> Seq<Seq<char>> {
    v.map_values(|s: String| s@)
}

/// The UTF-8 bytes of a character sequence.
pub open spec fn utf8(s: Seq<char>) -> Seq<u8> {
    encode_utf8(s)
}

/// Two character sequences with the same encoding are the same.
pub proof fn lemma_utf8_injective(a: Seq<char>, b: Seq<char>)
    requires
        utf8(a) == utf8(b),
    ensures
        a == b,
{
    broadcast use vstd::utf8::encode_utf8_decode_utf8;
    assert(vstd::utf8::decode_utf8(encode_utf8(a)) == a);
    assert(vstd::utf8::decode_utf8(encode_utf8(b)) == b);
}

/// Lexicographic order on byte sequences: a proper prefix comes first.
pub open spec fn bytes_lt(a: Seq<u8>, b: Seq<u8>) -> bool
    decreases a.len(),
{
    if b.len() == 0 {
        false
    } else if a.len() == 0 {
        true
    } else if a[0] != b[0] {
        a[0] < b[0]
    } else {
        bytes_lt(a.drop_first(), b.drop_first())
    }
}

/// The order of `str`.
pub open spec fn str_lt(a: Seq<char>, b: Seq<char>) -> bool {
    bytes_lt(utf8(a), utf8(b))
}

pub proof fn lemma_bytes_lt_irreflexive(a: Seq<u8>)
    ensures
        !bytes_lt(a, a),
    decreases a.len(),
{
    if a.len() > 0 {
        lemma_bytes_lt_irreflexive(a.drop_first());
    }
}

pub proof fn lemma_bytes_lt_transitive(a: Seq<u8>, b: Seq<u8>, c: Seq<u8>)
    requires
        bytes_lt(a, b),
        bytes_lt(b, c),
    ensures
        bytes_lt(a, c),
    decreases a.len(),
{
    if a.len() > 0 && a[0] == b[0] && b[0] == c[0] {
        lemma_bytes_lt_transitive(a.drop_first(), b.drop_first(), c.drop_first());
    }
}

pub proof fn lemma_bytes_lt_total(a: Seq<u8>, b: Seq<u8>)
    ensures
        bytes_lt(a, b) || bytes_lt(b, a) || a == b,
    decreases a.len(),
{
    if a.len() > 0 && b.len() > 0 && a[0] == b[0] {
        lemma_bytes_lt_total(a.drop_first(), b.drop_first());
        if a.drop_first() == b.drop_first() {
            assert(a == seq![a[0]] + a.drop_first());
            assert(b == seq![b[0]] + b.drop_first());
        }
    } else if a.len() == 0 && b.len() == 0 {
        assert(a == b);
    }
}

/// Whether `a` precedes `b` in lexicographic byte order.
pub fn bytes_before(a: &[u8], b: &[u8]) -> (r: bool)
    ensures
        r == bytes_lt(a@, b@),
{
    let mut i: usize = 0;
    assert(a@.skip(0) == a@);
    assert(b@.skip(0) == b@);
    while i < a.len() && i < b.len()
        invariant
            i <= a.len(),
            i <= b.len(),
            bytes_lt(a@, b@) == bytes_lt(a@.skip(i as int), b@.skip(i as int)),
        decreases a.len() - i,
    {
        if a[i] != b[i] {
            return a[i] < b[i];
        }
        assert(a@.skip(i as int).drop_first() == a@.skip(i + 1));
        assert(b@.skip(i as int).drop_first() == b@.skip(i + 1));
        i = i + 1;
    }
    i < b.len()
}

/// Whether two strings hold the same characters.
pub fn str_eq(a: &str, b: &str) -> (r: bool)
    ensures
        r == (a@ == b@),
{
    let x = a.as_bytes();
    let y = b.as_bytes();
    if x.len() != y.len() {
        return false;
    }
    let mut i: usize = 0;
    while i < x.len()
        invariant
            i <= x.len(),
            x.len() == y.len(),
            x@ == utf8(a@),
            y@ == utf8(b@),
            x@.take(i as int) == y@.take(i as int),
        decreases x.len() - i,
    {
        if x[i] != y[i] {
            assert(x@[i as int] != y@[i as int]);
            return false;
        }
        assert(x@.take(i + 1) == x@.take(i as int).push(x@[i as int]));
        assert(y@.take(i + 1) == y@.take(i as int).push(y@[i as int]));
        i = i + 1;
    }
    assert(x@ == x@.take(i as int));
    assert(y@ == y@.take(i as int));
    proof {
        lemma_utf8_injective(a@, b@);
    }
    true
}

/// The characters of a string.
pub fn chars_of(s: &str) -> (v: Vec<char>)
    ensures
        v@ == s@,
{
    let mut v: Vec<char> = Vec::new();
    for c in it: s.chars()
        invariant
            it.seq() == s@,
            v@ == s@.take(it.index() as int),
    {
        v.push(c);
        assert(v@ == s@.take(it.index() + 1));
    }
    assert(v@ == s@);
    v
}

/// The string made of the characters of `v` from `from` up to `to`.
pub fn text_of(v: &Vec<char>, from: usize, to: usize) -> (s: String)
    requires
        from <= to <= v.len(),
    ensures
        s@ == v@.subrange(from as int, to as int),
{
    let mut s = String::new();
    let mut i: usize = from;
    while i < to
        invariant
            from <= i <= to <= v.len(),
            s@ == v@.subrange(from as int, i as int),
        decreases to - i,
    {
        s.push(v[i]);
        assert(v@.subrange(from as int, i + 1) == v@.subrange(from as int, i as int).push(
            v@[i as int],
        ));
        i = i + 1;
    }
    s
}

/// A `String` with the characters of `s`.
pub fn owned(s: &str) -> (r: String)
    ensures
        r@ == s@,
{
    s.to_owned()
}

pub fn cat2(a: &str, b: &str) -> (r: String)
    ensures
        r@ == a@ + b@,
{
    let mut s = owned(a);
    s.append(b);
    s
}

pub fn cat3(a: &str, b: &str, c: &str) -> (r: String)
    ensures
        r@ == a@ + b@ + c@,
{
    let mut s = cat2(a, b);
    s.append(c);
    s
}

pub fn cat4(a: &str, b: &str, c: &str, d: &str) -> (r: String)
    ensures
        r@ == a@ + b@ + c@ + d@,
{
    let mut s = cat3(a, b, c);
    s.append(d);
    s
}

pub fn cat5(a: &str, b: &str, c: &str, d: &str, e: &str) -> (r: String)
    ensures
        r@ == a@ + b@ + c@ + d@ + e@,
{
    let mut s = cat4(a, b, c, d);
    s.append(e);
    s
}

/// `s` begins with `p`.
pub open spec fn has_prefix(s: Seq<char>, p: Seq<char>) -> bool {
    p.len() <= s.len() && s.take(p.len() as int) == p
}

/// `s` ends with `p`.
pub open spec fn has_suffix(s: Seq<char>, p: Seq<char>) -> bool {
    p.len() <= s.len() && s.skip(s.len() - p.len()) == p
}

/// `needle` occurs in `s` at position `i`.
pub open spec fn occurs_at(s: Seq<char>, needle: Seq<char>, i: int) -> bool {
    0 <= i && i + needle.len() <= s.len() && s.subrange(i, i + needle.len()) == needle
}

/// `needle` occurs somewhere in `s`.
pub open spec fn occurs_in(s: Seq<char>, needle: Seq<char>) -> bool {
    exists|i: int| occurs_at(s, needle, i)
}

/// Whether `needle` stands in `v` at position `at`.
pub fn chars_match_at(v: &Vec<char>, needle: &Vec<char>, at: usize) -> (r: bool)
    requires
        at <= v.len(),
    ensures
        r == occurs_at(v@, needle@, at as int),
{
    if needle.len() > v.len() - at {
        return false;
    }
    let mut j: usize = 0;
    while j < needle.len()
        invariant
            j <= needle.len(),
            at + needle.len() <= v.len(),
            forall|k: int| 0 <= k < j ==> v@[at + k] == needle@[k],
        decreases needle.len() - j,
    {
        if v[at + j] != needle[j] {
            assert(v@.subrange(at as int, at + needle@.len())[j as int] != needle@[j as int]);
            return false;
        }
        j = j + 1;
    }
    assert(v@.subrange(at as int, at + needle@.len()) == needle@);
    true
}

/// Whether `needle` occurs in `hay`.
pub fn contains(hay: &str, needle: &str) -> (r: bool)
    ensures
        r == occurs_in(hay@, needle@),
{
    let h = chars_of(hay);
    let n = chars_of(needle);
    let mut i: usize = 0;
    while i < h.len()
        invariant
            i <= h.len(),
            h@ == hay@,
            n@ == needle@,
            forall|k: int| 0 <= k < i ==> !occurs_at(hay@, needle@, k),
        decreases h.len() - i,
    {
        if chars_match_at(&h, &n, i) {
            return true;
        }
        i = i + 1;
    }
    chars_match_at(&h, &n, i)
}

/// Whether `s` begins with `p`.
pub fn starts_with(s: &str, p: &str) -> (r: bool)
    ensures
        r == has_prefix(s@, p@),
{
    let v = chars_of(s);
    let n = chars_of(p);
    let r = chars_match_at(&v, &n, 0);
    proof {
        if p@.len() <= s@.len() {
            assert(s@.subrange(0, p@.len() as int) == s@.take(p@.len() as int));
        }
    }
    r
}

/// Whether `s` ends with `p`.
pub fn ends_with(s: &str, p: &str) -> (r: bool)
    ensures
        r == has_suffix(s@, p@),
{
    let v = chars_of(s);
    let n = chars_of(p);
    if n.len() > v.len() {
        return false;
    }
    assert(s@.subrange(s@.len() - p@.len(), s@.len() as int) == s@.skip(s@.len() - p@.len()));
    chars_match_at(&v, &n, v.len() - n.len())
}

/// The rest of `s` behind the prefix `p`, if `s` begins with it.
pub fn strip_prefix<'a>(s: &'a str, p: &str) -> (r: Option<&'a str>)
    ensures
        r is Some <==> has_prefix(s@, p@),
        r matches Some(t) ==> t@ == s@.skip(p@.len() as int),
{
    if starts_with(s, p) {
        let n = s.unicode_len();
        let k = p.unicode_len();
        let t = s.substring_char(k, n);
        assert(t@ == s@.skip(p@.len() as int));
        Some(t)
    } else {
        None
    }
}

/// The pieces of `s` between the occurrences of `sep`.
pub open spec fn split_on(s: Seq<char>, sep: char) -> Seq<Seq<char>>
    decreases s.len(),
{
    if s.len() == 0 {
        seq![Seq::<char>::empty()]
    } else {
        let r = split_on(s.drop_last(), sep);
        if s.last() == sep {
            r.push(Seq::<char>::empty())
        } else {
            r.drop_last().push(r.last().push(s.last()))
        }
    }
}

/// Splitting gives at least one piece, and no piece holds the separator.
pub proof fn lemma_split_on(s: Seq<char>, sep: char)
    ensures
        split_on(s, sep).len() >= 1,
        forall|i: int|
            0 <= i < split_on(s, sep).len() ==> !(#[trigger] split_on(s, sep)[i]).contains(sep),
    decreases s.len(),
{
    if s.len() > 0 {
        lemma_split_on(s.drop_last(), sep);
        let r = split_on(s.drop_last(), sep);
        assert forall|i: int| 0 <= i < split_on(s, sep).len() implies !(#[trigger] split_on(
            s,
            sep,
        )[i]).contains(sep) by {
            let q = split_on(s, sep)[i];
            if s.last() == sep {
                if i < r.len() {
                    assert(q == r[i]);
                }
            } else if i < r.len() - 1 {
                assert(q == r[i]);
            } else {
                let l = r[r.len() - 1];
                assert(q == l.push(s.last()));
                if q.contains(sep) {
                    let k = choose|k: int| 0 <= k < q.len() && q[k] == sep;
                    assert(l[k] == sep);
                    assert(l.contains(sep));
                }
            }
        }
    }
}

/// Splits `s` at every `sep`.
pub fn split(s: &str, sep: char) -> (r: Vec<String>)
    ensures
        strs(r@) == split_on(s@, sep),
{
    let v = chars_of(s);
    let mut out: Vec<String> = Vec::new();
    let mut cur = String::new();
    let mut i: usize = 0;
    while i < v.len()
        invariant
            i <= v.len(),
            v@ == s@,
            strs(out@).push(cur@) == split_on(s@.take(i as int), sep),
        decreases v.len() - i,
    {
        let ghost before = strs(out@).push(cur@);
        assert(s@.take(i + 1).drop_last() == s@.take(i as int));
        if v[i] == sep {
            let ghost o = out@;
            out.push(cur);
            cur = String::new();
            assert(strs(out@) == before);
        } else {
            cur.push(v[i]);
            assert(before.drop_last() == strs(out@));
        }
        i = i + 1;
    }
    assert(s@.take(i as int) == s@);
    let ghost o = strs(out@).push(cur@);
    out.push(cur);
    assert(strs(out@) == o);
    out
}

/// The pieces glued together with `sep` between them.
pub open spec fn join_with(parts: Seq<Seq<char>>, sep: Seq<char>) -> Seq<char>
    decreases parts.len(),
{
    if parts.len() == 0 {
        Seq::<char>::empty()
    } else if parts.len() == 1 {
        parts[0]
    } else {
        join_with(parts.drop_last(), sep) + sep + parts.last()
    }
}

/// Glues `parts` together with `sep` between them.
pub fn join(parts: &Vec<String>, sep: &str) -> (r: String)
    ensures
        r@ == join_with(strs(parts@), sep@),
{
    let mut s = String::new();
    let mut i: usize = 0;
    while i < parts.len()
        invariant
            i <= parts.len(),
            s@ == join_with(strs(parts@).take(i as int), sep@),
        decreases parts.len() - i,
    {
        let ghost p = strs(parts@);
        assert(p.take(i + 1).drop_last() == p.take(i as int));
        if i > 0 {
            s.append(sep);
        } else {
            assert(s@ + p[0] == p[0]);
        }
        s.append(parts[i].as_str());
        i = i + 1;
    }
    assert(strs(parts@).take(i as int) == strs(parts@));
    s
}

/// Whether `x` is one of `v`.
pub fn member(v: &Vec<String>, x: &str) -> (r: bool)
    ensures
        r == strs(v@).contains(x@),
{
    let mut i: usize = 0;
    while i < v.len()
        invariant
            i <= v.len(),
            forall|k: int| 0 <= k < i ==> strs(v@)[k] != x@,
        decreases v.len() - i,
    {
        assert(strs(v@)[i as int] == v@[i as int]@);
        if str_eq(v[i].as_str(), x) {
            return true;
        }
        i = i + 1;
    }
    false
}

/// A copy of a list of strings.
pub fn copy_strs(v: &Vec<String>) -> (r: Vec<String>)
    ensures
        strs(r@) == strs(v@),
        r@ == v@,
{
    let mut out: Vec<String> = Vec::new();
    let mut i: usize = 0;
    while i < v.len()
        invariant
            i <= v.len(),
            out@ == v@.take(i as int),
        decreases v.len() - i,
    {
        out.push(v[i].clone());
        i = i + 1;
    }
    assert(out@ == v@);
    out
}

/// The decimal digits of `n`, most significant first.
pub open spec fn decimal(n: nat) -> Seq<char>
    decreases n,
{
    if n < 10 {
        seq![digit_char(n)]
    } else {
        decimal(n / 10).push(digit_char(n % 10))
    }
}

/// The character of a decimal digit.
pub open spec fn digit_char(d: nat) -> char {
    if d == 0 {
        '0'
    } else if d == 1 {
        '1'
    } else if d == 2 {
        '2'
    } else if d == 3 {
        '3'
    } else if d == 4 {
        '4'
    } else if d == 5 {
        '5'
    } else if d == 6 {
        '6'
    } else if d == 7 {
        '7'
    } else if d == 8 {
        '8'
    } else {
        '9'
    }
}

fn digit(d: u128) -> (c: char)
    requires
        d < 10,
    ensures
        c == digit_char(d as nat),
{
    if d == 0 {
        '0'
    } else if d == 1 {
        '1'
    } else if d == 2 {
        '2'
    } else if d == 3 {
        '3'
    } else if d == 4 {
        '4'
    } else if d == 5 {
        '5'
    } else if d == 6 {
        '6'
    } else if d == 7 {
        '7'
    } else if d == 8 {
        '8'
    } else {
        '9'
    }
}

/// The decimal digits of `n`.
pub fn number(n: u128) -> (s: String)
    ensures
        s@ == decimal(n as nat),
    decreases n,
{
    if n < 10 {
        let mut s = String::new();
        s.push(digit(n));
        assert(s@ == decimal(n as nat));
        s
    } else {
        let mut s = number(n / 10);
        s.push(digit(n % 10));
        s
    }
}

/// What `String::from_utf8_lossy` makes of a byte string.
pub uninterp spec fn utf8_lossy(bytes: Seq<u8>) -> Seq<char>;

/// `String::from_utf8_lossy`. Trusted: the text is a function of the bytes, and
/// valid UTF-8 is decoded as it stands. What replaces invalid bytes is left
/// unsaid.
#[verifier::external_body]
pub(crate) fn from_utf8_lossy(bytes: &[u8]) -> (r: String)
    ensures
        r@ == utf8_lossy(bytes@),
        vstd::utf8::valid_utf8(bytes@) ==> r@ == vstd::utf8::decode_utf8(bytes@),
{
    String::from_utf8_lossy(bytes).into_owned()
}

/// `c` is white space: the Unicode property `White_Space`.
pub open spec fn is_space(c: char) -> bool {
    let n = c as u32;
    (0x9 <= n <= 0xd) || n == 0x20 || n == 0x85 || n == 0xa0 || n == 0x1680 || (0x2000 <= n
        <= 0x200a) || n == 0x2028 || n == 0x2029 || n == 0x202f || n == 0x205f || n == 0x3000
}

/// Whether `c` is white space.
pub fn whitespace(c: char) -> (r: bool)
    ensures
        r == is_space(c),
{
    let n: u32 = c as u32;
    (0x9 <= n && n <= 0xd) || n == 0x20 || n == 0x85 || n == 0xa0 || n == 0x1680 || (0x2000 <= n
        && n <= 0x200a) || n == 0x2028 || n == 0x2029 || n == 0x202f || n == 0x205f || n == 0x3000
}

/// A line without a carriage return at its end.
pub open spec fn without_cr(s: Seq<char>) -> Seq<char> {
    if s.len() > 0 && s.last() == '\r' {
        s.drop_last()
    } else {
        s
    }
}

/// The first `n` pieces as lines: each ended in a line feed.
pub open spec fn ended_lines(pieces: Seq<Seq<char>>) -> Seq<Seq<char>> {
    pieces.map_values(|p: Seq<char>| without_cr(p))
}

/// The lines of a text, without their line endings. An ending behind the last
/// line does not start another one.
pub open spec fn lines_of(s: Seq<char>) -> Seq<Seq<char>> {
    let pieces = split_on(s, '\n');
    let done = ended_lines(pieces.drop_last());
    if pieces.last().len() == 0 {
        done
    } else {
        done.push(pieces.last())
    }
}

/// `s` without a carriage return at its end.
fn drop_cr(s: &str) -> (r: String)
    ensures
        r@ == without_cr(s@),
{
    let v = chars_of(s);
    let n: usize = v.len();
    if n > 0 && v[n - 1] == '\r' {
        let r = text_of(&v, 0, n - 1);
        assert(r@ == s@.drop_last());
        r
    } else {
        owned(s)
    }
}

/// The lines of `s`.
pub fn lines(s: &str) -> (r: Vec<String>)
    ensures
        strs(r@) == lines_of(s@),
{
    let pieces = split(s, '\n');
    let ghost pv = strs(pieces@);
    proof {
        lemma_split_on(s@, '\n');
    }
    let n: usize = pieces.len();
    assert(n == pv.len());
    let mut out: Vec<String> = Vec::new();
    let mut i: usize = 0;
    while i + 1 < n
        invariant
            n == pieces.len(),
            n >= 1,
            i < n,
            pv == strs(pieces@),
            strs(out@) == ended_lines(pv.take(i as int)),
        decreases n - i,
    {
        let ghost before = strs(out@);
        assert(pv[i as int] == pieces@[i as int]@);
        out.push(drop_cr(pieces[i].as_str()));
        assert(strs(out@) == before.push(without_cr(pv[i as int])));
        assert(pv.take(i + 1) == pv.take(i as int).push(pv[i as int]));
        assert(ended_lines(pv.take(i + 1)) == before.push(without_cr(pv[i as int])));
        i = i + 1;
    }
    assert(pv.take(i as int) == pv.drop_last());
    assert(pv.last() == pieces@[n - 1]@);
    if !pieces[n - 1].as_str().is_empty() {
        let ghost before = strs(out@);
        out.push(pieces[n - 1].clone());
        assert(strs(out@) == before.push(pv.last()));
    }
    out
}

/// The number of bytes that `s` takes.
pub open spec fn byte_len(s: Seq<char>) -> nat {
    utf8(s).len()
}

/// `s` without the leading characters that are white space.
pub open spec fn trim_start_of(s: Seq<char>) -> Seq<char>
    decreases s.len(),
{
    if s.len() > 0 && is_space(s[0]) {
        trim_start_of(s.drop_first())
    } else {
        s
    }
}

/// `s` without the trailing characters that are white space.
pub open spec fn trim_end_of(s: Seq<char>) -> Seq<char>
    decreases s.len(),
{
    if s.len() > 0 && is_space(s.last()) {
        trim_end_of(s.drop_last())
    } else {
        s
    }
}

/// `s` without white space at either end.
pub open spec fn trimmed(s: Seq<char>) -> Seq<char> {
    trim_end_of(trim_start_of(s))
}

/// `s` without white space at either end.
pub fn trim(s: &str) -> (r: String)
    ensures
        r@ == trimmed(s@),
{
    let v = chars_of(s);
    let n: usize = v.len();
    let mut a: usize = 0;
    assert(s@.skip(0) == s@);
    while a < n && whitespace(v[a])
        invariant
            a <= n,
            n == v.len(),
            v@ == s@,
            trim_start_of(s@) == trim_start_of(s@.skip(a as int)),
        decreases n - a,
    {
        assert(s@.skip(a as int).drop_first() == s@.skip(a + 1));
        a = a + 1;
    }
    assert(trim_start_of(s@) == s@.skip(a as int));
    let mut b: usize = n;
    assert(s@.subrange(a as int, n as int) == s@.skip(a as int));
    while b > a && whitespace(v[b - 1])
        invariant
            a <= b <= n,
            n == v.len(),
            v@ == s@,
            trimmed(s@) == trim_end_of(s@.subrange(a as int, b as int)),
        decreases b,
    {
        assert(s@.subrange(a as int, b as int).drop_last() == s@.subrange(a as int, b - 1));
        b = b - 1;
    }
    text_of(&v, a, b)
}

/// The lowercase hexadecimal digits of `n`, most significant first.
pub open spec fn hexadecimal(n: nat) -> Seq<char>
    decreases n,
{
    if n < 16 {
        seq![hex_char(n as int)]
    } else {
        hexadecimal(n / 16).push(hex_char((n % 16) as int))
    }
}

/// At least four hexadecimal digits of `n`.
pub open spec fn hex4(n: nat) -> Seq<char> {
    let h = hexadecimal(n);
    if h.len() >= 4 {
        h
    } else {
        zeros((4 - h.len()) as nat) + h
    }
}

pub open spec fn zeros(n: nat) -> Seq<char> {
    Seq::new(n, |i: int| '0')
}

/// The value of a text of hexadecimal digits.
spec fn hex_number_value(s: Seq<char>) -> int
    decreases s.len(),
{
    if s.len() == 0 {
        0
    } else {
        hex_number_value(s.drop_last()) * 16 + hex_digit_value(s.last())
    }
}

spec fn hex_digit_value(c: char) -> int {
    if c as int >= 'a' as int {
        c as int - 'a' as int + 10
    } else {
        c as int - '0' as int
    }
}

proof fn lemma_hexadecimal_value(n: nat)
    ensures
        hex_number_value(hexadecimal(n)) == n,
    decreases n,
{
    if n < 16 {
        assert(seq![hex_char(n as int)].drop_last() =~= Seq::<char>::empty());
        assert(hex_number_value(Seq::<char>::empty()) == 0);
    } else {
        lemma_hexadecimal_value(n / 16);
        let c = hex_char((n % 16) as int);
        assert(hexadecimal(n / 16).push(c).drop_last() =~= hexadecimal(n / 16));
    }
}

proof fn lemma_leading_zeros(k: nat, s: Seq<char>)
    ensures
        hex_number_value(zeros(k) + s) == hex_number_value(s),
    decreases k + s.len(),
{
    let z = zeros(k);
    if s.len() > 0 {
        assert((z + s).drop_last() =~= z + s.drop_last());
        lemma_leading_zeros(k, s.drop_last());
    } else if k > 0 {
        assert((z + s).drop_last() =~= zeros((k - 1) as nat) + s);
        lemma_leading_zeros((k - 1) as nat, s);
    } else {
        assert(z + s =~= s);
    }
}

/// Different numbers have different digits.
pub proof fn lemma_hex4_injective(a: nat, b: nat)
    requires
        hex4(a) == hex4(b),
    ensures
        a == b,
{
    lemma_hexadecimal_value(a);
    lemma_hexadecimal_value(b);
    let x = hexadecimal(a);
    let y = hexadecimal(b);
    if x.len() < 4 {
        lemma_leading_zeros((4 - x.len()) as nat, x);
    }
    if y.len() < 4 {
        lemma_leading_zeros((4 - y.len()) as nat, y);
    }
}

fn hex_digit(d: u64) -> (c: char)
    requires
        d < 16,
    ensures
        c == hex_char(d as int),
{
    if d < 10 {
        digit(d as u128)
    } else if d == 10 {
        'a'
    } else if d == 11 {
        'b'
    } else if d == 12 {
        'c'
    } else if d == 13 {
        'd'
    } else if d == 14 {
        'e'
    } else {
        'f'
    }
}

fn hex_digits(n: u64) -> (r: Vec<char>)
    ensures
        r@ == hexadecimal(n as nat),
    decreases n,
{
    if n < 16 {
        let mut v: Vec<char> = Vec::new();
        v.push(hex_digit(n));
        assert(v@ == hexadecimal(n as nat));
        v
    } else {
        let mut v = hex_digits(n / 16);
        v.push(hex_digit(n % 16));
        v
    }
}

/// At least four hexadecimal digits of `n`.
pub fn hex_number(n: u64) -> (r: String)
    ensures
        r@ == hex4(n as nat),
{
    let v = hex_digits(n);
    let h = text_of(&v, 0, v.len());
    assert(h@ == hexadecimal(n as nat));
    proof {
        reveal_strlit("");
        reveal_strlit("0");
        reveal_strlit("00");
        reveal_strlit("000");
    }
    if v.len() >= 4 {
        h
    } else if v.len() == 3 {
        assert("0"@ =~= zeros(1));
        cat2("0", h.as_str())
    } else if v.len() == 2 {
        assert("00"@ =~= zeros(2));
        cat2("00", h.as_str())
    } else {
        assert(v.len() == 1);
        assert("000"@ =~= zeros(3));
        cat2("000", h.as_str())
    }
}

/// `s` without the characters `c` at its end.
pub open spec fn without_trailing(s: Seq<char>, c: char) -> Seq<char>
    decreases s.len(),
{
    if s.len() == 0 || s.last() != c {
        s
    } else {
        without_trailing(s.drop_last(), c)
    }
}

/// Drops the characters `c` at the end of `s`.
pub fn trim_end_char(s: &str, c: char) -> (r: String)
    ensures
        r@ == without_trailing(s@, c),
{
    let v = chars_of(s);
    let mut end: usize = v.len();
    assert(s@.take(end as int) == s@);
    while end > 0 && v[end - 1] == c
        invariant
            end <= v.len(),
            v@ == s@,
            without_trailing(s@, c) == without_trailing(s@.take(end as int), c),
        decreases end,
    {
        assert(s@.take(end as int).drop_last() == s@.take(end - 1));
        end = end - 1;
    }
    let r = text_of(&v, 0, end);
    assert(r@ == s@.take(end as int));
    r
}

/// The pieces of a byte string between separators.
pub open spec fn split_bytes_on(s: Seq<u8>, sep: u8) -> Seq<Seq<u8>>
    decreases s.len(),
{
    if s.len() == 0 {
        seq![Seq::<u8>::empty()]
    } else {
        let rest = split_bytes_on(s.drop_last(), sep);
        if s.last() == sep {
            rest.push(Seq::<u8>::empty())
        } else {
            rest.drop_last().push(rest.last().push(s.last()))
        }
    }
}

pub proof fn lemma_split_bytes_on(s: Seq<u8>, sep: u8)
    ensures
        split_bytes_on(s, sep).len() >= 1,
    decreases s.len(),
{
    if s.len() > 0 {
        lemma_split_bytes_on(s.drop_last(), sep);
    }
}

/// A list of byte strings by their views.
pub open spec fn byte_views(v: Seq<Vec<u8>>) -> Seq<Seq<u8>> {
    v.map_values(|b: Vec<u8>| b@)
}

/// Splits a byte string at every separator.
pub fn split_bytes(s: &[u8], sep: u8) -> (r: Vec<Vec<u8>>)
    ensures
        byte_views(r@) == split_bytes_on(s@, sep),
        r@.len() >= 1,
{
    let mut out: Vec<Vec<u8>> = Vec::new();
    let mut cur: Vec<u8> = Vec::new();
    let mut i: usize = 0;
    assert(s@.take(0) == Seq::<u8>::empty());
    assert(byte_views(out@).push(cur@) == split_bytes_on(s@.take(0), sep));
    while i < s.len()
        invariant
            i <= s.len(),
            byte_views(out@).push(cur@) == split_bytes_on(s@.take(i as int), sep),
        decreases s.len() - i,
    {
        let ghost before = byte_views(out@);
        let ghost piece = cur@;
        assert(s@.take(i + 1).drop_last() == s@.take(i as int));
        assert(s@.take(i + 1).last() == s@[i as int]);
        let b: u8 = s[i];
        if b == sep {
            out.push(cur);
            cur = Vec::new();
            assert(byte_views(out@) == before.push(piece));
        } else {
            cur.push(b);
            assert(before.push(piece).drop_last() == before);
            assert(before.push(piece).last() == piece);
        }
        i = i + 1;
    }
    assert(s@.take(i as int) == s@);
    let ghost before = byte_views(out@);
    let ghost piece = cur@;
    out.push(cur);
    assert(byte_views(out@) == before.push(piece));
    out
}

/// `std::str::from_utf8`. Trusted: it succeeds on valid UTF-8 and nothing else,
/// and gives the text that the bytes encode.
#[verifier::external_body]
pub(crate) fn text_from_utf8(bytes: &[u8]) -> (r: Option<String>)
    ensures
        r is Some <==> valid_utf8(bytes@),
        r matches Some(s) ==> s@ == decode_utf8(bytes@),
{
    match std::str::from_utf8(bytes) {
        Ok(s) => Some(s.to_string()),
        Err(_) => None,
    }
}

proof fn lemma_join_extend(parts: Seq<Seq<char>>, sep: Seq<char>, c: char)
    requires
        parts.len() > 0,
    ensures
        join_with(parts.drop_last().push(parts.last().push(c)), sep) == join_with(parts, sep).push(c),
{
    let q = parts.drop_last().push(parts.last().push(c));
    assert(q.drop_last() =~= parts.drop_last());
    if parts.len() > 1 {
        assert(join_with(q, sep) =~= join_with(parts, sep).push(c));
    }
}

/// Splitting undoes no part of a text: the pieces with the separator between
/// them are the text again, and no piece holds the separator.
pub proof fn law_split_joins(s: Seq<char>, sep: char)
    ensures
        join_with(split_on(s, sep), seq![sep]) == s,
        forall|i: int| 0 <= i < split_on(s, sep).len() ==> !(#[trigger] split_on(s, sep)[i]).contains(sep),
    decreases s.len(),
{
    lemma_split_on(s, sep);
    if s.len() > 0 {
        let r = split_on(s.drop_last(), sep);
        lemma_split_on(s.drop_last(), sep);
        law_split_joins(s.drop_last(), sep);
        if s.last() == sep {
            let q = r.push(Seq::<char>::empty());
            assert(q.drop_last() =~= r);
            assert(join_with(q, seq![sep]) =~= join_with(r, seq![sep]) + seq![sep]);
            assert(s =~= s.drop_last() + seq![sep]);
        } else {
            lemma_join_extend(r, seq![sep], s.last());
            assert(s =~= s.drop_last().push(s.last()));
        }
    }
}

/// A text made of two around a separator splits into the pieces of both.
pub proof fn lemma_split_concat(a: Seq<char>, sep: char, b: Seq<char>)
    ensures
        split_on(a + seq![sep] + b, sep) == split_on(a, sep) + split_on(b, sep),
    decreases b.len(),
{
    let s = a + seq![sep] + b;
    let pa = split_on(a, sep);
    if b.len() == 0 {
        assert(s.drop_last() =~= a);
        assert(split_on(s, sep) =~= pa + split_on(b, sep));
    } else {
        let f = b.drop_last();
        lemma_split_concat(a, sep, f);
        assert(s.drop_last() =~= a + seq![sep] + f);
        assert(s.last() == b.last());
        let pf = split_on(f, sep);
        lemma_split_on(f, sep);
        let r = pa + pf;
        assert(r.last() == pf.last());
        if b.last() == sep {
            assert(r.push(Seq::<char>::empty()) =~= pa + pf.push(Seq::<char>::empty()));
        } else {
            assert(r.drop_last() =~= pa + pf.drop_last());
            assert(r.drop_last().push(r.last().push(b.last())) =~= pa + pf.drop_last().push(pf.last().push(b.last())));
        }
    }
}

/// A text without the separator is one piece.
pub proof fn lemma_split_none(s: Seq<char>, sep: char)
    requires
        !s.contains(sep),
    ensures
        split_on(s, sep) == seq![s],
    decreases s.len(),
{
    if s.len() > 0 {
        let f = s.drop_last();
        assert(s.contains(s[s.len() - 1]));
        if f.contains(sep) {
            let i = choose|i: int| 0 <= i < f.len() && f[i] == sep;
            assert(s[i] == sep);
        }
        lemma_split_none(f, sep);
        assert(split_on(s, sep) =~= seq![f.push(s.last())]);
        assert(f.push(s.last()) =~= s);
    } else {
        assert(s =~= Seq::<char>::empty());
    }
}

/// Splitting undoes joining: pieces without the separator come back.
pub proof fn law_join_splits(parts: Seq<Seq<char>>, sep: char)
    requires
        parts.len() > 0,
        forall|i: int| 0 <= i < parts.len() ==> !(#[trigger] parts[i]).contains(sep),
    ensures
        split_on(join_with(parts, seq![sep]), sep) == parts,
    decreases parts.len(),
{
    if parts.len() == 1 {
        lemma_split_none(parts[0], sep);
        assert(parts =~= seq![parts[0]]);
    } else {
        let front = parts.drop_last();
        assert forall|i: int| 0 <= i < front.len() implies !(#[trigger] front[i]).contains(sep) by {
            assert(front[i] == parts[i]);
        }
        law_join_splits(front, sep);
        let last = parts[parts.len() - 1];
        lemma_split_concat(join_with(front, seq![sep]), sep, last);
        lemma_split_none(last, sep);
        assert(parts =~= front + seq![last]);
    }
}

/// The lines of a text hold every character of it but the line ends: between
/// two line feeds stands one line, without the carriage return in front of the
/// line feed; behind the last line feed stands one more, unless it is empty.
pub proof fn law_lines(s: Seq<char>)
    ensures
        forall|i: int| 0 <= i < lines_of(s).len() ==> !(#[trigger] lines_of(s)[i]).contains('\n'),
        !s.contains('\n') && s.len() > 0 ==> lines_of(s) == seq![s],
        s.len() == 0 ==> lines_of(s).len() == 0,
{
    lemma_split_on(s, '\n');
    let p = split_on(s, '\n');
    assert forall|i: int| 0 <= i < lines_of(s).len() implies !(#[trigger] lines_of(s)[i]).contains('\n') by {
        let l = lines_of(s)[i];
        let q = p[i];
        assert(l == q || l == q.drop_last());
        if l.contains('\n') {
            let k = choose|k: int| 0 <= k < l.len() && l[k] == '\n';
            assert(q[k] == '\n');
        }
    }
    if !s.contains('\n') {
        lemma_split_none(s, '\n');
        assert(p.drop_last() =~= Seq::<Seq<char>>::empty());
        assert(ended_lines(p.drop_last()) =~= Seq::<Seq<char>>::empty());
        if s.len() > 0 {
            assert(lines_of(s) =~= seq![s]);
        }
    }
}

/// A line in front of a text, ended by a line feed or by a carriage return and
/// a line feed, is its first line; the others stay.
pub proof fn law_first_line(line: Seq<char>, rest: Seq<char>)
    requires
        !line.contains('\n'),
    ensures
        line.len() == 0 || line.last() != '\r' ==> lines_of(line + seq!['\n'] + rest) == seq![line] + lines_of(rest),
        lines_of(line + seq!['\r', '\n'] + rest) == seq![line] + lines_of(rest),
{
    lemma_first_piece(line, rest);
    if line.len() == 0 || line.last() != '\r' {
        assert(without_cr(line) == line);
    }
    let cr = line.push('\r');
    if cr.contains('\n') {
        let i = choose|i: int| 0 <= i < cr.len() && cr[i] == '\n';
        assert(line[i] == '\n');
    }
    lemma_first_piece(cr, rest);
    assert(cr + seq!['\n'] + rest =~= line + seq!['\r', '\n'] + rest);
    assert(without_cr(cr) =~= line);
}

proof fn lemma_first_piece(piece: Seq<char>, rest: Seq<char>)
    requires
        !piece.contains('\n'),
    ensures
        lines_of(piece + seq!['\n'] + rest) == seq![without_cr(piece)] + lines_of(rest),
{
    lemma_split_concat(piece, '\n', rest);
    lemma_split_none(piece, '\n');
    lemma_split_on(rest, '\n');
    let p = split_on(rest, '\n');
    let q = seq![piece] + p;
    assert(q.drop_last() =~= seq![piece] + p.drop_last());
    assert(q.last() == p.last());
    assert(ended_lines(q.drop_last()) =~= seq![without_cr(piece)] + ended_lines(p.drop_last()));
    assert(ended_lines(q.drop_last()).push(p.last()) =~= seq![without_cr(piece)] + ended_lines(p.drop_last()).push(p.last()));
}

/// What is trimmed is white space at the ends and nothing else: the text is the
/// trimmed one between white space, and the trimmed one neither starts nor ends
/// with any.
pub proof fn law_trimmed(s: Seq<char>) -> (cut: (int, int))
    ensures
        0 <= cut.0 <= cut.1 <= s.len(),
        trimmed(s) == s.subrange(cut.0, cut.1),
        forall|i: int| 0 <= i < cut.0 ==> is_space(#[trigger] s[i]),
        forall|i: int| cut.1 <= i < s.len() ==> is_space(#[trigger] s[i]),
        cut.0 < cut.1 ==> !is_space(s[cut.0]) && !is_space(s[cut.1 - 1]),
{
    let a = lemma_trim_start(s);
    let t = trim_start_of(s);
    let b = lemma_trim_end(t);
    assert(t.take(b) =~= s.subrange(a, a + b));
    assert forall|i: int| a + b <= i < s.len() implies is_space(#[trigger] s[i]) by {
        assert(s[i] == t[i - a]);
    }
    if b > 0 {
        assert(t[b - 1] == s[a + b - 1]);
        assert(t[0] == s[a]);
    }
    (a, a + b)
}

proof fn lemma_trim_start(s: Seq<char>) -> (a: int)
    ensures
        0 <= a <= s.len(),
        trim_start_of(s) == s.skip(a),
        forall|i: int| 0 <= i < a ==> is_space(#[trigger] s[i]),
        a < s.len() ==> !is_space(s[a]),
    decreases s.len(),
{
    if s.len() > 0 && is_space(s[0]) {
        let f = s.drop_first();
        let a = lemma_trim_start(f);
        assert(f.skip(a) =~= s.skip(a + 1));
        assert forall|i: int| 0 <= i < a + 1 implies is_space(#[trigger] s[i]) by {
            if i > 0 {
                assert(s[i] == f[i - 1]);
            }
        }
        a + 1
    } else {
        assert(s.skip(0) =~= s);
        0
    }
}

proof fn lemma_trim_end(s: Seq<char>) -> (b: int)
    ensures
        0 <= b <= s.len(),
        trim_end_of(s) == s.take(b),
        forall|i: int| b <= i < s.len() ==> is_space(#[trigger] s[i]),
        b > 0 ==> !is_space(s[b - 1]),
    decreases s.len(),
{
    if s.len() > 0 && is_space(s.last()) {
        let f = s.drop_last();
        let b = lemma_trim_end(f);
        assert(f.take(b) =~= s.take(b));
        assert forall|i: int| b <= i < s.len() implies is_space(#[trigger] s[i]) by {
            if i < s.len() - 1 {
                assert(s[i] == f[i]);
            }
        }
        b
    } else {
        assert(s.take(s.len() as int) =~= s);
        s.len() as int
    }
}

/// The number that decimal digits stand for.
pub open spec fn decimal_value(s: Seq<char>) -> int
    decreases s.len(),
{
    if s.len() == 0 {
        0
    } else {
        10 * decimal_value(s.drop_last()) + (s.last() as int - '0' as int)
    }
}

/// The digits of a number stand for it, and start with no zero but for zero
/// itself.
pub proof fn law_decimal(n: nat)
    ensures
        decimal_value(decimal(n)) == n,
        forall|i: int| 0 <= i < decimal(n).len() ==> '0' <= #[trigger] decimal(n)[i] <= '9',
        n > 0 ==> decimal(n)[0] != '0',
        decimal(n).len() > 0,
    decreases n,
{
    if n < 10 {
        assert(decimal(n).drop_last() =~= Seq::<char>::empty());
        assert(decimal_value(Seq::<char>::empty()) == 0);
    } else {
        law_decimal(n / 10);
        assert(decimal(n).drop_last() =~= decimal(n / 10));
    }
}

/// Bytes made of two strings around a separator split into the records of both,
/// and bytes without the separator are one record.
pub proof fn law_split_bytes(a: Seq<u8>, sep: u8, b: Seq<u8>)
    ensures
        split_bytes_on(a + seq![sep] + b, sep) == split_bytes_on(a, sep) + split_bytes_on(b, sep),
        !a.contains(sep) ==> split_bytes_on(a, sep) == seq![a],
{
    lemma_split_bytes_concat(a, sep, b);
    if !a.contains(sep) {
        lemma_split_bytes_none(a, sep);
    }
}

proof fn lemma_split_bytes_concat(a: Seq<u8>, sep: u8, b: Seq<u8>)
    ensures
        split_bytes_on(a + seq![sep] + b, sep) == split_bytes_on(a, sep) + split_bytes_on(b, sep),
    decreases b.len(),
{
    let s = a + seq![sep] + b;
    let pa = split_bytes_on(a, sep);
    if b.len() == 0 {
        assert(s.drop_last() =~= a);
        assert(split_bytes_on(s, sep) =~= pa + split_bytes_on(b, sep));
    } else {
        let f = b.drop_last();
        lemma_split_bytes_concat(a, sep, f);
        assert(s.drop_last() =~= a + seq![sep] + f);
        assert(s.last() == b.last());
        let pf = split_bytes_on(f, sep);
        lemma_split_bytes_on(f, sep);
        let r = pa + pf;
        assert(r.last() == pf.last());
        if b.last() == sep {
            assert(r.push(Seq::<u8>::empty()) =~= pa + pf.push(Seq::<u8>::empty()));
        } else {
            assert(r.drop_last() =~= pa + pf.drop_last());
            assert(r.drop_last().push(r.last().push(b.last())) =~= pa + pf.drop_last().push(pf.last().push(b.last())));
        }
    }
}

proof fn lemma_split_bytes_none(s: Seq<u8>, sep: u8)
    requires
        !s.contains(sep),
    ensures
        split_bytes_on(s, sep) == seq![s],
    decreases s.len(),
{
    if s.len() > 0 {
        let f = s.drop_last();
        assert(s.contains(s[s.len() - 1]));
        if f.contains(sep) {
            let i = choose|i: int| 0 <= i < f.len() && f[i] == sep;
            assert(s[i] == sep);
        }
        lemma_split_bytes_none(f, sep);
        assert(split_bytes_on(s, sep) =~= seq![f.push(s.last())]);
        assert(f.push(s.last()) =~= s);
    } else {
        assert(s =~= Seq::<u8>::empty());
    }
}

/// What is dropped from the end of a text is that character and nothing else,
/// and none of it is left there.
pub proof fn law_without_trailing(s: Seq<char>, c: char)
    ensures
        without_trailing(s, c).len() <= s.len(),
        without_trailing(s, c) == s.take(without_trailing(s, c).len() as int),
        forall|i: int| without_trailing(s, c).len() <= i < s.len() ==> #[trigger] s[i] == c,
        without_trailing(s, c).len() > 0 ==> without_trailing(s, c).last() != c,
    decreases s.len(),
{
    if s.len() == 0 || s.last() != c {
        assert(s.take(s.len() as int) =~= s);
    } else {
        let f = s.drop_last();
        law_without_trailing(f, c);
        let n = without_trailing(s, c).len() as int;
        assert(f.take(n) =~= s.take(n));
        assert forall|i: int| n <= i < s.len() implies #[trigger] s[i] == c by {
            if i < f.len() {
                assert(f[i] == s[i]);
            }
        }
    }
}

/// One byte string is before another exactly if it is a proper beginning of it,
/// or is smaller at the first byte where they differ.
pub proof fn law_bytes_lt(a: Seq<u8>, b: Seq<u8>)
    ensures
        bytes_lt(a, b) <==> exists|k: int| 0 <= k <= a.len() && k < b.len() && #[trigger] a.take(k) == b.take(k) && (k == a.len() || a[k] < b[k]),
    decreases a.len(),
{
    if b.len() > 0 && a.len() > 0 {
        let x = a.drop_first();
        let y = b.drop_first();
        law_bytes_lt(x, y);
        if a[0] == b[0] {
            if bytes_lt(x, y) {
                let k = choose|k: int| 0 <= k <= x.len() && k < y.len() && #[trigger] x.take(k) == y.take(k) && (k == x.len() || x[k] < y[k]);
                assert(a.take(k + 1) =~= seq![a[0]] + x.take(k));
                assert(b.take(k + 1) =~= seq![b[0]] + y.take(k));
                assert(a.take(k + 1) == b.take(k + 1));
            }
            if exists|k: int| 0 <= k <= a.len() && k < b.len() && #[trigger] a.take(k) == b.take(k) && (k == a.len() || a[k] < b[k]) {
                let k = choose|k: int| 0 <= k <= a.len() && k < b.len() && #[trigger] a.take(k) == b.take(k) && (k == a.len() || a[k] < b[k]);
                assert(k > 0);
                assert(x.take(k - 1) =~= a.take(k).drop_first());
                assert(y.take(k - 1) =~= b.take(k).drop_first());
                assert(x.take(k - 1) == y.take(k - 1));
            }
        } else {
            if a[0] < b[0] {
                assert(a.take(0) =~= b.take(0));
            }
            if exists|k: int| 0 <= k <= a.len() && k < b.len() && #[trigger] a.take(k) == b.take(k) && (k == a.len() || a[k] < b[k]) {
                let k = choose|k: int| 0 <= k <= a.len() && k < b.len() && #[trigger] a.take(k) == b.take(k) && (k == a.len() || a[k] < b[k]);
                if k > 0 {
                    assert(a.take(k)[0] == b.take(k)[0]);
                }
            }
        }
    } else if b.len() > 0 {
        assert(a.take(0) =~= b.take(0));
    }
}

} // verus!
