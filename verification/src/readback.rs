//! What a row of fields says: the lists that go into a hash can be read back
//! from the bytes.

use crate::key::{all_hashes, env_fields, field, fields, file_fields, seconds, structural_field, structural_fields, StructuralContribution};
use crate::order::names_of;
use crate::text::{lemma_utf8_injective, strs, utf8};
use vstd::prelude::*;
use vstd::utf8::encode_scalar;

verus! {

/// A text without a zero character, which is what ends a field.
pub open spec fn is_plain(s: Seq<char>) -> bool {
    !s.contains('\0')
}

/// Every text of the list is plain.
pub open spec fn all_plain(v: Seq<Seq<char>>) -> bool {
    forall|i: int| 0 <= i < v.len() ==> is_plain(#[trigger] v[i])
}

proof fn lemma_scalar_bytes(c: char, b: u8)
    requires
        b < 0x80,
        c as u32 != b as u32,
    ensures
        !encode_scalar(c as u32).contains(b),
{
    let s = c as u32;
    vstd::utf8::char_is_scalar(c);
    assert(s <= 0x7F ==> (s & 0x7F) as u8 == s) by (bit_vector);
    assert(forall|x: u8| 0x80 <= #[trigger] (0xC0u8 | x)) by (bit_vector);
    assert(forall|x: u8| 0x80 <= #[trigger] (0xE0u8 | x)) by (bit_vector);
    assert(forall|x: u8| 0x80 <= #[trigger] (0xF0u8 | x)) by (bit_vector);
    assert(forall|x: u8| 0x80 <= #[trigger] (0x80u8 | x)) by (bit_vector);
}

/// A byte of ASCII occurs in an encoding only where its character occurs in
/// the text.
pub proof fn lemma_ascii_byte(s: Seq<char>, c: char)
    requires
        (c as u32) < 0x80,
        !s.contains(c),
    ensures
        !utf8(s).contains(c as u8),
    decreases s.len(),
{
    let b = c as u8;
    assert(b as u32 == c as u32);
    if s.len() > 0 {
        let rest = s.drop_first();
        assert(s.contains(s[0]));
        if rest.contains(c) {
            let i = choose|i: int| 0 <= i < rest.len() && rest[i] == c;
            assert(s[i + 1] == c);
        }
        lemma_ascii_byte(rest, c);
        let first: char = s[0];
        vstd::utf8::char_u32_cast(first, first as u32);
        vstd::utf8::char_u32_cast(c, c as u32);
        lemma_scalar_bytes(first, b);
        let head = encode_scalar(first as u32);
        let u = utf8(s);
        assert(u == head + utf8(rest));
        if u.contains(b) {
            let i = choose|i: int| 0 <= i < u.len() && u[i] == b;
            if i < head.len() {
                assert(head[i] == b);
            } else {
                assert(utf8(rest)[i - head.len()] == b);
            }
        }
    }
}

/// The encoding of two texts in a row.
pub proof fn lemma_utf8_concat(a: Seq<char>, b: Seq<char>)
    ensures
        utf8(a + b) == utf8(a) + utf8(b),
    decreases a.len(),
{
    if a.len() == 0 {
        assert(a + b =~= b);
        assert(utf8(a) + utf8(b) =~= utf8(b));
    } else {
        lemma_utf8_concat(a.drop_first(), b);
        assert((a + b).drop_first() =~= a.drop_first() + b);
        assert((a + b)[0] == a[0]);
        assert(utf8(a + b) =~= encode_scalar(a[0] as u32) + (utf8(a.drop_first()) + utf8(b)));
        assert(utf8(a) + utf8(b) =~= encode_scalar(a[0] as u32) + (utf8(a.drop_first()) + utf8(b)));
    }
}

/// What follows the same beginning is the same.
pub proof fn lemma_same_head(h: Seq<u8>, x: Seq<u8>, y: Seq<u8>)
    requires
        h + x == h + y,
    ensures
        x == y,
{
    assert(x =~= (h + x).skip(h.len() as int));
    assert(y =~= (h + y).skip(h.len() as int));
}

/// Beginnings of the same length are the same, and so is what follows.
pub proof fn lemma_even_head(g: Seq<u8>, x: Seq<u8>, h: Seq<u8>, y: Seq<u8>)
    requires
        g.len() == h.len(),
        g + x == h + y,
    ensures
        g == h,
        x == y,
{
    assert(g =~= (g + x).take(g.len() as int));
    assert(h =~= (h + y).take(g.len() as int));
    lemma_same_head(g, x, y);
}

proof fn lemma_field_not_shorter(a: Seq<char>, x: Seq<u8>, b: Seq<char>, y: Seq<u8>)
    requires
        is_plain(b),
        field(a) + x == field(b) + y,
    ensures
        utf8(a).len() >= utf8(b).len(),
{
    lemma_ascii_byte(b, '\0');
    let n = utf8(a).len() as int;
    if n < utf8(b).len() {
        assert((field(a) + x)[n] == 0);
        assert((field(b) + y)[n] == utf8(b)[n]);
        assert(utf8(b).contains(0u8));
    }
}

/// The field that some bytes begin with can be read back.
pub proof fn lemma_field_head(a: Seq<char>, x: Seq<u8>, b: Seq<char>, y: Seq<u8>)
    requires
        is_plain(a),
        is_plain(b),
        field(a) + x == field(b) + y,
    ensures
        a == b,
        x == y,
{
    lemma_field_not_shorter(a, x, b, y);
    lemma_field_not_shorter(b, y, a, x);
    lemma_even_head(field(a), x, field(b), y);
    assert(utf8(a) =~= field(a).drop_last());
    assert(utf8(b) =~= field(b).drop_last());
    lemma_utf8_injective(a, b);
}

proof fn lemma_fields_first(v: Seq<Seq<char>>)
    requires
        v.len() > 0,
    ensures
        fields(v) == field(v[0]) + fields(v.drop_first()),
    decreases v.len(),
{
    let w = v.drop_last();
    if w.len() == 0 {
        assert(fields(w) =~= Seq::<u8>::empty() && fields(v.drop_first()) =~= Seq::<u8>::empty());
        assert(fields(v) =~= field(v[0]) + fields(v.drop_first()));
    } else {
        lemma_fields_first(w);
        assert(v.drop_first().drop_last() =~= w.drop_first());
        assert(v.drop_first().last() == v.last());
        assert(fields(v) =~= field(v[0]) + (fields(w.drop_first()) + field(v.last())));
    }
}

proof fn lemma_drop_first_plain(v: Seq<Seq<char>>)
    requires
        v.len() > 0,
        all_plain(v),
    ensures
        is_plain(v[0]),
        all_plain(v.drop_first()),
{
    assert forall|i: int| 0 <= i < v.drop_first().len() implies is_plain(#[trigger] v.drop_first()[i]) by {
        assert(is_plain(v[i + 1]));
    }
}

proof fn lemma_drop_first_contains<A>(v: Seq<A>, x: A)
    requires
        v.len() > 0,
        !v.contains(x),
    ensures
        v[0] != x,
        !v.drop_first().contains(x),
{
    assert(v.contains(v[0]));
    let w = v.drop_first();
    if w.contains(x) {
        let i = choose|i: int| 0 <= i < w.len() && w[i] == x;
        assert(v[i + 1] == x);
    }
}

/// A list of texts up to a mark that is none of them can be read back.
pub proof fn lemma_fields_to_mark(a: Seq<Seq<char>>, x: Seq<u8>, b: Seq<Seq<char>>, y: Seq<u8>, mark: Seq<char>)
    requires
        all_plain(a),
        all_plain(b),
        is_plain(mark),
        !a.contains(mark),
        !b.contains(mark),
        fields(a) + (field(mark) + x) == fields(b) + (field(mark) + y),
    ensures
        a == b,
        x == y,
    decreases a.len(),
{
    if a.len() > 0 {
        lemma_fields_first(a);
        lemma_drop_first_plain(a);
        lemma_drop_first_contains(a, mark);
        assert(fields(a) + (field(mark) + x) =~= field(a[0]) + (fields(a.drop_first()) + (field(mark) + x)));
    } else {
        assert(fields(a) + (field(mark) + x) =~= field(mark) + x);
    }
    if b.len() > 0 {
        lemma_fields_first(b);
        lemma_drop_first_plain(b);
        lemma_drop_first_contains(b, mark);
        assert(fields(b) + (field(mark) + y) =~= field(b[0]) + (fields(b.drop_first()) + (field(mark) + y)));
    } else {
        assert(fields(b) + (field(mark) + y) =~= field(mark) + y);
    }
    if a.len() > 0 && b.len() > 0 {
        lemma_field_head(a[0], fields(a.drop_first()) + (field(mark) + x), b[0], fields(b.drop_first()) + (field(mark) + y));
        lemma_fields_to_mark(a.drop_first(), x, b.drop_first(), y, mark);
        assert(a =~= seq![a[0]] + a.drop_first());
        assert(b =~= seq![b[0]] + b.drop_first());
    } else if a.len() > 0 {
        lemma_field_head(a[0], fields(a.drop_first()) + (field(mark) + x), mark, y);
    } else if b.len() > 0 {
        lemma_field_head(mark, x, b[0], fields(b.drop_first()) + (field(mark) + y));
    } else {
        lemma_field_head(mark, x, mark, y);
        assert(a =~= b);
    }
}

/// A list of texts can be read back.
pub proof fn lemma_fields_read(a: Seq<Seq<char>>, b: Seq<Seq<char>>)
    requires
        all_plain(a),
        all_plain(b),
        fields(a) == fields(b),
    ensures
        a == b,
    decreases a.len(),
{
    if a.len() > 0 {
        lemma_fields_first(a);
        lemma_drop_first_plain(a);
    }
    if b.len() > 0 {
        lemma_fields_first(b);
        lemma_drop_first_plain(b);
    }
    if a.len() > 0 && b.len() > 0 {
        lemma_field_head(a[0], fields(a.drop_first()), b[0], fields(b.drop_first()));
        lemma_fields_read(a.drop_first(), b.drop_first());
        assert(a =~= seq![a[0]] + a.drop_first());
        assert(b =~= seq![b[0]] + b.drop_first());
    } else {
        assert(fields(a).len() == 0 && fields(b).len() == 0);
        assert(a =~= b);
    }
}

proof fn lemma_file_fields_first(v: Seq<(Seq<char>, Seq<u8>)>)
    requires
        v.len() > 0,
    ensures
        file_fields(v) == field(v[0].0) + (v[0].1.push(0) + file_fields(v.drop_first())),
    decreases v.len(),
{
    let w = v.drop_last();
    if w.len() == 0 {
        assert(file_fields(w) =~= Seq::<u8>::empty() && file_fields(v.drop_first()) =~= Seq::<u8>::empty());
        assert(file_fields(v) =~= field(v[0].0) + (v[0].1.push(0) + file_fields(v.drop_first())));
    } else {
        lemma_file_fields_first(w);
        assert(v.drop_first().drop_last() =~= w.drop_first());
        assert(v.drop_first().last() == v.last());
        assert(file_fields(v) =~= field(v[0].0) + (v[0].1.push(0) + (file_fields(w.drop_first()) + field(v.last().0) + v.last().1.push(0))));
    }
}

/// Plain paths, each with a hash.
pub open spec fn is_listing(v: Seq<(Seq<char>, Seq<u8>)>) -> bool {
    all_plain(names_of(v)) && all_hashes(seconds(v))
}

proof fn lemma_drop_first_listing(v: Seq<(Seq<char>, Seq<u8>)>)
    requires
        v.len() > 0,
        is_listing(v),
    ensures
        is_plain(v[0].0),
        v[0].1.len() == 32,
        is_listing(v.drop_first()),
        names_of(v)[0] == v[0].0,
        names_of(v.drop_first()) == names_of(v).drop_first(),
{
    let w = v.drop_first();
    assert(names_of(w) =~= names_of(v).drop_first());
    assert(seconds(w) =~= seconds(v).drop_first());
    lemma_drop_first_plain(names_of(v));
    assert(seconds(v)[0] == v[0].1);
    assert forall|i: int| 0 <= i < seconds(w).len() implies (#[trigger] seconds(w)[i]).len() == 32 by {
        assert(seconds(v)[i + 1].len() == 32);
    }
}

/// A listing can be read back.
pub proof fn lemma_listing_read(a: Seq<(Seq<char>, Seq<u8>)>, b: Seq<(Seq<char>, Seq<u8>)>)
    requires
        is_listing(a),
        is_listing(b),
        file_fields(a) == file_fields(b),
    ensures
        a == b,
    decreases a.len(),
{
    if a.len() > 0 {
        lemma_file_fields_first(a);
        lemma_drop_first_listing(a);
    }
    if b.len() > 0 {
        lemma_file_fields_first(b);
        lemma_drop_first_listing(b);
    }
    if a.len() > 0 && b.len() > 0 {
        let x = a[0].1.push(0) + file_fields(a.drop_first());
        let y = b[0].1.push(0) + file_fields(b.drop_first());
        lemma_field_head(a[0].0, x, b[0].0, y);
        lemma_even_head(a[0].1.push(0), file_fields(a.drop_first()), b[0].1.push(0), file_fields(b.drop_first()));
        assert(a[0].1 =~= a[0].1.push(0).drop_last());
        assert(b[0].1 =~= b[0].1.push(0).drop_last());
        lemma_listing_read(a.drop_first(), b.drop_first());
        assert(a =~= seq![a[0]] + a.drop_first());
        assert(b =~= seq![b[0]] + b.drop_first());
    } else {
        assert(file_fields(a).len() == 0 && file_fields(b).len() == 0);
        assert(a =~= b);
    }
}

/// A listing up to a mark that is none of its paths can be read back.
pub proof fn lemma_listing_to_mark(a: Seq<(Seq<char>, Seq<u8>)>, x: Seq<u8>, b: Seq<(Seq<char>, Seq<u8>)>, y: Seq<u8>, mark: Seq<char>)
    requires
        is_listing(a),
        is_listing(b),
        is_plain(mark),
        !names_of(a).contains(mark),
        !names_of(b).contains(mark),
        file_fields(a) + (field(mark) + x) == file_fields(b) + (field(mark) + y),
    ensures
        a == b,
        x == y,
    decreases a.len(),
{
    let p = field(mark) + x;
    let q = field(mark) + y;
    if a.len() > 0 {
        lemma_file_fields_first(a);
        lemma_drop_first_listing(a);
        lemma_drop_first_contains(names_of(a), mark);
        assert(file_fields(a) + p =~= field(a[0].0) + (a[0].1.push(0) + (file_fields(a.drop_first()) + p)));
    } else {
        assert(file_fields(a) + p =~= p);
    }
    if b.len() > 0 {
        lemma_file_fields_first(b);
        lemma_drop_first_listing(b);
        lemma_drop_first_contains(names_of(b), mark);
        assert(file_fields(b) + q =~= field(b[0].0) + (b[0].1.push(0) + (file_fields(b.drop_first()) + q)));
    } else {
        assert(file_fields(b) + q =~= q);
    }
    if a.len() > 0 && b.len() > 0 {
        let ra = file_fields(a.drop_first()) + p;
        let rb = file_fields(b.drop_first()) + q;
        lemma_field_head(a[0].0, a[0].1.push(0) + ra, b[0].0, b[0].1.push(0) + rb);
        lemma_even_head(a[0].1.push(0), ra, b[0].1.push(0), rb);
        assert(a[0].1 =~= a[0].1.push(0).drop_last());
        assert(b[0].1 =~= b[0].1.push(0).drop_last());
        lemma_listing_to_mark(a.drop_first(), x, b.drop_first(), y, mark);
        assert(a =~= seq![a[0]] + a.drop_first());
        assert(b =~= seq![b[0]] + b.drop_first());
    } else if a.len() > 0 {
        lemma_field_head(a[0].0, a[0].1.push(0) + (file_fields(a.drop_first()) + p), mark, y);
    } else if b.len() > 0 {
        lemma_field_head(mark, x, b[0].0, b[0].1.push(0) + (file_fields(b.drop_first()) + q));
    } else {
        lemma_field_head(mark, x, mark, y);
        assert(a =~= b);
    }
}

/// A variable as it stands in the environment section.
pub open spec fn assignment(p: (Seq<char>, Seq<char>)) -> Seq<char> {
    p.0 + "="@ + p.1
}

pub open spec fn assignments(v: Seq<(Seq<char>, Seq<char>)>) -> Seq<Seq<char>> {
    v.map_values(|p: (Seq<char>, Seq<char>)| assignment(p))
}

/// Plain variables: no name holds an equals sign.
pub open spec fn is_environment(v: Seq<(Seq<char>, Seq<char>)>) -> bool {
    forall|i: int| 0 <= i < v.len() ==> is_plain((#[trigger] v[i]).0) && is_plain(v[i].1) && !v[i].0.contains('=')
}

/// The variables are fields, one for each assignment.
pub proof fn lemma_env_fields(v: Seq<(Seq<char>, Seq<char>)>)
    ensures
        env_fields(v) == fields(assignments(v)),
    decreases v.len(),
{
    if v.len() > 0 {
        let w = v.drop_last();
        lemma_env_fields(w);
        assert(assignments(v).drop_last() =~= assignments(w));
        assert(assignments(v).last() == assignment(v.last()));
        lemma_utf8_concat(v.last().0, "="@);
        lemma_utf8_concat(v.last().0 + "="@, v.last().1);
        assert(field(assignment(v.last())) =~= utf8(v.last().0) + utf8("="@) + field(v.last().1));
        assert(env_fields(v) =~= env_fields(w) + (utf8(v.last().0) + utf8("="@) + field(v.last().1)));
    }
}

proof fn lemma_assignment_read(p: (Seq<char>, Seq<char>), q: (Seq<char>, Seq<char>))
    requires
        !p.0.contains('='),
        !q.0.contains('='),
        assignment(p) == assignment(q),
    ensures
        p == q,
{
    reveal_strlit("=");
    let s = assignment(p);
    let t = assignment(q);
    let m = p.0.len() as int;
    let n = q.0.len() as int;
    assert(s[m] == '=');
    assert(t[n] == '=');
    if m < n {
        assert(t[m] == q.0[m]);
        assert(q.0.contains('='));
    }
    if n < m {
        assert(s[n] == p.0[n]);
        assert(p.0.contains('='));
    }
    assert(p.0 =~= s.take(m));
    assert(q.0 =~= t.take(m));
    assert(p.1 =~= s.skip(m + 1));
    assert(q.1 =~= t.skip(m + 1));
}

proof fn lemma_assignments_plain(v: Seq<(Seq<char>, Seq<char>)>)
    requires
        is_environment(v),
    ensures
        all_plain(assignments(v)),
        forall|m: Seq<char>| !m.contains('=') ==> !assignments(v).contains(m),
{
    reveal_strlit("=");
    let t = assignments(v);
    assert forall|i: int| 0 <= i < t.len() implies is_plain(#[trigger] t[i]) by {
        let p = v[i];
        assert(t[i] == assignment(p));
        if t[i].contains('\0') {
            let k = choose|k: int| 0 <= k < t[i].len() && t[i][k] == '\0';
            if k < p.0.len() {
                assert(p.0[k] == '\0');
            } else if k > p.0.len() {
                assert(p.1[k - p.0.len() - 1] == '\0');
            }
        }
    }
    assert forall|m: Seq<char>| !m.contains('=') implies !t.contains(m) by {
        if t.contains(m) {
            let i = choose|i: int| 0 <= i < t.len() && t[i] == m;
            assert(t[i] == assignment(v[i]));
            assert(m[v[i].0.len() as int] == '=');
        }
    }
}

proof fn lemma_assignments_injective(a: Seq<(Seq<char>, Seq<char>)>, b: Seq<(Seq<char>, Seq<char>)>)
    requires
        is_environment(a),
        is_environment(b),
        assignments(a) == assignments(b),
    ensures
        a == b,
{
    assert(a.len() == assignments(a).len() && b.len() == assignments(b).len());
    assert forall|i: int| 0 <= i < a.len() implies a[i] == b[i] by {
        assert(assignments(a)[i] == assignment(a[i]));
        assert(assignments(b)[i] == assignment(b[i]));
        lemma_assignment_read(a[i], b[i]);
    }
    assert(a =~= b);
}

/// Variables can be read back.
pub proof fn lemma_env_read(a: Seq<(Seq<char>, Seq<char>)>, b: Seq<(Seq<char>, Seq<char>)>)
    requires
        is_environment(a),
        is_environment(b),
        env_fields(a) == env_fields(b),
    ensures
        a == b,
{
    lemma_env_fields(a);
    lemma_env_fields(b);
    lemma_assignments_plain(a);
    lemma_assignments_plain(b);
    lemma_fields_read(assignments(a), assignments(b));
    lemma_assignments_injective(a, b);
}

/// Variables up to a mark that is no assignment can be read back.
pub proof fn lemma_env_to_mark(a: Seq<(Seq<char>, Seq<char>)>, x: Seq<u8>, b: Seq<(Seq<char>, Seq<char>)>, y: Seq<u8>, mark: Seq<char>)
    requires
        is_environment(a),
        is_environment(b),
        is_plain(mark),
        !mark.contains('='),
        env_fields(a) + (field(mark) + x) == env_fields(b) + (field(mark) + y),
    ensures
        a == b,
        x == y,
{
    lemma_env_fields(a);
    lemma_env_fields(b);
    lemma_assignments_plain(a);
    lemma_assignments_plain(b);
    lemma_fields_to_mark(assignments(a), x, assignments(b), y, mark);
    lemma_assignments_injective(a, b);
}

/// Plain texts none of which is the bar that ends a list.
pub open spec fn is_barred(v: Seq<Seq<char>>) -> bool {
    all_plain(v) && !v.contains("|"@)
}

/// What a fingerprint input reads can be told from the bars between.
pub open spec fn is_reading(s: StructuralContribution) -> bool {
    is_barred(strs(s.files@)) && is_barred(strs(s.lines@)) && is_barred(strs(s.scope@))
}

/// The same reading with the same fingerprint.
pub open spec fn same_structural(a: StructuralContribution, b: StructuralContribution) -> bool {
    crate::key::same_reading(a, b) && a.fingerprint@ == b.fingerprint@
}

proof fn lemma_structural_head(a: StructuralContribution, x: Seq<u8>, b: StructuralContribution, y: Seq<u8>)
    requires
        is_reading(a),
        is_reading(b),
        structural_field(a) + x == structural_field(b) + y,
    ensures
        same_structural(a, b),
        x == y,
{
    lemma_bar_plain();
    a.fingerprint.lemma_len();
    b.fingerprint.lemma_len();
    let bar = field("|"@);
    let a4 = a.fingerprint@.push(0) + x;
    let a3 = fields(strs(a.scope@)) + (bar + a4);
    let a2 = fields(strs(a.lines@)) + (bar + a3);
    let b4 = b.fingerprint@.push(0) + y;
    let b3 = fields(strs(b.scope@)) + (bar + b4);
    let b2 = fields(strs(b.lines@)) + (bar + b3);
    lemma_structural_shape(fields(strs(a.files@)), fields(strs(a.lines@)), fields(strs(a.scope@)), bar, a.fingerprint@.push(0), x);
    lemma_structural_shape(fields(strs(b.files@)), fields(strs(b.lines@)), fields(strs(b.scope@)), bar, b.fingerprint@.push(0), y);
    lemma_fields_to_mark(strs(a.files@), a2, strs(b.files@), b2, "|"@);
    lemma_fields_to_mark(strs(a.lines@), a3, strs(b.lines@), b3, "|"@);
    lemma_fields_to_mark(strs(a.scope@), a4, strs(b.scope@), b4, "|"@);
    lemma_even_head(a.fingerprint@.push(0), x, b.fingerprint@.push(0), y);
    assert(a.fingerprint@ =~= a.fingerprint@.push(0).drop_last());
    assert(b.fingerprint@ =~= b.fingerprint@.push(0).drop_last());
}

proof fn lemma_bar_plain()
    ensures
        is_plain("|"@),
{
    reveal_strlit("|");
}

proof fn lemma_structural_shape(f: Seq<u8>, l: Seq<u8>, s: Seq<u8>, bar: Seq<u8>, h: Seq<u8>, x: Seq<u8>)
    ensures
        f + bar + l + bar + s + bar + h + x == f + (bar + (l + (bar + (s + (bar + (h + x)))))),
{
    assert(f + bar + l + bar + s + bar + h + x =~= f + (bar + (l + (bar + (s + (bar + (h + x)))))));
}

proof fn lemma_structural_fields_first(v: Seq<StructuralContribution>)
    requires
        v.len() > 0,
    ensures
        structural_fields(v) == structural_field(v[0]) + structural_fields(v.drop_first()),
    decreases v.len(),
{
    let w = v.drop_last();
    if w.len() == 0 {
        assert(structural_fields(w) =~= Seq::<u8>::empty() && structural_fields(v.drop_first()) =~= Seq::<u8>::empty());
        assert(structural_fields(v) =~= structural_field(v[0]) + structural_fields(v.drop_first()));
    } else {
        lemma_structural_fields_first(w);
        assert(v.drop_first().drop_last() =~= w.drop_first());
        assert(v.drop_first().last() == v.last());
        assert(structural_fields(v) =~= structural_field(v[0]) + (structural_fields(w.drop_first()) + structural_field(v.last())));
    }
}

/// Every fingerprint input of the list can be told.
pub open spec fn all_readings(v: Seq<StructuralContribution>) -> bool {
    forall|i: int| 0 <= i < v.len() ==> is_reading(#[trigger] v[i])
}

/// The lists read the same with the same fingerprints.
pub open spec fn same_structurals(a: Seq<StructuralContribution>, b: Seq<StructuralContribution>) -> bool {
    a.len() == b.len() && forall|i: int| 0 <= i < a.len() ==> same_structural(#[trigger] a[i], b[i])
}

proof fn lemma_same_structurals_step(a: Seq<StructuralContribution>, b: Seq<StructuralContribution>)
    requires
        a.len() > 0,
        b.len() > 0,
        same_structural(a[0], b[0]),
        same_structurals(a.drop_first(), b.drop_first()),
    ensures
        same_structurals(a, b),
{
    assert forall|i: int| 0 <= i < a.len() implies same_structural(#[trigger] a[i], b[i]) by {
        if i > 0 {
            assert(same_structural(a.drop_first()[i - 1], b.drop_first()[i - 1]));
        }
    }
}

/// Fingerprint inputs can be read back.
pub proof fn lemma_structurals_read(a: Seq<StructuralContribution>, b: Seq<StructuralContribution>)
    requires
        all_readings(a),
        all_readings(b),
        structural_fields(a) == structural_fields(b),
    ensures
        same_structurals(a, b),
    decreases a.len(),
{
    if a.len() > 0 {
        lemma_structural_fields_first(a);
        assert(structural_field(a[0]).len() > 0);
    }
    if b.len() > 0 {
        lemma_structural_fields_first(b);
        assert(structural_field(b[0]).len() > 0);
    }
    if a.len() > 0 && b.len() > 0 {
        lemma_structural_head(a[0], structural_fields(a.drop_first()), b[0], structural_fields(b.drop_first()));
        assert forall|i: int| 0 <= i < a.drop_first().len() implies is_reading(#[trigger] a.drop_first()[i]) by {
            assert(is_reading(a[i + 1]));
        }
        assert forall|i: int| 0 <= i < b.drop_first().len() implies is_reading(#[trigger] b.drop_first()[i]) by {
            assert(is_reading(b[i + 1]));
        }
        lemma_structurals_read(a.drop_first(), b.drop_first());
        lemma_same_structurals_step(a, b);
    } else {
        assert(structural_fields(a).len() == 0 && structural_fields(b).len() == 0);
    }
}

proof fn lemma_structural_starts(s: StructuralContribution, x: Seq<u8>, mark: Seq<char>, y: Seq<u8>)
    requires
        is_reading(s),
        is_plain(mark),
        mark != "|"@,
        !strs(s.files@).contains(mark),
    ensures
        structural_field(s) + x != field(mark) + y,
{
    lemma_bar_plain();
    let bar = field("|"@);
    let f = strs(s.files@);
    let rest = fields(strs(s.lines@)) + (bar + (fields(strs(s.scope@)) + (bar + (s.fingerprint@.push(0) + x))));
    lemma_structural_shape(fields(f), fields(strs(s.lines@)), fields(strs(s.scope@)), bar, s.fingerprint@.push(0), x);
    if structural_field(s) + x == field(mark) + y {
        if f.len() == 0 {
            assert(fields(f) + (bar + rest) =~= bar + rest);
            lemma_field_head("|"@, rest, mark, y);
        } else {
            lemma_fields_first(f);
            lemma_drop_first_plain(f);
            lemma_drop_first_contains(f, mark);
            assert(fields(f) + (bar + rest) =~= field(f[0]) + (fields(f.drop_first()) + (bar + rest)));
            lemma_field_head(f[0], fields(f.drop_first()) + (bar + rest), mark, y);
        }
    }
}

/// No fingerprint input of the list reads a file of that name.
pub open spec fn reads_no(v: Seq<StructuralContribution>, name: Seq<char>) -> bool {
    forall|i: int| 0 <= i < v.len() ==> !strs((#[trigger] v[i]).files@).contains(name)
}

/// Fingerprint inputs up to a mark that is no file of theirs can be read back.
pub proof fn lemma_structurals_to_mark(a: Seq<StructuralContribution>, x: Seq<u8>, b: Seq<StructuralContribution>, y: Seq<u8>, mark: Seq<char>)
    requires
        all_readings(a),
        all_readings(b),
        is_plain(mark),
        mark != "|"@,
        reads_no(a, mark),
        reads_no(b, mark),
        structural_fields(a) + (field(mark) + x) == structural_fields(b) + (field(mark) + y),
    ensures
        same_structurals(a, b),
        x == y,
    decreases a.len(),
{
    let p = field(mark) + x;
    let q = field(mark) + y;
    let da = a.drop_first();
    let db = b.drop_first();
    if a.len() > 0 {
        lemma_structural_fields_first(a);
        assert(structural_fields(a) + p =~= structural_field(a[0]) + (structural_fields(da) + p));
    } else {
        assert(structural_fields(a) + p =~= p);
    }
    if b.len() > 0 {
        lemma_structural_fields_first(b);
        assert(structural_fields(b) + q =~= structural_field(b[0]) + (structural_fields(db) + q));
    } else {
        assert(structural_fields(b) + q =~= q);
    }
    if a.len() > 0 && b.len() > 0 {
        lemma_structural_head(a[0], structural_fields(da) + p, b[0], structural_fields(db) + q);
        assert forall|i: int| 0 <= i < da.len() implies is_reading(#[trigger] da[i]) && !strs(da[i].files@).contains(mark) by {
            assert(is_reading(a[i + 1]) && !strs(a[i + 1].files@).contains(mark));
        }
        assert forall|i: int| 0 <= i < db.len() implies is_reading(#[trigger] db[i]) && !strs(db[i].files@).contains(mark) by {
            assert(is_reading(b[i + 1]) && !strs(b[i + 1].files@).contains(mark));
        }
        lemma_structurals_to_mark(da, x, db, y, mark);
        lemma_same_structurals_step(a, b);
    } else if a.len() > 0 {
        lemma_structural_starts(a[0], structural_fields(da) + p, mark, y);
    } else if b.len() > 0 {
        lemma_structural_starts(b[0], structural_fields(db) + q, mark, x);
    } else {
        lemma_field_head(mark, x, mark, y);
    }
}

} // verus!
