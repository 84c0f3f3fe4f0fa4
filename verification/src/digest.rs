//! SHA-256 digests and their hexadecimal form.

use crate::text::utf8;
use vstd::prelude::*;

verus! {

/// The SHA-256 digest of a byte string.
pub uninterp spec fn sha256(data: Seq<u8>) -> Seq<u8>;

/// `sha2::Sha256::digest`. Trusted: the result is the digest of `data`, a
/// function of the bytes alone; what that function is on given bytes is left
/// unsaid.
#[verifier::external_body]
pub(crate) fn sha256_digest(data: &[u8]) -> (r: [u8; 32])
    ensures
        r@ == sha256(data@),
{
    <sha2::Sha256 as sha2::Digest>::digest(data).into()
}

/// `sha2::Sha256`, the hasher that takes its input piece by piece, opaque to
/// proofs.
#[verifier::external_body]
pub struct StreamHasher {
    inner: sha2::Sha256,
}

/// What a hasher was fed, in order.
pub uninterp spec fn fed_bytes(h: StreamHasher) -> Seq<u8>;

/// `sha2::Sha256::new`. Trusted: a new hasher was fed nothing.
#[verifier::external_body]
pub(crate) fn stream_new() -> (r: StreamHasher)
    ensures
        fed_bytes(r) == Seq::<u8>::empty(),
{
    StreamHasher { inner: <sha2::Sha256 as sha2::Digest>::new() }
}

/// `sha2::Sha256::update`. Trusted: the bytes go behind what was fed before.
/// Inputs too long for their count of bits to fit sixty-four bits, which no
/// machine holds, are left aside, here and for the digest.
#[verifier::external_body]
pub(crate) fn stream_update(h: &mut StreamHasher, data: &[u8])
    ensures
        fed_bytes(*final(h)) == fed_bytes(*old(h)) + data@,
{
    sha2::Digest::update(&mut h.inner, data)
}

/// `sha2::Sha256::finalize`. Trusted: the result is the digest of all that was
/// fed, the same that `sha2::Sha256::digest` gives for it in one piece.
#[verifier::external_body]
pub(crate) fn stream_finalize(h: StreamHasher) -> (r: [u8; 32])
    ensures
        r@ == sha256(fed_bytes(h)),
{
    sha2::Digest::finalize(h.inner).into()
}

/// The lowercase hexadecimal digit of a value below sixteen.
pub open spec fn hex_char(d: int) -> char {
    if d < 10 {
        (('0' as int) + d) as char
    } else {
        (('a' as int) + d - 10) as char
    }
}

/// Two lowercase hexadecimal digits for each byte.
pub open spec fn hex_of(data: Seq<u8>) -> Seq<char> {
    Seq::new(
        data.len() * 2,
        |i: int|
            if i % 2 == 0 {
                hex_char(data[i / 2] as int / 16)
            } else {
                hex_char(data[i / 2] as int % 16)
            },
    )
}

/// The value of a hexadecimal digit of either case.
pub open spec fn hex_value(b: u8) -> Option<int> {
    if 0x30 <= b <= 0x39 {
        Some(b - 0x30)
    } else if 0x61 <= b <= 0x66 {
        Some(b - 0x61 + 10)
    } else if 0x41 <= b <= 0x46 {
        Some(b - 0x41 + 10)
    } else {
        None
    }
}

/// The digits of `s`: what is left without a leading `0x` or `0X`.
pub open spec fn hex_digits(s: Seq<u8>) -> Seq<u8> {
    if s.len() >= 2 && s[0] == 0x30 && (s[1] == 0x78 || s[1] == 0x58) {
        s.skip(2)
    } else {
        s
    }
}

/// `s` is an even number of bytes, all of them hexadecimal digits behind the
/// optional prefix.
pub open spec fn is_hex(s: Seq<u8>) -> bool {
    &&& s.len() % 2 == 0
    &&& forall|i: int| 0 <= i < hex_digits(s).len() ==> hex_value(#[trigger] hex_digits(s)[i]) is Some
}

/// The bytes that a hexadecimal string stands for.
pub open spec fn unhex(s: Seq<u8>) -> Seq<u8> {
    let d = hex_digits(s);
    Seq::new(
        d.len() / 2,
        |i: int| (16 * hex_value(d[2 * i])->0 + hex_value(d[2 * i + 1])->0) as u8,
    )
}

/// `s` is sixty-four hexadecimal digits of either case.
pub open spec fn is_digest_hex(s: Seq<u8>) -> bool {
    s.len() == 64 && forall|i: int| 0 <= i < 64 ==> hex_value(#[trigger] s[i]) is Some
}

/// Sixty-four digits stand for thirty-two bytes, and nothing else of their
/// length that decodes does.
pub proof fn lemma_digest_hex(s: Seq<u8>)
    requires
        s.len() == 64,
    ensures
        is_digest_hex(s) <==> is_hex(s) && unhex(s).len() == 32,
{
    if is_digest_hex(s) {
        assert(hex_value(s[1]) is Some);
        assert(hex_digits(s) == s);
        assert(is_hex(s));
    }
    if is_hex(s) && unhex(s).len() == 32 {
        assert(hex_digits(s) == s) by {
            if s[0] == 0x30 && (s[1] == 0x78 || s[1] == 0x58) {
                assert(hex_digits(s).len() == 62);
            }
        }
        assert forall|i: int| 0 <= i < 64 implies hex_value(#[trigger] s[i]) is Some by {
            assert(hex_digits(s)[i] == s[i]);
        }
    }
}

/// `const_hex::encode`. Trusted: two lowercase digits for each byte, in order.
#[verifier::external_body]
pub(crate) fn hex_encode(data: &[u8]) -> (r: String)
    ensures
        r@ == hex_of(data@),
{
    const_hex::encode(data)
}

/// `const_hex::decode`. Trusted: it succeeds on an even number of hexadecimal
/// digits of either case behind an optional `0x`, and on nothing else; the
/// result is one byte for each pair of digits.
#[verifier::external_body]
pub(crate) fn hex_decode(s: &str) -> (r: Option<Vec<u8>>)
    ensures
        r is Some <==> is_hex(utf8(s@)),
        r matches Some(v) ==> v@ == unhex(utf8(s@)),
{
    const_hex::decode(s).ok()
}

/// Reading a digest back from its hexadecimal form gives the digest.
pub proof fn lemma_unhex_hex(data: Seq<u8>)
    ensures
        is_hex(utf8(hex_of(data))),
        unhex(utf8(hex_of(data))) == data,
        utf8(hex_of(data)).len() == 2 * data.len(),
{
    let h = hex_of(data);
    let u = utf8(h);
    assert forall|i: int| 0 <= i < h.len() implies 0 <= (#[trigger] h[i]) as int <= 0x7f && h[i] != 'x' && h[i] != 'X' && (0x30 <= h[i] as int <= 0x39 || 0x61 <= h[i] as int <= 0x66) by {
        let b = data[i / 2] as int;
        assert(0 <= b / 16 < 16);
        assert(0 <= b % 16 < 16);
    }
    assert(vstd::utf8::is_ascii_chars(h));
    vstd::utf8::is_ascii_chars_encode_utf8(h);
    assert(u.len() == h.len());
    assert(forall|i: int| 0 <= i < h.len() ==> u[i] as int == h[i] as int);
    if u.len() >= 2 {
        assert(u[1] as int == h[1] as int);
    }
    assert(hex_digits(u) == u);
    assert forall|i: int| 0 <= i < data.len() implies unhex(u)[i] == data[i] by {
        let b = data[i] as int;
        assert((2 * i) / 2 == i && (2 * i + 1) / 2 == i);
        assert((2 * i) % 2 == 0 && (2 * i + 1) % 2 == 1);
        assert(h[2 * i] == hex_char(b / 16));
        assert(h[2 * i + 1] == hex_char(b % 16));
        assert(0 <= b / 16 < 16 && 0 <= b % 16 < 16);
        assert(u[2 * i] as int == h[2 * i] as int);
        assert(u[2 * i + 1] as int == h[2 * i + 1] as int);
        assert(hex_value(u[2 * i]) == Some(b / 16));
        assert(hex_value(u[2 * i + 1]) == Some(b % 16));
        assert(16 * (b / 16) + b % 16 == b);
    }
    assert(unhex(u) == data);
}

} // verus!
