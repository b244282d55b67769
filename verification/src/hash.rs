//! Digests and their hexadecimal notation.

use crate::chars::dec;
use sha2::Digest;
use vstd::prelude::*;
use vstd::string::*;
use vstd::utf8::*;

verus! {

// ── Trusted boundary ─────────────────────────────────────────────────────────

/// The SHA-256 digest of a byte string.
pub uninterp spec fn sha256_of(bytes: Seq<u8>) -> Seq<u8>;

/// The SHA-1 digest of a byte string.
pub uninterp spec fn sha1_of(bytes: Seq<u8>) -> Seq<u8>;

/// `sha2::Sha256::digest`: the 32 bytes of the SHA-256 digest of `bytes`.
#[verifier::external_body]
fn sha256(bytes: &[u8]) -> (r: Vec<u8>)
    ensures
        r@ == sha256_of(bytes@),
        r.len() == 32,
{
    sha2::Sha256::digest(bytes).to_vec()
}

/// `sha1_smol::Sha1::from` and `digest`: the 20 bytes of the SHA-1 digest of
/// `bytes`, whose length in bits has to fit in 64 bits.
#[verifier::external_body]
fn sha1(bytes: &[u8]) -> (r: Vec<u8>)
    requires
        bytes.len() < 0x2000_0000_0000_0000,
    ensures
        r@ == sha1_of(bytes@),
        r.len() == 20,
{
    sha1_smol::Sha1::from(bytes).digest().bytes().to_vec()
}

// ── Hexadecimal notation ─────────────────────────────────────────────────────

/// The lower-case hexadecimal digit of `d`.
pub open spec fn hex_digit(d: int) -> char {
    if d < 10 {
        (('0' as u32) + d) as char
    } else {
        (('a' as u32) + (d - 10)) as char
    }
}

/// The lower-case hexadecimal notation of a byte string, two digits a byte.
pub open spec fn hex(bytes: Seq<u8>) -> Seq<char>
    decreases bytes.len(),
{
    if bytes.len() == 0 {
        Seq::empty()
    } else {
        hex(bytes.drop_last()).push(hex_digit(bytes.last() as int / 16)).push(
            hex_digit(bytes.last() as int % 16),
        )
    }
}

pub(crate) fn hex_char(d: u8) -> (r: char)
    requires
        d < 16,
    ensures
        r == hex_digit(d as int),
{
    if d < 10 {
        (48u8 + d) as char
    } else {
        (97u8 + (d - 10)) as char
    }
}

/// The lower-case hexadecimal notation of the first `n` bytes.
pub fn to_hex(bytes: &[u8], n: usize) -> (r: String)
    requires
        n <= bytes.len(),
    ensures
        r@ == hex(bytes@.take(n as int)),
{
    let mut out = String::new();
    let mut i: usize = 0;
    assert(bytes@.take(0) =~= Seq::<u8>::empty());
    assert(out@ =~= hex(bytes@.take(0)));
    while i < n
        invariant
            i <= n <= bytes.len(),
            out@ == hex(bytes@.take(i as int)),
        decreases n - i,
    {
        let b: u8 = bytes[i];
        out.push(hex_char(b / 16));
        out.push(hex_char(b % 16));
        assert(bytes@.take(i + 1).drop_last() =~= bytes@.take(i as int));
        assert(bytes@.take(i + 1).last() == b);
        i += 1;
    }
    out
}

/// The notation has two digits a byte.
pub proof fn lemma_hex_len(bytes: Seq<u8>)
    ensures
        hex(bytes).len() == 2 * bytes.len(),
    decreases bytes.len(),
{
    if bytes.len() > 0 {
        lemma_hex_len(bytes.drop_last());
    }
}

proof fn lemma_hex_digit_injective(a: int, b: int)
    requires
        0 <= a < 16,
        0 <= b < 16,
        hex_digit(a) == hex_digit(b),
    ensures
        a == b,
{
}

/// Different byte strings have different notations.
pub proof fn law_hex_injective(a: Seq<u8>, b: Seq<u8>)
    requires
        hex(a) == hex(b),
    ensures
        a == b,
    decreases a.len(),
{
    lemma_hex_len(a);
    lemma_hex_len(b);
    if a.len() > 0 {
        let n = hex(a).len() as int;
        let x = hex(a.drop_last());
        let y = hex(b.drop_last());
        lemma_hex_len(a.drop_last());
        lemma_hex_len(b.drop_last());
        assert(b.len() > 0);
        let p = x.push(hex_digit(a.last() as int / 16));
        let q = y.push(hex_digit(b.last() as int / 16));
        assert(hex(a) == p.push(hex_digit(a.last() as int % 16)));
        assert(hex(b) == q.push(hex_digit(b.last() as int % 16)));
        assert(hex(a)[n - 1] == hex_digit(a.last() as int % 16));
        assert(hex(b)[n - 1] == hex_digit(b.last() as int % 16));
        assert(p[n - 2] == hex(a)[n - 2]);
        assert(q[n - 2] == hex(b)[n - 2]);
        lemma_hex_digit_injective(a.last() as int / 16, b.last() as int / 16);
        lemma_hex_digit_injective(a.last() as int % 16, b.last() as int % 16);
        assert(a.last() == b.last());
        assert(x =~= hex(a).take(n - 2));
        assert(y =~= hex(b).take(n - 2));
        law_hex_injective(a.drop_last(), b.drop_last());
        assert(a =~= a.drop_last().push(a.last()));
        assert(b =~= b.drop_last().push(b.last()));
    } else {
        assert(a =~= b);
    }
}

/// The hexadecimal SHA-256 digest of `bytes`.
pub fn hex_sha256(bytes: &[u8]) -> (r: String)
    ensures
        r@ == hex(sha256_of(bytes@)),
        r@.len() == 64,
{
    let digest = sha256(bytes);
    proof {
        assert(digest@.take(32) =~= digest@);
        lemma_hex_len(digest@);
    }
    to_hex(digest.as_slice(), digest.len())
}

/// The first six hexadecimal digits of the SHA-256 digest of `s`.
pub fn hash_disambig(s: &str) -> (r: String)
    ensures
        r@ == hex(sha256_of(encode_utf8(s@)).take(3)),
        r@.len() == 6,
{
    let digest = sha256(s.as_bytes());
    proof {
        lemma_hex_len(digest@.take(3));
    }
    to_hex(digest.as_slice(), 3)
}

/// What git hashes for a blob: the header `blob <len>`, a zero byte, and the
/// bytes.
pub open spec fn git_blob(bytes: Seq<u8>) -> Seq<u8> {
    encode_utf8("blob "@ + dec(bytes.len()) + "\0"@) + bytes
}

/// The git blob SHA-1 of `bytes` in hex: what `git hash-object` prints.
pub fn git_blob_sha1(bytes: &[u8]) -> (r: String)
    requires
        bytes.len() < 0x1000_0000_0000_0000,
    ensures
        r@ == hex(sha1_of(git_blob(bytes@))),
        r@.len() == 40,
{
    let mut header = "blob ".to_owned();
    crate::chars::push_decimal(&mut header, bytes.len() as u64);
    header.append("\0");
    let mut input: Vec<u8> = Vec::new();
    let head = header.as_str().as_bytes();
    proof {
        lemma_header_len(bytes@.len());
    }
    let mut i: usize = 0;
    while i < head.len()
        invariant
            i <= head.len(),
            input@ == head@.take(i as int),
        decreases head.len() - i,
    {
        input.push(head[i]);
        assert(head@.take(i as int).push(head@[i as int]) =~= head@.take(i + 1));
        i += 1;
    }
    assert(head@.take(head.len() as int) =~= head@);
    let mut i: usize = 0;
    assert(bytes@.take(0) =~= Seq::<u8>::empty());
    assert(input@ =~= head@ + bytes@.take(0));
    while i < bytes.len()
        invariant
            i <= bytes.len(),
            input@ == head@ + bytes@.take(i as int),
        decreases bytes.len() - i,
    {
        input.push(bytes[i]);
        assert((head@ + bytes@.take(i as int)).push(bytes@[i as int]) =~= head@ + bytes@.take(
            i + 1,
        ));
        i += 1;
    }
    assert(bytes@.take(bytes.len() as int) =~= bytes@);
    let digest = sha1(input.as_slice());
    proof {
        assert(digest@.take(20) =~= digest@);
        lemma_hex_len(digest@);
    }
    to_hex(digest.as_slice(), digest.len())
}

proof fn lemma_dec_len(n: nat, k: nat)
    requires
        n < vstd::arithmetic::power::pow(10, k),
        k > 0,
    ensures
        1 <= dec(n).len() <= k,
        is_ascii_chars(dec(n)),
    decreases n,
{
    vstd::arithmetic::power::lemma_pow1(10);
    if n >= 10 {
        if k > 1 {
            vstd::arithmetic::power::lemma_pow_adds(10, 1, (k - 1) as nat);
        }
        assert(k > 1);
        assert(n / 10 < vstd::arithmetic::power::pow(10, (k - 1) as nat)) by (nonlinear_arith)
            requires
                n < vstd::arithmetic::power::pow(10, k),
                vstd::arithmetic::power::pow(10, k) == 10 * vstd::arithmetic::power::pow(
                    10,
                    (k - 1) as nat,
                ),
        ;
        lemma_dec_len(n / 10, (k - 1) as nat);
    }
}

proof fn lemma_header_len(n: nat)
    requires
        n < 0x1000_0000_0000_0000,
    ensures
        encode_utf8("blob "@ + dec(n) + "\0"@).len() <= 40,
{
    reveal_strlit("blob ");
    reveal_strlit("\0");
    assert(n < vstd::arithmetic::power::pow(10, 20)) by {
        assert(vstd::arithmetic::power::pow(10, 20) == 100000000000000000000) by {
            reveal_with_fuel(vstd::arithmetic::power::pow, 21);
        }
    }
    lemma_dec_len(n, 20);
    let s = "blob "@ + dec(n) + "\0"@;
    assert(is_ascii_chars(s));
    is_ascii_chars_encode_utf8(s);
}

} // verus!
