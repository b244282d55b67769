//! Encoding edges of source bytes: byte-order marks and line endings.

use std::borrow::Cow;
use vstd::prelude::*;

verus! {

/// Whether `bytes` starts with the UTF-8 byte-order mark.
pub open spec fn has_bom(bytes: Seq<u8>) -> bool {
    bytes.len() >= 3 && bytes[0] == 0xef && bytes[1] == 0xbb && bytes[2] == 0xbf
}

/// `bytes` without a leading UTF-8 byte-order mark.
pub open spec fn without_bom(bytes: Seq<u8>) -> Seq<u8> {
    if has_bom(bytes) {
        bytes.skip(3)
    } else {
        bytes
    }
}

/// Whether position `i` holds a carriage return that no line feed follows.
pub open spec fn lone_cr(bytes: Seq<u8>, i: int) -> bool {
    bytes[i] == 13 && !(i + 1 < bytes.len() && bytes[i + 1] == 10)
}

/// `bytes` with every lone carriage return replaced by a line feed.
pub open spec fn unix_eol(bytes: Seq<u8>) -> Seq<u8> {
    Seq::new(
        bytes.len(),
        |i: int| if lone_cr(bytes, i) {
            10u8
        } else {
            bytes[i]
        },
    )
}

/// The bytes of a borrowed or owned buffer.
pub open spec fn cow_bytes(c: Cow<'_, [u8]>) -> Seq<u8> {
    match c {
        Cow::Borrowed(b) => b@,
        Cow::Owned(v) => v@,
    }
}

/// `bytes` without a leading UTF-8 byte-order mark.
pub fn strip_bom(bytes: &[u8]) -> (r: &[u8])
    ensures
        r@ == without_bom(bytes@),
{
    if bytes.len() >= 3 && bytes[0] == 0xef && bytes[1] == 0xbb && bytes[2] == 0xbf {
        let (_mark, rest) = bytes.split_at(3);
        assert(rest@ =~= bytes@.skip(3));
        rest
    } else {
        bytes
    }
}

fn is_lone_cr(bytes: &[u8], i: usize) -> (r: bool)
    requires
        i < bytes.len(),
    ensures
        r == lone_cr(bytes@, i as int),
{
    bytes[i] == 13 && !(i + 1 < bytes.len() && bytes[i + 1] == 10)
}

/// `bytes` with every lone carriage return replaced by a line feed; borrowed
/// where there is none.
pub fn normalize_eol<'a>(bytes: &'a [u8]) -> (r: Cow<'a, [u8]>)
    ensures
        cow_bytes(r) == unix_eol(bytes@),
        r is Borrowed <==> forall|i: int| 0 <= i < bytes.len() ==> !#[trigger] lone_cr(bytes@, i),
{
    let mut i: usize = 0;
    while i < bytes.len() && !is_lone_cr(bytes, i)
        invariant
            i <= bytes.len(),
            forall|k: int| 0 <= k < i ==> !#[trigger] lone_cr(bytes@, k),
        decreases bytes.len() - i,
    {
        i += 1;
    }
    if i == bytes.len() {
        assert(bytes@ =~= unix_eol(bytes@));
        return Cow::Borrowed(bytes);
    }
    assert(lone_cr(bytes@, i as int));
    let mut out: Vec<u8> = Vec::with_capacity(bytes.len());
    let mut k: usize = 0;
    while k < bytes.len()
        invariant
            k <= bytes.len(),
            out@ == unix_eol(bytes@).take(k as int),
        decreases bytes.len() - k,
    {
        if is_lone_cr(bytes, k) {
            out.push(10);
        } else {
            out.push(bytes[k]);
        }
        assert(out@ =~= unix_eol(bytes@).take(k + 1));
        k += 1;
    }
    assert(out@ =~= unix_eol(bytes@));
    Cow::Owned(out)
}

/// The bytes that a parser sees: no leading mark, no lone carriage return.
pub open spec fn normalized(bytes: Seq<u8>) -> Seq<u8> {
    unix_eol(without_bom(bytes))
}

/// Replacing lone carriage returns keeps the length, leaves none, and a second
/// time changes nothing.
pub proof fn law_unix_eol(bytes: Seq<u8>)
    ensures
        unix_eol(bytes).len() == bytes.len(),
        forall|i: int| 0 <= i < bytes.len() ==> !#[trigger] lone_cr(unix_eol(bytes), i),
        unix_eol(unix_eol(bytes)) == unix_eol(bytes),
{
    let once = unix_eol(bytes);
    assert forall|i: int| 0 <= i < bytes.len() implies !#[trigger] lone_cr(once, i) by {
        if once[i] == 13 {
            assert(bytes[i] == 13 && !lone_cr(bytes, i));
            assert(bytes[i + 1] == 10);
            assert(!lone_cr(bytes, i + 1));
            assert(once[i + 1] == 10);
        }
    }
    assert(unix_eol(once) =~= once);
}

/// What already has no lone carriage return is left as it is, and so is what
/// has no mark.
pub proof fn law_normalized_unchanged(bytes: Seq<u8>)
    requires
        !has_bom(bytes),
        forall|i: int| 0 <= i < bytes.len() ==> !#[trigger] lone_cr(bytes, i),
    ensures
        normalized(bytes) == bytes,
{
    assert(unix_eol(bytes) =~= bytes);
}

} // verus!
