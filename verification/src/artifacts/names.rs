//! File names of artifacts.

use crate::bundle::files::{is_safe, sanitize_id, sanitized};
use crate::chars::{split_first, split_once};
use crate::hash::{hash_disambig, hex, law_hex_injective, sha256_of};
use crate::text::chars_of;
use vstd::prelude::*;
use vstd::string::*;
use vstd::utf8::encode_utf8;

verus! {

/// Whether a character is an upper-case ASCII letter.
pub open spec fn is_upper(c: char) -> bool {
    'A' <= c && c <= 'Z'
}

/// The lower-case form of a safe character.
pub open spec fn lower(c: char) -> char {
    if is_upper(c) {
        ((c as u32) + 32) as char
    } else {
        c
    }
}

/// A text with lower-case ASCII letters.
pub open spec fn lowered(s: Seq<char>) -> Seq<char> {
    s.map_values(|c: char| lower(c))
}

/// Whether a text has an upper-case ASCII letter.
pub open spec fn has_upper(s: Seq<char>) -> bool {
    exists|i: int| 0 <= i < s.len() && is_upper(#[trigger] s[i])
}

/// The file name stem of an entity. Names with upper-case letters are written
/// in lower case and end in a mark that comes from the hash of the id, so that
/// names which differ by case only stay apart where the file system does not
/// tell cases apart.
pub open spec fn stem_of(id: Seq<char>, hash: Seq<char>) -> Seq<char> {
    if has_upper(sanitized(id)) {
        lowered(sanitized(id)) + "_H"@ + hash
    } else {
        sanitized(id)
    }
}

/// The file name stem of an entity, given the mark of its id.
pub fn marked_stem(id: &str, hash: &str) -> (r: String)
    ensures
        r@ == stem_of(id@, hash@),
{
    let safe = sanitize_id(id);
    let cs = chars_of(safe.as_str());
    let ghost want = lowered(safe@);
    let mut out = String::new();
    let mut upper = false;
    let mut i: usize = 0;
    assert(out@ =~= want.take(0));
    while i < cs.len()
        invariant
            i <= cs.len(),
            cs@ == safe@,
            want == lowered(safe@),
            out@ == want.take(i as int),
            upper == has_upper(safe@.take(i as int)),
        decreases cs.len() - i,
    {
        let c = cs[i];
        proof {
            assert(safe@.take(i + 1) =~= safe@.take(i as int).push(c));
            assert(safe@.take(i + 1)[i as int] == c);
            if has_upper(safe@.take(i as int)) {
                let k = choose|k: int|
                    0 <= k < safe@.take(i as int).len() && is_upper(
                        #[trigger] safe@.take(i as int)[k],
                    );
                assert(is_upper(safe@.take(i + 1)[k]));
            }
            if has_upper(safe@.take(i + 1)) && !is_upper(c) {
                let k = choose|k: int|
                    0 <= k < safe@.take(i + 1).len() && is_upper(#[trigger] safe@.take(i + 1)[k]);
                assert(is_upper(safe@.take(i as int)[k]));
            }
        }
        if 'A' <= c && c <= 'Z' {
            upper = true;
            out.push(((c as u8) + 32) as char);
        } else {
            out.push(c);
        }
        assert(want.take(i + 1) =~= want.take(i as int).push(want[i as int]));
        i += 1;
    }
    assert(safe@.take(cs.len() as int) =~= safe@);
    assert(want.take(cs.len() as int) =~= want);
    if upper {
        out.concat("_H").concat(hash)
    } else {
        safe
    }
}

/// The file name stem of an entity: `[A-Za-z0-9._-]` stays, everything else
/// becomes `_`, and a stem with upper-case letters is written in lower case
/// with a mark from the hash of the id.
pub fn filename_id(id: &str) -> (r: String)
    ensures
        r@ == stem_of(id@, hex(sha256_of(encode_utf8(id@)).take(3))),
{
    let hash = hash_disambig(id);
    marked_stem(id, hash.as_str())
}

proof fn lemma_hex_safe(bytes: Seq<u8>)
    ensures
        forall|i: int|
            0 <= i < hex(bytes).len() ==> is_safe(#[trigger] hex(bytes)[i]) && !is_upper(
                hex(bytes)[i],
            ),
    decreases bytes.len(),
{
    if bytes.len() > 0 {
        lemma_hex_safe(bytes.drop_last());
        let front = hex(bytes.drop_last());
        assert forall|i: int| 0 <= i < hex(bytes).len() implies is_safe(#[trigger] hex(bytes)[i])
            && !is_upper(hex(bytes)[i]) by {
            if i < front.len() {
                assert(hex(bytes)[i] == front[i]);
            }
        }
    }
}

/// A stem holds safe characters, and no upper-case letter but that of its mark,
/// whatever the digest is.
pub proof fn law_stem(id: Seq<char>, digest: Seq<u8>)
    ensures
        forall|i: int|
            0 <= i < stem_of(id, hex(digest)).len() ==> is_safe(
                #[trigger] stem_of(id, hex(digest))[i],
            ),
        forall|i: int|
            0 <= i < stem_of(id, hex(digest)).len() ==> (is_upper(
                #[trigger] stem_of(id, hex(digest))[i],
            ) ==> has_upper(sanitized(id)) && i == id.len() + 1),
{
    reveal_strlit("_H");
    lemma_hex_safe(digest);
    let hash = hex(digest);
    let safe = sanitized(id);
    let stem = stem_of(id, hash);
    if has_upper(safe) {
        let low = lowered(safe);
        assert forall|i: int| 0 <= i < stem.len() implies is_safe(#[trigger] stem[i]) && (is_upper(
            stem[i],
        ) ==> i == id.len() + 1) by {
            if i < low.len() {
                assert(stem[i] == low[i]);
                assert(is_safe(safe[i]));
            } else if i < low.len() + 2 {
                assert(stem[i] == "_H"@[i - low.len()]);
            } else {
                assert(stem[i] == hash[i - low.len() - 2]);
            }
        }
    } else {
        assert forall|i: int| 0 <= i < stem.len() implies is_safe(#[trigger] stem[i]) && !is_upper(
            stem[i],
        ) by {
            assert(is_safe(safe[i]));
        }
    }
}

proof fn lemma_hex_len(bytes: Seq<u8>)
    ensures
        hex(bytes).len() == 2 * bytes.len(),
    decreases bytes.len(),
{
    if bytes.len() > 0 {
        lemma_hex_len(bytes.drop_last());
    }
}

/// Ids that differ by the case of letters only have stems that stay apart even
/// where the file system does not tell cases apart, as long as the digests of
/// those that have upper-case letters differ.
pub proof fn law_case_siblings(a: Seq<char>, b: Seq<char>, da: Seq<u8>, db: Seq<u8>)
    requires
        lowered(sanitized(a)) == lowered(sanitized(b)),
        sanitized(a) != sanitized(b),
        da.len() == 3,
        db.len() == 3,
        has_upper(sanitized(a)) && has_upper(sanitized(b)) ==> da != db,
    ensures
        lowered(stem_of(a, hex(da))) != lowered(stem_of(b, hex(db))),
{
    reveal_strlit("_H");
    let sa = sanitized(a);
    let sb = sanitized(b);
    let ta = stem_of(a, hex(da));
    let tb = stem_of(b, hex(db));
    lemma_hex_len(da);
    lemma_hex_len(db);
    lemma_hex_safe(da);
    lemma_hex_safe(db);
    assert(lowered(sa).len() == sa.len() && lowered(sb).len() == sb.len());
    if has_upper(sa) && has_upper(sb) {
        if lowered(ta) == lowered(tb) {
            let n = sa.len();
            assert forall|i: int| 0 <= i < 6 implies #[trigger] hex(da)[i] == hex(db)[i] by {
                assert(ta[n + 2 + i] == hex(da)[i]);
                assert(tb[n + 2 + i] == hex(db)[i]);
                assert(lowered(ta)[n + 2 + i] == lower(hex(da)[i]));
                assert(lowered(tb)[n + 2 + i] == lower(hex(db)[i]));
            }
            assert(hex(da) =~= hex(db));
            law_hex_injective(da, db);
        }
    } else if has_upper(sa) || has_upper(sb) {
        assert(lowered(ta).len() != lowered(tb).len());
    } else {
        assert forall|i: int| 0 <= i < sa.len() implies sa[i] == sb[i] by {
            assert(lowered(sa)[i] == lowered(sb)[i]);
            assert(!is_upper(sa[i]) && !is_upper(sb[i]));
        }
        assert(sa =~= sb);
    }
}

/// The file name of the sequence diagram of a function of a file.
pub fn build_sequence_path(file_rel: &str, qualified_name: &str) -> (r: String)
    ensures
        r@ == stem_of(
            file_rel@ + "::"@ + qualified_name@,
            hex(sha256_of(encode_utf8(file_rel@ + "::"@ + qualified_name@)).take(3)),
        ) + ".mmd"@,
{
    let key = file_rel.to_owned().concat("::").concat(qualified_name);
    filename_id(key.as_str()).concat(".mmd")
}

/// The qualified name of a function, from its id.
pub open spec fn function_name(id: Seq<char>) -> Option<Seq<char>> {
    match split_first(id, "::function::"@) {
        Some((_, q)) => Some(q),
        None => None,
    }
}

/// The qualified name of a function, from an id such as
/// `code:src/foo.rs::function::Foo::bar`.
pub fn qualified_fn_name(id: &str) -> (r: Option<String>)
    ensures
        r.deep_view() == function_name(id@),
{
    match split_once(id, "::function::") {
        Some((_, q)) => Some(q),
        None => None,
    }
}

} // verus!
