//! Reading and writing small texts of the command line: lists, sizes,
//! durations, and the summary comment.

use crate::chars::{
    dec, is_digit, law_number_of_dec, lemma_split_first, lemma_trimmed_twice, number, parse_number,
    push_decimal, split_first, split_once, trim, trimmed,
};
use crate::cli::flags::AnalyzeFormat;
use crate::dates::Duration;
use crate::error::{is_invalid, AstToMermaidError, Result};
use crate::text::{chars_of, string_of};
use vstd::prelude::*;
use vstd::string::*;

verus! {

// ── Lists ────────────────────────────────────────────────────────────────────

/// One item of a list: trimmed, and left out where nothing remains.
pub open spec fn csv_item(s: Seq<char>) -> Seq<Seq<char>> {
    if trimmed(s).len() == 0 {
        Seq::empty()
    } else {
        seq![trimmed(s)]
    }
}

/// The items of a list parted by commas.
pub open spec fn csv_items(s: Seq<char>) -> Seq<Seq<char>>
    decreases s.len(),
{
    proof {
        reveal_strlit(",");
        lemma_split_first(s, ","@);
    }
    match split_first(s, ","@) {
        None => csv_item(s),
        Some((first, rest)) => csv_item(first) + csv_items(rest),
    }
}

/// Appends one item of a list.
fn push_item(out: &mut Vec<String>, s: &str)
    ensures
        final(out).deep_view() == old(out).deep_view() + csv_item(s@),
{
    let ghost had = out.deep_view();
    let item = trim(s);
    if !item.as_str().is_empty() {
        let ghost v = item@;
        out.push(item);
        assert(out.deep_view() =~= had.push(v));
    }
    assert(out.deep_view() =~= had + csv_item(s@));
}

/// The items of a list parted by commas: trimmed, without empty ones.
pub fn parse_csv_exclude(s: &str) -> (r: Vec<String>)
    ensures
        r.deep_view() == csv_items(s@),
{
    let mut out: Vec<String> = Vec::new();
    let mut rest = s.to_owned();
    assert(out.deep_view() + csv_items(rest@) =~= csv_items(s@));
    loop
        invariant
            out.deep_view() + csv_items(rest@) == csv_items(s@),
        decreases rest@.len(),
    {
        let ghost had = out.deep_view();
        let ghost now = rest@;
        match split_once(rest.as_str(), ",") {
            None => {
                push_item(&mut out, rest.as_str());
                return out;
            },
            Some((first, tail)) => {
                push_item(&mut out, first.as_str());
                proof {
                    reveal_strlit(",");
                    lemma_split_first(now, ","@);
                    assert(csv_items(now) == csv_item(first@) + csv_items(tail@));
                    assert(had + (csv_item(first@) + csv_items(tail@)) =~= (had + csv_item(first@))
                        + csv_items(tail@));
                }
                rest = tail;
            },
        }
    }
}

// ── Numbers with a unit ──────────────────────────────────────────────────────

/// The number of bytes that the suffix of a size stands for.
pub open spec fn size_unit(c: char) -> Option<u64> {
    if c == 'K' || c == 'k' {
        Some(1024u64)
    } else if c == 'M' || c == 'm' {
        Some(1_048_576u64)
    } else if c == 'G' || c == 'g' {
        Some(1_073_741_824u64)
    } else {
        None
    }
}

/// The number of seconds that the suffix of a duration stands for.
pub open spec fn duration_unit(c: char) -> Option<u64> {
    if c == 's' {
        Some(1u64)
    } else if c == 'm' {
        Some(60u64)
    } else if c == 'h' {
        Some(3_600u64)
    } else if c == 'd' {
        Some(86_400u64)
    } else if c == 'w' {
        Some(604_800u64)
    } else {
        None
    }
}

/// A number with or without a unit, or what the error says.
pub open spec fn scaled(
    text: Seq<char>,
    unit: Option<u64>,
    shape: Seq<char>,
    overflow: Seq<char>,
) -> std::result::Result<nat, Seq<char>> {
    let (digits, factor) = match unit {
        Some(f) => (text.drop_last(), f),
        None => (text, 1u64),
    };
    match number(digits, u64::MAX as nat) {
        Err(e) => Err("expected `"@ + shape + "`, got `"@ + text + "`: "@ + e.text()),
        Ok(n) => if n * factor > u64::MAX {
            Err(overflow)
        } else {
            Ok((n * factor) as nat)
        },
    }
}

/// The bytes of a size such as `512`, `10M` or `1G`, or what the error says.
pub open spec fn size_of(s: Seq<char>) -> std::result::Result<nat, Seq<char>> {
    let text = trimmed(s);
    if text.len() == 0 {
        Err("empty value"@)
    } else {
        scaled(text, size_unit(text.last()), "<num>[K|M|G]"@, "size overflow"@)
    }
}

/// The seconds of a duration such as `45`, `30m` or `2w`, or what the error
/// says.
pub open spec fn duration_of(s: Seq<char>) -> std::result::Result<nat, Seq<char>> {
    let text = trimmed(s);
    if text.len() == 0 {
        Err("empty value"@)
    } else {
        scaled(text, duration_unit(text.last()), "<num>[s|m|h|d|w]"@, "duration overflow"@)
    }
}

/// A number with or without a unit.
fn parse_scaled(text: &str, unit: Option<u64>, shape: &str, overflow: &str) -> (r: Result<u64>)
    requires
        text@.len() > 0,
        unit matches Some(f) ==> f > 0,
    ensures
        match scaled(text@, unit, shape@, overflow@) {
            Ok(n) => r matches Ok(x) && x == n,
            Err(e) => is_invalid(r, e),
        },
{
    let cs = chars_of(text);
    let (digits, factor) = match unit {
        Some(f) => {
            let head = string_of(cs.as_slice(), 0, cs.len() - 1);
            assert(head@ =~= text@.drop_last());
            (head, f)
        },
        None => (text.to_owned(), 1u64),
    };
    match parse_number(digits.as_str(), u64::MAX) {
        Err(e) => {
            let said = "expected `".to_owned().concat(shape).concat("`, got `").concat(text).concat(
                "`: ",
            ).concat(e.message());
            Err(AstToMermaidError::InvalidInput(said))
        },
        Ok(n) => match n.checked_mul(factor) {
            Some(x) => Ok(x),
            None => Err(AstToMermaidError::InvalidInput(overflow.to_owned())),
        },
    }
}

/// The last character of a text.
fn last_char(text: &str) -> (r: char)
    requires
        text@.len() > 0,
    ensures
        r == text@.last(),
{
    let cs = chars_of(text);
    cs[cs.len() - 1]
}

/// The bytes of a size: a number, with `K`, `M` or `G` for a unit.
pub fn parse_size(s: &str) -> (r: Result<u64>)
    ensures
        match size_of(s@) {
            Ok(n) => r matches Ok(x) && x == n,
            Err(e) => is_invalid(r, e),
        },
{
    let text = trim(s);
    if text.as_str().is_empty() {
        return Err(AstToMermaidError::InvalidInput("empty value".to_owned()));
    }
    let c = last_char(text.as_str());
    let unit: Option<u64> = if c == 'K' || c == 'k' {
        Some(1024)
    } else if c == 'M' || c == 'm' {
        Some(1_048_576)
    } else if c == 'G' || c == 'g' {
        Some(1_073_741_824)
    } else {
        None
    };
    parse_scaled(text.as_str(), unit, "<num>[K|M|G]", "size overflow")
}

/// A duration: a number, with `s`, `m`, `h`, `d` or `w` for a unit; seconds
/// without one.
pub fn parse_duration(s: &str) -> (r: Result<Duration>)
    ensures
        match duration_of(s@) {
            Ok(n) => r matches Ok(d) && d.secs == n && d.subsec_nanos == 0,
            Err(e) => is_invalid(r, e),
        },
{
    let text = trim(s);
    if text.as_str().is_empty() {
        return Err(AstToMermaidError::InvalidInput("empty value".to_owned()));
    }
    let c = last_char(text.as_str());
    let unit: Option<u64> = if c == 's' {
        Some(1)
    } else if c == 'm' {
        Some(60)
    } else if c == 'h' {
        Some(3_600)
    } else if c == 'd' {
        Some(86_400)
    } else if c == 'w' {
        Some(604_800)
    } else {
        None
    };
    match parse_scaled(text.as_str(), unit, "<num>[s|m|h|d|w]", "duration overflow") {
        Ok(n) => Ok(Duration::from_secs(n)),
        Err(e) => Err(e),
    }
}

// ── The summary comment ──────────────────────────────────────────────────────

/// What a run says that it analyzed.
pub open spec fn analyzed(files: nat, atoms: nat, edges: nat) -> Seq<char> {
    "analyzed "@ + dec(files) + " files, "@ + dec(atoms) + " atoms, "@ + dec(edges)
        + " cross-module edges"@
}

/// The start of a comment line in a format.
pub open spec fn comment_mark(format: AnalyzeFormat) -> Seq<char> {
    match format {
        AnalyzeFormat::Mermaid => "%%"@,
        AnalyzeFormat::Dot => "//"@,
    }
}

/// The summary as a comment in the given format, without a line end.
pub fn format_summary_comment(
    format: AnalyzeFormat,
    files_parsed: usize,
    atoms_indexed: usize,
    edges_resolved: usize,
) -> (r: String)
    ensures
        r@ == comment_mark(format) + " "@ + analyzed(
            files_parsed as nat,
            atoms_indexed as nat,
            edges_resolved as nat,
        ),
{
    let mark = match format {
        AnalyzeFormat::Mermaid => "%%",
        AnalyzeFormat::Dot => "//",
    };
    let mut out = mark.to_owned().concat(" ");
    push_analyzed(&mut out, files_parsed, atoms_indexed, edges_resolved);
    out
}

/// Appends what a run says that it analyzed.
pub(crate) fn push_analyzed(out: &mut String, files: usize, atoms: usize, edges: usize)
    ensures
        final(out)@ == old(out)@ + analyzed(files as nat, atoms as nat, edges as nat),
{
    let ghost had = out@;
    out.append("analyzed ");
    push_decimal(out, files as u64);
    out.append(" files, ");
    push_decimal(out, atoms as u64);
    out.append(" atoms, ");
    push_decimal(out, edges as u64);
    out.append(" cross-module edges");
    assert(out@ =~= had + analyzed(files as nat, atoms as nat, edges as nat));
}

// ── What holds of them ───────────────────────────────────────────────────────

/// The items of a list are trimmed, and none is empty.
pub proof fn law_csv_items(s: Seq<char>)
    ensures
        forall|k: int|
            0 <= k < csv_items(s).len() ==> (#[trigger] csv_items(s)[k]).len() > 0 && trimmed(
                csv_items(s)[k],
            ) == csv_items(s)[k],
    decreases s.len(),
{
    reveal_strlit(",");
    lemma_split_first(s, ","@);
    match split_first(s, ","@) {
        None => {
            lemma_trimmed_twice(s);
        },
        Some((first, rest)) => {
            law_csv_items(rest);
            lemma_trimmed_twice(first);
            let front = csv_item(first);
            assert forall|k: int| 0 <= k < csv_items(s).len() implies (#[trigger] csv_items(
                s,
            )[k]).len() > 0 && trimmed(csv_items(s)[k]) == csv_items(s)[k] by {
                if k < front.len() {
                    assert(csv_items(s)[k] == front[k]);
                } else {
                    assert(csv_items(s)[k] == csv_items(rest)[k - front.len()]);
                }
            }
        },
    }
}

proof fn lemma_digits(n: nat)
    ensures
        dec(n).len() > 0,
        forall|i: int| 0 <= i < dec(n).len() ==> is_digit(#[trigger] dec(n)[i]),
    decreases n,
{
    if n >= 10 {
        lemma_digits(n / 10);
    }
}

/// A size or a duration without a unit is read as it is written: bytes or
/// seconds.
pub proof fn law_plain_numbers(n: nat)
    requires
        n <= u64::MAX,
    ensures
        size_of(dec(n)) == Ok::<nat, Seq<char>>(n),
        duration_of(dec(n)) == Ok::<nat, Seq<char>>(n),
{
    let s = dec(n);
    lemma_digits(n);
    assert(is_digit(s[0]) && is_digit(s.last()));
    law_number_of_dec(n, u64::MAX as nat);
}

/// A size with a suffix is the number times as many bytes, in powers of 1024, and
/// a duration with one the number times as many seconds. What does not fit is an
/// overflow.
pub proof fn law_suffixes(n: nat)
    requires
        n <= u64::MAX,
    ensures
        is_scaled(size_of(dec(n).push('K')), n * 1024, "size overflow"@),
        is_scaled(size_of(dec(n).push('k')), n * 1024, "size overflow"@),
        is_scaled(size_of(dec(n).push('M')), n * (1024 * 1024), "size overflow"@),
        is_scaled(size_of(dec(n).push('m')), n * (1024 * 1024), "size overflow"@),
        is_scaled(size_of(dec(n).push('G')), n * (1024 * 1024 * 1024), "size overflow"@),
        is_scaled(size_of(dec(n).push('g')), n * (1024 * 1024 * 1024), "size overflow"@),
        is_scaled(duration_of(dec(n).push('s')), n, "duration overflow"@),
        is_scaled(duration_of(dec(n).push('m')), n * 60, "duration overflow"@),
        is_scaled(duration_of(dec(n).push('h')), n * (60 * 60), "duration overflow"@),
        is_scaled(duration_of(dec(n).push('d')), n * (24 * 60 * 60), "duration overflow"@),
        is_scaled(duration_of(dec(n).push('w')), n * (7 * 24 * 60 * 60), "duration overflow"@),
{
    lemma_digits(n);
    law_number_of_dec(n, u64::MAX as nat);
    lemma_with_suffix(n, 'K');
    lemma_with_suffix(n, 'k');
    lemma_with_suffix(n, 'M');
    lemma_with_suffix(n, 'm');
    lemma_with_suffix(n, 'G');
    lemma_with_suffix(n, 'g');
    lemma_with_suffix(n, 's');
    lemma_with_suffix(n, 'h');
    lemma_with_suffix(n, 'd');
    lemma_with_suffix(n, 'w');
}

/// Whether a number was read, or refused as too large.
pub open spec fn is_scaled(
    r: std::result::Result<nat, Seq<char>>,
    value: nat,
    overflow: Seq<char>,
) -> bool {
    if value <= u64::MAX {
        r matches Ok(n) && n == value
    } else {
        r == Err::<nat, Seq<char>>(overflow)
    }
}

proof fn lemma_with_suffix(n: nat, c: char)
    requires
        c == 'K' || c == 'k' || c == 'M' || c == 'm' || c == 'G' || c == 'g' || c == 's' || c == 'h'
            || c == 'd' || c == 'w',
    ensures
        trimmed(dec(n).push(c)) == dec(n).push(c),
        dec(n).push(c).drop_last() == dec(n),
        dec(n).push(c).last() == c,
{
    let s = dec(n).push(c);
    lemma_digits(n);
    assert(is_digit(dec(n)[0]));
    assert(s[0] == dec(n)[0]);
    assert(s.drop_last() =~= dec(n));
}

} // verus!
