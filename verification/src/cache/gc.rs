//! Garbage collection of the cache: which entries go.

use crate::chars::{number, parse_number};
use crate::dates::Duration;
use crate::error::{is_invalid, AstToMermaidError, Result};
use crate::keys::{law_sorted_keys, lemma_push_contains, sort_keys, sorted_keys};
use crate::order::lists;
use crate::paths::{path_key, sort_key};
use crate::records::{
    ascending, at_positions, distinct_keys, is_sorted, key_order, sort_records, Record,
};
use crate::text::str_eq;
use vstd::prelude::*;
use vstd::string::*;

verus! {

// ── Options and policy ───────────────────────────────────────────────────────

/// What a collection is asked to do.
#[derive(Debug, Clone, Copy)]
pub struct GcOptions {
    /// Cap in bytes; none for no cap.
    pub max_size_bytes: Option<u64>,
    /// Entries older than this go; none for no age limit.
    pub older_than: Option<Duration>,
    /// Only say what would be removed.
    pub dry_run: bool,
}

impl Default for GcOptions {
    fn default() -> (r: Self)
        ensures
            r.max_size_bytes is None,
            r.older_than is None,
            !r.dry_run,
    {
        Self { max_size_bytes: None, older_than: None, dry_run: false }
    }
}

/// When a collection is run without being asked for. Either limit is optional.
#[derive(Debug, Clone, Copy)]
pub struct GcPolicy {
    /// Cap on the total size in bytes.
    pub max_total_bytes: Option<u64>,
    /// Cap on the age of an entry in seconds.
    pub max_age_secs: Option<u64>,
}

impl Default for GcPolicy {
    /// One gibibyte and thirty days.
    fn default() -> (r: Self)
        ensures
            r.max_total_bytes == Some(1_073_741_824u64),
            r.max_age_secs == Some(2_592_000u64),
    {
        Self { max_total_bytes: Some(1_073_741_824), max_age_secs: Some(2_592_000) }
    }
}

/// A limit that a setting replaces where it is a number.
pub open spec fn overridden(default: u64, setting: Option<Seq<char>>) -> u64 {
    match setting {
        Some(s) => match number(s, u64::MAX as nat) {
            Ok(n) => n as u64,
            Err(_) => default,
        },
        None => default,
    }
}

/// A limit that a setting replaces where it is a number.
fn override_limit(default: u64, setting: Option<&str>) -> (r: u64)
    ensures
        r == overridden(default, match setting {
            Some(s) => Some(s@),
            None => None,
        }),
{
    match setting {
        Some(s) => match parse_number(s, u64::MAX) {
            Ok(n) => n,
            Err(_) => default,
        },
        None => default,
    }
}

impl GcPolicy {
    /// The policy that the settings ask for: none where `auto` is `0`, else the
    /// default with the limits that `max_bytes` and `max_age_secs` give as
    /// numbers.
    pub fn from_env(auto: Option<&str>, max_bytes: Option<&str>, max_age_secs: Option<&str>) -> (r:
        Option<Self>)
        ensures
            match r {
                None => auto matches Some(s) && s@ == "0"@,
                Some(p) => {
                    &&& !(auto matches Some(s) && s@ == "0"@)
                    &&& p.max_total_bytes == Some(
                        overridden(
                            1_073_741_824,
                            match max_bytes {
                                Some(s) => Some(s@),
                                None => None,
                            },
                        ),
                    )
                    &&& p.max_age_secs == Some(
                        overridden(
                            2_592_000,
                            match max_age_secs {
                                Some(s) => Some(s@),
                                None => None,
                            },
                        ),
                    )
                },
            },
    {
        if let Some(s) = auto {
            if str_eq(s, "0") {
                return None;
            }
        }
        Some(
            Self {
                max_total_bytes: Some(override_limit(1_073_741_824, max_bytes)),
                max_age_secs: Some(override_limit(2_592_000, max_age_secs)),
            },
        )
    }

    /// The options of the collection that the policy runs.
    pub fn options(&self) -> (r: GcOptions)
        ensures
            r.max_size_bytes == self.max_total_bytes,
            r.older_than == (match self.max_age_secs {
                Some(s) => Some(Duration::whole(s)),
                None => None,
            }),
            !r.dry_run,
    {
        GcOptions {
            max_size_bytes: self.max_total_bytes,
            older_than: match self.max_age_secs {
                Some(s) => Some(Duration::from_secs(s)),
                None => None,
            },
            dry_run: false,
        }
    }

    /// Whether a cache of `total` bytes is to be collected: where it is over
    /// the size cap, or where there is an age cap.
    pub fn is_due(&self, total: u64) -> (r: bool)
        ensures
            r == ((self.max_total_bytes matches Some(cap) && total > cap) || self.max_age_secs is
                Some),
    {
        let over_size = match self.max_total_bytes {
            Some(cap) => total > cap,
            None => false,
        };
        over_size || self.max_age_secs.is_some()
    }
}

// ── Entries ──────────────────────────────────────────────────────────────────

/// A file or directory of the cache that can be removed.
#[derive(Debug)]
pub struct GcEntry {
    pub path: String,
    /// When it was last written, in nanoseconds.
    pub mtime: i128,
    /// Bytes that it takes.
    pub size: u64,
}

/// What a [`GcEntry`] holds.
#[verifier::ext_equal]
pub struct GcEntryView {
    pub path: Seq<char>,
    pub mtime: i128,
    pub size: u64,
}

impl DeepView for GcEntry {
    type V = GcEntryView;

    open spec fn deep_view(&self) -> GcEntryView {
        GcEntryView { path: self.path@, mtime: self.mtime, size: self.size }
    }
}

impl Record for GcEntry {
    open spec fn key(v: GcEntryView) -> Seq<char> {
        path_key(v.path)
    }

    fn key_string(&self) -> (r: String) {
        sort_key(self.path.as_str())
    }

    fn duplicate(&self) -> (r: Self) {
        GcEntry { path: self.path.clone(), mtime: self.mtime, size: self.size }
    }
}

/// The bytes that entries take together.
pub open spec fn total_size(es: Seq<GcEntryView>) -> nat
    decreases es.len(),
{
    if es.len() == 0 {
        0
    } else {
        total_size(es.drop_last()) + es.last().size as nat
    }
}

// ── What goes ────────────────────────────────────────────────────────────────

/// Whether an entry is older than the age limit.
pub open spec fn aged(e: GcEntryView, now: i128, older_than: Option<Duration>) -> bool {
    older_than matches Some(d) && now - e.mtime > d.nanos()
}

/// The positions of the entries older than the age limit, among the first `n`.
pub open spec fn aged_at(
    es: Seq<GcEntryView>,
    now: i128,
    older_than: Option<Duration>,
    n: int,
) -> Seq<usize>
    decreases n,
{
    if n <= 0 {
        Seq::empty()
    } else {
        let front = aged_at(es, now, older_than, n - 1);
        if aged(es[n - 1], now, older_than) {
            front.push((n - 1) as usize)
        } else {
            front
        }
    }
}

/// Whether the path of the entry at `p` is the path of an entry at one of some
/// positions.
pub open spec fn path_among(es: Seq<GcEntryView>, ps: Seq<usize>, p: int) -> bool {
    exists|k: int|
        0 <= k < ps.len() && GcEntry::key(es[#[trigger] ps[k] as int]) == GcEntry::key(es[p])
}

/// Whether the path of the entry at `p` is that of no entry older than the age
/// limit.
pub open spec fn spared(
    es: Seq<GcEntryView>,
    now: i128,
    older_than: Option<Duration>,
    p: int,
) -> bool {
    !path_among(es, aged_at(es, now, older_than, es.len() as int), p)
}

/// The entries that are spared, among the first `n`: the time of each, with its
/// position.
pub open spec fn young(
    es: Seq<GcEntryView>,
    now: i128,
    older_than: Option<Duration>,
    n: int,
) -> Seq<(i128, usize)>
    decreases n,
{
    if n <= 0 {
        Seq::empty()
    } else {
        let front = young(es, now, older_than, n - 1);
        if spared(es, now, older_than, n - 1) {
            front.push((es[n - 1].mtime, (n - 1) as usize))
        } else {
            front
        }
    }
}

/// The bytes that the entries at some positions take together.
pub open spec fn size_at(es: Seq<GcEntryView>, ks: Seq<(i128, usize)>) -> nat
    decreases ks.len(),
{
    if ks.len() == 0 {
        0
    } else {
        size_at(es, ks.drop_first()) + es[ks[0].1 as int].size as nat
    }
}

/// How many of the entries, from the front, have to go so that the others fit
/// under a cap.
pub open spec fn surplus(es: Seq<GcEntryView>, ks: Seq<(i128, usize)>, cap: Option<u64>) -> nat
    decreases ks.len(),
{
    match cap {
        None => 0,
        Some(c) => if ks.len() == 0 || size_at(es, ks) <= c {
            0
        } else {
            1 + surplus(es, ks.drop_first(), cap)
        },
    }
}

/// The young entries, the oldest first; entries of the same time keep their
/// order.
pub open spec fn oldest_first(
    es: Seq<GcEntryView>,
    now: i128,
    older_than: Option<Duration>,
) -> Seq<(i128, usize)> {
    sorted_keys::<(i128, usize)>(young(es, now, older_than, es.len() as int))
}

/// The young entries that go because of the size cap.
pub open spec fn evicted(es: Seq<GcEntryView>, now: i128, o: GcOptions) -> Seq<(i128, usize)> {
    let ks = oldest_first(es, now, o.older_than);
    ks.take(surplus(es, ks, o.max_size_bytes) as int)
}

/// The positions of what goes: the entries that are too old, in their order,
/// and the oldest of the others.
pub open spec fn doomed(es: Seq<GcEntryView>, now: i128, o: GcOptions) -> Seq<usize> {
    aged_at(es, now, o.older_than, es.len() as int) + evicted(es, now, o).map_values(
        |k: (i128, usize)| k.1,
    )
}

/// The positions with each path taken once, at its first occurrence.
pub open spec fn once(es: Seq<GcEntryView>, ps: Seq<usize>) -> Seq<usize>
    decreases ps.len(),
{
    if ps.len() == 0 {
        Seq::empty()
    } else {
        let front = once(es, ps.drop_last());
        if path_among(es, front, ps.last() as int) {
            front
        } else {
            front.push(ps.last())
        }
    }
}

/// What stays of the young entries fits under the cap, and one fewer removed
/// would not do.
pub proof fn law_within_cap(es: Seq<GcEntryView>, ks: Seq<(i128, usize)>, cap: u64)
    ensures
        surplus(es, ks, Some(cap)) <= ks.len(),
        size_at(es, ks.skip(surplus(es, ks, Some(cap)) as int)) <= cap,
        forall|n: int|
            0 <= n < surplus(es, ks, Some(cap)) ==> size_at(es, #[trigger] ks.skip(n)) > cap,
    decreases ks.len(),
{
    if ks.len() == 0 || size_at(es, ks) <= cap {
        assert(ks.skip(0) =~= ks);
    } else {
        let rest = ks.drop_first();
        law_within_cap(es, rest, cap);
        let n = surplus(es, rest, Some(cap)) as int;
        assert(ks.skip(n + 1) =~= rest.skip(n));
        assert forall|m: int| 0 <= m < n + 1 implies size_at(es, #[trigger] ks.skip(m)) > cap by {
            if m == 0 {
                assert(ks.skip(0) =~= ks);
            } else {
                assert(ks.skip(m) =~= rest.skip(m - 1));
            }
        }
    }
}

/// Where no two entries have the same path, what the plan leaves fits under
/// the cap.
pub proof fn law_fits_cap(es: Seq<GcEntryView>, now: i128, o: GcOptions, cap: u64)
    requires
        es.len() <= usize::MAX,
        distinct_keys::<GcEntry>(es),
        o.max_size_bytes == Some(cap),
    ensures
        total_size(es) - total_size(at_positions(es, once(es, doomed(es, now, o)))) <= cap,
{
    let old = aged_at(es, now, o.older_than, es.len() as int);
    let ks = oldest_first(es, now, o.older_than);
    let n = surplus(es, ks, o.max_size_bytes) as int;
    let ps = doomed(es, now, o);
    let rest = ks.skip(n).map_values(|k: (i128, usize)| k.1);
    law_within_cap(es, ks, cap);
    lemma_all_listed(es, now, o.older_than);
    assert(ps + rest =~= old + ks.map_values(|k: (i128, usize)| k.1));
    assert forall|i: int, j: int| 0 <= i < ps.len() && 0 <= j < ps.len() && i != j implies ps[i]
        != ps[j] by {
        assert((ps + rest)[i] != (ps + rest)[j]);
    }
    assert forall|i: int| 0 <= i < ps.len() implies (#[trigger] ps[i]) < es.len() by {
        assert((ps + rest)[i] < es.len());
    }
    lemma_once_all(es, ps);
    lemma_listed_size(es, ps + rest, Set::empty());
    lemma_sized_none(es);
    assert(at_positions(es, ps + rest) =~= at_positions(es, ps) + at_positions(es, rest));
    lemma_total_concat(at_positions(es, ps), at_positions(es, rest));
    lemma_size_at(es, ks.skip(n));
}

/// Without limits nothing goes.
pub proof fn law_no_limits(es: Seq<GcEntryView>, now: i128, o: GcOptions)
    requires
        o.max_size_bytes is None,
        o.older_than is None,
    ensures
        doomed(es, now, o) == Seq::<usize>::empty(),
{
    lemma_none_aged(es, now, es.len() as int);
    assert(doomed(es, now, o) =~= Seq::<usize>::empty());
}

/// No path is removed twice, and each path that goes is removed: positions are
/// dropped only where their path is among the others.
pub proof fn law_once(es: Seq<GcEntryView>, ps: Seq<usize>)
    ensures
        forall|i: int, j: int|
            0 <= i < once(es, ps).len() && 0 <= j < once(es, ps).len() && i != j ==> GcEntry::key(
                es[#[trigger] once(es, ps)[i] as int],
            ) != GcEntry::key(es[#[trigger] once(es, ps)[j] as int]),
        forall|k: int| 0 <= k < ps.len() ==> path_among(es, once(es, ps), #[trigger] ps[k] as int),
        forall|k: int| 0 <= k < once(es, ps).len() ==> ps.contains(#[trigger] once(es, ps)[k]),
    decreases ps.len(),
{
    if ps.len() > 0 {
        let before = ps.drop_last();
        let front = once(es, before);
        let all = once(es, ps);
        let last = ps.last();
        law_once(es, before);
        assert forall|i: int, j: int|
            0 <= i < all.len() && 0 <= j < all.len() && i != j implies GcEntry::key(
            es[#[trigger] all[i] as int],
        ) != GcEntry::key(es[#[trigger] all[j] as int]) by {
            if i < front.len() {
                assert(all[i] == front[i]);
            }
            if j < front.len() {
                assert(all[j] == front[j]);
            }
        }
        assert forall|k: int| 0 <= k < ps.len() implies path_among(
            es,
            all,
            #[trigger] ps[k] as int,
        ) by {
            if k < before.len() {
                assert(before[k] == ps[k]);
                let m = choose|m: int|
                    0 <= m < front.len() && GcEntry::key(es[#[trigger] front[m] as int])
                        == GcEntry::key(es[ps[k] as int]);
                assert(all[m] == front[m]);
            } else if !path_among(es, front, last as int) {
                assert(all[front.len() as int] == last);
            }
        }
        assert forall|k: int| 0 <= k < all.len() implies ps.contains(#[trigger] all[k]) by {
            if k < front.len() {
                assert(all[k] == front[k]);
                let m = choose|m: int| 0 <= m < before.len() && before[m] == front[k];
                assert(ps[m] == all[k]);
            } else {
                assert(ps[ps.len() - 1] == last);
            }
        }
    }
}

/// Whatever the size cap, the path of an entry older than the age limit is
/// removed.
pub proof fn law_old_go(es: Seq<GcEntryView>, now: i128, o: GcOptions, i: int)
    requires
        es.len() <= usize::MAX,
        0 <= i < es.len(),
        aged(es[i], now, o.older_than),
    ensures
        path_among(es, once(es, doomed(es, now, o)), i),
{
    let ps = doomed(es, now, o);
    let old = aged_at(es, now, o.older_than, es.len() as int);
    lemma_aged_at(es, now, o.older_than, es.len() as int);
    assert(old.contains(i as usize));
    let k = choose|k: int| 0 <= k < old.len() && old[k] == i as usize;
    assert(ps[k] == i as usize);
    law_once(es, ps);
}

/// Of the entries within the age limit, none that goes because of the size cap is
/// newer than one that stays.
pub proof fn law_oldest_go(es: Seq<GcEntryView>, now: i128, o: GcOptions, i: usize, j: usize)
    requires
        es.len() <= usize::MAX,
        i < es.len(),
        j < es.len(),
        evicted(es, now, o).contains((es[i as int].mtime, i)),
        spared(es, now, o.older_than, j as int),
        !evicted(es, now, o).contains((es[j as int].mtime, j)),
    ensures
        es[i as int].mtime <= es[j as int].mtime,
{
    let len = es.len() as int;
    let ys = young(es, now, o.older_than, len);
    let ks = oldest_first(es, now, o.older_than);
    let n = surplus(es, ks, o.max_size_bytes) as int;
    let x = (es[i as int].mtime, i);
    let y = (es[j as int].mtime, j);
    law_sorted_keys::<(i128, usize)>(ys);
    lemma_young(es, now, o.older_than, len);
    assert(ys.contains(y));
    assert(ks.contains(y));
    if let Some(cap) = o.max_size_bytes {
        law_within_cap(es, ks, cap);
    }
    let p = choose|p: int| 0 <= p < ks.take(n).len() && ks.take(n)[p] == x;
    let q = choose|q: int| 0 <= q < ks.len() && ks[q] == y;
    if q < n {
        assert(ks.take(n)[q] == y);
    }
    assert(ks[p] == x);
    assert(p < q);
}

/// Only entries that are too old go, and young ones because of a size cap: an
/// entry within the age limit goes only where the entries within it take more
/// than the cap.
pub proof fn law_only_surplus_goes(es: Seq<GcEntryView>, now: i128, o: GcOptions, k: int)
    requires
        es.len() <= usize::MAX,
        0 <= k < doomed(es, now, o).len(),
    ensures
        doomed(es, now, o)[k] < es.len(),
        aged(es[doomed(es, now, o)[k] as int], now, o.older_than) || (o.max_size_bytes is Some
            && size_at(es, oldest_first(es, now, o.older_than)) > o.max_size_bytes->0),
{
    let len = es.len() as int;
    let old = aged_at(es, now, o.older_than, len);
    let ys = young(es, now, o.older_than, len);
    let ks = oldest_first(es, now, o.older_than);
    let out = evicted(es, now, o);
    lemma_aged_at(es, now, o.older_than, len);
    lemma_aged_only(es, now, o.older_than, len);
    law_sorted_keys::<(i128, usize)>(ys);
    lemma_young(es, now, o.older_than, len);
    if let Some(cap) = o.max_size_bytes {
        law_within_cap(es, ks, cap);
    }
    if k < old.len() {
        assert(doomed(es, now, o)[k] == old[k]);
    } else {
        let x = out[k - old.len()];
        assert(doomed(es, now, o)[k] == x.1);
        assert(ks[k - old.len()] == x);
        assert(ks.contains(x));
        assert(ys.contains(x));
        assert(ks.skip(0) =~= ks);
    }
}

proof fn lemma_none_aged(es: Seq<GcEntryView>, now: i128, n: int)
    ensures
        aged_at(es, now, None, n).len() == 0,
    decreases n,
{
    if n > 0 {
        lemma_none_aged(es, now, n - 1);
    }
}

proof fn lemma_aged_at(es: Seq<GcEntryView>, now: i128, older_than: Option<Duration>, n: int)
    requires
        0 <= n <= es.len() <= usize::MAX,
    ensures
        forall|k: int|
            0 <= k < aged_at(es, now, older_than, n).len() ==> (#[trigger] aged_at(
                es,
                now,
                older_than,
                n,
            )[k]) < n,
        forall|i: int|
            0 <= i < n && aged(#[trigger] es[i], now, older_than) ==> aged_at(
                es,
                now,
                older_than,
                n,
            ).contains(i as usize),
    decreases n,
{
    if n > 0 {
        lemma_aged_at(es, now, older_than, n - 1);
        lemma_push_contains(aged_at(es, now, older_than, n - 1), (n - 1) as usize);
    }
}

proof fn lemma_young(es: Seq<GcEntryView>, now: i128, older_than: Option<Duration>, n: int)
    requires
        0 <= n <= es.len() <= usize::MAX,
    ensures
        forall|k: (i128, usize)| #[trigger]
            young(es, now, older_than, n).contains(k) <==> k.1 < n && es[k.1 as int].mtime == k.0
                && spared(es, now, older_than, k.1 as int),
    decreases n,
{
    if n > 0 {
        lemma_young(es, now, older_than, n - 1);
        lemma_push_contains(
            young(es, now, older_than, n - 1),
            (es[n - 1].mtime, (n - 1) as usize),
        );
    }
}

proof fn lemma_total_monotone(es: Seq<GcEntryView>, n: int)
    requires
        0 <= n <= es.len(),
    ensures
        total_size(es.take(n)) <= total_size(es),
    decreases es.len() - n,
{
    if n < es.len() {
        assert(es.take(n + 1).drop_last() =~= es.take(n));
        lemma_total_monotone(es, n + 1);
    } else {
        assert(es.take(n) =~= es);
    }
}

// ── Planning ─────────────────────────────────────────────────────────────────

/// What a collection removes.
#[derive(Debug)]
pub struct GcPlan {
    /// Bytes before the collection.
    pub total_before: u64,
    /// Entries before the collection.
    pub count_before: usize,
    /// The entries to remove, by path.
    pub removals: Vec<GcEntry>,
}

/// Whether an entry is older than the age limit.
fn is_aged(e: &GcEntry, now: i128, older_than: Option<Duration>) -> (r: bool)
    ensures
        r == aged(e.deep_view(), now, older_than),
{
    match older_than {
        Some(d) => {
            let limit: i128 = d.secs as i128 * 1_000_000_000 + d.subsec_nanos as i128;
            if e.mtime > i128::MAX - limit {
                false
            } else {
                now > e.mtime + limit
            }
        },
        None => false,
    }
}

/// The bytes that entries take together.
fn sum_sizes(es: &Vec<GcEntry>) -> (r: u64)
    requires
        total_size(es.deep_view()) <= u64::MAX,
    ensures
        r == total_size(es.deep_view()),
{
    let ghost v = es.deep_view();
    let mut sum: u64 = 0;
    let mut i: usize = 0;
    assert(v.take(0) =~= Seq::<GcEntryView>::empty());
    while i < es.len()
        invariant
            i <= es.len(),
            v == es.deep_view(),
            total_size(v) <= u64::MAX,
            sum == total_size(v.take(i as int)),
        decreases es.len() - i,
    {
        proof {
            assert(v[i as int] == es[i as int].deep_view());
            assert(v.take(i + 1).drop_last() =~= v.take(i as int));
            assert(v.take(i + 1).last() == v[i as int]);
            lemma_total_monotone(v, i + 1);
        }
        sum += es[i].size;
        i += 1;
    }
    assert(v.take(es.len() as int) =~= v);
    sum
}

/// The texts that the paths of entries are told apart by.
fn path_keys(es: &Vec<GcEntry>) -> (r: Vec<String>)
    ensures
        r.len() == es.len(),
        forall|k: int|
            0 <= k < r.len() ==> (#[trigger] r@[k])@ == GcEntry::key(es.deep_view()[k]),
{
    let ghost v = es.deep_view();
    let mut out: Vec<String> = Vec::new();
    let mut i: usize = 0;
    while i < es.len()
        invariant
            i <= es.len(),
            v == es.deep_view(),
            out.len() == i,
            forall|k: int| 0 <= k < i ==> (#[trigger] out@[k])@ == GcEntry::key(v[k]),
        decreases es.len() - i,
    {
        assert(v[i as int] == es[i as int].deep_view());
        out.push(es[i].key_string());
        i += 1;
    }
    out
}

/// Whether the path at `p` is the path at one of some positions.
fn is_among(keys: &Vec<String>, ps: &Vec<usize>, p: usize, Ghost(v): Ghost<Seq<GcEntryView>>) -> (r:
    bool)
    requires
        keys.len() == v.len(),
        forall|k: int| 0 <= k < keys.len() ==> (#[trigger] keys@[k])@ == GcEntry::key(v[k]),
        forall|k: int| 0 <= k < ps.len() ==> (#[trigger] ps@[k]) < keys.len(),
        p < keys.len(),
    ensures
        r == path_among(v, ps@, p as int),
{
    let mut k: usize = 0;
    while k < ps.len()
        invariant
            k <= ps.len(),
            keys.len() == v.len(),
            forall|k: int| 0 <= k < keys.len() ==> (#[trigger] keys@[k])@ == GcEntry::key(v[k]),
            forall|k: int| 0 <= k < ps.len() ==> (#[trigger] ps@[k]) < keys.len(),
            p < keys.len(),
            forall|m: int|
                0 <= m < k ==> GcEntry::key(v[#[trigger] ps@[m] as int]) != GcEntry::key(
                    v[p as int],
                ),
        decreases ps.len() - k,
    {
        let q = ps[k];
        assert(q == ps@[k as int] && q < keys.len());
        if str_eq(keys[q].as_str(), keys[p].as_str()) {
            assert(GcEntry::key(v[ps@[k as int] as int]) == GcEntry::key(v[p as int]));
            return true;
        }
        k += 1;
    }
    false
}

/// The positions of the entries that are too old.
fn find_aged(es: &Vec<GcEntry>, now: i128, older_than: Option<Duration>) -> (r: Vec<usize>)
    ensures
        r@ == aged_at(es.deep_view(), now, older_than, es.len() as int),
{
    let ghost v = es.deep_view();
    let mut out: Vec<usize> = Vec::new();
    let mut i: usize = 0;
    while i < es.len()
        invariant
            i <= es.len(),
            v == es.deep_view(),
            out@ == aged_at(v, now, older_than, i as int),
        decreases es.len() - i,
    {
        assert(v[i as int] == es[i as int].deep_view());
        if is_aged(&es[i], now, older_than) {
            out.push(i);
        }
        i += 1;
    }
    out
}

/// The entries that are spared; `old` are the positions of those that are too
/// old.
fn find_young(
    es: &Vec<GcEntry>,
    keys: &Vec<String>,
    old: &Vec<usize>,
    now: i128,
    older_than: Option<Duration>,
) -> (r: Vec<(i128, usize)>)
    requires
        keys.len() == es.len(),
        forall|k: int|
            0 <= k < keys.len() ==> (#[trigger] keys@[k])@ == GcEntry::key(es.deep_view()[k]),
        old@ == aged_at(es.deep_view(), now, older_than, es.len() as int),
    ensures
        r.deep_view() == young(es.deep_view(), now, older_than, es.len() as int),
{
    let ghost v = es.deep_view();
    let mut out: Vec<(i128, usize)> = Vec::new();
    let mut i: usize = 0;
    proof {
        lemma_aged_at(v, now, older_than, es.len() as int);
        assert(out.deep_view() =~= Seq::<(i128, usize)>::empty());
    }
    while i < es.len()
        invariant
            i <= es.len(),
            v == es.deep_view(),
            keys.len() == es.len(),
            forall|k: int| 0 <= k < keys.len() ==> (#[trigger] keys@[k])@ == GcEntry::key(v[k]),
            forall|k: int| 0 <= k < old.len() ==> (#[trigger] old@[k]) < keys.len(),
            old@ == aged_at(v, now, older_than, es.len() as int),
            out.deep_view() == young(v, now, older_than, i as int),
        decreases es.len() - i,
    {
        let ghost had = out.deep_view();
        assert(v[i as int] == es[i as int].deep_view());
        if !is_among(keys, old, i, Ghost(v)) {
            out.push((es[i].mtime, i));
            assert(out.deep_view() =~= had.push((v[i as int].mtime, i)));
        }
        i += 1;
    }
    out
}

/// How many of the entries, from the front, have to go.
fn count_surplus(es: &Vec<GcEntry>, ks: &Vec<(i128, usize)>, cap: Option<u64>) -> (r: usize)
    requires
        forall|k: int| 0 <= k < ks.len() ==> (#[trigger] ks@[k]).1 < es.len(),
        ks.deep_view() == ks@,
        size_at(es.deep_view(), ks@) <= u64::MAX,
    ensures
        r == surplus(es.deep_view(), ks@, cap),
        r <= ks.len(),
{
    let ghost v = es.deep_view();
    let limit: u64 = match cap {
        Some(c) => c,
        None => {
            return 0;
        },
    };
    let mut kept: u64 = 0;
    let mut i: usize = ks.len();
    assert(ks@.skip(ks.len() as int) =~= Seq::<(i128, usize)>::empty());
    while i > 0
        invariant
            i <= ks.len(),
            v == es.deep_view(),
            forall|k: int| 0 <= k < ks.len() ==> (#[trigger] ks@[k]).1 < es.len(),
            size_at(v, ks@) <= u64::MAX,
            kept == size_at(v, ks@.skip(i as int)),
        decreases i,
    {
        i -= 1;
        proof {
            assert(ks@.skip(i as int).drop_first() =~= ks@.skip(i + 1));
            assert(ks@.skip(i as int)[0] == ks@[i as int]);
            lemma_size_suffix(v, ks@, i as int);
            assert(ks@[i as int].1 < es.len());
            assert(v[ks@[i as int].1 as int] == es[ks@[i as int].1 as int].deep_view());
        }
        kept += es[ks[i].1].size;
    }
    assert(ks@.skip(0) =~= ks@);
    let mut n: usize = 0;
    while n < ks.len() && kept > limit
        invariant
            n <= ks.len(),
            v == es.deep_view(),
            cap == Some(limit),
            forall|k: int| 0 <= k < ks.len() ==> (#[trigger] ks@[k]).1 < es.len(),
            kept == size_at(v, ks@.skip(n as int)),
            surplus(v, ks@, cap) == n + surplus(v, ks@.skip(n as int), cap),
        decreases ks.len() - n,
    {
        proof {
            assert(ks@.skip(n as int).drop_first() =~= ks@.skip(n + 1));
            assert(ks@.skip(n as int)[0] == ks@[n as int]);
            assert(ks@[n as int].1 < es.len());
            assert(v[ks@[n as int].1 as int] == es[ks@[n as int].1 as int].deep_view());
        }
        kept -= es[ks[n].1].size;
        n += 1;
    }
    n
}

proof fn lemma_size_suffix(es: Seq<GcEntryView>, ks: Seq<(i128, usize)>, n: int)
    requires
        0 <= n <= ks.len(),
    ensures
        size_at(es, ks.skip(n)) <= size_at(es, ks),
    decreases n,
{
    if n > 0 {
        lemma_size_suffix(es, ks, n - 1);
        assert(ks.skip(n - 1).drop_first() =~= ks.skip(n));
    } else {
        assert(ks.skip(0) =~= ks);
    }
}

/// The young entries take no more than all entries do.
proof fn lemma_young_size(es: Seq<GcEntryView>, ks: Seq<(i128, usize)>, used: Set<int>)
    requires
        forall|k: int| 0 <= k < ks.len() ==> (#[trigger] ks[k]).1 < es.len(),
        forall|i: int, j: int|
            0 <= i < ks.len() && 0 <= j < ks.len() && i != j ==> (#[trigger] ks[i]).1 != (
            #[trigger] ks[j]).1,
        forall|k: int| 0 <= k < ks.len() ==> !used.contains((#[trigger] ks[k]).1 as int),
    ensures
        size_at(es, ks) + sized_in(es, used) <= total_size(es),
    decreases ks.len(),
{
    if ks.len() == 0 {
        lemma_sized_all(es, used);
    } else {
        let rest = ks.drop_first();
        let p = ks[0].1 as int;
        assert forall|k: int| 0 <= k < rest.len() implies (#[trigger] rest[k]).1 < es.len()
            && !used.insert(p).contains(rest[k].1 as int) by {
            assert(rest[k] == ks[k + 1]);
            assert(ks[0].1 != ks[k + 1].1);
        }
        assert forall|i: int, j: int|
            0 <= i < rest.len() && 0 <= j < rest.len() && i != j implies (#[trigger] rest[i]).1 != (
        #[trigger] rest[j]).1 by {
            assert(rest[i] == ks[i + 1]);
            assert(rest[j] == ks[j + 1]);
        }
        lemma_young_size(es, rest, used.insert(p));
        lemma_sized_insert(es, used, p);
    }
}

/// The bytes of the entries at the positions in a set.
spec fn sized_in(es: Seq<GcEntryView>, used: Set<int>) -> nat
    decreases es.len(),
{
    if es.len() == 0 {
        0
    } else {
        sized_in(es.drop_last(), used) + if used.contains(es.len() - 1) {
            es.last().size as nat
        } else {
            0nat
        }
    }
}

proof fn lemma_sized_all(es: Seq<GcEntryView>, used: Set<int>)
    ensures
        sized_in(es, used) <= total_size(es),
    decreases es.len(),
{
    if es.len() > 0 {
        lemma_sized_all(es.drop_last(), used);
    }
}

proof fn lemma_sized_insert(es: Seq<GcEntryView>, used: Set<int>, p: int)
    requires
        0 <= p < es.len(),
        !used.contains(p),
    ensures
        sized_in(es, used.insert(p)) == sized_in(es, used) + es[p].size,
    decreases es.len(),
{
    let front = es.drop_last();
    if p < front.len() {
        lemma_sized_insert(front, used, p);
        assert(front[p] == es[p]);
    } else {
        lemma_sized_above(front, used, p);
    }
}

proof fn lemma_sized_above(es: Seq<GcEntryView>, used: Set<int>, p: int)
    requires
        p >= es.len(),
    ensures
        sized_in(es, used.insert(p)) == sized_in(es, used),
    decreases es.len(),
{
    if es.len() > 0 {
        lemma_sized_above(es.drop_last(), used, p);
    }
}

/// Where no two entries have the same path, the entries that are too old and
/// the others are all entries, each once.
proof fn lemma_all_listed(es: Seq<GcEntryView>, now: i128, older_than: Option<Duration>)
    requires
        es.len() <= usize::MAX,
        distinct_keys::<GcEntry>(es),
    ensures
        lists(
            aged_at(es, now, older_than, es.len() as int) + oldest_first(
                es,
                now,
                older_than,
            ).map_values(|k: (i128, usize)| k.1),
            0,
            es.len() as int,
        ),
{
    let len = es.len() as int;
    let old = aged_at(es, now, older_than, len);
    let ys = young(es, now, older_than, len);
    let ks = oldest_first(es, now, older_than);
    let late = ks.map_values(|k: (i128, usize)| k.1);
    let all = old + late;
    law_sorted_keys::<(i128, usize)>(ys);
    lemma_aged_at(es, now, older_than, len);
    lemma_aged_only(es, now, older_than, len);
    lemma_young(es, now, older_than, len);
    assert forall|k: int| 0 <= k < ks.len() implies (#[trigger] ks[k]).1 < len
        && es[ks[k].1 as int].mtime == ks[k].0 && spared(es, now, older_than, ks[k].1 as int) by {
        assert(ks.contains(ks[k]));
        assert(ys.contains(ks[k]));
    }
    assert forall|i: int| 0 <= i < all.len() implies 0 <= #[trigger] all[i] < len by {
        if i < old.len() {
            assert(all[i] == old[i]);
        } else {
            assert(all[i] == ks[i - old.len()].1);
        }
    }
    assert forall|i: int, j: int| 0 <= i < j < all.len() implies all[i] != all[j] by {
        if j < old.len() {
            assert(all[i] == old[i] && all[j] == old[j]);
        } else if i < old.len() {
            assert(all[i] == old[i]);
            assert(all[j] == ks[j - old.len()].1);
            if all[i] == all[j] {
                assert(path_among(es, old, all[j] as int));
            }
        } else {
            let a = ks[i - old.len()];
            let b = ks[j - old.len()];
            assert(all[i] == a.1 && all[j] == b.1);
            assert(<(i128, usize) as crate::keys::Key>::lt(a, b));
        }
    }
    assert forall|x: int| 0 <= x < len implies all.contains(#[trigger] (x as usize)) by {
        let p = x as usize;
        if aged(es[x], now, older_than) {
            assert(old.contains(p));
            let k = choose|k: int| 0 <= k < old.len() && old[k] == p;
            assert(all[k] == p);
        } else {
            if path_among(es, old, x) {
                let k = choose|k: int|
                    0 <= k < old.len() && GcEntry::key(es[#[trigger] old[k] as int])
                        == GcEntry::key(es[x]);
                assert(aged(es[old[k] as int], now, older_than));
            }
            let key = (es[x].mtime, p);
            assert(ys.contains(key));
            assert(ks.contains(key));
            let k = choose|k: int| 0 <= k < ks.len() && ks[k] == key;
            assert(late[k] == p);
            assert(all[old.len() + k] == p);
        }
    }
    lemma_listed_len(all, len);
}

proof fn lemma_aged_only(es: Seq<GcEntryView>, now: i128, older_than: Option<Duration>, n: int)
    requires
        0 <= n <= es.len() <= usize::MAX,
    ensures
        forall|k: int|
            0 <= k < aged_at(es, now, older_than, n).len() ==> aged(
                es[(#[trigger] aged_at(es, now, older_than, n)[k]) as int],
                now,
                older_than,
            ),
        aged_at(es, now, older_than, n).no_duplicates(),
    decreases n,
{
    if n > 0 {
        lemma_aged_only(es, now, older_than, n - 1);
        lemma_aged_at(es, now, older_than, n - 1);
    }
}

/// Positions that are all different and leave none out are as many as there
/// are positions.
proof fn lemma_listed_len(ps: Seq<usize>, n: int)
    requires
        0 <= n <= usize::MAX,
        ps.no_duplicates(),
        forall|i: int| 0 <= i < ps.len() ==> 0 <= #[trigger] ps[i] < n,
        forall|x: int| 0 <= x < n ==> ps.contains(#[trigger] (x as usize)),
    ensures
        ps.len() == n,
    decreases n,
{
    if n > 0 {
        assert(ps.contains((n - 1) as usize));
        let k = choose|k: int| 0 <= k < ps.len() && ps[k] == (n - 1) as usize;
        let rest = ps.remove(k);
        assert forall|i: int| 0 <= i < rest.len() implies 0 <= #[trigger] rest[i] < n - 1 by {
            let j = if i < k { i } else { i + 1 };
            assert(rest[i] == ps[j]);
            assert(ps[j] != ps[k]);
        }
        assert forall|x: int| 0 <= x < n - 1 implies rest.contains(#[trigger] (x as usize)) by {
            assert(ps.contains(x as usize));
            let j = choose|j: int| 0 <= j < ps.len() && ps[j] == x as usize;
            assert(rest[if j < k { j } else { j - 1 }] == x as usize);
        }
        assert(rest.no_duplicates());
        lemma_listed_len(rest, n - 1);
    } else if ps.len() > 0 {
        assert(0 <= ps[0] < n);
    }
}

/// Where no two entries have the same path, different positions stay as they
/// are when each path is taken once.
proof fn lemma_once_all(es: Seq<GcEntryView>, ps: Seq<usize>)
    requires
        distinct_keys::<GcEntry>(es),
        ps.no_duplicates(),
        forall|k: int| 0 <= k < ps.len() ==> (#[trigger] ps[k]) < es.len(),
    ensures
        once(es, ps) == ps,
    decreases ps.len(),
{
    if ps.len() > 0 {
        let front = ps.drop_last();
        assert(front.no_duplicates());
        lemma_once_all(es, front);
        assert forall|k: int| 0 <= k < front.len() implies GcEntry::key(
            es[#[trigger] front[k] as int],
        ) != GcEntry::key(es[ps.last() as int]) by {
            assert(front[k] == ps[k]);
            assert(ps[k] != ps[ps.len() - 1]);
        }
        assert(front.push(ps.last()) =~= ps);
    }
}

/// The entries at positions that leave out only some take what all entries take
/// without those.
proof fn lemma_listed_size(es: Seq<GcEntryView>, ps: Seq<usize>, used: Set<int>)
    requires
        es.len() <= usize::MAX,
        ps.no_duplicates(),
        forall|k: int| 0 <= k < ps.len() ==> (#[trigger] ps[k]) < es.len(),
        forall|k: int| 0 <= k < ps.len() ==> !used.contains((#[trigger] ps[k]) as int),
        forall|x: int|
            0 <= x < es.len() ==> used.contains(x) || ps.contains(#[trigger] (x as usize)),
    ensures
        total_size(at_positions(es, ps)) + sized_in(es, used) == total_size(es),
    decreases ps.len(),
{
    if ps.len() == 0 {
        assert forall|x: int| 0 <= x < es.len() implies used.contains(x) by {
            assert(!ps.contains(x as usize));
        }
        lemma_sized_full(es, used);
    } else {
        let rest = ps.drop_last();
        let p = ps.last() as int;
        let more = used.insert(p);
        assert forall|k: int| 0 <= k < rest.len() implies !more.contains(
            (#[trigger] rest[k]) as int,
        ) && rest[k] < es.len() by {
            assert(rest[k] == ps[k]);
            assert(ps[k] != ps[ps.len() - 1]);
        }
        assert forall|x: int| 0 <= x < es.len() implies more.contains(x) || rest.contains(
            #[trigger] (x as usize),
        ) by {
            if !used.contains(x) && x != p {
                let k = choose|k: int| 0 <= k < ps.len() && ps[k] == x as usize;
                assert(rest[k] == x as usize);
            }
        }
        assert(rest.no_duplicates());
        lemma_listed_size(es, rest, more);
        lemma_sized_insert(es, used, p);
        assert(at_positions(es, ps).drop_last() =~= at_positions(es, rest));
    }
}

proof fn lemma_sized_full(es: Seq<GcEntryView>, used: Set<int>)
    requires
        forall|x: int| 0 <= x < es.len() ==> used.contains(x),
    ensures
        sized_in(es, used) == total_size(es),
    decreases es.len(),
{
    if es.len() > 0 {
        lemma_sized_full(es.drop_last(), used);
    }
}

proof fn lemma_sized_none(es: Seq<GcEntryView>)
    ensures
        sized_in(es, Set::empty()) == 0,
    decreases es.len(),
{
    if es.len() > 0 {
        lemma_sized_none(es.drop_last());
    }
}

proof fn lemma_total_concat(a: Seq<GcEntryView>, b: Seq<GcEntryView>)
    ensures
        total_size(a + b) == total_size(a) + total_size(b),
    decreases b.len(),
{
    if b.len() == 0 {
        assert(a + b =~= a);
    } else {
        assert((a + b).drop_last() =~= a + b.drop_last());
        lemma_total_concat(a, b.drop_last());
    }
}

proof fn lemma_size_at(es: Seq<GcEntryView>, ks: Seq<(i128, usize)>)
    ensures
        size_at(es, ks) == total_size(at_positions(es, ks.map_values(|k: (i128, usize)| k.1))),
    decreases ks.len(),
{
    let at = at_positions(es, ks.map_values(|k: (i128, usize)| k.1));
    if ks.len() > 0 {
        let rest = ks.drop_first();
        lemma_size_at(es, rest);
        let one = seq![es[ks[0].1 as int]];
        assert(at =~= one + at_positions(es, rest.map_values(|k: (i128, usize)| k.1)));
        lemma_total_concat(one, at_positions(es, rest.map_values(|k: (i128, usize)| k.1)));
        reveal_with_fuel(total_size, 2);
    }
}

/// The positions with each path taken once.
fn take_once(keys: &Vec<String>, ps: &Vec<usize>, Ghost(v): Ghost<Seq<GcEntryView>>) -> (r: Vec<
    usize,
>)
    requires
        keys.len() == v.len(),
        forall|k: int| 0 <= k < keys.len() ==> (#[trigger] keys@[k])@ == GcEntry::key(v[k]),
        forall|k: int| 0 <= k < ps.len() ==> (#[trigger] ps@[k]) < keys.len(),
    ensures
        r@ == once(v, ps@),
        forall|k: int| 0 <= k < r.len() ==> (#[trigger] r@[k]) < keys.len(),
{
    let mut out: Vec<usize> = Vec::new();
    let mut i: usize = 0;
    assert(ps@.take(0) =~= Seq::<usize>::empty());
    while i < ps.len()
        invariant
            i <= ps.len(),
            keys.len() == v.len(),
            forall|k: int| 0 <= k < keys.len() ==> (#[trigger] keys@[k])@ == GcEntry::key(v[k]),
            forall|k: int| 0 <= k < ps.len() ==> (#[trigger] ps@[k]) < keys.len(),
            out@ == once(v, ps@.take(i as int)),
            forall|k: int| 0 <= k < out.len() ==> (#[trigger] out@[k]) < keys.len(),
        decreases ps.len() - i,
    {
        assert(ps@.take(i + 1).drop_last() =~= ps@.take(i as int));
        assert(ps@.take(i + 1).last() == ps@[i as int]);
        if !is_among(keys, &out, ps[i], Ghost(v)) {
            out.push(ps[i]);
        }
        i += 1;
    }
    assert(ps@.take(ps.len() as int) =~= ps@);
    out
}

/// Copies of the entries at some positions.
fn pick(es: &Vec<GcEntry>, ps: &Vec<usize>) -> (r: Vec<GcEntry>)
    requires
        forall|k: int| 0 <= k < ps.len() ==> (#[trigger] ps@[k]) < es.len(),
    ensures
        r.deep_view() == at_positions(es.deep_view(), ps@),
{
    let ghost v = es.deep_view();
    let ghost want = at_positions(v, ps@);
    let mut out: Vec<GcEntry> = Vec::new();
    let mut i: usize = 0;
    assert(out.deep_view() =~= want.take(0));
    while i < ps.len()
        invariant
            i <= ps.len(),
            v == es.deep_view(),
            want == at_positions(v, ps@),
            forall|k: int| 0 <= k < ps.len() ==> (#[trigger] ps@[k]) < es.len(),
            out.deep_view() == want.take(i as int),
        decreases ps.len() - i,
    {
        let ghost had = out.deep_view();
        assert(ps@[i as int] < es.len());
        assert(v[ps@[i as int] as int] == es[ps@[i as int] as int].deep_view());
        out.push(es[ps[i]].duplicate());
        assert(out.deep_view() =~= had.push(want[i as int]));
        i += 1;
        assert(out.deep_view() =~= want.take(i as int));
    }
    assert(want.take(ps.len() as int) =~= want);
    out
}

/// Entries at different positions take no more than all entries do.
proof fn lemma_picked_size(es: Seq<GcEntryView>, ps: Seq<usize>, used: Set<int>)
    requires
        forall|k: int| 0 <= k < ps.len() ==> (#[trigger] ps[k]) < es.len(),
        ps.no_duplicates(),
        forall|k: int| 0 <= k < ps.len() ==> !used.contains((#[trigger] ps[k]) as int),
    ensures
        total_size(at_positions(es, ps)) + sized_in(es, used) <= total_size(es),
    decreases ps.len(),
{
    if ps.len() == 0 {
        lemma_sized_all(es, used);
    } else {
        let rest = ps.drop_last();
        let p = ps.last() as int;
        assert forall|k: int| 0 <= k < rest.len() implies !used.insert(p).contains(
            (#[trigger] rest[k]) as int,
        ) && rest[k] < es.len() by {
            assert(rest[k] == ps[k]);
            assert(ps[k] != ps[ps.len() - 1]);
        }
        assert(rest.no_duplicates());
        lemma_picked_size(es, rest, used.insert(p));
        lemma_sized_insert(es, used, p);
        assert(at_positions(es, ps).drop_last() =~= at_positions(es, rest));
    }
}

/// Sorting keeps the bytes that the entries take together.
proof fn lemma_sorted_size(es: Seq<GcEntryView>, r: Seq<GcEntryView>)
    requires
        es.len() <= usize::MAX,
        is_sorted::<GcEntry>(es, r),
    ensures
        total_size(r) == total_size(es),
{
    let p = choose|p: Seq<usize>| #[trigger]
        key_order::<GcEntry>(es, p) && r == at_positions(es, p);
    lemma_listed_size(es, p, Set::empty());
    lemma_sized_none(es);
}

/// Plans a collection: entries older than the age limit go, then the oldest of
/// the others until the rest fits under the size cap.
pub fn plan_gc(es: &Vec<GcEntry>, now: i128, opts: &GcOptions) -> (r: GcPlan)
    requires
        total_size(es.deep_view()) <= u64::MAX,
    ensures
        r.total_before == total_size(es.deep_view()),
        r.count_before == es.len(),
        ascending::<GcEntry>(r.removals.deep_view()),
        is_sorted::<GcEntry>(
            at_positions(es.deep_view(), once(es.deep_view(), doomed(es.deep_view(), now, *opts))),
            r.removals.deep_view(),
        ),
        total_size(r.removals.deep_view()) <= r.total_before,
        distinct_keys::<GcEntry>(es.deep_view()) && opts.max_size_bytes is Some ==> r.total_before
            - total_size(r.removals.deep_view()) <= opts.max_size_bytes->0,
{
    let ghost v = es.deep_view();
    let total_before = sum_sizes(es);
    let keys = path_keys(es);
    let old = find_aged(es, now, opts.older_than);
    let spare = find_young(es, &keys, &old, now, opts.older_than);
    let ks = sort_keys(&spare);
    proof {
        assert(ks.deep_view() =~= ks@);
        assert(v.len() == es.len());
        lemma_aged_at(v, now, opts.older_than, es.len() as int);
        lemma_young(v, now, opts.older_than, es.len() as int);
        assert forall|k: int| 0 <= k < ks.len() implies (#[trigger] ks@[k]).1 < es.len()
            && v[ks@[k].1 as int].mtime == ks@[k].0 by {
            assert(ks.deep_view().contains(ks@[k]));
            assert(young(v, now, opts.older_than, es.len() as int).contains(ks@[k]));
        }
        assert forall|i: int, j: int|
            0 <= i < ks.len() && 0 <= j < ks.len() && i != j implies (#[trigger] ks@[i]).1 != (
        #[trigger] ks@[j]).1 by {
            if ks@[i].1 == ks@[j].1 {
                assert(ks@[i] == ks@[j]);
                if i < j {
                    assert(<(i128, usize) as crate::keys::Key>::lt(ks.deep_view()[i], ks.deep_view()[j]));
                } else {
                    assert(<(i128, usize) as crate::keys::Key>::lt(ks.deep_view()[j], ks.deep_view()[i]));
                }
            }
        }
        lemma_young_size(v, ks@, Set::empty());
    }
    let n = count_surplus(es, &ks, opts.max_size_bytes);
    assert(ks@.take(n as int) == evicted(v, now, *opts));
    let ghost late = evicted(v, now, *opts).map_values(|k: (i128, usize)| k.1);
    let mut all: Vec<usize> = old;
    let ghost first = all@;
    let mut j: usize = 0;
    assert(all@ =~= first + late.take(0));
    while j < n
        invariant
            j <= n <= ks.len(),
            late.len() == n,
            forall|k: int| 0 <= k < n ==> #[trigger] late[k] == ks@[k].1,
            forall|k: int| 0 <= k < ks.len() ==> (#[trigger] ks@[k]).1 < es.len(),
            forall|k: int| 0 <= k < first.len() ==> (#[trigger] first[k]) < es.len(),
            all@ == first + late.take(j as int),
        decreases n - j,
    {
        assert(late[j as int] == ks@[j as int].1);
        all.push(ks[j].1);
        j += 1;
        assert(all@ =~= first + late.take(j as int));
    }
    proof {
        assert(late.take(n as int) =~= late);
        assert(all@ == doomed(v, now, *opts));
        assert forall|k: int| 0 <= k < all.len() implies (#[trigger] all@[k]) < es.len() by {
            if k < first.len() {
                assert(all@[k] == first[k]);
            } else {
                assert(all@[k] == late[k - first.len()]);
                assert(ks@[k - first.len()].1 < es.len());
            }
        }
    }
    let ps = take_once(&keys, &all, Ghost(v));
    let picked = pick(es, &ps);
    let removals = sort_records(&picked);
    proof {
        law_once(v, all@);
        let p = picked.deep_view();
        assert forall|i: int, j: int| 0 <= i < p.len() && 0 <= j < p.len() && i != j implies
            GcEntry::key(#[trigger] p[i]) != GcEntry::key(#[trigger] p[j]) by {
            assert(p[i] == v[ps@[i] as int] && p[j] == v[ps@[j] as int]);
        }
        assert(ps@.no_duplicates()) by {
            assert forall|i: int, j: int| 0 <= i < ps.len() && 0 <= j < ps.len() && i != j implies
                ps@[i] != ps@[j] by {
                assert(GcEntry::key(v[ps@[i] as int]) != GcEntry::key(v[ps@[j] as int]));
            }
        }
        lemma_picked_size(v, ps@, Set::empty());
        lemma_sorted_size(p, removals.deep_view());
        if distinct_keys::<GcEntry>(v) && opts.max_size_bytes is Some {
            law_fits_cap(v, now, *opts, opts.max_size_bytes->0);
        }
    }
    GcPlan { total_before, count_before: es.len(), removals }
}

// ── Removing ─────────────────────────────────────────────────────────────────

/// What became of an entry that was to be removed.
#[derive(Debug)]
pub enum Removal {
    /// It was not there any more.
    Vanished,
    /// It is a symbolic link, and was not touched.
    Symlink,
    /// It was removed.
    Removed,
    /// It could not be removed; with the message.
    Failed(String),
}

/// What a [`Removal`] says.
pub enum RemovalView {
    Vanished,
    Symlink,
    Removed,
    Failed(Seq<char>),
}

impl DeepView for Removal {
    type V = RemovalView;

    open spec fn deep_view(&self) -> RemovalView {
        match self {
            Removal::Vanished => RemovalView::Vanished,
            Removal::Symlink => RemovalView::Symlink,
            Removal::Removed => RemovalView::Removed,
            Removal::Failed(e) => RemovalView::Failed(e@),
        }
    }
}

/// What a collection did.
#[derive(Debug)]
pub struct GcReport {
    /// Bytes before the collection.
    pub total_before: u64,
    /// Entries that were removed, or would be.
    pub removed_count: usize,
    /// Bytes that were freed, or would be.
    pub removed_size: u64,
    /// Entries before the collection.
    pub count_before: usize,
    /// Whether nothing was to be touched.
    pub dry_run: bool,
    /// The paths that could not be removed, each with the message.
    pub errors: Vec<(String, String)>,
}

/// What a [`GcReport`] holds.
#[verifier::ext_equal]
pub struct GcReportView {
    pub total_before: u64,
    pub removed_count: nat,
    pub removed_size: nat,
    pub count_before: nat,
    pub dry_run: bool,
    pub errors: Seq<(Seq<char>, Seq<char>)>,
}

impl DeepView for GcReport {
    type V = GcReportView;

    open spec fn deep_view(&self) -> GcReportView {
        GcReportView {
            total_before: self.total_before,
            removed_count: self.removed_count as nat,
            removed_size: self.removed_size as nat,
            count_before: self.count_before as nat,
            dry_run: self.dry_run,
            errors: self.errors.deep_view(),
        }
    }
}

/// A report with one more removal; a symbolic link ends the collection.
pub open spec fn noted(r: GcReportView, e: GcEntryView, x: RemovalView) -> std::result::Result<
    GcReportView,
    Seq<char>,
> {
    match x {
        RemovalView::Vanished => Ok(r),
        RemovalView::Symlink => Err("refusing to remove symlink in cache: "@ + e.path),
        RemovalView::Removed => Ok(
            GcReportView {
                removed_count: r.removed_count + 1,
                removed_size: r.removed_size + e.size as nat,
                ..r
            },
        ),
        RemovalView::Failed(m) => Ok(GcReportView { errors: r.errors.push((e.path, m)), ..r }),
    }
}

/// The report before anything was removed: a dry run counts all entries of the
/// plan as removed.
pub open spec fn started(
    total_before: u64,
    count_before: nat,
    removals: Seq<GcEntryView>,
    dry_run: bool,
) -> GcReportView {
    GcReportView {
        total_before,
        removed_count: if dry_run {
            removals.len()
        } else {
            0
        },
        removed_size: if dry_run {
            total_size(removals)
        } else {
            0
        },
        count_before,
        dry_run,
        errors: Seq::empty(),
    }
}

/// A report with several more entries, all of which were removed.
pub open spec fn all_removed(r: GcReportView, es: Seq<GcEntryView>) -> std::result::Result<
    GcReportView,
    Seq<char>,
>
    decreases es.len(),
{
    if es.len() == 0 {
        Ok(r)
    } else {
        match all_removed(r, es.drop_last()) {
            Ok(before) => noted(before, es.last(), RemovalView::Removed),
            Err(e) => Err(e),
        }
    }
}

/// A dry run reports what a collection reports that removes every entry of the
/// plan, but for saying that it was one.
pub proof fn law_dry_run(total_before: u64, count_before: nat, removals: Seq<GcEntryView>)
    ensures
        all_removed(started(total_before, count_before, removals, false), removals) == Ok::<
            GcReportView,
            Seq<char>,
        >(
            GcReportView {
                dry_run: false,
                ..started(total_before, count_before, removals, true)
            },
        ),
{
    lemma_all_removed(started(total_before, count_before, removals, false), removals);
}

proof fn lemma_all_removed(r: GcReportView, es: Seq<GcEntryView>)
    ensures
        all_removed(r, es) == Ok::<GcReportView, Seq<char>>(
            GcReportView {
                removed_count: r.removed_count + es.len(),
                removed_size: r.removed_size + total_size(es),
                ..r
            },
        ),
    decreases es.len(),
{
    if es.len() > 0 {
        lemma_all_removed(r, es.drop_last());
    }
}

impl GcPlan {
    /// The report before anything was removed: a dry run counts all entries of
    /// the plan as removed.
    pub fn start(&self, dry_run: bool) -> (r: GcReport)
        requires
            total_size(self.removals.deep_view()) <= u64::MAX,
        ensures
            r.deep_view() == started(
                self.total_before,
                self.count_before as nat,
                self.removals.deep_view(),
                dry_run,
            ),
    {
        let errors: Vec<(String, String)> = Vec::new();
        assert(errors.deep_view() =~= Seq::<(Seq<char>, Seq<char>)>::empty());
        let size = sum_sizes(&self.removals);
        GcReport {
            total_before: self.total_before,
            removed_count: if dry_run {
                self.removals.len()
            } else {
                0
            },
            removed_size: if dry_run {
                size
            } else {
                0
            },
            count_before: self.count_before,
            dry_run,
            errors,
        }
    }
}

impl GcReport {
    /// Notes what became of an entry.
    pub fn note(&mut self, entry: &GcEntry, outcome: Removal) -> (r: Result<()>)
        requires
            old(self).removed_count < usize::MAX,
            old(self).removed_size + entry.size <= u64::MAX,
        ensures
            match noted(old(self).deep_view(), entry.deep_view(), outcome.deep_view()) {
                Ok(v) => r is Ok && final(self).deep_view() == v,
                Err(e) => is_invalid(r, e) && final(self).deep_view() == old(self).deep_view(),
            },
    {
        match outcome {
            Removal::Vanished => Ok(()),
            Removal::Symlink => Err(
                AstToMermaidError::InvalidInput(
                    "refusing to remove symlink in cache: ".to_owned().concat(entry.path.as_str()),
                ),
            ),
            Removal::Removed => {
                self.removed_count += 1;
                self.removed_size += entry.size;
                Ok(())
            },
            Removal::Failed(m) => {
                let ghost had = self.errors.deep_view();
                let ghost mv = m@;
                self.errors.push((entry.path.clone(), m));
                assert(self.errors.deep_view() =~= had.push((entry.path@, mv)));
                Ok(())
            },
        }
    }
}

} // verus!
