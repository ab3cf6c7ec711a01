//! File-path guessing: finds the file that a string such as
//! `sample-docs/data/データ移行概要設計.html` names.
use super::name_search::{name_results, search as name_search};
use super::query::{parse_query, parsed, SearchMode, SearchQuery, QueryModel};
use super::{entry_views, result_views, strip_ext, stripped_ext, ResultModel, SearchResult};
use crate::index::{normalize, EntryModel, FileEntry};
use crate::unicode::normalized;
use crate::text::views;
use vstd::prelude::*;

verus! {

/// A unique top hit with at least this score may be opened at once.
pub const CONFIDENT_SCORE: i64 = 80;

/// Rule 4b: from some later segment on, the query is a suffix of the entry's
/// path (`78`), or that segment names the root and what follows it is a
/// suffix (`79`). The first `start` that matches decides.
pub open spec fn partial_rule(segs: Seq<Seq<char>>, es: Seq<Seq<char>>, root: Seq<char>, start: int) -> Option<(i64, Seq<char>)>
    decreases segs.len() - start,
{
    if start < 1 || start >= segs.len() {
        None
    } else {
        let rest = segs.skip(start);
        if rest.is_suffix_of(es) {
            Some((78, "suffix:partial"@))
        } else if rest.len() >= 2 && rest[0] == root && rest.skip(1).is_suffix_of(es) {
            Some((79, "suffix:partial+root"@))
        } else {
            partial_rule(segs, es, root, start + 1)
        }
    }
}

/// How an entry (normalized root name `root`, normalized path segments `es`,
/// normalized stem `stem`) matches the query segments `segs`: score and rule,
/// comparing with the last segment and its stem.
pub open spec fn path_rule(root: Seq<char>, es: Seq<Seq<char>>, stem: Seq<char>, segs: Seq<Seq<char>>) -> Option<(i64, Seq<char>)> {
    path_rule_with(root, es, stem, segs, segs.last(), stripped_ext(segs.last()))
}

/// The path rules with the last segment and its stem given apart (rules 5
/// to 7 compare with them): how an entry (normalized root name `root`,
/// normalized path segments `es`, normalized stem `stem`) matches `segs`.
pub open spec fn path_rule_with(
    root: Seq<char>,
    es: Seq<Seq<char>>,
    stem: Seq<char>,
    segs: Seq<Seq<char>>,
    last: Seq<char>,
    last_stem: Seq<char>,
) -> Option<(i64, Seq<char>)> {
    let n = segs.len();
    if n == es.len() + 1 && segs[0] == root && segs.skip(1) == es {
        Some((100, "exact:root+path"@))
    } else if segs == es {
        Some((90, "exact:path"@))
    } else if segs.is_suffix_of(es) {
        Some((80, "suffix:path"@))
    } else if n >= 2 && segs[0] == root && segs.skip(1).is_suffix_of(es) {
        Some((85, "suffix:root+path"@))
    } else if partial_rule(segs, es, root, 1) is Some {
        partial_rule(segs, es, root, 1)
    } else if n <= es.len() && es.subrange(es.len() - n, es.len() - 1) == segs.take(n - 1) && stem
        == last_stem && es.last() != last {
        Some((60, "suffix:ext-mismatch"@))
    } else if es.len() > 0 && es.last() == last {
        Some((50, "exact:filename"@))
    } else if stem == last_stem {
        Some((45, "exact:stem"@))
    } else {
        None
    }
}

/// The rule by which entry `e` matches the segments, with the last segment
/// and its stem given apart.
pub open spec fn entry_rule_with(e: EntryModel, segs: Seq<Seq<char>>, last: Seq<char>, last_stem: Seq<char>) -> Option<(i64, Seq<char>)> {
    path_rule_with(normalized(e.root), e.norm_segments, e.norm_stem, segs, last, last_stem)
}

/// The rule by which entry `e` matches the segments.
pub open spec fn entry_rule(e: EntryModel, segs: Seq<Seq<char>>) -> Option<(i64, Seq<char>)> {
    path_rule(normalized(e.root), e.norm_segments, e.norm_stem, segs)
}

/// The hits of the path rules over `es`, in entry order.
pub open spec fn path_hits(es: Seq<EntryModel>, segs: Seq<Seq<char>>) -> Seq<ResultModel>
    decreases es.len(),
{
    if es.len() == 0 {
        Seq::<ResultModel>::empty()
    } else {
        let prev = path_hits(es.drop_last(), segs);
        let e = es.last();
        match entry_rule(e, segs) {
            Some((score, reason)) => prev.push(
                ResultModel {
                    entry: e,
                    score,
                    reason,
                    highlights: if e.norm_stem == stripped_ext(segs.last()) {
                        seq![(0usize, e.stem.len() as usize)]
                    } else {
                        Seq::<(usize, usize)>::empty()
                    },
                },
            ),
            None => prev,
        }
    }
}

/// A name-search hit used as a fallback: score capped at 40, rule prefixed
/// with `fuzzy:`.
pub open spec fn fallback_hit(r: ResultModel) -> ResultModel {
    ResultModel {
        entry: r.entry,
        score: if r.score < 40 { r.score } else { 40 },
        reason: "fuzzy:"@ + r.reason,
        highlights: r.highlights,
    }
}

/// Each name-search hit as a fallback hit.
pub open spec fn fallback_all(rs: Seq<ResultModel>) -> Seq<ResultModel> {
    rs.map_values(|r: ResultModel| fallback_hit(r))
}

/// What `search(entries, q)` returns.
pub open spec fn path_results(es: Seq<EntryModel>, q: QueryModel) -> Seq<ResultModel> {
    if q.segments.len() == 0 {
        Seq::<ResultModel>::empty()
    } else {
        let direct = path_hits(es, q.segments);
        if direct.len() > 0 {
            direct
        } else {
            fallback_all(name_results(es, parsed(stripped_ext(q.segments.last()), SearchMode::Name)))
        }
    }
}

/// Whether `a[a0..a0 + n]` and `b[b0..b0 + n]` hold equal strings.
fn range_eq(a: &Vec<String>, a0: usize, b: &Vec<String>, b0: usize, n: usize) -> (r: bool)
    requires
        a0 + n <= a@.len(),
        b0 + n <= b@.len(),
    ensures
        r == (views(a@).subrange(a0 as int, a0 + n) == views(b@).subrange(b0 as int, b0 + n)),
{
    let mut k: usize = 0;
    while k < n
        invariant
            k <= n,
            a0 + n <= a.len(),
            b0 + n <= b.len(),
            views(a@).subrange(a0 as int, a0 + k) =~= views(b@).subrange(b0 as int, b0 + k),
        decreases n - k,
    {
        if a[a0 + k] != b[b0 + k] {
            assert(views(a@).subrange(a0 as int, a0 + n)[k as int] != views(b@).subrange(
                b0 as int,
                b0 + n,
            )[k as int]);
            return false;
        }
        assert(views(a@).subrange(a0 as int, a0 + k + 1) =~= views(a@).subrange(a0 as int, a0 + k).push(a@[a0 + k]@));
        assert(views(b@).subrange(b0 as int, b0 + k + 1) =~= views(b@).subrange(b0 as int, b0 + k).push(b@[b0 + k]@));
        k = k + 1;
    }
    true
}

/// Whether `segs[from..]` is a suffix of `es`.
fn tail_is_suffix(segs: &Vec<String>, from: usize, es: &Vec<String>) -> (r: bool)
    requires
        from <= segs@.len(),
    ensures
        r == views(segs@).skip(from as int).is_suffix_of(views(es@)),
{
    let m = segs.len() - from;
    if m > es.len() {
        return false;
    }
    let r = range_eq(es, es.len() - m, segs, from, m);
    assert(views(segs@).subrange(from as int, from + m) =~= views(segs@).skip(from as int));
    r
}

/// Rule 4b, scanning `start` upward.
fn partial_match(segs: &Vec<String>, es: &Vec<String>, root: &String) -> (r: Option<(i64, String)>)
    requires
        segs@.len() >= 1,
    ensures
        match r {
            Some((s, reason)) => partial_rule(views(segs@), views(es@), root@, 1) == Some(
                (s, reason@),
            ),
            None => partial_rule(views(segs@), views(es@), root@, 1) is None,
        },
{
    let ghost sv = views(segs@);
    let ghost ev = views(es@);
    let mut start: usize = 1;
    while start < segs.len()
        invariant
            1 <= start <= segs@.len(),
            sv == views(segs@),
            ev == views(es@),
            partial_rule(sv, ev, root@, 1) == partial_rule(sv, ev, root@, start as int),
        decreases segs@.len() - start,
    {
        if tail_is_suffix(segs, start, es) {
            return Some((78, "suffix:partial".to_owned()));
        }
        let m = segs.len() - start;
        if m >= 2 && segs[start] == *root && tail_is_suffix(segs, start + 1, es) {
            assert(sv.skip(start as int).skip(1) =~= sv.skip(start + 1));
            return Some((79, "suffix:partial+root".to_owned()));
        }
        proof {
            if m >= 2 && sv.skip(start as int)[0] == root@ {
                assert(sv.skip(start as int).skip(1) =~= sv.skip(start + 1));
            }
        }
        start = start + 1;
    }
    None
}

/// Scores one entry against the query segments.
fn score_entry(e: &FileEntry, segs: &Vec<String>, last: &String, last_stem: &String) -> (r: Option<
    (i64, String),
>)
    ensures
        match r {
            Some((s, reason)) => entry_rule_with(e@, views(segs@), last@, last_stem@) == Some(
                (s, reason@),
            ),
            None => entry_rule_with(e@, views(segs@), last@, last_stem@) is None,
        },
{
    let root_norm = normalize(e.root.as_str());
    let es = &e.norm_segments;
    let ghost sv = views(segs@);
    let ghost ev = views(es@);
    let n = segs.len();
    let el = es.len();
    // 1. root name + relative path
    if n > 0 && n - 1 == el && segs[0] == root_norm && range_eq(segs, 1, es, 0, el) {
        assert(sv.subrange(1, 1 + el as int) =~= sv.skip(1));
        assert(ev.subrange(0, el as int) =~= ev);
        return Some((100, "exact:root+path".to_owned()));
    }
    proof {
        if n == el + 1 && sv[0] == root_norm@ && sv.skip(1) == ev {
            assert(sv.subrange(1, 1 + el as int) =~= sv.skip(1));
            assert(ev.subrange(0, el as int) =~= ev);
        }
    }
    // 2. relative path
    if n == el && range_eq(segs, 0, es, 0, n) {
        assert(sv.subrange(0, n as int) =~= sv);
        assert(ev.subrange(0, n as int) =~= ev);
        return Some((90, "exact:path".to_owned()));
    }
    proof {
        if sv == ev {
            assert(sv.subrange(0, n as int) =~= sv);
        }
    }
    // 3. suffix on segment boundaries
    if tail_is_suffix(segs, 0, es) {
        assert(sv.skip(0) =~= sv);
        return Some((80, "suffix:path".to_owned()));
    }
    assert(sv.skip(0) =~= sv);
    // an empty query is a suffix of every path, so it never gets here
    assert(n >= 1) by {
        if n == 0 {
            assert(sv.is_suffix_of(ev)) by {
                assert(ev.subrange(ev.len() as int, ev.len() as int) =~= sv);
            }
        }
    }
    // 4. first segment names the root, the rest is a suffix
    if n >= 2 && segs[0] == root_norm && tail_is_suffix(segs, 1, es) {
        return Some((85, "suffix:root+path".to_owned()));
    }
    // 4b. extra leading directories
    match partial_match(segs, es, &root_norm) {
        Some(hit) => {
            return Some(hit);
        },
        None => {},
    }
    // 5. same directories and stem, different extension
    if n <= el {
        let dirs_match = range_eq(es, el - n, segs, 0, n - 1);
        assert(sv.subrange(0, n - 1) =~= sv.take(n - 1));
        if dirs_match && e.norm_stem == *last_stem && es[el - 1] != *last {
            return Some((60, "suffix:ext-mismatch".to_owned()));
        }
    }
    // 6. same file name, 7. same stem
    if el > 0 && es[el - 1] == *last {
        return Some((50, "exact:filename".to_owned()));
    }
    if e.norm_stem == *last_stem {
        return Some((45, "exact:stem".to_owned()));
    }
    None
}

/// The name-search hits for `stem`, as fallback hits.
fn fallback(entries: &[FileEntry], stem: &String) -> (out: Vec<SearchResult>)
    ensures
        result_views(out@) == fallback_all(
            name_results(entry_views(entries@), parsed(stem@, SearchMode::Name)),
        ),
{
    let fq = parse_query(stem.as_str(), SearchMode::Name);
    let found = name_search(entries, &fq);
    let ghost found_v = result_views(found@);
    let mut out: Vec<SearchResult> = Vec::new();
    let mut k: usize = 0;
    proof {
        reveal_strlit("fuzzy:");
    }
    while k < found.len()
        invariant
            k <= found@.len(),
            found_v == result_views(found@),
            result_views(out@) =~= fallback_all(found_v.take(k as int)),
        decreases found@.len() - k,
    {
        let r = &found[k];
        let score = if r.score < 40 { r.score } else { 40 };
        let mut reason = "fuzzy:".to_owned();
        reason.append(r.reason.as_str());
        let mut hl: Vec<(usize, usize)> = Vec::new();
        let mut j: usize = 0;
        while j < r.highlights.len()
            invariant
                j <= r.highlights@.len(),
                hl@ =~= r.highlights@.take(j as int),
            decreases r.highlights@.len() - j,
        {
            hl.push(r.highlights[j]);
            j = j + 1;
        }
        assert(r.highlights@.take(r.highlights@.len() as int) =~= r.highlights@);
        out.push(SearchResult { entry: r.entry.duplicate(), score, reason, highlights: hl });
        assert(found_v.take(k + 1) =~= found_v.take(k as int).push(found_v[k as int]));
        assert(fallback_all(found_v.take(k + 1)) =~= fallback_all(found_v.take(k as int)).push(
            fallback_hit(found_v[k as int]),
        ));
        k = k + 1;
    }
    assert(found_v.take(found_v.len() as int) =~= found_v);
    out
}

/// Path guessing over `entries`. When no entry matches a path rule, the last
/// segment (without extension) is looked up by name, with scores capped at 40.
#[verifier::rlimit(30)]
pub fn search(entries: &[FileEntry], q: &SearchQuery) -> (r: Vec<SearchResult>)
    ensures
        result_views(r@) == path_results(entry_views(entries@), q@),
{
    let segs = &q.segments;
    if segs.len() == 0 {
        return Vec::new();
    }
    let last = &segs[segs.len() - 1];
    let last_stem = strip_ext(last.as_str());
    let ghost es = entry_views(entries@);
    let mut out: Vec<SearchResult> = Vec::new();
    let mut i: usize = 0;
    while i < entries.len()
        invariant
            i <= entries@.len(),
            es == entry_views(entries@),
            segs@.len() >= 1,
            last@ == views(segs@).last(),
            last_stem@ == stripped_ext(last@),
            result_views(out@) =~= path_hits(es.subrange(0, i as int), views(segs@)),
        decreases entries@.len() - i,
    {
        assert(es.subrange(0, i + 1).drop_last() =~= es.subrange(0, i as int));
        let e = &entries[i];
        match score_entry(e, segs, last, &last_stem) {
            Some((score, reason)) => {
                let mut hl: Vec<(usize, usize)> = Vec::new();
                if e.norm_stem == last_stem {
                    hl.push((0, e.stem.as_str().unicode_len()));
                }
                out.push(SearchResult { entry: e.duplicate(), score, reason, highlights: hl });
            },
            None => {},
        }
        i = i + 1;
    }
    assert(es.subrange(0, es.len() as int) =~= es);
    if out.len() == 0 {
        out = fallback(entries, &last_stem);
    }
    out
}

} // verus!

verus! {

/// The scores that the path rules give.
pub open spec fn path_score(s: i64) -> bool {
    s == 100 || s == 90 || s == 85 || s == 80 || s == 79 || s == 78 || s == 60 || s == 50 || s == 45
}

proof fn lemma_partial_score(segs: Seq<Seq<char>>, es: Seq<Seq<char>>, root: Seq<char>, start: int)
    ensures
        partial_rule(segs, es, root, start) matches Some(r) ==> (r.0 == 78 || r.0 == 79),
    decreases segs.len() - start,
{
    if 1 <= start < segs.len() {
        lemma_partial_score(segs, es, root, start + 1);
    }
}

proof fn lemma_hit_scores(es: Seq<EntryModel>, segs: Seq<Seq<char>>)
    ensures
        forall|i: int| 0 <= i < path_hits(es, segs).len() ==> path_score(#[trigger] path_hits(es, segs)[i].score),
    decreases es.len(),
{
    if es.len() > 0 {
        lemma_hit_scores(es.drop_last(), segs);
        let e = es.last();
        lemma_partial_score(segs, e.norm_segments, normalized(e.root), 1);
    }
}

/// The score and rule pairs that the path rules give.
pub open spec fn known_rule(r: (i64, Seq<char>)) -> bool {
    ||| r == (100i64, "exact:root+path"@)
    ||| r == (90i64, "exact:path"@)
    ||| r == (85i64, "suffix:root+path"@)
    ||| r == (80i64, "suffix:path"@)
    ||| r == (79i64, "suffix:partial+root"@)
    ||| r == (78i64, "suffix:partial"@)
    ||| r == (60i64, "suffix:ext-mismatch"@)
    ||| r == (50i64, "exact:filename"@)
    ||| r == (45i64, "exact:stem"@)
}

proof fn lemma_partial_rule_known(segs: Seq<Seq<char>>, es: Seq<Seq<char>>, root: Seq<char>, start: int)
    ensures
        partial_rule(segs, es, root, start) matches Some(r) ==> known_rule(r),
    decreases segs.len() - start,
{
    if 1 <= start < segs.len() {
        lemma_partial_rule_known(segs, es, root, start + 1);
    }
}

/// Scoring an entry gives nothing or one of the nine rules, each with its
/// own score: for any entry, any segments and any last segment and stem
/// compared with. No segments match every entry: as the whole path when it
/// has no segments either, else as a suffix.
pub proof fn lemma_rule_is_known(e: EntryModel, segs: Seq<Seq<char>>, last: Seq<char>, last_stem: Seq<char>)
    ensures
        entry_rule_with(e, segs, last, last_stem) matches Some(r) ==> known_rule(r),
        segs.len() == 0 ==> entry_rule_with(e, segs, last, last_stem) == if e.norm_segments.len() == 0 {
            Some((90i64, "exact:path"@))
        } else {
            Some((80i64, "suffix:path"@))
        },
{
    if segs.len() == 0 {
        let es = e.norm_segments;
        assert(segs.is_suffix_of(es)) by {
            assert(es.subrange(es.len() as int, es.len() as int) =~= segs);
        }
        if es.len() == 0 {
            assert(segs =~= es);
        }
    }
    lemma_partial_rule_known(segs, e.norm_segments, normalized(e.root), 1);
}

/// Every path-guessing score is one of the rule scores (100, 90, 85, 80, 79,
/// 78, 60, 50, 45), or at most 40 for the name-search fallback.
pub proof fn lemma_path_scores(es: Seq<EntryModel>, q: QueryModel)
    ensures
        forall|i: int|
            0 <= i < path_results(es, q).len() ==> path_score(#[trigger] path_results(es, q)[i].score)
                || path_results(es, q)[i].score <= 40,
{
    if q.segments.len() > 0 {
        lemma_hit_scores(es, q.segments);
    }
}

} // verus!

verus! {

proof fn lemma_hits_include(es: Seq<EntryModel>, segs: Seq<Seq<char>>, k: int)
    requires
        0 <= k < es.len(),
        entry_rule(es[k], segs) matches Some(r) && r.0 == 100,
    ensures
        exists|i: int|
            0 <= i < path_hits(es, segs).len() && (#[trigger] path_hits(es, segs)[i]).entry == es[k]
                && path_hits(es, segs)[i].score == 100,
    decreases es.len(),
{
    if k == es.len() - 1 {
        let prev = path_hits(es.drop_last(), segs);
        assert(path_hits(es, segs)[prev.len() as int].entry == es[k]);
    } else {
        assert(es.drop_last()[k] == es[k]);
        lemma_hits_include(es.drop_last(), segs, k);
        let prev = path_hits(es.drop_last(), segs);
        let i = choose|i: int| 0 <= i < prev.len() && (#[trigger] prev[i]).entry == es[k] && prev[i].score == 100;
        assert(path_hits(es, segs)[i] == prev[i]);
    }
}

/// A reference `root/rel_path` (as normalized segments) to an indexed file
/// finds that file with the top score, 100.
pub proof fn lemma_reference_finds_entry(es: Seq<EntryModel>, q: QueryModel, k: int)
    requires
        0 <= k < es.len(),
        q.segments == seq![normalized(es[k].root)] + es[k].norm_segments,
    ensures
        exists|i: int|
            0 <= i < path_results(es, q).len() && (#[trigger] path_results(es, q)[i]).entry == es[k]
                && path_results(es, q)[i].score == 100,
{
    let e = es[k];
    let segs = q.segments;
    assert(segs[0] == normalized(e.root));
    assert(segs.skip(1) =~= e.norm_segments);
    assert(entry_rule(e, segs) matches Some(r) && r.0 == 100);
    lemma_hits_include(es, segs, k);
    let hits = path_hits(es, segs);
    let i = choose|i: int| 0 <= i < hits.len() && (#[trigger] hits[i]).entry == es[k] && hits[i].score == 100;
    assert(segs.len() > 0);
    assert(path_results(es, q) == hits);
    assert(path_results(es, q)[i].entry == es[k]);
}

/// The positions of the entries that some path rule matches, ascending.
pub open spec fn hit_indices(es: Seq<EntryModel>, segs: Seq<Seq<char>>) -> Seq<int>
    decreases es.len(),
{
    if es.len() == 0 {
        Seq::<int>::empty()
    } else {
        let prev = hit_indices(es.drop_last(), segs);
        if entry_rule(es.last(), segs) is Some {
            prev.push(es.len() - 1)
        } else {
            prev
        }
    }
}

/// The path hits are exactly the entries that a path rule matches, in entry
/// order, each with the score and rule of `entry_rule`.
pub proof fn lemma_path_hits_exact(es: Seq<EntryModel>, segs: Seq<Seq<char>>)
    ensures
        hit_indices(es, segs).len() == path_hits(es, segs).len(),
        forall|a: int, b: int|
            0 <= a < b < hit_indices(es, segs).len() ==> #[trigger] hit_indices(es, segs)[a]
                < #[trigger] hit_indices(es, segs)[b],
        forall|k: int|
            0 <= k < path_hits(es, segs).len() ==> {
                let i = hit_indices(es, segs)[k];
                let h = #[trigger] path_hits(es, segs)[k];
                &&& 0 <= i < es.len()
                &&& h.entry == es[i]
                &&& entry_rule(es[i], segs) == Some((h.score, h.reason))
            },
        forall|i: int|
            0 <= i < es.len() && (#[trigger] entry_rule(es[i], segs)) is Some ==> hit_indices(
                es,
                segs,
            ).contains(i),
    decreases es.len(),
{
    if es.len() > 0 {
        let d = es.drop_last();
        lemma_path_hits_exact(d, segs);
        let prev_i = hit_indices(d, segs);
        let prev_h = path_hits(d, segs);
        assert forall|k: int| 0 <= k < prev_i.len() implies 0 <= #[trigger] prev_i[k] < d.len() by {
            assert(prev_h[k] == path_hits(d, segs)[k]);
        }
        assert forall|k: int| 0 <= k < path_hits(es, segs).len() implies {
            let i = hit_indices(es, segs)[k];
            let h = #[trigger] path_hits(es, segs)[k];
            &&& 0 <= i < es.len()
            &&& h.entry == es[i]
            &&& entry_rule(es[i], segs) == Some((h.score, h.reason))
        } by {
            if k < prev_h.len() {
                assert(path_hits(es, segs)[k] == prev_h[k]);
                assert(hit_indices(es, segs)[k] == prev_i[k]);
                assert(es[prev_i[k]] == d[prev_i[k]]);
            }
        }
        assert forall|i: int|
            0 <= i < es.len() && (#[trigger] entry_rule(es[i], segs)) is Some implies hit_indices(
            es,
            segs,
        ).contains(i) by {
            if i < d.len() {
                assert(d[i] == es[i]);
                assert(entry_rule(d[i], segs) is Some);
                let k = choose|k: int| 0 <= k < prev_i.len() && prev_i[k] == i;
                assert(hit_indices(es, segs)[k] == i);
            } else {
                assert(hit_indices(es, segs)[prev_i.len() as int] == i);
            }
        }
    }
}

/// Path guessing, case by case: no segments give no hits; when some entry
/// matches a path rule, the hits are exactly those entries (see
/// `lemma_path_hits_exact`); otherwise the last segment without its
/// extension is searched by name, scores capped at 40 and rules prefixed
/// with `fuzzy:`.
pub proof fn lemma_path_search_cases(es: Seq<EntryModel>, q: QueryModel)
    ensures
        q.segments.len() == 0 ==> path_results(es, q).len() == 0,
        q.segments.len() > 0 && (exists|i: int|
            0 <= i < es.len() && (#[trigger] entry_rule(es[i], q.segments)) is Some) ==> path_results(
            es,
            q,
        ) == path_hits(es, q.segments) && path_results(es, q).len() > 0,
        q.segments.len() > 0 && !(exists|i: int|
            0 <= i < es.len() && (#[trigger] entry_rule(es[i], q.segments)) is Some) ==> path_results(
            es,
            q,
        ) == fallback_all(name_results(es, parsed(stripped_ext(q.segments.last()), SearchMode::Name))),
{
    lemma_path_hits_exact(es, q.segments);
    let idx = hit_indices(es, q.segments);
    if exists|i: int| 0 <= i < es.len() && (#[trigger] entry_rule(es[i], q.segments)) is Some {
        let i = choose|i: int| 0 <= i < es.len() && (#[trigger] entry_rule(es[i], q.segments)) is Some;
        assert(idx.contains(i));
    } else if path_hits(es, q.segments).len() > 0 {
        assert(path_hits(es, q.segments)[0].entry == es[idx[0]]);
        assert(entry_rule(es[idx[0]], q.segments) is Some);
    }
}

} // verus!
