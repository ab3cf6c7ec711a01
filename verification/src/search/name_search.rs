//! File-name search: finds stems (and paths) from a string such as
//! `データ移行概要設計`.
use super::query::{first_index, choose_first, QueryModel, SearchQuery};
use super::{entry_views, result_views, ResultModel, SearchResult};
use crate::index::{EntryModel, FileEntry};
use crate::text::{
    chars_of, chars_eq, contains, contains_sub, occurs_at, lemma_first_exists, find, first_occurrence, join_slash,
    join_with_slash, starts_with, views,
};
use fuzzy_matcher::skim::SkimMatcherV2;
use fuzzy_matcher::FuzzyMatcher;
use vstd::prelude::*;

verus! {

/// What `SkimMatcherV2::default().ignore_case().fuzzy_indices(choice, pattern)`
/// returns: the score and the matched char indices of `choice`, or `None`.
pub uninterp spec fn skim_fuzzy_indices(choice: Seq<char>, pattern: Seq<char>) -> Option<(i64, Seq<usize>)>;

/// Trusted: `fuzzy_matcher::skim::SkimMatcherV2::default().ignore_case()`
/// then `FuzzyMatcher::fuzzy_indices(choice, pattern)`. The result is named
/// `skim_fuzzy_indices` of the two strings' characters; the matched positions
/// that it returns are char indices of `choice` (the source builds them as
/// `j - 1` for matrix columns `1 <= j <= choice.chars().count()`).
#[verifier::external_body]
fn skim_match(choice: &str, pattern: &str) -> (r: Option<(i64, Vec<usize>)>)
    ensures
        r matches Some((s, v)) ==> skim_fuzzy_indices(choice@, pattern@) == Some((s, v@)),
        r is None ==> skim_fuzzy_indices(choice@, pattern@) is None,
        r matches Some((s, v)) ==> forall|k: int| 0 <= k < v@.len() ==> v@[k] < choice@.len(),
{
    SkimMatcherV2::default().ignore_case().fuzzy_indices(choice, pattern)
}

/// The tokens joined without a separator.
pub open spec fn concat_all(ts: Seq<Seq<char>>) -> Seq<char>
    decreases ts.len(),
{
    if ts.len() == 0 {
        Seq::<char>::empty()
    } else {
        concat_all(ts.drop_last()) + ts.last()
    }
}

/// Every token occurs in `h`.
pub open spec fn all_occur(h: Seq<char>, ts: Seq<Seq<char>>) -> bool {
    forall|i: int| 0 <= i < ts.len() ==> contains_sub(h, #[trigger] ts[i])
}

/// The highlight of each token at its first occurrence in `h`.
pub open spec fn token_highlights(h: Seq<char>, ts: Seq<Seq<char>>) -> Seq<(usize, usize)> {
    Seq::new(
        ts.len(),
        |i: int| (first_index(h, ts[i]) as usize, (first_index(h, ts[i]) + ts[i].len()) as usize),
    )
}

/// The fuzzy score of the skim matcher, scaled to `1..=40`:
/// `clamp(score / (pattern_len * 16) * 40, 1, 40)`, computed on integers.
pub open spec fn scaled_fuzzy(score: i64, pattern_len: nat) -> i64 {
    let v = (5 * score) / (2 * pattern_len as int);
    if v < 1 {
        1
    } else if v > 40 {
        40
    } else {
        v as i64
    }
}

/// One highlight per matched index.
pub open spec fn unit_highlights(idx: Seq<usize>) -> Seq<(usize, usize)> {
    idx.map_values(|i: usize| (i, (i + 1) as usize))
}

/// How an entry matches the name tokens: score, rule name and highlights.
pub open spec fn name_rule(e: EntryModel, ts: Seq<Seq<char>>) -> Option<
    (i64, Seq<char>, Seq<(usize, usize)>),
> {
    let stem = e.norm_stem;
    let full = join_slash(e.norm_segments);
    let joined = concat_all(ts);
    if stem == joined {
        Some((100, "exact"@, seq![(0usize, e.stem.len() as usize)]))
    } else if joined.is_prefix_of(stem) {
        Some((90, "prefix"@, seq![(0usize, joined.len() as usize)]))
    } else if contains_sub(stem, joined) {
        let p = first_index(stem, joined);
        Some(
            (
                (80 - if p < 20 { p } else { 20 }) as i64,
                "contains"@,
                seq![(p as usize, (p + joined.len()) as usize)],
            ),
        )
    } else if ts.len() > 1 && all_occur(stem, ts) {
        let extra = if stem.len() >= joined.len() { stem.len() - joined.len() } else { 0 };
        let d = if extra / 3 < 9 { extra / 3 } else { 9 };
        Some(((70 - d) as i64, "and:stem"@, token_highlights(stem, ts)))
    } else if ts.len() > 1 && all_occur(full, ts) {
        Some((60, "and:path"@, Seq::<(usize, usize)>::empty()))
    } else if contains_sub(full, joined) {
        Some((50, "contains:path"@, Seq::<(usize, usize)>::empty()))
    } else if joined.len() >= 2 {
        match skim_fuzzy_indices(stem, joined) {
            Some((s, idx)) => if s > 0 {
                Some((scaled_fuzzy(s, joined.len()), "fuzzy"@, unit_highlights(idx)))
            } else {
                None
            },
            None => None,
        }
    } else {
        None
    }
}

/// The result that an entry gives for a rule.
pub open spec fn hit(e: EntryModel, r: (i64, Seq<char>, Seq<(usize, usize)>)) -> ResultModel {
    ResultModel { entry: e, score: r.0, reason: r.1, highlights: r.2 }
}

/// The name-search results over `es`, in entry order.
pub open spec fn name_hits(es: Seq<EntryModel>, ts: Seq<Seq<char>>) -> Seq<ResultModel>
    decreases es.len(),
{
    if es.len() == 0 {
        Seq::<ResultModel>::empty()
    } else {
        let prev = name_hits(es.drop_last(), ts);
        match name_rule(es.last(), ts) {
            Some(r) => prev.push(hit(es.last(), r)),
            None => prev,
        }
    }
}

/// What `search(entries, q)` returns.
pub open spec fn name_results(es: Seq<EntryModel>, q: QueryModel) -> Seq<ResultModel> {
    if q.tokens.len() == 0 {
        Seq::<ResultModel>::empty()
    } else {
        name_hits(es, q.tokens)
    }
}

/// The tokens concatenated.
fn concat_tokens(ts: &Vec<String>) -> (r: Vec<char>)
    ensures
        r@ == concat_all(views(ts@)),
{
    let mut r: Vec<char> = Vec::new();
    let mut i: usize = 0;
    while i < ts.len()
        invariant
            i <= ts@.len(),
            r@ == concat_all(views(ts@.subrange(0, i as int))),
        decreases ts@.len() - i,
    {
        assert(views(ts@.subrange(0, i + 1)).drop_last() =~= views(ts@.subrange(0, i as int)));
        let c = chars_of(ts[i].as_str());
        let mut k: usize = 0;
        let ghost r0 = r@;
        while k < c.len()
            invariant
                k <= c@.len(),
                r@ == r0 + c@.subrange(0, k as int),
            decreases c@.len() - k,
        {
            r.push(c[k]);
            k = k + 1;
        }
        assert(c@.subrange(0, c@.len() as int) =~= c@);
        i = i + 1;
    }
    assert(ts@.subrange(0, ts@.len() as int) =~= ts@);
    r
}

/// Whether every token occurs in `h`.
fn all_tokens_occur(h: &[char], ts: &Vec<Vec<char>>) -> (r: bool)
    ensures
        r == all_occur(h@, ts@.map_values(|t: Vec<char>| t@)),
{
    let ghost tv = ts@.map_values(|t: Vec<char>| t@);
    let mut i: usize = 0;
    while i < ts.len()
        invariant
            i <= ts@.len(),
            tv == ts@.map_values(|t: Vec<char>| t@),
            forall|j: int| 0 <= j < i ==> contains_sub(h@, #[trigger] tv[j]),
        decreases ts@.len() - i,
    {
        if !contains(h, ts[i].as_slice()) {
            assert(!contains_sub(h@, tv[i as int]));
            return false;
        }
        i = i + 1;
    }
    true
}

/// The characters of each token.
fn token_chars(ts: &Vec<String>) -> (r: Vec<Vec<char>>)
    ensures
        r@.map_values(|t: Vec<char>| t@) == views(ts@),
{
    let mut r: Vec<Vec<char>> = Vec::new();
    let mut i: usize = 0;
    while i < ts.len()
        invariant
            i <= ts@.len(),
            r@.map_values(|t: Vec<char>| t@) =~= views(ts@.subrange(0, i as int)),
        decreases ts@.len() - i,
    {
        r.push(chars_of(ts[i].as_str()));
        assert(views(ts@.subrange(0, i + 1)) =~= views(ts@.subrange(0, i as int)).push(ts@[i as int]@));
        i = i + 1;
    }
    assert(ts@.subrange(0, ts@.len() as int) =~= ts@);
    r
}

/// The rule by which `e` matches, if any.
fn match_entry(e: &FileEntry, tokens: &Vec<String>, tok: &Vec<Vec<char>>, joined: &Vec<char>) -> (r:
    Option<(i64, String, Vec<(usize, usize)>)>)
    requires
        tok@.map_values(|t: Vec<char>| t@) == views(tokens@),
        joined@ == concat_all(views(tokens@)),
    ensures
        match r {
            Some((s, reason, hl)) => name_rule(e@, views(tokens@)) == Some((s, reason@, hl@)),
            None => name_rule(e@, views(tokens@)) is None,
        },
{
    proof {
        reveal_strlit("/");
    }
    let ghost ts = views(tokens@);
    let stem = chars_of(e.norm_stem.as_str());
    let full_s = join_with_slash(&e.norm_segments);
    let full = chars_of(full_s.as_str());
    let jl = joined.len();
    let stem_len = stem.len();
    if chars_eq(stem.as_slice(), joined.as_slice()) {
        let n = e.stem.as_str().unicode_len();
        let mut hl: Vec<(usize, usize)> = Vec::new();
        hl.push((0, n));
        return Some((100, "exact".to_owned(), hl));
    }
    if starts_with(stem.as_slice(), joined.as_slice()) {
        let mut hl: Vec<(usize, usize)> = Vec::new();
        hl.push((0, jl));
        return Some((90, "prefix".to_owned(), hl));
    }
    match find(stem.as_slice(), joined.as_slice()) {
        Some(p) => {
            proof {
                choose_first(stem@, joined@, p as int);
            }
            let mut hl: Vec<(usize, usize)> = Vec::new();
            assert(occurs_at(stem@, joined@, p as int));
            hl.push((p, p + jl));
            let d: usize = if p < 20 { p } else { 20 };
            return Some((80 - (d as i64), "contains".to_owned(), hl));
        },
        None => {},
    }
    if tokens.len() > 1 && all_tokens_occur(stem.as_slice(), tok) {
        let mut hl: Vec<(usize, usize)> = Vec::new();
        let mut i: usize = 0;
        while i < tok.len()
            invariant
                i <= tok@.len(),
                ts == views(tokens@),
                tok@.map_values(|t: Vec<char>| t@) == ts,
                all_occur(stem@, ts),
                stem@.len() == stem.len(),
                hl@ =~= token_highlights(stem@, ts).subrange(0, i as int),
            decreases tok@.len() - i,
        {
            assert(ts[i as int] == tok@[i as int]@);
            assert(contains_sub(stem@, ts[i as int]));
            match find(stem.as_slice(), tok[i].as_slice()) {
                Some(p) => {
                    proof {
                        choose_first(stem@, tok@[i as int]@, p as int);
                    }
                    assert(occurs_at(stem@, tok@[i as int]@, p as int));
                    hl.push((p, p + tok[i].len()));
                },
                None => {},
            }
            i = i + 1;
        }
        let sl = stem_len;
        let extra: usize = if sl >= jl { sl - jl } else { 0 };
        let d: usize = if extra / 3 < 9 { extra / 3 } else { 9 };
        return Some((70 - (d as i64), "and:stem".to_owned(), hl));
    }
    if tokens.len() > 1 && all_tokens_occur(full.as_slice(), tok) {
        return Some((60, "and:path".to_owned(), Vec::new()));
    }
    if contains(full.as_slice(), joined.as_slice()) {
        return Some((50, "contains:path".to_owned(), Vec::new()));
    }
    if jl >= 2 {
        let js = crate::text::string_of(joined.as_slice());
        match skim_match(e.norm_stem.as_str(), js.as_str()) {
            Some((s, idx)) => {
                if s > 0 {
                    let norm = scale(s, jl);
                    let mut hl: Vec<(usize, usize)> = Vec::new();
                    let mut i: usize = 0;
                    while i < idx.len()
                        invariant
                            i <= idx@.len(),
                            forall|k: int| 0 <= k < idx@.len() ==> idx@[k] < e.norm_stem@.len(),
                            stem@ == e.norm_stem@,
                            stem@.len() == stem.len(),
                            hl@ =~= unit_highlights(idx@.subrange(0, i as int)),
                        decreases idx@.len() - i,
                    {
                        let x = idx[i];
                        assert(x < e.norm_stem@.len());
                        hl.push((x, x + 1));
                        i = i + 1;
                    }
                    assert(idx@.subrange(0, idx@.len() as int) =~= idx@);
                    return Some((norm, "fuzzy".to_owned(), hl));
                }
                None
            },
            None => None,
        }
    } else {
        None
    }
}

/// `scaled_fuzzy` on machine integers.
fn scale(s: i64, n: usize) -> (r: i64)
    requires
        s > 0,
        n >= 2,
    ensures
        r == scaled_fuzzy(s, n as nat),
{
    let num: i128 = 5 * (s as i128);
    let den: i128 = 2 * (n as i128);
    let v: i128 = num / den;
    if v < 1 {
        1
    } else if v > 40 {
        40
    } else {
        v as i64
    }
}

/// Name search over `entries`: exact stem, prefix, substring, all tokens in
/// the stem, all tokens in the path, substring of the path, then fuzzy.
pub fn search(entries: &[FileEntry], q: &SearchQuery) -> (r: Vec<SearchResult>)
    ensures
        result_views(r@) == name_results(entry_views(entries@), q@),
{
    if q.tokens.len() == 0 {
        return Vec::new();
    }
    let tok = token_chars(&q.tokens);
    let joined = concat_tokens(&q.tokens);
    let ghost es = entry_views(entries@);
    let mut out: Vec<SearchResult> = Vec::new();
    let mut i: usize = 0;
    while i < entries.len()
        invariant
            i <= entries@.len(),
            es == entry_views(entries@),
            q@.tokens.len() > 0,
            tok@.map_values(|t: Vec<char>| t@) == views(q.tokens@),
            joined@ == concat_all(views(q.tokens@)),
            result_views(out@) =~= name_hits(es.subrange(0, i as int), q@.tokens),
        decreases entries@.len() - i,
    {
        assert(es.subrange(0, i + 1).drop_last() =~= es.subrange(0, i as int));
        let e = &entries[i];
        match match_entry(e, &q.tokens, &tok, &joined) {
            Some((score, reason, highlights)) => {
                out.push(SearchResult { entry: e.duplicate(), score, reason, highlights });
            },
            None => {},
        }
        i = i + 1;
    }
    assert(es.subrange(0, es.len() as int) =~= es);
    out
}

} // verus!

verus! {

proof fn lemma_rule_score(e: EntryModel, ts: Seq<Seq<char>>)
    ensures
        name_rule(e, ts) matches Some(r) ==> 1 <= r.0 <= 100,
{
    let stem = e.norm_stem;
    let joined = concat_all(ts);
    if contains_sub(stem, joined) {
        let i = choose|i: int| occurs_at(stem, joined, i);
        lemma_first_exists(stem, joined, i);
    }
}

proof fn lemma_hits_scores(es: Seq<EntryModel>, ts: Seq<Seq<char>>)
    ensures
        forall|i: int| 0 <= i < name_hits(es, ts).len() ==> 1 <= #[trigger] name_hits(es, ts)[i].score <= 100,
    decreases es.len(),
{
    if es.len() > 0 {
        lemma_hits_scores(es.drop_last(), ts);
        lemma_rule_score(es.last(), ts);
    }
}

/// Every name-search score lies in `1..=100` (exact 100, prefix 90,
/// substring 60..=80, all tokens in the stem 61..=70, in the path 60,
/// path substring 50, fuzzy 1..=40).
pub proof fn lemma_name_scores(es: Seq<EntryModel>, q: QueryModel)
    ensures
        forall|i: int|
            0 <= i < name_results(es, q).len() ==> 1 <= #[trigger] name_results(es, q)[i].score <= 100,
{
    lemma_hits_scores(es, q.tokens);
}

proof fn lemma_first_index_occurs(h: Seq<char>, n: Seq<char>)
    requires
        contains_sub(h, n),
    ensures
        occurs_at(h, n, first_index(h, n)),
{
    let i = choose|i: int| occurs_at(h, n, i);
    lemma_first_exists(h, n, i);
    let j = choose|j: int| 0 <= j <= i && first_occurrence(h, n, j);
    choose_first(h, n, j);
}

/// What a name hit highlights, in the normalized stem: an exact hit the whole
/// stem; a prefix hit exactly the first `n` characters, `n` being the length
/// of the tokens joined, which are those characters; a substring hit one
/// range whose characters are the joined tokens; a hit on all tokens one
/// range per token, whose characters are that token.
pub proof fn lemma_name_highlights(e: EntryModel, ts: Seq<Seq<char>>)
    requires
        e.norm_stem.len() <= usize::MAX,
        e.stem.len() <= usize::MAX,
    ensures
        name_rule(e, ts) matches Some((s, reason, hl)) ==> (reason == "exact"@ ==> e.norm_stem
            == concat_all(ts) && hl == seq![(0usize, e.stem.len() as usize)]),
        name_rule(e, ts) matches Some((s, reason, hl)) ==> (reason == "prefix"@ ==> hl.len() == 1
            && hl[0].0 == 0 && hl[0].1 == concat_all(ts).len() && e.norm_stem.subrange(0, hl[0].1 as int)
            == concat_all(ts)),
        name_rule(e, ts) matches Some((s, reason, hl)) ==> (reason == "contains"@ ==> hl.len() == 1
            && hl[0].0 <= hl[0].1 <= e.norm_stem.len() && e.norm_stem.subrange(hl[0].0 as int, hl[0].1 as int)
            == concat_all(ts)),
        name_rule(e, ts) matches Some((s, reason, hl)) ==> (reason == "and:stem"@ ==> hl.len() == ts.len()
            && forall|k: int|
            #![trigger hl[k]]
            0 <= k < ts.len() ==> hl[k].0 <= hl[k].1 && hl[k].1 <= e.norm_stem.len()
                && e.norm_stem.subrange(hl[k].0 as int, hl[k].1 as int) =~= ts[k]),
{
    reveal_strlit("exact");
    reveal_strlit("prefix");
    reveal_strlit("contains");
    reveal_strlit("and:stem");
    reveal_strlit("and:path");
    reveal_strlit("contains:path");
    reveal_strlit("fuzzy");
    let stem = e.norm_stem;
    let joined = concat_all(ts);
    assert("exact"@.len() == 5 && "prefix"@.len() == 6 && "contains"@.len() == 8);
    assert("and:stem"@.len() == 8 && "and:path"@.len() == 8 && "contains:path"@.len() == 13);
    assert("fuzzy"@.len() == 5);
    assert("contains"@[0] != "and:stem"@[0] && "contains"@[0] != "and:path"@[0]);
    assert("and:path"@[4] != "and:stem"@[4] && "fuzzy"@[0] != "exact"@[0]);
    assert("exact"@ != "prefix"@ && "exact"@ != "contains"@ && "exact"@ != "and:stem"@);
    assert("prefix"@ != "contains"@ && "prefix"@ != "and:stem"@ && "contains"@ != "and:stem"@);
    assert("and:path"@ != "exact"@ && "and:path"@ != "prefix"@ && "and:path"@ != "contains"@
        && "and:path"@ != "and:stem"@);
    assert("contains:path"@ != "exact"@ && "contains:path"@ != "prefix"@ && "contains:path"@
        != "contains"@ && "contains:path"@ != "and:stem"@);
    assert("fuzzy"@ != "exact"@ && "fuzzy"@ != "prefix"@ && "fuzzy"@ != "contains"@ && "fuzzy"@
        != "and:stem"@);
    if stem == joined {
    } else if joined.is_prefix_of(stem) {
        assert(stem.subrange(0, joined.len() as int) =~= joined);
    } else if contains_sub(stem, joined) {
        lemma_first_index_occurs(stem, joined);
        let p = first_index(stem, joined);
        let hl = seq![(p as usize, (p + joined.len()) as usize)];
        assert(hl[0].0 == p && hl[0].1 == p + joined.len());
        assert(stem.subrange(hl[0].0 as int, hl[0].1 as int) =~= joined);
    } else if ts.len() > 1 && all_occur(stem, ts) {
        let hl = token_highlights(stem, ts);
        assert forall|k: int| #![trigger hl[k]] 0 <= k < ts.len() implies hl[k].0 <= hl[k].1 && hl[k].1
            <= stem.len() && stem.subrange(hl[k].0 as int, hl[k].1 as int) =~= ts[k] by {
            assert(contains_sub(stem, ts[k]));
            lemma_first_index_occurs(stem, ts[k]);
            let f = first_index(stem, ts[k]);
            assert(hl[k] == (f as usize, (f + ts[k].len()) as usize));
            assert(hl[k].0 == f && hl[k].1 == f + ts[k].len());
            assert(stem.subrange(hl[k].0 as int, hl[k].1 as int) =~= ts[k]);
        }
    }
}

} // verus!
