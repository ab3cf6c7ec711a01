//! Search over index entries: query parsing, path guessing and name search.
pub mod name_search;
pub mod path_guess;
pub mod query;

use crate::index::{full_key_of, last_index_of, EntryModel, FileEntry};
use crate::sort::{key_order, seq_order, as_ints, is_perm, key_views, stable_order, stable_sort_order, KeyModel, SortKey};
use crate::text::{chars_of, rfind_char, slice_chars, string_of};
use name_search::name_results;
use path_guess::{path_results, CONFIDENT_SCORE};
use query::{parsed, QueryModel};
use vstd::prelude::*;

pub use query::{parse_query, SearchMode, SearchQuery};

verus! {

/// One hit of a search.
#[derive(Debug)]
pub struct SearchResult {
    pub entry: FileEntry,
    pub score: i64,
    /// Which rule matched (for display and debugging).
    pub reason: String,
    /// Highlighted ranges in the stem (char indices, `[start, end)`).
    pub highlights: Vec<(usize, usize)>,
}

/// The mathematical value of a `SearchResult`.
pub struct ResultModel {
    pub entry: EntryModel,
    pub score: i64,
    pub reason: Seq<char>,
    pub highlights: Seq<(usize, usize)>,
}

impl View for SearchResult {
    type V = ResultModel;

    open spec fn view(&self) -> ResultModel {
        ResultModel {
            entry: self.entry@,
            score: self.score,
            reason: self.reason@,
            highlights: self.highlights@,
        }
    }
}

impl SearchResult {
    /// A copy with the same value.
    pub fn duplicate(&self) -> (r: SearchResult)
        ensures
            r@ == self@,
    {
        let mut hl: Vec<(usize, usize)> = Vec::new();
        let mut j: usize = 0;
        while j < self.highlights.len()
            invariant
                j <= self.highlights@.len(),
                hl@ =~= self.highlights@.take(j as int),
            decreases self.highlights@.len() - j,
        {
            hl.push(self.highlights[j]);
            j = j + 1;
        }
        assert(self.highlights@.take(self.highlights@.len() as int) =~= self.highlights@);
        SearchResult {
            entry: self.entry.duplicate(),
            score: self.score,
            reason: self.reason.clone(),
            highlights: hl,
        }
    }
}

/// The answer to a search.
#[derive(Debug)]
pub struct SearchResponse {
    pub query: String,
    pub mode: SearchMode,
    /// The number of hits before truncation.
    pub total: usize,
    pub results: Vec<SearchResult>,
    /// A single confident hit (`root/rel_path`) that a client may open at once.
    pub best: Option<String>,
}

/// The views of a sequence of results.
pub open spec fn result_views(v: Seq<SearchResult>) -> Seq<ResultModel> {
    v.map_values(|r: SearchResult| r@)
}

/// The views of a sequence of entries.
pub open spec fn entry_views(v: Seq<FileEntry>) -> Seq<EntryModel> {
    v.map_values(|e: FileEntry| e@)
}

/// The number of bytes that UTF-8 takes for `c`.
pub open spec fn utf8_width(c: char) -> nat {
    if (c as u32) < 0x80 {
        1
    } else if (c as u32) < 0x800 {
        2
    } else if (c as u32) < 0x10000 {
        3
    } else {
        4
    }
}

/// The number of bytes of the UTF-8 encoding of `s` (what `str::len` gives).
pub open spec fn utf8_len(s: Seq<char>) -> nat
    decreases s.len(),
{
    if s.len() == 0 {
        0
    } else {
        utf8_len(s.drop_last()) + utf8_width(s.last())
    }
}

proof fn lemma_utf8_len_take_mono(s: Seq<char>, i: int, j: int)
    requires
        0 <= i <= j <= s.len(),
    ensures
        utf8_len(s.take(i)) <= utf8_len(s.take(j)),
    decreases j - i,
{
    if i < j {
        lemma_utf8_len_take_mono(s, i, j - 1);
        assert(s.take(j).drop_last() =~= s.take(j - 1));
    }
}

/// A name without its extension: the part before the last `.`, when that
/// `.` is not the first character and the extension (with its `.`) takes at
/// most 10 bytes. Otherwise the whole name.
pub open spec fn stripped_ext(name: Seq<char>) -> Seq<char> {
    if name.contains('.') {
        let i = last_index_of(name, '.');
        if i > 0 && utf8_len(name.skip(i)) <= 10 {
            name.take(i)
        } else {
            name
        }
    } else {
        name
    }
}

fn width_of(c: char) -> (w: usize)
    ensures
        w == utf8_width(c),
{
    if (c as u32) < 0x80 {
        1
    } else if (c as u32) < 0x800 {
        2
    } else if (c as u32) < 0x10000 {
        3
    } else {
        4
    }
}

/// The name without its extension (see `stripped_ext`).
pub fn strip_ext(name: &str) -> (r: String)
    ensures
        r@ == stripped_ext(name@),
{
    let v = chars_of(name);
    match rfind_char(v.as_slice(), '.') {
        Some(i) => {
            proof {
                crate::index::lemma_last_index(v@, '.', i as int);
            }
            if i == 0 {
                return name.to_owned();
            }
            let suffix = slice_chars(v.as_slice(), i, v.len());
            let mut total: usize = 0;
            let mut k: usize = 0;
            while k < suffix.len() && total <= 10
                invariant
                    k <= suffix@.len(),
                    total == utf8_len(suffix@.take(k as int)),
                decreases suffix@.len() - k,
            {
                assert(suffix@.take(k + 1).drop_last() =~= suffix@.take(k as int));
                total = total + width_of(suffix[k]);
                k = k + 1;
            }
            proof {
                lemma_utf8_len_take_mono(suffix@, k as int, suffix@.len() as int);
                assert(suffix@.take(suffix@.len() as int) =~= suffix@);
                assert(suffix@ =~= name@.skip(i as int));
            }
            if total <= 10 {
                assert(k == suffix@.len());
                string_of(slice_chars(v.as_slice(), 0, i).as_slice())
            } else {
                name.to_owned()
            }
        },
        None => name.to_owned(),
    }
}

/// The order of results: higher score first, then newer modification
/// time, then relative path ascending.
pub open spec fn rank_key(r: ResultModel) -> KeyModel {
    KeyModel {
        k1: -(r.score as int),
        k2: -(r.entry.modified as int),
        t1: r.entry.rel_path,
        t2: Seq::<char>::empty(),
    }
}

/// The hits of a search before ordering, and the mode that produced them:
/// path guessing or name search as the query resolves; when path guessing
/// finds nothing, a name search for the last segment without extension.
pub open spec fn found_hits(es: Seq<EntryModel>, raw: Seq<char>, mode: SearchMode) -> (
    Seq<ResultModel>,
    SearchMode,
) {
    let q = parsed(raw, mode);
    let hits = if q.mode == SearchMode::Path {
        path_results(es, q)
    } else {
        name_results(es, q)
    };
    if hits.len() == 0 && q.mode == SearchMode::Path {
        let last = if q.segments.len() > 0 {
            q.segments.last()
        } else {
            Seq::<char>::empty()
        };
        (name_results(es, parsed(stripped_ext(last), SearchMode::Name)), SearchMode::Name)
    } else {
        (hits, q.mode)
    }
}

/// The single confident hit: in path mode, a first hit scoring at least
/// `CONFIDENT_SCORE` that scores strictly more than the second.
pub open spec fn best_of(rs: Seq<ResultModel>, mode: SearchMode) -> Option<Seq<char>> {
    if mode == SearchMode::Path && rs.len() > 0 && rs[0].score >= CONFIDENT_SCORE && (rs.len() < 2
        || rs[1].score < rs[0].score) {
        Some(full_key_of(rs[0].entry))
    } else {
        None
    }
}

/// `rs` is the first `rs.len()` of `found` in stable rank order.
pub open spec fn ranked_prefix(rs: Seq<ResultModel>, found: Seq<ResultModel>) -> bool {
    exists|p: Seq<int>|
        #![trigger is_perm(p, found.len() as int)]
        is_perm(p, found.len() as int) && stable_order(
            p,
            found.map_values(|r: ResultModel| rank_key(r)),
        ) && rs.len() <= found.len() && forall|k: int| 0 <= k < rs.len() ==> rs[k] == found[#[trigger] p[k]]
}

/// A query in `Auto` mode resolves to path or name mode; an explicit mode
/// is kept.
pub proof fn lemma_parsed_mode(raw: Seq<char>, mode: SearchMode)
    ensures
        parsed(raw, mode).mode != SearchMode::Auto,
        mode != SearchMode::Auto ==> parsed(raw, mode).mode == mode,
{
}

/// Searches `entries`. In `Auto` mode the query's shape decides between
/// path guessing and name search; when path guessing finds nothing, the
/// last segment is searched by name. Hits are ordered by score (descending),
/// modification time (newest first) and relative path, and cut to `limit`.
pub fn search(entries: &[FileEntry], raw: &str, mode: SearchMode, limit: usize) -> (r: SearchResponse)
    ensures
        r.query@ == raw@,
        r.mode == found_hits(entry_views(entries@), raw@, mode).1,
        r.total == found_hits(entry_views(entries@), raw@, mode).0.len(),
        r.results@.len() == if limit < r.total { limit as int } else { r.total as int },
        ranked_prefix(result_views(r.results@), found_hits(entry_views(entries@), raw@, mode).0),
        match r.best {
            Some(b) => best_of(result_views(r.results@), r.mode) == Some(b@),
            None => best_of(result_views(r.results@), r.mode) is None,
        },
{
    let q = parse_query(raw, mode);
    proof {
        lemma_parsed_mode(raw@, mode);
    }
    let mut results = if q.mode == SearchMode::Path {
        path_guess::search(entries, &q)
    } else {
        name_search::search(entries, &q)
    };
    let mut mode_used = q.mode;
    if results.len() == 0 && q.mode == SearchMode::Path {
        let last = if q.segments.len() > 0 {
            q.segments[q.segments.len() - 1].clone()
        } else {
            String::new()
        };
        let stem = strip_ext(last.as_str());
        let fq = parse_query(stem.as_str(), SearchMode::Name);
        results = name_search::search(entries, &fq);
        mode_used = SearchMode::Name;
    }
    let ghost found = result_views(results@);
    let total = results.len();
    let order = rank_order(&results);
    let n = if limit < total { limit } else { total };
    let mut out: Vec<SearchResult> = Vec::new();
    let mut k: usize = 0;
    while k < n
        invariant
            k <= n <= total,
            total == results@.len(),
            found == result_views(results@),
            is_perm(as_ints(order@), total as int),
            forall|m: int| 0 <= m < k ==> (#[trigger] out@[m])@ == found[as_ints(order@)[m]],
            out@.len() == k,
        decreases n - k,
    {
        let idx = order[k];
        assert(as_ints(order@)[k as int] == idx as int);
        out.push(results[idx].duplicate());
        k = k + 1;
    }
    assert(ranked_prefix(result_views(out@), found)) by {
        assert(is_perm(as_ints(order@), found.len() as int));
        assert forall|m: int| 0 <= m < out@.len() implies result_views(out@)[m] == found[#[trigger] as_ints(order@)[m]] by {
            assert(out@[m]@ == found[as_ints(order@)[m]]);
        }
    }
    let best = if mode_used == SearchMode::Path && out.len() > 0 && out[0].score >= CONFIDENT_SCORE && (
    out.len() < 2 || out[1].score < out[0].score) {
        Some(out[0].entry.full_key())
    } else {
        None
    };
    SearchResponse { query: raw.to_owned(), mode: mode_used, total, results: out, best }
}

/// The results of a search come in rank order: scores never increase,
/// among equal scores modification times never increase, and among equal
/// scores and times relative paths ascend.
pub proof fn lemma_results_ranked(rs: Seq<ResultModel>, found: Seq<ResultModel>)
    requires
        ranked_prefix(rs, found),
    ensures
        forall|a: int, b: int|
            0 <= a < b < rs.len() ==> {
                &&& #[trigger] rs[a].score >= #[trigger] rs[b].score
                &&& rs[a].score == rs[b].score ==> rs[a].entry.modified >= rs[b].entry.modified
                &&& rs[a].score == rs[b].score && rs[a].entry.modified == rs[b].entry.modified
                    ==> seq_order(rs[a].entry.rel_path, rs[b].entry.rel_path) <= 0
            },
{
    let p = choose|p: Seq<int>|
        #![trigger is_perm(p, found.len() as int)]
        is_perm(p, found.len() as int) && stable_order(
            p,
            found.map_values(|r: ResultModel| rank_key(r)),
        ) && rs.len() <= found.len() && forall|k: int| 0 <= k < rs.len() ==> rs[k] == found[#[trigger] p[k]];
    let keys = found.map_values(|r: ResultModel| rank_key(r));
    assert forall|a: int, b: int| 0 <= a < b < rs.len() implies {
        &&& #[trigger] rs[a].score >= #[trigger] rs[b].score
        &&& rs[a].score == rs[b].score ==> rs[a].entry.modified >= rs[b].entry.modified
        &&& rs[a].score == rs[b].score && rs[a].entry.modified == rs[b].entry.modified
            ==> seq_order(rs[a].entry.rel_path, rs[b].entry.rel_path) <= 0
    } by {
        assert(rs[a] == found[p[a]]);
        assert(rs[b] == found[p[b]]);
        assert(key_order(keys[p[a]], keys[p[b]]) <= 0);
        assert(keys[p[a]] == rank_key(found[p[a]]));
        assert(keys[p[b]] == rank_key(found[p[b]]));
    }
}

/// A search with a smaller limit gives a prefix of what a larger limit
/// gives: any two rank-ordered prefixes of the same hits agree on their
/// common length. (With `usize::MAX` as the limit, every hit is returned.)
pub proof fn lemma_ranked_prefix_take(rs1: Seq<ResultModel>, rs2: Seq<ResultModel>, found: Seq<ResultModel>)
    requires
        ranked_prefix(rs1, found),
        ranked_prefix(rs2, found),
        rs1.len() <= rs2.len(),
    ensures
        rs1 == rs2.take(rs1.len() as int),
{
    let keys = found.map_values(|r: ResultModel| rank_key(r));
    let p = choose|p: Seq<int>|
        #![trigger is_perm(p, found.len() as int)]
        is_perm(p, found.len() as int) && stable_order(p, keys) && rs1.len() <= found.len() && forall|k: int|
            0 <= k < rs1.len() ==> rs1[k] == found[#[trigger] p[k]];
    let q = choose|q: Seq<int>|
        #![trigger is_perm(q, found.len() as int)]
        is_perm(q, found.len() as int) && stable_order(q, keys) && rs2.len() <= found.len() && forall|k: int|
            0 <= k < rs2.len() ==> rs2[k] == found[#[trigger] q[k]];
    crate::sort::lemma_stable_order_unique(p, q, keys);
    assert forall|k: int| 0 <= k < rs1.len() implies rs1[k] == rs2.take(rs1.len() as int)[k] by {
        assert(rs1[k] == found[p[k]]);
        assert(rs2[k] == found[q[k]]);
    }
    assert(rs1 =~= rs2.take(rs1.len() as int));
}

/// The ranked results are determined: two result sequences of the same
/// length that are both rank-ordered prefixes of the same hits are equal.
pub proof fn lemma_ranked_unique(rs1: Seq<ResultModel>, rs2: Seq<ResultModel>, found: Seq<ResultModel>)
    requires
        ranked_prefix(rs1, found),
        ranked_prefix(rs2, found),
        rs1.len() == rs2.len(),
    ensures
        rs1 == rs2,
{
    let keys = found.map_values(|r: ResultModel| rank_key(r));
    let p = choose|p: Seq<int>|
        #![trigger is_perm(p, found.len() as int)]
        is_perm(p, found.len() as int) && stable_order(p, keys) && rs1.len() <= found.len() && forall|k: int|
            0 <= k < rs1.len() ==> rs1[k] == found[#[trigger] p[k]];
    let q = choose|q: Seq<int>|
        #![trigger is_perm(q, found.len() as int)]
        is_perm(q, found.len() as int) && stable_order(q, keys) && rs2.len() <= found.len() && forall|k: int|
            0 <= k < rs2.len() ==> rs2[k] == found[#[trigger] q[k]];
    crate::sort::lemma_stable_order_unique(p, q, keys);
    assert forall|k: int| 0 <= k < rs1.len() implies rs1[k] == rs2[k] by {
        assert(rs1[k] == found[p[k]]);
        assert(rs2[k] == found[q[k]]);
    }
    assert(rs1 =~= rs2);
}

/// A search reports path mode exactly when the query resolves to path mode
/// and path guessing finds something, and then it has hits; it never
/// reports `Auto`.
pub proof fn lemma_search_mode(es: Seq<EntryModel>, raw: Seq<char>, mode: SearchMode)
    ensures
        found_hits(es, raw, mode).1 != SearchMode::Auto,
        (found_hits(es, raw, mode).1 == SearchMode::Path) <==> (parsed(raw, mode).mode
            == SearchMode::Path && path_results(es, parsed(raw, mode)).len() > 0),
        found_hits(es, raw, mode).1 == SearchMode::Path ==> found_hits(es, raw, mode).0.len() > 0,
{
    lemma_parsed_mode(raw, mode);
}

/// The order in which the results rank.
fn rank_order(results: &Vec<SearchResult>) -> (p: Vec<usize>)
    ensures
        is_perm(as_ints(p@), results@.len() as int),
        stable_order(as_ints(p@), result_views(results@).map_values(|r: ResultModel| rank_key(r))),
{
    let mut keys: Vec<SortKey> = Vec::new();
    let mut i: usize = 0;
    while i < results.len()
        invariant
            i <= results@.len(),
            keys@.len() == i,
            forall|j: int| 0 <= j < i ==> (#[trigger] keys@[j])@ == rank_key(results@[j]@),
        decreases results@.len() - i,
    {
        let r = &results[i];
        keys.push(
            SortKey {
                k1: -(r.score as i128),
                k2: -(r.entry.modified as i128),
                t1: chars_of(r.entry.rel_path.as_str()),
                t2: Vec::new(),
            },
        );
        i = i + 1;
    }
    let p = stable_sort_order(&keys);
    assert(key_views(keys@) =~= result_views(results@).map_values(|r: ResultModel| rank_key(r)));
    p
}

} // verus!

verus! {

/// Stripping an extension keeps a prefix of the name.
pub proof fn lemma_strip_ext_prefix(name: Seq<char>)
    ensures
        stripped_ext(name).is_prefix_of(name),
{
    if name.contains('.') {
        let i = last_index_of(name, '.');
        if i > 0 && utf8_len(name.skip(i)) <= 10 {
            crate::index::lemma_stem_is_prefix(name, seq!['x']);
            assert(crate::index::stem_of(name, seq!['x']) == name.subrange(0, i));
            assert(name.take(i) =~= name.subrange(0, i));
        }
    }
}

/// The confident single hit: in path mode, when the first result scores at
/// least 80 and no second result scores as much, it is that result's
/// `root/rel_path`; otherwise there is none (in name mode never).
pub proof fn lemma_best_hit(rs: Seq<ResultModel>, mode: SearchMode)
    ensures
        (mode == SearchMode::Path && rs.len() > 0 && rs[0].score >= 80 && (rs.len() < 2 || rs[1].score
            < rs[0].score)) ==> best_of(rs, mode) == Some(rs[0].entry.root + seq!['/'] + rs[0].entry.rel_path),
        !(mode == SearchMode::Path && rs.len() > 0 && rs[0].score >= 80 && (rs.len() < 2
            || rs[1].score < rs[0].score)) ==> best_of(rs, mode) is None,
        mode != SearchMode::Path ==> best_of(rs, mode) is None,
{
}

} // verus!
