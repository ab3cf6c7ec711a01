//! Walking roots: which files are indexed, and safe path resolution.
use crate::config::Settings;
use crate::os_path::{join_path, path_join, PathStyle};
use crate::search::query::path_pieces;
use crate::text::{chars_of, contains_char, pieces, sep_fn, split, str_eq, views, Sep, eq_ignore_ascii_case, ascii_lower_seq};
use vstd::prelude::*;

verus! {

/// `base` with each part pushed on, in order.
pub open spec fn push_all(base: Seq<char>, parts: Seq<Seq<char>>) -> Seq<char>
    decreases parts.len(),
{
    if parts.len() == 0 {
        base
    } else {
        path_join(push_all(base, parts.drop_last()), parts.last())
    }
}

/// Whether a `/`-separated segment of a request is refused on Windows: it
/// has a component that is not a plain name there (components are split at
/// `\`): a root (a leading `\`, which also starts UNC and verbatim
/// prefixes), a drive prefix (an ASCII letter and `:`), a leading `.`
/// component, or a `..` component.
pub open spec fn windows_refused(seg: Seq<char>) -> bool {
    ||| seg.len() > 0 && seg[0] == '\\'
    ||| seg.len() >= 2 && (('a' <= seg[0] && seg[0] <= 'z') || ('A' <= seg[0] && seg[0] <= 'Z'))
        && seg[1] == ':'
    ||| seg.len() >= 2 && seg[0] == '.' && seg[1] == '\\'
    ||| pieces(seg, sep_fn(Sep::Backslash)).contains(".."@)
}

/// Whether a `/`-separated segment of a request is refused: it has a
/// component that is not a plain name by the rules of `style`. On Unix a
/// segment holds no separator, so that is `..` alone.
pub open spec fn refused_segment(style: PathStyle, seg: Seq<char>) -> bool {
    match style {
        PathStyle::Unix => seg == ".."@,
        PathStyle::Windows => windows_refused(seg),
    }
}

/// Whether resolving `rel` is refused: some segment is.
pub open spec fn refused_request(style: PathStyle, rel: Seq<char>) -> bool {
    exists|i: int|
        0 <= i < pieces(rel, sep_fn(Sep::Slash)).len() && refused_segment(
            style,
            #[trigger] pieces(rel, sep_fn(Sep::Slash))[i],
        )
}

/// The path `rel` resolves to under `root_path` on Unix: the root path with
/// the non-empty segments other than `.` pushed on.
pub open spec fn resolved_under(root_path: Seq<char>, rel: Seq<char>) -> Seq<char> {
    push_all(root_path, path_pieces(pieces(rel, sep_fn(Sep::Slash))))
}

/// Whether `seg` is refused on Windows (see `windows_refused`).
fn windows_refuses(seg: &str) -> (r: bool)
    ensures
        r == windows_refused(seg@),
{
    proof {
        reveal_strlit("..");
    }
    let c = chars_of(seg);
    if c.len() > 0 && c[0] == '\\' {
        return true;
    }
    if c.len() >= 2 && (('a' <= c[0] && c[0] <= 'z') || ('A' <= c[0] && c[0] <= 'Z')) && c[1] == ':' {
        return true;
    }
    if c.len() >= 2 && c[0] == '.' && c[1] == '\\' {
        return true;
    }
    let parts = split(c.as_slice(), Sep::Backslash);
    let mut k: usize = 0;
    while k < parts.len()
        invariant
            k <= parts@.len(),
            views(parts@) == pieces(seg@, sep_fn(Sep::Backslash)),
            forall|m: int| 0 <= m < k ==> #[trigger] views(parts@)[m] != ".."@,
        decreases parts@.len() - k,
    {
        if str_eq(parts[k].as_str(), "..") {
            assert(views(parts@)[k as int] == ".."@);
            return true;
        }
        k = k + 1;
    }
    false
}

/// Whether `seg` is refused by the rules of `style`.
fn refuses(style: PathStyle, seg: &str) -> (r: bool)
    ensures
        r == refused_segment(style, seg@),
{
    match style {
        PathStyle::Unix => str_eq(seg, ".."),
        PathStyle::Windows => windows_refuses(seg),
    }
}

/// Resolves the `/`-separated path `rel` under `root_path`, refusing any
/// segment that is not a plain name by the rules of `style` (path
/// traversal). Empty and `.` segments are skipped; the others are joined on
/// by the rules of `style`, for Unix exactly as `resolved_under` states.
pub fn resolve_under_root(style: PathStyle, root_path: &str, rel: &str) -> (r: Option<String>)
    ensures
        r is None <==> refused_request(style, rel@),
        style == PathStyle::Unix ==> (r matches Some(p) ==> p@ == resolved_under(root_path@, rel@)),
{
    proof {
        reveal_strlit("..");
        reveal_strlit(".");
    }
    let segs = split(chars_of(rel).as_slice(), Sep::Slash);
    let ghost sv = views(segs@);
    let mut p = root_path.to_owned();
    let mut i: usize = 0;
    while i < segs.len()
        invariant
            i <= segs@.len(),
            sv == views(segs@),
            sv == pieces(rel@, sep_fn(Sep::Slash)),
            forall|k: int| 0 <= k < i ==> !refused_segment(style, #[trigger] sv[k]),
            style == PathStyle::Unix ==> p@ == push_all(root_path@, path_pieces(sv.take(i as int))),
        decreases segs@.len() - i,
    {
        let seg = segs[i].as_str();
        assert(sv.take(i + 1).drop_last() =~= sv.take(i as int));
        assert(seg@ == sv[i as int]);
        if refuses(style, seg) {
            assert(refused_segment(style, sv[i as int]));
            return None;
        }
        proof {
            reveal_strlit(".");
            reveal_strlit("..");
        }
        assert(seq!['.'] =~= "."@);
        if !(seg.unicode_len() == 0 || str_eq(seg, ".")) {
            let ghost prev = path_pieces(sv.take(i as int));
            p = join_path(style, p.as_str(), seg);
            assert(path_pieces(sv.take(i + 1)) =~= prev.push(seg@));
            assert(prev.push(seg@).drop_last() =~= prev);
        } else {
            assert(path_pieces(sv.take(i + 1)) =~= path_pieces(sv.take(i as int)));
        }
        i = i + 1;
    }
    assert(sv.take(sv.len() as int) =~= sv);
    Some(p)
}

/// Whether `name` is one of the excluded names.
pub fn is_excluded(excludes: &Vec<String>, name: &str) -> (r: bool)
    ensures
        r == views(excludes@).contains(name@),
{
    let mut i: usize = 0;
    while i < excludes.len()
        invariant
            i <= excludes@.len(),
            forall|k: int| 0 <= k < i ==> #[trigger] excludes@[k]@ != name@,
        decreases excludes@.len() - i,
    {
        if str_eq(excludes[i].as_str(), name) {
            assert(views(excludes@)[i as int] == name@);
            return true;
        }
        i = i + 1;
    }
    assert(!views(excludes@).contains(name@)) by {
        if views(excludes@).contains(name@) {
            let k = choose|k: int| 0 <= k < excludes@.len() && views(excludes@)[k] == name@;
            assert(excludes@[k]@ == name@);
        }
    }
    false
}

/// Whether a walked path is indexed: a regular file with an extension that
/// the settings allow.
pub open spec fn wanted(settings: &Settings, is_file: bool, extension: Option<Seq<char>>) -> bool {
    is_file && match extension {
        Some(e) => exists|i: int|
            0 <= i < settings.include_extensions@.len() && eq_ignore_ascii_case(
                #[trigger] settings.include_extensions@[i]@,
                ascii_lower_seq(e),
            ),
        None => false,
    }
}

/// Whether a walked path is indexed.
pub fn wanted_file(settings: &Settings, is_file: bool, extension: Option<&str>) -> (r: bool)
    ensures
        r == wanted(
            settings,
            is_file,
            match extension {
                Some(e) => Some(e@),
                None => None,
            },
        ),
{
    if !is_file {
        return false;
    }
    match extension {
        Some(e) => settings.ext_allowed(e),
        None => false,
    }
}

} // verus!

verus! {

proof fn lemma_push_all_prefix(base: Seq<char>, parts: Seq<Seq<char>>)
    requires
        forall|i: int| 0 <= i < parts.len() ==> !(#[trigger] parts[i]).contains('/'),
    ensures
        base.is_prefix_of(push_all(base, parts)),
    decreases parts.len(),
{
    if parts.len() > 0 {
        let prev = push_all(base, parts.drop_last());
        assert forall|i: int| 0 <= i < parts.drop_last().len() implies !(
        #[trigger] parts.drop_last()[i]).contains('/') by {
            assert(parts.drop_last()[i] == parts[i]);
        }
        lemma_push_all_prefix(base, parts.drop_last());
        let last = parts.last();
        assert(parts[parts.len() - 1] == last);
        if last.len() > 0 && last[0] == '/' {
            assert(last.contains('/'));
        }
        let r = push_all(base, parts);
        assert(base.len() <= prev.len());
        assert(prev.is_prefix_of(r)) by {
            if prev.len() == 0 || prev.last() == '/' {
                assert(r =~= prev + last);
            } else {
                assert(r =~= prev + seq!['/'] + last);
            }
            assert(r.subrange(0, prev.len() as int) =~= prev);
        }
        assert(r.subrange(0, base.len() as int) =~= prev.subrange(0, base.len() as int));
    }
}

/// Path traversal is refused: on Unix, resolving fails exactly when a
/// segment is `..`, and a resolved path extends the root's path by
/// non-empty names that hold no `/` and are neither `.` nor `..`.
pub proof fn lemma_resolve_stays_under_root(root_path: Seq<char>, rel: Seq<char>)
    ensures
        refused_request(PathStyle::Unix, rel) <==> pieces(rel, sep_fn(Sep::Slash)).contains(".."@),
        !refused_request(PathStyle::Unix, rel) ==> {
            &&& root_path.is_prefix_of(resolved_under(root_path, rel))
            &&& forall|i: int|
                0 <= i < path_pieces(pieces(rel, sep_fn(Sep::Slash))).len() ==> {
                    let part = #[trigger] path_pieces(pieces(rel, sep_fn(Sep::Slash)))[i];
                    &&& !part.contains('/')
                    &&& part.len() > 0
                    &&& part != seq!['.']
                    &&& part != seq!['.', '.']
                }
        },
{
    reveal_strlit("..");
    assert(".."@ =~= seq!['.', '.']);
    let segs = pieces(rel, sep_fn(Sep::Slash));
    crate::search::query::lemma_pieces_no_sep(rel, sep_fn(Sep::Slash));
    crate::search::query::lemma_path_pieces_props(segs);
    let parts = path_pieces(segs);
    if segs.contains(".."@) {
        let k = choose|k: int| 0 <= k < segs.len() && segs[k] == ".."@;
        assert(refused_segment(PathStyle::Unix, segs[k]));
    }
    if !refused_request(PathStyle::Unix, rel) {
        assert forall|i: int| 0 <= i < parts.len() implies {
            let part = #[trigger] parts[i];
            &&& !part.contains('/')
            &&& part.len() > 0
            &&& part != seq!['.']
            &&& part != seq!['.', '.']
        } by {
            let x = parts[i];
            assert(segs.contains(x));
            let k = choose|k: int| 0 <= k < segs.len() && segs[k] == x;
            assert(!refused_segment(PathStyle::Unix, segs[k]));
            if x.contains('/') {
                let j = choose|j: int| 0 <= j < x.len() && x[j] == '/';
                assert(!(sep_fn(Sep::Slash))(segs[k][j]));
            }
        }
        lemma_push_all_prefix(root_path, parts);
    }
}

} // verus!
