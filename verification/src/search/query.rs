//! Interpretation of a raw query string.
use crate::index::normalize;
use crate::text::{
    chars_of, chars_eq_ignore_ascii_case, contains_char, ends_with, eq_ignore_ascii_case, find,
    first_occurrence, contains_sub, keep_nonempty, nonempty, pieces, replace_backslash,
    backslash_to_slash, sep_fn, slice_chars, split, starts_with, string_of, strip_dot_slash,
    trim_by, trim_chars, trim_dot_slash, trim_fn, views, Sep, Trim,
};
use crate::unicode::normalized;
use percent_encoding::percent_decode_str;
use vstd::prelude::*;
use vstd::utf8::{decode_utf8, encode_utf8, valid_utf8};

verus! {

/// How a query is interpreted.
#[derive(Debug, Clone, Copy, PartialEq, Eq, Structural)]
pub enum SearchMode {
    /// Decide from the query's shape.
    Auto,
    /// Guess a file path.
    Path,
    /// Search file names.
    Name,
}

impl Default for SearchMode {
    fn default() -> (m: SearchMode)
        ensures
            m == SearchMode::Auto,
    {
        SearchMode::Auto
    }
}

/// A parsed query.
#[derive(Debug)]
pub struct SearchQuery {
    pub raw: String,
    pub mode: SearchMode,
    /// The whole query, cleaned and normalized (`/`-separated).
    pub text: String,
    /// The `/`-separated non-empty segments of `text`, without `.` (Path mode).
    pub segments: Vec<String>,
    /// The non-empty tokens of `text` between white space and `/` (Name mode).
    pub tokens: Vec<String>,
}

/// The mathematical value of a `SearchQuery`.
pub struct QueryModel {
    pub raw: Seq<char>,
    pub mode: SearchMode,
    pub text: Seq<char>,
    pub segments: Seq<Seq<char>>,
    pub tokens: Seq<Seq<char>>,
}

impl View for SearchQuery {
    type V = QueryModel;

    open spec fn view(&self) -> QueryModel {
        QueryModel {
            raw: self.raw@,
            mode: self.mode,
            text: self.text@,
            segments: views(self.segments@),
            tokens: views(self.tokens@),
        }
    }
}

/// The value of an ASCII hexadecimal digit byte.
pub open spec fn hex_value(b: u8) -> Option<u8> {
    if 0x30 <= b <= 0x39 {
        Some((b - 0x30) as u8)
    } else if 0x61 <= b <= 0x66 {
        Some((b - 0x61 + 10) as u8)
    } else if 0x41 <= b <= 0x46 {
        Some((b - 0x41 + 10) as u8)
    } else {
        None
    }
}

/// Percent-decoding of bytes: each `%` followed by two hexadecimal digits
/// becomes the byte they encode; every other byte stays.
pub open spec fn percent_decode_bytes(b: Seq<u8>) -> Seq<u8>
    decreases b.len(),
{
    if b.len() == 0 {
        b
    } else if b[0] == 0x25 && b.len() >= 3 && hex_value(b[1]) is Some && hex_value(b[2]) is Some {
        seq![(hex_value(b[1])->0 * 16 + hex_value(b[2])->0) as u8] + percent_decode_bytes(b.skip(3))
    } else {
        seq![b[0]] + percent_decode_bytes(b.skip(1))
    }
}

/// The percent-decoding of the UTF-8 bytes of `s`, read back as UTF-8, or
/// `None` where the decoded bytes are not valid UTF-8.
pub open spec fn percent_decoded(s: Seq<char>) -> Option<Seq<char>> {
    let b = percent_decode_bytes(encode_utf8(s));
    if valid_utf8(b) {
        Some(decode_utf8(b))
    } else {
        None
    }
}

/// Trusted: `percent_encoding::percent_decode_str(s).decode_utf8()`.
/// Claims that the call percent-decodes the UTF-8 bytes of `s` (a `%` followed by
/// two hex digits becomes one byte, every other byte is kept) and succeeds
/// exactly when the decoded bytes are valid UTF-8, giving their characters.
#[verifier::external_body]
fn percent_decode_utf8(s: &str) -> (r: Option<String>)
    ensures
        r is Some == percent_decoded(s@) is Some,
        r matches Some(d) ==> percent_decoded(s@) == Some(d@),
{
    match percent_decode_str(s).decode_utf8() {
        Ok(d) => Some(d.into_owned()),
        Err(_) => None,
    }
}

/// How many leading characters the query prefix (`file:`, `path:` or
/// `file://`, ASCII case ignored; the first that matches) takes.
pub open spec fn query_prefix_len(s: Seq<char>) -> int {
    if s.len() >= 5 && eq_ignore_ascii_case(s.take(5), "file:"@) {
        5
    } else if s.len() >= 5 && eq_ignore_ascii_case(s.take(5), "path:"@) {
        5
    } else if s.len() >= 7 && eq_ignore_ascii_case(s.take(7), "file://"@) {
        7
    } else {
        0
    }
}

/// The first index at which `n` occurs in `h` (meaningful when it occurs).
pub open spec fn first_index(h: Seq<char>, n: Seq<char>) -> int {
    choose|i: int| first_occurrence(h, n, i)
}

/// A URL of this server pasted as a query: `http(s)://host/r/<root>/...`
/// keeps what follows `/r/`; another `http(s)://host/...` keeps what follows
/// the first `/` after the scheme. Anything else is kept whole.
pub open spec fn server_url_stripped(s: Seq<char>) -> Seq<char> {
    let rest = if "http://"@.is_prefix_of(s) {
        Some(s.skip(7))
    } else if "https://"@.is_prefix_of(s) {
        Some(s.skip(8))
    } else {
        None
    };
    match rest {
        Some(r) => if contains_sub(r, "/r/"@) {
            r.skip(first_index(r, "/r/"@) + 3)
        } else if contains_sub(r, "/"@) {
            r.skip(first_index(r, "/"@) + 1)
        } else {
            s
        },
        None => s,
    }
}

/// The query after prefix removal, trimming, `\` to `/`, URL decoding and
/// server-URL stripping, before normalization.
pub open spec fn cleaned(raw: Seq<char>) -> Seq<char> {
    let s0 = trim_by(raw, trim_fn(Trim::White));
    let s1 = s0.skip(query_prefix_len(s0));
    let s2 = trim_by(
        trim_by(trim_by(s1, trim_fn(Trim::White)), trim_fn(Trim::Quotes)),
        trim_fn(Trim::White),
    );
    let s3 = backslash_to_slash(s2);
    let s4 = match percent_decoded(s3) {
        Some(d) => d,
        None => s3,
    };
    trim_by(strip_dot_slash(server_url_stripped(s4)), trim_fn(Trim::Slash))
}

/// Whether the text ends with a document extension.
pub open spec fn doc_ext_spec(s: Seq<char>) -> bool {
    ||| ".html"@.is_suffix_of(s)
    ||| ".htm"@.is_suffix_of(s)
    ||| ".md"@.is_suffix_of(s)
    ||| ".markdown"@.is_suffix_of(s)
    ||| ".mmd"@.is_suffix_of(s)
    ||| ".mermaid"@.is_suffix_of(s)
}

/// The pieces that are neither empty nor `.`.
pub open spec fn path_pieces(ps: Seq<Seq<char>>) -> Seq<Seq<char>>
    decreases ps.len(),
{
    if ps.len() == 0 {
        ps
    } else if ps.last().len() == 0 || ps.last() == seq!['.'] {
        path_pieces(ps.drop_last())
    } else {
        path_pieces(ps.drop_last()).push(ps.last())
    }
}

/// The mode a query resolves to.
pub open spec fn resolved_mode(mode: SearchMode, forced_path: bool, text: Seq<char>) -> SearchMode {
    match mode {
        SearchMode::Auto => if forced_path || text.contains('/') || doc_ext_spec(text) {
            SearchMode::Path
        } else {
            SearchMode::Name
        },
        m => m,
    }
}

/// What `parse_query(raw, mode)` returns.
pub open spec fn parsed(raw: Seq<char>, mode: SearchMode) -> QueryModel {
    let s0 = trim_by(raw, trim_fn(Trim::White));
    let text = normalized(cleaned(raw));
    QueryModel {
        raw,
        mode: resolved_mode(mode, query_prefix_len(s0) > 0, text),
        text,
        segments: path_pieces(pieces(text, sep_fn(Sep::Slash))),
        tokens: nonempty(pieces(text, sep_fn(Sep::SpaceOrSlash))),
    }
}

/// Whether `s` ends with one of the document extensions.
pub fn has_doc_ext(s: &[char]) -> (r: bool)
    ensures
        r == doc_ext_spec(s@),
{
    ends_with(s, chars_of(".html").as_slice()) || ends_with(s, chars_of(".htm").as_slice())
        || ends_with(s, chars_of(".md").as_slice()) || ends_with(
        s,
        chars_of(".markdown").as_slice(),
    ) || ends_with(s, chars_of(".mmd").as_slice()) || ends_with(s, chars_of(".mermaid").as_slice())
}

/// Strips a pasted server URL down to the path under it.
pub fn strip_server_url(s: &[char]) -> (r: Vec<char>)
    ensures
        r@ == server_url_stripped(s@),
{
    proof {
        reveal_strlit("http://");
        reveal_strlit("https://");
        reveal_strlit("/r/");
        reveal_strlit("/");
    }
    let http = chars_of("http://");
    let https = chars_of("https://");
    let rest = if starts_with(s, http.as_slice()) {
        Some(slice_chars(s, 7, s.len()))
    } else if starts_with(s, https.as_slice()) {
        Some(slice_chars(s, 8, s.len()))
    } else {
        None
    };
    match rest {
        Some(r) => {
            let rr = chars_of("/r/");
            match find(r.as_slice(), rr.as_slice()) {
                Some(i) => {
                    proof {
                        choose_first(r@, rr@, i as int);
                    }
                    return slice_chars(r.as_slice(), i + 3, r.len());
                },
                None => {},
            }
            let sl = chars_of("/");
            match find(r.as_slice(), sl.as_slice()) {
                Some(i) => {
                    proof {
                        choose_first(r@, sl@, i as int);
                    }
                    slice_chars(r.as_slice(), i + 1, r.len())
                },
                None => slice_chars(s, 0, s.len()),
            }
        },
        None => slice_chars(s, 0, s.len()),
    }
}

/// The first occurrence is unique.
pub proof fn choose_first(h: Seq<char>, n: Seq<char>, i: int)
    requires
        first_occurrence(h, n, i),
    ensures
        first_index(h, n) == i,
{
    let k = first_index(h, n);
    assert(first_occurrence(h, n, k));
}

/// How many leading characters the query prefix takes (0 when none).
fn prefix_len(s: &[char]) -> (k: usize)
    ensures
        k == query_prefix_len(s@),
{
    let file = chars_of("file:");
    let path = chars_of("path:");
    let file_url = chars_of("file://");
    if s.len() >= 5 && chars_eq_ignore_ascii_case(slice_chars(s, 0, 5).as_slice(), file.as_slice()) {
        5
    } else if s.len() >= 5 && chars_eq_ignore_ascii_case(
        slice_chars(s, 0, 5).as_slice(),
        path.as_slice(),
    ) {
        5
    } else if s.len() >= 7 && chars_eq_ignore_ascii_case(
        slice_chars(s, 0, 7).as_slice(),
        file_url.as_slice(),
    ) {
        7
    } else {
        0
    }
}

/// The non-empty strings that are not `.`.
fn keep_path_pieces(v: Vec<String>) -> (r: Vec<String>)
    ensures
        views(r@) == path_pieces(views(v@)),
{
    proof {
        reveal_strlit(".");
    }
    let dot = chars_of(".");
    let mut r: Vec<String> = Vec::new();
    let mut i: usize = 0;
    while i < v.len()
        invariant
            i <= v@.len(),
            dot@ == seq!['.'],
            views(r@) =~= path_pieces(views(v@.subrange(0, i as int))),
        decreases v@.len() - i,
    {
        assert(views(v@.subrange(0, i + 1)).drop_last() =~= views(v@.subrange(0, i as int)));
        let c = chars_of(v[i].as_str());
        if c.len() > 0 && !crate::text::chars_eq(c.as_slice(), dot.as_slice()) {
            r.push(v[i].clone());
        }
        i = i + 1;
    }
    assert(v@.subrange(0, v@.len() as int) =~= v@);
    r
}

/// Interprets a query string:
/// - strips a `file:` / `path:` prefix (which forces path mode),
/// - strips quotes and white space, turns `\` into `/`, URL-decodes, and
///   accepts a pasted URL of this server,
/// - normalizes (NFKC, lowercase),
/// - in `Auto` mode: a query with a `/` or a document extension is a path,
///   any other is a name.
pub fn parse_query(raw: &str, mode: SearchMode) -> (q: SearchQuery)
    ensures
        q@ == parsed(raw@, mode),
{
    proof {
        reveal_strlit("file:");
        reveal_strlit("path:");
        reveal_strlit("file://");
    }
    let r = chars_of(raw);
    let s0 = trim_chars(r.as_slice(), Trim::White);
    let k = prefix_len(s0.as_slice());
    let forced_path = k > 0;
    let s1 = slice_chars(s0.as_slice(), k, s0.len());
    assert(s1@ == s0@.skip(k as int));
    let s2 = trim_chars(s1.as_slice(), Trim::White);
    let s2 = trim_chars(s2.as_slice(), Trim::Quotes);
    let s2 = trim_chars(s2.as_slice(), Trim::White);
    let s3 = replace_backslash(s2.as_slice());
    let s3_str = string_of(s3.as_slice());
    let s4 = match percent_decode_utf8(s3_str.as_str()) {
        Some(d) => chars_of(d.as_str()),
        None => s3,
    };
    let s5 = strip_server_url(s4.as_slice());
    let s6 = trim_dot_slash(s5.as_slice());
    let s6 = trim_chars(s6.as_slice(), Trim::Slash);
    let cleaned_str = string_of(s6.as_slice());
    let text = normalize(cleaned_str.as_str());
    let text_chars = chars_of(text.as_str());
    let looks_path = forced_path || contains_char(text_chars.as_slice(), '/') || has_doc_ext(
        text_chars.as_slice(),
    );
    let resolved = match mode {
        SearchMode::Auto => if looks_path {
            SearchMode::Path
        } else {
            SearchMode::Name
        },
        m => m,
    };
    let segments = keep_path_pieces(split(text_chars.as_slice(), Sep::Slash));
    let tokens = keep_nonempty(split(text_chars.as_slice(), Sep::SpaceOrSlash));
    SearchQuery { raw: raw.to_owned(), mode: resolved, text, segments, tokens }
}

} // verus!

verus! {

pub proof fn lemma_pieces_no_sep(s: Seq<char>, f: spec_fn(char) -> bool)
    ensures
        forall|i: int, j: int|
            0 <= i < pieces(s, f).len() && 0 <= j < pieces(s, f)[i].len() ==> !f(
                #[trigger] pieces(s, f)[i][j],
            ),
    decreases s.len(),
{
    if s.len() > 0 {
        lemma_pieces_no_sep(s.drop_last(), f);
        crate::text::lemma_pieces_len(s.drop_last(), f);
    }
}

pub proof fn lemma_path_pieces_props(ps: Seq<Seq<char>>)
    ensures
        forall|i: int|
            0 <= i < path_pieces(ps).len() ==> (#[trigger] path_pieces(ps)[i]).len() > 0
                && path_pieces(ps)[i] != seq!['.'] && ps.contains(path_pieces(ps)[i]),
    decreases ps.len(),
{
    if ps.len() > 0 {
        lemma_path_pieces_props(ps.drop_last());
        assert forall|i: int| 0 <= i < path_pieces(ps).len() implies ps.contains(
            #[trigger] path_pieces(ps)[i],
        ) by {
            if i < path_pieces(ps.drop_last()).len() {
                let x = path_pieces(ps.drop_last())[i];
                assert(ps.drop_last().contains(x));
                let k = choose|k: int| 0 <= k < ps.drop_last().len() && ps.drop_last()[k] == x;
                assert(ps[k] == x);
            } else {
                assert(ps[ps.len() - 1] == ps.last());
            }
        }
    }
}

proof fn lemma_nonempty_props(ps: Seq<Seq<char>>)
    ensures
        forall|i: int|
            0 <= i < nonempty(ps).len() ==> (#[trigger] nonempty(ps)[i]).len() > 0 && ps.contains(
                nonempty(ps)[i],
            ),
    decreases ps.len(),
{
    if ps.len() > 0 {
        lemma_nonempty_props(ps.drop_last());
        assert forall|i: int| 0 <= i < nonempty(ps).len() implies ps.contains(#[trigger] nonempty(ps)[i]) by {
            if i < nonempty(ps.drop_last()).len() {
                let x = nonempty(ps.drop_last())[i];
                assert(ps.drop_last().contains(x));
                let k = choose|k: int| 0 <= k < ps.drop_last().len() && ps.drop_last()[k] == x;
                assert(ps[k] == x);
            } else {
                assert(ps[ps.len() - 1] == ps.last());
            }
        }
    }
}

/// A parsed query's segments are non-empty, are not `.`, and hold no `/`;
/// its tokens are non-empty and hold neither white space nor `/`.
pub proof fn lemma_query_pieces(raw: Seq<char>, mode: SearchMode)
    ensures
        forall|i: int|
            0 <= i < parsed(raw, mode).segments.len() ==> {
                let s = #[trigger] parsed(raw, mode).segments[i];
                s.len() > 0 && s != seq!['.'] && !s.contains('/')
            },
        forall|i: int|
            0 <= i < parsed(raw, mode).tokens.len() ==> {
                let t = #[trigger] parsed(raw, mode).tokens[i];
                t.len() > 0 && !t.contains('/') && forall|j: int|
                    0 <= j < t.len() ==> !crate::text::is_white_space(#[trigger] t[j])
            },
{
    let q = parsed(raw, mode);
    let ps = pieces(q.text, sep_fn(Sep::Slash));
    let ts = pieces(q.text, sep_fn(Sep::SpaceOrSlash));
    lemma_pieces_no_sep(q.text, sep_fn(Sep::Slash));
    lemma_pieces_no_sep(q.text, sep_fn(Sep::SpaceOrSlash));
    lemma_path_pieces_props(ps);
    lemma_nonempty_props(ts);
    assert forall|i: int| 0 <= i < q.segments.len() implies !(#[trigger] q.segments[i]).contains('/') by {
        let s = q.segments[i];
        assert(ps.contains(s));
        let k = choose|k: int| 0 <= k < ps.len() && ps[k] == s;
        if s.contains('/') {
            let j = choose|j: int| 0 <= j < s.len() && s[j] == '/';
            assert(!(sep_fn(Sep::Slash))(ps[k][j]));
        }
    }
    assert forall|i: int| 0 <= i < q.tokens.len() implies {
        let t = #[trigger] q.tokens[i];
        !t.contains('/') && forall|j: int| 0 <= j < t.len() ==> !crate::text::is_white_space(#[trigger] t[j])
    } by {
        let t = q.tokens[i];
        assert(ts.contains(t));
        let k = choose|k: int| 0 <= k < ts.len() && ts[k] == t;
        assert forall|j: int| 0 <= j < t.len() implies !crate::text::is_white_space(#[trigger] t[j]) && t[j] != '/' by {
            assert(!(sep_fn(Sep::SpaceOrSlash))(ts[k][j]));
        }
    }
}

} // verus!

verus! {

proof fn lemma_scalar_no_percent(c: char)
    requires
        c != '%',
    ensures
        !encode_utf8(seq![c]).contains(0x25u8),
{
    let v = c as u32;
    vstd::utf8::char_is_scalar(c);
    let e = vstd::utf8::encode_scalar(v);
    assert(encode_utf8(seq![c]) =~= e + encode_utf8(seq![c].drop_first()));
    assert(encode_utf8(seq![c].drop_first()) =~= Seq::<u8>::empty());
    assert(encode_utf8(seq![c]) =~= e);
    if v <= 0x7F {
        assert(v != 0x25);
        assert((v & 0x7F) == v) by (bit_vector)
            requires
                v <= 0x7F,
        ;
        assert(e =~= seq![v as u8]);
    } else {
        assert forall|x: u32| #![auto] ((0xC0u8 | ((x >> 6) & 0x1F) as u8) >= 0x80u8) && ((0xE0u8 | ((x >> 12) & 0x0F) as u8) >= 0x80u8) && ((0xF0u8 | ((x >> 18) & 0x7) as u8) >= 0x80u8) && ((0x80u8 | (x & 0x3F) as u8) >= 0x80u8) && ((0x80u8 | ((x >> 6) & 0x3F) as u8) >= 0x80u8) && ((0x80u8 | ((x >> 12) & 0x3F) as u8) >= 0x80u8) by {
            assert(((0xC0u8 | ((x >> 6) & 0x1F) as u8) >= 0x80u8) && ((0xE0u8 | ((x >> 12) & 0x0F) as u8) >= 0x80u8) && ((0xF0u8 | ((x >> 18) & 0x7) as u8) >= 0x80u8) && ((0x80u8 | (x & 0x3F) as u8) >= 0x80u8) && ((0x80u8 | ((x >> 6) & 0x3F) as u8) >= 0x80u8) && ((0x80u8 | ((x >> 12) & 0x3F) as u8) >= 0x80u8)) by (bit_vector);
        }
        assert(forall|k: int| 0 <= k < e.len() ==> e[k] >= 0x80u8);
    }
}

proof fn lemma_encode_no_percent(s: Seq<char>)
    requires
        !s.contains('%'),
    ensures
        !encode_utf8(s).contains(0x25u8),
    decreases s.len(),
{
    if s.len() > 0 {
        assert(s[0] != '%');
        lemma_scalar_no_percent(s[0]);
        assert(!s.drop_first().contains('%')) by {
            if s.drop_first().contains('%') {
                let k = choose|k: int| 0 <= k < s.drop_first().len() && s.drop_first()[k] == '%';
                assert(s[k + 1] == '%');
            }
        }
        lemma_encode_no_percent(s.drop_first());
        let head = encode_utf8(seq![s[0]]);
        assert(encode_utf8(seq![s[0]]) =~= vstd::utf8::encode_scalar(s[0] as u32) + encode_utf8(
            seq![s[0]].drop_first(),
        ));
        assert(seq![s[0]].drop_first() =~= Seq::<char>::empty());
        let b = encode_utf8(s);
        assert(b =~= head + encode_utf8(s.drop_first()));
        if b.contains(0x25u8) {
            let k = choose|k: int| 0 <= k < b.len() && b[k] == 0x25u8;
            if k < head.len() {
                assert(head[k] == 0x25u8);
            } else {
                assert(encode_utf8(s.drop_first())[k - head.len()] == 0x25u8);
            }
        }
    }
}

proof fn lemma_decode_bytes_identity(b: Seq<u8>)
    requires
        !b.contains(0x25u8),
    ensures
        percent_decode_bytes(b) == b,
    decreases b.len(),
{
    if b.len() > 0 {
        assert(b[0] != 0x25u8);
        assert(!b.skip(1).contains(0x25u8)) by {
            if b.skip(1).contains(0x25u8) {
                let k = choose|k: int| 0 <= k < b.skip(1).len() && b.skip(1)[k] == 0x25u8;
                assert(b[k + 1] == 0x25u8);
            }
        }
        lemma_decode_bytes_identity(b.skip(1));
        assert(b =~= seq![b[0]] + b.skip(1));
    }
}

/// URL decoding leaves a string without `%` unchanged.
pub proof fn lemma_no_percent_unchanged(s: Seq<char>)
    requires
        !s.contains('%'),
    ensures
        percent_decoded(s) == Some(s),
{
    lemma_encode_no_percent(s);
    lemma_decode_bytes_identity(encode_utf8(s));
    vstd::utf8::encode_utf8_valid_utf8(s);
    vstd::utf8::encode_utf8_decode_utf8(s);
}

/// The document extensions that make an `Auto` query a path.
pub open spec fn default_doc_exts() -> Seq<Seq<char>> {
    seq![
        seq!['h', 't', 'm', 'l'],
        seq!['h', 't', 'm'],
        seq!['m', 'd'],
        seq!['m', 'a', 'r', 'k', 'd', 'o', 'w', 'n'],
        seq!['m', 'm', 'd'],
        seq!['m', 'e', 'r', 'm', 'a', 'i', 'd'],
    ]
}

/// `t` ends with `.` and one of the document extensions.
pub open spec fn ends_with_doc_ext(t: Seq<char>) -> bool {
    exists|i: int| 0 <= i < default_doc_exts().len() && (seq!['.'] + #[trigger] default_doc_exts()[i]).is_suffix_of(t)
}

/// An `Auto` query is a path query exactly when it was forced to be one, or
/// its text holds a `/`, or it ends with `.html`, `.htm`, `.md`,
/// `.markdown`, `.mmd` or `.mermaid`; in particular any name followed by
/// `.` and one of those extensions is a path query. Otherwise it is a name
/// query. (This is the mode `parse_query` gives, for the text the raw query
/// normalizes to.)
pub proof fn lemma_auto_mode(forced: bool, t: Seq<char>, n: Seq<char>)
    ensures
        resolved_mode(SearchMode::Auto, forced, t) == SearchMode::Path <==> (forced || t.contains('/')
            || ends_with_doc_ext(t)),
        resolved_mode(SearchMode::Auto, forced, t) != SearchMode::Path ==> resolved_mode(
            SearchMode::Auto,
            forced,
            t,
        ) == SearchMode::Name,
        forall|i: int|
            0 <= i < default_doc_exts().len() ==> resolved_mode(
                SearchMode::Auto,
                forced,
                n + seq!['.'] + #[trigger] default_doc_exts()[i],
            ) == SearchMode::Path,
{
    reveal_strlit(".html");
    reveal_strlit(".htm");
    reveal_strlit(".md");
    reveal_strlit(".markdown");
    reveal_strlit(".mmd");
    reveal_strlit(".mermaid");
    let ex = default_doc_exts();
    assert(".html"@ =~= seq!['.'] + ex[0]);
    assert(".htm"@ =~= seq!['.'] + ex[1]);
    assert(".md"@ =~= seq!['.'] + ex[2]);
    assert(".markdown"@ =~= seq!['.'] + ex[3]);
    assert(".mmd"@ =~= seq!['.'] + ex[4]);
    assert(".mermaid"@ =~= seq!['.'] + ex[5]);
    assert(doc_ext_spec(t) <==> ends_with_doc_ext(t)) by {
        if ends_with_doc_ext(t) {
            let i = choose|i: int| 0 <= i < ex.len() && (seq!['.'] + #[trigger] ex[i]).is_suffix_of(t);
            assert(0 <= i < 6);
        }
        if ".html"@.is_suffix_of(t) { assert((seq!['.'] + ex[0]).is_suffix_of(t)); }
        if ".htm"@.is_suffix_of(t) { assert((seq!['.'] + ex[1]).is_suffix_of(t)); }
        if ".md"@.is_suffix_of(t) { assert((seq!['.'] + ex[2]).is_suffix_of(t)); }
        if ".markdown"@.is_suffix_of(t) { assert((seq!['.'] + ex[3]).is_suffix_of(t)); }
        if ".mmd"@.is_suffix_of(t) { assert((seq!['.'] + ex[4]).is_suffix_of(t)); }
        if ".mermaid"@.is_suffix_of(t) { assert((seq!['.'] + ex[5]).is_suffix_of(t)); }
    }
    assert forall|i: int| 0 <= i < ex.len() implies resolved_mode(
        SearchMode::Auto,
        forced,
        n + seq!['.'] + #[trigger] ex[i],
    ) == SearchMode::Path by {
        let u = n + seq!['.'] + ex[i];
        let sfx = seq!['.'] + ex[i];
        assert(u.subrange(u.len() - sfx.len(), u.len() as int) =~= sfx);
        assert(sfx.is_suffix_of(u));
        assert(ends_with_doc_ext(u));
        assert(doc_ext_spec(u)) by {
            if i == 0 { assert(".html"@.is_suffix_of(u)); }
            if i == 1 { assert(".htm"@.is_suffix_of(u)); }
            if i == 2 { assert(".md"@.is_suffix_of(u)); }
            if i == 3 { assert(".markdown"@.is_suffix_of(u)); }
            if i == 4 { assert(".mmd"@.is_suffix_of(u)); }
            if i == 5 { assert(".mermaid"@.is_suffix_of(u)); }
        }
    }
}

/// `parse_query` in `Auto` mode gives path mode exactly when the query had a
/// path prefix, or its normalized text holds a `/` or ends with one of the
/// document extensions; name mode otherwise.
pub proof fn lemma_parsed_auto_mode(raw: Seq<char>)
    ensures
        parsed(raw, SearchMode::Auto).mode == SearchMode::Path <==> (query_prefix_len(
            trim_by(raw, trim_fn(Trim::White)),
        ) > 0 || parsed(raw, SearchMode::Auto).text.contains('/') || ends_with_doc_ext(
            parsed(raw, SearchMode::Auto).text,
        )),
        parsed(raw, SearchMode::Auto).mode != SearchMode::Path ==> parsed(raw, SearchMode::Auto).mode
            == SearchMode::Name,
{
    let q = parsed(raw, SearchMode::Auto);
    lemma_auto_mode(query_prefix_len(trim_by(raw, trim_fn(Trim::White))) > 0, q.text, q.text);
}

} // verus!
