//! Character-sequence helpers shared by the search and index logic.
//! Strings are modelled by their view, a `Seq<char>`.
use vstd::prelude::*;

verus! {

/// `n` occurs in `h` starting at character index `i`.
pub open spec fn occurs_at(h: Seq<char>, n: Seq<char>, i: int) -> bool {
    0 <= i && i + n.len() <= h.len() && h.subrange(i, i + n.len()) =~= n
}

/// `n` occurs somewhere in `h`.
pub open spec fn contains_sub(h: Seq<char>, n: Seq<char>) -> bool {
    exists|i: int| occurs_at(h, n, i)
}

/// `i` is the first index at which `n` occurs in `h`.
pub open spec fn first_occurrence(h: Seq<char>, n: Seq<char>, i: int) -> bool {
    occurs_at(h, n, i) && forall|j: int| 0 <= j < i ==> !occurs_at(h, n, j)
}

/// Where `n` occurs, it has a first occurrence, at or before any other.
pub proof fn lemma_first_exists(h: Seq<char>, n: Seq<char>, i: int)
    requires
        occurs_at(h, n, i),
    ensures
        exists|j: int| 0 <= j <= i && first_occurrence(h, n, j),
    decreases i,
{
    if forall|j: int| 0 <= j < i ==> !occurs_at(h, n, j) {
        assert(first_occurrence(h, n, i));
    } else {
        let j = choose|j: int| 0 <= j < i && occurs_at(h, n, j);
        lemma_first_exists(h, n, j);
    }
}

/// The character sequence of `s` as a vector.
pub fn chars_of(s: &str) -> (v: Vec<char>)
    ensures
        v@ == s@,
{
    let n = s.unicode_len();
    let mut v: Vec<char> = Vec::new();
    let mut i: usize = 0;
    while i < n
        invariant
            n == s@.len(),
            i <= n,
            v@ == s@.subrange(0, i as int),
        decreases n - i,
    {
        v.push(s.get_char(i));
        i = i + 1;
    }
    v
}

/// Appends one character to a `String`.
/// Trusted: `String::push` appends the given char to the end of the string.
#[verifier::external_body]
fn string_push(s: &mut String, c: char)
    ensures
        final(s)@ == old(s)@.push(c),
{
    s.push(c);
}

/// A `String` holding exactly the given characters.
pub fn string_of(v: &[char]) -> (s: String)
    ensures
        s@ == v@,
{
    let mut s = String::new();
    let mut i: usize = 0;
    while i < v.len()
        invariant
            i <= v@.len(),
            s@ == v@.subrange(0, i as int),
        decreases v@.len() - i,
    {
        string_push(&mut s, v[i]);
        i = i + 1;
    }
    s
}


/// A copy of `v[from..to]`.
pub fn slice_chars(v: &[char], from: usize, to: usize) -> (r: Vec<char>)
    requires
        from <= to <= v@.len(),
    ensures
        r@ == v@.subrange(from as int, to as int),
{
    let mut r: Vec<char> = Vec::new();
    let mut i: usize = from;
    while i < to
        invariant
            from <= i <= to <= v@.len(),
            r@ == v@.subrange(from as int, i as int),
        decreases to - i,
    {
        r.push(v[i]);
        i = i + 1;
    }
    r
}

/// Whether `n` occurs in `h` at index `i`.
pub fn matches_at(h: &[char], n: &[char], i: usize) -> (b: bool)
    ensures
        b == occurs_at(h@, n@, i as int),
{
    if i > h.len() || n.len() > h.len() - i {
        return false;
    }
    let mut k: usize = 0;
    while k < n.len()
        invariant
            i + n.len() <= h.len(),
            k <= n@.len(),
            forall|m: int| 0 <= m < k ==> h@[i + m] == n@[m],
        decreases n@.len() - k,
    {
        if h[i + k] != n[k] {
            assert(h@.subrange(i as int, i + n@.len())[k as int] != n@[k as int]);
            return false;
        }
        k = k + 1;
    }
    assert(h@.subrange(i as int, i + n@.len()) =~= n@);
    true
}

/// Whether the two character sequences are equal.
pub fn chars_eq(a: &[char], b: &[char]) -> (r: bool)
    ensures
        r == (a@ == b@),
{
    if a.len() != b.len() {
        return false;
    }
    let r = matches_at(a, b, 0);
    assert(r ==> a@.subrange(0, b@.len() as int) =~= a@);
    assert(a@ == b@ ==> a@.subrange(0, b@.len() as int) =~= b@);
    r
}

/// Whether two strings are equal.
pub fn str_eq(a: &str, b: &str) -> (r: bool)
    ensures
        r == (a@ == b@),
{
    chars_eq(chars_of(a).as_slice(), chars_of(b).as_slice())
}

/// Whether `h` starts with `n`.
pub fn starts_with(h: &[char], n: &[char]) -> (r: bool)
    ensures
        r == n@.is_prefix_of(h@),
        r == occurs_at(h@, n@, 0),
{
    matches_at(h, n, 0)
}

/// Whether `h` ends with `n`.
pub fn ends_with(h: &[char], n: &[char]) -> (r: bool)
    ensures
        r == n@.is_suffix_of(h@),
{
    if n.len() > h.len() {
        return false;
    }
    matches_at(h, n, h.len() - n.len())
}

/// The first index at which `n` occurs in `h`, if any.
pub fn find(h: &[char], n: &[char]) -> (r: Option<usize>)
    ensures
        r matches Some(i) ==> first_occurrence(h@, n@, i as int),
        r is None ==> !contains_sub(h@, n@),
{
    if n.len() > h.len() {
        assert forall|j: int| !occurs_at(h@, n@, j) by {}
        return None;
    }
    if n.len() == 0 {
        assert(occurs_at(h@, n@, 0));
        return Some(0);
    }
    let last = h.len() - n.len();
    let mut i: usize = 0;
    while i <= last
        invariant
            last == h.len() - n.len(),
            n.len() >= 1,
            i <= last + 1,
            forall|j: int| 0 <= j < i ==> !occurs_at(h@, n@, j),
        decreases last + 1 - i,
    {
        if matches_at(h, n, i) {
            return Some(i);
        }
        i = i + 1;
    }
    assert forall|j: int| !occurs_at(h@, n@, j) by {}
    None
}

/// Whether `n` occurs in `h`.
pub fn contains(h: &[char], n: &[char]) -> (r: bool)
    ensures
        r == contains_sub(h@, n@),
{
    match find(h, n) {
        Some(i) => {
            assert(occurs_at(h@, n@, i as int));
            true
        },
        None => false,
    }
}

/// Whether `c` occurs in `h`.
pub fn contains_char(h: &[char], c: char) -> (r: bool)
    ensures
        r == h@.contains(c),
{
    let mut i: usize = 0;
    while i < h.len()
        invariant
            i <= h@.len(),
            forall|j: int| 0 <= j < i ==> h@[j] != c,
        decreases h@.len() - i,
    {
        if h[i] == c {
            return true;
        }
        i = i + 1;
    }
    false
}

/// The last index at which `c` occurs in `h`, if any.
pub fn rfind_char(h: &[char], c: char) -> (r: Option<usize>)
    ensures
        r matches Some(i) ==> i < h@.len() && h@[i as int] == c && forall|j: int|
            i < j < h@.len() ==> h@[j] != c,
        r is None ==> !h@.contains(c),
{
    let mut i: usize = h.len();
    while i > 0
        invariant
            i <= h@.len(),
            forall|j: int| i <= j < h@.len() ==> h@[j] != c,
        decreases i,
    {
        if h[i - 1] == c {
            return Some(i - 1);
        }
        i = i - 1;
    }
    proof { false_contains(h@, c); }
    None
}

proof fn false_contains(h: Seq<char>, c: char)
    requires
        forall|j: int| 0 <= j < h.len() ==> h[j] != c,
    ensures
        !h.contains(c),
{
}

/// ASCII lowercase of one character; other characters are unchanged.
pub open spec fn ascii_lower(c: char) -> char {
    if 'A' <= c && c <= 'Z' {
        ((c as u32) + 32) as char
    } else {
        c
    }
}

/// ASCII lowercase of every character of `s`.
pub open spec fn ascii_lower_seq(s: Seq<char>) -> Seq<char> {
    s.map_values(|c: char| ascii_lower(c))
}

/// ASCII lowercase of one character.
pub fn ascii_lower_char(c: char) -> (r: char)
    ensures
        r == ascii_lower(c),
{
    if 'A' <= c && c <= 'Z' {
        let u: u32 = (c as u32) + 32;
        assert(0x61 <= u <= 0x7a);
        char_from_ascii(u)
    } else {
        c
    }
}

/// The character with the given ASCII code.
fn char_from_ascii(u: u32) -> (c: char)
    requires
        u < 128,
    ensures
        c == u as char,
{
    (u as u8) as char
}

/// ASCII lowercase of every character.
pub fn ascii_lower_chars(s: &[char]) -> (r: Vec<char>)
    ensures
        r@ == ascii_lower_seq(s@),
{
    let mut r: Vec<char> = Vec::new();
    let mut i: usize = 0;
    while i < s.len()
        invariant
            i <= s@.len(),
            r@ =~= ascii_lower_seq(s@.subrange(0, i as int)),
        decreases s@.len() - i,
    {
        r.push(ascii_lower_char(s[i]));
        i = i + 1;
    }
    assert(s@.subrange(0, s@.len() as int) =~= s@);
    r
}

/// ASCII lowercasing twice is lowercasing once.
pub proof fn lemma_ascii_lower_idempotent(s: Seq<char>)
    ensures
        ascii_lower_seq(ascii_lower_seq(s)) == ascii_lower_seq(s),
{
    assert forall|i: int| 0 <= i < s.len() implies ascii_lower(ascii_lower(s[i])) == ascii_lower(s[i]) by {
        let c = s[i];
        if 'A' <= c && c <= 'Z' {
            let u = (c as u32) + 32;
            assert(0x61 <= u <= 0x7a);
            assert(ascii_lower(c) == u as char);
            assert((u as char) as u32 == u);
        }
    }
    assert(ascii_lower_seq(ascii_lower_seq(s)) =~= ascii_lower_seq(s));
}

/// Equality of two strings up to ASCII case.
pub open spec fn eq_ignore_ascii_case(a: Seq<char>, b: Seq<char>) -> bool {
    ascii_lower_seq(a) == ascii_lower_seq(b)
}

/// Whether `a` and `b` are equal up to ASCII case.
pub fn chars_eq_ignore_ascii_case(a: &[char], b: &[char]) -> (r: bool)
    ensures
        r == eq_ignore_ascii_case(a@, b@),
{
    let la = ascii_lower_chars(a);
    let lb = ascii_lower_chars(b);
    chars_eq(la.as_slice(), lb.as_slice())
}


/// The views of a sequence of strings.
pub open spec fn views(v: Seq<String>) -> Seq<Seq<char>> {
    v.map_values(|s: String| s@)
}

/// The pieces of `s` between separator characters, as `str::split` yields
/// them: `n` separators give `n + 1` pieces, empty ones included.
pub open spec fn pieces(s: Seq<char>, is_sep: spec_fn(char) -> bool) -> Seq<Seq<char>>
    decreases s.len(),
{
    if s.len() == 0 {
        seq![Seq::<char>::empty()]
    } else {
        let p = pieces(s.drop_last(), is_sep);
        if is_sep(s.last()) {
            p.push(Seq::<char>::empty())
        } else {
            p.update(p.len() - 1, p.last().push(s.last()))
        }
    }
}

/// The parts joined with `/` between consecutive parts.
pub open spec fn join_slash(parts: Seq<Seq<char>>) -> Seq<char>
    decreases parts.len(),
{
    if parts.len() == 0 {
        Seq::<char>::empty()
    } else if parts.len() == 1 {
        parts[0]
    } else {
        join_slash(parts.drop_last()) + seq!['/'] + parts.last()
    }
}

/// The non-empty pieces, in order.
pub open spec fn nonempty(ps: Seq<Seq<char>>) -> Seq<Seq<char>>
    decreases ps.len(),
{
    if ps.len() == 0 {
        ps
    } else if ps.last().len() == 0 {
        nonempty(ps.drop_last())
    } else {
        nonempty(ps.drop_last()).push(ps.last())
    }
}

pub proof fn lemma_pieces_len(s: Seq<char>, is_sep: spec_fn(char) -> bool)
    ensures
        pieces(s, is_sep).len() >= 1,
    decreases s.len(),
{
    if s.len() > 0 {
        lemma_pieces_len(s.drop_last(), is_sep);
    }
}

/// Separator classes used for splitting.
pub enum Sep {
    /// `/` only.
    Slash,
    /// White space (Unicode `White_Space`) or `/`.
    SpaceOrSlash,
    /// `\` only.
    Backslash,
}

pub open spec fn sep_fn(kind: Sep) -> spec_fn(char) -> bool {
    match kind {
        Sep::Slash => |c: char| c == '/',
        Sep::SpaceOrSlash => |c: char| is_white_space(c) || c == '/',
        Sep::Backslash => |c: char| c == '\\',
    }
}

/// The Unicode `White_Space` property, which `char::is_whitespace` tests.
pub open spec fn is_white_space(c: char) -> bool {
    ||| ('\u{9}' <= c && c <= '\u{d}')
    ||| c == ' '
    ||| c == '\u{85}'
    ||| c == '\u{a0}'
    ||| c == '\u{1680}'
    ||| ('\u{2000}' <= c && c <= '\u{200a}')
    ||| c == '\u{2028}'
    ||| c == '\u{2029}'
    ||| c == '\u{202f}'
    ||| c == '\u{205f}'
    ||| c == '\u{3000}'
}

/// Whether `c` is white space.
pub fn white_space(c: char) -> (r: bool)
    ensures
        r == is_white_space(c),
{
    ('\u{9}' <= c && c <= '\u{d}') || c == ' ' || c == '\u{85}' || c == '\u{a0}' || c == '\u{1680}'
        || ('\u{2000}' <= c && c <= '\u{200a}') || c == '\u{2028}' || c == '\u{2029}' || c
        == '\u{202f}' || c == '\u{205f}' || c == '\u{3000}'
}

fn is_sep_char(kind: &Sep, c: char) -> (r: bool)
    ensures
        r == (sep_fn(*kind))(c),
{
    match kind {
        Sep::Slash => c == '/',
        Sep::SpaceOrSlash => white_space(c) || c == '/',
        Sep::Backslash => c == '\\',
    }
}

/// The pieces of `s` between separators, as strings.
pub fn split(s: &[char], kind: Sep) -> (r: Vec<String>)
    ensures
        views(r@) == pieces(s@, sep_fn(kind)),
{
    let ghost f = sep_fn(kind);
    let mut out: Vec<String> = Vec::new();
    let mut cur: Vec<char> = Vec::new();
    let mut i: usize = 0;
    while i < s.len()
        invariant
            i <= s@.len(),
            f == sep_fn(kind),
            views(out@).push(cur@) =~= pieces(s@.subrange(0, i as int), f),
        decreases s@.len() - i,
    {
        let c = s[i];
        let ghost prev = s@.subrange(0, i as int);
        assert(s@.subrange(0, i + 1).drop_last() =~= prev);
        if is_sep_char(&kind, c) {
            let piece = string_of(cur.as_slice());
            out.push(piece);
            cur = Vec::new();
        } else {
            cur.push(c);
        }
        i = i + 1;
    }
    let last = string_of(cur.as_slice());
    out.push(last);
    assert(s@.subrange(0, s@.len() as int) =~= s@);
    assert(views(out@) =~= pieces(s@, f));
    out
}

/// The strings joined with `/`.
pub fn join_with_slash(parts: &Vec<String>) -> (r: String)
    ensures
        r@ == join_slash(views(parts@)),
{
    let mut r = String::new();
    let mut i: usize = 0;
    while i < parts.len()
        invariant
            i <= parts@.len(),
            r@ == join_slash(views(parts@.subrange(0, i as int))),
        decreases parts@.len() - i,
    {
        let ghost before = views(parts@.subrange(0, i as int));
        assert(views(parts@.subrange(0, i + 1)).drop_last() =~= before);
        if i > 0 {
            string_push(&mut r, '/');
        }
        r.append(parts[i].as_str());
        i = i + 1;
    }
    assert(parts@.subrange(0, parts@.len() as int) =~= parts@);
    r
}

/// The non-empty strings, in order.
pub fn keep_nonempty(v: Vec<String>) -> (r: Vec<String>)
    ensures
        views(r@) == nonempty(views(v@)),
{
    let mut r: Vec<String> = Vec::new();
    let mut i: usize = 0;
    while i < v.len()
        invariant
            i <= v@.len(),
            views(r@) =~= nonempty(views(v@.subrange(0, i as int))),
        decreases v@.len() - i,
    {
        assert(views(v@.subrange(0, i + 1)).drop_last() =~= views(v@.subrange(0, i as int)));
        if v[i].as_str().unicode_len() > 0 {
            r.push(v[i].clone());
        }
        i = i + 1;
    }
    assert(v@.subrange(0, v@.len() as int) =~= v@);
    r
}


/// `s` without the leading characters that satisfy `p`.
pub open spec fn trim_start_by(s: Seq<char>, p: spec_fn(char) -> bool) -> Seq<char>
    decreases s.len(),
{
    if s.len() > 0 && p(s[0]) {
        trim_start_by(s.drop_first(), p)
    } else {
        s
    }
}

/// `s` without the trailing characters that satisfy `p`.
pub open spec fn trim_end_by(s: Seq<char>, p: spec_fn(char) -> bool) -> Seq<char>
    decreases s.len(),
{
    if s.len() > 0 && p(s.last()) {
        trim_end_by(s.drop_last(), p)
    } else {
        s
    }
}

/// `s` without the leading and trailing characters that satisfy `p`.
pub open spec fn trim_by(s: Seq<char>, p: spec_fn(char) -> bool) -> Seq<char> {
    trim_end_by(trim_start_by(s, p), p)
}

/// Character classes that `trim_chars` removes.
pub enum Trim {
    /// Unicode white space.
    White,
    /// `"`, `'`, `` ` ``, `<` and `>`.
    Quotes,
    /// `/`.
    Slash,
}

pub open spec fn is_quote(c: char) -> bool {
    c == '"' || c == '\'' || c == '`' || c == '<' || c == '>'
}

pub open spec fn trim_fn(kind: Trim) -> spec_fn(char) -> bool {
    match kind {
        Trim::White => |c: char| is_white_space(c),
        Trim::Quotes => |c: char| is_quote(c),
        Trim::Slash => |c: char| c == '/',
    }
}

fn in_trim_set(kind: &Trim, c: char) -> (r: bool)
    ensures
        r == (trim_fn(*kind))(c),
{
    match kind {
        Trim::White => white_space(c),
        Trim::Quotes => c == '"' || c == '\'' || c == '`' || c == '<' || c == '>',
        Trim::Slash => c == '/',
    }
}

proof fn lemma_trim_start_skip(s: Seq<char>, p: spec_fn(char) -> bool, i: int)
    requires
        0 <= i < s.len(),
        p(s[i]),
        trim_start_by(s, p) == trim_start_by(s.skip(i), p),
    ensures
        trim_start_by(s, p) == trim_start_by(s.skip(i + 1), p),
{
    assert(s.skip(i).drop_first() =~= s.skip(i + 1));
}

proof fn lemma_trim_end_take(s: Seq<char>, p: spec_fn(char) -> bool, j: int)
    requires
        0 < j <= s.len(),
        p(s[j - 1]),
        trim_end_by(s, p) == trim_end_by(s.take(j), p),
    ensures
        trim_end_by(s, p) == trim_end_by(s.take(j - 1), p),
{
    assert(s.take(j).drop_last() =~= s.take(j - 1));
}

/// `v` without leading and trailing characters of the given class.
pub fn trim_chars(v: &[char], kind: Trim) -> (r: Vec<char>)
    ensures
        r@ == trim_by(v@, trim_fn(kind)),
{
    let ghost p = trim_fn(kind);
    let mut i: usize = 0;
    assert(v@.skip(0) =~= v@);
    while i < v.len() && in_trim_set(&kind, v[i])
        invariant
            i <= v@.len(),
            p == trim_fn(kind),
            trim_start_by(v@, p) == trim_start_by(v@.skip(i as int), p),
        decreases v@.len() - i,
    {
        proof {
            lemma_trim_start_skip(v@, p, i as int);
        }
        i = i + 1;
    }
    let ghost rest = v@.skip(i as int);
    assert(trim_start_by(rest, p) == rest);
    let mut j: usize = v.len();
    assert(rest.take(rest.len() as int) =~= rest);
    while j > i && in_trim_set(&kind, v[j - 1])
        invariant
            i <= j <= v@.len(),
            p == trim_fn(kind),
            rest == v@.skip(i as int),
            trim_end_by(rest, p) == trim_end_by(rest.take(j - i), p),
        decreases j,
    {
        proof {
            lemma_trim_end_take(rest, p, j - i);
        }
        j = j - 1;
    }
    assert(trim_end_by(rest.take(j - i), p) == rest.take(j - i));
    let r = slice_chars(v, i, j);
    assert(r@ =~= rest.take(j - i));
    r
}

/// `s` with repeated leading `./` removed.
pub open spec fn strip_dot_slash(s: Seq<char>) -> Seq<char>
    decreases s.len(),
{
    if s.len() >= 2 && s[0] == '.' && s[1] == '/' {
        strip_dot_slash(s.skip(2))
    } else {
        s
    }
}

/// `v` with repeated leading `./` removed.
pub fn trim_dot_slash(v: &[char]) -> (r: Vec<char>)
    ensures
        r@ == strip_dot_slash(v@),
{
    let mut i: usize = 0;
    assert(v@.skip(0) =~= v@);
    while i < v.len() && v.len() - i >= 2 && v[i] == '.' && v[i + 1] == '/'
        invariant
            i <= v@.len(),
            strip_dot_slash(v@) == strip_dot_slash(v@.skip(i as int)),
        decreases v@.len() - i,
    {
        assert(v@.skip(i as int).skip(2) =~= v@.skip(i + 2));
        i = i + 2;
    }
    let r = slice_chars(v, i, v.len());
    assert(r@ =~= v@.skip(i as int));
    r
}

/// `s` with every `\` replaced by `/`.
pub open spec fn backslash_to_slash(s: Seq<char>) -> Seq<char> {
    s.map_values(|c: char| if c == '\\' { '/' } else { c })
}

/// `v` with every `\` replaced by `/`.
pub fn replace_backslash(v: &[char]) -> (r: Vec<char>)
    ensures
        r@ == backslash_to_slash(v@),
{
    let mut r: Vec<char> = Vec::new();
    let mut i: usize = 0;
    while i < v.len()
        invariant
            i <= v@.len(),
            r@ =~= backslash_to_slash(v@.take(i as int)),
        decreases v@.len() - i,
    {
        let c = v[i];
        r.push(if c == '\\' { '/' } else { c });
        assert(backslash_to_slash(v@.take(i + 1)) =~= backslash_to_slash(v@.take(i as int)).push(
            if c == '\\' { '/' } else { c },
        ));
        i = i + 1;
    }
    assert(v@.take(v@.len() as int) =~= v@);
    r
}

} // verus!
