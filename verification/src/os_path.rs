//! File-system paths as the operating system gives them. A path on disk
//! need not be valid UTF-8, so the library carries it as `PathBuf`; what it
//! needs to know of one (its parts relative to a root, its file name and
//! extension) comes from `std::path`, whose answers differ between
//! platforms and are therefore taken as they come.
use crate::text::{chars_of, views};
use vstd::utf8::{decode_utf8, valid_utf8};
use std::path::{Path, PathBuf};
use vstd::prelude::*;

verus! {

/// `std::path::PathBuf`, carried through the library unopened.
#[verifier::external_type_specification]
#[verifier::external_body]
pub struct ExPathBuf(PathBuf);

/// The path rules of the platform the program runs on.
#[derive(Debug, Clone, Copy, PartialEq, Eq, Structural)]
pub enum PathStyle {
    /// Unix: `/` separates components, and a path is absolute when it starts
    /// with `/`.
    Unix,
    /// Windows: `/` and `\` separate components, and drive letters, UNC
    /// shares and verbatim prefixes take part.
    Windows,
}

/// `base` joined with `p` the way `Path::join` does on Unix: a `p` that
/// starts with `/` replaces `base`; otherwise a `/` separates them unless
/// `base` is empty or already ends with one.
pub open spec fn path_join(base: Seq<char>, p: Seq<char>) -> Seq<char> {
    if p.len() > 0 && p[0] == '/' {
        p
    } else if base.len() == 0 || base.last() == '/' {
        base + p
    } else {
        base + seq!['/'] + p
    }
}

/// `PathBuf::clone` (std): the copy is the same path, byte for byte.
#[verifier::external_body]
pub(crate) fn copy_path(p: &PathBuf) -> (r: PathBuf)
    ensures
        r == *p,
{
    p.clone()
}

/// `Path::join` (std) on the running platform, as text. What it gives
/// depends on the platform's path rules (on Windows: prefixes, roots,
/// verbatim paths), so nothing is stated of it here.
#[verifier::external_body]
fn std_join(base: &str, p: &str) -> (r: String) {
    Path::new(base).join(p).to_string_lossy().into_owned()
}

/// `base` joined with `p` by the rules of `style`: for Unix as `path_join`
/// states; for Windows by `Path::join` of the running platform.
pub fn join_path(style: PathStyle, base: &str, p: &str) -> (r: String)
    ensures
        style == PathStyle::Unix ==> r@ == path_join(base@, p@),
{
    match style {
        PathStyle::Windows => std_join(base, p),
        PathStyle::Unix => {
            let pc = chars_of(p);
            let bc = chars_of(base);
            if pc.len() > 0 && pc[0] == '/' {
                return p.to_owned();
            }
            let mut r = base.to_owned();
            if !(bc.len() == 0 || bc[bc.len() - 1] == '/') {
                proof {
                    reveal_strlit("/");
                }
                r.append("/");
            }
            r.append(p);
            r
        },
    }
}

/// The bytes that the OS gives for a path (`OsStr::as_encoded_bytes`: the
/// raw bytes on Unix).
pub uninterp spec fn os_bytes_of(p: PathBuf) -> Seq<u8>;

/// What `String::from_utf8_lossy` makes of the bytes: each maximal invalid
/// sequence replaced by U+FFFD.
pub uninterp spec fn lossy_of(b: Seq<u8>) -> Seq<char>;

/// `OsStr::as_encoded_bytes` (std) of the path, copied. The result is named
/// `os_bytes_of` of the path.
#[verifier::external_body]
pub(crate) fn path_bytes(p: &PathBuf) -> (r: Vec<u8>)
    ensures
        r@ == os_bytes_of(*p),
{
    p.as_os_str().as_encoded_bytes().to_vec()
}

/// `String::from_utf8_lossy` (std), owned. The result is named `lossy_of`
/// of the bytes; bytes that are valid UTF-8 are decoded unchanged, as the
/// documentation says.
#[verifier::external_body]
pub(crate) fn lossy_string(b: &[u8]) -> (r: String)
    ensures
        r@ == lossy_of(b@),
        valid_utf8(b@) ==> r@ == decode_utf8(b@),
{
    String::from_utf8_lossy(b).into_owned()
}

/// Each byte string as `lossy_of` decodes it.
pub open spec fn lossy_each(v: Seq<Seq<u8>>) -> Seq<Seq<char>> {
    v.map_values(|b: Seq<u8>| lossy_of(b))
}

/// The pieces of `s` between `/` bytes, empty ones included.
pub open spec fn byte_pieces(s: Seq<u8>) -> Seq<Seq<u8>>
    decreases s.len(),
{
    if s.len() == 0 {
        seq![Seq::<u8>::empty()]
    } else {
        let p = byte_pieces(s.drop_last());
        if s.last() == 47u8 {
            p.push(Seq::<u8>::empty())
        } else {
            p.update(p.len() - 1, p.last().push(s.last()))
        }
    }
}

/// Whether a piece is a component of its own: neither empty nor `.`.
pub open spec fn kept_piece(x: Seq<u8>) -> bool {
    x.len() > 0 && x != seq![46u8]
}

/// The kept pieces, in order.
pub open spec fn body_parts(ps: Seq<Seq<u8>>) -> Seq<Seq<u8>>
    decreases ps.len(),
{
    if ps.len() == 0 {
        ps
    } else if kept_piece(ps.last()) {
        body_parts(ps.drop_last()).push(ps.last())
    } else {
        body_parts(ps.drop_last())
    }
}

/// The components of a Unix path as `Path::components` yields them, each
/// as its bytes: a leading `/` (the root), or a leading `.` followed by `/`
/// or the end (the current directory), then the pieces between `/` that are
/// neither empty nor `.` (`..` is the parent directory, the rest are names).
pub open spec fn unix_components(p: Seq<u8>) -> Seq<Seq<u8>> {
    let head = if p.len() > 0 && p[0] == 47u8 {
        seq![seq![47u8]]
    } else if p.len() > 0 && p[0] == 46u8 && (p.len() == 1 || p[1] == 47u8) {
        seq![seq![46u8]]
    } else {
        Seq::<Seq<u8>>::empty()
    };
    head + body_parts(byte_pieces(p))
}

/// The components of Unix path `p` after those of `root`, when `root`'s
/// components begin `p`'s (`Path::strip_prefix`, then `components`).
pub open spec fn unix_rel_components(p: Seq<u8>, root: Seq<u8>) -> Option<Seq<Seq<u8>>> {
    let pc = unix_components(p);
    let rc = unix_components(root);
    if rc.is_prefix_of(pc) {
        Some(pc.skip(rc.len() as int))
    } else {
        None
    }
}

/// Whether a component is a name (not the root, `.` or `..`).
pub open spec fn is_name_component(c: Seq<u8>) -> bool {
    c != seq![47u8] && c != seq![46u8] && c != seq![46u8, 46u8]
}

/// The file name of Unix path `p` (`Path::file_name`): its last component
/// when that is a name.
pub open spec fn unix_file_name(p: Seq<u8>) -> Option<Seq<u8>> {
    let c = unix_components(p);
    if c.len() > 0 && is_name_component(c.last()) {
        Some(c.last())
    } else {
        None
    }
}

/// The views of byte vectors.
pub open spec fn byte_views(v: Seq<Vec<u8>>) -> Seq<Seq<u8>> {
    v.map_values(|b: Vec<u8>| b@)
}

/// The components of a Unix path (see `unix_components`).
pub fn unix_components_of(p: &[u8]) -> (r: Vec<Vec<u8>>)
    ensures
        byte_views(r@) == unix_components(p@),
{
    let ghost head = if p@.len() > 0 && p@[0] == 47u8 {
        seq![seq![47u8]]
    } else if p@.len() > 0 && p@[0] == 46u8 && (p@.len() == 1 || p@[1] == 47u8) {
        seq![seq![46u8]]
    } else {
        Seq::<Seq<u8>>::empty()
    };
    let mut out: Vec<Vec<u8>> = Vec::new();
    if p.len() > 0 && p[0] == 47u8 {
        let v: Vec<u8> = vec![47u8];
        assert(v@ =~= seq![47u8]);
        out.push(v);
    } else if p.len() > 0 && p[0] == 46u8 && (p.len() == 1 || p[1] == 47u8) {
        let v: Vec<u8> = vec![46u8];
        assert(v@ =~= seq![46u8]);
        out.push(v);
    }
    assert(byte_views(out@) =~= head);
    let ghost mut xs: Seq<Seq<u8>> = Seq::empty();
    let mut cur: Vec<u8> = Vec::new();
    let mut i: usize = 0;
    assert(p@.take(0) =~= Seq::<u8>::empty());
    assert(byte_pieces(Seq::<u8>::empty()) =~= xs.push(cur@));
    while i < p.len()
        invariant
            i <= p@.len(),
            byte_pieces(p@.take(i as int)) =~= xs.push(cur@),
            byte_views(out@) =~= head + body_parts(xs),
        decreases p@.len() - i,
    {
        let b = p[i];
        assert(p@.take(i + 1).drop_last() =~= p@.take(i as int));
        assert(p@.take(i + 1).last() == b);
        if b == 47u8 {
            if cur.len() > 0 && !(cur.len() == 1 && cur[0] == 46u8) {
                assert(kept_piece(cur@)) by {
                    if cur@ == seq![46u8] {
                        assert(cur@.len() == 1 && cur@[0] == 46u8);
                    }
                }
                let ghost before = out@;
                out.push(cur);
                assert(byte_views(out@) =~= byte_views(before).push(cur@));
                assert(xs.push(cur@).drop_last() =~= xs);
            } else {
                if cur.len() == 1 {
                    assert(cur@ =~= seq![46u8]);
                }
                assert(!kept_piece(cur@));
                assert(xs.push(cur@).drop_last() =~= xs);
            }
            proof {
                xs = xs.push(cur@);
            }
            cur = Vec::new();
        } else {
            proof {
                let pp = xs.push(cur@);
                assert(pp.update(pp.len() - 1, pp.last().push(b)) =~= xs.push(cur@.push(b)));
            }
            cur.push(b);
        }
        i = i + 1;
    }
    assert(p@.take(p@.len() as int) =~= p@);
    assert(xs.push(cur@).drop_last() =~= xs);
    if cur.len() > 0 && !(cur.len() == 1 && cur[0] == 46u8) {
        assert(kept_piece(cur@)) by {
            if cur@ == seq![46u8] {
                assert(cur@.len() == 1 && cur@[0] == 46u8);
            }
        }
        let ghost before = out@;
        out.push(cur);
        assert(byte_views(out@) =~= byte_views(before).push(cur@));
    } else {
        if cur.len() == 1 {
            assert(cur@ =~= seq![46u8]);
        }
        assert(!kept_piece(cur@));
    }
    assert(byte_pieces(p@) =~= xs.push(cur@));
    assert(byte_views(out@) =~= head + body_parts(byte_pieces(p@)));
    out
}

/// Whether two byte strings are equal.
fn bytes_eq(a: &[u8], b: &[u8]) -> (r: bool)
    ensures
        r == (a@ == b@),
{
    if a.len() != b.len() {
        return false;
    }
    let mut i: usize = 0;
    while i < a.len()
        invariant
            i <= a@.len(),
            a@.len() == b@.len(),
            forall|j: int| 0 <= j < i ==> a@[j] == b@[j],
        decreases a@.len() - i,
    {
        if a[i] != b[i] {
            return false;
        }
        i = i + 1;
    }
    assert(a@ =~= b@);
    true
}

/// The components of Unix path `p` after those of `root`, decoded (see
/// `unix_rel_components`).
pub fn unix_rel_components_of(p: &[u8], root: &[u8]) -> (r: Option<Vec<String>>)
    ensures
        match unix_rel_components(p@, root@) {
            Some(cs) => r matches Some(v) && views(v@) == lossy_each(cs),
            None => r is None,
        },
{
    let pc = unix_components_of(p);
    let rc = unix_components_of(root);
    let ghost pv = byte_views(pc@);
    let ghost rv = byte_views(rc@);
    if rc.len() > pc.len() {
        return None;
    }
    let mut k: usize = 0;
    while k < rc.len()
        invariant
            k <= rc@.len() <= pc@.len(),
            pv == byte_views(pc@),
            rv == byte_views(rc@),
            pv == unix_components(p@),
            rv == unix_components(root@),
            forall|j: int| 0 <= j < k ==> rv[j] == pv[j],
        decreases rc@.len() - k,
    {
        if !bytes_eq(rc[k].as_slice(), pc[k].as_slice()) {
            assert(rv[k as int] != pv[k as int]);
            assert(!rv.is_prefix_of(pv)) by {
                if rv.is_prefix_of(pv) {
                    assert(pv.subrange(0, rv.len() as int)[k as int] == pv[k as int]);
                }
            }
            return None;
        }
        k = k + 1;
    }
    assert(rv.is_prefix_of(pv)) by {
        assert(pv.subrange(0, rv.len() as int) =~= rv);
    }
    let mut out: Vec<String> = Vec::new();
    let mut i: usize = rc.len();
    while i < pc.len()
        invariant
            rc@.len() <= i <= pc@.len(),
            pv == byte_views(pc@),
            views(out@) =~= lossy_each(pv.subrange(rc@.len() as int, i as int)),
        decreases pc@.len() - i,
    {
        let ghost before = out@;
        let s = lossy_string(pc[i].as_slice());
        out.push(s);
        assert(views(out@) =~= views(before).push(s@));
        assert(pv.subrange(rc@.len() as int, i + 1) =~= pv.subrange(rc@.len() as int, i as int).push(
            pv[i as int],
        ));
        i = i + 1;
    }
    assert(pv.subrange(rc@.len() as int, pv.len() as int) =~= pv.skip(rc@.len() as int));
    Some(out)
}

/// The file name of Unix path `p`, decoded (see `unix_file_name`).
pub fn unix_file_name_of(p: &[u8]) -> (r: Option<String>)
    ensures
        match unix_file_name(p@) {
            Some(n) => r matches Some(s) && s@ == lossy_of(n),
            None => r is None,
        },
{
    let pc = unix_components_of(p);
    let ghost pv = byte_views(pc@);
    if pc.len() == 0 {
        return None;
    }
    let last = &pc[pc.len() - 1];
    assert(last@ == pv.last());
    let slash: Vec<u8> = vec![47u8];
    let dot: Vec<u8> = vec![46u8];
    let dots: Vec<u8> = vec![46u8, 46u8];
    assert(slash@ =~= seq![47u8]);
    assert(dot@ =~= seq![46u8]);
    assert(dots@ =~= seq![46u8, 46u8]);
    if bytes_eq(last.as_slice(), slash.as_slice()) || bytes_eq(last.as_slice(), dot.as_slice())
        || bytes_eq(last.as_slice(), dots.as_slice()) {
        return None;
    }
    Some(lossy_string(last.as_slice()))
}

/// `Path::strip_prefix` (std): the part of `p` after the components of
/// `root`, if `root`'s components begin `p`'s. Components are parsed by the
/// running platform's rules, so nothing is stated of the result here.
#[verifier::external_body]
pub(crate) fn strip_root(p: &PathBuf, root: &str) -> (r: Option<PathBuf>) {
    match p.strip_prefix(root) {
        Ok(rest) => Some(rest.to_path_buf()),
        Err(_) => None,
    }
}

/// `Path::components` (std), each as text (lossily where it is not UTF-8).
/// Parsed by the running platform's rules; nothing is stated here.
#[verifier::external_body]
pub(crate) fn component_names(p: &PathBuf) -> (r: Vec<String>) {
    p.components().map(|c| c.as_os_str().to_string_lossy().into_owned()).collect()
}

/// `Path::file_name` (std), as text (lossily where it is not UTF-8).
/// Parsed by the running platform's rules; nothing is stated here.
#[verifier::external_body]
pub(crate) fn file_name_of(p: &PathBuf) -> (r: Option<String>) {
    match p.file_name() {
        Some(n) => Some(n.to_string_lossy().into_owned()),
        None => None,
    }
}

} // verus!
