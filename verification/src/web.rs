//! Rules of the HTTP front: which embedded asset a request path names, and
//! the content type sent with a served file.
use crate::text::{chars_of, contains, starts_with, string_of, trim_start_by, slice_chars};
use vstd::prelude::*;

verus! {

/// `s` without its leading `/` characters.
pub open spec fn without_leading_slashes(s: Seq<char>) -> Seq<char> {
    trim_start_by(s, |c: char| c == '/')
}

/// The asset that a request path names: the path without leading `/`, or
/// `index.html` for the root.
pub open spec fn asset_path_of(uri_path: Seq<char>) -> Seq<char> {
    let p = without_leading_slashes(uri_path);
    if p.len() == 0 {
        "index.html"@
    } else {
        p
    }
}

/// The asset that a request path names.
pub fn frontend_asset_path(uri_path: &str) -> (r: String)
    ensures
        r@ == asset_path_of(uri_path@),
{
    let v = chars_of(uri_path);
    let mut i: usize = 0;
    assert(v@.skip(0) =~= v@);
    while i < v.len() && v[i] == '/'
        invariant
            i <= v@.len(),
            v@ == uri_path@,
            without_leading_slashes(v@) == without_leading_slashes(v@.skip(i as int)),
        decreases v@.len() - i,
    {
        assert(v@.skip(i as int).drop_first() =~= v@.skip(i + 1));
        i = i + 1;
    }
    let rest = slice_chars(v.as_slice(), i, v.len());
    assert(rest@ =~= v@.skip(i as int));
    if rest.len() == 0 {
        "index.html".to_owned()
    } else {
        string_of(rest.as_slice())
    }
}

/// Whether an unknown asset path is answered with `index.html` (single-page
/// routing): every path except those under `assets/`.
pub fn falls_back_to_index(asset_path: &str) -> (r: bool)
    ensures
        r == !"assets/"@.is_prefix_of(asset_path@),
{
    !starts_with(chars_of(asset_path).as_slice(), chars_of("assets/").as_slice())
}

/// The content type sent with a file: its MIME type, with
/// `; charset=utf-8` added to a text type that names no charset.
pub open spec fn content_type_of(mime: Seq<char>, is_text: bool) -> Seq<char> {
    if is_text && !crate::text::contains_sub(mime, "charset"@) {
        mime + "; charset=utf-8"@
    } else {
        mime
    }
}

/// The content type sent with a file.
pub fn with_charset(mime: &str, is_text: bool) -> (r: String)
    ensures
        r@ == content_type_of(mime@, is_text),
{
    let mut r = mime.to_owned();
    if is_text && !contains(chars_of(mime).as_slice(), chars_of("charset").as_slice()) {
        r.append("; charset=utf-8");
    }
    r
}

/// The MIME type that `mime_guess` gives for a file extension: the first
/// type it knows for it (letter case ignored), else
/// `application/octet-stream`.
pub uninterp spec fn mime_guess_of(ext: Seq<char>) -> Seq<char>;

/// `mime_guess::from_ext(ext).first_or_octet_stream()`, as text. The result
/// is named `mime_guess_of` of the extension (the crate's table is not
/// restated here); the empty extension has no mapping, so it gives
/// `application/octet-stream`.
#[verifier::external_body]
fn guess_mime(ext: &str) -> (r: String)
    ensures
        r@ == mime_guess_of(ext@),
        ext@.len() == 0 ==> r@ == "application/octet-stream"@,
{
    mime_guess::from_ext(ext).first_or_octet_stream().to_string()
}

/// The MIME type of a file with the given extension (none, or one that is
/// not UTF-8, gives `application/octet-stream`).
pub open spec fn mime_for(ext: Option<Seq<char>>) -> Seq<char> {
    match ext {
        Some(e) => mime_guess_of(e),
        None => "application/octet-stream"@,
    }
}

/// The content type sent with a served file of the given extension: its
/// MIME type, with `; charset=utf-8` added to a `text/` type that names no
/// charset.
pub open spec fn file_content_type(ext: Option<Seq<char>>) -> Seq<char> {
    content_type_of(mime_for(ext), "text/"@.is_prefix_of(mime_for(ext)))
}

/// The content type sent with a served file of the given extension.
pub fn content_type_for(ext: Option<&str>) -> (r: String)
    ensures
        r@ == file_content_type(
            match ext {
                Some(e) => Some(e@),
                None => None,
            },
        ),
{
    let mime = match ext {
        Some(e) => guess_mime(e),
        None => "application/octet-stream".to_owned(),
    };
    let is_text = starts_with(chars_of(mime.as_str()).as_slice(), chars_of("text/").as_slice());
    with_charset(mime.as_str(), is_text)
}

/// A served file gets its MIME type as the content type, and a type under
/// `text/` that names no charset is followed by `; charset=utf-8`: for an
/// extension, the type `mime_guess` gives for it; for none,
/// `application/octet-stream`.
pub proof fn lemma_file_content_type(ext: Option<Seq<char>>)
    ensures
        ({
            let mime = match ext {
                Some(e) => mime_guess_of(e),
                None => "application/octet-stream"@,
            };
            &&& ("text/"@.is_prefix_of(mime) && !crate::text::contains_sub(mime, "charset"@))
                ==> file_content_type(ext) == mime + "; charset=utf-8"@
            &&& !("text/"@.is_prefix_of(mime) && !crate::text::contains_sub(mime, "charset"@))
                ==> file_content_type(ext) == mime
        }),
{
}

} // verus!
