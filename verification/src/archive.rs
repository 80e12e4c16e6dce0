//! Rules for unpacking and repacking the PPTX (ZIP) container: which entry names are safe to
//! extract, how media files are ordered and named, and how the archive is written back.

use vstd::prelude::*;
use vstd::utf8::{decode_utf8, valid_utf8};
use crate::gif_opt::{is_top_prefix, top_positions};
use crate::media::MediaInfo;
use crate::text::{chars_of, has_word_prefix, is_word, same_word, starts_with_word, string_from_chars};

verus! {

/// Extensions of formats that are already compressed, compared without regard to ASCII case.
pub open spec fn is_compressed_format_spec(ext: Seq<char>) -> bool {
    ||| same_word(ext, seq!['j', 'p', 'g'])
    ||| same_word(ext, seq!['j', 'p', 'e', 'g'])
    ||| same_word(ext, seq!['p', 'n', 'g'])
    ||| same_word(ext, seq!['g', 'i', 'f'])
    ||| same_word(ext, seq!['m', 'p', '4'])
    ||| same_word(ext, seq!['w', 'm', 'v'])
    ||| same_word(ext, seq!['m', 'o', 'v'])
    ||| same_word(ext, seq!['w', 'e', 'b', 'm'])
    ||| same_word(ext, seq!['m', '4', 'v'])
    ||| same_word(ext, seq!['m', 'p', '3'])
    ||| same_word(ext, seq!['w', 'a', 'v'])
    ||| same_word(ext, seq!['o', 'g', 'g'])
    ||| same_word(ext, seq!['z', 'i', 'p'])
}

/// Check if a file extension names an already-compressed format (don't deflate again).
/// A file without an extension is passed as the empty string.
pub fn is_compressed_format(ext: &str) -> (r: bool)
    ensures
        r == is_compressed_format_spec(ext@),
{
    let v = chars_of(ext);
    is_word(&v, &['j', 'p', 'g']) || is_word(&v, &['j', 'p', 'e', 'g']) || is_word(
        &v,
        &['p', 'n', 'g'],
    ) || is_word(&v, &['g', 'i', 'f']) || is_word(&v, &['m', 'p', '4']) || is_word(
        &v,
        &['w', 'm', 'v'],
    ) || is_word(&v, &['m', 'o', 'v']) || is_word(&v, &['w', 'e', 'b', 'm']) || is_word(
        &v,
        &['m', '4', 'v'],
    ) || is_word(&v, &['m', 'p', '3']) || is_word(&v, &['w', 'a', 'v']) || is_word(
        &v,
        &['o', 'g', 'g'],
    ) || is_word(&v, &['z', 'i', 'p'])
}

/// A thumbnail preview file: its name starts with `thumbnail`, in any ASCII case.
pub fn is_thumbnail_name(name: &str) -> (r: bool)
    ensures
        r == starts_with_word(
            name@,
            seq!['t', 'h', 'u', 'm', 'b', 'n', 'a', 'i', 'l'],
        ),
{
    let v = chars_of(name);
    has_word_prefix(&v, &['t', 'h', 'u', 'm', 'b', 'n', 'a', 'i', 'l'])
}

/// One component of a path, as the platform's path parser classifies it.
#[derive(Debug, Clone, Copy, PartialEq, Eq, Structural)]
pub enum PathPart {
    /// A drive or share prefix (`C:`), on platforms that have them.
    Prefix,
    /// The root separator of an absolute path.
    RootDir,
    /// `.`
    CurDir,
    /// `..`
    ParentDir,
    /// Any other name.
    Normal,
}

/// Directory depth after the first `n` parts, or -1 once the path has left its base or is
/// absolute.
pub open spec fn depth_after(parts: Seq<PathPart>, n: int) -> int
    decreases n,
{
    if n <= 0 {
        0
    } else {
        let d = depth_after(parts, n - 1);
        if d < 0 {
            -1
        } else {
            match parts[n - 1] {
                PathPart::Prefix => -1,
                PathPart::RootDir => -1,
                PathPart::ParentDir => if d == 0 {
                    -1
                } else {
                    d - 1
                },
                PathPart::Normal => d + 1,
                PathPart::CurDir => d,
            }
        }
    }
}

/// The path stays inside the directory it is joined to: it is relative and no `..` climbs
/// above its start.
pub open spec fn is_enclosed_spec(parts: Seq<PathPart>) -> bool {
    depth_after(parts, parts.len() as int) >= 0
}

proof fn lemma_depth_after_nonneg_prefix(parts: Seq<PathPart>, n: int, m: int)
    requires
        0 <= m <= n <= parts.len(),
        depth_after(parts, n) >= 0,
    ensures
        depth_after(parts, m) >= 0,
    decreases n - m,
{
    if m < n {
        lemma_depth_after_nonneg_prefix(parts, n - 1, m);
    }
}

/// Whether an entry path with these components may be extracted (mirrors the usual ZIP
/// "enclosed name" rule).
pub fn is_enclosed(parts: &Vec<PathPart>) -> (r: bool)
    ensures
        r == is_enclosed_spec(parts@),
{
    let mut depth: usize = 0;
    let mut i: usize = 0;
    while i < parts.len()
        invariant
            i <= parts@.len(),
            depth_after(parts@, i as int) == depth as int,
            depth <= i,
        decreases parts@.len() - i,
    {
        match parts[i] {
            PathPart::Prefix => {
                proof {
                    lemma_depth_after_neg_stays(parts@, i + 1, parts@.len() as int);
                }
                return false;
            },
            PathPart::RootDir => {
                proof {
                    lemma_depth_after_neg_stays(parts@, i + 1, parts@.len() as int);
                }
                return false;
            },
            PathPart::ParentDir => {
                if depth == 0 {
                    proof {
                        lemma_depth_after_neg_stays(parts@, i + 1, parts@.len() as int);
                    }
                    return false;
                }
                depth = depth - 1;
            },
            PathPart::Normal => {
                depth = depth + 1;
            },
            PathPart::CurDir => {},
        }
        i = i + 1;
    }
    true
}

proof fn lemma_depth_after_neg_stays(parts: Seq<PathPart>, n: int, m: int)
    requires
        0 <= n <= m <= parts.len(),
        depth_after(parts, n) < 0,
    ensures
        depth_after(parts, m) < 0,
    decreases m - n,
{
    if n < m {
        lemma_depth_after_neg_stays(parts, n, m - 1);
    }
}

/// Decodes bytes as UTF-8 with `String::from_utf8`: `Some` exactly for valid UTF-8, holding the
/// decoded characters.
#[verifier::external_body]
fn utf8_string(bytes: &[u8]) -> (r: Option<String>)
    ensures
        r is Some <==> valid_utf8(bytes@),
        r matches Some(s) ==> s@ == decode_utf8(bytes@),
{
    String::from_utf8(bytes.to_vec()).ok()
}

/// The name an archive entry is extracted under: its raw bytes read as UTF-8 when they are
/// valid UTF-8 (entries without the UTF-8 flag may still hold UTF-8 names), otherwise the name
/// the ZIP reader decoded.
pub fn entry_name(raw: &[u8], decoded: &str) -> (r: String)
    ensures
        valid_utf8(raw@) ==> r@ == decode_utf8(raw@),
        !valid_utf8(raw@) ==> r@ == decoded@,
{
    match utf8_string(raw) {
        Some(s) => s,
        None => String::from_str(decoded),
    }
}

/// The name holds a NUL character.
pub open spec fn has_nul(s: Seq<char>) -> bool {
    s.contains('\0')
}

/// Whether the name holds a NUL character.
pub fn contains_nul(name: &str) -> (r: bool)
    ensures
        r == has_nul(name@),
{
    let v = chars_of(name);
    let mut i: usize = 0;
    while i < v.len()
        invariant
            v@ == name@,
            i <= v@.len(),
            forall|j: int| 0 <= j < i ==> v@[j] != '\0',
        decreases v@.len() - i,
    {
        if v[i] == '\0' {
            return true;
        }
        i = i + 1;
    }
    false
}

/// The path an entry named `name` is extracted to, given the components the platform parses
/// it into: the name itself, unless it holds a NUL character or would leave the extraction
/// directory.
pub fn resolve_entry_path(name: &str, parts: &Vec<PathPart>) -> (r: Option<String>)
    ensures
        r is Some <==> !has_nul(name@) && is_enclosed_spec(parts@),
        r matches Some(p) ==> p@ == name@,
{
    if !contains_nul(name) && is_enclosed(parts) {
        Some(String::from_str(name))
    } else {
        None
    }
}

/// The name holds `..` somewhere.
pub open spec fn has_dot_dot(s: Seq<char>) -> bool {
    exists|i: int| 0 <= i && i + 1 < s.len() && s[i] == '.' && #[trigger] s[i + 1] == '.'
}

/// The name without its leading `/` characters.
pub open spec fn trim_leading_slashes(s: Seq<char>) -> Seq<char>
    decreases s.len(),
{
    if s.len() > 0 && s[0] == '/' {
        trim_leading_slashes(s.drop_first())
    } else {
        s
    }
}

/// A name that, read as a Windows path, is rooted: it starts with a backslash, or names a
/// drive (`C:`). The fallback refuses such names on every platform, on purpose, so that an
/// archive is unpacked alike wherever it is opened.
pub open spec fn windows_rooted(t: Seq<char>) -> bool {
    (t.len() > 0 && t[0] == '\\') || (t.len() > 1 && t[1] == ':')
}

/// The fallback refuses a name.
pub open spec fn fallback_refused(name: Seq<char>) -> bool {
    has_dot_dot(name) || has_nul(name) || windows_rooted(trim_leading_slashes(name))
}

/// The relative name used for an entry whose path is not enclosed: refused (`None`) when it
/// holds `..` or a NUL, or when, without its leading slashes, it starts with a backslash or a
/// drive; otherwise the name with its leading slashes removed.
pub fn fallback_entry_name(name: &str) -> (r: Option<String>)
    ensures
        fallback_refused(name@) ==> r is None,
        !fallback_refused(name@) ==> (r matches Some(s) && s@ == trim_leading_slashes(name@)),
{
    let v = chars_of(name);
    let mut i: usize = 0;
    while i < v.len()
        invariant
            v@ == name@,
            i <= v@.len(),
            forall|j: int| 0 <= j < i ==> v@[j] != '\0',
            forall|j: int| 0 <= j && j + 1 < v@.len() && j + 1 <= i ==> !(v@[j] == '.' && #[trigger] v@[j + 1] == '.'),
        decreases v@.len() - i,
    {
        if v[i] == '\0' {
            assert(v@[i as int] == '\0');
            return None;
        }
        if i + 1 < v.len() && v[i] == '.' && v[i + 1] == '.' {
            return None;
        }
        i = i + 1;
    }
    assert(!has_nul(name@));
    let mut start: usize = 0;
    assert(v@.subrange(0, v@.len() as int) =~= v@);
    while start < v.len() && v[start] == '/'
        invariant
            v@ == name@,
            start <= v@.len(),
            trim_leading_slashes(name@) == trim_leading_slashes(v@.subrange(start as int, v@.len() as int)),
        decreases v@.len() - start,
    {
        assert(v@.subrange(start as int, v@.len() as int).drop_first() =~= v@.subrange(start + 1, v@.len() as int));
        start = start + 1;
    }
    let n = v.len();
    if (start < n && v[start] == '\\') || (n - start > 1 && v[start + 1] == ':') {
        assert(trim_leading_slashes(name@) == v@.subrange(start as int, n as int)) by {
            lemma_trim_done(v@.subrange(start as int, n as int));
        }
        return None;
    }
    let mut out: Vec<char> = Vec::new();
    let mut j: usize = start;
    while j < v.len()
        invariant
            start <= j <= v@.len(),
            out@ == v@.subrange(start as int, j as int),
        decreases v@.len() - j,
    {
        out.push(v[j]);
        assert(out@ =~= v@.subrange(start as int, j + 1));
        j = j + 1;
    }
    assert(v@.subrange(start as int, v@.len() as int).len() == 0 || v@.subrange(start as int, v@.len() as int)[0] != '/');
    proof {
        lemma_trim_done(v@.subrange(start as int, n as int));
    }
    Some(string_from_chars(out.as_slice()))
}

proof fn lemma_trim_done(t: Seq<char>)
    requires
        t.len() == 0 || t[0] != '/',
    ensures
        trim_leading_slashes(t) == t,
{
}

/// A path with every backslash turned into a forward slash.
pub open spec fn forward_slashes(s: Seq<char>) -> Seq<char> {
    s.map_values(|c: char| if c == '\\' { '/' } else { c })
}

/// After the conversion no backslash is left.
pub proof fn law_forward_slashes_no_backslash(path: Seq<char>)
    ensures
        !forward_slashes(path).contains('\\'),
{
    let r = forward_slashes(path);
    assert forall|i: int| 0 <= i < r.len() implies r[i] != '\\' by {
        assert(r[i] == (if path[i] == '\\' { '/' } else { path[i] }));
    };
}

/// The archive-style form of a relative path: backslashes become forward slashes.
pub fn to_forward_slashes(path: &str) -> (r: String)
    ensures
        r@ == forward_slashes(path@),
{
    let v = chars_of(path);
    let mut out: Vec<char> = Vec::new();
    let mut i: usize = 0;
    while i < v.len()
        invariant
            v@ == path@,
            i <= v@.len(),
            out@ == forward_slashes(v@.take(i as int)),
        decreases v@.len() - i,
    {
        let c = if v[i] == '\\' {
            '/'
        } else {
            v[i]
        };
        out.push(c);
        assert(forward_slashes(v@.take(i + 1)) =~= forward_slashes(v@.take(i as int)).push(c));
        i = i + 1;
    }
    assert(v@.take(v@.len() as int) =~= v@);
    string_from_chars(out.as_slice())
}

/// The original sizes of a list of media files.
pub open spec fn sizes_of(media: Seq<MediaInfo>) -> Seq<u128> {
    media.map_values(|m: MediaInfo| m.original_size as u128)
}

/// Orders scanned media by size, largest first (files of equal size keep their order), so that
/// big files are compressed first and progress shows early.
pub fn sort_by_size_desc(media: Vec<MediaInfo>) -> (r: Vec<MediaInfo>)
    ensures
        r@.len() == media@.len(),
        exists|ps: Seq<usize>|
            #[trigger] is_top_prefix(sizes_of(media@), media@.len() as int, ps) && forall|i: int|
                0 <= i < r@.len() ==> #[trigger] r@[i] == media@[ps[i] as int],
{
    let mut sizes: Vec<u128> = Vec::new();
    let mut i: usize = 0;
    while i < media.len()
        invariant
            i <= media@.len(),
            sizes@ == sizes_of(media@.take(i as int)),
        decreases media@.len() - i,
    {
        sizes.push(media[i].original_size as u128);
        assert(sizes_of(media@.take(i + 1)) =~= sizes_of(media@.take(i as int)).push(
            media@[i as int].original_size as u128,
        ));
        i = i + 1;
    }
    assert(media@.take(media@.len() as int) =~= media@);
    let ps = top_positions(&sizes, media.len());
    let mut r: Vec<MediaInfo> = Vec::new();
    let mut k: usize = 0;
    while k < ps.len()
        invariant
            is_top_prefix(sizes@, media@.len() as int, ps@),
            sizes@.len() == media@.len(),
            k <= ps@.len(),
            r@.len() == k,
            forall|j: int| 0 <= j < k ==> #[trigger] r@[j] == media@[ps@[j] as int],
        decreases ps@.len() - k,
    {
        r.push(media[ps[k]].clone_record());
        k = k + 1;
    }
    r
}

} // verus!
