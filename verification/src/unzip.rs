//! Reading ZIP archives (the PPTX itself, and the FFmpeg download) through the `zip` crate:
//! which entries are extracted and where, and which entry holds a program.

use vstd::prelude::*;
use vstd::utf8::{decode_utf8, valid_utf8};
use std::io::{Cursor, Read};
use crate::archive::{
    entry_name, fallback_entry_name, fallback_refused, has_nul, is_enclosed_spec, resolve_entry_path,
    trim_leading_slashes, PathPart,
};
use crate::content_types::{copy_range, find_last_exec, last_segment, lemma_find_last};
use crate::text::{chars_of, string_from_chars};

verus! {

/// One entry of a ZIP archive: its raw name bytes, the name the reader decoded, whether it is a
/// directory, and its (uncompressed) contents.
pub struct ZipEntry {
    pub raw_name: Vec<u8>,
    pub name: String,
    pub is_dir: bool,
    pub data: Vec<u8>,
}

/// An entry as plain values.
pub open spec fn entry_view(e: ZipEntry) -> (Seq<u8>, Seq<char>, bool, Seq<u8>) {
    (e.raw_name@, e.name@, e.is_dir, e.data@)
}

/// The entries that `zip::ZipArchive` reads from an archive, in archive order: raw name,
/// decoded name, directory flag and contents; `None` where opening the archive or reading an
/// entry fails.
pub uninterp spec fn zip_entries(data: Seq<u8>) -> Option<Seq<(Seq<u8>, Seq<char>, bool, Seq<u8>)>>;

/// Reads every entry of an in-memory archive with `zip::ZipArchive::new`, `by_index`,
/// `name_raw`, `name`, `is_dir` and `read_to_end`. The contract claims that reading succeeds
/// exactly where `zip_entries` names entries, and that the entries are those; the error text is
/// the reader's message.
#[verifier::external_body]
fn read_zip(data: &[u8]) -> (r: Result<Vec<ZipEntry>, String>)
    ensures
        r is Ok <==> zip_entries(data@) is Some,
        r matches Ok(v) ==> zip_entries(data@) == Some(v@.map_values(|e: ZipEntry| entry_view(e))),
{
    let mut archive = zip::ZipArchive::new(Cursor::new(data)).map_err(|e| e.to_string())?;
    let mut entries = Vec::new();
    for i in 0..archive.len() {
        let mut f = archive.by_index(i).map_err(|e| e.to_string())?;
        let mut data = Vec::new();
        f.read_to_end(&mut data).map_err(|e| e.to_string())?;
        entries.push(ZipEntry { raw_name: f.name_raw().to_vec(), name: f.name().to_string(), is_dir: f.is_dir(), data });
    }
    Ok(entries)
}

/// A path separator on either platform the tool runs on.
pub open spec fn is_sep(c: char) -> bool {
    c == '/' || c == '\\'
}

/// Index of the first separator at or after `i`, or the length when there is none.
pub open spec fn next_sep(s: Seq<char>, i: int) -> int
    decreases s.len() - i,
{
    if i < 0 || i >= s.len() {
        s.len() as int
    } else if is_sep(s[i]) {
        i
    } else {
        next_sep(s, i + 1)
    }
}

/// The next separator lies between `i` and the end, with none before it.
pub proof fn lemma_next_sep(s: Seq<char>, i: int)
    requires
        0 <= i <= s.len(),
    ensures
        i <= next_sep(s, i) <= s.len(),
        forall|j: int| i <= j < next_sep(s, i) ==> !is_sep(#[trigger] s[j]),
        next_sep(s, i) < s.len() ==> is_sep(s[next_sep(s, i)]),
    decreases s.len() - i,
{
    if i < s.len() && !is_sep(s[i]) {
        lemma_next_sep(s, i + 1);
    }
}

/// The component that a piece of a path between separators makes: none for an empty piece.
pub open spec fn piece_part(p: Seq<char>) -> Option<PathPart> {
    if p.len() == 0 {
        None
    } else if p == seq!['.'] {
        Some(PathPart::CurDir)
    } else if p == seq!['.', '.'] {
        Some(PathPart::ParentDir)
    } else {
        Some(PathPart::Normal)
    }
}

/// The components of the pieces of `s` from `i` on.
pub open spec fn pieces_from(s: Seq<char>, i: int) -> Seq<PathPart>
    decreases s.len() - i,
{
    if i < 0 || i > s.len() {
        seq![]
    } else {
        let e = next_sep(s, i);
        proof {
            lemma_next_sep(s, i);
        }
        let rest = if e < s.len() {
            pieces_from(s, e + 1)
        } else {
            seq![]
        };
        match piece_part(s.subrange(i, e)) {
            Some(p) => seq![p] + rest,
            None => rest,
        }
    }
}

/// The components of an entry name, read so that it is safe on every platform the tool runs
/// on: `/` and `\` both separate; a name that starts with a separator is rooted, one whose
/// second character is `:` names a drive; otherwise each piece is `.`, `..` or a name.
/// This reading is the same on every platform, on purpose: an archive is unpacked alike
/// wherever it is opened, so names that only the Unix path parser would take as ordinary file
/// names (`C:x`, `\x`, `a\..\..\x`) are treated as rooted or climbing, and skipped.
pub open spec fn parts_of(s: Seq<char>) -> Seq<PathPart> {
    if s.len() > 0 && is_sep(s[0]) {
        seq![PathPart::RootDir]
    } else if s.len() > 1 && s[1] == ':' {
        seq![PathPart::Prefix]
    } else {
        pieces_from(s, 0)
    }
}

/// Splits an entry name into its components (see `parts_of`).
pub fn path_parts(name: &str) -> (r: Vec<PathPart>)
    ensures
        r@ == parts_of(name@),
{
    let s = chars_of(name);
    let n = s.len();
    if n > 0 && (s[0] == '/' || s[0] == '\\') {
        return vec![PathPart::RootDir];
    }
    if n > 1 && s[1] == ':' {
        return vec![PathPart::Prefix];
    }
    let mut acc: Vec<PathPart> = Vec::new();
    let mut i: usize = 0;
    assert(acc@ + pieces_from(s@, 0) =~= pieces_from(s@, 0));
    loop
        invariant_except_break
            i <= n,
            acc@ + pieces_from(s@, i as int) == pieces_from(s@, 0),
        invariant
            n == s@.len(),
            s@ == name@,
        ensures
            acc@ == pieces_from(s@, 0),
        decreases n - i,
    {
        let mut e = i;
        while e < n && s[e] != '/' && s[e] != '\\'
            invariant
                i <= e <= n,
                n == s@.len(),
                next_sep(s@, i as int) == next_sep(s@, e as int),
            decreases n - e,
        {
            e = e + 1;
        }
        proof {
            lemma_next_sep(s@, i as int);
        }
        let len = e - i;
        let ghost piece = s@.subrange(i as int, e as int);
        let part = if len == 0 {
            None
        } else if len == 1 && s[i] == '.' {
            assert(piece =~= seq!['.']);
            Some(PathPart::CurDir)
        } else if len == 2 && s[i] == '.' && s[i + 1] == '.' {
            assert(piece =~= seq!['.', '.']);
            Some(PathPart::ParentDir)
        } else {
            assert(len == 1 ==> piece[0] == s@[i as int]);
            assert(len == 2 ==> piece[0] == s@[i as int] && piece[1] == s@[i + 1]);
            Some(PathPart::Normal)
        };
        assert(part == piece_part(piece));
        let ghost before = acc@;
        match part {
            Some(p) => acc.push(p),
            None => {},
        }
        if e < n {
            assert(acc@ + pieces_from(s@, e + 1) =~= before + pieces_from(s@, i as int));
            i = e + 1;
        } else {
            assert(acc@ =~= before + pieces_from(s@, i as int));
            break;
        }
    }
    acc
}

/// The name an entry is known by: its raw bytes where they are valid UTF-8, else the name the
/// reader decoded.
pub open spec fn entry_name_spec(raw: Seq<u8>, decoded: Seq<char>) -> Seq<char> {
    if valid_utf8(raw) {
        decode_utf8(raw)
    } else {
        decoded
    }
}

/// Where an entry is extracted to, relative to the extraction directory: its name when that
/// holds no NUL and stays inside the directory, else the fallback name of the decoded name;
/// `None` (skipped) when both are refused.
pub open spec fn entry_target(e: (Seq<u8>, Seq<char>, bool, Seq<u8>)) -> Option<Seq<char>> {
    let name = entry_name_spec(e.0, e.1);
    if !has_nul(name) && is_enclosed_spec(parts_of(name)) {
        Some(name)
    } else if !fallback_refused(e.1) {
        Some(trim_leading_slashes(e.1))
    } else {
        None
    }
}

/// The extraction of a list of entries, in archive order: (target, is directory, contents) for
/// every entry that has a target.
pub open spec fn extraction_of(es: Seq<(Seq<u8>, Seq<char>, bool, Seq<u8>)>) -> Seq<(Seq<char>, bool, Seq<u8>)>
    decreases es.len(),
{
    if es.len() == 0 {
        seq![]
    } else {
        let prev = extraction_of(es.drop_last());
        match entry_target(es.last()) {
            Some(t) => prev.push((t, es.last().2, es.last().3)),
            None => prev,
        }
    }
}

/// One entry to write when extracting: its path relative to the extraction directory, whether
/// it is a directory, and its contents.
pub struct ExtractItem {
    pub path: String,
    pub is_dir: bool,
    pub data: Vec<u8>,
}

/// An extraction item as plain values.
pub open spec fn item_view(i: ExtractItem) -> (Seq<char>, bool, Seq<u8>) {
    (i.path@, i.is_dir, i.data@)
}

/// What extracting a PPTX writes: every entry whose name is safe (or whose fallback name is),
/// in archive order, with its path, kind and contents. Fails where the archive cannot be read.
pub fn extraction_plan(data: &[u8]) -> (r: Result<Vec<ExtractItem>, String>)
    ensures
        r is Ok <==> zip_entries(data@) is Some,
        r matches Ok(v) ==> zip_entries(data@) matches Some(es) && v@.map_values(|i: ExtractItem| item_view(i))
            == extraction_of(es),
{
    let entries = read_zip(data)?;
    let ghost es = entries@.map_values(|e: ZipEntry| entry_view(e));
    let mut out: Vec<ExtractItem> = Vec::new();
    let mut k: usize = 0;
    while k < entries.len()
        invariant
            k <= entries@.len(),
            es == entries@.map_values(|e: ZipEntry| entry_view(e)),
            out@.map_values(|i: ExtractItem| item_view(i)) == extraction_of(es.take(k as int)),
        decreases entries@.len() - k,
    {
        let e = &entries[k];
        proof {
            assert(es.take(k + 1).drop_last() =~= es.take(k as int));
            assert(es.take(k + 1).last() == entry_view(*e));
        }
        let name = entry_name(e.raw_name.as_slice(), e.name.as_str());
        let parts = path_parts(name.as_str());
        let target = match resolve_entry_path(name.as_str(), &parts) {
            Some(p) => Some(p),
            None => fallback_entry_name(e.name.as_str()),
        };
        assert(name@ == entry_name_spec(e.raw_name@, e.name@));
        let ghost before = out@.map_values(|i: ExtractItem| item_view(i));
        match target {
            Some(p) => {
                let item = ExtractItem { path: p, is_dir: e.is_dir, data: e.data.clone() };
                assert(item.data@ =~= e.data@);
                out.push(item);
                assert(out@.map_values(|i: ExtractItem| item_view(i)) =~= before.push(item_view(item)));
            },
            None => {},
        }
        k = k + 1;
    }
    assert(es.take(entries@.len() as int) =~= es);
    Ok(out)
}

/// The contents of the first file entry (in archive order) whose name ends in the component
/// `bin` (the text after its last `/`).
pub open spec fn binary_in(es: Seq<(Seq<u8>, Seq<char>, bool, Seq<u8>)>, bin: Seq<char>) -> Option<Seq<u8>>
    decreases es.len(),
{
    if es.len() == 0 {
        None
    } else if !es[0].2 && last_segment(es[0].1) == bin {
        Some(es[0].3)
    } else {
        binary_in(es.drop_first(), bin)
    }
}

/// The program `bin` inside a downloaded archive: the contents of the first file entry whose
/// last name component is `bin`; `None` when there is none or the archive cannot be read.
pub fn ffmpeg_binary_in(data: &[u8], bin: &str) -> (r: Option<Vec<u8>>)
    ensures
        match zip_entries(data@) {
            None => r is None,
            Some(es) => match binary_in(es, bin@) {
                Some(b) => r matches Some(v) && v@ == b,
                None => r is None,
            },
        },
{
    let entries = match read_zip(data) {
        Ok(v) => v,
        Err(_) => return None,
    };
    let ghost es = entries@.map_values(|e: ZipEntry| entry_view(e));
    let want = chars_of(bin);
    let slash = ['/'];
    assert(slash@ == seq!['/']);
    let mut k: usize = 0;
    assert(es.skip(0) =~= es);
    while k < entries.len()
        invariant
            k <= entries@.len(),
            es == entries@.map_values(|e: ZipEntry| entry_view(e)),
            want@ == bin@,
            slash@ == seq!['/'],
            zip_entries(data@) == Some(es),
            binary_in(es, bin@) == binary_in(es.skip(k as int), bin@),
        decreases entries@.len() - k,
    {
        let e = &entries[k];
        assert(es.skip(k as int)[0] == entry_view(*e));
        assert(es.skip(k as int).drop_first() =~= es.skip(k + 1));
        if !e.is_dir {
            let name = chars_of(e.name.as_str());
            let seg = match find_last_exec(&name, &slash, name.len()) {
                Some(i) => {
                    proof {
                        lemma_find_last(name@, seq!['/'], name@.len() as int);
                    }
                    let mut v: Vec<char> = Vec::new();
                    copy_range(&name, i + 1, name.len(), &mut v);
                    assert(v@ =~= name@.skip(i + 1));
                    v
                },
                None => name,
            };
            assert(seg@ == last_segment(e.name@));
            if crate::order::vec_chars_eq(&seg, &want) {
                let b = e.data.clone();
                assert(b@ =~= e.data@);
                assert(es.skip(k as int).len() > 0);
                assert(binary_in(es.skip(k as int), bin@) == Some(e.data@));
                return Some(b);
            }
        }
        k = k + 1;
    }
    assert(es.skip(k as int).len() == 0);
    None
}

} // verus!
