//! Keeping `[Content_Types].xml` in step with the media files of an extracted PPTX: stale PNG
//! overrides for files that are gone are taken out, and JPEG files get an override of their own.

use vstd::prelude::*;
use crate::text::{chars_of, string_from_chars};
use crate::order::vec_chars_eq;

verus! {

/// `pat` occurs in `s` at `i`.
pub open spec fn matches_at(s: Seq<char>, pat: Seq<char>, i: int) -> bool {
    0 <= i && i + pat.len() <= s.len() && s.subrange(i, i + pat.len()) == pat
}

/// The first index at or after `from` where `pat` occurs in `s`.
pub open spec fn find_from(s: Seq<char>, pat: Seq<char>, from: int) -> Option<int>
    decreases s.len() - from,
{
    if from < 0 || from >= s.len() || from + pat.len() > s.len() {
        None
    } else if matches_at(s, pat, from) {
        Some(from)
    } else {
        find_from(s, pat, from + 1)
    }
}

/// The last index below `end` where `pat` occurs in `s`.
pub open spec fn find_last_below(s: Seq<char>, pat: Seq<char>, end: int) -> Option<int>
    decreases end,
{
    if end <= 0 {
        None
    } else if matches_at(s, pat, end - 1) {
        Some(end - 1)
    } else {
        find_last_below(s, pat, end - 1)
    }
}

/// `find_from` gives the first occurrence at or after `from`.
pub proof fn lemma_find_from(s: Seq<char>, pat: Seq<char>, from: int)
    requires
        0 <= from,
        pat.len() > 0,
    ensures
        match find_from(s, pat, from) {
            Some(i) => from <= i < s.len() && matches_at(s, pat, i) && forall|j: int|
                from <= j < i ==> !matches_at(s, pat, j),
            None => forall|j: int| from <= j ==> !matches_at(s, pat, j),
        },
    decreases s.len() - from,
{
    if from >= s.len() || from + pat.len() > s.len() {
    } else if matches_at(s, pat, from) {
    } else {
        lemma_find_from(s, pat, from + 1);
    }
}

/// `<Override`
pub open spec fn tag_open() -> Seq<char> {
    seq!['<', 'O', 'v', 'e', 'r', 'r', 'i', 'd', 'e']
}

/// `/>`
pub open spec fn tag_close() -> Seq<char> {
    seq!['/', '>']
}

/// `image/png`
pub open spec fn png_type() -> Seq<char> {
    seq!['i', 'm', 'a', 'g', 'e', '/', 'p', 'n', 'g']
}

/// `PartName="`
pub open spec fn part_attr() -> Seq<char> {
    seq!['P', 'a', 'r', 't', 'N', 'a', 'm', 'e', '=', '"']
}

/// `/ppt/media/`
pub open spec fn media_prefix() -> Seq<char> {
    seq!['/', 'p', 'p', 't', '/', 'm', 'e', 'd', 'i', 'a', '/']
}

/// `</Types>`
pub open spec fn types_close() -> Seq<char> {
    seq!['<', '/', 'T', 'y', 'p', 'e', 's', '>']
}

/// The `<Override .../>` tags of `s` from `pos` on, as (start, end) ranges: each starts at the
/// next `<Override` and ends after the first `/>` that follows it; the scan stops at a tag
/// that is not closed.
pub open spec fn tags_from(s: Seq<char>, pos: int) -> Seq<(int, int)>
    decreases s.len() - pos,
{
    if pos < 0 || pos >= s.len() {
        seq![]
    } else {
        match find_from(s, tag_open(), pos) {
            None => seq![],
            Some(a) => match find_from(s, tag_close(), a) {
                None => seq![],
                Some(e) => {
                    proof {
                        lemma_find_from(s, tag_open(), pos);
                        lemma_find_from(s, tag_close(), a);
                    }
                    seq![(a, e + 2)] + tags_from(s, e + 2)
                },
            },
        }
    }
}

/// The ranges lie within `lo..hi`, each ends where it may, and none overlaps a later one.
pub open spec fn ordered_ranges(r: Seq<(int, int)>, lo: int, hi: int) -> bool {
    &&& forall|k: int| 0 <= k < r.len() ==> lo <= (#[trigger] r[k]).0 <= r[k].1 <= hi
    &&& forall|k: int, l: int| 0 <= k < l < r.len() ==> (#[trigger] r[k]).1 <= (#[trigger] r[l]).0
}

proof fn lemma_tags_ordered(s: Seq<char>, pos: int)
    requires
        0 <= pos,
    ensures
        ordered_ranges(tags_from(s, pos), pos, s.len() as int),
    decreases s.len() - pos,
{
    if pos >= s.len() {
    } else {
        lemma_find_from(s, tag_open(), pos);
        match find_from(s, tag_open(), pos) {
            None => {},
            Some(a) => {
                lemma_find_from(s, tag_close(), a);
                match find_from(s, tag_close(), a) {
                    None => {},
                    Some(e) => {
                        lemma_tags_ordered(s, e + 2);
                        let rest = tags_from(s, e + 2);
                        let r = tags_from(s, pos);
                        assert(r == seq![(a, e + 2)] + rest);
                        assert forall|k: int, l: int| 0 <= k < l < r.len() implies (#[trigger] r[k]).1 <= (#[trigger] r[l]).0 by {
                            if k > 0 {
                                assert(r[k] == rest[k - 1]);
                            }
                            assert(r[l] == rest[l - 1]);
                        };
                        assert forall|k: int| 0 <= k < r.len() implies pos <= (#[trigger] r[k]).0 <= r[k].1 <= s.len() by {
                            if k > 0 {
                                assert(r[k] == rest[k - 1]);
                            }
                        };
                    },
                }
            },
        }
    }
}

/// Whether `pat` occurs in `s` at `i`.
fn matches_exec(s: &Vec<char>, pat: &[char], i: usize) -> (r: bool)
    requires
        i + pat@.len() <= s@.len(),
    ensures
        r == matches_at(s@, pat@, i as int),
{
    let n = s.len();
    let mut k: usize = 0;
    while k < pat.len()
        invariant
            n == s@.len(),
            k <= pat@.len(),
            i + pat@.len() <= s@.len(),
            forall|m: int| 0 <= m < k ==> s@[i + m] == pat@[m],
        decreases pat@.len() - k,
    {
        if s[i + k] != pat[k] {
            assert(s@.subrange(i as int, i + pat@.len())[k as int] != pat@[k as int]);
            return false;
        }
        k = k + 1;
    }
    assert(s@.subrange(i as int, i + pat@.len()) =~= pat@);
    true
}

/// The first index at or after `from` where `pat` occurs in `s`.
fn find_exec(s: &Vec<char>, pat: &[char], from: usize) -> (r: Option<usize>)
    requires
        from <= s@.len(),
    ensures
        match r {
            Some(i) => find_from(s@, pat@, from as int) == Some(i as int),
            None => find_from(s@, pat@, from as int) is None,
        },
{
    let mut i = from;
    while i < s.len() && pat.len() <= s.len() - i
        invariant
            from <= i <= s@.len(),
            find_from(s@, pat@, from as int) == find_from(s@, pat@, i as int),
        decreases s@.len() - i,
    {
        if matches_exec(s, pat, i) {
            return Some(i);
        }
        i = i + 1;
    }
    None
}

/// The last index below `end` where `pat` occurs in `s`.
pub(crate) fn find_last_exec(s: &Vec<char>, pat: &[char], end: usize) -> (r: Option<usize>)
    requires
        end <= s@.len(),
    ensures
        match r {
            Some(i) => find_last_below(s@, pat@, end as int) == Some(i as int),
            None => find_last_below(s@, pat@, end as int) is None,
        },
{
    let mut e = end;
    while e > 0
        invariant
            e <= end,
            end <= s@.len(),
            find_last_below(s@, pat@, end as int) == find_last_below(s@, pat@, e as int),
        decreases e,
    {
        if pat.len() <= s.len() - (e - 1) && matches_exec(s, pat, e - 1) {
            return Some(e - 1);
        }
        e = e - 1;
    }
    None
}

/// The characters of `s` from `from` to `to`.
pub(crate) fn copy_range(s: &Vec<char>, from: usize, to: usize, out: &mut Vec<char>)
    requires
        from <= to <= s@.len(),
    ensures
        final(out)@ == old(out)@ + s@.subrange(from as int, to as int),
{
    let ghost start = out@;
    let mut i = from;
    while i < to
        invariant
            from <= i <= to <= s@.len(),
            out@ == start + s@.subrange(from as int, i as int),
        decreases to - i,
    {
        out.push(s[i]);
        proof {
            assert(s@.subrange(from as int, i + 1) =~= s@.subrange(from as int, i as int).push(s@[i as int]));
        }
        i = i + 1;
    }
}

/// The `<Override .../>` tag ranges of `s`.
fn tag_ranges(s: &Vec<char>) -> (r: Vec<(usize, usize)>)
    ensures
        r@.len() == tags_from(s@, 0).len(),
        forall|k: int| 0 <= k < r@.len() ==> (#[trigger] r@[k]).0 as int == tags_from(s@, 0)[k].0
            && r@[k].1 as int == tags_from(s@, 0)[k].1,
{
    let open = ['<', 'O', 'v', 'e', 'r', 'r', 'i', 'd', 'e'];
    let close = ['/', '>'];
    assert(open@ == tag_open());
    assert(close@ == tag_close());
    let mut r: Vec<(usize, usize)> = Vec::new();
    let mut pos: usize = 0;
    let ghost whole = tags_from(s@, 0);
    while pos < s.len()
        invariant
            pos <= s@.len(),
            open@ == tag_open(),
            close@ == tag_close(),
            whole == tags_from(s@, 0),
            r@.len() + tags_from(s@, pos as int).len() == whole.len(),
            forall|k: int| 0 <= k < r@.len() ==> (#[trigger] r@[k]).0 as int == whole[k].0
                && r@[k].1 as int == whole[k].1,
            forall|k: int| 0 <= k < tags_from(s@, pos as int).len() ==> whole[r@.len() + k]
                == #[trigger] tags_from(s@, pos as int)[k],
        decreases s@.len() - pos,
    {
        let ghost rest = tags_from(s@, pos as int);
        proof {
            lemma_find_from(s@, tag_open(), pos as int);
        }
        match find_exec(s, &open, pos) {
            None => {
                return r;
            },
            Some(a) => match find_exec(s, &close, a) {
                None => {
                    return r;
                },
                Some(e) => {
                    proof {
                        lemma_find_from(s@, tag_close(), a as int);
                        assert(rest == seq![(a as int, e + 2)] + tags_from(s@, e + 2));
                        assert(rest[0] == (a as int, e + 2));
                        assert forall|k: int| 0 <= k < tags_from(s@, e + 2).len() implies whole[r@.len() + 1 + k]
                            == #[trigger] tags_from(s@, e + 2)[k] by {
                            assert(rest[k + 1] == tags_from(s@, e + 2)[k]);
                        };
                    }
                    r.push((a, e + 2));
                    pos = e + 2;
                },
            },
        }
    }
    r
}

/// The `PartName="..."` values of a tag `t` from `pos` on, in order: each `PartName="` found
/// from the previous one plus one gives the text up to the next `"`; an unterminated value is
/// passed over.
pub open spec fn part_names_from(t: Seq<char>, pos: int) -> Seq<Seq<char>>
    decreases t.len() - pos,
{
    if pos < 0 || pos >= t.len() {
        seq![]
    } else {
        match find_from(t, part_attr(), pos) {
            None => seq![],
            Some(p) => {
                proof {
                    lemma_find_from(t, part_attr(), pos);
                }
                let rest = part_names_from(t, p + 1);
                match find_from(t, seq!['"'], p + 10) {
                    Some(q) => seq![t.subrange(p + 10, q)] + rest,
                    None => rest,
                }
            },
        }
    }
}

/// The text after the last `/` of `p` (all of `p` when it has none).
pub open spec fn last_segment(p: Seq<char>) -> Seq<char> {
    match find_last_below(p, seq!['/'], p.len() as int) {
        Some(i) => p.skip(i + 1),
        None => p,
    }
}

/// The file names of the part names that lie under `/ppt/media/`, in order.
pub open spec fn media_file_names(parts: Seq<Seq<char>>) -> Seq<Seq<char>>
    decreases parts.len(),
{
    if parts.len() == 0 {
        seq![]
    } else {
        let prev = media_file_names(parts.drop_last());
        if media_prefix().is_prefix_of(parts.last()) {
            prev.push(last_segment(parts.last()))
        } else {
            prev
        }
    }
}

/// A tag that declares `image/png` and names at least one part.
pub open spec fn png_tag(t: Seq<char>) -> bool {
    find_from(t, png_type(), 0) is Some && find_from(t, part_attr(), 0) is Some
}

/// The PNG overrides among `tags` of `s`: start, end and the media file names they name.
pub open spec fn png_overrides_of(s: Seq<char>, tags: Seq<(int, int)>) -> Seq<(int, int, Seq<Seq<char>>)>
    decreases tags.len(),
{
    if tags.len() == 0 {
        seq![]
    } else {
        let prev = png_overrides_of(s, tags.drop_last());
        let (a, e) = tags.last();
        let t = s.subrange(a, e);
        if png_tag(t) {
            prev.push((a, e, media_file_names(part_names_from(t, 0))))
        } else {
            prev
        }
    }
}

/// The PNG overrides of a `[Content_Types].xml` text.
pub open spec fn png_overrides(s: Seq<char>) -> Seq<(int, int, Seq<Seq<char>>)> {
    png_overrides_of(s, tags_from(s, 0))
}

/// A PNG override tag of `[Content_Types].xml`: where it stands (character positions) and the
/// files under `ppt/media/` that it names.
pub struct OverrideTag {
    pub start: usize,
    pub end: usize,
    pub media_files: Vec<String>,
}

/// The text of a list of strings.
pub open spec fn strings_view(v: Seq<String>) -> Seq<Seq<char>> {
    v.map_values(|f: String| f@)
}

/// The text of a list of character vectors.
pub open spec fn chars_view(v: Seq<Vec<char>>) -> Seq<Seq<char>> {
    v.map_values(|f: Vec<char>| f@)
}

/// An override tag as positions and file names.
pub open spec fn override_view(t: OverrideTag) -> (int, int, Seq<Seq<char>>) {
    (t.start as int, t.end as int, strings_view(t.media_files@))
}

/// The part names of a tag.
fn part_names_exec(t: &Vec<char>) -> (r: Vec<Vec<char>>)
    ensures
        chars_view(r@) == part_names_from(t@, 0),
{
    let attr = ['P', 'a', 'r', 't', 'N', 'a', 'm', 'e', '=', '"'];
    let quote = ['"'];
    assert(attr@ == part_attr());
    assert(quote@ == seq!['"']);
    let mut acc: Vec<Vec<char>> = Vec::new();
    let mut pos: usize = 0;
    while pos < t.len()
        invariant
            pos <= t@.len(),
            attr@ == part_attr(),
            quote@ == seq!['"'],
            chars_view(acc@) + part_names_from(t@, pos as int) == part_names_from(t@, 0),
        decreases t@.len() - pos,
    {
        proof {
            lemma_find_from(t@, part_attr(), pos as int);
        }
        match find_exec(t, &attr, pos) {
            None => {
                assert(part_names_from(t@, pos as int) =~= seq![]);
                assert(chars_view(acc@) + seq![] =~= chars_view(acc@));
                return acc;
            },
            Some(p) => {
                let ghost before = chars_view(acc@);
                let ghost rest = part_names_from(t@, p + 1);
                match find_exec(t, &quote, p + 10) {
                    Some(q) => {
                        proof {
                            lemma_find_from(t@, seq!['"'], p + 10);
                        }
                        let mut v: Vec<char> = Vec::new();
                        copy_range(t, p + 10, q, &mut v);
                        acc.push(v);
                        proof {
                            assert(chars_view(acc@) =~= before.push(t@.subrange(p + 10, q as int)));
                            assert(before + (seq![t@.subrange(p + 10, q as int)] + rest) =~= before.push(
                                t@.subrange(p + 10, q as int),
                            ) + rest);
                        }
                    },
                    None => {},
                }
                pos = p + 1;
            },
        }
    }
    assert(part_names_from(t@, pos as int) =~= seq![]);
    assert(chars_view(acc@) + seq![] =~= chars_view(acc@));
    acc
}

/// The file names that part names give under `/ppt/media/`.
fn media_files_exec(parts: &Vec<Vec<char>>) -> (r: Vec<String>)
    ensures
        strings_view(r@) == media_file_names(chars_view(parts@)),
{
    let prefix = ['/', 'p', 'p', 't', '/', 'm', 'e', 'd', 'i', 'a', '/'];
    let slash = ['/'];
    assert(prefix@ == media_prefix());
    assert(slash@ == seq!['/']);
    let mut out: Vec<String> = Vec::new();
    let mut k: usize = 0;
    while k < parts.len()
        invariant
            k <= parts@.len(),
            prefix@ == media_prefix(),
            slash@ == seq!['/'],
            strings_view(out@) == media_file_names(chars_view(parts@).take(k as int)),
        decreases parts@.len() - k,
    {
        let p = &parts[k];
        let ghost all = chars_view(parts@);
        proof {
            assert(all.take(k + 1).drop_last() =~= all.take(k as int));
            assert(all.take(k + 1).last() == p@);
        }
        if prefix.len() <= p.len() && matches_exec(p, &prefix, 0) {
            assert(media_prefix().is_prefix_of(p@));
            let seg = match find_last_exec(p, &slash, p.len()) {
                Some(i) => {
                    let mut v: Vec<char> = Vec::new();
                    proof {
                        lemma_find_last(p@, seq!['/'], p@.len() as int);
                    }
                    copy_range(p, i + 1, p.len(), &mut v);
                    assert(v@ =~= p@.skip(i + 1));
                    v
                },
                None => {
                    let mut v: Vec<char> = Vec::new();
                    copy_range(p, 0, p.len(), &mut v);
                    assert(v@ =~= p@);
                    v
                },
            };
            let name = string_from_chars(seg.as_slice());
            out.push(name);
            assert(strings_view(out@) =~= media_file_names(all.take(k as int)).push(last_segment(p@)));
        } else {
            assert(!media_prefix().is_prefix_of(p@)) by {
                if media_prefix().is_prefix_of(p@) {
                    assert(p@.subrange(0, 11) =~= media_prefix());
                }
            }
        }
        k = k + 1;
    }
    assert(chars_view(parts@).take(parts@.len() as int) =~= chars_view(parts@));
    out
}

/// `find_last_below` gives an occurrence below `end`.
pub(crate) proof fn lemma_find_last(s: Seq<char>, pat: Seq<char>, end: int)
    ensures
        find_last_below(s, pat, end) matches Some(i) ==> i < end && matches_at(s, pat, i),
    decreases end,
{
    if end > 0 && !matches_at(s, pat, end - 1) {
        lemma_find_last(s, pat, end - 1);
    }
}

/// The PNG override tags of a `[Content_Types].xml` text, with the media files they name.
pub fn png_media_overrides(content: &str) -> (r: Vec<OverrideTag>)
    ensures
        r@.map_values(|t: OverrideTag| override_view(t)) == png_overrides(content@),
{
    let s = chars_of(content);
    png_overrides_exec(&s)
}

fn png_overrides_exec(s: &Vec<char>) -> (r: Vec<OverrideTag>)
    ensures
        r@.map_values(|t: OverrideTag| override_view(t)) == png_overrides(s@),
{
    let png = ['i', 'm', 'a', 'g', 'e', '/', 'p', 'n', 'g'];
    let attr = ['P', 'a', 'r', 't', 'N', 'a', 'm', 'e', '=', '"'];
    assert(png@ == png_type());
    assert(attr@ == part_attr());
    let ranges = tag_ranges(s);
    let ghost whole = tags_from(s@, 0);
    proof {
        lemma_tags_ordered(s@, 0);
    }
    let mut out: Vec<OverrideTag> = Vec::new();
    let mut k: usize = 0;
    while k < ranges.len()
        invariant
            k <= ranges@.len(),
            png@ == png_type(),
            attr@ == part_attr(),
            whole == tags_from(s@, 0),
            ordered_ranges(whole, 0, s@.len() as int),
            ranges@.len() == whole.len(),
            forall|m: int| 0 <= m < ranges@.len() ==> (#[trigger] ranges@[m]).0 as int == whole[m].0
                && ranges@[m].1 as int == whole[m].1,
            out@.map_values(|t: OverrideTag| override_view(t)) == png_overrides_of(s@, whole.take(k as int)),
        decreases ranges@.len() - k,
    {
        let (a, e) = ranges[k];
        proof {
            assert(whole[k as int] == (a as int, e as int));
            assert(whole.take(k + 1).drop_last() =~= whole.take(k as int));
            assert(whole.take(k + 1).last() == (a as int, e as int));
        }
        let mut t: Vec<char> = Vec::new();
        copy_range(s, a, e, &mut t);
        let has_png = find_exec(&t, &png, 0).is_some();
        let has_attr = find_exec(&t, &attr, 0).is_some();
        if has_png && has_attr {
            let names = part_names_exec(&t);
            let files = media_files_exec(&names);
            let ghost before = out@.map_values(|t: OverrideTag| override_view(t));
            out.push(OverrideTag { start: a, end: e, media_files: files });
            assert(out@.map_values(|t: OverrideTag| override_view(t)) =~= before.push(
                (a as int, e as int, media_file_names(part_names_from(t@, 0))),
            ));
        }
        k = k + 1;
    }
    assert(whole.take(ranges@.len() as int) =~= whole);
    out
}

/// Tag `i` is stale: some file it names is reported missing (`present[i][j]` false).
pub open spec fn is_stale(files: Seq<Seq<char>>, present: Seq<Seq<bool>>, i: int) -> bool {
    0 <= i < present.len() && exists|j: int| 0 <= j < files.len() && j < present[i].len() && !present[i][j]
}

/// The ranges of the stale tags, in order.
pub open spec fn stale_ranges(tags: Seq<(int, int, Seq<Seq<char>>)>, present: Seq<Seq<bool>>) -> Seq<(int, int)>
    decreases tags.len(),
{
    if tags.len() == 0 {
        seq![]
    } else {
        let prev = stale_ranges(tags.drop_last(), present);
        let t = tags.last();
        if is_stale(t.2, present, tags.len() - 1) {
            prev.push((t.0, t.1))
        } else {
            prev
        }
    }
}

/// `s` from `from` on with the (ordered) ranges taken out.
pub open spec fn cut(s: Seq<char>, ranges: Seq<(int, int)>, from: int) -> Seq<char>
    decreases ranges.len(),
{
    if ranges.len() == 0 {
        s.subrange(from, s.len() as int)
    } else {
        s.subrange(from, ranges[0].0) + cut(s, ranges.drop_first(), ranges[0].1)
    }
}

/// The positions of override triples.
pub open spec fn ranges_of(o: Seq<(int, int, Seq<Seq<char>>)>) -> Seq<(int, int)> {
    o.map_values(|x: (int, int, Seq<Seq<char>>)| (x.0, x.1))
}

proof fn lemma_ordered_drop_last(r: Seq<(int, int)>, lo: int, hi: int)
    requires
        r.len() > 0,
        ordered_ranges(r, lo, hi),
    ensures
        ordered_ranges(r.drop_last(), lo, r.last().0),
{
    let d = r.drop_last();
    assert forall|k: int| 0 <= k < d.len() implies lo <= (#[trigger] d[k]).0 <= d[k].1 <= r.last().0 by {
        assert(d[k] == r[k]);
        assert(r[k].1 <= r[r.len() - 1].0);
    };
    assert forall|k: int, l: int| 0 <= k < l < d.len() implies (#[trigger] d[k]).1 <= (#[trigger] d[l]).0 by {
        assert(d[k] == r[k] && d[l] == r[l]);
    };
}

proof fn lemma_ordered_push(r: Seq<(int, int)>, lo: int, mid: int, x: (int, int), hi: int)
    requires
        ordered_ranges(r, lo, mid),
        lo <= mid <= x.0 <= x.1 <= hi,
    ensures
        ordered_ranges(r.push(x), lo, hi),
{
    let p = r.push(x);
    assert forall|k: int| 0 <= k < p.len() implies lo <= (#[trigger] p[k]).0 <= p[k].1 <= hi by {
        if k < r.len() {
            assert(p[k] == r[k]);
        } else {
            assert(p[k] == x);
        }
    };
    assert forall|k: int, l: int| 0 <= k < l < p.len() implies (#[trigger] p[k]).1 <= (#[trigger] p[l]).0 by {
        assert(p[k] == r[k]);
        if l < r.len() {
            assert(p[l] == r[l]);
        }
    };
}

proof fn lemma_png_overrides_ordered(s: Seq<char>, tags: Seq<(int, int)>, lo: int, hi: int)
    requires
        ordered_ranges(tags, lo, hi),
    ensures
        ordered_ranges(ranges_of(png_overrides_of(s, tags)), lo, hi),
    decreases tags.len(),
{
    if tags.len() == 0 {
        assert(ranges_of(png_overrides_of(s, tags)) =~= seq![]);
    } else {
        lemma_ordered_drop_last(tags, lo, hi);
        lemma_png_overrides_ordered(s, tags.drop_last(), lo, tags.last().0);
        let prev = png_overrides_of(s, tags.drop_last());
        let (a, e) = tags.last();
        assert(tags[tags.len() - 1] == tags.last());
        if png_tag(s.subrange(a, e)) {
            let x = (a, e, media_file_names(part_names_from(s.subrange(a, e), 0)));
            assert(ranges_of(prev.push(x)) =~= ranges_of(prev).push((a, e)));
            lemma_ordered_push(ranges_of(prev), lo, tags.last().0, (a, e), hi);
        } else {
            lemma_ordered_widen(ranges_of(prev), lo, tags.last().0, hi);
        }
    }
}

proof fn lemma_ordered_widen(r: Seq<(int, int)>, lo: int, mid: int, hi: int)
    requires
        ordered_ranges(r, lo, mid),
        mid <= hi,
    ensures
        ordered_ranges(r, lo, hi),
{
}

proof fn lemma_stale_ordered(tags: Seq<(int, int, Seq<Seq<char>>)>, present: Seq<Seq<bool>>, lo: int, hi: int)
    requires
        ordered_ranges(ranges_of(tags), lo, hi),
    ensures
        ordered_ranges(stale_ranges(tags, present), lo, hi),
    decreases tags.len(),
{
    if tags.len() > 0 {
        let r = ranges_of(tags);
        lemma_ordered_drop_last(r, lo, hi);
        assert(ranges_of(tags.drop_last()) =~= r.drop_last());
        lemma_stale_ordered(tags.drop_last(), present, lo, r.last().0);
        let prev = stale_ranges(tags.drop_last(), present);
        let t = tags.last();
        assert(r.last() == (t.0, t.1));
        assert(r[r.len() - 1] == r.last());
        if is_stale(t.2, present, tags.len() - 1) {
            lemma_ordered_push(prev, lo, r.last().0, (t.0, t.1), hi);
        } else {
            lemma_ordered_widen(prev, lo, r.last().0, hi);
        }
    }
}

/// The ranges of the stale PNG overrides of a text, by the files reported present.
fn stale_ranges_exec(tags: &Vec<OverrideTag>, present: &Vec<Vec<bool>>) -> (r: Vec<(usize, usize)>)
    ensures
        r@.len() == stale_ranges(tags@.map_values(|t: OverrideTag| override_view(t)), bools_view(present@)).len(),
        forall|k: int| 0 <= k < r@.len() ==> (#[trigger] r@[k]).0 as int == stale_ranges(
            tags@.map_values(|t: OverrideTag| override_view(t)),
            bools_view(present@),
        )[k].0 && r@[k].1 as int == stale_ranges(
            tags@.map_values(|t: OverrideTag| override_view(t)),
            bools_view(present@),
        )[k].1,
{
    let ghost all = tags@.map_values(|t: OverrideTag| override_view(t));
    let ghost pres = bools_view(present@);
    let mut out: Vec<(usize, usize)> = Vec::new();
    let mut i: usize = 0;
    while i < tags.len()
        invariant
            i <= tags@.len(),
            all == tags@.map_values(|t: OverrideTag| override_view(t)),
            pres == bools_view(present@),
            out@.len() == stale_ranges(all.take(i as int), pres).len(),
            forall|k: int| 0 <= k < out@.len() ==> (#[trigger] out@[k]).0 as int == stale_ranges(
                all.take(i as int),
                pres,
            )[k].0 && out@[k].1 as int == stale_ranges(all.take(i as int), pres)[k].1,
        decreases tags@.len() - i,
    {
        let tag = &tags[i];
        proof {
            assert(all.take(i + 1).drop_last() =~= all.take(i as int));
            assert(all.take(i + 1).last() == override_view(*tag));
        }
        let mut stale = false;
        if i < present.len() {
            let row = &present[i];
            let mut j: usize = 0;
            while j < tag.media_files.len() && j < row.len()
                invariant
                    j <= tag.media_files@.len(),
                    i < present@.len(),
                    row@ == pres[i as int],
                    pres == bools_view(present@),
                    stale ==> is_stale(override_view(*tag).2, pres, i as int),
                    !stale ==> forall|m: int| 0 <= m < j ==> pres[i as int][m],
                decreases tag.media_files@.len() - j,
            {
                if !row[j] {
                    stale = true;
                    assert(!pres[i as int][j as int]);
                }
                j = j + 1;
            }
            assert(!stale ==> !is_stale(override_view(*tag).2, pres, i as int)) by {
                if !stale && is_stale(override_view(*tag).2, pres, i as int) {
                    let m = choose|m: int| 0 <= m < override_view(*tag).2.len() && m < pres[i as int].len() && !pres[i as int][m];
                    assert(override_view(*tag).2.len() == tag.media_files@.len());
                }
            };
        }
        let ghost before = out@;
        if stale {
            out.push((tag.start, tag.end));
        }
        proof {
            let prev = stale_ranges(all.take(i as int), pres);
            let now = stale_ranges(all.take(i + 1), pres);
            if stale {
                assert(now == prev.push((tag.start as int, tag.end as int)));
                assert forall|k: int| 0 <= k < out@.len() implies (#[trigger] out@[k]).0 as int == now[k].0 && out@[k].1 as int == now[k].1 by {
                    if k < before.len() {
                        assert(out@[k] == before[k]);
                    }
                };
            } else {
                assert(now == prev);
            }
        }
        i = i + 1;
    }
    assert(all.take(tags@.len() as int) =~= all);
    out
}

/// The reported presence of files, as sequences.
pub open spec fn bools_view(v: Seq<Vec<bool>>) -> Seq<Seq<bool>> {
    v.map_values(|r: Vec<bool>| r@)
}

/// `s` with the ordered ranges taken out.
fn cut_exec(s: &Vec<char>, ranges: &Vec<(usize, usize)>, ghost_ranges: Ghost<Seq<(int, int)>>) -> (r: Vec<char>)
    requires
        ranges@.len() == ghost_ranges@.len(),
        forall|k: int| 0 <= k < ranges@.len() ==> (#[trigger] ranges@[k]).0 as int == ghost_ranges@[k].0
            && ranges@[k].1 as int == ghost_ranges@[k].1,
        ordered_ranges(ghost_ranges@, 0, s@.len() as int),
    ensures
        r@ == cut(s@, ghost_ranges@, 0),
{
    let ghost g = ghost_ranges@;
    let mut out: Vec<char> = Vec::new();
    let mut pos: usize = 0;
    let mut k: usize = 0;
    assert(g.skip(0) =~= g);
    assert(out@ + cut(s@, g, 0) =~= cut(s@, g, 0));
    while k < ranges.len()
        invariant
            k <= ranges@.len(),
            ranges@.len() == g.len(),
            forall|m: int| 0 <= m < ranges@.len() ==> (#[trigger] ranges@[m]).0 as int == g[m].0
                && ranges@[m].1 as int == g[m].1,
            ordered_ranges(g, 0, s@.len() as int),
            pos <= s@.len(),
            k < g.len() ==> pos <= g[k as int].0,
            out@ + cut(s@, g.skip(k as int), pos as int) == cut(s@, g, 0),
        decreases ranges@.len() - k,
    {
        let (a, e) = ranges[k];
        proof {
            assert(g[k as int] == (a as int, e as int));
            assert(g.skip(k as int)[0] == g[k as int]);
            assert(g.skip(k as int).drop_first() =~= g.skip(k + 1));
            if k + 1 < g.len() {
                assert(g[k as int].1 <= g[k + 1].0);
            }
        }
        let ghost before = out@;
        copy_range(s, pos, a, &mut out);
        proof {
            assert(out@ + cut(s@, g.skip(k + 1), e as int) =~= before + cut(s@, g.skip(k as int), pos as int));
        }
        pos = e;
        k = k + 1;
    }
    let ghost before = out@;
    copy_range(s, pos, s.len(), &mut out);
    proof {
        assert(g.skip(k as int) =~= seq![]);
    }
    out
}

/// A file name whose extension (the text after its last `.`, where something precedes that
/// dot) is `jpg` or `jpeg`, as written.
pub open spec fn is_jpeg_name(n: Seq<char>) -> bool {
    (n.len() >= 5 && n.skip(n.len() - 4) == seq!['.', 'j', 'p', 'g']) || (n.len() >= 6 && n.skip(
        n.len() - 5,
    ) == seq!['.', 'j', 'p', 'e', 'g'])
}

/// The override line added for a JPEG part.
pub open spec fn jpeg_entry(part: Seq<char>) -> Seq<char> {
    "\n<Override PartName=\""@ + part + "\" ContentType=\"image/jpeg\"/>"@
}

/// `s` after looking at one media file name: a JPEG whose part name `/ppt/media/<name>` does
/// not occur in `s` gets an override inserted before the last `</Types>` (none when there is no
/// `</Types>`).
pub open spec fn add_jpeg(s: Seq<char>, name: Seq<char>) -> Seq<char> {
    if !is_jpeg_name(name) {
        s
    } else {
        let part = media_prefix() + name;
        if find_from(s, part, 0) is Some {
            s
        } else {
            match find_last_below(s, types_close(), s.len() as int) {
                Some(i) => s.take(i) + jpeg_entry(part) + s.skip(i),
                None => s,
            }
        }
    }
}

/// `s` after looking at each media file name in turn.
pub open spec fn add_jpegs(s: Seq<char>, names: Seq<Seq<char>>) -> Seq<char>
    decreases names.len(),
{
    if names.len() == 0 {
        s
    } else {
        add_jpeg(add_jpegs(s, names.drop_last()), names.last())
    }
}

/// The `[Content_Types].xml` text after the update: the PNG overrides that name a file reported
/// missing are taken out, then the JPEG media files get their overrides.
pub open spec fn updated_content_types(s: Seq<char>, present: Seq<Seq<bool>>, names: Seq<Seq<char>>) -> Seq<char> {
    add_jpegs(cut(s, stale_ranges(png_overrides(s), present), 0), names)
}

fn is_jpeg_name_exec(n: &Vec<char>) -> (r: bool)
    ensures
        r == is_jpeg_name(n@),
{
    let short = ['.', 'j', 'p', 'g'];
    let long = ['.', 'j', 'p', 'e', 'g'];
    let len = n.len();
    if len >= 5 && matches_exec(n, &short, len - 4) {
        assert(n@.skip(len - 4) =~= n@.subrange(len - 4, len as int));
        return true;
    }
    if len >= 6 && matches_exec(n, &long, len - 5) {
        assert(n@.skip(len - 5) =~= n@.subrange(len - 5, len as int));
        return true;
    }
    proof {
        if len >= 5 {
            assert(n@.skip(len - 4) =~= n@.subrange(len - 4, len as int));
        }
        if len >= 6 {
            assert(n@.skip(len - 5) =~= n@.subrange(len - 5, len as int));
        }
    }
    false
}

fn add_jpeg_exec(s: Vec<char>, name: &Vec<char>) -> (r: Vec<char>)
    ensures
        r@ == add_jpeg(s@, name@),
{
    if !is_jpeg_name_exec(name) {
        return s;
    }
    let mut part: Vec<char> = vec!['/', 'p', 'p', 't', '/', 'm', 'e', 'd', 'i', 'a', '/'];
    assert(part@ == media_prefix());
    copy_range(name, 0, name.len(), &mut part);
    assert(name@.subrange(0, name@.len() as int) =~= name@);
    if find_exec(&s, part.as_slice(), 0).is_some() {
        return s;
    }
    let close = ['<', '/', 'T', 'y', 'p', 'e', 's', '>'];
    assert(close@ == types_close());
    match find_last_exec(&s, &close, s.len()) {
        None => s,
        Some(i) => {
            proof {
                lemma_find_last(s@, types_close(), s@.len() as int);
            }
            let mut out: Vec<char> = Vec::new();
            copy_range(&s, 0, i, &mut out);
            let head = chars_of("\n<Override PartName=\"");
            let tail = chars_of("\" ContentType=\"image/jpeg\"/>");
            copy_range(&head, 0, head.len(), &mut out);
            copy_range(&part, 0, part.len(), &mut out);
            copy_range(&tail, 0, tail.len(), &mut out);
            copy_range(&s, i, s.len(), &mut out);
            proof {
                assert(head@.subrange(0, head@.len() as int) =~= head@);
                assert(part@.subrange(0, part@.len() as int) =~= part@);
                assert(tail@.subrange(0, tail@.len() as int) =~= tail@);
                assert(s@.subrange(0, i as int) =~= s@.take(i as int));
                assert(s@.subrange(i as int, s@.len() as int) =~= s@.skip(i as int));
                assert(out@ =~= s@.take(i as int) + jpeg_entry(part@) + s@.skip(i as int));
            }
            out
        },
    }
}

/// Brings a `[Content_Types].xml` text up to date with the media folder: `present[i][j]` tells
/// whether the `j`-th file named by the `i`-th PNG override (as `png_media_overrides` lists
/// them) still exists, and `media_names` are the names of the entries of `ppt/media/` in the
/// order the folder lists them. Returns the new text, or `None` where nothing changed.
pub fn update_content_types(content: &str, present: &Vec<Vec<bool>>, media_names: &Vec<String>) -> (r: Option<String>)
    ensures
        ({
            let u = updated_content_types(content@, bools_view(present@), strings_view(media_names@));
            &&& u == content@ ==> r is None
            &&& u != content@ ==> (r matches Some(t) && t@ == u)
        }),
{
    let s = chars_of(content);
    let tags = png_overrides_exec(&s);
    let ranges = stale_ranges_exec(&tags, present);
    let ghost overrides = png_overrides(s@);
    let ghost g = stale_ranges(overrides, bools_view(present@));
    proof {
        lemma_tags_ordered(s@, 0);
        lemma_png_overrides_ordered(s@, tags_from(s@, 0), 0, s@.len() as int);
        lemma_stale_ordered(overrides, bools_view(present@), 0, s@.len() as int);
    }
    let mut out = cut_exec(&s, &ranges, Ghost(g));
    let ghost names = strings_view(media_names@);
    let mut k: usize = 0;
    while k < media_names.len()
        invariant
            k <= media_names@.len(),
            names == strings_view(media_names@),
            out@ == add_jpegs(cut(s@, g, 0), names.take(k as int)),
        decreases media_names@.len() - k,
    {
        let name = chars_of(media_names[k].as_str());
        proof {
            assert(names.take(k + 1).drop_last() =~= names.take(k as int));
            assert(names.take(k + 1).last() == name@);
        }
        out = add_jpeg_exec(out, &name);
        k = k + 1;
    }
    assert(names.take(media_names@.len() as int) =~= names);
    if vec_chars_eq(&out, &s) {
        None
    } else {
        Some(string_from_chars(out.as_slice()))
    }
}

/// Every file that a PNG override names is reported present.
pub open spec fn all_present(present: Seq<Seq<bool>>) -> bool {
    forall|i: int, j: int| 0 <= i < present.len() && 0 <= j < present[i].len() ==> #[trigger] present[i][j]
}

proof fn lemma_no_stale(tags: Seq<(int, int, Seq<Seq<char>>)>, present: Seq<Seq<bool>>)
    requires
        all_present(present),
    ensures
        stale_ranges(tags, present) == Seq::<(int, int)>::empty(),
    decreases tags.len(),
{
    if tags.len() > 0 {
        lemma_no_stale(tags.drop_last(), present);
        let i = tags.len() - 1;
        if is_stale(tags.last().2, present, i) {
            let j = choose|j: int| 0 <= j < tags.last().2.len() && j < present[i].len() && !present[i][j];
            assert(present[i][j]);
        }
    }
}

proof fn lemma_no_jpeg_names(s: Seq<char>, names: Seq<Seq<char>>)
    requires
        forall|k: int| 0 <= k < names.len() ==> !is_jpeg_name(#[trigger] names[k]),
    ensures
        add_jpegs(s, names) == s,
    decreases names.len(),
{
    if names.len() > 0 {
        assert(names.last() == names[names.len() - 1]);
        lemma_no_jpeg_names(s, names.drop_last());
    }
}

/// The update leaves the text as it is when every file that a PNG override names is present
/// and no media file is a JPEG: nothing is written back then.
pub proof fn law_update_without_changes(s: Seq<char>, present: Seq<Seq<bool>>, names: Seq<Seq<char>>)
    requires
        all_present(present),
        forall|k: int| 0 <= k < names.len() ==> !is_jpeg_name(#[trigger] names[k]),
    ensures
        updated_content_types(s, present, names) == s,
{
    lemma_no_stale(png_overrides(s), present);
    assert(cut(s, Seq::<(int, int)>::empty(), 0) == s.subrange(0, s.len() as int));
    assert(s.subrange(0, s.len() as int) =~= s);
    lemma_no_jpeg_names(cut(s, stale_ranges(png_overrides(s), present), 0), names);
}

/// Looking at `name` again leaves `s` as it is: `name` is no JPEG name, its part name already
/// occurs in `s`, or `s` has no `</Types>`.
pub open spec fn jpeg_settled(s: Seq<char>, name: Seq<char>) -> bool {
    ||| !is_jpeg_name(name)
    ||| find_from(s, media_prefix() + name, 0) is Some
    ||| find_last_below(s, types_close(), s.len() as int) is None
}

proof fn lemma_last_below(s: Seq<char>, pat: Seq<char>, end: int)
    ensures
        find_last_below(s, pat, end) matches Some(i) ==> i < end && matches_at(s, pat, i),
        forall|k: int| k < end && #[trigger] matches_at(s, pat, k) ==> find_last_below(s, pat, end) is Some,
    decreases end,
{
    if end > 0 && !matches_at(s, pat, end - 1) {
        lemma_last_below(s, pat, end - 1);
        assert forall|k: int| k < end && #[trigger] matches_at(s, pat, k) implies find_last_below(s, pat, end) is Some by {
            assert(k < end - 1);
        }
    }
}

proof fn lemma_found(s: Seq<char>, p: Seq<char>, j: int)
    requires
        p.len() > 0,
        matches_at(s, p, j),
    ensures
        find_from(s, p, 0) is Some,
{
    lemma_find_from(s, p, 0);
}

/// Inserting text at a `</Types>` keeps every occurrence of the part name of a file name that
/// holds no `/` and ends in `g`.
proof fn lemma_insert_keeps(s: Seq<char>, i: int, e: Seq<char>, name: Seq<char>, j: int)
    requires
        matches_at(s, types_close(), i),
        matches_at(s, media_prefix() + name, j),
        name.len() > 0,
        name[name.len() - 1] == 'g',
        forall|c: int| 0 <= c < name.len() ==> name[c] != '/',
    ensures
        find_from(s.take(i) + e + s.skip(i), media_prefix() + name, 0) is Some,
{
    let p = media_prefix() + name;
    let t = s.take(i) + e + s.skip(i);
    let n = p.len() as int;
    assert(s[i] == '<' && s[i + 1] == '/') by {
        assert(s.subrange(i, i + 8)[0] == types_close()[0]);
        assert(s.subrange(i, i + 8)[1] == types_close()[1]);
    }
    if j + n <= i {
        assert(t.subrange(j, j + n) =~= s.subrange(j, j + n));
        lemma_found(t, p, j);
    } else if j >= i {
        assert(t.subrange(j + e.len(), j + e.len() + n) =~= s.subrange(j, j + n));
        lemma_found(t, p, j + e.len());
    } else {
        assert(s[i] == p[i - j]) by {
            assert(s.subrange(j, j + n)[i - j] == p[i - j]);
        }
        if i + 1 < j + n {
            assert(s[i + 1] == p[i + 1 - j]) by {
                assert(s.subrange(j, j + n)[i + 1 - j] == p[i + 1 - j]);
            }
            if i - j < 11 {
                assert(media_prefix()[i - j] != '<');
            } else {
                assert(p[i + 1 - j] == name[i + 1 - j - 11]);
            }
        } else {
            assert(p[n - 1] == name[name.len() - 1]);
        }
    }
}

proof fn lemma_jpeg_name_ends_in_g(name: Seq<char>)
    requires
        is_jpeg_name(name),
    ensures
        name.len() > 0 && name[name.len() - 1] == 'g',
{
    if name.len() >= 5 && name.skip(name.len() - 4) == seq!['.', 'j', 'p', 'g'] {
        assert(name.skip(name.len() - 4)[3] == name[name.len() - 1]);
    } else {
        assert(name.skip(name.len() - 5)[4] == name[name.len() - 1]);
    }
}

/// Adding the override for one name keeps every name that was settled settled.
proof fn lemma_settled_kept(s: Seq<char>, m: Seq<char>, name: Seq<char>)
    requires
        jpeg_settled(s, name),
        forall|c: int| 0 <= c < name.len() ==> name[c] != '/',
    ensures
        jpeg_settled(add_jpeg(s, m), name),
{
    let s2 = add_jpeg(s, m);
    if s2 != s && is_jpeg_name(name) {
        let i = find_last_below(s, types_close(), s.len() as int)->0;
        lemma_last_below(s, types_close(), s.len() as int);
        let p = media_prefix() + name;
        lemma_find_from(s, p, 0);
        let j = find_from(s, p, 0)->0;
        lemma_jpeg_name_ends_in_g(name);
        lemma_insert_keeps(s, i, jpeg_entry(media_prefix() + m), name, j);
    }
}

/// After looking at a name, the name is settled.
proof fn lemma_settled_after(s: Seq<char>, name: Seq<char>)
    ensures
        jpeg_settled(add_jpeg(s, name), name),
{
    let s2 = add_jpeg(s, name);
    if is_jpeg_name(name) && find_from(s, media_prefix() + name, 0) is None && find_last_below(
        s,
        types_close(),
        s.len() as int,
    ) is Some {
        let i = find_last_below(s, types_close(), s.len() as int)->0;
        lemma_last_below(s, types_close(), s.len() as int);
        let p = media_prefix() + name;
        let h = "\n<Override PartName=\""@;
        let tail = "\" ContentType=\"image/jpeg\"/>"@;
        assert(s2 == s.take(i) + (h + p + tail) + s.skip(i));
        assert(s2.subrange(i + h.len(), i + h.len() + p.len()) =~= p);
        lemma_found(s2, p, i + h.len());
    }
}

proof fn lemma_all_settled(t: Seq<char>, names: Seq<Seq<char>>)
    requires
        forall|k: int, c: int| 0 <= k < names.len() && 0 <= c < names[k].len() ==> names[k][c] != '/',
    ensures
        forall|k: int| 0 <= k < names.len() ==> jpeg_settled(add_jpegs(t, names), #[trigger] names[k]),
    decreases names.len(),
{
    if names.len() > 0 {
        let init = names.drop_last();
        lemma_all_settled(t, init);
        let u = add_jpegs(t, init);
        assert forall|k: int| 0 <= k < names.len() implies jpeg_settled(add_jpegs(t, names), #[trigger] names[k]) by {
            if k < names.len() - 1 {
                assert(init[k] == names[k]);
                lemma_settled_kept(u, names.last(), names[k]);
            } else {
                lemma_settled_after(u, names.last());
            }
        }
    }
}

proof fn lemma_settled_unchanged(u: Seq<char>, names: Seq<Seq<char>>)
    requires
        forall|k: int| 0 <= k < names.len() ==> jpeg_settled(u, #[trigger] names[k]),
    ensures
        add_jpegs(u, names) == u,
    decreases names.len(),
{
    if names.len() > 0 {
        let init = names.drop_last();
        assert forall|k: int| 0 <= k < init.len() implies jpeg_settled(u, #[trigger] init[k]) by {
            assert(init[k] == names[k]);
        }
        lemma_settled_unchanged(u, init);
        assert(jpeg_settled(u, names[names.len() - 1]));
    }
}

/// The update is idempotent: run again on its own result, with the media folder as it left it
/// (every PNG override still in the text names files that are present) and the same media file
/// names, it changes nothing. File names hold no `/`.
pub proof fn law_update_idempotent(
    s: Seq<char>,
    present: Seq<Seq<bool>>,
    names: Seq<Seq<char>>,
    present_after: Seq<Seq<bool>>,
)
    requires
        all_present(present_after),
        forall|k: int, c: int| 0 <= k < names.len() && 0 <= c < names[k].len() ==> names[k][c] != '/',
    ensures
        updated_content_types(updated_content_types(s, present, names), present_after, names)
            == updated_content_types(s, present, names),
{
    let u = updated_content_types(s, present, names);
    lemma_all_settled(cut(s, stale_ranges(png_overrides(s), present), 0), names);
    lemma_no_stale(png_overrides(u), present_after);
    assert(cut(u, Seq::<(int, int)>::empty(), 0) == u.subrange(0, u.len() as int));
    assert(u.subrange(0, u.len() as int) =~= u);
    lemma_settled_unchanged(u, names);
}

} // verus!
