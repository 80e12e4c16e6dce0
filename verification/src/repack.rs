//! The plan for writing the extracted directory back into a PPTX (ZIP) archive: entry order,
//! entry names and compression methods.

use vstd::prelude::*;
use crate::archive::{forward_slashes, is_compressed_format, is_compressed_format_spec};
use crate::order::{
    lemma_parts_lt_asymmetric, lemma_parts_lt_irreflexive, lemma_parts_lt_total,
    lemma_parts_lt_transitive, parts_less, parts_lt,
};
use crate::text::{chars_of, string_from_chars};

verus! {

/// One file or directory found under the extracted directory.
pub struct RepackSource {
    /// Path components relative to the extracted directory (none for the directory itself).
    pub parts: Vec<String>,
    pub is_dir: bool,
    /// The file's extension, or the empty string when it has none.
    pub ext: String,
}

/// How an entry is written.
#[derive(Debug, Clone, Copy, PartialEq, Eq, Structural)]
pub enum ZipKind {
    /// A directory entry.
    Directory,
    /// A file stored as is (already-compressed media).
    Stored,
    /// A file compressed with DEFLATE (level 9).
    Deflated,
}

/// One archive entry to write, taken from `sources[source]`.
pub struct ZipItem {
    pub source: usize,
    pub name: String,
    pub kind: ZipKind,
}

/// A path held as character vectors, as sequences.
pub open spec fn key_view(p: Vec<Vec<char>>) -> Seq<Seq<char>> {
    p@.map_values(|v: Vec<char>| v@)
}

pub open spec fn keys_view(keys: Seq<Vec<Vec<char>>>) -> Seq<Seq<Seq<char>>> {
    keys.map_values(|p: Vec<Vec<char>>| key_view(p))
}

pub open spec fn parts_view(e: RepackSource) -> Seq<Seq<char>> {
    e.parts@.map_values(|s: String| s@)
}

pub open spec fn content_types_name() -> Seq<char> {
    seq!['[', 'C', 'o', 'n', 't', 'e', 'n', 't', '_', 'T', 'y', 'p', 'e', 's', ']', '.', 'x', 'm', 'l']
}

/// The path is the `[Content_Types].xml` part, which ECMA-376 requires to come first.
pub open spec fn is_content_types(p: Seq<Seq<char>>) -> bool {
    p.len() == 1 && p[0] == content_types_name()
}

/// Path `a` is written before path `b`: `[Content_Types].xml` first, then path order.
pub open spec fn entry_before(a: Seq<Seq<char>>, b: Seq<Seq<char>>) -> bool {
    (is_content_types(a) && !is_content_types(b)) || (is_content_types(a) == is_content_types(b)
        && parts_lt(a, b))
}

/// Entry `i` is written before entry `j` (equal paths keep their order).
pub open spec fn precedes(ps: Seq<Seq<Seq<char>>>, i: int, j: int) -> bool {
    entry_before(ps[i], ps[j]) || (ps[i] == ps[j] && i < j)
}

/// The paths of all sources.
pub open spec fn source_paths(sources: Seq<RepackSource>) -> Seq<Seq<Seq<char>>> {
    sources.map_values(|e: RepackSource| parts_view(e))
}

/// The components joined with `/`.
pub open spec fn joined(parts: Seq<Seq<char>>) -> Seq<char>
    decreases parts.len(),
{
    if parts.len() == 0 {
        Seq::empty()
    } else if parts.len() == 1 {
        parts[0]
    } else {
        joined(parts.drop_last()) + seq!['/'] + parts.last()
    }
}

/// The entry name: the relative path with forward slashes, and a trailing `/` for a directory.
pub open spec fn entry_name_of(e: RepackSource) -> Seq<char> {
    let r = forward_slashes(joined(parts_view(e)));
    if e.is_dir && !(r.len() > 0 && r.last() == '/') {
        r.push('/')
    } else {
        r
    }
}

pub open spec fn media_dir_prefix() -> Seq<char> {
    seq!['p', 'p', 't', '/', 'm', 'e', 'd', 'i', 'a', '/']
}

/// Directories are directory entries; already-compressed files under `ppt/media/` are stored;
/// everything else is deflated.
pub open spec fn entry_kind_of(e: RepackSource) -> ZipKind {
    let r = forward_slashes(joined(parts_view(e)));
    if e.is_dir {
        ZipKind::Directory
    } else if media_dir_prefix().len() <= r.len() && r.take(media_dir_prefix().len() as int)
        == media_dir_prefix() && is_compressed_format_spec(e.ext@) {
        ZipKind::Stored
    } else {
        ZipKind::Deflated
    }
}

proof fn lemma_precedes_irreflexive(ps: Seq<Seq<Seq<char>>>, i: int)
    ensures
        !precedes(ps, i, i),
{
    lemma_parts_lt_irreflexive(ps[i]);
}

proof fn lemma_precedes_total(ps: Seq<Seq<Seq<char>>>, i: int, j: int)
    requires
        i != j,
    ensures
        precedes(ps, i, j) || precedes(ps, j, i),
{
    lemma_parts_lt_total(ps[i], ps[j]);
}

proof fn lemma_precedes_transitive(ps: Seq<Seq<Seq<char>>>, i: int, j: int, k: int)
    requires
        precedes(ps, i, j),
        precedes(ps, j, k),
    ensures
        precedes(ps, i, k),
{
    let (a, b, c) = (ps[i], ps[j], ps[k]);
    if parts_lt(a, b) && parts_lt(b, c) {
        lemma_parts_lt_transitive(a, b, c);
    }
    if a == c {
        lemma_parts_lt_irreflexive(a);
        if parts_lt(a, b) {
            lemma_parts_lt_asymmetric(a, b);
        }
    }
}

/// A list of distinct values below `n` has at most `n` entries.
proof fn lemma_distinct_below(s: Seq<usize>, n: int)
    requires
        0 <= n,
        forall|i: int| 0 <= i < s.len() ==> #[trigger] s[i] < n,
        forall|i: int, j: int| 0 <= i < j < s.len() ==> s[i] != s[j],
    ensures
        s.len() <= n,
{
    let ints = s.map_values(|x: usize| x as int);
    assert(ints.no_duplicates()) by {
        assert forall|i: int, j: int| 0 <= i < ints.len() && 0 <= j < ints.len() && i != j implies ints[i] != ints[j] by {
            if i < j {
                assert(s[i] != s[j]);
            } else {
                assert(s[j] != s[i]);
            }
        };
    };
    ints.unique_seq_to_set();
    let range = vstd::set_lib::set_int_range(0, n);
    vstd::set_lib::lemma_int_range(0, n);
    assert(ints.to_set().subset_of(range)) by {
        assert forall|x: int| ints.to_set().contains(x) implies range.contains(x) by {
            let i = choose|i: int| 0 <= i < ints.len() && ints[i] == x;
            assert(s[i] < n);
        };
    };
    vstd::set_lib::lemma_len_subset(ints.to_set(), range);
}

/// Whether entry `i` is written before entry `j`.
fn precedes_exec(keys: &Vec<Vec<Vec<char>>>, cts: &Vec<bool>, i: usize, j: usize) -> (r: bool)
    requires
        i < keys@.len(),
        j < keys@.len(),
        cts@.len() == keys@.len(),
        forall|k: int|
            0 <= k < keys@.len() ==> #[trigger] cts@[k] == is_content_types(
                key_view(keys@[k]),
            ),
    ensures
        r == precedes(
            keys_view(keys@),
            i as int,
            j as int,
        ),
{
    let ghost ps = keys_view(keys@);
    assert(ps[i as int] == key_view(keys@[i as int]));
    assert(ps[j as int] == key_view(keys@[j as int]));
    if cts[i] != cts[j] {
        proof {
            if cts@[i as int] && !cts@[j as int] {
            } else {
                assert(ps[i as int] != ps[j as int]);
            }
        }
        return cts[i];
    }
    if parts_less(&keys[i], &keys[j]) {
        return true;
    }
    if parts_less(&keys[j], &keys[i]) {
        proof {
            lemma_parts_lt_asymmetric(ps[j as int], ps[i as int]);
            lemma_parts_lt_irreflexive(ps[i as int]);
        }
        return false;
    }
    proof {
        lemma_parts_lt_total(ps[i as int], ps[j as int]);
    }
    i < j
}

/// `items` is a repack plan of `sources`: each item comes from a source with a non-empty path,
/// items are in `precedes` order, every source with a non-empty path has an item, and each item
/// carries its source's entry name and compression method.
pub open spec fn is_repack_plan(sources: Seq<RepackSource>, items: Seq<ZipItem>) -> bool {
    &&& forall|i: int|
        0 <= i < items.len() ==> #[trigger] items[i].source < sources.len()
            && sources[items[i].source as int].parts@.len() > 0
    &&& forall|i: int, j: int|
        0 <= i < j < items.len() ==> precedes(
            source_paths(sources),
            #[trigger] items[i].source as int,
            #[trigger] items[j].source as int,
        )
    &&& forall|k: int|
        0 <= k < sources.len() && sources[k].parts@.len() > 0 ==> exists|i: int|
            0 <= i < items.len() && #[trigger] items[i].source == k
    &&& forall|i: int|
        0 <= i < items.len() ==> #[trigger] items[i].name@ == entry_name_of(
            sources[items[i].source as int],
        ) && items[i].kind == entry_kind_of(sources[items[i].source as int])
}

/// Plans the archive: every file and directory below the extracted directory (the directory
/// itself left out), `[Content_Types].xml` first and the rest in path order, each with its
/// entry name and compression method.
pub fn plan_repack(sources: &Vec<RepackSource>) -> (items: Vec<ZipItem>)
    ensures
        is_repack_plan(sources@, items@),
{
    let n = sources.len();
    let mut keys: Vec<Vec<Vec<char>>> = Vec::new();
    let mut cts: Vec<bool> = Vec::new();
    let mut taken: Vec<bool> = Vec::new();
    let mut k: usize = 0;
    while k < n
        invariant
            n == sources@.len(),
            k <= n,
            keys@.len() == k,
            cts@.len() == k,
            taken@.len() == k,
            forall|m: int|
                0 <= m < k ==> #[trigger] key_view(keys@[m]) == parts_view(
                    sources@[m],
                ),
            forall|m: int|
                0 <= m < k ==> #[trigger] cts@[m] == is_content_types(parts_view(sources@[m])),
            forall|m: int| 0 <= m < k ==> (#[trigger] taken@[m] <==> sources@[m].parts@.len() == 0),
        decreases n - k,
    {
        let src = &sources[k];
        let mut key: Vec<Vec<char>> = Vec::new();
        let mut c: usize = 0;
        while c < src.parts.len()
            invariant
                c <= src.parts@.len(),
                key@.len() == c,
                forall|m: int| 0 <= m < c ==> #[trigger] key@[m]@ == src.parts@[m]@,
            decreases src.parts@.len() - c,
        {
            key.push(chars_of(src.parts[c].as_str()));
            c = c + 1;
        }
        assert(key_view(key) =~= parts_view(*src));
        let is_ct = key.len() == 1 && crate::order::vec_chars_eq(
            &key[0],
            &vec!['[', 'C', 'o', 'n', 't', 'e', 'n', 't', '_', 'T', 'y', 'p', 'e', 's', ']', '.', 'x', 'm', 'l'],
        );
        proof {
            if key@.len() == 1 {
                assert(key_view(key)[0] == key@[0]@);
            }
        }
        keys.push(key);
        cts.push(is_ct);
        taken.push(src.parts.len() == 0);
        k = k + 1;
    }
    let ghost ps = keys_view(keys@);
    assert(ps =~= source_paths(sources@)) by {
        assert forall|m: int| 0 <= m < n implies ps[m] == source_paths(sources@)[m] by {
            assert(key_view(keys@[m]) == parts_view(sources@[m]));
        };
    };
    let mut order: Vec<usize> = Vec::new();
    loop
        invariant
            n == sources@.len(),
            keys@.len() == n,
            cts@.len() == n,
            taken@.len() == n,
            ps == keys_view(keys@),
            ps == source_paths(sources@),
            forall|m: int|
                0 <= m < n ==> #[trigger] cts@[m] == is_content_types(
                    key_view(keys@[m]),
                ),
            forall|m: int|
                0 <= m < n ==> (#[trigger] taken@[m] <==> (sources@[m].parts@.len() == 0
                    || order@.contains(m as usize))),
            forall|i: int| 0 <= i < order@.len() ==> #[trigger] order@[i] < n && sources@[order@[i] as int].parts@.len() > 0,
            forall|i: int, j: int|
                0 <= i < j < order@.len() ==> precedes(
                    ps,
                    #[trigger] order@[i] as int,
                    #[trigger] order@[j] as int,
                ),
            forall|q: int, i: int|
                0 <= q < n && !taken@[q] && 0 <= i < order@.len() ==> #[trigger] precedes(
                    ps,
                    order@[i] as int,
                    q,
                ),
            order@.len() <= n,
        ensures
            forall|x: int| 0 <= x < n ==> #[trigger] taken@[x],
        decreases n - order@.len(),
    {
        let mut best: usize = n;
        let mut j: usize = 0;
        while j < n
            invariant
                n == sources@.len(),
                keys@.len() == n,
                cts@.len() == n,
                taken@.len() == n,
                ps == keys_view(keys@),
                forall|m: int|
                    0 <= m < n ==> #[trigger] cts@[m] == is_content_types(
                        key_view(keys@[m]),
                    ),
                j <= n,
                best == n || (best < j && !taken@[best as int]),
                best == n ==> forall|x: int| 0 <= x < j ==> #[trigger] taken@[x],
                best < n ==> forall|x: int|
                    0 <= x < j && !#[trigger] taken@[x] && x != best ==> precedes(
                        ps,
                        best as int,
                        x,
                    ),
            decreases n - j,
        {
            if !taken[j] {
                if best == n || precedes_exec(&keys, &cts, j, best) {
                    proof {
                        if best < n {
                            assert forall|x: int|
                                0 <= x < j && !#[trigger] taken@[x] && x != j implies precedes(
                                    ps,
                                    j as int,
                                    x,
                                ) by {
                                if x == best as int {
                                } else {
                                    lemma_precedes_transitive(ps, j as int, best as int, x);
                                }
                            };
                        }
                    }
                    best = j;
                } else {
                    proof {
                        lemma_precedes_total(ps, j as int, best as int);
                    }
                }
            }
            j = j + 1;
        }
        if best == n {
            break;
        }
        let ghost old_order = order@;
        assert(!old_order.contains(best));
        taken.set(best, true);
        order.push(best);
        proof {
            assert forall|x: int|
                0 <= x < n implies (#[trigger] taken@[x] <==> (sources@[x].parts@.len() == 0
                    || order@.contains(x as usize))) by {
                if x == best as int {
                    assert(order@[order@.len() - 1] == best);
                } else {
                    if order@.contains(x as usize) {
                        let i = choose|i: int| 0 <= i < order@.len() && order@[i] == x as usize;
                        assert(old_order[i] == x as usize);
                    }
                    if old_order.contains(x as usize) {
                        let i = choose|i: int| 0 <= i < old_order.len() && old_order[i] == x as usize;
                        assert(order@[i] == x as usize);
                    }
                }
            };
            assert forall|q: int, i: int|
                0 <= q < n && !taken@[q] && 0 <= i < order@.len() implies #[trigger] precedes(
                    ps,
                    order@[i] as int,
                    q,
                ) by {
                if i < old_order.len() {
                    assert(order@[i] == old_order[i]);
                }
            };
            assert forall|i: int, j: int|
                0 <= i < j < order@.len() implies precedes(
                    ps,
                    #[trigger] order@[i] as int,
                    #[trigger] order@[j] as int,
                ) by {
                if j == order@.len() - 1 {
                    assert(order@[i] == old_order[i]);
                }
            };
            assert forall|i: int, j: int| 0 <= i < j < order@.len() implies order@[i] != order@[j] by {
                lemma_precedes_irreflexive(ps, order@[i] as int);
            };
            lemma_distinct_below(order@, n as int);
        }
    }
    let mut items: Vec<ZipItem> = Vec::new();
    let mut i: usize = 0;
    while i < order.len()
        invariant
            n == sources@.len(),
            forall|x: int| 0 <= x < order@.len() ==> #[trigger] order@[x] < n,
            i <= order@.len(),
            items@.len() == i,
            forall|x: int|
                0 <= x < i ==> (#[trigger] items@[x]).source == order@[x] && items@[x].name@
                    == entry_name_of(sources@[order@[x] as int]) && items@[x].kind
                    == entry_kind_of(sources@[order@[x] as int]),
        decreases order@.len() - i,
    {
        let s = order[i];
        let (name, kind) = entry_name_and_kind(&sources[s]);
        items.push(ZipItem { source: s, name, kind });
        i = i + 1;
    }
    proof {
        assert forall|k: int|
            0 <= k < sources@.len() && sources@[k].parts@.len() > 0 implies exists|i: int|
                0 <= i < items@.len() && #[trigger] items@[i].source == k by {
            assert(taken@[k]);
            assert(order@.contains(k as usize));
            let i = choose|i: int| 0 <= i < order@.len() && order@[i] == k as usize;
            assert(items@[i].source == k);
        };
    }
    items
}

/// The entry name and compression method of one source.
fn entry_name_and_kind(src: &RepackSource) -> (r: (String, ZipKind))
    ensures
        r.0@ == entry_name_of(*src),
        r.1 == entry_kind_of(*src),
{
    let ghost pv = parts_view(*src);
    let mut rel: Vec<char> = Vec::new();
    let mut c: usize = 0;
    while c < src.parts.len()
        invariant
            pv == parts_view(*src),
            c <= src.parts@.len(),
            rel@ == forward_slashes(joined(pv.take(c as int))),
        decreases src.parts@.len() - c,
    {
        let part = chars_of(src.parts[c].as_str());
        let ghost before = rel@;
        assert(pv.take(c + 1).drop_last() =~= pv.take(c as int));
        assert(pv.take(c + 1).last() == part@);
        if c > 0 {
            rel.push('/');
        }
        let mut m: usize = 0;
        let ghost mid = rel@;
        while m < part.len()
            invariant
                m <= part@.len(),
                rel@ == mid + forward_slashes(part@.take(m as int)),
            decreases part@.len() - m,
        {
            let ch = if part[m] == '\\' {
                '/'
            } else {
                part[m]
            };
            rel.push(ch);
            assert(forward_slashes(part@.take(m + 1)) =~= forward_slashes(part@.take(m as int)).push(ch));
            assert(rel@ =~= mid + forward_slashes(part@.take(m + 1)));
            m = m + 1;
        }
        assert(part@.take(part@.len() as int) =~= part@);
        proof {
            if c == 0 {
                assert(pv.take(1) =~= seq![pv[0]]);
                assert(rel@ =~= forward_slashes(joined(pv.take(1))));
            } else {
                assert(forward_slashes(joined(pv.take(c as int)) + seq!['/'] + part@) =~= forward_slashes(
                    joined(pv.take(c as int)),
                ) + seq!['/'] + forward_slashes(part@));
                assert(rel@ =~= forward_slashes(joined(pv.take(c + 1))));
            }
        }
        c = c + 1;
    }
    assert(pv.take(src.parts@.len() as int) =~= pv);
    let kind = if src.is_dir {
        ZipKind::Directory
    } else {
        let prefix = ['p', 'p', 't', '/', 'm', 'e', 'd', 'i', 'a', '/'];
        assert(prefix@ =~= media_dir_prefix());
        let mut is_media_dir = rel.len() >= 10;
        let mut q: usize = 0;
        while q < 10 && is_media_dir
            invariant
                prefix@ == media_dir_prefix(),
                q <= 10,
                is_media_dir ==> rel@.len() >= 10,
                is_media_dir ==> forall|x: int| 0 <= x < q ==> rel@[x] == media_dir_prefix()[x],
                !is_media_dir ==> !(media_dir_prefix().len() <= rel@.len() && rel@.take(10) == media_dir_prefix()),
            decreases 10 - q,
        {
            assert(prefix@[q as int] == media_dir_prefix()[q as int]);
            if rel[q] != prefix[q] {
                assert(rel@.take(10)[q as int] != media_dir_prefix()[q as int]);
                is_media_dir = false;
            }
            q = q + 1;
        }
        if is_media_dir {
            assert(rel@.take(10) =~= media_dir_prefix());
        }
        if is_media_dir && is_compressed_format(src.ext.as_str()) {
            ZipKind::Stored
        } else {
            ZipKind::Deflated
        }
    };
    if src.is_dir && !(rel.len() > 0 && rel[rel.len() - 1] == '/') {
        rel.push('/');
    }
    (string_from_chars(rel.as_slice()), kind)
}

/// In a repack plan `[Content_Types].xml` comes first: where some source is that part, the
/// first item is a `[Content_Types].xml` entry.
pub proof fn law_content_types_first(sources: Seq<RepackSource>, items: Seq<ZipItem>, ct: int)
    requires
        is_repack_plan(sources, items),
        0 <= ct < sources.len(),
        is_content_types(source_paths(sources)[ct]),
    ensures
        items.len() > 0,
        is_content_types(source_paths(sources)[items[0].source as int]),
{
    let ps = source_paths(sources);
    assert(sources[ct].parts@.len() > 0) by {
        assert(ps[ct] == parts_view(sources[ct]));
    }
    let i = choose|i: int| 0 <= i < items.len() && #[trigger] items[i].source == ct;
    if i > 0 {
        assert(precedes(ps, items[0].source as int, items[i].source as int));
    }
}

/// A repack plan writes each source at most once.
pub proof fn law_repack_entries_distinct(sources: Seq<RepackSource>, items: Seq<ZipItem>, i: int, j: int)
    requires
        is_repack_plan(sources, items),
        0 <= i < j < items.len(),
    ensures
        items[i].source != items[j].source,
{
    let ps = source_paths(sources);
    assert(precedes(ps, items[i].source as int, items[j].source as int));
    if items[i].source == items[j].source {
        lemma_precedes_irreflexive(ps, items[i].source as int);
    }
}

} // verus!
