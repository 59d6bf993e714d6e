//! Content tree scanning: turns a directory tree into the ordered sidebar
//! navigation structure.
//!
//! Directories named `images` are excluded at every depth. Markdown files
//! (`.md`) become leaf entries named by their stem; other files are
//! ignored. Siblings at each level are ordered by ascending `SortKey`
//! (numeric prefix rank, then cleaned name); the sort is stable.

use vstd::prelude::*;
use crate::text::to_chars;
use crate::text::chars_to_string;
use crate::text::push_chars;
use crate::text::copy_range;
use crate::text::str_eq;
use crate::title::SortKey;
use crate::title::clean_name;
use crate::title::spec_rank;
use crate::title::spec_format_title;
use crate::title::key_le;
use crate::title::lemma_key_le_total;
use crate::title::lemma_key_le_trans;
use crate::title::sort_key_chars;
use crate::title::format_title_chars;
use crate::route::bad_segment;
use crate::route::any_bad;
use crate::route::path_of;
use crate::route::spec_resolve;

verus! {

/// A filesystem entry handed to the scanner: what the walk of the content
/// root saw, in directory order. `modified` is a file's last-modification
/// time in seconds.
pub enum FsEntry {
    Dir { name: String, entries: Vec<FsEntry> },
    File { name: String, modified: u64 },
}

/// One node of the sidebar navigation tree.
pub struct NavEntry {
    pub title: String,
    pub url_path: String,
    pub children: Vec<NavEntry>,
}

/// The mathematical shape of a navigation node.
pub struct NavNode {
    pub title: Seq<char>,
    pub url_path: Seq<char>,
    pub children: Seq<NavNode>,
}

pub open spec fn nav_view(e: NavEntry) -> NavNode
    decreases e,
{
    NavNode { title: e.title@, url_path: e.url_path@, children: navs_view(e.children@) }
}

pub open spec fn navs_view(es: Seq<NavEntry>) -> Seq<NavNode>
    decreases es,
{
    if es.len() == 0 {
        Seq::empty()
    } else {
        seq![nav_view(es[0])] + navs_view(es.drop_first())
    }
}

pub proof fn lemma_navs_view(es: Seq<NavEntry>)
    ensures
        navs_view(es).len() == es.len(),
        forall|i: int| 0 <= i < es.len() ==> navs_view(es)[i] == nav_view(es[i]),
    decreases es,
{
    if es.len() > 0 {
        lemma_navs_view(es.drop_first());
    }
}

/// A navigation node paired with the ordering key of its raw name.
pub type KeyedNode = (u64, Seq<char>, NavNode);

pub open spec fn key_of(it: KeyedNode) -> (u64, Seq<char>) {
    (it.0, it.1)
}

/// The name ends in `.md` and has a non-empty stem.
pub open spec fn is_md_name(n: Seq<char>) -> bool {
    n.len() > 3 && n.subrange(n.len() - 3, n.len() as int) == ".md"@
}

/// The file name without its `.md` extension.
pub open spec fn md_stem(n: Seq<char>) -> Seq<char> {
    n.take(n.len() - 3)
}

/// The keyed navigation nodes that one filesystem entry contributes: none
/// for an `images` directory or a non-Markdown file, one otherwise.
pub open spec fn entry_items(e: FsEntry, base: Seq<char>) -> Seq<KeyedNode>
    decreases e, 0int, 0int,
{
    match e {
        FsEntry::Dir { name, entries } => {
            if name@ == "images"@ {
                Seq::empty()
            } else {
                let url = base + seq!['/'] + name@;
                seq![
                    (
                        spec_rank(name@),
                        clean_name(name@),
                        NavNode {
                            title: spec_format_title(name@),
                            url_path: url,
                            children: spec_scan(entries@, url),
                        },
                    ),
                ]
            }
        },
        FsEntry::File { name, modified } => {
            if is_md_name(name@) {
                let seg = md_stem(name@);
                seq![
                    (
                        spec_rank(seg),
                        clean_name(seg),
                        NavNode {
                            title: spec_format_title(seg),
                            url_path: base + seq!['/'] + seg,
                            children: Seq::empty(),
                        },
                    ),
                ]
            } else {
                Seq::empty()
            }
        },
    }
}

/// The keyed nodes of the entries from `i` on, in directory order.
pub open spec fn spec_items_from(entries: Seq<FsEntry>, i: int, base: Seq<char>) -> Seq<KeyedNode>
    decreases entries, 1int, entries.len() - i,
{
    if i < 0 || i >= entries.len() {
        Seq::empty()
    } else {
        entry_items(entries[i], base) + spec_items_from(entries, i + 1, base)
    }
}

/// Stable insertion of `x` behind every item whose key precedes or equals
/// its own.
pub open spec fn spec_insert(x: KeyedNode, s: Seq<KeyedNode>) -> Seq<KeyedNode>
    decreases s.len(),
{
    if s.len() == 0 {
        seq![x]
    } else if key_le(key_of(s[0]), key_of(x)) {
        seq![s[0]] + spec_insert(x, s.drop_first())
    } else {
        seq![x] + s
    }
}

/// Stable insertion sort by ascending key.
pub open spec fn spec_sort(s: Seq<KeyedNode>) -> Seq<KeyedNode>
    decreases s.len(),
{
    if s.len() == 0 {
        s
    } else {
        spec_insert(s.last(), spec_sort(s.drop_last()))
    }
}

pub open spec fn strip_keys(s: Seq<KeyedNode>) -> Seq<NavNode> {
    Seq::new(s.len(), |i: int| s[i].2)
}

/// The navigation nodes of a directory level: the entries' contributions
/// in directory order, sorted by ascending key, keys dropped.
pub open spec fn spec_scan(entries: Seq<FsEntry>, base: Seq<char>) -> Seq<NavNode>
    decreases entries, 2int, 0int,
{
    strip_keys(spec_sort(spec_items_from(entries, 0, base)))
}

/// A scanner work item: a built navigation entry with its ordering key.
struct ScanItem {
    rank: u64,
    name: Vec<char>,
    entry: NavEntry,
}

spec fn item_view(it: ScanItem) -> KeyedNode {
    (it.rank, it.name@, nav_view(it.entry))
}

spec fn items_view(s: Seq<ScanItem>) -> Seq<KeyedNode> {
    Seq::new(s.len(), |i: int| item_view(s[i]))
}

/// Splitting shape of a stable insertion at position `j`.
proof fn lemma_spec_insert_at(x: KeyedNode, s: Seq<KeyedNode>, j: int)
    requires
        0 <= j <= s.len(),
        forall|k: int| 0 <= k < j ==> key_le(key_of(#[trigger] s[k]), key_of(x)),
        j < s.len() ==> !key_le(key_of(s[j]), key_of(x)),
    ensures
        spec_insert(x, s) == s.take(j) + seq![x] + s.skip(j),
    decreases s.len(),
{
    if s.len() == 0 {
        assert(spec_insert(x, s) =~= s.take(j) + seq![x] + s.skip(j));
    } else if j == 0 {
        assert(spec_insert(x, s) =~= s.take(0) + seq![x] + s.skip(0));
    } else {
        assert(key_le(key_of(s[0]), key_of(x)));
        lemma_spec_insert_at(x, s.drop_first(), j - 1);
        assert(s.drop_first().take(j - 1) =~= s.take(j).drop_first());
        assert(s.drop_first().skip(j - 1) =~= s.skip(j));
        assert(seq![s[0]] + (s.take(j).drop_first() + seq![x] + s.skip(j)) =~= s.take(j) + seq![x]
            + s.skip(j));
    }
}

/// Inserts `x` into the key-sorted vector `v`, keeping later-inserted
/// equal keys behind earlier ones.
fn insert_sorted(v: Vec<ScanItem>, x: ScanItem) -> (r: Vec<ScanItem>)
    ensures
        items_view(r@) == spec_insert(item_view(x), items_view(v@)),
{
    let mut v = v;
    let mut j: usize = 0;
    loop
        invariant
            0 <= j <= v@.len(),
            forall|k: int|
                0 <= k < j ==> key_le(key_of(#[trigger] items_view(v@)[k]), key_of(item_view(x))),
        ensures
            0 <= j <= v@.len(),
            forall|k: int|
                0 <= k < j ==> key_le(key_of(#[trigger] items_view(v@)[k]), key_of(item_view(x))),
            j < v@.len() ==> !key_le(key_of(items_view(v@)[j as int]), key_of(item_view(x))),
        decreases v@.len() - j,
    {
        if j >= v.len() {
            break ;
        }
        let it = &v[j];
        let le = if it.rank < x.rank {
            true
        } else if it.rank == x.rank {
            crate::text::lex_le_chars(&it.name, &x.name)
        } else {
            false
        };
        if !le {
            break ;
        }
        j += 1;
    }
    proof {
        lemma_spec_insert_at(item_view(x), items_view(v@), j as int);
    }
    let ghost pre = v@;
    v.insert(j, x);
    proof {
        assert(items_view(v@) =~= items_view(pre).take(j as int) + seq![item_view(x)] + items_view(
            pre,
        ).skip(j as int));
    }
    v
}

/// Sorts scanner items by ascending key; items with equal keys keep their
/// relative order.
fn sort_items(v: Vec<ScanItem>) -> (r: Vec<ScanItem>)
    ensures
        items_view(r@) == spec_sort(items_view(v@)),
{
    let mut v = v;
    let ghost orig = items_view(v@);
    let mut out: Vec<ScanItem> = Vec::new();
    let ghost total = v@.len();
    proof {
        assert(items_view(v@) =~= orig.skip(0));
        assert(items_view(out@) =~= spec_sort(orig.take(0)));
    }
    let ghost mut k: int = 0;
    while v.len() > 0
        invariant
            orig.len() == total,
            0 <= k <= total,
            v@.len() == total - k,
            items_view(v@) == orig.skip(k),
            items_view(out@) == spec_sort(orig.take(k)),
        decreases v@.len(),
    {
        let ghost vpre = v@;
        let x = v.remove(0);
        proof {
            assert(item_view(x) == items_view(vpre)[0]);
            assert(item_view(x) == orig[k]);
            assert forall|j: int| 0 <= j < items_view(v@).len() implies items_view(v@)[j]
                == orig.skip(k + 1)[j] by {
                assert(v@[j] == vpre[j + 1]);
                assert(items_view(vpre)[j + 1] == orig.skip(k)[j + 1]);
            }
            assert(items_view(v@) =~= orig.skip(k + 1));
        }
        out = insert_sorted(out, x);
        proof {
            assert(orig.take(k + 1).drop_last() =~= orig.take(k));
            assert(orig.take(k + 1).last() == orig[k]);
            k = k + 1;
        }
    }
    proof {
        assert(orig.take(total as int) =~= orig);
    }
    out
}

/// Scans one directory level (and, recursively, its subdirectories) into
/// ordered navigation entries. `base` is the URL path of the level, the
/// site prefix included.
pub fn scan_entries(entries: &Vec<FsEntry>, base: &Vec<char>) -> (r: Vec<NavEntry>)
    ensures
        navs_view(r@) == spec_scan(entries@, base@),
    decreases entries@,
{
    let n = entries.len();
    let mut items: Vec<ScanItem> = Vec::new();
    let mut i: usize = 0;
    proof {
        assert(items_view(items@) + spec_items_from(entries@, 0, base@) =~= spec_items_from(
            entries@,
            0,
            base@,
        ));
    }
    while i < n
        invariant
            n == entries@.len(),
            0 <= i <= n,
            items_view(items@) + spec_items_from(entries@, i as int, base@) == spec_items_from(
                entries@,
                0,
                base@,
            ),
        decreases n - i,
    {
        let ghost pre = items_view(items@);
        let e = &entries[i];
        match e {
            FsEntry::Dir { name, entries: sub } => {
                if !str_eq(name.as_str(), "images") {
                    proof {
                        reveal_strlit("images");
                    }
                    let name_chars = to_chars(name.as_str());
                    let mut url: Vec<char> = Vec::new();
                    push_chars(&mut url, base);
                    url.push('/');
                    push_chars(&mut url, &name_chars);
                    proof {
                        assert(url@ =~= base@ + seq!['/'] + name@);
                    }
                    let key = sort_key_chars(&name_chars);
                    let title = format_title_chars(&name_chars);
                    proof {
                        assert(decreases_to!(entries@ => entries@[i as int]));
                        assert(decreases_to!(entries@[i as int] => sub@));
                    }
                    let children = scan_entries(sub, &url);
                    let entry = NavEntry {
                        title: chars_to_string(&title),
                        url_path: chars_to_string(&url),
                        children,
                    };
                    let item = ScanItem { rank: key.rank, name: key.name, entry };
                    proof {
                        assert(item_view(item) == entry_items(entries@[i as int], base@)[0]);
                    }
                    items.push(item);
                    proof {
                        assert(items_view(items@) =~= pre.push(item_view(item)));
                        assert(pre.push(item_view(item)) + spec_items_from(entries@, i + 1, base@)
                            =~= pre + (entry_items(entries@[i as int], base@) + spec_items_from(
                            entries@,
                            i + 1,
                            base@,
                        )));
                    }
                } else {
                    proof {
                        assert(entry_items(entries@[i as int], base@) =~= Seq::<KeyedNode>::empty());
                        assert(pre + (Seq::<KeyedNode>::empty() + spec_items_from(
                            entries@,
                            i + 1,
                            base@,
                        )) =~= pre + spec_items_from(entries@, i + 1, base@));
                    }
                }
            },
            FsEntry::File { name, modified } => {
                let name_chars = to_chars(name.as_str());
                let nl = name_chars.len();
                let is_md = nl > 3 && {
                    let c1 = name_chars[nl - 3];
                    let c2 = name_chars[nl - 2];
                    let c3 = name_chars[nl - 1];
                    c1 == '.' && c2 == 'm' && c3 == 'd'
                };
                proof {
                    reveal_strlit(".md");
                    if nl > 3 {
                        if name@[nl - 3] == '.' && name@[nl - 2] == 'm' && name@[nl - 1] == 'd' {
                            assert(name@.subrange(nl - 3, nl as int) =~= ".md"@);
                        } else {
                            if name@.subrange(nl - 3, nl as int) == ".md"@ {
                                assert(name@.subrange(nl - 3, nl as int)[0] == '.');
                                assert(name@.subrange(nl - 3, nl as int)[1] == 'm');
                                assert(name@.subrange(nl - 3, nl as int)[2] == 'd');
                            }
                        }
                    }
                    assert(is_md == is_md_name(name@));
                }
                if is_md {
                    let stem = copy_range(&name_chars, 0, nl - 3);
                    proof {
                        assert(stem@ =~= md_stem(name@));
                    }
                    let mut url: Vec<char> = Vec::new();
                    push_chars(&mut url, base);
                    url.push('/');
                    push_chars(&mut url, &stem);
                    proof {
                        assert(url@ =~= base@ + seq!['/'] + md_stem(name@));
                    }
                    let key = sort_key_chars(&stem);
                    let title = format_title_chars(&stem);
                    let entry = NavEntry {
                        title: chars_to_string(&title),
                        url_path: chars_to_string(&url),
                        children: Vec::new(),
                    };
                    let item = ScanItem { rank: key.rank, name: key.name, entry };
                    proof {
                        assert(navs_view(Seq::<NavEntry>::empty()) =~= Seq::<NavNode>::empty());
                        assert(item_view(item) == entry_items(entries@[i as int], base@)[0]);
                    }
                    items.push(item);
                    proof {
                        assert(items_view(items@) =~= pre.push(item_view(item)));
                        assert(pre.push(item_view(item)) + spec_items_from(entries@, i + 1, base@)
                            =~= pre + (entry_items(entries@[i as int], base@) + spec_items_from(
                            entries@,
                            i + 1,
                            base@,
                        )));
                    }
                } else {
                    proof {
                        assert(entry_items(entries@[i as int], base@) =~= Seq::<KeyedNode>::empty());
                        assert(pre + (Seq::<KeyedNode>::empty() + spec_items_from(
                            entries@,
                            i + 1,
                            base@,
                        )) =~= pre + spec_items_from(entries@, i + 1, base@));
                    }
                }
            },
        }
        i += 1;
    }
    proof {
        assert(items_view(items@) + spec_items_from(entries@, n as int, base@) =~= items_view(
            items@,
        ));
    }
    let sorted = sort_items(items);
    let ghost full = spec_sort(spec_items_from(entries@, 0, base@));
    let mut sorted = sorted;
    let mut out: Vec<NavEntry> = Vec::new();
    let ghost stotal = sorted@.len();
    proof {
        assert(items_view(sorted@) =~= full.skip(0));
        lemma_navs_view(out@);
        assert(navs_view(out@) =~= strip_keys(full).take(0));
    }
    let ghost mut k: int = 0;
    while sorted.len() > 0
        invariant
            full.len() == stotal,
            0 <= k <= stotal,
            sorted@.len() == stotal - k,
            items_view(sorted@) == full.skip(k),
            navs_view(out@) == strip_keys(full).take(k),
        decreases sorted@.len(),
    {
        let ghost spre = sorted@;
        let x = sorted.remove(0);
        proof {
            assert(item_view(x) == items_view(spre)[0]);
            assert(item_view(x) == full[k]);
            assert forall|j: int| 0 <= j < items_view(sorted@).len() implies items_view(sorted@)[j]
                == full.skip(k + 1)[j] by {
                assert(sorted@[j] == spre[j + 1]);
                assert(items_view(spre)[j + 1] == full.skip(k)[j + 1]);
            }
            assert(items_view(sorted@) =~= full.skip(k + 1));
        }
        let ghost opre = out@;
        out.push(x.entry);
        proof {
            lemma_navs_view(opre);
            lemma_navs_view(out@);
            assert(out@ =~= opre.push(x.entry));
            assert(nav_view(x.entry) == item_view(x).2);
            assert forall|j: int| 0 <= j < navs_view(out@).len() implies navs_view(out@)[j]
                == strip_keys(full).take(k + 1)[j] by {
                if j < k {
                    assert(navs_view(opre)[j] == strip_keys(full).take(k)[j]);
                    assert(navs_view(out@)[j] == nav_view(out@[j]));
                    assert(navs_view(opre)[j] == nav_view(opre[j]));
                } else {
                    assert(navs_view(out@)[j] == nav_view(out@[j]));
                }
            }
            assert(navs_view(out@) =~= strip_keys(full).take(k + 1));
            k = k + 1;
        }
    }
    proof {
        assert(strip_keys(full).take(stotal as int) =~= strip_keys(full));
    }
    out
}

/// Scans the content tree into the ordered sidebar structure. `prefix` is
/// the site's URL prefix, prepended to every generated link.
pub fn scan(root: &Vec<FsEntry>, prefix: &str) -> (r: Vec<NavEntry>)
    ensures
        navs_view(r@) == spec_scan(root@, prefix@),
{
    let base = to_chars(prefix);
    scan_entries(root, &base)
}

} // verus!

// The laws of the scanner: sibling order and the exclusion of `images`
// directories. They are stated over `spec_scan` and therefore hold at
// every depth, since the children of a directory node are themselves
// `spec_scan` of that subdirectory.

verus! {

/// First position of `s` whose key does not precede or equal `x`'s key.
pub open spec fn insert_pos(x: KeyedNode, s: Seq<KeyedNode>) -> int
    decreases s.len(),
{
    if s.len() == 0 {
        0
    } else if key_le(key_of(s[0]), key_of(x)) {
        1 + insert_pos(x, s.drop_first())
    } else {
        0
    }
}

/// A stable insertion splits the sequence at `insert_pos`.
pub proof fn lemma_insert_pos(x: KeyedNode, s: Seq<KeyedNode>)
    ensures
        0 <= insert_pos(x, s) <= s.len(),
        forall|k: int|
            0 <= k < insert_pos(x, s) ==> key_le(key_of(#[trigger] s[k]), key_of(x)),
        insert_pos(x, s) < s.len() ==> !key_le(key_of(s[insert_pos(x, s)]), key_of(x)),
        spec_insert(x, s) == s.take(insert_pos(x, s)) + seq![x] + s.skip(insert_pos(x, s)),
    decreases s.len(),
{
    if s.len() == 0 || !key_le(key_of(s[0]), key_of(x)) {
        lemma_spec_insert_at(x, s, insert_pos(x, s));
    } else {
        lemma_insert_pos(x, s.drop_first());
        assert forall|k: int| 0 <= k < insert_pos(x, s) implies key_le(
            key_of(#[trigger] s[k]),
            key_of(x),
        ) by {
            if k > 0 {
                assert(s.drop_first()[k - 1] == s[k]);
            }
        }
        lemma_spec_insert_at(x, s, insert_pos(x, s));
    }
}

/// Keys stand in ascending order.
pub open spec fn keys_sorted(s: Seq<KeyedNode>) -> bool {
    forall|i: int, j: int|
        0 <= i < j < s.len() ==> key_le(key_of(#[trigger] s[i]), key_of(#[trigger] s[j]))
}

proof fn lemma_insert_keeps_sorted(x: KeyedNode, s: Seq<KeyedNode>)
    requires
        keys_sorted(s),
    ensures
        keys_sorted(spec_insert(x, s)),
{
    lemma_insert_pos(x, s);
    let p = insert_pos(x, s);
    let r = spec_insert(x, s);
    assert forall|i: int, j: int| 0 <= i < j < r.len() implies key_le(
        key_of(#[trigger] r[i]),
        key_of(#[trigger] r[j]),
    ) by {
        if i < p && j < p {
            assert(r[i] == s[i] && r[j] == s[j]);
        } else if i < p && j == p {
            assert(r[i] == s[i] && r[j] == x);
        } else if i < p && j > p {
            assert(r[i] == s[i] && r[j] == s[j - 1]);
        } else if i == p && j > p {
            assert(r[i] == x && r[j] == s[j - 1]);
            lemma_key_le_total(key_of(x), key_of(s[p]));
            if p < j - 1 {
                lemma_key_le_trans(key_of(x), key_of(s[p]), key_of(s[j - 1]));
            }
        } else {
            assert(r[i] == s[i - 1] && r[j] == s[j - 1]);
        }
    }
}

proof fn lemma_sort_keeps_sorted(s: Seq<KeyedNode>)
    ensures
        keys_sorted(spec_sort(s)),
    decreases s.len(),
{
    if s.len() > 0 {
        lemma_sort_keeps_sorted(s.drop_last());
        lemma_insert_keeps_sorted(s.last(), spec_sort(s.drop_last()));
    }
}

/// Law: at every level of the scanned tree, siblings stand in ascending
/// `SortKey` order: the nodes of a level are the keyed items of its
/// entries sorted by key, and the keys are sorted. Children of a
/// directory node are `spec_scan` of its subdirectory, so the same holds
/// below.
pub proof fn lemma_scan_siblings_sorted(entries: Seq<FsEntry>, base: Seq<char>)
    ensures
        keys_sorted(spec_sort(spec_items_from(entries, 0, base))),
        spec_scan(entries, base) == strip_keys(spec_sort(spec_items_from(entries, 0, base))),
{
    lemma_sort_keeps_sorted(spec_items_from(entries, 0, base));
}

/// The characters after the last `/` of `url`.
pub open spec fn last_seg(url: Seq<char>) -> Seq<char>
    decreases url.len(),
{
    if url.len() == 0 {
        url
    } else if url[url.len() - 1] == '/' {
        Seq::empty()
    } else {
        last_seg(url.drop_last()) + seq![url[url.len() - 1]]
    }
}

pub open spec fn slash_free(s: Seq<char>) -> bool {
    forall|i: int| 0 <= i < s.len() ==> (#[trigger] s[i]) != '/'
}

pub proof fn lemma_last_seg_append(base: Seq<char>, seg: Seq<char>)
    requires
        slash_free(seg),
    ensures
        last_seg(base + seq!['/'] + seg) == seg,
    decreases seg.len(),
{
    let u = base + seq!['/'] + seg;
    if seg.len() == 0 {
        assert(u[u.len() - 1] == '/');
        assert(last_seg(u) =~= seg);
    } else {
        assert(u[u.len() - 1] == seg[seg.len() - 1]);
        assert(u.drop_last() =~= base + seq!['/'] + seg.drop_last());
        assert(slash_free(seg.drop_last())) by {
            assert(forall|i: int|
                0 <= i < seg.len() - 1 ==> (#[trigger] seg.drop_last()[i]) == seg[i]);
        }
        lemma_last_seg_append(base, seg.drop_last());
        assert(last_seg(u) =~= seg.drop_last() + seq![seg[seg.len() - 1]]);
        assert(seg.drop_last() + seq![seg[seg.len() - 1]] =~= seg);
    }
}

/// No node of the tree, at any depth, has `images` as its final URL
/// segment.
pub open spec fn node_ok(n: NavNode) -> bool
    decreases n, 0int,
{
    last_seg(n.url_path) != "images"@ && nodes_ok(n.children, 0)
}

pub open spec fn nodes_ok(nodes: Seq<NavNode>, i: int) -> bool
    decreases nodes, nodes.len() - i,
{
    if i < 0 || i >= nodes.len() {
        true
    } else {
        node_ok(nodes[i]) && nodes_ok(nodes, i + 1)
    }
}

pub proof fn lemma_nodes_ok_index(nodes: Seq<NavNode>, i: int)
    requires
        0 <= i <= nodes.len(),
    ensures
        nodes_ok(nodes, i) <==> (forall|j: int| i <= j < nodes.len() ==> node_ok(#[trigger] nodes[j])),
    decreases nodes.len() - i,
{
    if i < nodes.len() {
        lemma_nodes_ok_index(nodes, i + 1);
    }
}

/// A well-formed content tree: names hold no `/`, and no Markdown file's
/// stem is the reserved word `images`.
pub open spec fn entry_clean(e: FsEntry) -> bool
    decreases e, 0int,
{
    match e {
        FsEntry::Dir { name, entries } => slash_free(name@) && entries_clean(entries@, 0),
        FsEntry::File { name, modified } => slash_free(name@) && (is_md_name(name@)
            ==> md_stem(name@) != "images"@),
    }
}

pub open spec fn entries_clean(entries: Seq<FsEntry>, i: int) -> bool
    decreases entries, entries.len() - i,
{
    if i < 0 || i >= entries.len() {
        true
    } else {
        entry_clean(entries[i]) && entries_clean(entries, i + 1)
    }
}

pub open spec fn kitems_ok(s: Seq<KeyedNode>) -> bool {
    forall|j: int| 0 <= j < s.len() ==> node_ok((#[trigger] s[j]).2)
}

proof fn lemma_insert_keeps_ok(x: KeyedNode, s: Seq<KeyedNode>)
    requires
        node_ok(x.2),
        kitems_ok(s),
    ensures
        kitems_ok(spec_insert(x, s)),
{
    lemma_insert_pos(x, s);
    let p = insert_pos(x, s);
    let r = spec_insert(x, s);
    assert forall|j: int| 0 <= j < r.len() implies node_ok((#[trigger] r[j]).2) by {
        if j < p {
            assert(r[j] == s[j]);
        } else if j == p {
            assert(r[j] == x);
        } else {
            assert(r[j] == s[j - 1]);
        }
    }
}

proof fn lemma_sort_keeps_ok(s: Seq<KeyedNode>)
    requires
        kitems_ok(s),
    ensures
        kitems_ok(spec_sort(s)),
    decreases s.len(),
{
    if s.len() > 0 {
        assert(kitems_ok(s.drop_last())) by {
            assert(forall|j: int| 0 <= j < s.len() - 1 ==> s.drop_last()[j] == s[j]);
        }
        lemma_sort_keeps_ok(s.drop_last());
        lemma_insert_keeps_ok(s.last(), spec_sort(s.drop_last()));
    }
}

proof fn lemma_items_ok(entries: Seq<FsEntry>, i: int, base: Seq<char>)
    requires
        0 <= i,
        entries_clean(entries, i),
    ensures
        kitems_ok(spec_items_from(entries, i, base)),
    decreases entries, 1int, entries.len() - i,
{
    if i < entries.len() {
        lemma_items_ok(entries, i + 1, base);
        let head = entry_items(entries[i], base);
        let rest = spec_items_from(entries, i + 1, base);
        assert(entry_clean(entries[i]));
        assert(kitems_ok(head)) by {
            match entries[i] {
                FsEntry::Dir { name, entries: sub } => {
                    assert(entry_clean(FsEntry::Dir { name, entries: sub }));
                    assert(slash_free(name@));
                    if name@ != "images"@ {
                        let url = base + seq!['/'] + name@;
                        lemma_last_seg_append(base, name@);
                        lemma_scan_ok(sub@, url);
                    }
                },
                FsEntry::File { name, modified } => {
                    assert(entry_clean(FsEntry::File { name, modified }));
                    assert(slash_free(name@));
                    if is_md_name(name@) {
                        let seg = md_stem(name@);
                        assert(slash_free(seg)) by {
                            assert(forall|k: int| 0 <= k < seg.len() ==> seg[k] == name@[k]);
                        }
                        lemma_last_seg_append(base, seg);
                        assert(nodes_ok(head[0].2.children, 0));
                    }
                },
            }
        }
        assert forall|j: int| 0 <= j < (head + rest).len() implies node_ok(
            (#[trigger] (head + rest)[j]).2,
        ) by {
            if j < head.len() {
                assert((head + rest)[j] == head[j]);
            } else {
                assert((head + rest)[j] == rest[j - head.len()]);
            }
        }
    }
}

/// Law: a scan of a well-formed tree yields no node whose final URL
/// segment is `images`, at any depth.
pub proof fn lemma_scan_ok(entries: Seq<FsEntry>, base: Seq<char>)
    requires
        entries_clean(entries, 0),
    ensures
        nodes_ok(spec_scan(entries, base), 0),
    decreases entries, 2int, 0int,
{
    lemma_items_ok(entries, 0, base);
    lemma_sort_keeps_ok(spec_items_from(entries, 0, base));
    let sorted = spec_sort(spec_items_from(entries, 0, base));
    lemma_nodes_ok_index(strip_keys(sorted), 0);
    assert forall|j: int| 0 <= j < strip_keys(sorted).len() implies node_ok(
        #[trigger] strip_keys(sorted)[j],
    ) by {
        assert(strip_keys(sorted)[j] == sorted[j].2);
    }
}

} // verus!

// The reachability invariant of the navigation tree: every node's URL is
// one that the route resolver accepts.

verus! {

/// A tree whose names can take part in routes: directory names and
/// Markdown stems are acceptable route segments.
pub open spec fn entry_routable(e: FsEntry) -> bool
    decreases e, 0int,
{
    match e {
        FsEntry::Dir { name, entries } => !bad_segment(name@) && entries_routable(entries@, 0),
        FsEntry::File { name, modified } => is_md_name(name@) ==> !bad_segment(md_stem(name@)),
    }
}

pub open spec fn entries_routable(entries: Seq<FsEntry>, i: int) -> bool
    decreases entries, entries.len() - i,
{
    if i < 0 || i >= entries.len() {
        true
    } else {
        entry_routable(entries[i]) && entries_routable(entries, i + 1)
    }
}

/// The segment list `segs` leads to `url` under the site prefix.
pub open spec fn reaches(url: Seq<char>, prefix: Seq<char>, segs: Seq<Seq<char>>) -> bool {
    segs.len() > 0 && !any_bad(segs) && url == prefix + path_of(segs, 0)
}

/// Some clean segment list leads to the node's URL.
pub open spec fn node_reachable(n: NavNode, prefix: Seq<char>) -> bool {
    exists|segs: Seq<Seq<char>>| reaches(n.url_path, prefix, segs)
}

pub open spec fn node_reachable_deep(n: NavNode, prefix: Seq<char>) -> bool
    decreases n, 0int,
{
    node_reachable(n, prefix) && nodes_reachable_deep(n.children, 0, prefix)
}

pub open spec fn nodes_reachable_deep(nodes: Seq<NavNode>, i: int, prefix: Seq<char>) -> bool
    decreases nodes, nodes.len() - i,
{
    if i < 0 || i >= nodes.len() {
        true
    } else {
        node_reachable_deep(nodes[i], prefix) && nodes_reachable_deep(nodes, i + 1, prefix)
    }
}

/// A segment list that leads anywhere is one the resolver answers.
pub proof fn lemma_reaches_resolves(
    url: Seq<char>,
    prefix: Seq<char>,
    segs: Seq<Seq<char>>,
    root: Seq<char>,
)
    requires
        reaches(url, prefix, segs),
    ensures
        spec_resolve(root, segs) is Some,
{
}

proof fn lemma_path_of_push(s: Seq<Seq<char>>, x: Seq<char>, i: int)
    requires
        0 <= i <= s.len(),
    ensures
        path_of(s.push(x), i) == path_of(s, i) + seq!['/'] + x,
    decreases s.len() - i,
{
    if i == s.len() {
        assert(path_of(s.push(x), i + 1) =~= Seq::<char>::empty());
        assert(s.push(x)[i] == x);
        assert(path_of(s, i) =~= Seq::<char>::empty());
        assert(path_of(s.push(x), i) =~= path_of(s, i) + seq!['/'] + x);
    } else {
        lemma_path_of_push(s, x, i + 1);
        assert(s.push(x)[i] == s[i]);
        assert(seq!['/'] + s[i] + (path_of(s, i + 1) + seq!['/'] + x) =~= (seq!['/'] + s[i]
            + path_of(s, i + 1)) + seq!['/'] + x);
    }
}

proof fn lemma_any_bad_push(s: Seq<Seq<char>>, x: Seq<char>)
    requires
        !any_bad(s),
        !bad_segment(x),
    ensures
        !any_bad(s.push(x)),
{
    assert forall|j: int| 0 <= j < s.push(x).len() implies !bad_segment(
        #[trigger] s.push(x)[j],
    ) by {
        if j < s.len() {
            assert(s.push(x)[j] == s[j]);
        }
    }
}

pub open spec fn kitems_reachable(s: Seq<KeyedNode>, prefix: Seq<char>) -> bool {
    forall|j: int| 0 <= j < s.len() ==> node_reachable_deep((#[trigger] s[j]).2, prefix)
}

proof fn lemma_insert_keeps_reachable(x: KeyedNode, s: Seq<KeyedNode>, prefix: Seq<char>)
    requires
        node_reachable_deep(x.2, prefix),
        kitems_reachable(s, prefix),
    ensures
        kitems_reachable(spec_insert(x, s), prefix),
{
    lemma_insert_pos(x, s);
    let p = insert_pos(x, s);
    let r = spec_insert(x, s);
    assert forall|j: int| 0 <= j < r.len() implies node_reachable_deep(
        (#[trigger] r[j]).2,
        prefix,
    ) by {
        if j < p {
            assert(r[j] == s[j]);
        } else if j == p {
            assert(r[j] == x);
        } else {
            assert(r[j] == s[j - 1]);
        }
    }
}

proof fn lemma_sort_keeps_reachable(s: Seq<KeyedNode>, prefix: Seq<char>)
    requires
        kitems_reachable(s, prefix),
    ensures
        kitems_reachable(spec_sort(s), prefix),
    decreases s.len(),
{
    if s.len() > 0 {
        assert(kitems_reachable(s.drop_last(), prefix)) by {
            assert(forall|j: int| 0 <= j < s.len() - 1 ==> s.drop_last()[j] == s[j]);
        }
        lemma_sort_keeps_reachable(s.drop_last(), prefix);
        lemma_insert_keeps_reachable(s.last(), spec_sort(s.drop_last()), prefix);
    }
}

proof fn lemma_items_reachable(
    entries: Seq<FsEntry>,
    i: int,
    base: Seq<char>,
    prefix: Seq<char>,
    segs0: Seq<Seq<char>>,
)
    requires
        0 <= i,
        entries_routable(entries, i),
        base == prefix + path_of(segs0, 0),
        !any_bad(segs0),
    ensures
        kitems_reachable(spec_items_from(entries, i, base), prefix),
    decreases entries, 1int, entries.len() - i,
{
    if i < entries.len() {
        lemma_items_reachable(entries, i + 1, base, prefix, segs0);
        let head = entry_items(entries[i], base);
        let rest = spec_items_from(entries, i + 1, base);
        assert(entry_routable(entries[i]));
        assert(kitems_reachable(head, prefix)) by {
            match entries[i] {
                FsEntry::Dir { name, entries: sub } => {
                    assert(entry_routable(FsEntry::Dir { name, entries: sub }));
                    if name@ != "images"@ {
                        let segs = segs0.push(name@);
                        lemma_path_of_push(segs0, name@, 0);
                        lemma_any_bad_push(segs0, name@);
                        let url = base + seq!['/'] + name@;
                        assert(url =~= prefix + path_of(segs, 0));
                        assert(reaches(url, prefix, segs));
                        lemma_scan_reachable_at(sub@, url, prefix, segs);
                        assert(head[0].2.url_path == url);
                        assert(node_reachable(head[0].2, prefix));
                        assert(node_reachable_deep(head[0].2, prefix));
                    }
                },
                FsEntry::File { name, modified } => {
                    assert(entry_routable(FsEntry::File { name, modified }));
                    if is_md_name(name@) {
                        let seg = md_stem(name@);
                        let segs = segs0.push(seg);
                        lemma_path_of_push(segs0, seg, 0);
                        lemma_any_bad_push(segs0, seg);
                        let url = base + seq!['/'] + seg;
                        assert(url =~= prefix + path_of(segs, 0));
                        assert(reaches(url, prefix, segs));
                        assert(head[0].2.url_path == url);
                        assert(node_reachable(head[0].2, prefix));
                        assert(nodes_reachable_deep(head[0].2.children, 0, prefix));
                        assert(node_reachable_deep(head[0].2, prefix));
                    }
                },
            }
        }
        assert forall|j: int| 0 <= j < (head + rest).len() implies node_reachable_deep(
            (#[trigger] (head + rest)[j]).2,
            prefix,
        ) by {
            if j < head.len() {
                assert((head + rest)[j] == head[j]);
            } else {
                assert((head + rest)[j] == rest[j - head.len()]);
            }
        }
    }
}

proof fn lemma_scan_reachable_at(
    entries: Seq<FsEntry>,
    base: Seq<char>,
    prefix: Seq<char>,
    segs0: Seq<Seq<char>>,
)
    requires
        entries_routable(entries, 0),
        base == prefix + path_of(segs0, 0),
        !any_bad(segs0),
    ensures
        nodes_reachable_deep(spec_scan(entries, base), 0, prefix),
    decreases entries, 2int, 0int,
{
    lemma_items_reachable(entries, 0, base, prefix, segs0);
    lemma_sort_keeps_reachable(spec_items_from(entries, 0, base), prefix);
    let sorted = spec_sort(spec_items_from(entries, 0, base));
    lemma_nodes_reachable_index(strip_keys(sorted), 0, prefix);
    assert forall|j: int| 0 <= j < strip_keys(sorted).len() implies node_reachable_deep(
        #[trigger] strip_keys(sorted)[j],
        prefix,
    ) by {
        assert(strip_keys(sorted)[j] == sorted[j].2);
    }
}

proof fn lemma_nodes_reachable_index(nodes: Seq<NavNode>, i: int, prefix: Seq<char>)
    requires
        0 <= i <= nodes.len(),
    ensures
        nodes_reachable_deep(nodes, i, prefix) <==> (forall|j: int|
            i <= j < nodes.len() ==> node_reachable_deep(#[trigger] nodes[j], prefix)),
    decreases nodes.len() - i,
{
    if i < nodes.len() {
        lemma_nodes_reachable_index(nodes, i + 1, prefix);
    }
}

/// Law: in a scan of a tree whose names are acceptable route segments,
/// every node at every depth carries a URL that some clean segment list
/// reaches under the site prefix — a URL the route resolver answers
/// (see `lemma_reaches_resolves`).
pub proof fn lemma_scan_urls_reachable(entries: Seq<FsEntry>, prefix: Seq<char>)
    requires
        entries_routable(entries, 0),
    ensures
        nodes_reachable_deep(spec_scan(entries, prefix), 0, prefix),
{
    assert(prefix =~= prefix + path_of(Seq::empty(), 0));
    lemma_scan_reachable_at(entries, prefix, prefix, Seq::empty());
}

} // verus!
