//! Recently-modified documents: walks the content tree, collects every
//! Markdown document with its last-modification time, orders them newest
//! first (ties keep encounter order), and keeps the first `limit`.

use vstd::prelude::*;
use crate::fstree::FsEntry;
use crate::fstree::is_md_name;
use crate::fstree::md_stem;
use crate::text::to_chars;
use crate::text::chars_to_string;
use crate::text::push_chars;
use crate::text::copy_range;
use crate::text::str_eq;
use crate::title::spec_format_title;
use crate::title::format_title_chars;

verus! {

/// One recently-modified document. `modified` is the last-modification
/// time in seconds; `date` is its display text.
pub struct RecentItem {
    pub title: String,
    pub url_path: String,
    pub category: String,
    pub modified: u64,
    pub date: String,
}

/// The mathematical shape of a recent-list entry.
pub struct RecentRec {
    pub title: Seq<char>,
    pub url_path: Seq<char>,
    pub category: Seq<char>,
    pub modified: u64,
    pub date: Seq<char>,
}

pub open spec fn rec_view(it: RecentItem) -> RecentRec {
    RecentRec {
        title: it.title@,
        url_path: it.url_path@,
        category: it.category@,
        modified: it.modified,
        date: it.date@,
    }
}

pub open spec fn recs_view(s: Seq<RecentItem>) -> Seq<RecentRec> {
    Seq::new(s.len(), |i: int| rec_view(s[i]))
}

/// The display text of a modification time, as the date formatter yields
/// it for that seconds value.
pub uninterp spec fn date_display_of(secs: u64) -> Seq<char>;

/// Relies on `chrono::DateTime::from_timestamp` and `DateTime::format`:
/// the UTC display text `"%b %d, %Y %H:%M"` of a timestamp depends on the
/// seconds value alone. A value out of chrono's range yields empty text.
#[verifier::external_body]
pub fn format_timestamp(secs: u64) -> (r: String)
    ensures
        r@ == date_display_of(secs),
{
    match i64::try_from(secs) {
        Ok(t) => match chrono::DateTime::from_timestamp(t, 0) {
            Some(dt) => dt.format("%b %d, %Y %H:%M").to_string(),
            None => String::new(),
        },
        Err(_) => String::new(),
    }
}

/// The documents one entry contributes, in walk order. `base` is the URL
/// path so far, `cat` the display label of the top-level folder, and `top`
/// whether the entry stands directly under the content root.
pub open spec fn collect_entry(e: FsEntry, base: Seq<char>, cat: Seq<char>, top: bool) -> Seq<
    RecentRec,
>
    decreases e, 0int, 0int,
{
    match e {
        FsEntry::Dir { name, entries } => {
            if name@ == "images"@ {
                Seq::empty()
            } else {
                collect_from(
                    entries@,
                    0,
                    base + seq!['/'] + name@,
                    if top {
                        spec_format_title(name@)
                    } else {
                        cat
                    },
                    false,
                )
            }
        },
        FsEntry::File { name, modified } => {
            if is_md_name(name@) {
                let seg = md_stem(name@);
                seq![
                    RecentRec {
                        title: spec_format_title(seg),
                        url_path: base + seq!['/'] + seg,
                        category: if top {
                            spec_format_title(seg)
                        } else {
                            cat
                        },
                        modified: modified,
                        date: date_display_of(modified),
                    },
                ]
            } else {
                Seq::empty()
            }
        },
    }
}

/// The documents of the entries from `i` on, in walk order.
pub open spec fn collect_from(
    entries: Seq<FsEntry>,
    i: int,
    base: Seq<char>,
    cat: Seq<char>,
    top: bool,
) -> Seq<RecentRec>
    decreases entries, 1int, entries.len() - i,
{
    if i < 0 || i >= entries.len() {
        Seq::empty()
    } else {
        collect_entry(entries[i], base, cat, top) + collect_from(entries, i + 1, base, cat, top)
    }
}

/// Stable insertion behind every at-least-as-recent item.
pub open spec fn insert_desc(x: RecentRec, s: Seq<RecentRec>) -> Seq<RecentRec>
    decreases s.len(),
{
    if s.len() == 0 {
        seq![x]
    } else if s[0].modified >= x.modified {
        seq![s[0]] + insert_desc(x, s.drop_first())
    } else {
        seq![x] + s
    }
}

/// Stable sort by descending modification time.
pub open spec fn sort_desc(s: Seq<RecentRec>) -> Seq<RecentRec>
    decreases s.len(),
{
    if s.len() == 0 {
        s
    } else {
        insert_desc(s.last(), sort_desc(s.drop_last()))
    }
}

/// The first `limit` documents by descending modification time, walk
/// order breaking ties.
pub open spec fn spec_recent(root: Seq<FsEntry>, prefix: Seq<char>, limit: int) -> Seq<RecentRec> {
    let sorted = sort_desc(collect_from(root, 0, prefix, Seq::empty(), true));
    if limit < sorted.len() {
        sorted.take(limit)
    } else {
        sorted
    }
}

/// Splitting shape of a stable insertion at position `j`.
proof fn lemma_insert_desc_at(x: RecentRec, s: Seq<RecentRec>, j: int)
    requires
        0 <= j <= s.len(),
        forall|k: int| 0 <= k < j ==> (#[trigger] s[k]).modified >= x.modified,
        j < s.len() ==> !(s[j].modified >= x.modified),
    ensures
        insert_desc(x, s) == s.take(j) + seq![x] + s.skip(j),
    decreases s.len(),
{
    if s.len() == 0 {
        assert(insert_desc(x, s) =~= s.take(j) + seq![x] + s.skip(j));
    } else if j == 0 {
        assert(insert_desc(x, s) =~= s.take(0) + seq![x] + s.skip(0));
    } else {
        lemma_insert_desc_at(x, s.drop_first(), j - 1);
        assert(s.drop_first().take(j - 1) =~= s.take(j).drop_first());
        assert(s.drop_first().skip(j - 1) =~= s.skip(j));
        assert(seq![s[0]] + (s.take(j).drop_first() + seq![x] + s.skip(j)) =~= s.take(j) + seq![x]
            + s.skip(j));
    }
}

/// Inserts `x` behind every item modified at least as recently.
fn insert_recent(v: Vec<RecentItem>, x: RecentItem) -> (r: Vec<RecentItem>)
    ensures
        recs_view(r@) == insert_desc(rec_view(x), recs_view(v@)),
{
    let mut v = v;
    let mut j: usize = 0;
    loop
        invariant
            0 <= j <= v@.len(),
            forall|k: int|
                0 <= k < j ==> (#[trigger] recs_view(v@)[k]).modified >= rec_view(x).modified,
        ensures
            0 <= j <= v@.len(),
            forall|k: int|
                0 <= k < j ==> (#[trigger] recs_view(v@)[k]).modified >= rec_view(x).modified,
            j < v@.len() ==> !(recs_view(v@)[j as int].modified >= rec_view(x).modified),
        decreases v@.len() - j,
    {
        if j >= v.len() {
            break ;
        }
        if v[j].modified < x.modified {
            break ;
        }
        j += 1;
    }
    proof {
        lemma_insert_desc_at(rec_view(x), recs_view(v@), j as int);
    }
    let ghost pre = v@;
    v.insert(j, x);
    proof {
        assert(recs_view(v@) =~= recs_view(pre).take(j as int) + seq![rec_view(x)] + recs_view(
            pre,
        ).skip(j as int));
    }
    v
}

/// Sorts by descending modification time; equal times keep their order.
fn sort_recent(v: Vec<RecentItem>) -> (r: Vec<RecentItem>)
    ensures
        recs_view(r@) == sort_desc(recs_view(v@)),
{
    let mut v = v;
    let ghost orig = recs_view(v@);
    let ghost total = v@.len();
    let mut out: Vec<RecentItem> = Vec::new();
    proof {
        assert(recs_view(v@) =~= orig.skip(0));
        assert(recs_view(out@) =~= sort_desc(orig.take(0)));
    }
    let ghost mut k: int = 0;
    while v.len() > 0
        invariant
            orig.len() == total,
            0 <= k <= total,
            v@.len() == total - k,
            recs_view(v@) == orig.skip(k),
            recs_view(out@) == sort_desc(orig.take(k)),
        decreases v@.len(),
    {
        let ghost vpre = v@;
        let x = v.remove(0);
        proof {
            assert(rec_view(x) == recs_view(vpre)[0]);
            assert(rec_view(x) == orig[k]);
            assert forall|j: int| 0 <= j < recs_view(v@).len() implies recs_view(v@)[j] == orig.skip(
                k + 1,
            )[j] by {
                assert(v@[j] == vpre[j + 1]);
                assert(recs_view(vpre)[j + 1] == orig.skip(k)[j + 1]);
            }
            assert(recs_view(v@) =~= orig.skip(k + 1));
        }
        out = insert_recent(out, x);
        proof {
            assert(orig.take(k + 1).drop_last() =~= orig.take(k));
            assert(orig.take(k + 1).last() == orig[k]);
            k = k + 1;
        }
    }
    proof {
        assert(orig.take(total as int) =~= orig);
    }
    out
}

/// Collects every Markdown document under `entries` into `out`, in walk
/// order, skipping `images` directories.
fn collect_docs(
    entries: &Vec<FsEntry>,
    base: &Vec<char>,
    cat: &Vec<char>,
    top: bool,
    out: &mut Vec<RecentItem>,
)
    ensures
        recs_view(final(out)@) == recs_view(old(out)@) + collect_from(
            entries@,
            0,
            base@,
            cat@,
            top,
        ),
    decreases entries@,
{
    let n = entries.len();
    let mut i: usize = 0;
    proof {
        assert(recs_view(out@) + collect_from(entries@, 0, base@, cat@, top) =~= recs_view(
            old(out)@,
        ) + collect_from(entries@, 0, base@, cat@, top));
    }
    while i < n
        invariant
            n == entries@.len(),
            0 <= i <= n,
            recs_view(out@) + collect_from(entries@, i as int, base@, cat@, top) == recs_view(
                old(out)@,
            ) + collect_from(entries@, 0, base@, cat@, top),
        decreases n - i,
    {
        let ghost pre = recs_view(out@);
        let e = &entries[i];
        match e {
            FsEntry::Dir { name, entries: sub } => {
                if !str_eq(name.as_str(), "images") {
                    proof {
                        reveal_strlit("images");
                    }
                    let name_chars = to_chars(name.as_str());
                    let mut url: Vec<char> = Vec::new();
                    push_chars(&mut url, base);
                    url.push('/');
                    push_chars(&mut url, &name_chars);
                    proof {
                        assert(url@ =~= base@ + seq!['/'] + name@);
                    }
                    let sub_cat = if top {
                        format_title_chars(&name_chars)
                    } else {
                        let mut c: Vec<char> = Vec::new();
                        push_chars(&mut c, cat);
                        proof {
                            assert(c@ =~= cat@);
                        }
                        c
                    };
                    proof {
                        assert(decreases_to!(entries@ => entries@[i as int]));
                        assert(decreases_to!(entries@[i as int] => sub@));
                    }
                    collect_docs(sub, &url, &sub_cat, false, out);
                    proof {
                        assert(pre + (collect_entry(entries@[i as int], base@, cat@, top)
                            + collect_from(entries@, i + 1, base@, cat@, top)) =~= recs_view(out@)
                            + collect_from(entries@, i + 1, base@, cat@, top));
                    }
                } else {
                    proof {
                        assert(collect_entry(entries@[i as int], base@, cat@, top) =~= Seq::<
                            RecentRec,
                        >::empty());
                        assert(pre + (Seq::<RecentRec>::empty() + collect_from(
                            entries@,
                            i + 1,
                            base@,
                            cat@,
                            top,
                        )) =~= pre + collect_from(entries@, i + 1, base@, cat@, top));
                    }
                }
            },
            FsEntry::File { name, modified } => {
                let name_chars = to_chars(name.as_str());
                let nl = name_chars.len();
                let is_md = nl > 3 && {
                    let c1 = name_chars[nl - 3];
                    let c2 = name_chars[nl - 2];
                    let c3 = name_chars[nl - 1];
                    c1 == '.' && c2 == 'm' && c3 == 'd'
                };
                proof {
                    reveal_strlit(".md");
                    if nl > 3 {
                        if name@[nl - 3] == '.' && name@[nl - 2] == 'm' && name@[nl - 1] == 'd' {
                            assert(name@.subrange(nl - 3, nl as int) =~= ".md"@);
                        } else {
                            if name@.subrange(nl - 3, nl as int) == ".md"@ {
                                assert(name@.subrange(nl - 3, nl as int)[0] == '.');
                                assert(name@.subrange(nl - 3, nl as int)[1] == 'm');
                                assert(name@.subrange(nl - 3, nl as int)[2] == 'd');
                            }
                        }
                    }
                    assert(is_md == is_md_name(name@));
                }
                if is_md {
                    let stem = copy_range(&name_chars, 0, nl - 3);
                    proof {
                        assert(stem@ =~= md_stem(name@));
                    }
                    let mut url: Vec<char> = Vec::new();
                    push_chars(&mut url, base);
                    url.push('/');
                    push_chars(&mut url, &stem);
                    proof {
                        assert(url@ =~= base@ + seq!['/'] + md_stem(name@));
                    }
                    let title = format_title_chars(&stem);
                    let category = if top {
                        let c = format_title_chars(&stem);
                        c
                    } else {
                        let mut c: Vec<char> = Vec::new();
                        push_chars(&mut c, cat);
                        proof {
                            assert(c@ =~= cat@);
                        }
                        c
                    };
                    let item = RecentItem {
                        title: chars_to_string(&title),
                        url_path: chars_to_string(&url),
                        category: chars_to_string(&category),
                        modified: *modified,
                        date: format_timestamp(*modified),
                    };
                    proof {
                        assert(rec_view(item) == collect_entry(entries@[i as int], base@, cat@, top)[0]);
                    }
                    out.push(item);
                    proof {
                        assert(recs_view(out@) =~= pre.push(rec_view(item)));
                        assert(pre.push(rec_view(item)) + collect_from(entries@, i + 1, base@, cat@, top)
                            =~= pre + (collect_entry(entries@[i as int], base@, cat@, top)
                            + collect_from(entries@, i + 1, base@, cat@, top)));
                    }
                } else {
                    proof {
                        assert(collect_entry(entries@[i as int], base@, cat@, top) =~= Seq::<
                            RecentRec,
                        >::empty());
                        assert(pre + (Seq::<RecentRec>::empty() + collect_from(
                            entries@,
                            i + 1,
                            base@,
                            cat@,
                            top,
                        )) =~= pre + collect_from(entries@, i + 1, base@, cat@, top));
                    }
                }
            },
        }
        i += 1;
    }
    proof {
        assert(recs_view(out@) + collect_from(entries@, n as int, base@, cat@, top) =~= recs_view(
            out@,
        ));
    }
}

/// The at most `limit` most recently modified documents under `root`,
/// newest first, walk order breaking ties. `prefix` is the site's URL
/// prefix.
pub fn recent(root: &Vec<FsEntry>, prefix: &str, limit: usize) -> (r: Vec<RecentItem>)
    ensures
        recs_view(r@) == spec_recent(root@, prefix@, limit as int),
{
    let base = to_chars(prefix);
    let mut collected: Vec<RecentItem> = Vec::new();
    collect_docs(root, &base, &Vec::new(), true, &mut collected);
    proof {
        assert(Seq::<RecentRec>::empty() + collect_from(root@, 0, prefix@, Seq::empty(), true)
            =~= collect_from(root@, 0, prefix@, Seq::empty(), true));
        assert(recs_view(Seq::<RecentItem>::empty()) =~= Seq::<RecentRec>::empty());
    }
    let mut sorted = sort_recent(collected);
    let ghost full = sort_desc(collect_from(root@, 0, prefix@, Seq::empty(), true));
    let mut out: Vec<RecentItem> = Vec::new();
    let ghost mut k: int = 0;
    proof {
        assert(recs_view(sorted@) =~= full.skip(0));
        assert(recs_view(out@) =~= full.take(0));
    }
    while out.len() < limit && sorted.len() > 0
        invariant
            0 <= k <= full.len(),
            out@.len() == k,
            k <= limit,
            sorted@.len() == full.len() - k,
            recs_view(sorted@) == full.skip(k),
            recs_view(out@) == full.take(k),
        decreases limit - out@.len(),
    {
        let ghost spre = sorted@;
        let x = sorted.remove(0);
        proof {
            assert(rec_view(x) == recs_view(spre)[0]);
            assert(rec_view(x) == full[k]);
            assert forall|j: int| 0 <= j < recs_view(sorted@).len() implies recs_view(sorted@)[j]
                == full.skip(k + 1)[j] by {
                assert(sorted@[j] == spre[j + 1]);
                assert(recs_view(spre)[j + 1] == full.skip(k)[j + 1]);
            }
            assert(recs_view(sorted@) =~= full.skip(k + 1));
        }
        let ghost opre = out@;
        out.push(x);
        proof {
            assert(recs_view(out@) =~= recs_view(opre).push(rec_view(x)));
            assert(recs_view(out@) =~= full.take(k + 1));
            k = k + 1;
        }
    }
    proof {
        if k == limit && limit < full.len() {
            assert(recs_view(out@) == spec_recent(root@, prefix@, limit as int));
        } else {
            assert(k == full.len());
            assert(full.take(k) =~= full);
        }
    }
    out
}

} // verus!

// The laws of the aggregator: the result length, the descending order,
// and strict descent when modification times are pairwise distinct.

verus! {

/// First position of `s` modified less recently than `x`.
pub open spec fn insert_pos_desc(x: RecentRec, s: Seq<RecentRec>) -> int
    decreases s.len(),
{
    if s.len() == 0 {
        0
    } else if s[0].modified >= x.modified {
        1 + insert_pos_desc(x, s.drop_first())
    } else {
        0
    }
}

/// A stable insertion splits the sequence at `insert_pos_desc`.
pub proof fn lemma_insert_pos_desc(x: RecentRec, s: Seq<RecentRec>)
    ensures
        0 <= insert_pos_desc(x, s) <= s.len(),
        forall|k: int|
            0 <= k < insert_pos_desc(x, s) ==> (#[trigger] s[k]).modified >= x.modified,
        insert_pos_desc(x, s) < s.len() ==> !(s[insert_pos_desc(x, s)].modified >= x.modified),
        insert_desc(x, s) == s.take(insert_pos_desc(x, s)) + seq![x] + s.skip(
            insert_pos_desc(x, s),
        ),
    decreases s.len(),
{
    if s.len() == 0 || !(s[0].modified >= x.modified) {
        lemma_insert_desc_at(x, s, insert_pos_desc(x, s));
    } else {
        lemma_insert_pos_desc(x, s.drop_first());
        assert forall|k: int| 0 <= k < insert_pos_desc(x, s) implies (#[trigger] s[k]).modified
            >= x.modified by {
            if k > 0 {
                assert(s.drop_first()[k - 1] == s[k]);
            }
        }
        lemma_insert_desc_at(x, s, insert_pos_desc(x, s));
    }
}

/// Modification times never increase along the sequence.
pub open spec fn times_desc(s: Seq<RecentRec>) -> bool {
    forall|i: int, j: int|
        0 <= i < j < s.len() ==> (#[trigger] s[i]).modified >= (#[trigger] s[j]).modified
}

/// Modification times are pairwise distinct.
pub open spec fn times_distinct(s: Seq<RecentRec>) -> bool {
    forall|i: int, j: int|
        0 <= i < j < s.len() ==> (#[trigger] s[i]).modified != (#[trigger] s[j]).modified
}

/// Some item of `s` was modified at `t`.
pub open spec fn time_in(s: Seq<RecentRec>, t: u64) -> bool {
    exists|i: int| 0 <= i < s.len() && (#[trigger] s[i]).modified == t
}

proof fn lemma_insert_desc_props(x: RecentRec, s: Seq<RecentRec>)
    ensures
        insert_desc(x, s).len() == s.len() + 1,
        forall|t: u64|
            #[trigger] time_in(insert_desc(x, s), t) <==> (t == x.modified || time_in(s, t)),
        times_desc(s) ==> times_desc(insert_desc(x, s)),
        times_distinct(s) && !time_in(s, x.modified) ==> times_distinct(insert_desc(x, s)),
{
    lemma_insert_pos_desc(x, s);
    let p = insert_pos_desc(x, s);
    let r = insert_desc(x, s);
    assert forall|t: u64| #[trigger] time_in(r, t) implies (t == x.modified || time_in(s, t)) by {
        let i = choose|i: int| 0 <= i < r.len() && (#[trigger] r[i]).modified == t;
        if i < p {
            assert(s[i].modified == t);
        } else if i > p {
            assert(s[i - 1].modified == t);
        }
    }
    assert forall|t: u64| (t == x.modified || time_in(s, t)) implies #[trigger] time_in(r, t) by {
        if t == x.modified {
            assert(r[p].modified == t);
        } else {
            let i = choose|i: int| 0 <= i < s.len() && (#[trigger] s[i]).modified == t;
            if i < p {
                assert(r[i].modified == t);
            } else {
                assert(r[i + 1].modified == t);
            }
        }
    }
    if times_desc(s) {
        assert forall|i: int, j: int| 0 <= i < j < r.len() implies (#[trigger] r[i]).modified >= (
        #[trigger] r[j]).modified by {
            if i < p && j < p {
                assert(r[i] == s[i] && r[j] == s[j]);
            } else if i < p && j == p {
                assert(r[i] == s[i] && r[j] == x);
            } else if i < p && j > p {
                assert(r[i] == s[i] && r[j] == s[j - 1]);
            } else if i == p && j > p {
                assert(r[i] == x && r[j] == s[j - 1]);
            } else if i > p {
                assert(r[i] == s[i - 1] && r[j] == s[j - 1]);
            }
        }
    }
    if times_distinct(s) && !time_in(s, x.modified) {
        assert forall|i: int, j: int| 0 <= i < j < r.len() implies (#[trigger] r[i]).modified != (
        #[trigger] r[j]).modified by {
            if i == p && j > p {
                assert(r[j] == s[j - 1]);
                assert(s[j - 1].modified != x.modified);
            } else if i < p && j == p {
                assert(r[i] == s[i]);
                assert(s[i].modified != x.modified);
            } else if i < p && j < p {
                assert(r[i] == s[i] && r[j] == s[j]);
            } else if i < p && j > p {
                assert(r[i] == s[i] && r[j] == s[j - 1]);
            } else if i > p {
                assert(r[i] == s[i - 1] && r[j] == s[j - 1]);
            }
        }
    }
}

proof fn lemma_sort_desc_props(s: Seq<RecentRec>)
    ensures
        sort_desc(s).len() == s.len(),
        forall|t: u64| #[trigger] time_in(sort_desc(s), t) <==> time_in(s, t),
        times_desc(sort_desc(s)),
        times_distinct(s) ==> times_distinct(sort_desc(s)),
    decreases s.len(),
{
    if s.len() == 0 {
        assert forall|t: u64| #[trigger] time_in(sort_desc(s), t) <==> time_in(s, t) by {}
    } else {
        let d = s.drop_last();
        lemma_sort_desc_props(d);
        lemma_insert_desc_props(s.last(), sort_desc(d));
        assert forall|t: u64| time_in(s, t) implies #[trigger] time_in(sort_desc(s), t) by {
            let i = choose|i: int| 0 <= i < s.len() && (#[trigger] s[i]).modified == t;
            if i < s.len() - 1 {
                assert(d[i].modified == t);
                assert(time_in(d, t));
            }
        }
        assert forall|t: u64| #[trigger] time_in(sort_desc(s), t) implies time_in(s, t) by {
            if t != s.last().modified {
                assert(time_in(d, t));
                let i = choose|i: int| 0 <= i < d.len() && (#[trigger] d[i]).modified == t;
                assert(s[i].modified == t);
            } else {
                assert(s[s.len() - 1].modified == t);
            }
        }
        if times_distinct(s) {
            assert(times_distinct(d)) by {
                assert(forall|i: int| 0 <= i < d.len() ==> d[i] == s[i]);
            }
            assert(!time_in(d, s.last().modified)) by {
                if time_in(d, s.last().modified) {
                    let i = choose|i: int|
                        0 <= i < d.len() && (#[trigger] d[i]).modified == s.last().modified;
                    assert(s[i].modified == s[s.len() - 1].modified);
                }
            }
            assert(!time_in(sort_desc(d), s.last().modified));
        }
    }
}

/// Law: the recent list of `n` documents under a limit holds
/// `min(n, limit)` items, in never-increasing order of modification time.
pub proof fn lemma_recent_len_and_order(root: Seq<FsEntry>, prefix: Seq<char>, limit: int)
    requires
        0 <= limit,
    ensures
        spec_recent(root, prefix, limit).len() == if limit < collect_from(
            root,
            0,
            prefix,
            Seq::empty(),
            true,
        ).len() {
            limit as nat
        } else {
            collect_from(root, 0, prefix, Seq::empty(), true).len()
        },
        times_desc(spec_recent(root, prefix, limit)),
{
    let all = collect_from(root, 0, prefix, Seq::empty(), true);
    lemma_sort_desc_props(all);
    let sorted = sort_desc(all);
    let r = spec_recent(root, prefix, limit);
    assert forall|i: int, j: int| 0 <= i < j < r.len() implies (#[trigger] r[i]).modified >= (
    #[trigger] r[j]).modified by {
        assert(r[i] == sorted[i] && r[j] == sorted[j]);
    }
}

/// Law: when the documents' modification times are pairwise distinct, the
/// recent list is strictly decreasing in modification time.
pub proof fn lemma_recent_strictly_descending(root: Seq<FsEntry>, prefix: Seq<char>, limit: int)
    requires
        0 <= limit,
        times_distinct(collect_from(root, 0, prefix, Seq::empty(), true)),
    ensures
        forall|i: int, j: int|
            0 <= i < j < spec_recent(root, prefix, limit).len() ==> (#[trigger] spec_recent(
                root,
                prefix,
                limit,
            )[i]).modified > (#[trigger] spec_recent(root, prefix, limit)[j]).modified,
{
    let all = collect_from(root, 0, prefix, Seq::empty(), true);
    lemma_sort_desc_props(all);
    let sorted = sort_desc(all);
    let r = spec_recent(root, prefix, limit);
    assert forall|i: int, j: int| 0 <= i < j < r.len() implies (#[trigger] r[i]).modified > (
    #[trigger] r[j]).modified by {
        assert(r[i] == sorted[i] && r[j] == sorted[j]);
        assert(sorted[i].modified >= sorted[j].modified);
        assert(sorted[i].modified != sorted[j].modified);
    }
}

} // verus!
